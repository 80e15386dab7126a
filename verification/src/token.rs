//! The tokens of the expression language.

use crate::text;
use crate::text::{
    is_decimal_digit, is_text, is_white_space, parse_i64, push_chars, push_decimal, push_signed,
};
use vstd::prelude::*;
use vstd::slice::slice_subrange;
use vstd::string::StringExecFns;

verus! {

/// A token.
#[derive(Clone, Copy, Debug, PartialEq, Eq, Structural)]
pub enum Tok {
    /// An integer literal.
    Int(i64),
    /// `pc`
    Pc,
    /// `depth`
    Depth,
    /// `top`
    Top,
    /// `globals`
    Globals,
    /// `memory`
    Memory,
    /// `+`
    Plus,
    /// `-`
    Minus,
    /// `*`
    Star,
    /// `/`
    Slash,
    /// `%`
    Percent,
    /// `==`
    EqEq,
    /// `!=`
    Ne,
    /// `<`
    Lt,
    /// `<=`
    Le,
    /// `>`
    Gt,
    /// `>=`
    Ge,
    /// `&&`
    AndAnd,
    /// `||`
    OrOr,
    /// `!`
    Bang,
    /// `(`
    LParen,
    /// `)`
    RParen,
    /// `[`
    LBracket,
    /// `]`
    RBracket,
}

/// A token with the number of characters before it.
#[verifier::ext_equal]
pub struct Lexeme {
    /// The token.
    pub tok: Tok,
    /// Where it starts.
    pub at: nat,
}

/// A token with the number of characters before it.
#[derive(Clone, Copy)]
pub struct Placed {
    /// The token.
    pub tok: Tok,
    /// Where it starts.
    pub at: usize,
}

impl View for Placed {
    type V = Lexeme;

    open spec fn view(&self) -> Lexeme {
        Lexeme { tok: self.tok, at: self.at as nat }
    }
}

/// The contents of several placed tokens.
pub open spec fn placed(toks: Seq<Placed>) -> Seq<Lexeme> {
    toks.map_values(|p: Placed| p@)
}

/// The name of a token, as messages show it.
pub open spec fn shown(tok: Tok) -> Seq<char> {
    match tok {
        Tok::Int(v) => "Int("@ + text::signed_decimal(v as int) + seq![')'],
        Tok::Pc => "Pc"@,
        Tok::Depth => "Depth"@,
        Tok::Top => "Top"@,
        Tok::Globals => "Globals"@,
        Tok::Memory => "Memory"@,
        Tok::Plus => "Plus"@,
        Tok::Minus => "Minus"@,
        Tok::Star => "Star"@,
        Tok::Slash => "Slash"@,
        Tok::Percent => "Percent"@,
        Tok::EqEq => "EqEq"@,
        Tok::Ne => "Ne"@,
        Tok::Lt => "Lt"@,
        Tok::Le => "Le"@,
        Tok::Gt => "Gt"@,
        Tok::Ge => "Ge"@,
        Tok::AndAnd => "AndAnd"@,
        Tok::OrOr => "OrOr"@,
        Tok::Bang => "Bang"@,
        Tok::LParen => "LParen"@,
        Tok::RParen => "RParen"@,
        Tok::LBracket => "LBracket"@,
        Tok::RBracket => "RBracket"@,
    }
}

/// Append the name of a token.
pub fn push_token(out: &mut String, tok: Tok)
    ensures
        final(out)@ == old(out)@ + shown(tok),
{
    let name: &str = match tok {
        Tok::Int(v) => {
            out.append("Int(");
            push_signed(out, v);
            out.push(')');
            assert(out@ =~= old(out)@ + shown(tok));
            return;
        },
        Tok::Pc => "Pc",
        Tok::Depth => "Depth",
        Tok::Top => "Top",
        Tok::Globals => "Globals",
        Tok::Memory => "Memory",
        Tok::Plus => "Plus",
        Tok::Minus => "Minus",
        Tok::Star => "Star",
        Tok::Slash => "Slash",
        Tok::Percent => "Percent",
        Tok::EqEq => "EqEq",
        Tok::Ne => "Ne",
        Tok::Lt => "Lt",
        Tok::Le => "Le",
        Tok::Gt => "Gt",
        Tok::Ge => "Ge",
        Tok::AndAnd => "AndAnd",
        Tok::OrOr => "OrOr",
        Tok::Bang => "Bang",
        Tok::LParen => "LParen",
        Tok::RParen => "RParen",
        Tok::LBracket => "LBracket",
        Tok::RBracket => "RBracket",
    };
    out.append(name);
}

/// The place of a fault, as messages show it.
pub open spec fn place(at: nat) -> Seq<char> {
    " at offset "@ + text::decimal(at)
}

/// Append the place of a fault.
pub fn push_place(out: &mut String, at: usize)
    ensures
        final(out)@ == old(out)@ + place(at as nat),
{
    out.append(" at offset ");
    push_decimal(out, at as u64);
    assert(out@ =~= old(out)@ + place(at as nat));
}

/// How many decimal digits a text has at its start.
pub open spec fn digit_span(chars: Seq<char>) -> nat
    decreases chars.len(),
{
    if chars.len() > 0 && text::is_digit(chars[0]) {
        1 + digit_span(chars.skip(1))
    } else {
        0
    }
}

/// How many characters of a word a text has at its start.
pub open spec fn word_span(chars: Seq<char>) -> nat
    decreases chars.len(),
{
    if chars.len() > 0 && text::continues_word(chars[0]) {
        1 + word_span(chars.skip(1))
    } else {
        0
    }
}

/// The token of a variable name.
pub open spec fn keyword(word: Seq<char>) -> Option<Tok> {
    if word == "pc"@ {
        Some(Tok::Pc)
    } else if word == "depth"@ {
        Some(Tok::Depth)
    } else if word == "top"@ {
        Some(Tok::Top)
    } else if word == "globals"@ {
        Some(Tok::Globals)
    } else if word == "memory"@ {
        Some(Tok::Memory)
    } else {
        None
    }
}

/// The operator of two characters.
pub open spec fn double_operator(a: char, b: char) -> Option<Tok> {
    if a == '=' && b == '=' {
        Some(Tok::EqEq)
    } else if a == '!' && b == '=' {
        Some(Tok::Ne)
    } else if a == '<' && b == '=' {
        Some(Tok::Le)
    } else if a == '>' && b == '=' {
        Some(Tok::Ge)
    } else if a == '&' && b == '&' {
        Some(Tok::AndAnd)
    } else if a == '|' && b == '|' {
        Some(Tok::OrOr)
    } else {
        None
    }
}

/// The operator of one character.
pub open spec fn single_operator(c: char) -> Option<Tok> {
    match c {
        '+' => Some(Tok::Plus),
        '-' => Some(Tok::Minus),
        '*' => Some(Tok::Star),
        '/' => Some(Tok::Slash),
        '%' => Some(Tok::Percent),
        '<' => Some(Tok::Lt),
        '>' => Some(Tok::Gt),
        '!' => Some(Tok::Bang),
        '(' => Some(Tok::LParen),
        ')' => Some(Tok::RParen),
        '[' => Some(Tok::LBracket),
        ']' => Some(Tok::RBracket),
        _ => None,
    }
}

/// The token at the start of a text that starts with no white space, and its
/// length; or what is wrong with it. The text starts after `at` characters.
pub open spec fn first_token(chars: Seq<char>, at: nat) -> Result<(Tok, nat), Seq<char>> {
    let c = chars[0];
    if text::is_digit(c) {
        let digits = chars.take(digit_span(chars) as int);
        if text::number(digits) <= i64::MAX {
            Ok((Tok::Int(text::number(digits) as i64), digits.len()))
        } else {
            Err("integer literal `"@ + digits + "` is out of range"@ + place(at))
        }
    } else if text::starts_word(c) {
        let word = chars.take(word_span(chars) as int);
        match keyword(word) {
            Some(tok) => Ok((tok, word.len())),
            None => Err(
                "unknown variable `"@ + word
                    + "` (available: pc, depth, top, globals[e], memory[e])"@ + place(at),
            ),
        }
    } else if chars.len() > 1 && double_operator(c, chars[1]) is Some {
        Ok((double_operator(c, chars[1])->0, 2))
    } else {
        match single_operator(c) {
            Some(tok) => Ok((tok, 1)),
            None => Err("unexpected character `"@ + seq![c] + "`"@ + place(at)),
        }
    }
}

/// The first token has a length, and is within the text.
pub proof fn lemma_first_token(chars: Seq<char>, at: nat)
    requires
        chars.len() > 0,
    ensures
        digit_span(chars) <= chars.len(),
        word_span(chars) <= chars.len(),
        first_token(chars, at) matches Ok((tok, n)) ==> 0 < n <= chars.len(),
{
    lemma_spans(chars);
}

/// No span is longer than the text.
proof fn lemma_spans(chars: Seq<char>)
    ensures
        digit_span(chars) <= chars.len(),
        word_span(chars) <= chars.len(),
    decreases chars.len(),
{
    if chars.len() > 0 {
        lemma_spans(chars.skip(1));
    }
}

/// The tokens of a text, or the first fault. The text starts after `at`
/// characters.
pub open spec fn tokens(chars: Seq<char>, at: nat) -> Result<Seq<Lexeme>, Seq<char>>
    decreases chars.len(),
{
    if chars.len() == 0 {
        Ok(Seq::empty())
    } else if text::white_space(chars[0]) {
        tokens(chars.skip(1), at + 1)
    } else {
        match first_token(chars, at) {
            Err(m) => Err(m),
            Ok((tok, n)) => {
                proof {
                    lemma_first_token(chars, at);
                }
                match tokens(chars.skip(n as int), at + n) {
                    Err(m) => Err(m),
                    Ok(rest) => Ok(seq![Lexeme { tok, at }] + rest),
                }
            },
        }
    }
}

/// How many decimal digits a text has at its start.
fn count_digits(chars: &[char]) -> (n: usize)
    ensures
        n == digit_span(chars@),
        n <= chars.len(),
        forall|k: int| 0 <= k < n ==> text::is_digit(#[trigger] chars@[k]),
{
    let mut i: usize = 0;
    assert(chars@.skip(0) =~= chars@);
    while i < chars.len() && is_decimal_digit(chars[i])
        invariant
            i <= chars.len(),
            digit_span(chars@) == i + digit_span(chars@.skip(i as int)),
            forall|k: int| 0 <= k < i ==> text::is_digit(#[trigger] chars@[k]),
        decreases chars.len() - i,
    {
        assert(chars@.skip(i as int).skip(1) =~= chars@.skip(i + 1));
        i += 1;
    }
    i
}

/// How many characters of a word a text has at its start.
fn count_word(chars: &[char]) -> (n: usize)
    ensures
        n == word_span(chars@),
        n <= chars.len(),
{
    let mut i: usize = 0;
    assert(chars@.skip(0) =~= chars@);
    while i < chars.len() && (chars[i].is_alphanumeric() || chars[i] == '_')
        invariant
            i <= chars.len(),
            word_span(chars@) == i + word_span(chars@.skip(i as int)),
        decreases chars.len() - i,
    {
        assert(chars@.skip(i as int).skip(1) =~= chars@.skip(i + 1));
        i += 1;
    }
    i
}

/// Read the token of a variable name.
fn read_keyword(word: &[char]) -> (tok: Option<Tok>)
    ensures
        tok == keyword(word@),
{
    if is_text(word, "pc") {
        Some(Tok::Pc)
    } else if is_text(word, "depth") {
        Some(Tok::Depth)
    } else if is_text(word, "top") {
        Some(Tok::Top)
    } else if is_text(word, "globals") {
        Some(Tok::Globals)
    } else if is_text(word, "memory") {
        Some(Tok::Memory)
    } else {
        None
    }
}

/// Read the operator at the start of a text, with its length.
fn read_operator(chars: &[char]) -> (r: Option<(Tok, usize)>)
    requires
        chars@.len() > 0,
    ensures
        r == (if chars@.len() > 1 && double_operator(chars@[0], chars@[1]) is Some {
            Some((double_operator(chars@[0], chars@[1])->0, 2usize))
        } else {
            match single_operator(chars@[0]) {
                Some(tok) => Some((tok, 1usize)),
                None => None,
            }
        }),
{
    let c: char = chars[0];
    let d: char = if chars.len() > 1 {
        chars[1]
    } else {
        ' '
    };
    if d == '=' {
        match c {
            '=' => return Some((Tok::EqEq, 2)),
            '!' => return Some((Tok::Ne, 2)),
            '<' => return Some((Tok::Le, 2)),
            '>' => return Some((Tok::Ge, 2)),
            _ => {},
        }
    }
    if c == '&' && d == '&' {
        return Some((Tok::AndAnd, 2));
    }
    if c == '|' && d == '|' {
        return Some((Tok::OrOr, 2));
    }
    let tok: Tok = match c {
        '+' => Tok::Plus,
        '-' => Tok::Minus,
        '*' => Tok::Star,
        '/' => Tok::Slash,
        '%' => Tok::Percent,
        '<' => Tok::Lt,
        '>' => Tok::Gt,
        '!' => Tok::Bang,
        '(' => Tok::LParen,
        ')' => Tok::RParen,
        '[' => Tok::LBracket,
        ']' => Tok::RBracket,
        _ => return None,
    };
    Some((tok, 1))
}

/// A message about a piece of text at a place.
fn complaint(before: &str, quoted: &[char], after: &str, at: usize) -> (m: String)
    ensures
        m@ == before@ + quoted@ + after@ + place(at as nat),
{
    let mut m = before.to_owned();
    push_chars(&mut m, quoted);
    m.append(after);
    push_place(&mut m, at);
    m
}

/// Read the token at the start of a text, with its length.
fn read_token(chars: &[char], at: usize) -> (r: Result<(Tok, usize), String>)
    requires
        chars@.len() > 0,
    ensures
        match r {
            Ok((tok, n)) => first_token(chars@, at as nat) == Ok::<(Tok, nat), Seq<char>>(
                (tok, n as nat),
            ),
            Err(m) => first_token(chars@, at as nat) == Err::<(Tok, nat), Seq<char>>(m@),
        },
{
    let c: char = chars[0];
    if is_decimal_digit(c) {
        let n: usize = count_digits(chars);
        let digits: &[char] = slice_subrange(chars, 0, n);
        assert(digits@ =~= chars@.take(n as int));
        proof {
            lemma_first_token(chars@, at as nat);
            assert(digits@[0] == chars@[0]);
            assert(text::is_number(digits@)) by {
                assert forall|i: int| 0 <= i < digits@.len() implies text::is_digit(
                    #[trigger] digits@[i],
                ) by {
                    assert(digits@[i] == chars@[i]);
                }
            }
        }
        match parse_i64(digits) {
            Some(v) => Ok((Tok::Int(v), n)),
            None => Err(complaint("integer literal `", digits, "` is out of range", at)),
        }
    } else if c.is_alphabetic() || c == '_' {
        let n: usize = count_word(chars);
        let word: &[char] = slice_subrange(chars, 0, n);
        assert(word@ =~= chars@.take(n as int));
        match read_keyword(word) {
            Some(tok) => Ok((tok, n)),
            None => Err(
                complaint(
                    "unknown variable `",
                    word,
                    "` (available: pc, depth, top, globals[e], memory[e])",
                    at,
                ),
            ),
        }
    } else {
        match read_operator(chars) {
            Some(found) => Ok(found),
            None => {
                let quoted: &[char] = slice_subrange(chars, 0, 1);
                assert(quoted@ =~= seq![c]);
                Err(complaint("unexpected character `", quoted, "`", at))
            },
        }
    }
}

/// Tokens in front of a result.
spec fn prefixed(
    before: Seq<Lexeme>,
    rest: Result<Seq<Lexeme>, Seq<char>>,
) -> Result<Seq<Lexeme>, Seq<char>> {
    match rest {
        Ok(toks) => Ok(before + toks),
        Err(m) => Err(m),
    }
}

/// Split a text into tokens.
pub fn tokenize(chars: &[char]) -> (r: Result<Vec<Placed>, String>)
    ensures
        match r {
            Ok(toks) => tokens(chars@, 0) == Ok::<Seq<Lexeme>, Seq<char>>(placed(toks@)),
            Err(m) => tokens(chars@, 0) == Err::<Seq<Lexeme>, Seq<char>>(m@),
        },
{
    let mut toks: Vec<Placed> = Vec::new();
    let mut i: usize = 0;
    proof {
        assert(chars@.skip(0) =~= chars@);
        if let Ok(all) = tokens(chars@, 0) {
            assert(placed(toks@) + all =~= all);
        }
    }
    while i < chars.len()
        invariant
            i <= chars.len(),
            tokens(chars@, 0) == prefixed(
                placed(toks@),
                tokens(chars@.skip(i as int), i as nat),
            ),
        decreases chars.len() - i,
    {
        let rest: &[char] = slice_subrange(chars, i, chars.len());
        assert(rest@ =~= chars@.skip(i as int));
        if is_white_space(chars[i]) {
            assert(rest@.skip(1) =~= chars@.skip(i + 1));
            i += 1;
        } else {
            proof {
                lemma_first_token(rest@, i as nat);
            }
            match read_token(rest, i) {
                Ok((tok, n)) => {
                    let ghost before = toks@;
                    toks.push(Placed { tok, at: i });
                    proof {
                        assert(rest@.skip(n as int) =~= chars@.skip(i + n));
                        let one = Lexeme { tok, at: i as nat };
                        assert(placed(toks@) =~= placed(before).push(one));
                        if let Ok(more) = tokens(rest@.skip(n as int), i as nat + n as nat) {
                            assert(placed(before) + (seq![one] + more) =~= placed(toks@) + more);
                        }
                    }
                    i += n;
                },
                Err(m) => {
                    return Err(m);
                },
            }
        }
    }
    proof {
        assert(chars@.skip(i as int) =~= Seq::empty());
        assert(placed(toks@) + Seq::<Lexeme>::empty() =~= placed(toks@));
    }
    Ok(toks)
}

/// Whether a message ends in the place `at`.
pub open spec fn names_place(m: Seq<char>, before: Seq<char>, at: nat) -> bool {
    m == before + place(at)
}

/// Whether a message ends in a place within a text of `len` characters.
pub open spec fn located(m: Seq<char>, len: nat) -> bool {
    exists|before: Seq<char>, at: nat| at <= len && #[trigger] names_place(m, before, at)
}

/// Tokens lie within the text, and so does the place that a fault names.
pub proof fn lemma_places(chars: Seq<char>, at: nat)
    ensures
        match tokens(chars, at) {
            Ok(toks) => forall|k: int|
                0 <= k < toks.len() ==> (#[trigger] toks[k]).at < at + chars.len(),
            Err(m) => located(m, at + chars.len()),
        },
    decreases chars.len(),
{
    if chars.len() > 0 {
        if text::white_space(chars[0]) {
            lemma_places(chars.skip(1), at + 1);
        } else {
            lemma_first_token(chars, at);
            match first_token(chars, at) {
                Ok((tok, n)) => {
                    lemma_places(chars.skip(n as int), at + n);
                    if let Ok(rest) = tokens(chars.skip(n as int), at + n) {
                        let toks = seq![Lexeme { tok, at }] + rest;
                        assert forall|k: int| 0 <= k < toks.len() implies (#[trigger] toks[k]).at
                            < at + chars.len() by {
                            if k > 0 {
                                assert(toks[k] == rest[k - 1]);
                            }
                        }
                    }
                },
                Err(m) => {
                    let c = chars[0];
                    let before = if text::is_digit(c) {
                        "integer literal `"@ + chars.take(digit_span(chars) as int)
                            + "` is out of range"@
                    } else if text::starts_word(c) {
                        "unknown variable `"@ + chars.take(word_span(chars) as int)
                            + "` (available: pc, depth, top, globals[e], memory[e])"@
                    } else {
                        "unexpected character `"@ + seq![c] + "`"@
                    };
                    assert(names_place(m, before, at));
                },
            }
        }
    }
}

} // verus!
