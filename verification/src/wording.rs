//! Every expression without negative constants can be written down: fully
//! parenthesised, it is a text that parses to that expression.

use crate::disassembly;
use crate::expr::Expr;
use crate::grammar;
use crate::text;
use crate::token;
use crate::token::{Lexeme, Tok};
use vstd::prelude::*;

verus! {

/// How a token is written.
pub open spec fn written_token(tok: Tok) -> Seq<char> {
    match tok {
        Tok::Int(v) => text::decimal(v as nat),
        Tok::Pc => seq!['p', 'c'],
        Tok::Depth => seq!['d', 'e', 'p', 't', 'h'],
        Tok::Top => seq!['t', 'o', 'p'],
        Tok::Globals => seq!['g', 'l', 'o', 'b', 'a', 'l', 's'],
        Tok::Memory => seq!['m', 'e', 'm', 'o', 'r', 'y'],
        Tok::Plus => seq!['+'],
        Tok::Minus => seq!['-'],
        Tok::Star => seq!['*'],
        Tok::Slash => seq!['/'],
        Tok::Percent => seq!['%'],
        Tok::EqEq => seq!['=', '='],
        Tok::Ne => seq!['!', '='],
        Tok::Lt => seq!['<'],
        Tok::Le => seq!['<', '='],
        Tok::Gt => seq!['>'],
        Tok::Ge => seq!['>', '='],
        Tok::AndAnd => seq!['&', '&'],
        Tok::OrOr => seq!['|', '|'],
        Tok::Bang => seq!['!'],
        Tok::LParen => seq!['('],
        Tok::RParen => seq![')'],
        Tok::LBracket => seq!['['],
        Tok::RBracket => seq![']'],
    }
}

/// Tokens written one after the other, each before a space.
pub open spec fn written_tokens(toks: Seq<Tok>) -> Seq<char>
    decreases toks.len(),
{
    if toks.len() == 0 {
        Seq::empty()
    } else {
        written_token(toks[0]) + seq![' '] + written_tokens(toks.skip(1))
    }
}

/// Whether every integer among the tokens can be written: none is negative.
pub open spec fn writable(toks: Seq<Tok>) -> bool {
    forall|i: int| 0 <= i < toks.len() ==> ((#[trigger] toks[i]) matches Tok::Int(v) ==> v >= 0)
}

/// Whether no constant of an expression is negative.
pub open spec fn no_negatives(e: Expr) -> bool
    decreases e,
{
    match e {
        Expr::Const(v) => v >= 0,
        Expr::Pc | Expr::Depth | Expr::Top => true,
        Expr::Global(a) | Expr::Memory(a) | Expr::Not(a) | Expr::Neg(a) => no_negatives(*a),
        Expr::Add(a, b)
        | Expr::Sub(a, b)
        | Expr::Mul(a, b)
        | Expr::Div(a, b)
        | Expr::Mod(a, b)
        | Expr::Lt(a, b)
        | Expr::Le(a, b)
        | Expr::Gt(a, b)
        | Expr::Ge(a, b)
        | Expr::Eq(a, b)
        | Expr::Ne(a, b)
        | Expr::And(a, b)
        | Expr::Or(a, b) => no_negatives(*a) && no_negatives(*b),
    }
}

/// The tier, the operator and the operands of a binary expression.
pub open spec fn parts(e: Expr) -> Option<(nat, Tok, Expr, Expr)> {
    match e {
        Expr::Add(a, b) => Some((3, Tok::Plus, *a, *b)),
        Expr::Sub(a, b) => Some((3, Tok::Minus, *a, *b)),
        Expr::Mul(a, b) => Some((4, Tok::Star, *a, *b)),
        Expr::Div(a, b) => Some((4, Tok::Slash, *a, *b)),
        Expr::Mod(a, b) => Some((4, Tok::Percent, *a, *b)),
        Expr::Lt(a, b) => Some((2, Tok::Lt, *a, *b)),
        Expr::Le(a, b) => Some((2, Tok::Le, *a, *b)),
        Expr::Gt(a, b) => Some((2, Tok::Gt, *a, *b)),
        Expr::Ge(a, b) => Some((2, Tok::Ge, *a, *b)),
        Expr::Eq(a, b) => Some((2, Tok::EqEq, *a, *b)),
        Expr::Ne(a, b) => Some((2, Tok::Ne, *a, *b)),
        Expr::And(a, b) => Some((1, Tok::AndAnd, *a, *b)),
        Expr::Or(a, b) => Some((0, Tok::OrOr, *a, *b)),
        _ => None,
    }
}

/// The tokens of an expression, every compound one in parentheses.
pub open spec fn tokens_of(e: Expr) -> Seq<Tok>
    decreases e,
{
    match e {
        Expr::Const(v) => seq![Tok::Int(v)],
        Expr::Pc => seq![Tok::Pc],
        Expr::Depth => seq![Tok::Depth],
        Expr::Top => seq![Tok::Top],
        Expr::Global(a) => seq![Tok::Globals, Tok::LBracket] + tokens_of(*a) + seq![Tok::RBracket],
        Expr::Memory(a) => seq![Tok::Memory, Tok::LBracket] + tokens_of(*a) + seq![Tok::RBracket],
        Expr::Not(a) => seq![Tok::LParen, Tok::Bang] + tokens_of(*a) + seq![Tok::RParen],
        Expr::Neg(a) => seq![Tok::LParen, Tok::Minus] + tokens_of(*a) + seq![Tok::RParen],
        Expr::Add(a, b) => infix(tokens_of(*a), Tok::Plus, tokens_of(*b)),
        Expr::Sub(a, b) => infix(tokens_of(*a), Tok::Minus, tokens_of(*b)),
        Expr::Mul(a, b) => infix(tokens_of(*a), Tok::Star, tokens_of(*b)),
        Expr::Div(a, b) => infix(tokens_of(*a), Tok::Slash, tokens_of(*b)),
        Expr::Mod(a, b) => infix(tokens_of(*a), Tok::Percent, tokens_of(*b)),
        Expr::Lt(a, b) => infix(tokens_of(*a), Tok::Lt, tokens_of(*b)),
        Expr::Le(a, b) => infix(tokens_of(*a), Tok::Le, tokens_of(*b)),
        Expr::Gt(a, b) => infix(tokens_of(*a), Tok::Gt, tokens_of(*b)),
        Expr::Ge(a, b) => infix(tokens_of(*a), Tok::Ge, tokens_of(*b)),
        Expr::Eq(a, b) => infix(tokens_of(*a), Tok::EqEq, tokens_of(*b)),
        Expr::Ne(a, b) => infix(tokens_of(*a), Tok::Ne, tokens_of(*b)),
        Expr::And(a, b) => infix(tokens_of(*a), Tok::AndAnd, tokens_of(*b)),
        Expr::Or(a, b) => infix(tokens_of(*a), Tok::OrOr, tokens_of(*b)),
    }
}

/// An infix operator between its operands, in parentheses.
pub open spec fn infix(a: Seq<Tok>, op: Tok, b: Seq<Tok>) -> Seq<Tok> {
    seq![Tok::LParen] + a + seq![op] + b + seq![Tok::RParen]
}

/// How an expression is written.
pub open spec fn written(e: Expr) -> Seq<char> {
    written_tokens(tokens_of(e))
}

/// The tokens of an expression derive it as a primary.
proof fn lemma_tokens_derive(e: Expr)
    ensures
        tokens_of(e).len() > 0,
        !(tokens_of(e)[0] is Minus || tokens_of(e)[0] is Bang),
        grammar::derives_primary(e, tokens_of(e)),
        forall|tier: nat|
            tier <= grammar::TIERS ==> #[trigger] grammar::derives(tier, e, tokens_of(e)),
    decreases e,
{
    let s = tokens_of(e);
    match e {
        Expr::Const(_) | Expr::Pc | Expr::Depth | Expr::Top => {
            assert(grammar::derives_primary(e, s));
        },
        Expr::Global(a) | Expr::Memory(a) => {
            lemma_tokens_derive(*a);
            assert(s.subrange(2, s.len() - 1) =~= tokens_of(*a));
            assert(grammar::derives(0, *a, tokens_of(*a)));
            assert(s[1] == Tok::LBracket && s.last() == Tok::RBracket);
            assert(grammar::derives_primary(e, s));
        },
        Expr::Not(a) | Expr::Neg(a) => {
            lemma_tokens_derive(*a);
            let inner = s.subrange(1, s.len() - 1);
            assert(inner.skip(1) =~= tokens_of(*a));
            assert(grammar::derives_prefixed(*a, tokens_of(*a)));
            assert(grammar::derives_prefixed(e, inner));
            assert(grammar::derives(grammar::TIERS as nat, e, inner));
            grammar::lemma_looser(0, grammar::TIERS as nat, e, inner);
            assert(s[0] == Tok::LParen && s.last() == Tok::RParen);
            assert(grammar::derives_primary(e, s));
        },
        Expr::Add(a, b)
        | Expr::Sub(a, b)
        | Expr::Mul(a, b)
        | Expr::Div(a, b)
        | Expr::Mod(a, b)
        | Expr::Lt(a, b)
        | Expr::Le(a, b)
        | Expr::Gt(a, b)
        | Expr::Ge(a, b)
        | Expr::Eq(a, b)
        | Expr::Ne(a, b)
        | Expr::And(a, b)
        | Expr::Or(a, b) => {
            lemma_tokens_derive(*a);
            lemma_tokens_derive(*b);
            let (tier, op, l, r) = parts(e)->0;
            let inner = s.subrange(1, s.len() - 1);
            let k = tokens_of(*a).len() as int;
            assert(s == infix(tokens_of(*a), op, tokens_of(*b)));
            assert(inner.take(k) =~= tokens_of(*a));
            assert(inner.skip(k + 1) =~= tokens_of(*b));
            assert(inner[k] == op);
            assert(grammar::derives(tier, *a, inner.take(k)));
            assert(grammar::derives(tier + 1, *b, inner.skip(k + 1)));
            assert(e == grammar::combined(inner[k], *a, *b));
            assert(grammar::derives(tier, e, inner));
            grammar::lemma_looser(0, tier, e, inner);
            assert(s[0] == Tok::LParen && s.last() == Tok::RParen);
            assert(grammar::derives_primary(e, s));
        },
    }
    assert(grammar::derives_prefixed(e, s));
    assert(grammar::derives(grammar::TIERS as nat, e, s));
    assert forall|tier: nat| tier <= grammar::TIERS implies #[trigger] grammar::derives(
        tier,
        e,
        s,
    ) by {
        grammar::lemma_looser(tier, grammar::TIERS as nat, e, s);
    }
}

/// Digits end where a space comes.
proof fn lemma_digits_end(digits: Seq<char>, rest: Seq<char>)
    requires
        forall|i: int| 0 <= i < digits.len() ==> text::is_digit(#[trigger] digits[i]),
    ensures
        token::digit_span(digits + seq![' '] + rest) == digits.len(),
    decreases digits.len(),
{
    let all = digits + seq![' '] + rest;
    if digits.len() > 0 {
        assert(all.skip(1) =~= digits.skip(1) + seq![' '] + rest);
        lemma_digits_end(digits.skip(1), rest);
        assert(all[0] == digits[0]);
    }
}

/// A word ends where a space comes.
proof fn lemma_word_ends(word: Seq<char>, rest: Seq<char>)
    requires
        forall|i: int| 0 <= i < word.len() ==> text::ascii_letter(#[trigger] word[i]),
    ensures
        token::word_span(word + seq![' '] + rest) == word.len(),
    decreases word.len(),
{
    let all = word + seq![' '] + rest;
    if word.len() > 0 {
        assert(all.skip(1) =~= word.skip(1) + seq![' '] + rest);
        lemma_word_ends(word.skip(1), rest);
        assert(all[0] == word[0]);
        assert(text::ascii_letter(word[0]));
    }
}

/// How the variable names are spelled.
pub proof fn lemma_names()
    ensures
        "pc"@ == written_token(Tok::Pc),
        "depth"@ == written_token(Tok::Depth),
        "top"@ == written_token(Tok::Top),
        "globals"@ == written_token(Tok::Globals),
        "memory"@ == written_token(Tok::Memory),
{
    reveal_strlit("pc");
    reveal_strlit("depth");
    reveal_strlit("top");
    reveal_strlit("globals");
    reveal_strlit("memory");
    assert("pc"@ =~= seq!['p', 'c']);
    assert("depth"@ =~= seq!['d', 'e', 'p', 't', 'h']);
    assert("top"@ =~= seq!['t', 'o', 'p']);
    assert("globals"@ =~= seq!['g', 'l', 'o', 'b', 'a', 'l', 's']);
    assert("memory"@ =~= seq!['m', 'e', 'm', 'o', 'r', 'y']);
}

/// Each variable name is the keyword of its token.
pub proof fn lemma_keywords()
    ensures
        token::keyword(seq!['p', 'c']) == Some(Tok::Pc),
        token::keyword(seq!['d', 'e', 'p', 't', 'h']) == Some(Tok::Depth),
        token::keyword(seq!['t', 'o', 'p']) == Some(Tok::Top),
        token::keyword(seq!['g', 'l', 'o', 'b', 'a', 'l', 's']) == Some(Tok::Globals),
        token::keyword(seq!['m', 'e', 'm', 'o', 'r', 'y']) == Some(Tok::Memory),
{
    lemma_names();
}

/// A written token before a space is read as that token.
proof fn lemma_token_read(tok: Tok, rest: Seq<char>, at: nat)
    requires
        tok matches Tok::Int(v) ==> v >= 0,
    ensures
        ({
            let chars = written_token(tok) + seq![' '] + rest;
            &&& written_token(tok).len() > 0
            &&& !text::white_space(chars[0])
            &&& token::first_token(chars, at) == Ok::<(Tok, nat), Seq<char>>(
                (tok, written_token(tok).len()),
            )
        }),
{
    let w = written_token(tok);
    let chars = w + seq![' '] + rest;
    if let Tok::Int(v) = tok {
        disassembly::decimal_denotes_its_number(v as nat);
        lemma_digits_end(w, rest);
        assert(chars.take(w.len() as int) =~= w);
        assert(text::is_digit(w[0]));
        assert(chars[0] == w[0]);
    } else if tok is Pc || tok is Depth || tok is Top || tok is Globals || tok is Memory {
        lemma_keywords();
        lemma_word_ends(w, rest);
        assert(chars.take(w.len() as int) =~= w);
        assert(chars[0] == w[0]);
    } else {
        assert(chars[0] == w[0]);
        assert(w.len() == 1 ==> chars[1] == ' ');
        assert(w.len() == 2 ==> chars[1] == w[1]);
    }
}

/// Written tokens are read as those tokens.
proof fn lemma_tokens_read(toks: Seq<Tok>, at: nat)
    requires
        writable(toks),
    ensures
        token::tokens(written_tokens(toks), at) matches Ok(read) && grammar::kinds(read) == toks,
    decreases toks.len(),
{
    if toks.len() == 0 {
        assert(grammar::kinds(Seq::<Lexeme>::empty()) =~= toks);
    } else {
        let w = written_token(toks[0]);
        let more = written_tokens(toks.skip(1));
        let chars = w + seq![' '] + more;
        let n = w.len();
        assert(writable(toks.skip(1))) by {
            assert forall|i: int| 0 <= i < toks.skip(1).len() implies ((
            #[trigger] toks.skip(1)[i]) matches Tok::Int(v) ==> v >= 0) by {
                assert(toks.skip(1)[i] == toks[i + 1]);
            }
        }
        lemma_token_read(toks[0], more, at);
        lemma_tokens_read(toks.skip(1), at + n + 1);
        let tail = chars.skip(n as int);
        assert(tail[0] == ' ');
        assert(tail.skip(1) =~= more);
        assert(token::tokens(tail, at + n) == token::tokens(more, at + n + 1));
        let read = token::tokens(more, at + n + 1)->Ok_0;
        let first = Lexeme { tok: toks[0], at };
        assert(token::tokens(chars, at) == Ok::<Seq<Lexeme>, Seq<char>>(seq![first] + read));
        assert(grammar::kinds(seq![first] + read) =~= seq![toks[0]] + grammar::kinds(read));
        assert(seq![toks[0]] + toks.skip(1) =~= toks);
    }
}

/// The tokens of an expression without negative constants can be written.
proof fn lemma_tokens_writable(e: Expr)
    requires
        no_negatives(e),
    ensures
        writable(tokens_of(e)),
    decreases e,
{
    let s = tokens_of(e);
    match e {
        Expr::Const(_) | Expr::Pc | Expr::Depth | Expr::Top => {},
        Expr::Global(a) | Expr::Memory(a) | Expr::Not(a) | Expr::Neg(a) => {
            lemma_tokens_writable(*a);
            let inner = tokens_of(*a);
            assert forall|i: int| 0 <= i < s.len() implies ((#[trigger] s[i]) matches Tok::Int(v)
                ==> v >= 0) by {
                if 2 <= i < s.len() - 1 {
                    assert(s[i] == inner[i - 2]);
                }
            }
        },
        Expr::Add(a, b)
        | Expr::Sub(a, b)
        | Expr::Mul(a, b)
        | Expr::Div(a, b)
        | Expr::Mod(a, b)
        | Expr::Lt(a, b)
        | Expr::Le(a, b)
        | Expr::Gt(a, b)
        | Expr::Ge(a, b)
        | Expr::Eq(a, b)
        | Expr::Ne(a, b)
        | Expr::And(a, b)
        | Expr::Or(a, b) => {
            lemma_tokens_writable(*a);
            lemma_tokens_writable(*b);
            let (tier, op, l, r) = parts(e)->0;
            let left = tokens_of(*a);
            let right = tokens_of(*b);
            assert(s == infix(left, op, right));
            assert forall|i: int| 0 <= i < s.len() implies ((#[trigger] s[i]) matches Tok::Int(v)
                ==> v >= 0) by {
                if 1 <= i <= left.len() {
                    assert(s[i] == left[i - 1]);
                } else if left.len() + 2 <= i < s.len() - 1 {
                    assert(s[i] == right[i - left.len() - 2]);
                }
            }
        },
    }
}

/// Every expression without negative constants can be written down: its text
/// parses to it. (A negative constant is written as the negation of a positive
/// one, which is another expression.)
pub proof fn written_expressions_parse_to_themselves(e: Expr)
    requires
        no_negatives(e),
    ensures
        grammar::expression(written(e)) == Ok::<Expr, Seq<char>>(e),
{
    lemma_tokens_writable(e);
    lemma_tokens_read(tokens_of(e), 0);
    lemma_tokens_derive(e);
    assert(grammar::derives(0, e, tokens_of(e)));
    grammar::parser_follows_the_grammar(written(e), e);
}

} // verus!
