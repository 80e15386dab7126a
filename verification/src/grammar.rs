//! The grammar of the expression language and its parser.
//!
//! Binary operators come in five tiers, from the loosest to the tightest:
//! `||`, `&&`, comparisons, `+ -`, and `* / %`. Within a tier they associate to
//! the left. The prefix operators `-` and `!` bind tighter than all of them.

use crate::expr::Expr;
use crate::token;
use crate::token::{push_place, push_token, tokenize, Lexeme, Placed, Tok};
use vstd::prelude::*;
use vstd::string::StringExecFns;

verus! {

/// The number of tiers of binary operators.
pub const TIERS: u8 = 5;

/// How many tiers bind tighter than this one, counting itself.
pub open spec fn tiers_left(tier: nat) -> int {
    if tier < TIERS {
        TIERS - tier
    } else {
        0
    }
}

/// Whether a token is a binary operator of a tier.
pub open spec fn operates(tier: nat, tok: Tok) -> bool {
    if tier == 0 {
        tok is OrOr
    } else if tier == 1 {
        tok is AndAnd
    } else if tier == 2 {
        tok is EqEq || tok is Ne || tok is Lt || tok is Le || tok is Gt || tok is Ge
    } else if tier == 3 {
        tok is Plus || tok is Minus
    } else {
        tok is Star || tok is Slash || tok is Percent
    }
}

/// The expression that a binary operator makes of its operands.
pub open spec fn combined(tok: Tok, a: Expr, b: Expr) -> Expr {
    let (a, b) = (Box::new(a), Box::new(b));
    match tok {
        Tok::OrOr => Expr::Or(a, b),
        Tok::AndAnd => Expr::And(a, b),
        Tok::EqEq => Expr::Eq(a, b),
        Tok::Ne => Expr::Ne(a, b),
        Tok::Lt => Expr::Lt(a, b),
        Tok::Le => Expr::Le(a, b),
        Tok::Gt => Expr::Gt(a, b),
        Tok::Ge => Expr::Ge(a, b),
        Tok::Plus => Expr::Add(a, b),
        Tok::Minus => Expr::Sub(a, b),
        Tok::Star => Expr::Mul(a, b),
        Tok::Slash => Expr::Div(a, b),
        _ => Expr::Mod(a, b),
    }
}

/// What is wrong when a token that must come next does not. The text ends after
/// `end` characters.
pub open spec fn missing(
    toks: Seq<Lexeme>,
    i: nat,
    end: nat,
    tok: Tok,
    what: Seq<char>,
) -> Option<Seq<char>> {
    if i >= toks.len() {
        Some("expected "@ + what + ", found end of expression"@ + token::place(end))
    } else if toks[i as int].tok != tok {
        Some(
            "expected "@ + what + ", found `"@ + token::shown(toks[i as int].tok) + "`"@
                + token::place(toks[i as int].at),
        )
    } else {
        None
    }
}

/// Parse operands of the next tier, joined by operators of this one, from token
/// `i` on: the expression and the index of the token after it, or the first
/// fault.
pub open spec fn binary(tier: nat, toks: Seq<Lexeme>, i: nat, end: nat) -> Result<
    (Expr, nat),
    Seq<char>,
>
    decreases toks.len() - i, 4 + tiers_left(tier),
{
    if tier >= TIERS {
        unary(toks, i, end)
    } else {
        match binary(tier + 1, toks, i, end) {
            Ok((e, j)) => if i < j <= toks.len() {
                more(tier, e, toks, j, end)
            } else {
                Err(Seq::empty())
            },
            Err(m) => Err(m),
        }
    }
}

/// Go on after a left operand.
pub open spec fn more(tier: nat, lhs: Expr, toks: Seq<Lexeme>, i: nat, end: nat) -> Result<
    (Expr, nat),
    Seq<char>,
>
    decreases toks.len() - i, 3int,
{
    if i < toks.len() && operates(tier, toks[i as int].tok) {
        match binary(tier + 1, toks, i + 1, end) {
            Ok((rhs, j)) => if i < j <= toks.len() {
                more(tier, combined(toks[i as int].tok, lhs, rhs), toks, j, end)
            } else {
                Err(Seq::empty())
            },
            Err(m) => Err(m),
        }
    } else {
        Ok((lhs, i))
    }
}

/// Parse an operand with the prefix operators before it.
pub open spec fn unary(toks: Seq<Lexeme>, i: nat, end: nat) -> Result<(Expr, nat), Seq<char>>
    decreases toks.len() - i, 2int,
{
    if i < toks.len() && (toks[i as int].tok is Minus || toks[i as int].tok is Bang) {
        match unary(toks, i + 1, end) {
            Ok((e, j)) => if toks[i as int].tok is Minus {
                Ok((Expr::Neg(Box::new(e)), j))
            } else {
                Ok((Expr::Not(Box::new(e)), j))
            },
            Err(m) => Err(m),
        }
    } else {
        primary(toks, i, end)
    }
}

/// Parse a constant, a variable, an indexed read, or a parenthesised expression.
pub open spec fn primary(toks: Seq<Lexeme>, i: nat, end: nat) -> Result<(Expr, nat), Seq<char>>
    decreases toks.len() - i, 1int,
{
    if i >= toks.len() {
        Err("unexpected end of expression"@ + token::place(end))
    } else {
        match toks[i as int].tok {
            Tok::Int(v) => Ok((Expr::Const(v), i + 1)),
            Tok::Pc => Ok((Expr::Pc, i + 1)),
            Tok::Depth => Ok((Expr::Depth, i + 1)),
            Tok::Top => Ok((Expr::Top, i + 1)),
            Tok::Globals => match missing(
                toks,
                i + 1,
                end,
                Tok::LBracket,
                "`[` after `globals`"@,
            ) {
                Some(m) => Err(m),
                None => match enclosed(toks, i + 2, end, Tok::RBracket, "`]`"@) {
                    Ok((e, j)) => Ok((Expr::Global(Box::new(e)), j)),
                    Err(m) => Err(m),
                },
            },
            Tok::Memory => match missing(toks, i + 1, end, Tok::LBracket, "`[` after `memory`"@) {
                Some(m) => Err(m),
                None => match enclosed(toks, i + 2, end, Tok::RBracket, "`]`"@) {
                    Ok((e, j)) => Ok((Expr::Memory(Box::new(e)), j)),
                    Err(m) => Err(m),
                },
            },
            Tok::LParen => enclosed(toks, i + 1, end, Tok::RParen, "`)`"@),
            tok => Err(
                "unexpected token `"@ + token::shown(tok) + "`"@ + token::place(
                    toks[i as int].at,
                ),
            ),
        }
    }
}

/// Parse an expression and the token that closes it.
pub open spec fn enclosed(
    toks: Seq<Lexeme>,
    i: nat,
    end: nat,
    close: Tok,
    what: Seq<char>,
) -> Result<(Expr, nat), Seq<char>>
    decreases toks.len() - i, 11int,
{
    match binary(0, toks, i, end) {
        Ok((e, j)) => match missing(toks, j, end, close, what) {
            Some(m) => Err(m),
            None => Ok((e, j + 1)),
        },
        Err(m) => Err(m),
    }
}

/// Parse a complete text: its expression, or the first fault.
pub open spec fn expression(chars: Seq<char>) -> Result<Expr, Seq<char>> {
    let end = chars.len();
    match token::tokens(chars, 0) {
        Err(m) => Err(m),
        Ok(toks) => if toks.len() == 0 {
            Err("empty expression"@ + token::place(end))
        } else {
            match binary(0, toks, 0, end) {
                Err(m) => Err(m),
                Ok((e, j)) => if j < toks.len() {
                    Err(
                        "unexpected trailing input `"@ + token::shown(toks[j as int].tok) + "`"@
                            + token::place(toks[j as int].at),
                    )
                } else {
                    Ok(e)
                },
            }
        },
    }
}

/// Whether a token is a binary operator of a tier.
fn is_operator(tier: u8, tok: Tok) -> (b: bool)
    ensures
        b == operates(tier as nat, tok),
{
    match tok {
        Tok::OrOr => tier == 0,
        Tok::AndAnd => tier == 1,
        Tok::EqEq | Tok::Ne | Tok::Lt | Tok::Le | Tok::Gt | Tok::Ge => tier == 2,
        Tok::Plus | Tok::Minus => tier == 3,
        Tok::Star | Tok::Slash | Tok::Percent => tier > 3,
        _ => false,
    }
}

/// The expression that a binary operator makes of its operands.
fn combine(tok: Tok, a: Expr, b: Expr) -> (e: Expr)
    ensures
        e == combined(tok, a, b),
{
    let a: Box<Expr> = Box::new(a);
    let b: Box<Expr> = Box::new(b);
    match tok {
        Tok::OrOr => Expr::Or(a, b),
        Tok::AndAnd => Expr::And(a, b),
        Tok::EqEq => Expr::Eq(a, b),
        Tok::Ne => Expr::Ne(a, b),
        Tok::Lt => Expr::Lt(a, b),
        Tok::Le => Expr::Le(a, b),
        Tok::Gt => Expr::Gt(a, b),
        Tok::Ge => Expr::Ge(a, b),
        Tok::Plus => Expr::Add(a, b),
        Tok::Minus => Expr::Sub(a, b),
        Tok::Star => Expr::Mul(a, b),
        Tok::Slash => Expr::Div(a, b),
        _ => Expr::Mod(a, b),
    }
}

/// Whether a parser's result is the one that the grammar gives.
spec fn agrees(
    r: Result<(Expr, usize), String>,
    expected: Result<(Expr, nat), Seq<char>>,
    toks: Seq<Placed>,
    i: usize,
) -> bool {
    match r {
        Ok((e, j)) => {
            &&& expected == Ok::<(Expr, nat), Seq<char>>((e, j as nat))
            &&& i < j <= toks.len()
        },
        Err(m) => expected == Err::<(Expr, nat), Seq<char>>(m@),
    }
}

/// Tokens in text order, and where the text ends.
struct Parser {
    toks: Vec<Placed>,
    end: usize,
}

impl Parser {
    /// The tokens.
    spec fn toks(self) -> Seq<Placed> {
        self.toks@
    }

    /// The tokens with their places.
    spec fn lexemes(self) -> Seq<Lexeme> {
        token::placed(self.toks())
    }

    /// Where the text ends.
    spec fn end(self) -> nat {
        self.end as nat
    }

    fn peek(&self, i: usize) -> (tok: Option<Tok>)
        ensures
            tok == (if i < self.lexemes().len() {
                Some(self.lexemes()[i as int].tok)
            } else {
                None
            }),
            tok is Some ==> i < usize::MAX,
    {
        if i < self.toks.len() {
            Some(self.toks[i].tok)
        } else {
            None
        }
    }

    fn expect(&self, i: usize, tok: Tok, what: &str) -> (fault: Option<String>)
        ensures
            match fault {
                Some(m) => missing(self.lexemes(), i as nat, self.end(), tok, what@) == Some(m@),
                None => {
                    &&& missing(self.lexemes(), i as nat, self.end(), tok, what@) is None
                    &&& i < self.toks().len() <= usize::MAX
                },
            },
    {
        if i < self.toks.len() && self.toks[i].tok == tok {
            return None;
        }
        let mut m = "expected ".to_owned();
        m.append(what);
        if i < self.toks.len() {
            m.append(", found `");
            push_token(&mut m, self.toks[i].tok);
            m.append("`");
            push_place(&mut m, self.toks[i].at);
        } else {
            m.append(", found end of expression");
            push_place(&mut m, self.end);
        }
        Some(m)
    }

    /// A message about the token `i`.
    fn complaint(&self, before: &str, i: usize) -> (m: String)
        requires
            i < self.toks().len(),
        ensures
            m@ == before@ + token::shown(self.lexemes()[i as int].tok) + "`"@ + token::place(
                self.lexemes()[i as int].at,
            ),
    {
        let mut m = before.to_owned();
        push_token(&mut m, self.toks[i].tok);
        m.append("`");
        push_place(&mut m, self.toks[i].at);
        m
    }

    fn parse_binary(&self, tier: u8, i: usize) -> (r: Result<(Expr, usize), String>)
        requires
            i <= self.toks().len(),
        ensures
            agrees(r, binary(tier as nat, self.lexemes(), i as nat, self.end()), self.toks(), i),
        decreases self.toks().len() - i, 4 + tiers_left(tier as nat),
    {
        if tier >= TIERS {
            return self.parse_unary(i);
        }
        let (first, next) = match self.parse_binary(tier + 1, i) {
            Ok(found) => found,
            Err(m) => return Err(m),
        };
        let mut lhs: Expr = first;
        let mut j: usize = next;
        while j < self.toks.len() && is_operator(tier, self.toks[j].tok)
            invariant
                tier < TIERS,
                i < j <= self.toks().len(),
                binary(tier as nat, self.lexemes(), i as nat, self.end()) == more(
                    tier as nat,
                    lhs,
                    self.lexemes(),
                    j as nat,
                    self.end(),
                ),
            decreases self.toks().len() - j,
        {
            let tok: Tok = self.toks[j].tok;
            let (rhs, k) = match self.parse_binary(tier + 1, j + 1) {
                Ok(found) => found,
                Err(m) => return Err(m),
            };
            lhs = combine(tok, lhs, rhs);
            j = k;
        }
        Ok((lhs, j))
    }

    fn parse_unary(&self, i: usize) -> (r: Result<(Expr, usize), String>)
        requires
            i <= self.toks().len(),
        ensures
            agrees(r, unary(self.lexemes(), i as nat, self.end()), self.toks(), i),
        decreases self.toks().len() - i, 2int,
    {
        match self.peek(i) {
            Some(Tok::Minus) => match self.parse_unary(i + 1) {
                Ok((e, j)) => Ok((Expr::Neg(Box::new(e)), j)),
                Err(m) => Err(m),
            },
            Some(Tok::Bang) => match self.parse_unary(i + 1) {
                Ok((e, j)) => Ok((Expr::Not(Box::new(e)), j)),
                Err(m) => Err(m),
            },
            _ => self.parse_primary(i),
        }
    }

    fn parse_primary(&self, i: usize) -> (r: Result<(Expr, usize), String>)
        requires
            i <= self.toks().len(),
        ensures
            agrees(r, primary(self.lexemes(), i as nat, self.end()), self.toks(), i),
        decreases self.toks().len() - i, 1int,
    {
        match self.peek(i) {
            Some(Tok::Int(v)) => Ok((Expr::Const(v), i + 1)),
            Some(Tok::Pc) => Ok((Expr::Pc, i + 1)),
            Some(Tok::Depth) => Ok((Expr::Depth, i + 1)),
            Some(Tok::Top) => Ok((Expr::Top, i + 1)),
            Some(Tok::Globals) => {
                if let Some(m) = self.expect(i + 1, Tok::LBracket, "`[` after `globals`") {
                    return Err(m);
                }
                match self.parse_enclosed(i + 2, Tok::RBracket, "`]`") {
                    Ok((e, j)) => Ok((Expr::Global(Box::new(e)), j)),
                    Err(m) => Err(m),
                }
            },
            Some(Tok::Memory) => {
                if let Some(m) = self.expect(i + 1, Tok::LBracket, "`[` after `memory`") {
                    return Err(m);
                }
                match self.parse_enclosed(i + 2, Tok::RBracket, "`]`") {
                    Ok((e, j)) => Ok((Expr::Memory(Box::new(e)), j)),
                    Err(m) => Err(m),
                }
            },
            Some(Tok::LParen) => self.parse_enclosed(i + 1, Tok::RParen, "`)`"),
            Some(_) => Err(self.complaint("unexpected token `", i)),
            None => {
                let mut m = "unexpected end of expression".to_owned();
                push_place(&mut m, self.end);
                Err(m)
            },
        }
    }

    fn parse_enclosed(&self, i: usize, close: Tok, what: &str) -> (r: Result<
        (Expr, usize),
        String,
    >)
        requires
            i <= self.toks().len(),
        ensures
            agrees(r, enclosed(self.lexemes(), i as nat, self.end(), close, what@), self.toks(), i),
        decreases self.toks().len() - i, 11int,
    {
        match self.parse_binary(0, i) {
            Ok((e, j)) => match self.expect(j, close, what) {
                Some(m) => Err(m),
                None => Ok((e, j + 1)),
            },
            Err(m) => Err(m),
        }
    }
}

/// Parse a complete text.
pub fn parse_text(chars: &[char]) -> (r: Result<Expr, String>)
    ensures
        match r {
            Ok(e) => expression(chars@) == Ok::<Expr, Seq<char>>(e),
            Err(m) => expression(chars@) == Err::<Expr, Seq<char>>(m@),
        },
{
    let toks: Vec<Placed> = match tokenize(chars) {
        Ok(toks) => toks,
        Err(m) => return Err(m),
    };
    let p = Parser { toks, end: chars.len() };
    if p.toks.len() == 0 {
        let mut m = "empty expression".to_owned();
        push_place(&mut m, p.end);
        return Err(m);
    }
    match p.parse_binary(0, 0) {
        Ok((e, j)) => if j < p.toks.len() {
            Err(p.complaint("unexpected trailing input `", j))
        } else {
            Ok(e)
        },
        Err(m) => Err(m),
    }
}

/// The tokens of a text without their places.
pub open spec fn kinds(toks: Seq<Lexeme>) -> Seq<Tok> {
    toks.map_values(|l: Lexeme| l.tok)
}

/// The grammar: whether an operand of a tier can be written as the tokens `s`.
/// An operand of a tier is one of the next tier, or an operand of this tier, an
/// operator of it, and an operand of the next. After the last tier come the
/// prefix operators.
pub open spec fn derives(tier: nat, e: Expr, s: Seq<Tok>) -> bool
    decreases s.len(), 4int, tiers_left(tier),
{
    if tier < TIERS {
        ||| derives(tier + 1, e, s)
        ||| exists|k: int, a: Expr, b: Expr|
            {
                &&& 0 < k < s.len() - 1
                &&& operates(tier, s[k])
                &&& e == #[trigger] combined(s[k], a, b)
                &&& derives(tier, a, s.take(k))
                &&& derives(tier + 1, b, s.skip(k + 1))
            }
    } else {
        derives_prefixed(e, s)
    }
}

/// The grammar of operands with prefix operators before them.
pub open spec fn derives_prefixed(e: Expr, s: Seq<Tok>) -> bool
    decreases s.len(), 2int, 0int,
{
    if s.len() > 1 && s[0] is Minus {
        e matches Expr::Neg(a) && derives_prefixed(*a, s.skip(1))
    } else if s.len() > 1 && s[0] is Bang {
        e matches Expr::Not(a) && derives_prefixed(*a, s.skip(1))
    } else {
        derives_primary(e, s)
    }
}

/// The grammar of constants, variables, indexed reads and parentheses.
pub open spec fn derives_primary(e: Expr, s: Seq<Tok>) -> bool
    decreases s.len(), 1int, 0int,
{
    if s.len() == 1 {
        match s[0] {
            Tok::Int(v) => e == Expr::Const(v),
            Tok::Pc => e == Expr::Pc,
            Tok::Depth => e == Expr::Depth,
            Tok::Top => e == Expr::Top,
            _ => false,
        }
    } else if s.len() > 1 && s[0] is LParen {
        s.last() is RParen && derives(0, e, s.subrange(1, s.len() - 1))
    } else if s.len() > 2 && s[1] is LBracket && s.last() is RBracket {
        let index = s.subrange(2, s.len() - 1);
        match s[0] {
            Tok::Globals => e matches Expr::Global(a) && derives(0, *a, index),
            Tok::Memory => e matches Expr::Memory(a) && derives(0, *a, index),
            _ => false,
        }
    } else {
        false
    }
}

/// What can be written as an operand of a tier can be written as one of a looser
/// tier.
pub proof fn lemma_looser(low: nat, high: nat, e: Expr, s: Seq<Tok>)
    requires
        low <= high <= TIERS,
        derives(high, e, s),
    ensures
        derives(low, e, s),
    decreases high - low,
{
    if low < high {
        lemma_looser(low + 1, high, e, s);
    }
}

/// What the parser finds is what the grammar allows: the tokens it consumed
/// derive the expression.
proof fn lemma_binary_sound(tier: nat, toks: Seq<Lexeme>, i: nat, end: nat)
    requires
        i <= toks.len(),
    ensures
        binary(tier, toks, i, end) matches Ok((e, j)) ==> i < j <= toks.len() && derives(
            tier,
            e,
            kinds(toks).subrange(i as int, j as int),
        ),
    decreases toks.len() - i, 4 + tiers_left(tier),
{
    if tier >= TIERS {
        lemma_unary_sound(toks, i, end);
    } else {
        lemma_binary_sound(tier + 1, toks, i, end);
        if let Ok((e, j)) = binary(tier + 1, toks, i, end) {
            lemma_more_sound(tier, e, toks, i, j, end);
        }
    }
}

proof fn lemma_more_sound(
    tier: nat,
    lhs: Expr,
    toks: Seq<Lexeme>,
    start: nat,
    i: nat,
    end: nat,
)
    requires
        tier < TIERS,
        start < i <= toks.len(),
        derives(tier, lhs, kinds(toks).subrange(start as int, i as int)),
    ensures
        more(tier, lhs, toks, i, end) matches Ok((e, j)) ==> start < j <= toks.len() && derives(
            tier,
            e,
            kinds(toks).subrange(start as int, j as int),
        ),
    decreases toks.len() - i, 3int,
{
    if i < toks.len() && operates(tier, toks[i as int].tok) {
        lemma_binary_sound(tier + 1, toks, i + 1, end);
        if let Ok((rhs, j)) = binary(tier + 1, toks, i + 1, end) {
            let s = kinds(toks).subrange(start as int, j as int);
            let k = i - start;
            let e = combined(toks[i as int].tok, lhs, rhs);
            assert(s.take(k) =~= kinds(toks).subrange(start as int, i as int));
            assert(s.skip(k + 1) =~= kinds(toks).subrange(i as int + 1, j as int));
            assert(e == combined(s[k], lhs, rhs));
            lemma_more_sound(tier, e, toks, start, j, end);
        }
    }
}

proof fn lemma_unary_sound(toks: Seq<Lexeme>, i: nat, end: nat)
    requires
        i <= toks.len(),
    ensures
        unary(toks, i, end) matches Ok((e, j)) ==> i < j <= toks.len() && derives_prefixed(
            e,
            kinds(toks).subrange(i as int, j as int),
        ),
    decreases toks.len() - i, 2int,
{
    if i < toks.len() && (toks[i as int].tok is Minus || toks[i as int].tok is Bang) {
        lemma_unary_sound(toks, i + 1, end);
        if let Ok((e, j)) = unary(toks, i + 1, end) {
            let s = kinds(toks).subrange(i as int, j as int);
            assert(s.skip(1) =~= kinds(toks).subrange(i as int + 1, j as int));
        }
    } else {
        lemma_primary_sound(toks, i, end);
    }
}

proof fn lemma_primary_sound(toks: Seq<Lexeme>, i: nat, end: nat)
    requires
        i <= toks.len(),
    ensures
        primary(toks, i, end) matches Ok((e, j)) ==> i < j <= toks.len() && derives_primary(
            e,
            kinds(toks).subrange(i as int, j as int),
        ),
    decreases toks.len() - i, 1int,
{
    if i < toks.len() {
        let tok = toks[i as int].tok;
        if tok is LParen {
            lemma_enclosed_sound(toks, i + 1, end, Tok::RParen, "`)`"@);
            if let Ok((e, j)) = enclosed(toks, i + 1, end, Tok::RParen, "`)`"@) {
                let s = kinds(toks).subrange(i as int, j as int);
                assert(s.subrange(1, s.len() - 1) =~= kinds(toks).subrange(i as int + 1, j - 1));
            }
        } else if (tok is Globals || tok is Memory) && i + 2 <= toks.len() {
            lemma_enclosed_sound(toks, i + 2, end, Tok::RBracket, "`]`"@);
            if let Ok((e, j)) = enclosed(toks, i + 2, end, Tok::RBracket, "`]`"@) {
                let s = kinds(toks).subrange(i as int, j as int);
                assert(s.subrange(2, s.len() - 1) =~= kinds(toks).subrange(i as int + 2, j - 1));
            }
        }
    }
}

proof fn lemma_enclosed_sound(toks: Seq<Lexeme>, i: nat, end: nat, close: Tok, what: Seq<char>)
    requires
        i <= toks.len(),
    ensures
        enclosed(toks, i, end, close, what) matches Ok((e, j)) ==> {
            &&& i + 1 < j <= toks.len()
            &&& toks[j - 1].tok == close
            &&& derives(0, e, kinds(toks).subrange(i as int, j - 1))
        },
    decreases toks.len() - i, 11int,
{
    lemma_binary_sound(0, toks, i, end);
}

/// Whether no operator that binds tighter than a tier comes at `i`.
pub open spec fn loose(tier: nat, toks: Seq<Lexeme>, i: nat) -> bool {
    forall|t: nat|
        tier < t < TIERS && i < toks.len() ==> !(#[trigger] operates(t, toks[i as int].tok))
}

/// What the grammar allows is what the parser finds, up to operators that go on.
pub proof fn lemma_binary_complete(tier: nat, e: Expr, toks: Seq<Lexeme>, i: nat, j: nat, end: nat)
    requires
        i <= j <= toks.len(),
        derives(tier, e, kinds(toks).subrange(i as int, j as int)),
        loose(tier, toks, j),
    ensures
        i < j,
        tier < TIERS ==> binary(tier, toks, i, end) == more(tier, e, toks, j, end),
        tier >= TIERS ==> binary(tier, toks, i, end) == Ok::<(Expr, nat), Seq<char>>((e, j)),
    decreases j - i, 4int, tiers_left(tier),
{
    let s = kinds(toks).subrange(i as int, j as int);
    if tier >= TIERS {
        lemma_unary_complete(e, toks, i, j, end);
    } else if derives(tier + 1, e, s) {
        lemma_binary_complete(tier + 1, e, toks, i, j, end);
        lemma_ends(tier, e, toks, j, end);
    } else {
        let (k, a, b) = choose|k: int, a: Expr, b: Expr|
            {
                &&& 0 < k < s.len() - 1
                &&& operates(tier, s[k])
                &&& e == #[trigger] combined(s[k], a, b)
                &&& derives(tier, a, s.take(k))
                &&& derives(tier + 1, b, s.skip(k + 1))
            };
        let m = (i + k) as nat;
        assert(s.take(k) =~= kinds(toks).subrange(i as int, m as int));
        assert(s.skip(k + 1) =~= kinds(toks).subrange(m as int + 1, j as int));
        assert(s[k] == toks[m as int].tok);
        lemma_one_tier(tier, toks[m as int].tok);
        lemma_binary_complete(tier, a, toks, i, m, end);
        lemma_binary_complete(tier + 1, b, toks, m + 1, j, end);
        lemma_ends(tier, b, toks, j, end);
    }
}

/// A token operates at one tier alone.
proof fn lemma_one_tier(tier: nat, tok: Tok)
    requires
        tier < TIERS,
        operates(tier, tok),
    ensures
        forall|t: nat| tier < t < TIERS ==> !(#[trigger] operates(t, tok)),
{
}

/// An operand of the next tier ends where no tighter operator comes.
proof fn lemma_ends(tier: nat, e: Expr, toks: Seq<Lexeme>, j: nat, end: nat)
    requires
        tier < TIERS,
        j <= toks.len(),
        loose(tier, toks, j),
    ensures
        tier + 1 < TIERS ==> more(tier + 1, e, toks, j, end) == Ok::<(Expr, nat), Seq<char>>(
            (e, j),
        ),
{
    if tier + 1 < TIERS && j < toks.len() {
        assert(!operates(tier + 1, toks[j as int].tok));
    }
}

proof fn lemma_unary_complete(e: Expr, toks: Seq<Lexeme>, i: nat, j: nat, end: nat)
    requires
        i <= j <= toks.len(),
        derives_prefixed(e, kinds(toks).subrange(i as int, j as int)),
    ensures
        i < j,
        unary(toks, i, end) == Ok::<(Expr, nat), Seq<char>>((e, j)),
    decreases j - i, 2int, 0int,
{
    let s = kinds(toks).subrange(i as int, j as int);
    if s.len() > 1 && (s[0] is Minus || s[0] is Bang) {
        assert(s[0] == toks[i as int].tok);
        assert(s.skip(1) =~= kinds(toks).subrange(i as int + 1, j as int));
        match e {
            Expr::Neg(a) => lemma_unary_complete(*a, toks, i + 1, j, end),
            Expr::Not(a) => lemma_unary_complete(*a, toks, i + 1, j, end),
            _ => {},
        }
    } else {
        lemma_primary_complete(e, toks, i, j, end);
        assert(s[0] == toks[i as int].tok);
    }
}

proof fn lemma_primary_complete(e: Expr, toks: Seq<Lexeme>, i: nat, j: nat, end: nat)
    requires
        i <= j <= toks.len(),
        derives_primary(e, kinds(toks).subrange(i as int, j as int)),
    ensures
        i < j,
        primary(toks, i, end) == Ok::<(Expr, nat), Seq<char>>((e, j)),
        !(toks[i as int].tok is Minus || toks[i as int].tok is Bang),
    decreases j - i, 1int, 0int,
{
    let s = kinds(toks).subrange(i as int, j as int);
    assert(s[0] == toks[i as int].tok);
    if s.len() > 1 && s[0] is LParen {
        let inner = s.subrange(1, s.len() - 1);
        assert(s.last() == toks[j - 1].tok);
        assert(inner =~= kinds(toks).subrange(i as int + 1, j - 1));
        lemma_binary_complete(0, e, toks, i + 1, (j - 1) as nat, end);
    } else if s.len() > 1 {
        let index = s.subrange(2, s.len() - 1);
        assert(s[1] == toks[i as int + 1].tok);
        assert(s.last() == toks[j - 1].tok);
        assert(index =~= kinds(toks).subrange(i as int + 2, j - 1));
        match e {
            Expr::Global(a) => lemma_binary_complete(0, *a, toks, i + 2, (j - 1) as nat, end),
            Expr::Memory(a) => lemma_binary_complete(0, *a, toks, i + 2, (j - 1) as nat, end),
            _ => {},
        }
    }
}

/// A text parses to an expression exactly when it splits into tokens that the
/// grammar derives for that expression. So the parser accepts every text of the
/// language and no other, with the precedence and the associativity that the
/// grammar gives the operators.
pub proof fn parser_follows_the_grammar(chars: Seq<char>, e: Expr)
    ensures
        expression(chars) == Ok::<Expr, Seq<char>>(e) <==> (token::tokens(chars, 0) matches Ok(
            toks,
        ) && derives(0, e, kinds(toks))),
{
    if let Ok(toks) = token::tokens(chars, 0) {
        let end = chars.len();
        assert(kinds(toks).subrange(0, toks.len() as int) =~= kinds(toks));
        if toks.len() > 0 {
            lemma_binary_sound(0, toks, 0, end);
        }
        if derives(0, e, kinds(toks)) {
            lemma_binary_complete(0, e, toks, 0, toks.len(), end);
        }
    }
}

/// The grammar is unambiguous: tokens derive at most one expression.
pub proof fn grammar_is_unambiguous(toks: Seq<Lexeme>, a: Expr, b: Expr)
    requires
        derives(0, a, kinds(toks)),
        derives(0, b, kinds(toks)),
    ensures
        a == b,
{
    assert(kinds(toks).subrange(0, toks.len() as int) =~= kinds(toks));
    lemma_binary_complete(0, a, toks, 0, toks.len(), 0);
    lemma_binary_complete(0, b, toks, 0, toks.len(), 0);
}

/// Whether every token lies within a text of `end` characters.
spec fn within(toks: Seq<Lexeme>, end: nat) -> bool {
    forall|k: int| 0 <= k < toks.len() ==> (#[trigger] toks[k]).at <= end
}

/// A fault in an operand names a place within the text.
proof fn lemma_binary_fault(tier: nat, toks: Seq<Lexeme>, i: nat, end: nat)
    requires
        i <= toks.len(),
        within(toks, end),
    ensures
        binary(tier, toks, i, end) matches Err(m) ==> token::located(m, end),
    decreases toks.len() - i, 4 + tiers_left(tier),
{
    if tier >= TIERS {
        lemma_unary_fault(toks, i, end);
    } else {
        lemma_binary_fault(tier + 1, toks, i, end);
        lemma_binary_sound(tier + 1, toks, i, end);
        if let Ok((e, j)) = binary(tier + 1, toks, i, end) {
            lemma_more_fault(tier, e, toks, j, end);
        }
    }
}

proof fn lemma_more_fault(tier: nat, lhs: Expr, toks: Seq<Lexeme>, i: nat, end: nat)
    requires
        i <= toks.len(),
        within(toks, end),
    ensures
        more(tier, lhs, toks, i, end) matches Err(m) ==> token::located(m, end),
    decreases toks.len() - i, 3int,
{
    if i < toks.len() && operates(tier, toks[i as int].tok) {
        lemma_binary_fault(tier + 1, toks, i + 1, end);
        lemma_binary_sound(tier + 1, toks, i + 1, end);
        if let Ok((rhs, j)) = binary(tier + 1, toks, i + 1, end) {
            lemma_more_fault(tier, combined(toks[i as int].tok, lhs, rhs), toks, j, end);
        }
    }
}

proof fn lemma_unary_fault(toks: Seq<Lexeme>, i: nat, end: nat)
    requires
        i <= toks.len(),
        within(toks, end),
    ensures
        unary(toks, i, end) matches Err(m) ==> token::located(m, end),
    decreases toks.len() - i, 2int,
{
    if i < toks.len() && (toks[i as int].tok is Minus || toks[i as int].tok is Bang) {
        lemma_unary_fault(toks, i + 1, end);
    } else {
        lemma_primary_fault(toks, i, end);
    }
}

proof fn lemma_primary_fault(toks: Seq<Lexeme>, i: nat, end: nat)
    requires
        i <= toks.len(),
        within(toks, end),
    ensures
        primary(toks, i, end) matches Err(m) ==> token::located(m, end),
    decreases toks.len() - i, 1int,
{
    if i >= toks.len() {
        let before = "unexpected end of expression"@;
        assert(token::names_place(before + token::place(end), before, end));
    } else {
        let tok = toks[i as int].tok;
        let at = toks[i as int].at;
        if tok is LParen {
            lemma_enclosed_fault(toks, i + 1, end, Tok::RParen, "`)`"@);
        } else if tok is Globals || tok is Memory {
            let what = if tok is Globals {
                "`[` after `globals`"@
            } else {
                "`[` after `memory`"@
            };
            lemma_missing_located(toks, i + 1, end, Tok::LBracket, what);
            if i + 1 < toks.len() {
                lemma_enclosed_fault(toks, i + 2, end, Tok::RBracket, "`]`"@);
            }
        } else {
            let before = "unexpected token `"@ + token::shown(tok) + "`"@;
            assert(token::names_place(before + token::place(at), before, at));
        }
    }
}

proof fn lemma_enclosed_fault(toks: Seq<Lexeme>, i: nat, end: nat, close: Tok, what: Seq<char>)
    requires
        i <= toks.len(),
        within(toks, end),
    ensures
        enclosed(toks, i, end, close, what) matches Err(m) ==> token::located(m, end),
    decreases toks.len() - i, 11int,
{
    lemma_binary_fault(0, toks, i, end);
    if let Ok((e, j)) = binary(0, toks, i, end) {
        lemma_missing_located(toks, j, end, close, what);
    }
}

proof fn lemma_missing_located(toks: Seq<Lexeme>, i: nat, end: nat, tok: Tok, what: Seq<char>)
    requires
        within(toks, end),
    ensures
        missing(toks, i, end, tok, what) matches Some(m) ==> token::located(m, end),
{
    if let Some(m) = missing(toks, i, end, tok, what) {
        if i >= toks.len() {
            assert(token::names_place(m, "expected "@ + what + ", found end of expression"@, end));
        } else {
            let found = toks[i as int];
            assert(token::names_place(
                m,
                "expected "@ + what + ", found `"@ + token::shown(found.tok) + "`"@,
                found.at,
            ));
        }
    }
}

/// A text that is not an expression is rejected with a message that names a
/// place in it.
pub proof fn faults_name_their_place(chars: Seq<char>)
    ensures
        expression(chars) matches Err(m) ==> m.len() > 0 && token::located(m, chars.len()),
{
    let end = chars.len();
    token::lemma_places(chars, 0);
    if let Ok(toks) = token::tokens(chars, 0) {
        if toks.len() == 0 {
            let before = "empty expression"@;
            assert(token::names_place(before + token::place(end), before, end));
        } else {
            lemma_binary_fault(0, toks, 0, end);
            if let Ok((e, j)) = binary(0, toks, 0, end) {
                if j < toks.len() {
                    let found = toks[j as int];
                    let before = "unexpected trailing input `"@ + token::shown(found.tok) + "`"@;
                    assert(token::names_place(
                        before + token::place(found.at),
                        before,
                        found.at,
                    ));
                }
            }
        }
    }
    if let Err(m) = expression(chars) {
        let (before, at) = choose|before: Seq<char>, at: nat|
            at <= end && #[trigger] token::names_place(m, before, at);
        reveal_strlit(" at offset ");
    }
}

} // verus!
