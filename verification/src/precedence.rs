//! Which operator takes which operands: the laws of precedence and
//! associativity.

use crate::composition;
use crate::expr::Expr;
use crate::grammar;
use crate::token;
use crate::token::{Lexeme, Tok};
use crate::wording;
use vstd::prelude::*;

verus! {

/// How tightly a binary operator binds: `||` the loosest, then `&&`, the
/// comparisons, `+` and `-`, and `*`, `/` and `%` the tightest. `None` when the
/// token is no binary operator.
pub open spec fn strength(tok: Tok) -> Option<nat> {
    match tok {
        Tok::OrOr => Some(0),
        Tok::AndAnd => Some(1),
        Tok::EqEq | Tok::Ne | Tok::Lt | Tok::Le | Tok::Gt | Tok::Ge => Some(2),
        Tok::Plus | Tok::Minus => Some(3),
        Tok::Star | Tok::Slash | Tok::Percent => Some(4),
        _ => None,
    }
}

/// Whether `e` is what a binary operator makes of `a` and `b`.
pub open spec fn made(tok: Tok, a: Expr, b: Expr, e: Expr) -> bool {
    match e {
        Expr::Or(x, y) => tok is OrOr && *x == a && *y == b,
        Expr::And(x, y) => tok is AndAnd && *x == a && *y == b,
        Expr::Eq(x, y) => tok is EqEq && *x == a && *y == b,
        Expr::Ne(x, y) => tok is Ne && *x == a && *y == b,
        Expr::Lt(x, y) => tok is Lt && *x == a && *y == b,
        Expr::Le(x, y) => tok is Le && *x == a && *y == b,
        Expr::Gt(x, y) => tok is Gt && *x == a && *y == b,
        Expr::Ge(x, y) => tok is Ge && *x == a && *y == b,
        Expr::Add(x, y) => tok is Plus && *x == a && *y == b,
        Expr::Sub(x, y) => tok is Minus && *x == a && *y == b,
        Expr::Mul(x, y) => tok is Star && *x == a && *y == b,
        Expr::Div(x, y) => tok is Slash && *x == a && *y == b,
        Expr::Mod(x, y) => tok is Percent && *x == a && *y == b,
        _ => false,
    }
}

/// Any number of spaces.
pub open spec fn spaces(gap: Seq<char>) -> bool {
    forall|i: int| 0 <= i < gap.len() ==> #[trigger] gap[i] == ' '
}

/// An operator and a text in parentheses, with a gap before each of the two.
pub open spec fn tail(gap: Seq<char>, op: Tok, t: Seq<char>) -> Seq<char> {
    gap + wording::written_token(op) + gap + composition::parenthesised(t)
}

/// The operator of a strength operates at that tier, and makes what it makes.
pub proof fn lemma_strength(op: Tok, a: Expr, b: Expr)
    requires
        strength(op) is Some,
    ensures
        strength(op)->0 < grammar::TIERS,
        grammar::operates(strength(op)->0, op),
        composition::operator(op),
        made(op, a, b, grammar::combined(op, a, b)),
        forall|e: Expr| #[trigger] made(op, a, b, e) ==> e == grammar::combined(op, a, b),
{
    assert(grammar::operates(strength(op)->0, op));
}

/// The tokens of an operator and a text in parentheses after it.
proof fn lemma_tail(
    gap: Seq<char>,
    op: Tok,
    t: Seq<char>,
    rest: Seq<char>,
    f: Expr,
    at: nat,
) -> (toks: Seq<Lexeme>)
    requires
        spaces(gap),
        composition::operator(op),
        grammar::expression(t) == Ok::<Expr, Seq<char>>(f),
    ensures
        token::tokens(tail(gap, op, t) + rest, at) == composition::joined(
            Ok(toks),
            token::tokens(rest, at + tail(gap, op, t).len()),
        ),
        toks.len() > 1,
        grammar::kinds(toks)[0] == op,
        forall|tier: nat|
            tier <= grammar::TIERS ==> #[trigger] grammar::derives(
                tier,
                f,
                grammar::kinds(toks).skip(1),
            ),
{
    let w = wording::written_token(op);
    let right = composition::parenthesised(t);
    let later = gap + (right + rest);
    assert(tail(gap, op, t) + rest =~= gap + (w + later));
    composition::lemma_leading_space(gap, w + later, at);
    assert(later[0] == ' ' || later[0] == '(') by {
        if gap.len() > 0 {
            assert(later[0] == gap[0]);
        } else {
            assert(later[0] == '(');
        }
    }
    composition::lemma_operator_token(op, at + gap.len());
    composition::tokens_of_joined_texts(w, later, at + gap.len());
    let n = at + gap.len() + w.len();
    composition::lemma_leading_space(gap, right + rest, n);
    let operand = composition::lemma_parenthesised(t, rest, f, n + gap.len());
    let one = seq![Lexeme { tok: op, at: at + gap.len() }];
    let toks = one + operand;
    assert(tail(gap, op, t).len() == gap.len() + w.len() + gap.len() + t.len() + 2);
    if let Ok(more) = token::tokens(rest, at + tail(gap, op, t).len()) {
        assert(one + (operand + more) =~= toks + more);
    }
    assert(grammar::kinds(toks).skip(1) =~= grammar::kinds(operand));
    toks
}

/// An operand of a tier, an operator of it and an operand of the next tier are an
/// operand of the tier.
proof fn lemma_joined(tier: nat, op: Tok, e: Expr, f: Expr, left: Seq<Tok>, right: Seq<Tok>)
    requires
        tier < grammar::TIERS,
        grammar::operates(tier, op),
        left.len() > 0,
        right.len() > 1,
        right[0] == op,
        grammar::derives(tier, e, left),
        grammar::derives(tier + 1, f, right.skip(1)),
    ensures
        grammar::derives(tier, grammar::combined(op, e, f), left + right),
{
    let s = left + right;
    let k = left.len() as int;
    assert(s.take(k) =~= left);
    assert(s.skip(k + 1) =~= right.skip(1));
    assert(s[k] == op);
    assert(grammar::combined(s[k], e, f) == grammar::combined(op, e, f));
}

/// Of two operators the one that binds tighter takes the operand between them;
/// of two that bind equally, the left one does. So `a - b - c` is `(a - b) - c`,
/// and `a + b * c` is `a + (b * c)`. Spaces around the operators do not matter.
pub proof fn the_tighter_operator_takes_the_operand(
    gap: Seq<char>,
    s: Seq<char>,
    first: Tok,
    t: Seq<char>,
    second: Tok,
    u: Seq<char>,
    e: Expr,
    f: Expr,
    g: Expr,
    inner: Expr,
    outer: Expr,
)
    requires
        spaces(gap),
        strength(first) is Some,
        strength(second) is Some,
        grammar::expression(s) == Ok::<Expr, Seq<char>>(e),
        grammar::expression(t) == Ok::<Expr, Seq<char>>(f),
        grammar::expression(u) == Ok::<Expr, Seq<char>>(g),
        if strength(first)->0 >= strength(second)->0 {
            made(first, e, f, inner) && made(second, inner, g, outer)
        } else {
            made(second, f, g, inner) && made(first, e, inner, outer)
        },
    ensures
        grammar::expression(
            composition::parenthesised(s) + tail(gap, first, t) + tail(gap, second, u),
        ) == Ok::<Expr, Seq<char>>(outer),
{
    let x = strength(first)->0;
    let y = strength(second)->0;
    let one = composition::parenthesised(s);
    let two = tail(gap, first, t);
    let three = tail(gap, second, u);
    let all = one + two + three;
    let none = Seq::<char>::empty();
    lemma_strength(first, e, f);
    lemma_strength(first, e, inner);
    lemma_strength(second, f, g);
    lemma_strength(second, inner, g);
    assert(all =~= one + (two + three));
    let a = composition::lemma_parenthesised(s, two + three, e, 0);
    let b = lemma_tail(gap, first, t, three, f, s.len() + 2);
    let c = lemma_tail(gap, second, u, none, g, s.len() + 2 + two.len());
    composition::lemma_nothing_after(three, c, s.len() + 2 + two.len() + three.len());
    assert(three + none =~= three);
    let toks = a + (b + c);
    assert(token::tokens(all, 0) == Ok::<Seq<Lexeme>, Seq<char>>(toks));
    let (ka, kb, kc) = (grammar::kinds(a), grammar::kinds(b), grammar::kinds(c));
    composition::lemma_kinds_join(a, b + c);
    composition::lemma_kinds_join(b, c);
    assert(grammar::derives(x, e, ka));
    if x >= y {
        assert(grammar::derives(x + 1, f, kb.skip(1)));
        lemma_joined(x, first, e, f, ka, kb);
        grammar::lemma_looser(y, x, inner, ka + kb);
        assert(grammar::derives(y + 1, g, kc.skip(1)));
        lemma_joined(y, second, inner, g, ka + kb, kc);
        assert(ka + kb + kc =~= ka + (kb + kc));
        grammar::lemma_looser(0, y, outer, grammar::kinds(toks));
    } else {
        assert(grammar::derives(y, f, kb.skip(1)));
        assert(grammar::derives(y + 1, g, kc.skip(1)));
        lemma_joined(y, second, f, g, kb.skip(1), kc);
        assert((kb + kc).skip(1) =~= kb.skip(1) + kc);
        grammar::lemma_looser(x + 1, y, inner, (kb + kc).skip(1));
        lemma_joined(x, first, e, inner, ka, kb + kc);
        grammar::lemma_looser(0, x, outer, grammar::kinds(toks));
    }
    grammar::parser_follows_the_grammar(all, outer);
}

/// One operator between two texts in parentheses takes both, with or without
/// spaces around it.
pub proof fn an_operator_takes_both_operands(
    gap: Seq<char>,
    s: Seq<char>,
    op: Tok,
    t: Seq<char>,
    e: Expr,
    f: Expr,
    both: Expr,
)
    requires
        spaces(gap),
        strength(op) is Some,
        grammar::expression(s) == Ok::<Expr, Seq<char>>(e),
        grammar::expression(t) == Ok::<Expr, Seq<char>>(f),
        made(op, e, f, both),
    ensures
        grammar::expression(composition::parenthesised(s) + tail(gap, op, t)) == Ok::<
            Expr,
            Seq<char>,
        >(both),
{
    let x = strength(op)->0;
    let one = composition::parenthesised(s);
    let two = tail(gap, op, t);
    let none = Seq::<char>::empty();
    lemma_strength(op, e, f);
    let a = composition::lemma_parenthesised(s, two, e, 0);
    let b = lemma_tail(gap, op, t, none, f, s.len() + 2);
    composition::lemma_nothing_after(two, b, s.len() + 2 + two.len());
    composition::lemma_kinds_join(a, b);
    let (ka, kb) = (grammar::kinds(a), grammar::kinds(b));
    assert(grammar::derives(x, e, ka));
    assert(grammar::derives(x + 1, f, kb.skip(1)));
    lemma_joined(x, op, e, f, ka, kb);
    grammar::lemma_looser(0, x, both, ka + kb);
    grammar::parser_follows_the_grammar(one + two, both);
}

/// Whether `e` is what a prefix operator makes of `a`.
pub open spec fn prefixed(tok: Tok, a: Expr, e: Expr) -> bool {
    match e {
        Expr::Neg(x) => tok is Minus && *x == a,
        Expr::Not(x) => tok is Bang && *x == a,
        _ => false,
    }
}

/// A prefix operator binds tighter than every binary one: before the left operand
/// it takes that operand alone.
pub proof fn prefix_operators_bind_tightest(
    sign: Tok,
    gap: Seq<char>,
    s: Seq<char>,
    op: Tok,
    t: Seq<char>,
    e: Expr,
    f: Expr,
    inner: Expr,
    outer: Expr,
)
    requires
        spaces(gap),
        strength(op) is Some,
        grammar::expression(s) == Ok::<Expr, Seq<char>>(e),
        grammar::expression(t) == Ok::<Expr, Seq<char>>(f),
        prefixed(sign, e, inner),
        made(op, inner, f, outer),
    ensures
        grammar::expression(
            wording::written_token(sign) + composition::parenthesised(s) + tail(gap, op, t),
        ) == Ok::<Expr, Seq<char>>(outer),
{
    let x = strength(op)->0;
    let w = wording::written_token(sign);
    let one = composition::parenthesised(s);
    let two = tail(gap, op, t);
    let none = Seq::<char>::empty();
    let all = w + one + two;
    lemma_strength(op, inner, f);
    assert(all =~= w + (one + two));
    assert((one + two)[0] == '(');
    assert(composition::operator(sign)) by {
        assert(sign is Minus ==> grammar::operates(3, sign));
    }
    composition::tokens_of_joined_texts(w, one + two, 0);
    composition::lemma_operator_token(sign, 0);
    let a = composition::lemma_parenthesised(s, two, e, 1);
    let b = lemma_tail(gap, op, t, none, f, 1 + s.len() + 2);
    composition::lemma_nothing_after(two, b, 1 + s.len() + 2 + two.len());
    let first = seq![Lexeme { tok: sign, at: 0 }];
    let left = first + a;
    assert(first + (a + b) =~= left + b);
    composition::lemma_kinds_join(left, b);
    let (ka, kl, kb) = (grammar::kinds(a), grammar::kinds(left), grammar::kinds(b));
    assert(kl.skip(1) =~= ka);
    assert(kl[0] == sign);
    assert(grammar::derives(grammar::TIERS as nat, e, ka));
    assert(grammar::derives_prefixed(inner, kl));
    assert(grammar::derives(grammar::TIERS as nat, inner, kl));
    grammar::lemma_looser(x, grammar::TIERS as nat, inner, kl);
    assert(grammar::derives(x + 1, f, kb.skip(1)));
    lemma_joined(x, op, inner, f, kl, kb);
    grammar::lemma_looser(0, x, outer, kl + kb);
    grammar::parser_follows_the_grammar(all, outer);
}

/// Prefix operators stand one before the other, and the last one takes the
/// operand first.
pub proof fn prefix_operators_nest(
    outer_sign: Tok,
    sign: Tok,
    s: Seq<char>,
    e: Expr,
    inner: Expr,
    outer: Expr,
)
    requires
        grammar::expression(s) == Ok::<Expr, Seq<char>>(e),
        prefixed(sign, e, inner),
        prefixed(outer_sign, inner, outer),
    ensures
        grammar::expression(
            wording::written_token(outer_sign) + wording::written_token(sign)
                + composition::parenthesised(s),
        ) == Ok::<Expr, Seq<char>>(outer),
{
    let v = wording::written_token(outer_sign);
    let w = wording::written_token(sign);
    let one = composition::parenthesised(s);
    let all = v + w + one;
    assert(grammar::operates(3, Tok::Minus));
    assert(all =~= v + (w + one));
    assert((w + one)[0] == w[0]);
    composition::tokens_of_joined_texts(v, w + one, 0);
    composition::lemma_operator_token(outer_sign, 0);
    assert(one[0] == '(');
    composition::tokens_of_joined_texts(w, one, 1);
    composition::lemma_operator_token(sign, 1);
    let a = composition::lemma_parenthesised(s, Seq::empty(), e, 2);
    composition::lemma_nothing_after(one, a, 2 + s.len() + 2);
    let first = seq![Lexeme { tok: outer_sign, at: 0 }];
    let second = seq![Lexeme { tok: sign, at: 1 }];
    let toks = first + (second + a);
    let kinds = grammar::kinds(toks);
    let (ka, kb) = (grammar::kinds(a), grammar::kinds(second + a));
    assert(kb.skip(1) =~= ka);
    assert(kinds.skip(1) =~= kb);
    assert(grammar::derives(grammar::TIERS as nat, e, ka));
    assert(grammar::derives_prefixed(inner, kb));
    assert(grammar::derives_prefixed(outer, kinds));
    assert(grammar::derives(grammar::TIERS as nat, outer, kinds));
    grammar::lemma_looser(0, grammar::TIERS as nat, outer, kinds);
    grammar::parser_follows_the_grammar(all, outer);
}

} // verus!
