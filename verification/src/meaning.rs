//! What expressions mean: the laws of their values.

use crate::expr;
use crate::expr::{Expr, Scope};
use crate::instructions;
use crate::machine::State;
use vstd::prelude::*;

verus! {

/// Constants are worth what they say. `pc`, `depth` and `top` are worth what the
/// machine has: its address, the number of its frames, and the top of its stack,
/// 0 when the stack is empty. A number above the largest 64-bit value is worth
/// that value.
pub proof fn variables_are_worth_what_the_machine_has(s: State, v: i64)
    ensures
        ({
            let c = expr::scope_of(s);
            &&& expr::value(Expr::Const(v), c) == v
            &&& s.pc <= i64::MAX ==> expr::value(Expr::Pc, c) == s.pc
            &&& s.pc > i64::MAX ==> expr::value(Expr::Pc, c) == i64::MAX
            &&& s.frames.len() <= i64::MAX ==> expr::value(Expr::Depth, c) == s.frames.len()
            &&& s.frames.len() > i64::MAX ==> expr::value(Expr::Depth, c) == i64::MAX
            &&& s.stack.len() > 0 ==> expr::value(Expr::Top, c) == s.stack.last()
            &&& s.stack.len() == 0 ==> expr::value(Expr::Top, c) == 0
        }),
{
}

/// `globals[e]` is worth the global slot that `e` is the index of, 0 when there is
/// none. `memory[e]` is worth the cell that `e` names, as an address does, 0 when
/// there is no cell at all.
pub proof fn indexed_reads_are_worth_the_cell(s: State, e: Expr, i: int)
    ensures
        ({
            let c = expr::scope_of(s);
            let at = expr::value(e, c);
            let global = expr::value(Expr::Global(Box::new(e)), c);
            let cell = expr::value(Expr::Memory(Box::new(e)), c);
            &&& 0 <= at < s.globals.len() ==> global == s.globals[at as int]
            &&& at < 0 || at >= s.globals.len() ==> global == 0
            &&& instructions::is_cell(at, s.memory.len(), i) ==> cell == s.memory[i]
            &&& s.memory.len() == 0 ==> cell == 0
        }),
{
    let at = expr::value(e, expr::scope_of(s));
    if s.memory.len() > 0 {
        instructions::addresses_name_one_cell(at, s.memory.len());
    }
}

/// The logical operators are worth 1 or 0. `!a` holds exactly when `a` does not,
/// `a && b` when both hold, and `a || b` when one of them holds.
pub proof fn logic_is_logic(c: Scope, a: Expr, b: Expr)
    ensures
        ({
            let x = expr::value(a, c);
            let y = expr::value(b, c);
            let not = expr::value(Expr::Not(Box::new(a)), c);
            let and = expr::value(Expr::And(Box::new(a), Box::new(b)), c);
            let or = expr::value(Expr::Or(Box::new(a), Box::new(b)), c);
            &&& not == 1 <==> x == 0
            &&& not == 0 <==> x != 0
            &&& and == 1 <==> x != 0 && y != 0
            &&& and == 0 <==> x == 0 || y == 0
            &&& or == 1 <==> x != 0 || y != 0
            &&& or == 0 <==> x == 0 && y == 0
        }),
{
}

/// De Morgan: `!(a || b)` and `!a && !b` have the same value, and so do
/// `!(a && b)` and `!a || !b`. Both operators commute.
pub proof fn de_morgan(c: Scope, a: Expr, b: Expr)
    ensures
        ({
            let not_a = Box::new(Expr::Not(Box::new(a)));
            let not_b = Box::new(Expr::Not(Box::new(b)));
            let or = Expr::Or(Box::new(a), Box::new(b));
            let and = Expr::And(Box::new(a), Box::new(b));
            &&& expr::value(Expr::Not(Box::new(or)), c) == expr::value(
                Expr::And(not_a, not_b),
                c,
            )
            &&& expr::value(Expr::Not(Box::new(and)), c) == expr::value(
                Expr::Or(not_a, not_b),
                c,
            )
            &&& expr::value(or, c) == expr::value(Expr::Or(Box::new(b), Box::new(a)), c)
            &&& expr::value(and, c) == expr::value(Expr::And(Box::new(b), Box::new(a)), c)
        }),
{
    reveal_with_fuel(expr::value, 3);
}

/// The comparisons are worth 1 when the values stand in the relation and 0 when
/// they do not.
pub proof fn comparisons_are_comparisons(c: Scope, a: Expr, b: Expr)
    ensures
        ({
            let x = expr::value(a, c);
            let y = expr::value(b, c);
            let lt = expr::value(Expr::Lt(Box::new(a), Box::new(b)), c);
            let le = expr::value(Expr::Le(Box::new(a), Box::new(b)), c);
            let gt = expr::value(Expr::Gt(Box::new(a), Box::new(b)), c);
            let ge = expr::value(Expr::Ge(Box::new(a), Box::new(b)), c);
            let eq = expr::value(Expr::Eq(Box::new(a), Box::new(b)), c);
            let ne = expr::value(Expr::Ne(Box::new(a), Box::new(b)), c);
            &&& x < y ==> lt == 1 && le == 1 && gt == 0 && ge == 0 && eq == 0 && ne == 1
            &&& x == y ==> lt == 0 && le == 1 && gt == 0 && ge == 1 && eq == 1 && ne == 0
            &&& x > y ==> lt == 0 && le == 0 && gt == 1 && ge == 1 && eq == 0 && ne == 1
        }),
{
}

/// The arithmetic operators compute modulo 2 to the power 64; division rounds
/// toward zero and its remainder has the sign of the dividend; by zero both are
/// zero. The one quotient that does not fit wraps around.
pub proof fn arithmetic_is_arithmetic(c: Scope, a: Expr, b: Expr)
    ensures
        ({
            let x = expr::value(a, c) as int;
            let y = expr::value(b, c) as int;
            let div = expr::value(Expr::Div(Box::new(a), Box::new(b)), c) as int;
            let rem = expr::value(Expr::Mod(Box::new(a), Box::new(b)), c) as int;
            &&& instructions::congruent(
                expr::value(Expr::Add(Box::new(a), Box::new(b)), c) as int,
                x + y,
            )
            &&& instructions::congruent(
                expr::value(Expr::Sub(Box::new(a), Box::new(b)), c) as int,
                x - y,
            )
            &&& instructions::congruent(
                expr::value(Expr::Mul(Box::new(a), Box::new(b)), c) as int,
                x * y,
            )
            &&& instructions::congruent(expr::value(Expr::Neg(Box::new(a)), c) as int, -x)
            &&& y == 0 ==> div == 0 && rem == 0
            &&& y != 0 ==> instructions::leaves(x, y, rem)
            &&& y != 0 && !(x == i64::MIN && y == -1) ==> x == div * y + rem
            &&& x == i64::MIN && y == -1 ==> div == i64::MIN
        }),
{
    let x = expr::value(a, c);
    let y = expr::value(b, c);
    instructions::lemma_wrap(x + y);
    instructions::lemma_wrap(x - y);
    instructions::lemma_wrap(x * y);
    instructions::lemma_wrap(-x);
    if y != 0 {
        instructions::lemma_division(x, y);
    }
}

/// A condition holds exactly when it is worth something other than zero.
pub proof fn conditions_hold_when_not_zero(e: Expr, c: Scope)
    ensures
        expr::holds(e, c) <==> expr::value(e, c) != 0,
{
}

} // verus!
