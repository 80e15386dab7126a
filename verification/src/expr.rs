//! A tiny, safe expression language for conditional breakpoints and data
//! watches.
//!
//! The language has integer constants, the machine variables `pc`, `depth` and
//! `top` (the operand stack top, 0 when the stack is empty), the indexed reads
//! `globals[e]` and `memory[e]`, arithmetic (`+ - * / %`), comparisons
//! (`== != < <= > >=`), logic (`&& || !`, with short circuit), unary minus, and
//! parentheses. Arithmetic uses the same wrapping 64-bit semantics as the VM.
//! Evaluation is total: division or remainder by zero yields 0, an index into
//! globals out of range reads 0, and a memory index is reduced into range with
//! Euclidean remainder, mirroring `loadmem`. Comparisons and logic yield 1 or
//! 0, and a condition is true when it evaluates to nonzero.
//!
//! Malformed text is rejected cleanly at parse time with the source position.
//! Evaluation only reads machine state and can never mutate it.

use crate::arith;
use crate::arith::{
    cell_index, difference, divide, modulo, negation, product, read, sum, truth_value,
};
use crate::grammar;
use crate::grammar::parse_text;
use crate::machine;
use crate::machine::{Image, State};
use crate::text::chars_of;
use crate::vm::{Op, Snapshot, Vm};
use vstd::prelude::*;

verus! {

/// A parse error, with a human readable message.
#[derive(Clone, Debug, PartialEq, Eq)]
pub struct ExprError {
    /// What went wrong.
    pub message: String,
}

impl ExprError {
    /// The error as text: its message.
    pub fn to_string(&self) -> (s: String)
        ensures
            s@ == self.message@,
    {
        self.message.clone()
    }
}

/// The machine state an expression is evaluated against. Built from a VM or a
/// snapshot, it is read-only, so evaluation can never mutate anything.
#[derive(Clone, Debug)]
pub struct EvalCtx<'a> {
    /// The program counter.
    pub pc: usize,
    /// The number of active call frames.
    pub depth: usize,
    /// The operand stack top (0 when the stack is empty).
    pub top: i64,
    /// The global slots.
    pub globals: &'a [i64],
    /// The linear memory cells.
    pub memory: &'a [i64],
}

/// What an expression can read of a machine.
#[verifier::ext_equal]
pub struct Scope {
    /// The program counter.
    pub pc: nat,
    /// The number of active call frames.
    pub depth: nat,
    /// The operand stack top.
    pub top: i64,
    /// The global slots.
    pub globals: Seq<i64>,
    /// The linear memory cells.
    pub memory: Seq<i64>,
}

/// What an expression can read of a machine in state `s`.
pub open spec fn scope_of(s: State) -> Scope {
    Scope {
        pc: s.pc,
        depth: s.frames.len(),
        top: machine::operand(s.stack, 0),
        globals: s.globals,
        memory: s.memory,
    }
}

impl<'a> View for EvalCtx<'a> {
    type V = Scope;

    open spec fn view(&self) -> Scope {
        Scope {
            pc: self.pc as nat,
            depth: self.depth as nat,
            top: self.top,
            globals: self.globals@,
            memory: self.memory@,
        }
    }
}

/// The last value, 0 when there is none.
fn top_of(stack: &Vec<i64>) -> (v: i64)
    ensures
        v == machine::operand(stack@, 0),
{
    if stack.len() == 0 {
        0
    } else {
        stack[stack.len() - 1]
    }
}

impl<'a> EvalCtx<'a> {
    /// Build the context for the current state of a VM.
    #[must_use]
    pub fn of_vm(vm: &'a Vm) -> (ctx: EvalCtx<'a>)
        ensures
            ctx@ == scope_of(vm@),
    {
        EvalCtx {
            pc: vm.pc,
            depth: vm.depth(),
            top: top_of(&vm.stack),
            globals: vm.globals.as_slice(),
            memory: vm.memory.as_slice(),
        }
    }

    /// Build the context for a recorded snapshot.
    #[must_use]
    pub fn of_snapshot(snap: &'a Snapshot) -> (ctx: EvalCtx<'a>)
        ensures
            ctx@ == scope_of(snap@),
    {
        EvalCtx {
            pc: snap.pc,
            depth: snap.frames.len(),
            top: top_of(&snap.stack),
            globals: snap.globals.as_slice(),
            memory: snap.memory.as_slice(),
        }
    }
}

/// A parsed expression tree.
#[derive(Debug, PartialEq, Eq)]
pub enum Expr {
    /// An integer constant.
    Const(i64),
    /// The program counter.
    Pc,
    /// The call depth.
    Depth,
    /// The operand stack top.
    Top,
    /// `globals[e]`, 0 when the index is out of range.
    Global(Box<Expr>),
    /// `memory[e]`, reduced into range like `loadmem`.
    Memory(Box<Expr>),
    /// Logical not, 1 when the operand is zero.
    Not(Box<Expr>),
    /// Arithmetic negation, wrapping.
    Neg(Box<Expr>),
    /// Wrapping addition.
    Add(Box<Expr>, Box<Expr>),
    /// Wrapping subtraction.
    Sub(Box<Expr>, Box<Expr>),
    /// Wrapping multiplication.
    Mul(Box<Expr>, Box<Expr>),
    /// Division, 0 when the divisor is 0.
    Div(Box<Expr>, Box<Expr>),
    /// Remainder, 0 when the divisor is 0.
    Mod(Box<Expr>, Box<Expr>),
    /// 1 when a < b.
    Lt(Box<Expr>, Box<Expr>),
    /// 1 when a <= b.
    Le(Box<Expr>, Box<Expr>),
    /// 1 when a > b.
    Gt(Box<Expr>, Box<Expr>),
    /// 1 when a >= b.
    Ge(Box<Expr>, Box<Expr>),
    /// 1 when a == b.
    Eq(Box<Expr>, Box<Expr>),
    /// 1 when a != b.
    Ne(Box<Expr>, Box<Expr>),
    /// Logical and, short circuit, 1 or 0.
    And(Box<Expr>, Box<Expr>),
    /// Logical or, short circuit, 1 or 0.
    Or(Box<Expr>, Box<Expr>),
}

impl Clone for Expr {
    fn clone(&self) -> (r: Expr)
        ensures
            r == *self,
        decreases self,
    {
        match self {
            Expr::Const(v) => Expr::Const(*v),
            Expr::Pc => Expr::Pc,
            Expr::Depth => Expr::Depth,
            Expr::Top => Expr::Top,
            Expr::Global(e) => Expr::Global(Box::new((**e).clone())),
            Expr::Memory(e) => Expr::Memory(Box::new((**e).clone())),
            Expr::Not(e) => Expr::Not(Box::new((**e).clone())),
            Expr::Neg(e) => Expr::Neg(Box::new((**e).clone())),
            Expr::Add(a, b) => Expr::Add(Box::new((**a).clone()), Box::new((**b).clone())),
            Expr::Sub(a, b) => Expr::Sub(Box::new((**a).clone()), Box::new((**b).clone())),
            Expr::Mul(a, b) => Expr::Mul(Box::new((**a).clone()), Box::new((**b).clone())),
            Expr::Div(a, b) => Expr::Div(Box::new((**a).clone()), Box::new((**b).clone())),
            Expr::Mod(a, b) => Expr::Mod(Box::new((**a).clone()), Box::new((**b).clone())),
            Expr::Lt(a, b) => Expr::Lt(Box::new((**a).clone()), Box::new((**b).clone())),
            Expr::Le(a, b) => Expr::Le(Box::new((**a).clone()), Box::new((**b).clone())),
            Expr::Gt(a, b) => Expr::Gt(Box::new((**a).clone()), Box::new((**b).clone())),
            Expr::Ge(a, b) => Expr::Ge(Box::new((**a).clone()), Box::new((**b).clone())),
            Expr::Eq(a, b) => Expr::Eq(Box::new((**a).clone()), Box::new((**b).clone())),
            Expr::Ne(a, b) => Expr::Ne(Box::new((**a).clone()), Box::new((**b).clone())),
            Expr::And(a, b) => Expr::And(Box::new((**a).clone()), Box::new((**b).clone())),
            Expr::Or(a, b) => Expr::Or(Box::new((**a).clone()), Box::new((**b).clone())),
        }
    }
}

/// A count as a 64-bit value, the largest one when it does not fit.
pub open spec fn capped(n: nat) -> i64 {
    if n > i64::MAX {
        i64::MAX
    } else {
        n as i64
    }
}

/// The value of an expression.
pub open spec fn value(e: Expr, c: Scope) -> i64
    decreases e,
{
    match e {
        Expr::Const(v) => v,
        Expr::Pc => capped(c.pc),
        Expr::Depth => capped(c.depth),
        Expr::Top => c.top,
        Expr::Global(i) => if value(*i, c) < 0 {
            0
        } else {
            arith::value_at(c.globals, value(*i, c) as nat)
        },
        Expr::Memory(i) => arith::value_at(c.memory, arith::cell(value(*i, c), c.memory.len())),
        Expr::Not(a) => arith::truth(value(*a, c) == 0),
        Expr::Neg(a) => arith::wrap(-value(*a, c)),
        Expr::Add(a, b) => arith::wrap(value(*a, c) + value(*b, c)),
        Expr::Sub(a, b) => arith::wrap(value(*a, c) - value(*b, c)),
        Expr::Mul(a, b) => arith::wrap(value(*a, c) * value(*b, c)),
        Expr::Div(a, b) => arith::quotient(value(*a, c), value(*b, c)),
        Expr::Mod(a, b) => arith::remainder(value(*a, c), value(*b, c)),
        Expr::Lt(a, b) => arith::truth(value(*a, c) < value(*b, c)),
        Expr::Le(a, b) => arith::truth(value(*a, c) <= value(*b, c)),
        Expr::Gt(a, b) => arith::truth(value(*a, c) > value(*b, c)),
        Expr::Ge(a, b) => arith::truth(value(*a, c) >= value(*b, c)),
        Expr::Eq(a, b) => arith::truth(value(*a, c) == value(*b, c)),
        Expr::Ne(a, b) => arith::truth(value(*a, c) != value(*b, c)),
        Expr::And(a, b) => arith::truth(value(*a, c) != 0 && value(*b, c) != 0),
        Expr::Or(a, b) => arith::truth(value(*a, c) != 0 || value(*b, c) != 0),
    }
}

/// Whether an expression holds as a condition.
pub open spec fn holds(e: Expr, c: Scope) -> bool {
    value(e, c) != 0
}

/// A count as a 64-bit value, the largest one when it does not fit.
fn capped_value(n: usize) -> (v: i64)
    ensures
        v == capped(n as nat),
{
    if n as u64 > i64::MAX as u64 {
        i64::MAX
    } else {
        n as i64
    }
}

impl Expr {
    /// Parse a complete expression. Trailing input is an error.
    ///
    /// # Errors
    ///
    /// Returns an [`ExprError`] describing the first problem: an unknown
    /// variable, an out-of-range integer literal, an unexpected or missing
    /// token, or trailing input after a complete expression. The message ends in
    /// the offset of the problem: the number of characters before it.
    pub fn parse(src: &str) -> (r: Result<Expr, ExprError>)
        ensures
            match r {
                Ok(e) => grammar::expression(src@) == Ok::<Expr, Seq<char>>(e),
                Err(fault) => grammar::expression(src@) == Err::<Expr, Seq<char>>(fault.message@),
            },
    {
        let chars: Vec<char> = chars_of(src);
        match parse_text(chars.as_slice()) {
            Ok(e) => Ok(e),
            Err(message) => Err(ExprError { message }),
        }
    }

    /// Evaluate the expression against a read-only context. Total: division or
    /// remainder by zero yields 0, globals out of range read 0, and a memory
    /// index is reduced into range with Euclidean remainder.
    #[must_use]
    pub fn eval(&self, ctx: &EvalCtx<'_>) -> (v: i64)
        ensures
            v == value(*self, ctx@),
        decreases self,
    {
        match self {
            Expr::Const(v) => *v,
            Expr::Pc => capped_value(ctx.pc),
            Expr::Depth => capped_value(ctx.depth),
            Expr::Top => ctx.top,
            Expr::Global(e) => {
                let i: i64 = e.eval(ctx);
                if i >= 0 && (i as u64) < ctx.globals.len() as u64 {
                    ctx.globals[i as usize]
                } else {
                    0
                }
            },
            Expr::Memory(e) => {
                let i: i64 = e.eval(ctx);
                read(ctx.memory, cell_index(i, ctx.memory.len()))
            },
            Expr::Not(e) => truth_value(e.eval(ctx) == 0),
            Expr::Neg(e) => negation(e.eval(ctx)),
            Expr::Add(a, b) => sum(a.eval(ctx), b.eval(ctx)),
            Expr::Sub(a, b) => difference(a.eval(ctx), b.eval(ctx)),
            Expr::Mul(a, b) => product(a.eval(ctx), b.eval(ctx)),
            Expr::Div(a, b) => divide(a.eval(ctx), b.eval(ctx)),
            Expr::Mod(a, b) => modulo(a.eval(ctx), b.eval(ctx)),
            Expr::Lt(a, b) => truth_value(a.eval(ctx) < b.eval(ctx)),
            Expr::Le(a, b) => truth_value(a.eval(ctx) <= b.eval(ctx)),
            Expr::Gt(a, b) => truth_value(a.eval(ctx) > b.eval(ctx)),
            Expr::Ge(a, b) => truth_value(a.eval(ctx) >= b.eval(ctx)),
            Expr::Eq(a, b) => truth_value(a.eval(ctx) == b.eval(ctx)),
            Expr::Ne(a, b) => truth_value(a.eval(ctx) != b.eval(ctx)),
            Expr::And(a, b) => truth_value(a.eval(ctx) != 0 && b.eval(ctx) != 0),
            Expr::Or(a, b) => truth_value(a.eval(ctx) != 0 || b.eval(ctx) != 0),
        }
    }

    /// Evaluate as a condition: nonzero means true.
    #[must_use]
    pub fn eval_cond(&self, ctx: &EvalCtx<'_>) -> (b: bool)
        ensures
            b == holds(*self, ctx@),
    {
        self.eval(ctx) != 0
    }
}

/// The expression that computes what an instruction pushes, for the operands
/// `a` below `b` on the stack.
pub open spec fn counterpart(op: Op, a: i64, b: i64) -> Option<Expr> {
    match op {
        Op::Add => Some(Expr::Add(Box::new(Expr::Const(a)), Box::new(Expr::Const(b)))),
        Op::Sub => Some(Expr::Sub(Box::new(Expr::Const(a)), Box::new(Expr::Const(b)))),
        Op::Mul => Some(Expr::Mul(Box::new(Expr::Const(a)), Box::new(Expr::Const(b)))),
        Op::Div => Some(Expr::Div(Box::new(Expr::Const(a)), Box::new(Expr::Const(b)))),
        Op::Mod => Some(Expr::Mod(Box::new(Expr::Const(a)), Box::new(Expr::Const(b)))),
        Op::Lt => Some(Expr::Lt(Box::new(Expr::Const(a)), Box::new(Expr::Const(b)))),
        Op::Gt => Some(Expr::Gt(Box::new(Expr::Const(a)), Box::new(Expr::Const(b)))),
        Op::Le => Some(Expr::Le(Box::new(Expr::Const(a)), Box::new(Expr::Const(b)))),
        Op::Ge => Some(Expr::Ge(Box::new(Expr::Const(a)), Box::new(Expr::Const(b)))),
        Op::Eq => Some(Expr::Eq(Box::new(Expr::Const(a)), Box::new(Expr::Const(b)))),
        Op::Ne => Some(Expr::Ne(Box::new(Expr::Const(a)), Box::new(Expr::Const(b)))),
        Op::Neg => Some(Expr::Neg(Box::new(Expr::Const(b)))),
        Op::LoadG(i) if i <= i64::MAX => Some(Expr::Global(Box::new(Expr::Const(i as i64)))),
        Op::LoadMem => Some(Expr::Memory(Box::new(Expr::Const(b)))),
        _ => None,
    }
}

/// Expressions and the machine agree: arithmetic, comparison, and reads of
/// globals and memory give in an expression what the instruction pushes, also
/// where values wrap, a divisor is zero or an address is out of range.
pub proof fn expressions_agree_with_the_machine(image: Image, s: State)
    requires
        machine::can_step(image, s),
    ensures
        counterpart(
            image.code[s.pc as int],
            machine::operand(s.stack, 1),
            machine::operand(s.stack, 0),
        ) matches Some(e) ==> machine::operand(machine::after_step(image, s).stack, 0) == value(
            e,
            scope_of(s),
        ),
{
    reveal_with_fuel(value, 2);
}

/// Comparisons and logic yield 1 or 0.
pub proof fn comparisons_and_logic_yield_one_or_zero(e: Expr, c: Scope)
    requires
        e is Not || e is Lt || e is Le || e is Gt || e is Ge || e is Eq || e is Ne || e is And
            || e is Or,
    ensures
        value(e, c) == 0 || value(e, c) == 1,
{
}

} // verus!
