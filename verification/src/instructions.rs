//! What each instruction is for: the laws of the instruction set.
//!
//! The laws speak of the state before and after an instruction alone. A stack
//! that holds enough operands is written as what lies below them and the
//! operands themselves; a missing operand reads 0.

use crate::arith;
use crate::machine;
use crate::machine::{Activation, Image, State};
use crate::text;
use crate::vm::Op;
use vstd::prelude::*;

verus! {

/// Whether the machine is about to execute `op`.
pub open spec fn about_to(image: Image, s: State, op: Op) -> bool {
    &&& !s.halted
    &&& s.pc < image.code.len()
    &&& image.code[s.pc as int] == op
}

/// Whether two integers differ by a multiple of 2 to the power 64.
pub open spec fn congruent(x: int, y: int) -> bool {
    (x - y) % 0x1_0000_0000_0000_0000 == 0
}

/// Whether `r` is the remainder of `a` by `b` that has the sign of `a`.
pub open spec fn leaves(a: int, b: int, r: int) -> bool {
    &&& -r < b || -r < -b
    &&& r < b || r < -b
    &&& a >= 0 ==> r >= 0
    &&& a <= 0 ==> r <= 0
    &&& (a - r) % (if b < 0 {
        -b
    } else {
        b
    }) == 0
}

/// Whether the machine went on to the instruction at `next`, with a new stack
/// and nothing else changed. It halts exactly when there is no such instruction.
pub open spec fn went_on(
    image: Image,
    s: State,
    t: State,
    next: nat,
    stack: Seq<i64>,
) -> bool {
    t == (State { pc: next, halted: next >= image.code.len(), stack, ..s })
}

/// There is an instruction to execute exactly when the machine has not halted and
/// its program counter is within the code.
pub proof fn machines_step_until_they_halt_or_leave_the_code(image: Image, s: State)
    ensures
        machine::can_step(image, s) <==> !s.halted && s.pc < image.code.len(),
{
}

/// The wrapped value is congruent to the exact one.
pub proof fn lemma_wrap(x: int)
    ensures
        congruent(arith::wrap(x) as int, x),
{
}

/// What division rounded toward zero gives back of the dividend.
pub proof fn lemma_division(a: i64, b: i64)
    requires
        b != 0,
    ensures
        leaves(a as int, b as int, arith::remainder(a, b) as int),
        !(a == i64::MIN && b == -1) ==> arith::quotient(a, b) * b + arith::remainder(a, b) == a,
        a == i64::MIN && b == -1 ==> arith::quotient(a, b) == i64::MIN && arith::remainder(a, b)
            == 0,
{
    let x = arith::magnitude(a as int);
    let y = arith::magnitude(b as int);
    let q = x / y;
    let r = x % y;
    vstd::arithmetic::div_mod::lemma_fundamental_div_mod(x, y);
    vstd::arithmetic::div_mod::lemma_mod_decreases(x as nat, y as nat);
    vstd::arithmetic::div_mod::lemma_div_is_ordered_by_denominator(x, 1, y);
    assert(x == y * q + r);
    assert(0 <= r < y);
    assert(0 <= q <= x);
    let exact = if (a < 0) == (b < 0) {
        q
    } else {
        -q
    };
    let rest = if a < 0 {
        -r
    } else {
        r
    };
    assert(exact * b + rest == a) by (nonlinear_arith)
        requires
            x == y * q + r,
            x == (if a < 0 {
                -(a as int)
            } else {
                a as int
            }),
            y == (if b < 0 {
                -(b as int)
            } else {
                b as int
            }),
            exact == (if (a < 0) == (b < 0) {
                q
            } else {
                -q
            }),
            rest == (if a < 0 {
                -r
            } else {
                r
            }),
    ;
    assert(arith::remainder(a, b) == rest);
    assert((a - rest) % y == 0) by {
        let times = if b < 0 {
            -exact
        } else {
            exact
        };
        assert(a - rest == times * y) by (nonlinear_arith)
            requires
                exact * b + rest == a,
                y == (if b < 0 {
                    -(b as int)
                } else {
                    b as int
                }),
                times == (if b < 0 {
                    -exact
                } else {
                    exact
                }),
        ;
        vstd::arithmetic::div_mod::lemma_mod_multiples_basic(times, y);
    }
    if a == i64::MIN && b == -1 {
        assert(y == 1);
        assert(q == x) by (nonlinear_arith)
            requires
                x == y * q + r,
                y == 1,
                r == 0,
        ;
    } else if q > i64::MAX {
        assert(y == 1) by (nonlinear_arith)
            requires
                x == y * q + r,
                0 <= r,
                y > 0,
                q > i64::MAX,
                x <= 0x8000_0000_0000_0000,
        ;
        assert(q == x) by (nonlinear_arith)
            requires
                x == y * q + r,
                y == 1,
                r == 0,
        ;
    }
}

/// `add`, `sub`, `mul`, `div` and `mod` replace two operands by one value: the
/// sum, the difference or the product modulo 2 to the power 64, the quotient
/// rounded toward zero, or the remainder with the sign of the dividend. The
/// operand on top is the right one. By zero, the quotient and the remainder are
/// zero; the one quotient that does not fit wraps around.
pub proof fn arithmetic_instructions_compute(
    image: Image,
    s: State,
    op: Op,
    rest: Seq<i64>,
    a: i64,
    b: i64,
)
    requires
        about_to(image, s, op),
        s.stack == rest.push(a).push(b),
        op is Add || op is Sub || op is Mul || op is Div || op is Mod,
    ensures
        ({
            let t = machine::after_step(image, s);
            let v = t.stack.last();
            &&& went_on(image, s, t, s.pc + 1, rest.push(v))
            &&& op is Add ==> congruent(v as int, a + b)
            &&& op is Sub ==> congruent(v as int, a - b)
            &&& op is Mul ==> congruent(v as int, a * b)
            &&& op is Div && b == 0 ==> v == 0
            &&& op is Div && b != 0 && !(a == i64::MIN && b == -1) ==> leaves(
                a as int,
                b as int,
                a - v * b,
            )
            &&& op is Div && a == i64::MIN && b == -1 ==> v == i64::MIN
            &&& op is Mod && b == 0 ==> v == 0
            &&& op is Mod && b != 0 ==> leaves(a as int, b as int, v as int)
        }),
{
    let t = machine::after_step(image, s);
    lemma_wrap(a + b);
    lemma_wrap(a - b);
    lemma_wrap(a * b);
    if b != 0 {
        lemma_division(a, b);
    }
    assert(t.stack =~= rest.push(t.stack.last()));
}

/// The six comparisons replace two operands by 1 when they stand in the relation
/// and by 0 when they do not.
pub proof fn comparisons_compare(
    image: Image,
    s: State,
    op: Op,
    rest: Seq<i64>,
    a: i64,
    b: i64,
)
    requires
        about_to(image, s, op),
        s.stack == rest.push(a).push(b),
        op is Lt || op is Gt || op is Le || op is Ge || op is Eq || op is Ne,
    ensures
        ({
            let t = machine::after_step(image, s);
            let v = t.stack.last();
            &&& went_on(image, s, t, s.pc + 1, rest.push(v))
            &&& v == 0 || v == 1
            &&& op is Lt ==> (v == 1 <==> a < b)
            &&& op is Gt ==> (v == 1 <==> b < a)
            &&& op is Le ==> (v == 0 <==> b < a)
            &&& op is Ge ==> (v == 0 <==> a < b)
            &&& op is Eq ==> (v == 1 <==> a == b)
            &&& op is Ne ==> (v == 0 <==> a == b)
        }),
{
    let t = machine::after_step(image, s);
    assert(t.stack =~= rest.push(t.stack.last()));
}

/// `push`, `pop`, `dup` and `neg` do to the stack what they say: a value more, a
/// value less, the top twice, and the top negated modulo 2 to the power 64.
pub proof fn stack_instructions_work_on_the_top(
    image: Image,
    s: State,
    op: Op,
    rest: Seq<i64>,
    b: i64,
)
    requires
        about_to(image, s, op),
        s.stack == rest.push(b),
        op is Push || op is Pop || op is Dup || op is Neg,
    ensures
        ({
            let t = machine::after_step(image, s);
            &&& op matches Op::Push(v) ==> went_on(image, s, t, s.pc + 1, s.stack.push(v))
            &&& op is Pop ==> went_on(image, s, t, s.pc + 1, rest)
            &&& op is Dup ==> went_on(image, s, t, s.pc + 1, s.stack.push(b))
            &&& op is Neg ==> {
                &&& went_on(image, s, t, s.pc + 1, rest.push(t.stack.last()))
                &&& congruent(t.stack.last() as int, -b)
            }
        }),
{
    let t = machine::after_step(image, s);
    lemma_wrap(-b);
    if let Op::Push(v) = op {
        assert(t.stack =~= s.stack.push(v));
    }
    if op is Pop {
        assert(t.stack =~= rest);
    }
    if op is Dup {
        assert(t.stack =~= s.stack.push(b));
    }
    if op is Neg {
        assert(t.stack =~= rest.push(t.stack.last()));
    }
}

/// `push` works on every stack, the empty one too.
pub proof fn push_adds_one_value(image: Image, s: State, v: i64)
    requires
        about_to(image, s, Op::Push(v)),
    ensures
        went_on(image, s, machine::after_step(image, s), s.pc + 1, s.stack.push(v)),
{
    assert(machine::after_step(image, s).stack =~= s.stack.push(v));
}

/// `load` pushes the local slot of the innermost frame, and `loadg` the global
/// slot; a slot that does not exist reads 0.
pub proof fn loads_push_the_slot(image: Image, s: State, i: usize)
    requires
        s.frames.len() > 0,
    ensures
        about_to(image, s, Op::Load(i)) ==> went_on(
            image,
            s,
            machine::after_step(image, s),
            s.pc + 1,
            s.stack.push(
                if i < s.frames.last().locals.len() {
                    s.frames.last().locals[i as int]
                } else {
                    0
                },
            ),
        ),
        about_to(image, s, Op::LoadG(i)) ==> went_on(
            image,
            s,
            machine::after_step(image, s),
            s.pc + 1,
            s.stack.push(
                if i < s.globals.len() {
                    s.globals[i as int]
                } else {
                    0
                },
            ),
        ),
{
    let t = machine::after_step(image, s);
    if about_to(image, s, Op::Load(i)) || about_to(image, s, Op::LoadG(i)) {
        assert(t.stack =~= s.stack.push(t.stack.last()));
    }
}

/// `store` takes the top of the stack into the local slot of the innermost frame
/// and changes no other slot and no other frame; a slot that does not exist
/// takes nothing.
pub proof fn store_sets_one_local(image: Image, s: State, i: usize, rest: Seq<i64>, b: i64)
    requires
        about_to(image, s, Op::Store(i)),
        s.stack == rest.push(b),
        s.frames.len() > 0,
    ensures
        ({
            let t = machine::after_step(image, s);
            let old = s.frames.last();
            let new = t.frames.last();
            &&& went_on(image, (State { frames: t.frames, ..s }), t, s.pc + 1, rest)
            &&& t.frames == s.frames.drop_last().push(new)
            &&& new == (Activation { locals: new.locals, ..old })
            &&& new.locals.len() == old.locals.len()
            &&& i < old.locals.len() ==> new.locals[i as int] == b
            &&& forall|k: int|
                0 <= k < old.locals.len() && k != i ==> #[trigger] new.locals[k] == old.locals[k]
        }),
{
    let t = machine::after_step(image, s);
    assert(t.stack =~= rest);
    assert(t.frames =~= s.frames.drop_last().push(t.frames.last()));
}

/// `storeg` takes the top of the stack into the global slot and changes no other;
/// a slot that does not exist takes nothing.
pub proof fn storeg_sets_one_global(image: Image, s: State, i: usize, rest: Seq<i64>, b: i64)
    requires
        about_to(image, s, Op::StoreG(i)),
        s.stack == rest.push(b),
    ensures
        ({
            let t = machine::after_step(image, s);
            &&& went_on(image, (State { globals: t.globals, ..s }), t, s.pc + 1, rest)
            &&& t.globals.len() == s.globals.len()
            &&& i < s.globals.len() ==> t.globals[i as int] == b
            &&& forall|k: int|
                0 <= k < s.globals.len() && k != i ==> #[trigger] t.globals[k] == s.globals[k]
        }),
{
    let t = machine::after_step(image, s);
    assert(t.stack =~= rest);
}

/// The cell that an address names: the one whose index is congruent to it modulo
/// the number of cells, so that addresses wrap around in both directions.
pub open spec fn is_cell(addr: i64, len: nat, i: int) -> bool {
    0 <= i < len && (addr - i) % (len as int) == 0
}

/// Every address names exactly one cell.
pub proof fn addresses_name_one_cell(addr: i64, len: nat)
    requires
        len > 0,
    ensures
        is_cell(addr, len, addr as int % len as int),
        forall|i: int| #[trigger] is_cell(addr, len, i) ==> i == addr as int % len as int,
{
    let n = len as int;
    let m = addr as int % n;
    vstd::arithmetic::div_mod::lemma_fundamental_div_mod(addr as int, n);
    vstd::arithmetic::div_mod::lemma_mod_bound(addr as int, n);
    assert(addr - m == (addr as int / n) * n) by (nonlinear_arith)
        requires
            addr as int == n * (addr as int / n) + m,
    ;
    vstd::arithmetic::div_mod::lemma_mod_multiples_basic(addr as int / n, n);
    assert forall|i: int| #[trigger] is_cell(addr, len, i) implies i == m by {
        vstd::arithmetic::div_mod::lemma_fundamental_div_mod(addr - i, n);
        vstd::arithmetic::div_mod::lemma_fundamental_div_mod_converse(
            addr as int,
            n,
            (addr - i) / n,
            i,
        );
    }
}

/// `loadmem` replaces an address by the value of the cell that it names.
pub proof fn loadmem_reads_the_cell(
    image: Image,
    s: State,
    rest: Seq<i64>,
    addr: i64,
    i: int,
)
    requires
        about_to(image, s, Op::LoadMem),
        s.stack == rest.push(addr),
        is_cell(addr, s.memory.len(), i),
    ensures
        went_on(
            image,
            s,
            machine::after_step(image, s),
            s.pc + 1,
            rest.push(s.memory[i]),
        ),
{
    addresses_name_one_cell(addr, s.memory.len());
    assert(machine::after_step(image, s).stack =~= rest.push(s.memory[i]));
}

/// `storemem` takes the value on top of the stack into the cell that the address
/// below it names, and changes no other cell.
pub proof fn storemem_sets_one_cell(
    image: Image,
    s: State,
    rest: Seq<i64>,
    addr: i64,
    v: i64,
    i: int,
)
    requires
        about_to(image, s, Op::StoreMem),
        s.stack == rest.push(addr).push(v),
        s.memory.len() <= usize::MAX,
        is_cell(addr, s.memory.len(), i),
    ensures
        went_on(
            image,
            (State { memory: s.memory.update(i, v), ..s }),
            machine::after_step(image, s),
            s.pc + 1,
            rest,
        ),
{
    addresses_name_one_cell(addr, s.memory.len());
    assert(machine::after_step(image, s).stack =~= rest);
}

/// `jmp` goes to its target, `jz` when the operand is zero, `jnz` when it is not;
/// otherwise the two go to the following instruction. Both take the operand.
pub proof fn branches_go_where_they_say(
    image: Image,
    s: State,
    target: usize,
    rest: Seq<i64>,
    b: i64,
)
    requires
        s.stack == rest.push(b),
    ensures
        ({
            let t = machine::after_step(image, s);
            &&& about_to(image, s, Op::Jmp(target)) ==> went_on(
                image,
                s,
                t,
                target as nat,
                s.stack,
            )
            &&& about_to(image, s, Op::Jz(target)) ==> {
                &&& b == 0 ==> went_on(image, s, t, target as nat, rest)
                &&& b != 0 ==> went_on(image, s, t, s.pc + 1, rest)
            }
            &&& about_to(image, s, Op::Jnz(target)) ==> {
                &&& b != 0 ==> went_on(image, s, t, target as nat, rest)
                &&& b == 0 ==> went_on(image, s, t, s.pc + 1, rest)
            }
        }),
{
    let t = machine::after_step(image, s);
    if about_to(image, s, Op::Jmp(target)) {
        assert(t.stack =~= s.stack);
    }
    if about_to(image, s, Op::Jz(target)) || about_to(image, s, Op::Jnz(target)) {
        assert(t.stack =~= rest);
    }
}

/// `jmp` does not look at the stack.
pub proof fn jmp_always_jumps(image: Image, s: State, target: usize)
    requires
        about_to(image, s, Op::Jmp(target)),
    ensures
        went_on(image, s, machine::after_step(image, s), target as nat, s.stack),
{
    assert(machine::after_step(image, s).stack =~= s.stack);
}

/// On the same operand exactly one of `jz` and `jnz` goes to the target, and the
/// other to the following instruction.
pub proof fn jz_and_jnz_are_opposites(zero: Image, nonzero: Image, s: State, target: usize)
    requires
        about_to(zero, s, Op::Jz(target)),
        about_to(nonzero, s, Op::Jnz(target)),
    ensures
        ({
            let a = machine::after_step(zero, s).pc;
            let b = machine::after_step(nonzero, s).pc;
            ||| a == target && b == s.pc + 1
            ||| a == s.pc + 1 && b == target
        }),
{
}

/// A call makes a frame for the function at its target and goes there. The frame
/// returns to the instruction after the call and names the line of the call. Its
/// first locals are the arguments in the order in which they were pushed, which
/// leave the stack, and its other locals are zero. The frames of the callers
/// stay.
pub proof fn calls_enter_the_function(
    image: Image,
    s: State,
    target: usize,
    nargs: usize,
    nlocals: usize,
    rest: Seq<i64>,
    args: Seq<i64>,
)
    requires
        about_to(image, s, Op::Call(target, nargs, nlocals)),
        s.stack == rest + args,
        args.len() == nargs,
    ensures
        ({
            let t = machine::after_step(image, s);
            let f = t.frames.last();
            &&& went_on(image, (State { frames: t.frames, ..s }), t, target as nat, rest)
            &&& t.frames == s.frames.push(f)
            &&& f.return_pc == s.pc + 1
            &&& s.pc < image.lines.len() ==> f.call_line == image.lines[f.return_pc - 1]
            &&& s.pc >= image.lines.len() ==> f.call_line == 0
            &&& f.stack_base == rest.len()
            &&& f.locals.len() >= nargs && f.locals.len() >= nlocals
            &&& f.locals.len() == nargs || f.locals.len() == nlocals
            &&& f.locals.take(nargs as int) == args
            &&& forall|k: int| nargs <= k < f.locals.len() ==> #[trigger] f.locals[k] == 0
            &&& if target < image.names.len() && image.names[target as int] is Some {
                f.func == image.names[target as int]->0
            } else {
                f.func == "fn@"@ + text::decimal(target as nat)
            }
        }),
{
    let t = machine::after_step(image, s);
    let f = t.frames.last();
    assert(t.stack =~= rest);
    assert(f.locals.take(nargs as int) =~= args);
}

/// `ret` leaves the innermost frame for the instruction that it returns to and
/// keeps the value on top of the stack. In the entry frame it halts the machine
/// where it stands.
pub proof fn returns_leave_the_function(image: Image, s: State, rest: Seq<i64>, v: i64)
    requires
        about_to(image, s, Op::Ret),
        s.stack == rest.push(v),
        s.frames.len() > 0,
    ensures
        ({
            let t = machine::after_step(image, s);
            &&& s.frames.len() > 1 ==> went_on(
                image,
                (State { frames: s.frames.drop_last(), ..s }),
                t,
                s.frames.last().return_pc,
                s.stack,
            )
            &&& s.frames.len() == 1 ==> t == (State { halted: true, ..s })
        }),
{
    let t = machine::after_step(image, s);
    assert(t.stack =~= s.stack);
}

/// A return takes back a call: whatever the function did meanwhile, the machine
/// goes on after the call, with the frames that it had before.
pub proof fn a_return_takes_back_a_call(
    image: Image,
    s: State,
    target: usize,
    nargs: usize,
    nlocals: usize,
    u: State,
    locals: Seq<i64>,
)
    requires
        about_to(image, s, Op::Call(target, nargs, nlocals)),
        about_to(image, u, Op::Ret),
        s.frames.len() > 0,
        u.frames == s.frames.push(
            Activation { locals, ..machine::after_step(image, s).frames.last() },
        ),
    ensures
        ({
            let t = machine::after_step(image, u);
            &&& t.pc == s.pc + 1
            &&& t.frames == s.frames
        }),
{
    assert(machine::after_step(image, u).frames =~= s.frames);
}

/// `print` takes the top of the stack and adds its decimal notation to the end of
/// the output; `halt` halts the machine where it stands.
pub proof fn print_and_halt(image: Image, s: State, rest: Seq<i64>, v: i64)
    requires
        s.stack == rest.push(v),
    ensures
        ({
            let t = machine::after_step(image, s);
            &&& about_to(image, s, Op::Print) ==> went_on(
                image,
                (State { output: s.output.push(text::signed_decimal(v as int)), ..s }),
                t,
                s.pc + 1,
                rest,
            )
            &&& about_to(image, s, Op::Halt) ==> t == (State { halted: true, ..s })
        }),
{
    let t = machine::after_step(image, s);
    if about_to(image, s, Op::Print) {
        assert(t.stack =~= rest);
    }
    if about_to(image, s, Op::Halt) {
        assert(t.stack =~= s.stack);
    }
}

/// `halt` works on every stack, the empty one too.
pub proof fn halt_always_halts(image: Image, s: State)
    requires
        about_to(image, s, Op::Halt),
    ensures
        machine::after_step(image, s) == (State { halted: true, ..s }),
{
    assert(machine::after_step(image, s).stack =~= s.stack);
}

/// How many operands an instruction takes.
pub open spec fn arity(op: Op) -> nat {
    match op {
        Op::Push(_) | Op::Load(_) | Op::LoadG(_) | Op::Jmp(_) | Op::Halt => 0,
        Op::Pop
        | Op::Dup
        | Op::Neg
        | Op::Store(_)
        | Op::StoreG(_)
        | Op::LoadMem
        | Op::Jz(_)
        | Op::Jnz(_)
        | Op::Ret
        | Op::Print => 1,
        Op::Call(_, nargs, _) => nargs as nat,
        _ => 2,
    }
}

/// A missing operand reads 0: with fewer operands than an instruction takes, it
/// does what it does with zeros below them.
pub proof fn missing_operands_read_zero(image: Image, s: State, op: Op, zeros: Seq<i64>)
    requires
        about_to(image, s, op),
        zeros.len() + s.stack.len() == arity(op),
        forall|k: int| 0 <= k < zeros.len() ==> #[trigger] zeros[k] == 0,
    ensures
        machine::after_step(image, s) == machine::after_step(
            image,
            (State { stack: zeros + s.stack, ..s }),
        ),
{
    let padded = State { stack: zeros + s.stack, ..s };
    let t = machine::after_step(image, s);
    let u = machine::after_step(image, padded);
    assert(machine::operand(s.stack, 0) == machine::operand(padded.stack, 0) || arity(op) == 0);
    assert(arity(op) == 2 ==> machine::operand(s.stack, 1) == machine::operand(padded.stack, 1));
    if let Op::Call(_, nargs, nlocals) = op {
        assert(machine::arguments(s.stack, nargs as nat, nlocals as nat) =~= machine::arguments(
            padded.stack,
            nargs as nat,
            nlocals as nat,
        ));
        assert(machine::without_top(s.stack, nargs as nat) =~= machine::without_top(
            padded.stack,
            nargs as nat,
        ));
    }
    assert(t.stack =~= u.stack);
    assert(t =~= u);
}

/// A machine starts at address 0 with an empty stack, no output, at least one
/// global and one memory cell, all of them zero, and the entry frame `main` with
/// eight locals, all of them zero.
pub proof fn machines_start_empty(globals: nat, memory: nat)
    ensures
        ({
            let s = machine::initial(globals, memory);
            &&& s.pc == 0
            &&& !s.halted
            &&& s.stack.len() == 0
            &&& s.output.len() == 0
            &&& s.globals.len() == (if globals == 0 {
                1
            } else {
                globals
            })
            &&& s.memory.len() == (if memory == 0 {
                1
            } else {
                memory
            })
            &&& forall|k: int| 0 <= k < s.globals.len() ==> #[trigger] s.globals[k] == 0
            &&& forall|k: int| 0 <= k < s.memory.len() ==> #[trigger] s.memory[k] == 0
            &&& s.frames.len() == 1
            &&& s.frames[0].func == "main"@
            &&& s.frames[0].locals.len() == 8
            &&& forall|k: int|
                0 <= k < 8 ==> #[trigger] s.frames[0].locals[k] == 0
            &&& s.frames[0].stack_base == 0
            &&& s.frames[0].call_line == 0
        }),
{
}

/// The machine halts exactly on `halt`, on a return from the entry frame, and
/// where the next instruction lies outside the code.
pub proof fn machines_halt_for_three_reasons(image: Image, s: State, op: Op)
    requires
        about_to(image, s, op),
    ensures
        ({
            let t = machine::after_step(image, s);
            t.halted <==> {
                ||| op is Halt
                ||| op is Ret && s.frames.len() <= 1
                ||| t.pc >= image.code.len()
            }
        }),
{
}

} // verus!
