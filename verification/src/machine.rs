//! The mathematical model of the machine: what one instruction does, what is
//! needed to take it back, and the laws that relate the two.

use crate::arith;
use crate::text;
use crate::vm::{Loc, Op};
use vstd::prelude::*;

verus! {

/// The fixed part of a loaded machine: the instructions, the source line of
/// each, and the name of each address that has one.
#[verifier::ext_equal]
pub struct Image {
    /// The instruction stream.
    pub code: Seq<Op>,
    /// The source line per address.
    pub lines: Seq<u32>,
    /// The name per address, where there is one.
    pub names: Seq<Option<Seq<char>>>,
}

/// A call frame.
#[verifier::ext_equal]
pub struct Activation {
    /// The name of the function.
    pub func: Seq<char>,
    /// Where to continue after the return.
    pub return_pc: nat,
    /// The local slots.
    pub locals: Seq<i64>,
    /// The operand-stack length when the frame was made.
    pub stack_base: nat,
    /// The source line of the call.
    pub call_line: u32,
}

/// The observable state of the machine.
#[verifier::ext_equal]
pub struct State {
    /// The program counter.
    pub pc: nat,
    /// Whether the machine has halted.
    pub halted: bool,
    /// The operand stack, bottom to top.
    pub stack: Seq<i64>,
    /// The global slots.
    pub globals: Seq<i64>,
    /// The linear memory.
    pub memory: Seq<i64>,
    /// The call frames, entry frame first.
    pub frames: Seq<Activation>,
    /// The output, one entry per print.
    pub output: Seq<Seq<char>>,
}

/// What an instruction does to the frame stack.
#[verifier::ext_equal]
pub enum FrameEffect {
    /// Nothing.
    Stay,
    /// It enters a function.
    Enter(Activation),
    /// It leaves the innermost frame.
    Leave,
}

/// Everything one instruction does.
#[verifier::ext_equal]
pub struct Effect {
    /// How many operands it takes off the stack. A missing operand reads 0.
    pub pops: nat,
    /// The values it then pushes, the first pushed first.
    pub pushes: Seq<i64>,
    /// The store it performs. A store out of range does nothing.
    pub write: Option<(Loc, i64)>,
    /// What happens to the frames.
    pub frame: FrameEffect,
    /// The value it prints.
    pub prints: Option<i64>,
    /// The address of the next instruction.
    pub next: nat,
    /// Whether it stops the machine by itself.
    pub stops: bool,
}

/// How the frame stack changed, for taking an instruction back.
#[verifier::ext_equal]
pub enum FrameChange {
    /// It did not.
    Kept,
    /// A frame was pushed.
    Pushed,
    /// This frame was popped.
    Popped(Activation),
}

/// Everything needed to take one instruction back.
#[verifier::ext_equal]
pub struct Record {
    /// The program counter before the instruction.
    pub pc_before: nat,
    /// How many values it pushed.
    pub pushed: nat,
    /// The values it popped, in the order they came off.
    pub popped: Seq<i64>,
    /// The locations it wrote, each with its old value.
    pub writes: Seq<(Loc, i64)>,
    /// How the frame stack changed.
    pub frame: FrameChange,
    /// Whether it printed.
    pub printed: bool,
    /// Whether the machine had halted before.
    pub halted_before: bool,
}

/// The operand `depth` places below the top of the stack, 0 below the bottom.
pub open spec fn operand(stack: Seq<i64>, depth: nat) -> i64 {
    if depth < stack.len() {
        stack[stack.len() - 1 - depth]
    } else {
        0
    }
}

/// The stack without its top `n` values.
pub open spec fn without_top<A>(stack: Seq<A>, n: nat) -> Seq<A> {
    if n < stack.len() {
        stack.take(stack.len() - n)
    } else {
        Seq::empty()
    }
}

/// The top `n` values of the stack, the topmost first.
pub open spec fn top_values(stack: Seq<i64>, n: nat) -> Seq<i64> {
    Seq::new(
        if n < stack.len() {
            n
        } else {
            stack.len()
        },
        |k: int| stack[stack.len() - 1 - k],
    )
}

/// The value of local slot `i` of the innermost frame, 0 when there is none.
pub open spec fn local_value(s: State, i: nat) -> i64 {
    if s.frames.len() > 0 {
        arith::value_at(s.frames.last().locals, i)
    } else {
        0
    }
}

/// The source line of an address, 0 when out of range.
pub open spec fn line_of(lines: Seq<u32>, pc: nat) -> u32 {
    if pc < lines.len() {
        lines[pc as int]
    } else {
        0
    }
}

/// The name shown for the function at an address.
pub open spec fn function_name(names: Seq<Option<Seq<char>>>, target: nat) -> Seq<char> {
    if target < names.len() && names[target as int] is Some {
        names[target as int]->0
    } else {
        "fn@"@ + text::decimal(target)
    }
}

/// The larger of two numbers.
pub open spec fn larger(a: nat, b: nat) -> nat {
    if a < b {
        b
    } else {
        a
    }
}

/// The slots of the frame that a call makes: the arguments, the topmost last,
/// and then zeros.
pub open spec fn arguments(stack: Seq<i64>, nargs: nat, nlocals: nat) -> Seq<i64> {
    Seq::new(
        larger(nlocals, nargs),
        |k: int|
            if k < nargs {
                operand(stack, (nargs - 1 - k) as nat)
            } else {
                0
            },
    )
}

/// The frame that a call makes.
pub open spec fn callee(
    image: Image,
    s: State,
    target: nat,
    nargs: nat,
    nlocals: nat,
) -> Activation {
    Activation {
        func: function_name(image.names, target),
        return_pc: s.pc + 1,
        locals: arguments(s.stack, nargs, nlocals),
        stack_base: without_top(s.stack, nargs).len(),
        call_line: line_of(image.lines, s.pc),
    }
}

/// Whether there is an instruction to execute.
pub open spec fn can_step(image: Image, s: State) -> bool {
    !s.halted && s.pc < image.code.len()
}

/// What the next instruction does.
pub open spec fn effect(image: Image, s: State) -> Effect {
    let b = operand(s.stack, 0);
    let a = operand(s.stack, 1);
    let base = Effect {
        pops: 0,
        pushes: Seq::empty(),
        write: None,
        frame: FrameEffect::Stay,
        prints: None,
        next: s.pc + 1,
        stops: false,
    };
    let unary = Effect { pops: 1, ..base };
    let binary = Effect { pops: 2, ..base };
    match image.code[s.pc as int] {
        Op::Push(v) => Effect { pushes: seq![v], ..base },
        Op::Pop => unary,
        Op::Dup => Effect { pushes: seq![b, b], ..unary },
        Op::Add => Effect { pushes: seq![arith::wrap(a + b)], ..binary },
        Op::Sub => Effect { pushes: seq![arith::wrap(a - b)], ..binary },
        Op::Mul => Effect { pushes: seq![arith::wrap(a * b)], ..binary },
        Op::Div => Effect { pushes: seq![arith::quotient(a, b)], ..binary },
        Op::Mod => Effect { pushes: seq![arith::remainder(a, b)], ..binary },
        Op::Neg => Effect { pushes: seq![arith::wrap(-b)], ..unary },
        Op::Lt => Effect { pushes: seq![arith::truth(a < b)], ..binary },
        Op::Gt => Effect { pushes: seq![arith::truth(a > b)], ..binary },
        Op::Le => Effect { pushes: seq![arith::truth(a <= b)], ..binary },
        Op::Ge => Effect { pushes: seq![arith::truth(a >= b)], ..binary },
        Op::Eq => Effect { pushes: seq![arith::truth(a == b)], ..binary },
        Op::Ne => Effect { pushes: seq![arith::truth(a != b)], ..binary },
        Op::Load(i) => Effect { pushes: seq![local_value(s, i as nat)], ..base },
        Op::Store(i) => Effect { write: Some((Loc::Local(i), b)), ..unary },
        Op::LoadG(i) => Effect { pushes: seq![arith::value_at(s.globals, i as nat)], ..base },
        Op::StoreG(i) => Effect { write: Some((Loc::Global(i), b)), ..unary },
        Op::LoadMem => Effect {
            pushes: seq![arith::value_at(s.memory, arith::cell(b, s.memory.len()))],
            ..unary
        },
        Op::StoreMem => Effect {
            write: Some((Loc::Mem(arith::cell(a, s.memory.len()) as usize), b)),
            ..binary
        },
        Op::Jmp(t) => Effect { next: t as nat, ..base },
        Op::Jz(t) => Effect {
            next: if b == 0 {
                t as nat
            } else {
                base.next
            },
            ..unary
        },
        Op::Jnz(t) => Effect {
            next: if b != 0 {
                t as nat
            } else {
                base.next
            },
            ..unary
        },
        Op::Call(t, nargs, nlocals) => Effect {
            pops: nargs as nat,
            frame: FrameEffect::Enter(callee(image, s, t as nat, nargs as nat, nlocals as nat)),
            next: t as nat,
            ..base
        },
        Op::Ret => if s.frames.len() > 1 {
            Effect {
                pushes: seq![b],
                frame: FrameEffect::Leave,
                next: s.frames.last().return_pc,
                ..unary
            }
        } else {
            Effect { pushes: seq![b], next: s.pc, stops: true, ..unary }
        },
        Op::Print => Effect { prints: Some(b), ..unary },
        Op::Halt => Effect { next: s.pc, stops: true, ..base },
    }
}

/// The value at a location, `None` when it does not exist.
pub open spec fn stored(s: State, loc: Loc) -> Option<i64> {
    match loc {
        Loc::Local(i) => if s.frames.len() > 0 && i < s.frames.last().locals.len() {
            Some(s.frames.last().locals[i as int])
        } else {
            None
        },
        Loc::Global(i) => if i < s.globals.len() {
            Some(s.globals[i as int])
        } else {
            None
        },
        Loc::Mem(i) => if i < s.memory.len() {
            Some(s.memory[i as int])
        } else {
            None
        },
    }
}

/// The location with its value, for putting it back; nothing when it does not
/// exist.
pub open spec fn saved(s: State, loc: Loc) -> Seq<(Loc, i64)> {
    match stored(s, loc) {
        Some(v) => seq![(loc, v)],
        None => Seq::empty(),
    }
}

/// The state after storing a value, unchanged when the location does not exist.
pub open spec fn store(s: State, loc: Loc, v: i64) -> State {
    if stored(s, loc) is None {
        s
    } else {
        match loc {
            Loc::Local(i) => {
                let f = s.frames.last();
                State {
                    frames: s.frames.update(
                        s.frames.len() - 1,
                        Activation { locals: f.locals.update(i as int, v), ..f },
                    ),
                    ..s
                }
            },
            Loc::Global(i) => State { globals: s.globals.update(i as int, v), ..s },
            Loc::Mem(i) => State { memory: s.memory.update(i as int, v), ..s },
        }
    }
}

/// The state after an effect. A machine whose next address lies outside the
/// code has run off the end, and is halted.
pub open spec fn apply(image: Image, s: State, e: Effect) -> State {
    let written = match e.write {
        Some((loc, v)) => store(s, loc, v),
        None => s,
    };
    State {
        pc: e.next,
        halted: e.stops || e.next >= image.code.len(),
        stack: without_top(s.stack, e.pops) + e.pushes,
        globals: written.globals,
        memory: written.memory,
        frames: match e.frame {
            FrameEffect::Stay => written.frames,
            FrameEffect::Enter(f) => written.frames.push(f),
            FrameEffect::Leave => written.frames.drop_last(),
        },
        output: match e.prints {
            Some(v) => s.output.push(text::signed_decimal(v as int)),
            None => s.output,
        },
    }
}

/// The record that takes an effect back.
pub open spec fn reversal(s: State, e: Effect) -> Record {
    Record {
        pc_before: s.pc,
        pushed: e.pushes.len(),
        popped: top_values(s.stack, e.pops),
        writes: match e.write {
            Some((loc, _)) => saved(s, loc),
            None => Seq::empty(),
        },
        frame: match e.frame {
            FrameEffect::Stay => FrameChange::Kept,
            FrameEffect::Enter(_) => FrameChange::Pushed,
            FrameEffect::Leave => FrameChange::Popped(s.frames.last()),
        },
        printed: e.prints is Some,
        halted_before: s.halted,
    }
}

/// The state after the next instruction.
pub open spec fn after_step(image: Image, s: State) -> State {
    apply(image, s, effect(image, s))
}

/// The record that takes the next instruction back.
pub open spec fn step_record(image: Image, s: State) -> Record {
    reversal(s, effect(image, s))
}

/// The state with every written location restored, the last write first.
pub open spec fn restored(s: State, writes: Seq<(Loc, i64)>) -> State
    decreases writes.len(),
{
    if writes.len() == 0 {
        s
    } else {
        restored(store(s, writes.last().0, writes.last().1), writes.drop_last())
    }
}

/// Whether every global and memory cell in the list exists.
pub open spec fn writes_fit(s: State, writes: Seq<(Loc, i64)>) -> bool {
    forall|k: int|
        0 <= k < writes.len() ==> match (#[trigger] writes[k]).0 {
            Loc::Local(_) => true,
            Loc::Global(i) => i < s.globals.len(),
            Loc::Mem(i) => i < s.memory.len(),
        }
}

/// Restoring locations touches neither the stack nor anything that depends on
/// it.
pub proof fn lemma_restored_stack(s: State, stack: Seq<i64>, writes: Seq<(Loc, i64)>)
    ensures
        restored((State { stack, ..s }), writes) == (State { stack, ..restored(s, writes) }),
        restored(s, writes).output == s.output,
        restored(s, writes).stack == s.stack,
    decreases writes.len(),
{
    if writes.len() > 0 {
        let (loc, v) = writes.last();
        let t = State { stack, ..s };
        assert(store(t, loc, v) =~= (State { stack, ..store(s, loc, v) }));
        lemma_restored_stack(store(s, loc, v), stack, writes.drop_last());
    }
}

/// The state after taking an instruction back by its record.
pub open spec fn after_undo(s: State, r: Record) -> State {
    let w = restored(s, r.writes);
    State {
        pc: r.pc_before,
        halted: r.halted_before,
        stack: without_top(s.stack, r.pushed) + r.popped.reverse(),
        globals: w.globals,
        memory: w.memory,
        frames: match r.frame {
            FrameChange::Kept => w.frames,
            FrameChange::Pushed => without_top(w.frames, 1),
            FrameChange::Popped(f) => w.frames.push(f),
        },
        output: if r.printed {
            without_top(s.output, 1)
        } else {
            s.output
        },
    }
}

/// The state a machine starts in: one entry frame with eight locals, and every
/// cell zero. There is always at least one global and one memory cell.
pub open spec fn initial(globals: nat, memory: nat) -> State {
    State {
        pc: 0,
        halted: false,
        stack: Seq::empty(),
        globals: zeros(larger(globals, 1)),
        memory: zeros(larger(memory, 1)),
        frames: seq![
            Activation {
                func: "main"@,
                return_pc: usize::MAX as nat,
                locals: zeros(8),
                stack_base: 0,
                call_line: 0,
            },
        ],
        output: Seq::empty(),
    }
}

/// `n` zero cells.
pub open spec fn zeros(n: nat) -> Seq<i64> {
    Seq::new(n, |i: int| 0i64)
}

/// Whether a vector of `n` cells of 64 bits can be allocated at all: its size
/// in bytes must not exceed the largest `isize`.
pub open spec fn allocatable(n: nat) -> bool {
    n * 8 <= isize::MAX
}

/// Whether the frame that an instruction may make can be allocated.
pub open spec fn frame_fits(op: Op) -> bool {
    op matches Op::Call(_, nargs, nlocals) ==> allocatable(larger(nlocals as nat, nargs as nat))
}

/// Whether the frame that the next instruction makes, if there is a next one and
/// it makes a frame, can be allocated.
pub open spec fn step_fits(image: Image, s: State) -> bool {
    can_step(image, s) ==> frame_fits(image.code[s.pc as int])
}

/// Whether every frame that the code may make can be allocated.
pub open spec fn frames_fit(code: Seq<Op>) -> bool {
    forall|i: int| 0 <= i < code.len() ==> frame_fits(#[trigger] code[i])
}

/// Popping one value after `n` others is popping `n + 1`.
pub proof fn lemma_pop_next(stack: Seq<i64>, n: nat)
    ensures
        operand(without_top(stack, n), 0) == operand(stack, n),
        without_top(without_top(stack, n), 1) == without_top(stack, n + 1),
        top_values(stack, n) + top_values(without_top(stack, n), 1) == top_values(stack, n + 1),
{
    assert(without_top(without_top(stack, n), 1) =~= without_top(stack, n + 1));
    assert(top_values(stack, n) + top_values(without_top(stack, n), 1) =~= top_values(
        stack,
        n + 1,
    ));
}

/// Whether an effect leaves the frames alone or leaves the locals alone, and
/// keeps the entry frame.
pub open spec fn reversible(s: State, e: Effect) -> bool {
    &&& e.frame is Stay || e.write is None
    &&& e.frame is Leave ==> s.frames.len() > 1
}

/// Taking back an effect restores the state before it.
proof fn lemma_reversal(image: Image, s: State, e: Effect)
    requires
        !s.halted,
        reversible(s, e),
    ensures
        after_undo(apply(image, s, e), reversal(s, e)) == s,
{
    let t = apply(image, s, e);
    let r = reversal(s, e);
    assert(without_top(t.stack, r.pushed) =~= without_top(s.stack, e.pops));
    assert(without_top(s.stack, e.pops) + top_values(s.stack, e.pops).reverse() =~= s.stack);
    reveal_with_fuel(restored, 2);
    if let Some((loc, v)) = e.write {
        if stored(s, loc) is Some {
            let old = stored(s, loc)->0;
            assert(r.writes.drop_last() =~= Seq::<(Loc, i64)>::empty());
            assert(restored(t, r.writes) == store(t, loc, old));
            match loc {
                Loc::Local(i) => {
                    let f = s.frames.last();
                    assert(f.locals.update(i as int, v).update(i as int, old) =~= f.locals);
                    assert(store(t, loc, old).frames =~= s.frames);
                },
                Loc::Global(i) => {
                    assert(s.globals.update(i as int, v).update(i as int, old) =~= s.globals);
                },
                Loc::Mem(i) => {
                    assert(s.memory.update(i as int, v).update(i as int, old) =~= s.memory);
                },
            }
        }
    }
    let u = after_undo(t, r);
    assert(u.frames =~= s.frames);
    assert(u.output =~= s.output);
    assert(u =~= s);
}

/// Every instruction can be taken back.
proof fn lemma_reversible(image: Image, s: State)
    ensures
        reversible(s, effect(image, s)),
{
}

/// Undo is the exact inverse of step: taking an instruction back by its own
/// record gives the state before it.
pub proof fn undo_inverts_step(image: Image, s: State)
    requires
        can_step(image, s),
    ensures
        after_undo(after_step(image, s), step_record(image, s)) == s,
{
    lemma_reversible(image, s);
    lemma_reversal(image, s, effect(image, s));
}

/// The state after `n` instructions.
#[verifier::opaque]
pub open spec fn run(image: Image, s: State, n: nat) -> State
    decreases n,
{
    if n == 0 {
        s
    } else {
        after_step(image, run(image, s, (n - 1) as nat))
    }
}

/// A run starts where it starts, and goes on one instruction at a time.
pub proof fn run_steps(image: Image, s: State, n: nat)
    ensures
        run(image, s, 0) == s,
        run(image, s, n + 1) == after_step(image, run(image, s, n)),
{
    reveal(run);
}

/// Whether the machine can execute at least `n` instructions.
pub open spec fn runs(image: Image, s: State, n: nat) -> bool {
    forall|k: nat| k < n ==> can_step(image, #[trigger] run(image, s, k))
}

/// The records of the first `n` instructions.
pub open spec fn trail(image: Image, s: State, n: nat) -> Seq<Record> {
    Seq::new(n, |k: int| step_record(image, run(image, s, k as nat)))
}

/// The state after taking back every recorded instruction, the last first.
pub open spec fn rewound(s: State, records: Seq<Record>) -> State
    decreases records.len(),
{
    if records.len() == 0 {
        s
    } else {
        rewound(after_undo(s, records.last()), records.drop_last())
    }
}

/// Running `n` instructions and taking all of them back is the identity.
pub proof fn rewind_inverts_run(image: Image, s: State, n: nat)
    requires
        runs(image, s, n),
    ensures
        rewound(run(image, s, n), trail(image, s, n)) == s,
    decreases n,
{
    run_steps(image, s, 0);
    if n > 0 {
        let m = (n - 1) as nat;
        run_steps(image, s, m);
        assert(can_step(image, run(image, s, m)));
        undo_inverts_step(image, run(image, s, m));
        assert(trail(image, s, n).drop_last() =~= trail(image, s, m));
        rewind_inverts_run(image, s, m);
    }
}

/// Running `m` and then `n` instructions is running `m + n`.
pub proof fn run_adds_up(image: Image, s: State, m: nat, n: nat)
    ensures
        run(image, run(image, s, m), n) == run(image, s, m + n),
    decreases n,
{
    run_steps(image, run(image, s, m), 0);
    if n > 0 {
        run_steps(image, run(image, s, m), (n - 1) as nat);
        run_steps(image, s, (m + n - 1) as nat);
        run_adds_up(image, s, m, (n - 1) as nat);
    }
}

/// After any instruction the machine is stuck exactly when it has halted.
pub proof fn stuck_means_halted(image: Image, s: State)
    ensures
        ({
            let t = after_step(image, s);
            t.halted <==> !can_step(image, t)
        }),
{
}

/// An instruction changes neither the number of globals nor the size of the
/// memory, and the entry frame is never left.
pub proof fn step_keeps_sizes(image: Image, s: State)
    ensures
        ({
            let t = after_step(image, s);
            &&& t.globals.len() == s.globals.len()
            &&& t.memory.len() == s.memory.len()
            &&& s.frames.len() > 0 ==> t.frames.len() > 0
        }),
{
    lemma_reversible(image, s);
}

/// What an instruction records can be put back: the cells exist.
pub proof fn recorded_writes_fit(image: Image, s: State)
    ensures
        writes_fit(after_step(image, s), step_record(image, s).writes),
{
    step_keeps_sizes(image, s);
    let writes = step_record(image, s).writes;
    assert(writes.len() <= 1);
}

/// Every state of a run has the sizes of the first, and at least the entry
/// frame.
pub proof fn run_keeps_sizes(image: Image, s: State, n: nat)
    requires
        s.frames.len() > 0,
    ensures
        run(image, s, n).globals.len() == s.globals.len(),
        run(image, s, n).memory.len() == s.memory.len(),
        run(image, s, n).frames.len() > 0,
    decreases n,
{
    run_steps(image, s, 0);
    if n > 0 {
        run_steps(image, s, (n - 1) as nat);
        run_keeps_sizes(image, s, (n - 1) as nat);
        step_keeps_sizes(image, run(image, s, (n - 1) as nat));
    }
}

/// Whether an instruction left the frames alone but for locals of the innermost
/// one.
pub open spec fn stays_in_frame(s: State, t: State) -> bool {
    &&& t.frames.len() == s.frames.len()
    &&& s.frames.len() > 0 ==> {
        &&& t.frames.drop_last() == s.frames.drop_last()
        &&& t.frames.last() == (Activation {
            locals: t.frames.last().locals,
            ..s.frames.last()
        })
    }
}

/// An instruction stays in its frame, enters a frame above it, or leaves its
/// frame for the return address of that frame. It never touches the frames of
/// the callers.
pub proof fn frames_change_at_the_top(image: Image, s: State)
    ensures
        ({
            let t = after_step(image, s);
            ||| stays_in_frame(s, t)
            ||| t.frames.len() == s.frames.len() + 1 && t.frames.drop_last() == s.frames
            ||| s.frames.len() > 1 && t.frames == s.frames.drop_last() && t.pc
                == s.frames.last().return_pc
        }),
{
    let e = effect(image, s);
    let t = after_step(image, s);
    assert(e.frame is Leave ==> s.frames.len() > 1 && e.next == s.frames.last().return_pc);
    match e.frame {
        FrameEffect::Stay => {
            if s.frames.len() > 0 {
                assert(t.frames.drop_last() =~= s.frames.drop_last());
            }
        },
        FrameEffect::Enter(f) => {
            assert(t.frames.drop_last() =~= s.frames);
        },
        FrameEffect::Leave => {},
    }
}

/// While the frame number `depth` is active, the frames of its callers do not
/// change, and neither does anything of it but its locals.
pub proof fn callers_wait(image: Image, s: State, depth: nat, n: nat)
    requires
        depth > 0,
        forall|k: nat| k <= n ==> (#[trigger] run(image, s, k)).frames.len() >= depth,
    ensures
        run(image, s, n).frames.take(depth - 1) == s.frames.take(depth - 1),
        run(image, s, n).frames[depth - 1] == (Activation {
            locals: run(image, s, n).frames[depth - 1].locals,
            ..s.frames[depth - 1]
        }),
    decreases n,
{
    assert(run(image, s, 0).frames.len() >= depth);
    run_steps(image, s, 0);
    if n > 0 {
        let m = (n - 1) as nat;
        run_steps(image, s, m);
        callers_wait(image, s, depth, m);
        let a = run(image, s, m);
        let b = run(image, s, n);
        assert(a.frames.len() >= depth);
        assert(b.frames.len() >= depth);
        frames_change_at_the_top(image, a);
        assert forall|j: int| 0 <= j < depth - 1 implies b.frames[j] == a.frames[j] by {
            if stays_in_frame(a, b) {
                assert(b.frames.drop_last()[j] == a.frames.drop_last()[j]);
            } else if b.frames.len() == a.frames.len() + 1 {
                assert(b.frames.drop_last()[j] == a.frames[j]);
            }
        }
        assert(b.frames.take(depth - 1) =~= a.frames.take(depth - 1));
        let j = depth - 1;
        if stays_in_frame(a, b) {
            if j < a.frames.len() - 1 {
                assert(b.frames.drop_last()[j] == a.frames.drop_last()[j]);
            }
        } else if b.frames.len() == a.frames.len() + 1 {
            assert(b.frames.drop_last()[j] == a.frames[j]);
        }
    }
}

/// An instruction changes what it names and nothing else: globals by `storeg`,
/// at its slot; memory by `storemem`, at the cell of its address; the output by
/// `print`, by one decimal number at the end; the number of frames by `call` and
/// by `ret`.
pub proof fn instructions_change_what_they_name(image: Image, s: State)
    requires
        can_step(image, s),
        0 < s.memory.len() <= usize::MAX,
    ensures
        ({
            let op = image.code[s.pc as int];
            let t = after_step(image, s);
            &&& t.globals.len() == s.globals.len()
            &&& forall|i: int|
                0 <= i < s.globals.len() && #[trigger] t.globals[i] != s.globals[i] ==> op
                    == Op::StoreG(i as usize)
            &&& t.memory.len() == s.memory.len()
            &&& forall|i: int|
                0 <= i < s.memory.len() && #[trigger] t.memory[i] != s.memory[i] ==> op is StoreMem
                    && i == operand(s.stack, 1) as int % (s.memory.len() as int)
            &&& t.output == (if op is Print {
                s.output.push(text::signed_decimal(operand(s.stack, 0) as int))
            } else {
                s.output
            })
            &&& t.frames.len() == s.frames.len() + (if op is Call {
                1int
            } else if op is Ret && s.frames.len() > 1 {
                -1
            } else {
                0
            })
        }),
{
    let a = operand(s.stack, 1) as int;
    let n = s.memory.len() as int;
    assert(0 <= a % n < n) by (nonlinear_arith)
        requires
            n > 0,
    ;
}

/// In every state of a run the entry frame is there, under its name, and the
/// machine has the cells that it started with: as many as asked for, and at
/// least one of each kind.
pub proof fn runs_keep_their_shape(image: Image, globals: nat, memory: nat, n: nat)
    ensures
        ({
            let s = run(image, initial(globals, memory), n);
            &&& s.frames.len() > 0
            &&& s.frames[0].func == "main"@
            &&& s.globals.len() == larger(globals, 1)
            &&& s.memory.len() == larger(memory, 1)
        }),
    decreases n,
{
    let start = initial(globals, memory);
    run_steps(image, start, 0);
    if n > 0 {
        let m = (n - 1) as nat;
        let a = run(image, start, m);
        let b = run(image, start, n);
        run_steps(image, start, m);
        runs_keep_their_shape(image, globals, memory, m);
        step_keeps_sizes(image, a);
        frames_change_at_the_top(image, a);
        if stays_in_frame(a, b) && a.frames.len() > 1 {
            assert(b.frames.drop_last()[0] == a.frames.drop_last()[0]);
        } else if b.frames.len() == a.frames.len() + 1 {
            assert(b.frames.drop_last()[0] == a.frames[0]);
        }
    }
}

/// A read gives back what the last write to the location wrote, and a write
/// changes no other location.
pub proof fn reads_give_back_writes(s: State, loc: Loc, v: i64, other: Loc)
    requires
        stored(s, loc) is Some,
    ensures
        stored(store(s, loc, v), loc) == Some(v),
        other != loc ==> stored(store(s, loc, v), other) == stored(s, other),
{
}

/// Whether a text is the decimal notation of a value.
pub open spec fn is_decimal(text: Seq<char>) -> bool {
    exists|v: i64| text == #[trigger] text::signed_decimal(v as int)
}

/// Whether every output is the decimal notation of a value.
pub open spec fn outputs_are_decimal(s: State) -> bool {
    forall|i: int| 0 <= i < s.output.len() ==> is_decimal(#[trigger] s.output[i])
}

/// A program prints decimal numbers.
pub proof fn programs_print_decimals(image: Image, s: State, n: nat)
    requires
        outputs_are_decimal(s),
    ensures
        outputs_are_decimal(run(image, s, n)),
    decreases n,
{
    run_steps(image, s, 0);
    if n > 0 {
        let a = run(image, s, (n - 1) as nat);
        let b = run(image, s, n);
        run_steps(image, s, (n - 1) as nat);
        programs_print_decimals(image, s, (n - 1) as nat);
        assert forall|i: int| 0 <= i < b.output.len() implies is_decimal(
            #[trigger] b.output[i],
        ) by {
            if i < a.output.len() {
                assert(b.output[i] == a.output[i]);
            } else {
                let v = effect(image, a).prints->0;
                assert(b.output[i] == text::signed_decimal(v as int));
            }
        }
    }
}

} // verus!
