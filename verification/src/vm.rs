//! The Bloodhound stack virtual machine.

use crate::arith;
use crate::arith::{
    cell_index, difference, divide, modulo, negation, product, read, sum, truth_value,
};
use crate::machine;
use crate::machine::{Activation, FrameChange, Image, Record, State};
use crate::text;
use crate::text::{chars_of, is_text, push_decimal, push_signed};
use vstd::prelude::*;

verus! {

/// The default number of global slots when a program does not request more.
pub const DEFAULT_GLOBALS: usize = 16;

/// The default number of linear-memory cells when a program does not request more.
pub const DEFAULT_MEMORY: usize = 64;

/// The instruction set of the stack VM.
///
/// Addresses are instruction indices into [`Program::code`]. Local, global and
/// memory operands are slot indices.
#[derive(Clone, Copy, Debug, PartialEq, Eq)]
pub enum Op {
    /// Push a constant onto the operand stack.
    Push(i64),
    /// Pop and discard the top of stack.
    Pop,
    /// Duplicate the top of stack.
    Dup,
    /// Pop b, pop a, push a + b.
    Add,
    /// Pop b, pop a, push a - b.
    Sub,
    /// Pop b, pop a, push a * b.
    Mul,
    /// Pop b, pop a, push a / b (b == 0 yields 0).
    Div,
    /// Pop b, pop a, push a % b (b == 0 yields 0).
    Mod,
    /// Pop a, push -a.
    Neg,
    /// Pop b, pop a, push 1 if a < b else 0.
    Lt,
    /// Pop b, pop a, push 1 if a > b else 0.
    Gt,
    /// Pop b, pop a, push 1 if a <= b else 0.
    Le,
    /// Pop b, pop a, push 1 if a >= b else 0.
    Ge,
    /// Pop b, pop a, push 1 if a == b else 0.
    Eq,
    /// Pop b, pop a, push 1 if a != b else 0.
    Ne,
    /// Push the value of local slot n in the current frame.
    Load(usize),
    /// Pop and store into local slot n of the current frame.
    Store(usize),
    /// Push the value of global slot n.
    LoadG(usize),
    /// Pop and store into global slot n.
    StoreG(usize),
    /// Pop an address, push memory at that address.
    LoadMem,
    /// Pop a value, pop an address, store the value at that address.
    StoreMem,
    /// Unconditional jump to an address.
    Jmp(usize),
    /// Pop a value, jump if it is zero.
    Jz(usize),
    /// Pop a value, jump if it is non-zero.
    Jnz(usize),
    /// Call a function: (target, nargs, nlocals). Pops nargs values into the new
    /// frame's first locals; the frame has nlocals slots in total.
    Call(usize, usize, usize),
    /// Return: pop the return value, drop the current frame, push the value back.
    Ret,
    /// Pop a value and append it to the program output.
    Print,
    /// Stop execution.
    Halt,
}

/// The assembly mnemonic of an instruction.
pub open spec fn mnemonic(op: Op) -> Seq<char> {
    match op {
        Op::Push(_) => "push"@,
        Op::Pop => "pop"@,
        Op::Dup => "dup"@,
        Op::Add => "add"@,
        Op::Sub => "sub"@,
        Op::Mul => "mul"@,
        Op::Div => "div"@,
        Op::Mod => "mod"@,
        Op::Neg => "neg"@,
        Op::Lt => "lt"@,
        Op::Gt => "gt"@,
        Op::Le => "le"@,
        Op::Ge => "ge"@,
        Op::Eq => "eq"@,
        Op::Ne => "ne"@,
        Op::Load(_) => "load"@,
        Op::Store(_) => "store"@,
        Op::LoadG(_) => "loadg"@,
        Op::StoreG(_) => "storeg"@,
        Op::LoadMem => "loadmem"@,
        Op::StoreMem => "storemem"@,
        Op::Jmp(_) => "jmp"@,
        Op::Jz(_) => "jz"@,
        Op::Jnz(_) => "jnz"@,
        Op::Call(_, _, _) => "call"@,
        Op::Ret => "ret"@,
        Op::Print => "print"@,
        Op::Halt => "halt"@,
    }
}

/// The decimal operands of an instruction.
pub open spec fn operand_texts(op: Op) -> Seq<Seq<char>> {
    match op {
        Op::Push(v) => seq![text::signed_decimal(v as int)],
        Op::Load(n) | Op::Store(n) | Op::LoadG(n) | Op::StoreG(n) | Op::Jmp(n) | Op::Jz(n)
        | Op::Jnz(n) => seq![text::decimal(n as nat)],
        Op::Call(t, na, nl) => seq![
            text::decimal(t as nat),
            text::decimal(na as nat),
            text::decimal(nl as nat),
        ],
        _ => Seq::empty(),
    }
}

/// Several words, each after a space.
pub open spec fn spaced(words: Seq<Seq<char>>) -> Seq<char>
    decreases words.len(),
{
    if words.len() == 0 {
        Seq::empty()
    } else {
        spaced(words.drop_last()) + seq![' '] + words.last()
    }
}

/// The assembly text of an instruction, jump and call targets as addresses.
pub open spec fn spelling(op: Op) -> Seq<char> {
    mnemonic(op) + spaced(operand_texts(op))
}

/// Append a space and a number.
fn push_operand(out: &mut String, n: usize)
    ensures
        final(out)@ == old(out)@ + seq![' '] + text::decimal(n as nat),
{
    out.push(' ');
    push_decimal(out, n as u64);
}

impl Op {
    /// The assembly mnemonic.
    fn mnemonic(&self) -> (name: &'static str)
        ensures
            name@ == mnemonic(*self),
    {
        match self {
            Op::Push(_) => "push",
            Op::Pop => "pop",
            Op::Dup => "dup",
            Op::Add => "add",
            Op::Sub => "sub",
            Op::Mul => "mul",
            Op::Div => "div",
            Op::Mod => "mod",
            Op::Neg => "neg",
            Op::Lt => "lt",
            Op::Gt => "gt",
            Op::Le => "le",
            Op::Ge => "ge",
            Op::Eq => "eq",
            Op::Ne => "ne",
            Op::Load(_) => "load",
            Op::Store(_) => "store",
            Op::LoadG(_) => "loadg",
            Op::StoreG(_) => "storeg",
            Op::LoadMem => "loadmem",
            Op::StoreMem => "storemem",
            Op::Jmp(_) => "jmp",
            Op::Jz(_) => "jz",
            Op::Jnz(_) => "jnz",
            Op::Call(_, _, _) => "call",
            Op::Ret => "ret",
            Op::Print => "print",
            Op::Halt => "halt",
        }
    }

    /// The assembly text of the instruction.
    pub fn to_string(&self) -> (out: String)
        ensures
            out@ == spelling(*self),
    {
        let mut out = self.mnemonic().to_owned();
        proof {
            reveal_with_fuel(spaced, 4);
            let words = operand_texts(*self);
            assert(words.len() == 1 ==> words.drop_last() =~= Seq::<Seq<char>>::empty());
            assert(words.len() == 3 ==> words.drop_last().drop_last().drop_last() =~= Seq::<
                Seq<char>,
            >::empty());
        }
        match self {
            Op::Push(v) => {
                out.push(' ');
                push_signed(&mut out, *v);
            },
            Op::Load(n) | Op::Store(n) | Op::LoadG(n) | Op::StoreG(n) | Op::Jmp(n) | Op::Jz(n)
            | Op::Jnz(n) => {
                push_operand(&mut out, *n);
            },
            Op::Call(t, na, nl) => {
                push_operand(&mut out, *t);
                push_operand(&mut out, *na);
                push_operand(&mut out, *nl);
            },
            _ => {},
        }
        assert(out@ =~= spelling(*self));
        out
    }
}

/// A loaded program: code, the source it came from, and the instruction to
/// source-line map.
#[derive(Debug, PartialEq, Eq)]
pub struct Program {
    /// The flat instruction stream.
    pub code: Vec<Op>,
    /// `line_of[i]` is the 1-based source line that produced `code[i]`.
    pub line_of: Vec<u32>,
    /// The source text, split into lines (0-based index, 1-based line).
    pub source: Vec<String>,
    /// A human readable name per code address, used for the backtrace. Filled in
    /// for function entry points, empty otherwise.
    pub labels: Vec<Option<String>>,
    /// Requested number of global slots.
    pub globals: usize,
    /// Requested number of linear memory cells.
    pub memory: usize,
}

/// The contents of a [`Program`].
#[verifier::ext_equal]
pub struct Listing {
    /// What the machine runs.
    pub image: Image,
    /// The source lines.
    pub source: Seq<Seq<char>>,
    /// Requested number of global slots.
    pub globals: nat,
    /// Requested number of linear memory cells.
    pub memory: nat,
}

/// The text of a string that may be missing.
pub open spec fn optional_text(s: Option<String>) -> Option<Seq<char>> {
    match s {
        Some(t) => Some(t@),
        None => None,
    }
}

/// The texts of several strings.
pub open spec fn texts(strings: Seq<String>) -> Seq<Seq<char>> {
    strings.map_values(|s: String| s@)
}

/// The texts of several strings that may be missing.
pub open spec fn optional_texts(strings: Seq<Option<String>>) -> Seq<Option<Seq<char>>> {
    strings.map_values(|s: Option<String>| optional_text(s))
}

impl View for Program {
    type V = Listing;

    open spec fn view(&self) -> Listing {
        Listing {
            image: Image {
                code: self.code@,
                lines: self.line_of@,
                names: optional_texts(self.labels@),
            },
            source: texts(self.source@),
            globals: self.globals as nat,
            memory: self.memory as nat,
        }
    }
}

impl Clone for Program {
    fn clone(&self) -> (r: Program)
        ensures
            r@ == self@,
    {
        let r = Program {
            code: self.code.clone(),
            line_of: self.line_of.clone(),
            source: copy_strings(&self.source),
            labels: copy_names(&self.labels),
            globals: self.globals,
            memory: self.memory,
        };
        assert(r@ =~= self@);
        r
    }
}

impl Listing {
    /// The state in which a machine starts this program.
    pub open spec fn start(self) -> State {
        machine::initial(self.globals, self.memory)
    }

    /// Whether the data cells of the program can be allocated.
    pub open spec fn loadable(self) -> bool {
        &&& machine::allocatable(self.globals)
        &&& machine::allocatable(self.memory)
    }

    /// Whether the data cells of the program and every frame that its code may
    /// make can be allocated.
    pub open spec fn fits(self) -> bool {
        &&& self.loadable()
        &&& machine::frames_fit(self.image.code)
    }
}

impl Program {
    /// The 1-based source line for an instruction address, or 0 if out of range.
    pub fn line_at(&self, pc: usize) -> (line: u32)
        ensures
            line == machine::line_of(self@.image.lines, pc as nat),
    {
        line_in(&self.line_of, pc)
    }

    /// Whether a machine for this program can be made: the globals and the
    /// memory stay within the largest allocation.
    pub fn loads(&self) -> (r: bool)
        ensures
            r == self@.loadable(),
    {
        can_allocate(self.globals) && can_allocate(self.memory)
    }

    /// Whether nothing in this program can exceed the largest allocation: the
    /// globals, the memory and the frame of every call stay within it, whether
    /// the call is reached or not.
    pub fn fits(&self) -> (r: bool)
        ensures
            r == self@.fits(),
    {
        if !self.loads() {
            return false;
        }
        let mut i: usize = 0;
        while i < self.code.len()
            invariant
                i <= self.code.len(),
                forall|k: int| 0 <= k < i ==> machine::frame_fits(#[trigger] self.code@[k]),
            decreases self.code.len() - i,
        {
            if !can_call(&self.code[i]) {
                return false;
            }
            i += 1;
        }
        true
    }
}

/// Whether the frame that an instruction may make can be allocated.
fn can_call(op: &Op) -> (r: bool)
    ensures
        r == machine::frame_fits(*op),
{
    match op {
        Op::Call(_, nargs, nlocals) => can_allocate(*nargs) && can_allocate(*nlocals),
        _ => true,
    }
}

/// Whether a vector of `n` cells can be allocated at all.
fn can_allocate(n: usize) -> (r: bool)
    ensures
        r == machine::allocatable(n as nat),
{
    n <= isize::MAX as usize / 8
}

/// The entry of a line table, 0 when out of range.
fn line_in(lines: &Vec<u32>, pc: usize) -> (line: u32)
    ensures
        line == machine::line_of(lines@, pc as nat),
{
    if pc < lines.len() {
        lines[pc]
    } else {
        0
    }
}

/// A single call frame. Locals are private to the frame; the operand stack is
/// shared across frames but partitioned by [`Frame::stack_base`].
#[derive(Debug, PartialEq, Eq)]
pub struct Frame {
    /// A display name for the function this frame is executing.
    pub func: String,
    /// The address to return to when this frame returns.
    pub return_pc: usize,
    /// The frame's local variable slots.
    pub locals: Vec<i64>,
    /// The operand-stack length at the moment this frame was created.
    pub stack_base: usize,
    /// The source line of the call site (0 for the entry frame).
    pub call_line: u32,
}

impl View for Frame {
    type V = Activation;

    open spec fn view(&self) -> Activation {
        Activation {
            func: self.func@,
            return_pc: self.return_pc as nat,
            locals: self.locals@,
            stack_base: self.stack_base as nat,
            call_line: self.call_line,
        }
    }
}

impl Clone for Frame {
    fn clone(&self) -> (r: Frame)
        ensures
            r@ == self@,
    {
        let r = Frame {
            func: self.func.clone(),
            return_pc: self.return_pc,
            locals: self.locals.clone(),
            stack_base: self.stack_base,
            call_line: self.call_line,
        };
        assert(r.locals@ =~= self.locals@);
        r
    }
}

/// The contents of several frames.
pub open spec fn activations(frames: Seq<Frame>) -> Seq<Activation> {
    frames.map_values(|f: Frame| f@)
}

/// A storage location that an instruction may write.
#[derive(Clone, Copy, Debug)]
pub enum Loc {
    /// A local slot of the innermost frame.
    Local(usize),
    /// A global slot.
    Global(usize),
    /// A linear memory cell.
    Mem(usize),
}

/// Which side of the frame stack an instruction touched, recorded for undo.
#[derive(Debug)]
enum FrameDelta {
    Kept,
    Pushed,
    Popped(Frame),
}

/// A compact undo record: everything needed to reverse exactly one instruction.
#[derive(Debug)]
pub struct Undo {
    pc_before: usize,
    pushed: usize,
    popped: Vec<i64>,
    writes: Vec<(Loc, i64)>,
    frame: FrameDelta,
    printed: bool,
    halted_before: bool,
}

impl View for Undo {
    type V = Record;

    closed spec fn view(&self) -> Record {
        Record {
            pc_before: self.pc_before as nat,
            pushed: self.pushed as nat,
            popped: self.popped@,
            writes: self.writes@,
            frame: match self.frame {
                FrameDelta::Kept => FrameChange::Kept,
                FrameDelta::Pushed => FrameChange::Pushed,
                FrameDelta::Popped(f) => FrameChange::Popped(f@),
            },
            printed: self.printed,
            halted_before: self.halted_before,
        }
    }
}

impl Clone for Undo {
    fn clone(&self) -> (r: Undo)
        ensures
            r@ == self@,
    {
        let mut writes: Vec<(Loc, i64)> = Vec::new();
        let mut i: usize = 0;
        while i < self.writes.len()
            invariant
                i <= self.writes.len(),
                writes@ =~= self.writes@.take(i as int),
            decreases self.writes.len() - i,
        {
            writes.push(self.writes[i]);
            i += 1;
        }
        let r = Undo {
            pc_before: self.pc_before,
            pushed: self.pushed,
            popped: copy_values(&self.popped),
            writes,
            frame: match &self.frame {
                FrameDelta::Kept => FrameDelta::Kept,
                FrameDelta::Pushed => FrameDelta::Pushed,
                FrameDelta::Popped(f) => FrameDelta::Popped(f.clone()),
            },
            printed: self.printed,
            halted_before: self.halted_before,
        };
        assert(r@ =~= self@);
        r
    }
}

/// A comparable snapshot of the full observable machine state.
#[derive(Debug, PartialEq, Eq)]
pub struct Snapshot {
    /// The program counter.
    pub pc: usize,
    /// Whether the machine has halted.
    pub halted: bool,
    /// The operand stack, bottom to top.
    pub stack: Vec<i64>,
    /// The global slots.
    pub globals: Vec<i64>,
    /// The linear memory.
    pub memory: Vec<i64>,
    /// The call frames, entry frame first.
    pub frames: Vec<Frame>,
    /// The accumulated program output.
    pub output: Vec<String>,
}

impl View for Snapshot {
    type V = State;

    open spec fn view(&self) -> State {
        State {
            pc: self.pc as nat,
            halted: self.halted,
            stack: self.stack@,
            globals: self.globals@,
            memory: self.memory@,
            frames: activations(self.frames@),
            output: texts(self.output@),
        }
    }
}

/// Whether two lists of numbers are the same.
fn same_values(a: &Vec<i64>, b: &Vec<i64>) -> (r: bool)
    ensures
        r == (a@ == b@),
{
    if a.len() != b.len() {
        return false;
    }
    let mut i: usize = 0;
    while i < a.len()
        invariant
            i <= a.len() == b.len(),
            forall|k: int| 0 <= k < i ==> #[trigger] a@[k] == b@[k],
        decreases a.len() - i,
    {
        if a[i] != b[i] {
            return false;
        }
        i += 1;
    }
    assert(a@ =~= b@);
    true
}

/// Whether two lists of strings hold the same texts.
fn same_texts(a: &Vec<String>, b: &Vec<String>) -> (r: bool)
    ensures
        r == (texts(a@) == texts(b@)),
{
    if a.len() != b.len() {
        assert(texts(a@).len() != texts(b@).len());
        return false;
    }
    let mut i: usize = 0;
    while i < a.len()
        invariant
            i <= a.len() == b.len(),
            forall|k: int| 0 <= k < i ==> (#[trigger] a@[k])@ == b@[k]@,
        decreases a.len() - i,
    {
        if !is_text(chars_of(a[i].as_str()).as_slice(), b[i].as_str()) {
            assert(texts(a@)[i as int] != texts(b@)[i as int]);
            return false;
        }
        i += 1;
    }
    assert(texts(a@) =~= texts(b@));
    true
}

/// Whether two lists of frames hold the same activations.
fn same_frames(a: &Vec<Frame>, b: &Vec<Frame>) -> (r: bool)
    ensures
        r == (activations(a@) == activations(b@)),
{
    if a.len() != b.len() {
        assert(activations(a@).len() != activations(b@).len());
        return false;
    }
    let mut i: usize = 0;
    while i < a.len()
        invariant
            i <= a.len() == b.len(),
            forall|k: int| 0 <= k < i ==> (#[trigger] a@[k])@ == b@[k]@,
        decreases a.len() - i,
    {
        let f: &Frame = &a[i];
        let g: &Frame = &b[i];
        let same: bool = is_text(chars_of(f.func.as_str()).as_slice(), g.func.as_str())
            && f.return_pc == g.return_pc && same_values(&f.locals, &g.locals) && f.stack_base
            == g.stack_base && f.call_line == g.call_line;
        if !same {
            assert(activations(a@)[i as int] != activations(b@)[i as int]);
            return false;
        }
        i += 1;
    }
    assert(activations(a@) =~= activations(b@));
    true
}

impl Snapshot {
    /// Whether two snapshots show the same state.
    pub fn same(&self, other: &Snapshot) -> (r: bool)
        ensures
            r == (self@ == other@),
    {
        self.pc == other.pc && self.halted == other.halted && same_values(
            &self.stack,
            &other.stack,
        ) && same_values(&self.globals, &other.globals) && same_values(&self.memory, &other.memory)
            && same_frames(&self.frames, &other.frames) && same_texts(&self.output, &other.output)
    }
}

impl Clone for Snapshot {
    fn clone(&self) -> (r: Snapshot)
        ensures
            r@ == self@,
    {
        Snapshot {
            pc: self.pc,
            halted: self.halted,
            stack: copy_values(&self.stack),
            globals: copy_values(&self.globals),
            memory: copy_values(&self.memory),
            frames: copy_frames(&self.frames),
            output: copy_strings(&self.output),
        }
    }
}

/// The fixed part of a machine: its code and what is known of each address.
#[derive(Debug)]
pub struct Loaded {
    code: Vec<Op>,
    lines: Vec<u32>,
    names: Vec<Option<String>>,
}

impl View for Loaded {
    type V = Image;

    closed spec fn view(&self) -> Image {
        Image { code: self.code@, lines: self.lines@, names: optional_texts(self.names@) }
    }
}

impl Clone for Loaded {
    fn clone(&self) -> (r: Loaded)
        ensures
            r@ == self@,
    {
        let r = Loaded {
            code: self.code.clone(),
            lines: self.lines.clone(),
            names: copy_names(&self.names),
        };
        assert(r@ =~= self@);
        r
    }
}

/// The stack virtual machine.
#[derive(Debug)]
pub struct Vm {
    /// The program counter (index into the code).
    pub pc: usize,
    /// True once a `halt` has executed or execution has left the code.
    pub halted: bool,
    /// The shared operand stack.
    pub stack: Vec<i64>,
    /// The global slots.
    pub globals: Vec<i64>,
    /// The linear memory cells.
    pub memory: Vec<i64>,
    /// The call frame stack. Always non-empty during a run (entry frame at 0).
    pub frames: Vec<Frame>,
    /// Accumulated `print` output, one entry per print.
    pub output: Vec<String>,
    /// What the machine runs.
    pub loaded: Loaded,
}

impl View for Vm {
    type V = State;

    open spec fn view(&self) -> State {
        State {
            pc: self.pc as nat,
            halted: self.halted,
            stack: self.stack@,
            globals: self.globals@,
            memory: self.memory@,
            frames: activations(self.frames@),
            output: texts(self.output@),
        }
    }
}

impl Clone for Vm {
    fn clone(&self) -> (r: Vm)
        ensures
            r@ == self@,
            r.image() == self.image(),
    {
        Vm {
            pc: self.pc,
            halted: self.halted,
            stack: copy_values(&self.stack),
            globals: copy_values(&self.globals),
            memory: copy_values(&self.memory),
            frames: copy_frames(&self.frames),
            output: copy_strings(&self.output),
            loaded: self.loaded.clone(),
        }
    }
}

/// A copy of several strings.
fn copy_strings(strings: &Vec<String>) -> (r: Vec<String>)
    ensures
        texts(r@) == texts(strings@),
{
    let r = strings.clone();
    assert(r@ =~= strings@);
    r
}

/// A copy of several strings that may be missing.
fn copy_names(names: &Vec<Option<String>>) -> (r: Vec<Option<String>>)
    ensures
        optional_texts(r@) == optional_texts(names@),
{
    let r = names.clone();
    assert(optional_texts(r@) =~= optional_texts(names@));
    r
}

/// A copy of several frames.
fn copy_frames(frames: &Vec<Frame>) -> (r: Vec<Frame>)
    ensures
        activations(r@) == activations(frames@),
{
    let r = frames.clone();
    assert(activations(r@) =~= activations(frames@));
    r
}

/// A copy of several numbers.
fn copy_values(values: &Vec<i64>) -> (r: Vec<i64>)
    ensures
        r@ == values@,
{
    let r = values.clone();
    assert(r@ =~= values@);
    r
}

/// `n` zero cells.
fn zeroed(n: usize) -> (r: Vec<i64>)
    requires
        machine::allocatable(n as nat),
    ensures
        r@ == machine::zeros(n as nat),
{
    let r: Vec<i64> = vec![0i64; n];
    assert(r@ =~= machine::zeros(n as nat));
    r
}

impl Vm {
    /// The fixed part of the machine.
    pub open spec fn image(self) -> Image {
        self.loaded@
    }

    /// Create a VM ready to run `program` from address 0 with a single entry
    /// frame.
    pub fn new(program: &Program) -> (vm: Vm)
        requires
            program@.loadable(),
        ensures
            vm.image() == program@.image,
            vm@ == program@.start(),
    {
        let entry = Frame {
            func: "main".to_owned(),
            return_pc: usize::MAX,
            locals: zeroed(8),
            stack_base: 0,
            call_line: 0,
        };
        let mut frames: Vec<Frame> = Vec::new();
        frames.push(entry);
        let vm = Vm {
            pc: 0,
            halted: false,
            stack: Vec::new(),
            globals: zeroed(at_least_one(program.globals)),
            memory: zeroed(at_least_one(program.memory)),
            frames,
            output: Vec::new(),
            loaded: Loaded {
                code: program.code.clone(),
                lines: program.line_of.clone(),
                names: copy_names(&program.labels),
            },
        };
        assert(vm.image() =~= program@.image);
        assert(vm@ =~= program@.start());
        vm
    }

    /// The current call depth (number of active frames).
    pub fn depth(&self) -> (n: usize)
        ensures
            n == self@.frames.len(),
    {
        self.frames.len()
    }

    /// The op about to execute, if the pc is in range and not halted.
    pub fn current_op(&self) -> (op: Option<&Op>)
        ensures
            op == (if machine::can_step(self.image(), self@) {
                Some(&self.image().code[self@.pc as int])
            } else {
                None
            }),
    {
        if self.halted || self.pc >= self.loaded.code.len() {
            None
        } else {
            Some(&self.loaded.code[self.pc])
        }
    }

    /// Whether the frame that the next instruction makes, if it makes one, stays
    /// within the largest allocation.
    pub fn next_fits(&self) -> (r: bool)
        ensures
            r == machine::step_fits(self.image(), self@),
    {
        match self.current_op() {
            Some(op) => can_call(op),
            None => true,
        }
    }

    /// A comparable snapshot of the full observable state.
    pub fn snapshot(&self) -> (snap: Snapshot)
        ensures
            snap@ == self@,
    {
        Snapshot {
            pc: self.pc,
            halted: self.halted,
            stack: copy_values(&self.stack),
            globals: copy_values(&self.globals),
            memory: copy_values(&self.memory),
            frames: copy_frames(&self.frames),
            output: copy_strings(&self.output),
        }
    }

    /// Read a local of the current frame (0 if out of range).
    pub fn local(&self, i: usize) -> (v: i64)
        ensures
            v == machine::local_value(self@, i as nat),
    {
        if self.frames.len() == 0 {
            0
        } else {
            let f: &Frame = &self.frames[self.frames.len() - 1];
            assert(f@ == self@.frames.last());
            read(&f.locals, i)
        }
    }

    fn spop(&mut self, u: &mut Undo) -> (v: i64)
        ensures
            v == machine::operand(old(self)@.stack, 0),
            final(self)@ == (State {
                stack: machine::without_top(old(self)@.stack, 1),
                ..old(self)@
            }),
            final(self).image() == old(self).image(),
            final(u)@ == (Record {
                popped: old(u)@.popped + machine::top_values(old(self)@.stack, 1),
                ..old(u)@
            }),
    {
        match self.stack.pop() {
            Some(v) => {
                u.popped.push(v);
                assert(u@.popped =~= old(u)@.popped + machine::top_values(old(self)@.stack, 1));
                assert(self@.stack =~= machine::without_top(old(self)@.stack, 1));
                v
            },
            None => {
                assert(u@.popped =~= old(u)@.popped + machine::top_values(old(self)@.stack, 1));
                assert(self@.stack =~= machine::without_top(old(self)@.stack, 1));
                0
            },
        }
    }

    fn spush(&mut self, u: &mut Undo, v: i64)
        requires
            old(u)@.pushed < usize::MAX,
        ensures
            final(self)@ == (State { stack: old(self)@.stack + seq![v], ..old(self)@ }),
            final(self).image() == old(self).image(),
            final(u)@ == (Record { pushed: old(u)@.pushed + 1, ..old(u)@ }),
    {
        self.stack.push(v);
        assert(self@.stack =~= old(self)@.stack + seq![v]);
        u.pushed += 1;
    }

    /// Pop the right and then the left operand of a binary operation.
    fn spop_pair(&mut self, u: &mut Undo) -> (pair: (i64, i64))
        requires
            old(u)@.popped.len() == 0,
        ensures
            pair.0 == machine::operand(old(self)@.stack, 1),
            pair.1 == machine::operand(old(self)@.stack, 0),
            final(self)@ == (State {
                stack: machine::without_top(old(self)@.stack, 2),
                ..old(self)@
            }),
            final(self).image() == old(self).image(),
            final(u)@ == (Record { popped: machine::top_values(old(self)@.stack, 2), ..old(u)@ }),
    {
        let b: i64 = self.spop(u);
        let a: i64 = self.spop(u);
        proof {
            let stack = old(self)@.stack;
            machine::lemma_pop_next(stack, 1);
            assert(u@.popped =~= machine::top_values(stack, 2));
        }
        (a, b)
    }

    fn write_local(&mut self, u: &mut Undo, i: usize, v: i64)
        ensures
            final(self)@ == machine::store(old(self)@, Loc::Local(i), v),
            final(self).image() == old(self).image(),
            final(u)@ == (Record {
                writes: old(u)@.writes + machine::saved(old(self)@, Loc::Local(i)),
                ..old(u)@
            }),
    {
        let n: usize = self.frames.len();
        if n > 0 && i < self.frames[n - 1].locals.len() {
            u.writes.push((Loc::Local(i), self.frames[n - 1].locals[i]));
            self.frames[n - 1].locals[i] = v;
            assert(self@ =~= machine::store(old(self)@, Loc::Local(i), v));
        }
        assert(u@ =~= (Record {
            writes: old(u)@.writes + machine::saved(old(self)@, Loc::Local(i)),
            ..old(u)@
        }));
    }

    fn write_global(&mut self, u: &mut Undo, i: usize, v: i64)
        ensures
            final(self)@ == machine::store(old(self)@, Loc::Global(i), v),
            final(self).image() == old(self).image(),
            final(u)@ == (Record {
                writes: old(u)@.writes + machine::saved(old(self)@, Loc::Global(i)),
                ..old(u)@
            }),
    {
        if i < self.globals.len() {
            u.writes.push((Loc::Global(i), self.globals[i]));
            self.globals[i] = v;
        }
        assert(u@ =~= (Record {
            writes: old(u)@.writes + machine::saved(old(self)@, Loc::Global(i)),
            ..old(u)@
        }));
    }

    fn write_mem(&mut self, u: &mut Undo, i: usize, v: i64)
        ensures
            final(self)@ == machine::store(old(self)@, Loc::Mem(i), v),
            final(self).image() == old(self).image(),
            final(u)@ == (Record {
                writes: old(u)@.writes + machine::saved(old(self)@, Loc::Mem(i)),
                ..old(u)@
            }),
    {
        if i < self.memory.len() {
            u.writes.push((Loc::Mem(i), self.memory[i]));
            self.memory[i] = v;
        }
        assert(u@ =~= (Record {
            writes: old(u)@.writes + machine::saved(old(self)@, Loc::Mem(i)),
            ..old(u)@
        }));
    }

    fn current_line(&self) -> (line: u32)
        ensures
            line == machine::line_of(self.image().lines, self@.pc),
    {
        line_in(&self.loaded.lines, self.pc)
    }

    fn mem_index(&self, addr: i64) -> (i: usize)
        ensures
            i == arith::cell(addr, self@.memory.len()),
    {
        cell_index(addr, self.memory.len())
    }

    /// The name shown for the function at `target`.
    fn name_at(&self, target: usize) -> (name: String)
        ensures
            name@ == machine::function_name(self.image().names, target as nat),
    {
        if target < self.loaded.names.len() {
            if let Some(name) = &self.loaded.names[target] {
                return name.clone();
            }
        }
        let mut name = "fn@".to_owned();
        push_decimal(&mut name, target as u64);
        name
    }

    /// Pop the arguments of a call into the slots of a new frame.
    fn take_args(&mut self, u: &mut Undo, nargs: usize, nlocals: usize) -> (args: Vec<i64>)
        requires
            old(u)@.popped.len() == 0,
            machine::allocatable(machine::larger(nlocals as nat, nargs as nat)),
        ensures
            args@ == machine::arguments(old(self)@.stack, nargs as nat, nlocals as nat),
            final(self)@ == (State {
                stack: machine::without_top(old(self)@.stack, nargs as nat),
                ..old(self)@
            }),
            final(self).image() == old(self).image(),
            final(u)@ == (Record {
                popped: machine::top_values(old(self)@.stack, nargs as nat),
                ..old(u)@
            }),
    {
        let ghost stack = old(self)@.stack;
        let slots: usize = if nlocals < nargs {
            nargs
        } else {
            nlocals
        };
        let mut args: Vec<i64> = zeroed(slots);
        let mut k: usize = nargs;
        proof {
            assert(machine::without_top(stack, 0) =~= stack);
            assert(u@.popped =~= machine::top_values(stack, 0));
        }
        while k > 0
            invariant
                k <= nargs <= slots,
                stack == old(self)@.stack,
                args@.len() == slots,
                forall|j: int|
                    0 <= j < slots ==> #[trigger] args@[j] == (if k <= j < nargs {
                        machine::operand(stack, (nargs - 1 - j) as nat)
                    } else {
                        0
                    }),
                self@ == (State {
                    stack: machine::without_top(stack, (nargs - k) as nat),
                    ..old(self)@
                }),
                self.image() == old(self).image(),
                u@ == (Record {
                    popped: machine::top_values(stack, (nargs - k) as nat),
                    ..old(u)@
                }),
            decreases k,
        {
            proof {
                machine::lemma_pop_next(stack, (nargs - k) as nat);
            }
            k -= 1;
            args[k] = self.spop(u);
        }
        assert(args@ =~= machine::arguments(stack, nargs as nat, nlocals as nat));
        args
    }

    /// Execute a single instruction, returning the undo record for it. Returns
    /// `None` if the machine is already halted or the pc is out of range.
    ///
    /// A step that leads outside the code halts the machine: running off the
    /// end is a clean halt.
    #[verifier::rlimit(50)]
    pub fn step(&mut self) -> (record: Option<Undo>)
        requires
            machine::step_fits(old(self).image(), old(self)@),
        ensures
            final(self).image() == old(self).image(),
            match record {
                Some(u) => {
                    &&& machine::can_step(old(self).image(), old(self)@)
                    &&& final(self)@ == machine::after_step(old(self).image(), old(self)@)
                    &&& u@ == machine::step_record(old(self).image(), old(self)@)
                },
                None => {
                    &&& !machine::can_step(old(self).image(), old(self)@)
                    &&& final(self)@ == old(self)@
                },
            },
    {
        if self.halted || self.pc >= self.loaded.code.len() {
            return None;
        }
        let op: Op = self.loaded.code[self.pc];
        let mut u = Undo {
            pc_before: self.pc,
            pushed: 0,
            popped: Vec::new(),
            writes: Vec::new(),
            frame: FrameDelta::Kept,
            printed: false,
            halted_before: self.halted,
        };
        let mut next: usize = self.pc + 1;
        let ghost s = self@;
        let ghost image = self.image();
        proof {
            assert(machine::without_top(s.stack, 0) =~= s.stack);
            assert(machine::top_values(s.stack, 0) =~= Seq::empty());
        }
        match op {
            Op::Push(v) => self.spush(&mut u, v),
            Op::Pop => {
                self.spop(&mut u);
            },
            Op::Dup => {
                let v: i64 = self.spop(&mut u);
                self.spush(&mut u, v);
                self.spush(&mut u, v);
            },
            Op::Add => {
                let (a, b) = self.spop_pair(&mut u);
                self.spush(&mut u, sum(a, b));
            },
            Op::Sub => {
                let (a, b) = self.spop_pair(&mut u);
                self.spush(&mut u, difference(a, b));
            },
            Op::Mul => {
                let (a, b) = self.spop_pair(&mut u);
                self.spush(&mut u, product(a, b));
            },
            Op::Div => {
                let (a, b) = self.spop_pair(&mut u);
                self.spush(&mut u, divide(a, b));
            },
            Op::Mod => {
                let (a, b) = self.spop_pair(&mut u);
                self.spush(&mut u, modulo(a, b));
            },
            Op::Neg => {
                let a: i64 = self.spop(&mut u);
                self.spush(&mut u, negation(a));
            },
            Op::Lt => {
                let (a, b) = self.spop_pair(&mut u);
                self.spush(&mut u, truth_value(a < b));
            },
            Op::Gt => {
                let (a, b) = self.spop_pair(&mut u);
                self.spush(&mut u, truth_value(a > b));
            },
            Op::Le => {
                let (a, b) = self.spop_pair(&mut u);
                self.spush(&mut u, truth_value(a <= b));
            },
            Op::Ge => {
                let (a, b) = self.spop_pair(&mut u);
                self.spush(&mut u, truth_value(a >= b));
            },
            Op::Eq => {
                let (a, b) = self.spop_pair(&mut u);
                self.spush(&mut u, truth_value(a == b));
            },
            Op::Ne => {
                let (a, b) = self.spop_pair(&mut u);
                self.spush(&mut u, truth_value(a != b));
            },
            Op::Load(i) => {
                let v: i64 = self.local(i);
                self.spush(&mut u, v);
            },
            Op::Store(i) => {
                let v: i64 = self.spop(&mut u);
                self.write_local(&mut u, i, v);
            },
            Op::LoadG(i) => {
                let v: i64 = read(&self.globals, i);
                self.spush(&mut u, v);
            },
            Op::StoreG(i) => {
                let v: i64 = self.spop(&mut u);
                self.write_global(&mut u, i, v);
            },
            Op::LoadMem => {
                let addr: i64 = self.spop(&mut u);
                let i: usize = self.mem_index(addr);
                let v: i64 = read(&self.memory, i);
                self.spush(&mut u, v);
            },
            Op::StoreMem => {
                let (addr, v) = self.spop_pair(&mut u);
                let i: usize = self.mem_index(addr);
                self.write_mem(&mut u, i, v);
            },
            Op::Jmp(a) => {
                next = a;
            },
            Op::Jz(a) => {
                if self.spop(&mut u) == 0 {
                    next = a;
                }
            },
            Op::Jnz(a) => {
                if self.spop(&mut u) != 0 {
                    next = a;
                }
            },
            Op::Call(target, nargs, nlocals) => {
                let args: Vec<i64> = self.take_args(&mut u, nargs, nlocals);
                let frame = Frame {
                    func: self.name_at(target),
                    return_pc: self.pc + 1,
                    locals: args,
                    stack_base: self.stack.len(),
                    call_line: self.current_line(),
                };
                self.frames.push(frame);
                u.frame = FrameDelta::Pushed;
                next = target;
                assert(self@.frames =~= s.frames.push(frame@));
            },
            Op::Ret => {
                let value: i64 = self.spop(&mut u);
                if self.frames.len() > 1 {
                    if let Some(f) = self.frames.pop() {
                        assert(f@ == s.frames.last());
                        assert(self@.frames =~= s.frames.drop_last());
                        next = f.return_pc;
                        u.frame = FrameDelta::Popped(f);
                    }
                } else {
                    // Returning from the entry frame ends the program.
                    self.halted = true;
                    next = self.pc;
                }
                self.spush(&mut u, value);
            },
            Op::Print => {
                let v: i64 = self.spop(&mut u);
                let mut text = String::new();
                push_signed(&mut text, v);
                self.output.push(text);
                u.printed = true;
                assert(self@.output =~= s.output.push(text@));
            },
            Op::Halt => {
                self.halted = true;
                next = self.pc;
            },
        }
        self.pc = next;
        if next >= self.loaded.code.len() {
            self.halted = true;
        }
        assert(self@ =~= machine::after_step(image, s));
        assert(u@ =~= machine::step_record(image, s));
        Some(u)
    }

    /// Reverse a single instruction using its undo record. This is the inverse
    /// of [`Vm::step`]: applying `undo(step(s)) == s` for every reachable state.
    pub fn undo(&mut self, u: Undo)
        requires
            machine::writes_fit(old(self)@, u@.writes),
        ensures
            final(self).image() == old(self).image(),
            final(self)@ == machine::after_undo(old(self)@, u@),
    {
        let ghost s = self@;
        let ghost image = self.image();
        let ghost r = u@;
        let mut k: usize = 0;
        proof {
            assert(machine::without_top(s.stack, 0) =~= s.stack);
        }
        while k < u.pushed
            invariant
                k <= u.pushed,
                self@ == (State { stack: machine::without_top(s.stack, k as nat), ..s }),
                self.image() == image,
            decreases u.pushed - k,
        {
            self.stack.pop();
            k += 1;
            assert(self@.stack =~= machine::without_top(s.stack, k as nat));
        }
        let ghost base = self@.stack;
        let mut j: usize = u.popped.len();
        while j > 0
            invariant
                j <= u.popped.len(),
                self@.stack =~= base + u.popped@.reverse().take(u.popped.len() - j),
                self@ == (State { stack: self@.stack, ..s }),
                self.image() == image,
            decreases j,
        {
            j -= 1;
            self.stack.push(u.popped[j]);
        }
        assert(u.popped@.reverse().take(u.popped.len() as int) =~= u.popped@.reverse());
        let ghost stack = self@.stack;
        let mut w: usize = u.writes.len();
        let ghost full = u.writes@;
        proof {
            assert(full.take(full.len() as int) =~= full);
        }
        while w > 0
            invariant
                w <= u.writes.len(),
                full == u.writes@,
                machine::writes_fit(s, full),
                self@.globals.len() == s.globals.len(),
                self@.memory.len() == s.memory.len(),
                machine::restored(self@, full.take(w as int)) == machine::restored(
                    (State { stack, ..s }),
                    full,
                ),
                self@.stack == stack,
                self.image() == image,
            decreases w,
        {
            w -= 1;
            proof {
                assert(full.take(w + 1).drop_last() =~= full.take(w as int));
                assert(full.take(w + 1).last() == full[w as int]);
            }
            let (loc, old) = u.writes[w];
            let ghost before = self@;
            match loc {
                Loc::Local(i) => {
                    let n: usize = self.frames.len();
                    if n > 0 && i < self.frames[n - 1].locals.len() {
                        self.frames[n - 1].locals[i] = old;
                    }
                },
                Loc::Global(i) => {
                    self.globals[i] = old;
                },
                Loc::Mem(i) => {
                    self.memory[i] = old;
                },
            }
            assert(self@ =~= machine::store(before, loc, old));
        }
        proof {
            machine::lemma_restored_stack(s, stack, full);
        }
        let ghost w = machine::restored(s, full);
        assert(self@ == (State { stack, ..w }));
        match u.frame {
            FrameDelta::Kept => {},
            FrameDelta::Pushed => {
                self.frames.pop();
                assert(self@.frames =~= machine::without_top(w.frames, 1));
            },
            FrameDelta::Popped(f) => {
                self.frames.push(f);
                assert(self@.frames =~= w.frames.push(f@));
            },
        }
        if u.printed {
            self.output.pop();
            assert(self@.output =~= machine::without_top(s.output, 1));
        }
        self.halted = u.halted_before;
        self.pc = u.pc_before;
        assert(self@ =~= machine::after_undo(s, r));
    }
}

/// The larger of `n` and 1.
fn at_least_one(n: usize) -> (r: usize)
    ensures
        r == machine::larger(n as nat, 1),
{
    if n < 1 {
        1
    } else {
        n
    }
}

} // verus!
