//! A tiny two-pass assembler for the Bloodhound VM.
//!
//! The text format is line oriented. A line may hold a label definition, a
//! directive, an instruction, a comment, or be blank. Instructions map back to
//! the source line they came from, which is what gives the debugger source-level
//! stepping and breakpoints.
//!
//! Grammar (informal):
//! - `; comment` to end of line
//! - `.globals N` and `.memory N` size the machine
//! - `name:` defines a label at the address of the next instruction
//! - `push 5`, `add`, `jmp loop`, `call double 1 1`, `store 0`, ... instructions
//!
//! Jump and call targets may be integer addresses or label names.

use crate::machine::Image;
use crate::text;
use crate::text::{
    chars_of, find_char, is_text, nth_word, parse_i64, parse_usize, push_chars, push_decimal,
    same_text, split_lines, split_words, string_of, trim,
};
use crate::vm;
use crate::vm::{Listing, Op, Program, DEFAULT_GLOBALS, DEFAULT_MEMORY};
use vstd::prelude::*;
use vstd::slice::{slice_subrange, slice_to_vec};
use vstd::string::StringExecFns;

verus! {

/// The largest number of global or memory cells a directive may request. A
/// bigger request would make the first `Vm::new` allocate gigabytes and abort
/// the process, which no legitimate program wants.
pub const MAX_DATA_CELLS: usize = 1_048_576;

/// An assembly error tied to the 1-based source line that caused it.
#[derive(Clone, Debug, PartialEq, Eq)]
pub struct AsmError {
    /// The 1-based source line the error was found on.
    pub line: u32,
    /// A human readable description.
    pub message: String,
}

/// What is wrong with a source text, and on which line.
#[verifier::ext_equal]
pub struct Fault {
    /// The 1-based source line.
    pub line: u32,
    /// A human readable description.
    pub message: Seq<char>,
}

impl View for AsmError {
    type V = Fault;

    open spec fn view(&self) -> Fault {
        Fault { line: self.line, message: self.message@ }
    }
}

impl AsmError {
    /// The error as text: the line and the message.
    pub fn to_string(&self) -> (s: String)
        ensures
            s@ == "line "@ + text::decimal(self.line as nat) + ": "@ + self.message@,
    {
        let mut s = "line ".to_owned();
        push_decimal(&mut s, self.line as u64);
        s.append(": ");
        s.append(self.message.as_str());
        s
    }
}

/// What a line holds, without the comment and the white space around it.
pub open spec fn content(line: Seq<char>) -> Seq<char> {
    text::trimmed(line.take(text::position(line, ';') as int))
}

/// What kind of line it is.
pub enum Kind {
    /// Nothing but white space and a comment.
    Blank,
    /// A label of this name.
    Label(Seq<char>),
    /// A directive, without its dot.
    Directive(Seq<char>),
    /// An instruction.
    Instruction(Seq<char>),
}

/// The kind of a line.
pub open spec fn kind(line: Seq<char>) -> Kind {
    let c = content(line);
    if c.len() == 0 {
        Kind::Blank
    } else if c.last() == ':' {
        Kind::Label(text::trimmed(c.drop_last()))
    } else if c[0] == '.' {
        Kind::Directive(c.skip(1))
    } else {
        Kind::Instruction(c)
    }
}

/// What is known of a program after some of its lines.
#[verifier::ext_equal]
pub struct Layout {
    /// The requested number of globals.
    pub globals: Option<nat>,
    /// The requested number of memory cells.
    pub memory: Option<nat>,
    /// The labels in order, each with its address.
    pub labels: Seq<(Seq<char>, nat)>,
    /// For each instruction the label just before it.
    pub names: Seq<Option<Seq<char>>>,
    /// The last label that no instruction has followed yet.
    pub pending: Option<Seq<char>>,
}

/// The address of a label.
pub open spec fn address(labels: Seq<(Seq<char>, nat)>, name: Seq<char>) -> Option<nat>
    decreases labels.len(),
{
    if labels.len() == 0 {
        None
    } else if labels.last().0 == name {
        Some(labels.last().1)
    } else {
        address(labels.drop_last(), name)
    }
}

/// A text in backquotes.
pub open spec fn quoted(s: Seq<char>) -> Seq<char> {
    seq!['`'] + s + seq!['`']
}

/// The number that a size directive requests, or what is wrong with it.
pub open spec fn data_size(value: Option<Seq<char>>, what: Seq<char>) -> Result<nat, Seq<char>> {
    match value {
        None => Err("directive `."@ + what + "` needs a value"@),
        Some(s) => match text::parsed(s, usize::MAX as nat) {
            None => Err("invalid `."@ + what + "` value "@ + quoted(s)),
            Some(n) => if n > MAX_DATA_CELLS {
                Err(
                    "."@ + what + " value "@ + text::decimal(n) + " too large (max "@
                        + text::decimal(MAX_DATA_CELLS as nat) + ")"@,
                )
            } else {
                Ok(n)
            },
        },
    }
}

/// What is known after a directive, or what is wrong with it.
pub open spec fn directed(l: Layout, rest: Seq<char>) -> Result<Layout, Seq<char>> {
    let words = text::words(rest);
    let name = match text::word(words, 0) {
        Some(name) => name,
        None => Seq::empty(),
    };
    if name == "globals"@ {
        if l.globals is Some {
            Err("duplicate `.globals` directive"@)
        } else {
            match data_size(text::word(words, 1), name) {
                Ok(n) => Ok(Layout { globals: Some(n), ..l }),
                Err(m) => Err(m),
            }
        }
    } else if name == "memory"@ {
        if l.memory is Some {
            Err("duplicate `.memory` directive"@)
        } else {
            match data_size(text::word(words, 1), name) {
                Ok(n) => Ok(Layout { memory: Some(n), ..l }),
                Err(m) => Err(m),
            }
        }
    } else {
        Err("unknown directive `."@ + name + "`"@)
    }
}

/// What is known after a label, or what is wrong with it.
pub open spec fn labelled(l: Layout, name: Seq<char>) -> Result<Layout, Seq<char>> {
    if name.len() == 0 {
        Err("empty label"@)
    } else if text::parsed(name, usize::MAX as nat) is Some {
        Err(
            "label "@ + quoted(name)
                + " looks like an address and could never be targeted by name"@,
        )
    } else if address(l.labels, name) is Some {
        Err("duplicate label "@ + quoted(name))
    } else {
        Ok(
            Layout {
                labels: l.labels.push((name, l.names.len())),
                pending: Some(name),
                ..l
            },
        )
    }
}

/// What is known after one more line, or what is wrong with it.
pub open spec fn surveyed(l: Layout, line: Seq<char>) -> Result<Layout, Seq<char>> {
    match kind(line) {
        Kind::Blank => Ok(l),
        Kind::Label(name) => labelled(l, name),
        Kind::Directive(rest) => directed(l, rest),
        Kind::Instruction(_) => Ok(Layout { names: l.names.push(l.pending), pending: None, ..l }),
    }
}

/// What is known of a program before its first line.
pub open spec fn unknown() -> Layout {
    Layout {
        globals: None,
        memory: None,
        labels: Seq::empty(),
        names: Seq::empty(),
        pending: None,
    }
}

/// The first pass over the first `n` lines: what is known after them, or the
/// first fault.
pub open spec fn survey(lines: Seq<Seq<char>>, n: nat) -> Result<Layout, Fault>
    decreases n,
{
    if n == 0 {
        Ok(unknown())
    } else {
        match survey(lines, (n - 1) as nat) {
            Err(f) => Err(f),
            Ok(l) => match surveyed(l, lines[n - 1]) {
                Ok(next) => Ok(next),
                Err(message) => Err(Fault { line: n as u32, message }),
            },
        }
    }
}

/// An instruction without operands.
pub open spec fn plain_op(name: Seq<char>) -> Option<Op> {
    if name == "pop"@ {
        Some(Op::Pop)
    } else if name == "dup"@ {
        Some(Op::Dup)
    } else if name == "add"@ {
        Some(Op::Add)
    } else if name == "sub"@ {
        Some(Op::Sub)
    } else if name == "mul"@ {
        Some(Op::Mul)
    } else if name == "div"@ {
        Some(Op::Div)
    } else if name == "mod"@ {
        Some(Op::Mod)
    } else if name == "neg"@ {
        Some(Op::Neg)
    } else if name == "lt"@ {
        Some(Op::Lt)
    } else if name == "gt"@ {
        Some(Op::Gt)
    } else if name == "le"@ {
        Some(Op::Le)
    } else if name == "ge"@ {
        Some(Op::Ge)
    } else if name == "eq"@ {
        Some(Op::Eq)
    } else if name == "ne"@ {
        Some(Op::Ne)
    } else if name == "loadmem"@ {
        Some(Op::LoadMem)
    } else if name == "storemem"@ {
        Some(Op::StoreMem)
    } else if name == "ret"@ {
        Some(Op::Ret)
    } else if name == "print"@ {
        Some(Op::Print)
    } else if name == "halt"@ {
        Some(Op::Halt)
    } else {
        None
    }
}

/// An instruction with a slot index.
pub open spec fn slot_op(name: Seq<char>, n: usize) -> Option<Op> {
    if name == "load"@ {
        Some(Op::Load(n))
    } else if name == "store"@ {
        Some(Op::Store(n))
    } else if name == "loadg"@ {
        Some(Op::LoadG(n))
    } else if name == "storeg"@ {
        Some(Op::StoreG(n))
    } else {
        None
    }
}

/// A jump.
pub open spec fn jump_op(name: Seq<char>, target: usize) -> Option<Op> {
    if name == "jmp"@ {
        Some(Op::Jmp(target))
    } else if name == "jz"@ {
        Some(Op::Jz(target))
    } else if name == "jnz"@ {
        Some(Op::Jnz(target))
    } else {
        None
    }
}

/// The integer operand in word `i`.
pub open spec fn integer(words: Seq<Seq<char>>, i: int) -> Result<i64, Seq<char>> {
    match text::word(words, i) {
        None => Err("missing integer operand"@),
        Some(s) => match text::parsed_signed(s) {
            Some(v) => Ok(v),
            None => Err("invalid integer "@ + quoted(s)),
        },
    }
}

/// The slot index or count operand in word `i`.
pub open spec fn slot(words: Seq<Seq<char>>, i: int) -> Result<usize, Seq<char>> {
    match text::word(words, i) {
        None => Err("missing operand"@),
        Some(s) => match text::parsed(s, usize::MAX as nat) {
            Some(n) => Ok(n as usize),
            None => Err("invalid slot index "@ + quoted(s)),
        },
    }
}

/// The branch target operand in word `i`: an address up to one past the last of `count`
/// instructions, or a label.
pub open spec fn target(
    words: Seq<Seq<char>>,
    i: int,
    labels: Seq<(Seq<char>, nat)>,
    count: nat,
) -> Result<usize, Seq<char>> {
    match text::word(words, i) {
        None => Err("missing target operand"@),
        Some(s) => match text::parsed(s, usize::MAX as nat) {
            Some(n) => if n > count {
                Err(
                    "branch target "@ + text::decimal(n) + " is outside the program (0..="@
                        + text::decimal(count) + ")"@,
                )
            } else {
                Ok(n as usize)
            },
            None => match address(labels, s) {
                Some(n) => Ok(n as usize),
                None => Err("unknown label "@ + quoted(s)),
            },
        },
    }
}

/// The instruction that a line encodes, or what is wrong with it.
pub open spec fn encoded(
    content: Seq<char>,
    labels: Seq<(Seq<char>, nat)>,
    count: nat,
) -> Result<Op, Seq<char>> {
    let words = text::words(content);
    let name = match text::word(words, 0) {
        Some(name) => name,
        None => Seq::empty(),
    };
    if plain_op(name) is Some {
        Ok(plain_op(name)->0)
    } else if name == "push"@ {
        match integer(words, 1) {
            Ok(v) => Ok(Op::Push(v)),
            Err(m) => Err(m),
        }
    } else if slot_op(name, 0) is Some {
        match slot(words, 1) {
            Ok(n) => Ok(slot_op(name, n)->0),
            Err(m) => Err(m),
        }
    } else if jump_op(name, 0) is Some {
        match target(words, 1, labels, count) {
            Ok(n) => Ok(jump_op(name, n)->0),
            Err(m) => Err(m),
        }
    } else if name == "call"@ {
        match (target(words, 1, labels, count), slot(words, 2), slot(words, 3)) {
            (Err(m), _, _) => Err(m),
            (_, Err(m), _) => Err(m),
            (_, _, Err(m)) => Err(m),
            (Ok(t), Ok(nargs), Ok(nlocals)) => Ok(Op::Call(t, nargs, nlocals)),
        }
    } else {
        Err("unknown mnemonic "@ + quoted(name))
    }
}

/// Instructions, each with its source line.
#[verifier::ext_equal]
pub struct Encoding {
    /// The instructions.
    pub code: Seq<Op>,
    /// The source line of each.
    pub lines: Seq<u32>,
}

/// The second pass over the first `n` lines: the instructions on them, or the
/// first fault.
pub open spec fn encode(lines: Seq<Seq<char>>, n: nat, l: Layout) -> Result<Encoding, Fault>
    decreases n,
{
    if n == 0 {
        Ok(Encoding { code: Seq::empty(), lines: Seq::empty() })
    } else {
        match encode(lines, (n - 1) as nat, l) {
            Err(f) => Err(f),
            Ok(done) => match kind(lines[n - 1]) {
                Kind::Instruction(c) => match encoded(c, l.labels, l.names.len()) {
                    Ok(op) => Ok(
                        Encoding {
                            code: done.code.push(op),
                            lines: done.lines.push(n as u32),
                        },
                    ),
                    Err(message) => Err(Fault { line: n as u32, message }),
                },
                _ => Ok(done),
            },
        }
    }
}

/// A requested size, or the default.
pub open spec fn requested(size: Option<nat>, default: usize) -> nat {
    match size {
        Some(n) => n,
        None => default as nat,
    }
}

/// The program that a source text assembles to, or the first fault: one of the
/// first pass before one of the second.
pub open spec fn assembled(src: Seq<char>) -> Result<Listing, Fault> {
    let lines = text::lines(src);
    match survey(lines, lines.len()) {
        Err(f) => Err(f),
        Ok(l) => match encode(lines, lines.len(), l) {
            Err(f) => Err(f),
            Ok(done) => if done.code.len() == 0 {
                Err(Fault { line: 1, message: "program has no instructions"@ })
            } else {
                Ok(
                    Listing {
                        image: Image { code: done.code, lines: done.lines, names: l.names },
                        source: lines,
                        globals: requested(l.globals, DEFAULT_GLOBALS),
                        memory: requested(l.memory, DEFAULT_MEMORY),
                    },
                )
            },
        },
    }
}

/// A line without its comment.
fn strip_comment(line: &[char]) -> (r: &[char])
    ensures
        r@ == line@.take(text::position(line@, ';') as int),
{
    let n: usize = find_char(line, ';');
    assert(line@.subrange(0, n as int) =~= line@.take(n as int));
    slice_subrange(line, 0, n)
}

/// What kind of line it is.
enum Line<'a> {
    Blank,
    Label(&'a [char]),
    Directive(&'a [char]),
    Instruction(&'a [char]),
}

impl<'a> View for Line<'a> {
    type V = Kind;

    closed spec fn view(&self) -> Kind {
        match self {
            Line::Blank => Kind::Blank,
            Line::Label(name) => Kind::Label(name@),
            Line::Directive(rest) => Kind::Directive(rest@),
            Line::Instruction(c) => Kind::Instruction(c@),
        }
    }
}

/// Tell the kind of a line.
fn read_line(line: &[char]) -> (r: Line<'_>)
    ensures
        r@ == kind(line@),
{
    let c: &[char] = trim(strip_comment(line));
    let n: usize = c.len();
    if n == 0 {
        return Line::Blank;
    }
    if c[n - 1] == ':' {
        let name: &[char] = slice_subrange(c, 0, n - 1);
        assert(name@ =~= c@.drop_last());
        return Line::Label(trim(name));
    }
    if c[0] == '.' {
        let rest: &[char] = slice_subrange(c, 1, n);
        assert(rest@ =~= c@.skip(1));
        return Line::Directive(rest);
    }
    Line::Instruction(c)
}

/// A label and its address.
struct Label {
    name: Vec<char>,
    addr: usize,
}

impl View for Label {
    type V = (Seq<char>, nat);

    closed spec fn view(&self) -> (Seq<char>, nat) {
        (self.name@, self.addr as nat)
    }
}

/// The contents of several labels.
spec fn label_table(labels: Seq<Label>) -> Seq<(Seq<char>, nat)> {
    labels.map_values(|l: Label| l@)
}

/// Look up a label.
fn find_label(labels: &Vec<Label>, name: &[char]) -> (addr: Option<usize>)
    ensures
        address(label_table(labels@), name@) == (match addr {
            Some(n) => Some(n as nat),
            None => None,
        }),
{
    let ghost table = label_table(labels@);
    let mut i: usize = labels.len();
    assert(table.take(i as int) =~= table);
    while i > 0
        invariant
            i <= labels.len(),
            table == label_table(labels@),
            address(table, name@) == address(table.take(i as int), name@),
        decreases i,
    {
        assert(table.take(i as int).drop_last() =~= table.take(i - 1));
        i -= 1;
        assert(table[i as int] == labels@[i as int]@);
        if same_text(labels[i].name.as_slice(), name) {
            return Some(labels[i].addr);
        }
    }
    None
}

/// What is known of a program after some of its lines.
struct Survey {
    globals: Option<usize>,
    memory: Option<usize>,
    labels: Vec<Label>,
    names: Vec<Option<String>>,
    pending: Option<String>,
}

/// A count that may be missing.
spec fn optional_count(n: Option<usize>) -> Option<nat> {
    match n {
        Some(n) => Some(n as nat),
        None => None,
    }
}

impl View for Survey {
    type V = Layout;

    closed spec fn view(&self) -> Layout {
        Layout {
            globals: optional_count(self.globals),
            memory: optional_count(self.memory),
            labels: label_table(self.labels@),
            names: vm::optional_texts(self.names@),
            pending: vm::optional_text(self.pending),
        }
    }
}

/// Append a text in backquotes.
fn push_quoted(out: &mut String, s: &[char])
    ensures
        final(out)@ == old(out)@ + quoted(s@),
{
    out.push('`');
    push_chars(out, s);
    out.push('`');
    assert(out@ =~= old(out)@ + quoted(s@));
}

/// A message that ends in a text in backquotes.
fn about(before: &str, s: &[char]) -> (m: String)
    ensures
        m@ == before@ + quoted(s@),
{
    let mut m = before.to_owned();
    push_quoted(&mut m, s);
    m
}

/// Parse a `.globals` / `.memory` value, rejecting sizes that would make the
/// machine impossible to allocate.
fn parse_data_size(value: Option<&[char]>, what: &str) -> (r: Result<usize, String>)
    ensures
        data_size(
            match value {
                Some(s) => Some(s@),
                None => None,
            },
            what@,
        ) == (match r {
            Ok(n) => Ok::<nat, Seq<char>>(n as nat),
            Err(m) => Err::<nat, Seq<char>>(m@),
        }),
{
    let s: &[char] = match value {
        Some(s) => s,
        None => {
            let mut m = "directive `.".to_owned();
            m.append(what);
            m.append("` needs a value");
            return Err(m);
        },
    };
    match parse_usize(s) {
        None => {
            let mut m = "invalid `.".to_owned();
            m.append(what);
            m.append("` value ");
            push_quoted(&mut m, s);
            Err(m)
        },
        Some(n) => if n > MAX_DATA_CELLS {
            let mut m = ".".to_owned();
            m.append(what);
            m.append(" value ");
            push_decimal(&mut m, n as u64);
            m.append(" too large (max ");
            push_decimal(&mut m, MAX_DATA_CELLS as u64);
            m.append(")");
            Err(m)
        } else {
            Ok(n)
        },
    }
}

/// Whether a step over a survey did what the model says. A fault changes
/// nothing.
spec fn follows(
    r: Result<(), String>,
    before: Layout,
    after: Layout,
    expected: Result<Layout, Seq<char>>,
) -> bool {
    match r {
        Ok(_) => expected == Ok::<Layout, Seq<char>>(after),
        Err(m) => expected == Err::<Layout, Seq<char>>(m@) && after == before,
    }
}

impl Survey {
    fn new() -> (s: Survey)
        ensures
            s@ == unknown(),
    {
        let s = Survey {
            globals: None,
            memory: None,
            labels: Vec::new(),
            names: Vec::new(),
            pending: None,
        };
        assert(s@ =~= unknown());
        s
    }

    fn apply_directive(&mut self, rest: &[char]) -> (r: Result<(), String>)
        ensures
            follows(r, old(self)@, final(self)@, directed(old(self)@, rest@)),
    {
        let words: Vec<&[char]> = split_words(rest);
        let name: &[char] = match nth_word(&words, 0) {
            Some(name) => name,
            None => slice_subrange(rest, 0, 0),
        };
        assert(words@.len() == 0 ==> name@ =~= Seq::empty());
        if is_text(name, "globals") {
            if self.globals.is_some() {
                return Err("duplicate `.globals` directive".to_owned());
            }
            match parse_data_size(nth_word(&words, 1), "globals") {
                Ok(n) => {
                    self.globals = Some(n);
                },
                Err(m) => return Err(m),
            }
        } else if is_text(name, "memory") {
            if self.memory.is_some() {
                return Err("duplicate `.memory` directive".to_owned());
            }
            match parse_data_size(nth_word(&words, 1), "memory") {
                Ok(n) => {
                    self.memory = Some(n);
                },
                Err(m) => return Err(m),
            }
        } else {
            let mut m = "unknown directive `.".to_owned();
            push_chars(&mut m, name);
            m.append("`");
            return Err(m);
        }
        Ok(())
    }

    fn add_label(&mut self, name: &[char]) -> (r: Result<(), String>)
        ensures
            follows(r, old(self)@, final(self)@, labelled(old(self)@, name@)),
    {
        if name.len() == 0 {
            return Err("empty label".to_owned());
        }
        if parse_usize(name).is_some() {
            let mut m = about("label ", name);
            m.append(" looks like an address and could never be targeted by name");
            return Err(m);
        }
        if find_label(&self.labels, name).is_some() {
            return Err(about("duplicate label ", name));
        }
        let label = Label { name: slice_to_vec(name), addr: self.names.len() };
        let ghost before = self.labels@;
        self.labels.push(label);
        self.pending = Some(string_of(name));
        assert(label_table(self.labels@) =~= label_table(before).push(label@));
        Ok(())
    }

    fn add_line(&mut self, line: &[char]) -> (r: Result<(), String>)
        ensures
            follows(r, old(self)@, final(self)@, surveyed(old(self)@, line@)),
    {
        match read_line(line) {
            Line::Blank => Ok(()),
            Line::Label(name) => self.add_label(name),
            Line::Directive(rest) => self.apply_directive(rest),
            Line::Instruction(_) => {
                // An instruction line consumes any pending label.
                let name: Option<String> = self.pending.take();
                let ghost before = self.names@;
                self.names.push(name);
                assert(vm::optional_texts(self.names@) =~= vm::optional_texts(before).push(
                    vm::optional_text(name),
                ));
                Ok(())
            },
        }
    }
}

/// Read an instruction without operands.
fn read_plain_op(name: &[char]) -> (op: Option<Op>)
    ensures
        op == plain_op(name@),
{
    if is_text(name, "pop") {
        Some(Op::Pop)
    } else if is_text(name, "dup") {
        Some(Op::Dup)
    } else if is_text(name, "add") {
        Some(Op::Add)
    } else if is_text(name, "sub") {
        Some(Op::Sub)
    } else if is_text(name, "mul") {
        Some(Op::Mul)
    } else if is_text(name, "div") {
        Some(Op::Div)
    } else if is_text(name, "mod") {
        Some(Op::Mod)
    } else if is_text(name, "neg") {
        Some(Op::Neg)
    } else if is_text(name, "lt") {
        Some(Op::Lt)
    } else if is_text(name, "gt") {
        Some(Op::Gt)
    } else if is_text(name, "le") {
        Some(Op::Le)
    } else if is_text(name, "ge") {
        Some(Op::Ge)
    } else if is_text(name, "eq") {
        Some(Op::Eq)
    } else if is_text(name, "ne") {
        Some(Op::Ne)
    } else if is_text(name, "loadmem") {
        Some(Op::LoadMem)
    } else if is_text(name, "storemem") {
        Some(Op::StoreMem)
    } else if is_text(name, "ret") {
        Some(Op::Ret)
    } else if is_text(name, "print") {
        Some(Op::Print)
    } else if is_text(name, "halt") {
        Some(Op::Halt)
    } else {
        None
    }
}

/// Read an instruction with a slot index.
fn read_slot_op(name: &[char], n: usize) -> (op: Option<Op>)
    ensures
        op == slot_op(name@, n),
{
    if is_text(name, "load") {
        Some(Op::Load(n))
    } else if is_text(name, "store") {
        Some(Op::Store(n))
    } else if is_text(name, "loadg") {
        Some(Op::LoadG(n))
    } else if is_text(name, "storeg") {
        Some(Op::StoreG(n))
    } else {
        None
    }
}

/// Read a jump.
fn read_jump_op(name: &[char], target: usize) -> (op: Option<Op>)
    ensures
        op == jump_op(name@, target),
{
    if is_text(name, "jmp") {
        Some(Op::Jmp(target))
    } else if is_text(name, "jz") {
        Some(Op::Jz(target))
    } else if is_text(name, "jnz") {
        Some(Op::Jnz(target))
    } else {
        None
    }
}

/// The contents of a result whose error is a string.
spec fn outcome<A>(r: Result<A, String>) -> Result<A, Seq<char>> {
    match r {
        Ok(v) => Ok(v),
        Err(m) => Err(m@),
    }
}

fn int_arg(words: &Vec<&[char]>, i: usize) -> (r: Result<i64, String>)
    ensures
        outcome(r) == integer(text::pieces(words@), i as int),
{
    match nth_word(words, i) {
        None => Err("missing integer operand".to_owned()),
        Some(s) => match parse_i64(s) {
            Some(v) => Ok(v),
            None => Err(about("invalid integer ", s)),
        },
    }
}

fn uint_arg(words: &Vec<&[char]>, i: usize) -> (r: Result<usize, String>)
    ensures
        outcome(r) == slot(text::pieces(words@), i as int),
{
    match nth_word(words, i) {
        None => Err("missing operand".to_owned()),
        Some(s) => match parse_usize(s) {
            Some(n) => Ok(n),
            None => Err(about("invalid slot index ", s)),
        },
    }
}

/// Resolve a jump or call target: a numeric address or a label name. A numeric
/// address must land inside the program (one past the last instruction is
/// allowed as a run-off-the-end exit). Label targets are already validated by
/// the first pass.
fn addr_arg(words: &Vec<&[char]>, i: usize, labels: &Vec<Label>, count: usize) -> (r: Result<
    usize,
    String,
>)
    ensures
        outcome(r) == target(text::pieces(words@), i as int, label_table(labels@), count as nat),
{
    let s: &[char] = match nth_word(words, i) {
        Some(s) => s,
        None => return Err("missing target operand".to_owned()),
    };
    match parse_usize(s) {
        Some(n) => if n > count {
            let mut m = "branch target ".to_owned();
            push_decimal(&mut m, n as u64);
            m.append(" is outside the program (0..=");
            push_decimal(&mut m, count as u64);
            m.append(")");
            Err(m)
        } else {
            Ok(n)
        },
        None => match find_label(labels, s) {
            Some(n) => Ok(n),
            None => Err(about("unknown label ", s)),
        },
    }
}

fn parse_instr(content: &[char], labels: &Vec<Label>, count: usize) -> (r: Result<Op, String>)
    ensures
        outcome(r) == encoded(content@, label_table(labels@), count as nat),
{
    let words: Vec<&[char]> = split_words(content);
    let name: &[char] = match nth_word(&words, 0) {
        Some(name) => name,
        None => slice_subrange(content, 0, 0),
    };
    assert(words@.len() == 0 ==> name@ =~= Seq::empty());
    if let Some(op) = read_plain_op(name) {
        return Ok(op);
    }
    if is_text(name, "push") {
        return match int_arg(&words, 1) {
            Ok(v) => Ok(Op::Push(v)),
            Err(m) => Err(m),
        };
    }
    if read_slot_op(name, 0).is_some() {
        let n: usize = match uint_arg(&words, 1) {
            Ok(n) => n,
            Err(m) => return Err(m),
        };
        if let Some(op) = read_slot_op(name, n) {
            return Ok(op);
        }
    }
    if read_jump_op(name, 0).is_some() {
        let n: usize = match addr_arg(&words, 1, labels, count) {
            Ok(n) => n,
            Err(m) => return Err(m),
        };
        if let Some(op) = read_jump_op(name, n) {
            return Ok(op);
        }
    }
    if is_text(name, "call") {
        let target: usize = match addr_arg(&words, 1, labels, count) {
            Ok(n) => n,
            Err(m) => return Err(m),
        };
        let nargs: usize = match uint_arg(&words, 2) {
            Ok(n) => n,
            Err(m) => return Err(m),
        };
        let nlocals: usize = match uint_arg(&words, 3) {
            Ok(n) => n,
            Err(m) => return Err(m),
        };
        return Ok(Op::Call(target, nargs, nlocals));
    }
    Err(about("unknown mnemonic ", name))
}

/// The number of a line.
fn line_number(i: usize) -> (n: u32)
    requires
        i < usize::MAX,
    ensures
        n == (i + 1) as u32,
{
    (i + 1) as u32
}

/// Assemble source text into a [`Program`].
///
/// # Errors
///
/// Returns an [`AsmError`] carrying the 1-based source line for any malformed
/// input: an unknown mnemonic or directive, a missing or invalid operand, a
/// duplicate or numeric label, an unknown label target, a branch target outside
/// the program, an oversized or duplicate size directive, or a program with no
/// instructions.
pub fn assemble(src: &str) -> (r: Result<Program, AsmError>)
    ensures
        match r {
            Ok(p) => assembled(src@) == Ok::<Listing, Fault>(p@) && p@.loadable(),
            Err(e) => assembled(src@) == Err::<Listing, Fault>(e@),
        },
{
    let chars: Vec<char> = chars_of(src);
    let parts: Vec<&[char]> = split_lines(chars.as_slice());
    let ghost lines = text::pieces(parts@);
    let count: usize = parts.len();

    // First pass: resolve labels to instruction addresses and count instructions.
    let mut survey_so_far = Survey::new();
    let mut source: Vec<String> = Vec::new();
    let mut i: usize = 0;
    while i < count
        invariant
            i <= count == parts.len(),
            lines == text::pieces(parts@),
            lines == text::lines(src@),
            survey(lines, i as nat) == Ok::<Layout, Fault>(survey_so_far@),
            vm::texts(source@) =~= lines.take(i as int),
        decreases count - i,
    {
        let line: &[char] = parts[i];
        assert(line@ == lines[i as int]);
        if let Err(message) = survey_so_far.add_line(line) {
            proof {
                lemma_survey_fault(lines, i as nat + 1, lines.len());
            }
            return Err(AsmError { line: line_number(i), message });
        }
        let ghost before = source@;
        source.push(string_of(line));
        assert(vm::texts(source@) =~= vm::texts(before).push(line@));
        i += 1;
    }
    assert(lines.take(i as int) =~= lines);
    let ghost layout = survey_so_far@;

    // Second pass: encode instructions, resolving operands.
    let instr_count: usize = survey_so_far.names.len();
    let mut code: Vec<Op> = Vec::new();
    let mut line_of: Vec<u32> = Vec::new();
    let mut j: usize = 0;
    while j < count
        invariant
            j <= count == parts.len(),
            lines == text::pieces(parts@),
            lines == text::lines(src@),
            layout == survey_so_far@,
            instr_count == layout.names.len(),
            survey(lines, lines.len()) == Ok::<Layout, Fault>(layout),
            encode(lines, j as nat, layout) == Ok::<Encoding, Fault>(
                (Encoding { code: code@, lines: line_of@ }),
            ),
        decreases count - j,
    {
        let line: &[char] = parts[j];
        assert(line@ == lines[j as int]);
        if let Line::Instruction(content) = read_line(line) {
            match parse_instr(content, &survey_so_far.labels, instr_count) {
                Ok(op) => {
                    code.push(op);
                    line_of.push(line_number(j));
                },
                Err(message) => {
                    proof {
                        lemma_encode_fault(lines, j as nat + 1, lines.len(), layout);
                    }
                    return Err(AsmError { line: line_number(j), message });
                },
            }
        }
        j += 1;
    }

    if code.len() == 0 {
        return Err(AsmError { line: 1, message: "program has no instructions".to_owned() });
    }
    let globals: usize = match survey_so_far.globals {
        Some(n) => n,
        None => DEFAULT_GLOBALS,
    };
    let memory: usize = match survey_so_far.memory {
        Some(n) => n,
        None => DEFAULT_MEMORY,
    };
    let program = Program { code, line_of, source, labels: survey_so_far.names, globals, memory };
    assert(Ok::<Listing, Fault>(program@) == assembled(src@));
    proof {
        assembled_programs_are_well_formed(src@);
    }
    Ok(program)
}

/// A fault of the first pass stays the first.
pub proof fn lemma_survey_fault(lines: Seq<Seq<char>>, m: nat, n: nat)
    requires
        m <= n,
        survey(lines, m) is Err,
    ensures
        survey(lines, n) == survey(lines, m),
    decreases n,
{
    if m < n {
        lemma_survey_fault(lines, m, (n - 1) as nat);
    }
}

/// A fault of the second pass stays the first.
pub proof fn lemma_encode_fault(lines: Seq<Seq<char>>, m: nat, n: nat, l: Layout)
    requires
        m <= n,
        encode(lines, m, l) is Err,
    ensures
        encode(lines, n, l) == encode(lines, m, l),
    decreases n,
{
    if m < n {
        lemma_encode_fault(lines, m, (n - 1) as nat, l);
    }
}

/// The branch target of an instruction.
pub open spec fn branch_target(op: Op) -> Option<usize> {
    match op {
        Op::Jmp(t) | Op::Jz(t) | Op::Jnz(t) | Op::Call(t, _, _) => Some(t),
        _ => None,
    }
}

/// Whether no size is above the limit, and no label lies behind the next
/// instruction.
spec fn sensible(l: Layout) -> bool {
    &&& l.globals matches Some(n) ==> n <= MAX_DATA_CELLS
    &&& l.memory matches Some(n) ==> n <= MAX_DATA_CELLS
    &&& forall|k: int| 0 <= k < l.labels.len() ==> (#[trigger] l.labels[k]).1 <= l.names.len()
}

/// What is known of a program is sensible after any number of lines.
proof fn lemma_survey_sensible(lines: Seq<Seq<char>>, n: nat)
    ensures
        survey(lines, n) matches Ok(l) ==> sensible(l) && l.names.len() <= n,
    decreases n,
{
    if n > 0 {
        lemma_survey_sensible(lines, (n - 1) as nat);
    }
}

/// A label that is found has one of the addresses in the table.
proof fn lemma_address_found(labels: Seq<(Seq<char>, nat)>, name: Seq<char>, bound: nat)
    requires
        forall|k: int| 0 <= k < labels.len() ==> (#[trigger] labels[k]).1 <= bound,
    ensures
        address(labels, name) matches Some(n) ==> n <= bound,
    decreases labels.len(),
{
    if labels.len() > 0 {
        assert forall|k: int| 0 <= k < labels.drop_last().len() implies (
        #[trigger] labels.drop_last()[k]).1 <= bound by {
            assert(labels.drop_last()[k] == labels[k]);
        }
        lemma_address_found(labels.drop_last(), name, bound);
    }
}

/// An instruction branches into the program or just past its end.
proof fn lemma_encoded_target(content: Seq<char>, labels: Seq<(Seq<char>, nat)>, count: nat)
    requires
        forall|k: int| 0 <= k < labels.len() ==> (#[trigger] labels[k]).1 <= count,
    ensures
        encoded(content, labels, count) matches Ok(op) ==> (branch_target(op) matches Some(t)
            ==> t <= count),
{
    let words = text::words(content);
    if let Some(s) = text::word(words, 1) {
        lemma_address_found(labels, s, count);
    }
}

/// What the second pass makes of the lines that the first pass has seen.
proof fn lemma_encoding(lines: Seq<Seq<char>>, n: nat, l: Layout)
    requires
        n <= lines.len(),
        survey(lines, n) is Ok,
        forall|k: int| 0 <= k < l.labels.len() ==> (#[trigger] l.labels[k]).1 <= l.names.len(),
    ensures
        encode(lines, n, l) matches Ok(done) ==> {
            &&& done.code.len() == done.lines.len() == (survey(lines, n)->Ok_0).names.len()
            &&& lines.len() <= u32::MAX ==> {
                &&& forall|a: int| 0 <= a < done.code.len() ==> #[trigger] done.lines[a] <= n
                &&& forall|a: int, b: int|
                    0 <= a < b < done.code.len() ==> #[trigger] done.lines[a]
                        < #[trigger] done.lines[b]
                &&& forall|a: int|
                    0 <= a < done.code.len() ==> from_line(
                        lines,
                        l,
                        #[trigger] done.code[a],
                        done.lines[a],
                    )
            }
            &&& forall|a: int|
                0 <= a < done.code.len() ==> (branch_target(#[trigger] done.code[a]) matches Some(
                    t,
                ) ==> t <= l.names.len())
        },
    decreases n,
{
    if n > 0 {
        let m = (n - 1) as nat;
        assert(survey(lines, m) is Ok);
        lemma_encoding(lines, m, l);
        if let Ok(done) = encode(lines, m, l) {
            if let Kind::Instruction(c) = kind(lines[n - 1]) {
                lemma_encoded_target(c, l.labels, l.names.len());
            }
        }
    }
}

/// Whether an instruction is the one that a source line encodes.
pub open spec fn from_line(lines: Seq<Seq<char>>, l: Layout, op: Op, line: u32) -> bool {
    &&& 1 <= line <= lines.len()
    &&& kind(lines[line - 1]) matches Kind::Instruction(c)
    &&& encoded(c, l.labels, l.names.len()) == Ok::<Op, Seq<char>>(op)
}

/// An assembled program is well formed: it has an instruction, as many line and
/// label entries as instructions, every branch lands in it or just past its
/// end, and the sizes are within the limit. When the lines can be numbered in
/// 32 bits, each instruction comes from the source line that the line table
/// gives, and later instructions come from later lines.
pub proof fn assembled_programs_are_well_formed(src: Seq<char>)
    ensures
        assembled(src) matches Ok(p) ==> {
            let n = p.image.code.len();
            &&& n > 0
            &&& p.image.lines.len() == n
            &&& p.image.names.len() == n
            &&& p.source == text::lines(src)
            &&& p.globals <= MAX_DATA_CELLS
            &&& p.memory <= MAX_DATA_CELLS
            &&& forall|a: int|
                0 <= a < n ==> (branch_target(#[trigger] p.image.code[a]) matches Some(t) ==> t
                    <= n)
            &&& p.source.len() <= u32::MAX ==> {
                &&& survey(p.source, p.source.len()) matches Ok(l) && forall|a: int|
                    0 <= a < n ==> from_line(
                        p.source,
                        l,
                        #[trigger] p.image.code[a],
                        p.image.lines[a],
                    )
                &&& forall|a: int, b: int|
                    0 <= a < b < n ==> #[trigger] p.image.lines[a] < #[trigger] p.image.lines[b]
            }
        },
{
    let lines = text::lines(src);
    lemma_survey_sensible(lines, lines.len());
    if let Ok(l) = survey(lines, lines.len()) {
        lemma_encoding(lines, lines.len(), l);
    }
}

/// Labels are distinct, and none of them could be read as an address: every
/// label can be targeted by its name.
pub proof fn labels_can_be_targeted(lines: Seq<Seq<char>>, n: nat)
    ensures
        survey(lines, n) matches Ok(l) ==> {
            &&& forall|k: int|
                0 <= k < l.labels.len() ==> {
                    &&& address(l.labels, (#[trigger] l.labels[k]).0) == Some(l.labels[k].1)
                    &&& text::parsed(l.labels[k].0, usize::MAX as nat) is None
                }
        },
    decreases n,
{
    if n > 0 {
        labels_can_be_targeted(lines, (n - 1) as nat);
        if let Ok(l) = survey(lines, (n - 1) as nat) {
            if let Ok(next) = surveyed(l, lines[n - 1]) {
                if next.labels != l.labels {
                    let name = next.labels.last().0;
                    assert(next.labels.drop_last() =~= l.labels);
                    assert forall|k: int| 0 <= k < next.labels.len() implies {
                        &&& address(next.labels, (#[trigger] next.labels[k]).0) == Some(
                            next.labels[k].1,
                        )
                        &&& text::parsed(next.labels[k].0, usize::MAX as nat) is None
                    } by {
                        if k < l.labels.len() {
                            assert(next.labels[k] == l.labels[k]);
                        }
                    }
                }
            }
        }
    }
}

/// A fault of the first pass has a message and one of the lines so far.
proof fn lemma_survey_fault_line(lines: Seq<Seq<char>>, n: nat)
    ensures
        survey(lines, n) matches Err(f) ==> f.message.len() > 0 && (n <= u32::MAX ==> 1 <= f.line
            <= n),
    decreases n,
{
    if n > 0 {
        lemma_survey_fault_line(lines, (n - 1) as nat);
        reveal_strlit("directive `.");
        reveal_strlit("invalid `.");
        reveal_strlit(".");
        reveal_strlit("duplicate `.globals` directive");
        reveal_strlit("duplicate `.memory` directive");
        reveal_strlit("unknown directive `.");
        reveal_strlit("empty label");
        reveal_strlit("label ");
        reveal_strlit("duplicate label ");
    }
}

/// A fault of the second pass has a message and one of the lines so far.
proof fn lemma_encode_fault_line(lines: Seq<Seq<char>>, n: nat, l: Layout)
    ensures
        encode(lines, n, l) matches Err(f) ==> f.message.len() > 0 && (n <= u32::MAX ==> 1 <= f.line
            <= n),
    decreases n,
{
    if n > 0 {
        lemma_encode_fault_line(lines, (n - 1) as nat, l);
        reveal_strlit("missing integer operand");
        reveal_strlit("invalid integer ");
        reveal_strlit("missing operand");
        reveal_strlit("invalid slot index ");
        reveal_strlit("missing target operand");
        reveal_strlit("branch target ");
        reveal_strlit("unknown label ");
        reveal_strlit("unknown mnemonic ");
    }
}

/// Every fault has a message and, when the lines can be numbered in 32 bits, a
/// line of the source; a source without lines has its fault on line 1.
pub proof fn faults_have_a_line_and_a_message(src: Seq<char>)
    ensures
        assembled(src) matches Err(f) ==> {
            &&& f.message.len() > 0
            &&& text::lines(src).len() <= u32::MAX ==> f.line >= 1 && (f.line <= text::lines(
                src,
            ).len() || f.line == 1)
        },
{
    let lines = text::lines(src);
    lemma_survey_fault_line(lines, lines.len());
    if let Ok(l) = survey(lines, lines.len()) {
        lemma_encode_fault_line(lines, lines.len(), l);
    }
    reveal_strlit("program has no instructions");
}

/// The number of a source line once another line stands at index `k`.
pub open spec fn moved(line: u32, k: int) -> int {
    if line > k {
        line + 1
    } else {
        line as int
    }
}

/// Whether two results of a pass differ in the number of the faulty line alone,
/// which moved by the insertion of a line at index `k`. The numbers are left out
/// when they do not fit in 32 bits.
spec fn same_fault<A>(r: Result<A, Fault>, after: Result<A, Fault>, k: int, fits: bool) -> bool {
    match (r, after) {
        (Ok(_), Ok(_)) => true,
        (Err(f), Err(g)) => {
            &&& g.message == f.message
            &&& fits ==> g.line == moved(f.line, k)
        },
        _ => false,
    }
}

/// The first pass learns nothing from a blank line.
proof fn lemma_blank_survey(lines: Seq<Seq<char>>, k: int, line: Seq<char>, n: nat)
    requires
        0 <= k <= lines.len(),
        n <= lines.len(),
        kind(line) is Blank,
    ensures
        n <= k ==> survey(lines.insert(k, line), n) == survey(lines, n),
        n >= k ==> {
            let r = survey(lines, n);
            let after = survey(lines.insert(k, line), n + 1);
            &&& same_fault(r, after, k, lines.len() < u32::MAX)
            &&& r matches Ok(l) ==> after == Ok::<Layout, Fault>(l)
        },
    decreases n,
{
    let longer = lines.insert(k, line);
    if n > 0 {
        lemma_blank_survey(lines, k, line, (n - 1) as nat);
        if n <= k {
            assert(longer[n - 1] == lines[n - 1]);
        } else {
            assert(longer[n as int] == lines[n - 1]);
        }
    }
    if n == k {
        assert(longer[k] == line);
        assert(surveyed(unknown(), line) is Ok);
        lemma_survey_fault_line(lines, n);
    }
}

/// The second pass finds no instruction on a blank line.
proof fn lemma_blank_encode(lines: Seq<Seq<char>>, k: int, line: Seq<char>, n: nat, l: Layout)
    requires
        0 <= k <= lines.len(),
        n <= lines.len(),
        kind(line) is Blank,
    ensures
        n <= k ==> encode(lines.insert(k, line), n, l) == encode(lines, n, l),
        n >= k ==> {
            let r = encode(lines, n, l);
            let after = encode(lines.insert(k, line), n + 1, l);
            &&& same_fault(r, after, k, lines.len() < u32::MAX)
            &&& r matches Ok(done) ==> {
                &&& after->Ok_0.code == done.code
                &&& after->Ok_0.lines.len() == done.lines.len()
                &&& lines.len() < u32::MAX ==> forall|a: int|
                    0 <= a < done.lines.len() ==> #[trigger] after->Ok_0.lines[a] == moved(
                        done.lines[a],
                        k,
                    )
            }
        },
    decreases n,
{
    let longer = lines.insert(k, line);
    if n > 0 {
        lemma_blank_encode(lines, k, line, (n - 1) as nat, l);
        if n <= k {
            assert(longer[n - 1] == lines[n - 1]);
        } else {
            assert(longer[n as int] == lines[n - 1]);
        }
    }
    if n == k {
        assert(longer[k] == line);
        lemma_encode_fault_line(lines, n, l);
        lemma_encode_lines(lines, n, l);
    }
}

/// The second pass finds every instruction on one of the lines so far.
proof fn lemma_encode_lines(lines: Seq<Seq<char>>, n: nat, l: Layout)
    ensures
        encode(lines, n, l) matches Ok(done) ==> n <= u32::MAX ==> forall|a: int|
            0 <= a < done.lines.len() ==> #[trigger] done.lines[a] <= n,
    decreases n,
{
    if n > 0 {
        lemma_encode_lines(lines, (n - 1) as nat, l);
    }
}

/// Whether nothing is wrong with any line of a text, but none of them holds an
/// instruction.
pub open spec fn lacks_instructions(src: Seq<char>) -> bool {
    let lines = text::lines(src);
    &&& survey(lines, lines.len()) matches Ok(l)
    &&& encode(lines, lines.len(), l) matches Ok(done)
    &&& done.code.len() == 0
}

/// Whether a text assembles to what another does but for the line at index `k`
/// of its source: to the same instructions, labels and sizes, or with the same
/// fault. As far as lines can be numbered in 32 bits, an instruction or a fault
/// on a later line is found one line further down, and every other where it was;
/// that there is no instruction at all is a fault on line 1.
pub open spec fn moves_later_lines(
    src: Seq<char>,
    longer: Seq<char>,
    k: int,
    line: Seq<char>,
) -> bool {
    match (assembled(src), assembled(longer)) {
        (Ok(p), Ok(q)) => {
            &&& q.image.code == p.image.code
            &&& q.image.names == p.image.names
            &&& q.globals == p.globals
            &&& q.memory == p.memory
            &&& q.source == p.source.insert(k, line)
            &&& q.image.lines.len() == p.image.lines.len()
            &&& p.source.len() < u32::MAX ==> forall|a: int|
                0 <= a < p.image.lines.len() ==> #[trigger] q.image.lines[a] == moved(
                    p.image.lines[a],
                    k,
                )
        },
        (Err(f), Err(g)) => {
            &&& g.message == f.message
            &&& text::lines(src).len() < u32::MAX ==> if lacks_instructions(src) {
                g.line == f.line == 1
            } else {
                g.line == moved(f.line, k)
            }
        },
        _ => false,
    }
}

/// A blank line, or one with nothing but a comment, changes nothing but the
/// numbers of the lines after it.
pub proof fn blank_lines_only_move_later_lines(
    src: Seq<char>,
    longer: Seq<char>,
    k: int,
    line: Seq<char>,
)
    requires
        0 <= k <= text::lines(src).len(),
        kind(line) is Blank,
        text::lines(longer) == text::lines(src).insert(k, line),
    ensures
        moves_later_lines(src, longer, k, line),
{
    let lines = text::lines(src);
    lemma_blank_survey(lines, k, line, lines.len());
    if let Ok(l) = survey(lines, lines.len()) {
        lemma_blank_encode(lines, k, line, lines.len(), l);
    }
}

/// A blank line, or one with nothing but a comment, can be written into a source
/// text at its start or after any line feed, and changes nothing but the numbers
/// of the lines after it.
pub proof fn blank_lines_can_be_written_between_lines(
    before: Seq<char>,
    line: Seq<char>,
    after: Seq<char>,
)
    requires
        before.len() > 0 ==> before.last() == '\n',
        !line.contains('\n'),
        kind(line) is Blank,
    ensures
        moves_later_lines(
            before + after,
            before + line + seq!['\n'] + after,
            text::lines(before).len() as int,
            text::without_return(line),
        ),
{
    let end = seq!['\n'];
    let k = text::lines(before).len() as int;
    let blank = text::without_return(line);
    text::lines_of_joined_texts(before, after);
    assert(before + line + end + after =~= before + (line + end + after));
    text::lines_of_joined_texts(before, line + end + after);
    text::lines_of_joined_texts(line + end, after);
    text::lemma_one_line(line);
    assert(text::lines(before + line + end + after) =~= text::lines(before + after).insert(
        k,
        blank,
    ));
    lemma_blank_return(line);
    blank_lines_only_move_later_lines(before + after, before + line + end + after, k, blank);
}

/// A blank line is blank without the carriage return at its end.
proof fn lemma_blank_return(line: Seq<char>)
    requires
        kind(line) is Blank,
    ensures
        kind(text::without_return(line)) is Blank,
{
    let short = text::without_return(line);
    if short != line {
        let n = text::position(line, ';');
        let m = if n < short.len() {
            n
        } else {
            short.len()
        };
        text::lemma_position(line, ';');
        assert forall|i: int| 0 <= i < m implies #[trigger] short[i] != ';' by {
            assert(line[i] != ';');
        }
        text::lemma_position_is(short, ';', m);
        text::lemma_trimmed_blank(line.take(n as int));
        text::lemma_trimmed_blank(short.take(m as int));
        assert forall|i: int| 0 <= i < m implies text::white_space(
            #[trigger] short.take(m as int)[i],
        ) by {
            assert(text::white_space(line.take(n as int)[i]));
        }
    }
}

/// The first pass sees of each line its kind alone.
proof fn lemma_survey_kinds(a: Seq<Seq<char>>, b: Seq<Seq<char>>, n: nat)
    requires
        n <= a.len() == b.len(),
        forall|i: int| 0 <= i < a.len() ==> kind(#[trigger] a[i]) == kind(b[i]),
    ensures
        survey(a, n) == survey(b, n),
    decreases n,
{
    if n > 0 {
        lemma_survey_kinds(a, b, (n - 1) as nat);
        assert(kind(a[n - 1]) == kind(b[n - 1]));
    }
}

/// The second pass sees of each line its kind alone.
proof fn lemma_encode_kinds(a: Seq<Seq<char>>, b: Seq<Seq<char>>, n: nat, l: Layout)
    requires
        n <= a.len() == b.len(),
        forall|i: int| 0 <= i < a.len() ==> kind(#[trigger] a[i]) == kind(b[i]),
    ensures
        encode(a, n, l) == encode(b, n, l),
    decreases n,
{
    if n > 0 {
        lemma_encode_kinds(a, b, (n - 1) as nat, l);
        assert(kind(a[n - 1]) == kind(b[n - 1]));
    }
}

/// Two texts whose lines are of the same kinds one by one assemble to the same
/// program, each with its own source, or have the same fault.
pub proof fn lines_of_the_same_kinds_assemble_alike(a: Seq<char>, b: Seq<char>)
    requires
        text::lines(a).len() == text::lines(b).len(),
        forall|i: int|
            0 <= i < text::lines(a).len() ==> kind(#[trigger] text::lines(a)[i]) == kind(
                text::lines(b)[i],
            ),
    ensures
        match (assembled(a), assembled(b)) {
            (Ok(p), Ok(q)) => q == (Listing { source: q.source, ..p }),
            (Err(f), Err(g)) => g == f,
            _ => false,
        },
{
    let n = text::lines(a).len();
    lemma_survey_kinds(text::lines(a), text::lines(b), n);
    if let Ok(l) = survey(text::lines(a), n) {
        lemma_encode_kinds(text::lines(a), text::lines(b), n, l);
    }
}

/// A comment at the end of a line and white space at its start do not change its
/// kind.
pub proof fn comments_and_indentation_do_not_matter(
    space: Seq<char>,
    line: Seq<char>,
    comment: Seq<char>,
)
    requires
        forall|i: int| 0 <= i < space.len() ==> text::white_space(#[trigger] space[i]),
    ensures
        kind(line + seq![';'] + comment) == kind(line),
        kind(space + line) == kind(line),
{
    let n = text::position(line, ';');
    text::lemma_position(line, ';');
    let longer = line + seq![';'] + comment;
    assert forall|i: int| 0 <= i < n implies #[trigger] longer[i] != ';' by {
        assert(line[i] != ';');
    }
    assert(longer[n as int] == ';');
    text::lemma_position_is(longer, ';', n);
    assert(longer.take(n as int) =~= line.take(n as int));
    let indented = space + line;
    let m = space.len() + n;
    assert forall|i: int| 0 <= i < m implies #[trigger] indented[i] != ';' by {
        if i < space.len() {
            assert(text::white_space(space[i]));
        } else {
            assert(line[i - space.len()] != ';');
        }
    }
    text::lemma_position_is(indented, ';', m);
    assert(indented.take(m as int) =~= space + line.take(n as int));
    text::lemma_trimmed_start(space, line.take(n as int));
}

} // verus!
