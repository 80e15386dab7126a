//! What the lines of a source text do to the program: the laws of the assembler.

use crate::assembler;
use crate::assembler::{Kind, Layout};
use crate::disassembly;
use crate::scanning;
use crate::text;
use crate::vm;
use crate::vm::Op;
use vstd::prelude::*;

verus! {

/// How each instruction is written.
pub proof fn instructions_are_written_with_their_mnemonics(v: i64, n: usize, m: usize, k: usize)
    ensures
        vm::spelling(Op::Push(v)) == "push"@ + seq![' '] + text::signed_decimal(v as int),
        vm::spelling(Op::Pop) == "pop"@,
        vm::spelling(Op::Dup) == "dup"@,
        vm::spelling(Op::Add) == "add"@,
        vm::spelling(Op::Sub) == "sub"@,
        vm::spelling(Op::Mul) == "mul"@,
        vm::spelling(Op::Div) == "div"@,
        vm::spelling(Op::Mod) == "mod"@,
        vm::spelling(Op::Neg) == "neg"@,
        vm::spelling(Op::Lt) == "lt"@,
        vm::spelling(Op::Gt) == "gt"@,
        vm::spelling(Op::Le) == "le"@,
        vm::spelling(Op::Ge) == "ge"@,
        vm::spelling(Op::Eq) == "eq"@,
        vm::spelling(Op::Ne) == "ne"@,
        vm::spelling(Op::Load(n)) == "load"@ + seq![' '] + text::decimal(n as nat),
        vm::spelling(Op::Store(n)) == "store"@ + seq![' '] + text::decimal(n as nat),
        vm::spelling(Op::LoadG(n)) == "loadg"@ + seq![' '] + text::decimal(n as nat),
        vm::spelling(Op::StoreG(n)) == "storeg"@ + seq![' '] + text::decimal(n as nat),
        vm::spelling(Op::LoadMem) == "loadmem"@,
        vm::spelling(Op::StoreMem) == "storemem"@,
        vm::spelling(Op::Jmp(n)) == "jmp"@ + seq![' '] + text::decimal(n as nat),
        vm::spelling(Op::Jz(n)) == "jz"@ + seq![' '] + text::decimal(n as nat),
        vm::spelling(Op::Jnz(n)) == "jnz"@ + seq![' '] + text::decimal(n as nat),
        vm::spelling(Op::Call(n, m, k)) == "call"@ + seq![' '] + text::decimal(n as nat) + seq![' ']
            + text::decimal(m as nat) + seq![' '] + text::decimal(k as nat),
        vm::spelling(Op::Ret) == "ret"@,
        vm::spelling(Op::Print) == "print"@,
        vm::spelling(Op::Halt) == "halt"@,
{
    assert forall|op: Op| (#[trigger] vm::operand_texts(op)).len() == 0 implies vm::spelling(op)
        == vm::mnemonic(op) by {
        assert(vm::spelling(op) =~= vm::mnemonic(op));
    }
    assert forall|op: Op| (#[trigger] vm::operand_texts(op)).len() == 1 implies vm::spelling(op)
        == vm::mnemonic(op) + seq![' '] + vm::operand_texts(op)[0] by {
        let words = vm::operand_texts(op);
        assert(words.drop_last() =~= Seq::<Seq<char>>::empty());
        reveal_with_fuel(vm::spaced, 2);
        assert(vm::spelling(op) =~= vm::mnemonic(op) + seq![' '] + words[0]);
    }
    assert(vm::operand_texts(Op::Pop).len() == 0);
    assert(vm::operand_texts(Op::Dup).len() == 0);
    assert(vm::operand_texts(Op::Add).len() == 0);
    assert(vm::operand_texts(Op::Sub).len() == 0);
    assert(vm::operand_texts(Op::Mul).len() == 0);
    assert(vm::operand_texts(Op::Div).len() == 0);
    assert(vm::operand_texts(Op::Mod).len() == 0);
    assert(vm::operand_texts(Op::Neg).len() == 0);
    assert(vm::operand_texts(Op::Lt).len() == 0);
    assert(vm::operand_texts(Op::Gt).len() == 0);
    assert(vm::operand_texts(Op::Le).len() == 0);
    assert(vm::operand_texts(Op::Ge).len() == 0);
    assert(vm::operand_texts(Op::Eq).len() == 0);
    assert(vm::operand_texts(Op::Ne).len() == 0);
    assert(vm::operand_texts(Op::LoadMem).len() == 0);
    assert(vm::operand_texts(Op::StoreMem).len() == 0);
    assert(vm::operand_texts(Op::Ret).len() == 0);
    assert(vm::operand_texts(Op::Print).len() == 0);
    assert(vm::operand_texts(Op::Halt).len() == 0);
    assert(vm::operand_texts(Op::Push(v)).len() == 1);
    assert(vm::operand_texts(Op::Load(n)).len() == 1);
    assert(vm::operand_texts(Op::Store(n)).len() == 1);
    assert(vm::operand_texts(Op::LoadG(n)).len() == 1);
    assert(vm::operand_texts(Op::StoreG(n)).len() == 1);
    assert(vm::operand_texts(Op::Jmp(n)).len() == 1);
    assert(vm::operand_texts(Op::Jz(n)).len() == 1);
    assert(vm::operand_texts(Op::Jnz(n)).len() == 1);
    let words = vm::operand_texts(Op::Call(n, m, k));
    reveal_with_fuel(vm::spaced, 4);
    assert(words.drop_last().drop_last().drop_last() =~= Seq::<Seq<char>>::empty());
    assert(vm::spelling(Op::Call(n, m, k)) =~= "call"@ + seq![' '] + text::decimal(n as nat)
        + seq![' '] + text::decimal(m as nat) + seq![' '] + text::decimal(k as nat));
}

/// What kind of line a text without a comment and without white space at its ends
/// is: nothing is a blank line, a colon at the end makes a label, a dot at the
/// start a directive, and everything else is an instruction.
pub proof fn lines_are_told_apart_by_their_ends(c: Seq<char>)
    requires
        !c.contains(';'),
        c.len() > 0 ==> !text::white_space(c[0]) && !text::white_space(c.last()),
    ensures
        c.len() == 0 ==> assembler::kind(c) is Blank,
        c.len() > 0 && c.last() == ':' ==> assembler::kind(c) == Kind::Label(
            text::trimmed(c.drop_last()),
        ),
        c.len() > 0 && c.last() != ':' && c[0] == '.' ==> assembler::kind(c) == Kind::Directive(
            c.skip(1),
        ),
        c.len() > 0 && c.last() != ':' && c[0] != '.' ==> assembler::kind(c) == Kind::Instruction(
            c,
        ),
{
    let none = Seq::<char>::empty();
    assert forall|i: int| 0 <= i < c.len() implies #[trigger] c[i] != ';' by {
        assert(c.contains(c[i]));
    }
    text::lemma_position_is(c, ';', c.len());
    assert(c.take(c.len() as int) =~= c);
    scanning::trimming_takes_the_ends_away(none, c, none);
    assert(none + c + none =~= c);
}

/// How many of the first `k` lines hold an instruction.
pub open spec fn instructions_before(lines: Seq<Seq<char>>, k: nat) -> nat
    decreases k,
{
    if k == 0 {
        0
    } else {
        instructions_before(lines, (k - 1) as nat) + if assembler::kind(
            lines[k - 1],
        ) is Instruction {
            1nat
        } else {
            0
        }
    }
}

/// The name that the next instruction after the first `k` lines gets: that of the
/// last label since the last instruction.
pub open spec fn name_so_far(lines: Seq<Seq<char>>, k: nat) -> Option<Seq<char>>
    decreases k,
{
    if k == 0 {
        None
    } else {
        match assembler::kind(lines[k - 1]) {
            Kind::Label(name) => Some(name),
            Kind::Instruction(_) => None,
            _ => name_so_far(lines, (k - 1) as nat),
        }
    }
}

/// Counting goes up.
proof fn lemma_count_grows(lines: Seq<Seq<char>>, j: nat, k: nat)
    requires
        j <= k,
    ensures
        instructions_before(lines, j) <= instructions_before(lines, k),
        j < k && assembler::kind(lines[j as int]) is Instruction ==> instructions_before(lines, j)
            < instructions_before(lines, k),
    decreases k,
{
    if j < k {
        lemma_count_grows(lines, j, (k - 1) as nat);
    }
}

/// A label stands for the number of instructions before it: every branch to its
/// name goes to the instruction that follows it. No other name is a label.
pub proof fn labels_stand_for_the_next_instruction(lines: Seq<Seq<char>>, n: nat, name: Seq<char>)
    requires
        assembler::survey(lines, n) is Ok,
    ensures
        ({
            let l = assembler::survey(lines, n)->Ok_0;
            &&& l.names.len() == instructions_before(lines, n)
            &&& forall|k: int|
                0 <= k < n && assembler::kind(#[trigger] lines[k]) == Kind::Label(name)
                    ==> assembler::address(l.labels, name) == Some(
                    instructions_before(lines, k as nat),
                )
            &&& assembler::address(l.labels, name) is Some ==> exists|k: int|
                0 <= k < n && assembler::kind(#[trigger] lines[k]) == Kind::Label(name)
        }),
    decreases n,
{
    if n > 0 {
        let m = (n - 1) as nat;
        assert(assembler::survey(lines, m) is Ok);
        labels_stand_for_the_next_instruction(lines, m, name);
        let before = assembler::survey(lines, m)->Ok_0;
        let l = assembler::survey(lines, n)->Ok_0;
        if let Kind::Label(other) = assembler::kind(lines[n - 1]) {
            assert(l.labels.drop_last() =~= before.labels);
            assert(other == name ==> assembler::kind(lines[n - 1]) == Kind::Label(name));
        }
        if assembler::address(before.labels, name) is Some {
            let k = choose|k: int|
                0 <= k < m && assembler::kind(#[trigger] lines[k]) == Kind::Label(name);
            assert(0 <= k < n && assembler::kind(lines[k]) == Kind::Label(name));
        }
    }
}

/// The name of an instruction is that of the last label since the instruction
/// before it.
pub proof fn instructions_are_named_by_the_label_before_them(
    lines: Seq<Seq<char>>,
    n: nat,
    j: nat,
)
    requires
        assembler::survey(lines, n) is Ok,
        j < n,
        assembler::kind(lines[j as int]) is Instruction,
    ensures
        ({
            let names = (assembler::survey(lines, n)->Ok_0).names;
            let a = instructions_before(lines, j) as int;
            &&& a < names.len()
            &&& forall|i: int|
                0 <= i < j && nothing_between(lines, i + 1, j as int) ==> (assembler::kind(
                    #[trigger] lines[i],
                ) matches Kind::Label(name) ==> names[a] == Some(name))
            &&& forall|i: int|
                0 <= i <= j && (i == 0 || assembler::kind(lines[i - 1]) is Instruction)
                    && #[trigger] nothing_between(lines, i, j as int) ==> names[a] is None
        }),
{
    lemma_names(lines, n, j);
    assert forall|i: int| 0 <= i < j && nothing_between(lines, i + 1, j as int) implies (
    assembler::kind(#[trigger] lines[i]) matches Kind::Label(name) ==> name_so_far(lines, j)
        == Some(name)) by {
        lemma_name_stays(lines, (i + 1) as nat, j);
    }
    assert forall|i: int|
        0 <= i <= j && (i == 0 || assembler::kind(lines[i - 1]) is Instruction)
            && #[trigger] nothing_between(lines, i, j as int) implies name_so_far(
        lines,
        j,
    ) is None by {
        lemma_name_stays(lines, i as nat, j);
    }
}

/// Whether the lines from `i` up to `j` hold neither a label nor an instruction.
pub open spec fn nothing_between(lines: Seq<Seq<char>>, i: int, j: int) -> bool {
    forall|m: int|
        i <= m < j ==> !(assembler::kind(#[trigger] lines[m]) is Label) && !(assembler::kind(
            lines[m],
        ) is Instruction)
}

/// A name waits for the next instruction.
proof fn lemma_name_stays(lines: Seq<Seq<char>>, i: nat, j: nat)
    requires
        i <= j,
        nothing_between(lines, i as int, j as int),
    ensures
        name_so_far(lines, j) == name_so_far(lines, i),
    decreases j,
{
    if i < j {
        assert(!(assembler::kind(lines[j - 1]) is Label));
        lemma_name_stays(lines, i, (j - 1) as nat);
    }
}

/// The names that the first pass collects.
proof fn lemma_names(lines: Seq<Seq<char>>, n: nat, j: nat)
    requires
        assembler::survey(lines, n) is Ok,
        j <= n,
    ensures
        ({
            let l = assembler::survey(lines, n)->Ok_0;
            &&& l.names.len() == instructions_before(lines, n)
            &&& l.pending == name_so_far(lines, n)
            &&& j < n && assembler::kind(lines[j as int]) is Instruction ==> {
                &&& instructions_before(lines, j) < l.names.len()
                &&& l.names[instructions_before(lines, j) as int] == name_so_far(lines, j)
            }
        }),
    decreases n,
{
    if n > 0 {
        let m = (n - 1) as nat;
        assert(assembler::survey(lines, m) is Ok);
        if j < n {
            lemma_names(lines, m, j);
        } else {
            lemma_names(lines, m, m);
        }
    }
}

/// The instruction on a line of an assembled program: it stands at the address
/// that is the number of instructions before it, it is what the line encodes, and
/// the line table gives its line. There is no other instruction.
pub proof fn every_instruction_line_is_assembled(src: Seq<char>, j: int)
    ensures
        assembler::assembled(src) matches Ok(p) ==> {
            let lines = text::lines(src);
            &&& p.image.code.len() == instructions_before(lines, lines.len())
            &&& 0 <= j < lines.len() ==> (assembler::kind(lines[j]) matches Kind::Instruction(c)
                ==> {
                let a = instructions_before(lines, j as nat) as int;
                let l = assembler::survey(lines, lines.len())->Ok_0;
                &&& a < p.image.code.len()
                &&& assembler::encoded(c, l.labels, p.image.code.len()) == Ok::<Op, Seq<char>>(
                    p.image.code[a],
                )
                &&& lines.len() <= u32::MAX ==> p.image.lines[a] == j + 1
            })
        },
{
    let lines = text::lines(src);
    if assembler::assembled(src) is Ok {
        let l = assembler::survey(lines, lines.len())->Ok_0;
        lemma_names(lines, lines.len(), 0);
        if 0 <= j < lines.len() {
            lemma_encoded_lines(lines, lines.len(), l, j as nat);
        } else {
            lemma_encoded_lines(lines, lines.len(), l, lines.len());
        }
    }
}

/// The instructions that the second pass collects.
proof fn lemma_encoded_lines(lines: Seq<Seq<char>>, n: nat, l: Layout, j: nat)
    requires
        assembler::encode(lines, n, l) is Ok,
        j <= n,
    ensures
        ({
            let done = assembler::encode(lines, n, l)->Ok_0;
            &&& done.code.len() == done.lines.len() == instructions_before(lines, n)
            &&& j < n ==> (assembler::kind(lines[j as int]) matches Kind::Instruction(c) ==> {
                let a = instructions_before(lines, j) as int;
                &&& a < done.code.len()
                &&& assembler::encoded(c, l.labels, l.names.len()) == Ok::<Op, Seq<char>>(
                    done.code[a],
                )
                &&& done.lines[a] == (j + 1) as u32
            })
        }),
    decreases n,
{
    if n > 0 {
        let m = (n - 1) as nat;
        assert(assembler::encode(lines, m, l) is Ok);
        if j < n {
            lemma_encoded_lines(lines, m, l, j);
        } else {
            lemma_encoded_lines(lines, m, l, m);
        }
        if j < m {
            lemma_count_grows(lines, j, m);
        }
    }
}

/// Whether a line is a size directive of this name with this value.
pub open spec fn asks_for(line: Seq<char>, name: Seq<char>, v: nat) -> bool {
    &&& assembler::kind(line) matches Kind::Directive(rest)
    &&& text::words(rest).len() >= 2
    &&& text::words(rest)[0] == name
    &&& text::parsed(text::words(rest)[1], usize::MAX as nat) == Some(v)
}

/// Whether a line is a directive of this name.
pub open spec fn directs(line: Seq<char>, name: Seq<char>) -> bool {
    &&& assembler::kind(line) matches Kind::Directive(rest)
    &&& text::words(rest).len() >= 1
    &&& text::words(rest)[0] == name
}

/// The size directives set the sizes of the program: `.globals` the number of
/// globals, 16 without it, and `.memory` the number of memory cells, 64 without
/// it.
pub proof fn directives_set_the_sizes(src: Seq<char>, k: int, v: nat)
    requires
        0 <= k < text::lines(src).len(),
    ensures
        assembler::assembled(src) matches Ok(p) ==> {
            let lines = text::lines(src);
            &&& asks_for(lines[k], "globals"@, v) ==> p.globals == v
            &&& asks_for(lines[k], "memory"@, v) ==> p.memory == v
            &&& (forall|i: int| 0 <= i < lines.len() ==> !directs(#[trigger] lines[i], "globals"@))
                ==> p.globals == 16
            &&& (forall|i: int| 0 <= i < lines.len() ==> !directs(#[trigger] lines[i], "memory"@))
                ==> p.memory == 64
        },
{
    let lines = text::lines(src);
    if assembler::assembled(src) is Ok {
        lemma_sizes(lines, lines.len(), k, v);
    }
}

/// The sizes that the first pass collects.
proof fn lemma_sizes(lines: Seq<Seq<char>>, n: nat, k: int, v: nat)
    requires
        assembler::survey(lines, n) is Ok,
    ensures
        ({
            let l = assembler::survey(lines, n)->Ok_0;
            &&& 0 <= k < n && asks_for(lines[k], "globals"@, v) ==> l.globals == Some(v)
            &&& 0 <= k < n && asks_for(lines[k], "memory"@, v) ==> l.memory == Some(v)
            &&& (forall|i: int| 0 <= i < n ==> !directs(#[trigger] lines[i], "globals"@))
                ==> l.globals is None
            &&& (forall|i: int| 0 <= i < n ==> !directs(#[trigger] lines[i], "memory"@))
                ==> l.memory is None
        }),
    decreases n,
{
    if n > 0 {
        let m = (n - 1) as nat;
        assert(assembler::survey(lines, m) is Ok);
        lemma_sizes(lines, m, k, v);
        reveal_strlit("globals");
        reveal_strlit("memory");
        assert("globals"@ != "memory"@) by {
            assert("globals"@.len() == 7 && "memory"@.len() == 6);
        }
        let before = assembler::survey(lines, m)->Ok_0;
        let l = assembler::survey(lines, n)->Ok_0;
        assert(directs(lines[n - 1], "globals"@) || l.globals == before.globals);
        assert(directs(lines[n - 1], "memory"@) || l.memory == before.memory);
    }
}

/// The text of a branch to a label.
pub open spec fn branch_text(name: Seq<char>, label: Seq<char>) -> Seq<char> {
    name + seq![' '] + label
}

/// A branch to a label goes to the address of the label.
pub proof fn branches_to_labels_are_resolved(
    labels: Seq<(Seq<char>, nat)>,
    count: nat,
    label: Seq<char>,
    a: usize,
)
    requires
        disassembly::solid(label),
        text::parsed(label, usize::MAX as nat) is None,
        assembler::address(labels, label) == Some(a as nat),
    ensures
        assembler::encoded(branch_text("jmp"@, label), labels, count) == Ok::<Op, Seq<char>>(
            Op::Jmp(a),
        ),
        assembler::encoded(branch_text("jz"@, label), labels, count) == Ok::<Op, Seq<char>>(
            Op::Jz(a),
        ),
        assembler::encoded(branch_text("jnz"@, label), labels, count) == Ok::<Op, Seq<char>>(
            Op::Jnz(a),
        ),
{
    lemma_branch_words(Op::Jmp(0), label);
    lemma_branch_words(Op::Jz(0), label);
    lemma_branch_words(Op::Jnz(0), label);
    disassembly::lemma_mnemonic_read(Op::Jmp(0), a);
    disassembly::lemma_mnemonic_read(Op::Jz(0), a);
    disassembly::lemma_mnemonic_read(Op::Jnz(0), a);
}

/// The words of a branch to a label.
proof fn lemma_branch_words(op: Op, label: Seq<char>)
    requires
        disassembly::solid(label),
    ensures
        text::words(branch_text(vm::mnemonic(op), label)) == seq![vm::mnemonic(op), label],
{
    let name = vm::mnemonic(op);
    disassembly::lemma_mnemonic_solid(op);
    scanning::words_are_split_at_white_space(name, seq![' '], label);
    scanning::words_are_split_at_white_space(label, seq![' '], label);
    assert(seq![name] + seq![label] =~= seq![name, label]);
}

/// A call to a label goes to the address of the label, with the counts of arguments
/// and locals that follow it.
pub proof fn calls_to_labels_are_resolved(
    labels: Seq<(Seq<char>, nat)>,
    count: nat,
    label: Seq<char>,
    a: usize,
    nargs: usize,
    nlocals: usize,
)
    requires
        disassembly::solid(label),
        text::parsed(label, usize::MAX as nat) is None,
        assembler::address(labels, label) == Some(a as nat),
    ensures
        assembler::encoded(
            branch_text("call"@, label) + seq![' '] + text::decimal(nargs as nat) + seq![' ']
                + text::decimal(nlocals as nat),
            labels,
            count,
        ) == Ok::<Op, Seq<char>>(Op::Call(a, nargs, nlocals)),
{
    let space = seq![' '];
    let first = branch_text("call"@, label);
    let x = text::decimal(nargs as nat);
    let y = text::decimal(nlocals as nat);
    let all = first + space + x + space + y;
    lemma_branch_words(Op::Call(0, 0, 0), label);
    disassembly::decimal_denotes_its_number(nargs as nat);
    disassembly::decimal_denotes_its_number(nlocals as nat);
    disassembly::parsing_inverts_decimal(nargs as nat, usize::MAX as nat);
    disassembly::parsing_inverts_decimal(nlocals as nat, usize::MAX as nat);
    scanning::words_are_split_at_white_space(first + space + x, space, y);
    scanning::words_are_split_at_white_space(first, space, x);
    scanning::words_are_split_at_white_space(x, space, x);
    scanning::words_are_split_at_white_space(y, space, y);
    assert(text::words(all) =~= seq!["call"@, label, x, y]);
    disassembly::lemma_mnemonic_read(Op::Call(0, 0, 0), 0);
}

/// Whether a word names a branch target: an address in the program or just past
/// its end, or else a label.
pub open spec fn names_target(
    word: Seq<char>,
    labels: Seq<(Seq<char>, nat)>,
    count: nat,
    t: usize,
) -> bool {
    match text::parsed(word, usize::MAX as nat) {
        Some(n) => n == t && n <= count,
        None => assembler::address(labels, word) matches Some(n) && t == n as usize,
    }
}

/// What a line encodes is what it says: its first word is the mnemonic of the
/// instruction, and the operands are the words after it.
pub proof fn instructions_are_what_their_words_say(
    c: Seq<char>,
    labels: Seq<(Seq<char>, nat)>,
    count: nat,
)
    ensures
        assembler::encoded(c, labels, count) matches Ok(op) ==> {
            let words = text::words(c);
            &&& words.len() > 0
            &&& words[0] == vm::mnemonic(op)
            &&& op matches Op::Push(v) ==> words.len() > 1 && text::parsed_signed(words[1]) == Some(
                v,
            )
            &&& match op {
                Op::Load(n) | Op::Store(n) | Op::LoadG(n) | Op::StoreG(n) => words.len() > 1
                    && text::parsed(words[1], usize::MAX as nat) == Some(n as nat),
                Op::Jmp(t) | Op::Jz(t) | Op::Jnz(t) => words.len() > 1 && names_target(
                    words[1],
                    labels,
                    count,
                    t,
                ),
                Op::Call(t, nargs, nlocals) => {
                    &&& words.len() > 3
                    &&& names_target(words[1], labels, count, t)
                    &&& text::parsed(words[2], usize::MAX as nat) == Some(nargs as nat)
                    &&& text::parsed(words[3], usize::MAX as nat) == Some(nlocals as nat)
                },
                _ => true,
            }
        },
{
    let words = text::words(c);
    if let Ok(op) = assembler::encoded(c, labels, count) {
        if words.len() == 0 {
            lemma_no_mnemonic();
        }
    }
}

/// No instruction has the empty mnemonic.
proof fn lemma_no_mnemonic()
    ensures
        assembler::plain_op(Seq::empty()) is None,
        assembler::slot_op(Seq::empty(), 0) is None,
        assembler::jump_op(Seq::empty(), 0) is None,
        Seq::<char>::empty() != "push"@,
        Seq::<char>::empty() != "call"@,
{
    disassembly::lemma_mnemonic_letters();
}

/// What holds of every text that assembles: there is an instruction; labels have
/// names that are no numbers, and no two labels have the same; every directive is
/// a size directive with a number within the limit, and there is at most one of
/// each.
pub proof fn assembled_texts_keep_the_rules(src: Seq<char>)
    ensures
        assembler::assembled(src) is Ok ==> {
            let lines = text::lines(src);
            &&& exists|j: int|
                0 <= j < lines.len() && assembler::kind(#[trigger] lines[j]) is Instruction
            &&& forall|i: int|
                0 <= i < lines.len() ==> (assembler::kind(#[trigger] lines[i]) matches Kind::Label(
                    name,
                ) ==> name.len() > 0 && text::parsed(name, usize::MAX as nat) is None)
            &&& forall|i: int, j: int|
                0 <= i < j < lines.len() && assembler::kind(#[trigger] lines[i]) is Label
                    ==> assembler::kind(lines[i]) != assembler::kind(#[trigger] lines[j])
            &&& forall|i: int|
                0 <= i < lines.len() && assembler::kind(#[trigger] lines[i]) is Directive
                    ==> sizes(lines[i])
            &&& forall|i: int, j: int|
                0 <= i < j < lines.len() ==> !(directs(#[trigger] lines[i], "globals"@) && directs(
                    #[trigger] lines[j],
                    "globals"@,
                )) && !(directs(lines[i], "memory"@) && directs(lines[j], "memory"@))
        },
{
    let lines = text::lines(src);
    if assembler::assembled(src) is Ok {
        let n = lines.len();
        let l = assembler::survey(lines, n)->Ok_0;
        lemma_encoded_lines(lines, n, l, n);
        lemma_some_instruction(lines, n);
        assert forall|i: int| 0 <= i < n implies (assembler::kind(
            #[trigger] lines[i],
        ) matches Kind::Label(name) ==> name.len() > 0 && text::parsed(
            name,
            usize::MAX as nat,
        ) is None) && (assembler::kind(lines[i]) is Directive ==> sizes(lines[i])) by {
            lemma_rules(lines, n, i, n as int);
        }
        assert forall|i: int, j: int|
            0 <= i < j < n && assembler::kind(#[trigger] lines[i]) is Label implies assembler::kind(
            lines[i],
        ) != assembler::kind(#[trigger] lines[j]) by {
            lemma_rules(lines, n, i, j);
        }
        assert forall|i: int, j: int| 0 <= i < j < n implies !(directs(
            #[trigger] lines[i],
            "globals"@,
        ) && directs(#[trigger] lines[j], "globals"@)) && !(directs(lines[i], "memory"@) && directs(
            lines[j],
            "memory"@,
        )) by {
            lemma_rules(lines, n, i, j);
        }
    }
}

/// Whether a line is a size directive with a number of at most 1048576.
pub open spec fn sizes(line: Seq<char>) -> bool {
    exists|v: nat| #[trigger] sizes_to(line, v)
}

/// Whether a line is a size directive with this number, which is at most 1048576.
pub open spec fn sizes_to(line: Seq<char>, v: nat) -> bool {
    &&& v <= 1_048_576
    &&& asks_for(line, "globals"@, v) || asks_for(line, "memory"@, v)
}

/// A count above zero has counted something.
proof fn lemma_some_instruction(lines: Seq<Seq<char>>, n: nat)
    requires
        instructions_before(lines, n) > 0,
    ensures
        exists|j: int| 0 <= j < n && assembler::kind(#[trigger] lines[j]) is Instruction,
    decreases n,
{
    if !(assembler::kind(lines[n - 1]) is Instruction) {
        lemma_some_instruction(lines, (n - 1) as nat);
        let j = choose|j: int|
            0 <= j < n - 1 && assembler::kind(#[trigger] lines[j]) is Instruction;
        assert(0 <= j < n && assembler::kind(lines[j]) is Instruction);
    } else {
        assert(assembler::kind(lines[n - 1]) is Instruction);
    }
}

/// The rules that the first pass keeps, for a line and a later one.
proof fn lemma_rules(lines: Seq<Seq<char>>, n: nat, i: int, j: int)
    requires
        assembler::survey(lines, n) is Ok,
        0 <= i < n,
        i < j,
    ensures
        assembler::kind(lines[i]) matches Kind::Label(name) ==> name.len() > 0 && text::parsed(
            name,
            usize::MAX as nat,
        ) is None,
        assembler::kind(lines[i]) is Directive ==> sizes(lines[i]),
        directs(lines[i], "globals"@) ==> (assembler::survey(lines, n)->Ok_0).globals is Some,
        directs(lines[i], "memory"@) ==> (assembler::survey(lines, n)->Ok_0).memory is Some,
        j < n && assembler::kind(lines[i]) is Label ==> assembler::kind(lines[i])
            != assembler::kind(lines[j]),
        j < n && directs(lines[i], "globals"@) ==> !directs(lines[j], "globals"@),
        j < n && directs(lines[i], "memory"@) ==> !directs(lines[j], "memory"@),
    decreases n,
{
    let m = (n - 1) as nat;
    assert(assembler::survey(lines, m) is Ok);
    let before = assembler::survey(lines, m)->Ok_0;
    reveal_strlit("globals");
    reveal_strlit("memory");
    assert("globals"@ != "memory"@) by {
        assert("globals"@.len() == 7 && "memory"@.len() == 6);
    }
    if i < m {
        lemma_rules(lines, m, i, j);
        if let Kind::Label(name) = assembler::kind(lines[i]) {
            labels_stand_for_the_next_instruction(lines, m, name);
            assert(assembler::address(before.labels, name) is Some);
        }
    } else {
        if let Kind::Directive(rest) = assembler::kind(lines[i]) {
            let words = text::words(rest);
            let l = assembler::survey(lines, n)->Ok_0;
            assert(words.len() >= 2) by {
                if words.len() == 0 {
                    assert("globals"@.len() == 7 && "memory"@.len() == 6);
                }
            }
            let v = text::parsed(words[1], usize::MAX as nat)->0;
            assert(asks_for(lines[i], "globals"@, v) || asks_for(lines[i], "memory"@, v));
            assert(sizes_to(lines[i], v));
        }
    }
}

/// A fault is reported on the line where it is. The first line that the first pass
/// cannot go past is reported before any that only the second cannot; of these the
/// first is reported.
pub proof fn faults_are_reported_on_their_line(src: Seq<char>, k: nat)
    requires
        k < text::lines(src).len() < u32::MAX,
    ensures
        ({
            let lines = text::lines(src);
            let line = lines[k as int];
            &&& assembler::survey(lines, k) matches Ok(l) ==> (assembler::surveyed(
                l,
                line,
            ) matches Err(m) ==> (assembler::assembled(src) matches Err(f) && f.line == k + 1
                && f.message == m))
            &&& assembler::survey(lines, lines.len()) matches Ok(l) ==> (assembler::encode(
                lines,
                k,
                l,
            ) is Ok ==> (assembler::kind(line) matches Kind::Instruction(c) ==> (
            assembler::encoded(c, l.labels, l.names.len()) matches Err(m) ==> (assembler::assembled(
                src,
            ) matches Err(f) && f.line == k + 1 && f.message == m))))
        }),
{
    let lines = text::lines(src);
    if assembler::survey(lines, k + 1) is Err {
        assembler::lemma_survey_fault(lines, k + 1, lines.len());
    }
    if let Ok(l) = assembler::survey(lines, lines.len()) {
        if assembler::encode(lines, k + 1, l) is Err {
            assembler::lemma_encode_fault(lines, k + 1, lines.len(), l);
        }
    }
}

/// Whether the words of a line say an instruction: the mnemonic first, then the
/// operands.
pub open spec fn says(
    c: Seq<char>,
    op: Op,
    labels: Seq<(Seq<char>, nat)>,
    count: nat,
) -> bool {
    let words = text::words(c);
    &&& words.len() > 0
    &&& words[0] == vm::mnemonic(op)
    &&& match op {
        Op::Push(v) => words.len() > 1 && text::parsed_signed(words[1]) == Some(v),
        Op::Load(n) | Op::Store(n) | Op::LoadG(n) | Op::StoreG(n) => words.len() > 1
            && text::parsed(words[1], usize::MAX as nat) == Some(n as nat),
        Op::Jmp(t) | Op::Jz(t) | Op::Jnz(t) => words.len() > 1 && names_target(
            words[1],
            labels,
            count,
            t,
        ),
        Op::Call(t, nargs, nlocals) => {
            &&& words.len() > 3
            &&& names_target(words[1], labels, count, t)
            &&& text::parsed(words[2], usize::MAX as nat) == Some(nargs as nat)
            &&& text::parsed(words[3], usize::MAX as nat) == Some(nlocals as nat)
        },
        _ => true,
    }
}

/// A line encodes exactly the instruction that its words say, and is refused
/// exactly when they say none.
pub proof fn lines_encode_what_they_say(
    c: Seq<char>,
    op: Op,
    labels: Seq<(Seq<char>, nat)>,
    count: nat,
)
    ensures
        assembler::encoded(c, labels, count) == Ok::<Op, Seq<char>>(op) <==> says(
            c,
            op,
            labels,
            count,
        ),
{
    let words = text::words(c);
    instructions_are_what_their_words_say(c, labels, count);
    if says(c, op, labels, count) {
        disassembly::lemma_mnemonic_read(op, 0);
        match op {
            Op::Load(n) | Op::Store(n) | Op::LoadG(n) | Op::StoreG(n) | Op::Jmp(n) | Op::Jz(n)
            | Op::Jnz(n) => {
                disassembly::lemma_mnemonic_read(op, n);
            },
            _ => {},
        }
    }
}

/// Whether the first `n` lines keep the rules of labels and directives.
pub open spec fn orderly(lines: Seq<Seq<char>>, n: nat) -> bool {
    &&& forall|i: int|
        0 <= i < n ==> (assembler::kind(#[trigger] lines[i]) matches Kind::Label(name)
            ==> name.len() > 0 && text::parsed(name, usize::MAX as nat) is None)
    &&& forall|i: int, j: int|
        0 <= i < j < n && assembler::kind(#[trigger] lines[i]) is Label ==> assembler::kind(
            lines[i],
        ) != assembler::kind(#[trigger] lines[j])
    &&& forall|i: int|
        0 <= i < n && assembler::kind(#[trigger] lines[i]) is Directive ==> sizes(lines[i])
    &&& forall|i: int, j: int|
        0 <= i < j < n ==> !(directs(#[trigger] lines[i], "globals"@) && directs(
            #[trigger] lines[j],
            "globals"@,
        )) && !(directs(lines[i], "memory"@) && directs(lines[j], "memory"@))
}

/// Lines that keep the rules pass the first pass.
proof fn lemma_orderly(lines: Seq<Seq<char>>, n: nat)
    requires
        orderly(lines, n),
    ensures
        assembler::survey(lines, n) is Ok,
    decreases n,
{
    if n > 0 {
        let m = (n - 1) as nat;
        let line = lines[n - 1];
        lemma_orderly(lines, m);
        let before = assembler::survey(lines, m)->Ok_0;
        lemma_sizes(lines, m, 0, 0);
        reveal_strlit("globals");
        reveal_strlit("memory");
        assert("globals"@ != "memory"@) by {
            assert("globals"@.len() == 7 && "memory"@.len() == 6);
        }
        match assembler::kind(line) {
            Kind::Label(name) => {
                labels_stand_for_the_next_instruction(lines, m, name);
                if assembler::address(before.labels, name) is Some {
                    let k = choose|k: int|
                        0 <= k < m && assembler::kind(#[trigger] lines[k]) == Kind::Label(name);
                    assert(assembler::kind(lines[k]) != assembler::kind(lines[n - 1]));
                }
            },
            Kind::Directive(rest) => {
                let v = choose|v: nat| #[trigger] sizes_to(line, v);
                assert(directs(line, "globals"@) ==> before.globals is None) by {
                    if directs(line, "globals"@) {
                        assert forall|i: int| 0 <= i < m implies !directs(
                            #[trigger] lines[i],
                            "globals"@,
                        ) by {
                            assert(!(directs(lines[i], "globals"@) && directs(
                                lines[n - 1],
                                "globals"@,
                            )));
                        }
                    }
                }
                assert(directs(line, "memory"@) ==> before.memory is None) by {
                    if directs(line, "memory"@) {
                        assert forall|i: int| 0 <= i < m implies !directs(
                            #[trigger] lines[i],
                            "memory"@,
                        ) by {
                            assert(!(directs(lines[i], "memory"@) && directs(
                                lines[n - 1],
                                "memory"@,
                            )));
                        }
                    }
                }
            },
            _ => {},
        }
    }
}

/// Every text that keeps the rules assembles: labels have names that are no
/// numbers, each one once; directives give sizes within the limit, each one once;
/// there is an instruction, and every line with an instruction says one.
pub proof fn texts_that_keep_the_rules_assemble(src: Seq<char>)
    requires
        orderly(text::lines(src), text::lines(src).len()),
        exists|j: int|
            0 <= j < text::lines(src).len() && assembler::kind(
                #[trigger] text::lines(src)[j],
            ) is Instruction,
        ({
            let lines = text::lines(src);
            let l = assembler::survey(lines, lines.len())->Ok_0;
            forall|j: int|
                0 <= j < lines.len() ==> (assembler::kind(
                    #[trigger] lines[j],
                ) matches Kind::Instruction(c) ==> exists|op: Op| #[trigger]
                    says(c, op, l.labels, instructions_before(lines, lines.len())))
        }),
    ensures
        assembler::assembled(src) is Ok,
{
    let lines = text::lines(src);
    let n = lines.len();
    lemma_orderly(lines, n);
    lemma_names(lines, n, 0);
    let l = assembler::survey(lines, n)->Ok_0;
    lemma_all_encode(lines, n, l, l.names.len());
    lemma_encoded_lines(lines, n, l, n);
    let j = choose|j: int|
        0 <= j < lines.len() && assembler::kind(#[trigger] lines[j]) is Instruction;
    lemma_count_grows(lines, j as nat, n);
}

/// Lines whose words say instructions pass the second pass.
proof fn lemma_all_encode(lines: Seq<Seq<char>>, n: nat, l: Layout, count: nat)
    requires
        n <= lines.len(),
        count == l.names.len(),
        forall|j: int|
            0 <= j < lines.len() ==> (assembler::kind(
                #[trigger] lines[j],
            ) matches Kind::Instruction(c) ==> exists|op: Op| #[trigger]
                says(c, op, l.labels, count)),
    ensures
        assembler::encode(lines, n, l) is Ok,
    decreases n,
{
    if n > 0 {
        lemma_all_encode(lines, (n - 1) as nat, l, count);
        if let Kind::Instruction(c) = assembler::kind(lines[n - 1]) {
            let op = choose|op: Op| #[trigger] says(c, op, l.labels, count);
            lines_encode_what_they_say(c, op, l.labels, count);
        }
    }
}

} // verus!
