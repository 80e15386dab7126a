//! The text of instructions is assembly: a program written out instruction by
//! instruction assembles to the same instructions.

use crate::assembler;
use crate::assembler::{Fault, Kind, Layout};
use crate::text;
use crate::vm;
use crate::vm::Op;
use vstd::prelude::*;

verus! {

/// Whether a text is a word: at least one character, and no white space.
pub open spec fn solid(word: Seq<char>) -> bool {
    word.len() > 0 && forall|i: int| 0 <= i < word.len() ==> !text::white_space(#[trigger] word[i])
}

/// A digit is the digit of its value.
proof fn lemma_digit(d: nat)
    requires
        d < 10,
    ensures
        text::is_digit(text::digit(d)),
        text::digit_value(text::digit(d)) == d,
{
}

/// The decimal digits of a number denote it.
pub proof fn decimal_denotes_its_number(n: nat)
    ensures
        text::is_number(text::decimal(n)),
        text::number(text::decimal(n)) == n,
        solid(text::decimal(n)),
    decreases n,
{
    let s = text::decimal(n);
    lemma_digit(n % 10);
    if n < 10 {
        assert(s.drop_last() =~= Seq::empty());
        reveal_with_fuel(text::number, 2);
    } else {
        decimal_denotes_its_number(n / 10);
        assert(s.drop_last() =~= text::decimal(n / 10));
        assert forall|i: int| 0 <= i < s.len() implies text::is_digit(#[trigger] s[i]) by {
            if i < s.len() - 1 {
                assert(s[i] == text::decimal(n / 10)[i]);
            }
        }
    }
    assert forall|i: int| 0 <= i < s.len() implies !text::white_space(#[trigger] s[i]) by {
        assert(text::is_digit(s[i]));
    }
}

/// Parsing takes back printing, for addresses and counts.
pub proof fn parsing_inverts_decimal(n: nat, max: nat)
    requires
        n <= max,
    ensures
        text::parsed(text::decimal(n), max) == Some(n),
{
    decimal_denotes_its_number(n);
    assert(text::is_digit(text::decimal(n)[0]));
}

/// Parsing takes back printing, for integers.
pub proof fn parsing_inverts_signed_decimal(v: i64)
    ensures
        text::parsed_signed(text::signed_decimal(v as int)) == Some(v),
        solid(text::signed_decimal(v as int)),
{
    let s = text::signed_decimal(v as int);
    if v < 0 {
        let digits = text::decimal((-v) as nat);
        decimal_denotes_its_number((-v) as nat);
        assert(s.skip(1) =~= digits);
        assert forall|i: int| 0 <= i < s.len() implies !text::white_space(#[trigger] s[i]) by {
            if i > 0 {
                assert(s[i] == digits[i - 1]);
            }
        }
    } else {
        decimal_denotes_its_number(v as nat);
        parsing_inverts_decimal(v as nat, i64::MAX as nat);
        assert(text::is_digit(s[0]));
    }
}

/// Words after spaces start with the first of them.
proof fn lemma_spaced_front(words: Seq<Seq<char>>)
    requires
        words.len() > 0,
    ensures
        vm::spaced(words) == seq![' '] + words[0] + vm::spaced(words.skip(1)),
    decreases words.len(),
{
    if words.len() == 1 {
        assert(words.drop_last() =~= Seq::empty());
        assert(words.skip(1) =~= Seq::empty());
        reveal_with_fuel(vm::spaced, 2);
        assert(vm::spaced(words) =~= seq![' '] + words[0] + vm::spaced(words.skip(1)));
    } else {
        lemma_spaced_front(words.drop_last());
        assert(words.drop_last().skip(1) =~= words.skip(1).drop_last());
        assert(vm::spaced(words) =~= seq![' '] + words[0] + vm::spaced(words.skip(1)));
    }
}

/// A word ends where white space comes.
proof fn lemma_word_ends(word: Seq<char>, rest: Seq<char>)
    requires
        forall|i: int| 0 <= i < word.len() ==> !text::white_space(#[trigger] word[i]),
        rest.len() == 0 || text::white_space(rest[0]),
    ensures
        text::word_length(word + rest) == word.len(),
    decreases word.len(),
{
    if word.len() == 0 {
        assert(word + rest =~= rest);
    } else {
        assert((word + rest).skip(1) =~= word.skip(1) + rest);
        lemma_word_ends(word.skip(1), rest);
    }
}

/// The words of a text made of words are those words.
proof fn lemma_words_of_spaced(first: Seq<char>, words: Seq<Seq<char>>)
    requires
        solid(first),
        forall|i: int| 0 <= i < words.len() ==> solid(#[trigger] words[i]),
    ensures
        text::words(first + vm::spaced(words)) == seq![first] + words,
    decreases words.len(),
{
    let rest = vm::spaced(words);
    let all = first + rest;
    if words.len() > 0 {
        lemma_spaced_front(words);
    }
    lemma_word_ends(first, rest);
    assert(all.take(first.len() as int) =~= first);
    assert(all.skip(first.len() as int) =~= rest);
    assert(all[0] == first[0]);
    if words.len() == 0 {
        assert(text::words(rest) =~= Seq::empty());
        assert(text::words(all) =~= seq![first] + words);
    } else {
        assert(rest[0] == ' ');
        assert(rest.skip(1) =~= words[0] + vm::spaced(words.skip(1)));
        lemma_words_of_spaced(words[0], words.skip(1));
        assert(text::words(rest) == text::words(rest.skip(1)));
        assert(seq![words[0]] + words.skip(1) =~= words);
    }
}

/// Whether a character is a lower-case letter, a digit, a minus sign or a space:
/// all that the text of an instruction is made of.
pub open spec fn ordinary(c: char) -> bool {
    0x61 <= c as u32 <= 0x7a || text::is_digit(c) || c == '-' || c == ' '
}

/// A mnemonic is made of lower-case letters.
pub proof fn lemma_mnemonic_solid(op: Op)
    ensures
        solid(vm::mnemonic(op)),
        0x61 <= vm::mnemonic(op)[0] as u32 <= 0x7a,
        forall|i: int| 0 <= i < vm::mnemonic(op).len() ==> ordinary(#[trigger] vm::mnemonic(op)[i]),
{
    reveal_strlit("push");
    reveal_strlit("pop");
    reveal_strlit("dup");
    reveal_strlit("add");
    reveal_strlit("sub");
    reveal_strlit("mul");
    reveal_strlit("div");
    reveal_strlit("mod");
    reveal_strlit("neg");
    reveal_strlit("lt");
    reveal_strlit("gt");
    reveal_strlit("le");
    reveal_strlit("ge");
    reveal_strlit("eq");
    reveal_strlit("ne");
    reveal_strlit("load");
    reveal_strlit("store");
    reveal_strlit("loadg");
    reveal_strlit("storeg");
    reveal_strlit("loadmem");
    reveal_strlit("storemem");
    reveal_strlit("jmp");
    reveal_strlit("jz");
    reveal_strlit("jnz");
    reveal_strlit("call");
    reveal_strlit("ret");
    reveal_strlit("print");
    reveal_strlit("halt");
}

/// How the mnemonics are spelled.
pub proof fn lemma_mnemonic_letters()
    ensures
        "push"@.len() == 4,
        "push"@[0] == 'p',
        "push"@[1] == 'u',
        "push"@[2] == 's',
        "push"@[3] == 'h',
        "pop"@.len() == 3,
        "pop"@[0] == 'p',
        "pop"@[1] == 'o',
        "pop"@[2] == 'p',
        "dup"@.len() == 3,
        "dup"@[0] == 'd',
        "dup"@[1] == 'u',
        "dup"@[2] == 'p',
        "add"@.len() == 3,
        "add"@[0] == 'a',
        "add"@[1] == 'd',
        "add"@[2] == 'd',
        "sub"@.len() == 3,
        "sub"@[0] == 's',
        "sub"@[1] == 'u',
        "sub"@[2] == 'b',
        "mul"@.len() == 3,
        "mul"@[0] == 'm',
        "mul"@[1] == 'u',
        "mul"@[2] == 'l',
        "div"@.len() == 3,
        "div"@[0] == 'd',
        "div"@[1] == 'i',
        "div"@[2] == 'v',
        "mod"@.len() == 3,
        "mod"@[0] == 'm',
        "mod"@[1] == 'o',
        "mod"@[2] == 'd',
        "neg"@.len() == 3,
        "neg"@[0] == 'n',
        "neg"@[1] == 'e',
        "neg"@[2] == 'g',
        "lt"@.len() == 2,
        "lt"@[0] == 'l',
        "lt"@[1] == 't',
        "gt"@.len() == 2,
        "gt"@[0] == 'g',
        "gt"@[1] == 't',
        "le"@.len() == 2,
        "le"@[0] == 'l',
        "le"@[1] == 'e',
        "ge"@.len() == 2,
        "ge"@[0] == 'g',
        "ge"@[1] == 'e',
        "eq"@.len() == 2,
        "eq"@[0] == 'e',
        "eq"@[1] == 'q',
        "ne"@.len() == 2,
        "ne"@[0] == 'n',
        "ne"@[1] == 'e',
        "load"@.len() == 4,
        "load"@[0] == 'l',
        "load"@[1] == 'o',
        "load"@[2] == 'a',
        "load"@[3] == 'd',
        "store"@.len() == 5,
        "store"@[0] == 's',
        "store"@[1] == 't',
        "store"@[2] == 'o',
        "store"@[3] == 'r',
        "store"@[4] == 'e',
        "loadg"@.len() == 5,
        "loadg"@[0] == 'l',
        "loadg"@[1] == 'o',
        "loadg"@[2] == 'a',
        "loadg"@[3] == 'd',
        "loadg"@[4] == 'g',
        "storeg"@.len() == 6,
        "storeg"@[0] == 's',
        "storeg"@[1] == 't',
        "storeg"@[2] == 'o',
        "storeg"@[3] == 'r',
        "storeg"@[4] == 'e',
        "storeg"@[5] == 'g',
        "loadmem"@.len() == 7,
        "loadmem"@[0] == 'l',
        "loadmem"@[1] == 'o',
        "loadmem"@[2] == 'a',
        "loadmem"@[3] == 'd',
        "loadmem"@[4] == 'm',
        "loadmem"@[5] == 'e',
        "loadmem"@[6] == 'm',
        "storemem"@.len() == 8,
        "storemem"@[0] == 's',
        "storemem"@[1] == 't',
        "storemem"@[2] == 'o',
        "storemem"@[3] == 'r',
        "storemem"@[4] == 'e',
        "storemem"@[5] == 'm',
        "storemem"@[6] == 'e',
        "storemem"@[7] == 'm',
        "jmp"@.len() == 3,
        "jmp"@[0] == 'j',
        "jmp"@[1] == 'm',
        "jmp"@[2] == 'p',
        "jz"@.len() == 2,
        "jz"@[0] == 'j',
        "jz"@[1] == 'z',
        "jnz"@.len() == 3,
        "jnz"@[0] == 'j',
        "jnz"@[1] == 'n',
        "jnz"@[2] == 'z',
        "call"@.len() == 4,
        "call"@[0] == 'c',
        "call"@[1] == 'a',
        "call"@[2] == 'l',
        "call"@[3] == 'l',
        "ret"@.len() == 3,
        "ret"@[0] == 'r',
        "ret"@[1] == 'e',
        "ret"@[2] == 't',
        "print"@.len() == 5,
        "print"@[0] == 'p',
        "print"@[1] == 'r',
        "print"@[2] == 'i',
        "print"@[3] == 'n',
        "print"@[4] == 't',
        "halt"@.len() == 4,
        "halt"@[0] == 'h',
        "halt"@[1] == 'a',
        "halt"@[2] == 'l',
        "halt"@[3] == 't',
{
    reveal_strlit("push");
    reveal_strlit("pop");
    reveal_strlit("dup");
    reveal_strlit("add");
    reveal_strlit("sub");
    reveal_strlit("mul");
    reveal_strlit("div");
    reveal_strlit("mod");
    reveal_strlit("neg");
    reveal_strlit("lt");
    reveal_strlit("gt");
    reveal_strlit("le");
    reveal_strlit("ge");
    reveal_strlit("eq");
    reveal_strlit("ne");
    reveal_strlit("load");
    reveal_strlit("store");
    reveal_strlit("loadg");
    reveal_strlit("storeg");
    reveal_strlit("loadmem");
    reveal_strlit("storemem");
    reveal_strlit("jmp");
    reveal_strlit("jz");
    reveal_strlit("jnz");
    reveal_strlit("call");
    reveal_strlit("ret");
    reveal_strlit("print");
    reveal_strlit("halt");
}

/// Each mnemonic is read as the instruction that it stands for.
pub proof fn lemma_mnemonic_read(op: Op, n: usize)
    ensures
        match op {
            Op::Push(_) => {
                &&& vm::mnemonic(op) == "push"@
                &&& assembler::plain_op(vm::mnemonic(op)) is None
            },
            Op::Load(_) | Op::Store(_) | Op::LoadG(_) | Op::StoreG(_) => {
                &&& assembler::plain_op(vm::mnemonic(op)) is None
                &&& vm::mnemonic(op) != "push"@
                &&& assembler::slot_op(vm::mnemonic(op), n) is Some
            },
            Op::Jmp(_) | Op::Jz(_) | Op::Jnz(_) => {
                &&& assembler::plain_op(vm::mnemonic(op)) is None
                &&& vm::mnemonic(op) != "push"@
                &&& assembler::slot_op(vm::mnemonic(op), n) is None
                &&& assembler::jump_op(vm::mnemonic(op), n) is Some
            },
            Op::Call(_, _, _) => {
                &&& vm::mnemonic(op) == "call"@
                &&& assembler::plain_op(vm::mnemonic(op)) is None
                &&& vm::mnemonic(op) != "push"@
                &&& assembler::slot_op(vm::mnemonic(op), n) is None
                &&& assembler::jump_op(vm::mnemonic(op), n) is None
            },
            _ => assembler::plain_op(vm::mnemonic(op)) == Some(op),
        },
        match op {
            Op::Load(_) => assembler::slot_op(vm::mnemonic(op), n) == Some(Op::Load(n)),
            Op::Store(_) => assembler::slot_op(vm::mnemonic(op), n) == Some(Op::Store(n)),
            Op::LoadG(_) => assembler::slot_op(vm::mnemonic(op), n) == Some(Op::LoadG(n)),
            Op::StoreG(_) => assembler::slot_op(vm::mnemonic(op), n) == Some(Op::StoreG(n)),
            Op::Jmp(_) => assembler::jump_op(vm::mnemonic(op), n) == Some(Op::Jmp(n)),
            Op::Jz(_) => assembler::jump_op(vm::mnemonic(op), n) == Some(Op::Jz(n)),
            Op::Jnz(_) => assembler::jump_op(vm::mnemonic(op), n) == Some(Op::Jnz(n)),
            _ => true,
        },
{
    lemma_mnemonic_letters();
}

/// The operands of an instruction are words that parse to the operands.
proof fn lemma_operands(op: Op)
    ensures
        forall|i: int|
            0 <= i < vm::operand_texts(op).len() ==> solid(#[trigger] vm::operand_texts(op)[i]),
{
    match op {
        Op::Push(v) => parsing_inverts_signed_decimal(v),
        Op::Load(n) | Op::Store(n) | Op::LoadG(n) | Op::StoreG(n) | Op::Jmp(n) | Op::Jz(n)
        | Op::Jnz(n) => decimal_denotes_its_number(n as nat),
        Op::Call(t, na, nl) => {
            decimal_denotes_its_number(t as nat);
            decimal_denotes_its_number(na as nat);
            decimal_denotes_its_number(nl as nat);
        },
        _ => {},
    }
}

/// The text of an instruction encodes that instruction, wherever its branch
/// target lies in the program or just past its end.
pub proof fn instruction_texts_encode_the_instruction(
    op: Op,
    labels: Seq<(Seq<char>, nat)>,
    count: nat,
)
    requires
        assembler::branch_target(op) matches Some(t) ==> t <= count,
    ensures
        assembler::encoded(vm::spelling(op), labels, count) == Ok::<Op, Seq<char>>(op),
{
    let args = vm::operand_texts(op);
    let words = text::words(vm::spelling(op));
    lemma_mnemonic_solid(op);
    lemma_operands(op);
    lemma_words_of_spaced(vm::mnemonic(op), args);
    assert(words =~= seq![vm::mnemonic(op)] + args);
    assert(words[0] == vm::mnemonic(op));
    assert(args.len() > 0 ==> words[1] == args[0]);
    lemma_mnemonic_read(op, 0);
    match op {
        Op::Push(v) => {
            parsing_inverts_signed_decimal(v);
        },
        Op::Load(n) | Op::Store(n) | Op::LoadG(n) | Op::StoreG(n) | Op::Jmp(n) | Op::Jz(n)
        | Op::Jnz(n) => {
            lemma_mnemonic_read(op, n);
            parsing_inverts_decimal(n as nat, usize::MAX as nat);
        },
        Op::Call(t, na, nl) => {
            assert(words[2] == args[1]);
            assert(words[3] == args[2]);
            parsing_inverts_decimal(t as nat, usize::MAX as nat);
            parsing_inverts_decimal(na as nat, usize::MAX as nat);
            parsing_inverts_decimal(nl as nat, usize::MAX as nat);
        },
        _ => {},
    }
}

/// A decimal number is made of ordinary characters.
proof fn lemma_decimal_ordinary(n: nat)
    ensures
        forall|i: int| 0 <= i < text::decimal(n).len() ==> ordinary(#[trigger] text::decimal(n)[i]),
{
    decimal_denotes_its_number(n);
    assert forall|i: int| 0 <= i < text::decimal(n).len() implies ordinary(
        #[trigger] text::decimal(n)[i],
    ) by {
        assert(text::is_digit(text::decimal(n)[i]));
    }
}

/// Words of ordinary characters make a text of ordinary characters that ends as
/// the last word does.
proof fn lemma_spaced_ordinary(words: Seq<Seq<char>>)
    requires
        forall|i: int| 0 <= i < words.len() ==> solid(#[trigger] words[i]),
        forall|i: int, j: int|
            0 <= i < words.len() && 0 <= j < words[i].len() ==> ordinary(#[trigger] words[i][j]),
    ensures
        forall|i: int|
            0 <= i < vm::spaced(words).len() ==> ordinary(#[trigger] vm::spaced(words)[i]),
        words.len() > 0 ==> vm::spaced(words).len() > 0 && vm::spaced(words).last()
            == words.last().last(),
    decreases words.len(),
{
    if words.len() > 0 {
        let front = words.drop_last();
        assert forall|i: int| 0 <= i < front.len() implies solid(#[trigger] front[i]) by {
            assert(front[i] == words[i]);
        }
        assert forall|i: int, j: int|
            0 <= i < front.len() && 0 <= j < front[i].len() implies ordinary(
            #[trigger] front[i][j],
        ) by {
            assert(front[i][j] == words[i][j]);
        }
        lemma_spaced_ordinary(front);
        let s = vm::spaced(words);
        let n = vm::spaced(front).len();
        let k = words.len() - 1;
        assert(solid(words[k]));
        assert forall|i: int| 0 <= i < s.len() implies ordinary(#[trigger] s[i]) by {
            if i < n {
                assert(s[i] == vm::spaced(front)[i]);
            } else if i > n {
                assert(s[i] == words[k][i - n - 1]);
            }
        }
    }
}

/// The text of an instruction: ordinary characters, a letter first and no space
/// last.
proof fn lemma_spelling(op: Op)
    ensures
        vm::spelling(op).len() > 0,
        0x61 <= vm::spelling(op)[0] as u32 <= 0x7a,
        !text::white_space(vm::spelling(op).last()),
        forall|i: int| 0 <= i < vm::spelling(op).len() ==> ordinary(#[trigger] vm::spelling(op)[i]),
{
    let args = vm::operand_texts(op);
    let s = vm::spelling(op);
    let name = vm::mnemonic(op);
    lemma_mnemonic_solid(op);
    lemma_operands(op);
    match op {
        Op::Push(v) => lemma_decimal_ordinary(if v < 0 {
            (-v) as nat
        } else {
            v as nat
        }),
        Op::Load(n) | Op::Store(n) | Op::LoadG(n) | Op::StoreG(n) | Op::Jmp(n) | Op::Jz(n)
        | Op::Jnz(n) => lemma_decimal_ordinary(n as nat),
        Op::Call(t, na, nl) => {
            lemma_decimal_ordinary(t as nat);
            lemma_decimal_ordinary(na as nat);
            lemma_decimal_ordinary(nl as nat);
        },
        _ => {},
    }
    lemma_spaced_ordinary(args);
    assert forall|i: int| 0 <= i < s.len() implies ordinary(#[trigger] s[i]) by {
        if i < name.len() {
            assert(s[i] == name[i]);
        } else {
            assert(s[i] == vm::spaced(args)[i - name.len()]);
        }
    }
    assert(s[0] == name[0]);
    if args.len() == 0 {
        assert(s =~= name);
    } else {
        assert(s.last() == args.last().last());
        assert(solid(args[args.len() - 1]));
    }
}

/// A character that does not occur is found nowhere.
proof fn lemma_position_absent(s: Seq<char>, c: char)
    requires
        forall|i: int| 0 <= i < s.len() ==> #[trigger] s[i] != c,
    ensures
        text::position(s, c) == s.len(),
    decreases s.len(),
{
    if s.len() > 0 {
        assert forall|i: int| 0 <= i < s.skip(1).len() implies #[trigger] s.skip(1)[i] != c by {
            assert(s.skip(1)[i] == s[i + 1]);
        }
        lemma_position_absent(s.skip(1), c);
    }
}

/// A line that holds the text of an instruction is an instruction line.
proof fn lemma_spelling_is_a_line(op: Op)
    ensures
        assembler::kind(vm::spelling(op)) == Kind::Instruction(vm::spelling(op)),
{
    let s = vm::spelling(op);
    lemma_spelling(op);
    assert forall|i: int| 0 <= i < s.len() implies #[trigger] s[i] != ';' by {
        assert(ordinary(s[i]));
    }
    lemma_position_absent(s, ';');
    assert(s.take(s.len() as int) =~= s);
    assert(ordinary(s[s.len() - 1]));
    assert(text::trimmed_start(s) == s);
    assert(text::trimmed_end(s) == s);
}

/// The source text of a program: the text of each instruction on a line of its
/// own.
pub open spec fn source_text(code: Seq<Op>) -> Seq<char>
    decreases code.len(),
{
    if code.len() == 0 {
        Seq::empty()
    } else {
        vm::spelling(code[0]) + seq!['\n'] + source_text(code.skip(1))
    }
}

/// The lines of the source text.
pub open spec fn source_lines(code: Seq<Op>) -> Seq<Seq<char>> {
    code.map_values(|op: Op| vm::spelling(op))
}

/// A line feed is found after a line that has none.
proof fn lemma_position_after(s: Seq<char>, rest: Seq<char>)
    requires
        forall|i: int| 0 <= i < s.len() ==> #[trigger] s[i] != '\n',
    ensures
        text::position(s + seq!['\n'] + rest, '\n') == s.len(),
    decreases s.len(),
{
    let all = s + seq!['\n'] + rest;
    if s.len() > 0 {
        assert forall|i: int| 0 <= i < s.skip(1).len() implies #[trigger] s.skip(1)[i] != '\n' by {
            assert(s.skip(1)[i] == s[i + 1]);
        }
        assert(all.skip(1) =~= s.skip(1) + seq!['\n'] + rest);
        lemma_position_after(s.skip(1), rest);
        assert(all[0] == s[0]);
    }
}

/// The source text splits into its lines.
proof fn lemma_source_lines(code: Seq<Op>)
    ensures
        text::lines(source_text(code)) == source_lines(code),
    decreases code.len(),
{
    if code.len() == 0 {
        assert(text::lines(source_text(code)) =~= source_lines(code));
    } else {
        let s = vm::spelling(code[0]);
        let rest = source_text(code.skip(1));
        let all = s + seq!['\n'] + rest;
        lemma_spelling(code[0]);
        assert forall|i: int| 0 <= i < s.len() implies #[trigger] s[i] != '\n' by {
            assert(ordinary(s[i]));
        }
        lemma_position_after(s, rest);
        assert(all.take(s.len() as int) =~= s);
        assert(all.skip(s.len() as int + 1) =~= rest);
        assert(ordinary(s[s.len() - 1]));
        assert(text::without_return(s) == s);
        lemma_source_lines(code.skip(1));
        assert(source_lines(code) =~= seq![s] + source_lines(code.skip(1)));
    }
}

/// The first pass over the source text finds instructions alone.
proof fn lemma_source_survey(code: Seq<Op>, n: nat)
    requires
        n <= code.len(),
    ensures
        assembler::survey(source_lines(code), n) == Ok::<Layout, Fault>(
            (Layout { names: Seq::new(n, |i: int| None::<Seq<char>>), ..assembler::unknown() }),
        ),
    decreases n,
{
    let names = Seq::new(n, |i: int| None::<Seq<char>>);
    if n == 0 {
        assert(names =~= Seq::empty());
    } else {
        lemma_source_survey(code, (n - 1) as nat);
        lemma_spelling_is_a_line(code[n - 1]);
        assert(source_lines(code)[n - 1] == vm::spelling(code[n - 1]));
        assert(Seq::new((n - 1) as nat, |i: int| None::<Seq<char>>).push(None) =~= names);
    }
}

/// The second pass over the source text gives the instructions back.
proof fn lemma_source_encode(code: Seq<Op>, n: nat, l: Layout)
    requires
        n <= code.len(),
        l.names.len() == code.len(),
        forall|a: int|
            0 <= a < code.len() ==> (assembler::branch_target(#[trigger] code[a]) matches Some(t)
                ==> t <= code.len()),
    ensures
        assembler::encode(source_lines(code), n, l) matches Ok(done) && {
            &&& done.code == code.take(n as int)
            &&& done.lines == Seq::new(n, |a: int| (a + 1) as u32)
        },
    decreases n,
{
    let numbers = Seq::new(n, |a: int| (a + 1) as u32);
    if n == 0 {
        assert(code.take(0) =~= Seq::empty());
        assert(numbers =~= Seq::empty());
    } else {
        lemma_source_encode(code, (n - 1) as nat, l);
        let op = code[n - 1];
        lemma_spelling_is_a_line(op);
        assert(source_lines(code)[n - 1] == vm::spelling(op));
        instruction_texts_encode_the_instruction(op, l.labels, code.len());
        assert(code.take(n - 1).push(op) =~= code.take(n as int));
        assert(Seq::new((n - 1) as nat, |a: int| (a + 1) as u32).push(n as u32) =~= numbers);
    }
}

/// A program written out instruction by instruction assembles to the same
/// instructions, as long as its branches stay within it or just past its end.
/// When the lines can be numbered in 32 bits, instruction `a` comes from line
/// `a + 1`.
pub proof fn written_programs_assemble_to_themselves(code: Seq<Op>)
    requires
        code.len() > 0,
        forall|a: int|
            0 <= a < code.len() ==> (assembler::branch_target(#[trigger] code[a]) matches Some(t)
                ==> t <= code.len()),
    ensures
        assembler::assembled(source_text(code)) matches Ok(p) && {
            &&& p.image.code == code
            &&& p.image.lines.len() == code.len()
            &&& code.len() <= u32::MAX ==> forall|a: int|
                0 <= a < code.len() ==> #[trigger] p.image.lines[a] == a + 1
        },
{
    lemma_source_lines(code);
    lemma_source_survey(code, code.len());
    let l = Layout {
        names: Seq::new(code.len(), |i: int| None::<Seq<char>>),
        ..assembler::unknown()
    };
    lemma_source_encode(code, code.len(), l);
    assert(code.take(code.len() as int) =~= code);
}

/// The instructions of an assembled program, written out one per line, assemble
/// to the same instructions on the lines 1, 2, and so on, as far as lines can be
/// numbered in 32 bits.
pub proof fn assembled_programs_can_be_written_out(src: Seq<char>)
    ensures
        assembler::assembled(src) matches Ok(p) ==> (assembler::assembled(
            source_text(p.image.code),
        ) matches Ok(q) && {
            &&& q.image.code == p.image.code
            &&& q.image.lines.len() == p.image.code.len()
            &&& p.image.code.len() <= u32::MAX ==> forall|a: int|
                0 <= a < p.image.code.len() ==> #[trigger] q.image.lines[a] == a + 1
        }),
{
    assembler::assembled_programs_are_well_formed(src);
    if let Ok(p) = assembler::assembled(src) {
        written_programs_assemble_to_themselves(p.image.code);
    }
}

} // verus!
