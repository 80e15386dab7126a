//! How numbers are written and read, and how texts are split: the laws that the
//! assembler, the expressions and the commands rest on.

use crate::disassembly;
use crate::text;
use vstd::prelude::*;

verus! {

/// Whether a character is one of the ten digits.
pub open spec fn figure(c: char) -> bool {
    '0' as int <= c as int <= '9' as int
}

/// The digits are those of the numbers.
pub proof fn lemma_figure(c: char)
    ensures
        figure(c) == text::is_digit(c),
{
}

/// Whether a text is one or more digits.
pub open spec fn figures(s: Seq<char>) -> bool {
    s.len() > 0 && forall|i: int| 0 <= i < s.len() ==> figure(#[trigger] s[i])
}

/// A number is written with the ten digits: the last one is its remainder by ten,
/// and what comes before it writes the quotient. A number below ten is one digit.
/// A negative number is written as its opposite after a minus sign.
pub proof fn numbers_are_written_in_decimal(n: nat)
    ensures
        figures(text::decimal(n)),
        text::decimal(n).last() as int == '0' as int + n % 10,
        n < 10 ==> text::decimal(n).len() == 1,
        n >= 10 ==> text::decimal(n).drop_last() == text::decimal(n / 10),
        text::signed_decimal(n as int) == text::decimal(n),
        n > 0 ==> text::signed_decimal(-(n as int)) == seq!['-'] + text::decimal(n),
{
    disassembly::decimal_denotes_its_number(n);
    let s = text::decimal(n);
    assert forall|i: int| 0 <= i < s.len() implies figure(#[trigger] s[i]) by {
        assert(text::is_digit(s[i]));
        lemma_figure(s[i]);
    }
    if n >= 10 {
        assert(s.drop_last() =~= text::decimal(n / 10));
    }
}

/// Digits are read as what they write: one digit as its value, and one more digit
/// as ten times what came before and its value. What is above the largest number
/// that is asked for is not read.
pub proof fn numbers_are_read_digit_by_digit(s: Seq<char>, c: char, max: nat)
    requires
        figure(c),
    ensures
        ({
            let k = (c as int - '0' as int) as nat;
            &&& text::parsed(seq![c], max) == (if k <= max {
                Some(k)
            } else {
                None
            })
            &&& figures(s) ==> match text::parsed(s, max) {
                Some(n) => text::parsed(s.push(c), max) == (if n * 10 + k <= max {
                    Some(n * 10 + k)
                } else {
                    None
                }),
                None => text::parsed(s.push(c), max) is None,
            }
        }),
{
    let one = seq![c];
    reveal_with_fuel(text::number, 2);
    assert(one.drop_last() =~= Seq::empty());
    assert(text::is_number(one)) by {
        assert(text::is_digit(one[0]));
    }
    if figures(s) {
        let t = s.push(c);
        assert(figure(s[0]));
        assert(t.drop_last() =~= s);
        assert forall|i: int| 0 <= i < s.len() implies text::is_digit(#[trigger] s[i]) by {
            assert(figure(s[i]));
        }
        assert forall|i: int| 0 <= i < t.len() implies text::is_digit(#[trigger] t[i]) by {
            if i < s.len() {
                assert(text::is_digit(s[i]));
            }
        }
        assert(text::is_number(s) && text::is_number(t));
    }
}

/// A plus sign before digits changes nothing, a minus sign negates, and nothing
/// else is a number: neither the empty text nor a sign alone, nor any text with
/// another character after the first.
pub proof fn signs_and_other_characters(s: Seq<char>, max: nat)
    ensures
        figures(s) ==> text::parsed(seq!['+'] + s, max) == text::parsed(s, max),
        figures(s) ==> text::parsed_signed(seq!['+'] + s) == text::parsed_signed(s),
        figures(s) ==> text::parsed_signed(s) == (match text::parsed(s, i64::MAX as nat) {
            Some(n) => Some(n as i64),
            None => None,
        }),
        figures(s) ==> match text::parsed(s, 0x8000_0000_0000_0000) {
            Some(n) => text::parsed_signed(seq!['-'] + s) matches Some(v) && v == -n,
            None => text::parsed_signed(seq!['-'] + s) is None,
        },
        s.len() == 0 ==> text::parsed(s, max) is None && text::parsed_signed(s) is None,
        s == seq!['+'] || s == seq!['-'] ==> text::parsed(s, max) is None && text::parsed_signed(
            s,
        ) is None,
        forall|i: int|
            0 <= i < s.len() && !figure(#[trigger] s[i]) && (i > 0 || s[i] != '+')
                ==> text::parsed(s, max) is None,
        forall|i: int|
            0 <= i < s.len() && !figure(#[trigger] s[i]) && (i > 0 || s[i] != '+' && s[i] != '-')
                ==> text::parsed_signed(s) is None,
{
    let plus = seq!['+'] + s;
    let minus = seq!['-'] + s;
    assert(plus.skip(1) =~= s);
    assert(minus.skip(1) =~= s);
    if figures(s) {
        assert(figure(s[0]));
        assert(text::is_number(s)) by {
            assert forall|i: int| 0 <= i < s.len() implies text::is_digit(#[trigger] s[i]) by {
                assert(figure(s[i]));
            }
        }
    }
    assert forall|i: int|
        0 <= i < s.len() && !figure(#[trigger] s[i]) && (i > 0 || s[i] != '+') implies text::parsed(
        s,
        max,
    ) is None by {
        if s[0] == '+' {
            lemma_figure(s[i]);
            assert(s.skip(1)[i - 1] == s[i]);
            assert(!text::is_digit(s.skip(1)[i - 1]));
        } else {
            lemma_figure(s[i]);
            assert(!text::is_digit(s[i]));
        }
    }
    assert forall|i: int|
        0 <= i < s.len() && !figure(#[trigger] s[i]) && (i > 0 || s[i] != '+' && s[i]
            != '-') implies text::parsed_signed(s) is None by {
        if s[0] == '+' || s[0] == '-' {
            lemma_figure(s[i]);
            assert(s.skip(1)[i - 1] == s[i]);
            assert(!text::is_digit(s.skip(1)[i - 1]));
        } else {
            lemma_figure(s[i]);
            assert(!text::is_digit(s[i]));
        }
    }
}

/// Among the ASCII characters white space is the space, the tab, the line feed,
/// the carriage return, the vertical tab and the form feed.
pub proof fn white_space_in_ascii(c: char)
    requires
        (c as int) < 0x80,
    ensures
        text::white_space(c) <==> c == ' ' || c == '\t' || c == '\n' || c == '\r' || c as int == 0xb
            || c as int == 0xc,
{
}

/// Whether a text is nothing but white space.
pub open spec fn blank(s: Seq<char>) -> bool {
    forall|i: int| 0 <= i < s.len() ==> text::white_space(#[trigger] s[i])
}

/// Texts are split into words at white space: a text without white space is one
/// word, white space has none, and the words on both sides of white space are
/// those of the two sides.
pub proof fn words_are_split_at_white_space(a: Seq<char>, space: Seq<char>, b: Seq<char>)
    requires
        blank(space),
        space.len() > 0,
    ensures
        text::words(space).len() == 0,
        disassembly::solid(a) ==> text::words(a) == seq![a],
        text::words(a + space + b) == text::words(a) + text::words(b),
        text::words(Seq::empty()).len() == 0,
{
    let none = Seq::<char>::empty();
    assert(space + none =~= space);
    lemma_leading_blank(space, none);
    lemma_leading_blank(space, b);
    assert(a + space + b =~= a + (space + b));
    lemma_words_join(a, space + b);
    if disassembly::solid(a) {
        assert(a + none =~= a);
        lemma_word_whole(a, none);
        assert(!text::white_space(a[0]));
        assert(a.take(a.len() as int) =~= a);
        assert(a.skip(a.len() as int) =~= none);
        assert(text::words(a) =~= seq![a]);
    }
}

/// White space at the start has no words.
proof fn lemma_leading_blank(space: Seq<char>, rest: Seq<char>)
    requires
        blank(space),
    ensures
        text::words(space + rest) == text::words(rest),
    decreases space.len(),
{
    let all = space + rest;
    if space.len() == 0 {
        assert(all =~= rest);
    } else {
        let more = space.skip(1);
        assert(blank(more)) by {
            assert forall|i: int| 0 <= i < more.len() implies text::white_space(
                #[trigger] more[i],
            ) by {
                assert(more[i] == space[i + 1]);
            }
        }
        assert(all[0] == space[0]);
        assert(all.skip(1) =~= more + rest);
        lemma_leading_blank(more, rest);
    }
}

/// A word ends where white space comes.
proof fn lemma_word_whole(word: Seq<char>, rest: Seq<char>)
    requires
        forall|i: int| 0 <= i < word.len() ==> !text::white_space(#[trigger] word[i]),
        rest.len() == 0 || text::white_space(rest[0]),
    ensures
        text::word_length(word + rest) == word.len(),
    decreases word.len(),
{
    if word.len() == 0 {
        assert(word + rest =~= rest);
    } else {
        let more = word.skip(1);
        assert forall|i: int| 0 <= i < more.len() implies !text::white_space(
            #[trigger] more[i],
        ) by {
            assert(more[i] == word[i + 1]);
        }
        assert((word + rest)[0] == word[0]);
        assert((word + rest).skip(1) =~= more + rest);
        lemma_word_whole(more, rest);
    }
}

/// The words of a text are those of its parts, when it is put together at white
/// space.
proof fn lemma_words_join(a: Seq<char>, rest: Seq<char>)
    requires
        rest.len() == 0 || text::white_space(rest[0]),
    ensures
        text::words(a + rest) == text::words(a) + text::words(rest),
    decreases a.len(),
{
    let all = a + rest;
    if a.len() == 0 {
        assert(all =~= rest);
        assert(text::words(a) + text::words(rest) =~= text::words(rest));
    } else {
        assert(all[0] == a[0]);
        if text::white_space(a[0]) {
            assert(all.skip(1) =~= a.skip(1) + rest);
            lemma_words_join(a.skip(1), rest);
        } else {
            let n = text::word_length(a);
            text::lemma_word_length(a);
            lemma_word_same(a, rest);
            assert(all.take(n as int) =~= a.take(n as int));
            assert(all.skip(n as int) =~= a.skip(n as int) + rest);
            lemma_words_join(a.skip(n as int), rest);
            assert(text::words(all) =~= text::words(a) + text::words(rest));
        }
    }
}

/// The first word does not change when white space follows.
proof fn lemma_word_same(a: Seq<char>, rest: Seq<char>)
    requires
        rest.len() == 0 || text::white_space(rest[0]),
    ensures
        text::word_length(a + rest) == text::word_length(a),
    decreases a.len(),
{
    let all = a + rest;
    if a.len() == 0 {
        assert(all =~= rest);
    } else {
        assert(all[0] == a[0]);
        assert(all.skip(1) =~= a.skip(1) + rest);
        lemma_word_same(a.skip(1), rest);
    }
}

/// Trimming takes the white space at both ends away and nothing else.
pub proof fn trimming_takes_the_ends_away(before: Seq<char>, s: Seq<char>, after: Seq<char>)
    requires
        blank(before),
        blank(after),
        s.len() > 0 ==> !text::white_space(s[0]) && !text::white_space(s.last()),
    ensures
        text::trimmed(before + s + after) == s,
        s.len() > 0 ==> text::trimmed_start(before + s) == s,
        s.len() > 0 ==> text::trimmed_end(s + after) == s,
{
    assert(before + s + after =~= before + (s + after));
    text::lemma_trimmed_start(before, s + after);
    text::lemma_trimmed_start(before, s);
    if s.len() > 0 {
        assert((s + after)[0] == s[0]);
        lemma_trailing_blank(s, after);
    } else {
        let all = before + s + after;
        text::lemma_trimmed_blank(all);
        assert forall|i: int| 0 <= i < all.len() implies text::white_space(#[trigger] all[i]) by {
            if i < before.len() {
                assert(all[i] == before[i]);
            } else {
                assert(all[i] == after[i - before.len()]);
            }
        }
        assert(text::trimmed(all) =~= s);
    }
}

/// White space at the end is trimmed.
proof fn lemma_trailing_blank(s: Seq<char>, after: Seq<char>)
    requires
        blank(after),
        s.len() > 0,
        !text::white_space(s.last()),
    ensures
        text::trimmed_end(s + after) == s,
    decreases after.len(),
{
    let all = s + after;
    if after.len() == 0 {
        assert(all =~= s);
    } else {
        let less = after.drop_last();
        assert(blank(less)) by {
            assert forall|i: int| 0 <= i < less.len() implies text::white_space(
                #[trigger] less[i],
            ) by {
                assert(less[i] == after[i]);
            }
        }
        assert(all.last() == after.last());
        assert(text::white_space(after[after.len() - 1]));
        assert(all.drop_last() =~= s + less);
        lemma_trailing_blank(s, less);
    }
}

/// Texts are split into lines at line feeds: a text without line feeds is one
/// line, and each line feed ends one, with the carriage return before it if there
/// is one. What follows a line feed is split as it is by itself.
pub proof fn texts_are_split_at_line_feeds(line: Seq<char>, rest: Seq<char>)
    requires
        !line.contains('\n'),
    ensures
        line.len() > 0 ==> text::lines(line) == seq![line],
        text::lines(Seq::empty()).len() == 0,
        ({
            let short = if line.len() > 0 && line.last() == '\r' {
                line.drop_last()
            } else {
                line
            };
            text::lines(line + seq!['\n'] + rest) == seq![short] + text::lines(rest)
        }),
{
    text::lemma_one_line(line);
    text::lines_of_joined_texts(line + seq!['\n'], rest);
    if line.len() > 0 {
        assert forall|i: int| 0 <= i < line.len() implies #[trigger] line[i] != '\n' by {
            assert(line.contains(line[i]));
        }
        text::lemma_position_is(line, '\n', line.len());
    }
}

} // verus!
