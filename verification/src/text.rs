//! Text helpers: decimal numbers, character classes, and splitting.

use vstd::prelude::*;
use vstd::slice::slice_subrange;

verus! {

/// `String::push` appends one character at the end.
pub assume_specification[ String::push ](s: &mut String, ch: char)
    ensures
        final(s)@ == old(s)@.push(ch),
;

/// Whether a character outside ASCII has the Unicode property `Alphabetic`.
pub uninterp spec fn unicode_alphabetic(c: char) -> bool;

/// Whether a character outside ASCII has one of the Unicode general categories
/// for numbers.
pub uninterp spec fn unicode_numeric(c: char) -> bool;

/// Whether `c` is an ASCII letter.
pub open spec fn ascii_letter(c: char) -> bool {
    0x41 <= c as u32 <= 0x5a || 0x61 <= c as u32 <= 0x7a
}

/// `char::is_alphabetic` holds of an ASCII character exactly when it is a
/// letter. Of other characters it is a function of the character alone, given by
/// the Unicode tables.
pub assume_specification[ char::is_alphabetic ](c: char) -> (b: bool)
    ensures
        b == (if c as u32 >= 0x80 {
            unicode_alphabetic(c)
        } else {
            ascii_letter(c)
        }),
;

/// `char::is_alphanumeric` holds of an ASCII character exactly when it is a
/// letter or a decimal digit. It holds of another character exactly when the
/// character is alphabetic or numeric.
pub assume_specification[ char::is_alphanumeric ](c: char) -> (b: bool)
    ensures
        b == (if c as u32 >= 0x80 {
            unicode_alphabetic(c) || unicode_numeric(c)
        } else {
            ascii_letter(c) || is_digit(c)
        }),
;

/// Whether a word may start with `c`.
pub open spec fn starts_word(c: char) -> bool {
    c == '_' || if c as u32 >= 0x80 {
        unicode_alphabetic(c)
    } else {
        ascii_letter(c)
    }
}

/// Whether a word may go on with `c`.
pub open spec fn continues_word(c: char) -> bool {
    c == '_' || if c as u32 >= 0x80 {
        unicode_alphabetic(c) || unicode_numeric(c)
    } else {
        ascii_letter(c) || is_digit(c)
    }
}

/// The decimal digit `d`, for `d` below ten.
pub open spec fn digit(d: nat) -> char {
    (('0' as u32) + d) as char
}

/// The decimal digits of `n`, most significant first, without leading zeros.
pub open spec fn decimal(n: nat) -> Seq<char>
    decreases n,
{
    if n < 10 {
        seq![digit(n)]
    } else {
        decimal(n / 10).push(digit(n % 10))
    }
}

/// The decimal notation of a signed number.
pub open spec fn signed_decimal(v: int) -> Seq<char> {
    if v < 0 {
        seq!['-'] + decimal((-v) as nat)
    } else {
        decimal(v as nat)
    }
}

/// Append the decimal notation of `n`.
pub fn push_decimal(out: &mut String, n: u64)
    ensures
        final(out)@ == old(out)@ + decimal(n as nat),
    decreases n,
{
    if n >= 10 {
        push_decimal(out, n / 10);
    }
    let d: u8 = (n % 10) as u8;
    let c: char = (48u8 + d) as char;
    out.push(c);
}

/// Append the decimal notation of `v`.
pub fn push_signed(out: &mut String, v: i64)
    ensures
        final(out)@ == old(out)@ + signed_decimal(v as int),
{
    if v < 0 {
        out.push('-');
        let magnitude: u64 = (-(v + 1)) as u64 + 1;
        push_decimal(out, magnitude);
    } else {
        push_decimal(out, v as u64);
    }
}

/// The characters of a string.
pub fn chars_of(s: &str) -> (chars: Vec<char>)
    ensures
        chars@ == s@,
{
    let mut chars: Vec<char> = Vec::new();
    for c in it: s.chars()
        invariant
            chars@ == s@.take(it.index() as int),
            it.seq() == s@,
    {
        chars.push(c);
    }
    chars
}

/// Whether `c` is white space: the characters with the Unicode property
/// `White_Space`.
pub open spec fn white_space(c: char) -> bool {
    let n = c as u32;
    ||| 0x9 <= n <= 0xd
    ||| n == 0x20
    ||| n == 0x85
    ||| n == 0xa0
    ||| n == 0x1680
    ||| 0x2000 <= n <= 0x200a
    ||| n == 0x2028
    ||| n == 0x2029
    ||| n == 0x202f
    ||| n == 0x205f
    ||| n == 0x3000
}

/// Whether `c` is white space.
pub fn is_white_space(c: char) -> (b: bool)
    ensures
        b == white_space(c),
{
    let n: u32 = c as u32;
    (0x9 <= n && n <= 0xd) || n == 0x20 || n == 0x85 || n == 0xa0 || n == 0x1680 || (0x2000 <= n
        && n <= 0x200a) || n == 0x2028 || n == 0x2029 || n == 0x202f || n == 0x205f || n == 0x3000
}

/// Whether `c` is a decimal digit.
pub open spec fn is_digit(c: char) -> bool {
    0x30 <= c as u32 <= 0x39
}

/// Whether `c` is a decimal digit.
pub fn is_decimal_digit(c: char) -> (b: bool)
    ensures
        b == is_digit(c),
{
    let n: u32 = c as u32;
    0x30 <= n && n <= 0x39
}

/// The value of a decimal digit.
pub open spec fn digit_value(c: char) -> nat {
    (c as u32 - 0x30) as nat
}

/// The number that a sequence of decimal digits denotes.
pub open spec fn number(digits: Seq<char>) -> nat
    decreases digits.len(),
{
    if digits.len() == 0 {
        0
    } else {
        number(digits.drop_last()) * 10 + digit_value(digits.last())
    }
}

/// Whether a text is one or more decimal digits.
pub open spec fn is_number(text: Seq<char>) -> bool {
    text.len() > 0 && forall|i: int| 0 <= i < text.len() ==> is_digit(#[trigger] text[i])
}

/// The number not above `max` that a text denotes: decimal digits, after a `+`
/// or not.
pub open spec fn parsed(text: Seq<char>, max: nat) -> Option<nat> {
    let digits = if text.len() > 0 && text[0] == '+' {
        text.skip(1)
    } else {
        text
    };
    if is_number(digits) && number(digits) <= max {
        Some(number(digits))
    } else {
        None
    }
}

/// The 64-bit integer that a text denotes: decimal digits, after a sign or not.
pub open spec fn parsed_signed(text: Seq<char>) -> Option<i64> {
    if text.len() > 0 && text[0] == '-' {
        let digits = text.skip(1);
        if is_number(digits) && -number(digits) >= i64::MIN {
            Some((-number(digits)) as i64)
        } else {
            None
        }
    } else {
        match parsed(text, i64::MAX as nat) {
            Some(n) => Some(n as i64),
            None => None,
        }
    }
}

/// The digits so far never denote more than all of them.
proof fn lemma_number_grows(digits: Seq<char>, k: int)
    requires
        0 <= k <= digits.len(),
    ensures
        number(digits.take(k)) <= number(digits),
    decreases digits.len() - k,
{
    if k < digits.len() {
        lemma_number_grows(digits, k + 1);
        assert(digits.take(k + 1).drop_last() =~= digits.take(k));
    } else {
        assert(digits.take(k) =~= digits);
    }
}

/// The number that decimal digits denote, when there is at least one and it is
/// not above `max`.
fn parse_digits(text: &[char], max: u64) -> (n: Option<u64>)
    ensures
        match n {
            Some(v) => is_number(text@) && v == number(text@) && v <= max,
            None => !is_number(text@) || number(text@) > max,
        },
{
    if text.len() == 0 {
        return None;
    }
    let mut v: u64 = 0;
    let mut i: usize = 0;
    while i < text.len()
        invariant
            i <= text.len(),
            v <= max,
            v == number(text@.take(i as int)),
            forall|k: int| 0 <= k < i ==> is_digit(#[trigger] text@[k]),
        decreases text.len() - i,
    {
        if !is_decimal_digit(text[i]) {
            assert(!is_digit(text@[i as int]));
            return None;
        }
        let d: u64 = (text[i] as u32 - 0x30) as u64;
        proof {
            assert(text@.take(i + 1).drop_last() =~= text@.take(i as int));
            lemma_number_grows(text@, i + 1);
        }
        if v > max / 10 || d > max - v * 10 {
            return None;
        }
        v = v * 10 + d;
        i += 1;
    }
    assert(text@.take(i as int) =~= text@);
    Some(v)
}

/// Parse an address or count: decimal digits, after a `+` or not.
pub fn parse_count(text: &[char], max: u64) -> (n: Option<u64>)
    ensures
        match n {
            Some(v) => parsed(text@, max as nat) == Some(v as nat),
            None => parsed(text@, max as nat) is None,
        },
{
    if text.len() > 0 && text[0] == '+' {
        let digits: &[char] = slice_subrange(text, 1, text.len());
        assert(digits@ =~= text@.skip(1));
        parse_digits(digits, max)
    } else {
        parse_digits(text, max)
    }
}

/// Parse a `usize`.
pub fn parse_usize(text: &[char]) -> (n: Option<usize>)
    ensures
        match n {
            Some(v) => parsed(text@, usize::MAX as nat) == Some(v as nat),
            None => parsed(text@, usize::MAX as nat) is None,
        },
{
    match parse_count(text, usize::MAX as u64) {
        Some(v) => Some(v as usize),
        None => None,
    }
}

/// Parse a `u32`.
pub fn parse_u32(text: &[char]) -> (n: Option<u32>)
    ensures
        match n {
            Some(v) => parsed(text@, u32::MAX as nat) == Some(v as nat),
            None => parsed(text@, u32::MAX as nat) is None,
        },
{
    match parse_count(text, u32::MAX as u64) {
        Some(v) => Some(v as u32),
        None => None,
    }
}

/// Parse an `i64`.
pub fn parse_i64(text: &[char]) -> (n: Option<i64>)
    ensures
        n == parsed_signed(text@),
{
    if text.len() > 0 && text[0] == '-' {
        let digits: &[char] = slice_subrange(text, 1, text.len());
        assert(digits@ =~= text@.skip(1));
        match parse_digits(digits, 0x8000_0000_0000_0000) {
            Some(v) => if v == 0x8000_0000_0000_0000 {
                Some(i64::MIN)
            } else {
                Some(-(v as i64))
            },
            None => None,
        }
    } else {
        match parse_count(text, i64::MAX as u64) {
            Some(v) => Some(v as i64),
            None => None,
        }
    }
}

/// The index of the first `c` in a text, its length when there is none.
pub open spec fn position(text: Seq<char>, c: char) -> nat
    decreases text.len(),
{
    if text.len() == 0 || text[0] == c {
        0
    } else {
        1 + position(text.skip(1), c)
    }
}

/// The index of the first `c` in a text, its length when there is none.
pub fn find_char(text: &[char], c: char) -> (n: usize)
    ensures
        n == position(text@, c),
        n <= text.len(),
{
    let mut i: usize = 0;
    assert(text@.skip(0) =~= text@);
    while i < text.len() && text[i] != c
        invariant
            i <= text.len(),
            position(text@, c) == i + position(text@.skip(i as int), c),
        decreases text.len() - i,
    {
        assert(text@.skip(i as int).skip(1) =~= text@.skip(i + 1));
        i += 1;
    }
    i
}

/// A text without the white space at its start.
pub open spec fn trimmed_start(text: Seq<char>) -> Seq<char>
    decreases text.len(),
{
    if text.len() > 0 && white_space(text[0]) {
        trimmed_start(text.skip(1))
    } else {
        text
    }
}

/// A text without the white space at its end.
pub open spec fn trimmed_end(text: Seq<char>) -> Seq<char>
    decreases text.len(),
{
    if text.len() > 0 && white_space(text.last()) {
        trimmed_end(text.drop_last())
    } else {
        text
    }
}

/// A text without the white space around it.
pub open spec fn trimmed(text: Seq<char>) -> Seq<char> {
    trimmed_end(trimmed_start(text))
}

/// A text without the white space at its start.
pub fn trim_start(text: &[char]) -> (r: &[char])
    ensures
        r@ == trimmed_start(text@),
{
    let mut i: usize = 0;
    assert(text@.skip(0) =~= text@);
    while i < text.len() && is_white_space(text[i])
        invariant
            i <= text.len(),
            trimmed_start(text@) == trimmed_start(text@.skip(i as int)),
        decreases text.len() - i,
    {
        assert(text@.skip(i as int).skip(1) =~= text@.skip(i + 1));
        i += 1;
    }
    assert(text@.subrange(i as int, text.len() as int) =~= text@.skip(i as int));
    slice_subrange(text, i, text.len())
}

/// A text without the white space at its end.
pub fn trim_end(text: &[char]) -> (r: &[char])
    ensures
        r@ == trimmed_end(text@),
{
    let mut n: usize = text.len();
    assert(text@.take(n as int) =~= text@);
    while n > 0 && is_white_space(text[n - 1])
        invariant
            n <= text.len(),
            trimmed_end(text@) == trimmed_end(text@.take(n as int)),
        decreases n,
    {
        assert(text@.take(n as int).drop_last() =~= text@.take(n - 1));
        n -= 1;
    }
    assert(text@.subrange(0, n as int) =~= text@.take(n as int));
    slice_subrange(text, 0, n)
}

/// A text without the white space around it.
pub fn trim(text: &[char]) -> (r: &[char])
    ensures
        r@ == trimmed(text@),
{
    trim_end(trim_start(text))
}

/// How many characters a text has before its first white space.
pub open spec fn word_length(text: Seq<char>) -> nat
    decreases text.len(),
{
    if text.len() == 0 || white_space(text[0]) {
        0
    } else {
        1 + word_length(text.skip(1))
    }
}

/// A word is no longer than its text.
pub proof fn lemma_word_length(text: Seq<char>)
    ensures
        word_length(text) <= text.len(),
        text.len() > 0 && !white_space(text[0]) ==> word_length(text) > 0,
    decreases text.len(),
{
    if text.len() > 0 && !white_space(text[0]) {
        lemma_word_length(text.skip(1));
    }
}

/// The words of a text: its longest pieces without white space.
pub open spec fn words(text: Seq<char>) -> Seq<Seq<char>>
    decreases text.len(),
{
    if text.len() == 0 {
        Seq::empty()
    } else if white_space(text[0]) {
        words(text.skip(1))
    } else {
        proof {
            lemma_word_length(text);
        }
        seq![text.take(word_length(text) as int)] + words(text.skip(word_length(text) as int))
    }
}

/// The contents of several pieces of text.
pub open spec fn pieces(parts: Seq<&[char]>) -> Seq<Seq<char>> {
    parts.map_values(|p: &[char]| p@)
}

/// Split a text into its words.
pub fn split_words(text: &[char]) -> (parts: Vec<&[char]>)
    ensures
        pieces(parts@) == words(text@),
{
    let mut parts: Vec<&[char]> = Vec::new();
    let mut i: usize = 0;
    assert(text@.skip(0) =~= text@);
    while i < text.len()
        invariant
            i <= text.len(),
            pieces(parts@) + words(text@.skip(i as int)) =~= words(text@),
        decreases text.len() - i,
    {
        let ghost rest = text@.skip(i as int);
        if is_white_space(text[i]) {
            i += 1;
            assert(rest.skip(1) =~= text@.skip(i as int));
        } else {
            let start: usize = i;
            while i < text.len() && !is_white_space(text[i])
                invariant
                    start <= i <= text.len(),
                    rest == text@.skip(start as int),
                    word_length(rest) == i - start + word_length(text@.skip(i as int)),
                decreases text.len() - i,
            {
                assert(text@.skip(i as int).skip(1) =~= text@.skip(i + 1));
                i += 1;
            }
            proof {
                lemma_word_length(rest);
                let n = word_length(rest) as int;
                assert(n == i - start);
                assert(text@.subrange(start as int, i as int) =~= rest.take(n));
                assert(rest.skip(n) =~= text@.skip(i as int));
            }
            let part: &[char] = slice_subrange(text, start, i);
            let ghost before = parts@;
            parts.push(part);
            assert(pieces(parts@) =~= pieces(before).push(part@));
        }
    }
    parts
}

/// The word `i`, if it is there.
pub open spec fn word(words: Seq<Seq<char>>, i: int) -> Option<Seq<char>> {
    if 0 <= i < words.len() {
        Some(words[i])
    } else {
        None
    }
}

/// The word `i`, if it is there.
pub fn nth_word<'a>(words: &Vec<&'a [char]>, i: usize) -> (w: Option<&'a [char]>)
    ensures
        word(pieces(words@), i as int) == (match w {
            Some(s) => Some(s@),
            None => None,
        }),
{
    if i < words.len() {
        Some(words[i])
    } else {
        None
    }
}

/// A line without the carriage return before its line feed.
pub open spec fn without_return(line: Seq<char>) -> Seq<char> {
    if line.len() > 0 && line.last() == '\r' {
        line.drop_last()
    } else {
        line
    }
}

/// The lines of a text. A line ends in a line feed, which may follow a carriage
/// return; the last line may lack its end.
pub open spec fn lines(text: Seq<char>) -> Seq<Seq<char>>
    decreases text.len(),
{
    let n = position(text, '\n');
    if text.len() == 0 {
        Seq::empty()
    } else if n < text.len() {
        seq![without_return(text.take(n as int))] + lines(text.skip(n as int + 1))
    } else {
        seq![text]
    }
}

/// What the position of a character says of a text.
pub proof fn lemma_position(text: Seq<char>, c: char)
    ensures
        position(text, c) <= text.len(),
        forall|i: int| 0 <= i < position(text, c) ==> #[trigger] text[i] != c,
        position(text, c) < text.len() ==> text[position(text, c) as int] == c,
    decreases text.len(),
{
    if text.len() > 0 && text[0] != c {
        let rest = text.skip(1);
        lemma_position(rest, c);
        assert forall|i: int| 0 <= i < position(text, c) implies #[trigger] text[i] != c by {
            if i > 0 {
                assert(rest[i - 1] == text[i]);
            }
        }
    }
}

/// The position of a character is the only index of which that can be said.
pub proof fn lemma_position_is(text: Seq<char>, c: char, n: nat)
    requires
        n <= text.len(),
        forall|i: int| 0 <= i < n ==> #[trigger] text[i] != c,
        n < text.len() ==> text[n as int] == c,
    ensures
        position(text, c) == n,
{
    lemma_position(text, c);
    let m = position(text, c);
    if m < n {
        assert(text[m as int] == c);
    }
}

/// The lines of a text that is put together at the end of a line are those of
/// its parts.
pub proof fn lines_of_joined_texts(before: Seq<char>, after: Seq<char>)
    requires
        before.len() > 0 ==> before.last() == '\n',
    ensures
        lines(before + after) == lines(before) + lines(after),
    decreases before.len(),
{
    let whole = before + after;
    if before.len() == 0 {
        assert(whole =~= after);
        assert(lines(before) + lines(after) =~= lines(after));
    } else {
        let n = position(before, '\n');
        lemma_position(before, '\n');
        assert(n < before.len());
        assert forall|i: int| 0 <= i < n implies #[trigger] whole[i] != '\n' by {
            assert(before[i] != '\n');
        }
        lemma_position_is(whole, '\n', n);
        let rest = before.skip(n as int + 1);
        lines_of_joined_texts(rest, after);
        assert(whole.take(n as int) =~= before.take(n as int));
        assert(whole.skip(n as int + 1) =~= rest + after);
        assert(lines(whole) =~= lines(before) + lines(after));
    }
}

/// A text without line feeds is one line once a line feed follows.
pub proof fn lemma_one_line(line: Seq<char>)
    requires
        !line.contains('\n'),
    ensures
        lines(line + seq!['\n']) == seq![without_return(line)],
{
    let text = line + seq!['\n'];
    assert forall|i: int| 0 <= i < line.len() implies #[trigger] text[i] != '\n' by {
        assert(line.contains(line[i]));
    }
    lemma_position_is(text, '\n', line.len());
    assert(text.take(line.len() as int) =~= line);
    let rest = text.skip(line.len() as int + 1);
    assert(rest.len() == 0);
    assert(lines(rest) == Seq::<Seq<char>>::empty());
    assert(lines(text) =~= seq![without_return(line)]);
}

/// Nothing is left of white space by trimming, and of nothing else.
pub proof fn lemma_trimmed_blank(text: Seq<char>)
    ensures
        trimmed(text).len() == 0 <==> forall|i: int|
            0 <= i < text.len() ==> white_space(#[trigger] text[i]),
    decreases text.len(),
{
    if text.len() > 0 && white_space(text[0]) {
        let rest = text.skip(1);
        lemma_trimmed_blank(rest);
        assert forall|i: int| 0 <= i < rest.len() implies #[trigger] rest[i] == text[i + 1] by {}
        if trimmed(text).len() == 0 {
            assert forall|i: int| 0 <= i < text.len() implies white_space(#[trigger] text[i]) by {
                if i > 0 {
                    assert(white_space(rest[i - 1]));
                }
            }
        }
    } else if text.len() > 0 {
        lemma_trimmed_end(text);
    }
}

/// White space in front of a text is trimmed from its start.
pub proof fn lemma_trimmed_start(space: Seq<char>, text: Seq<char>)
    requires
        forall|i: int| 0 <= i < space.len() ==> white_space(#[trigger] space[i]),
    ensures
        trimmed_start(space + text) == trimmed_start(text),
    decreases space.len(),
{
    let all = space + text;
    if space.len() == 0 {
        assert(all =~= text);
    } else {
        let rest = space.skip(1);
        assert forall|i: int| 0 <= i < rest.len() implies white_space(#[trigger] rest[i]) by {
            assert(rest[i] == space[i + 1]);
        }
        assert(all[0] == space[0]);
        assert(all.skip(1) =~= rest + text);
        lemma_trimmed_start(rest, text);
    }
}

/// A text keeps its start when its end is trimmed.
proof fn lemma_trimmed_end(text: Seq<char>)
    requires
        text.len() > 0,
        !white_space(text[0]),
    ensures
        trimmed_end(text).len() > 0,
    decreases text.len(),
{
    if text.len() > 1 {
        lemma_trimmed_end(text.drop_last());
    }
}

/// Split a text into its lines.
pub fn split_lines(text: &[char]) -> (parts: Vec<&[char]>)
    ensures
        pieces(parts@) == lines(text@),
{
    let mut parts: Vec<&[char]> = Vec::new();
    let mut i: usize = 0;
    assert(text@.skip(0) =~= text@);
    while i < text.len()
        invariant
            i <= text.len(),
            pieces(parts@) + lines(text@.skip(i as int)) =~= lines(text@),
        decreases text.len() - i,
    {
        let rest: &[char] = slice_subrange(text, i, text.len());
        assert(rest@ =~= text@.skip(i as int));
        let n: usize = find_char(rest, '\n');
        let ghost before = parts@;
        if n < rest.len() {
            let line: &[char] = if n > 0 && rest[n - 1] == '\r' {
                slice_subrange(rest, 0, n - 1)
            } else {
                slice_subrange(rest, 0, n)
            };
            assert(line@ =~= without_return(rest@.take(n as int)));
            parts.push(line);
            i += n + 1;
            assert(rest@.skip(n + 1) =~= text@.skip(i as int));
            assert(pieces(parts@) =~= pieces(before).push(line@));
        } else {
            parts.push(rest);
            i = text.len();
            assert(text@.skip(i as int) =~= Seq::empty());
            assert(pieces(parts@) =~= pieces(before).push(rest@));
        }
    }
    parts
}

/// Append the characters of a text.
pub fn push_chars(out: &mut String, text: &[char])
    ensures
        final(out)@ == old(out)@ + text@,
{
    let mut i: usize = 0;
    while i < text.len()
        invariant
            i <= text.len(),
            out@ =~= old(out)@ + text@.take(i as int),
        decreases text.len() - i,
    {
        out.push(text[i]);
        i += 1;
    }
    assert(text@.take(i as int) =~= text@);
}

/// A text as a string.
pub fn string_of(text: &[char]) -> (s: String)
    ensures
        s@ == text@,
{
    let mut s = String::new();
    push_chars(&mut s, text);
    assert(s@ =~= text@);
    s
}

/// Whether two texts are the same.
pub fn same_text(a: &[char], b: &[char]) -> (r: bool)
    ensures
        r == (a@ == b@),
{
    if a.len() != b.len() {
        return false;
    }
    let mut i: usize = 0;
    while i < a.len()
        invariant
            i <= a.len(),
            a@.len() == b@.len(),
            forall|k: int| 0 <= k < i ==> #[trigger] a@[k] == b@[k],
        decreases a.len() - i,
    {
        if a[i] != b[i] {
            assert(a@[i as int] != b@[i as int]);
            return false;
        }
        i += 1;
    }
    assert(a@ =~= b@);
    true
}

/// Whether a text is that of a string.
pub fn is_text(a: &[char], b: &str) -> (r: bool)
    ensures
        r == (a@ == b@),
{
    let b: Vec<char> = chars_of(b);
    same_text(a, b.as_slice())
}

/// Whether `part` occurs in a text.
pub open spec fn occurs(part: Seq<char>, text: Seq<char>) -> bool {
    exists|i: int|
        0 <= i <= text.len() - part.len() && #[trigger] text.subrange(i, i + part.len()) == part
}

/// Whether `part` occurs in a text.
pub fn contains_text(text: &[char], part: &[char]) -> (b: bool)
    ensures
        b == occurs(part@, text@),
{
    if part.len() > text.len() {
        return false;
    }
    let last: usize = text.len() - part.len();
    let mut i: usize = 0;
    while i <= last
        invariant
            part.len() <= text.len(),
            last == text.len() - part.len(),
            i <= last + 1,
            forall|k: int|
                0 <= k < i ==> #[trigger] text@.subrange(k, k + part@.len()) != part@,
        decreases last + 1 - i,
    {
        if same_text(slice_subrange(text, i, i + part.len()), part) {
            assert(text@.subrange(i as int, i + part@.len()) == part@);
            return true;
        }
        if i == last {
            return false;
        }
        i += 1;
    }
    false
}

} // verus!
