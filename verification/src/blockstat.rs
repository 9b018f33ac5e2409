//! The statistics line of a block device.

use crate::text;
use vstd::prelude::*;

verus! {

/// Where the number of sectors written stands in the line.
pub const SECTORS_WRITTEN: usize = 6;

/// Whether `c` separates fields: the characters that Unicode calls white space.
pub open spec fn is_space(c: char) -> bool {
    ||| '\u{9}' <= c <= '\u{d}'
    ||| c == ' '
    ||| c == '\u{85}'
    ||| c == '\u{a0}'
    ||| c == '\u{1680}'
    ||| '\u{2000}' <= c <= '\u{200a}'
    ||| c == '\u{2028}'
    ||| c == '\u{2029}'
    ||| c == '\u{202f}'
    ||| c == '\u{205f}'
    ||| c == '\u{3000}'
}

/// Whether `text` ends inside a field.
pub open spec fn in_field(text: Seq<char>) -> bool {
    text.len() > 0 && !is_space(text.last())
}

/// The fields of `text`: its longest parts without white space.
pub open spec fn fields(text: Seq<char>) -> Seq<Seq<char>>
    decreases text.len(),
{
    if text.len() == 0 {
        Seq::empty()
    } else {
        let before = fields(text.drop_last());
        if is_space(text.last()) {
            before
        } else if in_field(text.drop_last()) {
            before.drop_last().push(before.last().push(text.last()))
        } else {
            before.push(seq![text.last()])
        }
    }
}

/// Whether `c` is a decimal digit.
pub open spec fn is_digit(c: char) -> bool {
    '0' <= c <= '9'
}

/// The number that the decimal digits `s` stand for.
pub open spec fn value(s: Seq<char>) -> int
    decreases s.len(),
{
    if s.len() == 0 {
        0
    } else {
        10 * value(s.drop_last()) + (s.last() as int - '0' as int)
    }
}

/// Whether `s` is made of decimal digits, at least one.
pub open spec fn is_number(s: Seq<char>) -> bool {
    s.len() > 0 && forall|i: int| 0 <= i < s.len() ==> is_digit(#[trigger] s[i])
}

/// `s` without a plus sign in front.
pub open spec fn unsigned(s: Seq<char>) -> Seq<char> {
    if s.len() > 0 && s[0] == '+' {
        s.skip(1)
    } else {
        s
    }
}

/// The 64-bit number that `s` is the text of.
pub open spec fn number(s: Seq<char>) -> Option<u64> {
    let digits = unsigned(s);
    if is_number(digits) && value(digits) <= u64::MAX {
        Some(value(digits) as u64)
    } else {
        None
    }
}

/// The number of sectors written, where `stat` tells it.
pub open spec fn sectors_written(stat: Seq<char>) -> Option<u64> {
    if SECTORS_WRITTEN < fields(stat).len() {
        number(fields(stat)[SECTORS_WRITTEN as int])
    } else {
        None
    }
}

/// Whether `c` separates fields.
fn separates(c: char) -> (b: bool)
    ensures
        b == is_space(c),
{
    ('\u{9}' <= c && c <= '\u{d}') || c == ' ' || c == '\u{85}' || c == '\u{a0}' || c == '\u{1680}'
        || ('\u{2000}' <= c && c <= '\u{200a}') || c == '\u{2028}' || c == '\u{2029}' || c
        == '\u{202f}' || c == '\u{205f}' || c == '\u{3000}'
}

/// A number has no negative part, and more digits make it no smaller.
proof fn lemma_value_grows(s: Seq<char>, n: int)
    requires
        is_number(s),
        0 <= n <= s.len(),
    ensures
        0 <= value(s.take(n)) <= value(s),
    decreases s.len(),
{
    if n == s.len() {
        assert(s.take(n) =~= s);
        if s.len() > 1 {
            assert forall|i: int| 0 <= i < s.drop_last().len() implies is_digit(
                #[trigger] s.drop_last()[i],
            ) by {
                assert(s.drop_last()[i] == s[i]);
            }
            lemma_value_grows(s.drop_last(), s.len() - 1);
            assert(s.drop_last().take(s.len() - 1) =~= s.drop_last());
        }
        assert(is_digit(s[s.len() - 1]));
    } else {
        assert(is_digit(s[s.len() - 1]));
        if s.len() > 1 {
            assert forall|i: int| 0 <= i < s.drop_last().len() implies is_digit(
                #[trigger] s.drop_last()[i],
            ) by {
                assert(s.drop_last()[i] == s[i]);
            }
            lemma_value_grows(s.drop_last(), n);
            assert(s.drop_last().take(n) =~= s.take(n));
        } else {
            assert(s.take(n) =~= Seq::<char>::empty());
        }
    }
}

/// The 64-bit number that the characters of `text` from `start` to `end` are
/// the text of.
fn parse(text: &str, start: usize, end: usize) -> (n: Option<u64>)
    requires
        start <= end <= text@.len(),
    ensures
        n == number(text@.subrange(start as int, end as int)),
{
    let mut at: usize = start;
    if start < end && text.get_char(start) == '+' {
        at = start + 1;
    }
    let first: usize = at;
    let ghost digits = unsigned(text@.subrange(start as int, end as int));
    assert(digits =~= text@.subrange(first as int, end as int));
    if first == end {
        return None;
    }
    let mut n: u64 = 0;
    assert(digits.take(0) =~= Seq::<char>::empty());
    while at < end
        invariant
            first <= at <= end <= text@.len(),
            digits == text@.subrange(first as int, end as int),
            digits == unsigned(text@.subrange(start as int, end as int)),
            forall|i: int| 0 <= i < at - first ==> is_digit(#[trigger] digits[i]),
            n == value(digits.take(at - first)),
        decreases end - at,
    {
        let c: char = text.get_char(at);
        assert(c == digits[at - first]);
        if !('0' <= c && c <= '9') {
            return None;
        }
        let d: u64 = (c as u32 - '0' as u32) as u64;
        proof {
            assert(digits.take(at - first + 1).drop_last() =~= digits.take(at - first));
            if is_number(digits) {
                lemma_value_grows(digits, at - first + 1);
            }
        }
        match n.checked_mul(10) {
            None => return None,
            Some(tens) => match tens.checked_add(d) {
                None => return None,
                Some(sum) => {
                    n = sum;
                },
            },
        }
        at = at + 1;
    }
    assert(digits.take(at - first) =~= digits);
    Some(n)
}

/// The number of sectors written, from the statistics line of a block device.
pub fn device_sectors_written(stat: &str) -> (n: Option<u64>)
    ensures
        n == sectors_written(stat@),
{
    let len: usize = stat.unicode_len();
    let mut i: usize = 0;
    let mut count: usize = 0;
    let mut inside: bool = false;
    let mut start: usize = 0;
    let mut end: usize = 0;
    assert(stat@.take(0) =~= Seq::<char>::empty());
    while i < len
        invariant
            i <= len == stat@.len(),
            count == fields(stat@.take(i as int)).len(),
            count <= i,
            inside == in_field(stat@.take(i as int)),
            inside ==> count > 0,
            count > SECTORS_WRITTEN ==> {
                &&& start <= end <= i
                &&& fields(stat@.take(i as int))[SECTORS_WRITTEN as int] == stat@.subrange(
                    start as int,
                    end as int,
                )
                &&& inside && count == SECTORS_WRITTEN + 1 ==> end == i
            },
        decreases len - i,
    {
        let c: char = stat.get_char(i);
        let ghost before = stat@.take(i as int);
        let ghost after = stat@.take(i + 1);
        assert(after.drop_last() =~= before);
        assert(after.last() == c);
        if separates(c) {
            inside = false;
        } else {
            if !inside {
                count = count + 1;
                inside = true;
                if count == SECTORS_WRITTEN + 1 {
                    start = i;
                }
            }
            if count == SECTORS_WRITTEN + 1 {
                proof {
                    if in_field(before) {
                        assert(stat@.subrange(start as int, i + 1) =~= stat@.subrange(
                            start as int,
                            end as int,
                        ).push(c));
                    } else {
                        assert(stat@.subrange(i as int, i + 1) =~= seq![c]);
                    }
                }
                end = i + 1;
            }
        }
        i = i + 1;
    }
    assert(stat@.take(len as int) =~= stat@);
    if count <= SECTORS_WRITTEN {
        return None;
    }
    parse(stat, start, end)
}

/// Whether `s` is made of zero digits.
pub open spec fn only_zeros(s: Seq<char>) -> bool {
    forall|i: int| 0 <= i < s.len() ==> #[trigger] s[i] == '0'
}

/// Digits with zeros in front are digits.
proof fn lemma_is_number_of_parts(zeros: Seq<char>, s: Seq<char>)
    requires
        only_zeros(zeros),
        is_number(s),
    ensures
        is_number(zeros + s),
{
    let both = zeros + s;
    assert forall|i: int| 0 <= i < both.len() implies is_digit(#[trigger] both[i]) by {
        if i < zeros.len() {
            assert(zeros[i] == '0');
        } else {
            assert(is_digit(s[i - zeros.len()]));
        }
    }
}

/// Zeros are worth nothing.
proof fn lemma_value_of_zeros(zeros: Seq<char>)
    requires
        only_zeros(zeros),
    ensures
        value(zeros) == 0,
    decreases zeros.len(),
{
    if zeros.len() > 0 {
        assert(zeros[zeros.len() - 1] == '0');
        assert forall|i: int| 0 <= i < zeros.drop_last().len() implies #[trigger]
            zeros.drop_last()[i] == '0' by {
            assert(zeros[i] == '0');
        }
        lemma_value_of_zeros(zeros.drop_last());
    }
}

/// Zeros in front do not change a number.
proof fn lemma_value_behind_zeros(zeros: Seq<char>, s: Seq<char>)
    requires
        only_zeros(zeros),
    ensures
        value(zeros + s) == value(s),
    decreases s.len(),
{
    if s.len() == 0 {
        lemma_value_of_zeros(zeros);
        assert(zeros + s =~= zeros);
    } else {
        lemma_value_behind_zeros(zeros, s.drop_last());
        assert((zeros + s).drop_last() =~= zeros + s.drop_last());
    }
}

/// The digits of a number are digits, of that value, without zeros in front.
pub(crate) proof fn lemma_digits(n: nat)
    ensures
        is_number(text::digits(n)),
        value(text::digits(n)) == n,
        text::digits(n)[0] == '0' ==> n == 0,
    decreases n,
{
    let s = text::digits(n);
    if n < 10 {
        assert(s.drop_last() =~= Seq::<char>::empty());
        assert(value(s.drop_last()) == 0);
        assert(is_digit(s[0]));
    } else {
        lemma_digits(n / 10);
        let head = text::digits(n / 10);
        assert(s.drop_last() =~= head);
        assert(s[0] == head[0]);
        assert forall|i: int| 0 <= i < s.len() implies is_digit(#[trigger] s[i]) by {
            if i < head.len() {
                assert(is_digit(head[i]));
            }
        }
    }
}

/// The text of a number is read as that number, also with zeros or a plus sign
/// in front, where it fits in 64 bits, and is refused where it does not.
pub proof fn law_number_is_read(zeros: Seq<char>, n: nat)
    requires
        only_zeros(zeros),
    ensures
        n <= 0xffff_ffff_ffff_ffff ==> {
            &&& number(zeros + text::digits(n)) == Some(n as u64)
            &&& number(seq!['+'] + (zeros + text::digits(n))) == Some(n as u64)
        },
        n > 0xffff_ffff_ffff_ffff ==> {
            &&& number(zeros + text::digits(n)) is None
            &&& number(seq!['+'] + (zeros + text::digits(n))) is None
        },
{
    let s = zeros + text::digits(n);
    lemma_digits(n);
    lemma_is_number_of_parts(zeros, text::digits(n));
    lemma_value_behind_zeros(zeros, text::digits(n));
    assert(is_digit(s[0]));
    assert((seq!['+'] + s).skip(1) =~= s);
}

/// A text that is not read as a number is empty or a plus sign, holds a
/// character that is no digit behind the place of the sign, or stands for more
/// than 64 bits hold; no other is refused.
pub proof fn law_what_is_no_number(s: Seq<char>)
    ensures
        s.len() == 0 ==> number(s) is None,
        s.len() == 1 && !('0' <= s[0] <= '9') ==> number(s) is None,
        forall|i: int|
            1 <= i < s.len() && !('0' <= #[trigger] s[i] <= '9') ==> number(s) is None,
        s.len() > 0 && s[0] != '+' && !('0' <= s[0] <= '9') ==> number(s) is None,
        s.len() > 0 && (forall|i: int|
            0 <= i < s.len() ==> '0' <= #[trigger] s[i] <= '9') ==> exists|zeros: Seq<char>, n: nat|
            only_zeros(zeros) && s == #[trigger] (zeros + text::digits(n)),
{
    let digits = unsigned(s);
    assert forall|i: int|
        1 <= i < s.len() && !('0' <= #[trigger] s[i] <= '9') implies number(s) is None by {
        if s[0] == '+' {
            assert(digits[i - 1] == s[i]);
        }
        if is_number(digits) {
            assert(is_digit(digits[if s[0] == '+' { i - 1 } else { i }]));
        }
    }
    if s.len() > 0 && s[0] != '+' && !('0' <= s[0] <= '9') {
        assert(!is_digit(digits[0]));
    }
    if s.len() > 0 && forall|i: int| 0 <= i < s.len() ==> '0' <= #[trigger] s[i] <= '9' {
        lemma_digits_of_value(s);
    }
}

/// Digits are zeros and the digits of their value.
proof fn lemma_digits_of_value(s: Seq<char>)
    requires
        s.len() > 0,
        forall|i: int| 0 <= i < s.len() ==> '0' <= #[trigger] s[i] <= '9',
    ensures
        value(s) >= 0,
        exists|zeros: Seq<char>|
            only_zeros(zeros) && s == #[trigger] (zeros + text::digits(value(s) as nat)),
    decreases s.len(),
{
    let last = s[s.len() - 1];
    let head = s.drop_last();
    let d = last as int - '0' as int;
    assert(s =~= head.push(last));
    if s.len() == 1 {
        assert(head =~= Seq::<char>::empty());
        assert(value(head) == 0);
        let none = Seq::<char>::empty();
        assert(s =~= none + text::digits(value(s) as nat));
    } else {
        assert forall|i: int| 0 <= i < head.len() implies '0' <= #[trigger] head[i] <= '9' by {
            assert(head[i] == s[i]);
        }
        lemma_digits_of_value(head);
        let v = value(head) as nat;
        let zeros = choose|zeros: Seq<char>|
            only_zeros(zeros) && head == #[trigger] (zeros + text::digits(v));
        if v == 0 {
            let more = head;
            assert forall|i: int| 0 <= i < more.len() implies #[trigger] more[i] == '0' by {
                if i < zeros.len() {
                    assert(zeros[i] == '0');
                } else {
                    assert(text::digits(0)[i - zeros.len()] == '0');
                }
            }
            assert(s =~= more + text::digits(value(s) as nat));
        } else {
            let n = value(s) as nat;
            assert(n / 10 == v && n % 10 == d);
            assert(s =~= zeros + text::digits(n));
        }
    }
}

/// White space between the fields is what Unicode calls so.
pub proof fn law_white_space(c: char)
    ensures
        is_space(c) <==> {
            let u = c as u32;
            9 <= u <= 13 || u == 32 || u == 0x85 || u == 0xa0 || u == 0x1680 || 0x2000 <= u
                <= 0x200a || u == 0x2028 || u == 0x2029 || u == 0x202f || u == 0x205f || u == 0x3000
        },
{
}

/// Whether `s` is nothing but white space.
pub open spec fn is_gap(s: Seq<char>) -> bool {
    forall|i: int| 0 <= i < s.len() ==> is_space(#[trigger] s[i])
}

/// Whether `s` is not empty and has no white space.
pub open spec fn is_word(s: Seq<char>) -> bool {
    s.len() > 0 && forall|i: int| 0 <= i < s.len() ==> !is_space(#[trigger] s[i])
}

/// White space behind a text adds no field.
proof fn lemma_gap_adds_nothing(head: Seq<char>, gap: Seq<char>)
    requires
        is_gap(gap),
    ensures
        fields(head + gap) == fields(head),
    decreases gap.len(),
{
    if gap.len() == 0 {
        assert(head + gap =~= head);
    } else {
        let short = gap.drop_last();
        assert forall|i: int| 0 <= i < short.len() implies is_space(#[trigger] short[i]) by {
            assert(is_space(gap[i]));
        }
        lemma_gap_adds_nothing(head, short);
        assert((head + gap).drop_last() =~= head + short);
        assert(is_space(gap[gap.len() - 1]));
    }
}

/// A word behind a text that does not end in one is one more field.
proof fn lemma_word_adds_a_field(head: Seq<char>, word: Seq<char>)
    requires
        !in_field(head),
        is_word(word),
    ensures
        fields(head + word) == fields(head).push(word),
        in_field(head + word),
    decreases word.len(),
{
    let text = head + word;
    let short = word.drop_last();
    assert(text.drop_last() =~= head + short);
    assert(!is_space(word[word.len() - 1]));
    if word.len() == 1 {
        assert(head + short =~= head);
        assert(word =~= seq![word[0]]);
    } else {
        assert forall|i: int| 0 <= i < short.len() implies !is_space(#[trigger] short[i]) by {
            assert(!is_space(word[i]));
        }
        lemma_word_adds_a_field(head, short);
        let before = fields(head + short);
        assert(before.drop_last() =~= fields(head));
        assert(short.push(word[word.len() - 1]) =~= word);
    }
}

/// A line of words with white space around them.
pub open spec fn line(gaps: Seq<Seq<char>>, words: Seq<Seq<char>>) -> Seq<char>
    decreases words.len(),
{
    if words.len() == 0 {
        gaps[0]
    } else {
        line(gaps.drop_last(), words.drop_last()) + words.last() + gaps.last()
    }
}

/// The number of sectors written is the seventh word of the line, whatever white
/// space is between the words, before them and behind them, and whatever comes
/// after; a line with fewer words does not tell it.
pub proof fn law_sectors_written_is_the_seventh_word(
    gaps: Seq<Seq<char>>,
    words: Seq<Seq<char>>,
)
    requires
        gaps.len() == words.len() + 1,
        forall|i: int| 0 <= i < gaps.len() ==> is_gap(#[trigger] gaps[i]),
        forall|i: int| 0 < i < gaps.len() - 1 ==> (#[trigger] gaps[i]).len() > 0,
        forall|i: int| 0 <= i < words.len() ==> is_word(#[trigger] words[i]),
    ensures
        fields(line(gaps, words)) == words,
        words.len() >= 7 ==> sectors_written(line(gaps, words)) == number(words[6]),
        words.len() < 7 ==> sectors_written(line(gaps, words)) is None,
{
    lemma_fields_of_line(gaps, words);
}

/// The fields of a line are its words.
proof fn lemma_fields_of_line(gaps: Seq<Seq<char>>, words: Seq<Seq<char>>)
    requires
        gaps.len() == words.len() + 1,
        forall|i: int| 0 <= i < gaps.len() ==> is_gap(#[trigger] gaps[i]),
        forall|i: int| 0 < i < gaps.len() - 1 ==> (#[trigger] gaps[i]).len() > 0,
        forall|i: int| 0 <= i < words.len() ==> is_word(#[trigger] words[i]),
    ensures
        fields(line(gaps, words)) == words,
        gaps.last().len() > 0 || words.len() == 0 ==> !in_field(line(gaps, words)),
    decreases words.len(),
{
    let none = Seq::<char>::empty();
    let n = words.len() as int;
    assert(is_gap(gaps[n]));
    if n == 0 {
        lemma_gap_adds_nothing(none, gaps[0]);
        assert(none + gaps[0] =~= gaps[0]);
        assert(words =~= Seq::<Seq<char>>::empty());
        if gaps[0].len() > 0 {
            assert(is_space(gaps[0][gaps[0].len() - 1]));
        }
    } else {
        let head = line(gaps.drop_last(), words.drop_last());
        assert(is_word(words[n - 1]));
        assert(gaps.drop_last().last() == gaps[n - 1]);
        assert forall|i: int| 0 <= i < n implies is_gap(#[trigger] gaps.drop_last()[i]) by {
            assert(is_gap(gaps[i]));
        }
        assert forall|i: int| 0 < i < n - 1 implies (#[trigger] gaps.drop_last()[i]).len() > 0 by {
            assert(gaps[i].len() > 0);
        }
        assert forall|i: int| 0 <= i < n - 1 implies is_word(#[trigger] words.drop_last()[i]) by {
            assert(is_word(words[i]));
        }
        lemma_fields_of_line(gaps.drop_last(), words.drop_last());
        lemma_word_adds_a_field(head, words[n - 1]);
        lemma_gap_adds_nothing(head + words[n - 1], gaps[n]);
        assert(words =~= words.drop_last().push(words[n - 1]));
        let text = head + words[n - 1] + gaps[n];
        assert(text == line(gaps, words));
        if gaps[n].len() > 0 {
            assert(is_space(gaps[n][gaps[n].len() - 1]));
            assert(text.last() == gaps[n].last());
        }
    }
}

} // verus!
