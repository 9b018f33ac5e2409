//! Texts: joining them, decimal numbers, and bytes that may not be UTF-8.

use crate::blockstat;
use vstd::prelude::*;

verus! {

/// The text of bytes that are not UTF-8: each invalid sequence gives way to
/// U+FFFD.
pub uninterp spec fn repaired(bytes: Seq<u8>) -> Seq<char>;

/// The text that `bytes` hold.
pub open spec fn text_of(bytes: Seq<u8>) -> Seq<char> {
    if vstd::utf8::valid_utf8(bytes) {
        vstd::utf8::decode_utf8(bytes)
    } else {
        repaired(bytes)
    }
}

/// Calls `String::from_utf8_lossy`. Bytes that are UTF-8 become the text they
/// encode; others become a text that depends on the bytes alone.
#[verifier::external_body]
pub(crate) fn text_from_utf8_lossy(bytes: &[u8]) -> (text: String)
    ensures
        text@ == if vstd::utf8::valid_utf8(bytes@) {
            vstd::utf8::decode_utf8(bytes@)
        } else {
            repaired(bytes@)
        },
{
    String::from_utf8_lossy(bytes).into_owned()
}

/// A text survives its encoding.
pub proof fn law_text_survives(text: Seq<char>)
    ensures
        text_of(vstd::utf8::encode_utf8(text)) == text,
{
    vstd::utf8::encode_utf8_valid_utf8(text);
    vstd::utf8::encode_utf8_decode_utf8(text);
}

/// The decimal digits of a natural number.
pub open spec fn digits(n: nat) -> Seq<char>
    decreases n,
{
    if n < 10 {
        seq![('0' as u32 + n) as char]
    } else {
        digits(n / 10).push(('0' as u32 + n % 10) as char)
    }
}

/// The decimal representation of an integer.
pub open spec fn decimal(v: int) -> Seq<char> {
    if v < 0 {
        seq!['-'] + digits((-v) as nat)
    } else {
        digits(v as nat)
    }
}

/// `first` followed by `second`.
pub fn joined(first: &str, second: &str) -> (text: String)
    ensures
        text@ == first@ + second@,
{
    let mut text = first.to_owned();
    text.append(second);
    text
}

/// The digit `d`.
fn digit_text(d: u32) -> (text: &'static str)
    requires
        d < 10,
    ensures
        text@ == digits(d as nat),
{
    proof {
        reveal_strlit("0");
        reveal_strlit("1");
        reveal_strlit("2");
        reveal_strlit("3");
        reveal_strlit("4");
        reveal_strlit("5");
        reveal_strlit("6");
        reveal_strlit("7");
        reveal_strlit("8");
        reveal_strlit("9");
    }
    match d {
        0 => "0",
        1 => "1",
        2 => "2",
        3 => "3",
        4 => "4",
        5 => "5",
        6 => "6",
        7 => "7",
        8 => "8",
        _ => "9",
    }
}

/// The decimal digits of `n`.
fn digits_text(n: u32) -> (text: String)
    ensures
        text@ == digits(n as nat),
    decreases n,
{
    if n < 10 {
        digit_text(n).to_owned()
    } else {
        let mut text = digits_text(n / 10);
        text.append(digit_text(n % 10));
        assert(text@ =~= digits(n as nat));
        text
    }
}

/// The decimal representation of `v`.
pub fn decimal_text(v: i32) -> (text: String)
    ensures
        text@ == decimal(v as int),
{
    if v < 0 {
        proof {
            reveal_strlit("-");
        }
        let magnitude: u32 = (-(v as i64)) as u32;
        let text = joined("-", digits_text(magnitude).as_str());
        assert(text@ =~= decimal(v as int));
        text
    } else {
        digits_text(v as u32)
    }
}

/// A number is written with the digits that are read as it, no zero in front,
/// and a minus sign where it is negative.
pub proof fn law_decimal_is_read_back(v: int)
    requires
        -0xffff_ffff_ffff_ffff <= v <= 0xffff_ffff_ffff_ffff,
    ensures
        v >= 0 ==> blockstat::number(decimal(v)) == Some(v as u64),
        v < 0 ==> decimal(v)[0] == '-' && blockstat::number(decimal(v).skip(1)) == Some(
            (-v) as u64,
        ),
        v > 0 ==> decimal(v)[0] != '0' && decimal(v)[0] != '+',
        v < 0 ==> decimal(v)[1] != '0' && decimal(v)[1] != '+',
        v == 0 ==> decimal(v) == seq!['0'],
{
    let n = if v < 0 {
        (-v) as nat
    } else {
        v as nat
    };
    let none = Seq::<char>::empty();
    blockstat::lemma_digits(n);
    blockstat::law_number_is_read(none, n);
    assert(none + digits(n) =~= digits(n));
    assert(blockstat::is_digit(digits(n)[0]));
    if v < 0 {
        assert(decimal(v).skip(1) =~= digits(n));
    }
}

} // verus!
