//! Numbers in text: what a decimal or hexadecimal field of an agenda line
//! stands for, and the standard library's integer parsers under contracts
//! that say so.

use vstd::prelude::*;
use vstd::string::*;
use vstd::utf8::*;

verus! {

/// Whether `byte` is one of the ASCII digits `0` to `9`.
pub open spec fn is_digit(byte: u8) -> bool {
    48 <= byte <= 57
}

/// Whether every byte of `text` is an ASCII digit.
pub open spec fn all_digits(text: Seq<u8>) -> bool {
    forall|i: int| 0 <= i < text.len() ==> is_digit(#[trigger] text[i])
}

/// The number that a run of ASCII digits writes in base ten.
pub open spec fn digits_value(text: Seq<u8>) -> nat
    decreases text.len(),
{
    if text.len() == 0 {
        0
    } else {
        10 * digits_value(text.drop_last()) + (text.last() - 48) as nat
    }
}

/// `text` without a leading `+`.
pub open spec fn without_plus(text: Seq<u8>) -> Seq<u8> {
    if text.len() > 0 && text[0] == 43 {
        text.drop_first()
    } else {
        text
    }
}

/// The number that `text` writes in base ten: an optional `+`, then one or
/// more ASCII digits and nothing else. `None` for any other text.
pub open spec fn decimal_value(text: Seq<u8>) -> Option<nat> {
    let digits = without_plus(text);
    if digits.len() > 0 && all_digits(digits) {
        Some(digits_value(digits))
    } else {
        None
    }
}

/// The value of `byte` as a hexadecimal digit (`0`-`9`, `a`-`f`, `A`-`F`).
pub open spec fn hex_digit_value(byte: u8) -> Option<nat> {
    if 48 <= byte <= 57 {
        Some((byte - 48) as nat)
    } else if 97 <= byte <= 102 {
        Some((byte - 87) as nat)
    } else if 65 <= byte <= 70 {
        Some((byte - 55) as nat)
    } else {
        None
    }
}

/// Whether every byte of `text` is a hexadecimal digit.
pub open spec fn all_hex_digits(text: Seq<u8>) -> bool {
    forall|i: int| 0 <= i < text.len() ==> (#[trigger] hex_digit_value(text[i])) is Some
}

/// The number that a run of hexadecimal digits writes.
pub open spec fn hex_digits_value(text: Seq<u8>) -> nat
    decreases text.len(),
{
    if text.len() == 0 {
        0
    } else {
        16 * hex_digits_value(text.drop_last()) + hex_digit_value(text.last()).unwrap()
    }
}

/// The number that `text` writes in base sixteen: an optional `+`, then one
/// or more hexadecimal digits and nothing else. `None` for any other text.
pub open spec fn hex_value(text: Seq<u8>) -> Option<nat> {
    let digits = without_plus(text);
    if digits.len() > 0 && all_hex_digits(digits) {
        Some(hex_digits_value(digits))
    } else {
        None
    }
}

/// The error of the standard library's integer parsers. Nothing is known of
/// its content here.
#[verifier::external_type_specification]
#[verifier::external_body]
pub struct ExParseIntError(core::num::ParseIntError);

/// `u8::from_str` of the standard library. It accepts an optional `+`
/// followed by decimal digits only, and fails on any other text and on a
/// number above 255.
#[verifier::external_body]
pub(crate) fn parse_u8(text: &str) -> (r: Result<u8, core::num::ParseIntError>)
    ensures
        r matches Ok(v) ==> decimal_value(text.spec_bytes()) == Some(v as nat),
        r is Err ==> (decimal_value(text.spec_bytes()) matches Some(v) ==> v > u8::MAX),
{
    <u8 as core::str::FromStr>::from_str(text)
}

/// `u16::from_str` of the standard library. It accepts an optional `+`
/// followed by decimal digits only, and fails on any other text and on a
/// number above 65535.
#[verifier::external_body]
pub(crate) fn parse_u16(text: &str) -> (r: Result<u16, core::num::ParseIntError>)
    ensures
        r matches Ok(v) ==> decimal_value(text.spec_bytes()) == Some(v as nat),
        r is Err ==> (decimal_value(text.spec_bytes()) matches Some(v) ==> v > u16::MAX),
{
    <u16 as core::str::FromStr>::from_str(text)
}

/// `u32::from_str_radix` of the standard library with radix 16. It accepts an
/// optional `+` followed by hexadecimal digits only, and fails on any other
/// text and on a number above `u32::MAX`.
#[verifier::external_body]
pub(crate) fn parse_hex_u32(text: &str) -> (r: Result<u32, core::num::ParseIntError>)
    ensures
        r matches Ok(v) ==> hex_value(text.spec_bytes()) == Some(v as nat),
        r is Err ==> (hex_value(text.spec_bytes()) matches Some(v) ==> v > u32::MAX),
{
    u32::from_str_radix(text, 16)
}

/// The error of the standard library's check for UTF-8. Nothing is known of
/// its content here.
#[verifier::external_type_specification]
#[verifier::external_body]
pub struct ExUtf8Error(core::str::Utf8Error);

/// `core::str::from_utf8` of the standard library. It gives the bytes back as
/// text where they are valid UTF-8, and fails where they are not.
#[verifier::external_body]
pub(crate) fn utf8_text(bytes: &[u8]) -> (r: Result<&str, core::str::Utf8Error>)
    ensures
        r is Ok <==> valid_utf8(bytes@),
        r matches Ok(text) ==> text.spec_bytes() == bytes@,
{
    core::str::from_utf8(bytes)
}

/// The length of `text` in bytes.
pub(crate) fn byte_len(text: &str) -> (n: usize)
    ensures
        n == text.spec_bytes().len(),
{
    text.as_bytes().len()
}

/// The character that writes `digit`, a number below ten.
pub open spec fn digit_char(digit: nat) -> char {
    if digit == 0 {
        '0'
    } else if digit == 1 {
        '1'
    } else if digit == 2 {
        '2'
    } else if digit == 3 {
        '3'
    } else if digit == 4 {
        '4'
    } else if digit == 5 {
        '5'
    } else if digit == 6 {
        '6'
    } else if digit == 7 {
        '7'
    } else if digit == 8 {
        '8'
    } else {
        '9'
    }
}

/// The characters that write `number` in base ten, without leading zeros.
pub open spec fn decimal_chars(number: nat) -> Seq<char>
    decreases number,
{
    if number < 10 {
        seq![digit_char(number)]
    } else {
        decimal_chars(number / 10).push(digit_char(number % 10))
    }
}

/// The text that writes `digit`, a number below ten.
pub(crate) fn digit_text(digit: u8) -> (text: &'static str)
    requires
        digit <= 9,
    ensures
        text@ == seq![digit_char(digit as nat)],
{
    proof {
        reveal_strlit("0");
        reveal_strlit("1");
        reveal_strlit("2");
        reveal_strlit("3");
        reveal_strlit("4");
        reveal_strlit("5");
        reveal_strlit("6");
        reveal_strlit("7");
        reveal_strlit("8");
        reveal_strlit("9");
    }
    let text: &'static str = match digit {
        0 => "0",
        1 => "1",
        2 => "2",
        3 => "3",
        4 => "4",
        5 => "5",
        6 => "6",
        7 => "7",
        8 => "8",
        _ => "9",
    };
    assert(text@ =~= seq![digit_char(digit as nat)]);
    text
}

/// The characters that write `number` in base ten, with zeros in front
/// where that takes fewer than `width` characters.
pub open spec fn zero_padded(number: nat, width: nat) -> Seq<char> {
    let digits = decimal_chars(number);
    if digits.len() >= width {
        digits
    } else {
        Seq::new((width - digits.len()) as nat, |i: int| '0') + digits
    }
}

/// The text that writes `number` in base ten, with zeros in front where that
/// takes fewer than `width` characters.
pub(crate) fn padded_decimal_text(number: u16, width: usize) -> (text: String)
    requires
        1 <= width <= 5,
    ensures
        text@ == zero_padded(number as nat, width as nat),
{
    reveal_with_fuel(decimal_chars, 5);
    let mut text: String = String::new();
    if number >= 10000 || width >= 5 {
        text.append(digit_text((number / 10000) as u8));
    }
    if number >= 1000 || width >= 4 {
        text.append(digit_text((number / 1000 % 10) as u8));
    }
    if number >= 100 || width >= 3 {
        text.append(digit_text((number / 100 % 10) as u8));
    }
    if number >= 10 || width >= 2 {
        text.append(digit_text((number / 10 % 10) as u8));
    }
    text.append(digit_text((number % 10) as u8));
    assert(text@ =~= zero_padded(number as nat, width as nat));
    text
}

/// The text that writes `number` in base ten, without leading zeros.
pub(crate) fn decimal_text(number: u8) -> (text: String)
    ensures
        text@ == decimal_chars(number as nat),
{
    reveal_with_fuel(decimal_chars, 3);
    padded_decimal_text(number as u16, 1)
}

/// Whether two texts are the same, character by character.
pub(crate) fn same_text(a: &str, b: &str) -> (same: bool)
    ensures
        same == (a@ == b@),
{
    proof {
        encode_utf8_decode_utf8(a@);
        encode_utf8_decode_utf8(b@);
    }
    let left: &[u8] = a.as_bytes();
    let right: &[u8] = b.as_bytes();
    if left.len() != right.len() {
        return false;
    }
    let mut index: usize = 0;
    while index < left.len()
        invariant
            left@ == a.spec_bytes(),
            right@ == b.spec_bytes(),
            left.len() == right.len(),
            index <= left.len(),
            forall|i: int| 0 <= i < index ==> left@[i] == right@[i],
        decreases left.len() - index,
    {
        if left[index] != right[index] {
            return false;
        }
        index += 1;
    }
    assert(left@ =~= right@);
    true
}

/// The part of `text` from byte `from` up to byte `to`.
pub(crate) fn byte_range(text: &str, from: usize, to: usize) -> (part: &str)
    requires
        from <= to <= text.spec_bytes().len(),
        is_char_boundary(text.spec_bytes(), from as int),
        is_char_boundary(text.spec_bytes(), to as int),
    ensures
        part.spec_bytes() == text.spec_bytes().subrange(from as int, to as int),
{
    proof {
        encode_utf8_valid_utf8(text@);
    }
    let (head, _) = text.split_at(to);
    proof {
        encode_utf8_valid_utf8(head@);
        if from < to {
            is_char_boundary_iff_not_is_continuation_byte(text.spec_bytes(), from as int);
            is_char_boundary_iff_not_is_continuation_byte(head.spec_bytes(), from as int);
        } else {
            is_char_boundary_start_end_of_seq(head.spec_bytes());
        }
    }
    let (_, part) = head.split_at(from);
    assert(part.spec_bytes() =~= text.spec_bytes().subrange(from as int, to as int));
    part
}

/// A character starts at an ASCII byte of a text, and another one, or the
/// end of the text, follows it.
pub(crate) proof fn lemma_boundaries_at_ascii(bytes: Seq<u8>, index: int)
    requires
        valid_utf8(bytes),
        0 <= index < bytes.len(),
        bytes[index] <= 127,
    ensures
        is_char_boundary(bytes, index),
        is_char_boundary(bytes, index + 1),
{
    is_char_boundary_iff_not_is_continuation_byte(bytes, index);
    valid_utf8_split(bytes, index);
    let tail = bytes.subrange(index, bytes.len() as int);
    assert(tail[0] == bytes[index]);
    assert(valid_utf8(pop_first_scalar(tail)));
    assert(pop_first_scalar(tail) =~= bytes.subrange(index + 1, bytes.len() as int));
    if index + 1 < bytes.len() {
        let rest = bytes.subrange(index + 1, bytes.len() as int);
        assert(valid_first_scalar(rest));
        assert(rest[0] == bytes[index + 1]);
        is_char_boundary_iff_not_is_continuation_byte(bytes, index + 1);
    } else {
        is_char_boundary_start_end_of_seq(bytes);
    }
}

/// In a text of ASCII characters every byte starts a character.
pub(crate) proof fn lemma_ascii_boundaries(s: &str)
    requires
        s.is_ascii(),
    ensures
        forall|i: int| 0 <= i <= s.spec_bytes().len() ==> is_char_boundary(s.spec_bytes(), i),
{
    encode_utf8_valid_utf8(s@);
    is_ascii_spec_bytes(s);
    let bytes = s.spec_bytes();
    assert forall|i: int| 0 <= i <= bytes.len() implies is_char_boundary(bytes, i) by {
        if i < bytes.len() {
            is_char_boundary_iff_not_is_continuation_byte(bytes, i);
            assert(s@[i] as u32 <= 127);
            let b = bytes[i];
            assert(b <= 127);
            assert(!is_continuation_byte(b)) by (bit_vector)
                requires
                    b <= 127,
            ;
        } else {
            is_char_boundary_start_end_of_seq(bytes);
        }
    }
}

} // verus!
