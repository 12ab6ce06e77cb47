//! The units of the wire protocol: request messages, and the two forms in which
//! lengths are written.

use vstd::prelude::*;

use crate::error;
use crate::error::{DeviceError, ErrorView, Outcome, Result};
use crate::numbers;
use crate::text;

verus! {

/// The error for bytes that are not UTF-8.
pub uninterp spec fn utf8_error(bytes: Seq<u8>) -> std::str::Utf8Error;

/// `std::str::from_utf8` accepts exactly the valid UTF-8 encodings, and gives
/// the characters that the bytes encode. For other bytes the error says up to
/// where they are valid and how long the invalid part is: it is a function of
/// the bytes.
pub assume_specification[ std::str::from_utf8 ](v: &[u8]) -> (r: std::result::Result<
    &str,
    std::str::Utf8Error,
>)
    ensures
        match r {
            Ok(s) => vstd::utf8::valid_utf8(v@) && s@ == vstd::utf8::decode_utf8(v@),
            Err(e) => !vstd::utf8::valid_utf8(v@) && e == utf8_error(v@),
        },
;

/// A request as text: the byte length of the payload as four hexadecimal
/// digits, then the payload.
pub open spec fn message_text(payload: Seq<char>) -> Seq<char> {
    numbers::hex4_text(vstd::utf8::encode_utf8(payload).len()) + payload
}

/// A request fits: its length can be written in four hexadecimal digits.
pub open spec fn message_fits(payload: Seq<char>) -> bool {
    vstd::utf8::encode_utf8(payload).len() < 0x1_0000
}

/// Puts the length of a payload in front of it. It fails where the length does
/// not fit in four hexadecimal digits.
pub fn encode_message(payload: &str) -> (r: Result<String>)
    ensures
        error::outcome(r) == (if message_fits(payload@) {
            Ok(message_text(payload@))
        } else {
            Err(ErrorView::FromInt)
        }),
{
    match u16::try_from(payload.as_bytes().len()) {
        Ok(len) => {
            let length: String = numbers::hex4(len);
            Ok(text::concat2(length.as_str(), payload))
        },
        Err(e) => Err(DeviceError::FromInt(e)),
    }
}

/// The text that bytes encode, if they are UTF-8.
pub open spec fn utf8_outcome(bytes: Seq<u8>) -> Outcome<Seq<char>> {
    if vstd::utf8::valid_utf8(bytes) {
        Ok(vstd::utf8::decode_utf8(bytes))
    } else {
        Err(ErrorView::Utf8(utf8_error(bytes)))
    }
}

/// The text that bytes encode.
pub fn decode_text(bytes: &[u8]) -> (r: Result<String>)
    ensures
        error::outcome(r) == utf8_outcome(bytes@),
{
    match std::str::from_utf8(bytes) {
        Ok(s) => Ok(s.to_owned()),
        Err(e) => Err(DeviceError::Utf8(e)),
    }
}

/// What the four bytes of a host length stand for: a hexadecimal number.
pub open spec fn host_length(bytes: Seq<u8>) -> Outcome<nat> {
    match utf8_outcome(bytes) {
        Err(e) => Err(e),
        Ok(digits) => match numbers::number_value(digits, 16, usize::MAX as nat) {
            Err(e) => Err(ErrorView::ParseInt(e)),
            Ok(n) => Ok(n),
        },
    }
}

/// Reads the payload length of a host message from its four bytes.
pub fn read_length(bytes: &[u8; 4]) -> (r: Result<usize>)
    ensures
        match r {
            Ok(n) => host_length(bytes@) == Ok::<nat, ErrorView>(n as nat),
            Err(e) => host_length(bytes@) == Err::<nat, ErrorView>(e@),
        },
{
    let digits: String = match decode_text(bytes.as_slice()) {
        Ok(digits) => digits,
        Err(e) => return Err(e),
    };
    match numbers::parse_number(digits.as_str(), 16, usize::MAX as u64) {
        Ok(n) => Ok(n as usize),
        Err(e) => Err(DeviceError::ParseInt(e)),
    }
}

/// The number that four bytes stand for, the least significant byte first.
pub open spec fn little_endian(bytes: Seq<u8>) -> nat
    recommends
        bytes.len() == 4,
{
    (bytes[0] + bytes[1] * 0x100 + bytes[2] * 0x1_0000 + bytes[3] * 0x100_0000) as nat
}

/// Reads the payload length of a device message from its four bytes.
pub fn read_length_little_endian(bytes: &[u8; 4]) -> (n: usize)
    ensures
        n == little_endian(bytes@),
{
    (bytes[0] as usize) + (bytes[1] as usize) * 0x100 + (bytes[2] as usize) * 0x1_0000 + (
    bytes[3] as usize) * 0x100_0000
}

/// The four bytes of a length, the least significant byte first. Of a length
/// above 32 bits only the low 32 bits are written.
pub open spec fn little_endian_bytes(n: nat) -> Seq<u8> {
    seq![
        (n % 0x100) as u8,
        (n / 0x100 % 0x100) as u8,
        (n / 0x1_0000 % 0x100) as u8,
        (n / 0x100_0000 % 0x100) as u8,
    ]
}

/// Writes the payload length of a device message.
pub fn write_length_little_endian(n: usize) -> (r: [u8; 4])
    ensures
        r@ == little_endian_bytes(n as nat),
{
    let r: [u8; 4] = [
        (n % 0x100) as u8,
        (n / 0x100 % 0x100) as u8,
        (n / 0x1_0000 % 0x100) as u8,
        (n / 0x100_0000 % 0x100) as u8,
    ];
    assert(r@ =~= little_endian_bytes(n as nat));
    r
}

// Laws

/// A length that is written and read again keeps its low 32 bits.
pub proof fn law_little_endian_round_trip(n: nat)
    ensures
        little_endian_bytes(n).len() == 4,
        little_endian(little_endian_bytes(n)) == n % 0x1_0000_0000,
{
    let q1 = n / 0x100;
    let q2 = n / 0x1_0000;
    let q3 = n / 0x100_0000;
    let q4 = n / 0x1_0000_0000;
    assert(q2 == q1 / 0x100);
    assert(q3 == q2 / 0x100);
    assert(q4 == q3 / 0x100);
    assert(n == q1 * 0x100 + n % 0x100);
    assert(q1 == q2 * 0x100 + q1 % 0x100);
    assert(q2 == q3 * 0x100 + q2 % 0x100);
    assert(q3 == q4 * 0x100 + q3 % 0x100);
    assert(n == q4 * 0x1_0000_0000 + n % 0x1_0000_0000);
}

/// A length that fits in four bytes is read back.
pub proof fn lemma_length_read_back(n: nat)
    requires
        n < 0x1_0000_0000,
    ensures
        little_endian_bytes(n).len() == 4,
        little_endian(little_endian_bytes(n)) == n,
{
    law_little_endian_round_trip(n);
}

/// Four bytes that are read and written again are the same four bytes.
pub proof fn law_little_endian_bytes_round_trip(bytes: Seq<u8>)
    requires
        bytes.len() == 4,
    ensures
        little_endian(bytes) < 0x1_0000_0000,
        little_endian_bytes(little_endian(bytes)) == bytes,
{
    let n = little_endian(bytes);
    let q3 = bytes[3] as nat;
    let q2 = (bytes[2] + q3 * 0x100) as nat;
    let q1 = (bytes[1] + q2 * 0x100) as nat;
    assert(n == bytes[0] + q1 * 0x100);
    assert(n / 0x100 == q1 && n % 0x100 == bytes[0]);
    assert(q1 / 0x100 == q2 && q1 % 0x100 == bytes[1]);
    assert(q2 / 0x100 == q3 && q2 % 0x100 == bytes[2]);
    assert(n / 0x1_0000 == q1 / 0x100);
    assert(n / 0x100_0000 == n / 0x1_0000 / 0x100);
    assert(little_endian_bytes(n) =~= bytes);
}

/// The encoding of a concatenation is the concatenation of the encodings.
pub proof fn lemma_encode_concat(a: Seq<char>, b: Seq<char>)
    ensures
        vstd::utf8::encode_utf8(a + b) == vstd::utf8::encode_utf8(a) + vstd::utf8::encode_utf8(b),
    decreases a.len(),
{
    if a.len() == 0 {
        assert(a + b == b);
        assert(vstd::utf8::encode_utf8(a) == Seq::<u8>::empty());
        assert(Seq::<u8>::empty() + vstd::utf8::encode_utf8(b) == vstd::utf8::encode_utf8(b));
    } else {
        lemma_encode_concat(a.drop_first(), b);
        assert((a + b).drop_first() == a.drop_first() + b);
        let head = vstd::utf8::encode_scalar(a[0] as u32);
        let tail = vstd::utf8::encode_utf8(a.drop_first());
        assert(head + (tail + vstd::utf8::encode_utf8(b)) == (head + tail)
            + vstd::utf8::encode_utf8(b));
    }
}

/// The receiver of a request reads the payload's length from the first four
/// bytes, and finds the payload in as many bytes behind them.
pub proof fn law_message_round_trip(payload: Seq<char>)
    requires
        message_fits(payload),
    ensures
        ({
            let bytes = vstd::utf8::encode_utf8(message_text(payload));
            let length = vstd::utf8::encode_utf8(payload).len();
            &&& bytes.len() == 4 + length
            &&& host_length(bytes.take(4)) == Ok::<nat, ErrorView>(length)
            &&& utf8_outcome(bytes.skip(4)) == Ok::<Seq<char>, ErrorView>(payload)
        }),
{
    let n = vstd::utf8::encode_utf8(payload).len();
    let digits = numbers::hex4_text(n);
    let bytes = vstd::utf8::encode_utf8(message_text(payload));
    let head = vstd::utf8::encode_utf8(digits);
    lemma_encode_concat(digits, payload);
    numbers::lemma_hex4_round_trip(n, usize::MAX as nat);
    numbers::lemma_hex4_ascii(n);
    vstd::utf8::is_ascii_chars_encode_utf8(digits);
    assert(head.len() == 4);
    assert(bytes.take(4) == head);
    assert(bytes.skip(4) == vstd::utf8::encode_utf8(payload));
    vstd::utf8::encode_utf8_valid_utf8(digits);
    vstd::utf8::encode_utf8_decode_utf8(digits);
    vstd::utf8::encode_utf8_valid_utf8(payload);
    vstd::utf8::encode_utf8_decode_utf8(payload);
}

/// A request starts with hexadecimal digits, and its payload follows them.
pub proof fn lemma_message_head(payload: Seq<char>)
    requires
        message_fits(payload),
    ensures
        ({
            let bytes = vstd::utf8::encode_utf8(message_text(payload));
            &&& bytes.len() >= 4
            &&& forall|i: int|
                0 <= i < 4 ==> 0x30 <= #[trigger] bytes[i] <= 0x39 || 0x41 <= bytes[i] <= 0x46
            &&& bytes.skip(4) == vstd::utf8::encode_utf8(payload)
        }),
{
    let n = vstd::utf8::encode_utf8(payload).len();
    let digits = numbers::hex4_text(n);
    lemma_encode_concat(digits, payload);
    numbers::lemma_hex4_ascii(n);
    vstd::utf8::is_ascii_chars_encode_utf8(digits);
    let bytes = vstd::utf8::encode_utf8(message_text(payload));
    assert(bytes.skip(4) == vstd::utf8::encode_utf8(payload));
    assert forall|i: int| 0 <= i < 4 implies 0x30 <= #[trigger] bytes[i] <= 0x39 || 0x41 <= bytes[i]
        <= 0x46 by {
        assert(bytes[i] == vstd::utf8::encode_utf8(digits)[i]);
        assert(digits[i] as u8 == vstd::utf8::encode_utf8(digits)[i]);
    }
}

/// A payload of up to 65535 bytes fits, and no longer one. The message is then
/// four digits and the payload; the digits are upper-case hexadecimal ones, and
/// add up to the number of bytes in the payload.
pub proof fn law_message_is_length_and_payload(payload: Seq<char>)
    ensures
        message_fits(payload) <==> vstd::utf8::encode_utf8(payload).len() <= 65535,
        message_fits(payload) ==> {
            let message = message_text(payload);
            &&& message.len() == payload.len() + 4
            &&& message.skip(4) == payload
            &&& forall|i: int|
                0 <= i < 4 ==> {
                    let u = #[trigger] message[i] as u32;
                    0x30 <= u <= 0x39 || 0x41 <= u <= 0x46
                }
            &&& message.take(4).fold_left(
                0int,
                |v: int, c: char|
                    v * 16 + if c as u32 <= 0x39 {
                        c as u32 - 0x30
                    } else {
                        c as u32 - 0x41 + 10
                    },
            ) == vstd::utf8::encode_utf8(payload).len()
        },
{
    let n = vstd::utf8::encode_utf8(payload).len();
    if message_fits(payload) {
        let digits = numbers::hex4_text(n);
        numbers::law_hex4_adds_up(n);
        let message = message_text(payload);
        assert(message.take(4) =~= digits);
        assert(message.skip(4) =~= payload);
        assert forall|i: int| 0 <= i < 4 implies {
            let u = #[trigger] message[i] as u32;
            0x30 <= u <= 0x39 || 0x41 <= u <= 0x46
        } by {
            assert(message[i] == digits[i]);
        }
    }
}

/// The bytes of a length: four zeros are nothing, and one more in a byte makes
/// the number larger by what the byte is worth, 256 times what the byte before
/// it is worth.
pub proof fn law_bytes_of_a_length_are_worth(bytes: Seq<u8>, i: int)
    requires
        bytes.len() == 4,
        0 <= i < 4,
        bytes[i] < 255,
    ensures
        little_endian(seq![0u8, 0, 0, 0]) == 0,
        little_endian(bytes.update(i, (bytes[i] + 1) as u8)) - little_endian(bytes) == (if i == 0 {
            1int
        } else if i == 1 {
            256
        } else if i == 2 {
            65536
        } else {
            16777216
        }),
{
}

/// Text is read from its encoding and from nothing else.
pub proof fn law_text_is_read_from_its_encoding(bytes: Seq<u8>, s: Seq<char>)
    ensures
        utf8_outcome(bytes) == Ok::<Seq<char>, ErrorView>(s) <==> bytes == vstd::utf8::encode_utf8(
            s,
        ),
        utf8_outcome(bytes) is Err ==> utf8_outcome(bytes) == Err::<Seq<char>, ErrorView>(
            ErrorView::Utf8(utf8_error(bytes)),
        ),
{
    vstd::utf8::encode_utf8_valid_utf8(s);
    vstd::utf8::encode_utf8_decode_utf8(s);
    if vstd::utf8::valid_utf8(bytes) {
        vstd::utf8::decode_utf8_encode_utf8(bytes);
    }
}

/// A byte that is a hexadecimal digit, of either case.
pub open spec fn is_hex_byte(b: u8) -> bool {
    ||| 0x30 <= b <= 0x39
    ||| 0x41 <= b <= 0x46
    ||| 0x61 <= b <= 0x66
}

/// What a hexadecimal digit stands for.
pub open spec fn hex_byte_value(b: u8) -> int {
    if b <= 0x39 {
        b - 0x30
    } else if b <= 0x46 {
        b - 0x41 + 10
    } else {
        b - 0x61 + 10
    }
}

proof fn lemma_hex_char(b: u8)
    requires
        is_hex_byte(b),
    ensures
        numbers::digit_value(b as char, 16) == Some(hex_byte_value(b) as nat),
        '\0' <= b as char <= '\u{7f}',
        (b as char) as u8 == b,
        b as char != '+',
        0 <= hex_byte_value(b) < 16,
{
}

/// The length of a host message is what its four hexadecimal digits add up to:
/// each is worth sixteen times the next.
pub proof fn law_host_length_adds_up(a: u8, b: u8, c: u8, d: u8)
    requires
        is_hex_byte(a),
        is_hex_byte(b),
        is_hex_byte(c),
        is_hex_byte(d),
    ensures
        host_length(seq![a, b, c, d]) == Ok::<nat, ErrorView>(
            (hex_byte_value(a) * 4096 + hex_byte_value(b) * 256 + hex_byte_value(c) * 16
                + hex_byte_value(d)) as nat,
        ),
{
    let bytes = seq![a, b, c, d];
    lemma_hex_char(a);
    lemma_hex_char(b);
    lemma_hex_char(c);
    lemma_hex_char(d);
    let s0 = Seq::<char>::empty();
    let s1 = s0.push(a as char);
    let s2 = s1.push(b as char);
    let s3 = s2.push(c as char);
    let s = s3.push(d as char);
    assert(vstd::utf8::is_ascii_chars(s));
    vstd::utf8::is_ascii_chars_encode_utf8(s);
    assert(vstd::utf8::encode_utf8(s) =~= bytes);
    law_text_is_read_from_its_encoding(bytes, s);
    let max = usize::MAX as nat;
    assert(s.drop_last() =~= s3);
    assert(s3.drop_last() =~= s2);
    assert(s2.drop_last() =~= s1);
    assert(s1.drop_last() =~= s0);
    let x = hex_byte_value(a) as nat;
    let y = hex_byte_value(b) as nat;
    let z = hex_byte_value(c) as nat;
    let w = hex_byte_value(d) as nat;
    assert(numbers::digits_value(s0, 16, max) == Ok::<nat, numbers::ParseIntError>(0));
    assert(numbers::digits_value(s1, 16, max) == Ok::<nat, numbers::ParseIntError>(x));
    assert(numbers::digits_value(s2, 16, max) == Ok::<nat, numbers::ParseIntError>(x * 16 + y));
    assert(numbers::digits_value(s3, 16, max) == Ok::<nat, numbers::ParseIntError>(
        (x * 16 + y) * 16 + z,
    ));
    assert(numbers::digits_value(s, 16, max) == Ok::<nat, numbers::ParseIntError>(
        ((x * 16 + y) * 16 + z) * 16 + w,
    ));
    assert(s[0] == a as char);
}

/// A length is read from text alone, and as a number to the base 16, whether it
/// is one or not.
pub proof fn law_length_is_a_number_in_text(bytes: Seq<u8>, s: Seq<char>)
    ensures
        !vstd::utf8::valid_utf8(bytes) ==> host_length(bytes) == Err::<nat, ErrorView>(
            ErrorView::Utf8(utf8_error(bytes)),
        ),
        bytes == vstd::utf8::encode_utf8(s) ==> host_length(bytes) == (match numbers::number_value(
            s,
            16,
            usize::MAX as nat,
        ) {
            Ok(n) => Ok::<nat, ErrorView>(n),
            Err(e) => Err(ErrorView::ParseInt(e)),
        }),
{
    law_text_is_read_from_its_encoding(bytes, s);
}

} // verus!
