//! Reading bytecode from its hex text.
use vstd::prelude::*;

use crate::error::EvmError;

verus! {

/// The error of `hex::decode`, carried without looking inside.
#[verifier::external_type_specification]
#[verifier::external_body]
pub struct ExFromHexError(hex::FromHexError);

pub open spec fn is_hex_digit(c: u8) -> bool {
    (0x30 <= c <= 0x39) || (0x41 <= c <= 0x46) || (0x61 <= c <= 0x66)
}

/// The value of a hex digit, upper or lower case.
pub open spec fn hex_value(c: u8) -> int {
    if 0x30 <= c <= 0x39 {
        c - 0x30
    } else if 0x41 <= c <= 0x46 {
        c - 0x41 + 10
    } else {
        c - 0x61 + 10
    }
}

/// An even number of hex digits.
pub open spec fn is_hex(s: Seq<u8>) -> bool {
    s.len() % 2 == 0 && forall|i: int| 0 <= i < s.len() ==> is_hex_digit(#[trigger] s[i])
}

/// The bytes that a string of hex digits spells, two digits per byte.
pub open spec fn hex_bytes(s: Seq<u8>) -> Seq<u8> {
    Seq::new(s.len() / 2, |i: int| (hex_value(s[2 * i]) * 16 + hex_value(s[2 * i + 1])) as u8)
}

/// Relies on `hex::decode`: it succeeds exactly on an even number of hex
/// digits, of either case, and then gives one byte per pair of digits, the
/// first digit the high half.
#[verifier::external_body]
fn hex_decode(data: &[u8]) -> (r: Result<Vec<u8>, hex::FromHexError>)
    ensures
        r is Ok <==> is_hex(data@),
        r matches Ok(v) ==> v@ == hex_bytes(data@),
{
    hex::decode(data)
}

pub open spec fn is_ascii_whitespace(c: u8) -> bool {
    c == 0x20 || (0x09 <= c <= 0x0d)
}

/// `s` without any number of leading `"0x"`.
pub open spec fn strip_hex_prefix(s: Seq<u8>) -> Seq<u8>
    decreases s.len(),
{
    if s.len() >= 2 && s[0] == 0x30 && s[1] == 0x78 {
        strip_hex_prefix(s.subrange(2, s.len() as int))
    } else {
        s
    }
}

/// `s` without leading ASCII whitespace.
pub open spec fn trim_start(s: Seq<u8>) -> Seq<u8>
    decreases s.len(),
{
    if s.len() > 0 && is_ascii_whitespace(s[0]) {
        trim_start(s.drop_first())
    } else {
        s
    }
}

/// `s` without trailing ASCII whitespace.
pub open spec fn trim_end(s: Seq<u8>) -> Seq<u8>
    decreases s.len(),
{
    if s.len() > 0 && is_ascii_whitespace(s.last()) {
        trim_end(s.drop_last())
    } else {
        s
    }
}

/// The hex digits of a bytecode text: leading `"0x"` removed first, then
/// surrounding whitespace.
pub open spec fn runtime_digits(text: Seq<u8>) -> Seq<u8> {
    trim_end(trim_start(strip_hex_prefix(text)))
}

/// Decode the text of a bytecode file: any leading `0x` is dropped, then
/// surrounding ASCII whitespace, and what remains must be an even number of
/// hex digits. Only ASCII whitespace is trimmed: other Unicode whitespace,
/// such as U+00A0 or U+2028, stays and makes the text malformed.
pub fn decode_runtime(text: &[u8]) -> (r: Result<Vec<u8>, EvmError>)
    ensures
        is_hex(runtime_digits(text@)) ==> (r matches Ok(v) && v@ == hex_bytes(runtime_digits(text@))),
        !is_hex(runtime_digits(text@)) ==> r == Err::<Vec<u8>, EvmError>(EvmError::MalformedInput),
{
    let n = text.len();
    let mut start: usize = 0;
    assert(text@.subrange(0, n as int) =~= text@);
    while 2 <= n - start && text[start] == 0x30 && text[start + 1] == 0x78
        invariant
            start <= n == text@.len(),
            strip_hex_prefix(text@.subrange(start as int, n as int)) == strip_hex_prefix(text@),
        decreases n - start,
    {
        assert(text@.subrange(start as int, n as int).subrange(2, n - start) =~= text@.subrange(
            start + 2,
            n as int,
        ));
        start += 2;
    }
    assert(strip_hex_prefix(text@.subrange(start as int, n as int)) == text@.subrange(
        start as int,
        n as int,
    ));
    while start < n && (text[start] == 0x20 || (0x09 <= text[start] && text[start] <= 0x0d))
        invariant
            start <= n == text@.len(),
            trim_start(text@.subrange(start as int, n as int)) == trim_start(strip_hex_prefix(text@)),
        decreases n - start,
    {
        assert(text@.subrange(start as int, n as int).drop_first() =~= text@.subrange(
            start + 1,
            n as int,
        ));
        start += 1;
    }
    let mut end: usize = n;
    while end > start && (text[end - 1] == 0x20 || (0x09 <= text[end - 1] && text[end - 1] <= 0x0d))
        invariant
            start <= end <= n == text@.len(),
            trim_end(text@.subrange(start as int, end as int)) == runtime_digits(text@),
        decreases end - start,
    {
        assert(text@.subrange(start as int, end as int).drop_last() =~= text@.subrange(
            start as int,
            end - 1,
        ));
        end -= 1;
    }
    let mut digits: Vec<u8> = Vec::new();
    let mut i: usize = start;
    while i < end
        invariant
            start <= i <= end <= n == text@.len(),
            digits@ == text@.subrange(start as int, i as int),
        decreases end - i,
    {
        digits.push(text[i]);
        assert(digits@ =~= text@.subrange(start as int, i + 1));
        i += 1;
    }
    assert(digits@ == runtime_digits(text@));
    match hex_decode(digits.as_slice()) {
        Ok(v) => Ok(v),
        Err(_) => Err(EvmError::MalformedInput),
    }
}

} // verus!
