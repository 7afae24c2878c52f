//! Content addresses: their text form and how they follow from the content.

use crate::error::Error;
use crate::text::{decimal, digit_str};
use vstd::prelude::*;
use vstd::utf8::encode_utf8;

verus! {

use crate::text::{decimal_text, digit_char};

/// Length of a content address, in bytes.
pub const ADDRESS_LEN: usize = 32;

/// Two lower-case hexadecimal digits for each byte.
pub open spec fn hex_text(bytes: Seq<u8>) -> Seq<char> {
    Seq::new(
        2 * bytes.len(),
        |i: int|
            if i % 2 == 0 {
                digit_char(bytes[i / 2] as int / 16)
            } else {
                digit_char(bytes[i / 2] as int % 16)
            },
    )
}

/// The value of a hexadecimal digit in either case.
pub open spec fn hex_value(digit: u8) -> Option<u8> {
    if 48 <= digit <= 57 {
        Some((digit - 48) as u8)
    } else if 97 <= digit <= 102 {
        Some((digit - 87) as u8)
    } else if 65 <= digit <= 70 {
        Some((digit - 55) as u8)
    } else {
        None
    }
}

/// Whether every byte is a hexadecimal digit.
pub open spec fn all_hex(digits: Seq<u8>) -> bool {
    forall|i: int| 0 <= i < digits.len() ==> hex_value(#[trigger] digits[i]) is Some
}

/// The bytes that pairs of hexadecimal digits stand for.
pub open spec fn hex_bytes(digits: Seq<u8>) -> Seq<u8> {
    Seq::new(
        digits.len() / 2,
        |i: int|
            (16 * hex_value(digits[2 * i])->Some_0 + hex_value(digits[2 * i + 1])->Some_0) as u8,
    )
}

/// The characters with the Unicode property `White_Space`.
pub open spec fn is_white_space(c: char) -> bool {
    let code = c as u32;
    ||| 0x09 <= code <= 0x0d
    ||| code == 0x20
    ||| code == 0x85
    ||| code == 0xa0
    ||| code == 0x1680
    ||| 0x2000 <= code <= 0x200a
    ||| code == 0x2028
    ||| code == 0x2029
    ||| code == 0x202f
    ||| code == 0x205f
    ||| code == 0x3000
}

/// A text without the white space at its start.
pub open spec fn trimmed_start(text: Seq<char>) -> Seq<char>
    decreases text.len(),
{
    if text.len() > 0 && is_white_space(text.first()) {
        trimmed_start(text.drop_first())
    } else {
        text
    }
}

/// A text without the white space at its end.
pub open spec fn trimmed_end(text: Seq<char>) -> Seq<char>
    decreases text.len(),
{
    if text.len() > 0 && is_white_space(text.last()) {
        trimmed_end(text.drop_last())
    } else {
        text
    }
}

/// A text without the white space around it.
pub open spec fn trimmed(text: Seq<char>) -> Seq<char> {
    trimmed_end(trimmed_start(text))
}

/// `str::trim`: the text without the characters of the Unicode property `White_Space` at its
/// start and at its end.
#[verifier::external_body]
fn trim(text: &str) -> (inner: &str)
    ensures
        inner@ == trimmed(text@),
{
    text.trim()
}

/// The message for a text of the wrong length.
pub open spec fn wrong_length_message(got: nat) -> Seq<char> {
    "expected 64 hex characters, got "@ + decimal_text(got)
}

/// Parse a hex address into its 32 raw bytes.
///
/// White space around the digits is ignored; there is no multibase and no prefix.
pub fn parse_hex_address(text: &str) -> (address: Result<Vec<u8>, Error>)
    ensures
        ({
            let digits = encode_utf8(trimmed(text@));
            match address {
                Ok(bytes) => {
                    &&& digits.len() == 2 * ADDRESS_LEN
                    &&& all_hex(digits)
                    &&& bytes@ == hex_bytes(digits)
                },
                Err(error) => {
                    ||| digits.len() != 2 * ADDRESS_LEN && error@ == wrong_length_message(
                        digits.len(),
                    )
                    ||| digits.len() == 2 * ADDRESS_LEN && !all_hex(digits) && error@
                        == "address contains a non-hex character"@
                },
            }
        }),
{
    let digits = trim(text).as_bytes();
    if digits.len() != 2 * ADDRESS_LEN {
        let mut message = "expected 64 hex characters, got ".to_owned();
        let got = decimal(digits.len());
        message.append(got.as_str());
        return Err(Error::new(message));
    }
    let mut out: Vec<u8> = Vec::with_capacity(ADDRESS_LEN);
    let mut i: usize = 0;
    while i < ADDRESS_LEN
        invariant
            i <= ADDRESS_LEN,
            digits@.len() == 2 * ADDRESS_LEN,
            digits@ == encode_utf8(trimmed(text@)),
            out@ == hex_bytes(digits@).take(i as int),
            forall|j: int| 0 <= j < 2 * i ==> hex_value(#[trigger] digits@[j]) is Some,
        decreases ADDRESS_LEN - i,
    {
        let hi = match hex_digit(digits[2 * i]) {
            Ok(value) => value,
            Err(error) => return Err(error),
        };
        let lo = match hex_digit(digits[2 * i + 1]) {
            Ok(value) => value,
            Err(error) => return Err(error),
        };
        assert(hi << 4 | lo == 16 * hi + lo) by (bit_vector)
            requires
                hi < 16,
                lo < 16,
        ;
        out.push(hi << 4 | lo);
        assert(out@ =~= hex_bytes(digits@).take(i + 1));
        i += 1;
    }
    assert(hex_bytes(digits@).take(ADDRESS_LEN as int) =~= hex_bytes(digits@));
    Ok(out)
}

/// The value of one hexadecimal digit.
pub fn hex_digit(byte: u8) -> (value: Result<u8, Error>)
    ensures
        match value {
            Ok(value) => hex_value(byte) == Some(value) && value < 16,
            Err(error) => hex_value(byte) is None && error@
                == "address contains a non-hex character"@,
        },
{
    if 48 <= byte && byte <= 57 {
        Ok(byte - 48)
    } else if 97 <= byte && byte <= 102 {
        Ok(byte - 87)
    } else if 65 <= byte && byte <= 70 {
        Ok(byte - 55)
    } else {
        Err(Error::new("address contains a non-hex character".to_owned()))
    }
}

/// The array that holds an address given as a slice.
pub fn parse_address(bytes: &[u8]) -> (address: Result<[u8; ADDRESS_LEN], Error>)
    ensures
        match address {
            Ok(address) => bytes@.len() == ADDRESS_LEN && address@ == bytes@,
            Err(error) => bytes@.len() != ADDRESS_LEN && error@ == "address must be 32 bytes"@,
        },
{
    if bytes.len() != ADDRESS_LEN {
        return Err(Error::new("address must be 32 bytes".to_owned()));
    }
    let mut address: [u8; ADDRESS_LEN] = [0u8; ADDRESS_LEN];
    let mut i: usize = 0;
    while i < ADDRESS_LEN
        invariant
            i <= ADDRESS_LEN,
            bytes@.len() == ADDRESS_LEN,
            forall|j: int| 0 <= j < i ==> address@[j] == bytes@[j],
        decreases ADDRESS_LEN - i,
    {
        address[i] = bytes[i];
        i += 1;
    }
    assert(address@ =~= bytes@);
    Ok(address)
}

/// Two lower-case hexadecimal digits for each byte.
pub fn hex(bytes: &[u8]) -> (text: String)
    ensures
        text@ == hex_text(bytes@),
{
    let mut out = String::new();
    let mut i: usize = 0;
    while i < bytes.len()
        invariant
            i <= bytes@.len(),
            out@ == hex_text(bytes@.take(i as int)),
        decreases bytes.len() - i,
    {
        out.append(digit_str(bytes[i] / 16));
        out.append(digit_str(bytes[i] % 16));
        assert(out@ =~= hex_text(bytes@.take(i + 1)));
        i += 1;
    }
    assert(bytes@.take(bytes@.len() as int) =~= bytes@);
    out
}

/// The BLAKE3 hash of a byte string.
pub uninterp spec fn blake3_hash(bytes: Seq<u8>) -> Seq<u8>;

/// `blake3::hash`: the 32 bytes of the hash, which depend on the input bytes alone.
#[verifier::external_body]
fn digest(bytes: &[u8]) -> (hash: [u8; ADDRESS_LEN])
    ensures
        hash@ == blake3_hash(bytes@),
{
    *blake3::hash(bytes).as_bytes()
}

/// The network's content address for a blob: BLAKE3 of the bytes.
pub fn address_of(bytes: &[u8]) -> (address: [u8; ADDRESS_LEN])
    ensures
        address@ == blake3_hash(bytes@),
{
    digest(bytes)
}

/// The network's content address for a blob, as a vector.
pub fn content_address(bytes: &[u8]) -> (address: Vec<u8>)
    ensures
        address@ == blake3_hash(bytes@),
        address@.len() == ADDRESS_LEN,
{
    let address = digest(bytes);
    vstd::slice::slice_to_vec(address.as_slice())
}

} // verus!
