//! Decoding of hex strings into byte sequences.

use vstd::prelude::*;

verus! {

/// Why a hex string could not be decoded.
#[derive(Clone, Copy, PartialEq, Eq, Structural, Debug)]
pub enum HexDecodeError {
    /// The input length is odd, so the final digit has no partner.
    OddLength,
    /// Some character of the input is not a hex digit.
    InvalidDigit,
}

/// The numeric value of one hex digit character, if the byte is one.
pub open spec fn hex_digit_value(b: u8) -> Option<u8> {
    if 48 <= b && b <= 57 {
        Some((b - 48) as u8)
    } else if 97 <= b && b <= 102 {
        Some((b - 87) as u8)
    } else if 65 <= b && b <= 70 {
        Some((b - 55) as u8)
    } else {
        None
    }
}

/// Whether the byte is the ASCII code of a hex digit.
pub open spec fn is_hex_digit(b: u8) -> bool {
    hex_digit_value(b) is Some
}

/// The byte encoded by a pair of hex digits, high digit first.
pub open spec fn hex_pair_value(hi: u8, lo: u8) -> u8
    recommends
        is_hex_digit(hi),
        is_hex_digit(lo),
{
    (hex_digit_value(hi).unwrap() * 16 + hex_digit_value(lo).unwrap()) as u8
}

/// The numeric value of one hex digit character, executably.
fn hex_digit(b: u8) -> (r: Option<u8>)
    ensures
        r == hex_digit_value(b),
{
    if 48 <= b && b <= 57 {
        Some(b - 48)
    } else if 97 <= b && b <= 102 {
        Some(b - 87)
    } else if 65 <= b && b <= 70 {
        Some(b - 55)
    } else {
        None
    }
}

/// Decodes a string of hex digit characters, given as bytes, into the byte
/// sequence it spells: every two digits form one output byte, high digit
/// first.  An odd-length input or one holding a character that is not a hex
/// digit is rejected outright; the result is never truncated.
pub fn decode_hex(s: &[u8]) -> (res: Result<Vec<u8>, HexDecodeError>)
    ensures
        match res {
            Ok(v) => {
                &&& s@.len() % 2 == 0
                &&& forall|i: int| 0 <= i < s@.len() ==> is_hex_digit(#[trigger] s@[i])
                &&& v@.len() == s@.len() / 2
                &&& forall|k: int|
                    0 <= k < v@.len() ==> #[trigger] v@[k] == hex_pair_value(
                        s@[2 * k],
                        s@[2 * k + 1],
                    )
            },
            Err(HexDecodeError::OddLength) => s@.len() % 2 != 0,
            Err(HexDecodeError::InvalidDigit) => {
                &&& s@.len() % 2 == 0
                &&& exists|i: int| 0 <= i < s@.len() && !is_hex_digit(#[trigger] s@[i])
            },
        },
{
    if s.len() % 2 != 0 {
        return Err(HexDecodeError::OddLength);
    }
    let mut out: Vec<u8> = Vec::new();
    let mut i: usize = 0;
    while i < s.len()
        invariant
            i % 2 == 0,
            i <= s@.len(),
            s@.len() % 2 == 0,
            out@.len() == i / 2,
            forall|j: int| 0 <= j < i ==> is_hex_digit(#[trigger] s@[j]),
            forall|k: int|
                0 <= k < out@.len() ==> #[trigger] out@[k] == hex_pair_value(
                    s@[2 * k],
                    s@[2 * k + 1],
                ),
        decreases s@.len() - i,
    {
        let hi = match hex_digit(s[i]) {
            Some(v) => v,
            None => {
                return Err(HexDecodeError::InvalidDigit);
            },
        };
        let lo = match hex_digit(s[i + 1]) {
            Some(v) => v,
            None => {
                return Err(HexDecodeError::InvalidDigit);
            },
        };
        out.push(hi * 16 + lo);
        i = i + 2;
    }
    Ok(out)
}

} // verus!
