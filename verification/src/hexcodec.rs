//! Hexadecimal text, through the `hex` crate.
use vstd::prelude::*;

verus! {

/// The value of an ASCII hex digit (either case), if it is one.
pub open spec fn hex_value(c: u8) -> Option<int> {
    if 48 <= c <= 57 {
        Some(c - 48)
    } else if 97 <= c <= 102 {
        Some(c - 97 + 10)
    } else if 65 <= c <= 70 {
        Some(c - 65 + 10)
    } else {
        None
    }
}

/// An even number of hex digits.
pub open spec fn hex_ok(d: Seq<u8>) -> bool {
    d.len() % 2 == 0 && forall|i: int| 0 <= i < d.len() ==> (#[trigger] hex_value(d[i])) is Some
}

/// The bytes that pairs of hex digits spell, the first digit of a pair high.
pub open spec fn hex_bytes(d: Seq<u8>) -> Seq<u8> {
    Seq::new(
        d.len() / 2,
        |i: int| (hex_value(d[2 * i])->Some_0 * 16 + hex_value(d[2 * i + 1])->Some_0) as u8,
    )
}

/// The text of the error `hex::decode` gives for bytes that are no hex.
pub uninterp spec fn hex_error_text(d: Seq<u8>) -> Seq<char>;

/// `hex::decode`: an even number of hex digits (upper or lower case) gives
/// the bytes they spell, two digits a byte; an odd length or a character
/// that is no hex digit is an error, whose text is a function of the input.
#[verifier::external_body]
pub(crate) fn hex_decode(data: &[u8]) -> (r: Result<Vec<u8>, String>)
    ensures
        match r {
            Ok(v) => hex_ok(data@) && v@ == hex_bytes(data@),
            Err(m) => !hex_ok(data@) && m@ == hex_error_text(data@),
        },
{
    match hex::decode(data) {
        Ok(v) => Ok(v),
        Err(e) => Err(e.to_string()),
    }
}

/// The lower-case hex digit of a value below 16.
pub open spec fn hex_digit(v: int) -> char {
    if v < 10 {
        (48 + v) as char
    } else {
        (87 + v) as char
    }
}

/// Two lower-case hex digits per byte.
pub open spec fn hex_text(d: Seq<u8>) -> Seq<char> {
    Seq::new(
        2 * d.len(),
        |i: int| if i % 2 == 0 { hex_digit(d[i / 2] as int / 16) } else { hex_digit(d[i / 2] as int % 16) },
    )
}

/// `hex::encode`: two lower-case hex digits per byte.
#[verifier::external_body]
pub(crate) fn hex_encode(data: &[u8]) -> (s: String)
    ensures
        s@ == hex_text(data@),
{
    hex::encode(data)
}

} // verus!
