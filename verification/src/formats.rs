//! Bytes written as text in one of three formats: hex, base64 or UTF-8.
use vstd::prelude::*;
use crate::archive::{without_white, without_white_exec};
use crate::b64::{b64_standard, b64_standard_encoding, decode_standard, encode_standard};
use crate::error::CoreError;
use crate::hexcodec::{hex_bytes, hex_decode, hex_encode, hex_error_text, hex_ok, hex_text};
use crate::text::{chars_eq, chars_of, push_str, string_from_chars, string_from_utf8_lossy, utf8_lossy};
use vstd::string::StringSliceAdditionalSpecFns;
use vstd::utf8::encode_utf8;

verus! {

/// The bytes that text in a format stands for: `Hex` and `Base64` ignore
/// white space; any other format is the text's UTF-8. An error carries the
/// decoder's message.
pub open spec fn parse_bytes_spec(s: Seq<char>, format: Seq<char>) -> Result<Seq<u8>, Seq<char>> {
    let compact = encode_utf8(without_white(s));
    if format == "Hex"@ {
        if hex_ok(compact) {
            Ok(hex_bytes(compact))
        } else {
            Err("Hex 解析失败: "@ + hex_error_text(compact))
        }
    } else if format == "Base64"@ {
        match b64_standard(compact) {
            Ok(b) => Ok(b),
            Err(e) => Err("Base64 解析失败: "@ + e),
        }
    } else {
        Ok(encode_utf8(s))
    }
}

/// Whether the characters of `s` are those of `lit`.
fn is_format(s: &str, lit: &str) -> (b: bool)
    ensures
        b == (s@ == lit@),
{
    let a = chars_of(s);
    let l = chars_of(lit);
    chars_eq(&a, &l)
}

/// Read bytes written in `format` (`Hex`, `Base64`, or UTF-8 text).
pub fn parse_bytes(s: &str, format: &str) -> (r: Result<Vec<u8>, CoreError>)
    ensures
        match (r, parse_bytes_spec(s@, format@)) {
            (Ok(v), Ok(w)) => v@ == w,
            (Err(e), Err(m)) => e.is_parse_with(m),
            _ => false,
        },
{
    proof {
        reveal_strlit("Hex");
        reveal_strlit("Base64");
    }
    if is_format(format, "Hex") || is_format(format, "Base64") {
        let compact = string_from_chars(&without_white_exec(s));
        let bytes = compact.as_str().as_bytes();
        if is_format(format, "Hex") {
            match hex_decode(bytes) {
                Ok(v) => Ok(v),
                Err(e) => {
                    let mut m = String::new();
                    push_str(&mut m, "Hex 解析失败: ");
                    push_str(&mut m, e.as_str());
                    Err(CoreError::Parse(m))
                },
            }
        } else {
            match decode_standard(bytes) {
                Ok(v) => Ok(v),
                Err(e) => {
                    let mut m = String::new();
                    push_str(&mut m, "Base64 解析失败: ");
                    push_str(&mut m, e.as_str());
                    Err(CoreError::Parse(m))
                },
            }
        }
    } else {
        let b = s.as_bytes();
        let mut v: Vec<u8> = Vec::new();
        let mut i: usize = 0;
        while i < b.len()
            invariant
                i <= b.len(),
                v@ == b@.take(i as int),
            decreases b.len() - i,
        {
            v.push(b[i]);
            assert(b@.take(i + 1) =~= b@.take(i as int).push(b@[i as int]));
            i += 1;
        }
        assert(b@.take(b.len() as int) =~= b@);
        Ok(v)
    }
}

/// Bytes written in a format: `Base64`, `UTF8` (invalid sequences
/// replaced), or lower-case hex for any other.
pub open spec fn format_bytes_spec(b: Seq<u8>, format: Seq<char>) -> Seq<char> {
    if format == "Base64"@ {
        b64_standard_encoding(b)
    } else if format == "UTF8"@ {
        utf8_lossy(b)
    } else {
        hex_text(b)
    }
}

/// Write bytes in `format` (`Base64`, `UTF8`, or hex).
pub fn format_bytes(b: &[u8], format: &str) -> (s: String)
    ensures
        s@ == format_bytes_spec(b@, format@),
{
    proof {
        reveal_strlit("Base64");
        reveal_strlit("UTF8");
    }
    if is_format(format, "Base64") {
        encode_standard(b)
    } else if is_format(format, "UTF8") {
        string_from_utf8_lossy(b)
    } else {
        hex_encode(b)
    }
}

} // verus!
