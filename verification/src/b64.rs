//! Base64 through the `base64` crate (the standard and URL-safe alphabets,
//! with padding).
use vstd::prelude::*;
use base64::Engine;
use crate::archive::{without_white, without_white_exec};
use crate::error::CoreError;
use crate::text::{push_str, string_from_chars, string_from_utf8_lossy, utf8_lossy};
use vstd::string::StringSliceAdditionalSpecFns;
use vstd::utf8::encode_utf8;

verus! {

/// What `base64::engine::general_purpose::STANDARD` decodes from the bytes:
/// the decoded bytes, or the text of its error.
pub uninterp spec fn b64_standard(d: Seq<u8>) -> Result<Seq<u8>, Seq<char>>;

/// What `base64::engine::general_purpose::URL_SAFE` decodes from the bytes.
pub uninterp spec fn b64_url_safe(d: Seq<u8>) -> Result<Seq<u8>, Seq<char>>;

/// The views of a decoder's result.
pub open spec fn decoded_view(r: Result<Vec<u8>, String>) -> Result<Seq<u8>, Seq<char>> {
    match r {
        Ok(v) => Ok(v@),
        Err(s) => Err(s@),
    }
}

/// `STANDARD.decode`: base64 with the standard alphabet and canonical
/// padding; the result is a function of the input bytes alone.
#[verifier::external_body]
pub(crate) fn decode_standard(d: &[u8]) -> (r: Result<Vec<u8>, String>)
    ensures
        decoded_view(r) == b64_standard(d@),
{
    match base64::engine::general_purpose::STANDARD.decode(d) {
        Ok(v) => Ok(v),
        Err(e) => Err(e.to_string()),
    }
}

/// `URL_SAFE.decode`: base64 with the URL-safe alphabet and canonical
/// padding; the result is a function of the input bytes alone.
#[verifier::external_body]
pub(crate) fn decode_url_safe(d: &[u8]) -> (r: Result<Vec<u8>, String>)
    ensures
        decoded_view(r) == b64_url_safe(d@),
{
    match base64::engine::general_purpose::URL_SAFE.decode(d) {
        Ok(v) => Ok(v),
        Err(e) => Err(e.to_string()),
    }
}

/// What `base64::engine::general_purpose::STANDARD` encodes the bytes to.
pub uninterp spec fn b64_standard_encoding(d: Seq<u8>) -> Seq<char>;

/// What `base64::engine::general_purpose::URL_SAFE` encodes the bytes to.
pub uninterp spec fn b64_url_safe_encoding(d: Seq<u8>) -> Seq<char>;

/// `STANDARD.encode`: base64 with the standard alphabet and padding; the
/// result is a function of the input bytes alone.
#[verifier::external_body]
pub(crate) fn encode_standard(d: &[u8]) -> (s: String)
    ensures
        s@ == b64_standard_encoding(d@),
{
    base64::engine::general_purpose::STANDARD.encode(d)
}

/// `URL_SAFE.encode`: base64 with the URL-safe alphabet and padding; the
/// result is a function of the input bytes alone.
#[verifier::external_body]
pub(crate) fn encode_url_safe(d: &[u8]) -> (s: String)
    ensures
        s@ == b64_url_safe_encoding(d@),
{
    base64::engine::general_purpose::URL_SAFE.encode(d)
}

/// The decoding of one of the two alphabets.
pub open spec fn b64_decoding(d: Seq<u8>, url_safe: bool) -> Result<Seq<u8>, Seq<char>> {
    if url_safe {
        b64_url_safe(d)
    } else {
        b64_standard(d)
    }
}

/// What `base64_decode_text` gives: the text without white space, decoded,
/// and the bytes read as UTF-8 (invalid sequences replaced); or the
/// decoder's error.
pub open spec fn base64_decode_text_spec(text: Seq<char>, url_safe: bool) -> Result<Seq<char>, Seq<char>> {
    match b64_decoding(encode_utf8(without_white(text)), url_safe) {
        Ok(b) => Ok(utf8_lossy(b)),
        Err(e) => Err("Base64 解码失败: "@ + e),
    }
}

/// Decode base64 text (white space anywhere is ignored) to text.
pub fn base64_decode_text(text: &str, url_safe: bool) -> (r: Result<String, CoreError>)
    ensures
        match (r, base64_decode_text_spec(text@, url_safe)) {
            (Ok(s), Ok(w)) => s@ == w,
            (Err(e), Err(m)) => e.is_parse_with(m),
            _ => false,
        },
{
    let compact = string_from_chars(&without_white_exec(text));
    let bytes = compact.as_str().as_bytes();
    let decoded = if url_safe {
        decode_url_safe(bytes)
    } else {
        decode_standard(bytes)
    };
    match decoded {
        Ok(b) => Ok(string_from_utf8_lossy(b.as_slice())),
        Err(e) => {
            let mut m = String::new();
            push_str(&mut m, "Base64 解码失败: ");
            push_str(&mut m, e.as_str());
            Err(CoreError::Parse(m))
        },
    }
}

/// Encode the UTF-8 bytes of text as base64.
pub fn base64_encode_text(text: &str, url_safe: bool) -> (s: String)
    ensures
        s@ == if url_safe {
            b64_url_safe_encoding(text.spec_bytes())
        } else {
            b64_standard_encoding(text.spec_bytes())
        },
{
    if url_safe {
        encode_url_safe(text.as_bytes())
    } else {
        encode_standard(text.as_bytes())
    }
}

} // verus!
