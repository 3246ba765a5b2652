//! Archive extraction: recognising the format, turning the input into
//! archive bytes, decompressing gzip / zlib / raw deflate, choosing the entry
//! to output and summarising the result.
use vstd::prelude::*;
use crate::b64::{b64_standard, b64_url_safe, decode_standard, decode_url_safe};
use crate::compress::{gunzip, gunzip_result, inflate_result, raw_inflate, result_view, zlib_inflate, zlib_result};
use crate::classic::join;
use crate::error::CoreError;
use crate::readers::{
    list_zip_entries, read_tar, read_zip_entry, read_zip_entry_decrypt, read_view, tar_listing, tar_view, zip_decrypted,
    zip_listing, zip_plain, zip_view, TarEntryView, ZipEntryView,
};
use crate::compress::{gz_filename_bytes, gz_header_name};
use crate::text::{
    chars_of, chars_eq, decimal, is_alnum, parse_usize, parse_usize_spec, is_ascii_alnum, is_white, is_whitespace, lower, push_char,
    push_decimal, push_str, string_from_chars, string_from_utf8_lossy, to_lower, trim_chars, trim_spec,
    utf8_lossy,
};
use vstd::string::StringExecFns;
use vstd::string::StringSliceAdditionalSpecFns;
use vstd::utf8::encode_utf8;

verus! {

/// One entry of an extracted archive.
#[derive(Debug, Clone)]
pub struct EntryData {
    pub name: String,
    pub is_dir: bool,
    pub size: u64,
    pub compressed_size: Option<u64>,
    pub encrypted: bool,
    pub crc32: Option<u32>,
    pub bytes: Option<Vec<u8>>,
    pub error: Option<String>,
}

/// An extracted archive: its format and entries.
#[derive(Debug, Clone)]
pub struct ArchiveData {
    pub format: String,
    pub entries: Vec<EntryData>,
}

// ---------------------------------------------------------------------------
// Formats
// ---------------------------------------------------------------------------

/// Whether `d` starts with `pat`.
pub open spec fn starts(d: Seq<u8>, pat: Seq<u8>) -> bool {
    d.len() >= pat.len() && d.take(pat.len() as int) == pat
}

/// A zlib header: deflate as the method and a header checksum divisible by
/// 31.
pub open spec fn zlib_like(d: Seq<u8>) -> bool {
    d.len() >= 2 && d[0] % 16 == 8 && (d[0] as int * 256 + d[1] as int) % 31 == 0
}

/// The format that the magic bytes show.
pub open spec fn detect_spec(d: Seq<u8>) -> Seq<char> {
    if starts(d, seq![0x50u8, 0x4bu8, 3u8, 4u8]) || starts(d, seq![0x50u8, 0x4bu8, 5u8, 6u8])
        || starts(d, seq![0x50u8, 0x4bu8, 7u8, 8u8]) {
        "zip"@
    } else if starts(d, seq![0x37u8, 0x7au8, 0xbcu8, 0xafu8, 0x27u8, 0x1cu8]) {
        "7z"@
    } else if starts(d, seq![0x1fu8, 0x8bu8]) {
        "gz"@
    } else if starts(d, seq![0x52u8, 0x61u8, 0x72u8, 0x21u8]) {
        "rar"@
    } else if d.len() > 262 && d.subrange(257, 262) == seq![0x75u8, 0x73u8, 0x74u8, 0x61u8, 0x72u8] {
        "tar"@
    } else if zlib_like(d) {
        "zlib"@
    } else {
        "unknown"@
    }
}

/// Each signature is detected as its own format: bytes that begin with a
/// ZIP signature (`PK` then 3 4, 5 6 or 7 8) are `zip`; with the 7z
/// signature `37 7A BC AF 27 1C`, `7z`; with `1F 8B`, `gz`; with `Rar!`,
/// `rar`; and bytes with `ustar` at offset 257 (and none of those at the
/// start) are `tar`.
pub proof fn lemma_detect_signatures(d: Seq<u8>)
    ensures
        d.len() >= 4 && d[0] == 0x50 && d[1] == 0x4b && ((d[2] == 3 && d[3] == 4) || (d[2] == 5 && d[3] == 6) || (
        d[2] == 7 && d[3] == 8)) ==> detect_spec(d) == "zip"@,
        d.len() >= 6 && d[0] == 0x37 && d[1] == 0x7a && d[2] == 0xbc && d[3] == 0xaf && d[4] == 0x27 && d[5] == 0x1c
            ==> detect_spec(d) == "7z"@,
        d.len() >= 2 && d[0] == 0x1f && d[1] == 0x8b ==> detect_spec(d) == "gz"@,
        d.len() >= 4 && d[0] == 0x52 && d[1] == 0x61 && d[2] == 0x72 && d[3] == 0x21 ==> detect_spec(d) == "rar"@,
        d.len() > 262 && d[0] != 0x50 && d[0] != 0x37 && d[0] != 0x1f && d[0] != 0x52 && d[257] == 0x75 && d[258]
            == 0x73 && d[259] == 0x74 && d[260] == 0x61 && d[261] == 0x72 ==> detect_spec(d) == "tar"@,
{
    let z1 = seq![0x50u8, 0x4bu8, 3u8, 4u8];
    let z2 = seq![0x50u8, 0x4bu8, 5u8, 6u8];
    let z3 = seq![0x50u8, 0x4bu8, 7u8, 8u8];
    let sz = seq![0x37u8, 0x7au8, 0xbcu8, 0xafu8, 0x27u8, 0x1cu8];
    let gz = seq![0x1fu8, 0x8bu8];
    let rar = seq![0x52u8, 0x61u8, 0x72u8, 0x21u8];
    if d.len() >= 1 {
        assert(starts(d, z1) ==> d[0] == 0x50 && d[2] == 3 && d[3] == 4) by {
            if starts(d, z1) {
                assert(d.take(4)[0] == d[0] && d.take(4)[2] == d[2] && d.take(4)[3] == d[3]);
            }
        }
        assert(starts(d, z2) ==> d[0] == 0x50 && d[2] == 5) by {
            if starts(d, z2) {
                assert(d.take(4)[0] == d[0] && d.take(4)[2] == d[2]);
            }
        }
        assert(starts(d, z3) ==> d[0] == 0x50 && d[2] == 7) by {
            if starts(d, z3) {
                assert(d.take(4)[0] == d[0] && d.take(4)[2] == d[2]);
            }
        }
        assert(starts(d, sz) ==> d[0] == 0x37) by {
            if starts(d, sz) {
                assert(d.take(6)[0] == d[0]);
            }
        }
        assert(starts(d, gz) ==> d[0] == 0x1f) by {
            if starts(d, gz) {
                assert(d.take(2)[0] == d[0]);
            }
        }
        assert(starts(d, rar) ==> d[0] == 0x52) by {
            if starts(d, rar) {
                assert(d.take(4)[0] == d[0]);
            }
        }
    }
    if d.len() >= 4 && d[0] == 0x50 && d[1] == 0x4b {
        if d[2] == 3 && d[3] == 4 {
            assert(d.take(4) =~= z1);
        } else if d[2] == 5 && d[3] == 6 {
            assert(d.take(4) =~= z2);
        } else if d[2] == 7 && d[3] == 8 {
            assert(d.take(4) =~= z3);
        }
    }
    if d.len() >= 6 && d[0] == 0x37 && d[1] == 0x7a && d[2] == 0xbc && d[3] == 0xaf && d[4] == 0x27 && d[5] == 0x1c {
        assert(d.take(6) =~= sz);
    }
    if d.len() >= 2 && d[0] == 0x1f && d[1] == 0x8b {
        assert(d.take(2) =~= gz);
    }
    if d.len() >= 4 && d[0] == 0x52 && d[1] == 0x61 && d[2] == 0x72 && d[3] == 0x21 {
        assert(d.take(4) =~= rar);
    }
    if d.len() > 262 && d[257] == 0x75 && d[258] == 0x73 && d[259] == 0x74 && d[260] == 0x61 && d[261] == 0x72 {
        assert(d.subrange(257, 262) =~= seq![0x75u8, 0x73u8, 0x74u8, 0x61u8, 0x72u8]);
    }
}

pub(crate) fn starts_with_bytes(d: &[u8], pat: &[u8]) -> (r: bool)
    ensures
        r == starts(d@, pat@),
{
    if d.len() < pat.len() {
        return false;
    }
    let mut i: usize = 0;
    while i < pat.len()
        invariant
            i <= pat.len(),
            pat.len() <= d.len(),
            forall|k: int| 0 <= k < i ==> d@[k] == pat@[k],
        decreases pat.len() - i,
    {
        if d[i] != pat[i] {
            assert(d@.take(pat@.len() as int)[i as int] != pat@[i as int]);
            return false;
        }
        i += 1;
    }
    assert(d@.take(pat@.len() as int) =~= pat@);
    true
}

/// Whether the bytes start like a zlib stream.
pub fn looks_like_zlib(data: &[u8]) -> (b: bool)
    ensures
        b == zlib_like(data@),
{
    if data.len() < 2 {
        return false;
    }
    let cmf = data[0] as u32;
    let flg = data[1] as u32;
    cmf % 16 == 8 && (cmf * 256 + flg) % 31 == 0
}

/// Recognise an archive format by its magic bytes.
pub fn detect(data: &[u8]) -> (f: &'static str)
    ensures
        f@ == detect_spec(data@),
{
    proof {
        reveal_strlit("zip");
    }
    let zip1: [u8; 4] = [0x50, 0x4b, 3, 4];
    let zip2: [u8; 4] = [0x50, 0x4b, 5, 6];
    let zip3: [u8; 4] = [0x50, 0x4b, 7, 8];
    let sz: [u8; 6] = [0x37, 0x7a, 0xbc, 0xaf, 0x27, 0x1c];
    let gz: [u8; 2] = [0x1f, 0x8b];
    let rar: [u8; 4] = [0x52, 0x61, 0x72, 0x21];
    assert(zip1@ =~= seq![0x50u8, 0x4bu8, 3u8, 4u8]);
    assert(zip2@ =~= seq![0x50u8, 0x4bu8, 5u8, 6u8]);
    assert(zip3@ =~= seq![0x50u8, 0x4bu8, 7u8, 8u8]);
    assert(sz@ =~= seq![0x37u8, 0x7au8, 0xbcu8, 0xafu8, 0x27u8, 0x1cu8]);
    assert(gz@ =~= seq![0x1fu8, 0x8bu8]);
    assert(rar@ =~= seq![0x52u8, 0x61u8, 0x72u8, 0x21u8]);
    if starts_with_bytes(data, &zip1) || starts_with_bytes(data, &zip2) || starts_with_bytes(data, &zip3) {
        "zip"
    } else if starts_with_bytes(data, &sz) {
        "7z"
    } else if starts_with_bytes(data, &gz) {
        "gz"
    } else if starts_with_bytes(data, &rar) {
        "rar"
    } else if data.len() > 262 && data[257] == 0x75 && data[258] == 0x73 && data[259] == 0x74
        && data[260] == 0x61 && data[261] == 0x72 {
        assert(data@.subrange(257, 262) =~= seq![0x75u8, 0x73u8, 0x74u8, 0x61u8, 0x72u8]);
        "tar"
    } else {
        proof {
            if data@.len() > 262 && data@.subrange(257, 262) == seq![0x75u8, 0x73u8, 0x74u8, 0x61u8, 0x72u8] {
                assert(data@[257] == data@.subrange(257, 262)[0]);
                assert(data@[258] == data@.subrange(257, 262)[1]);
                assert(data@[259] == data@.subrange(257, 262)[2]);
                assert(data@[260] == data@.subrange(257, 262)[3]);
                assert(data@[261] == data@.subrange(257, 262)[4]);
            }
        }
        if looks_like_zlib(data) {
            "zlib"
        } else {
            "unknown"
        }
    }
}

/// The canonical name of a requested format.
pub open spec fn normalize_spec(fmt: Seq<char>) -> Seq<char> {
    let f = trim_spec(fmt).map_values(|c: char| lower(c));
    if f == ""@ || f == "自动"@ || f == "auto"@ {
        "auto"@
    } else if f == "zip"@ {
        "zip"@
    } else if f == "7z"@ || f == "7zip"@ {
        "7z"@
    } else if f == "rar"@ {
        "rar"@
    } else if f == "gz"@ || f == "gzip"@ {
        "gz"@
    } else if f == "tar.gz"@ || f == "tgz"@ {
        "tar.gz"@
    } else if f == "tar"@ {
        "tar"@
    } else if f == "zlib"@ {
        "zlib"@
    } else if f == "deflate"@ || f == "raw deflate"@ || f == "raw_deflate"@ {
        "deflate"@
    } else {
        f
    }
}

fn is_str(cs: &Vec<char>, s: &str) -> (r: bool)
    ensures
        r == (cs@ == s@),
{
    let t = chars_of(s);
    chars_eq(cs, &t)
}

/// Normalise a requested format (trimmed, ASCII lower case, aliases merged).
pub fn normalize_format(fmt: &str) -> (out: String)
    ensures
        out@ == normalize_spec(fmt@),
{
    let raw = chars_of(fmt);
    let t = trim_chars(&raw);
    let mut f: Vec<char> = Vec::new();
    let mut i: usize = 0;
    while i < t.len()
        invariant
            i <= t.len(),
            f@ == t@.take(i as int).map_values(|c: char| lower(c)),
        decreases t.len() - i,
    {
        let c = to_lower(t[i]);
        f.push(c);
        assert(t@.take(i + 1).map_values(|c: char| lower(c)) =~= t@.take(i as int).map_values(
            |c: char| lower(c),
        ).push(c));
        i += 1;
    }
    assert(t@.take(t.len() as int) =~= t@);
    if is_str(&f, "") || is_str(&f, "自动") || is_str(&f, "auto") {
        String::from_str("auto")
    } else if is_str(&f, "zip") {
        String::from_str("zip")
    } else if is_str(&f, "7z") || is_str(&f, "7zip") {
        String::from_str("7z")
    } else if is_str(&f, "rar") {
        String::from_str("rar")
    } else if is_str(&f, "gz") || is_str(&f, "gzip") {
        String::from_str("gz")
    } else if is_str(&f, "tar.gz") || is_str(&f, "tgz") {
        String::from_str("tar.gz")
    } else if is_str(&f, "tar") {
        String::from_str("tar")
    } else if is_str(&f, "zlib") {
        String::from_str("zlib")
    } else if is_str(&f, "deflate") || is_str(&f, "raw deflate") || is_str(&f, "raw_deflate") {
        String::from_str("deflate")
    } else {
        string_from_chars(&f)
    }
}

// ---------------------------------------------------------------------------
// Input text
// ---------------------------------------------------------------------------

/// Text that reads as a file path: trimmed, nonempty, on one line, with a
/// slash or backslash (which also covers a drive prefix such as `C:\`).
pub open spec fn looks_like_path_spec(s: Seq<char>) -> bool {
    let t = trim_spec(s);
    &&& t.len() > 0
    &&& !t.contains('\n')
    &&& !t.contains('\r')
    &&& (t.contains('\\') || t.contains('/'))
}

fn contains_char(cs: &Vec<char>, c: char) -> (r: bool)
    ensures
        r == cs@.contains(c),
{
    let mut i: usize = 0;
    while i < cs.len()
        invariant
            i <= cs.len(),
            forall|k: int| 0 <= k < i ==> cs@[k] != c,
        decreases cs.len() - i,
    {
        if cs[i] == c {
            return true;
        }
        i += 1;
    }
    false
}

/// Whether text looks like a file path.
pub fn looks_like_path(s: &str) -> (b: bool)
    ensures
        b == looks_like_path_spec(s@),
{
    let raw = chars_of(s);
    let t = trim_chars(&raw);
    t.len() > 0 && !contains_char(&t, '\n') && !contains_char(&t, '\r') && (contains_char(&t, '\\')
        || contains_char(&t, '/'))
}

/// The characters of `s` other than white space.
pub open spec fn without_white(s: Seq<char>) -> Seq<char>
    decreases s.len(),
{
    if s.len() == 0 {
        Seq::empty()
    } else if is_white(s.last()) {
        without_white(s.drop_last())
    } else {
        without_white(s.drop_last()).push(s.last())
    }
}

/// A base64 character of either alphabet, or padding.
pub open spec fn b64_char(c: char) -> bool {
    is_alnum(c) || c == '+' || c == '/' || c == '-' || c == '_' || c == '='
}

/// The text without white space, where it could be base64 of an archive: at
/// least 16 characters, a length that is not 1 modulo 4, and only base64
/// characters.
pub open spec fn compact_spec(s: Seq<char>) -> Option<Seq<char>> {
    let c = without_white(s);
    if c.len() >= 16 && c.len() % 4 != 1 && forall|k: int| 0 <= k < c.len() ==> #[trigger] b64_char(c[k]) {
        Some(c)
    } else {
        None
    }
}

pub(crate) fn without_white_exec(s: &str) -> (out: Vec<char>)
    ensures
        out@ == without_white(s@),
{
    let cs = chars_of(s);
    let mut out: Vec<char> = Vec::new();
    let mut i: usize = 0;
    assert(cs@.take(0) =~= Seq::<char>::empty());
    while i < cs.len()
        invariant
            i <= cs.len(),
            cs@ == s@,
            out@ == without_white(cs@.take(i as int)),
        decreases cs.len() - i,
    {
        assert(cs@.take(i + 1).drop_last() =~= cs@.take(i as int));
        if !is_whitespace(cs[i]) {
            out.push(cs[i]);
        }
        i += 1;
    }
    assert(cs@.take(cs.len() as int) =~= cs@);
    out
}

/// The text without white space, if it could be base64 of an archive.
pub fn compact_base64_candidate(s: &str) -> (r: Option<String>)
    ensures
        match (r, compact_spec(s@)) {
            (Some(x), Some(y)) => x@ == y,
            (None, None) => true,
            _ => false,
        },
{
    let c = without_white_exec(s);
    if c.len() < 16 || c.len() % 4 == 1 {
        return None;
    }
    let mut i: usize = 0;
    while i < c.len()
        invariant
            i <= c.len(),
            c@ == without_white(s@),
            c@.len() >= 16 && c@.len() % 4 != 1,
            forall|k: int| 0 <= k < i ==> #[trigger] b64_char(c@[k]),
        decreases c.len() - i,
    {
        let ch = c[i];
        if !(is_ascii_alnum(ch) || ch == '+' || ch == '/' || ch == '-' || ch == '_' || ch == '=') {
            assert(!b64_char(c@[i as int]));
            return None;
        }
        i += 1;
    }
    Some(string_from_chars(&c))
}

/// The ASCII characters as bytes (the text is base64, so ASCII).
pub open spec fn ascii_of(cs: Seq<char>) -> Seq<u8> {
    cs.map_values(|c: char| c as u32 as u8)
}

/// `cs` without trailing `=`, padded with `=` to a multiple of four.
pub open spec fn repadded(cs: Seq<char>) -> Seq<char> {
    let t = trim_end_eq(cs);
    t + Seq::new(((4 - t.len() % 4) % 4) as nat, |k: int| '=')
}

/// `cs` without trailing `=`.
pub open spec fn trim_end_eq(cs: Seq<char>) -> Seq<char>
    decreases cs.len(),
{
    if cs.len() > 0 && cs.last() == '=' {
        trim_end_eq(cs.drop_last())
    } else {
        cs
    }
}

/// What `decode_base64_archive_text` gives: the first of the standard and
/// URL-safe decodings of the repadded compact text that looks like an
/// archive.
pub open spec fn base64_archive_spec(s: Seq<char>) -> Option<Seq<u8>> {
    match compact_spec(s) {
        None => None,
        Some(c) => {
            let p = ascii_of(repadded(c));
            match b64_standard(p) {
                Ok(b) if detect_spec(b) != "unknown"@ => Some(b),
                _ => match b64_url_safe(p) {
                    Ok(b) if detect_spec(b) != "unknown"@ => Some(b),
                    _ => None,
                },
            }
        },
    }
}

/// The ASCII bytes of `compact` without trailing `=`, padded again with `=`
/// to a multiple of four.
fn repad_bytes(compact: &String) -> (bytes: Vec<u8>)
    ensures
        bytes@ == ascii_of(repadded(compact@)),
{
    let mut cs = chars_of(compact.as_str());
    let mut n = cs.len();
    assert(cs@.take(n as int) =~= cs@);
    while n > 0 && cs[n - 1] == '='
        invariant
            n <= cs.len(),
            trim_end_eq(cs@.take(n as int)) == trim_end_eq(cs@),
        decreases n,
    {
        assert(cs@.take(n as int).drop_last() =~= cs@.take(n - 1));
        n -= 1;
    }
    proof {
        assert(trim_end_eq(cs@.take(n as int)) == cs@.take(n as int));
    }
    let ghost full = cs@;
    cs.truncate(n);
    let pad = (4 - n % 4) % 4;
    let mut k: usize = 0;
    while k < pad
        invariant
            k <= pad,
            pad < 4,
            cs@ == trim_end_eq(full) + Seq::new(k as nat, |q: int| '='),
        decreases pad - k,
    {
        cs.push('=');
        assert(cs@ =~= trim_end_eq(full) + Seq::new((k + 1) as nat, |q: int| '='));
        k += 1;
    }
    assert(cs@ == repadded(full));
    let mut bytes: Vec<u8> = Vec::new();
    let mut i: usize = 0;
    while i < cs.len()
        invariant
            i <= cs.len(),
            bytes@ == ascii_of(cs@.take(i as int)),
        decreases cs.len() - i,
    {
        let v = #[verifier::truncate] (cs[i] as u32);
        bytes.push(v as u8);
        assert(ascii_of(cs@.take(i + 1)) =~= ascii_of(cs@.take(i as int)).push(v as u8));
        i += 1;
    }
    assert(cs@.take(cs.len() as int) =~= cs@);
    bytes
}

/// Decode text that is base64 of an archive (standard or URL-safe, padding
/// repaired); `None` where it is not.
pub fn decode_base64_archive_text(s: &str) -> (r: Option<Vec<u8>>)
    ensures
        match (r, base64_archive_spec(s@)) {
            (Some(x), Some(y)) => x@ == y,
            (None, None) => true,
            _ => false,
        },
{
    let compact = match compact_base64_candidate(s) {
        Some(c) => c,
        None => {
            return None;
        },
    };
    let bytes = repad_bytes(&compact);
    match decode_standard(bytes.as_slice()) {
        Ok(b) => {
            let f = detect(b.as_slice());
            if !is_unknown(f) {
                return Some(b);
            }
        },
        Err(_) => {},
    }
    match decode_url_safe(bytes.as_slice()) {
        Ok(b) => {
            let f = detect(b.as_slice());
            if !is_unknown(f) {
                return Some(b);
            }
        },
        Err(_) => {},
    }
    None
}

fn is_unknown(f: &str) -> (r: bool)
    ensures
        r == (f@ == "unknown"@),
{
    let c = chars_of(f);
    is_str(&c, "unknown")
}

/// Whether `pat` occurs in `s`.
pub open spec fn contains_seq(s: Seq<char>, pat: Seq<char>) -> bool {
    exists|i: int| 0 <= i && i + pat.len() <= s.len() && #[trigger] s.subrange(i, i + pat.len()) == pat
}

pub(crate) fn contains_sub(s: &Vec<char>, pat: &Vec<char>) -> (r: bool)
    ensures
        r == contains_seq(s@, pat@),
{
    if pat.len() > s.len() {
        return false;
    }
    let mut i: usize = 0;
    while i <= s.len() - pat.len()
        invariant
            pat.len() <= s.len(),
            i <= s.len() - pat.len() + 1,
            forall|q: int| 0 <= q < i ==> #[trigger] s@.subrange(q, q + pat@.len()) != pat@,
        decreases s.len() - pat.len() + 1 - i,
    {
        let mut j: usize = 0;
        let mut same = true;
        while j < pat.len()
            invariant
                j <= pat.len(),
                i + pat.len() <= s.len(),
                same == forall|q: int| 0 <= q < j ==> s@[i + q] == pat@[q],
            decreases pat.len() - j,
        {
            if s[i + j] != pat[j] {
                same = false;
            }
            j += 1;
        }
        if same {
            assert(s@.subrange(i as int, i + pat@.len()) =~= pat@);
            return true;
        }
        assert(s@.subrange(i as int, i + pat@.len()) != pat@) by {
            let q = choose|q: int| 0 <= q < pat.len() && s@[i + q] != pat@[q];
            assert(s@.subrange(i as int, i + pat@.len())[q] != pat@[q]);
        }
        i += 1;
    }
    proof {
        if contains_seq(s@, pat@) {
            let q = choose|q: int| 0 <= q && q + pat@.len() <= s@.len() && #[trigger] s@.subrange(q, q + pat@.len()) == pat@;
            assert(q < i);
        }
    }
    false
}

/// The position of the first `c` in `s`.
pub open spec fn find_char(s: Seq<char>, c: char) -> Option<int>
    decreases s.len(),
{
    if s.len() == 0 {
        None
    } else if s[0] == c {
        Some(0)
    } else {
        match find_char(s.skip(1), c) {
            Some(i) => Some(i + 1),
            None => None,
        }
    }
}

/// What `decode_data_url_text` gives: `None` where the trimmed text is no
/// `data:` URL; an error without a comma; the base64 payload decoded where
/// the metadata says `;base64`; else the payload's UTF-8 bytes. The payload
/// is trimmed.
pub open spec fn data_url_spec(s: Seq<char>) -> Option<Result<Seq<u8>, Seq<char>>> {
    let t = trim_spec(s);
    if !(t.len() >= 5 && t.take(5) == "data:"@) {
        None
    } else {
        let rest = t.skip(5);
        match find_char(rest, ',') {
            None => Some(Err("压缩包 data URL 缺少逗号分隔符"@)),
            Some(comma) => {
                let meta = rest.take(comma);
                let payload = trim_spec(rest.skip(comma + 1));
                if contains_seq(meta, ";base64"@) {
                    match b64_standard(encode_utf8(payload)) {
                        Ok(b) => Some(Ok(b)),
                        Err(e) => Some(Err("压缩包 data URL base64 解码失败: "@ + e)),
                    }
                } else {
                    Some(Ok(encode_utf8(payload)))
                }
            },
        }
    }
}

proof fn lemma_find_char(s: Seq<char>, c: char)
    ensures
        match find_char(s, c) {
            Some(i) => 0 <= i < s.len() && s[i] == c && forall|k: int| 0 <= k < i ==> s[k] != c,
            None => forall|k: int| 0 <= k < s.len() ==> s[k] != c,
        },
    decreases s.len(),
{
    if s.len() > 0 && s[0] != c {
        lemma_find_char(s.skip(1), c);
        match find_char(s.skip(1), c) {
            Some(i) => {
                assert forall|k: int| 0 <= k < i + 1 implies s[k] != c by {
                    if k > 0 {
                        assert(s[k] == s.skip(1)[k - 1]);
                    }
                }
            },
            None => {
                assert forall|k: int| 0 <= k < s.len() implies s[k] != c by {
                    if k > 0 {
                        assert(s[k] == s.skip(1)[k - 1]);
                    }
                }
            },
        }
    }
}

fn sub_vec(s: &Vec<char>, from: usize, to: usize) -> (v: Vec<char>)
    requires
        from <= to <= s.len(),
    ensures
        v@ == s@.subrange(from as int, to as int),
{
    let mut v: Vec<char> = Vec::new();
    let mut i = from;
    while i < to
        invariant
            from <= i <= to,
            to <= s.len(),
            v@ == s@.subrange(from as int, i as int),
        decreases to - i,
    {
        v.push(s[i]);
        assert(s@.subrange(from as int, i + 1) =~= s@.subrange(from as int, i as int).push(s@[i as int]));
        i += 1;
    }
    v
}

/// The bytes of a `data:` URL: `None` where the text is none.
pub fn decode_data_url_text(s: &str) -> (r: Option<Result<Vec<u8>, CoreError>>)
    ensures
        match (r, data_url_spec(s@)) {
            (None, None) => true,
            (Some(Ok(b)), Some(Ok(w))) => b@ == w,
            (Some(Err(e)), Some(Err(m))) => e.is_parse_with(m),
            _ => false,
        },
{
    let raw = chars_of(s);
    let t = trim_chars(&raw);
    let prefix = chars_of("data:");
    proof {
        reveal_strlit("data:");
    }
    if t.len() < 5 {
        return None;
    }
    let head = sub_vec(&t, 0, 5);
    assert(head@ =~= t@.take(5));
    if !chars_eq(&head, &prefix) {
        return None;
    }
    let rest = sub_vec(&t, 5, t.len());
    assert(rest@ =~= t@.skip(5));
    proof {
        lemma_find_char(rest@, ',');
    }
    let mut comma: usize = 0;
    while comma < rest.len() && rest[comma] != ','
        invariant
            comma <= rest.len(),
            forall|k: int| 0 <= k < comma ==> rest@[k] != ',',
        decreases rest.len() - comma,
    {
        comma += 1;
    }
    if comma == rest.len() {
        proof {
            match find_char(rest@, ',') {
                Some(i) => {
                    assert(rest@[i] == ',');
                },
                None => {},
            }
        }
        return Some(Err(CoreError::Parse(String::from_str("压缩包 data URL 缺少逗号分隔符"))));
    }
    proof {
        match find_char(rest@, ',') {
            Some(i) => {
                if i < comma {
                    assert(rest@[i] == ',');
                } else if i > comma {
                    assert(rest@[comma as int] != ',');
                }
            },
            None => {
                assert(rest@[comma as int] == ',');
            },
        }
    }
    let meta = sub_vec(&rest, 0, comma);
    assert(meta@ =~= rest@.take(comma as int));
    let after = sub_vec(&rest, comma + 1, rest.len());
    assert(after@ =~= rest@.skip(comma + 1));
    let payload_chars = trim_chars(&after);
    let payload = string_from_chars(&payload_chars);
    let bytes = payload.as_str().as_bytes();
    let marker = chars_of(";base64");
    if contains_sub(&meta, &marker) {
        match decode_standard(bytes) {
            Ok(b) => Some(Ok(b)),
            Err(e) => {
                let mut m = String::new();
                push_str(&mut m, "压缩包 data URL base64 解码失败: ");
                push_str(&mut m, e.as_str());
                Some(Err(CoreError::Parse(m)))
            },
        }
    } else {
        let mut b: Vec<u8> = Vec::new();
        let mut i: usize = 0;
        while i < bytes.len()
            invariant
                i <= bytes.len(),
                b@ == bytes@.take(i as int),
            decreases bytes.len() - i,
        {
            b.push(bytes[i]);
            assert(bytes@.take(i + 1) =~= bytes@.take(i as int).push(bytes@[i as int]));
            i += 1;
        }
        assert(bytes@.take(bytes.len() as int) =~= bytes@);
        Some(Ok(b))
    }
}

// ---------------------------------------------------------------------------
// Entries
// ---------------------------------------------------------------------------

/// An archive of one file.
pub fn single_file(format: &str, name: &str, bytes: Vec<u8>) -> (a: ArchiveData)
    ensures
        a.format@ == format@,
        a.entries@.len() == 1,
        a.entries@[0].name@ == name@,
        !a.entries@[0].is_dir,
        a.entries@[0].size == bytes@.len(),
        a.entries@[0].compressed_size is None,
        !a.entries@[0].encrypted,
        a.entries@[0].crc32 is None,
        a.entries@[0].bytes matches Some(b) && b@ == bytes@,
        a.entries@[0].error is None,
{
    let size = bytes.len() as u64;
    let e = EntryData {
        name: name.to_owned(),
        is_dir: false,
        size,
        compressed_size: None,
        encrypted: false,
        crc32: None,
        bytes: Some(bytes),
        error: None,
    };
    ArchiveData { format: format.to_owned(), entries: vec![e] }
}

/// A file entry with its bytes read.
pub open spec fn is_readable(e: EntryData) -> bool {
    !e.is_dir && e.bytes is Some
}

/// The positions of the readable files, in order.
pub open spec fn readable_spec(es: Seq<EntryData>) -> Seq<int>
    decreases es.len(),
{
    if es.len() == 0 {
        Seq::empty()
    } else if is_readable(es.last()) {
        readable_spec(es.drop_last()).push(es.len() - 1)
    } else {
        readable_spec(es.drop_last())
    }
}

/// The positions of the files (entries that are no directory), in order.
pub open spec fn files_spec(es: Seq<EntryData>) -> Seq<int>
    decreases es.len(),
{
    if es.len() == 0 {
        Seq::empty()
    } else if !es.last().is_dir {
        files_spec(es.drop_last()).push(es.len() - 1)
    } else {
        files_spec(es.drop_last())
    }
}

/// The positions of the entries that are readable files.
pub fn readable_files(entries: &[EntryData]) -> (r: Vec<usize>)
    ensures
        r@.map_values(|i: usize| i as int) == readable_spec(entries@),
{
    let mut r: Vec<usize> = Vec::new();
    let mut i: usize = 0;
    assert(entries@.take(0) =~= Seq::<EntryData>::empty());
    while i < entries.len()
        invariant
            i <= entries.len(),
            r@.map_values(|i: usize| i as int) == readable_spec(entries@.take(i as int)),
        decreases entries.len() - i,
    {
        assert(entries@.take(i + 1).drop_last() =~= entries@.take(i as int));
        assert(entries@.take(i + 1).last() == entries@[i as int]);
        let ghost before = r@;
        if !entries[i].is_dir && entries[i].bytes.is_some() {
            r.push(i);
            assert(r@.map_values(|i: usize| i as int) =~= before.map_values(|i: usize| i as int).push(i as int));
        }
        i += 1;
    }
    assert(entries@.take(entries.len() as int) =~= entries@);
    r
}

/// The names of the files (entries that are no directory), in order.
pub fn file_names(entries: &[EntryData]) -> (r: Vec<String>)
    ensures
        r@.len() == files_spec(entries@).len(),
        forall|k: int| 0 <= k < r@.len() ==> #[trigger] r@[k]@ == entries@[files_spec(entries@)[k]].name@,
{
    let mut r: Vec<String> = Vec::new();
    let mut i: usize = 0;
    assert(entries@.take(0) =~= Seq::<EntryData>::empty());
    while i < entries.len()
        invariant
            i <= entries.len(),
            r@.len() == files_spec(entries@.take(i as int)).len(),
            forall|k: int| 0 <= k < r@.len() ==> files_spec(entries@.take(i as int))[k] < i,
            forall|k: int|
                0 <= k < r@.len() ==> #[trigger] r@[k]@ == entries@[files_spec(entries@.take(i as int))[k]].name@,
        decreases entries.len() - i,
    {
        assert(entries@.take(i + 1).drop_last() =~= entries@.take(i as int));
        assert(entries@.take(i + 1).last() == entries@[i as int]);
        if !entries[i].is_dir {
            let nm = entries[i].name.clone();
            assert(nm@ == entries@[i as int].name@);
            r.push(nm);
        }
        i += 1;
    }
    assert(entries@.take(entries.len() as int) =~= entries@);
    r
}

/// The first entry from `from` on called `t`.
pub open spec fn first_named_entry(es: Seq<EntryData>, t: Seq<char>, from: int) -> Option<int>
    decreases es.len() - from,
{
    if from < 0 || from >= es.len() {
        None
    } else if es[from].name@ == t {
        Some(from)
    } else {
        first_named_entry(es, t, from + 1)
    }
}

/// The names of the first (up to) eight files.
pub open spec fn preview_names(es: Seq<EntryData>) -> Seq<Seq<char>> {
    let f = files_spec(es);
    Seq::new(if f.len() < 8 { f.len() } else { 8 }, |k: int| es[f[k]].name@)
}

/// What `find_selected` gives: without a target the first readable file (or
/// none); else the entry of that name (an error for a directory), else the
/// file at that position among the files, else an error that lists some
/// files.
pub open spec fn find_selected_spec(es: Seq<EntryData>, target: Seq<char>) -> Result<Option<int>, Seq<char>> {
    let t = trim_spec(target);
    if t.len() == 0 {
        let rd = readable_spec(es);
        Ok(
            if rd.len() > 0 {
                Some(rd[0])
            } else {
                None
            },
        )
    } else {
        match first_named_entry(es, t, 0) {
            Some(i) => if es[i].is_dir {
                Err("指定条目是目录: "@ + t)
            } else {
                Ok(Some(i))
            },
            None => match parse_usize_spec(t) {
                Some(n) => if n < files_spec(es).len() {
                    Ok(Some(files_spec(es)[n]))
                } else {
                    Err("找不到压缩包条目: "@ + t + "。可选文件: "@ + join(preview_names(es), ", "@))
                },
                None => Err("找不到压缩包条目: "@ + t + "。可选文件: "@ + join(preview_names(es), ", "@)),
            },
        }
    }
}

proof fn lemma_files_spec_bound(es: Seq<EntryData>)
    ensures
        forall|k: int| 0 <= k < files_spec(es).len() ==> 0 <= #[trigger] files_spec(es)[k] < es.len()
            && !es[files_spec(es)[k]].is_dir,
        forall|k: int| 0 <= k < readable_spec(es).len() ==> 0 <= #[trigger] readable_spec(es)[k] < es.len()
            && is_readable(es[readable_spec(es)[k]]),
    decreases es.len(),
{
    if es.len() > 0 {
        let t = es.drop_last();
        lemma_files_spec_bound(t);
        assert forall|k: int| 0 <= k < readable_spec(es).len() implies 0 <= #[trigger] readable_spec(
            es,
        )[k] < es.len() && is_readable(es[readable_spec(es)[k]]) by {
            if k < readable_spec(t).len() {
                assert(readable_spec(es)[k] == readable_spec(t)[k]);
                assert(es[readable_spec(t)[k]] == t[readable_spec(t)[k]]);
            }
        }
        assert forall|k: int| 0 <= k < files_spec(es).len() implies 0 <= #[trigger] files_spec(es)[k]
            < es.len() && !es[files_spec(es)[k]].is_dir by {
            if k < files_spec(t).len() {
                assert(files_spec(es)[k] == files_spec(t)[k]);
                assert(es[files_spec(t)[k]] == t[files_spec(t)[k]]);
            }
        }
    }
}

/// Choose the entry to output: see `find_selected_spec`. The result is the
/// entry's position.
#[verifier::loop_isolation(false)]
pub fn find_selected(entries: &[EntryData], target: &str) -> (r: Result<Option<usize>, CoreError>)
    ensures
        match (r, find_selected_spec(entries@, target@)) {
            (Ok(Some(i)), Ok(Some(j))) => i == j,
            (Ok(None), Ok(None)) => true,
            (Err(e), Err(m)) => e.is_parse_with(m),
            _ => false,
        },
        r matches Ok(Some(i)) ==> i < entries@.len(),
{
    proof {
        lemma_files_spec_bound(entries@);
    }
    let raw = chars_of(target);
    let t = trim_chars(&raw);
    if t.len() == 0 {
        let rd = readable_files(entries);
        if rd.len() > 0 {
            assert(rd@.map_values(|i: usize| i as int)[0] == rd@[0] as int);
            return Ok(Some(rd[0]));
        }
        return Ok(None);
    }
    let n = entries.len();
    let mut i: usize = 0;
    while i < n
        invariant
            i <= n,
            n == entries.len(),
            t@ == trim_spec(target@),
            t@.len() > 0,
            first_named_entry(entries@, t@, 0) == first_named_entry(entries@, t@, i as int),
        decreases n - i,
    {
        let nc = chars_of(entries[i].name.as_str());
        if chars_eq(&nc, &t) {
            assert(first_named_entry(entries@, t@, i as int) == Some(i as int));
            if entries[i].is_dir {
                let mut m = String::new();
                push_str(&mut m, "指定条目是目录: ");
                let ts = string_from_chars(&t);
                push_str(&mut m, ts.as_str());
                return Err(CoreError::Parse(m));
            }
            return Ok(Some(i));
        }
        assert(first_named_entry(entries@, t@, i as int) == first_named_entry(entries@, t@, i + 1));
        i += 1;
    }
    let files = file_names(entries);
    let ghost fs = files_spec(entries@);
    match parse_usize(&t) {
        Some(idx) => {
            // the idx-th file
            let mut count: usize = 0;
            let mut j: usize = 0;
            while j < n
                invariant
                    j <= n,
                    n == entries.len(),
                    fs == files_spec(entries@),
                    count == files_spec(entries@.take(j as int)).len(),
                    count <= idx,
                    files_spec(entries@.take(j as int)) == fs.take(count as int),
                    count <= fs.len(),
                decreases n - j,
            {
                proof {
                    lemma_files_prefix(entries@, j as int);
                    lemma_files_prefix_of(entries@, j + 1);
                }
                assert(entries@.take(j + 1).drop_last() =~= entries@.take(j as int));
                assert(entries@.take(j + 1).last() == entries@[j as int]);
                if !entries[j].is_dir {
                    proof {
                        let p = files_spec(entries@.take(j + 1));
                        assert(p.len() == count + 1);
                        assert(p[count as int] == j as int);
                        assert(p.is_prefix_of(fs));
                        assert(fs.subrange(0, p.len() as int) =~= p);
                        assert(fs[count as int] == p[count as int]);
                        assert(fs.take(count + 1) =~= fs.take(count as int).push(fs[count as int]));
                    }
                    if count == idx {
                        assert(fs[count as int] == j as int);
                        return Ok(Some(j));
                    }
                    count += 1;
                }
                j += 1;
            }
            assert(entries@.take(n as int) =~= entries@);
        },
        None => {},
    }
    let mut m = String::new();
    push_str(&mut m, "找不到压缩包条目: ");
    let ts = string_from_chars(&t);
    push_str(&mut m, ts.as_str());
    push_str(&mut m, "。可选文件: ");
    let mut k: usize = 0;
    let limit: usize = if files.len() < 8 {
        files.len()
    } else {
        8
    };
    let ghost pv = preview_names(entries@);
    assert(pv.take(0) =~= Seq::<Seq<char>>::empty());
    let ghost head = m@;
    while k < limit
        invariant
            k <= limit,
            limit <= files.len(),
            limit == pv.len(),
            files@.len() == fs.len(),
            fs == files_spec(entries@),
            pv == preview_names(entries@),
            forall|q: int| 0 <= q < files@.len() ==> #[trigger] files@[q]@ == entries@[fs[q]].name@,
            m@ == head + join(pv.take(k as int), ", "@),
        decreases limit - k,
    {
        if k > 0 {
            push_str(&mut m, ", ");
        }
        push_str(&mut m, files[k].as_str());
        proof {
            let p2 = pv.take(k + 1);
            assert(p2.drop_last() =~= pv.take(k as int));
            assert(p2.last() == files@[k as int]@);
            if k == 0 {
                assert(p2.len() == 1);
            }
            assert(m@ =~= head + join(p2, ", "@));
        }
        k += 1;
    }
    assert(pv.take(limit as int) =~= pv);
    Err(CoreError::Parse(m))
}

proof fn lemma_files_prefix(es: Seq<EntryData>, j: int)
    requires
        0 <= j < es.len(),
    ensures
        files_spec(es.take(j + 1)) == if !es[j].is_dir {
            files_spec(es.take(j)).push(j)
        } else {
            files_spec(es.take(j))
        },
        files_spec(es.take(j)).is_prefix_of(files_spec(es)),
{
    assert(es.take(j + 1).drop_last() =~= es.take(j));
    lemma_files_prefix_of(es, j);
}

proof fn lemma_files_prefix_of(es: Seq<EntryData>, j: int)
    requires
        0 <= j <= es.len(),
    ensures
        files_spec(es.take(j)).is_prefix_of(files_spec(es)),
    decreases es.len() - j,
{
    if j < es.len() {
        lemma_files_prefix_of(es, j + 1);
        assert(es.take(j + 1).drop_last() =~= es.take(j));
    } else {
        assert(es.take(j) =~= es);
    }
}

/// The number of directory entries.
pub open spec fn dir_count(es: Seq<EntryData>) -> nat
    decreases es.len(),
{
    if es.len() == 0 {
        0
    } else {
        dir_count(es.drop_last()) + if es.last().is_dir {
            1nat
        } else {
            0nat
        }
    }
}

/// The number of entries that could not be read.
pub open spec fn error_count(es: Seq<EntryData>) -> nat
    decreases es.len(),
{
    if es.len() == 0 {
        0
    } else {
        error_count(es.drop_last()) + if es.last().error is Some {
            1nat
        } else {
            0nat
        }
    }
}

/// The outputs of the extraction node.
#[derive(Debug)]
pub struct ArchiveOutput {
    /// The names of the files.
    pub files: Vec<String>,
    /// The selected file as text.
    pub text: String,
    /// The selected file's bytes.
    pub bytes: Vec<u8>,
    /// The selected file's name (empty where none).
    pub entry: String,
    /// The number of files.
    pub count: usize,
    /// The archive's format.
    pub format: String,
    /// A one-line account.
    pub summary: String,
}

/// The summary line.
pub open spec fn summary_spec(format: Seq<char>, files: nat, dirs: nat, name: Seq<char>, len: nat, errors: nat) -> Seq<char> {
    format + ": "@ + decimal(files) + " 个文件"@ + (if dirs > 0 {
        "，"@ + decimal(dirs) + " 个目录"@
    } else {
        Seq::empty()
    }) + (if name.len() == 0 {
        "；未找到可直接输出的文件"@
    } else {
        "；当前输出「"@ + name + "」（"@ + decimal(len) + " 字节）"@
    }) + (if errors > 0 {
        "；"@ + decimal(errors) + " 个条目未读取"@
    } else {
        Seq::empty()
    }) + "。"@
}

fn count_dirs_errors(entries: &[EntryData]) -> (r: (usize, usize))
    ensures
        r.0 == dir_count(entries@),
        r.1 == error_count(entries@),
{
    let mut d: usize = 0;
    let mut e: usize = 0;
    let mut i: usize = 0;
    assert(entries@.take(0) =~= Seq::<EntryData>::empty());
    while i < entries.len()
        invariant
            i <= entries.len(),
            d == dir_count(entries@.take(i as int)),
            e == error_count(entries@.take(i as int)),
            d <= i,
            e <= i,
        decreases entries.len() - i,
    {
        assert(entries@.take(i + 1).drop_last() =~= entries@.take(i as int));
        assert(entries@.take(i + 1).last() == entries@[i as int]);
        if entries[i].is_dir {
            d += 1;
        }
        if entries[i].error.is_some() {
            e += 1;
        }
        i += 1;
    }
    assert(entries@.take(entries.len() as int) =~= entries@);
    (d, e)
}

/// What `finish_archive` selects: the entry, which must be readable where it
/// was asked for by name or number; else the message of the error.
pub open spec fn finish_check(es: Seq<EntryData>, target: Seq<char>) -> Result<Option<int>, Seq<char>> {
    match find_selected_spec(es, target) {
        Err(m) => Err(m),
        Ok(sel) => if trim_spec(target).len() > 0 && sel is Some {
            let e = es[sel->Some_0];
            match e.error {
                Some(err) => Err("条目 "@ + e.name@ + " 无法读取: "@ + err@),
                None => if e.bytes is None {
                    Err("条目 "@ + e.name@ + " 没有可读取内容"@)
                } else {
                    Ok(sel)
                },
            }
        } else {
            Ok(sel)
        },
    }
}

/// The summary line.
fn make_summary(format: &str, files: usize, dirs: usize, name: &str, len: usize, errors: usize) -> (s: String)
    ensures
        s@ == summary_spec(format@, files as nat, dirs as nat, name@, len as nat, errors as nat),
{
    let mut summary = String::new();
    push_str(&mut summary, format);
    push_str(&mut summary, ": ");
    push_decimal(&mut summary, files as u64);
    push_str(&mut summary, " 个文件");
    let ghost a = summary@;
    if dirs > 0 {
        push_str(&mut summary, "，");
        push_decimal(&mut summary, dirs as u64);
        push_str(&mut summary, " 个目录");
    }
    let ghost b = summary@;
    let nc = chars_of(name);
    if nc.len() == 0 {
        push_str(&mut summary, "；未找到可直接输出的文件");
    } else {
        push_str(&mut summary, "；当前输出「");
        push_str(&mut summary, name);
        push_str(&mut summary, "」（");
        push_decimal(&mut summary, len as u64);
        push_str(&mut summary, " 字节）");
    }
    let ghost c = summary@;
    if errors > 0 {
        push_str(&mut summary, "；");
        push_decimal(&mut summary, errors as u64);
        push_str(&mut summary, " 个条目未读取");
    }
    push_str(&mut summary, "。");
    assert(summary@ =~= summary_spec(format@, files as nat, dirs as nat, name@, len as nat, errors as nat));
    summary
}

/// The check that a file asked for by name or number can be output.
fn check_selected(es: &[EntryData], target: &str, selected: Option<usize>) -> (r: Result<(), CoreError>)
    requires
        selected matches Some(i) ==> i < es@.len(),
    ensures
        ({
            let sel = match selected {
                Some(i) => Some(i as int),
                None => None::<int>,
            };
            let check = if trim_spec(target@).len() > 0 && sel is Some {
                let e = es@[sel->Some_0];
                match e.error {
                    Some(err) => Err("条目 "@ + e.name@ + " 无法读取: "@ + err@),
                    None => if e.bytes is None {
                        Err("条目 "@ + e.name@ + " 没有可读取内容"@)
                    } else {
                        Ok(sel)
                    },
                }
            } else {
                Ok(sel)
            };
            match (r, check) {
                (Ok(()), Ok(_)) => true,
                (Err(e), Err(m)) => e.is_parse_with(m),
                _ => false,
            }
        }),
{
    let raw = chars_of(target);
    let t = trim_chars(&raw);
    if t.len() > 0 {
        if let Some(i) = selected {
            let e = &es[i];
            if let Some(err) = &e.error {
                let mut m = String::new();
                push_str(&mut m, "条目 ");
                push_str(&mut m, e.name.as_str());
                push_str(&mut m, " 无法读取: ");
                push_str(&mut m, err.as_str());
                return Err(CoreError::Parse(m));
            }
            if e.bytes.is_none() {
                let mut m = String::new();
                push_str(&mut m, "条目 ");
                push_str(&mut m, e.name.as_str());
                push_str(&mut m, " 没有可读取内容");
                return Err(CoreError::Parse(m));
            }
        }
    }
    Ok(())
}

/// The outputs of an extracted archive: the selected file (see
/// `find_selected`), the file list and a summary.
pub fn finish_archive(data: &ArchiveData, target: &str) -> (r: Result<ArchiveOutput, CoreError>)
    ensures
        match (r, finish_check(data.entries@, target@)) {
            (Err(e), Err(m)) => e.is_parse_with(m),
            (Ok(o), Ok(sel)) => {
                let es = data.entries@;
                let name = match sel {
                    Some(i) => es[i].name@,
                    None => Seq::empty(),
                };
                let bytes = match sel {
                    Some(i) => match es[i].bytes {
                        Some(b) => b@,
                        None => Seq::empty(),
                    },
                    None => Seq::empty(),
                };
                &&& o.entry@ == name
                &&& o.bytes@ == bytes
                &&& o.text@ == utf8_lossy(bytes)
                &&& o.count == files_spec(es).len()
                &&& o.files@.len() == files_spec(es).len()
                &&& forall|k: int| 0 <= k < o.files@.len() ==> #[trigger] o.files@[k]@ == es[files_spec(es)[k]].name@
                &&& o.format@ == data.format@
                &&& o.summary@ == summary_spec(
                    data.format@,
                    files_spec(es).len(),
                    dir_count(es),
                    name,
                    bytes.len(),
                    error_count(es),
                )
            },
            _ => false,
        },
{
    let es = data.entries.as_slice();
    let selected = match find_selected(es, target) {
        Ok(s) => s,
        Err(e) => {
            return Err(e);
        },
    };
    match check_selected(es, target, selected) {
        Ok(()) => {},
        Err(e) => {
            return Err(e);
        },
    }
    let files = file_names(es);
    let (dirs, errors) = count_dirs_errors(es);
    let (name, bytes) = match selected {
        Some(i) => {
            let n = es[i].name.clone();
            let b = match &es[i].bytes {
                Some(b) => b.clone(),
                None => Vec::new(),
            };
            (n, b)
        },
        None => (String::new(), Vec::new()),
    };
    proof {
        match selected {
            Some(i) => {
                match es@[i as int].bytes {
                    Some(b) => {
                        assert(bytes@ =~= b@);
                    },
                    None => {},
                }
            },
            None => {},
        }
    }
    let text = string_from_utf8_lossy(&bytes);
    let summary = make_summary(data.format.as_str(), files.len(), dirs, name.as_str(), bytes.len(), errors);
    let count = files.len();
    let format = data.format.clone();
    Ok(ArchiveOutput { files, text, bytes, entry: name, count, format, summary })
}

// ---------------------------------------------------------------------------
// Extraction
// ---------------------------------------------------------------------------

/// What an entry holds, as plain values.
pub type EntryView = (Seq<char>, bool, u64, Option<u64>, bool, Option<u32>, Option<Seq<u8>>, Option<Seq<char>>);

pub open spec fn entry_view(e: EntryData) -> EntryView {
    (
        e.name@,
        e.is_dir,
        e.size,
        e.compressed_size,
        e.encrypted,
        e.crc32,
        match e.bytes {
            Some(b) => Some(b@),
            None => None,
        },
        match e.error {
            Some(m) => Some(m@),
            None => None,
        },
    )
}

pub open spec fn entries_view(es: Seq<EntryData>) -> Seq<EntryView> {
    es.map_values(|e: EntryData| entry_view(e))
}

/// A path with `\` written as `/`.
pub open spec fn slashed(s: Seq<char>) -> Seq<char> {
    s.map_values(|c: char| if c == '\\' { '/' } else { c })
}

fn slash_path(s: &String) -> (out: String)
    ensures
        out@ == slashed(s@),
{
    let cs = chars_of(s.as_str());
    let mut out = String::new();
    let mut i: usize = 0;
    while i < cs.len()
        invariant
            i <= cs.len(),
            cs@ == s@,
            out@ == slashed(cs@.take(i as int)),
        decreases cs.len() - i,
    {
        let c = if cs[i] == '\\' {
            '/'
        } else {
            cs[i]
        };
        push_char(&mut out, c);
        assert(slashed(cs@.take(i + 1)) =~= slashed(cs@.take(i as int)).push(c));
        i += 1;
    }
    assert(cs@.take(cs.len() as int) =~= cs@);
    out
}

/// The entry of a tar member: a file's size is what was read.
pub open spec fn tar_entry(t: TarEntryView) -> EntryView {
    (
        slashed(t.0),
        t.2,
        if t.1 {
            t.4.len() as u64
        } else {
            t.3
        },
        None,
        false,
        None,
        if t.1 {
            Some(t.4)
        } else {
            None
        },
        None,
    )
}

/// What `extract_tar` gives.
pub open spec fn extract_tar_spec(d: Seq<u8>) -> Result<Seq<EntryView>, Seq<char>> {
    match tar_listing(d) {
        Ok(l) => Ok(l.map_values(|t: TarEntryView| tar_entry(t))),
        Err((false, m)) => Err("tar: "@ + m),
        Err((true, m)) => Err("读取 tar 条目失败: "@ + m),
    }
}

/// Read a tar archive.
pub fn extract_tar(data: &[u8]) -> (r: Result<ArchiveData, CoreError>)
    ensures
        match (r, extract_tar_spec(data@)) {
            (Ok(a), Ok(w)) => a.format@ == "tar"@ && entries_view(a.entries@) == w,
            (Err(e), Err(m)) => e.is_parse_with(m),
            _ => false,
        },
{
    let listing = match read_tar(data) {
        Ok(l) => l,
        Err((reading, m)) => {
            let mut msg = String::new();
            if reading {
                push_str(&mut msg, "读取 tar 条目失败: ");
            } else {
                push_str(&mut msg, "tar: ");
            }
            push_str(&mut msg, m.as_str());
            return Err(CoreError::Parse(msg));
        },
    };
    let ghost lv = tar_view(listing@);
    let mut entries: Vec<EntryData> = Vec::new();
    let mut i: usize = 0;
    while i < listing.len()
        invariant
            i <= listing.len(),
            lv == tar_view(listing@),
            entries_view(entries@) == lv.take(i as int).map_values(|t: TarEntryView| tar_entry(t)),
        decreases listing.len() - i,
    {
        let t = &listing[i];
        let name = slash_path(&t.0);
        let is_file = t.1;
        let (size, bytes) = if is_file {
            (t.4.len() as u64, Some(t.4.clone()))
        } else {
            (t.3, None)
        };
        let e = EntryData {
            name,
            is_dir: t.2,
            size,
            compressed_size: None,
            encrypted: false,
            crc32: None,
            bytes,
            error: None,
        };
        proof {
            assert(lv[i as int] == (t.0@, t.1, t.2, t.3, t.4@));
            if is_file {
                assert(bytes matches Some(b) && b@ == t.4@);
            }
            assert(entry_view(e) == tar_entry(lv[i as int]));
        }
        let ghost before = entries@;
        entries.push(e);
        proof {
            assert(entries_view(entries@) =~= entries_view(before).push(entry_view(e)));
            assert(lv.take(i + 1).map_values(|t: TarEntryView| tar_entry(t)) =~= lv.take(i as int).map_values(
                |t: TarEntryView| tar_entry(t),
            ).push(tar_entry(lv[i as int])));
        }
        i += 1;
    }
    assert(lv.take(listing.len() as int) =~= lv);
    Ok(ArchiveData { format: String::from_str("tar"), entries })
}

/// The entry of listed ZIP member `i`: read (with the password where it is
/// encrypted) unless it is a directory or an encrypted one without a
/// password; a failure to open it, or to read it where a password was
/// given, is the error of the whole extraction.
pub open spec fn zip_entry(d: Seq<u8>, z: ZipEntryView, i: int, pw: Seq<u8>) -> Result<EntryView, Seq<char>> {
    let base = (z.0, z.1, z.2, Some(z.3), z.4, Some(z.5), None::<Seq<u8>>, None::<Seq<char>>);
    if z.1 {
        Ok(base)
    } else if z.4 && pw.len() == 0 {
        Ok((z.0, z.1, z.2, Some(z.3), z.4, Some(z.5), None, Some("需要密码"@)))
    } else {
        let r = if z.4 {
            zip_decrypted(d, i, pw)
        } else {
            zip_plain(d, i)
        };
        match r {
            Err((entry, m)) => Err(zip_open_message(entry, z.4, i, m)),
            Ok(Ok(b)) => Ok((z.0, z.1, z.2, Some(z.3), z.4, Some(z.5), Some(b), None)),
            Ok(Err(e)) => if pw.len() == 0 {
                Ok((z.0, z.1, z.2, Some(z.3), z.4, Some(z.5), None, Some(e)))
            } else {
                Err("读取 ZIP 条目失败: "@ + e)
            },
        }
    }
}

/// The message for a ZIP member `i` that could not be opened: the archive
/// (`entry` false) or the member itself, with or without a password.
pub open spec fn zip_open_message(entry: bool, decrypt: bool, i: int, m: Seq<char>) -> Seq<char> {
    if !entry {
        "zip: "@ + m
    } else if decrypt {
        "ZIP 解密失败: "@ + m
    } else {
        "读取 ZIP 条目 "@ + decimal(i as nat) + " 失败: "@ + m
    }
}

/// The message for a ZIP member that could not be opened.
fn zip_open_error(entry: bool, decrypt: bool, i: usize, m: &String) -> (s: String)
    ensures
        s@ == zip_open_message(entry, decrypt, i as int, m@),
{
    let mut s = String::new();
    if !entry {
        push_str(&mut s, "zip: ");
    } else if decrypt {
        push_str(&mut s, "ZIP 解密失败: ");
    } else {
        push_str(&mut s, "读取 ZIP 条目 ");
        push_decimal(&mut s, i as u64);
        push_str(&mut s, " 失败: ");
    }
    push_str(&mut s, m.as_str());
    s
}

/// The entries of the first `n` listed ZIP members, or the first error.
pub open spec fn zip_entries(d: Seq<u8>, l: Seq<ZipEntryView>, n: int, pw: Seq<u8>) -> Result<Seq<EntryView>, Seq<char>>
    decreases n,
{
    if n <= 0 {
        Ok(Seq::empty())
    } else {
        match zip_entries(d, l, n - 1, pw) {
            Err(m) => Err(m),
            Ok(v) => match zip_entry(d, l[n - 1], n - 1, pw) {
                Err(m) => Err(m),
                Ok(e) => Ok(v.push(e)),
            },
        }
    }
}

proof fn lemma_zip_error_stays(d: Seq<u8>, l: Seq<ZipEntryView>, pw: Seq<u8>, i: int, n: int)
    requires
        0 <= i < n <= l.len(),
        zip_entries(d, l, i, pw) is Ok,
        zip_entry(d, l[i], i, pw) is Err,
    ensures
        zip_entries(d, l, n, pw) == Err::<Seq<EntryView>, Seq<char>>(zip_entry(d, l[i], i, pw)->Err_0),
    decreases n - i,
{
    if n > i + 1 {
        lemma_zip_error_stays(d, l, pw, i, n - 1);
    }
}

/// What `extract_zip` gives.
pub open spec fn extract_zip_spec(d: Seq<u8>, pw: Seq<u8>) -> Result<Seq<EntryView>, Seq<char>> {
    match zip_listing(d) {
        Err((None, m)) => Err("zip: "@ + m),
        Err((Some(i), m)) => Err("读取 ZIP 条目 "@ + decimal(i) + " 失败: "@ + m),
        Ok(l) => zip_entries(d, l, l.len() as int, pw),
    }
}

/// Read a ZIP archive; encrypted entries are decrypted with `password`
/// (ZipCrypto or AES, as the `zip` crate reads them).
pub fn extract_zip(data: &[u8], password: &str) -> (r: Result<ArchiveData, CoreError>)
    ensures
        match (r, extract_zip_spec(data@, password.spec_bytes())) {
            (Ok(a), Ok(w)) => a.format@ == "zip"@ && entries_view(a.entries@) == w,
            (Err(e), Err(m)) => e.is_parse_with(m),
            _ => false,
        },
{
    let pw = password.as_bytes();
    let listing = match list_zip_entries(data) {
        Ok(l) => l,
        Err((at, m)) => {
            let mut msg = String::new();
            match at {
                None => {
                    push_str(&mut msg, "zip: ");
                },
                Some(i) => {
                    push_str(&mut msg, "读取 ZIP 条目 ");
                    push_decimal(&mut msg, i as u64);
                    push_str(&mut msg, " 失败: ");
                },
            }
            push_str(&mut msg, m.as_str());
            return Err(CoreError::Parse(msg));
        },
    };
    let ghost lv = zip_view(listing@);
    let mut entries: Vec<EntryData> = Vec::new();
    let mut i: usize = 0;
    assert(entries_view(entries@) =~= Seq::<EntryView>::empty());
    while i < listing.len()
        invariant
            i <= listing.len(),
            lv == zip_view(listing@),
            zip_listing(data@) == Ok::<Seq<ZipEntryView>, (Option<nat>, Seq<char>)>(lv),
            lv.len() == listing.len(),
            pw@ == password.spec_bytes(),
            zip_entries(data@, lv, i as int, pw@) == Ok::<Seq<EntryView>, Seq<char>>(entries_view(entries@)),
        decreases listing.len() - i,
    {
        let z = &listing[i];
        assert(lv[i as int] == (z.0@, z.1, z.2, z.3, z.4, z.5, z.6@));
        let mut e = EntryData {
            name: z.0.clone(),
            is_dir: z.1,
            size: z.2,
            compressed_size: Some(z.3),
            encrypted: z.4,
            crc32: Some(z.5),
            bytes: None,
            error: None,
        };
        if !e.is_dir {
            if e.encrypted && pw.len() == 0 {
                e.error = Some(String::from_str("需要密码"));
            } else {
                let read = if e.encrypted {
                    read_zip_entry_decrypt(data, i, pw)
                } else {
                    read_zip_entry(data, i)
                };
                match read {
                    Err((entry, m)) => {
                        proof {
                            lemma_zip_error_stays(data@, lv, pw@, i as int, lv.len() as int);
                        }
                        return Err(CoreError::Parse(zip_open_error(entry, e.encrypted, i, &m)));
                    },
                    Ok(Ok(buf)) => {
                        e.bytes = Some(buf);
                    },
                    Ok(Err(msg)) => {
                        if pw.len() == 0 {
                            e.error = Some(msg);
                        } else {
                            let mut m = String::new();
                            push_str(&mut m, "读取 ZIP 条目失败: ");
                            push_str(&mut m, msg.as_str());
                            proof {
                                lemma_zip_error_stays(data@, lv, pw@, i as int, lv.len() as int);
                            }
                            return Err(CoreError::Parse(m));
                        }
                    },
                }
            }
        }
        assert(zip_entry(data@, lv[i as int], i as int, pw@) == Ok::<EntryView, Seq<char>>(entry_view(e)));
        let ghost before = entries@;
        entries.push(e);
        assert(entries_view(entries@) =~= entries_view(before).push(entry_view(e)));
        i += 1;
    }
    assert(lv.len() == listing.len());
    Ok(ArchiveData { format: String::from_str("zip"), entries })
}

/// The name of a gzip member: the header's file name where it has a
/// nonempty one, else a placeholder.
pub open spec fn gz_name_spec(d: Seq<u8>) -> Seq<char> {
    match gz_header_name(d) {
        Some(n) => if n.len() > 0 {
            utf8_lossy(n)
        } else {
            "(gzip 解压内容)"@
        },
        None => "(gzip 解压内容)"@,
    }
}

/// The name of the file inside a gzip stream.
pub fn gz_filename(data: &[u8]) -> (name: String)
    ensures
        name@ == gz_name_spec(data@),
{
    match gz_filename_bytes(data) {
        Some(n) => {
            if n.len() > 0 {
                string_from_utf8_lossy(&n)
            } else {
                String::from_str("(gzip 解压内容)")
            }
        },
        None => String::from_str("(gzip 解压内容)"),
    }
}

/// The entries of one decompressed file.
pub open spec fn single_entry(name: Seq<char>, b: Seq<u8>) -> Seq<EntryView> {
    seq![(name, false, b.len() as u64, None, false, None, Some(b), None)]
}

/// What `extract_gz` gives: the format and entries, or the message.
pub open spec fn extract_gz_spec(d: Seq<u8>, auto_nested_tar: bool) -> Result<(Seq<char>, Seq<EntryView>), Seq<char>> {
    match gunzip_result(d) {
        Err(e) => Err("gzip: "@ + e),
        Ok(b) => if auto_nested_tar && detect_spec(b) == "tar"@ {
            match extract_tar_spec(b) {
                Ok(es) => Ok(("tar.gz"@, es)),
                Err(m) => Err(m),
            }
        } else {
            Ok(("gz"@, single_entry(gz_name_spec(d), b)))
        },
    }
}

/// The views of an extraction's result.
pub open spec fn archive_result(r: Result<ArchiveData, CoreError>) -> Result<(Seq<char>, Seq<EntryView>), Seq<char>> {
    match r {
        Ok(a) => Ok((a.format@, entries_view(a.entries@))),
        Err(CoreError::Parse(m)) => Err(m@),
        Err(_) => Err(Seq::empty()),
    }
}

/// Whether an extraction failed with a `Parse` error or succeeded.
pub open spec fn parse_or_ok(r: Result<ArchiveData, CoreError>) -> bool {
    r is Ok || r matches Err(CoreError::Parse(_))
}

proof fn lemma_single_entry(a: ArchiveData, name: Seq<char>, b: Seq<u8>)
    requires
        a.entries@.len() == 1,
        a.entries@[0].name@ == name,
        !a.entries@[0].is_dir,
        a.entries@[0].size == b.len(),
        a.entries@[0].compressed_size is None,
        !a.entries@[0].encrypted,
        a.entries@[0].crc32 is None,
        a.entries@[0].bytes matches Some(x) && x@ == b,
        a.entries@[0].error is None,
    ensures
        entries_view(a.entries@) == single_entry(name, b),
{
    assert(entries_view(a.entries@) =~= single_entry(name, b));
}

/// Decompress a gzip stream; with `auto_nested_tar`, a tar inside is read
/// as a `tar.gz` archive.
pub fn extract_gz(data: &[u8], auto_nested_tar: bool) -> (r: Result<ArchiveData, CoreError>)
    ensures
        parse_or_ok(r),
        archive_result(r) == extract_gz_spec(data@, auto_nested_tar),
{
    let name = gz_filename(data);
    let bytes = match gunzip(data) {
        Ok(b) => b,
        Err(e) => {
            let mut m = String::new();
            push_str(&mut m, "gzip: ");
            push_str(&mut m, e.as_str());
            return Err(CoreError::Parse(m));
        },
    };
    if auto_nested_tar && is_tar(detect(bytes.as_slice())) {
        match extract_tar(bytes.as_slice()) {
            Ok(mut out) => {
                out.format = String::from_str("tar.gz");
                return Ok(out);
            },
            Err(e) => {
                return Err(e);
            },
        }
    }
    let ghost b = bytes@;
    let out = single_file("gz", name.as_str(), bytes);
    proof {
        lemma_single_entry(out, gz_name_spec(data@), b);
    }
    Ok(out)
}

fn is_tar(f: &str) -> (r: bool)
    ensures
        r == (f@ == "tar"@),
{
    let c = chars_of(f);
    is_str(&c, "tar")
}

/// Decompress a zlib stream.
pub fn extract_zlib(data: &[u8]) -> (r: Result<ArchiveData, CoreError>)
    ensures
        parse_or_ok(r),
        archive_result(r) == match zlib_result(data@) {
            Err(e) => Err("zlib: "@ + e),
            Ok(b) => Ok::<(Seq<char>, Seq<EntryView>), Seq<char>>(("zlib"@, single_entry("(zlib 解压内容)"@, b))),
        },
{
    match zlib_inflate(data) {
        Ok(b) => {
            let ghost bv = b@;
            let out = single_file("zlib", "(zlib 解压内容)", b);
            proof {
                lemma_single_entry(out, "(zlib 解压内容)"@, bv);
            }
            Ok(out)
        },
        Err(e) => {
            let mut m = String::new();
            push_str(&mut m, "zlib: ");
            push_str(&mut m, e.as_str());
            Err(CoreError::Parse(m))
        },
    }
}

/// Decompress a raw deflate stream.
pub fn extract_deflate(data: &[u8]) -> (r: Result<ArchiveData, CoreError>)
    ensures
        parse_or_ok(r),
        archive_result(r) == match inflate_result(data@) {
            Err(e) => Err("raw deflate: "@ + e),
            Ok(b) => Ok::<(Seq<char>, Seq<EntryView>), Seq<char>>(("deflate"@, single_entry("(raw deflate 解压内容)"@, b))),
        },
{
    match raw_inflate(data) {
        Ok(b) => {
            let ghost bv = b@;
            let out = single_file("deflate", "(raw deflate 解压内容)", b);
            proof {
                lemma_single_entry(out, "(raw deflate 解压内容)"@, bv);
            }
            Ok(out)
        },
        Err(e) => {
            let mut m = String::new();
            push_str(&mut m, "raw deflate: ");
            push_str(&mut m, e.as_str());
            Err(CoreError::Parse(m))
        },
    }
}

/// Decompress a gzip stream holding a tar archive.
pub fn extract_tar_gz(data: &[u8]) -> (r: Result<ArchiveData, CoreError>)
    ensures
        parse_or_ok(r),
        archive_result(r) == match gunzip_result(data@) {
            Err(e) => Err("gzip: "@ + e),
            Ok(b) => match extract_tar_spec(b) {
                Ok(es) => Ok(("tar.gz"@, es)),
                Err(m) => Err(m),
            },
        },
{
    let bytes = match gunzip(data) {
        Ok(b) => b,
        Err(e) => {
            let mut m = String::new();
            push_str(&mut m, "gzip: ");
            push_str(&mut m, e.as_str());
            return Err(CoreError::Parse(m));
        },
    };
    match extract_tar(bytes.as_slice()) {
        Ok(mut out) => {
            out.format = String::from_str("tar.gz");
            Ok(out)
        },
        Err(e) => Err(e),
    }
}

/// The reader an archive needs.
#[derive(Debug, Clone, Copy, PartialEq, Eq, Structural)]
pub enum ArchiveKind {
    Zip,
    Gz,
    TarGz,
    Zlib,
    Deflate,
    Tar,
    SevenZ,
    Rar,
}

/// The message for bytes of no known format.
pub open spec fn unknown_format_message() -> Seq<char> {
    "未识别的压缩格式；如果输入来自故事模式或文件节点，请确认传入的是文件字节、data URL、文件路径或压缩包 base64，而不是文件名/列表文本。可手动选择 zip/7z/rar/gz/tar/zlib/deflate"@
}

/// The reader for the format asked for (detected where it is `auto`), or
/// the message of an unsupported format.
pub open spec fn archive_kind_spec(d: Seq<u8>, fmt: Seq<char>) -> Result<ArchiveKind, Seq<char>> {
    let requested = normalize_spec(fmt);
    let kind = if requested == "auto"@ {
        detect_spec(d)
    } else {
        requested
    };
    if kind == "zip"@ {
        Ok(ArchiveKind::Zip)
    } else if kind == "gz"@ {
        Ok(ArchiveKind::Gz)
    } else if kind == "tar.gz"@ {
        Ok(ArchiveKind::TarGz)
    } else if kind == "zlib"@ {
        Ok(ArchiveKind::Zlib)
    } else if kind == "deflate"@ {
        Ok(ArchiveKind::Deflate)
    } else if kind == "tar"@ {
        Ok(ArchiveKind::Tar)
    } else if kind == "7z"@ {
        Ok(ArchiveKind::SevenZ)
    } else if kind == "rar"@ {
        Ok(ArchiveKind::Rar)
    } else if kind == "unknown"@ {
        Err(unknown_format_message())
    } else {
        Err("不支持的压缩格式: "@ + kind)
    }
}

/// Which reader the archive needs, from the requested format (`自动` /
/// `auto` detects it), and whether the format was detected.
pub fn archive_kind(data: &[u8], fmt: &str) -> (r: Result<(ArchiveKind, bool), CoreError>)
    ensures
        match (r, archive_kind_spec(data@, fmt@)) {
            (Ok((k, auto)), Ok(j)) => k == j && auto == (normalize_spec(fmt@) == "auto"@),
            (Err(e), Err(m)) => e matches CoreError::Unsupported(msg) && msg@ == m,
            _ => false,
        },
{
    let requested = normalize_format(fmt);
    let rc = chars_of(requested.as_str());
    let auto = is_str(&rc, "auto");
    let kind: Vec<char> = if auto {
        chars_of(detect(data))
    } else {
        rc
    };
    if is_str(&kind, "zip") {
        Ok((ArchiveKind::Zip, auto))
    } else if is_str(&kind, "gz") {
        Ok((ArchiveKind::Gz, auto))
    } else if is_str(&kind, "tar.gz") {
        Ok((ArchiveKind::TarGz, auto))
    } else if is_str(&kind, "zlib") {
        Ok((ArchiveKind::Zlib, auto))
    } else if is_str(&kind, "deflate") {
        Ok((ArchiveKind::Deflate, auto))
    } else if is_str(&kind, "tar") {
        Ok((ArchiveKind::Tar, auto))
    } else if is_str(&kind, "7z") {
        Ok((ArchiveKind::SevenZ, auto))
    } else if is_str(&kind, "rar") {
        Ok((ArchiveKind::Rar, auto))
    } else if is_str(&kind, "unknown") {
        Err(CoreError::Unsupported(String::from_str(
            "未识别的压缩格式；如果输入来自故事模式或文件节点，请确认传入的是文件字节、data URL、文件路径或压缩包 base64，而不是文件名/列表文本。可手动选择 zip/7z/rar/gz/tar/zlib/deflate",
        )))
    } else {
        let mut m = String::new();
        push_str(&mut m, "不支持的压缩格式: ");
        let ks = string_from_chars(&kind);
        push_str(&mut m, ks.as_str());
        Err(CoreError::Unsupported(m))
    }
}

} // verus!
