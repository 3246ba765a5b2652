//! The bkcrack node: a known-plaintext attack (Biham–Kocher) on a ZipCrypto
//! entry of a ZIP archive. This module reads the archive's central
//! directory, picks the entry, resolves the known plaintext (a built-in
//! file-header template, hex or text), runs the attack of
//! [`crate::zipcrypto`] and deciphers the entry.
use vstd::prelude::*;
use crate::compress::{inflate_result, raw_inflate, result_view};
use crate::error::CoreError;
use crate::zipcrypto::{decipher, decipher_spec, recover_keys, search_exhausted, sound, AttackError, Keys, ENCRYPTION_HEADER_SIZE};
use crate::hexcodec::{hex_bytes, hex_decode, hex_ok, hex_value};
use crate::text::{
    chars_of, chars_eq, decimal, push_char, push_decimal, push_signed, push_str, signed_decimal,
    string_from_chars, string_from_utf8_lossy, trim_chars, trim_spec, utf8_lossy,
};
use vstd::string::StringExecFns;
use vstd::string::StringSliceAdditionalSpecFns;

verus! {

// ---------------------------------------------------------------------------
// Central directory
// ---------------------------------------------------------------------------

/// A little-endian 16-bit value.
pub open spec fn u16_at(d: Seq<u8>, i: int) -> int {
    d[i] + 256 * d[i + 1]
}

/// A little-endian 32-bit value.
pub open spec fn u32_at(d: Seq<u8>, i: int) -> int {
    d[i] + 256 * d[i + 1] + 65536 * d[i + 2] + 16777216 * d[i + 3]
}

/// `PK` followed by `a`, `b` at `i`.
pub open spec fn sig_at(d: Seq<u8>, i: int, a: u8, b: u8) -> bool {
    &&& 0 <= i
    &&& i + 4 <= d.len()
    &&& d[i] == 0x50
    &&& d[i + 1] == 0x4b
    &&& d[i + 2] == a
    &&& d[i + 3] == b
}

/// The highest position in `[lower, p]` where the end-of-central-directory
/// signature starts.
pub open spec fn eocd_from(d: Seq<u8>, p: int, lower: int) -> Option<int>
    decreases p - lower + 1,
{
    if p < lower {
        None
    } else if sig_at(d, p, 5, 6) {
        Some(p)
    } else {
        eocd_from(d, p - 1, lower)
    }
}

/// Where the end-of-central-directory record starts: searched backwards
/// from 22 bytes before the end, past a comment of up to 65535 bytes.
pub open spec fn eocd_spec(d: Seq<u8>) -> Option<int> {
    if d.len() < 22 {
        None
    } else {
        let start = d.len() - 22;
        eocd_from(d, start, if start > 0xffff { start - 0xffff } else { 0 })
    }
}

/// What an entry is: name, method, encrypted flag, where its raw data
/// (with the 12-byte encryption header) starts, and its compressed size.
pub type EntryView = (Seq<char>, u16, bool, int, int);

/// The entries of the central directory from the header at `i` on; an entry
/// whose local header is not where it points is skipped.
pub open spec fn central_from(d: Seq<u8>, i: int) -> Seq<EntryView>
    decreases d.len() - i,
{
    if !(0 <= i && i + 46 <= d.len() && sig_at(d, i, 1, 2)) {
        Seq::empty()
    } else {
        let flags = u16_at(d, i + 8);
        let method = u16_at(d, i + 10);
        let comp = u32_at(d, i + 20);
        let nl = u16_at(d, i + 28);
        let el = u16_at(d, i + 30);
        let cl = u16_at(d, i + 32);
        let lho = u32_at(d, i + 42);
        let name_end = if i + 46 + nl < d.len() {
            i + 46 + nl
        } else {
            d.len() as int
        };
        let name = utf8_lossy(d.subrange(i + 46, name_end));
        let next = i + 46 + nl + el + cl;
        let here = if lho + 30 <= d.len() && sig_at(d, lho, 3, 4) {
            seq![
                (
                    name,
                    method as u16,
                    flags % 2 == 1,
                    lho + 30 + u16_at(d, lho + 26) + u16_at(d, lho + 28),
                    comp,
                ),
            ]
        } else {
            Seq::empty()
        };
        here + if next <= d.len() {
            central_from(d, next)
        } else {
            Seq::empty()
        }
    }
}

/// What `parse_zip` gives: the entries, or the message of its error.
pub open spec fn parse_zip_spec(d: Seq<u8>) -> Result<Seq<EntryView>, Seq<char>> {
    match eocd_spec(d) {
        None => Err("不是有效 ZIP（未找到中央目录结尾 EOCD）"@),
        Some(e) => {
            let es = central_from(d, u32_at(d, e + 16));
            if es.len() == 0 {
                Err("ZIP 中央目录为空或无法解析"@)
            } else {
                Ok(es)
            }
        },
    }
}

/// A ZIP entry: what the attack needs from the central directory and the
/// local header.
#[derive(Debug, Clone)]
pub struct Entry {
    pub name: String,
    pub method: u16,
    pub encrypted: bool,
    /// Where the raw data (with the 12-byte encryption header) starts.
    pub data_start: usize,
    pub comp_size: usize,
}

impl Entry {
    pub open spec fn view_of(&self) -> EntryView {
        (self.name@, self.method, self.encrypted, self.data_start as int, self.comp_size as int)
    }
}

/// The views of entries.
pub open spec fn entries_view(v: Seq<Entry>) -> Seq<EntryView> {
    v.map_values(|e: Entry| e.view_of())
}

fn u16le(d: &[u8], i: usize) -> (v: u16)
    requires
        i + 2 <= d.len(),
    ensures
        v as int == u16_at(d@, i as int),
{
    d[i] as u16 + 256 * d[i + 1] as u16
}

fn u32le(d: &[u8], i: usize) -> (v: u32)
    requires
        i + 4 <= d.len(),
    ensures
        v as int == u32_at(d@, i as int),
{
    d[i] as u32 + 256 * d[i + 1] as u32 + 65536 * d[i + 2] as u32 + 16777216 * d[i + 3] as u32
}

fn sig(d: &[u8], i: usize, a: u8, b: u8) -> (r: bool)
    requires
        i <= d.len(),
    ensures
        r == sig_at(d@, i as int, a, b),
{
    d.len() - i >= 4 && d[i] == 0x50 && d[i + 1] == 0x4b && d[i + 2] == a && d[i + 3] == b
}

fn copy_range(d: &[u8], from: usize, to: usize) -> (v: Vec<u8>)
    requires
        from <= to <= d.len(),
    ensures
        v@ == d@.subrange(from as int, to as int),
{
    let mut v: Vec<u8> = Vec::new();
    let mut i = from;
    while i < to
        invariant
            from <= i <= to,
            to <= d.len(),
            v@ == d@.subrange(from as int, i as int),
        decreases to - i,
    {
        v.push(d[i]);
        assert(d@.subrange(from as int, i + 1) =~= d@.subrange(from as int, i as int).push(d@[i as int]));
        i += 1;
    }
    v
}

/// Read the ZIP's central directory: every entry whose local header is
/// found, with where its raw data starts.
pub fn parse_zip(data: &[u8]) -> (r: Result<Vec<Entry>, CoreError>)
    requires
        data@.len() <= usize::MAX / 2,
    ensures
        match (r, parse_zip_spec(data@)) {
            (Ok(v), Ok(w)) => entries_view(v@) == w,
            (Err(e), Err(m)) => e.is_parse_with(m),
            _ => false,
        },
{
    let n = data.len();
    let mut found: Option<usize> = None;
    if n >= 22 {
        let start = n - 22;
        let lower = if start > 0xffff {
            start - 0xffff
        } else {
            0
        };
        let mut p = start;
        loop
            invariant_except_break
                lower <= p <= start,
                start == n - 22,
                n == data.len(),
                found is None,
                eocd_spec(data@) == eocd_from(data@, p as int, lower as int),
            ensures
                n == data.len(),
                n >= 22,
                match found {
                    Some(e) => eocd_spec(data@) == Some(e as int) && e + 22 <= n,
                    None => eocd_spec(data@) is None,
                },
            decreases p,
        {
            if sig(data, p, 0x05, 0x06) {
                found = Some(p);
                break;
            }
            if p == lower {
                assert(eocd_from(data@, p - 1, lower as int) is None);
                break;
            }
            p -= 1;
        }
    }
    assert(n < 22 ==> found is None && eocd_spec(data@) is None);
    let eocd = match found {
        Some(e) => e,
        None => {
            return Err(CoreError::Parse(String::from_str("不是有效 ZIP（未找到中央目录结尾 EOCD）")));
        },
    };
    let cd_offset = u32le(data, eocd + 16) as usize;
    let mut entries: Vec<Entry> = Vec::new();
    let mut i = cd_offset;
    let ghost whole = central_from(data@, cd_offset as int);
    assert(entries_view(entries@) + central_from(data@, i as int) =~= whole);
    while i <= n && n - i >= 46 && sig(data, i, 0x01, 0x02)
        invariant
            n == data.len(),
            n <= usize::MAX / 2,
            whole == central_from(data@, cd_offset as int),
            i <= n ==> entries_view(entries@) + central_from(data@, i as int) == whole,
            i > n ==> entries_view(entries@) == whole,
        decreases if i <= n {
            n + 1 - i
        } else {
            0
        },
    {
        let ghost pre = entries_view(entries@);
        let flags = u16le(data, i + 8);
        let method = u16le(data, i + 10);
        let comp_size = u32le(data, i + 20) as usize;
        let name_len = u16le(data, i + 28) as usize;
        let extra_len = u16le(data, i + 30) as usize;
        let comment_len = u16le(data, i + 32) as usize;
        let lho = u32le(data, i + 42) as usize;
        let name_end = if name_len < n - (i + 46) {
            i + 46 + name_len
        } else {
            n
        };
        let name_bytes = copy_range(data, i + 46, name_end);
        let name = string_from_utf8_lossy(&name_bytes);
        let ghost here: Seq<EntryView>;
        if lho <= n && n - lho >= 30 && sig(data, lho, 0x03, 0x04) {
            let lh_name = u16le(data, lho + 26) as usize;
            let lh_extra = u16le(data, lho + 28) as usize;
            let data_start = lho + 30 + lh_name + lh_extra;
            let e = Entry { name, method, encrypted: flags % 2 == 1, data_start, comp_size };
            proof {
                here = seq![e.view_of()];
            }
            entries.push(e);
        } else {
            proof {
                here = Seq::empty();
            }
        }
        let next = i + 46 + name_len + extra_len + comment_len;
        proof {
            assert(entries_view(entries@) =~= pre + here);
            if next <= n {
                assert(entries_view(entries@) + central_from(data@, next as int) =~= pre + (here
                    + central_from(data@, next as int)));
            } else {
                assert(entries_view(entries@) =~= pre + (here + Seq::<EntryView>::empty()));
            }
        }
        i = next;
    }
    proof {
        if i <= n {
            assert(central_from(data@, i as int) =~= Seq::<EntryView>::empty());
            assert(entries_view(entries@) =~= whole);
        }
    }
    if entries.len() == 0 {
        return Err(CoreError::Parse(String::from_str("ZIP 中央目录为空或无法解析")));
    }
    Ok(entries)
}

// ---------------------------------------------------------------------------
// Known plaintext
// ---------------------------------------------------------------------------

/// The built-in plaintext templates: name, hex plaintext and offset. Each is
/// a file header of at least 12 bytes that stands at offset 0.
pub open spec fn templates_spec() -> Seq<(Seq<char>, Seq<char>, i32)> {
    seq![
        ("PNG 图片"@, "89504e470d0a1a0a0000000d49484452"@, 0i32),
        ("JPEG 图片(JFIF)"@, "ffd8ffe000104a4649460001"@, 0i32),
        ("Office 文档(OOXML)"@, "504b03041400060008000000"@, 0i32),
        ("ELF 可执行(64位)"@, "7f454c46020101000000000000000000"@, 0i32),
    ]
}

/// The views of the template table.
pub open spec fn templates_view(t: Seq<(&'static str, &'static str, i32)>) -> Seq<(Seq<char>, Seq<char>, i32)> {
    t.map_values(|e: (&'static str, &'static str, i32)| (e.0@, e.1@, e.2))
}

/// The built-in plaintext templates: name, hex plaintext, offset.
pub fn templates() -> (t: Vec<(&'static str, &'static str, i32)>)
    ensures
        templates_view(t@) == templates_spec(),
{
    let t = vec![
        ("PNG 图片", "89504e470d0a1a0a0000000d49484452", 0i32),
        ("JPEG 图片(JFIF)", "ffd8ffe000104a4649460001", 0i32),
        ("Office 文档(OOXML)", "504b03041400060008000000", 0i32),
        ("ELF 可执行(64位)", "7f454c46020101000000000000000000", 0i32),
    ];
    assert(templates_view(t@) =~= templates_spec());
    t
}

/// The position of the template called `name`.
pub open spec fn template_index(name: Seq<char>) -> Option<int> {
    if name == templates_spec()[0].0 {
        Some(0)
    } else if name == templates_spec()[1].0 {
        Some(1)
    } else if name == templates_spec()[2].0 {
        Some(2)
    } else if name == templates_spec()[3].0 {
        Some(3)
    } else {
        None
    }
}

/// The ASCII characters as bytes.
pub open spec fn ascii_seq_bytes(cs: Seq<char>) -> Seq<u8> {
    cs.map_values(|c: char| c as u32 as u8)
}

/// The hex digits of `cs` as bytes, everything else dropped.
pub open spec fn hex_digit_bytes(cs: Seq<char>) -> Seq<u8>
    decreases cs.len(),
{
    if cs.len() == 0 {
        Seq::empty()
    } else {
        let c = cs.last();
        let rest = hex_digit_bytes(cs.drop_last());
        if ('0' <= c && c <= '9') || ('a' <= c && c <= 'f') || ('A' <= c && c <= 'F') {
            rest.push(c as u32 as u8)
        } else {
            rest
        }
    }
}

/// How `resolve_plaintext` fails.
pub enum PlainError {
    /// The custom hex has an odd number of digits.
    BadHex,
    /// No plaintext was given at all.
    Missing,
}

/// What `resolve_plaintext` gives: a template's plaintext and offset, else
/// the custom hex (its hex digits), else the custom text's UTF-8 bytes, at
/// the given offset.
pub open spec fn resolve_spec(template: Seq<char>, offset: i32, plain_hex: Seq<char>, plain_text: &str) -> Result<
    (Seq<u8>, i32),
    PlainError,
> {
    match template_index(template) {
        Some(i) => Ok((hex_bytes(ascii_seq_bytes(templates_spec()[i].1)), templates_spec()[i].2)),
        None => {
            let cleaned = hex_digit_bytes(plain_hex);
            if cleaned.len() > 0 {
                if cleaned.len() % 2 == 0 {
                    Ok((hex_bytes(cleaned), offset))
                } else {
                    Err(PlainError::BadHex)
                }
            } else if plain_text.spec_bytes().len() > 0 {
                Ok((plain_text.spec_bytes(), offset))
            } else {
                Err(PlainError::Missing)
            }
        },
    }
}

/// Decode the hex plaintext of a built-in template.
fn template_bytes(hexed: &str) -> (b: Vec<u8>)
    requires
        exists|i: int| 0 <= i < 4 && hexed@ == #[trigger] templates_spec()[i].1,
    ensures
        b@ == hex_bytes(ascii_seq_bytes(hexed@)),
{
    broadcast use vstd::string::is_ascii_spec_bytes;

    proof {
        reveal_strlit("89504e470d0a1a0a0000000d49484452");
        reveal_strlit("ffd8ffe000104a4649460001");
        reveal_strlit("504b03041400060008000000");
        reveal_strlit("7f454c46020101000000000000000000");
    }
    let bytes = hexed.as_bytes();
    proof {
        assert(vstd::string::is_ascii(hexed));
        assert(bytes@ =~= ascii_seq_bytes(hexed@));
        assert(hex_ok(bytes@));
    }
    match hex_decode(bytes) {
        Ok(v) => v,
        Err(_) => {
            assert(false);
            Vec::new()
        },
    }
}

/// The message of each way `resolve_plaintext` fails, and its variant.
pub open spec fn plain_error_matches(e: CoreError, p: PlainError) -> bool {
    match p {
        PlainError::BadHex => e.is_parse_with("已知明文 Hex 不合法（需偶数个十六进制字符）"@),
        PlainError::Missing => e matches CoreError::Other(m) && m@
            == "请提供已知明文：选择一个明文模板，或填写「已知明文(Hex)」/「已知明文(文本)」"@,
    }
}

/// The known plaintext and its offset: a built-in template (chosen by name)
/// first, else the custom hex (its hex digits; an odd count is an error),
/// else the custom text; with none of them, an error.
pub fn resolve_plaintext(template: &str, offset: i32, plain_hex: &str, plain_text: &str) -> (r: Result<
    (Vec<u8>, i32),
    CoreError,
>)
    ensures
        match (r, resolve_spec(template@, offset, plain_hex@, plain_text)) {
            (Ok((b, o)), Ok((w, p))) => b@ == w && o == p,
            (Err(e), Err(p)) => plain_error_matches(e, p),
            _ => false,
        },
{
    let table = templates();
    assert(templates_view(table@).len() == 4);
    let name = chars_of(template);
    let mut k: usize = 0;
    while k < table.len()
        invariant
            k <= table.len(),
            table.len() == 4,
            templates_view(table@) == templates_spec(),
            name@ == template@,
            forall|q: int| 0 <= q < k ==> template@ != templates_spec()[q].0,
        decreases table.len() - k,
    {
        let tn = chars_of(table[k].0);
        assert(templates_view(table@)[k as int] == (table@[k as int].0@, table@[k as int].1@, table@[k as int].2));
        if chars_eq(&tn, &name) {
            proof {
                assert(table@[k as int].1@ == templates_spec()[k as int].1);
                assert(template@ == templates_spec()[k as int].0);
                if k == 0 {
                    assert(template_index(template@) == Some(0int));
                } else if k == 1 {
                    assert(template@ != templates_spec()[0].0);
                    assert(template_index(template@) == Some(1int));
                } else if k == 2 {
                    assert(template@ != templates_spec()[0].0);
                    assert(template@ != templates_spec()[1].0);
                    assert(template_index(template@) == Some(2int));
                } else {
                    assert(template@ != templates_spec()[0].0);
                    assert(template@ != templates_spec()[1].0);
                    assert(template@ != templates_spec()[2].0);
                    assert(template_index(template@) == Some(3int));
                }
            }
            let bytes = template_bytes(table[k].1);
            return Ok((bytes, table[k].2));
        }
        k += 1;
    }
    assert(template@ != templates_spec()[0].0);
    assert(template@ != templates_spec()[1].0);
    assert(template@ != templates_spec()[2].0);
    assert(template@ != templates_spec()[3].0);
    assert(template_index(template@) is None);
    let hc = chars_of(plain_hex);
    let mut cleaned: Vec<u8> = Vec::new();
    let mut i: usize = 0;
    assert(hc@.take(0) =~= Seq::<char>::empty());
    while i < hc.len()
        invariant
            i <= hc.len(),
            hc@ == plain_hex@,
            cleaned@ == hex_digit_bytes(hc@.take(i as int)),
            forall|q: int| 0 <= q < cleaned.len() ==> (#[trigger] hex_value(cleaned@[q])) is Some,
        decreases hc.len() - i,
    {
        let c = hc[i];
        assert(hc@.take(i + 1).drop_last() =~= hc@.take(i as int));
        assert(hc@.take(i + 1).last() == c);
        if ('0' <= c && c <= '9') || ('a' <= c && c <= 'f') || ('A' <= c && c <= 'F') {
            let v = #[verifier::truncate] (c as u32);
            assert(v as int == c as int) by {
                assert(c as int <= 102);
            }
            cleaned.push(v as u8);
        }
        i += 1;
    }
    assert(hc@.take(hc.len() as int) =~= hc@);
    if cleaned.len() > 0 {
        match hex_decode(cleaned.as_slice()) {
            Ok(bytes) => {
                return Ok((bytes, offset));
            },
            Err(_) => {
                return Err(CoreError::Parse(String::from_str("已知明文 Hex 不合法（需偶数个十六进制字符）")));
            },
        }
    }
    let tb = plain_text.as_bytes();
    if tb.len() > 0 {
        let mut bytes: Vec<u8> = Vec::new();
        let mut j: usize = 0;
        while j < tb.len()
            invariant
                j <= tb.len(),
                bytes@ == tb@.take(j as int),
            decreases tb.len() - j,
        {
            bytes.push(tb[j]);
            assert(tb@.take(j + 1) =~= tb@.take(j as int).push(tb@[j as int]));
            j += 1;
        }
        assert(tb@.take(tb.len() as int) =~= tb@);
        return Ok((bytes, offset));
    }
    Err(CoreError::Other(String::from_str("请提供已知明文：选择一个明文模板，或填写「已知明文(Hex)」/「已知明文(文本)」")))
}

// ---------------------------------------------------------------------------
// The attack
// ---------------------------------------------------------------------------

/// The first entry from `from` on whose name is `want`.
pub open spec fn find_named(es: Seq<EntryView>, want: Seq<char>, from: int) -> Option<int>
    decreases es.len() - from,
{
    if from >= es.len() || from < 0 {
        None
    } else if es[from].0 == want {
        Some(from)
    } else {
        find_named(es, want, from + 1)
    }
}

/// Whether a name is a directory's (ends in `/`).
pub open spec fn is_dir_name(n: Seq<char>) -> bool {
    n.len() > 0 && n.last() == '/'
}

/// The first encrypted file entry from `from` on.
pub open spec fn find_encrypted(es: Seq<EntryView>, from: int) -> Option<int>
    decreases es.len() - from,
{
    if from >= es.len() || from < 0 {
        None
    } else if es[from].2 && !is_dir_name(es[from].0) {
        Some(from)
    } else {
        find_encrypted(es, from + 1)
    }
}

/// The entry to attack: the one named `want` (trimmed), or without a name
/// the first encrypted file; else the message of the error.
pub open spec fn select_entry_spec(es: Seq<EntryView>, want: Seq<char>) -> Result<int, Seq<char>> {
    if want.len() > 0 {
        match find_named(es, want, 0) {
            Some(i) => Ok(i),
            None => Err("ZIP 中没有条目「"@ + want + "」"@),
        }
    } else {
        match find_encrypted(es, 0) {
            Some(i) => Ok(i),
            None => Err("未指定密文条目，且未找到加密条目（是否为 ZipCrypto 加密？）"@),
        }
    }
}

/// Why an entry cannot be attacked, if it cannot.
pub open spec fn entry_problem(e: EntryView, archive_len: int) -> Option<Seq<char>> {
    if !e.2 {
        Some("条目「"@ + e.0 + "」未加密，无需攻击"@)
    } else if e.1 == 99 {
        Some("该条目是 WinZip AES 加密，不是 ZipCrypto，已知明文攻击不适用"@)
    } else if e.4 == 0 || e.3 + e.4 > archive_len {
        Some("条目「"@ + e.0 + "」数据越界或为空（可能是 ZIP64，暂不支持）"@)
    } else {
        None
    }
}

/// The name of a compression method.
pub open spec fn method_name(m: u16) -> Seq<char> {
    if m == 0 {
        "Stored"@
    } else if m == 8 {
        "Deflate"@
    } else {
        "其它压缩"@
    }
}

/// The hint for a compressed entry attacked with a file-header template.
pub open spec fn compressed_hint() -> Seq<char> {
    "提示：该条目为压缩条目，文件头模板通常只适用于 Stored 条目；若攻击失败/很慢，请改用「自定义 Hex」提供压缩流的已知明文。\n"@
}

/// The head of the report: the entry, the known plaintext, and the hint
/// where it applies.
pub open spec fn report_head(e: EntryView, plain_len: nat, offset: i32, template: Seq<char>) -> Seq<char> {
    "密文条目："@ + e.0 + "（"@ + method_name(e.1) + "，密文 "@ + decimal(e.4 as nat) + " 字节）\n"@
        + "已知明文："@ + decimal(plain_len) + " 字节 @ 偏移 "@ + signed_decimal(offset as int) + "\n"@
        + if e.1 != 0 && template != "自定义"@ {
        compressed_hint()
    } else {
        Seq::empty()
    }
}

/// Eight lower-case hex digits of a 32-bit value.
pub open spec fn hex8(v: u32) -> Seq<char> {
    Seq::new(8, |k: int| crate::hexcodec::hex_digit((v as int / pow16(7 - k)) % 16))
}

/// `16^e` for `e` up to 7.
pub open spec fn pow16(e: int) -> int {
    if e <= 0 {
        1
    } else if e == 1 {
        16
    } else if e == 2 {
        256
    } else if e == 3 {
        4096
    } else if e == 4 {
        65536
    } else if e == 5 {
        1048576
    } else if e == 6 {
        16777216
    } else {
        268435456
    }
}

/// The three keys as `xxxxxxxx yyyyyyyy zzzzzzzz`.
pub open spec fn keys_text(k: Keys) -> Seq<char> {
    hex8(k.x) + " "@ + hex8(k.y) + " "@ + hex8(k.z)
}

/// The deciphered entry, inflated where it is a deflate stream that
/// inflates to something, and the note that says which.
pub open spec fn recovered_data(method: u16, deciphered: Seq<u8>) -> (Seq<u8>, Seq<char>) {
    if method == 8 {
        match inflate_result(deciphered) {
            Ok(v) => if v.len() > 0 {
                (v, "已解密并 Inflate 还原"@)
            } else {
                (deciphered, "已解密（Inflate 失败，输出为压缩流）"@)
            },
            Err(_) => (deciphered, "已解密（Inflate 失败，输出为压缩流）"@),
        }
    } else {
        (deciphered, "已解密"@)
    }
}

/// What a successful attack reports.
#[derive(Debug)]
pub struct AttackReport {
    /// The recovered internal keys.
    pub keys: Keys,
    /// The keys as text, `xxxxxxxx yyyyyyyy zzzzzzzz`.
    pub keys_text: String,
    /// The deciphered (and where possible inflated) entry, if asked for.
    pub data: Option<Vec<u8>>,
    /// A readable account of the run.
    pub report: String,
}

/// Append the eight hex digits of a 32-bit value.
pub(crate) fn push_hex8(s: &mut String, v: u32)
    ensures
        final(s)@ == old(s)@ + hex8(v),
{
    let ghost pre = s@;
    let weights: [u32; 8] = [268435456, 16777216, 1048576, 65536, 4096, 256, 16, 1];
    let mut k: usize = 0;
    while k < 8
        invariant
            k <= 8,
            forall|q: int| 0 <= q < 8 ==> weights@[q] == pow16(7 - q),
            s@ == pre + hex8(v).take(k as int),
        decreases 8 - k,
    {
        assert(weights@[k as int] == pow16(7 - k));
        assert(pow16(7 - k) > 0);
        let d = (v / weights[k]) % 16;
        let c = if d < 10 {
            (48 + d as u8) as char
        } else {
            (87 + d as u8) as char
        };
        assert(c == crate::hexcodec::hex_digit(d as int));
        push_char(s, c);
        assert(hex8(v).take(k + 1) =~= hex8(v).take(k as int).push(c));
        k += 1;
    }
    assert(hex8(v).take(8) =~= hex8(v));
}

/// Pick the entry to attack; see `select_entry_spec`.
pub fn select_entry(entries: &Vec<Entry>, want: &str) -> (r: Result<usize, CoreError>)
    ensures
        match (r, select_entry_spec(entries_view(entries@), trim_spec(want@))) {
            (Ok(i), Ok(j)) => i == j,
            (Err(e), Err(m)) => e matches CoreError::Other(msg) && msg@ == m,
            _ => false,
        },
        r matches Ok(i) ==> i < entries.len(),
{
    let ghost es = entries_view(entries@);
    let wc = chars_of(want);
    let w = trim_chars(&wc);
    let n = entries.len();
    let mut i: usize = 0;
    if w.len() > 0 {
        while i < n
            invariant
                i <= n,
                n == entries.len(),
                es == entries_view(entries@),
                w@ == trim_spec(want@),
                w@.len() > 0,
                find_named(es, w@, 0) == find_named(es, w@, i as int),
            decreases n - i,
        {
            let nc = chars_of(entries[i].name.as_str());
            assert(es[i as int].0 == entries@[i as int].name@);
            if chars_eq(&nc, &w) {
                assert(find_named(es, w@, i as int) == Some(i as int));
                return Ok(i);
            }
            assert(find_named(es, w@, i as int) == find_named(es, w@, i + 1));
            i += 1;
        }
        let mut msg = String::new();
        push_str(&mut msg, "ZIP 中没有条目「");
        let ws = string_from_chars(&w);
        push_str(&mut msg, ws.as_str());
        push_str(&mut msg, "」");
        Err(CoreError::Other(msg))
    } else {
        while i < n
            invariant
                i <= n,
                n == entries.len(),
                es == entries_view(entries@),
                w@ == trim_spec(want@),
                w@.len() == 0,
                find_encrypted(es, 0) == find_encrypted(es, i as int),
            decreases n - i,
        {
            let nc = chars_of(entries[i].name.as_str());
            assert(es[i as int].0 == entries@[i as int].name@);
            assert(es[i as int].2 == entries@[i as int].encrypted);
            let dir = nc.len() > 0 && nc[nc.len() - 1] == '/';
            assert(dir == is_dir_name(es[i as int].0));
            if entries[i].encrypted && !dir {
                assert(find_encrypted(es, i as int) == Some(i as int));
                return Ok(i);
            }
            assert(find_encrypted(es, i as int) == find_encrypted(es, i + 1));
            i += 1;
        }
        Err(CoreError::Other(String::from_str("未指定密文条目，且未找到加密条目（是否为 ZipCrypto 加密？）")))
    }
}

/// Why an entry cannot be attacked, if it cannot.
fn check_entry(e: &Entry, archive_len: usize) -> (r: Option<String>)
    ensures
        match (r, entry_problem(e.view_of(), archive_len as int)) {
            (Some(s), Some(m)) => s@ == m,
            (None, None) => true,
            _ => false,
        },
{
    if !e.encrypted {
        let mut m = String::new();
        push_str(&mut m, "条目「");
        push_str(&mut m, e.name.as_str());
        push_str(&mut m, "」未加密，无需攻击");
        return Some(m);
    }
    if e.method == 99 {
        return Some(String::from_str("该条目是 WinZip AES 加密，不是 ZipCrypto，已知明文攻击不适用"));
    }
    if e.comp_size == 0 || e.data_start > archive_len || e.comp_size > archive_len - e.data_start {
        let mut m = String::new();
        push_str(&mut m, "条目「");
        push_str(&mut m, e.name.as_str());
        push_str(&mut m, "」数据越界或为空（可能是 ZIP64，暂不支持）");
        return Some(m);
    }
    None
}

/// The head of the report.
fn make_report_head(e: &Entry, plain_len: usize, offset: i32, template: &str) -> (s: String)
    ensures
        s@ == report_head(e.view_of(), plain_len as nat, offset, template@),
{
    let mut s = String::new();
    push_str(&mut s, "密文条目：");
    push_str(&mut s, e.name.as_str());
    push_str(&mut s, "（");
    if e.method == 0 {
        push_str(&mut s, "Stored");
    } else if e.method == 8 {
        push_str(&mut s, "Deflate");
    } else {
        push_str(&mut s, "其它压缩");
    }
    push_str(&mut s, "，密文 ");
    push_decimal(&mut s, e.comp_size as u64);
    push_str(&mut s, " 字节）\n");
    push_str(&mut s, "已知明文：");
    push_decimal(&mut s, plain_len as u64);
    push_str(&mut s, " 字节 @ 偏移 ");
    push_signed(&mut s, offset as i64);
    push_str(&mut s, "\n");
    let tc = chars_of(template);
    let custom = chars_of("自定义");
    if e.method != 0 && !chars_eq(&tc, &custom) {
        push_str(
            &mut s,
            "提示：该条目为压缩条目，文件头模板通常只适用于 Stored 条目；若攻击失败/很慢，请改用「自定义 Hex」提供压缩流的已知明文。\n",
        );
    }
    s
}

/// The ciphertext of an entry that can be attacked.
pub open spec fn entry_ciphertext(d: Seq<u8>, e: EntryView) -> Seq<u8> {
    d.subrange(e.3, e.3 + e.4)
}

/// Recover the ZipCrypto keys of an entry of `archive` by a known-plaintext
/// attack, and decipher the entry if asked. The entry is `cipher_entry`
/// (trimmed) or the first encrypted one; the known plaintext is resolved
/// by `resolve_plaintext`. `on_progress` gets per-mille progress, and
/// `on_log` the number of candidates left after the reduction.
pub fn bkcrack_attack<P: Fn(u32), C: Fn() -> bool, L: Fn(usize)>(
    archive: &[u8],
    cipher_entry: &str,
    template: &str,
    offset: i32,
    plain_hex: &str,
    plain_text: &str,
    decrypt: bool,
    on_progress: P,
    is_cancelled: C,
    on_log: L,
) -> (r: Result<AttackReport, CoreError>)
    requires
        archive@.len() <= usize::MAX / 2,
        forall|x: u32| on_progress.requires((x,)),
        is_cancelled.requires(()),
        forall|n: usize| on_log.requires((n,)),
    ensures
        match parse_zip_spec(archive@) {
            Err(m) => r matches Err(e) && e.is_parse_with(m),
            Ok(es) => match select_entry_spec(es, trim_spec(cipher_entry@)) {
                Err(m) => r matches Err(e) && e matches CoreError::Other(msg) && msg@ == m,
                Ok(i) => match entry_problem(es[i], archive@.len() as int) {
                    Some(m) => r matches Err(e) && e matches CoreError::Other(msg) && msg@ == m,
                    None => match resolve_spec(template@, offset, plain_hex@, plain_text) {
                        Err(p) => r matches Err(e) && plain_error_matches(e, p),
                        Ok((plain, off)) => {
                            let ct = entry_ciphertext(archive@, es[i]);
                            let head = report_head(es[i], plain.len(), off, template@);
                            match r {
                                Ok(rep) => {
                                    &&& sound(rep.keys, ct, plain, ENCRYPTION_HEADER_SIZE + off)
                                    &&& rep.keys_text@ == keys_text(rep.keys)
                                    &&& if decrypt {
                                        let (d, note) = recovered_data(es[i].1, decipher_spec(rep.keys, ct));
                                        &&& rep.data matches Some(v) && v@ == d
                                        &&& rep.report@ == head + "\n内部密钥："@ + keys_text(rep.keys) + "\n"@
                                            + note + "："@ + decimal(d.len()) + " 字节\n"@
                                    } else {
                                        &&& rep.data is None
                                        &&& rep.report@ == head + "\n内部密钥："@ + keys_text(rep.keys) + "\n"@
                                    }
                                },
                                Err(CoreError::Cancelled) => is_cancelled.ensures((), true),
                                Err(CoreError::Other(msg)) => {
                                    ||| msg@ == "未能求得密钥：明文/偏移可能不对，或条目 "@ + es[i].0
                                        + " 的已知明文与压缩流不匹配。\n"@ + head && search_exhausted(ct, plain, off as int)
                                    ||| exists|de: crate::zipcrypto::DataError|
                                        crate::zipcrypto::data_error(
                                            ct.len() as int,
                                            plain.len() as int,
                                            off as int,
                                        ) == Some(de) && msg@ == de.message_spec()
                                },
                                Err(_) => false,
                            }
                        },
                    },
                },
            },
        },
{
    let entries = match parse_zip(archive) {
        Ok(es) => es,
        Err(e) => {
            return Err(e);
        },
    };
    let idx = match select_entry(&entries, cipher_entry) {
        Ok(i) => i,
        Err(e) => {
            return Err(e);
        },
    };
    let entry = &entries[idx];
    assert(entries_view(entries@)[idx as int] == entry.view_of());
    match check_entry(entry, archive.len()) {
        Some(m) => {
            return Err(CoreError::Other(m));
        },
        None => {},
    }
    let ciphertext = copy_range(archive, entry.data_start, entry.data_start + entry.comp_size);
    let (plain, off) = match resolve_plaintext(template, offset, plain_hex, plain_text) {
        Ok(p) => p,
        Err(e) => {
            return Err(e);
        },
    };
    let ghost plain_v = plain@;
    let head = make_report_head(entry, plain.len(), off, template);
    let keys = match recover_keys(ciphertext.as_slice(), plain, off, on_progress, is_cancelled, on_log) {
        Ok(k) => k,
        Err(AttackError::Data(de)) => {
            return Err(CoreError::Other(de.message()));
        },
        Err(AttackError::Cancelled) => {
            return Err(CoreError::Cancelled);
        },
        Err(AttackError::NoSolution) => {
            let mut m = String::new();
            push_str(&mut m, "未能求得密钥：明文/偏移可能不对，或条目 ");
            push_str(&mut m, entry.name.as_str());
            push_str(&mut m, " 的已知明文与压缩流不匹配。\n");
            push_str(&mut m, head.as_str());
            return Err(CoreError::Other(m));
        },
    };
    let mut kt = String::new();
    push_hex8(&mut kt, keys.x);
    push_str(&mut kt, " ");
    push_hex8(&mut kt, keys.y);
    push_str(&mut kt, " ");
    push_hex8(&mut kt, keys.z);
    let mut report = String::new();
    push_str(&mut report, head.as_str());
    push_str(&mut report, "\n内部密钥：");
    push_str(&mut report, kt.as_str());
    push_str(&mut report, "\n");
    let mut data: Option<Vec<u8>> = None;
    if decrypt {
        let deciphered = decipher(ciphertext.as_slice(), keys);
        let mut note_kind: u8 = 0;
        let bytes = if entry.method == 8 {
            match raw_inflate(deciphered.as_slice()) {
                Ok(v) => {
                    if v.len() > 0 {
                        note_kind = 1;
                        v
                    } else {
                        note_kind = 2;
                        deciphered
                    }
                },
                Err(_) => {
                    note_kind = 2;
                    deciphered
                },
            }
        } else {
            deciphered
        };
        if note_kind == 1 {
            push_str(&mut report, "已解密并 Inflate 还原");
        } else if note_kind == 2 {
            push_str(&mut report, "已解密（Inflate 失败，输出为压缩流）");
        } else {
            push_str(&mut report, "已解密");
        }
        push_str(&mut report, "：");
        push_decimal(&mut report, bytes.len() as u64);
        push_str(&mut report, " 字节\n");
        data = Some(bytes);
    }
    Ok(AttackReport { keys, keys_text: kt, data, report })
}

} // verus!
