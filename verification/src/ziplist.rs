//! A ZIP archive's table of contents, without extracting anything: each
//! entry's name, sizes, compression method, encryption and CRC, as an
//! aligned table.
use vstd::prelude::*;
use crate::archive::{starts, starts_with_bytes};
use crate::bkcrack::{hex8, push_hex8};
use crate::error::CoreError;
use crate::readers::{list_zip_entries, zip_listing, zip_view, ZipEntryRow, ZipEntryView};
use crate::text::{chars_of, decimal, push_char, push_decimal, push_str};
use vstd::string::StringExecFns;

verus! {

/// The format of archive bytes, as far as the listing tells them apart:
/// `zip`, `7z`, `gz`, `rar`, `tar` or `unknown`.
pub open spec fn list_kind(d: Seq<u8>) -> Seq<char> {
    if starts(d, seq![0x50u8, 0x4bu8, 3u8, 4u8]) || starts(d, seq![0x50u8, 0x4bu8, 5u8, 6u8]) {
        "zip"@
    } else if starts(d, seq![0x37u8, 0x7au8, 0xbcu8, 0xafu8, 0x27u8, 0x1cu8]) {
        "7z"@
    } else if starts(d, seq![0x1fu8, 0x8bu8]) {
        "gz"@
    } else if starts(d, seq![0x52u8, 0x61u8, 0x72u8, 0x21u8]) {
        "rar"@
    } else if d.len() > 262 && d.subrange(257, 262) == seq![0x75u8, 0x73u8, 0x74u8, 0x61u8, 0x72u8] {
        "tar"@
    } else {
        "unknown"@
    }
}

/// `n` spaces (none for `n <= 0`).
pub open spec fn spaces(n: int) -> Seq<char> {
    Seq::new(if n > 0 { n as nat } else { 0 }, |k: int| ' ')
}

/// `s` padded with spaces on the right to `w` characters.
pub open spec fn pad_right(s: Seq<char>, w: int) -> Seq<char> {
    s + spaces(w - s.len())
}

/// `s` padded with spaces on the left to `w` characters.
pub open spec fn pad_left(s: Seq<char>, w: int) -> Seq<char> {
    spaces(w - s.len()) + s
}

/// The longest name among the entries (0 for none).
pub open spec fn longest_name(l: Seq<ZipEntryView>) -> int
    decreases l.len(),
{
    if l.len() == 0 {
        0
    } else {
        let m = longest_name(l.drop_last());
        if l.last().0.len() > m {
            l.last().0.len() as int
        } else {
            m
        }
    }
}

/// The width of the name column: the longest name, 4 where there is no
/// entry, kept within 4 to 48.
pub open spec fn name_width(l: Seq<ZipEntryView>) -> int {
    let m = if l.len() == 0 {
        4
    } else {
        longest_name(l)
    };
    if m < 4 {
        4
    } else if m > 48 {
        48
    } else {
        m
    }
}

/// One line of the table.
pub open spec fn row_text(z: ZipEntryView, w: int) -> Seq<char> {
    if z.1 {
        pad_right(z.0, w) + "  <目录>\n"@
    } else {
        pad_right(z.0, w) + "  原始 "@ + pad_left(decimal(z.2 as nat), 9) + "  压缩 "@ + pad_left(
            decimal(z.3 as nat),
            9,
        ) + "  "@ + pad_right(z.6, 9) + "  "@ + (if z.4 {
            "🔒加密"@
        } else {
            "明文  "@
        }) + "  CRC "@ + hex8(z.5) + "\n"@
    }
}

/// The lines of the first `n` entries.
pub open spec fn rows_text(l: Seq<ZipEntryView>, n: int, w: int) -> Seq<char>
    decreases n,
{
    if n <= 0 {
        Seq::empty()
    } else {
        rows_text(l, n - 1, w) + row_text(l[n - 1], w)
    }
}

/// The number of encrypted entries among the first `n`.
pub open spec fn encrypted_count(l: Seq<ZipEntryView>, n: int) -> int
    decreases n,
{
    if n <= 0 {
        0
    } else {
        encrypted_count(l, n - 1) + if l[n - 1].4 {
            1int
        } else {
            0
        }
    }
}

/// The whole table: a heading with the counts, then a line per entry.
pub open spec fn listing_text(l: Seq<ZipEntryView>) -> Seq<char> {
    "共 "@ + decimal(l.len()) + " 个条目（"@ + decimal(encrypted_count(l, l.len() as int) as nat) + " 个加密）：\n"@
        + rows_text(l, l.len() as int, name_width(l))
}

/// A ZIP archive's listing.
pub struct ZipListing {
    /// The table.
    pub text: String,
    /// The entry names (directories too), in archive order.
    pub files: Vec<String>,
    /// The number of entries.
    pub count: usize,
    /// Whether any entry is encrypted.
    pub encrypted: bool,
}

/// The message for archive bytes that are not ZIP.
pub open spec fn not_zip_message(kind: Seq<char>) -> Seq<char> {
    "详细文件列表目前仅支持 zip（检测到 "@ + kind + "）。其它格式请用「解压」节点。"@
}

/// What `list_zip` gives: the table, names, count and encryption flag of
/// the listed entries; or the message of the failure.
pub open spec fn list_zip_spec(d: Seq<u8>) -> Result<(Seq<char>, Seq<Seq<char>>, nat, bool), Seq<char>> {
    if list_kind(d) != "zip"@ {
        Err(not_zip_message(list_kind(d)))
    } else {
        match zip_listing(d) {
            Err((None, m)) => Err("zip: "@ + m),
            Err((Some(i), m)) => Err("读取条目 "@ + decimal(i) + " 失败: "@ + m),
            Ok(l) => Ok(
                (
                    listing_text(l),
                    l.map_values(|z: ZipEntryView| z.0),
                    l.len(),
                    encrypted_count(l, l.len() as int) > 0,
                ),
            ),
        }
    }
}

fn list_kind_exec(d: &[u8]) -> (k: &'static str)
    ensures
        k@ == list_kind(d@),
{
    proof {
        reveal_strlit("zip");
        reveal_strlit("7z");
        reveal_strlit("gz");
        reveal_strlit("rar");
        reveal_strlit("tar");
        reveal_strlit("unknown");
    }
    let pk34: [u8; 4] = [0x50, 0x4b, 3, 4];
    let pk56: [u8; 4] = [0x50, 0x4b, 5, 6];
    let sz: [u8; 6] = [0x37, 0x7a, 0xbc, 0xaf, 0x27, 0x1c];
    let gz: [u8; 2] = [0x1f, 0x8b];
    let rar: [u8; 4] = [0x52, 0x61, 0x72, 0x21];
    assert(pk34@ =~= seq![0x50u8, 0x4bu8, 3u8, 4u8]);
    assert(pk56@ =~= seq![0x50u8, 0x4bu8, 5u8, 6u8]);
    assert(sz@ =~= seq![0x37u8, 0x7au8, 0xbcu8, 0xafu8, 0x27u8, 0x1cu8]);
    assert(gz@ =~= seq![0x1fu8, 0x8bu8]);
    assert(rar@ =~= seq![0x52u8, 0x61u8, 0x72u8, 0x21u8]);
    if starts_with_bytes(d, &pk34) || starts_with_bytes(d, &pk56) {
        "zip"
    } else if starts_with_bytes(d, &sz) {
        "7z"
    } else if starts_with_bytes(d, &gz) {
        "gz"
    } else if starts_with_bytes(d, &rar) {
        "rar"
    } else if d.len() > 262 && d[257] == 0x75 && d[258] == 0x73 && d[259] == 0x74 && d[260] == 0x61 && d[261]
        == 0x72 {
        assert(d@.subrange(257, 262) =~= seq![0x75u8, 0x73u8, 0x74u8, 0x61u8, 0x72u8]);
        "tar"
    } else {
        proof {
            if d@.len() > 262 {
                let t = d@.subrange(257, 262);
                if t == seq![0x75u8, 0x73u8, 0x74u8, 0x61u8, 0x72u8] {
                    assert(t[0] == d@[257]);
                    assert(t[1] == d@[258]);
                    assert(t[2] == d@[259]);
                    assert(t[3] == d@[260]);
                    assert(t[4] == d@[261]);
                }
            }
        }
        "unknown"
    }
}

/// Append `n` spaces.
pub(crate) fn push_spaces(s: &mut String, n: usize)
    ensures
        final(s)@ == old(s)@ + spaces(n as int),
{
    let ghost pre = s@;
    let mut k: usize = 0;
    while k < n
        invariant
            k <= n,
            s@ == pre + spaces(k as int),
        decreases n - k,
    {
        push_char(s, ' ');
        assert(spaces(k + 1) =~= spaces(k as int).push(' '));
        k += 1;
    }
}

/// Append `t` padded on the right to `w` characters.
pub(crate) fn push_padded_right(s: &mut String, t: &str, w: usize)
    ensures
        final(s)@ == old(s)@ + pad_right(t@, w as int),
{
    let n = chars_of(t).len();
    push_str(s, t);
    if n < w {
        push_spaces(s, w - n);
    } else {
        assert(spaces(w - n) =~= Seq::<char>::empty());
    }
}

/// Append the decimal digits of `v` padded on the left to 9 characters.
fn push_decimal_left9(s: &mut String, v: u64)
    ensures
        final(s)@ == old(s)@ + pad_left(decimal(v as nat), 9),
{
    let mut d = String::new();
    push_decimal(&mut d, v);
    assert(d@ == decimal(v as nat));
    let n = chars_of(d.as_str()).len();
    if n < 9 {
        push_spaces(s, 9 - n);
    } else {
        assert(spaces(9 - n) =~= Seq::<char>::empty());
    }
    push_str(s, d.as_str());
}

proof fn lemma_longest_step(l: Seq<ZipEntryView>, i: int)
    requires
        0 <= i < l.len(),
    ensures
        longest_name(l.take(i + 1)) == if l[i].0.len() > longest_name(l.take(i)) {
            l[i].0.len() as int
        } else {
            longest_name(l.take(i))
        },
{
    assert(l.take(i + 1).drop_last() =~= l.take(i));
}

proof fn lemma_rows_prefix(l: Seq<ZipEntryView>, m: Seq<ZipEntryView>, n: int, w: int)
    requires
        0 <= n <= l.len(),
        n <= m.len(),
        forall|k: int| 0 <= k < n ==> l[k] == m[k],
    ensures
        rows_text(l, n, w) == rows_text(m, n, w),
        encrypted_count(l, n) == encrypted_count(m, n),
    decreases n,
{
    if n > 0 {
        lemma_rows_prefix(l, m, n - 1, w);
    }
}

/// Append one line of the table.
fn push_row(s: &mut String, z: &ZipEntryRow, w: usize)
    ensures
        final(s)@ == old(s)@ + row_text((z.0@, z.1, z.2, z.3, z.4, z.5, z.6@), w as int),
{
    let ghost pre = s@;
    push_padded_right(s, z.0.as_str(), w);
    if z.1 {
        push_str(s, "  <目录>\n");
        return;
    }
    push_str(s, "  原始 ");
    push_decimal_left9(s, z.2);
    push_str(s, "  压缩 ");
    push_decimal_left9(s, z.3);
    push_str(s, "  ");
    push_padded_right(s, z.6.as_str(), 9);
    push_str(s, "  ");
    if z.4 {
        push_str(s, "🔒加密");
    } else {
        push_str(s, "明文  ");
    }
    push_str(s, "  CRC ");
    push_hex8(s, z.5);
    push_str(s, "\n");
}

/// The table, names, count and encryption flag of listed entries.
fn make_listing(rows: &Vec<ZipEntryRow>) -> (out: ZipListing)
    ensures
        out.text@ == listing_text(zip_view(rows@)),
        out.files@.map_values(|f: String| f@) == zip_view(rows@).map_values(|z: ZipEntryView| z.0),
        out.count == rows@.len(),
        out.encrypted == (encrypted_count(zip_view(rows@), rows@.len() as int) > 0),
{
    let ghost l = zip_view(rows@);
    let n = rows.len();
    let mut longest: usize = 0;
    let mut encrypted: usize = 0;
    let mut files: Vec<String> = Vec::new();
    let mut i: usize = 0;
    while i < n
        invariant
            i <= n,
            n == rows@.len(),
            l == zip_view(rows@),
            longest as int == longest_name(l.take(i as int)),
            encrypted as int == encrypted_count(l, i as int),
            encrypted <= i,
            files@.len() == i,
            files@.map_values(|f: String| f@) == l.take(i as int).map_values(|z: ZipEntryView| z.0),
        decreases n - i,
    {
        let z = &rows[i];
        assert(l[i as int] == (z.0@, z.1, z.2, z.3, z.4, z.5, z.6@));
        proof {
            lemma_longest_step(l, i as int);
        }
        let len = chars_of(z.0.as_str()).len();
        if len > longest {
            longest = len;
        }
        if z.4 {
            encrypted += 1;
        }
        let ghost before = files@;
        files.push(z.0.clone());
        assert forall|k: int| 0 <= k < i + 1 implies #[trigger] files@[k]@ == l[k].0 by {
            if k < i {
                assert(files@[k] == before[k]);
                assert(before.map_values(|f: String| f@)[k] == l.take(i as int).map_values(|z: ZipEntryView| z.0)[k]);
            }
        }
        assert(files@.map_values(|f: String| f@) =~= l.take(i + 1).map_values(|z: ZipEntryView| z.0));
        i += 1;
    }
    assert(l.take(n as int) =~= l);
    let w: usize = if n == 0 || longest < 4 {
        4
    } else if longest > 48 {
        48
    } else {
        longest
    };
    assert(w as int == name_width(l));
    let mut text = String::new();
    push_str(&mut text, "共 ");
    push_decimal(&mut text, n as u64);
    push_str(&mut text, " 个条目（");
    push_decimal(&mut text, encrypted as u64);
    push_str(&mut text, " 个加密）：\n");
    let ghost head = text@;
    let mut k: usize = 0;
    while k < n
        invariant
            k <= n,
            n == rows@.len(),
            l == zip_view(rows@),
            text@ == head + rows_text(l, k as int, w as int),
        decreases n - k,
    {
        let z = &rows[k];
        assert(l[k as int] == (z.0@, z.1, z.2, z.3, z.4, z.5, z.6@));
        push_row(&mut text, z, w);
        k += 1;
    }
    ZipListing { text, files, count: n, encrypted: encrypted > 0 }
}

/// List a ZIP archive's entries without extracting them. Bytes of another
/// format are refused with the format found.
pub fn list_zip(data: &[u8]) -> (r: Result<ZipListing, CoreError>)
    ensures
        match (r, list_zip_spec(data@)) {
            (Ok(o), Ok((text, files, count, encrypted))) => {
                &&& o.text@ == text
                &&& o.files@.map_values(|f: String| f@) == files
                &&& o.count == count
                &&& o.encrypted == encrypted
            },
            (Err(e), Err(m)) => e.is_parse_with(m),
            _ => false,
        },
{
    let kind = list_kind_exec(data);
    let kc = chars_of(kind);
    let zc = chars_of("zip");
    proof {
        reveal_strlit("zip");
    }
    if !crate::text::chars_eq(&kc, &zc) {
        let mut m = String::new();
        push_str(&mut m, "详细文件列表目前仅支持 zip（检测到 ");
        push_str(&mut m, kind);
        push_str(&mut m, "）。其它格式请用「解压」节点。");
        return Err(CoreError::Parse(m));
    }
    match list_zip_entries(data) {
        Ok(rows) => Ok(make_listing(&rows)),
        Err((at, m)) => {
            let mut msg = String::new();
            match at {
                None => {
                    push_str(&mut msg, "zip: ");
                },
                Some(i) => {
                    push_str(&mut msg, "读取条目 ");
                    push_decimal(&mut msg, i as u64);
                    push_str(&mut msg, " 失败: ");
                },
            }
            push_str(&mut msg, m.as_str());
            Err(CoreError::Parse(msg))
        },
    }
}

} // verus!
