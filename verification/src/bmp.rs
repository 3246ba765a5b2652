//! BMP handling: the padding bytes at the end of each pixel row (hiding
//! data in them and reading it back), and restoring a tampered width or height from the size of the
//! pixel data (an uncompressed bitmap's pixel data is exactly
//! `rowSize * |height|` bytes, `rowSize = ((bpp*width + 31)/32)*4`).
use vstd::prelude::*;
use crate::error::CoreError;
use crate::text::{decimal, push_decimal, push_str};
use crate::hexcodec::{hex_encode, hex_text};
use crate::text::{string_from_utf8_lossy, utf8_lossy};
use vstd::string::StringExecFns;

verus! {

/// The largest dimension the repair tries.
pub const MAX_DIM: u32 = 65535;

/// A little-endian 16-bit value.
pub open spec fn le16_at(d: Seq<u8>, o: int) -> u32 {
    (d[o] as int + 256 * d[o + 1] as int) as u32
}

/// A little-endian 32-bit value.
pub open spec fn le32_at(d: Seq<u8>, o: int) -> u32 {
    (d[o] as int + 256 * d[o + 1] as int + 65536 * d[o + 2] as int + 16777216 * d[o + 3] as int) as u32
}

fn u16le(d: &[u8], o: usize) -> (v: u32)
    requires
        o + 2 <= d.len(),
    ensures
        v == le16_at(d@, o as int),
{
    d[o] as u32 + 256 * d[o + 1] as u32
}

fn u32le(d: &[u8], o: usize) -> (v: u32)
    requires
        o + 4 <= d.len(),
    ensures
        v == le32_at(d@, o as int),
{
    d[o] as u32 + 256 * d[o + 1] as u32 + 65536 * d[o + 2] as u32 + 16777216 * d[o + 3] as u32
}

/// Bytes per row of pixels, padded to four bytes.
pub open spec fn row_size_spec(w: u32, bpp: u32) -> int {
    (bpp as int * w as int + 31) / 32 * 4
}

/// Bytes per row of pixels, padded to four bytes.
pub fn row_size(w: u32, bpp: u32) -> (r: u64)
    ensures
        r as int == row_size_spec(w, bpp),
{
    assert(bpp as int * w as int <= 0xffff_ffff * 0xffff_ffff) by (nonlinear_arith)
        requires
            bpp <= 0xffff_ffff,
            w <= 0xffff_ffff,
    ;
    (bpp as u64 * w as u64 + 31) / 32 * 4
}

/// The bytes of a 32-bit value, little-endian.
pub open spec fn le_bytes(v: u32) -> Seq<u8> {
    seq![(v % 256) as u8, ((v / 256) % 256) as u8, ((v / 65536) % 256) as u8, (v / 16777216) as u8]
}

/// `d` with the width field (at 0x12) and the height field (at 0x16)
/// rewritten.
pub open spec fn patched(d: Seq<u8>, w: u32, h: u32) -> Seq<u8> {
    d.take(0x12) + le_bytes(w) + le_bytes(h) + d.skip(0x1a)
}

/// Write the width and height fields (little-endian 32-bit values).
fn patch(d: &mut Vec<u8>, w: u32, h: u32)
    requires
        old(d)@.len() >= 0x1a,
    ensures
        final(d)@ == patched(old(d)@, w, h),
{
    let wb = le_bytes_exec(w);
    let hb = le_bytes_exec(h);
    let mut k: usize = 0;
    while k < 4
        invariant
            k <= 4,
            old(d)@.len() >= 0x1a,
            d@.len() == old(d)@.len(),
            wb@ == le_bytes(w),
            hb@ == le_bytes(h),
            forall|q: int| 0 <= q < d@.len() ==> d@[q] == if 0x12 <= q < 0x12 + k {
                wb@[q - 0x12]
            } else if 0x16 <= q < 0x16 + k {
                hb@[q - 0x16]
            } else {
                old(d)@[q]
            },
        decreases 4 - k,
    {
        d.set(0x12 + k, wb[k]);
        d.set(0x16 + k, hb[k]);
        k += 1;
    }
    assert(d@ =~= patched(old(d)@, w, h));
}

fn le_bytes_exec(v: u32) -> (b: Vec<u8>)
    ensures
        b@ == le_bytes(v),
{
    let b = vec![(v % 256) as u8, ((v / 256) % 256) as u8, ((v / 65536) % 256) as u8, (v / 16777216) as u8];
    assert(b@ =~= le_bytes(v));
    b
}

/// The magnitude of a stored (signed) dimension.
pub open spec fn magnitude(v: u32) -> u32 {
    if v >= 0x8000_0000 {
        (0x1_0000_0000 - v as int) as u32
    } else {
        v
    }
}

fn unsigned_abs(v: u32) -> (r: u32)
    ensures
        r == magnitude(v),
{
    if v >= 0x8000_0000 {
        if v == 0x8000_0000 {
            0x8000_0000
        } else {
            0xffff_ffff - v + 1
        }
    } else {
        v
    }
}

/// The height field for height `h` with the sign of the stored height.
pub open spec fn signed_height(stored_h: u32, h: u32) -> u32 {
    if stored_h >= 0x8000_0000 && h != 0 {
        (0x1_0000_0000 - h as int) as u32
    } else {
        h
    }
}

/// Whether the stored dimensions agree with `avail` pixel bytes (at most
/// part of a row left over).
pub open spec fn fits(w: u32, h: u32, bpp: u32, avail: int) -> bool {
    let rs = row_size_spec(w, bpp);
    rs > 0 && h >= 1 && rs * h <= avail && avail - rs * h < rs
}

/// The first width in `[from, 65535]` (other than `sw`) whose rows fill
/// `avail` bytes exactly in `sh` rows.
pub open spec fn width_from(from: int, sw: u32, sh: u32, bpp: u32, avail: int) -> Option<u32>
    decreases 65536 - from,
{
    if from > 65535 || from < 1 {
        None
    } else {
        let rs = row_size_spec(from as u32, bpp);
        if rs > 0 && avail % rs == 0 && (avail / rs) as u32 == sh && from != sw {
            Some(from as u32)
        } else {
            width_from(from + 1, sw, sh, bpp, avail)
        }
    }
}

/// The result of a repair: the bytes and a report, or an error message.
pub type FixResult = Result<(Seq<u8>, Seq<char>), Seq<char>>;

/// The automatic repair of a header-checked, uncompressed bitmap.
pub open spec fn fix_auto_spec(d: Seq<u8>, off: int, stored_w: u32, stored_h: u32, bpp: u32) -> FixResult {
    let avail = d.len() - off;
    let sw = magnitude(stored_w);
    let sh = magnitude(stored_h);
    let rs_w = row_size_spec(sw, bpp);
    if sw >= 1 && fits(sw, sh, bpp, avail) {
        Ok((d, "尺寸 "@ + decimal(sw as nat) + "×"@ + decimal(sh as nat) + " 与像素数据一致，无需修复。"@))
    } else if sw >= 1 && rs_w > 0 && 1 <= avail / rs_w <= 65535 && avail / rs_w != sh {
        let h = (avail / rs_w) as u32;
        Ok(
            (
                patched(d, sw, signed_height(stored_h, h)),
                "按像素数据推断：宽 "@ + decimal(sw as nat) + " 不变，真实高 "@ + decimal(h as nat) + "（原记录 "@
                    + decimal(sh as nat) + "）"@ + (if avail % rs_w == 0 {
                    Seq::empty()
                } else {
                    "（像素区末尾有多余字节，按整数行取高）"@
                }) + "。"@,
            ),
        )
    } else {
        Ok(width_search_spec(d, stored_h, sw, sh, bpp, avail))
    }
}

/// The repair by width (the height trusted), or the report that no size
/// could be inferred.
pub open spec fn width_search_spec(d: Seq<u8>, stored_h: u32, sw: u32, sh: u32, bpp: u32, avail: int) -> (
    Seq<u8>,
    Seq<char>,
) {
    if sh >= 1 && width_from(1, sw, sh, bpp, avail) is Some {
        let w = width_from(1, sw, sh, bpp, avail)->Some_0;
        (
            patched(d, w, stored_h),
            "按像素数据推断：高 "@ + decimal(sh as nat) + " 不变，真实宽 "@ + decimal(w as nat) + "（原记录 "@
                + decimal(sw as nat) + "）。"@,
        )
    } else {
        (
            d,
            "无法由文件大小唯一确定尺寸（当前 "@ + decimal(sw as nat) + "×"@ + decimal(sh as nat) + "，位深 "@
                + decimal(bpp as nat) + "，像素区 "@ + decimal(avail as nat) + " 字节）。请用「手动」模式指定宽/高。"@,
        )
    }
}

/// Whether the bytes start like a BMP file.
pub open spec fn bmp_header_ok(d: Seq<u8>) -> bool {
    d.len() >= 0x1e && d[0] == 0x42 && d[1] == 0x4d
}

/// What `fix_bmp` gives. In manual mode a width or height of 0 keeps the
/// stored one.
pub open spec fn fix_bmp_spec(d: Seq<u8>, manual: bool, width: u32, height: u32) -> FixResult {
    if !bmp_header_ok(d) {
        Err("不是有效的 BMP（缺少 'BM' 头）。"@)
    } else {
        let off = le32_at(d, 0x0a) as int;
        let stored_w = le32_at(d, 0x12);
        let stored_h = le32_at(d, 0x16);
        let bpp = le16_at(d, 0x1c);
        let compression = le32_at(d, 0x1e);
        if bpp == 0 {
            Err("BMP 位深为 0，无法处理。"@)
        } else if off >= d.len() {
            Err("像素数据偏移越界，BMP 头可能损坏。"@)
        } else if manual {
            let w = if width == 0 {
                magnitude(stored_w)
            } else {
                width
            };
            let h = if height == 0 {
                magnitude(stored_h)
            } else {
                height
            };
            Ok((patched(d, w, signed_height(stored_h, h)), "手动设置为 "@ + decimal(w as nat) + "×"@ + decimal(h as nat) + "。"@))
        } else if compression != 0 {
            Err("该 BMP 为压缩格式（biCompression≠0），无法由大小反推尺寸，请用「手动」模式。"@)
        } else {
            fix_auto_spec(d, off, stored_w, stored_h, bpp)
        }
    }
}

fn signed_height_exec(stored_h: u32, h: u32) -> (r: u32)
    ensures
        r == signed_height(stored_h, h),
{
    if stored_h >= 0x8000_0000 {
        if h == 0 {
            0
        } else {
            0xffff_ffff - h + 1
        }
    } else {
        h
    }
}

/// The chosen height of a manual repair.
pub open spec fn manual_height(d: Seq<u8>, height: u32) -> u32 {
    if height == 0 {
        magnitude(le32_at(d, 0x16))
    } else {
        height
    }
}

/// Whether the automatic check of a header's stored dimensions stays within
/// 64 bits (the row size times the height, where they are compared with the
/// pixel data).
pub open spec fn auto_product_fits(d: Seq<u8>) -> bool {
    let sw = magnitude(le32_at(d, 0x12));
    let bpp = le16_at(d, 0x1c);
    bpp != 0 && le32_at(d, 0x0a) < d.len() && le32_at(d, 0x1e) == 0 && sw >= 1 ==> row_size_spec(sw, bpp)
        * magnitude(le32_at(d, 0x16)) <= u64::MAX
}

/// The repaired bytes and the report, from the automatic analysis.
fn fix_auto(d: Vec<u8>, off: usize, stored_w: u32, stored_h: u32, bpp: u32) -> (r: (Vec<u8>, String))
    requires
        off < d@.len(),
        d@.len() >= 0x1a,
        bpp > 0,
        magnitude(stored_w) >= 1 ==> row_size_spec(magnitude(stored_w), bpp) * magnitude(stored_h)
            <= u64::MAX,
    ensures
        fix_auto_spec(d@, off as int, stored_w, stored_h, bpp) == Ok::<(Seq<u8>, Seq<char>), Seq<char>>(
            (r.0@, r.1@),
        ),
{
    let mut d = d;
    let avail = (d.len() - off) as u64;
    let sw = unsigned_abs(stored_w);
    let sh = unsigned_abs(stored_h);
    let rs_w = row_size(sw, bpp);
    let mut report = String::new();
    if sw >= 1 && rs_w > 0 && sh >= 1 && rs_w * (sh as u64) <= avail && avail - rs_w * (sh as u64) < rs_w {
        push_str(&mut report, "尺寸 ");
        push_decimal(&mut report, sw as u64);
        push_str(&mut report, "×");
        push_decimal(&mut report, sh as u64);
        push_str(&mut report, " 与像素数据一致，无需修复。");
        return (d, report);
    }
    if sw >= 1 && rs_w > 0 {
        let h = avail / rs_w;
        if 1 <= h && h <= 65535 && h != sh as u64 {
            let h = h as u32;
            let hs = signed_height_exec(stored_h, h);
            patch(&mut d, sw, hs);
            push_str(&mut report, "按像素数据推断：宽 ");
            push_decimal(&mut report, sw as u64);
            push_str(&mut report, " 不变，真实高 ");
            push_decimal(&mut report, h as u64);
            push_str(&mut report, "（原记录 ");
            push_decimal(&mut report, sh as u64);
            push_str(&mut report, "）");
            if avail % rs_w != 0 {
                push_str(&mut report, "（像素区末尾有多余字节，按整数行取高）");
            }
            push_str(&mut report, "。");
            return (d, report);
        }
    }
    search_width(d, stored_h, sw, sh, bpp, avail)
}

/// The repair by width, or the report that no size could be inferred.
#[verifier::loop_isolation(false)]
fn search_width(d: Vec<u8>, stored_h: u32, sw: u32, sh: u32, bpp: u32, avail: u64) -> (r: (Vec<u8>, String))
    requires
        d@.len() >= 0x1a,
        bpp > 0,
    ensures
        width_search_spec(d@, stored_h, sw, sh, bpp, avail as int) == (r.0@, r.1@),
{
    let ghost d0 = d@;
    let mut d = d;
    let mut report = String::new();
    if sh >= 1 {
        let mut w: u32 = 1;
        while w <= MAX_DIM
            invariant
                1 <= w <= MAX_DIM + 1,
                d@ == d0,
                report@ == Seq::<char>::empty(),
                width_from(1, sw, sh, bpp, avail as int) == width_from(w as int, sw, sh, bpp, avail as int),
            decreases MAX_DIM + 1 - w,
        {
            let rs = row_size(w, bpp);
            assert(rs > 0) by {
                assert(bpp as int * w as int >= 1) by (nonlinear_arith)
                    requires
                        bpp >= 1,
                        w >= 1,
                ;
            }
            let q = #[verifier::truncate] ((avail / rs) as u32);
            if avail % rs == 0 && q == sh && w != sw {
                assert(width_from(w as int, sw, sh, bpp, avail as int) == Some(w));
                patch(&mut d, w, stored_h);
                push_str(&mut report, "按像素数据推断：高 ");
                push_decimal(&mut report, sh as u64);
                push_str(&mut report, " 不变，真实宽 ");
                push_decimal(&mut report, w as u64);
                push_str(&mut report, "（原记录 ");
                push_decimal(&mut report, sw as u64);
                push_str(&mut report, "）。");
                return (d, report);
            }
            w += 1;
        }
    }
    push_str(&mut report, "无法由文件大小唯一确定尺寸（当前 ");
    push_decimal(&mut report, sw as u64);
    push_str(&mut report, "×");
    push_decimal(&mut report, sh as u64);
    push_str(&mut report, "，位深 ");
    push_decimal(&mut report, bpp as u64);
    push_str(&mut report, "，像素区 ");
    push_decimal(&mut report, avail);
    push_str(&mut report, " 字节）。请用「手动」模式指定宽/高。");
    (d, report)
}

/// Repair a BMP whose width or height was tampered with. In manual mode the
/// given width and height (0 keeps the stored one) are written; else they
/// are inferred from the size of the pixel data.
pub fn fix_bmp(d: Vec<u8>, manual: bool, width: u32, height: u32) -> (r: Result<(Vec<u8>, String), CoreError>)
    requires
        bmp_header_ok(d@) ==> d@.len() >= 0x22,
        bmp_header_ok(d@) && manual && le32_at(d@, 0x16) >= 0x8000_0000 ==> manual_height(d@, height)
            != 0x8000_0000,
        bmp_header_ok(d@) && !manual ==> auto_product_fits(d@),
    ensures
        match (r, fix_bmp_spec(d@, manual, width, height)) {
            (Ok((b, rep)), Ok((w, m))) => b@ == w && rep@ == m,
            (Err(e), Err(m)) => e.is_parse_with(m),
            _ => false,
        },
{
    let mut d = d;
    if d.len() < 0x1e || d[0] != 0x42 || d[1] != 0x4d {
        return Err(CoreError::Parse(String::from_str("不是有效的 BMP（缺少 'BM' 头）。")));
    }
    let off = u32le(&d, 0x0a) as usize;
    let stored_w = u32le(&d, 0x12);
    let stored_h = u32le(&d, 0x16);
    let bpp = u16le(&d, 0x1c);
    let compression = u32le(&d, 0x1e);
    if bpp == 0 {
        return Err(CoreError::Parse(String::from_str("BMP 位深为 0，无法处理。")));
    }
    if off >= d.len() {
        return Err(CoreError::Parse(String::from_str("像素数据偏移越界，BMP 头可能损坏。")));
    }
    if manual {
        let w = if width == 0 {
            unsigned_abs(stored_w)
        } else {
            width
        };
        let h = if height == 0 {
            unsigned_abs(stored_h)
        } else {
            height
        };
        let hs = signed_height_exec(stored_h, h);
        patch(&mut d, w, hs);
        let mut report = String::new();
        push_str(&mut report, "手动设置为 ");
        push_decimal(&mut report, w as u64);
        push_str(&mut report, "×");
        push_decimal(&mut report, h as u64);
        push_str(&mut report, "。");
        return Ok((d, report));
    }
    if compression != 0 {
        return Err(CoreError::Parse(String::from_str(
            "该 BMP 为压缩格式（biCompression≠0），无法由大小反推尺寸，请用「手动」模式。",
        )));
    }
    Ok(fix_auto(d, off, stored_w, stored_h, bpp))
}

proof fn lemma_le_bytes_read(v: u32)
    ensures
        (((v % 256) as u8) as int + 256 * (((v / 256) % 256) as u8) as int + 65536 * (((v / 65536) % 256) as u8) as int
            + 16777216 * ((v / 16777216) as u8) as int) as u32 == v,
{
    let x = v as int;
    vstd::arithmetic::div_mod::lemma_fundamental_div_mod(x, 256);
    vstd::arithmetic::div_mod::lemma_fundamental_div_mod(x / 256, 256);
    vstd::arithmetic::div_mod::lemma_fundamental_div_mod(x / 65536, 256);
    vstd::arithmetic::div_mod::lemma_div_denominator(x, 256, 256);
    vstd::arithmetic::div_mod::lemma_div_denominator(x, 65536, 256);
    assert(x / 16777216 < 256);
}

/// The width and height fields of a patched header read back as written.
proof fn lemma_patched_fields(d: Seq<u8>, w: u32, h: u32)
    requires
        d.len() >= 0x1a,
    ensures
        le32_at(patched(d, w, h), 0x12) == w,
        le32_at(patched(d, w, h), 0x16) == h,
        patched(d, w, h).len() == d.len(),
{
    let p = patched(d, w, h);
    assert(p[0x12] == le_bytes(w)[0] && p[0x13] == le_bytes(w)[1] && p[0x14] == le_bytes(w)[2] && p[0x15]
        == le_bytes(w)[3]);
    assert(p[0x16] == le_bytes(h)[0] && p[0x17] == le_bytes(h)[1] && p[0x18] == le_bytes(h)[2] && p[0x19]
        == le_bytes(h)[3]);
    lemma_le_bytes_read(w);
    lemma_le_bytes_read(h);
}

/// An automatic repair that rewrites the height keeps the width and never
/// claims more rows than the pixel data holds: the new height `h` is the
/// number of whole rows in the pixel bytes, `row * h <= avail < row * (h + 1)`.
pub proof fn lemma_auto_height_is_whole_rows(d: Seq<u8>, width: u32, height: u32)
    ensures
        match fix_bmp_spec(d, false, width, height) {
            Ok(p) => le32_at(p.0, 0x16) != le32_at(d, 0x16) ==> {
                let sw = magnitude(le32_at(d, 0x12));
                let rs = row_size_spec(sw, le16_at(d, 0x1c));
                let avail = d.len() - le32_at(d, 0x0a);
                let h = magnitude(le32_at(p.0, 0x16));
                &&& magnitude(le32_at(p.0, 0x12)) == sw
                &&& h >= 1
                &&& rs * h <= avail < rs * (h + 1)
            },
            Err(_) => true,
        },
{
    if bmp_header_ok(d) && le16_at(d, 0x1c) != 0 && le32_at(d, 0x0a) < d.len() && le32_at(d, 0x1e) == 0 {
        let off = le32_at(d, 0x0a) as int;
        let stored_w = le32_at(d, 0x12);
        let stored_h = le32_at(d, 0x16);
        let bpp = le16_at(d, 0x1c);
        let avail = d.len() - off;
        let sw = magnitude(stored_w);
        let sh = magnitude(stored_h);
        let rs = row_size_spec(sw, bpp);
        if sw >= 1 && fits(sw, sh, bpp, avail) {
        } else if sw >= 1 && rs > 0 && 1 <= avail / rs <= 65535 && avail / rs != sh {
            let h = (avail / rs) as u32;
            lemma_patched_fields(d, sw, signed_height(stored_h, h));
            assert(magnitude(signed_height(stored_h, h)) == h);
            assert(magnitude(sw) == sw);
            vstd::arithmetic::div_mod::lemma_fundamental_div_mod(avail, rs);
            assert(0 <= avail % rs < rs);
            assert(rs * (h + 1) == rs * h + rs) by (nonlinear_arith);
        } else if sh >= 1 && width_from(1, sw, sh, bpp, avail) is Some {
            let w = width_from(1, sw, sh, bpp, avail)->Some_0;
            lemma_patched_fields(d, w, stored_h);
        }
    }
}

/// Whether width `w` (other than `sw`) fills `avail` bytes with whole rows
/// in `sh` rows (the row count read as a 32-bit value).
pub open spec fn exact_width(w: int, sw: u32, sh: u32, bpp: u32, avail: int) -> bool {
    let rs = row_size_spec(w as u32, bpp);
    rs > 0 && avail % rs == 0 && (avail / rs) as u32 == sh && w != sw
}

proof fn lemma_width_from_first(from: int, sw: u32, sh: u32, bpp: u32, avail: int)
    requires
        1 <= from,
    ensures
        match width_from(from, sw, sh, bpp, avail) {
            Some(w) => from <= w <= 65535 && exact_width(w as int, sw, sh, bpp, avail) && forall|w2: int|
                from <= w2 < w ==> !#[trigger] exact_width(w2, sw, sh, bpp, avail),
            None => forall|w2: int| from <= w2 <= 65535 ==> !#[trigger] exact_width(w2, sw, sh, bpp, avail),
        },
    decreases 65536 - from,
{
    if from <= 65535 {
        lemma_width_from_first(from + 1, sw, sh, bpp, avail);
        assert((from as u32) as int == from);
    }
}

/// An automatic repair that rewrites the width keeps the height field and
/// takes the smallest width (other than the stored one) whose padded rows
/// fill the pixel bytes exactly in the stored number of rows; where the
/// pixel bytes fit in 32 bits, `row * height == avail`.
pub proof fn lemma_auto_width_fills_rows(d: Seq<u8>, width: u32, height: u32)
    ensures
        match fix_bmp_spec(d, false, width, height) {
            Ok(p) => le32_at(p.0, 0x12) != le32_at(d, 0x12) && le32_at(p.0, 0x16) == le32_at(d, 0x16) ==> {
                let sw = magnitude(le32_at(d, 0x12));
                let sh = magnitude(le32_at(d, 0x16));
                let bpp = le16_at(d, 0x1c);
                let avail = d.len() - le32_at(d, 0x0a);
                let w = le32_at(p.0, 0x12);
                &&& 1 <= w <= 65535 && w != sw
                &&& row_size_spec(w, bpp) > 0 && avail % row_size_spec(w, bpp) == 0
                &&& (avail / row_size_spec(w, bpp)) as u32 == sh
                &&& avail <= 0xffff_ffff ==> row_size_spec(w, bpp) * sh == avail
                &&& forall|w2: int| 1 <= w2 < w ==> !#[trigger] exact_width(w2, sw, sh, bpp, avail)
            },
            Err(_) => true,
        },
{
    if bmp_header_ok(d) && le16_at(d, 0x1c) != 0 && le32_at(d, 0x0a) < d.len() && le32_at(d, 0x1e) == 0 {
        let off = le32_at(d, 0x0a) as int;
        let stored_w = le32_at(d, 0x12);
        let stored_h = le32_at(d, 0x16);
        let bpp = le16_at(d, 0x1c);
        let avail = d.len() - off;
        let sw = magnitude(stored_w);
        let sh = magnitude(stored_h);
        let rs = row_size_spec(sw, bpp);
        if sw >= 1 && fits(sw, sh, bpp, avail) {
        } else if sw >= 1 && rs > 0 && 1 <= avail / rs <= 65535 && avail / rs != sh {
            let h = (avail / rs) as u32;
            lemma_patched_fields(d, sw, signed_height(stored_h, h));
            assert(signed_height(stored_h, h) != stored_h);
        } else if sh >= 1 && width_from(1, sw, sh, bpp, avail) is Some {
            let w = width_from(1, sw, sh, bpp, avail)->Some_0;
            lemma_patched_fields(d, w, stored_h);
            lemma_width_from_first(1, sw, sh, bpp, avail);
            assert((w as int) as u32 == w);
            assert(exact_width(w as int, sw, sh, bpp, avail));
            let r = row_size_spec(w, bpp);
            if avail <= 0xffff_ffff {
                vstd::arithmetic::div_mod::lemma_fundamental_div_mod(avail, r);
                assert(avail / r <= avail) by {
                    vstd::arithmetic::div_mod::lemma_div_is_ordered_by_denominator(avail, 1, r);
                }
                assert((avail / r) as u32 == avail / r);
                assert(r * sh == r * (avail / r));
            }
        }
    }
}

// ---------------------------------------------------------------------------
// Row padding
// ---------------------------------------------------------------------------

/// `min(a * b, usize::MAX)`.
pub open spec fn sat_mul(a: int, b: int) -> int {
    if a * b > usize::MAX {
        usize::MAX as int
    } else {
        a * b
    }
}

/// `a / b` rounded up.
pub open spec fn div_ceil(a: int, b: int) -> int {
    (a + b - 1) / b
}

/// The pixel layout of an uncompressed BMP: pixel offset, data bytes per
/// row, padding bytes per row, rows; or the message of its error.
pub open spec fn layout_spec(d: Seq<u8>) -> Result<(int, int, int, int), Seq<char>> {
    if !(d.len() >= 30 && d[0] == 0x42 && d[1] == 0x4d) {
        Err("不是 BMP 文件（缺少 'BM' 头）。"@)
    } else if le32_at(d, 30) != 0 {
        Err("仅支持未压缩 BMP（biCompression=0）。"@)
    } else if le32_at(d, 18) == 0 || le32_at(d, 18) >= 0x8000_0000 || le16_at(d, 28) == 0 {
        Err("BMP 宽度/位深无效。"@)
    } else {
        let off = le32_at(d, 10) as int;
        let bits = sat_mul(le32_at(d, 18) as int, le16_at(d, 28) as int);
        let row_bytes = div_ceil(bits, 8);
        let stride = div_ceil(bits, 32) * 4;
        let rows = magnitude(le32_at(d, 22)) as int;
        if off + rows * stride > d.len() {
            Err("像素数据超出文件范围，BMP 可能损坏。"@)
        } else {
            Ok((off, row_bytes, stride - row_bytes, rows))
        }
    }
}

/// The header fields that `layout` reads are in the file, and its offset
/// arithmetic stays within `usize`.
pub open spec fn layout_readable(d: Seq<u8>) -> bool {
    d.len() >= 30 && d[0] == 0x42 && d[1] == 0x4d ==> {
        &&& d.len() >= 34
        &&& le32_at(d, 30) == 0 && le32_at(d, 18) != 0 && le32_at(d, 18) < 0x8000_0000 && le16_at(d, 28)
            != 0 ==> le32_at(d, 10) as int + magnitude(le32_at(d, 22)) as int * (div_ceil(
            sat_mul(le32_at(d, 18) as int, le16_at(d, 28) as int),
            32,
        ) * 4) <= usize::MAX
    }
}

/// The pixel layout: offset, data bytes per row, padding bytes per row,
/// rows.
pub fn layout(d: &[u8]) -> (r: Result<(usize, usize, usize, usize), CoreError>)
    requires
        layout_readable(d@),
    ensures
        match (r, layout_spec(d@)) {
            (Ok((a, b, c, e)), Ok((w, x, y, z))) => a == w && b == x && c == y && e == z,
            (Err(e), Err(m)) => e.is_parse_with(m),
            _ => false,
        },
{
    if d.len() < 30 || d[0] != 0x42 || d[1] != 0x4d {
        return Err(CoreError::Parse(String::from_str("不是 BMP 文件（缺少 'BM' 头）。")));
    }
    let off = u32le(d, 10) as usize;
    let width = u32le(d, 18);
    let height = u32le(d, 22);
    let bpp = u16le(d, 28) as usize;
    let compression = u32le(d, 30);
    if compression != 0 {
        return Err(CoreError::Parse(String::from_str("仅支持未压缩 BMP（biCompression=0）。")));
    }
    if width == 0 || width >= 0x8000_0000 || bpp == 0 {
        return Err(CoreError::Parse(String::from_str("BMP 宽度/位深无效。")));
    }
    let w = width as usize;
    let rows = unsigned_abs(height) as usize;
    let bits: usize = if w > usize::MAX / bpp {
        assert(w * bpp > usize::MAX) by (nonlinear_arith)
            requires
                w > usize::MAX / bpp,
                bpp > 0,
        ;
        usize::MAX
    } else {
        assert(w * bpp <= usize::MAX) by (nonlinear_arith)
            requires
                w <= usize::MAX / bpp,
                bpp > 0,
        ;
        w * bpp
    };
    assert(bits as int == sat_mul(w as int, bpp as int));
    let row_bytes = bits / 8 + if bits % 8 == 0 {
        0
    } else {
        1
    };
    let stride = (bits / 32 + if bits % 32 == 0 {
        0
    } else {
        1
    }) * 4;
    proof {
        assert(row_bytes as int == div_ceil(bits as int, 8));
        assert(stride as int == div_ceil(bits as int, 32) * 4);
        assert(stride >= row_bytes);
    }
    if off + rows * stride > d.len() {
        return Err(CoreError::Parse(String::from_str("像素数据超出文件范围，BMP 可能损坏。")));
    }
    Ok((off, row_bytes, stride - row_bytes, rows))
}

/// The padding bytes of the rows, in order.
pub open spec fn padding_bytes(d: Seq<u8>, off: int, row_bytes: int, pad: int, rows: int) -> Seq<u8> {
    Seq::new(
        (rows * pad) as nat,
        |k: int| d[off + (k / pad) * (row_bytes + pad) + row_bytes + k % pad],
    )
}

/// Whether byte `q` is padding, and if so which padding byte it is.
pub open spec fn padding_index(q: int, off: int, row_bytes: int, pad: int, rows: int) -> Option<int> {
    let stride = row_bytes + pad;
    if q >= off && q - off < rows * stride && (q - off) % stride >= row_bytes {
        Some(((q - off) / stride) * pad + ((q - off) % stride - row_bytes))
    } else {
        None
    }
}

/// `d` with the padding filled with `payload`, then zeros.
pub open spec fn embedded(d: Seq<u8>, off: int, row_bytes: int, pad: int, rows: int, payload: Seq<u8>) -> Seq<u8> {
    Seq::new(
        d.len(),
        |q: int|
            match padding_index(q, off, row_bytes, pad, rows) {
                Some(i) => if i < payload.len() {
                    payload[i]
                } else {
                    0u8
                },
                None => d[q],
            },
    )
}

/// What the padding extraction reads.
pub struct PaddingData {
    /// The padding bytes, row by row.
    pub bytes: Vec<u8>,
    /// The bytes as text.
    pub text: String,
    /// The bytes in hex.
    pub hex: String,
    /// The capacity report.
    pub report: String,
}

proof fn lemma_row_offset(r: int, stride: int, rows: int, off: int, len: int)
    requires
        0 <= r < rows,
        stride >= 0,
        off >= 0,
        off + rows * stride <= len,
    ensures
        off + r * stride + stride <= len,
        r * stride >= 0,
{
    assert(r * stride + stride <= rows * stride) by (nonlinear_arith)
        requires
            r < rows,
            stride >= 0,
    ;
    assert(r * stride >= 0) by (nonlinear_arith)
        requires
            r >= 0,
            stride >= 0,
    ;
}

/// Read the padding bytes of every row.
pub fn extract_padding(d: &[u8]) -> (r: Result<PaddingData, CoreError>)
    requires
        layout_readable(d@),
    ensures
        match (r, layout_spec(d@)) {
            (Err(e), Err(m)) => e.is_parse_with(m),
            (Err(e), Ok((off, rb, pad, rows))) => pad == 0 && e.is_parse_with(
                "该 BMP 每行无填补字节（宽度已 4 字节对齐），无处可藏。"@,
            ),
            (Ok(p), Ok((off, rb, pad, rows))) => {
                &&& pad > 0
                &&& p.bytes@ == padding_bytes(d@, off, rb, pad, rows)
                &&& p.text@ == utf8_lossy(p.bytes@)
                &&& p.hex@ == hex_text(p.bytes@)
                &&& p.report@ == "每行填补 "@ + decimal(pad as nat) + " 字节 × "@ + decimal(rows as nat)
                    + " 行 = "@ + decimal((rows * pad) as nat) + " 字节容量。"@
            },
            _ => false,
        },
{
    let (off, row_bytes, pad, rows) = match layout(d) {
        Ok(l) => l,
        Err(e) => {
            return Err(e);
        },
    };
    if pad == 0 {
        return Err(CoreError::Parse(String::from_str("该 BMP 每行无填补字节（宽度已 4 字节对齐），无处可藏。")));
    }
    let stride = row_bytes + pad;
    let ghost want = padding_bytes(d@, off as int, row_bytes as int, pad as int, rows as int);
    let mut out: Vec<u8> = Vec::new();
    let mut r: usize = 0;
    while r < rows
        invariant
            r <= rows,
            stride == row_bytes + pad,
            pad > 0,
            off + rows * stride <= d.len(),
            want == padding_bytes(d@, off as int, row_bytes as int, pad as int, rows as int),
            out@.len() == r * pad,
            forall|k: int| 0 <= k < out@.len() ==> out@[k] == want[k],
            r * pad <= rows * pad,
        decreases rows - r,
    {
        proof {
            lemma_row_offset(r as int, stride as int, rows as int, off as int, d.len() as int);
        }
        let ps = off + r * stride + row_bytes;
        let mut k: usize = 0;
        while k < pad
            invariant
                k <= pad,
                pad > 0,
                stride == row_bytes + pad,
                ps == off + r * stride + row_bytes,
                ps + pad <= d.len(),
                r < rows,
                want == padding_bytes(d@, off as int, row_bytes as int, pad as int, rows as int),
                out@.len() == r * pad + k,
                forall|q: int| 0 <= q < out@.len() ==> out@[q] == want[q],
            decreases pad - k,
        {
            proof {
                let idx = r * pad + k;
                assert(idx / pad as int == r && idx % pad as int == k) by {
                    vstd::arithmetic::div_mod::lemma_fundamental_div_mod_converse(
                        idx as int,
                        pad as int,
                        r as int,
                        k as int,
                    );
                }
                assert(idx < rows * pad) by (nonlinear_arith)
                    requires
                        r < rows,
                        k < pad,
                        idx == r * pad + k,
                ;
            }
            out.push(d[ps + k]);
            k += 1;
        }
        proof {
            assert((r + 1) * pad == r * pad + pad) by (nonlinear_arith);
            assert((r + 1) * pad <= rows * pad) by (nonlinear_arith)
                requires
                    r < rows,
                    pad > 0,
            ;
        }
        r += 1;
    }
    assert(out@ =~= want);
    let text = string_from_utf8_lossy(out.as_slice());
    let hex = hex_encode(out.as_slice());
    let mut report = String::new();
    push_str(&mut report, "每行填补 ");
    push_decimal(&mut report, pad as u64);
    push_str(&mut report, " 字节 × ");
    push_decimal(&mut report, rows as u64);
    push_str(&mut report, " 行 = ");
    push_decimal(&mut report, out.len() as u64);
    push_str(&mut report, " 字节容量。");
    Ok(PaddingData { bytes: out, text, hex, report })
}

/// Hide `payload` in the padding bytes of the rows (the rest of the padding
/// set to 0); an error where there is no padding or too little of it.
pub fn embed_padding(d: Vec<u8>, payload: &[u8]) -> (r: Result<(Vec<u8>, String), CoreError>)
    requires
        layout_readable(d@),
    ensures
        match (r, layout_spec(d@)) {
            (Err(e), Err(m)) => e.is_parse_with(m),
            (Err(e), Ok((off, rb, pad, rows))) => {
                ||| (pad == 0 && (e matches CoreError::Other(m) && m@
                    == "该 BMP 每行无填补字节，无法嵌入。请用宽度非 4 对齐的 24 位 BMP。"@))
                ||| (pad > 0 && payload@.len() > rows * pad && (e matches CoreError::Other(m) && m@ == "容量不足：填补区仅 "@
                    + decimal((rows * pad) as nat) + " 字节，载荷 "@ + decimal(payload@.len()) + " 字节。"@))
            },
            (Ok((b, msg)), Ok((off, rb, pad, rows))) => {
                &&& pad > 0
                &&& payload@.len() <= rows * pad
                &&& b@ == embedded(d@, off, rb, pad, rows, payload@)
                &&& msg@ == "已写入 "@ + decimal(payload@.len()) + " 字节到填补区。"@
            },
            _ => false,
        },
{
    let (off, row_bytes, pad, rows) = match layout(d.as_slice()) {
        Ok(l) => l,
        Err(e) => {
            return Err(e);
        },
    };
    if pad == 0 {
        return Err(CoreError::Other(String::from_str("该 BMP 每行无填补字节，无法嵌入。请用宽度非 4 对齐的 24 位 BMP。")));
    }
    let stride = row_bytes + pad;
    proof {
        assert(rows * pad <= rows * stride) by (nonlinear_arith)
            requires
                pad <= stride,
                rows >= 0,
        ;
    }
    let cap = rows * pad;
    assert(rows * pad <= d.len());
    if payload.len() > cap {
        let mut m = String::new();
        push_str(&mut m, "容量不足：填补区仅 ");
        push_decimal(&mut m, cap as u64);
        push_str(&mut m, " 字节，载荷 ");
        push_decimal(&mut m, payload.len() as u64);
        push_str(&mut m, " 字节。");
        return Err(CoreError::Other(m));
    }
    let ghost d0 = d@;
    let ghost want = embedded(d0, off as int, row_bytes as int, pad as int, rows as int, payload@);
    let mut d = d;
    let mut r: usize = 0;
    while r < rows
        invariant
            r <= rows,
            pad > 0,
            rows * pad <= d.len(),
            stride == row_bytes + pad,
            off + rows * stride <= d.len(),
            d@.len() == d0.len(),
            want == embedded(d0, off as int, row_bytes as int, pad as int, rows as int, payload@),
            forall|q: int| 0 <= q < d@.len() ==> d@[q] == if q < off + r * stride {
                want[q]
            } else {
                d0[q]
            },
        decreases rows - r,
    {
        proof {
            lemma_row_offset(r as int, stride as int, rows as int, off as int, d.len() as int);
        }
        let ps = off + r * stride + row_bytes;
        let mut k: usize = 0;
        while k < pad
            invariant
                k <= pad,
                pad > 0,
                stride == row_bytes + pad,
                ps == off + r * stride + row_bytes,
                ps + pad <= d.len(),
                r < rows,
                rows * pad <= d.len(),
                d@.len() == d0.len(),
                want == embedded(d0, off as int, row_bytes as int, pad as int, rows as int, payload@),
                forall|q: int| 0 <= q < d@.len() ==> d@[q] == if q < ps + k {
                    if q < off + r * stride + row_bytes {
                        if q < off + r * stride {
                            want[q]
                        } else {
                            d0[q]
                        }
                    } else {
                        want[q]
                    }
                } else {
                    d0[q]
                },
            decreases pad - k,
        {
            proof {
                assert(r * pad + k < rows * pad) by (nonlinear_arith)
                    requires
                        r < rows,
                        k < pad,
                ;
            }
            let idx = r * pad + k;
            let v = if idx < payload.len() {
                payload[idx]
            } else {
                0
            };
            proof {
                let q = (ps + k) as int;
                let rel = q - off;
                assert(rel == r * stride + row_bytes + k);
                vstd::arithmetic::div_mod::lemma_fundamental_div_mod_converse(
                    rel,
                    stride as int,
                    r as int,
                    (row_bytes + k) as int,
                );
                assert(rel < rows * stride) by (nonlinear_arith)
                    requires
                        rel == r * stride + row_bytes + k,
                        r < rows,
                        row_bytes + k < stride,
                ;
                assert(padding_index(q, off as int, row_bytes as int, pad as int, rows as int) == Some(
                    idx as int,
                ));
                assert(want[q] == v);
            }
            d.set(ps + k, v);
            k += 1;
        }
        proof {
            assert forall|q: int| 0 <= q < d@.len() implies d@[q] == if q < off + (r + 1) * stride {
                want[q]
            } else {
                d0[q]
            } by {
                assert(off + (r + 1) * stride == off + r * stride + stride) by (nonlinear_arith);
                if off + r * stride <= q < off + r * stride + row_bytes {
                    let rel = q - off;
                    vstd::arithmetic::div_mod::lemma_fundamental_div_mod_converse(
                        rel,
                        stride as int,
                        r as int,
                        rel - r * stride,
                    );
                    assert(padding_index(q, off as int, row_bytes as int, pad as int, rows as int) is None);
                }
            }
        }
        r += 1;
    }
    proof {
        assert forall|q: int| 0 <= q < d@.len() implies d@[q] == want[q] by {
            if q >= off + rows * stride {
                assert(padding_index(q, off as int, row_bytes as int, pad as int, rows as int) is None);
            }
        }
        assert(d@ =~= want);
    }
    let mut m = String::new();
    push_str(&mut m, "已写入 ");
    push_decimal(&mut m, payload.len() as u64);
    push_str(&mut m, " 字节到填补区。");
    Ok((d, m))
}

/// Reading the padding gives back what was hidden in it: after
/// `embed_padding` wrote a payload that fits, the padding bytes are the
/// payload followed by zeros.
pub proof fn lemma_padding_roundtrip(d: Seq<u8>, off: int, row_bytes: int, pad: int, rows: int, payload: Seq<u8>)
    requires
        off >= 0,
        row_bytes >= 0,
        pad > 0,
        rows >= 0,
        off + rows * (row_bytes + pad) <= d.len(),
        payload.len() <= rows * pad,
    ensures
        padding_bytes(embedded(d, off, row_bytes, pad, rows, payload), off, row_bytes, pad, rows) == payload
            + Seq::new((rows * pad - payload.len()) as nat, |k: int| 0u8),
{
    let e = embedded(d, off, row_bytes, pad, rows, payload);
    let stride = row_bytes + pad;
    let got = padding_bytes(e, off, row_bytes, pad, rows);
    let exp = payload + Seq::new((rows * pad - payload.len()) as nat, |k: int| 0u8);
    assert forall|k: int| 0 <= k < rows * pad implies got[k] == exp[k] by {
        let r = k / pad;
        let c = k % pad;
        vstd::arithmetic::div_mod::lemma_fundamental_div_mod(k, pad);
        assert(0 <= c < pad);
        assert(0 <= r < rows) by (nonlinear_arith)
            requires
                k == pad * r + c,
                0 <= c < pad,
                0 <= k < rows * pad,
        ;
        let q = off + r * stride + row_bytes + c;
        let rel = q - off;
        vstd::arithmetic::div_mod::lemma_fundamental_div_mod_converse(rel, stride, r, row_bytes + c);
        assert((r + 1) * stride <= rows * stride) by (nonlinear_arith)
            requires
                r + 1 <= rows,
                stride >= 0,
        ;
        assert((r + 1) * stride == r * stride + stride) by (nonlinear_arith);
        assert(rel < rows * stride);
        assert(r * stride >= 0) by (nonlinear_arith)
            requires
                r >= 0,
                stride >= 0,
        ;
        assert(q < d.len());
        assert(r * pad + c == k) by (nonlinear_arith)
            requires
                k == pad * r + c,
        ;
        assert(padding_index(q, off, row_bytes, pad, rows) == Some(k));
    }
    assert(got =~= exp);
}

} // verus!
