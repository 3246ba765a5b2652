//! 0/1 text and black-and-white pictures: the rows of bits that a text
//! holds and how they are laid out as a picture, and a picture's grey
//! levels thresholded back to 0/1 text. A `1` is black, a `0` white (as in a
//! QR code); inverting swaps them.
use vstd::prelude::*;
use crate::text::{chars_of, push_char};

verus! {

/// The rows of bits of a text: per line, its `0` and `1` characters in
/// order (every other character ignored), lines without any left out.
/// `done` holds the finished rows of the first `n` characters, `cur` the
/// bits of the line in progress.
pub open spec fn scan_rows(t: Seq<char>, n: int) -> (Seq<Seq<u8>>, Seq<u8>)
    decreases n,
{
    if n <= 0 {
        (Seq::empty(), Seq::empty())
    } else {
        let (done, cur) = scan_rows(t, n - 1);
        let c = t[n - 1];
        if c == '\n' {
            if cur.len() > 0 {
                (done.push(cur), Seq::empty())
            } else {
                (done, Seq::empty())
            }
        } else if c == '0' {
            (done, cur.push(0u8))
        } else if c == '1' {
            (done, cur.push(1u8))
        } else {
            (done, cur)
        }
    }
}

/// The rows of bits of a whole text.
pub open spec fn bit_rows_spec(t: Seq<char>) -> Seq<Seq<u8>> {
    let (done, cur) = scan_rows(t, t.len() as int);
    if cur.len() > 0 {
        done.push(cur)
    } else {
        done
    }
}

/// The rows of bits of a text (see `bit_rows_spec`).
pub fn bit_rows(text: &str) -> (rows: Vec<Vec<u8>>)
    ensures
        rows@.map_values(|r: Vec<u8>| r@) == bit_rows_spec(text@),
{
    let cs = chars_of(text);
    let mut done: Vec<Vec<u8>> = Vec::new();
    let mut cur: Vec<u8> = Vec::new();
    let mut i: usize = 0;
    while i < cs.len()
        invariant
            i <= cs.len(),
            cs@ == text@,
            done@.map_values(|r: Vec<u8>| r@) == scan_rows(text@, i as int).0,
            cur@ == scan_rows(text@, i as int).1,
        decreases cs.len() - i,
    {
        let c = cs[i];
        if c == '\n' {
            if cur.len() > 0 {
                let ghost before = done@;
                let ghost row = cur@;
                done.push(cur);
                assert(done@.map_values(|r: Vec<u8>| r@) =~= before.map_values(|r: Vec<u8>| r@).push(row));
                cur = Vec::new();
            }
        } else if c == '0' {
            cur.push(0);
        } else if c == '1' {
            cur.push(1);
        }
        i += 1;
    }
    if cur.len() > 0 {
        let ghost before = done@;
        let ghost row = cur@;
        done.push(cur);
        assert(done@.map_values(|r: Vec<u8>| r@) =~= before.map_values(|r: Vec<u8>| r@).push(row));
    }
    done
}

/// How rows of bits become picture rows.
#[derive(Debug, Clone, Copy, PartialEq, Eq, Structural)]
pub enum BitLayout {
    /// Line by line where there are two or more lines, else by width.
    Auto,
    /// Each line is a row.
    Rows,
    /// All bits in one run, cut into rows of a width.
    Width,
}

/// The length of the longest row (0 for none).
pub open spec fn longest_row(rows: Seq<Seq<u8>>) -> nat
    decreases rows.len(),
{
    if rows.len() == 0 {
        0
    } else {
        let m = longest_row(rows.drop_last());
        if rows.last().len() > m {
            rows.last().len()
        } else {
            m
        }
    }
}

/// All rows one after another.
pub open spec fn flatten_rows(rows: Seq<Seq<u8>>) -> Seq<u8>
    decreases rows.len(),
{
    if rows.len() == 0 {
        Seq::empty()
    } else {
        flatten_rows(rows.drop_last()) + rows.last()
    }
}

/// The smallest `w` with `w * w >= n`.
pub open spec fn is_ceil_sqrt(w: nat, n: nat) -> bool {
    w * w >= n && (w == 0 || (w - 1) * (w - 1) < n)
}

/// The number of pieces of `w` that `n` items make.
pub open spec fn chunk_count(n: nat, w: nat) -> nat {
    if w == 0 {
        0
    } else {
        ((n + w - 1) / w as int) as nat
    }
}

/// `s` cut into pieces of `w` (the last may be shorter).
pub open spec fn chunks(s: Seq<u8>, w: nat) -> Seq<Seq<u8>> {
    Seq::new(
        chunk_count(s.len(), w),
        |i: int| s.subrange(i * w, if (i + 1) * w < s.len() { (i + 1) * w } else { s.len() as int }),
    )
}

/// What `layout_bits` gives: the picture's width and its rows.
pub open spec fn layout_ok(rows: Seq<Seq<u8>>, layout: BitLayout, width: nat, w: nat, out: Seq<Seq<u8>>) -> bool {
    let by_rows = layout == BitLayout::Rows || (layout == BitLayout::Auto && rows.len() >= 2);
    if by_rows {
        w == longest_row(rows) && out == rows
    } else {
        let flat = flatten_rows(rows);
        let want = if width == 0 {
            choose|c: nat| is_ceil_sqrt(c, flat.len())
        } else {
            width
        };
        &&& w == if want == 0 {
            1
        } else {
            want
        }
        &&& out == chunks(flat, w)
    }
}

proof fn lemma_ceil_sqrt_unique(a: nat, b: nat, n: nat)
    requires
        is_ceil_sqrt(a, n),
        is_ceil_sqrt(b, n),
    ensures
        a == b,
{
    if a < b {
        assert(a <= b - 1);
        assert(a * a <= (b - 1) * (b - 1)) by (nonlinear_arith)
            requires
                a <= b - 1,
                b >= 1,
        ;
    } else if b < a {
        assert(b <= a - 1);
        assert(b * b <= (a - 1) * (a - 1)) by (nonlinear_arith)
            requires
                b <= a - 1,
                a >= 1,
        ;
    }
}

/// The smallest `w` with `w * w >= n`.
fn ceil_sqrt(n: usize) -> (w: usize)
    ensures
        is_ceil_sqrt(w as nat, n as nat),
{
    if n == 0 {
        return 0;
    }
    // binary search keeping lo * lo < n <= hi * hi
    let mut lo: u128 = 0;
    let mut hi: u128 = if n as u128 > 0x1_0000_0000 {
        0x1_0000_0000
    } else {
        n as u128
    };
    assert(hi * hi >= n) by (nonlinear_arith)
        requires
            n >= 1,
            hi == n || (hi == 0x1_0000_0000 && n <= 0xffff_ffff_ffff_ffff),
    ;
    while hi - lo > 1
        invariant
            lo < hi <= 0x1_0000_0000,
            lo * lo < n,
            hi * hi >= n,
        decreases hi - lo,
    {
        let mid = lo + (hi - lo) / 2;
        assert(mid * mid <= 0x1_0000_0000 * 0x1_0000_0000) by (nonlinear_arith)
            requires
                mid <= 0x1_0000_0000,
        ;
        if mid * mid >= n as u128 {
            hi = mid;
        } else {
            lo = mid;
        }
    }
    assert(hi - 1 == lo);
    assert(hi <= n) by (nonlinear_arith)
        requires
            lo * lo < n,
            hi == lo + 1,
            lo < hi,
    ;
    hi as usize
}

proof fn lemma_longest_step(rows: Seq<Seq<u8>>, i: int)
    requires
        0 <= i < rows.len(),
    ensures
        longest_row(rows.take(i + 1)) == if rows[i].len() > longest_row(rows.take(i)) {
            rows[i].len()
        } else {
            longest_row(rows.take(i))
        },
        flatten_rows(rows.take(i + 1)) == flatten_rows(rows.take(i)) + rows[i],
{
    assert(rows.take(i + 1).drop_last() =~= rows.take(i));
}

proof fn lemma_chunk_count(total: int, w: int, c: int)
    requires
        w > 0,
        c >= 0,
        c * w >= total,
        c == 0 || (c - 1) * w < total,
        total >= 0,
    ensures
        (total + w - 1) / w == c,
{
    if c > 0 {
        assert(c * w <= total + w - 1) by (nonlinear_arith)
            requires
                (c - 1) * w < total,
        ;
    } else {
        assert(total == 0);
    }
    assert(total + w - 1 < (c + 1) * w) by (nonlinear_arith)
        requires
            c * w >= total,
            w > 0,
    ;
    vstd::arithmetic::div_mod::lemma_fundamental_div_mod(total + w - 1, w);
    let q = (total + w - 1) / w;
    let r = (total + w - 1) % w;
    assert(q == c) by (nonlinear_arith)
        requires
            q * w + r == total + w - 1,
            0 <= r < w,
            c * w <= total + w - 1,
            total + w - 1 < (c + 1) * w,
            w > 0,
    ;
}

/// Lay rows of bits out as picture rows: line by line (the width is the
/// longest line), or all bits in one run cut into rows of `width` (0: the
/// smallest width that makes the picture at least as tall as wide, and at
/// least 1).
pub fn layout_bits(rows: Vec<Vec<u8>>, layout: BitLayout, width: usize) -> (r: (usize, Vec<Vec<u8>>))
    ensures
        layout_ok(rows@.map_values(|v: Vec<u8>| v@), layout, width as nat, r.0 as nat, r.1@.map_values(
            |v: Vec<u8>| v@,
        )),
{
    let ghost rv = rows@.map_values(|v: Vec<u8>| v@);
    let n = rows.len();
    let by_rows = match layout {
        BitLayout::Rows => true,
        BitLayout::Auto => n >= 2,
        BitLayout::Width => false,
    };
    let mut longest: usize = 0;
    let mut flat: Vec<u8> = Vec::new();
    let mut i: usize = 0;
    while i < n
        invariant
            i <= n,
            n == rows@.len(),
            rv == rows@.map_values(|v: Vec<u8>| v@),
            longest == longest_row(rv.take(i as int)),
            flat@ == flatten_rows(rv.take(i as int)),
        decreases n - i,
    {
        proof {
            lemma_longest_step(rv, i as int);
        }
        assert(rv[i as int] == rows@[i as int]@);
        let len = rows[i].len();
        if len > longest {
            longest = len;
        }
        let mut j: usize = 0;
        let ghost f0 = flat@;
        while j < len
            invariant
                j <= len,
                len == rows@[i as int]@.len(),
                i < n,
                n == rows@.len(),
                flat@ == f0 + rows@[i as int]@.take(j as int),
            decreases len - j,
        {
            flat.push(rows[i][j]);
            assert(rows@[i as int]@.take(j + 1) =~= rows@[i as int]@.take(j as int).push(rows@[i as int]@[j as int]));
            j += 1;
        }
        assert(rows@[i as int]@.take(len as int) =~= rows@[i as int]@);
        i += 1;
    }
    assert(rv.take(n as int) =~= rv);
    if by_rows {
        return (longest, rows);
    }
    let total = flat.len();
    let want = if width == 0 {
        ceil_sqrt(total)
    } else {
        width
    };
    proof {
        if width == 0 {
            let c = choose|c: nat| is_ceil_sqrt(c, total as nat);
            lemma_ceil_sqrt_unique(c, want as nat, total as nat);
        }
    }
    let w: usize = if want == 0 {
        1
    } else {
        want
    };
    let mut out: Vec<Vec<u8>> = Vec::new();
    let mut start: usize = 0;
    let ghost fv = flat@;
    assert(out@.len() * w == 0);
    while start < total
        invariant
            start <= total,
            total == flat@.len(),
            fv == flat@,
            w > 0,
            start < total ==> start == out@.len() * w,
            start <= out@.len() * w,
            out@.len() > 0 ==> (out@.len() - 1) * w < start,
            forall|k: int|
                0 <= k < out@.len() ==> #[trigger] out@[k]@ == fv.subrange(
                    k * w,
                    if (k + 1) * w < total { (k + 1) * w } else { total as int },
                ),
        decreases total - start,
    {
        let end = if total - start > w {
            start + w
        } else {
            total
        };
        let mut piece: Vec<u8> = Vec::new();
        let mut k = start;
        while k < end
            invariant
                start <= k <= end <= total,
                total == flat@.len(),
                piece@ == flat@.subrange(start as int, k as int),
            decreases end - k,
        {
            piece.push(flat[k]);
            assert(flat@.subrange(start as int, k + 1) =~= flat@.subrange(start as int, k as int).push(flat@[k as int]));
            k += 1;
        }
        let ghost c = out@.len() as int;
        assert((c + 1) * w == c * w + w) by (nonlinear_arith);
        assert(end == if (c + 1) * w < total { (c + 1) * w } else { total as int });
        let ghost before = out@;
        out.push(piece);
        assert forall|k: int|
            0 <= k < out@.len() implies #[trigger] out@[k]@ == fv.subrange(
                k * w,
                if (k + 1) * w < total { (k + 1) * w } else { total as int },
            ) by {
            if k < c {
                assert(out@[k] == before[k]);
            }
        }
        start = end;
    }
    let ghost c = out@.len() as int;
    proof {
        assert(c * w >= total);
        if c > 0 {
            assert((c - 1) * w < total);
        }
        lemma_chunk_count(total as int, w as int, c);
    }
    assert(out@.map_values(|v: Vec<u8>| v@) =~= chunks(fv, w as nat));
    (w, out)
}

/// The grey level of a colour: its luma with the Rec. 601 weights
/// (299, 587, 114 per thousand), rounded down.
pub open spec fn luma_spec(r: u8, g: u8, b: u8) -> u8 {
    ((299 * r + 587 * g + 114 * b) / 1000) as u8
}

/// The grey level of a colour.
pub fn luma(r: u8, g: u8, b: u8) -> (l: u8)
    ensures
        l == luma_spec(r, g, b),
{
    let v: u32 = (299 * r as u32 + 587 * g as u32 + 114 * b as u32) / 1000;
    v as u8
}

/// The grey level a bit is drawn with: `1` black and `0` white, swapped
/// when inverting.
pub open spec fn pixel_level_spec(bit: u8, invert: bool) -> u8 {
    if (bit == 1) != invert {
        0
    } else {
        255
    }
}

/// The grey level a bit is drawn with.
pub fn pixel_level(bit: u8, invert: bool) -> (v: u8)
    ensures
        v == pixel_level_spec(bit, invert),
{
    if (bit == 1) != invert {
        0
    } else {
        255
    }
}

/// Drawing a bit and thresholding the grey pixel back gives the bit again,
/// with the same inversion and any threshold from 1 to 255.
pub proof fn lemma_bit_pixel_roundtrip(bit: u8, invert: bool, threshold: u8)
    requires
        bit <= 1,
        threshold >= 1,
    ensures
        ({
            let v = pixel_level_spec(bit, invert);
            bit_char(luma_spec(v, v, v), threshold, invert) == if bit == 1 {
                '1'
            } else {
                '0'
            }
        }),
{
    let v = pixel_level_spec(bit, invert);
    if v == 0 {
        assert(luma_spec(0, 0, 0) == 0);
    } else {
        assert(luma_spec(255, 255, 255) == 255);
    }
}

/// The character of one pixel: `1` for dark (below the threshold), `0` for
/// light; inverting swaps them.
pub open spec fn bit_char(level: u8, threshold: u8, invert: bool) -> char {
    if (level < threshold) != invert {
        '1'
    } else {
        '0'
    }
}

/// Row `y` of a `w`-wide picture of grey levels as 0/1 characters.
pub open spec fn row_bits(levels: Seq<u8>, w: int, y: int, threshold: u8, invert: bool) -> Seq<char> {
    Seq::new(w as nat, |x: int| bit_char(levels[y * w + x], threshold, invert))
}

/// The first `h` rows as 0/1 text, each followed by a line break where
/// `line_breaks`.
pub open spec fn bits_text_spec(levels: Seq<u8>, w: int, h: int, threshold: u8, invert: bool, line_breaks: bool) -> Seq<
    char,
>
    decreases h,
{
    if h <= 0 {
        Seq::empty()
    } else {
        bits_text_spec(levels, w, h - 1, threshold, invert, line_breaks) + row_bits(levels, w, h - 1, threshold, invert)
            + if line_breaks {
            seq!['\n']
        } else {
            Seq::empty()
        }
    }
}

/// A `w`×`h` picture of grey levels (row by row) thresholded to 0/1 text.
pub fn bits_text(levels: &[u8], w: usize, h: usize, threshold: u8, invert: bool, line_breaks: bool) -> (s: String)
    requires
        levels@.len() == w * h,
    ensures
        s@ == bits_text_spec(levels@, w as int, h as int, threshold, invert, line_breaks),
{
    let mut s = String::new();
    let mut y: usize = 0;
    while y < h
        invariant
            y <= h,
            levels@.len() == w * h,
            s@ == bits_text_spec(levels@, w as int, y as int, threshold, invert, line_breaks),
        decreases h - y,
    {
        let ghost pre = s@;
        let len = levels.len();
        assert(y * w + w <= w * h) by (nonlinear_arith)
            requires
                y < h,
        ;
        assert(y * w + w <= len);
        let row_start = y * w;
        let mut x: usize = 0;
        while x < w
            invariant
                x <= w,
                y < h,
                row_start == y * w,
                row_start + w <= levels@.len(),
                len == levels@.len(),
                levels@.len() == w * h,
                s@ == pre + row_bits(levels@, w as int, y as int, threshold, invert).take(x as int),
            decreases w - x,
        {
            assert(y * w + x < w * h) by (nonlinear_arith)
                requires
                    y < h,
                    x < w,
            ;
            let level = levels[row_start + x];
            let dark = level < threshold;
            let c = if dark != invert {
                '1'
            } else {
                '0'
            };
            push_char(&mut s, c);
            assert(row_bits(levels@, w as int, y as int, threshold, invert).take(x + 1) =~= row_bits(
                levels@,
                w as int,
                y as int,
                threshold,
                invert,
            ).take(x as int).push(c));
            x += 1;
        }
        assert(row_bits(levels@, w as int, y as int, threshold, invert).take(w as int) =~= row_bits(
            levels@,
            w as int,
            y as int,
            threshold,
            invert,
        ));
        if line_breaks {
            push_char(&mut s, '\n');
        }
        assert(s@ =~= bits_text_spec(levels@, w as int, y + 1, threshold, invert, line_breaks));
        y += 1;
    }
    s
}

} // verus!
