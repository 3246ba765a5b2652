//! The ADFGVX / ADFGX cipher: Polybius fractionation (a 6×6 square of
//! letters and digits, or a 5×5 square with I and J merged) followed by a
//! keyed columnar transposition.
use vstd::prelude::*;
use vstd::set_lib::set_int_range;
use crate::error::CoreError;
use crate::text::{chars_of, is_alnum, is_ascii_alnum, push_char, to_upper, upper};
use vstd::string::StringExecFns;

verus! {

/// The row and column labels: `ADFGVX` for the 6×6 square, else `ADFGX`.
pub open spec fn labels_spec(size: usize) -> Seq<u8> {
    if size == 6 {
        seq![65u8, 68u8, 70u8, 71u8, 86u8, 88u8]
    } else {
        seq![65u8, 68u8, 70u8, 71u8, 88u8]
    }
}

/// The row and column labels of a square of the given size.
pub fn labels(size: usize) -> (l: Vec<u8>)
    ensures
        l@ == labels_spec(size),
{
    if size == 6 {
        let l = vec![65u8, 68u8, 70u8, 71u8, 86u8, 88u8];
        assert(l@ =~= labels_spec(size));
        l
    } else {
        let l = vec![65u8, 68u8, 70u8, 71u8, 88u8];
        assert(l@ =~= labels_spec(size));
        l
    }
}

/// The symbols a square may hold: `A`..`Z` and `0`..`9` for size 6, else
/// the letters without `J`.
pub open spec fn in_full(c: u8, size: usize) -> bool {
    if size == 6 {
        (65 <= c <= 90) || (48 <= c <= 57)
    } else {
        65 <= c <= 90 && c != 74
    }
}

/// The standard alphabet of a square, in order.
pub open spec fn full_alphabet(size: usize) -> Seq<u8> {
    if size == 6 {
        Seq::new(36, |k: int| if k < 26 { (65 + k) as u8 } else { (48 + k - 26) as u8 })
    } else {
        Seq::new(25, |k: int| if k < 9 { (65 + k) as u8 } else { (66 + k) as u8 })
    }
}

/// A byte as the square reads it: upper-cased, and `J` as `I` in a 5×5
/// square.
pub open spec fn square_symbol(b: u8, size: usize) -> u8 {
    let u = if 97 <= b <= 122 {
        (b - 32) as u8
    } else {
        b
    };
    if size == 5 && u == 74 {
        73
    } else {
        u
    }
}

/// The square built from the bytes `bs`: each symbol of the alphabet in
/// order of first appearance.
pub open spec fn square_from_bytes(bs: Seq<u8>, size: usize) -> Seq<u8>
    decreases bs.len(),
{
    if bs.len() == 0 {
        Seq::empty()
    } else {
        let sq = square_from_bytes(bs.drop_last(), size);
        let c = square_symbol(bs.last(), size);
        if in_full(c, size) && !sq.contains(c) {
            sq.push(c)
        } else {
            sq
        }
    }
}

/// The ASCII bytes of `cs` (other characters have no byte that a square
/// could hold and are left out).
pub open spec fn ascii_bytes(cs: Seq<char>) -> Seq<u8>
    decreases cs.len(),
{
    if cs.len() == 0 {
        Seq::empty()
    } else if (cs.last() as u32) < 128 {
        ascii_bytes(cs.drop_last()).push(cs.last() as u32 as u8)
    } else {
        ascii_bytes(cs.drop_last())
    }
}

/// The square of a keyword: its symbols, then the rest of the alphabet.
pub open spec fn build_square_spec(input: Seq<char>, size: usize) -> Seq<u8> {
    square_from_bytes(ascii_bytes(input) + full_alphabet(size), size)
}

fn square_symbol_exec(b: u8, size: usize) -> (r: u8)
    ensures
        r == square_symbol(b, size),
{
    let u = if 97 <= b && b <= 122 {
        b - 32
    } else {
        b
    };
    if size == 5 && u == 74 {
        73
    } else {
        u
    }
}

fn contains_byte(v: &Vec<u8>, c: u8) -> (r: bool)
    ensures
        r == v@.contains(c),
{
    let mut i: usize = 0;
    while i < v.len()
        invariant
            i <= v.len(),
            forall|k: int| 0 <= k < i ==> v@[k] != c,
        decreases v.len() - i,
    {
        if v[i] == c {
            return true;
        }
        i += 1;
    }
    false
}

fn push_square_byte(sq: &mut Vec<u8>, raw: u8, size: usize)
    ensures
        final(sq)@ == ({
            let c = square_symbol(raw, size);
            if in_full(c, size) && !old(sq)@.contains(c) {
                old(sq)@.push(c)
            } else {
                old(sq)@
            }
        }),
{
    let c = square_symbol_exec(raw, size);
    let full = if size == 6 {
        (65 <= c && c <= 90) || (48 <= c && c <= 57)
    } else {
        65 <= c && c <= 90 && c != 74
    };
    if full && !contains_byte(sq, c) {
        sq.push(c);
    }
}

/// Build the Polybius square from a (possibly partial) keyword, filled up
/// with the rest of the standard alphabet; a 5×5 square merges J into I and
/// has no digits.
pub fn build_square(input: &str, size: usize) -> (sq: Vec<u8>)
    ensures
        sq@ == build_square_spec(input@, size),
{
    let cs = chars_of(input);
    let mut sq: Vec<u8> = Vec::new();
    let mut bytes: Vec<u8> = Vec::new();
    let mut i: usize = 0;
    assert(cs@.take(0) =~= Seq::<char>::empty());
    while i < cs.len()
        invariant
            i <= cs.len(),
            cs@ == input@,
            bytes@ == ascii_bytes(cs@.take(i as int)),
        decreases cs.len() - i,
    {
        let c = cs[i];
        assert(cs@.take(i + 1).drop_last() =~= cs@.take(i as int));
        assert(cs@.take(i + 1).last() == c);
        let v = #[verifier::truncate] (c as u32);
        if v < 128 {
            bytes.push(v as u8);
        }
        i += 1;
    }
    assert(cs@.take(cs.len() as int) =~= cs@);
    let full: Vec<u8> = full_alphabet_exec(size);
    let ghost all = bytes@ + full@;
    let total_a = bytes.len();
    let mut j: usize = 0;
    assert(all.take(0) =~= Seq::<u8>::empty());
    while j < total_a
        invariant
            j <= total_a,
            total_a == bytes.len(),
            all == bytes@ + full@,
            sq@ == square_from_bytes(all.take(j as int), size),
        decreases total_a - j,
    {
        assert(all.take(j + 1).drop_last() =~= all.take(j as int));
        assert(all[j as int] == bytes@[j as int]);
        push_square_byte(&mut sq, bytes[j], size);
        j += 1;
    }
    let mut k: usize = 0;
    while k < full.len()
        invariant
            k <= full.len(),
            total_a == bytes.len(),
            all == bytes@ + full@,
            sq@ == square_from_bytes(all.take(total_a + k), size),
        decreases full.len() - k,
    {
        assert(all.take(total_a + k + 1).drop_last() =~= all.take(total_a + k));
        assert(all[total_a + k] == full@[k as int]);
        push_square_byte(&mut sq, full[k], size);
        k += 1;
    }
    assert(all.take(total_a + full.len()) =~= all);
    sq
}

/// The standard alphabet of a square.
fn full_alphabet_exec(size: usize) -> (v: Vec<u8>)
    ensures
        v@ == full_alphabet(size),
{
    let n: u8 = if size == 6 {
        36
    } else {
        25
    };
    let mut v: Vec<u8> = Vec::new();
    let mut k: u8 = 0;
    while k < n
        invariant
            k <= n,
            n == full_alphabet(size).len(),
            v@ == full_alphabet(size).take(k as int),
        decreases n - k,
    {
        let c: u8 = if size == 6 {
            if k < 26 {
                65 + k
            } else {
                48 + k - 26
            }
        } else if k < 9 {
            65 + k
        } else {
            66 + k
        };
        assert(c == full_alphabet(size)[k as int]);
        v.push(c);
        assert(full_alphabet(size).take(k + 1) =~= full_alphabet(size).take(k as int).push(c));
        k += 1;
    }
    assert(full_alphabet(size).take(n as int) =~= full_alphabet(size));
    v
}

/// The plaintext symbols of `cs`: ASCII letters and digits, upper-cased (J
/// as I in a 5×5 square), that the square holds.
pub open spec fn clean_spec(cs: Seq<char>, sq: Seq<u8>, size: usize) -> Seq<u8>
    decreases cs.len(),
{
    if cs.len() == 0 {
        Seq::empty()
    } else {
        let rest = clean_spec(cs.drop_last(), sq, size);
        let ch = cs.last();
        if is_alnum(ch) {
            let u = square_symbol(upper(ch) as u32 as u8, size);
            if sq.contains(u) {
                rest.push(u)
            } else {
                rest
            }
        } else {
            rest
        }
    }
}

/// Keep the plaintext symbols that the square can encode.
pub fn clean_plaintext(text: &str, square: &[u8], size: usize) -> (out: Vec<u8>)
    ensures
        out@ == clean_spec(text@, square@, size),
{
    let cs = chars_of(text);
    let sqv = slice_to_vec(square);
    let mut out: Vec<u8> = Vec::new();
    let mut i: usize = 0;
    assert(cs@.take(0) =~= Seq::<char>::empty());
    while i < cs.len()
        invariant
            i <= cs.len(),
            cs@ == text@,
            sqv@ == square@,
            out@ == clean_spec(cs@.take(i as int), square@, size),
        decreases cs.len() - i,
    {
        let ch = cs[i];
        assert(cs@.take(i + 1).drop_last() =~= cs@.take(i as int));
        assert(cs@.take(i + 1).last() == ch);
        if is_ascii_alnum(ch) {
            let up = to_upper(ch);
            let v = #[verifier::truncate] (up as u32);
            let u = square_symbol_exec(v as u8, size);
            if contains_byte(&sqv, u) {
                out.push(u);
            }
        }
        i += 1;
    }
    assert(cs@.take(cs.len() as int) =~= cs@);
    out
}

fn slice_to_vec(s: &[u8]) -> (v: Vec<u8>)
    ensures
        v@ == s@,
{
    let mut v: Vec<u8> = Vec::new();
    let mut i: usize = 0;
    while i < s.len()
        invariant
            i <= s.len(),
            v@ == s@.take(i as int),
        decreases s.len() - i,
    {
        v.push(s[i]);
        assert(s@.take(i + 1) =~= s@.take(i as int).push(s@[i as int]));
        i += 1;
    }
    assert(s@.take(s.len() as int) =~= s@);
    v
}

/// The key symbols of `cs`: its ASCII letters and digits, upper-cased.
pub open spec fn key_bytes_spec(cs: Seq<char>) -> Seq<u8>
    decreases cs.len(),
{
    if cs.len() == 0 {
        Seq::empty()
    } else if is_alnum(cs.last()) {
        key_bytes_spec(cs.drop_last()).push(upper(cs.last()) as u32 as u8)
    } else {
        key_bytes_spec(cs.drop_last())
    }
}

/// The transposition key: the ASCII letters and digits of `k`, upper-cased.
pub fn key_bytes(k: &str) -> (out: Vec<u8>)
    ensures
        out@ == key_bytes_spec(k@),
{
    let cs = chars_of(k);
    let mut out: Vec<u8> = Vec::new();
    let mut i: usize = 0;
    assert(cs@.take(0) =~= Seq::<char>::empty());
    while i < cs.len()
        invariant
            i <= cs.len(),
            cs@ == k@,
            out@ == key_bytes_spec(cs@.take(i as int)),
        decreases cs.len() - i,
    {
        let ch = cs[i];
        assert(cs@.take(i + 1).drop_last() =~= cs@.take(i as int));
        assert(cs@.take(i + 1).last() == ch);
        if is_ascii_alnum(ch) {
            let up = to_upper(ch);
            let v = #[verifier::truncate] (up as u32);
            out.push(v as u8);
        }
        i += 1;
    }
    assert(cs@.take(cs.len() as int) =~= cs@);
    out
}

// ---------------------------------------------------------------------------
// Column order
// ---------------------------------------------------------------------------

/// Column `a` is read before column `b`: by key symbol, ties by position.
pub open spec fn key_lt(key: Seq<u8>, a: int, b: int) -> bool {
    key[a] < key[b] || (key[a] == key[b] && a < b)
}

/// `o` lists the columns `0 .. n` in reading order.
pub open spec fn sorted_perm(key: Seq<u8>, o: Seq<usize>, n: int) -> bool {
    &&& o.len() == n
    &&& forall|i: int| 0 <= i < o.len() ==> (#[trigger] o[i]) < n
    &&& forall|a: int| 0 <= a < n ==> #[trigger] o.contains(a as usize)
    &&& forall|i: int, j: int| 0 <= i < j < o.len() ==> key_lt(key, o[i] as int, o[j] as int)
}

/// `o` lists all columns of the key in reading order.
pub open spec fn is_key_order(key: Seq<u8>, o: Seq<usize>) -> bool {
    sorted_perm(key, o, key.len() as int)
}

/// Where column `i` goes among the columns `o`: after those read before it.
pub open spec fn insert_pos(key: Seq<u8>, o: Seq<usize>, i: int) -> int
    decreases o.len(),
{
    if o.len() > 0 && key_lt(key, o[0] as int, i) {
        1 + insert_pos(key, o.drop_first(), i)
    } else {
        0
    }
}

/// The first `n` columns in reading order, by insertion.
pub open spec fn sorted_prefix(key: Seq<u8>, n: int) -> Seq<usize>
    decreases n,
{
    if n <= 0 {
        Seq::empty()
    } else {
        let o = sorted_prefix(key, n - 1);
        o.insert(insert_pos(key, o, n - 1), (n - 1) as usize)
    }
}

/// The reading order of the columns of a key: by key symbol, ties by
/// position.
pub open spec fn key_order_spec(key: Seq<u8>) -> Seq<usize> {
    sorted_prefix(key, key.len() as int)
}

proof fn lemma_insert_pos(key: Seq<u8>, o: Seq<usize>, i: int)
    ensures
        0 <= insert_pos(key, o, i) <= o.len(),
        forall|q: int| 0 <= q < insert_pos(key, o, i) ==> key_lt(key, o[q] as int, i),
        insert_pos(key, o, i) < o.len() ==> !key_lt(key, o[insert_pos(key, o, i)] as int, i),
    decreases o.len(),
{
    if o.len() > 0 && key_lt(key, o[0] as int, i) {
        let t = o.drop_first();
        lemma_insert_pos(key, t, i);
        assert forall|q: int| 0 <= q < insert_pos(key, o, i) implies key_lt(key, o[q] as int, i) by {
            if q > 0 {
                assert(o[q] == t[q - 1]);
            }
        }
    }
}

proof fn lemma_insert_sorted(key: Seq<u8>, o: Seq<usize>, i: int, p: int)
    requires
        sorted_perm(key, o, i),
        0 <= i < key.len(),
        key.len() <= usize::MAX,
        0 <= p <= o.len(),
        forall|q: int| 0 <= q < p ==> key_lt(key, o[q] as int, i),
        p < o.len() ==> !key_lt(key, o[p] as int, i),
    ensures
        sorted_perm(key, o.insert(p, i as usize), i + 1),
{
    let r = o.insert(p, i as usize);
    if p < o.len() {
        assert(o[p] < i);
        assert(key_lt(key, i, o[p] as int));
    }
    assert forall|q: int| 0 <= q < r.len() implies (#[trigger] r[q]) < i + 1 by {
        if q < p {
            assert(r[q] == o[q]);
        } else if q > p {
            assert(r[q] == o[q - 1]);
        }
    }
    assert forall|a: int| 0 <= a < i + 1 implies #[trigger] r.contains(a as usize) by {
        if a == i {
            assert(r[p] == i as usize);
        } else {
            assert(o.contains(a as usize));
            let q = choose|q: int| 0 <= q < o.len() && o[q] == a as usize;
            if q < p {
                assert(r[q] == o[q]);
            } else {
                assert(r[q + 1] == o[q]);
            }
        }
    }
    assert forall|x: int, y: int| 0 <= x < y < r.len() implies key_lt(key, r[x] as int, r[y] as int) by {
        if y < p {
            assert(r[x] == o[x] && r[y] == o[y]);
        } else if y == p {
            assert(r[x] == o[x]);
        } else if x < p {
            assert(r[x] == o[x] && r[y] == o[y - 1]);
            if y - 1 > p {
                assert(key_lt(key, o[p] as int, o[y - 1] as int));
            }
        } else if x == p {
            assert(r[y] == o[y - 1]);
            if y - 1 > p {
                assert(key_lt(key, o[p] as int, o[y - 1] as int));
            }
        } else {
            assert(r[x] == o[x - 1] && r[y] == o[y - 1]);
        }
    }
}

proof fn lemma_sorted_prefix(key: Seq<u8>, n: int)
    requires
        0 <= n <= key.len(),
        key.len() <= usize::MAX,
    ensures
        sorted_perm(key, sorted_prefix(key, n), n),
    decreases n,
{
    if n > 0 {
        lemma_sorted_prefix(key, n - 1);
        let o = sorted_prefix(key, n - 1);
        lemma_insert_pos(key, o, n - 1);
        lemma_insert_sorted(key, o, n - 1, insert_pos(key, o, n - 1));
    }
}

proof fn lemma_key_order_prefix(key: Seq<u8>, o1: Seq<usize>, o2: Seq<usize>, i: int)
    requires
        is_key_order(key, o1),
        is_key_order(key, o2),
        0 <= i <= o1.len(),
    ensures
        forall|q: int| 0 <= q < i ==> o1[q] == o2[q],
    decreases i,
{
    if i > 0 {
        lemma_key_order_prefix(key, o1, o2, i - 1);
        let t = i - 1;
        let x = o1[t];
        assert(x < key.len());
        assert(o2.contains((x as int) as usize));
        let j = choose|j: int| 0 <= j < o2.len() && o2[j] == x;
        let y = o2[t];
        assert(y < key.len());
        assert(o1.contains((y as int) as usize));
        let k = choose|k: int| 0 <= k < o1.len() && o1[k] == y;
        if j < t {
            assert(o1[j] == x);
            assert(key_lt(key, o1[j] as int, o1[t] as int));
        }
        if k < t {
            assert(o2[k] == y);
            assert(key_lt(key, o2[k] as int, o2[t] as int));
        }
        if j > t {
            assert(key_lt(key, y as int, x as int));
            if k > t {
                assert(key_lt(key, x as int, y as int));
            }
        }
    }
}

proof fn lemma_key_order_unique(key: Seq<u8>, o1: Seq<usize>, o2: Seq<usize>)
    requires
        is_key_order(key, o1),
        is_key_order(key, o2),
    ensures
        o1 == o2,
{
    lemma_key_order_prefix(key, o1, o2, o1.len() as int);
    assert(o1 =~= o2);
}

/// The reading order of a key is a sorted list of all its columns.
proof fn lemma_key_order(key: Seq<u8>)
    requires
        key.len() <= usize::MAX,
    ensures
        is_key_order(key, key_order_spec(key)),
{
    lemma_sorted_prefix(key, key.len() as int);
}

/// Column read order: the column indices sorted by key symbol, ties by
/// position.
pub fn key_order(key: &[u8]) -> (o: Vec<usize>)
    ensures
        is_key_order(key@, o@),
        o@ == key_order_spec(key@),
{
    let n = key.len();
    let mut o: Vec<usize> = Vec::new();
    let mut i: usize = 0;
    while i < n
        invariant
            i <= n,
            n == key.len(),
            sorted_perm(key@, o@, i as int),
        decreases n - i,
    {
        // the first position whose column reads after column i
        let mut p: usize = 0;
        while p < o.len() && (key[o[p]] < key[i] || (key[o[p]] == key[i] && o[p] < i))
            invariant
                p <= o.len(),
                o.len() == i,
                i < n,
                n == key.len(),
                forall|q: int| 0 <= q < o.len() ==> (#[trigger] o@[q]) < i,
                forall|q: int| 0 <= q < p ==> key_lt(key@, o@[q] as int, i as int),
            decreases o.len() - p,
        {
            p += 1;
        }
        proof {
            lemma_insert_sorted(key@, o@, i as int, p as int);
        }
        o.insert(p, i);
        i += 1;
    }
    proof {
        lemma_key_order(key@);
        lemma_key_order_unique(key@, o@, key_order_spec(key@));
    }
    o
}

// ---------------------------------------------------------------------------
// Columnar transposition
// ---------------------------------------------------------------------------

/// The length of column `c` when `n` symbols fill `cols` columns row by
/// row: the first `n % cols` columns have one more.
pub open spec fn col_len(n: int, cols: int, c: int) -> int {
    if c < n % cols {
        n / cols + 1
    } else {
        n / cols
    }
}

/// Column `c` of `text` written row by row into `cols` columns.
pub open spec fn column(text: Seq<u8>, cols: int, c: int) -> Seq<u8> {
    Seq::new(col_len(text.len() as int, cols, c) as nat, |r: int| text[r * cols + c])
}

/// The columns listed in `o`, one after another.
pub open spec fn columns_in(text: Seq<u8>, cols: int, o: Seq<usize>) -> Seq<u8>
    decreases o.len(),
{
    if o.len() == 0 {
        Seq::empty()
    } else {
        columns_in(text, cols, o.drop_last()) + column(text, cols, o.last() as int)
    }
}

/// Keyed columnar transposition: the text written row by row under the
/// key, read column by column in key order.
pub open spec fn transpose_encrypt_spec(text: Seq<u8>, key: Seq<u8>) -> Seq<u8> {
    columns_in(text, key.len() as int, key_order_spec(key))
}

/// Where the column read `r`-th starts: the lengths of the columns read
/// before it.
pub open spec fn offset(n: int, cols: int, o: Seq<usize>, r: int) -> int
    decreases r,
{
    if r <= 0 {
        0
    } else {
        offset(n, cols, o, r - 1) + col_len(n, cols, o[r - 1] as int)
    }
}

/// Where column `c` starts in the transposed text.
pub open spec fn col_start(n: int, cols: int, o: Seq<usize>, c: int) -> int {
    offset(n, cols, o, o.index_of(c as usize))
}

/// Undo a keyed columnar transposition: the symbol at row `k / cols` of
/// column `k % cols`, for each `k`.
pub open spec fn transpose_decrypt_spec(cipher: Seq<u8>, key: Seq<u8>) -> Seq<u8> {
    let n = cipher.len() as int;
    let cols = key.len() as int;
    let o = key_order_spec(key);
    Seq::new(cipher.len(), |k: int| cipher[col_start(n, cols, o, k % cols) + k / cols])
}

proof fn lemma_in_column(n: int, cols: int, c: int, m: int)
    requires
        0 < cols,
        0 <= c < cols,
        0 <= m,
        0 <= n,
    ensures
        (m * cols + c < n) == (m < col_len(n, cols, c)),
{
    let base = n / cols;
    let extra = n % cols;
    vstd::arithmetic::div_mod::lemma_fundamental_div_mod(n, cols);
    assert(cols * base == base * cols) by (nonlinear_arith);
    assert(n == base * cols + extra);
    assert(0 <= extra < cols);
    if m <= base {
        assert(m * cols <= base * cols) by (nonlinear_arith)
            requires
                m <= base,
                cols > 0,
        ;
    }
    if m <= base - 1 {
        assert(m * cols <= (base - 1) * cols) by (nonlinear_arith)
            requires
                m <= base - 1,
                cols > 0,
        ;
        assert((base - 1) * cols == base * cols - cols) by (nonlinear_arith);
    }
    if m >= base + 1 {
        assert(m * cols >= (base + 1) * cols) by (nonlinear_arith)
            requires
                m >= base + 1,
                cols > 0,
        ;
        assert((base + 1) * cols == base * cols + cols) by (nonlinear_arith);
    }
    if m >= base {
        assert(m * cols >= base * cols) by (nonlinear_arith)
            requires
                m >= base,
                cols > 0,
        ;
    }
}

/// The length of column `c` of `n` symbols in `cols` columns.
fn col_len_exec(n: usize, cols: usize, c: usize) -> (l: usize)
    requires
        cols > 0,
    ensures
        l == col_len(n as int, cols as int, c as int),
{
    if c < n % cols {
        assert(cols >= 2);
        assert(n / cols <= n / 2) by {
            vstd::arithmetic::div_mod::lemma_div_is_ordered_by_denominator(n as int, 2, cols as int);
        }
        n / cols + 1
    } else {
        n / cols
    }
}

/// Keyed columnar transposition: write `text` row by row under the key and
/// read it column by column in key order.
pub fn transpose_encrypt(text: &[u8], key: &[u8]) -> (out: Vec<u8>)
    requires
        text@.len() > 0 ==> key@.len() > 0,
    ensures
        out@ == transpose_encrypt_spec(text@, key@),
{
    let cols = key.len();
    let n = text.len();
    let o = key_order(key);
    let mut out: Vec<u8> = Vec::new();
    let mut r: usize = 0;
    assert(o@.take(0) =~= Seq::<usize>::empty());
    while r < cols
        invariant
            r <= cols,
            cols == key.len(),
            n == text.len(),
            n > 0 ==> cols > 0,
            is_key_order(key@, o@),
            o@ == key_order_spec(key@),
            out@ == columns_in(text@, cols as int, o@.take(r as int)),
        decreases cols - r,
    {
        let c = o[r];
        let ghost pre = out@;
        let ghost col = column(text@, cols as int, c as int);
        let len_c = col_len_exec(n, cols, c);
        let mut m: usize = 0;
        while m < len_c
            invariant
                c < cols,
                0 < cols,
                n == text.len(),
                len_c == col.len(),
                m <= len_c,
                col == column(text@, cols as int, c as int),
                out@ == pre + col.take(m as int),
            decreases len_c - m,
        {
            proof {
                lemma_in_column(n as int, cols as int, c as int, m as int);
            }
            let x = text[m * cols + c];
            out.push(x);
            assert(col.take(m + 1) =~= col.take(m as int).push(x));
            m += 1;
        }
        proof {
            assert(col.take(col.len() as int) =~= col);
            assert(o@.take(r + 1).drop_last() =~= o@.take(r as int));
        }
        r += 1;
    }
    assert(o@.take(cols as int) =~= o@);
    out
}

/// The columns in `o` that are shorter than `e`, in order.
pub open spec fn smalls(o: Seq<usize>, e: int) -> Seq<int>
    decreases o.len(),
{
    if o.len() == 0 {
        Seq::empty()
    } else if (o.last() as int) < e {
        smalls(o.drop_last(), e).push(o.last() as int)
    } else {
        smalls(o.drop_last(), e)
    }
}

proof fn lemma_smalls(o: Seq<usize>, e: int)
    requires
        forall|i: int, j: int| 0 <= i < j < o.len() ==> o[i] != o[j],
    ensures
        smalls(o, e).no_duplicates(),
        forall|x: int|
            smalls(o, e).contains(x) <==> (0 <= x < e && exists|q: int|
                0 <= q < o.len() && o[q] as int == x),
    decreases o.len(),
{
    if o.len() > 0 {
        let t = o.drop_last();
        assert forall|i: int, j: int| 0 <= i < j < t.len() implies t[i] != t[j] by {
            assert(t[i] == o[i] && t[j] == o[j]);
        }
        lemma_smalls(t, e);
        let l = o.last();
        let st = smalls(t, e);
        let so = smalls(o, e);
        assert forall|x: int|
            so.contains(x) <==> (0 <= x < e && exists|q: int| 0 <= q < o.len() && o[q] as int == x) by {
            if 0 <= x < e && exists|q: int| 0 <= q < o.len() && o[q] as int == x {
                let q = choose|q: int| 0 <= q < o.len() && o[q] as int == x;
                if q < t.len() {
                    assert(t[q] as int == x);
                    assert(st.contains(x));
                    let w = choose|w: int| 0 <= w < st.len() && st[w] == x;
                    assert(so[w] == x);
                } else {
                    assert(so[so.len() - 1] == x);
                }
            }
            if so.contains(x) {
                let w = choose|w: int| 0 <= w < so.len() && so[w] == x;
                if (l as int) < e && w == so.len() - 1 {
                    assert(o[o.len() - 1] as int == x);
                } else {
                    assert(st[w] == x);
                    assert(st.contains(x));
                    let q = choose|q: int| 0 <= q < t.len() && t[q] as int == x;
                    assert(o[q] as int == x);
                }
            }
        }
        if (l as int) < e {
            assert(!st.contains(l as int)) by {
                if st.contains(l as int) {
                    let q = choose|q: int| 0 <= q < t.len() && t[q] as int == l as int;
                    assert(o[q] == o[o.len() - 1]);
                }
            }
        }
    }
}

/// How many of the first `r` columns read are long ones (below `e`).
pub open spec fn long_count(o: Seq<usize>, e: int, r: int) -> int
    decreases r,
{
    if r <= 0 {
        0
    } else {
        long_count(o, e, r - 1) + if (o[r - 1] as int) < e {
            1int
        } else {
            0int
        }
    }
}

proof fn lemma_long_count(o: Seq<usize>, e: int, r: int)
    requires
        0 <= r <= o.len(),
    ensures
        long_count(o, e, r) == smalls(o.take(r), e).len(),
    decreases r,
{
    if r > 0 {
        lemma_long_count(o, e, r - 1);
        assert(o.take(r).drop_last() =~= o.take(r - 1));
    }
}

proof fn lemma_offset_count(n: int, cols: int, o: Seq<usize>, r: int)
    requires
        0 <= r <= o.len(),
        cols > 0,
    ensures
        offset(n, cols, o, r) == r * (n / cols) + long_count(o, n % cols, r),
    decreases r,
{
    if r > 0 {
        lemma_offset_count(n, cols, o, r - 1);
        let base = n / cols;
        assert(r * base == (r - 1) * base + base) by (nonlinear_arith);
        assert(offset(n, cols, o, r) == offset(n, cols, o, r - 1) + col_len(n, cols, o[r - 1] as int));
    } else {
        assert(0 * (n / cols) == 0) by (nonlinear_arith);
    }
}

proof fn lemma_offset_mono(n: int, cols: int, o: Seq<usize>, a: int, b: int)
    requires
        0 <= a <= b,
        cols > 0,
        n >= 0,
    ensures
        offset(n, cols, o, a) <= offset(n, cols, o, b),
    decreases b - a,
{
    if a < b {
        lemma_offset_mono(n, cols, o, a, b - 1);
        assert(n / cols >= 0) by (nonlinear_arith)
            requires
                n >= 0,
                cols > 0,
        ;
    }
}

proof fn lemma_offset_total(key: Seq<u8>, o: Seq<usize>, n: int)
    requires
        is_key_order(key, o),
        key.len() > 0,
        key.len() <= usize::MAX,
        n >= 0,
    ensures
        offset(n, key.len() as int, o, key.len() as int) == n,
{
    let cols = key.len() as int;
    let e = n % cols;
    assert forall|i: int, j: int| 0 <= i < j < o.len() implies o[i] != o[j] by {
        assert(key_lt(key, o[i] as int, o[j] as int));
    }
    lemma_smalls(o, e);
    let sm = smalls(o, e);
    assert(sm.to_set() =~= set_int_range(0, e)) by {
        assert forall|x: int| sm.to_set().contains(x) implies set_int_range(0, e).contains(x) by {
            assert(sm.contains(x));
        }
        assert forall|x: int| set_int_range(0, e).contains(x) implies sm.to_set().contains(x) by {
            assert(o.contains(x as usize));
            let q = choose|q: int| 0 <= q < o.len() && o[q] == x as usize;
            assert(o[q] as int == x);
            assert(sm.contains(x));
        }
    }
    sm.unique_seq_to_set();
    vstd::set_lib::lemma_int_range(0, e);
    lemma_long_count(o, e, cols);
    assert(o.take(cols) =~= o);
    lemma_offset_count(n, cols, o, cols);
    vstd::arithmetic::div_mod::lemma_fundamental_div_mod(n, cols);
    assert(cols * (n / cols) == cols * (n / cols));
}

/// Undo a keyed columnar transposition: cut the text into the columns (the
/// first `n % cols` one symbol longer) in key order and read them row by
/// row.
pub fn transpose_decrypt(cipher: &[u8], key: &[u8]) -> (out: Vec<u8>)
    requires
        cipher@.len() > 0 ==> key@.len() > 0,
    ensures
        out@ == transpose_decrypt_spec(cipher@, key@),
{
    let cols = key.len();
    let n = cipher.len();
    let o = key_order(key);
    if n == 0 {
        let out: Vec<u8> = Vec::new();
        assert(out@ =~= transpose_decrypt_spec(cipher@, key@));
        return out;
    }
    proof {
        lemma_offset_total(key@, o@, n as int);
        assert forall|i: int, j: int| 0 <= i < j < o.len() implies o@[i] != o@[j] by {
            assert(key_lt(key@, o@[i] as int, o@[j] as int));
        }
    }
    let mut starts: Vec<usize> = Vec::new();
    while starts.len() < cols
        invariant
            starts.len() <= cols,
        decreases cols - starts.len(),
    {
        starts.push(0);
    }
    let mut pos: usize = 0;
    let mut r: usize = 0;
    while r < cols
        invariant
            r <= cols,
            cols == key.len(),
            cols > 0,
            n == cipher.len(),
            starts.len() == cols,
            is_key_order(key@, o@),
            forall|i: int, j: int| 0 <= i < j < o.len() ==> o@[i] != o@[j],
            offset(n as int, cols as int, o@, cols as int) == n,
            pos == offset(n as int, cols as int, o@, r as int),
            forall|q: int| 0 <= q < r ==> starts@[o@[q] as int] == offset(n as int, cols as int, o@, q),
        decreases cols - r,
    {
        let c = o[r];
        let ghost before = starts@;
        starts.set(c, pos);
        proof {
            lemma_offset_mono(n as int, cols as int, o@, r + 1, cols as int);
            assert forall|q: int| 0 <= q < r + 1 implies starts@[o@[q] as int] == offset(
                n as int,
                cols as int,
                o@,
                q,
            ) by {
                if q < r {
                    assert(o@[q] != o@[r as int]);
                    assert(starts@[o@[q] as int] == before[o@[q] as int]);
                }
            }
        }
        pos = pos + col_len_exec(n, cols, c);
        r += 1;
    }
    let mut out: Vec<u8> = Vec::new();
    let mut k: usize = 0;
    while k < n
        invariant
            k <= n,
            cols == key.len(),
            cols > 0,
            n == cipher.len(),
            starts.len() == cols,
            is_key_order(key@, o@),
            o@ == key_order_spec(key@),
            offset(n as int, cols as int, o@, cols as int) == n,
            forall|q: int| 0 <= q < cols ==> starts@[o@[q] as int] == offset(n as int, cols as int, o@, q),
            out@ == transpose_decrypt_spec(cipher@, key@).take(k as int),
        decreases n - k,
    {
        let c = k % cols;
        let m = k / cols;
        let ghost q = o@.index_of(c as usize);
        proof {
            assert(o@.contains((c as int) as usize));
            assert(0 <= q < cols && o@[q] == c);
            vstd::arithmetic::div_mod::lemma_fundamental_div_mod(k as int, cols as int);
            assert(m * cols + c == k) by (nonlinear_arith)
                requires
                    k == cols * (k / cols) + k % cols,
                    m == k / cols,
                    c == k % cols,
            ;
            lemma_in_column(n as int, cols as int, c as int, m as int);
            lemma_offset_mono(n as int, cols as int, o@, q + 1, cols as int);
            assert(starts@[c as int] == offset(n as int, cols as int, o@, q));
            assert(offset(n as int, cols as int, o@, q + 1) == offset(n as int, cols as int, o@, q)
                + col_len(n as int, cols as int, c as int));
        }
        let x = cipher[starts[c] + m];
        out.push(x);
        assert(transpose_decrypt_spec(cipher@, key@).take(k + 1) =~= transpose_decrypt_spec(
            cipher@,
            key@,
        ).take(k as int).push(x));
        k += 1;
    }
    assert(transpose_decrypt_spec(cipher@, key@).take(n as int) =~= transpose_decrypt_spec(
        cipher@,
        key@,
    ));
    out
}

/// The element at `base + m`.
pub open spec fn cell(s: Seq<u8>, base: int, m: int) -> u8 {
    s[base + m]
}

proof fn lemma_columns_in(text: Seq<u8>, cols: int, o: Seq<usize>, r: int)
    requires
        0 <= r <= o.len(),
        cols > 0,
        forall|q: int| 0 <= q < o.len() ==> (#[trigger] o[q]) < cols,
    ensures
        columns_in(text, cols, o.take(r)).len() == offset(text.len() as int, cols, o, r),
        forall|q: int, m: int|
            0 <= q < r && 0 <= m < col_len(text.len() as int, cols, o[q] as int) ==> #[trigger] cell(
                columns_in(text, cols, o.take(r)),
                offset(text.len() as int, cols, o, q),
                m,
            ) == cell(text, 0, m * cols + o[q]),
    decreases r,
{
    let n = text.len() as int;
    if r > 0 {
        lemma_columns_in(text, cols, o, r - 1);
        let prev = columns_in(text, cols, o.take(r - 1));
        assert(o.take(r).drop_last() =~= o.take(r - 1));
        assert(o.take(r).last() == o[r - 1]);
        let cur = columns_in(text, cols, o.take(r));
        assert(cur == prev + column(text, cols, o[r - 1] as int));
        assert forall|q: int, m: int|
            0 <= q < r && 0 <= m < col_len(n, cols, o[q] as int) implies #[trigger] cell(
                cur,
                offset(n, cols, o, q),
                m,
            ) == cell(text, 0, m * cols + o[q]) by {
            if q < r - 1 {
                lemma_offset_mono(n, cols, o, q + 1, r - 1);
                assert(offset(n, cols, o, q + 1) == offset(n, cols, o, q) + col_len(n, cols, o[q] as int));
                assert(prev.len() == offset(n, cols, o, r - 1));
                assert(offset(n, cols, o, q) + m < prev.len());
                assert(offset(n, cols, o, q) + m >= 0) by {
                    lemma_offset_mono(n, cols, o, 0, q);
                }
                assert(cur[offset(n, cols, o, q) + m] == prev[offset(n, cols, o, q) + m]);
                assert(cell(prev, offset(n, cols, o, q), m) == cell(text, 0, m * cols + o[q]));
            } else {
                assert(cur[offset(n, cols, o, q) + m] == column(text, cols, o[q] as int)[m]);
            }
        }
    }
}

/// The keyed columnar transposition is undone by its inverse: for any text
/// and any non-empty key, decrypting the encryption gives the text back.
pub proof fn lemma_transpose_roundtrip(text: Seq<u8>, key: Seq<u8>)
    requires
        key.len() > 0,
        key.len() <= usize::MAX,
    ensures
        transpose_decrypt_spec(transpose_encrypt_spec(text, key), key) == text,
{
    let cols = key.len() as int;
    let n = text.len() as int;
    let o = key_order_spec(key);
    lemma_key_order(key);
    let enc = transpose_encrypt_spec(text, key);
    lemma_columns_in(text, cols, o, cols);
    assert(o.take(cols) =~= o);
    lemma_offset_total(key, o, n);
    assert(enc.len() == n);
    let dec = transpose_decrypt_spec(enc, key);
    assert forall|k: int| 0 <= k < n implies dec[k] == text[k] by {
        let c = k % cols;
        let m = k / cols;
        assert(o.contains((c as int) as usize));
        let q = o.index_of(c as usize);
        assert(0 <= q < cols && o[q] == c);
        vstd::arithmetic::div_mod::lemma_fundamental_div_mod(k, cols);
        assert(m * cols + c == k) by (nonlinear_arith)
            requires
                k == cols * (k / cols) + k % cols,
                m == k / cols,
                c == k % cols,
        ;
        assert(m >= 0) by (nonlinear_arith)
            requires
                k >= 0,
                cols > 0,
                m == k / cols,
        ;
        lemma_in_column(n, cols, c, m);
        assert(col_start(n, cols, o, c) == offset(n, cols, o, q));
        assert(cell(enc, offset(n, cols, o, q), m) == cell(text, 0, m * cols + o[q]));
    }
    assert(dec =~= text);
}

// ---------------------------------------------------------------------------
// The cipher
// ---------------------------------------------------------------------------

proof fn lemma_square_props(bs: Seq<u8>, size: usize)
    ensures
        square_from_bytes(bs, size).no_duplicates(),
        forall|i: int|
            0 <= i < square_from_bytes(bs, size).len() ==> in_full(
                #[trigger] square_from_bytes(bs, size)[i],
                size,
            ),
    decreases bs.len(),
{
    if bs.len() > 0 {
        lemma_square_props(bs.drop_last(), size);
    }
}

proof fn lemma_full_contains(c: u8, size: usize)
    requires
        in_full(c, size),
    ensures
        full_alphabet(size).contains(c),
{
    let f = full_alphabet(size);
    if size == 6 {
        if c >= 65 {
            assert(f[c - 65] == c);
        } else {
            assert(f[26 + c - 48] == c);
        }
    } else if c < 74 {
        assert(f[c - 65] == c);
    } else {
        assert(f[c - 66] == c);
    }
}

/// A square holds at most `size * size` symbols.
proof fn lemma_square_len(input: Seq<char>, size: usize)
    requires
        size == 5 || size == 6,
    ensures
        build_square_spec(input, size).len() <= size * size,
        build_square_spec(input, size).no_duplicates(),
{
    let sq = build_square_spec(input, size);
    let f = full_alphabet(size);
    lemma_square_props(ascii_bytes(input) + f, size);
    assert(sq.to_set().subset_of(f.to_set())) by {
        assert forall|c: u8| sq.to_set().contains(c) implies f.to_set().contains(c) by {
            let i = choose|i: int| 0 <= i < sq.len() && sq[i] == c;
            assert(in_full(sq[i], size));
            lemma_full_contains(c, size);
        }
    }
    sq.unique_seq_to_set();
    f.lemma_cardinality_of_set();
    vstd::set_lib::lemma_len_subset(sq.to_set(), f.to_set());
}

proof fn lemma_clean_in_square(cs: Seq<char>, sq: Seq<u8>, size: usize)
    ensures
        forall|k: int| 0 <= k < clean_spec(cs, sq, size).len() ==> sq.contains(
            #[trigger] clean_spec(cs, sq, size)[k],
        ),
    decreases cs.len(),
{
    if cs.len() > 0 {
        lemma_clean_in_square(cs.drop_last(), sq, size);
        let prev = clean_spec(cs.drop_last(), sq, size);
        let cur = clean_spec(cs, sq, size);
        assert forall|k: int| 0 <= k < cur.len() implies sq.contains(#[trigger] cur[k]) by {
            if k < prev.len() {
                assert(cur[k] == prev[k]);
            }
        }
    }
}

/// The fractionation of plaintext symbols: each becomes the labels of its
/// row and column in the square.
pub open spec fn fractionate(pt: Seq<u8>, sq: Seq<u8>, lab: Seq<u8>, size: int) -> Seq<u8>
    decreases pt.len(),
{
    if pt.len() == 0 {
        Seq::empty()
    } else {
        let idx = index_in_bytes(sq, pt.last());
        fractionate(pt.drop_last(), sq, lab, size) + seq![lab[idx / size], lab[idx % size]]
    }
}

/// The position of the first `c` in `s` (its length where there is none).
pub open spec fn index_in_bytes(s: Seq<u8>, c: u8) -> int
    decreases s.len(),
{
    if s.len() == 0 {
        0
    } else if s[0] == c {
        0
    } else {
        1 + index_in_bytes(s.drop_first(), c)
    }
}

proof fn lemma_index_in_bytes(s: Seq<u8>, c: u8)
    ensures
        0 <= index_in_bytes(s, c) <= s.len(),
        s.contains(c) ==> index_in_bytes(s, c) < s.len() && s[index_in_bytes(s, c)] == c,
        index_in_bytes(s, c) < s.len() ==> s[index_in_bytes(s, c)] == c,
        forall|k: int| 0 <= k < index_in_bytes(s, c) ==> s[k] != c,
    decreases s.len(),
{
    if s.len() > 0 && s[0] != c {
        let t = s.drop_first();
        lemma_index_in_bytes(t, c);
        if s.contains(c) {
            let k = choose|k: int| 0 <= k < s.len() && s[k] == c;
            assert(t[k - 1] == c);
        }
        assert forall|k: int| 0 <= k < index_in_bytes(s, c) implies s[k] != c by {
            if k > 0 {
                assert(s[k] == t[k - 1]);
            }
        }
    }
}

fn index_of_byte(s: &Vec<u8>, c: u8) -> (r: usize)
    ensures
        r == index_in_bytes(s@, c),
{
    proof {
        lemma_index_in_bytes(s@, c);
    }
    let mut i: usize = 0;
    while i < s.len()
        invariant
            i <= s.len(),
            forall|k: int| 0 <= k < i ==> s@[k] != c,
            0 <= index_in_bytes(s@, c) <= s@.len(),
            s@.contains(c) ==> index_in_bytes(s@, c) < s@.len() && s@[index_in_bytes(s@, c)] == c,
            index_in_bytes(s@, c) < s@.len() ==> s@[index_in_bytes(s@, c)] == c,
            forall|k: int| 0 <= k < index_in_bytes(s@, c) ==> s@[k] != c,
        decreases s.len() - i,
    {
        if s[i] == c {
            proof {
                assert(s@.contains(c));
                if index_in_bytes(s@, c) > i {
                    assert(s@[i as int] != c);
                }
            }
            return i;
        }
        i += 1;
    }
    proof {
        if index_in_bytes(s@, c) < s.len() {
            assert(s@.contains(c));
        }
    }
    i
}

/// The labels of `text` that decryption reads: its ASCII characters
/// upper-cased, kept where they are labels.
pub open spec fn label_bytes(cs: Seq<char>, lab: Seq<u8>) -> Seq<u8>
    decreases cs.len(),
{
    if cs.len() == 0 {
        Seq::empty()
    } else {
        let rest = label_bytes(cs.drop_last(), lab);
        let b = upper(cs.last()) as u32;
        if b < 128 && lab.contains(b as u8) {
            rest.push(b as u8)
        } else {
            rest
        }
    }
}

/// The symbols of pairs of labels: row and column label of each complete
/// pair, where both are labels and the square has a symbol there.
pub open spec fn defractionate(pairs: Seq<u8>, sq: Seq<u8>, lab: Seq<u8>, size: int) -> Seq<char>
    decreases pairs.len(),
{
    if pairs.len() < 2 {
        Seq::empty()
    } else {
        let r = index_in_bytes(lab, pairs[0]);
        let c = index_in_bytes(lab, pairs[1]);
        let rest = defractionate(pairs.skip(2), sq, lab, size);
        if r < lab.len() && c < lab.len() && r * size + c < sq.len() {
            seq![sq[r * size + c] as char] + rest
        } else {
            rest
        }
    }
}

/// The ASCII bytes as characters.
pub open spec fn bytes_as_chars(bs: Seq<u8>) -> Seq<char> {
    bs.map_values(|b: u8| b as char)
}

/// The message for an empty transposition key.
pub open spec fn empty_key_message() -> Seq<char> {
    "转置关键词不能为空"@
}

/// ADFGVX encryption of `text`: the plaintext symbols are fractionated
/// into labels and the labels transposed under the keyword.
pub open spec fn adfgvx_encrypt_spec(text: Seq<char>, size: usize, square: Seq<char>, keyword: Seq<char>) -> Result<
    Seq<char>,
    Seq<char>,
> {
    let key = key_bytes_spec(keyword);
    let sq = build_square_spec(square, size);
    if key.len() == 0 {
        Err(empty_key_message())
    } else {
        let frac = fractionate(clean_spec(text, sq, size), sq, labels_spec(size), size as int);
        Ok(bytes_as_chars(transpose_encrypt_spec(frac, key)))
    }
}

/// ADFGVX decryption of `text`: its labels are transposed back under the
/// keyword and read in pairs through the square.
pub open spec fn adfgvx_decrypt_spec(text: Seq<char>, size: usize, square: Seq<char>, keyword: Seq<char>) -> Result<
    Seq<char>,
    Seq<char>,
> {
    let key = key_bytes_spec(keyword);
    let sq = build_square_spec(square, size);
    let lab = labels_spec(size);
    if key.len() == 0 {
        Err(empty_key_message())
    } else {
        Ok(defractionate(transpose_decrypt_spec(label_bytes(text, lab), key), sq, lab, size as int))
    }
}

fn string_of_bytes(bs: &Vec<u8>) -> (s: String)
    ensures
        s@ == bytes_as_chars(bs@),
{
    let mut s = String::new();
    let mut i: usize = 0;
    while i < bs.len()
        invariant
            i <= bs.len(),
            s@ == bytes_as_chars(bs@.take(i as int)),
        decreases bs.len() - i,
    {
        push_char(&mut s, bs[i] as char);
        assert(bytes_as_chars(bs@.take(i + 1)) =~= bytes_as_chars(bs@.take(i as int)).push(
            bs@[i as int] as char,
        ));
        i += 1;
    }
    assert(bs@.take(bs.len() as int) =~= bs@);
    s
}

/// ADFGVX (size 6) or ADFGX (size 5) encryption.
pub fn adfgvx_encrypt(text: &str, size: usize, square: &str, keyword: &str) -> (r: Result<
    String,
    CoreError,
>)
    requires
        size == 5 || size == 6,
    ensures
        match (r, adfgvx_encrypt_spec(text@, size, square@, keyword@)) {
            (Ok(s), Ok(t)) => s@ == t,
            (Err(e), Err(m)) => e.is_parse_with(m),
            _ => false,
        },
{
    let sq = build_square(square, size);
    let lab = labels(size);
    let key = key_bytes(keyword);
    if key.len() == 0 {
        return Err(CoreError::Parse(String::from_str("转置关键词不能为空")));
    }
    let pt = clean_plaintext(text, sq.as_slice(), size);
    proof {
        lemma_square_len(square@, size);
        lemma_clean_in_square(text@, sq@, size);
    }
    let mut frac: Vec<u8> = Vec::new();
    let mut i: usize = 0;
    assert(pt@.take(0) =~= Seq::<u8>::empty());
    while i < pt.len()
        invariant
            i <= pt.len(),
            size == 5 || size == 6,
            sq@.len() <= size * size,
            lab@ == labels_spec(size),
            forall|k: int| 0 <= k < pt.len() ==> sq@.contains(#[trigger] pt@[k]),
            frac@ == fractionate(pt@.take(i as int), sq@, lab@, size as int),
        decreases pt.len() - i,
    {
        let ch = pt[i];
        assert(sq@.contains(pt@[i as int]));
        let idx = index_of_byte(&sq, ch);
        proof {
            lemma_index_in_bytes(sq@, ch);
            assert(idx < size * size);
            assert(idx / size < size) by (nonlinear_arith)
                requires
                    idx < size * size,
                    size > 0,
            ;
        }
        frac.push(lab[idx / size]);
        frac.push(lab[idx % size]);
        assert(pt@.take(i + 1).drop_last() =~= pt@.take(i as int));
        assert(frac@ =~= fractionate(pt@.take(i + 1), sq@, lab@, size as int));
        i += 1;
    }
    assert(pt@.take(pt.len() as int) =~= pt@);
    let out = transpose_encrypt(frac.as_slice(), key.as_slice());
    Ok(string_of_bytes(&out))
}

/// ADFGVX (size 6) or ADFGX (size 5) decryption.
pub fn adfgvx_decrypt(text: &str, size: usize, square: &str, keyword: &str) -> (r: Result<
    String,
    CoreError,
>)
    requires
        size == 5 || size == 6,
    ensures
        match (r, adfgvx_decrypt_spec(text@, size, square@, keyword@)) {
            (Ok(s), Ok(t)) => s@ == t,
            (Err(e), Err(m)) => e.is_parse_with(m),
            _ => false,
        },
{
    let sq = build_square(square, size);
    let lab = labels(size);
    let key = key_bytes(keyword);
    if key.len() == 0 {
        return Err(CoreError::Parse(String::from_str("转置关键词不能为空")));
    }
    let cs = chars_of(text);
    let mut cipher: Vec<u8> = Vec::new();
    let mut i: usize = 0;
    assert(cs@.take(0) =~= Seq::<char>::empty());
    while i < cs.len()
        invariant
            i <= cs.len(),
            cs@ == text@,
            cipher@ == label_bytes(cs@.take(i as int), lab@),
        decreases cs.len() - i,
    {
        let ch = cs[i];
        assert(cs@.take(i + 1).drop_last() =~= cs@.take(i as int));
        assert(cs@.take(i + 1).last() == ch);
        let u = to_upper(ch);
        let b = #[verifier::truncate] (u as u32);
        if b < 128 && contains_byte(&lab, b as u8) {
            cipher.push(b as u8);
        }
        i += 1;
    }
    assert(cs@.take(cs.len() as int) =~= cs@);
    let pairs = transpose_decrypt(cipher.as_slice(), key.as_slice());
    let mut out = String::new();
    let n = pairs.len();
    let mut k: usize = 0;
    let ghost full = defractionate(pairs@, sq@, lab@, size as int);
    assert(pairs@.skip(0) =~= pairs@);
    assert(out@ + full =~= full);
    while n - k >= 2
        invariant
            k <= n,
            n == pairs.len(),
            size == 5 || size == 6,
            lab@ == labels_spec(size),
            full == defractionate(pairs@, sq@, lab@, size as int),
            out@ + defractionate(pairs@.skip(k as int), sq@, lab@, size as int) == full,
        decreases n - k,
    {
        let ghost rest = pairs@.skip(k as int);
        let ghost pre = out@;
        assert(rest[0] == pairs@[k as int] && rest[1] == pairs@[k + 1]);
        assert(rest.skip(2) =~= pairs@.skip(k + 2));
        let r = index_of_byte(&lab, pairs[k]);
        let c = index_of_byte(&lab, pairs[k + 1]);
        if r < lab.len() && c < lab.len() {
            assert(r * size <= 36) by (nonlinear_arith)
                requires
                    r < 6,
                    size <= 6,
            ;
            if r * size + c < sq.len() {
                push_char(&mut out, sq[r * size + c] as char);
                assert(out@ + defractionate(pairs@.skip(k + 2), sq@, lab@, size as int) =~= pre + (seq![
                    sq@[r * size + c] as char,
                ] + defractionate(rest.skip(2), sq@, lab@, size as int)));
            }
        }
        k += 2;
    }
    assert(out@ + Seq::<char>::empty() =~= out@);
    Ok(out)
}

// ---------------------------------------------------------------------------
// Cipher round trip
// ---------------------------------------------------------------------------

proof fn lemma_key_bytes_len(cs: Seq<char>)
    ensures
        key_bytes_spec(cs).len() <= cs.len(),
    decreases cs.len(),
{
    if cs.len() > 0 {
        lemma_key_bytes_len(cs.drop_last());
    }
}

proof fn lemma_columns_in_elements(text: Seq<u8>, cols: int, o: Seq<usize>, p: spec_fn(u8) -> bool)
    requires
        cols > 0,
        forall|q: int| 0 <= q < o.len() ==> (#[trigger] o[q]) < cols,
        forall|k: int| 0 <= k < text.len() ==> p(#[trigger] text[k]),
    ensures
        forall|k: int| 0 <= k < columns_in(text, cols, o).len() ==> p(#[trigger] columns_in(text, cols, o)[k]),
    decreases o.len(),
{
    if o.len() > 0 {
        let t = o.drop_last();
        assert forall|q: int| 0 <= q < t.len() implies (#[trigger] t[q]) < cols by {
            assert(t[q] == o[q]);
        }
        lemma_columns_in_elements(text, cols, t, p);
        let prev = columns_in(text, cols, t);
        let col = column(text, cols, o.last() as int);
        assert forall|r: int| 0 <= r < col.len() implies p(#[trigger] col[r]) by {
            lemma_in_column(text.len() as int, cols, o.last() as int, r);
            assert(r * cols >= 0) by (nonlinear_arith)
                requires
                    r >= 0,
                    cols > 0,
            ;
        }
        let all = columns_in(text, cols, o);
        assert forall|k: int| 0 <= k < all.len() implies p(#[trigger] all[k]) by {
            if k < prev.len() {
                assert(all[k] == prev[k]);
            } else {
                assert(all[k] == col[k - prev.len()]);
            }
        }
    }
}

/// Whether a byte is one of the labels.
pub open spec fn is_label(lab: Seq<u8>, b: u8) -> bool {
    lab.contains(b)
}

proof fn lemma_label_bytes_of_labels(bs: Seq<u8>, lab: Seq<u8>, size: usize)
    requires
        lab == labels_spec(size),
        forall|k: int| 0 <= k < bs.len() ==> lab.contains(#[trigger] bs[k]),
    ensures
        label_bytes(bytes_as_chars(bs), lab) == bs,
    decreases bs.len(),
{
    if bs.len() > 0 {
        let t = bs.drop_last();
        assert forall|k: int| 0 <= k < t.len() implies lab.contains(#[trigger] t[k]) by {
            assert(t[k] == bs[k]);
        }
        lemma_label_bytes_of_labels(t, lab, size);
        assert(bytes_as_chars(bs).drop_last() =~= bytes_as_chars(t));
        let b = bs.last();
        assert(lab.contains(bs[bs.len() - 1]));
        let c = b as char;
        assert(bytes_as_chars(bs).last() == c);
        assert(65 <= b <= 88);
        assert(upper(c) == c);
        assert((c as u32) as u8 == b);
        assert(t.push(b) =~= bs);
    }
}

proof fn lemma_defractionate_concat(a: Seq<u8>, b: Seq<u8>, sq: Seq<u8>, lab: Seq<u8>, size: int)
    requires
        a.len() % 2 == 0,
    ensures
        defractionate(a + b, sq, lab, size) == defractionate(a, sq, lab, size) + defractionate(b, sq, lab, size),
    decreases a.len(),
{
    if a.len() == 0 {
        assert(a + b =~= b);
        assert(defractionate(a, sq, lab, size) + defractionate(b, sq, lab, size) =~= defractionate(b, sq, lab, size));
    } else {
        lemma_defractionate_concat(a.skip(2), b, sq, lab, size);
        assert((a + b).skip(2) =~= a.skip(2) + b);
        assert((a + b)[0] == a[0] && (a + b)[1] == a[1]);
        let r = index_in_bytes(lab, a[0]);
        let c = index_in_bytes(lab, a[1]);
        if r < lab.len() && c < lab.len() && r * size + c < sq.len() {
            assert(seq![sq[r * size + c] as char] + (defractionate(a.skip(2), sq, lab, size) + defractionate(
                b,
                sq,
                lab,
                size,
            )) =~= (seq![sq[r * size + c] as char] + defractionate(a.skip(2), sq, lab, size))
                + defractionate(b, sq, lab, size));
        }
    }
}

proof fn lemma_label_index(size: usize, i: int)
    requires
        size == 5 || size == 6,
        0 <= i < size,
    ensures
        index_in_bytes(labels_spec(size), labels_spec(size)[i]) == i,
{
    let lab = labels_spec(size);
    lemma_index_in_bytes(lab, lab[i]);
    let j = index_in_bytes(lab, lab[i]);
    assert(lab.contains(lab[i]));
    if j < i {
        assert(lab[j] == lab[i]);
    }
}

proof fn lemma_defractionate_fractionate(pt: Seq<u8>, sq: Seq<u8>, size: usize)
    requires
        size == 5 || size == 6,
        sq.len() <= size * size,
        forall|k: int| 0 <= k < pt.len() ==> sq.contains(#[trigger] pt[k]),
    ensures
        defractionate(fractionate(pt, sq, labels_spec(size), size as int), sq, labels_spec(size), size as int)
            == bytes_as_chars(pt),
        fractionate(pt, sq, labels_spec(size), size as int).len() == 2 * pt.len(),
        forall|k: int|
            0 <= k < fractionate(pt, sq, labels_spec(size), size as int).len() ==> labels_spec(size).contains(
                #[trigger] fractionate(pt, sq, labels_spec(size), size as int)[k],
            ),
    decreases pt.len(),
{
    let lab = labels_spec(size);
    let sz = size as int;
    if pt.len() > 0 {
        let t = pt.drop_last();
        assert forall|k: int| 0 <= k < t.len() implies sq.contains(#[trigger] t[k]) by {
            assert(t[k] == pt[k]);
        }
        lemma_defractionate_fractionate(t, sq, size);
        let ch = pt.last();
        assert(sq.contains(pt[pt.len() - 1]));
        lemma_index_in_bytes(sq, ch);
        let idx = index_in_bytes(sq, ch);
        assert(idx < sz * sz);
        let r = idx / sz;
        let c = idx % sz;
        assert(0 <= r < sz) by (nonlinear_arith)
            requires
                0 <= idx < sz * sz,
                sz > 0,
                r == idx / sz,
        ;
        assert(0 <= c < sz);
        let pair = seq![lab[r], lab[c]];
        let ft = fractionate(t, sq, lab, sz);
        assert(fractionate(pt, sq, lab, sz) == ft + pair);
        lemma_defractionate_concat(ft, pair, sq, lab, sz);
        lemma_label_index(size, r);
        lemma_label_index(size, c);
        vstd::arithmetic::div_mod::lemma_fundamental_div_mod(idx, sz);
        assert(r * sz + c == idx) by (nonlinear_arith)
            requires
                idx == sz * (idx / sz) + idx % sz,
                r == idx / sz,
                c == idx % sz,
        ;
        assert(pair.skip(2) =~= Seq::<u8>::empty());
        assert(pair[0] == lab[r] && pair[1] == lab[c]);
        assert(index_in_bytes(lab, pair[0]) == r);
        assert(index_in_bytes(lab, pair[1]) == c);
        assert(lab.len() == sz);
        assert(sq[idx] == ch);
        assert(defractionate(pair.skip(2), sq, lab, sz) == Seq::<char>::empty());
        assert(defractionate(pair, sq, lab, sz) == seq![sq[r * sz + c] as char] + defractionate(
            pair.skip(2),
            sq,
            lab,
            sz,
        ));
        assert(defractionate(pair, sq, lab, sz) =~= seq![ch as char]);
        assert(bytes_as_chars(pt) =~= bytes_as_chars(t) + seq![ch as char]);
        let f = fractionate(pt, sq, lab, sz);
        assert forall|k: int| 0 <= k < f.len() implies lab.contains(#[trigger] f[k]) by {
            if k < ft.len() {
                assert(f[k] == ft[k]);
            } else if k == ft.len() {
                assert(f[k] == lab[r]);
            } else {
                assert(f[k] == lab[c]);
            }
        }
    } else {
        assert(fractionate(pt, sq, lab, sz) =~= Seq::<u8>::empty());
        assert(bytes_as_chars(pt) =~= Seq::<char>::empty());
    }
}

/// ADFGVX decryption undoes ADFGVX encryption: with a non-empty key,
/// decrypting the encryption of a text gives back its plaintext symbols (the
/// letters and digits the square holds, upper-cased, J as I in the 5×5
/// square).
pub proof fn lemma_adfgvx_roundtrip(text: Seq<char>, size: usize, square: Seq<char>, keyword: Seq<char>)
    requires
        size == 5 || size == 6,
        key_bytes_spec(keyword).len() > 0,
        keyword.len() <= usize::MAX,
    ensures
        adfgvx_encrypt_spec(text, size, square, keyword) is Ok,
        adfgvx_decrypt_spec(adfgvx_encrypt_spec(text, size, square, keyword)->Ok_0, size, square, keyword)
            == Ok::<Seq<char>, Seq<char>>(
            bytes_as_chars(clean_spec(text, build_square_spec(square, size), size)),
        ),
{
    let key = key_bytes_spec(keyword);
    lemma_key_bytes_len(keyword);
    let sq = build_square_spec(square, size);
    let lab = labels_spec(size);
    let pt = clean_spec(text, sq, size);
    lemma_square_len(square, size);
    lemma_clean_in_square(text, sq, size);
    lemma_defractionate_fractionate(pt, sq, size);
    let frac = fractionate(pt, sq, lab, size as int);
    let t = transpose_encrypt_spec(frac, key);
    lemma_key_order(key);
    lemma_columns_in_elements(frac, key.len() as int, key_order_spec(key), |b: u8| lab.contains(b));
    lemma_label_bytes_of_labels(t, lab, size);
    lemma_transpose_roundtrip(frac, key);
}

} // verus!
