//! The Bifid cipher: a 5×5 Polybius square (I and J merged) built from a
//! keyword, with the rows and columns of the letters fractionated.
use vstd::prelude::*;
use vstd::set_lib::set_int_range;
use crate::basex::{index_in, lemma_index_in, lemma_index_in_distinct};
use crate::text::{chars_of, is_alpha, is_ascii_alpha, push_char, str_to_uppercase, unicode_upper};

verus! {

/// `J` counts as `I`.
pub open spec fn merge_j(c: char) -> char {
    if c == 'J' {
        'I'
    } else {
        c
    }
}

/// The square built from `cs`: each upper-case ASCII letter (J as I) in
/// order of first appearance.
pub open spec fn square_from(cs: Seq<char>) -> Seq<char>
    decreases cs.len(),
{
    if cs.len() == 0 {
        Seq::empty()
    } else {
        let sq = square_from(cs.drop_last());
        let c = merge_j(cs.last());
        if 'A' <= c && c <= 'Z' && !sq.contains(c) {
            sq.push(c)
        } else {
            sq
        }
    }
}

/// `A` to `Z`.
pub open spec fn upper_alphabet() -> Seq<char> {
    Seq::new(26, |k: int| (65 + k) as char)
}

/// The square of a keyword: the keyword upper-cased, then the alphabet.
pub open spec fn square_spec(keyword: Seq<char>) -> Seq<char> {
    square_from(unicode_upper(keyword) + upper_alphabet())
}

/// A square: 25 distinct upper-case letters, no `J`.
pub open spec fn square_wf(sq: Seq<char>) -> bool {
    &&& sq.len() == 25
    &&& sq.no_duplicates()
    &&& forall|i: int| 0 <= i < sq.len() ==> 'A' <= #[trigger] sq[i] && sq[i] <= 'Z' && sq[i] != 'J'
}

proof fn lemma_square_len(sq: Seq<char>)
    requires
        sq.no_duplicates(),
        forall|i: int| 0 <= i < sq.len() ==> 'A' <= #[trigger] sq[i] && sq[i] <= 'Z' && sq[i] != 'J',
        forall|k: int| 0 <= k < 26 && k != 9 ==> sq.contains(#[trigger] ((65 + k) as char)),
    ensures
        sq.len() == 25,
{
    let t = sq.map_values(|c: char| c as int - 65);
    assert(t.no_duplicates()) by {
        assert forall|i: int, j: int| 0 <= i < t.len() && 0 <= j < t.len() && i != j implies t[i]
            != t[j] by {
            assert(sq[i] != sq[j]);
        }
    }
    let u = set_int_range(0, 26).remove(9);
    assert(t.to_set() =~= u) by {
        assert forall|x: int| t.to_set().contains(x) implies u.contains(x) by {
            let i = choose|i: int| 0 <= i < t.len() && t[i] == x;
            assert('A' <= sq[i] && sq[i] <= 'Z' && sq[i] != 'J');
        }
        assert forall|x: int| u.contains(x) implies t.to_set().contains(x) by {
            assert(sq.contains((65 + x) as char));
            let i = choose|i: int| 0 <= i < sq.len() && sq[i] == (65 + x) as char;
            assert(t[i] == x);
        }
    }
    t.unique_seq_to_set();
    vstd::set_lib::lemma_int_range(0, 26);
    assert(set_int_range(0, 26).contains(9));
}

/// One step of building a square: add the letter `raw` (J as I) unless it
/// is no upper-case letter or already there.
pub open spec fn square_step(sq: Seq<char>, raw: char) -> Seq<char> {
    let c = merge_j(raw);
    if 'A' <= c && c <= 'Z' && !sq.contains(c) {
        sq.push(c)
    } else {
        sq
    }
}

/// What a square under construction keeps: distinct letters other than J,
/// and `seen` telling which letters are in.
pub open spec fn square_partial(sq: Seq<char>, seen: Seq<bool>) -> bool {
    &&& seen.len() == 26
    &&& sq.no_duplicates()
    &&& forall|q: int| 0 <= q < sq.len() ==> 'A' <= #[trigger] sq[q] && sq[q] <= 'Z' && sq[q] != 'J'
    &&& forall|k: int| 0 <= k < 26 ==> seen[k] == sq.contains(#[trigger] ((65 + k) as char))
}

fn add_letter(sq: &mut Vec<char>, seen: &mut [bool; 26], raw: char)
    requires
        square_partial(old(sq)@, old(seen)@),
    ensures
        square_partial(final(sq)@, final(seen)@),
        final(sq)@ == square_step(old(sq)@, raw),
{
    let c = if raw == 'J' {
        'I'
    } else {
        raw
    };
    if 'A' <= c && c <= 'Z' {
        let v = #[verifier::truncate] (c as u32);
        assert(v as int == c as int) by {
            assert(c as int <= 90);
        }
        let idx = (v - 65) as usize;
        assert((65 + idx) as char == c);
        if !seen[idx] {
            let ghost before = sq@;
            let ghost seen0 = seen@;
            assert(!before.contains(c));
            sq.push(c);
            seen[idx] = true;
            proof {
                assert forall|k: int| 0 <= k < 26 implies seen@[k] == sq@.contains(
                    #[trigger] ((65 + k) as char),
                ) by {
                    if k != idx {
                        assert((65 + k) as char != c);
                        assert(seen@[k] == seen0[k]);
                        if sq@.contains((65 + k) as char) {
                            let q = choose|q: int| 0 <= q < sq.len() && sq@[q] == (65 + k) as char;
                            assert(before[q] == (65 + k) as char);
                        }
                        if before.contains((65 + k) as char) {
                            let q = choose|q: int| 0 <= q < before.len() && before[q] == (65 + k) as char;
                            assert(sq@[q] == (65 + k) as char);
                        }
                    } else {
                        assert(sq@[before.len() as int] == c);
                    }
                }
            }
        } else {
            assert(sq@.contains((65 + idx) as char));
        }
    }
}

/// Build the Bifid square from a keyword: the keyword's letters (upper-cased,
/// J as I) in order of first appearance, then the rest of the alphabet.
pub fn square(keyword: &str) -> (sq: Vec<char>)
    ensures
        sq@ == square_spec(keyword@),
        square_wf(sq@),
{
    let up = str_to_uppercase(keyword);
    let kc = chars_of(up.as_str());
    let mut seen: [bool; 26] = [false; 26];
    let mut sq: Vec<char> = Vec::new();
    let ghost all = unicode_upper(keyword@) + upper_alphabet();
    let mut i: usize = 0;
    assert(kc@.take(0) =~= Seq::<char>::empty());
    assert(square_partial(sq@, seen@));
    while i < kc.len()
        invariant
            i <= kc.len(),
            kc@ == unicode_upper(keyword@),
            sq@ == square_from(kc@.take(i as int)),
            square_partial(sq@, seen@),
        decreases kc.len() - i,
    {
        assert(kc@.take(i + 1).drop_last() =~= kc@.take(i as int));
        add_letter(&mut sq, &mut seen, kc[i]);
        i += 1;
    }
    assert(kc@.take(kc.len() as int) =~= kc@);
    let n = kc.len();
    let mut k: u8 = 0;
    assert(all.take(n as int) =~= kc@);
    while k < 26
        invariant
            k <= 26,
            n == kc.len(),
            all == kc@ + upper_alphabet(),
            sq@ == square_from(all.take(n + k)),
            square_partial(sq@, seen@),
            forall|j: int| 0 <= j < k && j != 9 ==> sq@.contains(#[trigger] ((65 + j) as char)),
        decreases 26 - k,
    {
        let raw = (65 + k) as char;
        assert(all[n + k] == raw);
        assert(all.take(n + k + 1).drop_last() =~= all.take(n + k));
        let ghost before = sq@;
        add_letter(&mut sq, &mut seen, raw);
        proof {
            assert(raw as int == 65 + k);
            if k != 9 {
                assert(merge_j(raw) == raw);
                if !before.contains(raw) {
                    assert(sq@[before.len() as int] == raw);
                }
                assert(sq@.contains(raw));
            }
            assert forall|j: int| 0 <= j < k + 1 && j != 9 implies sq@.contains(
                #[trigger] ((65 + j) as char),
            ) by {
                if j < k {
                    assert(before.contains((65 + j) as char));
                    let q = choose|q: int| 0 <= q < before.len() && before[q] == (65 + j) as char;
                    assert(sq@[q] == before[q]);
                }
            }
        }
        k += 1;
    }
    assert(all.take(n + 26) =~= all);
    proof {
        lemma_square_len(sq@);
    }
    sq
}

/// The row and column of a letter (J as I) in the square.
pub open spec fn coords_spec(sq: Seq<char>, c: char) -> Option<(int, int)> {
    match index_in(sq, merge_j(c)) {
        Some(i) => Some((i as int / 5, i as int % 5)),
        None => None,
    }
}

/// The row and column of `c` (J as I) in the square.
pub fn coords(sq: &[char], c: char) -> (r: Option<(usize, usize)>)
    ensures
        match (r, coords_spec(sq@, c)) {
            (Some((a, b)), Some((x, y))) => a == x && b == y,
            (None, None) => true,
            _ => false,
        },
{
    let m = if c == 'J' {
        'I'
    } else {
        c
    };
    assert(m == merge_j(c));
    proof {
        lemma_index_in(sq@, m);
    }
    let mut i: usize = 0;
    while i < sq.len()
        invariant
            i <= sq.len(),
            m == merge_j(c),
            forall|k: int| 0 <= k < i ==> sq@[k] != m,
        decreases sq.len() - i,
    {
        if sq[i] == m {
            proof {
                lemma_index_in(sq@, m);
                match index_in(sq@, m) {
                    Some(j) => {
                        if j < i {
                            assert(sq@[j as int] != m);
                        } else if j > i {
                            assert(sq@[i as int] != m);
                        }
                        assert(j == i);
                    },
                    None => {
                        assert(sq@.contains(m));
                    },
                }
            }
            return Some((i / 5, i % 5));
        }
        i += 1;
    }
    proof {
        match index_in(sq@, m) {
            Some(j) => {
                assert(sq@[j as int] == m);
            },
            None => {},
        }
    }
    None
}

/// The coordinates of the ASCII letters of `cs` that are in the square.
pub open spec fn coords_of(sq: Seq<char>, cs: Seq<char>) -> Seq<(int, int)>
    decreases cs.len(),
{
    if cs.len() == 0 {
        Seq::empty()
    } else {
        let rest = coords_of(sq, cs.drop_last());
        if is_alpha(cs.last()) && coords_spec(sq, cs.last()) is Some {
            rest.push(coords_spec(sq, cs.last())->Some_0)
        } else {
            rest
        }
    }
}

/// The coordinates of the letters of `text` (upper-cased).
pub open spec fn clean_coords_spec(sq: Seq<char>, text: Seq<char>) -> Seq<(int, int)> {
    coords_of(sq, unicode_upper(text))
}

/// The views of coordinate pairs.
pub open spec fn pairs_int(v: Seq<(usize, usize)>) -> Seq<(int, int)> {
    v.map_values(|p: (usize, usize)| (p.0 as int, p.1 as int))
}

/// The coordinates of the letters of `text`, upper-cased, in the square.
pub fn clean_coords(sq: &[char], text: &str) -> (out: Vec<(usize, usize)>)
    ensures
        pairs_int(out@) == clean_coords_spec(sq@, text@),
        sq@.len() <= 25 ==> forall|k: int| 0 <= k < out.len() ==> (#[trigger] out@[k]).0 < 5 && out@[k].1 < 5,
{
    let up = str_to_uppercase(text);
    let cs = chars_of(up.as_str());
    let mut out: Vec<(usize, usize)> = Vec::new();
    let mut i: usize = 0;
    assert(cs@.take(0) =~= Seq::<char>::empty());
    assert(pairs_int(out@) =~= Seq::<(int, int)>::empty());
    while i < cs.len()
        invariant
            i <= cs.len(),
            cs@ == unicode_upper(text@),
            pairs_int(out@) == coords_of(sq@, cs@.take(i as int)),
            sq@.len() <= 25 ==> forall|k: int| 0 <= k < out.len() ==> (#[trigger] out@[k]).0 < 5 && out@[k].1 < 5,
        decreases cs.len() - i,
    {
        let c = cs[i];
        assert(cs@.take(i + 1).drop_last() =~= cs@.take(i as int));
        assert(cs@.take(i + 1).last() == c);
        if is_ascii_alpha(c) {
            match coords(sq, c) {
                Some(p) => {
                    proof {
                        lemma_index_in(sq@, merge_j(c));
                    }
                    let ghost before = out@;
                    out.push(p);
                    assert(pairs_int(out@) =~= pairs_int(before).push((p.0 as int, p.1 as int)));
                },
                None => {},
            }
        }
        i += 1;
    }
    assert(cs@.take(cs.len() as int) =~= cs@);
    out
}

/// The `k`-th entry of the rows of all letters followed by their columns.
pub open spec fn combined(co: Seq<(int, int)>, k: int) -> int {
    if k < co.len() {
        co[k].0
    } else {
        co[k - co.len()].1
    }
}

/// The `k`-th entry of the row, column, row, column ... of the letters.
pub open spec fn interleaved(co: Seq<(int, int)>, k: int) -> int {
    if k % 2 == 0 {
        co[k / 2].0
    } else {
        co[k / 2].1
    }
}

/// Bifid encryption of letters at `co`: the rows, then the columns, read in
/// pairs as new coordinates.
pub open spec fn bifid_encode_spec(sq: Seq<char>, co: Seq<(int, int)>) -> Seq<char> {
    Seq::new(co.len(), |i: int| sq[combined(co, 2 * i) * 5 + combined(co, 2 * i + 1)])
}

/// Bifid decryption of letters at `co`: the coordinates written out in
/// order, the first half giving the rows and the second the columns.
pub open spec fn bifid_decode_spec(sq: Seq<char>, co: Seq<(int, int)>) -> Seq<char> {
    Seq::new(co.len(), |i: int| sq[interleaved(co, i) * 5 + interleaved(co, co.len() + i)])
}

/// Bifid encryption of the letters of `text` with the square of `keyword`.
pub fn bifid_encode(text: &str, keyword: &str) -> (out: String)
    ensures
        out@ == bifid_encode_spec(
            square_spec(keyword@),
            clean_coords_spec(square_spec(keyword@), text@),
        ),
{
    let sq = square(keyword);
    let cs = clean_coords(&sq, text);
    let n = cs.len();
    let ghost co = pairs_int(cs@);
    let mut out = String::new();
    let mut i: usize = 0;
    while i < n
        invariant
            i <= n,
            n == cs.len(),
            co == pairs_int(cs@),
            square_wf(sq@),
            forall|k: int| 0 <= k < cs.len() ==> (#[trigger] cs@[k]).0 < 5 && cs@[k].1 < 5,
            out@ == bifid_encode_spec(sq@, co).take(i as int),
        decreases n - i,
    {
        let a = if i < n - i {
            cs[i + i].0
        } else {
            cs[i - (n - i)].1
        };
        let b = if i + 1 < n - i {
            cs[i + i + 1].0
        } else {
            cs[i + 1 - (n - i)].1
        };
        assert(a as int == combined(co, 2 * i));
        assert(b as int == combined(co, 2 * i + 1));
        let ch = sq[a * 5 + b];
        push_char(&mut out, ch);
        assert(bifid_encode_spec(sq@, co).take(i + 1) =~= bifid_encode_spec(sq@, co).take(i as int).push(ch));
        i += 1;
    }
    assert(bifid_encode_spec(sq@, co).take(n as int) =~= bifid_encode_spec(sq@, co));
    out
}

/// Bifid decryption of the letters of `text` with the square of `keyword`.
pub fn bifid_decode(text: &str, keyword: &str) -> (out: String)
    ensures
        out@ == bifid_decode_spec(
            square_spec(keyword@),
            clean_coords_spec(square_spec(keyword@), text@),
        ),
{
    let sq = square(keyword);
    let cs = clean_coords(&sq, text);
    let n = cs.len();
    let ghost co = pairs_int(cs@);
    let mut out = String::new();
    let mut i: usize = 0;
    while i < n
        invariant
            i <= n,
            n == cs.len(),
            co == pairs_int(cs@),
            square_wf(sq@),
            forall|k: int| 0 <= k < cs.len() ==> (#[trigger] cs@[k]).0 < 5 && cs@[k].1 < 5,
            out@ == bifid_decode_spec(sq@, co).take(i as int),
        decreases n - i,
    {
        let a = if i % 2 == 0 {
            cs[i / 2].0
        } else {
            cs[i / 2].1
        };
        let half = n / 2 + i / 2 + (n % 2 + i % 2) / 2;
        let odd = (n % 2 + i % 2) % 2 == 1;
        assert(half as int == (n + i) / 2 && odd == ((n + i) % 2 == 1));
        let b = if !odd {
            cs[half].0
        } else {
            cs[half].1
        };
        assert(a as int == interleaved(co, i as int));
        assert(b as int == interleaved(co, n + i));
        let ch = sq[a * 5 + b];
        push_char(&mut out, ch);
        assert(bifid_decode_spec(sq@, co).take(i + 1) =~= bifid_decode_spec(sq@, co).take(i as int).push(ch));
        i += 1;
    }
    assert(bifid_decode_spec(sq@, co).take(n as int) =~= bifid_decode_spec(sq@, co));
    out
}

proof fn lemma_coords_of_square_letters(sq: Seq<char>, cs: Seq<char>, ps: Seq<int>)
    requires
        square_wf(sq),
        cs.len() == ps.len(),
        forall|i: int| 0 <= i < ps.len() ==> 0 <= #[trigger] ps[i] < 25 && cs[i] == sq[ps[i]],
    ensures
        coords_of(sq, cs) == ps.map_values(|p: int| (p / 5, p % 5)),
    decreases cs.len(),
{
    if cs.len() > 0 {
        let n = cs.len() - 1;
        assert forall|i: int| 0 <= i < ps.drop_last().len() implies 0 <= #[trigger] ps.drop_last()[i] < 25
            && cs.drop_last()[i] == sq[ps.drop_last()[i]] by {
            assert(ps.drop_last()[i] == ps[i]);
        }
        lemma_coords_of_square_letters(sq, cs.drop_last(), ps.drop_last());
        let c = cs.last();
        assert(c == sq[ps[n]]);
        assert('A' <= sq[ps[n]] && sq[ps[n]] <= 'Z' && sq[ps[n]] != 'J');
        assert(is_alpha(c));
        assert(merge_j(c) == c);
        lemma_index_in_distinct(sq, ps[n]);
        assert(coords_spec(sq, c) == Some((ps[n] / 5, ps[n] % 5)));
        assert(ps.map_values(|p: int| (p / 5, p % 5)) =~= ps.drop_last().map_values(|p: int| (p / 5, p % 5)).push(
            (ps[n] / 5, ps[n] % 5),
        ));
    } else {
        assert(ps.map_values(|p: int| (p / 5, p % 5)) =~= Seq::<(int, int)>::empty());
    }
}

/// Bifid decryption undoes Bifid encryption: for a square and letters at
/// coordinates `co`, reading back the coordinates of the encrypted letters
/// and decrypting them gives the letters at `co`.
pub proof fn lemma_bifid_roundtrip(sq: Seq<char>, co: Seq<(int, int)>)
    requires
        square_wf(sq),
        forall|i: int| 0 <= i < co.len() ==> 0 <= (#[trigger] co[i]).0 < 5 && 0 <= co[i].1 < 5,
    ensures
        bifid_decode_spec(sq, coords_of(sq, bifid_encode_spec(sq, co))) == co.map_values(
            |p: (int, int)| sq[p.0 * 5 + p.1],
        ),
{
    let n = co.len() as int;
    let enc = bifid_encode_spec(sq, co);
    let ps = Seq::new(n as nat, |i: int| combined(co, 2 * i) * 5 + combined(co, 2 * i + 1));
    assert forall|k: int| 0 <= k < 2 * n implies 0 <= #[trigger] combined(co, k) < 5 by {
        if k < n {
            assert(0 <= co[k].0 < 5);
        } else {
            assert(0 <= co[k - n].1 < 5);
        }
    }
    assert forall|i: int| 0 <= i < ps.len() implies 0 <= #[trigger] ps[i] < 25 && enc[i] == sq[ps[i]] by {
        assert(0 <= combined(co, 2 * i) < 5);
        assert(0 <= combined(co, 2 * i + 1) < 5);
    }
    lemma_coords_of_square_letters(sq, enc, ps);
    let co2 = coords_of(sq, enc);
    assert forall|k: int| 0 <= k < 2 * n implies #[trigger] interleaved(co2, k) == combined(co, k) by {
        let i = k / 2;
        assert(0 <= i < n);
        let a = combined(co, 2 * i);
        let b = combined(co, 2 * i + 1);
        assert(0 <= a < 5 && 0 <= b < 5);
        assert(co2[i] == (ps[i] / 5, ps[i] % 5));
        assert(ps[i] == a * 5 + b);
        vstd::arithmetic::div_mod::lemma_fundamental_div_mod_converse(ps[i], 5, a, b);
        if k % 2 == 0 {
            assert(k == 2 * i);
        } else {
            assert(k == 2 * i + 1);
        }
    }
    let dec = bifid_decode_spec(sq, co2);
    assert forall|i: int| 0 <= i < n implies dec[i] == sq[co[i].0 * 5 + co[i].1] by {
        assert(interleaved(co2, i) == combined(co, i));
        assert(interleaved(co2, n + i) == combined(co, n + i));
    }
    assert(dec =~= co.map_values(|p: (int, int)| sq[p.0 * 5 + p.1]));
}

} // verus!
