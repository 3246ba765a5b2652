//! Base64 steganography: a padded Base64 line leaves the low bits of its
//! last data character unused (2 bits under one `=`, 4 under two); those
//! bits, line after line, spell hidden bytes.
use vstd::prelude::*;
use crate::hexcodec::{hex_encode, hex_text};
use crate::basex::position;
use crate::classic::{bit_weight, octets};
use crate::text::{chars_of, is_white, string_from_utf8_lossy, trim_chars, trim_spec, utf8_lossy};

verus! {

/// The lines of `cs` as `str::lines` splits them: at each `\n`, a `\r`
/// before it dropped, and no empty line after a final `\n`.
pub open spec fn lines_state(cs: Seq<char>) -> (Seq<Seq<char>>, Seq<char>)
    decreases cs.len(),
{
    if cs.len() == 0 {
        (Seq::empty(), Seq::empty())
    } else {
        let (done, cur) = lines_state(cs.drop_last());
        if cs.last() == '\n' {
            (done.push(strip_cr(cur)), Seq::empty())
        } else {
            (done, cur.push(cs.last()))
        }
    }
}

/// `s` without a final `\r`.
pub open spec fn strip_cr(s: Seq<char>) -> Seq<char> {
    if s.len() > 0 && s.last() == '\r' {
        s.drop_last()
    } else {
        s
    }
}

/// The lines of a text.
pub open spec fn lines_of(cs: Seq<char>) -> Seq<Seq<char>> {
    let (done, cur) = lines_state(cs);
    if cur.len() > 0 {
        done.push(strip_cr(cur))
    } else {
        done
    }
}

/// The standard Base64 alphabet.
pub open spec fn std_alphabet() -> Seq<char> {
    "ABCDEFGHIJKLMNOPQRSTUVWXYZabcdefghijklmnopqrstuvwxyz0123456789+/"@
}

/// The URL-safe Base64 alphabet.
pub open spec fn url_alphabet() -> Seq<char> {
    "ABCDEFGHIJKLMNOPQRSTUVWXYZabcdefghijklmnopqrstuvwxyz0123456789-_"@
}

/// The number of trailing `=` of `t`.
pub open spec fn trailing_eq(t: Seq<char>) -> nat
    decreases t.len(),
{
    if t.len() > 0 && t.last() == '=' {
        1 + trailing_eq(t.drop_last())
    } else {
        0
    }
}

/// The position of `c` in the alphabet.
pub open spec fn alpha_index(alph: Seq<char>, c: char) -> Option<int> {
    match crate::basex::index_in(alph, c) {
        Some(i) => Some(i as int),
        None => None,
    }
}

/// The spare bits of one trimmed line, most significant first.
pub open spec fn line_bits(t: Seq<char>, alph: Seq<char>) -> Seq<int> {
    let pad = trailing_eq(t);
    let spare: int = if pad == 1 {
        2
    } else if pad == 2 {
        4
    } else {
        0
    };
    let data = t.take(t.len() - pad);
    if t.len() == 0 || spare == 0 || data.len() == 0 {
        Seq::empty()
    } else {
        match alpha_index(alph, data.last()) {
            Some(v) => Seq::new(spare as nat, |k: int| (v / crate::classic::bit_weight(spare, k)) % 2),
            None => Seq::empty(),
        }
    }
}

/// The spare bits of all lines, in order.
pub open spec fn all_bits(lines: Seq<Seq<char>>, alph: Seq<char>) -> Seq<int>
    decreases lines.len(),
{
    if lines.len() == 0 {
        Seq::empty()
    } else {
        all_bits(lines.drop_last(), alph) + line_bits(trim_spec(lines.last()), alph)
    }
}

/// What the extraction finds.
pub struct StegoData {
    /// The hidden bytes (complete groups of eight bits).
    pub bytes: Vec<u8>,
    /// The bytes as text.
    pub text: String,
    /// The bytes in hex.
    pub hex: String,
    /// The number of hidden bits found.
    pub bits: usize,
}

/// Append the spare bits of one line.
fn push_line_bits(bits: &mut Vec<u8>, line: &Vec<char>, alph: &Vec<char>)
    requires
        forall|q: int| 0 <= q < old(bits)@.len() ==> old(bits)@[q] <= 1,
    ensures
        final(bits)@.map_values(|b: u8| b as int) == old(bits)@.map_values(|b: u8| b as int) + line_bits(
            trim_spec(line@),
            alph@,
        ),
        forall|q: int| 0 <= q < final(bits)@.len() ==> final(bits)@[q] <= 1,
{
    let t = trim_chars(line);
    let ghost before = bits@;
    let mut pad: usize = 0;
    assert(t@.take(t.len() as int) =~= t@);
    while pad < t.len() && t[t.len() - 1 - pad] == '='
        invariant
            pad <= t.len(),
            trailing_eq(t@) == pad + trailing_eq(t@.take(t.len() - pad)),
        decreases t.len() - pad,
    {
        assert(t@.take(t.len() - pad).drop_last() =~= t@.take(t.len() - pad - 1));
        pad += 1;
    }
    proof {
        if pad < t.len() {
            assert(t@.take(t.len() - pad).last() == t@[t.len() - 1 - pad]);
        }
        assert(trailing_eq(t@.take(t.len() - pad)) == 0);
    }
    let spare: u32 = if pad == 1 {
        2
    } else if pad == 2 {
        4
    } else {
        0
    };
    if t.len() == 0 || spare == 0 || pad >= t.len() {
        proof {
            assert(bits@.map_values(|b: u8| b as int) =~= before.map_values(|b: u8| b as int) + Seq::<int>::empty());
        }
        return;
    }
    let last = t[t.len() - pad - 1];
    assert(t@.take(t.len() - pad).last() == last);
    match position(alph.as_slice(), last) {
        Some(v) => {
            let weights: [u32; 4] = [8, 4, 2, 1];
            let ghost want = line_bits(t@, alph@);
            let mut k: u32 = 0;
            while k < spare
                invariant
                    k <= spare,
                    spare == 2 || spare == 4,
                    forall|q: int| 0 <= q < 4 ==> weights@[q] == bit_weight(4, q),
                    want == Seq::new(spare as nat, |j: int| (v as int / bit_weight(spare as int, j)) % 2),
                    bits@.map_values(|b: u8| b as int) == before.map_values(|b: u8| b as int) + want.take(k as int),
                    forall|q: int| 0 <= q < bits@.len() ==> bits@[q] <= 1,
                decreases spare - k,
            {
                let wi = (4 - spare + k) as usize;
                assert(bit_weight(spare as int, k as int) == bit_weight(4, wi as int));
                assert(weights@[wi as int] > 0);
                let b = ((v as u64 / weights[wi] as u64) % 2) as u8;
                let ghost pre = bits@;
                bits.push(b);
                proof {
                    assert(bits@.map_values(|b: u8| b as int) =~= pre.map_values(|b: u8| b as int).push(b as int));
                    assert(want.take(k + 1) =~= want.take(k as int).push(want[k as int]));
                }
                k += 1;
            }
            assert(want.take(spare as int) =~= want);
        },
        None => {
            assert(bits@.map_values(|b: u8| b as int) =~= before.map_values(|b: u8| b as int) + Seq::<int>::empty());
        },
    }
}

/// Extract the bytes hidden in the spare bits of padded Base64 lines (the
/// standard alphabet, or with `url` the URL-safe one).
pub fn base64_stego_extract(text: &str, url: bool) -> (r: StegoData)
    ensures
        ({
            let alph = if url {
                url_alphabet()
            } else {
                std_alphabet()
            };
            let bits = all_bits(lines_of(text@), alph);
            &&& r.bits == bits.len()
            &&& r.bytes@ == octets(bits)
            &&& r.text@ == utf8_lossy(r.bytes@)
            &&& r.hex@ == hex_text(r.bytes@)
        }),
{
    let alph: Vec<char> = if url {
        chars_of("ABCDEFGHIJKLMNOPQRSTUVWXYZabcdefghijklmnopqrstuvwxyz0123456789-_")
    } else {
        chars_of("ABCDEFGHIJKLMNOPQRSTUVWXYZabcdefghijklmnopqrstuvwxyz0123456789+/")
    };
    let cs = chars_of(text);
    let mut bits: Vec<u8> = Vec::new();
    let mut cur: Vec<char> = Vec::new();
    let mut i: usize = 0;
    assert(cs@.take(0) =~= Seq::<char>::empty());
    assert(bits@.map_values(|b: u8| b as int) =~= Seq::<int>::empty());
    while i < cs.len()
        invariant
            i <= cs.len(),
            cs@ == text@,
            lines_state(cs@.take(i as int)).1 == cur@,
            bits@.map_values(|b: u8| b as int) == all_bits(lines_state(cs@.take(i as int)).0, alph@),
            forall|q: int| 0 <= q < bits@.len() ==> bits@[q] <= 1,
        decreases cs.len() - i,
    {
        let c = cs[i];
        assert(cs@.take(i + 1).drop_last() =~= cs@.take(i as int));
        assert(cs@.take(i + 1).last() == c);
        if c == '\n' {
            let line = strip_cr_exec(&cur);
            push_line_bits(&mut bits, &line, &alph);
            proof {
                let done = lines_state(cs@.take(i as int)).0;
                assert(done.push(strip_cr(cur@)).drop_last() =~= done);
            }
            cur = Vec::new();
        } else {
            cur.push(c);
        }
        i += 1;
    }
    assert(cs@.take(cs.len() as int) =~= cs@);
    if cur.len() > 0 {
        let line = strip_cr_exec(&cur);
        push_line_bits(&mut bits, &line, &alph);
        proof {
            let done = lines_state(cs@).0;
            assert(done.push(strip_cr(cur@)).drop_last() =~= done);
        }
    }
    let ghost all = bits@.map_values(|b: u8| b as int);
    let n = bits.len();
    let mut bytes: Vec<u8> = Vec::new();
    let mut j: usize = 0;
    assert(all.skip(0) =~= all);
    while n - j >= 8
        invariant
            j <= n,
            n == bits.len(),
            all == bits@.map_values(|b: u8| b as int),
            forall|q: int| 0 <= q < bits@.len() ==> bits@[q] <= 1,
            bytes@ + octets(all.skip(j as int)) == octets(all),
        decreases n - j,
    {
        let ghost rest = all.skip(j as int);
        let mut byte: u8 = 0;
        let mut k: usize = 0;
        while k < 8
            invariant
                k <= 8,
                j + 8 <= n,
                n == bits.len(),
                forall|q: int| 0 <= q < bits@.len() ==> bits@[q] <= 1,
                byte as int == crate::classic::partial_octet(rest, k as int),
                rest == all.skip(j as int),
                all == bits@.map_values(|b: u8| b as int),
                byte < crate::classic::ipow2_small(k as int),
            decreases 8 - k,
        {
            assert(rest[k as int] == bits@[j + k] as int);
            byte = byte * 2 + bits[j + k];
            k += 1;
        }
        proof {
            reveal_with_fuel(crate::classic::partial_octet, 9);
            assert(crate::classic::partial_octet(rest, 8) == crate::classic::octet_value(rest));
            assert(rest.skip(8) =~= all.skip(j + 8));
        }
        let ghost pre = bytes@;
        bytes.push(byte);
        assert(bytes@ + octets(all.skip(j + 8)) =~= pre + (seq![byte] + octets(rest.skip(8))));
        j += 8;
    }
    assert(octets(all.skip(j as int)) == Seq::<u8>::empty());
    assert(bytes@ + Seq::<u8>::empty() =~= bytes@);
    let text_out = string_from_utf8_lossy(bytes.as_slice());
    let hex = hex_encode(bytes.as_slice());
    proof {
        reveal_strlit("ABCDEFGHIJKLMNOPQRSTUVWXYZabcdefghijklmnopqrstuvwxyz0123456789-_");
        reveal_strlit("ABCDEFGHIJKLMNOPQRSTUVWXYZabcdefghijklmnopqrstuvwxyz0123456789+/");
    }
    StegoData { bytes, text: text_out, hex, bits: n }
}

fn strip_cr_exec(cur: &Vec<char>) -> (line: Vec<char>)
    ensures
        line@ == strip_cr(cur@),
{
    let mut line = cur.clone();
    if line.len() > 0 && line[line.len() - 1] == '\r' {
        line.pop();
    }
    assert(cur@.len() > 0 && cur@.last() == '\r' ==> line@ =~= cur@.drop_last());
    line
}

/// The character of value `v` in standard Base64 (RFC 4648): `A`-`Z` are
/// 0 to 25, `a`-`z` 26 to 51, `0`-`9` 52 to 61, then `+` and `/`.
pub open spec fn rfc4648_char(v: int) -> char {
    if v < 26 {
        ('A' as int + v) as char
    } else if v < 52 {
        ('a' as int + (v - 26)) as char
    } else if v < 62 {
        ('0' as int + (v - 52)) as char
    } else if v == 62 {
        '+'
    } else {
        '/'
    }
}

proof fn lemma_std_alphabet_chars()
    ensures
        std_alphabet().len() == 64,
        forall|k: int| 0 <= k < 64 ==> #[trigger] std_alphabet()[k] == rfc4648_char(k),
{
    reveal_strlit("ABCDEFGHIJKLMNOPQRSTUVWXYZabcdefghijklmnopqrstuvwxyz0123456789+/");
    assert forall|k: int| 0 <= k < 64 implies #[trigger] std_alphabet()[k] == rfc4648_char(k) by {
        assert(k == 0 || k == 1 || k == 2 || k == 3 || k == 4 || k == 5 || k == 6 || k == 7 || k == 8 || k == 9 || k == 10 || k == 11 || k == 12 || k == 13 || k == 14 || k == 15 || k == 16 || k == 17 || k == 18 || k == 19 || k == 20 || k == 21 || k == 22 || k == 23 || k == 24 || k == 25 || k == 26 || k == 27 || k == 28 || k == 29 || k == 30 || k == 31 || k == 32 || k == 33 || k == 34 || k == 35 || k == 36 || k == 37 || k == 38 || k == 39 || k == 40 || k == 41 || k == 42 || k == 43 || k == 44 || k == 45 || k == 46 || k == 47 || k == 48 || k == 49 || k == 50 || k == 51 || k == 52 || k == 53 || k == 54 || k == 55 || k == 56 || k == 57 || k == 58 || k == 59 || k == 60 || k == 61 || k == 62 || k == 63);
    }
}

/// The standard alphabet gives each character its RFC 4648 value: the
/// position found for the character of value `v` is `v`.
pub proof fn lemma_std_alphabet_values(v: int)
    requires
        0 <= v < 64,
    ensures
        alpha_index(std_alphabet(), rfc4648_char(v)) == Some(v),
{
    lemma_std_alphabet_chars();
    let a = std_alphabet();
    assert forall|i: int, j: int| 0 <= i < a.len() && 0 <= j < a.len() && i != j implies a[i] != a[j] by {
        assert(a[i] == rfc4648_char(i));
        assert(a[j] == rfc4648_char(j));
    }
    assert(a.no_duplicates());
    crate::basex::lemma_index_in_distinct(a, v);
    assert(a[v] == rfc4648_char(v));
}

/// The hidden bits of a line that ends in the standard character of value
/// `v` and then `==` are the low four bits of `v`, and with one `=` its low
/// two bits, most significant first: what a standard Base64 decoder leaves
/// unused of that character.
pub proof fn lemma_line_bits_are_low_bits(data: Seq<char>, v: int)
    requires
        0 <= v < 64,
    ensures
        line_bits(data.push(rfc4648_char(v)).push('=').push('='), std_alphabet()) == seq![
            (v / 8) % 2,
            (v / 4) % 2,
            (v / 2) % 2,
            v % 2,
        ],
        line_bits(data.push(rfc4648_char(v)).push('='), std_alphabet()) == seq![(v / 2) % 2, v % 2],
{
    let c = rfc4648_char(v);
    let d1 = data.push(c);
    let t1 = d1.push('=');
    let t2 = t1.push('=');
    assert(c != '=');
    assert(t2.drop_last() == t1);
    assert(t1.drop_last() == d1);
    assert(trailing_eq(d1) == 0);
    assert(trailing_eq(t1) == 1);
    assert(trailing_eq(t2) == 2);
    assert(t2.take(t2.len() - 2) =~= d1);
    assert(t1.take(t1.len() - 1) =~= d1);
    lemma_std_alphabet_values(v);
    assert(line_bits(t2, std_alphabet()) =~= seq![(v / 8) % 2, (v / 4) % 2, (v / 2) % 2, v % 2]);
    assert(line_bits(t1, std_alphabet()) =~= seq![(v / 2) % 2, v % 2]);
}

/// The URL-safe alphabet (RFC 4648, section 5) is the standard one with
/// `-` for value 62 and `_` for 63: the position found for each value's
/// character is that value.
pub proof fn lemma_url_alphabet_values(v: int)
    requires
        0 <= v < 64,
    ensures
        alpha_index(url_alphabet(), if v == 62 { '-' } else if v == 63 { '_' } else { rfc4648_char(v) }) == Some(v),
{
    reveal_strlit("ABCDEFGHIJKLMNOPQRSTUVWXYZabcdefghijklmnopqrstuvwxyz0123456789-_");
    let a = url_alphabet();
    let f = |k: int| if k == 62 { '-' } else if k == 63 { '_' } else { rfc4648_char(k) };
    assert forall|k: int| 0 <= k < 64 implies #[trigger] a[k] == f(k) by {
        assert(k == 0 || k == 1 || k == 2 || k == 3 || k == 4 || k == 5 || k == 6 || k == 7 || k == 8 || k == 9 || k == 10 || k == 11 || k == 12 || k == 13 || k == 14 || k == 15 || k == 16 || k == 17 || k == 18 || k == 19 || k == 20 || k == 21 || k == 22 || k == 23 || k == 24 || k == 25 || k == 26 || k == 27 || k == 28 || k == 29 || k == 30 || k == 31 || k == 32 || k == 33 || k == 34 || k == 35 || k == 36 || k == 37 || k == 38 || k == 39 || k == 40 || k == 41 || k == 42 || k == 43 || k == 44 || k == 45 || k == 46 || k == 47 || k == 48 || k == 49 || k == 50 || k == 51 || k == 52 || k == 53 || k == 54 || k == 55 || k == 56 || k == 57 || k == 58 || k == 59 || k == 60 || k == 61 || k == 62 || k == 63);
    }
    assert forall|i: int, j: int| 0 <= i < a.len() && 0 <= j < a.len() && i != j implies a[i] != a[j] by {
        assert(a[i] == f(i));
        assert(a[j] == f(j));
    }
    assert(a.no_duplicates());
    crate::basex::lemma_index_in_distinct(a, v);
    assert(a[v] == f(v));
}

} // verus!
