//! Classical ciphers and simple text codecs: Atbash, affine, A1Z26, Bacon,
//! Braille, binary text and bitwise byte operations.
use vstd::prelude::*;
use crate::error::CoreError;
use crate::text::{
    chars_of, decimal, is_alpha, is_ascii_alpha, is_ascii_digit, is_digit, push_char, push_decimal,
    push_signed, push_str, signed_decimal, str_to_lowercase, str_to_uppercase, to_upper, unicode_lower,
    unicode_upper, upper,
};

verus! {

// ---------------------------------------------------------------------------
// Atbash
// ---------------------------------------------------------------------------

/// Atbash of one character: `a`..`z` and `A`..`Z` are reversed, anything
/// else is kept.
pub open spec fn atbash_char(c: char) -> char {
    if 'a' <= c && c <= 'z' {
        (219 - c as int) as char
    } else if 'A' <= c && c <= 'Z' {
        (155 - c as int) as char
    } else {
        c
    }
}

fn atbash_one(c: char) -> (r: char)
    ensures
        r == atbash_char(c),
{
    if 'a' <= c && c <= 'z' {
        let v = #[verifier::truncate] (c as u32) as u8;
        assert(v as int == c as int) by {
            assert(c as int <= 122);
        }
        (219 - v) as char
    } else if 'A' <= c && c <= 'Z' {
        let v = #[verifier::truncate] (c as u32) as u8;
        assert(v as int == c as int) by {
            assert(c as int <= 90);
        }
        (155 - v) as char
    } else {
        c
    }
}

/// Atbash: reverse the alphabet of every ASCII letter.
pub fn atbash(text: &str) -> (out: String)
    ensures
        out@ == text@.map_values(|c: char| atbash_char(c)),
{
    let cs = chars_of(text);
    let mut out = String::new();
    let mut i: usize = 0;
    while i < cs.len()
        invariant
            i <= cs.len(),
            cs@ == text@,
            out@ == cs@.take(i as int).map_values(|c: char| atbash_char(c)),
        decreases cs.len() - i,
    {
        let r = atbash_one(cs[i]);
        push_char(&mut out, r);
        assert(cs@.take(i + 1).map_values(|c: char| atbash_char(c)) =~= cs@.take(i as int).map_values(
            |c: char| atbash_char(c),
        ).push(r));
        i += 1;
    }
    assert(cs@.take(cs.len() as int) =~= cs@);
    out
}

/// Atbash mirrors the alphabet: in the output of any text, a lowercase
/// letter `c` becomes the letter as far from `z` as `c` is from `a`, a
/// capital likewise from `Z`, and every other character stays.
pub proof fn lemma_atbash_mirrors(text: Seq<char>, k: int)
    requires
        0 <= k < text.len(),
    ensures
        ({
            let c = text[k];
            let o = text.map_values(|c: char| atbash_char(c))[k];
            &&& 'a' <= c <= 'z' ==> o as int == 'a' as int + 'z' as int - c as int
            &&& 'A' <= c <= 'Z' ==> o as int == 'A' as int + 'Z' as int - c as int
            &&& !('a' <= c <= 'z') && !('A' <= c <= 'Z') ==> o == c
        }),
{
    let c = text[k];
    if 'a' <= c && c <= 'z' {
        assert((219 - c as int) as char as int == 219 - c as int);
    } else if 'A' <= c && c <= 'Z' {
        assert((155 - c as int) as char as int == 155 - c as int);
    }
}

/// Atbash undoes itself: applied twice it gives back any text.
pub proof fn lemma_atbash_involution(text: Seq<char>)
    ensures
        text.map_values(|c: char| atbash_char(c)).map_values(|c: char| atbash_char(c)) == text,
{
    assert forall|k: int| 0 <= k < text.len() implies atbash_char(atbash_char(text[k])) == text[k] by {
        let c = text[k];
        if 'a' <= c && c <= 'z' {
            assert((219 - c as int) as char as int == 219 - c as int);
        } else if 'A' <= c && c <= 'Z' {
            assert((155 - c as int) as char as int == 155 - c as int);
        }
    }
    assert(text.map_values(|c: char| atbash_char(c)).map_values(|c: char| atbash_char(c)) =~= text);
}

// ---------------------------------------------------------------------------
// Affine
// ---------------------------------------------------------------------------

/// The smallest `x` in `[from, m)` with `a * x ≡ 1 (mod m)`.
pub open spec fn inverse_from(a: int, m: int, from: int) -> Option<int>
    decreases m - from,
{
    if from >= m {
        None
    } else if (a * from) % m == 1 {
        Some(from)
    } else {
        inverse_from(a, m, from + 1)
    }
}

/// The smallest `x` in `[1, m)` with `a * x ≡ 1 (mod m)`, if any.
pub open spec fn mod_inv_spec(a: int, m: int) -> Option<int> {
    inverse_from(a, m, 1)
}

/// The modular inverse of `a` modulo `m`: the smallest `x` in `[1, m)` with
/// `a * x ≡ 1 (mod m)`.
pub fn mod_inv(a: i64, m: i64) -> (r: Option<i64>)
    requires
        0 <= a,
        1 <= m,
        a * m <= i64::MAX,
    ensures
        match (r, mod_inv_spec(a as int, m as int)) {
            (Some(x), Some(y)) => x == y,
            (None, None) => true,
            _ => false,
        },
{
    let mut x: i64 = 1;
    while x < m
        invariant
            1 <= x,
            x <= m || m == 1,
            0 <= a,
            a * m <= i64::MAX,
            mod_inv_spec(a as int, m as int) == inverse_from(a as int, m as int, x as int),
        decreases m - x,
    {
        assert(a * x <= a * m) by (nonlinear_arith)
            requires
                0 <= a,
                x <= m,
        ;
        assert(a * x >= 0) by (nonlinear_arith)
            requires
                0 <= a,
                0 <= x,
        ;
        if (a * x) % m == 1 {
            return Some(x);
        }
        x += 1;
    }
    None
}

/// `v mod 26`, in `[0, 26)`.
fn rem26(v: i64) -> (r: i64)
    ensures
        r == v as int % 26,
{
    if v >= 0 {
        v % 26
    } else {
        let k = -(v + 1);
        let r = 25 - k % 26;
        assert(r == v as int % 26) by (nonlinear_arith)
            requires
                k == -(v + 1),
                k >= 0,
                r == 25 - k % 26,
        {
            vstd::arithmetic::div_mod::lemma_fundamental_div_mod(k as int, 26);
            vstd::arithmetic::div_mod::lemma_fundamental_div_mod_converse(
                v as int,
                26,
                -(k as int / 26) - 1,
                r as int,
            );
        }
        r
    }
}

/// The offset of an ASCII letter's alphabet: `a` or `A`.
pub open spec fn letter_base(c: char) -> Option<int> {
    if 'a' <= c && c <= 'z' {
        Some(97)
    } else if 'A' <= c && c <= 'Z' {
        Some(65)
    } else {
        None
    }
}

/// The affine image of one character: a letter `x` becomes `a*x + b`, or
/// with an inverse `ai` it becomes `ai*(x - b)`, modulo 26, in its own case;
/// anything else is kept.
pub open spec fn affine_char(c: char, a: int, b: int, inv: Option<int>) -> char {
    match letter_base(c) {
        None => c,
        Some(base) => {
            let x = c as int - base;
            let y = match inv {
                Some(ai) => (ai * (x - b)) % 26,
                None => (a * x + b) % 26,
            };
            (base + y) as char
        },
    }
}

/// The message for a key `a` without an inverse modulo 26.
pub open spec fn affine_key_message(a: int) -> Seq<char> {
    "a="@ + signed_decimal(a) + " 与 26 不互质，无法解密"@
}

/// What `affine` gives.
pub open spec fn affine_spec(text: Seq<char>, a: int, b: int, decrypt: bool) -> Result<
    Seq<char>,
    Seq<char>,
> {
    if decrypt {
        match mod_inv_spec(a % 26, 26) {
            None => Err(affine_key_message(a)),
            Some(ai) => Ok(text.map_values(|c: char| affine_char(c, a, b, Some(ai)))),
        }
    } else {
        Ok(text.map_values(|c: char| affine_char(c, a, b, None)))
    }
}

/// The affine cipher: encryption maps a letter `x` to `a*x + b mod 26`,
/// decryption maps it to `a⁻¹*(x - b) mod 26`; other characters are kept.
/// Decryption needs `a` to be invertible modulo 26.
pub fn affine(text: &str, a: i64, b: i64, decrypt: bool) -> (r: Result<String, CoreError>)
    requires
        !decrypt ==> i64::MIN <= 25 * a <= i64::MAX && i64::MIN <= 25 * a + b <= i64::MAX,
        decrypt ==> i64::MIN <= -25 * b <= i64::MAX && i64::MIN <= 25 * (25 - b) <= i64::MAX,
    ensures
        match (r, affine_spec(text@, a as int, b as int, decrypt)) {
            (Ok(s), Ok(t)) => s@ == t,
            (Err(e), Err(m)) => e.is_parse_with(m),
            _ => false,
        },
{
    let mut inv: Option<i64> = None;
    if decrypt {
        let a26 = rem26(a);
        match mod_inv(a26, 26) {
            Some(ai) => {
                inv = Some(ai);
            },
            None => {
                let mut msg = String::new();
                push_str(&mut msg, "a=");
                push_signed(&mut msg, a);
                push_str(&mut msg, " 与 26 不互质，无法解密");
                assert(msg@ =~= affine_key_message(a as int));
                return Err(CoreError::Parse(msg));
            },
        }
    }
    let ghost ginv: Option<int> = match inv {
        Some(ai) => Some(ai as int),
        None => None,
    };
    proof {
        if decrypt {
            lemma_inverse_range(a as int % 26, 26, 1);
        }
    }
    let cs = chars_of(text);
    let mut out = String::new();
    let mut i: usize = 0;
    while i < cs.len()
        invariant
            i <= cs.len(),
            cs@ == text@,
            decrypt == (inv is Some),
            inv matches Some(ai) ==> 0 < ai < 26,
            ginv == match inv {
                Some(ai) => Some(ai as int),
                None => None::<int>,
            },
            !decrypt ==> i64::MIN <= 25 * a <= i64::MAX && i64::MIN <= 25 * a + b <= i64::MAX,
            decrypt ==> i64::MIN <= -25 * b <= i64::MAX && i64::MIN <= 25 * (25 - b) <= i64::MAX,
            out@ == cs@.take(i as int).map_values(|c: char| affine_char(c, a as int, b as int, ginv)),
        decreases cs.len() - i,
    {
        let c = cs[i];
        let base: u8 = if 'a' <= c && c <= 'z' {
            97
        } else if 'A' <= c && c <= 'Z' {
            65
        } else {
            0
        };
        let r = if base == 0 {
            c
        } else {
            let v = #[verifier::truncate] (c as u32) as u8;
            assert(v as int == c as int) by {
                assert(c as int <= 122);
            }
            let x = (v - base) as i64;
            assert(0 <= x < 26);
            let y = match inv {
                Some(ai) => {
                    assert(i64::MIN <= ai * (x - b) <= i64::MAX) by (nonlinear_arith)
                        requires
                            0 <= x < 26,
                            0 < ai < 26,
                            i64::MIN <= -25 * b <= i64::MAX,
                            i64::MIN <= 25 * (25 - b) <= i64::MAX,
                    ;
                    rem26(ai * (x - b))
                },
                None => {
                    assert(i64::MIN <= a * x <= i64::MAX && i64::MIN <= a * x + b <= i64::MAX)
                        by (nonlinear_arith)
                        requires
                            0 <= x < 26,
                            i64::MIN <= b <= i64::MAX,
                            i64::MIN <= 25 * a <= i64::MAX,
                            i64::MIN <= 25 * a + b <= i64::MAX,
                    ;
                    rem26(a * x + b)
                },
            };
            (base + y as u8) as char
        };
        assert(r == affine_char(c, a as int, b as int, ginv));
        push_char(&mut out, r);
        assert(cs@.take(i + 1).map_values(|c: char| affine_char(c, a as int, b as int, ginv))
            =~= cs@.take(i as int).map_values(|c: char| affine_char(c, a as int, b as int, ginv)).push(
            r,
        ));
        i += 1;
    }
    assert(cs@.take(cs.len() as int) =~= cs@);
    Ok(out)
}

proof fn lemma_inverse_range(a: int, m: int, from: int)
    requires
        1 <= from,
    ensures
        inverse_from(a, m, from) matches Some(x) ==> from <= x < m,
    decreases m - from,
{
    if from < m && (a * from) % m != 1 {
        lemma_inverse_range(a, m, from + 1);
    }
}

// ---------------------------------------------------------------------------
// Joining
// ---------------------------------------------------------------------------

/// The parts, with `sep` between each two.
pub open spec fn join(parts: Seq<Seq<char>>, sep: Seq<char>) -> Seq<char>
    decreases parts.len(),
{
    if parts.len() == 0 {
        Seq::empty()
    } else if parts.len() == 1 {
        parts[0]
    } else {
        join(parts.drop_last(), sep) + sep + parts.last()
    }
}

// ---------------------------------------------------------------------------
// A1Z26
// ---------------------------------------------------------------------------

/// The number of each ASCII letter of `cs` (A = 1 ... Z = 26), in order.
pub open spec fn a1z26_numbers(cs: Seq<char>) -> Seq<Seq<char>>
    decreases cs.len(),
{
    if cs.len() == 0 {
        Seq::empty()
    } else if is_alpha(cs.last()) {
        a1z26_numbers(cs.drop_last()).push(decimal((upper(cs.last()) as int - 64) as nat))
    } else {
        a1z26_numbers(cs.drop_last())
    }
}

/// A1Z26 encoding: each ASCII letter becomes its number in the alphabet;
/// the numbers are joined with `sep`; everything else is dropped.
pub fn a1z26_encode(text: &str, sep: &str) -> (out: String)
    ensures
        out@ == join(a1z26_numbers(text@), sep@),
{
    let cs = chars_of(text);
    let mut out = String::new();
    let mut any = false;
    let mut i: usize = 0;
    assert(cs@.take(0) =~= Seq::<char>::empty());
    while i < cs.len()
        invariant
            i <= cs.len(),
            cs@ == text@,
            any == (a1z26_numbers(cs@.take(i as int)).len() > 0),
            out@ == join(a1z26_numbers(cs@.take(i as int)), sep@),
        decreases cs.len() - i,
    {
        let c = cs[i];
        let ghost before = a1z26_numbers(cs@.take(i as int));
        assert(cs@.take(i + 1).drop_last() =~= cs@.take(i as int));
        assert(cs@.take(i + 1).last() == c);
        if is_ascii_alpha(c) {
            let u = to_upper(c);
            let v = #[verifier::truncate] (u as u32);
            assert(v as int == u as int) by {
                assert(u as int <= 122);
            }
            if any {
                push_str(&mut out, sep);
            }
            push_decimal(&mut out, (v - 64) as u64);
            any = true;
            proof {
                let after = a1z26_numbers(cs@.take(i + 1));
                assert(after.drop_last() == before);
                if before.len() == 0 {
                    assert(after.len() == 1);
                }
            }
        }
        i += 1;
    }
    assert(cs@.take(cs.len() as int) =~= cs@);
    out
}

/// The value of a run of decimal digits.
pub open spec fn digits_value(run: Seq<char>) -> nat
    decreases run.len(),
{
    if run.len() == 0 {
        0
    } else {
        digits_value(run.drop_last()) * 10 + (run.last() as int - 48) as nat
    }
}

/// The maximal runs of ASCII digits in `cs` that came to an end, and the
/// run being read at its end.
pub open spec fn digit_runs_state(cs: Seq<char>) -> (Seq<Seq<char>>, Seq<char>)
    decreases cs.len(),
{
    if cs.len() == 0 {
        (Seq::empty(), Seq::empty())
    } else {
        let (runs, cur) = digit_runs_state(cs.drop_last());
        if is_digit(cs.last()) {
            (runs, cur.push(cs.last()))
        } else if cur.len() > 0 {
            (runs.push(cur), Seq::empty())
        } else {
            (runs, cur)
        }
    }
}

/// The maximal runs of ASCII digits in `cs`.
pub open spec fn digit_runs(cs: Seq<char>) -> Seq<Seq<char>> {
    let (runs, cur) = digit_runs_state(cs);
    if cur.len() > 0 {
        runs.push(cur)
    } else {
        runs
    }
}

/// The letters of the runs whose value is between 1 and 26.
pub open spec fn a1z26_letters(runs: Seq<Seq<char>>) -> Seq<char>
    decreases runs.len(),
{
    if runs.len() == 0 {
        Seq::empty()
    } else {
        let v = digits_value(runs.last());
        let rest = a1z26_letters(runs.drop_last());
        if 1 <= v <= 26 {
            rest.push((64 + v) as char)
        } else {
            rest
        }
    }
}

/// The letter of a run whose capped value is `v`, appended where `v` is
/// between 1 and 26.
fn push_a1z26_letter(out: &mut String, v: u32)
    ensures
        final(out)@ == if 1 <= v <= 26 {
            old(out)@.push((64 + v) as char)
        } else {
            old(out)@
        },
{
    if 1 <= v && v <= 26 {
        push_char(out, ((64 + v) as u8) as char);
    }
}

/// A1Z26 decoding: every run of digits whose value is between 1 and 26
/// becomes its letter (1 = A); everything else is dropped.
pub fn a1z26_decode(text: &str) -> (out: String)
    ensures
        out@ == a1z26_letters(digit_runs(text@)),
{
    let cs = chars_of(text);
    let mut out = String::new();
    let mut cur: u32 = 0;
    let mut in_run = false;
    let ghost mut run: Seq<char> = Seq::empty();
    let mut i: usize = 0;
    assert(cs@.take(0) =~= Seq::<char>::empty());
    while i < cs.len()
        invariant
            i <= cs.len(),
            cs@ == text@,
            digit_runs_state(cs@.take(i as int)) == (digit_runs_state(cs@.take(i as int)).0, run),
            out@ == a1z26_letters(digit_runs_state(cs@.take(i as int)).0),
            in_run == (run.len() > 0),
            cur as int == if digits_value(run) < 1000 {
                digits_value(run) as int
            } else {
                1000
            },
        decreases cs.len() - i,
    {
        let c = cs[i];
        assert(cs@.take(i + 1).drop_last() =~= cs@.take(i as int));
        assert(cs@.take(i + 1).last() == c);
        if is_ascii_digit(c) {
            let d = #[verifier::truncate] (c as u32);
            assert(d as int == c as int) by {
                assert(c as int <= 57);
            }
            let next = cur * 10 + (d - 48);
            cur = if next < 1000 {
                next
            } else {
                1000
            };
            proof {
                assert(run.push(c).drop_last() =~= run);
                run = run.push(c);
            }
            in_run = true;
        } else if in_run {
            push_a1z26_letter(&mut out, cur);
            proof {
                let runs = digit_runs_state(cs@.take(i as int)).0;
                assert(runs.push(run).drop_last() =~= runs);
                run = Seq::empty();
            }
            cur = 0;
            in_run = false;
        }
        i += 1;
    }
    assert(cs@.take(cs.len() as int) =~= cs@);
    if in_run {
        push_a1z26_letter(&mut out, cur);
        proof {
            let runs = digit_runs_state(cs@).0;
            assert(runs.push(run).drop_last() =~= runs);
        }
    }
    out
}

// ---------------------------------------------------------------------------
// Bacon
// ---------------------------------------------------------------------------

/// `2^(n-1-k)` for the `k`-th of `n` binary digits (`n` up to 8).
pub open spec fn bit_weight(n: int, k: int) -> int {
    let e = n - 1 - k;
    if e == 0 {
        1
    } else if e == 1 {
        2
    } else if e == 2 {
        4
    } else if e == 3 {
        8
    } else if e == 4 {
        16
    } else if e == 5 {
        32
    } else if e == 6 {
        64
    } else {
        128
    }
}

/// The five Bacon symbols of a letter index: its low five bits, most
/// significant first, `A` for 0 and `B` for 1.
pub open spec fn bacon_group(v: int) -> Seq<char> {
    Seq::new(5, |k: int| if (v / bit_weight(5, k)) % 2 == 1 { 'B' } else { 'A' })
}

/// Bacon encoding of the ASCII letters of `cs`.
pub open spec fn bacon_letters(cs: Seq<char>) -> Seq<char>
    decreases cs.len(),
{
    if cs.len() == 0 {
        Seq::empty()
    } else if is_alpha(cs.last()) {
        bacon_letters(cs.drop_last()) + bacon_group(cs.last() as int - 65)
    } else {
        bacon_letters(cs.drop_last())
    }
}

/// Bacon encoding: the text is upper-cased, and each ASCII letter becomes
/// five `A`/`B` symbols (the bits of its index from `A`); everything else is
/// dropped.
pub fn bacon_encode(text: &str) -> (out: String)
    ensures
        out@ == bacon_letters(unicode_upper(text@)),
{
    let up = str_to_uppercase(text);
    let cs = chars_of(up.as_str());
    let mut out = String::new();
    let mut i: usize = 0;
    assert(cs@.take(0) =~= Seq::<char>::empty());
    while i < cs.len()
        invariant
            i <= cs.len(),
            cs@ == unicode_upper(text@),
            out@ == bacon_letters(cs@.take(i as int)),
        decreases cs.len() - i,
    {
        let c = cs[i];
        assert(cs@.take(i + 1).drop_last() =~= cs@.take(i as int));
        assert(cs@.take(i + 1).last() == c);
        if is_ascii_alpha(c) {
            let v = #[verifier::truncate] (c as u32);
            assert(v as int == c as int) by {
                assert(c as int <= 122);
            }
            let idx = v - 65;
            let ghost pre = out@;
            let weights: [u32; 5] = [16, 8, 4, 2, 1];
            let mut k: usize = 0;
            while k < 5
                invariant
                    k <= 5,
                    forall|q: int| 0 <= q < 5 ==> weights@[q] == bit_weight(5, q),
                    out@ == pre + bacon_group(idx as int).take(k as int),
                decreases 5 - k,
            {
                assert(weights@[k as int] == bit_weight(5, k as int));
                assert(bit_weight(5, k as int) > 0);
                let sym = if (idx / weights[k]) % 2 == 1 {
                    'B'
                } else {
                    'A'
                };
                push_char(&mut out, sym);
                assert(bacon_group(idx as int).take(k + 1) =~= bacon_group(idx as int).take(
                    k as int,
                ).push(sym));
                k += 1;
            }
            assert(bacon_group(idx as int).take(5) =~= bacon_group(idx as int));
        }
        i += 1;
    }
    assert(cs@.take(cs.len() as int) =~= cs@);
    out
}

/// The Bacon bit of a symbol: `A`, `a`, `0` are 0; `B`, `b`, `1` are 1.
pub open spec fn bacon_bit(c: char) -> Option<int> {
    if c == 'A' || c == 'a' || c == '0' {
        Some(0)
    } else if c == 'B' || c == 'b' || c == '1' {
        Some(1)
    } else {
        None
    }
}

/// The Bacon bits of `cs`, other characters skipped.
pub open spec fn bacon_bits(cs: Seq<char>) -> Seq<int>
    decreases cs.len(),
{
    if cs.len() == 0 {
        Seq::empty()
    } else {
        match bacon_bit(cs.last()) {
            Some(b) => bacon_bits(cs.drop_last()).push(b),
            None => bacon_bits(cs.drop_last()),
        }
    }
}

/// The letters of complete groups of five bits: `A` plus the group's value
/// modulo 26; a short last group is dropped.
pub open spec fn bacon_groups(bits: Seq<int>) -> Seq<char>
    decreases bits.len(),
{
    if bits.len() < 5 {
        Seq::empty()
    } else {
        let v = bits[0] * 16 + bits[1] * 8 + bits[2] * 4 + bits[3] * 2 + bits[4];
        seq![(65 + v % 26) as char] + bacon_groups(bits.skip(5))
    }
}

/// Bacon decoding: `A`/`B` (either case) or `0`/`1` symbols are read in
/// groups of five.
pub fn bacon_decode(text: &str) -> (out: String)
    ensures
        out@ == bacon_groups(bacon_bits(text@)),
{
    let cs = chars_of(text);
    let mut bits: Vec<u8> = Vec::new();
    let mut i: usize = 0;
    assert(cs@.take(0) =~= Seq::<char>::empty());
    while i < cs.len()
        invariant
            i <= cs.len(),
            cs@ == text@,
            bits@.map_values(|b: u8| b as int) == bacon_bits(cs@.take(i as int)),
            forall|q: int| 0 <= q < bits.len() ==> bits@[q] <= 1,
        decreases cs.len() - i,
    {
        let c = cs[i];
        assert(cs@.take(i + 1).drop_last() =~= cs@.take(i as int));
        assert(cs@.take(i + 1).last() == c);
        let ghost before = bits@;
        if c == 'A' || c == 'a' || c == '0' {
            bits.push(0);
        } else if c == 'B' || c == 'b' || c == '1' {
            bits.push(1);
        }
        assert(bits@.map_values(|b: u8| b as int) =~= bacon_bits(cs@.take(i + 1)));
        i += 1;
    }
    assert(cs@.take(cs.len() as int) =~= cs@);
    let ghost all = bits@.map_values(|b: u8| b as int);
    let mut out = String::new();
    let n = bits.len();
    let mut j: usize = 0;
    assert(all.skip(0) =~= all);
    while n - j >= 5
        invariant
            j <= n,
            n == bits.len(),
            all == bits@.map_values(|b: u8| b as int),
            forall|q: int| 0 <= q < bits.len() ==> bits@[q] <= 1,
            out@ + bacon_groups(all.skip(j as int)) == bacon_groups(all),
        decreases n - j,
    {
        let ghost rest = all.skip(j as int);
        let v = bits[j] * 16 + bits[j + 1] * 8 + bits[j + 2] * 4 + bits[j + 3] * 2 + bits[j + 4];
        let ch = (65 + v % 26) as char;
        proof {
            assert(rest[0] == bits@[j as int] as int && rest[1] == bits@[j + 1] as int && rest[2]
                == bits@[j + 2] as int && rest[3] == bits@[j + 3] as int && rest[4] == bits@[j + 4] as int);
            assert(rest.skip(5) =~= all.skip(j + 5));
        }
        let ghost pre = out@;
        push_char(&mut out, ch);
        assert(out@ + bacon_groups(all.skip(j + 5)) =~= pre + (seq![ch] + bacon_groups(rest.skip(5))));
        j += 5;
    }
    assert(bacon_groups(all.skip(j as int)) == Seq::<char>::empty());
    assert(out@ + Seq::<char>::empty() =~= out@);
    out
}

// ---------------------------------------------------------------------------
// Braille
// ---------------------------------------------------------------------------

/// The Braille cell of a lower-case letter or a space.
pub open spec fn braille_cell(c: char) -> Option<char> {
    if c == 'a' {
        Some('\u{2801}')
    } else if c == 'b' {
        Some('\u{2803}')
    } else if c == 'c' {
        Some('\u{2809}')
    } else if c == 'd' {
        Some('\u{2819}')
    } else if c == 'e' {
        Some('\u{2811}')
    } else if c == 'f' {
        Some('\u{280b}')
    } else if c == 'g' {
        Some('\u{281b}')
    } else if c == 'h' {
        Some('\u{2813}')
    } else if c == 'i' {
        Some('\u{280a}')
    } else if c == 'j' {
        Some('\u{281a}')
    } else if c == 'k' {
        Some('\u{2805}')
    } else if c == 'l' {
        Some('\u{2807}')
    } else if c == 'm' {
        Some('\u{280d}')
    } else if c == 'n' {
        Some('\u{281d}')
    } else if c == 'o' {
        Some('\u{2815}')
    } else if c == 'p' {
        Some('\u{280f}')
    } else if c == 'q' {
        Some('\u{281f}')
    } else if c == 'r' {
        Some('\u{2817}')
    } else if c == 's' {
        Some('\u{280e}')
    } else if c == 't' {
        Some('\u{281e}')
    } else if c == 'u' {
        Some('\u{2825}')
    } else if c == 'v' {
        Some('\u{2827}')
    } else if c == 'w' {
        Some('\u{283a}')
    } else if c == 'x' {
        Some('\u{282d}')
    } else if c == 'y' {
        Some('\u{283d}')
    } else if c == 'z' {
        Some('\u{2835}')
    } else if c == ' ' {
        Some('\u{2800}')
    } else {
        None
    }
}

/// The letter or space of a Braille cell.
pub open spec fn braille_char(c: char) -> Option<char> {
    if c == '\u{2801}' {
        Some('a')
    } else if c == '\u{2803}' {
        Some('b')
    } else if c == '\u{2809}' {
        Some('c')
    } else if c == '\u{2819}' {
        Some('d')
    } else if c == '\u{2811}' {
        Some('e')
    } else if c == '\u{280b}' {
        Some('f')
    } else if c == '\u{281b}' {
        Some('g')
    } else if c == '\u{2813}' {
        Some('h')
    } else if c == '\u{280a}' {
        Some('i')
    } else if c == '\u{281a}' {
        Some('j')
    } else if c == '\u{2805}' {
        Some('k')
    } else if c == '\u{2807}' {
        Some('l')
    } else if c == '\u{280d}' {
        Some('m')
    } else if c == '\u{281d}' {
        Some('n')
    } else if c == '\u{2815}' {
        Some('o')
    } else if c == '\u{280f}' {
        Some('p')
    } else if c == '\u{281f}' {
        Some('q')
    } else if c == '\u{2817}' {
        Some('r')
    } else if c == '\u{280e}' {
        Some('s')
    } else if c == '\u{281e}' {
        Some('t')
    } else if c == '\u{2825}' {
        Some('u')
    } else if c == '\u{2827}' {
        Some('v')
    } else if c == '\u{283a}' {
        Some('w')
    } else if c == '\u{282d}' {
        Some('x')
    } else if c == '\u{283d}' {
        Some('y')
    } else if c == '\u{2835}' {
        Some('z')
    } else if c == '\u{2800}' {
        Some(' ')
    } else {
        None
    }
}

fn braille_cell_exec(c: char) -> (r: Option<char>)
    ensures
        r == braille_cell(c),
{
    if c == 'a' {
        Some('\u{2801}')
    } else if c == 'b' {
        Some('\u{2803}')
    } else if c == 'c' {
        Some('\u{2809}')
    } else if c == 'd' {
        Some('\u{2819}')
    } else if c == 'e' {
        Some('\u{2811}')
    } else if c == 'f' {
        Some('\u{280b}')
    } else if c == 'g' {
        Some('\u{281b}')
    } else if c == 'h' {
        Some('\u{2813}')
    } else if c == 'i' {
        Some('\u{280a}')
    } else if c == 'j' {
        Some('\u{281a}')
    } else if c == 'k' {
        Some('\u{2805}')
    } else if c == 'l' {
        Some('\u{2807}')
    } else if c == 'm' {
        Some('\u{280d}')
    } else if c == 'n' {
        Some('\u{281d}')
    } else if c == 'o' {
        Some('\u{2815}')
    } else if c == 'p' {
        Some('\u{280f}')
    } else if c == 'q' {
        Some('\u{281f}')
    } else if c == 'r' {
        Some('\u{2817}')
    } else if c == 's' {
        Some('\u{280e}')
    } else if c == 't' {
        Some('\u{281e}')
    } else if c == 'u' {
        Some('\u{2825}')
    } else if c == 'v' {
        Some('\u{2827}')
    } else if c == 'w' {
        Some('\u{283a}')
    } else if c == 'x' {
        Some('\u{282d}')
    } else if c == 'y' {
        Some('\u{283d}')
    } else if c == 'z' {
        Some('\u{2835}')
    } else if c == ' ' {
        Some('\u{2800}')
    } else {
        None
    }
}

fn braille_char_exec(c: char) -> (r: Option<char>)
    ensures
        r == braille_char(c),
{
    if c == '\u{2801}' {
        Some('a')
    } else if c == '\u{2803}' {
        Some('b')
    } else if c == '\u{2809}' {
        Some('c')
    } else if c == '\u{2819}' {
        Some('d')
    } else if c == '\u{2811}' {
        Some('e')
    } else if c == '\u{280b}' {
        Some('f')
    } else if c == '\u{281b}' {
        Some('g')
    } else if c == '\u{2813}' {
        Some('h')
    } else if c == '\u{280a}' {
        Some('i')
    } else if c == '\u{281a}' {
        Some('j')
    } else if c == '\u{2805}' {
        Some('k')
    } else if c == '\u{2807}' {
        Some('l')
    } else if c == '\u{280d}' {
        Some('m')
    } else if c == '\u{281d}' {
        Some('n')
    } else if c == '\u{2815}' {
        Some('o')
    } else if c == '\u{280f}' {
        Some('p')
    } else if c == '\u{281f}' {
        Some('q')
    } else if c == '\u{2817}' {
        Some('r')
    } else if c == '\u{280e}' {
        Some('s')
    } else if c == '\u{281e}' {
        Some('t')
    } else if c == '\u{2825}' {
        Some('u')
    } else if c == '\u{2827}' {
        Some('v')
    } else if c == '\u{283a}' {
        Some('w')
    } else if c == '\u{282d}' {
        Some('x')
    } else if c == '\u{283d}' {
        Some('y')
    } else if c == '\u{2835}' {
        Some('z')
    } else if c == '\u{2800}' {
        Some(' ')
    } else {
        None
    }
}

/// The character itself where `f` gives nothing.
pub open spec fn or_keep(r: Option<char>, c: char) -> char {
    match r {
        Some(x) => x,
        None => c,
    }
}

/// Braille encoding: the text is lower-cased, then each letter and space
/// becomes its Braille cell; other characters are kept.
pub fn braille_encode(text: &str) -> (out: String)
    ensures
        out@ == unicode_lower(text@).map_values(|c: char| or_keep(braille_cell(c), c)),
{
    let low = str_to_lowercase(text);
    let cs = chars_of(low.as_str());
    let mut out = String::new();
    let mut i: usize = 0;
    while i < cs.len()
        invariant
            i <= cs.len(),
            cs@ == unicode_lower(text@),
            out@ == cs@.take(i as int).map_values(|c: char| or_keep(braille_cell(c), c)),
        decreases cs.len() - i,
    {
        let c = cs[i];
        let r = match braille_cell_exec(c) {
            Some(x) => x,
            None => c,
        };
        push_char(&mut out, r);
        assert(cs@.take(i + 1).map_values(|c: char| or_keep(braille_cell(c), c)) =~= cs@.take(
            i as int,
        ).map_values(|c: char| or_keep(braille_cell(c), c)).push(r));
        i += 1;
    }
    assert(cs@.take(cs.len() as int) =~= cs@);
    out
}

/// Braille decoding: each known Braille cell becomes its letter or space;
/// other characters are kept.
pub fn braille_decode(text: &str) -> (out: String)
    ensures
        out@ == text@.map_values(|c: char| or_keep(braille_char(c), c)),
{
    let cs = chars_of(text);
    let mut out = String::new();
    let mut i: usize = 0;
    while i < cs.len()
        invariant
            i <= cs.len(),
            cs@ == text@,
            out@ == cs@.take(i as int).map_values(|c: char| or_keep(braille_char(c), c)),
        decreases cs.len() - i,
    {
        let c = cs[i];
        let r = match braille_char_exec(c) {
            Some(x) => x,
            None => c,
        };
        push_char(&mut out, r);
        assert(cs@.take(i + 1).map_values(|c: char| or_keep(braille_char(c), c)) =~= cs@.take(
            i as int,
        ).map_values(|c: char| or_keep(braille_char(c), c)).push(r));
        i += 1;
    }
    assert(cs@.take(cs.len() as int) =~= cs@);
    out
}

/// Braille decoding undoes Braille encoding on the characters that have a
/// cell (lower-case letters and space).
pub proof fn lemma_braille_roundtrip(c: char)
    requires
        braille_cell(c) is Some,
    ensures
        braille_char(braille_cell(c)->Some_0) == Some(c),
{
}

// ---------------------------------------------------------------------------
// Binary text
// ---------------------------------------------------------------------------

/// The eight binary digits of a byte, most significant first.
pub open spec fn byte_binary(b: u8) -> Seq<char> {
    Seq::new(8, |k: int| if (b as int / bit_weight(8, k)) % 2 == 1 { '1' } else { '0' })
}

/// The binary digits of each byte, in order.
pub open spec fn bytes_binary(data: Seq<u8>) -> Seq<Seq<char>> {
    data.map_values(|b: u8| byte_binary(b))
}

/// Write each byte as eight binary digits, the groups joined with `sep`.
pub fn binary_encode(data: &[u8], sep: &str) -> (out: String)
    ensures
        out@ == join(bytes_binary(data@), sep@),
{
    let mut out = String::new();
    let mut i: usize = 0;
    let weights: [u8; 8] = [128, 64, 32, 16, 8, 4, 2, 1];
    while i < data.len()
        invariant
            i <= data.len(),
            forall|q: int| 0 <= q < 8 ==> weights@[q] == bit_weight(8, q),
            out@ == join(bytes_binary(data@.take(i as int)), sep@),
        decreases data.len() - i,
    {
        let b = data[i];
        if i > 0 {
            push_str(&mut out, sep);
        }
        let ghost pre = out@;
        let mut k: usize = 0;
        while k < 8
            invariant
                k <= 8,
                forall|q: int| 0 <= q < 8 ==> weights@[q] == bit_weight(8, q),
                out@ == pre + byte_binary(b).take(k as int),
            decreases 8 - k,
        {
            assert(weights@[k as int] == bit_weight(8, k as int));
            assert(bit_weight(8, k as int) > 0);
            let d = if (b / weights[k]) % 2 == 1 {
                '1'
            } else {
                '0'
            };
            push_char(&mut out, d);
            assert(byte_binary(b).take(k + 1) =~= byte_binary(b).take(k as int).push(d));
            k += 1;
        }
        assert(byte_binary(b).take(8) =~= byte_binary(b));
        proof {
            let parts = bytes_binary(data@.take(i + 1));
            assert(parts.drop_last() =~= bytes_binary(data@.take(i as int)));
            assert(parts.last() == byte_binary(b));
            if i == 0 {
                assert(parts.len() == 1);
                assert(pre =~= Seq::<char>::empty());
            }
        }
        i += 1;
    }
    assert(data@.take(data.len() as int) =~= data@);
    out
}

/// The binary digits of `cs` as bits, other characters skipped.
pub open spec fn binary_bits(cs: Seq<char>) -> Seq<int>
    decreases cs.len(),
{
    if cs.len() == 0 {
        Seq::empty()
    } else if cs.last() == '0' {
        binary_bits(cs.drop_last()).push(0)
    } else if cs.last() == '1' {
        binary_bits(cs.drop_last()).push(1)
    } else {
        binary_bits(cs.drop_last())
    }
}

/// The value of the first eight bits, most significant first.
pub open spec fn octet_value(bits: Seq<int>) -> int {
    bits[0] * 128 + bits[1] * 64 + bits[2] * 32 + bits[3] * 16 + bits[4] * 8 + bits[5] * 4 + bits[6]
        * 2 + bits[7]
}

/// The bytes of complete groups of eight bits; a short last group is
/// dropped.
pub open spec fn octets(bits: Seq<int>) -> Seq<u8>
    decreases bits.len(),
{
    if bits.len() < 8 {
        Seq::empty()
    } else {
        seq![octet_value(bits) as u8] + octets(bits.skip(8))
    }
}

/// Read binary text: the `0` and `1` characters, eight to a byte; anything
/// else is skipped and a short last group is dropped.
pub fn binary_decode(text: &str) -> (out: Vec<u8>)
    ensures
        out@ == octets(binary_bits(text@)),
{
    let cs = chars_of(text);
    let mut bits: Vec<u8> = Vec::new();
    let mut i: usize = 0;
    assert(cs@.take(0) =~= Seq::<char>::empty());
    while i < cs.len()
        invariant
            i <= cs.len(),
            cs@ == text@,
            bits@.map_values(|b: u8| b as int) == binary_bits(cs@.take(i as int)),
            forall|q: int| 0 <= q < bits.len() ==> bits@[q] <= 1,
        decreases cs.len() - i,
    {
        let c = cs[i];
        assert(cs@.take(i + 1).drop_last() =~= cs@.take(i as int));
        assert(cs@.take(i + 1).last() == c);
        if c == '0' {
            bits.push(0);
        } else if c == '1' {
            bits.push(1);
        }
        assert(bits@.map_values(|b: u8| b as int) =~= binary_bits(cs@.take(i + 1)));
        i += 1;
    }
    assert(cs@.take(cs.len() as int) =~= cs@);
    let ghost all = bits@.map_values(|b: u8| b as int);
    let mut out: Vec<u8> = Vec::new();
    let n = bits.len();
    let mut j: usize = 0;
    assert(all.skip(0) =~= all);
    while n - j >= 8
        invariant
            j <= n,
            n == bits.len(),
            all == bits@.map_values(|b: u8| b as int),
            forall|q: int| 0 <= q < bits.len() ==> bits@[q] <= 1,
            out@ + octets(all.skip(j as int)) == octets(all),
        decreases n - j,
    {
        let ghost rest = all.skip(j as int);
        let mut byte: u8 = 0;
        let mut k: usize = 0;
        while k < 8
            invariant
                k <= 8,
                j + 8 <= n,
                n == bits.len(),
                forall|q: int| 0 <= q < bits.len() ==> bits@[q] <= 1,
                byte as int == partial_octet(rest, k as int),
                rest == all.skip(j as int),
                all == bits@.map_values(|b: u8| b as int),
                byte < ipow2_small(k as int),
            decreases 8 - k,
        {
            assert(rest[k as int] == bits@[j + k] as int);
            byte = byte * 2 + bits[j + k];
            k += 1;
        }
        proof {
            reveal_with_fuel(partial_octet, 9);
            assert(partial_octet(rest, 8) == octet_value(rest));
            assert(rest.skip(8) =~= all.skip(j + 8));
        }
        let ghost pre = out@;
        out.push(byte);
        assert(out@ + octets(all.skip(j + 8)) =~= pre + (seq![byte] + octets(rest.skip(8))));
        j += 8;
    }
    assert(octets(all.skip(j as int)) == Seq::<u8>::empty());
    assert(out@ + Seq::<u8>::empty() =~= out@);
    out
}

/// The value of the first `k` bits.
pub open spec fn partial_octet(bits: Seq<int>, k: int) -> int
    decreases k,
{
    if k <= 0 {
        0
    } else {
        partial_octet(bits, k - 1) * 2 + bits[k - 1]
    }
}

/// `2^k` for `k` up to 8.
pub open spec fn ipow2_small(k: int) -> int {
    if k <= 0 {
        1
    } else if k == 1 {
        2
    } else if k == 2 {
        4
    } else if k == 3 {
        8
    } else if k == 4 {
        16
    } else if k == 5 {
        32
    } else if k == 6 {
        64
    } else if k == 7 {
        128
    } else {
        256
    }
}

// ---------------------------------------------------------------------------
// Bitwise operations
// ---------------------------------------------------------------------------

/// A bitwise operation on bytes.
#[derive(Debug, Clone, Copy, PartialEq, Eq, Structural)]
pub enum BitOp {
    Not,
    ShiftLeft,
    ShiftRight,
    RotateLeft,
    RotateRight,
    And,
    Or,
    Xor,
}

/// `b` rotated left by `n` bits.
pub open spec fn rotl8(b: u8, n: u32) -> u8 {
    if n == 0 {
        b
    } else {
        ((b << n) | (b >> (8 - n) as u32)) as u8
    }
}

/// `b` rotated right by `n` bits.
pub open spec fn rotr8(b: u8, n: u32) -> u8 {
    if n == 0 {
        b
    } else {
        ((b >> n) | (b << (8 - n) as u32)) as u8
    }
}

/// The operation on the byte at `i`; the key, repeated, gives the second
/// operand of `And`, `Or` and `Xor`.
pub open spec fn bitwise_byte(op: BitOp, b: u8, n: u32, key: Seq<u8>, i: int) -> u8 {
    match op {
        BitOp::Not => !b,
        BitOp::ShiftLeft => (b << n) as u8,
        BitOp::ShiftRight => b >> n,
        BitOp::RotateLeft => rotl8(b, n),
        BitOp::RotateRight => rotr8(b, n),
        BitOp::And => b & key[i % key.len() as int],
        BitOp::Or => b | key[i % key.len() as int],
        BitOp::Xor => b ^ key[i % key.len() as int],
    }
}

/// What `bitwise` gives: a key operation with no key leaves the data as it
/// is; otherwise each byte is transformed.
pub open spec fn bitwise_spec(data: Seq<u8>, op: BitOp, n: u32, key: Seq<u8>) -> Seq<u8> {
    if key.len() == 0 && (op == BitOp::And || op == BitOp::Or || op == BitOp::Xor) {
        data
    } else {
        Seq::new(data.len(), |i: int| bitwise_byte(op, data[i], n, key, i))
    }
}

/// Apply a bitwise operation to every byte: NOT, shifts and rotations by `n`
/// bits, or AND / OR / XOR with the key repeated.
pub fn bitwise(data: &[u8], op: BitOp, n: u32, key: &[u8]) -> (out: Vec<u8>)
    requires
        n < 8,
    ensures
        out@ == bitwise_spec(data@, op, n, key@),
{
    let keyed = op == BitOp::And || op == BitOp::Or || op == BitOp::Xor;
    if keyed && key.len() == 0 {
        let mut out: Vec<u8> = Vec::new();
        let mut i: usize = 0;
        while i < data.len()
            invariant
                i <= data.len(),
                out@ == data@.take(i as int),
            decreases data.len() - i,
        {
            out.push(data[i]);
            assert(data@.take(i + 1) =~= data@.take(i as int).push(data@[i as int]));
            i += 1;
        }
        assert(data@.take(data.len() as int) =~= data@);
        return out;
    }
    let mut out: Vec<u8> = Vec::new();
    let mut i: usize = 0;
    while i < data.len()
        invariant
            i <= data.len(),
            n < 8,
            keyed == (op == BitOp::And || op == BitOp::Or || op == BitOp::Xor),
            keyed ==> key.len() > 0,
            out@ =~= Seq::new(i as nat, |q: int| bitwise_byte(op, data@[q], n, key@, q)),
        decreases data.len() - i,
    {
        let b = data[i];
        let r: u8 = match op {
            BitOp::Not => !b,
            BitOp::ShiftLeft => b << n,
            BitOp::ShiftRight => b >> n,
            BitOp::RotateLeft => if n == 0 {
                b
            } else {
                (b << n) | (b >> (8 - n))
            },
            BitOp::RotateRight => if n == 0 {
                b
            } else {
                (b >> n) | (b << (8 - n))
            },
            BitOp::And => b & key[i % key.len()],
            BitOp::Or => b | key[i % key.len()],
            BitOp::Xor => b ^ key[i % key.len()],
        };
        assert(r == bitwise_byte(op, b, n, key@, i as int));
        out.push(r);
        i += 1;
    }
    out
}

// ---------------------------------------------------------------------------
// Binary text round trip
// ---------------------------------------------------------------------------

/// The eight bits of a byte, most significant first.
pub open spec fn bits8(v: u8) -> Seq<int> {
    Seq::new(8, |k: int| (v as int / bit_weight(8, k)) % 2)
}

/// The bits of all bytes, in order.
pub open spec fn all_byte_bits(x: Seq<u8>) -> Seq<int>
    decreases x.len(),
{
    if x.len() == 0 {
        Seq::empty()
    } else {
        all_byte_bits(x.drop_last()) + bits8(x.last())
    }
}

proof fn lemma_binary_bits_concat(a: Seq<char>, b: Seq<char>)
    ensures
        binary_bits(a + b) == binary_bits(a) + binary_bits(b),
    decreases b.len(),
{
    if b.len() == 0 {
        assert(a + b =~= a);
        assert(binary_bits(a) + binary_bits(b) =~= binary_bits(a));
    } else {
        lemma_binary_bits_concat(a, b.drop_last());
        assert((a + b).drop_last() =~= a + b.drop_last());
        assert((a + b).last() == b.last());
        let x = binary_bits(a);
        let y = binary_bits(b.drop_last());
        assert((x + y).push(0) =~= x + y.push(0));
        assert((x + y).push(1) =~= x + y.push(1));
    }
}

proof fn lemma_binary_bits_byte(v: u8)
    ensures
        binary_bits(byte_binary(v)) == bits8(v),
{
    let cs = byte_binary(v);
    assert forall|n: int| 0 <= n <= 8 implies #[trigger] binary_bits(cs.take(n)) == bits8(v).take(n) by {
        lemma_binary_bits_byte_prefix(v, n);
    }
    assert(cs.take(8) =~= cs);
    assert(bits8(v).take(8) =~= bits8(v));
}

proof fn lemma_binary_bits_byte_prefix(v: u8, n: int)
    requires
        0 <= n <= 8,
    ensures
        binary_bits(byte_binary(v).take(n)) == bits8(v).take(n),
    decreases n,
{
    let cs = byte_binary(v);
    if n == 0 {
        assert(cs.take(0) =~= Seq::<char>::empty());
        assert(bits8(v).take(0) =~= Seq::<int>::empty());
    } else {
        lemma_binary_bits_byte_prefix(v, n - 1);
        assert(cs.take(n).drop_last() =~= cs.take(n - 1));
        assert(cs.take(n).last() == cs[n - 1]);
        assert(bit_weight(8, n - 1) > 0);
        assert(bits8(v).take(n) =~= bits8(v).take(n - 1).push(bits8(v)[n - 1]));
    }
}

proof fn lemma_binary_bits_join(x: Seq<u8>, sep: Seq<char>)
    requires
        binary_bits(sep) == Seq::<int>::empty(),
    ensures
        binary_bits(join(bytes_binary(x), sep)) == all_byte_bits(x),
    decreases x.len(),
{
    if x.len() == 1 {
        assert(x.drop_last() =~= Seq::<u8>::empty());
        lemma_binary_bits_byte(x[0]);
        assert(all_byte_bits(x.drop_last()) == Seq::<int>::empty());
        assert(x.last() == x[0]);
        assert(all_byte_bits(x) =~= Seq::<int>::empty() + bits8(x[0]));
    } else if x.len() > 1 {
        let t = x.drop_last();
        lemma_binary_bits_join(t, sep);
        assert(bytes_binary(x).drop_last() =~= bytes_binary(t));
        assert(bytes_binary(x).last() == byte_binary(x.last()));
        let j = join(bytes_binary(t), sep);
        lemma_binary_bits_concat(j + sep, byte_binary(x.last()));
        lemma_binary_bits_concat(j, sep);
        lemma_binary_bits_byte(x.last());
        assert(binary_bits(j) + Seq::<int>::empty() =~= binary_bits(j));
    }
}

proof fn lemma_octet_of_bits8(v: u8)
    ensures
        octet_value(bits8(v)) == v,
{
    let b = bits8(v);
    assert(b[0] == (v as int / 128) % 2 && b[1] == (v as int / 64) % 2 && b[2] == (v as int / 32) % 2 && b[3]
        == (v as int / 16) % 2 && b[4] == (v as int / 8) % 2 && b[5] == (v as int / 4) % 2 && b[6]
        == (v as int / 2) % 2 && b[7] == v as int % 2);
    assert(((v / 128) % 2) * 128 + ((v / 64) % 2) * 64 + ((v / 32) % 2) * 32 + ((v / 16) % 2) * 16 + ((v
        / 8) % 2) * 8 + ((v / 4) % 2) * 4 + ((v / 2) % 2) * 2 + v % 2 == v) by (bit_vector);
}

proof fn lemma_octets_concat(a: Seq<int>, b: Seq<int>)
    requires
        a.len() % 8 == 0,
    ensures
        octets(a + b) == octets(a) + octets(b),
    decreases a.len(),
{
    if a.len() == 0 {
        assert(a + b =~= b);
        assert(octets(a) + octets(b) =~= octets(b));
    } else {
        lemma_octets_concat(a.skip(8), b);
        assert((a + b).skip(8) =~= a.skip(8) + b);
        assert(octet_value(a + b) == octet_value(a)) by {
            assert(forall|k: int| 0 <= k < 8 ==> (a + b)[k] == a[k]);
        }
        assert(seq![octet_value(a) as u8] + (octets(a.skip(8)) + octets(b)) =~= (seq![octet_value(a) as u8]
            + octets(a.skip(8))) + octets(b));
    }
}

proof fn lemma_octets_all(x: Seq<u8>)
    ensures
        octets(all_byte_bits(x)) == x,
        all_byte_bits(x).len() == 8 * x.len(),
    decreases x.len(),
{
    if x.len() > 0 {
        let t = x.drop_last();
        lemma_octets_all(t);
        lemma_octets_concat(all_byte_bits(t), bits8(x.last()));
        lemma_octet_of_bits8(x.last());
        assert(bits8(x.last()).skip(8) =~= Seq::<int>::empty());
        assert(octets(bits8(x.last()).skip(8)) == Seq::<u8>::empty());
        assert(octet_value(bits8(x.last())) as u8 == x.last());
        assert(octets(bits8(x.last())) =~= seq![x.last()]);
        assert(t + seq![x.last()] =~= x);
    }
}

/// Reading binary text undoes writing it: for a separator without `0` or
/// `1` (such as the empty one, a space or a comma), decoding the encoding of
/// any bytes gives them back.
pub proof fn lemma_binary_roundtrip(x: Seq<u8>, sep: Seq<char>)
    requires
        forall|k: int| 0 <= k < sep.len() ==> sep[k] != '0' && sep[k] != '1',
    ensures
        octets(binary_bits(join(bytes_binary(x), sep))) == x,
{
    assert(binary_bits(sep) == Seq::<int>::empty()) by {
        lemma_binary_bits_none(sep);
    }
    if x.len() > 0 {
        lemma_binary_bits_join(x, sep);
    } else {
        assert(join(bytes_binary(x), sep) =~= Seq::<char>::empty());
        assert(octets(Seq::<int>::empty()) =~= x);
    }
    lemma_octets_all(x);
}

proof fn lemma_binary_bits_none(sep: Seq<char>)
    requires
        forall|k: int| 0 <= k < sep.len() ==> sep[k] != '0' && sep[k] != '1',
    ensures
        binary_bits(sep) == Seq::<int>::empty(),
    decreases sep.len(),
{
    if sep.len() > 0 {
        let t = sep.drop_last();
        assert forall|k: int| 0 <= k < t.len() implies t[k] != '0' && t[k] != '1' by {
            assert(t[k] == sep[k]);
        }
        lemma_binary_bits_none(t);
        assert(sep[sep.len() - 1] != '0');
    }
}

// ---------------------------------------------------------------------------
// Affine round trip
// ---------------------------------------------------------------------------

proof fn lemma_inverse_found(a: int, m: int, from: int)
    requires
        1 <= from,
        m > 0,
    ensures
        inverse_from(a, m, from) matches Some(x) ==> (a * x) % m == 1,
    decreases m - from,
{
    if from < m && (a * from) % m != 1 {
        lemma_inverse_found(a, m, from + 1);
    }
}

proof fn lemma_affine_char_roundtrip(c: char, a: int, b: int, ai: int)
    requires
        ((a % 26) * ai) % 26 == 1,
    ensures
        affine_char(affine_char(c, a, b, None), a, b, Some(ai)) == c,
{
    match letter_base(c) {
        None => {},
        Some(base) => {
            let x = c as int - base;
            assert(0 <= x < 26);
            let y = (a * x + b) % 26;
            assert(0 <= y < 26);
            let e = (base + y) as char;
            assert(e as int == base + y);
            assert(letter_base(e) == Some(base));
            // ai * (y - b) = ai * (a x) = x (mod 26)
            vstd::arithmetic::div_mod::lemma_sub_mod_noop(a * x + b, b, 26);
            vstd::arithmetic::div_mod::lemma_mod_twice(b, 26);
            assert((y - b % 26) % 26 == (a * x) % 26) by {
                vstd::arithmetic::div_mod::lemma_sub_mod_noop(a * x + b, b, 26);
            }
            vstd::arithmetic::div_mod::lemma_sub_mod_noop_right(y, b, 26);
            assert((y - b) % 26 == (a * x) % 26);
            vstd::arithmetic::div_mod::lemma_mul_mod_noop_right(ai, y - b, 26);
            vstd::arithmetic::div_mod::lemma_mul_mod_noop_right(ai, a * x, 26);
            assert((ai * (y - b)) % 26 == (ai * (a * x)) % 26);
            assert(ai * (a * x) == (a * ai) * x) by (nonlinear_arith);
            vstd::arithmetic::div_mod::lemma_mul_mod_noop_left(a * ai, x, 26);
            vstd::arithmetic::div_mod::lemma_mul_mod_noop_left(a, ai, 26);
            assert(((a % 26) * ai) % 26 == (a * ai) % 26);
            assert((a * ai) % 26 == 1);
            assert(((a * ai) % 26) * x == x) by (nonlinear_arith)
                requires
                    (a * ai) % 26 == 1,
            ;
            vstd::arithmetic::div_mod::lemma_small_mod(x as nat, 26);
            assert((ai * (y - b)) % 26 == x);
        },
    }
}

/// Affine decryption undoes affine encryption: where `a` has an inverse
/// modulo 26 (decryption then succeeds), decrypting the encryption of any
/// text gives it back.
pub proof fn lemma_affine_roundtrip(text: Seq<char>, a: int, b: int)
    requires
        mod_inv_spec(a % 26, 26) is Some,
    ensures
        ({
            let enc = affine_spec(text, a, b, false);
            &&& enc is Ok
            &&& affine_spec(enc->Ok_0, a, b, true) == Ok::<Seq<char>, Seq<char>>(text)
        }),
{
    let ai = mod_inv_spec(a % 26, 26)->Some_0;
    lemma_inverse_found(a % 26, 26, 1);
    let enc = text.map_values(|c: char| affine_char(c, a, b, None));
    assert forall|k: int| 0 <= k < text.len() implies affine_char(enc[k], a, b, Some(ai)) == text[k] by {
        lemma_affine_char_roundtrip(text[k], a, b, ai);
    }
    assert(enc.map_values(|c: char| affine_char(c, a, b, Some(ai))) =~= text);
}


// ---------------------------------------------------------------------------
// Bacon round trip
// ---------------------------------------------------------------------------

/// The ASCII letters of `cs`, in order.
pub open spec fn ascii_letters(cs: Seq<char>) -> Seq<char>
    decreases cs.len(),
{
    if cs.len() == 0 {
        Seq::empty()
    } else if is_alpha(cs.last()) {
        ascii_letters(cs.drop_last()).push(cs.last())
    } else {
        ascii_letters(cs.drop_last())
    }
}

proof fn lemma_bacon_bits_concat(x: Seq<char>, y: Seq<char>)
    ensures
        bacon_bits(x + y) == bacon_bits(x) + bacon_bits(y),
    decreases y.len(),
{
    if y.len() == 0 {
        assert(x + y =~= x);
        assert(bacon_bits(x) + bacon_bits(y) =~= bacon_bits(x));
    } else {
        lemma_bacon_bits_concat(x, y.drop_last());
        assert((x + y).drop_last() =~= x + y.drop_last());
        assert((x + y).last() == y.last());
        match bacon_bit(y.last()) {
            Some(b) => {
                assert(bacon_bits(x) + bacon_bits(y) =~= (bacon_bits(x) + bacon_bits(y.drop_last())).push(b));
            },
            None => {},
        }
    }
}

proof fn lemma_bacon_groups_concat(x: Seq<int>, y: Seq<int>)
    requires
        x.len() % 5 == 0,
    ensures
        bacon_groups(x + y) == bacon_groups(x) + bacon_groups(y),
    decreases x.len(),
{
    if x.len() == 0 {
        assert(x + y =~= y);
        assert(bacon_groups(x) + bacon_groups(y) =~= bacon_groups(y));
    } else {
        lemma_bacon_groups_concat(x.skip(5), y);
        assert((x + y).skip(5) =~= x.skip(5) + y);
        assert(forall|k: int| 0 <= k < 5 ==> (x + y)[k] == x[k]);
    }
}

proof fn lemma_bacon_letter(v: int)
    requires
        0 <= v < 26,
    ensures
        bacon_groups(bacon_bits(bacon_group(v))) == seq![(65 + v) as char],
{
    let g = bacon_group(v);
    let bits = Seq::new(5, |k: int| (v / bit_weight(5, k)) % 2);
    assert(bacon_bits(g) =~= bits) by {
        assert(forall|k: int| 0 <= k < 5 ==> bacon_bit(#[trigger] g[k]) == Some((v / bit_weight(5, k)) % 2));
        lemma_bacon_bits_all(g);
    }
    let u = v as u32;
    assert(((u / 16) % 2) * 16 + ((u / 8) % 2) * 8 + ((u / 4) % 2) * 4 + ((u / 2) % 2) * 2 + u % 2 == u) by (bit_vector)
        requires
            u < 32,
    ;
    assert(bits.skip(5) =~= Seq::<int>::empty());
    assert(bacon_groups(bits.skip(5)) =~= Seq::<char>::empty());
}

/// Bacon decoding undoes Bacon encoding for text whose letters are
/// capitals: it gives back the letters, in order.
pub proof fn lemma_bacon_roundtrip(cs: Seq<char>)
    requires
        forall|i: int| 0 <= i < cs.len() ==> !('a' <= #[trigger] cs[i] && cs[i] <= 'z'),
    ensures
        bacon_groups(bacon_bits(bacon_letters(cs))) == ascii_letters(cs),
    decreases cs.len(),
{
    if cs.len() > 0 {
        let p = cs.drop_last();
        assert forall|i: int| 0 <= i < p.len() implies !('a' <= #[trigger] p[i] && p[i] <= 'z') by {
            assert(p[i] == cs[i]);
        }
        lemma_bacon_roundtrip(p);
        lemma_bacon_letters_len(p);
        if is_alpha(cs.last()) {
            let c = cs.last();
            assert(!('a' <= c && c <= 'z'));
            let v = c as int - 65;
            lemma_bacon_bits_concat(bacon_letters(p), bacon_group(v));
            lemma_bacon_bits_len(p);
            lemma_bacon_groups_concat(bacon_bits(bacon_letters(p)), bacon_bits(bacon_group(v)));
            lemma_bacon_letter(v);
            assert((65 + v) as char == c);
        }
    }
}

proof fn lemma_bacon_bits_all(s: Seq<char>)
    requires
        forall|k: int| 0 <= k < s.len() ==> bacon_bit(#[trigger] s[k]) is Some,
    ensures
        bacon_bits(s) == Seq::new(s.len(), |k: int| bacon_bit(s[k])->Some_0),
    decreases s.len(),
{
    if s.len() > 0 {
        let p = s.drop_last();
        assert forall|k: int| 0 <= k < p.len() implies bacon_bit(#[trigger] p[k]) is Some by {
            assert(p[k] == s[k]);
        }
        lemma_bacon_bits_all(p);
        assert(bacon_bit(s.last()) is Some);
        assert(bacon_bits(s) =~= Seq::new(s.len(), |k: int| bacon_bit(s[k])->Some_0));
    } else {
        assert(bacon_bits(s) =~= Seq::new(s.len(), |k: int| bacon_bit(s[k])->Some_0));
    }
}

proof fn lemma_bacon_letters_len(cs: Seq<char>)
    ensures
        bacon_letters(cs).len() % 5 == 0,
    decreases cs.len(),
{
    if cs.len() > 0 {
        lemma_bacon_letters_len(cs.drop_last());
    }
}

proof fn lemma_bacon_bits_len(cs: Seq<char>)
    ensures
        bacon_bits(bacon_letters(cs)).len() == bacon_letters(cs).len(),
    decreases cs.len(),
{
    if cs.len() > 0 {
        lemma_bacon_bits_len(cs.drop_last());
        if is_alpha(cs.last()) {
            let g = bacon_group(cs.last() as int - 65);
            lemma_bacon_bits_concat(bacon_letters(cs.drop_last()), g);
            assert(forall|k: int| 0 <= k < 5 ==> bacon_bit(#[trigger] g[k]) is Some);
            lemma_bacon_bits_all(g);
        }
    }
}


// ---------------------------------------------------------------------------
// A1Z26 round trip
// ---------------------------------------------------------------------------

proof fn lemma_decimal_digits(n: nat)
    ensures
        decimal(n).len() > 0,
        forall|k: int| 0 <= k < decimal(n).len() ==> is_digit(#[trigger] decimal(n)[k]),
        digits_value(decimal(n)) == n,
    decreases n,
{
    let d = decimal(n);
    if n >= 10 {
        lemma_decimal_digits(n / 10);
        assert(d.drop_last() =~= decimal(n / 10));
        vstd::arithmetic::div_mod::lemma_fundamental_div_mod(n as int, 10);
        assert(digits_value(d) == digits_value(decimal(n / 10)) * 10 + (d.last() as int - 48) as nat);
        assert(d.last() as int - 48 == n % 10);
    } else {
        assert(d.drop_last() =~= Seq::<char>::empty());
        assert(digits_value(d) == digits_value(d.drop_last()) * 10 + (d.last() as int - 48) as nat);
    }
}

proof fn lemma_runs_digits(p: Seq<char>, d: Seq<char>)
    requires
        forall|k: int| 0 <= k < d.len() ==> is_digit(#[trigger] d[k]),
    ensures
        digit_runs_state(p + d) == (digit_runs_state(p).0, digit_runs_state(p).1 + d),
    decreases d.len(),
{
    if d.len() == 0 {
        assert(p + d =~= p);
        assert(digit_runs_state(p).1 + d =~= digit_runs_state(p).1);
    } else {
        let q = d.drop_last();
        assert forall|k: int| 0 <= k < q.len() implies is_digit(#[trigger] q[k]) by {
            assert(q[k] == d[k]);
        }
        lemma_runs_digits(p, q);
        assert((p + d).drop_last() =~= p + q);
        assert((p + d).last() == d.last());
        assert(digit_runs_state(p).1 + d =~= (digit_runs_state(p).1 + q).push(d.last()));
    }
}

proof fn lemma_runs_separator(p: Seq<char>, sep: Seq<char>)
    requires
        sep.len() > 0,
        forall|k: int| 0 <= k < sep.len() ==> !is_digit(#[trigger] sep[k]),
    ensures
        digit_runs_state(p + sep) == (digit_runs(p), Seq::<char>::empty()),
    decreases sep.len(),
{
    let q = sep.drop_last();
    assert((p + sep).drop_last() =~= p + q);
    assert((p + sep).last() == sep.last());
    if q.len() > 0 {
        assert forall|k: int| 0 <= k < q.len() implies !is_digit(#[trigger] q[k]) by {
            assert(q[k] == sep[k]);
        }
        lemma_runs_separator(p, q);
    } else {
        assert(p + q =~= p);
    }
}

proof fn lemma_runs_of_join(ns: Seq<Seq<char>>, sep: Seq<char>)
    requires
        sep.len() > 0,
        forall|k: int| 0 <= k < sep.len() ==> !is_digit(#[trigger] sep[k]),
        forall|i: int|
            0 <= i < ns.len() ==> (#[trigger] ns[i]).len() > 0 && forall|k: int|
                0 <= k < ns[i].len() ==> is_digit(#[trigger] ns[i][k]),
    ensures
        digit_runs(join(ns, sep)) == ns,
    decreases ns.len(),
{
    if ns.len() == 0 {
        assert(digit_runs(Seq::<char>::empty()) =~= ns);
    } else if ns.len() == 1 {
        lemma_runs_digits(Seq::<char>::empty(), ns[0]);
        assert(Seq::<char>::empty() + ns[0] =~= ns[0]);
        assert(Seq::<char>::empty() + ns[0] =~= ns[0]);
        assert(digit_runs(ns[0]) =~= ns);
    } else {
        let front = ns.drop_last();
        assert forall|i: int|
            0 <= i < front.len() implies (#[trigger] front[i]).len() > 0 && forall|k: int|
                0 <= k < front[i].len() ==> is_digit(#[trigger] front[i][k]) by {
            assert(front[i] == ns[i]);
        }
        lemma_runs_of_join(front, sep);
        let j = join(front, sep);
        lemma_runs_separator(j, sep);
        lemma_runs_digits(j + sep, ns.last());
        assert(Seq::<char>::empty() + ns.last() =~= ns.last());
        assert(digit_runs(join(ns, sep)) =~= front.push(ns.last()));
        assert(front.push(ns.last()) =~= ns);
    }
}

proof fn lemma_a1z26_numbers_shape(cs: Seq<char>)
    ensures
        forall|i: int|
            0 <= i < a1z26_numbers(cs).len() ==> (#[trigger] a1z26_numbers(cs)[i]).len() > 0 && forall|k: int|
                0 <= k < a1z26_numbers(cs)[i].len() ==> is_digit(#[trigger] a1z26_numbers(cs)[i][k]),
    decreases cs.len(),
{
    if cs.len() > 0 {
        let p = cs.drop_last();
        lemma_a1z26_numbers_shape(p);
        let ns = a1z26_numbers(cs);
        let ps = a1z26_numbers(p);
        if is_alpha(cs.last()) {
            let d = decimal((upper(cs.last()) as int - 64) as nat);
            lemma_decimal_digits((upper(cs.last()) as int - 64) as nat);
            assert(ns == ps.push(d));
            assert forall|i: int| 0 <= i < ns.len() implies (#[trigger] ns[i]).len() > 0 && forall|k: int|
                0 <= k < ns[i].len() ==> is_digit(#[trigger] ns[i][k]) by {
                if i < ps.len() {
                    assert(ns[i] == ps[i]);
                } else {
                    assert(ns[i] == d);
                }
            }
        } else {
            assert(ns == ps);
        }
    }
}

proof fn lemma_a1z26_letters_of_numbers(cs: Seq<char>)
    ensures
        a1z26_letters(a1z26_numbers(cs)) == ascii_letters(cs).map_values(|c: char| upper(c)),
    decreases cs.len(),
{
    if cs.len() > 0 {
        lemma_a1z26_letters_of_numbers(cs.drop_last());
        let c = cs.last();
        if is_alpha(c) {
            let n = (upper(c) as int - 64) as nat;
            lemma_decimal_digits(n);
            let ns = a1z26_numbers(cs);
            assert(ns.drop_last() =~= a1z26_numbers(cs.drop_last()));
            assert(ns.last() == decimal(n));
            assert((64 + n) as char == upper(c));
            assert(ascii_letters(cs).map_values(|c: char| upper(c)) =~= ascii_letters(cs.drop_last()).map_values(
                |c: char| upper(c),
            ).push(upper(c)));
        }
    }
}

/// A1Z26 decoding undoes A1Z26 encoding with a separator that is not
/// empty and holds no digit: it gives back the letters, in capitals.
pub proof fn lemma_a1z26_roundtrip(cs: Seq<char>, sep: Seq<char>)
    requires
        sep.len() > 0,
        forall|k: int| 0 <= k < sep.len() ==> !is_digit(#[trigger] sep[k]),
    ensures
        a1z26_letters(digit_runs(join(a1z26_numbers(cs), sep))) == ascii_letters(cs).map_values(|c: char| upper(c)),
{
    lemma_a1z26_numbers_shape(cs);
    lemma_runs_of_join(a1z26_numbers(cs), sep);
    lemma_a1z26_letters_of_numbers(cs);
}

/// Affine encryption moves each letter within its own case: the letter at
/// alphabet position `x` (from `a` or `A`) becomes the letter at position
/// `(a * x + b) mod 26`; any other character is kept.
pub proof fn lemma_affine_encrypts_positions(text: Seq<char>, a: int, b: int, k: int)
    requires
        0 <= k < text.len(),
    ensures
        affine_spec(text, a, b, false) matches Ok(out) && out.len() == text.len() && ({
            let c = text[k];
            let o = out[k];
            &&& 'a' <= c <= 'z' ==> 'a' <= o <= 'z' && (o as int - 'a' as int) == (a * (c as int - 'a' as int) + b)
                % 26
            &&& 'A' <= c <= 'Z' ==> 'A' <= o <= 'Z' && (o as int - 'A' as int) == (a * (c as int - 'A' as int) + b)
                % 26
            &&& !('a' <= c <= 'z') && !('A' <= c <= 'Z') ==> o == c
        }),
{
    let c = text[k];
    if 'a' <= c && c <= 'z' {
        let y = (a * (c as int - 97) + b) % 26;
        assert(0 <= y < 26);
        assert((97 + y) as char as int == 97 + y);
    } else if 'A' <= c && c <= 'Z' {
        let y = (a * (c as int - 65) + b) % 26;
        assert(0 <= y < 26);
        assert((65 + y) as char as int == 65 + y);
    }
}

/// The binary text of a byte is its eight bits, most significant first:
/// digit `k` is `1` exactly where bit `7 - k` of the byte is set, and the
/// digits read as a base-2 number give the byte back.
pub proof fn lemma_byte_binary_bits(b: u8)
    ensures
        byte_binary(b).len() == 8,
        forall|k: int| 0 <= k < 8 ==> (#[trigger] byte_binary(b)[k] == '1') == ((b >> ((7 - k) as u8)) & 1u8 == 1u8),
        forall|k: int| 0 <= k < 8 ==> #[trigger] byte_binary(b)[k] == '0' || byte_binary(b)[k] == '1',
{
    assert forall|k: int| 0 <= k < 8 implies (#[trigger] byte_binary(b)[k] == '1') == ((b >> ((7 - k) as u8)) & 1u8
        == 1u8) by {
        let bb = b;
        assert(bb >> 7u8 == bb / 128 && bb >> 6u8 == bb / 64 && bb >> 5u8 == bb / 32 && bb >> 4u8 == bb / 16 && bb
            >> 3u8 == bb / 8 && bb >> 2u8 == bb / 4 && bb >> 1u8 == bb / 2 && bb >> 0u8 == bb) by (bit_vector);
        assert(forall|x: u8| #[trigger] (x & 1u8) == x % 2) by (bit_vector);
    }
}

/// Bacon encoding of one letter spells its position in the alphabet in
/// base 2 over five symbols, `A` for 0 and `B` for 1, most significant
/// first: reading the five symbols as binary digits gives the position.
pub proof fn lemma_bacon_spells_position(c: char)
    requires
        'A' <= c <= 'Z',
    ensures
        ({
            let g = bacon_letters(seq![c]);
            let d = |k: int| if g[k] == 'B' { 1int } else { 0int };
            &&& g.len() == 5
            &&& forall|k: int| 0 <= k < 5 ==> #[trigger] g[k] == 'A' || g[k] == 'B'
            &&& 16 * d(0) + 8 * d(1) + 4 * d(2) + 2 * d(3) + d(4) == c as int - 'A' as int
        }),
{
    let s = seq![c];
    assert(s.drop_last() =~= Seq::<char>::empty());
    assert(s.last() == c);
    assert(is_alpha(s.last()));
    assert(bacon_letters(s.drop_last()) == Seq::<char>::empty());
    assert(bacon_letters(s) == Seq::<char>::empty() + bacon_group(c as int - 65));
    let v = c as int - 65;
    assert(0 <= v < 26);
    let g = bacon_group(v);
    assert(Seq::<char>::empty() + g =~= g);
    assert(16 * ((v / 16) % 2) + 8 * ((v / 8) % 2) + 4 * ((v / 4) % 2) + 2 * ((v / 2) % 2) + v % 2 == v) by {
        assert(0 <= v < 26);
        assert(v / 16 == 0 || v / 16 == 1);
    }
}

/// A1Z26 numbers each letter by its place in the alphabet, either case:
/// `a` and `A` are 1, `z` and `Z` 26.
pub proof fn lemma_a1z26_numbers_positions(c: char)
    requires
        'a' <= c <= 'z' || 'A' <= c <= 'Z',
    ensures
        a1z26_numbers(seq![c]) == seq![decimal(
            (if 'a' <= c <= 'z' {
                c as int - 'a' as int
            } else {
                c as int - 'A' as int
            } + 1) as nat,
        )],
{
    let s = seq![c];
    assert(s.drop_last() =~= Seq::<char>::empty());
    assert(s.last() == c);
    assert(is_alpha(s.last()));
    assert(a1z26_numbers(s.drop_last()) == Seq::<Seq<char>>::empty());
    let n: nat = (if 'a' <= c && c <= 'z' {
        c as int - 'a' as int
    } else {
        c as int - 'A' as int
    } + 1) as nat;
    if 'a' <= c && c <= 'z' {
        assert(upper(c) as int == c as int - 32);
    } else {
        assert(upper(c) == c);
    }
    assert(((upper(c) as int - 64) as nat) == n);
    assert(a1z26_numbers(s) =~= seq![decimal(n)]);
}

/// The lower-case letter at alphabet position `k` (from 0).
pub open spec fn nth_lower(k: int) -> char {
    ('a' as int + k) as char
}

/// The Braille cells follow the alphabet's decades: `k` to `t` are `a` to
/// `j` with dot 3 added, `u`, `v`, `x`, `y`, `z` are `a` to `e` with dots 3
/// and 6, `w` is `j` with dot 6; `a` to `j` use only dots 1, 2, 4, 5; every
/// cell is the Braille block's first code point plus its dots, and the
/// space is the empty cell.
pub proof fn lemma_braille_decades()
    ensures
        forall|k: int| 0 <= k < 10 ==> {
            let top = braille_cell(#[trigger] nth_lower(k))->Some_0 as int;
            &&& braille_cell(nth_lower(k)) is Some
            &&& braille_cell(nth_lower(k + 10)) == Some((top + 4) as char)
            &&& 0x2800 < top < 0x2800 + 0x40
            &&& (top - 0x2800) % 8 < 4
            &&& (top - 0x2800) / 32 == 0
        },
        braille_cell('u') == Some((braille_cell('a')->Some_0 as int + 0x24) as char),
        braille_cell('v') == Some((braille_cell('b')->Some_0 as int + 0x24) as char),
        braille_cell('x') == Some((braille_cell('c')->Some_0 as int + 0x24) as char),
        braille_cell('y') == Some((braille_cell('d')->Some_0 as int + 0x24) as char),
        braille_cell('z') == Some((braille_cell('e')->Some_0 as int + 0x24) as char),
        braille_cell('w') == Some((braille_cell('j')->Some_0 as int + 0x20) as char),
        braille_cell(' ') == Some('\u{2800}'),
{
    assert forall|k: int| 0 <= k < 10 implies {
        let top = braille_cell(#[trigger] nth_lower(k))->Some_0 as int;
        &&& braille_cell(nth_lower(k)) is Some
        &&& braille_cell(nth_lower(k + 10)) == Some((top + 4) as char)
        &&& 0x2800 < top < 0x2800 + 0x40
        &&& (top - 0x2800) % 8 < 4
        &&& (top - 0x2800) / 32 == 0
    } by {
        assert(k == 0 || k == 1 || k == 2 || k == 3 || k == 4 || k == 5 || k == 6 || k == 7 || k == 8 || k == 9);
    }
}

/// Rotations move bits around the byte: rotating left by `n` and then right
/// by `n` gives the byte back, and rotating left by one doubles the byte
/// modulo 256 and carries its top bit round to the bottom.
pub proof fn lemma_rotations(b: u8, n: u32)
    requires
        n < 8,
    ensures
        rotr8(rotl8(b, n), n) == b,
        rotl8(rotr8(b, n), n) == b,
        rotl8(b, 1) as int == (2 * b as int) % 256 + b as int / 128,
{
    if n != 0 {
        assert(((((((b << n) | (b >> (8 - n) as u32)) as u8) >> n) | ((((b << n) | (b >> (8 - n) as u32)) as u8) << (8
            - n) as u32)) as u8) == b && ((((((b >> n) | (b << (8 - n) as u32)) as u8) << n) | ((((b >> n) | (b << (8
            - n) as u32)) as u8) >> (8 - n) as u32)) as u8) == b) by (bit_vector)
            requires
                0 < n < 8,
        ;
    }
    assert((((b << 1u32) | (b >> 7u32)) as u8) == ((2 * b) % 256 + b / 128) as u8) by (bit_vector);
}

} // verus!
