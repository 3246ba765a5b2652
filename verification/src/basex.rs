//! Base-N codecs (the CyberChef alphabets and edge cases): alphabet ranges,
//! big-number radix conversion (Base58 / Base62), Base32, Base45, Base85 and
//! Base92.
use vstd::prelude::*;
use vstd::arithmetic::div_mod::lemma_fundamental_div_mod_converse;
use crate::error::CoreError;
use crate::text::{chars_of, push_char, push_str, push_decimal, decimal};

verus! {

// Alphabet presets (`-` denotes a range, `\-` a literal dash).
pub const B32_STANDARD: &'static str = "A-Z2-7=";
pub const B32_HEX: &'static str = "0-9A-V=";
pub const B58_BITCOIN: &'static str = "123456789ABCDEFGHJKLMNPQRSTUVWXYZabcdefghijkmnopqrstuvwxyz";
pub const B58_RIPPLE: &'static str = "rpshnaf39wBUDNEGHJKLM4PQRST7VWXYZ2bcdeCg65jkm8oFqi1tuvAxyz";
pub const B62_STANDARD: &'static str = "0-9A-Za-z";
pub const B45_ALPHABET: &'static str = "0-9A-Z $%*+\\-./:";
pub const B85_STANDARD: &'static str = "!-u";
pub const B85_Z85: &'static str = "0-9a-zA-Z.\\-:+=^!/*?&<>()[]{}@%$#";
pub const B85_IPV6: &'static str = "0-9A-Za-z!#$%&()*+\\-;<=>?@^_`{|}~";

// ---------------------------------------------------------------------------
// Positional numbers
// ---------------------------------------------------------------------------

/// `b` to the power `e`.
pub open spec fn ipow(b: int, e: nat) -> int
    decreases e,
{
    if e == 0 {
        1
    } else {
        b * ipow(b, (e - 1) as nat)
    }
}

/// Value of little-endian digits in base `b`: `d[0] + b*d[1] + b^2*d[2] + ...`.
pub open spec fn le_val(d: Seq<int>, b: int) -> int
    decreases d.len(),
{
    if d.len() == 0 {
        0
    } else {
        d[0] + b * le_val(d.drop_first(), b)
    }
}

/// Value of big-endian digits in base `b` (most significant first).
pub open spec fn be_val(d: Seq<int>, b: int) -> int
    decreases d.len(),
{
    if d.len() == 0 {
        0
    } else {
        be_val(d.drop_last(), b) * b + d.last()
    }
}

/// The little-endian digits of `v` in base `b`, without trailing zeros
/// (empty for zero).
pub open spec fn digits_le(v: nat, b: nat) -> Seq<int>
    decreases v,
    via digits_le_decreases
{
    if v == 0 || b < 2 {
        Seq::empty()
    } else {
        seq![(v % b) as int] + digits_le(v / b, b)
    }
}

#[via_fn]
proof fn digits_le_decreases(v: nat, b: nat) {
    if !(v == 0 || b < 2) {
        assert(v / b < v) by (nonlinear_arith)
            requires
                v > 0,
                b >= 2,
        ;
    }
}

/// Digits in `[0, b)` with a nonzero most significant digit, if any.
pub open spec fn canonical(d: Seq<int>, b: int) -> bool {
    &&& forall|i: int| 0 <= i < d.len() ==> 0 <= #[trigger] d[i] < b
    &&& d.len() > 0 ==> d.last() != 0
}

pub open spec fn usize_ints(s: Seq<usize>) -> Seq<int> {
    s.map_values(|x: usize| x as int)
}

pub open spec fn byte_ints(s: Seq<u8>) -> Seq<int> {
    s.map_values(|x: u8| x as int)
}

/// Number of leading elements of `s` equal to `x`.
pub open spec fn leading<A>(s: Seq<A>, x: A) -> nat
    decreases s.len(),
{
    if s.len() > 0 && s[0] == x {
        1 + leading(s.drop_first(), x)
    } else {
        0
    }
}

proof fn lemma_leading<A>(s: Seq<A>, x: A, z: int)
    requires
        0 <= z <= s.len(),
        forall|k: int| 0 <= k < z ==> s[k] == x,
        z == s.len() || s[z] != x,
    ensures
        leading(s, x) == z,
    decreases z,
{
    if z > 0 {
        lemma_leading(s.drop_first(), x, z - 1);
    }
}

proof fn lemma_le_val_push(d: Seq<int>, x: int, b: int)
    ensures
        le_val(d.push(x), b) == le_val(d, b) + ipow(b, d.len()) * x,
    decreases d.len(),
{
    if d.len() == 0 {
        assert(d.push(x).drop_first() =~= Seq::<int>::empty());
        assert(d.push(x)[0] == x);
        assert(le_val(d.push(x).drop_first(), b) == 0);
        assert(le_val(d.push(x), b) == x + b * 0);
        assert(ipow(b, 0) == 1);
        assert(le_val(d, b) == 0);
    } else {
        assert(d.push(x).drop_first() =~= d.drop_first().push(x));
        assert(d.push(x)[0] == d[0]);
        lemma_le_val_push(d.drop_first(), x, b);
        let r = le_val(d.drop_first(), b);
        let p = ipow(b, (d.len() - 1) as nat);
        assert(ipow(b, d.len()) == b * p);
        assert(b * (r + p * x) == b * r + (b * p) * x) by (nonlinear_arith);
        assert(le_val(d.push(x), b) == d[0] + b * (r + p * x));
        assert(le_val(d, b) == d[0] + b * r);
    }
}

proof fn lemma_le_val_bounds(d: Seq<int>, b: int)
    requires
        b >= 1,
        forall|i: int| 0 <= i < d.len() ==> 0 <= #[trigger] d[i] < b,
    ensures
        0 <= le_val(d, b) < ipow(b, d.len()),
    decreases d.len(),
{
    if d.len() == 0 {
    } else {
        let t = d.drop_first();
        assert forall|i: int| 0 <= i < t.len() implies 0 <= #[trigger] t[i] < b by {
            assert(t[i] == d[i + 1]);
        }
        lemma_le_val_bounds(t, b);
        let r = le_val(t, b);
        let p = ipow(b, t.len());
        assert(ipow(b, d.len()) == b * p);
        let d0 = d[0];
        assert(0 <= d0 < b);
        assert(0 <= d0 + b * r < b * p) by (nonlinear_arith)
            requires
                0 <= d0 < b,
                0 <= r < p,
                b >= 1,
        {
            assert(b * r <= b * (p - 1));
        }
    }
}

proof fn lemma_le_val_lower(d: Seq<int>, b: int)
    requires
        b >= 1,
        d.len() > 0,
        canonical(d, b),
    ensures
        le_val(d, b) >= ipow(b, (d.len() - 1) as nat),
    decreases d.len(),
{
    let t = d.drop_first();
    assert forall|i: int| 0 <= i < t.len() implies 0 <= #[trigger] t[i] < b by {
        assert(t[i] == d[i + 1]);
    }
    if d.len() == 1 {
        assert(le_val(t, b) == 0);
    } else {
        assert(t.last() == d.last());
        lemma_le_val_lower(t, b);
        let r = le_val(t, b);
        let p = ipow(b, (t.len() - 1) as nat);
        assert(ipow(b, (d.len() - 1) as nat) == b * p);
        assert(b * r >= b * p) by (nonlinear_arith)
            requires
                r >= p,
                b >= 1,
        ;
    }
}

/// Canonical digits are the digits of their value.
proof fn lemma_canonical_digits(d: Seq<int>, b: int)
    requires
        b >= 2,
        canonical(d, b),
    ensures
        le_val(d, b) >= 0,
        digits_le(le_val(d, b) as nat, b as nat) == d,
        d.len() > 0 <==> le_val(d, b) > 0,
    decreases d.len(),
{
    if d.len() > 0 {
        let t = d.drop_first();
        assert forall|i: int| 0 <= i < t.len() implies 0 <= #[trigger] t[i] < b by {
            assert(t[i] == d[i + 1]);
        }
        if t.len() > 0 {
            assert(t.last() == d.last());
        }
        lemma_canonical_digits(t, b);
        let r = le_val(t, b);
        let v = d[0] + b * r;
        assert(le_val(d, b) == v);
        if t.len() == 0 {
            assert(d[0] == d.last());
            assert(d[0] > 0);
        } else {
            assert(r > 0);
        }
        assert(d[0] + b * r > 0) by (nonlinear_arith)
            requires
                r >= 0,
                b >= 2,
                0 <= d[0],
                r > 0 || d[0] > 0,
        ;
        assert(b * r == r * b) by (nonlinear_arith);
        lemma_fundamental_div_mod_converse(v, b, r, d[0]);
        assert(digits_le(v as nat, b as nat) == seq![d[0]] + digits_le(r as nat, b as nat));
        assert(seq![d[0]] + t =~= d);
    }
}

proof fn lemma_map_take_usize(s: Seq<usize>, j: int)
    requires
        0 <= j <= s.len(),
    ensures
        usize_ints(s.take(j)) == usize_ints(s).take(j),
{
    assert(usize_ints(s.take(j)) =~= usize_ints(s).take(j));
}

/// Multiply the little-endian number `digits` (base `base`) by `mult` and add
/// `add`, carrying as the schoolbook algorithm does.
fn mul_add(digits: &mut Vec<usize>, base: usize, mult: usize, add: usize)
    requires
        2 <= base,
        1 <= mult,
        add < mult,
        base * mult <= usize::MAX,
        canonical(usize_ints(old(digits)@), base as int),
    ensures
        canonical(usize_ints(final(digits)@), base as int),
        le_val(usize_ints(final(digits)@), base as int) == le_val(usize_ints(old(digits)@), base as int)
            * mult + add,
{
    let ghost old_d = digits@;
    let ghost b = base as int;
    let ghost m = mult as int;
    let n = digits.len();
    let mut carry = add;
    let mut j: usize = 0;
    proof {
        assert(usize_ints(digits@.take(0)) =~= Seq::<int>::empty());
        assert(usize_ints(old_d.take(0)) =~= Seq::<int>::empty());
    }
    while j < n
        invariant
            n == digits.len(),
            n == old_d.len(),
            j <= n,
            carry < mult,
            2 <= base,
            1 <= mult,
            b == base,
            m == mult,
            base * mult <= usize::MAX,
            canonical(usize_ints(old_d), b),
            forall|k: int| j <= k < n ==> digits@[k] == old_d[k],
            forall|k: int| 0 <= k < j ==> #[trigger] digits@[k] < base,
            le_val(usize_ints(digits@.take(j as int)), b) + ipow(b, j as nat) * carry == le_val(
                usize_ints(old_d.take(j as int)),
                b,
            ) * m + add,
        decreases n - j,
    {
        let ghost pre = digits@;
        let r = digits[j];
        assert(usize_ints(old_d)[j as int] == r as int);
        assert(r < base);
        assert(r * mult <= (base - 1) * mult) by (nonlinear_arith)
            requires
                r < base,
        ;
        assert((base - 1) * mult + mult == base * mult) by (nonlinear_arith);
        let t = carry + r * mult;
        assert(t < base * mult);
        digits.set(j, t % base);
        carry = t / base;
        proof {
            let tt = t as int;
            assert(tt < b * m);
            assert(tt == b * carry + (t % base)) by (nonlinear_arith)
                requires
                    b > 0,
                    carry == tt / b,
                    (t % base) as int == tt % b,
            ;
            vstd::arithmetic::div_mod::lemma_multiply_divide_lt(tt, b, m);
            assert(carry < mult);
            assert(digits@.take(j + 1) =~= pre.take(j as int).push((t % base) as usize));
            assert(old_d.take(j + 1) =~= old_d.take(j as int).push(r));
            assert(usize_ints(digits@.take(j + 1)) =~= usize_ints(pre.take(j as int)).push(
                (t % base) as int,
            ));
            assert(usize_ints(old_d.take(j + 1)) =~= usize_ints(old_d.take(j as int)).push(
                r as int,
            ));
            lemma_le_val_push(usize_ints(pre.take(j as int)), (t % base) as int, b);
            lemma_le_val_push(usize_ints(old_d.take(j as int)), r as int, b);
            let pj = ipow(b, j as nat);
            assert(ipow(b, (j + 1) as nat) == b * pj);
            let lo = le_val(usize_ints(old_d.take(j as int)), b);
            let ln = le_val(usize_ints(pre.take(j as int)), b);
            assert(ln + pj * (t % base) + (b * pj) * carry == ln + pj * tt) by (nonlinear_arith)
                requires
                    tt == b * carry + (t % base),
            ;
            assert((lo + pj * r) * m + add == lo * m + add + pj * (r * m)) by (nonlinear_arith);
            assert(pj * tt == pj * (r * m) + pj * (tt - r * m)) by (nonlinear_arith);
        }
        j += 1;
    }
    proof {
        assert(digits@.take(n as int) =~= digits@);
        assert(old_d.take(n as int) =~= old_d);
    }
    let ghost mid = digits@;
    let ghost target = le_val(usize_ints(old_d), b) * m + add;
    while carry > 0
        invariant
            2 <= base,
            b == base,
            n <= digits.len(),
            mid.len() == n,
            forall|k: int| 0 <= k < n ==> digits@[k] == mid[k],
            forall|k: int| 0 <= k < digits.len() ==> #[trigger] digits@[k] < base,
            digits.len() > n ==> (digits@.last() != 0 || carry > 0),
            le_val(usize_ints(digits@), b) + ipow(b, digits.len() as nat) * carry == target,
        decreases carry,
    {
        let ghost pre = digits@;
        let dgt = carry % base;
        digits.push(dgt);
        let ghost c0 = carry as int;
        carry = carry / base;
        proof {
            assert(usize_ints(digits@) =~= usize_ints(pre).push(dgt as int));
            lemma_le_val_push(usize_ints(pre), dgt as int, b);
            let p = ipow(b, pre.len() as nat);
            assert(ipow(b, digits.len() as nat) == b * p);
            assert(c0 == b * carry + dgt) by (nonlinear_arith)
                requires
                    b > 0,
                    carry == c0 / b,
                    dgt == c0 % b,
            ;
            assert(p * dgt + (b * p) * carry == p * c0) by (nonlinear_arith)
                requires
                    c0 == b * carry + dgt,
            ;
            if carry == 0 {
                assert(dgt == c0) by (nonlinear_arith)
                    requires
                        c0 == b * carry + dgt,
                        carry == 0,
                ;
            }
            assert(carry < c0) by (nonlinear_arith)
                requires
                    b >= 2,
                    carry == c0 / b,
                    c0 > 0,
            ;
        }
    }
    proof {
        let fin = usize_ints(digits@);
        assert forall|i: int| 0 <= i < fin.len() implies 0 <= #[trigger] fin[i] < b by {
            assert(digits@[i] < base);
        }
        if digits.len() == n && n > 0 {
            let od = usize_ints(old_d);
            lemma_le_val_lower(od, b);
            lemma_le_val_bounds(od, b);
            assert(le_val(od, b) * m >= le_val(od, b)) by (nonlinear_arith)
                requires
                    m >= 1,
                    le_val(od, b) >= 0,
            ;
            if fin.last() == 0 {
                let f0 = fin.drop_last();
                assert(fin =~= f0.push(0));
                lemma_le_val_push(f0, 0, b);
                assert forall|i: int| 0 <= i < f0.len() implies 0 <= #[trigger] f0[i] < b by {
                    assert(f0[i] == fin[i]);
                }
                lemma_le_val_bounds(f0, b);
                assert(false);
            }
        }
    }
}

// ---------------------------------------------------------------------------
// Alphabet lookup
// ---------------------------------------------------------------------------

/// Index of the first occurrence of `c` in `alph`.
pub open spec fn index_in(alph: Seq<char>, c: char) -> Option<nat>
    decreases alph.len(),
{
    if alph.len() == 0 {
        None
    } else if alph[0] == c {
        Some(0)
    } else {
        match index_in(alph.drop_first(), c) {
            Some(i) => Some(i + 1),
            None => None,
        }
    }
}

pub(crate) proof fn lemma_index_in(alph: Seq<char>, c: char)
    ensures
        match index_in(alph, c) {
            Some(i) => i < alph.len() && alph[i as int] == c && forall|k: int|
                0 <= k < i ==> alph[k] != c,
            None => !alph.contains(c),
        },
    decreases alph.len(),
{
    if alph.len() > 0 {
        lemma_index_in(alph.drop_first(), c);
        if alph[0] != c {
            match index_in(alph.drop_first(), c) {
                Some(i) => {
                    assert forall|k: int| 0 <= k < i + 1 implies alph[k] != c by {
                        if k > 0 {
                            assert(alph[k] == alph.drop_first()[k - 1]);
                        }
                    }
                },
                None => {
                    if alph.contains(c) {
                        let k = choose|k: int| 0 <= k < alph.len() && alph[k] == c;
                        assert(alph.drop_first()[k - 1] == c);
                    }
                },
            }
        }
    }
}

/// Position of `c` in the alphabet (its first occurrence).
pub(crate) fn position(alph: &[char], c: char) -> (r: Option<usize>)
    ensures
        r matches Some(i) ==> index_in(alph@, c) == Some(i as nat),
        r is None ==> index_in(alph@, c) is None,
{
    let mut i: usize = 0;
    while i < alph.len()
        invariant
            i <= alph.len(),
            forall|k: int| 0 <= k < i ==> alph@[k] != c,
        decreases alph.len() - i,
    {
        if alph[i] == c {
            proof {
                lemma_index_in(alph@, c);
                match index_in(alph@, c) {
                    Some(j) => {
                        if j < i {
                        } else if j > i {
                        }
                    },
                    None => {
                        assert(alph@.contains(c));
                    },
                }
            }
            return Some(i);
        }
        i += 1;
    }
    proof {
        lemma_index_in(alph@, c);
        match index_in(alph@, c) {
            Some(j) => {
                assert(alph@[j as int] == c);
            },
            None => {},
        }
    }
    None
}

// ---------------------------------------------------------------------------
// Base58 / Base62: big-number radix conversion
// ---------------------------------------------------------------------------

/// Spell digits (most significant first) with the alphabet.
pub open spec fn spell(d: Seq<int>, alph: Seq<char>) -> Seq<char> {
    d.map_values(|x: int| alph[x])
}

pub open spec fn all_zero(s: Seq<u8>) -> bool {
    forall|k: int| 0 <= k < s.len() ==> s[k] == 0
}

/// What `radix_encode` gives: the base-`alph.len()` digits of the input read
/// as a big-endian number, with no leading zero digit; with `preserve_zeros`
/// each leading zero byte becomes a leading `alph[0]`, without it a zero value
/// is the single digit `alph[0]`.
pub open spec fn radix_encode_spec(input: Seq<u8>, alph: Seq<char>, preserve_zeros: bool) -> Seq<
    char,
> {
    if input.len() == 0 {
        Seq::empty()
    } else {
        let d = digits_le(be_val(byte_ints(input), 256) as nat, alph.len());
        let body = if d.len() == 0 && !preserve_zeros {
            seq![alph[0]]
        } else {
            spell(d.reverse(), alph)
        };
        Seq::new(
            if preserve_zeros {
                leading(input, 0u8)
            } else {
                0
            },
            |k: int| alph[0],
        ) + body
    }
}

proof fn lemma_be_val_take(s: Seq<u8>, i: int)
    requires
        0 <= i < s.len(),
    ensures
        be_val(byte_ints(s.take(i + 1)), 256) == be_val(byte_ints(s.take(i)), 256) * 256 + s[i],
{
    assert(byte_ints(s.take(i + 1)).drop_last() =~= byte_ints(s.take(i)));
}

/// Encode bytes as a base-N string, N being the alphabet's length.
/// `preserve_zeros` keeps leading zero bytes as leading `alphabet[0]` (the
/// Base58 behaviour); without it they are dropped (Base62 / big-number).
pub fn radix_encode(input: &[u8], alphabet: &[char], preserve_zeros: bool) -> (s: String)
    requires
        input@.len() > 0 ==> alphabet@.len() >= 1,
        !all_zero(input@) ==> alphabet@.len() >= 2,
        alphabet@.len() * 256 <= usize::MAX,
    ensures
        s@ == radix_encode_spec(input@, alphabet@, preserve_zeros),
{
    if input.len() == 0 {
        return String::new();
    }
    let base = alphabet.len();
    let n = input.len();
    let mut zero_prefix: usize = 0;
    if preserve_zeros {
        while zero_prefix < n && input[zero_prefix] == 0
            invariant
                zero_prefix <= n,
                n == input.len(),
                forall|k: int| 0 <= k < zero_prefix ==> input@[k] == 0,
            decreases n - zero_prefix,
        {
            zero_prefix += 1;
        }
        proof {
            lemma_leading(input@, 0u8, zero_prefix as int);
        }
    }
    let mut result: Vec<usize> = Vec::new();
    let mut i: usize = 0;
    proof {
        assert(usize_ints(result@) =~= Seq::<int>::empty());
        assert(byte_ints(input@.take(0)) =~= Seq::<int>::empty());
    }
    while i < n
        invariant
            n == input.len(),
            base == alphabet.len(),
            i <= n,
            !all_zero(input@) ==> base >= 2,
            base * 256 <= usize::MAX,
            canonical(usize_ints(result@), base as int),
            base < 2 ==> result@.len() == 0,
            le_val(usize_ints(result@), base as int) == be_val(
                byte_ints(input@.take(i as int)),
                256,
            ),
        decreases n - i,
    {
        proof {
            lemma_be_val_take(input@, i as int);
        }
        if base >= 2 {
            mul_add(&mut result, base, 256, input[i] as usize);
        } else {
            assert(input@[i as int] == 0);
        }
        i += 1;
    }
    proof {
        assert(input@.take(n as int) =~= input@);
    }
    let ghost v = be_val(byte_ints(input@), 256);
    proof {
        if base >= 2 {
            lemma_canonical_digits(usize_ints(result@), base as int);
        } else {
            assert(digits_le(v as nat, base as nat) =~= Seq::<int>::empty());
        }
    }
    let ghost d = digits_le(v as nat, base as nat);
    assert(usize_ints(result@) == d);
    let ghost padded = !preserve_zeros && result.len() == 0;
    if !preserve_zeros && result.len() == 0 {
        result.push(0);
    }
    let mut s = String::new();
    let mut k: usize = 0;
    while k < zero_prefix
        invariant
            k <= zero_prefix,
            alphabet@.len() >= 1,
            s@ == Seq::new(k as nat, |q: int| alphabet@[0]),
        decreases zero_prefix - k,
    {
        push_char(&mut s, alphabet[0]);
        k += 1;
        assert(s@ =~= Seq::new(k as nat, |q: int| alphabet@[0]));
    }
    let ghost head = s@;
    let ghost body = if padded {
        seq![alphabet@[0]]
    } else {
        spell(d.reverse(), alphabet@)
    };
    let m = result.len();
    let mut k: usize = m;
    proof {
        if padded {
            assert(usize_ints(result@) =~= seq![0int]);
        }
        assert(forall|q: int| 0 <= q < m ==> (#[trigger] result@[q]) < base) by {
            assert forall|q: int| 0 <= q < m implies (#[trigger] result@[q]) < base by {
                if !padded {
                    assert(usize_ints(result@)[q] == result@[q] as int);
                }
            }
        }
        assert forall|q: int| 0 <= q < m implies body[q] == alphabet@[result@[m - 1 - q] as int] by {
            if !padded {
                assert(d.reverse()[q] == d[m - 1 - q]);
                assert(usize_ints(result@)[m - 1 - q] == result@[m - 1 - q] as int);
            }
        }
    }
    while k > 0
        invariant
            k <= m,
            m == result.len(),
            base == alphabet.len(),
            forall|q: int| 0 <= q < m ==> (#[trigger] result@[q]) < base,
            body.len() == m,
            forall|q: int| 0 <= q < m ==> body[q] == alphabet@[result@[m - 1 - q] as int],
            s@ == head + body.take((m - k) as int),
        decreases k,
    {
        k -= 1;
        push_char(&mut s, alphabet[result[k]]);
        assert(body.take((m - k) as int) =~= body.take((m - k - 1) as int).push(body[(m - 1 - k) as int]));
    }
    proof {
        assert(body.take(m as int) =~= body);
        if !preserve_zeros {
            assert(head =~= Seq::new(0, |q: int| alphabet@[0]));
        }
        assert(s@ =~= radix_encode_spec(input@, alphabet@, preserve_zeros));
    }
    s
}

/// The alphabet positions of the characters of `cs` that occur in `alph`, in
/// order (characters outside the alphabet are skipped).
pub open spec fn char_digits(cs: Seq<char>, alph: Seq<char>) -> Seq<int>
    decreases cs.len(),
{
    if cs.len() == 0 {
        Seq::empty()
    } else {
        let rest = char_digits(cs.drop_last(), alph);
        match index_in(alph, cs.last()) {
            Some(i) => rest.push(i as int),
            None => rest,
        }
    }
}

/// Position of the first character of `cs` that is not in `alph`.
pub open spec fn first_invalid(cs: Seq<char>, alph: Seq<char>) -> Option<nat>
    decreases cs.len(),
{
    if cs.len() == 0 {
        None
    } else if index_in(alph, cs[0]) is None {
        Some(0)
    } else {
        match first_invalid(cs.drop_first(), alph) {
            Some(p) => Some(p + 1),
            None => None,
        }
    }
}

proof fn lemma_first_invalid(cs: Seq<char>, alph: Seq<char>, z: int)
    requires
        0 <= z <= cs.len(),
        forall|k: int| 0 <= k < z ==> index_in(alph, #[trigger] cs[k]) is Some,
    ensures
        z == cs.len() ==> first_invalid(cs, alph) is None,
        z < cs.len() && index_in(alph, cs[z]) is None ==> first_invalid(cs, alph) == Some(
            z as nat,
        ),
    decreases z,
{
    if z > 0 {
        let t = cs.drop_first();
        assert forall|k: int| 0 <= k < z - 1 implies index_in(alph, #[trigger] t[k]) is Some by {
            assert(t[k] == cs[k + 1]);
        }
        assert(index_in(alph, cs[0]) is Some);
        lemma_first_invalid(t, alph, z - 1);
        if z < cs.len() {
            assert(t[z - 1] == cs[z]);
        }
    }
}

/// The message of the error for a character outside the alphabet.
pub open spec fn bad_char_message(c: char, pos: nat) -> Seq<char> {
    "字符 '"@ + seq![c] + "' (位置 "@ + decimal(pos) + ") 不在码表中"@
}

/// What `radix_decode` gives when it succeeds: the characters' alphabet
/// positions read as a big-endian base-`alph.len()` number, written as bytes
/// with no leading zero byte; with `preserve_zeros` each leading `alph[0]`
/// becomes a leading zero byte.
pub open spec fn radix_decode_spec(cs: Seq<char>, alph: Seq<char>, preserve_zeros: bool) -> Seq<u8> {
    if cs.len() == 0 {
        Seq::empty()
    } else {
        let v = be_val(char_digits(cs, alph), alph.len() as int);
        Seq::new(
            if preserve_zeros {
                leading(cs, alph[0])
            } else {
                0
            },
            |k: int| 0u8,
        ) + digits_le(v as nat, 256).reverse().map_values(|x: int| x as u8)
    }
}

/// Decode a base-N string, N being the alphabet's length. With `strip`,
/// characters outside the alphabet are skipped; without it the first one is
/// an error.
pub fn radix_decode(input: &str, alphabet: &[char], preserve_zeros: bool, strip: bool) -> (r:
    Result<Vec<u8>, CoreError>)
    requires
        preserve_zeros && input@.len() > 0 ==> alphabet@.len() >= 1,
        alphabet@.len() * 256 <= usize::MAX,
    ensures
        match r {
            Ok(bytes) => (strip || first_invalid(input@, alphabet@) is None) && bytes@
                == radix_decode_spec(input@, alphabet@, preserve_zeros),
            Err(e) => !strip && exists|p: nat|
                first_invalid(input@, alphabet@) == Some(p) && e.is_parse_with(
                    bad_char_message(input@[p as int], p),
                ),
        },
{
    let chars = chars_of(input);
    let n = chars.len();
    if n == 0 {
        return Ok(Vec::new());
    }
    let base = alphabet.len();
    let mut zero_prefix: usize = 0;
    if preserve_zeros {
        while zero_prefix < n && chars[zero_prefix] == alphabet[0]
            invariant
                zero_prefix <= n,
                n == chars.len(),
                alphabet@.len() >= 1,
                forall|k: int| 0 <= k < zero_prefix ==> chars@[k] == alphabet@[0],
            decreases n - zero_prefix,
        {
            zero_prefix += 1;
        }
        proof {
            lemma_leading(chars@, alphabet@[0], zero_prefix as int);
        }
    }
    let mut result: Vec<usize> = Vec::new();
    let mut i: usize = 0;
    proof {
        assert(usize_ints(result@) =~= Seq::<int>::empty());
        assert(chars@.take(0) =~= Seq::<char>::empty());
    }
    while i < n
        invariant
            n == chars.len(),
            chars@ == input@,
            base == alphabet.len(),
            i <= n,
            base * 256 <= usize::MAX,
            canonical(usize_ints(result@), 256),
            le_val(usize_ints(result@), 256) == be_val(
                char_digits(chars@.take(i as int), alphabet@),
                base as int,
            ),
            !strip ==> forall|k: int| 0 <= k < i ==> index_in(alphabet@, #[trigger] chars@[k]) is Some,
        decreases n - i,
    {
        let c = chars[i];
        let ghost prev = chars@.take(i as int);
        proof {
            assert(chars@.take(i + 1).drop_last() =~= prev);
            assert(chars@.take(i + 1).last() == c);
        }
        match position(alphabet, c) {
            Some(idx) => {
                proof {
                    lemma_index_in(alphabet@, c);
                    let cd = char_digits(prev, alphabet@);
                    assert(char_digits(chars@.take(i + 1), alphabet@) == cd.push(idx as int));
                    assert(cd.push(idx as int).drop_last() =~= cd);
                    assert(be_val(cd.push(idx as int), base as int) == be_val(cd, base as int)
                        * base + idx);
                }
                mul_add(&mut result, 256, base, idx);
            },
            None => {
                if !strip {
                    proof {
                        lemma_first_invalid(chars@, alphabet@, i as int);
                    }
                    let mut msg = String::new();
                    push_str(&mut msg, "字符 '");
                    push_char(&mut msg, c);
                    push_str(&mut msg, "' (位置 ");
                    push_decimal(&mut msg, i as u64);
                    push_str(&mut msg, ") 不在码表中");
                    assert(msg@ =~= bad_char_message(c, i as nat));
                    let e = CoreError::Parse(msg);
                    assert(e.is_parse_with(bad_char_message(input@[i as int], i as nat)));
                    return Err(e);
                }
                assert(char_digits(chars@.take(i + 1), alphabet@) == char_digits(
                    prev,
                    alphabet@,
                ));
            },
        }
        i += 1;
    }
    proof {
        assert(chars@.take(n as int) =~= chars@);
        if !strip {
            lemma_first_invalid(chars@, alphabet@, n as int);
        }
        lemma_canonical_digits(usize_ints(result@), 256);
    }
    let ghost v = be_val(char_digits(chars@, alphabet@), base as int);
    let ghost d = digits_le(v as nat, 256);
    assert(usize_ints(result@) == d);
    let mut out: Vec<u8> = Vec::new();
    let mut k: usize = 0;
    while k < zero_prefix
        invariant
            k <= zero_prefix,
            out@ == Seq::new(k as nat, |q: int| 0u8),
        decreases zero_prefix - k,
    {
        out.push(0);
        k += 1;
        assert(out@ =~= Seq::new(k as nat, |q: int| 0u8));
    }
    let ghost head = out@;
    let ghost body = d.reverse().map_values(|x: int| x as u8);
    let m = result.len();
    let mut k: usize = m;
    proof {
        assert forall|q: int| 0 <= q < m implies (#[trigger] result@[q]) < 256 by {
            assert(usize_ints(result@)[q] == result@[q] as int);
        }
        assert forall|q: int| 0 <= q < m implies body[q] == result@[m - 1 - q] as u8 by {
            assert(d.reverse()[q] == d[m - 1 - q]);
            assert(usize_ints(result@)[m - 1 - q] == result@[m - 1 - q] as int);
        }
    }
    while k > 0
        invariant
            k <= m,
            m == result.len(),
            forall|q: int| 0 <= q < m ==> (#[trigger] result@[q]) < 256,
            body.len() == m,
            forall|q: int| 0 <= q < m ==> body[q] == result@[m - 1 - q] as u8,
            out@ == head + body.take((m - k) as int),
        decreases k,
    {
        k -= 1;
        out.push(result[k] as u8);
        assert(body.take((m - k) as int) =~= body.take((m - k - 1) as int).push(body[(m - 1 - k) as int]));
    }
    proof {
        assert(body.take(m as int) =~= body);
        if !preserve_zeros {
            assert(head =~= Seq::new(0, |q: int| 0u8));
        }
        assert(out@ =~= radix_decode_spec(input@, alphabet@, preserve_zeros));
    }
    Ok(out)
}

// ---------------------------------------------------------------------------
// Alphabet ranges
// ---------------------------------------------------------------------------

/// A Unicode scalar value: a code point that is not a surrogate.
pub open spec fn is_scalar(v: int) -> bool {
    (0 <= v <= 0xD7FF) || (0xE000 <= v <= 0x10FFFF)
}

/// The characters with code points in `[start, end]`, in order; code points
/// that are no character are left out.
pub open spec fn char_range(start: int, end: int) -> Seq<char>
    decreases end - start + 1,
{
    if end < start {
        Seq::empty()
    } else if is_scalar(end) {
        char_range(start, end - 1).push(end as char)
    } else {
        char_range(start, end - 1)
    }
}

/// `a-z` ranges expanded into their characters, `\-` a literal dash.
pub open spec fn expand_spec(cs: Seq<char>) -> Seq<char>
    decreases cs.len(),
{
    if cs.len() >= 3 && cs[1] == '-' && cs[0] != '\\' {
        char_range(cs[0] as u32 as int, cs[2] as u32 as int) + expand_spec(cs.skip(3))
    } else if cs.len() >= 2 && cs[0] == '\\' && cs[1] == '-' {
        seq!['-'] + expand_spec(cs.skip(2))
    } else if cs.len() >= 1 {
        seq![cs[0]] + expand_spec(cs.skip(1))
    } else {
        Seq::empty()
    }
}

/// `char::from_u32`: the character with code point `v`, or `None` where `v`
/// is a surrogate or past U+10FFFF.
#[verifier::external_body]
fn char_from_u32(v: u32) -> (r: Option<char>)
    ensures
        r == (if is_scalar(v as int) {
            Some(v as char)
        } else {
            None::<char>
        }),
{
    char::from_u32(v)
}

/// Expand `a-z`-style ranges into an explicit list of characters (`\-` is a
/// literal dash).
pub fn expand_alph_range(s: &str) -> (out: Vec<char>)
    ensures
        out@ == expand_spec(s@),
{
    let chars = chars_of(s);
    let n = chars.len();
    let mut out: Vec<char> = Vec::new();
    let mut i: usize = 0;
    assert(chars@.skip(0) =~= chars@);
    while i < n
        invariant
            n == chars.len(),
            chars@ == s@,
            i <= n,
            out@ + expand_spec(chars@.skip(i as int)) == expand_spec(s@),
        decreases n - i,
    {
        let ghost pre = out@;
        let ghost rest = chars@.skip(i as int);
        if n - i > 2 && chars[i + 1] == '-' && chars[i] != '\\' {
            let c0 = chars[i];
            let c2 = chars[i + 2];
            let start = #[verifier::truncate] (c0 as u32);
            let end = #[verifier::truncate] (c2 as u32);
            let mut j: u64 = start as u64;
            proof {
                assert(rest[0] == chars@[i as int] && rest[1] == chars@[i + 1] && rest[2]
                    == chars@[i + 2]);
                assert(rest.skip(3) =~= chars@.skip(i + 3));
            }
            while j <= end as u64
                invariant
                    start <= j,
                    j <= end + 1 || j == start,
                    out@ == pre + char_range(start as int, j - 1),
                decreases end + 1 - j,
            {
                match char_from_u32(j as u32) {
                    Some(c) => {
                        out.push(c);
                    },
                    None => {},
                }
                j += 1;
            }
            assert(char_range(start as int, j - 1) == char_range(start as int, end as int));
            i += 3;
        } else if n - i > 1 && chars[i] == '\\' && chars[i + 1] == '-' {
            out.push('-');
            proof {
                assert(rest[0] == chars@[i as int] && rest[1] == chars@[i + 1]);
                assert(rest.skip(2) =~= chars@.skip(i + 2));
                assert(pre.push('-') =~= pre + seq!['-']);
            }
            i += 2;
        } else {
            out.push(chars[i]);
            proof {
                assert(rest[0] == chars@[i as int]);
                if rest.len() >= 2 {
                    assert(rest[1] == chars@[i + 1]);
                }
                if rest.len() >= 3 {
                    assert(rest[1] == chars@[i + 1]);
                }
                assert(rest.skip(1) =~= chars@.skip(i + 1));
                assert(pre.push(chars@[i as int]) =~= pre + seq![chars@[i as int]]);
            }
            i += 1;
        }
        assert(out@ + expand_spec(chars@.skip(i as int)) =~= expand_spec(s@));
    }
    proof {
        assert(chars@.skip(n as int) =~= Seq::<char>::empty());
        assert(out@ + Seq::<char>::empty() =~= out@);
    }
    out
}

// ---------------------------------------------------------------------------
// Base32 (RFC 4648)
// ---------------------------------------------------------------------------

/// The byte at `k`, or zero past the end.
pub open spec fn byte_or0(s: Seq<u8>, k: int) -> u32 {
    if 0 <= k < s.len() {
        s[k] as u32
    } else {
        0
    }
}

/// The `k`-th five-bit group of the 40 bits `c1 .. c5`.
pub open spec fn b32_index(c1: u32, c2: u32, c3: u32, c4: u32, c5: u32, k: int) -> u32 {
    if k == 0 {
        c1 >> 3u32
    } else if k == 1 {
        ((c1 & 7) << 2u32) | (c2 >> 6u32)
    } else if k == 2 {
        (c2 >> 1u32) & 31
    } else if k == 3 {
        ((c2 & 1) << 4u32) | (c3 >> 4u32)
    } else if k == 4 {
        ((c3 & 15) << 1u32) | (c4 >> 7u32)
    } else if k == 5 {
        (c4 >> 2u32) & 31
    } else if k == 6 {
        ((c4 & 3) << 3u32) | (c5 >> 5u32)
    } else {
        c5 & 31
    }
}

/// How many of a group's eight characters carry data when the group holds
/// `n` bytes; the rest are padding.
pub open spec fn b32_kept(n: int) -> int {
    if n == 1 {
        2
    } else if n == 2 {
        4
    } else if n == 3 {
        5
    } else if n == 4 {
        7
    } else {
        8
    }
}

/// The eight characters that encode the first (up to) five bytes of `s`;
/// `alph[32]` pads.
pub open spec fn b32_group(s: Seq<u8>, alph: Seq<char>) -> Seq<char> {
    Seq::new(
        8,
        |k: int|
            if k < b32_kept(s.len() as int) {
                alph[b32_index(
                    byte_or0(s, 0),
                    byte_or0(s, 1),
                    byte_or0(s, 2),
                    byte_or0(s, 3),
                    byte_or0(s, 4),
                    k,
                ) as int]
            } else {
                alph[32]
            },
    )
}

/// Base32 of `s`: one group of eight characters per five bytes.
pub open spec fn base32_encode_spec(s: Seq<u8>, alph: Seq<char>) -> Seq<char>
    decreases s.len(),
{
    if s.len() == 0 {
        Seq::empty()
    } else if s.len() <= 5 {
        b32_group(s, alph)
    } else {
        b32_group(s, alph) + base32_encode_spec(s.skip(5), alph)
    }
}

proof fn lemma_b32_index_bound(c1: u32, c2: u32, c3: u32, c4: u32, c5: u32)
    requires
        c1 < 256,
        c2 < 256,
        c3 < 256,
        c4 < 256,
        c5 < 256,
    ensures
        forall|k: int| 0 <= k < 8 ==> #[trigger] b32_index(c1, c2, c3, c4, c5, k) < 32,
{
    assert({
        &&& c1 >> 3u32 < 32
        &&& ((c1 & 7) << 2u32) | (c2 >> 6u32) < 32
        &&& (c2 >> 1u32) & 31 < 32
        &&& ((c2 & 1) << 4u32) | (c3 >> 4u32) < 32
        &&& ((c3 & 15) << 1u32) | (c4 >> 7u32) < 32
        &&& (c4 >> 2u32) & 31 < 32
        &&& ((c4 & 3) << 3u32) | (c5 >> 5u32) < 32
        &&& c5 & 31 < 32
    }) by (bit_vector)
        requires
            c1 < 256,
            c2 < 256,
            c3 < 256,
            c4 < 256,
            c5 < 256,
    ;
}

/// The byte at `k`, or zero past the end.
fn get_or0(input: &[u8], i: usize, off: usize) -> (b: u32)
    requires
        i <= input@.len(),
    ensures
        b == byte_or0(input@, i + off),
{
    if off < input.len() - i {
        input[i + off] as u32
    } else {
        0
    }
}

/// Base32-encode `input` with a 33-character alphabet (the last one pads).
pub fn base32_encode(input: &[u8], alphabet: &[char]) -> (out: String)
    requires
        input@.len() > 0 ==> alphabet@.len() >= 32,
        input@.len() % 5 != 0 ==> alphabet@.len() >= 33,
    ensures
        out@ == base32_encode_spec(input@, alphabet@),
{
    let mut out = String::new();
    let n = input.len();
    let mut i: usize = 0;
    assert(input@.skip(0) =~= input@);
    while i < n
        invariant
            n == input.len(),
            i <= n,
            i < n ==> i % 5 == 0,
            n > 0 ==> alphabet@.len() >= 32,
            n % 5 != 0 ==> alphabet@.len() >= 33,
            out@ + base32_encode_spec(input@.skip(i as int), alphabet@) == base32_encode_spec(
                input@,
                alphabet@,
            ),
        decreases n - i,
    {
        let ghost rest = input@.skip(i as int);
        let c1 = get_or0(input, i, 0);
        let c2 = get_or0(input, i, 1);
        let c3 = get_or0(input, i, 2);
        let c4 = get_or0(input, i, 3);
        let c5 = get_or0(input, i, 4);
        let left = n - i;
        proof {
            assert forall|k: int| 0 <= k < 5 implies byte_or0(rest, k) == byte_or0(
                input@,
                i + k,
            ) by {}
            lemma_b32_index_bound(c1, c2, c3, c4, c5);
            if left < 5 {
                assert(n % 5 != 0);
            }
        }
        let kept: usize = if left == 1 {
            2
        } else if left == 2 {
            4
        } else if left == 3 {
            5
        } else if left == 4 {
            7
        } else {
            8
        };
        let e = [
            c1 >> 3u32,
            ((c1 & 7) << 2u32) | (c2 >> 6u32),
            (c2 >> 1u32) & 31,
            ((c2 & 1) << 4u32) | (c3 >> 4u32),
            ((c3 & 15) << 1u32) | (c4 >> 7u32),
            (c4 >> 2u32) & 31,
            ((c4 & 3) << 3u32) | (c5 >> 5u32),
            c5 & 31,
        ];
        let ghost pre = out@;
        let ghost grp = b32_group(rest, alphabet@);
        assert(forall|k: int| 0 <= k < 8 ==> e@[k] == b32_index(c1, c2, c3, c4, c5, k));
        let mut k: usize = 0;
        while k < 8
            invariant
                k <= 8,
                kept == b32_kept(rest.len() as int),
                kept < 8 ==> alphabet@.len() >= 33,
                alphabet@.len() >= 32,
                forall|q: int| 0 <= q < 8 ==> e@[q] == b32_index(c1, c2, c3, c4, c5, q),
                forall|q: int| 0 <= q < 8 ==> #[trigger] b32_index(c1, c2, c3, c4, c5, q) < 32,
                c1 == byte_or0(rest, 0),
                c2 == byte_or0(rest, 1),
                c3 == byte_or0(rest, 2),
                c4 == byte_or0(rest, 3),
                c5 == byte_or0(rest, 4),
                grp == b32_group(rest, alphabet@),
                out@ == pre + grp.take(k as int),
            decreases 8 - k,
        {
            let ch = if k < kept {
                alphabet[e[k] as usize]
            } else {
                alphabet[32]
            };
            push_char(&mut out, ch);
            assert(grp.take(k + 1) =~= grp.take(k as int).push(ch));
            k += 1;
        }
        assert(grp.take(8) =~= grp);
        if left <= 5 {
            assert(base32_encode_spec(rest, alphabet@) == grp);
            assert(input@.skip(n as int) =~= Seq::<u8>::empty());
            i = n;
        } else {
            assert(rest.skip(5) =~= input@.skip(i + 5));
            i += 5;
        }
        assert(out@ + base32_encode_spec(input@.skip(i as int), alphabet@) =~= base32_encode_spec(
            input@,
            alphabet@,
        ));
    }
    assert(input@.skip(n as int) =~= Seq::<u8>::empty());
    assert(out@ + Seq::<char>::empty() =~= out@);
    out
}

/// The characters of `cs` that occur in `alph`, in order.
pub open spec fn keep_in(cs: Seq<char>, alph: Seq<char>) -> Seq<char>
    decreases cs.len(),
{
    if cs.len() == 0 {
        Seq::empty()
    } else {
        let r = keep_in(cs.drop_last(), alph);
        if index_in(alph, cs.last()) is Some {
            r.push(cs.last())
        } else {
            r
        }
    }
}

/// The characters of `input` that occur in `alphabet`, in order.
fn keep_in_alphabet(input: &str, alphabet: &[char]) -> (out: Vec<char>)
    ensures
        out@ == keep_in(input@, alphabet@),
{
    let chars = chars_of(input);
    let mut out: Vec<char> = Vec::new();
    let mut i: usize = 0;
    assert(chars@.take(0) =~= Seq::<char>::empty());
    while i < chars.len()
        invariant
            i <= chars.len(),
            chars@ == input@,
            out@ == keep_in(chars@.take(i as int), alphabet@),
        decreases chars.len() - i,
    {
        let c = chars[i];
        assert(chars@.take(i + 1).drop_last() =~= chars@.take(i as int));
        assert(chars@.take(i + 1).last() == c);
        if position(alphabet, c).is_some() {
            out.push(c);
        }
        i += 1;
    }
    assert(chars@.take(chars.len() as int) =~= chars@);
    out
}

/// A character's Base32 value: its alphabet position, or -1.
pub open spec fn b32_value(alph: Seq<char>, c: char) -> i32 {
    match index_in(alph, c) {
        Some(p) => p as i32,
        None => -1i32,
    }
}

/// The value of the character at `k`, reading `=` past the end.
pub open spec fn b32_at(cs: Seq<char>, alph: Seq<char>, k: int) -> i32 {
    b32_value(
        alph,
        if k < cs.len() {
            cs[k]
        } else {
            '='
        },
    )
}

/// The bytes that one group of eight Base32 values decodes to: the five
/// bytes of the 40 bits they carry, a byte left out where its bits are zero
/// and the value after them is the padding value 32.
pub open spec fn b32_decode_group(
    e0: i32,
    e1: i32,
    e2: i32,
    e3: i32,
    e4: i32,
    e5: i32,
    e6: i32,
    e7: i32,
) -> Seq<u8> {
    let chr1 = (e0 << 3u32) | (e1 >> 2u32);
    let chr2 = ((e1 & 3) << 6u32) | (e2 << 1u32) | (e3 >> 4u32);
    let chr3 = ((e3 & 15) << 4u32) | (e4 >> 1u32);
    let chr4 = ((e4 & 1) << 7u32) | (e5 << 2u32) | (e6 >> 3u32);
    let chr5 = ((e6 & 7) << 5u32) | e7;
    seq![(chr1 & 0xff) as u8] + (if (e1 & 3) != 0 || e2 != 32 {
        seq![(chr2 & 0xff) as u8]
    } else {
        Seq::empty()
    }) + (if (e3 & 15) != 0 || e4 != 32 {
        seq![(chr3 & 0xff) as u8]
    } else {
        Seq::empty()
    }) + (if (e4 & 1) != 0 || e5 != 32 {
        seq![(chr4 & 0xff) as u8]
    } else {
        Seq::empty()
    }) + (if (e6 & 7) != 0 || e7 != 32 {
        seq![(chr5 & 0xff) as u8]
    } else {
        Seq::empty()
    })
}

/// Base32 decoding of a character sequence, eight characters at a time.
pub open spec fn base32_decode_chars(cs: Seq<char>, alph: Seq<char>) -> Seq<u8>
    decreases cs.len(),
{
    if cs.len() == 0 {
        Seq::empty()
    } else {
        b32_decode_group(
            b32_at(cs, alph, 0),
            b32_at(cs, alph, 1),
            b32_at(cs, alph, 2),
            b32_at(cs, alph, 3),
            b32_at(cs, alph, 4),
            b32_at(cs, alph, 5),
            b32_at(cs, alph, 6),
            b32_at(cs, alph, 7),
        ) + if cs.len() <= 8 {
            Seq::empty()
        } else {
            base32_decode_chars(cs.skip(8), alph)
        }
    }
}

/// What `base32_decode` gives: with `strip`, characters outside the alphabet
/// are dropped first.
pub open spec fn base32_decode_spec(input: Seq<char>, alph: Seq<char>, strip: bool) -> Seq<u8> {
    base32_decode_chars(
        if strip {
            keep_in(input, alph)
        } else {
            input
        },
        alph,
    )
}

/// The Base32 value of the character at `k` (`=` past the end).
fn b32_value_at(chars: &[char], alphabet: &[char], i: usize, off: usize) -> (v: i32)
    requires
        i <= chars@.len(),
    ensures
        v == b32_at(chars@, alphabet@, i + off),
{
    let ch = if off < chars.len() - i {
        chars[i + off]
    } else {
        '='
    };
    match position(alphabet, ch) {
        Some(p) => #[verifier::truncate] (p as i32),
        None => -1,
    }
}

/// Append the bytes that one group of eight Base32 values decodes to.
fn push_b32_group(
    out: &mut Vec<u8>,
    enc1: i32,
    enc2: i32,
    enc3: i32,
    enc4: i32,
    enc5: i32,
    enc6: i32,
    enc7: i32,
    enc8: i32,
)
    ensures
        final(out)@ == old(out)@ + b32_decode_group(enc1, enc2, enc3, enc4, enc5, enc6, enc7, enc8),
{
    let chr1 = (enc1 << 3u32) | (enc2 >> 2u32);
    let chr2 = ((enc2 & 3) << 6u32) | (enc3 << 1u32) | (enc4 >> 4u32);
    let chr3 = ((enc4 & 15) << 4u32) | (enc5 >> 1u32);
    let chr4 = ((enc5 & 1) << 7u32) | (enc6 << 2u32) | (enc7 >> 3u32);
    let chr5 = ((enc7 & 7) << 5u32) | enc8;
    out.push(#[verifier::truncate] ((chr1 & 0xff) as u8));
    if (enc2 & 3) != 0 || enc3 != 32 {
        out.push(#[verifier::truncate] ((chr2 & 0xff) as u8));
    }
    if (enc4 & 15) != 0 || enc5 != 32 {
        out.push(#[verifier::truncate] ((chr3 & 0xff) as u8));
    }
    if (enc5 & 1) != 0 || enc6 != 32 {
        out.push(#[verifier::truncate] ((chr4 & 0xff) as u8));
    }
    if (enc7 & 7) != 0 || enc8 != 32 {
        out.push(#[verifier::truncate] ((chr5 & 0xff) as u8));
    }
    assert(final(out)@ =~= old(out)@ + b32_decode_group(enc1, enc2, enc3, enc4, enc5, enc6, enc7, enc8));
}

/// Base32-decode `input`. With `strip`, characters outside the alphabet are
/// dropped first; without it they read as -1.
pub fn base32_decode(input: &str, alphabet: &[char], strip: bool) -> (out: Vec<u8>)
    ensures
        out@ == base32_decode_spec(input@, alphabet@, strip),
{
    let chars = if strip {
        keep_in_alphabet(input, alphabet)
    } else {
        chars_of(input)
    };
    let n = chars.len();
    let mut out: Vec<u8> = Vec::new();
    let mut i: usize = 0;
    assert(chars@.skip(0) =~= chars@);
    while i < n
        invariant
            n == chars.len(),
            i <= n,
            out@ + base32_decode_chars(chars@.skip(i as int), alphabet@) == base32_decode_spec(
                input@,
                alphabet@,
                strip,
            ),
        decreases n - i,
    {
        let ghost rest = chars@.skip(i as int);
        let enc1 = b32_value_at(&chars, alphabet, i, 0);
        let enc2 = b32_value_at(&chars, alphabet, i, 1);
        let enc3 = b32_value_at(&chars, alphabet, i, 2);
        let enc4 = b32_value_at(&chars, alphabet, i, 3);
        let enc5 = b32_value_at(&chars, alphabet, i, 4);
        let enc6 = b32_value_at(&chars, alphabet, i, 5);
        let enc7 = b32_value_at(&chars, alphabet, i, 6);
        let enc8 = b32_value_at(&chars, alphabet, i, 7);
        proof {
            assert forall|k: int| 0 <= k < 8 implies b32_at(rest, alphabet@, k) == b32_at(
                chars@,
                alphabet@,
                i + k,
            ) by {}
        }
        push_b32_group(&mut out, enc1, enc2, enc3, enc4, enc5, enc6, enc7, enc8);
        if n - i <= 8 {
            assert(chars@.skip(n as int) =~= Seq::<char>::empty());
            i = n;
        } else {
            assert(rest.skip(8) =~= chars@.skip(i + 8));
            i += 8;
        }
        assert(out@ + base32_decode_chars(chars@.skip(i as int), alphabet@) =~= base32_decode_spec(
            input@,
            alphabet@,
            strip,
        ));
    }
    assert(chars@.skip(n as int) =~= Seq::<char>::empty());
    assert(out@ + Seq::<u8>::empty() =~= out@);
    out
}

pub(crate) proof fn lemma_index_in_distinct(alph: Seq<char>, j: int)
    requires
        alph.no_duplicates(),
        0 <= j < alph.len(),
    ensures
        index_in(alph, alph[j]) == Some(j as nat),
{
    lemma_index_in(alph, alph[j]);
    match index_in(alph, alph[j]) {
        Some(i) => {},
        None => {
            assert(alph.contains(alph[j]));
        },
    }
}

proof fn lemma_keep_in_all(cs: Seq<char>, alph: Seq<char>)
    requires
        forall|k: int| 0 <= k < cs.len() ==> index_in(alph, #[trigger] cs[k]) is Some,
    ensures
        keep_in(cs, alph) == cs,
    decreases cs.len(),
{
    if cs.len() > 0 {
        let t = cs.drop_last();
        assert forall|k: int| 0 <= k < t.len() implies index_in(alph, #[trigger] t[k]) is Some by {
            assert(t[k] == cs[k]);
        }
        lemma_keep_in_all(t, alph);
        assert(index_in(alph, cs[cs.len() - 1]) is Some);
        assert(t.push(cs.last()) =~= cs);
    }
}

/// The bit facts behind decoding an encoded group: each byte comes back, and
/// a byte past the end of a short group is not emitted.
proof fn lemma_b32_group_bits(c1: u32, c2: u32, c3: u32, c4: u32, c5: u32)
    requires
        c1 < 256,
        c2 < 256,
        c3 < 256,
        c4 < 256,
        c5 < 256,
    ensures
        ({
            let e0 = (c1 >> 3u32) as i32;
            let e1 = (((c1 & 7) << 2u32) | (c2 >> 6u32)) as i32;
            let e2 = ((c2 >> 1u32) & 31) as i32;
            let e3 = (((c2 & 1) << 4u32) | (c3 >> 4u32)) as i32;
            let e4 = (((c3 & 15) << 1u32) | (c4 >> 7u32)) as i32;
            let e5 = ((c4 >> 2u32) & 31) as i32;
            let e6 = (((c4 & 3) << 3u32) | (c5 >> 5u32)) as i32;
            let e7 = (c5 & 31) as i32;
            &&& ((e0 << 3u32) | (e1 >> 2u32)) & 0xff == c1 as i32
            &&& (((e1 & 3) << 6u32) | (e2 << 1u32) | (e3 >> 4u32)) & 0xff == c2 as i32
            &&& (((e3 & 15) << 4u32) | (e4 >> 1u32)) & 0xff == c3 as i32
            &&& (((e4 & 1) << 7u32) | (e5 << 2u32) | (e6 >> 3u32)) & 0xff == c4 as i32
            &&& (((e6 & 7) << 5u32) | e7) & 0xff == c5 as i32
            &&& 32i32 & 15 == 0 && 32i32 & 7 == 0 && 32i32 & 3 == 0 && 32i32 & 1 == 0
            &&& (c2 == 0 ==> e1 & 3 == 0)
            &&& (c3 == 0 ==> e3 & 15 == 0)
            &&& (c4 == 0 ==> e4 & 1 == 0)
            &&& (c5 == 0 ==> e6 & 7 == 0)
            &&& 0 <= e0 < 32 && 0 <= e1 < 32 && 0 <= e2 < 32 && 0 <= e3 < 32
            &&& 0 <= e4 < 32 && 0 <= e5 < 32 && 0 <= e6 < 32 && 0 <= e7 < 32
        }),
{
    assert({
        let e0 = (c1 >> 3u32) as i32;
        let e1 = (((c1 & 7) << 2u32) | (c2 >> 6u32)) as i32;
        let e2 = ((c2 >> 1u32) & 31) as i32;
        let e3 = (((c2 & 1) << 4u32) | (c3 >> 4u32)) as i32;
        let e4 = (((c3 & 15) << 1u32) | (c4 >> 7u32)) as i32;
        let e5 = ((c4 >> 2u32) & 31) as i32;
        let e6 = (((c4 & 3) << 3u32) | (c5 >> 5u32)) as i32;
        let e7 = (c5 & 31) as i32;
        &&& ((e0 << 3u32) | (e1 >> 2u32)) & 0xff == c1 as i32
        &&& (((e1 & 3) << 6u32) | (e2 << 1u32) | (e3 >> 4u32)) & 0xff == c2 as i32
        &&& (((e3 & 15) << 4u32) | (e4 >> 1u32)) & 0xff == c3 as i32
        &&& (((e4 & 1) << 7u32) | (e5 << 2u32) | (e6 >> 3u32)) & 0xff == c4 as i32
        &&& (((e6 & 7) << 5u32) | e7) & 0xff == c5 as i32
        &&& 32i32 & 15 == 0 && 32i32 & 7 == 0 && 32i32 & 3 == 0 && 32i32 & 1 == 0
        &&& (c2 == 0 ==> e1 & 3 == 0)
        &&& (c3 == 0 ==> e3 & 15 == 0)
        &&& (c4 == 0 ==> e4 & 1 == 0)
        &&& (c5 == 0 ==> e6 & 7 == 0)
        &&& 0 <= e0 < 32 && 0 <= e1 < 32 && 0 <= e2 < 32 && 0 <= e3 < 32
        &&& 0 <= e4 < 32 && 0 <= e5 < 32 && 0 <= e6 < 32 && 0 <= e7 < 32
    }) by (bit_vector)
        requires
            c1 < 256,
            c2 < 256,
            c3 < 256,
            c4 < 256,
            c5 < 256,
    ;
}

proof fn lemma_b32_group_roundtrip(data: Seq<u8>, alph: Seq<char>)
    requires
        data.len() >= 1,
        alph.len() >= 33,
        alph.no_duplicates(),
    ensures
        ({
            let g = b32_group(data, alph);
            b32_decode_group(
                b32_at(g, alph, 0),
                b32_at(g, alph, 1),
                b32_at(g, alph, 2),
                b32_at(g, alph, 3),
                b32_at(g, alph, 4),
                b32_at(g, alph, 5),
                b32_at(g, alph, 6),
                b32_at(g, alph, 7),
            ) == data.take(if data.len() < 5 {
                data.len() as int
            } else {
                5
            })
        }),
{
    let g = b32_group(data, alph);
    let c1 = byte_or0(data, 0);
    let c2 = byte_or0(data, 1);
    let c3 = byte_or0(data, 2);
    let c4 = byte_or0(data, 3);
    let c5 = byte_or0(data, 4);
    lemma_b32_group_bits(c1, c2, c3, c4, c5);
    lemma_b32_index_bound(c1, c2, c3, c4, c5);
    let kept = b32_kept(data.len() as int);
    assert forall|k: int| 0 <= k < 8 implies #[trigger] b32_at(g, alph, k) == (if k < kept {
        b32_index(c1, c2, c3, c4, c5, k) as i32
    } else {
        32i32
    }) by {
        if k < kept {
            lemma_index_in_distinct(alph, b32_index(c1, c2, c3, c4, c5, k) as int);
        } else {
            lemma_index_in_distinct(alph, 32);
        }
    }
    let e0 = b32_at(g, alph, 0);
    let e1 = b32_at(g, alph, 1);
    let e2 = b32_at(g, alph, 2);
    let e3 = b32_at(g, alph, 3);
    let e4 = b32_at(g, alph, 4);
    let e5 = b32_at(g, alph, 5);
    let e6 = b32_at(g, alph, 6);
    let e7 = b32_at(g, alph, 7);
    let l: int = if data.len() < 5 {
        data.len() as int
    } else {
        5
    };
    let dec = b32_decode_group(e0, e1, e2, e3, e4, e5, e6, e7);
    assert forall|j: int| 0 <= j < l implies (byte_or0(data, j) as u8) == data[j] by {}
    if l == 1 {
        assert(dec =~= data.take(l));
    } else if l == 2 {
        assert(dec =~= data.take(l));
    } else if l == 3 {
        assert(dec =~= data.take(l));
    } else if l == 4 {
        assert(dec =~= data.take(l));
    } else {
        assert(dec =~= data.take(l));
    }
}

proof fn lemma_b32_decode_encoded(data: Seq<u8>, alph: Seq<char>)
    requires
        alph.len() >= 33,
        alph.no_duplicates(),
    ensures
        base32_decode_chars(base32_encode_spec(data, alph), alph) == data,
        forall|k: int|
            0 <= k < base32_encode_spec(data, alph).len() ==> index_in(
                alph,
                #[trigger] base32_encode_spec(data, alph)[k],
            ) is Some,
    decreases data.len(),
{
    if data.len() > 0 {
        let g = b32_group(data, alph);
        let enc = base32_encode_spec(data, alph);
        lemma_b32_group_roundtrip(data, alph);
        lemma_b32_index_bound(
            byte_or0(data, 0),
            byte_or0(data, 1),
            byte_or0(data, 2),
            byte_or0(data, 3),
            byte_or0(data, 4),
        );
        assert forall|k: int| 0 <= k < 8 implies index_in(alph, #[trigger] g[k]) is Some by {
            if k < b32_kept(data.len() as int) {
                lemma_index_in_distinct(
                    alph,
                    b32_index(
                        byte_or0(data, 0),
                        byte_or0(data, 1),
                        byte_or0(data, 2),
                        byte_or0(data, 3),
                        byte_or0(data, 4),
                        k,
                    ) as int,
                );
            } else {
                lemma_index_in_distinct(alph, 32);
            }
        }
        assert forall|k: int| 0 <= k < 8 implies b32_at(enc, alph, k) == b32_at(g, alph, k) by {
            if data.len() > 5 {
                assert(enc[k] == g[k]);
            }
        }
        if data.len() <= 5 {
            assert(data.take(data.len() as int) =~= data);
            assert(base32_decode_chars(enc, alph) =~= data);
        } else {
            let rest = data.skip(5);
            lemma_b32_decode_encoded(rest, alph);
            let renc = base32_encode_spec(rest, alph);
            assert(enc.skip(8) =~= renc);
            assert(data.take(5) + rest =~= data);
            assert(base32_decode_chars(enc, alph) =~= data);
            assert forall|k: int| 0 <= k < enc.len() implies index_in(alph, #[trigger] enc[k]) is Some by {
                if k >= 8 {
                    assert(enc[k] == renc[k - 8]);
                } else {
                    assert(enc[k] == g[k]);
                }
            }
        }
    }
}

/// Base32 decoding undoes Base32 encoding: for an alphabet of at least 33
/// distinct characters, whose 33rd pads, decoding the encoding of any bytes
/// gives them back, whether or not foreign characters are stripped.
pub proof fn lemma_base32_roundtrip(data: Seq<u8>, alph: Seq<char>, strip: bool)
    requires
        alph.len() >= 33,
        alph.no_duplicates(),
    ensures
        base32_decode_spec(base32_encode_spec(data, alph), alph, strip) == data,
{
    lemma_b32_decode_encoded(data, alph);
    if strip {
        lemma_keep_in_all(base32_encode_spec(data, alph), alph);
    }
}

// ---------------------------------------------------------------------------
// Base45 (RFC 9285)
// ---------------------------------------------------------------------------

/// The characters for the first (up to) two bytes of `s`: the little-endian
/// base-45 digits of their big-endian value, three for a pair, two for a
/// single byte.
pub open spec fn b45_chunk(s: Seq<u8>, alph: Seq<char>) -> Seq<char> {
    if s.len() >= 2 {
        let b = s[0] as int * 256 + s[1] as int;
        seq![alph[b % 45], alph[(b / 45) % 45], alph[b / 2025]]
    } else {
        let b = s[0] as int;
        seq![alph[b % 45], alph[b / 45]]
    }
}

/// Base45 of `s`, two bytes at a time.
pub open spec fn base45_encode_spec(s: Seq<u8>, alph: Seq<char>) -> Seq<char>
    decreases s.len(),
{
    if s.len() == 0 {
        Seq::empty()
    } else if s.len() <= 2 {
        b45_chunk(s, alph)
    } else {
        b45_chunk(s, alph) + base45_encode_spec(s.skip(2), alph)
    }
}

/// Base45-encode `input` with a 45-character alphabet.
pub fn base45_encode(input: &[u8], alphabet: &[char]) -> (out: String)
    requires
        input@.len() > 0 ==> alphabet@.len() >= 45,
    ensures
        out@ == base45_encode_spec(input@, alphabet@),
{
    let mut res = String::new();
    let n = input.len();
    let mut i: usize = 0;
    assert(input@.skip(0) =~= input@);
    while i < n
        invariant
            n == input.len(),
            i <= n,
            n > 0 ==> alphabet@.len() >= 45,
            res@ + base45_encode_spec(input@.skip(i as int), alphabet@) == base45_encode_spec(
                input@,
                alphabet@,
            ),
        decreases n - i,
    {
        let ghost rest = input@.skip(i as int);
        let ghost pre = res@;
        if n - i >= 2 {
            let b: u32 = input[i] as u32 * 256 + input[i + 1] as u32;
            push_char(&mut res, alphabet[(b % 45) as usize]);
            push_char(&mut res, alphabet[((b / 45) % 45) as usize]);
            assert(b / 2025 < 45);
            push_char(&mut res, alphabet[(b / 2025) as usize]);
            assert(rest[0] == input@[i as int] && rest[1] == input@[i + 1]);
            assert(res@ =~= pre + b45_chunk(rest, alphabet@));
        } else {
            let b: u32 = input[i] as u32;
            push_char(&mut res, alphabet[(b % 45) as usize]);
            push_char(&mut res, alphabet[(b / 45) as usize]);
            assert(rest[0] == input@[i as int]);
            assert(res@ =~= pre + b45_chunk(rest, alphabet@));
        }
        if n - i <= 2 {
            assert(input@.skip(n as int) =~= Seq::<u8>::empty());
            i = n;
        } else {
            assert(rest.skip(2) =~= input@.skip(i + 2));
            i += 2;
        }
        assert(res@ + base45_encode_spec(input@.skip(i as int), alphabet@) =~= base45_encode_spec(
            input@,
            alphabet@,
        ));
    }
    assert(input@.skip(n as int) =~= Seq::<u8>::empty());
    assert(res@ + Seq::<char>::empty() =~= res@);
    res
}

/// The last character of `t` that is not in `alph` (decoding reads a group
/// from its end).
pub open spec fn last_invalid(t: Seq<char>, alph: Seq<char>) -> Option<char>
    decreases t.len(),
{
    if t.len() == 0 {
        None
    } else if index_in(alph, t.last()) is None {
        Some(t.last())
    } else {
        last_invalid(t.drop_last(), alph)
    }
}

/// The little-endian base-45 value of a group whose characters are all in
/// the alphabet.
pub open spec fn b45_value(t: Seq<char>, alph: Seq<char>) -> int
    decreases t.len(),
{
    if t.len() == 0 {
        0
    } else {
        match index_in(alph, t[0]) {
            Some(i) => i + 45 * b45_value(t.drop_first(), alph),
            None => 0,
        }
    }
}

/// The message for a character outside the Base45 alphabet.
pub open spec fn b45_char_message(c: char) -> Seq<char> {
    "字符不在码表中: '"@ + seq![c] + "'"@
}

/// The message for a group whose value exceeds two bytes.
pub open spec fn b45_group_message(t: Seq<char>) -> Seq<char> {
    "三元组过大: '"@ + t + "'"@
}

/// What one group of up to three characters decodes to, or the message of
/// its error.
pub open spec fn b45_group(t: Seq<char>, alph: Seq<char>) -> Result<Seq<u8>, Seq<char>> {
    match last_invalid(t, alph) {
        Some(c) => Err(b45_char_message(c)),
        None => {
            let b = b45_value(t, alph);
            if b > 65535 {
                Err(b45_group_message(t))
            } else if t.len() > 2 {
                Ok(seq![(b / 256) as u8, (b % 256) as u8])
            } else {
                Ok(seq![(b % 256) as u8])
            }
        },
    }
}

/// Base45 decoding of a character sequence, three characters at a time; the
/// first failing group gives the error.
pub open spec fn base45_decode_chars(cs: Seq<char>, alph: Seq<char>) -> Result<Seq<u8>, Seq<char>>
    decreases cs.len(),
{
    if cs.len() == 0 {
        Ok(Seq::empty())
    } else {
        let t = if cs.len() < 3 {
            cs
        } else {
            cs.take(3)
        };
        match b45_group(t, alph) {
            Err(m) => Err(m),
            Ok(g) => if cs.len() <= 3 {
                Ok(g)
            } else {
                match base45_decode_chars(cs.skip(3), alph) {
                    Ok(r) => Ok(g + r),
                    Err(m) => Err(m),
                }
            },
        }
    }
}

/// What `base45_decode` gives: with `strip`, characters outside the alphabet
/// are dropped first.
pub open spec fn base45_decode_spec(input: Seq<char>, alph: Seq<char>, strip: bool) -> Result<
    Seq<u8>,
    Seq<char>,
> {
    base45_decode_chars(
        if strip {
            keep_in(input, alph)
        } else {
            input
        },
        alph,
    )
}

/// `1 + 45 + ... + 45^(m-1)`, for `m` up to three: the most that `m`
/// base-45 digits can add per unit of digit value.
pub open spec fn b45_span(m: int) -> int {
    if m <= 0 {
        0
    } else if m == 1 {
        1
    } else if m == 2 {
        46
    } else {
        2071
    }
}

/// Decode one group of up to three characters.
fn b45_decode_group(chars: &[char], start: usize, len: usize, alphabet: &[char]) -> (r: Result<
    (u32, bool),
    CoreError,
>)
    requires
        1 <= len <= 3,
        start + len <= chars.len(),
        alphabet@.len() * 2071 <= 0xFFFF_FFFF,
    ensures
        ({
            let t = chars@.subrange(start as int, start + len);
            match (r, b45_group(t, alphabet@)) {
                (Ok((b, two)), Ok(g)) => two == (len > 2) && g == (if len > 2 {
                    seq![(b / 256) as u8, (b % 256) as u8]
                } else {
                    seq![(b % 256) as u8]
                }) && b <= 65535,
                (Err(e), Err(m)) => e.is_parse_with(m),
                _ => false,
            }
        }),
{
    let ghost t = chars@.subrange(start as int, start + len);
    let mut b: u32 = 0;
    let mut k: usize = len;
    assert(t.take(len as int) =~= t);
    assert(t.skip(len as int) =~= Seq::<char>::empty());
    // Read the group from its last character to its first.
    while k > 0
        invariant
            k <= len,
            len <= 3,
            start + len <= chars.len(),
            t == chars@.subrange(start as int, start + len),
            alphabet@.len() * 2071 <= 0xFFFF_FFFF,
            last_invalid(t, alphabet@) == last_invalid(t.take(k as int), alphabet@),
            b as int == b45_value(t.skip(k as int), alphabet@),
            b == 0 || b as int <= (alphabet@.len() - 1) * b45_span((len - k) as int),
        decreases k,
    {
        k -= 1;
        let c = chars[start + k];
        assert(t[k as int] == c);
        assert(t.take(k + 1).drop_last() =~= t.take(k as int));
        assert(t.take(k + 1).last() == c);
        match position(alphabet, c) {
            Some(idx) => {
                proof {
                    lemma_index_in(alphabet@, c);
                    assert(t.skip(k as int).drop_first() =~= t.skip(k + 1));
                    assert(t.skip(k as int)[0] == c);
                    let sp = b45_span((len - k - 1) as int);
                    let l1 = alphabet@.len() - 1;
                    assert(b45_span((len - k) as int) == 45 * sp + 1);
                    assert(b * 45 + idx <= l1 * (45 * sp + 1)) by (nonlinear_arith)
                        requires
                            b <= l1 * sp,
                            idx <= l1,
                    ;
                    assert(l1 * (45 * sp + 1) <= l1 * 2071) by (nonlinear_arith)
                        requires
                            45 * sp + 1 <= 2071,
                            l1 >= 0,
                    ;
                }
                b = b * 45 + idx as u32;
            },
            None => {
                let mut msg = String::new();
                push_str(&mut msg, "字符不在码表中: '");
                push_char(&mut msg, c);
                push_str(&mut msg, "'");
                assert(msg@ =~= b45_char_message(c));
                return Err(CoreError::Parse(msg));
            },
        }
    }
    assert(t.take(0) =~= Seq::<char>::empty());
    assert(t.skip(0) =~= t);
    if b > 65535 {
        let mut msg = String::new();
        push_str(&mut msg, "三元组过大: '");
        let mut q: usize = 0;
        while q < len
            invariant
                q <= len,
                start + len <= chars.len(),
                t == chars@.subrange(start as int, start + len),
                msg@ == "三元组过大: '"@ + t.take(q as int),
            decreases len - q,
        {
            push_char(&mut msg, chars[start + q]);
            assert(t.take(q + 1) =~= t.take(q as int).push(t[q as int]));
            q += 1;
        }
        push_str(&mut msg, "'");
        assert(t.take(len as int) =~= t);
        assert(msg@ =~= b45_group_message(t));
        return Err(CoreError::Parse(msg));
    }
    Ok((b, len > 2))
}

/// `r` prefixed with `pre` where it succeeded.
pub open spec fn prefixed(pre: Seq<u8>, r: Result<Seq<u8>, Seq<char>>) -> Result<Seq<u8>, Seq<char>> {
    match r {
        Ok(v) => Ok(pre + v),
        Err(m) => Err(m),
    }
}

/// Whether a codec's result matches its specification: the same bytes, or a
/// `Parse` error with the same message.
pub open spec fn decoded_as(r: Result<Vec<u8>, CoreError>, s: Result<Seq<u8>, Seq<char>>) -> bool {
    match (r, s) {
        (Ok(v), Ok(w)) => v@ == w,
        (Err(e), Err(m)) => e.is_parse_with(m),
        _ => false,
    }
}

/// Base45-decode `input`. With `strip`, characters outside the alphabet are
/// dropped first; without it the first one met is an error, as is a group
/// whose value exceeds two bytes.
pub fn base45_decode(input: &str, alphabet: &[char], strip: bool) -> (r: Result<Vec<u8>, CoreError>)
    requires
        alphabet@.len() * 2071 <= 0xFFFF_FFFF,
    ensures
        decoded_as(r, base45_decode_spec(input@, alphabet@, strip)),
{
    let chars = if strip {
        keep_in_alphabet(input, alphabet)
    } else {
        chars_of(input)
    };
    let n = chars.len();
    let mut res: Vec<u8> = Vec::new();
    let mut i: usize = 0;
    assert(chars@.skip(0) =~= chars@);
    assert(res@ + Seq::<u8>::empty() =~= res@);
    while i < n
        invariant
            n == chars.len(),
            i <= n,
            alphabet@.len() * 2071 <= 0xFFFF_FFFF,
            chars@ == (if strip {
                keep_in(input@, alphabet@)
            } else {
                input@
            }),
            base45_decode_spec(input@, alphabet@, strip) == prefixed(
                res@,
                base45_decode_chars(chars@.skip(i as int), alphabet@),
            ),
        decreases n - i,
    {
        let ghost rest = chars@.skip(i as int);
        let ghost pre = res@;
        let len: usize = if n - i < 3 {
            n - i
        } else {
            3
        };
        let ghost t = if rest.len() < 3 {
            rest
        } else {
            rest.take(3)
        };
        assert(t =~= chars@.subrange(i as int, i + len));
        match b45_decode_group(&chars, i, len, alphabet) {
            Ok((b, two)) => {
                if two {
                    res.push((b / 256) as u8);
                }
                res.push((b % 256) as u8);
                proof {
                    let g = b45_group(t, alphabet@)->Ok_0;
                    assert(res@ =~= pre + g);
                    if rest.len() > 3 {
                        assert(rest.skip(3) =~= chars@.skip(i + 3));
                        match base45_decode_chars(rest.skip(3), alphabet@) {
                            Ok(r2) => {
                                assert(pre + (g + r2) =~= (pre + g) + r2);
                            },
                            Err(m) => {},
                        }
                    } else {
                        assert(res@ + Seq::<u8>::empty() =~= res@);
                    }
                }
            },
            Err(e) => {
                return Err(e);
            },
        }
        if n - i <= 3 {
            assert(chars@.skip(n as int) =~= Seq::<char>::empty());
            i = n;
        } else {
            assert(rest.skip(3) =~= chars@.skip(i + 3));
            i += 3;
        }
    }
    assert(chars@.skip(n as int) =~= Seq::<char>::empty());
    Ok(res)
}

proof fn lemma_last_invalid_none(t: Seq<char>, alph: Seq<char>)
    requires
        forall|k: int| 0 <= k < t.len() ==> index_in(alph, #[trigger] t[k]) is Some,
    ensures
        last_invalid(t, alph) is None,
    decreases t.len(),
{
    if t.len() > 0 {
        let u = t.drop_last();
        assert forall|k: int| 0 <= k < u.len() implies index_in(alph, #[trigger] u[k]) is Some by {
            assert(u[k] == t[k]);
        }
        assert(index_in(alph, t[t.len() - 1]) is Some);
        lemma_last_invalid_none(u, alph);
    }
}

proof fn lemma_b45_value_digit(t: Seq<char>, alph: Seq<char>, d: int)
    requires
        t.len() >= 1,
        alph.no_duplicates(),
        0 <= d < alph.len(),
        t[0] == alph[d],
    ensures
        b45_value(t, alph) == d + 45 * b45_value(t.drop_first(), alph),
{
    lemma_index_in_distinct(alph, d);
}

proof fn lemma_b45_pair(data: Seq<u8>, alph: Seq<char>)
    requires
        data.len() >= 2,
        alph.len() >= 45,
        alph.no_duplicates(),
    ensures
        ({
            let t = b45_chunk(data, alph);
            &&& t.len() == 3
            &&& forall|k: int| 0 <= k < 3 ==> index_in(alph, #[trigger] t[k]) is Some
            &&& b45_group(t, alph) == Ok::<Seq<u8>, Seq<char>>(data.take(2))
        }),
{
    let t = b45_chunk(data, alph);
    let b = data[0] as int * 256 + data[1] as int;
    let d0 = b % 45;
    let d1 = (b / 45) % 45;
    let d2 = b / 2025;
    vstd::arithmetic::div_mod::lemma_fundamental_div_mod(b, 45);
    vstd::arithmetic::div_mod::lemma_fundamental_div_mod(b / 45, 45);
    vstd::arithmetic::div_mod::lemma_div_denominator(b, 45, 45);
    assert(0 <= d2 < 45);
    assert forall|k: int| 0 <= k < 3 implies index_in(alph, #[trigger] t[k]) is Some by {
        if k == 0 {
            lemma_index_in_distinct(alph, d0);
        } else if k == 1 {
            lemma_index_in_distinct(alph, d1);
        } else {
            lemma_index_in_distinct(alph, d2);
        }
    }
    lemma_last_invalid_none(t, alph);
    let t1 = t.drop_first();
    let t2 = t1.drop_first();
    lemma_b45_value_digit(t, alph, d0);
    lemma_b45_value_digit(t1, alph, d1);
    lemma_b45_value_digit(t2, alph, d2);
    assert(t2.drop_first() =~= Seq::<char>::empty());
    assert(b45_value(t, alph) == d0 + 45 * (d1 + 45 * d2));
    assert(d0 + 45 * (d1 + 45 * d2) == b) by (nonlinear_arith)
        requires
            b == 45 * (b / 45) + d0,
            b / 45 == 45 * d2 + d1,
    ;
    vstd::arithmetic::div_mod::lemma_fundamental_div_mod_converse(
        b,
        256,
        data[0] as int,
        data[1] as int,
    );
    assert(b45_group(t, alph)->Ok_0 =~= data.take(2));
}

proof fn lemma_b45_single(data: Seq<u8>, alph: Seq<char>)
    requires
        data.len() == 1,
        alph.len() >= 45,
        alph.no_duplicates(),
    ensures
        ({
            let t = b45_chunk(data, alph);
            &&& t.len() == 2
            &&& forall|k: int| 0 <= k < 2 ==> index_in(alph, #[trigger] t[k]) is Some
            &&& b45_group(t, alph) == Ok::<Seq<u8>, Seq<char>>(data)
        }),
{
    let t = b45_chunk(data, alph);
    let b = data[0] as int;
    vstd::arithmetic::div_mod::lemma_fundamental_div_mod(b, 45);
    assert forall|k: int| 0 <= k < 2 implies index_in(alph, #[trigger] t[k]) is Some by {
        if k == 0 {
            lemma_index_in_distinct(alph, b % 45);
        } else {
            lemma_index_in_distinct(alph, b / 45);
        }
    }
    lemma_last_invalid_none(t, alph);
    let t1 = t.drop_first();
    lemma_b45_value_digit(t, alph, b % 45);
    lemma_b45_value_digit(t1, alph, b / 45);
    assert(t1.drop_first() =~= Seq::<char>::empty());
    assert(b45_value(t, alph) == b);
    assert(b45_group(t, alph)->Ok_0 =~= data);
}

proof fn lemma_b45_decode_encoded(data: Seq<u8>, alph: Seq<char>)
    requires
        alph.len() >= 45,
        alph.no_duplicates(),
    ensures
        base45_decode_chars(base45_encode_spec(data, alph), alph) == Ok::<Seq<u8>, Seq<char>>(data),
        forall|k: int|
            0 <= k < base45_encode_spec(data, alph).len() ==> index_in(
                alph,
                #[trigger] base45_encode_spec(data, alph)[k],
            ) is Some,
    decreases data.len(),
{
    if data.len() > 0 {
        let t = b45_chunk(data, alph);
        let enc = base45_encode_spec(data, alph);
        if data.len() >= 2 {
            lemma_b45_pair(data, alph);
        } else {
            lemma_b45_single(data, alph);
        }
        if data.len() <= 2 {
            assert(data.take(data.len() as int) =~= data);
            assert(enc == t);
            if data.len() == 2 {
                assert(enc.take(3) =~= enc);
            }
            assert forall|k: int| 0 <= k < enc.len() implies index_in(alph, #[trigger] enc[k]) is Some by {
                assert(enc[k] == t[k]);
            }
        } else {
            let rest = data.skip(2);
            lemma_b45_decode_encoded(rest, alph);
            let renc = base45_encode_spec(rest, alph);
            assert(enc.take(3) =~= t);
            assert(enc.skip(3) =~= renc);
            assert(data.take(2) + rest =~= data);
            assert(enc.len() > 3);
            assert(b45_group(enc.take(3), alph) == Ok::<Seq<u8>, Seq<char>>(data.take(2)));
            assert(base45_decode_chars(enc, alph) == Ok::<Seq<u8>, Seq<char>>(data.take(2) + rest));
            assert forall|k: int| 0 <= k < enc.len() implies index_in(alph, #[trigger] enc[k]) is Some by {
                if k >= 3 {
                    assert(enc[k] == renc[k - 3]);
                } else {
                    assert(enc[k] == t[k]);
                }
            }
        }
    } else {
        assert(data =~= Seq::<u8>::empty());
    }
}

/// Base45 decoding undoes Base45 encoding: for an alphabet of at least 45
/// distinct characters, decoding the encoding of any bytes succeeds and
/// gives them back, whether or not foreign characters are stripped.
pub proof fn lemma_base45_roundtrip(data: Seq<u8>, alph: Seq<char>, strip: bool)
    requires
        alph.len() >= 45,
        alph.no_duplicates(),
    ensures
        base45_decode_spec(base45_encode_spec(data, alph), alph, strip) == Ok::<Seq<u8>, Seq<char>>(
            data,
        ),
{
    lemma_b45_decode_encoded(data, alph);
    if strip {
        lemma_keep_in_all(base45_encode_spec(data, alph), alph);
    }
}

// ---------------------------------------------------------------------------
// Base85 / Ascii85
// ---------------------------------------------------------------------------

/// `cs` without the `<~` and `~>` delimiters, where it has both and
/// something between them.
pub open spec fn strip_delims_spec(cs: Seq<char>) -> Seq<char> {
    if cs.len() >= 5 && cs[0] == '<' && cs[1] == '~' && cs[cs.len() - 2] == '~' && cs[cs.len() - 1]
        == '>' {
        cs.subrange(2, cs.len() - 2)
    } else {
        cs
    }
}

/// Drop the `<~` `~>` delimiters, where both are there around something.
fn strip_delims(s: &[char]) -> (out: Vec<char>)
    ensures
        out@ == strip_delims_spec(s@),
{
    let n = s.len();
    let (from, to) = if n >= 5 && s[0] == '<' && s[1] == '~' && s[n - 2] == '~' && s[n - 1] == '>' {
        (2, n - 2)
    } else {
        (0, n)
    };
    let mut out: Vec<char> = Vec::new();
    let mut i: usize = from;
    while i < to
        invariant
            from <= i <= to,
            to <= n,
            n == s.len(),
            out@ == s@.subrange(from as int, i as int),
        decreases to - i,
    {
        out.push(s[i]);
        assert(s@.subrange(from as int, i + 1) =~= s@.subrange(from as int, i as int).push(s@[i as int]));
        i += 1;
    }
    assert(s@.subrange(0, n as int) =~= s@);
    out
}

/// `85^(4-k)`: the weight of the `k`-th digit of a five-digit group.
pub open spec fn b85_weight(k: int) -> int {
    if k == 0 {
        52200625
    } else if k == 1 {
        614125
    } else if k == 2 {
        7225
    } else if k == 3 {
        85
    } else {
        1
    }
}

/// The big-endian value of the first four bytes of `s`, zeros past its end.
pub open spec fn b85_block_value(s: Seq<u8>) -> int {
    byte_or0(s, 0) as int * 16777216 + byte_or0(s, 1) as int * 65536 + byte_or0(s, 2) as int * 256
        + byte_or0(s, 3) as int
}

/// The characters for the first (up to) four bytes of `s`: the five base-85
/// digits of their value, most significant first, cut to one more than the
/// number of bytes; in the standard variant an all-zero block is `z`.
pub open spec fn b85_block(s: Seq<u8>, alph: Seq<char>, standard: bool) -> Seq<char> {
    let v = b85_block_value(s);
    if !standard || v > 0 {
        Seq::new(
            if s.len() < 4 {
                (s.len() + 1) as nat
            } else {
                5
            },
            |k: int| alph[(v / b85_weight(k)) % 85],
        )
    } else {
        seq!['z']
    }
}

/// The Base85 characters of `s`, four bytes at a time.
pub open spec fn base85_body(s: Seq<u8>, alph: Seq<char>, standard: bool) -> Seq<char>
    decreases s.len(),
{
    if s.len() == 0 {
        Seq::empty()
    } else if s.len() <= 4 {
        b85_block(s, alph, standard)
    } else {
        b85_block(s, alph, standard) + base85_body(s.skip(4), alph, standard)
    }
}

/// What `base85_encode` gives: nothing for no input, else the Base85 body,
/// inside `<~ ~>` if asked for.
pub open spec fn base85_encode_spec(s: Seq<u8>, alph: Seq<char>, standard: bool, include_delim: bool) -> Seq<
    char,
> {
    if s.len() == 0 {
        Seq::empty()
    } else if include_delim {
        "<~"@ + base85_body(s, alph, standard) + "~>"@
    } else {
        base85_body(s, alph, standard)
    }
}

/// Base85-encode `input`. `standard` is the Ascii85 variant, where an
/// all-zero block is written `z`.
pub fn base85_encode(input: &[u8], alphabet: &[char], standard: bool, include_delim: bool) -> (out:
    String)
    requires
        input@.len() > 0 ==> alphabet@.len() >= 85,
    ensures
        out@ == base85_encode_spec(input@, alphabet@, standard, include_delim),
{
    let n = input.len();
    if n == 0 {
        return String::new();
    }
    let mut result = String::new();
    let mut i: usize = 0;
    assert(input@.skip(0) =~= input@);
    while i < n
        invariant
            n == input.len(),
            i <= n,
            alphabet@.len() >= 85,
            result@ + base85_body(input@.skip(i as int), alphabet@, standard) == base85_body(
                input@,
                alphabet@,
                standard,
            ),
        decreases n - i,
    {
        let ghost rest = input@.skip(i as int);
        let ghost pre = result@;
        let block: u64 = get_or0(input, i, 0) as u64 * 16777216 + get_or0(input, i, 1) as u64 * 65536
            + get_or0(input, i, 2) as u64 * 256 + get_or0(input, i, 3) as u64;
        proof {
            assert forall|k: int| 0 <= k < 4 implies byte_or0(rest, k) == byte_or0(
                input@,
                i + k,
            ) by {}
            assert(block as int == b85_block_value(rest));
        }
        if !standard || block > 0 {
            let keep: usize = if n - i < 4 {
                n - i + 1
            } else {
                5
            };
            let weights: [u64; 5] = [52200625, 614125, 7225, 85, 1];
            let ghost blk = b85_block(rest, alphabet@, standard);
            let mut k: usize = 0;
            while k < keep
                invariant
                    k <= keep,
                    keep <= 5,
                    keep == blk.len(),
                    alphabet@.len() >= 85,
                    forall|q: int| 0 <= q < 5 ==> weights@[q] == b85_weight(q),
                    forall|q: int|
                        0 <= q < keep ==> blk[q] == alphabet@[(block as int / b85_weight(q)) % 85],
                    result@ == pre + blk.take(k as int),
                decreases keep - k,
            {
                assert(weights@[k as int] == b85_weight(k as int));
                assert(b85_weight(k as int) > 0);
                let d = (block / weights[k]) % 85;
                push_char(&mut result, alphabet[d as usize]);
                assert(blk.take(k + 1) =~= blk.take(k as int).push(blk[k as int]));
                k += 1;
            }
            assert(blk.take(keep as int) =~= blk);
        } else {
            push_char(&mut result, 'z');
            assert(result@ =~= pre + b85_block(rest, alphabet@, standard));
        }
        if n - i <= 4 {
            assert(input@.skip(n as int) =~= Seq::<u8>::empty());
            i = n;
        } else {
            assert(rest.skip(4) =~= input@.skip(i + 4));
            i += 4;
        }
        assert(result@ + base85_body(input@.skip(i as int), alphabet@, standard) =~= base85_body(
            input@,
            alphabet@,
            standard,
        ));
    }
    assert(input@.skip(n as int) =~= Seq::<u8>::empty());
    assert(result@ + Seq::<char>::empty() =~= result@);
    if include_delim {
        let mut framed = String::new();
        push_str(&mut framed, "<~");
        push_str(&mut framed, result.as_str());
        push_str(&mut framed, "~>");
        framed
    } else {
        result
    }
}

/// The characters of `cs` that Base85 decoding with `strip` keeps: `~`, the
/// zero-block character and the alphabet's characters.
pub open spec fn b85_keep(cs: Seq<char>, alph: Seq<char>, zero_char: Option<char>) -> Seq<char>
    decreases cs.len(),
{
    if cs.len() == 0 {
        Seq::empty()
    } else {
        let r = b85_keep(cs.drop_last(), alph, zero_char);
        let c = cs.last();
        if c == '~' || zero_char == Some(c) || index_in(alph, c) is Some {
            r.push(c)
        } else {
            r
        }
    }
}

/// The characters that Base85 decoding reads: the input without its
/// delimiters, and with `strip` also without foreign characters and then
/// without the delimiters that this uncovers.
pub open spec fn b85_prepared(input: Seq<char>, alph: Seq<char>, strip: bool, zero_char: Option<
    char,
>) -> Seq<char> {
    let s = strip_delims_spec(input);
    if strip {
        strip_delims_spec(b85_keep(s, alph, zero_char))
    } else {
        s
    }
}

/// The message for a character outside the Base85 alphabet at `pos`.
pub open spec fn b85_char_message(c: char, pos: nat) -> Seq<char> {
    "非法字符 '"@ + seq![c] + "' 于位置 "@ + decimal(pos)
}

/// The value of the `k`-th digit of a group `t`: its alphabet position, or
/// 84 past the group's end.
pub open spec fn b85_digit(t: Seq<char>, alph: Seq<char>, k: int) -> int {
    if k < t.len() {
        match index_in(alph, t[k]) {
            Some(p) => p as int,
            None => 0,
        }
    } else {
        84
    }
}

/// The 32-bit value of a group of up to five digits, short groups padded
/// with the highest digit.
pub open spec fn b85_group_value(t: Seq<char>, alph: Seq<char>) -> int {
    (b85_digit(t, alph, 0) * 52200625 + b85_digit(t, alph, 1) * 614125 + b85_digit(t, alph, 2)
        * 7225 + b85_digit(t, alph, 3) * 85 + b85_digit(t, alph, 4)) % 4294967296
}

/// The bytes of one group: the big-endian bytes of its value, one fewer than
/// the group's characters for a short group.
pub open spec fn b85_group_bytes(t: Seq<char>, alph: Seq<char>) -> Seq<u8> {
    let v = b85_group_value(t, alph);
    seq![
        ((v / 16777216) % 256) as u8,
        ((v / 65536) % 256) as u8,
        ((v / 256) % 256) as u8,
        (v % 256) as u8,
    ].take(
        if t.len() < 5 {
            t.len() - 1
        } else {
            4
        },
    )
}

/// Base85 decoding of `cs`, whose first character stands at `pos` of what is
/// read: a zero-block character gives four zero bytes, else a group of up to
/// five characters gives its bytes; a character outside the alphabet in a
/// group is an error.
pub open spec fn b85_decode_chars(cs: Seq<char>, alph: Seq<char>, zero_char: Option<char>, pos: nat) -> Result<
    Seq<u8>,
    Seq<char>,
>
    decreases cs.len(),
{
    if cs.len() == 0 {
        Ok(Seq::empty())
    } else if zero_char == Some(cs[0]) {
        prefixed(seq![0u8, 0u8, 0u8, 0u8], b85_decode_chars(cs.skip(1), alph, zero_char, pos + 1))
    } else {
        let t = if cs.len() < 5 {
            cs
        } else {
            cs.take(5)
        };
        match first_invalid(t, alph) {
            Some(k) => Err(b85_char_message(t[k as int], pos + k)),
            None => if cs.len() <= 5 {
                Ok(b85_group_bytes(t, alph))
            } else {
                prefixed(
                    b85_group_bytes(t, alph),
                    b85_decode_chars(cs.skip(5), alph, zero_char, pos + 5),
                )
            },
        }
    }
}

/// What `base85_decode` gives.
pub open spec fn base85_decode_spec(input: Seq<char>, alph: Seq<char>, strip: bool, zero_char: Option<
    char,
>) -> Result<Seq<u8>, Seq<char>> {
    b85_decode_chars(b85_prepared(input, alph, strip, zero_char), alph, zero_char, 0)
}

/// The characters of `s` that Base85 decoding with `strip` keeps.
fn b85_keep_exec(s: &[char], alphabet: &[char], zero_char: Option<char>) -> (out: Vec<char>)
    ensures
        out@ == b85_keep(s@, alphabet@, zero_char),
{
    let mut out: Vec<char> = Vec::new();
    let mut i: usize = 0;
    assert(s@.take(0) =~= Seq::<char>::empty());
    while i < s.len()
        invariant
            i <= s.len(),
            out@ == b85_keep(s@.take(i as int), alphabet@, zero_char),
        decreases s.len() - i,
    {
        let c = s[i];
        assert(s@.take(i + 1).drop_last() =~= s@.take(i as int));
        assert(s@.take(i + 1).last() == c);
        let is_zero = match zero_char {
            Some(z) => z == c,
            None => false,
        };
        if c == '~' || is_zero || position(alphabet, c).is_some() {
            out.push(c);
        }
        i += 1;
    }
    assert(s@.take(s.len() as int) =~= s@);
    out
}

/// Decode one Base85 group of `take` characters starting at `i`.
fn b85_decode_group(chars: &[char], i: usize, take: usize, alphabet: &[char]) -> (r: Result<
    Vec<u8>,
    CoreError,
>)
    requires
        1 <= take <= 5,
        i + take <= chars.len(),
        alphabet@.len() * 52822061 <= u64::MAX,
    ensures
        ({
            let t = chars@.subrange(i as int, i + take);
            match r {
                Ok(v) => first_invalid(t, alphabet@) is None && v@ == b85_group_bytes(t, alphabet@),
                Err(e) => exists|k: nat|
                    first_invalid(t, alphabet@) == Some(k) && e.is_parse_with(
                        b85_char_message(t[k as int], (i + k) as nat),
                    ),
            }
        }),
{
    let ghost t = chars@.subrange(i as int, i + take);
    let mut d: [u64; 5] = [84, 84, 84, 84, 84];
    let mut k: usize = 0;
    while k < take
        invariant
            k <= take,
            take <= 5,
            i + take <= chars.len(),
            t == chars@.subrange(i as int, i + take),
            alphabet@.len() * 52822061 <= u64::MAX,
            forall|q: int| 0 <= q < k ==> index_in(alphabet@, #[trigger] t[q]) is Some,
            forall|q: int| 0 <= q < k ==> d@[q] as int == b85_digit(t, alphabet@, q),
            forall|q: int| k <= q < 5 ==> d@[q] == 84,
            forall|q: int| 0 <= q < 5 ==> d@[q] < alphabet@.len() || d@[q] == 84,
        decreases take - k,
    {
        let c = chars[i + k];
        assert(t[k as int] == c);
        match position(alphabet, c) {
            Some(p) => {
                proof {
                    lemma_index_in(alphabet@, c);
                }
                d[k] = p as u64;
            },
            None => {
                proof {
                    lemma_first_invalid(t, alphabet@, k as int);
                }
                let mut msg = String::new();
                push_str(&mut msg, "非法字符 '");
                push_char(&mut msg, c);
                push_str(&mut msg, "' 于位置 ");
                push_decimal(&mut msg, (i + k) as u64);
                assert(msg@ =~= b85_char_message(t[k as int], (i + k) as nat));
                return Err(CoreError::Parse(msg));
            },
        }
        k += 1;
    }
    proof {
        lemma_first_invalid(t, alphabet@, take as int);
        assert forall|q: int| 0 <= q < 5 implies d@[q] as int == b85_digit(t, alphabet@, q) by {}
        let l = alphabet@.len() as int;
        assert forall|q: int| 0 <= q < 5 implies d@[q] as int <= l + 84 by {}
        assert(d@[0] * 52200625 + d@[1] * 614125 + d@[2] * 7225 + d@[3] * 85 + d@[4] <= (l + 84)
            * 52822061) by (nonlinear_arith)
            requires
                d@[0] <= l + 84,
                d@[1] <= l + 84,
                d@[2] <= l + 84,
                d@[3] <= l + 84,
                d@[4] <= l + 84,
        ;
    }
    let block = (d[0] * 52200625 + d[1] * 614125 + d[2] * 7225 + d[3] * 85 + d[4]) % 4294967296;
    let bb: [u8; 4] = [
        ((block / 16777216) % 256) as u8,
        ((block / 65536) % 256) as u8,
        ((block / 256) % 256) as u8,
        (block % 256) as u8,
    ];
    let keep: usize = if take < 5 {
        take - 1
    } else {
        4
    };
    let mut out: Vec<u8> = Vec::new();
    let mut q: usize = 0;
    while q < keep
        invariant
            q <= keep,
            keep <= 4,
            out@ == bb@.take(q as int),
        decreases keep - q,
    {
        out.push(bb[q]);
        assert(bb@.take(q + 1) =~= bb@.take(q as int).push(bb@[q as int]));
        q += 1;
    }
    assert(out@ =~= b85_group_bytes(t, alphabet@));
    Ok(out)
}

/// Base85-decode `input`: `<~ ~>` delimiters are dropped, with `strip` so are
/// foreign characters; `zero_char`, where given, stands for four zero bytes.
/// A character outside the alphabet inside a group is an error.
pub fn base85_decode(input: &str, alphabet: &[char], strip: bool, zero_char: Option<char>) -> (r:
    Result<Vec<u8>, CoreError>)
    requires
        alphabet@.len() * 52822061 <= u64::MAX,
    ensures
        decoded_as(r, base85_decode_spec(input@, alphabet@, strip, zero_char)),
{
    let raw = chars_of(input);
    let mut chars = strip_delims(&raw);
    if strip {
        let kept = b85_keep_exec(&chars, alphabet, zero_char);
        chars = strip_delims(&kept);
    }
    let n = chars.len();
    if n == 0 {
        return Ok(Vec::new());
    }
    let mut result: Vec<u8> = Vec::new();
    let mut i: usize = 0;
    assert(chars@.skip(0) =~= chars@);
    assert(result@ + Seq::<u8>::empty() =~= result@);
    while i < n
        invariant
            n == chars.len(),
            i <= n,
            alphabet@.len() * 52822061 <= u64::MAX,
            base85_decode_spec(input@, alphabet@, strip, zero_char) == prefixed(
                result@,
                b85_decode_chars(chars@.skip(i as int), alphabet@, zero_char, i as nat),
            ),
        decreases n - i,
    {
        let ghost rest = chars@.skip(i as int);
        let ghost pre = result@;
        let is_zero = match zero_char {
            Some(z) => chars[i] == z,
            None => false,
        };
        if is_zero {
            result.push(0);
            result.push(0);
            result.push(0);
            result.push(0);
            proof {
                assert(rest[0] == chars@[i as int]);
                assert(rest.skip(1) =~= chars@.skip(i + 1));
                assert(result@ =~= pre + seq![0u8, 0u8, 0u8, 0u8]);
                match b85_decode_chars(chars@.skip(i + 1), alphabet@, zero_char, (i + 1) as nat) {
                    Ok(r2) => {
                        assert(pre + (seq![0u8, 0u8, 0u8, 0u8] + r2) =~= result@ + r2);
                    },
                    Err(m) => {},
                }
            }
            i += 1;
        } else {
            let take: usize = if n - i < 5 {
                n - i
            } else {
                5
            };
            let ghost t = if rest.len() < 5 {
                rest
            } else {
                rest.take(5)
            };
            assert(t =~= chars@.subrange(i as int, i + take));
            assert(rest[0] == chars@[i as int]);
            match b85_decode_group(&chars, i, take, alphabet) {
                Ok(mut v) => {
                    let ghost g = v@;
                    result.append(&mut v);
                    proof {
                        if rest.len() > 5 {
                            assert(rest.skip(5) =~= chars@.skip(i + 5));
                            match b85_decode_chars(
                                chars@.skip(i + 5),
                                alphabet@,
                                zero_char,
                                (i + 5) as nat,
                            ) {
                                Ok(r2) => {
                                    assert(pre + (g + r2) =~= (pre + g) + r2);
                                },
                                Err(m) => {},
                            }
                        } else {
                            assert(result@ + Seq::<u8>::empty() =~= result@);
                        }
                    }
                },
                Err(e) => {
                    return Err(e);
                },
            }
            if n - i <= 5 {
                assert(chars@.skip(n as int) =~= Seq::<char>::empty());
                i = n;
            } else {
                i += 5;
            }
        }
    }
    assert(chars@.skip(n as int) =~= Seq::<char>::empty());
    Ok(result)
}

// ---------------------------------------------------------------------------
// Base92
// ---------------------------------------------------------------------------

/// The Base92 character of a value below 91: `!`, then `#` to `_`, then `a`
/// to `}`.
pub open spec fn b92_chr_spec(v: int) -> char {
    if v == 0 {
        '!'
    } else if v <= 61 {
        (34 + v) as char
    } else {
        (97 + v - 62) as char
    }
}

/// The Base92 value of a character, if it is one.
pub open spec fn b92_ord_spec(c: char) -> Option<int> {
    if c == '!' {
        Some(0)
    } else if '#' <= c <= '_' {
        Some(c as int - 35 + 1)
    } else if 'a' <= c <= '}' {
        Some(c as int - 97 + 62)
    } else {
        None
    }
}

fn base92_chr(val: usize) -> (c: char)
    requires
        val < 91,
    ensures
        c == b92_chr_spec(val as int),
{
    if val == 0 {
        '!'
    } else if val <= 61 {
        (35u8 + val as u8 - 1) as char
    } else {
        (97u8 + val as u8 - 62) as char
    }
}

/// The message for a character that is not Base92.
pub open spec fn b92_char_message(c: char) -> Seq<char> {
    "'"@ + seq![c] + "' 不是 base92 字符"@
}

fn base92_ord(c: char) -> (r: Result<u32, CoreError>)
    ensures
        match (r, b92_ord_spec(c)) {
            (Ok(v), Some(w)) => v as int == w,
            (Err(e), None) => e.is_parse_with(b92_char_message(c)),
            _ => false,
        },
{
    if c == '!' {
        Ok(0)
    } else if '#' <= c && c <= '_' {
        Ok(#[verifier::truncate] (c as u32) - 35 + 1)
    } else if 'a' <= c && c <= '}' {
        Ok(#[verifier::truncate] (c as u32) - 97 + 62)
    } else {
        let mut msg = String::new();
        push_str(&mut msg, "'");
        push_char(&mut msg, c);
        push_str(&mut msg, "' 不是 base92 字符");
        assert(msg@ =~= b92_char_message(c));
        Err(CoreError::Parse(msg))
    }
}

/// The `w` binary digits of `v`, most significant first.
pub open spec fn bits_be(v: int, w: nat) -> Seq<bool> {
    Seq::new(w, |k: int| (v / ipow(2, (w - 1 - k) as nat)) % 2 == 1)
}

/// The bits of the bytes of `s`, eight per byte, most significant first.
pub open spec fn bytes_bits(s: Seq<u8>) -> Seq<bool>
    decreases s.len(),
{
    if s.len() == 0 {
        Seq::empty()
    } else {
        bits_be(s[0] as int, 8) + bytes_bits(s.skip(1))
    }
}

/// The value of a bit sequence read most significant first.
pub open spec fn bits_value(b: Seq<bool>) -> int
    decreases b.len(),
{
    if b.len() == 0 {
        0
    } else {
        bits_value(b.drop_last()) * 2 + if b.last() {
            1int
        } else {
            0int
        }
    }
}

/// `b` followed by `n` zero bits.
pub open spec fn zero_padded(b: Seq<bool>, n: int) -> Seq<bool> {
    b + Seq::new((n - b.len()) as nat, |k: int| false)
}

/// Base92 of a bit sequence: two characters per 13 bits (the value's
/// quotient and remainder by 91); a tail under 7 bits is padded to 6 bits
/// and gives one character, a longer one is padded to 13 bits.
pub open spec fn b92_encode_bits(b: Seq<bool>) -> Seq<char>
    decreases b.len(),
{
    if b.len() >= 13 {
        let i = bits_value(b.take(13));
        seq![b92_chr_spec(i / 91), b92_chr_spec(i % 91)] + b92_encode_bits(b.skip(13))
    } else if b.len() == 0 {
        Seq::empty()
    } else if b.len() < 7 {
        seq![b92_chr_spec(bits_value(zero_padded(b, 6)))]
    } else {
        let i = bits_value(zero_padded(b, 13));
        seq![b92_chr_spec(i / 91), b92_chr_spec(i % 91)]
    }
}

proof fn lemma_pow2_values()
    ensures
        ipow(2, 0) == 1,
        ipow(2, 1) == 2,
        ipow(2, 2) == 4,
        ipow(2, 3) == 8,
        ipow(2, 4) == 16,
        ipow(2, 5) == 32,
        ipow(2, 6) == 64,
        ipow(2, 7) == 128,
        ipow(2, 8) == 256,
        ipow(2, 9) == 512,
        ipow(2, 10) == 1024,
        ipow(2, 11) == 2048,
        ipow(2, 12) == 4096,
        ipow(2, 13) == 8192,
        ipow(2, 14) == 16384,
{
    reveal_with_fuel(ipow, 15);
}

proof fn lemma_bits_value_bound(b: Seq<bool>)
    ensures
        0 <= bits_value(b) < ipow(2, b.len()),
    decreases b.len(),
{
    if b.len() > 0 {
        lemma_bits_value_bound(b.drop_last());
    }
}

/// Append the `width` binary digits of `x`, most significant first; `p` is
/// the weight of the first.
fn push_bits(bits: &mut Vec<bool>, x: u32, width: u32, p: u32)
    requires
        1 <= width <= 16,
        p as int == ipow(2, (width - 1) as nat),
    ensures
        final(bits)@ == old(bits)@ + bits_be(x as int, width as nat),
{
    let ghost pre = bits@;
    let ghost want = bits_be(x as int, width as nat);
    let mut p = p;
    let mut k: u32 = 0;
    while k < width
        invariant
            k <= width,
            width <= 16,
            k < width ==> p as int == ipow(2, (width - 1 - k) as nat),
            want == bits_be(x as int, width as nat),
            bits@ == pre + want.take(k as int),
        decreases width - k,
    {
        proof {
            lemma_pow2_positive((width - 1 - k) as nat);
        }
        let bit = (x / p) % 2 == 1;
        bits.push(bit);
        assert(want.take(k + 1) =~= want.take(k as int).push(bit));
        proof {
            if k + 1 < width {
                assert(ipow(2, (width - 1 - k) as nat) == 2 * ipow(2, (width - 1 - k - 1) as nat));
            }
        }
        p = p / 2;
        k += 1;
    }
    assert(want.take(width as int) =~= want);
}

proof fn lemma_pow2_positive(e: nat)
    ensures
        ipow(2, e) >= 1,
    decreases e,
{
    if e > 0 {
        lemma_pow2_positive((e - 1) as nat);
    }
}

/// The value of the first `k` bits.
fn prefix_value(bits: &Vec<bool>, k: usize) -> (v: u32)
    requires
        k <= bits.len(),
        k <= 16,
    ensures
        v as int == bits_value(bits@.take(k as int)),
{
    let mut v: u32 = 0;
    let mut j: usize = 0;
    assert(bits@.take(0) =~= Seq::<bool>::empty());
    while j < k
        invariant
            j <= k,
            k <= bits.len(),
            k <= 16,
            v as int == bits_value(bits@.take(j as int)),
        decreases k - j,
    {
        proof {
            lemma_bits_value_bound(bits@.take(j as int));
            lemma_pow2_monotone(j as nat, 16);
            lemma_pow2_values();
            assert(bits@.take(j + 1).drop_last() =~= bits@.take(j as int));
        }
        v = v * 2 + if bits[j] {
            1
        } else {
            0
        };
        j += 1;
    }
    v
}

proof fn lemma_pow2_monotone(a: nat, b: nat)
    requires
        a <= b,
    ensures
        ipow(2, a) <= ipow(2, b),
    decreases b,
{
    if a < b {
        lemma_pow2_monotone(a, (b - 1) as nat);
        lemma_pow2_positive((b - 1) as nat);
    }
}

proof fn lemma_b92_take_front(a: Seq<bool>, b: Seq<bool>, k: int)
    requires
        0 <= k <= a.len(),
    ensures
        (a + b).take(k) == a.take(k),
        (a + b).skip(k) == a.skip(k) + b,
{
    assert((a + b).take(k) =~= a.take(k));
    assert((a + b).skip(k) =~= a.skip(k) + b);
}

/// Base92-encode `input`.
pub fn base92_encode(input: &[u8]) -> (res: String)
    ensures
        res@ == b92_encode_bits(bytes_bits(input@)),
{
    let mut res = String::new();
    let mut bits: Vec<bool> = Vec::new();
    let n = input.len();
    let mut pos: usize = 0;
    proof {
        lemma_pow2_values();
        assert(input@.skip(0) =~= input@);
        assert(bits@ + bytes_bits(input@) =~= bytes_bits(input@));
    }
    loop
        invariant_except_break
            pos <= n,
            n == input.len(),
            bits.len() < 13,
            res@ + b92_encode_bits(bits@ + bytes_bits(input@.skip(pos as int))) == b92_encode_bits(
                bytes_bits(input@),
            ),
        ensures
            pos == n,
            bits.len() < 13,
            res@ + b92_encode_bits(bits@) == b92_encode_bits(bytes_bits(input@)),
        decreases 8 * (n - pos) + bits.len(),
    {
        let ghost m0 = 8 * (n - pos) + bits.len();
        while bits.len() < 13 && pos < n
            invariant
                pos <= n,
                n == input.len(),
                bits.len() < 21,
                8 * (n - pos) + bits.len() == m0,
                res@ + b92_encode_bits(bits@ + bytes_bits(input@.skip(pos as int))) == b92_encode_bits(
                    bytes_bits(input@),
                ),
            decreases n - pos,
        {
            let ghost before = bits@;
            proof {
                lemma_pow2_values();
            }
            push_bits(&mut bits, input[pos] as u32, 8, 128);
            proof {
                let rest = input@.skip(pos as int);
                assert(rest[0] == input@[pos as int]);
                assert(rest.skip(1) =~= input@.skip(pos + 1));
                assert(before + bytes_bits(rest) =~= bits@ + bytes_bits(input@.skip(pos + 1)));
            }
            pos += 1;
        }
        if bits.len() < 13 {
            proof {
                assert(input@.skip(pos as int) =~= Seq::<u8>::empty());
                assert(bits@ + bytes_bits(input@.skip(pos as int)) =~= bits@);
            }
            break;
        }
        let ghost all = bits@ + bytes_bits(input@.skip(pos as int));
        let i = prefix_value(&bits, 13);
        proof {
            lemma_bits_value_bound(bits@.take(13));
            lemma_pow2_values();
            lemma_b92_take_front(bits@, bytes_bits(input@.skip(pos as int)), 13);
        }
        push_char(&mut res, base92_chr((i / 91) as usize));
        push_char(&mut res, base92_chr((i % 91) as usize));
        let tail = bits.split_off(13);
        bits = tail;
        proof {
            assert(b92_encode_bits(all) == seq![b92_chr_spec(i as int / 91), b92_chr_spec(i as int % 91)]
                + b92_encode_bits(bits@ + bytes_bits(input@.skip(pos as int))));
        }
    }
    let ghost tailbits = bits@;
    if bits.len() > 0 {
        if bits.len() < 7 {
            while bits.len() < 6
                invariant
                    bits.len() <= 6,
                    tailbits.len() <= bits.len(),
                    bits@ == zero_padded(tailbits, bits.len() as int),
                decreases 6 - bits.len(),
            {
                bits.push(false);
                assert(bits@ =~= zero_padded(tailbits, bits.len() as int));
            }
            let v = prefix_value(&bits, 6);
            proof {
                assert(bits@.take(6) =~= bits@);
                lemma_bits_value_bound(bits@);
                lemma_pow2_values();
            }
            push_char(&mut res, base92_chr(v as usize));
        } else {
            while bits.len() < 13
                invariant
                    bits.len() <= 13,
                    tailbits.len() <= bits.len(),
                    bits@ == zero_padded(tailbits, bits.len() as int),
                decreases 13 - bits.len(),
            {
                bits.push(false);
                assert(bits@ =~= zero_padded(tailbits, bits.len() as int));
            }
            let i = prefix_value(&bits, 13);
            proof {
                assert(bits@.take(13) =~= bits@);
                lemma_bits_value_bound(bits@);
                lemma_pow2_values();
            }
            push_char(&mut res, base92_chr((i / 91) as usize));
            push_char(&mut res, base92_chr((i % 91) as usize));
        }
    }
    proof {
        if tailbits.len() == 0 {
            assert(res@ + Seq::<char>::empty() =~= res@);
        }
        assert(zero_padded(tailbits, tailbits.len() as int) =~= tailbits);
    }
    assert(res@ =~= b92_encode_bits(bytes_bits(input@)));
    res
}

/// The number of binary digits of `x` (none for zero).
pub open spec fn bit_len(x: int) -> nat
    decreases x,
{
    if x <= 0 {
        0
    } else {
        1 + bit_len(x / 2)
    }
}

/// The binary digits of `x`, at least `w` of them.
pub open spec fn bin_min(x: int, w: nat) -> Seq<bool> {
    bits_be(
        x,
        if bit_len(x) > w {
            bit_len(x)
        } else {
            w
        },
    )
}

proof fn lemma_bit_len(x: int, n: nat)
    requires
        x >= 0,
    ensures
        (bit_len(x) <= n) == (x < ipow(2, n)),
    decreases n,
{
    lemma_pow2_positive(n);
    if n > 0 && x > 0 {
        lemma_bit_len(x / 2, (n - 1) as nat);
        assert(ipow(2, n) == 2 * ipow(2, (n - 1) as nat));
    }
}

/// The first character that is not Base92.
pub open spec fn b92_first_bad(cs: Seq<char>) -> Option<char>
    decreases cs.len(),
{
    if cs.len() == 0 {
        None
    } else if b92_ord_spec(cs[0]) is None {
        Some(cs[0])
    } else {
        b92_first_bad(cs.skip(1))
    }
}

/// The bits that Base92 characters stand for: 13 or more per pair (the
/// first's value times 91 plus the second's), 6 or more for a last single
/// character.
pub open spec fn b92_decode_bits(cs: Seq<char>) -> Seq<bool>
    decreases cs.len(),
{
    if cs.len() == 0 {
        Seq::empty()
    } else if cs.len() == 1 {
        bin_min(b92_ord_spec(cs[0])->Some_0, 6)
    } else {
        bin_min(b92_ord_spec(cs[0])->Some_0 * 91 + b92_ord_spec(cs[1])->Some_0, 13)
            + b92_decode_bits(cs.skip(2))
    }
}

/// The bytes of a bit sequence, eight bits each; a tail under eight bits is
/// dropped.
pub open spec fn bits_bytes(b: Seq<bool>) -> Seq<u8>
    decreases b.len(),
{
    if b.len() >= 8 {
        seq![bits_value(b.take(8)) as u8] + bits_bytes(b.skip(8))
    } else {
        Seq::empty()
    }
}

/// What `base92_decode` gives.
pub open spec fn base92_decode_spec(cs: Seq<char>) -> Result<Seq<u8>, Seq<char>> {
    match b92_first_bad(cs) {
        Some(c) => Err(b92_char_message(c)),
        None => Ok(bits_bytes(b92_decode_bits(cs))),
    }
}

proof fn lemma_b92_first_bad_step(cs: Seq<char>, i: int)
    requires
        0 <= i < cs.len(),
        b92_ord_spec(cs[i]) is Some,
    ensures
        b92_first_bad(cs.skip(i)) == b92_first_bad(cs.skip(i + 1)),
{
    assert(cs.skip(i)[0] == cs[i]);
    assert(cs.skip(i).skip(1) =~= cs.skip(i + 1));
}

/// Base92-decode `input`; a character that is not Base92 is an error.
pub fn base92_decode(input: &str) -> (r: Result<Vec<u8>, CoreError>)
    ensures
        decoded_as(r, base92_decode_spec(input@)),
{
    let chars = chars_of(input);
    let n = chars.len();
    let mut res: Vec<u8> = Vec::new();
    let mut bits: Vec<bool> = Vec::new();
    let mut i: usize = 0;
    proof {
        assert(chars@.skip(0) =~= chars@);
        assert(bits@ + b92_decode_bits(chars@) =~= b92_decode_bits(chars@));
        assert(res@ + Seq::<u8>::empty() =~= res@);
    }
    while i < n
        invariant
            n == chars.len(),
            chars@ == input@,
            i <= n,
            bits.len() < 8,
            b92_first_bad(chars@) == b92_first_bad(chars@.skip(i as int)),
            b92_first_bad(chars@) is None ==> res@ + bits_bytes(
                bits@ + b92_decode_bits(chars@.skip(i as int)),
            ) == bits_bytes(b92_decode_bits(chars@)),
        decreases n - i,
    {
        let ghost rest = chars@.skip(i as int);
        let ghost before = bits@;
        proof {
            lemma_pow2_values();
            assert(rest[0] == chars@[i as int]);
        }
        if n - i >= 2 {
            let a = match base92_ord(chars[i]) {
                Ok(v) => v,
                Err(e) => {
                    return Err(e);
                },
            };
            proof {
                lemma_b92_first_bad_step(chars@, i as int);
            }
            let b = match base92_ord(chars[i + 1]) {
                Ok(v) => v,
                Err(e) => {
                    proof {
                        assert(chars@.skip(i + 1)[0] == chars@[i + 1]);
                    }
                    return Err(e);
                },
            };
            proof {
                lemma_b92_first_bad_step(chars@, i + 1);
                assert(rest[1] == chars@[i + 1]);
                assert(rest.skip(2) =~= chars@.skip(i + 2));
            }
            let x = a * 91 + b;
            proof {
                lemma_bit_len(x as int, 13);
                lemma_bit_len(x as int, 14);
            }
            if x >= 8192 {
                push_bits(&mut bits, x, 14, 8192);
            } else {
                push_bits(&mut bits, x, 13, 4096);
            }
            assert(before + b92_decode_bits(rest) =~= bits@ + b92_decode_bits(chars@.skip(i + 2)));
            i += 2;
        } else {
            let x = match base92_ord(chars[i]) {
                Ok(v) => v,
                Err(e) => {
                    return Err(e);
                },
            };
            proof {
                lemma_b92_first_bad_step(chars@, i as int);
                lemma_bit_len(x as int, 6);
                lemma_bit_len(x as int, 7);
                assert(chars@.skip(i + 1) =~= Seq::<char>::empty());
            }
            if x >= 64 {
                push_bits(&mut bits, x, 7, 64);
            } else {
                push_bits(&mut bits, x, 6, 32);
            }
            assert(before + b92_decode_bits(rest) =~= bits@ + b92_decode_bits(chars@.skip(i + 1)));
            i += 1;
        }
        while bits.len() >= 8
            invariant
                bits.len() < 22,
                b92_first_bad(chars@) is None ==> res@ + bits_bytes(
                    bits@ + b92_decode_bits(chars@.skip(i as int)),
                ) == bits_bytes(b92_decode_bits(chars@)),
            decreases bits.len(),
        {
            let ghost pre_res = res@;
            let ghost later = b92_decode_bits(chars@.skip(i as int));
            let v = prefix_value(&bits, 8);
            proof {
                lemma_b92_take_front(bits@, later, 8);
            }
            res.push(v as u8);
            let tail = bits.split_off(8);
            bits = tail;
            proof {
                assert(pre_res + (seq![v as u8] + bits_bytes(bits@ + later)) =~= res@ + bits_bytes(
                    bits@ + later,
                ));
            }
        }
    }
    proof {
        assert(chars@.skip(n as int) =~= Seq::<char>::empty());
        assert(bits@ + Seq::<bool>::empty() =~= bits@);
        assert(res@ + Seq::<u8>::empty() =~= res@);
    }
    Ok(res)
}

// ---------------------------------------------------------------------------
// Radix round trip
// ---------------------------------------------------------------------------

proof fn lemma_le_val_reverse(s: Seq<int>, b: int)
    ensures
        le_val(s.reverse(), b) == be_val(s, b),
    decreases s.len(),
{
    if s.len() > 0 {
        let t = s.drop_last();
        lemma_le_val_reverse(t, b);
        assert(s.reverse().drop_first() =~= t.reverse());
        assert(s.reverse()[0] == s.last());
        assert(s.last() + b * be_val(t, b) == be_val(t, b) * b + s.last()) by (nonlinear_arith);
    }
}

proof fn lemma_digits_le_props(v: nat, b: nat)
    requires
        b >= 2,
    ensures
        le_val(digits_le(v, b), b as int) == v,
        canonical(digits_le(v, b), b as int),
    decreases v,
{
    if v > 0 {
        assert(v / b < v) by (nonlinear_arith)
            requires
                v > 0,
                b >= 2,
        ;
        lemma_digits_le_props(v / b, b);
        let d = digits_le(v, b);
        let t = digits_le(v / b, b);
        assert(d == seq![(v % b) as int] + t);
        assert(d.drop_first() =~= t);
        assert(d[0] == v % b);
        vstd::arithmetic::div_mod::lemma_fundamental_div_mod(v as int, b as int);
        assert forall|i: int| 0 <= i < d.len() implies 0 <= #[trigger] d[i] < b by {
            if i > 0 {
                assert(d[i] == t[i - 1]);
            }
        }
        if t.len() == 0 {
            assert(v / b == 0) by {
                if v / b > 0 {
                    assert(t.len() > 0);
                }
            }
            assert(v % b == v) by {
                vstd::arithmetic::div_mod::lemma_fundamental_div_mod(v as int, b as int);
            }
            assert(d.last() == d[0]);
        } else {
            assert(d.last() == t.last());
        }
    }
}

proof fn lemma_be_val_zero_prefix(k: nat, s: Seq<int>, b: int)
    ensures
        be_val(Seq::new(k, |i: int| 0int) + s, b) == be_val(s, b),
    decreases s.len(), k,
{
    let z = Seq::new(k, |i: int| 0int);
    if s.len() > 0 {
        lemma_be_val_zero_prefix(k, s.drop_last(), b);
        assert((z + s).drop_last() =~= z + s.drop_last());
    } else {
        assert(z + s =~= z);
        if k > 0 {
            lemma_be_val_zero_prefix((k - 1) as nat, s, b);
            assert(z.drop_last() =~= Seq::new((k - 1) as nat, |i: int| 0int) + s);
        }
    }
}

proof fn lemma_leading_prefix<A>(k: nat, x: A, t: Seq<A>)
    requires
        t.len() == 0 || t[0] != x,
    ensures
        leading(Seq::new(k, |i: int| x) + t, x) == k,
{
    let s = Seq::new(k, |i: int| x) + t;
    lemma_leading(s, x, k as int);
}

proof fn lemma_char_digits_spelled(d: Seq<int>, alph: Seq<char>)
    requires
        alph.no_duplicates(),
        forall|i: int| 0 <= i < d.len() ==> 0 <= #[trigger] d[i] < alph.len(),
    ensures
        char_digits(spell(d, alph), alph) == d,
        first_invalid(spell(d, alph), alph) is None,
    decreases d.len(),
{
    let sp = spell(d, alph);
    if d.len() > 0 {
        let t = d.drop_last();
        assert forall|i: int| 0 <= i < t.len() implies 0 <= #[trigger] t[i] < alph.len() by {
            assert(t[i] == d[i]);
        }
        lemma_char_digits_spelled(t, alph);
        assert(sp.drop_last() =~= spell(t, alph));
        lemma_index_in_distinct(alph, d.last());
        assert(sp.last() == alph[d.last()]);
        assert(t.push(d.last()) =~= d);
        lemma_first_invalid_all(sp, alph);
    }
}

proof fn lemma_first_invalid_all(cs: Seq<char>, alph: Seq<char>)
    requires
        alph.no_duplicates(),
        forall|k: int| 0 <= k < cs.len() ==> alph.contains(#[trigger] cs[k]),
    ensures
        first_invalid(cs, alph) is None,
{
    assert forall|k: int| 0 <= k < cs.len() implies index_in(alph, #[trigger] cs[k]) is Some by {
        lemma_index_in(alph, cs[k]);
    }
    lemma_first_invalid(cs, alph, cs.len() as int);
}

proof fn lemma_char_digits_concat(a: Seq<char>, c: Seq<char>, alph: Seq<char>)
    ensures
        char_digits(a + c, alph) == char_digits(a, alph) + char_digits(c, alph),
    decreases c.len(),
{
    if c.len() == 0 {
        assert(a + c =~= a);
        assert(char_digits(a, alph) + char_digits(c, alph) =~= char_digits(a, alph));
    } else {
        lemma_char_digits_concat(a, c.drop_last(), alph);
        assert((a + c).drop_last() =~= a + c.drop_last());
        assert((a + c).last() == c.last());
        match index_in(alph, c.last()) {
            Some(i) => {
                assert(char_digits(a, alph) + char_digits(c.drop_last(), alph).push(i as int) =~= (
                char_digits(a, alph) + char_digits(c.drop_last(), alph)).push(i as int));
            },
            None => {},
        }
    }
}

proof fn lemma_first_invalid_concat(a: Seq<char>, c: Seq<char>, alph: Seq<char>)
    requires
        first_invalid(a, alph) is None,
        first_invalid(c, alph) is None,
    ensures
        first_invalid(a + c, alph) is None,
    decreases a.len(),
{
    if a.len() > 0 {
        assert(index_in(alph, a[0]) is Some);
        lemma_first_invalid_concat(a.drop_first(), c, alph);
        assert((a + c).drop_first() =~= a.drop_first() + c);
        assert((a + c)[0] == a[0]);
    } else {
        assert(a + c =~= c);
    }
}

proof fn lemma_bytes_canonical(rest: Seq<u8>)
    requires
        rest.len() == 0 || rest[0] != 0,
    ensures
        digits_le(be_val(byte_ints(rest), 256) as nat, 256).reverse().map_values(|x: int| x as u8)
            == rest,
{
    let r = byte_ints(rest).reverse();
    assert(canonical(r, 256)) by {
        assert forall|i: int| 0 <= i < r.len() implies 0 <= #[trigger] r[i] < 256 by {
            assert(r[i] == rest[rest.len() - 1 - i] as int);
        }
        if r.len() > 0 {
            assert(r.last() == rest[0] as int);
        }
    }
    lemma_canonical_digits(r, 256);
    lemma_le_val_reverse(byte_ints(rest), 256);
    assert(r.reverse() =~= byte_ints(rest));
    assert(r.reverse().map_values(|x: int| x as u8) =~= rest);
}

/// Base58-style radix decoding undoes radix encoding with leading zeros
/// kept: for an alphabet of at least two distinct characters, decoding the
/// encoding of any bytes succeeds and gives them back.
pub proof fn lemma_radix_roundtrip(data: Seq<u8>, alph: Seq<char>)
    requires
        alph.len() >= 2,
        alph.no_duplicates(),
    ensures
        first_invalid(radix_encode_spec(data, alph, true), alph) is None,
        radix_decode_spec(radix_encode_spec(data, alph, true), alph, true) == data,
{
    let b = alph.len();
    if data.len() > 0 {
        let zp = leading(data, 0u8);
        let enc = radix_encode_spec(data, alph, true);
        let v = be_val(byte_ints(data), 256);
        lemma_leading_bound(data, 0u8);
        let rest = data.skip(zp as int);
        assert(data =~= Seq::new(zp, |k: int| 0u8) + rest) by {
            lemma_leading_all(data, 0u8);
        }
        assert(rest.len() == 0 || rest[0] != 0) by {
            lemma_leading_stop(data, 0u8);
        }
        // the value ignores the leading zero bytes
        assert(byte_ints(data) =~= Seq::new(zp, |k: int| 0int) + byte_ints(rest));
        lemma_be_val_zero_prefix(zp, byte_ints(rest), 256);
        assert(v == be_val(byte_ints(rest), 256));
        lemma_be_val_nonneg_bytes(rest);
        let d = digits_le(v as nat, b);
        lemma_digits_le_props(v as nat, b);
        let body = spell(d.reverse(), alph);
        let z = Seq::new(zp, |k: int| alph[0]);
        assert(enc == z + body);
        assert forall|i: int| 0 <= i < d.reverse().len() implies 0 <= #[trigger] d.reverse()[i] < alph.len() by {
            assert(d.reverse()[i] == d[d.len() - 1 - i]);
        }
        lemma_char_digits_spelled(d.reverse(), alph);
        // the alphabet's first character is digit 0
        lemma_index_in_distinct(alph, 0);
        let zd = Seq::new(zp, |k: int| 0int);
        assert(char_digits(z, alph) == zd) by {
            lemma_char_digits_spelled(zd, alph);
            assert(spell(zd, alph) =~= z);
        }
        assert(first_invalid(z, alph) is None) by {
            lemma_char_digits_spelled(zd, alph);
            assert(spell(zd, alph) =~= z);
        }
        lemma_char_digits_concat(z, body, alph);
        lemma_first_invalid_concat(z, body, alph);
        // the leading alph[0] are exactly the zero bytes: the first digit is nonzero
        if body.len() > 0 {
            assert(d.reverse()[0] == d.last());
            assert(d.last() != 0);
            assert(body[0] == alph[d.last()]);
            assert(alph[d.last()] != alph[0]);
        }
        lemma_leading_prefix(zp, alph[0], body);
        lemma_be_val_zero_prefix(zp, d.reverse(), b as int);
        lemma_le_val_reverse(d.reverse(), b as int);
        assert(d.reverse().reverse() =~= d);
        lemma_bytes_canonical(rest);
        assert(radix_decode_spec(enc, alph, true) =~= data);
    }
}

proof fn lemma_be_val_nonneg_bytes(s: Seq<u8>)
    ensures
        be_val(byte_ints(s), 256) >= 0,
    decreases s.len(),
{
    if s.len() > 0 {
        lemma_be_val_nonneg_bytes(s.drop_last());
        assert(byte_ints(s).drop_last() =~= byte_ints(s.drop_last()));
    }
}

proof fn lemma_leading_bound<A>(s: Seq<A>, x: A)
    ensures
        leading(s, x) <= s.len(),
    decreases s.len(),
{
    if s.len() > 0 && s[0] == x {
        lemma_leading_bound(s.drop_first(), x);
    }
}

proof fn lemma_leading_all<A>(s: Seq<A>, x: A)
    ensures
        forall|k: int| 0 <= k < leading(s, x) ==> s[k] == x,
    decreases s.len(),
{
    lemma_leading_bound(s, x);
    if s.len() > 0 && s[0] == x {
        lemma_leading_all(s.drop_first(), x);
        assert forall|k: int| 0 <= k < leading(s, x) implies s[k] == x by {
            if k > 0 {
                assert(s[k] == s.drop_first()[k - 1]);
            }
        }
    }
}

proof fn lemma_leading_stop<A>(s: Seq<A>, x: A)
    ensures
        leading(s, x) < s.len() ==> s[leading(s, x) as int] != x,
    decreases s.len(),
{
    if s.len() > 0 && s[0] == x {
        lemma_leading_stop(s.drop_first(), x);
    }
}


// ---------------------------------------------------------------------------
// Base92 round trip
// ---------------------------------------------------------------------------

proof fn lemma_bits_be_split(v: int, w: nat)
    requires
        v >= 0,
        w >= 1,
    ensures
        bits_be(v, w) == bits_be(v / 2, (w - 1) as nat).push(v % 2 == 1),
{
    let a = bits_be(v, w);
    let b = bits_be(v / 2, (w - 1) as nat).push(v % 2 == 1);
    assert forall|k: int| 0 <= k < w implies a[k] == b[k] by {
        if k < w - 1 {
            let m = ipow(2, (w - 2 - k) as nat);
            lemma_pow2_positive((w - 2 - k) as nat);
            assert(ipow(2, (w - 1 - k) as nat) == 2 * m);
            vstd::arithmetic::div_mod::lemma_div_denominator(v, 2, m);
        } else {
            assert(ipow(2, 0) == 1);
        }
    }
    assert(a =~= b);
}

proof fn lemma_bits_value_of_be(v: int, w: nat)
    requires
        0 <= v < ipow(2, w),
    ensures
        bits_value(bits_be(v, w)) == v,
    decreases w,
{
    if w == 0 {
        assert(ipow(2, 0) == 1);
    } else {
        lemma_bits_be_split(v, w);
        assert(ipow(2, w) == 2 * ipow(2, (w - 1) as nat));
        lemma_bits_value_of_be(v / 2, (w - 1) as nat);
        let b = bits_be(v, w);
        assert(b.drop_last() =~= bits_be(v / 2, (w - 1) as nat));
    }
}

proof fn lemma_be_of_bits_value(b: Seq<bool>)
    ensures
        bits_be(bits_value(b), b.len()) == b,
    decreases b.len(),
{
    lemma_bits_value_bound(b);
    if b.len() > 0 {
        lemma_be_of_bits_value(b.drop_last());
        let v = bits_value(b);
        lemma_bits_value_bound(b.drop_last());
        lemma_bits_be_split(v, b.len());
        assert(v / 2 == bits_value(b.drop_last()));
        assert(b =~= b.drop_last().push(b.last()));
    } else {
        assert(bits_be(0, 0) =~= b);
    }
}

proof fn lemma_b92_chr_ord(v: int)
    requires
        0 <= v < 91,
    ensures
        b92_ord_spec(b92_chr_spec(v)) == Some(v),
{
}

/// The zero bits that Base92 pads `n` bits with.
pub open spec fn b92_pad(n: nat) -> nat {
    let r = n % 13;
    if r == 0 {
        0
    } else if r < 7 {
        (6 - r) as nat
    } else {
        (13 - r) as nat
    }
}

proof fn lemma_b92_bits_roundtrip(b: Seq<bool>)
    ensures
        b92_first_bad(b92_encode_bits(b)) is None,
        b92_decode_bits(b92_encode_bits(b)) == b + Seq::new(b92_pad(b.len()), |k: int| false),
    decreases b.len(),
{
    let e = b92_encode_bits(b);
    if b.len() >= 13 {
        let t = b.take(13);
        let i = bits_value(t);
        lemma_bits_value_bound(t);
        assert(ipow(2, 13) == 8192) by {
            lemma_pow2_values();
            reveal_with_fuel(ipow, 14);
        }
        lemma_b92_chr_ord(i / 91);
        lemma_b92_chr_ord(i % 91);
        lemma_b92_bits_roundtrip(b.skip(13));
        let rest = b92_encode_bits(b.skip(13));
        assert(e == seq![b92_chr_spec(i / 91), b92_chr_spec(i % 91)] + rest);
        assert(e.skip(1) =~= seq![b92_chr_spec(i % 91)] + rest);
        assert(e.skip(1).skip(1) =~= rest);
        assert(e.skip(2) =~= rest);
        lemma_bit_len(i, 13);
        lemma_be_of_bits_value(t);
        assert(b92_pad(b.len()) == b92_pad(b.skip(13).len())) by {
            assert(b.len() % 13 == (b.len() - 13) % 13);
        }
        assert(b =~= t + b.skip(13));
        assert(b92_decode_bits(e) == bin_min(i, 13) + b92_decode_bits(rest));
        assert(b92_decode_bits(e) =~= b + Seq::new(b92_pad(b.len()), |k: int| false));
        assert(b92_first_bad(e) == b92_first_bad(e.skip(1)));
        assert(b92_first_bad(e.skip(1)) == b92_first_bad(e.skip(1).skip(1)));
    } else if b.len() == 0 {
        assert(b + Seq::new(0, |k: int| false) =~= b);
    } else if b.len() < 7 {
        let z = zero_padded(b, 6);
        let v = bits_value(z);
        lemma_bits_value_bound(z);
        assert(ipow(2, 6) == 64) by {
            lemma_pow2_values();
            reveal_with_fuel(ipow, 7);
        }
        lemma_b92_chr_ord(v);
        lemma_bit_len(v, 6);
        lemma_be_of_bits_value(z);
        assert(z =~= b + Seq::new(b92_pad(b.len()), |k: int| false));
        assert(e.skip(1) =~= Seq::<char>::empty());
        assert(b92_first_bad(e) == b92_first_bad(e.skip(1)));
    } else {
        let z = zero_padded(b, 13);
        let i = bits_value(z);
        lemma_bits_value_bound(z);
        assert(ipow(2, 13) == 8192) by {
            lemma_pow2_values();
            reveal_with_fuel(ipow, 14);
        }
        lemma_b92_chr_ord(i / 91);
        lemma_b92_chr_ord(i % 91);
        lemma_bit_len(i, 13);
        lemma_be_of_bits_value(z);
        assert(e.skip(1).skip(1) =~= Seq::<char>::empty());
        assert(e.skip(2) =~= Seq::<char>::empty());
        assert(e.skip(1) =~= seq![b92_chr_spec(i % 91)]);
        assert(z =~= b + Seq::new(b92_pad(b.len()), |k: int| false));
        assert(z.len() == 13);
        assert(b92_decode_bits(e.skip(2)) =~= Seq::<bool>::empty());
        assert(b92_ord_spec(e[0])->Some_0 * 91 + b92_ord_spec(e[1])->Some_0 == i);
        assert(bin_min(i, 13) == bits_be(i, 13));
        assert(b92_decode_bits(e) == bin_min(i, 13) + b92_decode_bits(e.skip(2)));
        assert(b92_decode_bits(e) =~= z);
        assert(b92_first_bad(e) == b92_first_bad(e.skip(1)));
        assert(b92_first_bad(e.skip(1)) == b92_first_bad(e.skip(1).skip(1)));
    }
}

proof fn lemma_bytes_bits_len(s: Seq<u8>)
    ensures
        bytes_bits(s).len() == 8 * s.len(),
    decreases s.len(),
{
    if s.len() > 0 {
        lemma_bytes_bits_len(s.skip(1));
    }
}

proof fn lemma_bits_bytes_padded(s: Seq<u8>, k: nat)
    requires
        k < 8,
    ensures
        bits_bytes(bytes_bits(s) + Seq::new(k, |q: int| false)) == s,
    decreases s.len(),
{
    let z = Seq::new(k, |q: int| false);
    if s.len() == 0 {
        assert(bytes_bits(s) + z =~= z);
    } else {
        let head = bits_be(s[0] as int, 8);
        let all = bytes_bits(s) + z;
        lemma_bytes_bits_len(s.skip(1));
        assert(all =~= head + (bytes_bits(s.skip(1)) + z));
        assert(all.take(8) =~= head);
        assert(all.skip(8) =~= bytes_bits(s.skip(1)) + z);
        assert(ipow(2, 8) == 256) by {
            lemma_pow2_values();
            reveal_with_fuel(ipow, 9);
        }
        lemma_bits_value_of_be(s[0] as int, 8);
        lemma_bits_bytes_padded(s.skip(1), k);
        assert(s =~= seq![s[0]] + s.skip(1));
    }
}

/// Base92 decoding undoes Base92 encoding, for all bytes.
pub proof fn lemma_base92_roundtrip(data: Seq<u8>)
    ensures
        base92_decode_spec(b92_encode_bits(bytes_bits(data))) == Ok::<Seq<u8>, Seq<char>>(data),
{
    let b = bytes_bits(data);
    lemma_b92_bits_roundtrip(b);
    lemma_bytes_bits_len(data);
    assert(b92_pad(b.len()) < 8);
    lemma_bits_bytes_padded(data, b92_pad(b.len()));
}


// ---------------------------------------------------------------------------
// Base85 round trip
// ---------------------------------------------------------------------------

proof fn lemma_byte_at(v: int, hi: int, b: int, e: int, lo: int)
    requires
        e > 0,
        hi >= 0,
        0 <= b < 256,
        0 <= lo < e,
        v == (hi * 256 + b) * e + lo,
    ensures
        (v / e) % 256 == b,
{
    vstd::arithmetic::div_mod::lemma_fundamental_div_mod_converse(v, e, hi * 256 + b, lo);
    vstd::arithmetic::div_mod::lemma_fundamental_div_mod_converse(hi * 256 + b, 256, hi, b);
}

/// The first `m` bytes of a 32-bit group survive an addition below the
/// weight of the last of them.
proof fn lemma_b85_top_bytes(b0: int, b1: int, b2: int, b3: int, x: int, m: int, v: int)
    requires
        v == b0 * 16777216 + b1 * 65536 + b2 * 256 + b3 + x,
        0 <= b0 < 256,
        0 <= b1 < 256,
        0 <= b2 < 256,
        0 <= b3 < 256,
        1 <= m <= 4,
        0 <= x,
        m <= 1 ==> b1 == 0,
        m <= 2 ==> b2 == 0,
        m <= 3 ==> b3 == 0,
        x < 16777216,
        m >= 2 ==> x < 65536,
        m >= 3 ==> x < 256,
        m == 4 ==> x == 0,
    ensures
        (v / 16777216) % 256 == b0,
        m >= 2 ==> (v / 65536) % 256 == b1,
        m >= 3 ==> (v / 256) % 256 == b2,
        m >= 4 ==> (v / 1) % 256 == b3,
{
    lemma_byte_at(v, 0, b0, 16777216, b1 * 65536 + b2 * 256 + b3 + x);
    if m >= 2 {
        lemma_byte_at(v, b0, b1, 65536, b2 * 256 + b3 + x);
    }
    if m >= 3 {
        lemma_byte_at(v, b0 * 256 + b1, b2, 256, b3 + x);
    }
    if m >= 4 {
        lemma_byte_at(v, b0 * 65536 + b1 * 256 + b2, b3, 1, 0);
    }
}

/// The base-85 digits of a 32-bit value, most significant first.
pub open spec fn b85_digit_of(v: int, k: int) -> int {
    (v / b85_weight(k)) % 85
}

/// Reading back the first `m + 1` digits of a value, the rest taken as 84,
/// gives the value rounded down to a multiple of the weight of digit `m`,
/// plus that weight less one.
proof fn lemma_b85_digits(v: int, m: int)
    requires
        0 <= v < 4294967296,
        1 <= m <= 4,
    ensures
        ({
            let d = |k: int| if k <= m { b85_digit_of(v, k) } else { 84 };
            let big = d(0) * 52200625 + d(1) * 614125 + d(2) * 7225 + d(3) * 85 + d(4);
            big == (v / b85_weight(m)) * b85_weight(m) + b85_weight(m) - 1
        }),
{
    let q4 = v;
    let q3 = v / 85;
    let q2 = v / 7225;
    let q1 = v / 614125;
    let q0 = v / 52200625;
    vstd::arithmetic::div_mod::lemma_div_denominator(v, 85, 85);
    vstd::arithmetic::div_mod::lemma_div_denominator(v, 7225, 85);
    vstd::arithmetic::div_mod::lemma_div_denominator(v, 614125, 85);
    assert(q2 == q3 / 85);
    assert(q1 == q2 / 85);
    assert(q0 == q1 / 85);
    vstd::arithmetic::div_mod::lemma_fundamental_div_mod(q4, 85);
    vstd::arithmetic::div_mod::lemma_fundamental_div_mod(q3, 85);
    vstd::arithmetic::div_mod::lemma_fundamental_div_mod(q2, 85);
    vstd::arithmetic::div_mod::lemma_fundamental_div_mod(q1, 85);
    vstd::arithmetic::div_mod::lemma_fundamental_div_mod(v, 52200625);
    assert(q0 < 85);
    vstd::arithmetic::div_mod::lemma_small_mod(q0 as nat, 85);
    assert(v / 1 == v);
}

/// The digit sum that decoding a group computes, before it is cut to 32
/// bits.
pub open spec fn b85_group_sum(t: Seq<char>, alph: Seq<char>) -> int {
    b85_digit(t, alph, 0) * 52200625 + b85_digit(t, alph, 1) * 614125 + b85_digit(t, alph, 2) * 7225
        + b85_digit(t, alph, 3) * 85 + b85_digit(t, alph, 4)
}

proof fn lemma_b85_group_sum(t: Seq<char>, alph: Seq<char>, v: int, m: int)
    requires
        0 <= v < 4294967296,
        1 <= m <= 4,
        t.len() == m + 1,
        forall|k: int| 0 <= k <= m ==> b85_digit(t, alph, k) == #[trigger] b85_digit_of(v, k),
    ensures
        b85_group_sum(t, alph) == (v / b85_weight(m)) * b85_weight(m) + b85_weight(m) - 1,
{
    lemma_b85_digits(v, m);
    assert(b85_digit(t, alph, 0) == b85_digit_of(v, 0));
    assert(b85_digit(t, alph, 1) == b85_digit_of(v, 1));
    assert(m >= 2 ==> b85_digit(t, alph, 2) == b85_digit_of(v, 2));
    assert(m >= 3 ==> b85_digit(t, alph, 3) == b85_digit_of(v, 3));
    assert(m >= 4 ==> b85_digit(t, alph, 4) == b85_digit_of(v, 4));
}

/// The characters of the digits of `v`, the first `n`.
pub open spec fn b85_chars(v: int, n: nat, alph: Seq<char>) -> Seq<char> {
    Seq::new(n, |k: int| alph[(v / b85_weight(k)) % 85])
}

proof fn lemma_b85_chars_digits(v: int, n: nat, alph: Seq<char>)
    requires
        0 <= v,
        n <= 5,
        alph.len() == 85,
        alph.no_duplicates(),
    ensures
        forall|k: int| 0 <= k < n ==> b85_digit(b85_chars(v, n, alph), alph, k) == #[trigger] b85_digit_of(v, k),
{
    assert forall|k: int| 0 <= k < n implies b85_digit(b85_chars(v, n, alph), alph, k) == #[trigger] b85_digit_of(
        v,
        k,
    ) by {
        lemma_index_in_distinct(alph, (v / b85_weight(k)) % 85);
    }
}

proof fn lemma_b85_rounded(b0: int, b1: int, b2: int, b3: int, m: int, big: int)
    requires
        0 <= b0 < 256,
        0 <= b1 < 256,
        0 <= b2 < 256,
        0 <= b3 < 256,
        1 <= m <= 4,
        m <= 1 ==> b1 == 0,
        m <= 2 ==> b2 == 0,
        m <= 3 ==> b3 == 0,
        big == ((b0 * 16777216 + b1 * 65536 + b2 * 256 + b3) / b85_weight(m)) * b85_weight(m) + b85_weight(m) - 1,
    ensures
        0 <= big < 4294967296,
        (big / 16777216) % 256 == b0,
        m >= 2 ==> (big / 65536) % 256 == b1,
        m >= 3 ==> (big / 256) % 256 == b2,
        m >= 4 ==> (big / 1) % 256 == b3,
{
    let v = b0 * 16777216 + b1 * 65536 + b2 * 256 + b3;
    let x = big - v;
    assert(0 <= x < b85_weight(m)) by {
        if m == 4 {
            assert(v / 1 == v);
        } else if m == 3 {
            vstd::arithmetic::div_mod::lemma_fundamental_div_mod(v, 85);
        } else if m == 2 {
            vstd::arithmetic::div_mod::lemma_fundamental_div_mod(v, 7225);
        } else {
            vstd::arithmetic::div_mod::lemma_fundamental_div_mod(v, 614125);
        }
    }
    assert(m == 4 ==> x == 0);
    lemma_b85_top_bytes(b0, b1, b2, b3, x, m, big);
}

/// The digits' characters of a group decode to its bytes.
#[verifier::spinoff_prover]
proof fn lemma_b85_group(s: Seq<u8>, alph: Seq<char>)
    requires
        s.len() >= 1,
        alph.len() == 85,
        alph.no_duplicates(),
    ensures
        b85_group_bytes(
            b85_chars(b85_block_value(s), if s.len() < 4 { (s.len() + 1) as nat } else { 5 }, alph),
            alph,
        ) == s.take(if s.len() < 4 { s.len() as int } else { 4 }),
{
    let v = b85_block_value(s);
    let n: nat = if s.len() < 4 { (s.len() + 1) as nat } else { 5 };
    let m = n - 1;
    let t = b85_chars(v, n, alph);
    let b0 = byte_or0(s, 0) as int;
    let b1 = byte_or0(s, 1) as int;
    let b2 = byte_or0(s, 2) as int;
    let b3 = byte_or0(s, 3) as int;
    assert(v == b0 * 16777216 + b1 * 65536 + b2 * 256 + b3);
    lemma_b85_chars_digits(v, n, alph);
    lemma_b85_group_sum(t, alph, v, m);
    let big = b85_group_sum(t, alph);
    lemma_b85_rounded(b0, b1, b2, b3, m, big);
    vstd::arithmetic::div_mod::lemma_small_mod(big as nat, 4294967296);
    assert(b85_group_value(t, alph) == big);
    let want = s.take(if s.len() < 4 { s.len() as int } else { 4 });
    assert(b85_group_bytes(t, alph) =~= want);
}


/// Whether the last, partial four-byte block of `s` (if there is one)
/// holds a byte other than zero.
pub open spec fn b85_tail_nonzero(s: Seq<u8>) -> bool {
    s.len() % 4 == 0 || exists|j: int| s.len() - s.len() % 4 <= j < s.len() && s[j] != 0
}

/// The character that stands for an all-zero block in a variant.
pub open spec fn b85_zero_char(standard: bool) -> Option<char> {
    if standard {
        Some('z')
    } else {
        None
    }
}

proof fn lemma_b85_block_value_zero(s: Seq<u8>)
    requires
        b85_block_value(s) == 0,
    ensures
        forall|j: int| 0 <= j < 4 && j < s.len() ==> s[j] == 0,
{
    assert forall|j: int| 0 <= j < 4 && j < s.len() implies s[j] == 0 by {
        assert(byte_or0(s, j) == s[j]);
    }
}

proof fn lemma_b85_body_nonempty(s: Seq<u8>, alph: Seq<char>, standard: bool)
    requires
        s.len() > 0,
    ensures
        base85_body(s, alph, standard).len() > 0,
{
    assert(b85_block(s, alph, standard).len() > 0);
}

proof fn lemma_b85_body_chars(s: Seq<u8>, alph: Seq<char>, standard: bool)
    requires
        alph.len() == 85,
    ensures
        forall|k: int| 0 <= k < base85_body(s, alph, standard).len() ==> alph.contains(
            #[trigger] base85_body(s, alph, standard)[k],
        ) || (standard && base85_body(s, alph, standard)[k] == 'z'),
        s.len() > 0 ==> base85_body(s, alph, standard).len() > 0,
    decreases s.len(),
{
    if s.len() > 0 {
        let v = b85_block_value(s);
        let b = b85_block(s, alph, standard);
        assert forall|k: int| 0 <= k < b.len() implies alph.contains(#[trigger] b[k]) || (standard && b[k] == 'z') by {
            if !standard || v > 0 {
                let d = (v / b85_weight(k)) % 85;
                assert(b[k] == alph[d]);
            }
        }
        if s.len() > 4 {
            lemma_b85_body_chars(s.skip(4), alph, standard);
            let body = base85_body(s, alph, standard);
            let rest = base85_body(s.skip(4), alph, standard);
            assert forall|k: int| 0 <= k < body.len() implies alph.contains(#[trigger] body[k]) || (standard && body[k] == 'z') by {
                if k >= b.len() {
                    assert(body[k] == rest[k - b.len()]);
                }
            }
        }
    }
}

#[verifier::spinoff_prover]
proof fn lemma_b85_step_zero(s: Seq<u8>, alph: Seq<char>, pos: nat)
    requires
        s.len() >= 4,
        b85_block_value(s) == 0,
        s.len() > 4 ==> b85_decode_chars(base85_body(s.skip(4), alph, true), alph, Some('z'), pos + 1) == Ok::<
            Seq<u8>,
            Seq<char>,
        >(s.skip(4)),
    ensures
        b85_decode_chars(base85_body(s, alph, true), alph, Some('z'), pos) == Ok::<Seq<u8>, Seq<char>>(s),
{
    let cs = base85_body(s, alph, true);
    let b = b85_block(s, alph, true);
    assert(b =~= seq!['z']);
    lemma_b85_block_value_zero(s);
    if s.len() > 4 {
        let rest = base85_body(s.skip(4), alph, true);
        assert(cs == b + rest);
        assert(cs.skip(1) =~= rest);
    } else {
        assert(cs == b);
        assert(cs.skip(1) =~= Seq::<char>::empty());
        assert(s.skip(4) =~= Seq::<u8>::empty());
    }
    assert(cs[0] == 'z');
    assert(s =~= seq![0u8, 0u8, 0u8, 0u8] + s.skip(4));
}

proof fn lemma_b85_digit_block(s: Seq<u8>, alph: Seq<char>, standard: bool)
    requires
        s.len() >= 1,
        alph.len() == 85,
        alph.no_duplicates(),
        !standard || b85_block_value(s) > 0,
    ensures
        b85_block(s, alph, standard).len() >= 2,
        alph.contains(b85_block(s, alph, standard)[0]),
        first_invalid(b85_block(s, alph, standard), alph) is None,
        b85_group_bytes(b85_block(s, alph, standard), alph) == s.take(if s.len() < 4 { s.len() as int } else { 4 }),
        b85_block(s, alph, standard).len() == if s.len() < 4 { s.len() + 1 } else { 5 },
{
    let v = b85_block_value(s);
    let b = b85_block(s, alph, standard);
    let n: nat = if s.len() < 4 { (s.len() + 1) as nat } else { 5 };
    assert(b =~= b85_chars(v, n, alph));
    lemma_b85_group(s, alph);
    assert forall|k: int| 0 <= k < b.len() implies alph.contains(#[trigger] b[k]) by {
        assert(b[k] == alph[(v / b85_weight(k)) % 85]);
    }
    lemma_first_invalid_all(b, alph);
}

#[verifier::spinoff_prover]
#[verifier::rlimit(80)]
proof fn lemma_b85_step_digits(s: Seq<u8>, alph: Seq<char>, standard: bool, pos: nat)
    requires
        s.len() >= 1,
        alph.len() == 85,
        alph.no_duplicates(),
        standard ==> !alph.contains('z'),
        !standard || b85_block_value(s) > 0,
        s.len() > 4 ==> base85_body(s.skip(4), alph, standard).len() > 0,
        s.len() > 4 ==> b85_decode_chars(base85_body(s.skip(4), alph, standard), alph, b85_zero_char(standard), pos + 5)
            == Ok::<Seq<u8>, Seq<char>>(s.skip(4)),
    ensures
        b85_decode_chars(base85_body(s, alph, standard), alph, b85_zero_char(standard), pos) == Ok::<
            Seq<u8>,
            Seq<char>,
        >(s),
{
    let cs = base85_body(s, alph, standard);
    let b = b85_block(s, alph, standard);
    lemma_b85_digit_block(s, alph, standard);
    assert(b85_zero_char(standard) != Some(b[0]));
    let zero = b85_zero_char(standard);
    if s.len() > 4 {
        let rest = base85_body(s.skip(4), alph, standard);
        assert(cs == b + rest);
        assert(cs.take(5) =~= b);
        assert(cs.skip(5) =~= rest);
        assert(cs[0] == b[0]);
        assert(cs.len() > 5);
        assert(b85_decode_chars(cs, alph, zero, pos) == prefixed(
            b85_group_bytes(b, alph),
            b85_decode_chars(cs.skip(5), alph, zero, pos + 5),
        ));
        assert(s =~= s.take(4) + s.skip(4));
    } else {
        assert(cs == b);
        let t = if cs.len() < 5 { cs } else { cs.take(5) };
        assert(t =~= b);
        assert(b85_decode_chars(cs, alph, zero, pos) == Ok::<Seq<u8>, Seq<char>>(b85_group_bytes(t, alph)));
        assert(s.take(s.len() as int) =~= s);
    }
}

proof fn lemma_b85_tail_skip(s: Seq<u8>)
    requires
        s.len() > 4,
        b85_tail_nonzero(s),
    ensures
        b85_tail_nonzero(s.skip(4)),
{
    if s.len() % 4 != 0 {
        let j = choose|j: int| s.len() - s.len() % 4 <= j < s.len() && s[j] != 0;
        assert(s.skip(4)[j - 4] == s[j]);
        assert((s.len() - 4) % 4 == s.len() % 4);
    }
}

proof fn lemma_b85_tail_short(s: Seq<u8>)
    requires
        1 <= s.len() < 4,
        b85_tail_nonzero(s),
    ensures
        b85_block_value(s) > 0,
{
    let j = choose|j: int| s.len() - s.len() % 4 <= j < s.len() && s[j] != 0;
    if b85_block_value(s) == 0 {
        lemma_b85_block_value_zero(s);
    }
}

#[verifier::spinoff_prover]
proof fn lemma_b85_body_decodes(s: Seq<u8>, alph: Seq<char>, standard: bool, pos: nat)
    requires
        alph.len() == 85,
        alph.no_duplicates(),
        standard ==> !alph.contains('z'),
        standard ==> b85_tail_nonzero(s),
    ensures
        b85_decode_chars(base85_body(s, alph, standard), alph, b85_zero_char(standard), pos) == Ok::<
            Seq<u8>,
            Seq<char>,
        >(s),
    decreases s.len(),
{
    if s.len() == 0 {
        assert(base85_body(s, alph, standard) =~= Seq::<char>::empty());
        assert(s =~= Seq::<u8>::empty());
        return;
    }
    if s.len() > 4 {
        lemma_b85_body_nonempty(s.skip(4), alph, standard);
        if standard {
            lemma_b85_tail_skip(s);
        }
        lemma_b85_body_decodes(s.skip(4), alph, standard, pos + 1);
        lemma_b85_body_decodes(s.skip(4), alph, standard, pos + 5);
    }
    if s.len() < 4 && standard {
        lemma_b85_tail_short(s);
    }
    if standard && b85_block_value(s) == 0 {
        lemma_b85_step_zero(s, alph, pos);
    } else {
        lemma_b85_step_digits(s, alph, standard, pos);
    }
}

proof fn lemma_b85_delims(e: Seq<char>, body: Seq<char>, alph: Seq<char>, include_delim: bool)
    requires
        !alph.contains('~'),
        body.len() > 0,
        forall|k: int| 0 <= k < body.len() ==> alph.contains(#[trigger] body[k]) || body[k] == 'z',
        e == if include_delim { "<~"@ + body + "~>"@ } else { body },
    ensures
        strip_delims_spec(e) == body,
{
    if include_delim {
        reveal_strlit("<~");
        reveal_strlit("~>");
        assert(e =~= "<~"@ + body + "~>"@);
        assert(e[0] == '<' && e[1] == '~');
        assert(e[e.len() - 2] == '~' && e[e.len() - 1] == '>');
        assert(e.subrange(2, e.len() - 2) =~= body);
    } else {
        if body.len() >= 5 && body[1] == '~' {
            assert(alph.contains(body[1]) || body[1] == 'z');
        }
    }
}

/// Base85 decoding (with or without stripping foreign characters) undoes
/// Base85 encoding, with or without delimiters, for an alphabet of 85 distinct characters without `~` (and, in the
/// standard variant, without `z`, which then stands for an all-zero block).
/// In the standard variant a last, partial block of zero bytes is written
/// `z` too and decodes to four bytes, so there the input must not end in
/// such a block.
#[verifier::spinoff_prover]
#[verifier::rlimit(80)]
pub proof fn lemma_base85_roundtrip(data: Seq<u8>, alph: Seq<char>, standard: bool, include_delim: bool, strip: bool)
    requires
        alph.len() == 85,
        alph.no_duplicates(),
        !alph.contains('~'),
        standard ==> !alph.contains('z'),
        standard ==> b85_tail_nonzero(data),
    ensures
        base85_decode_spec(base85_encode_spec(data, alph, standard, include_delim), alph, strip, b85_zero_char(standard))
            == Ok::<Seq<u8>, Seq<char>>(data),
{
    let e = base85_encode_spec(data, alph, standard, include_delim);
    let zero = b85_zero_char(standard);
    if data.len() == 0 {
        assert(data =~= Seq::<u8>::empty());
        assert(e =~= Seq::<char>::empty());
        assert(strip_delims_spec(e) =~= Seq::<char>::empty());
        assert(b85_prepared(e, alph, strip, zero) =~= Seq::<char>::empty());
        return;
    }
    let body = base85_body(data, alph, standard);
    lemma_b85_body_chars(data, alph, standard);
    lemma_b85_body_decodes(data, alph, standard, 0);
    lemma_b85_delims(e, body, alph, include_delim);
    if strip {
        lemma_b85_keep_all(body, alph, zero);
        lemma_b85_delims(body, body, alph, false);
    }
    assert(b85_prepared(e, alph, strip, zero) == body);
}

proof fn lemma_b85_keep_all(cs: Seq<char>, alph: Seq<char>, zero: Option<char>)
    requires
        forall|k: int| 0 <= k < cs.len() ==> alph.contains(#[trigger] cs[k]) || zero == Some(cs[k]),
    ensures
        b85_keep(cs, alph, zero) == cs,
    decreases cs.len(),
{
    if cs.len() > 0 {
        let p = cs.drop_last();
        assert forall|k: int| 0 <= k < p.len() implies alph.contains(#[trigger] p[k]) || zero == Some(p[k]) by {
            assert(p[k] == cs[k]);
        }
        lemma_b85_keep_all(p, alph, zero);
        lemma_index_in(alph, cs.last());
        assert(cs =~= p.push(cs.last()));
    }
}


/// A Base32 encoding is eight characters for every five bytes, the last
/// group padded.
pub proof fn lemma_base32_length(data: Seq<u8>, alph: Seq<char>)
    ensures
        base32_encode_spec(data, alph).len() == 8 * ((data.len() + 4) / 5),
    decreases data.len(),
{
    if data.len() > 5 {
        lemma_base32_length(data.skip(5), alph);
        assert((data.len() + 4) / 5 == (data.len() - 5 + 4) / 5 + 1);
    }
}

/// A Base45 encoding is three characters for every two bytes, and two for
/// a last single byte.
pub proof fn lemma_base45_length(data: Seq<u8>, alph: Seq<char>)
    ensures
        base45_encode_spec(data, alph).len() == 3 * (data.len() / 2) + 2 * (data.len() % 2),
    decreases data.len(),
{
    if data.len() > 2 {
        lemma_base45_length(data.skip(2), alph);
    }
}


/// Without `preserve_zeros`, decoding undoes encoding up to the leading
/// zero bytes, which are dropped (an all-zero input encodes as the
/// alphabet's first character and decodes to nothing).
pub proof fn lemma_radix_roundtrip_dropping_zeros(data: Seq<u8>, alph: Seq<char>)
    requires
        alph.len() >= 2,
        alph.no_duplicates(),
    ensures
        first_invalid(radix_encode_spec(data, alph, false), alph) is None,
        radix_decode_spec(radix_encode_spec(data, alph, false), alph, false) == data.skip(leading(data, 0u8) as int),
{
    let b = alph.len();
    if data.len() == 0 {
        assert(data.skip(0) =~= data);
        return;
    }
    let zp = leading(data, 0u8);
    let enc = radix_encode_spec(data, alph, false);
    let v = be_val(byte_ints(data), 256);
    lemma_leading_bound(data, 0u8);
    let rest = data.skip(zp as int);
    assert(data =~= Seq::new(zp, |k: int| 0u8) + rest) by {
        lemma_leading_all(data, 0u8);
    }
    assert(rest.len() == 0 || rest[0] != 0) by {
        lemma_leading_stop(data, 0u8);
    }
    assert(byte_ints(data) =~= Seq::new(zp, |k: int| 0int) + byte_ints(rest));
    lemma_be_val_zero_prefix(zp, byte_ints(rest), 256);
    assert(v == be_val(byte_ints(rest), 256));
    lemma_be_val_nonneg_bytes(rest);
    let d = digits_le(v as nat, b);
    lemma_digits_le_props(v as nat, b);
    lemma_index_in_distinct(alph, 0);
    if d.len() == 0 {
        assert(enc =~= seq![alph[0]]);
        let zd = seq![0int];
        assert(spell(zd, alph) =~= enc);
        lemma_char_digits_spelled(zd, alph);
        assert(be_val(zd, b as int) == 0) by {
            assert(zd.drop_last() =~= Seq::<int>::empty());
            assert(be_val(zd.drop_last(), b as int) == 0);
            assert(0 * (b as int) == 0);
        }
        lemma_le_val_reverse(Seq::<int>::empty(), b as int);
        assert(v == 0) by {
            assert(le_val(d, b as int) == v);
        }
        lemma_bytes_canonical(rest);
        assert(digits_le(0, 256) =~= Seq::<int>::empty());
        assert(radix_decode_spec(enc, alph, false) =~= Seq::<u8>::empty());
        assert(rest =~= Seq::<u8>::empty()) by {
            if rest.len() > 0 {
                lemma_be_val_nonneg_bytes(rest.drop_last());
                assert(byte_ints(rest).drop_last() =~= byte_ints(rest.drop_last()));
                lemma_bytes_canonical(rest);
            }
        }
    } else {
        let body = spell(d.reverse(), alph);
        assert(enc =~= Seq::new(0, |k: int| alph[0]) + body);
        assert(enc =~= body);
        assert forall|i: int| 0 <= i < d.reverse().len() implies 0 <= #[trigger] d.reverse()[i] < alph.len() by {
            assert(d.reverse()[i] == d[d.len() - 1 - i]);
        }
        lemma_char_digits_spelled(d.reverse(), alph);
        lemma_le_val_reverse(d.reverse(), b as int);
        assert(d.reverse().reverse() =~= d);
        lemma_bytes_canonical(rest);
        assert(radix_decode_spec(enc, alph, false) =~= Seq::new(0, |k: int| 0u8) + digits_le(v as nat, 256).reverse().map_values(
            |x: int| x as u8,
        ));
        assert(radix_decode_spec(enc, alph, false) =~= rest);
    }
}

} // verus!
