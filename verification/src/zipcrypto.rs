//! The traditional PKWARE ("ZipCrypto") stream cipher and Biham & Kocher's
//! known-plaintext attack on it: the three 32-bit internal keys, their update
//! rules (forward and backward), the lookup tables, the data preparation, the
//! Z-list reduction and the recursive key search.
use vstd::prelude::*;
use crate::text::{decimal, push_decimal, push_signed, push_str, signed_decimal};
use vstd::relations::injective_on;
use vstd::set_lib::{lemma_int_range, lemma_map_size, lemma_subset_equality, set_int_range};

verus! {

/// Multiplicative constant of the cipher's Y update.
pub const MULT: u32 = 0x0808_8405;

/// Multiplicative inverse of `MULT` modulo 2^32.
pub const MULTINV: u32 = 0xd94f_a8cd;

/// Number of contiguous known plaintext bytes the attack works on.
pub const CONTIGUOUS_SIZE: usize = 8;

/// Total number of known plaintext bytes the attack needs.
pub const ATTACK_SIZE: usize = 12;

/// Size of the encryption header prepended to each encrypted entry.
pub const ENCRYPTION_HEADER_SIZE: usize = 12;

// ---------------------------------------------------------------------------
// Mathematical model: CRC-32 (reflected, polynomial 0xedb88320).
// ---------------------------------------------------------------------------

/// One bit step of the reflected CRC-32 division.
pub open spec fn crc_round(c: u32) -> u32 {
    if (c & 1u32) != 0u32 {
        (c >> 1u32) ^ 0xedb8_8320u32
    } else {
        c >> 1u32
    }
}

/// The CRC-32 table entry of `b`: eight division steps.
pub open spec fn crc_entry(b: u32) -> u32 {
    crc_round(crc_round(crc_round(crc_round(crc_round(crc_round(crc_round(crc_round(b))))))))
}

/// The byte whose table entry has the given most significant byte.
pub open spec fn crc_pre(m: u32) -> u32 {
    choose|i: u32| i < 256 && (crc_entry(i) >> 24u32) == m
}

/// The inverse table entry for most significant byte `m`.
pub open spec fn crc_inv_entry(m: u32) -> u32 {
    (crc_entry(crc_pre(m)) << 8u32) ^ crc_pre(m)
}

/// CRC-32 of one more byte `b` after the running value `pval`.
pub open spec fn crc32_spec(pval: u32, b: u8) -> u32 {
    (pval >> 8u32) ^ crc_entry((pval & 0xffu32) ^ (b as u32))
}

/// The running value before the byte `b` that leads to `crc`.
pub open spec fn crc32inv_spec(crc: u32, b: u8) -> u32 {
    (crc << 8u32) ^ crc_inv_entry(crc >> 24u32) ^ (b as u32)
}

/// The keystream byte produced by the Z key.
pub open spec fn keystream_spec(z: u32) -> u8 {
    let t = z & 0xfffcu32;
    ((((t | 2u32) * (t | 3u32)) as u32 >> 8u32) & 0xffu32) as u8
}

/// Bits `[begin, end)` of a 32-bit word.
pub open spec fn mask_spec(begin: u32, end: u32) -> u32 {
    (0xffff_ffffu32 << begin) & (0xffff_ffffu32 >> ((32 - end) as u32))
}

proof fn lemma_msb_small(v: u32)
    ensures
        (v >> 24u32) < 256,
        (v & 0xffu32) < 256,
{
    assert((v >> 24u32) < 256 && (v & 0xffu32) < 256) by (bit_vector);
}

/// Distinct bytes have table entries with distinct most significant bytes.
proof fn lemma_crc_msb_injective(a: u32, b: u32)
    requires
        a < 256,
        b < 256,
        a != b,
    ensures
        (crc_entry(a) >> 24u32) != (crc_entry(b) >> 24u32),
{
    assert(a < 256 && b < 256 && a != b ==> (crc_entry(a) >> 24u32) != (crc_entry(b) >> 24u32))
        by (bit_vector);
}

/// Every byte is the most significant byte of some table entry.
proof fn lemma_crc_msb_surjective(m: u32)
    requires
        m < 256,
    ensures
        exists|i: u32| i < 256 && (crc_entry(i) >> 24u32) == m,
{
    let f = |i: int| (crc_entry(i as u32) >> 24u32) as int;
    let dom = set_int_range(0, 256);
    lemma_int_range(0, 256);
    assert(injective_on(f, dom)) by {
        assert forall|a: int, b: int|
            dom.contains(a) && dom.contains(b) && #[trigger] f(a) == #[trigger] f(b) implies a == b by {
            if a != b {
                lemma_crc_msb_injective(a as u32, b as u32);
            }
        }
    }
    let img = dom.map(f);
    lemma_map_size(dom, img, f);
    assert(img.subset_of(dom)) by {
        assert forall|y: int| img.contains(y) implies dom.contains(y) by {
            let x = choose|x: int| dom.contains(x) && f(x) == y;
            lemma_msb_small(crc_entry(x as u32));
        }
    }
    lemma_subset_equality(img, dom);
    assert(dom.contains(m as int));
    assert(img.contains(m as int));
    let x = choose|x: int| dom.contains(x) && f(x) == m as int;
    assert((crc_entry(x as u32) >> 24u32) == m);
    assert((x as u32) < 256);
}

/// `crc_pre(m)` is the unique byte whose table entry has most significant byte `m`.
proof fn lemma_crc_pre(m: u32)
    requires
        m < 256,
    ensures
        crc_pre(m) < 256,
        (crc_entry(crc_pre(m)) >> 24u32) == m,
        forall|j: u32| j < 256 && (crc_entry(j) >> 24u32) == m ==> j == crc_pre(m),
{
    lemma_crc_msb_surjective(m);
    assert forall|j: u32| j < 256 && (crc_entry(j) >> 24u32) == m implies j == crc_pre(m) by {
        if j != crc_pre(m) {
            lemma_crc_msb_injective(j, crc_pre(m));
        }
    }
}

proof fn lemma_bits_inv_after(c: u32, e: u32, i: u32, b: u32)
    requires
        i < 256,
        b < 256,
        (e >> 24u32) == (c >> 24u32),
    ensures
        ((((c << 8u32) ^ ((e << 8u32) ^ i) ^ b) & 0xffu32) ^ b) == i,
        ((((c << 8u32) ^ ((e << 8u32) ^ i) ^ b) >> 8u32) ^ e) == c,
{
    assert(i < 256 && b < 256 && (e >> 24u32) == (c >> 24u32) ==> ((((c << 8u32) ^ ((e << 8u32)
        ^ i) ^ b) & 0xffu32) ^ b) == i && ((((c << 8u32) ^ ((e << 8u32) ^ i) ^ b) >> 8u32) ^ e)
        == c) by (bit_vector);
}

proof fn lemma_bits_inv_before(v: u32, e: u32, b: u32)
    requires
        b < 256,
    ensures
        (((v >> 8u32) ^ e) >> 24u32) == (e >> 24u32),
        ((((v >> 8u32) ^ e) << 8u32) ^ ((e << 8u32) ^ ((v & 0xffu32) ^ b)) ^ b) == v,
        ((v & 0xffu32) ^ b) < 256,
{
    assert(b < 256 ==> (((v >> 8u32) ^ e) >> 24u32) == (e >> 24u32) && ((((v >> 8u32) ^ e)
        << 8u32) ^ ((e << 8u32) ^ ((v & 0xffu32) ^ b)) ^ b) == v && ((v & 0xffu32) ^ b) < 256)
        by (bit_vector);
}

/// Going back one byte and then forward over the same byte gives the
/// starting CRC value again.
pub proof fn lemma_crc32_after_inverse(crc: u32, b: u8)
    ensures
        crc32_spec(crc32inv_spec(crc, b), b) == crc,
{
    let m = crc >> 24u32;
    lemma_msb_small(crc);
    lemma_crc_pre(m);
    let i = crc_pre(m);
    lemma_bits_inv_after(crc, crc_entry(i), i, b as u32);
}

/// Going forward one byte and then back over the same byte gives the
/// starting CRC value again.
pub proof fn lemma_crc32_inverse_after(v: u32, b: u8)
    ensures
        crc32inv_spec(crc32_spec(v, b), b) == v,
{
    let j = (v & 0xffu32) ^ (b as u32);
    lemma_bits_inv_before(v, crc_entry(j), b as u32);
    let c = crc32_spec(v, b);
    lemma_msb_small(c);
    lemma_crc_pre(c >> 24u32);
}

proof fn lemma_mult_inverse(y: u32, l: u32)
    ensures
        ((((((((y - 1) as u32) * MULTINV) as u32 - l) as u32 + l) as u32) * MULT) as u32 + 1) as u32
            == y,
        ((((((((y + l) as u32) * MULT) as u32 + 1) as u32 - 1) as u32) * MULTINV) as u32 - l) as u32
            == y,
{
    assert(((((((((y - 1) as u32) * 0xd94f_a8cdu32) as u32 - l) as u32 + l) as u32) * 0x0808_8405u32)
        as u32 + 1) as u32 == y) by (bit_vector);
    assert(((((((((y + l) as u32) * 0x0808_8405u32) as u32 + 1) as u32 - 1) as u32) * 0xd94f_a8cdu32)
        as u32 - l) as u32 == y) by (bit_vector);
}

// ---------------------------------------------------------------------------
// Executable primitives.
// ---------------------------------------------------------------------------

/// Bit mask for bits `[begin, end)`.
pub fn mask(begin: u32, end: u32) -> (r: u32)
    requires
        begin < 32,
        1 <= end <= 32,
    ensures
        r == mask_spec(begin, end),
{
    (u32::MAX << begin) & (u32::MAX >> (32 - end))
}

/// The least significant byte.
pub fn lsb(x: u32) -> (r: u8)
    ensures
        r as u32 == x & 0xffu32,
{
    assert((x as u8) as u32 == (x & 0xffu32)) by (bit_vector);
    x as u8
}

/// The most significant byte.
pub fn msb(x: u32) -> (r: u8)
    ensures
        r as u32 == x >> 24u32,
        r == (x >> 24u32) as u8,
{
    assert(((x >> 24u32) as u8) as u32 == (x >> 24u32)) by (bit_vector);
    (x >> 24) as u8
}

fn wadd(a: u32, b: u32) -> (r: u32)
    ensures
        r == (a + b) as u32,
{
    assert(a + b > 0xffff_ffff ==> (a + b - 0x1_0000_0000) as u32 == (a + b) as u32) by (bit_vector);
    a.wrapping_add(b)
}

fn wsub(a: u32, b: u32) -> (r: u32)
    ensures
        r == (a - b) as u32,
{
    assert(a - b < 0 ==> (a - b + 0x1_0000_0000) as u32 == (a - b) as u32) by (bit_vector);
    a.wrapping_sub(b)
}

fn wmul(a: u32, b: u32) -> (r: u32)
    ensures
        r == (a * b) as u32,
{
    assert(((a * b) % 0x1_0000_0000) as u32 == (a * b) as u32) by (bit_vector);
    a.wrapping_mul(b)
}

/// Largest difference between A and B[x,32) knowing A = B + b, b a byte.
pub fn maxdiff(x: u32) -> (r: u32)
    requires
        1 <= x <= 32,
    ensures
        r == (mask_spec(0, x) + 0xff) as u32,
{
    let m = mask(0, x);
    let r = m.wrapping_add(0xff);
    assert(m + 0xff > 0xffff_ffff ==> (m + 0xff - 0x1_0000_0000) as u32 == (m + 0xff) as u32)
        by (bit_vector);
    r
}

fn crc_round_exec(c: u32) -> (r: u32)
    ensures
        r == crc_round(c),
{
    if c & 1 != 0 {
        (c >> 1) ^ 0xedb8_8320
    } else {
        c >> 1
    }
}

/// The CRC-32 table entry of `b`, computed by eight division steps.
pub fn crc_table_entry(b: u32) -> (r: u32)
    ensures
        r == crc_entry(b),
{
    let mut crc = b;
    crc = crc_round_exec(crc);
    crc = crc_round_exec(crc);
    crc = crc_round_exec(crc);
    crc = crc_round_exec(crc);
    crc = crc_round_exec(crc);
    crc = crc_round_exec(crc);
    crc = crc_round_exec(crc);
    crc = crc_round_exec(crc);
    crc
}

/// CRC-32 of one more byte.
pub fn crc32(pval: u32, b: u8) -> (r: u32)
    ensures
        r == crc32_spec(pval, b),
{
    (pval >> 8) ^ crc_table_entry((pval & 0xff) ^ (b as u32))
}

/// The running CRC value before byte `b`, found by searching the table entry
/// whose most significant byte matches.
pub fn crc32inv_direct(crc: u32, b: u8) -> (r: u32)
    ensures
        r == crc32inv_spec(crc, b),
{
    let m = crc >> 24;
    proof {
        lemma_msb_small(crc);
        lemma_crc_pre(m);
    }
    let mut i: u32 = 0;
    while i < 256
        invariant
            i <= 256,
            m == crc >> 24u32,
            m < 256,
            crc_pre(m) < 256,
            (crc_entry(crc_pre(m)) >> 24u32) == m,
            forall|j: u32| j < i ==> (crc_entry(j) >> 24u32) != m,
        decreases 256 - i,
    {
        let e = crc_table_entry(i);
        if (e >> 24) == m {
            proof {
                lemma_crc_pre(m);
            }
            return (crc << 8) ^ ((e << 8) ^ i) ^ (b as u32);
        }
        i += 1;
    }
    proof {
        assert((crc_entry(crc_pre(m)) >> 24u32) != m);
    }
    0
}

/// The keystream byte of the Z key.
pub fn keystream_direct(z: u32) -> (r: u8)
    ensures
        r == keystream_spec(z),
{
    let t = z & 0xfffc;
    assert((z & 0xfffcu32) <= 0xfffc) by (bit_vector);
    let a = t | 2;
    let c = t | 3;
    assert(t <= 0xfffc ==> (t | 2u32) <= 0xffff && (t | 3u32) <= 0xffff) by (bit_vector);
    assert(a * c <= 0xffff * 0xffff) by (nonlinear_arith)
        requires
            a <= 0xffff,
            c <= 0xffff,
    ;
    let p = a * c;
    (((p >> 8) & 0xff) as u8)
}

// ---------------------------------------------------------------------------
// Cipher state.
// ---------------------------------------------------------------------------

/// The three 32-bit internal keys of the cipher.
#[derive(Clone, Copy, Debug, PartialEq, Eq, Structural)]
pub struct Keys {
    pub x: u32,
    pub y: u32,
    pub z: u32,
}

/// The keys after enciphering (or deciphering to) plaintext byte `p`.
pub open spec fn update_spec(k: Keys, p: u8) -> Keys {
    let x = crc32_spec(k.x, p);
    let y = ((((k.y + (x & 0xffu32)) as u32) * MULT) as u32 + 1) as u32;
    let z = crc32_spec(k.z, (y >> 24u32) as u8);
    Keys { x, y, z }
}

/// The keys before the byte whose ciphertext is `c`.
pub open spec fn update_backward_spec(k: Keys, c: u8) -> Keys {
    let z = crc32inv_spec(k.z, (k.y >> 24u32) as u8);
    let y = ((((k.y - 1) as u32) * MULTINV) as u32 - (k.x & 0xffu32)) as u32;
    let x = crc32inv_spec(k.x, c ^ keystream_spec(z));
    Keys { x, y, z }
}

/// The keys after a whole sequence of plaintext bytes.
pub open spec fn update_seq_spec(k: Keys, p: Seq<u8>) -> Keys
    decreases p.len(),
{
    if p.len() == 0 {
        k
    } else {
        update_spec(update_seq_spec(k, p.drop_last()), p.last())
    }
}

/// The initial keys: the state before any password byte.
pub open spec fn initial_keys() -> Keys {
    Keys { x: 0x1234_5678, y: 0x2345_6789, z: 0x3456_7890 }
}

/// The state of a decipherer started at `k`, after `n` bytes of `ct`.
pub open spec fn state_at(k: Keys, ct: Seq<u8>, n: nat) -> Keys
    decreases n,
{
    if n == 0 {
        k
    } else {
        let s = state_at(k, ct, (n - 1) as nat);
        update_spec(s, ct[n - 1] ^ keystream_spec(s.z))
    }
}

/// The plaintext byte at position `n` when deciphering `ct` from keys `k`.
pub open spec fn plain_at(k: Keys, ct: Seq<u8>, n: nat) -> u8 {
    ct[n as int] ^ keystream_spec(state_at(k, ct, n).z)
}

/// The keys reached by rewinding from `k` at position `m` back to position `a`.
pub open spec fn rewind_to(k: Keys, ct: Seq<u8>, m: nat, a: nat) -> Keys
    decreases m - a,
{
    if m <= a {
        k
    } else {
        rewind_to(update_backward_spec(k, ct[m - 1]), ct, (m - 1) as nat, a)
    }
}

/// Rewinding over the byte with ciphertext `c` and then deciphering it forward
/// gives back the keys one started from.
pub proof fn lemma_update_after_backward(k: Keys, c: u8)
    ensures
        ({
            let s = update_backward_spec(k, c);
            update_spec(s, c ^ keystream_spec(s.z)) == k
        }),
{
    let s = update_backward_spec(k, c);
    let p = c ^ keystream_spec(s.z);
    assert(p == c ^ keystream_spec(s.z));
    assert((c ^ keystream_spec(s.z)) == p);
    let kk = keystream_spec(s.z);
    assert(c ^ kk == p);
    lemma_crc32_after_inverse(k.x, c ^ kk);
    lemma_crc32_after_inverse(k.z, (k.y >> 24u32) as u8);
    lemma_mult_inverse(k.y, k.x & 0xffu32);
    let t = update_spec(s, p);
    assert(t.x == k.x);
    assert(t.y == k.y);
    let ky = k.y;
    assert((((ky >> 24u32) as u8) as u32) == (ky >> 24u32)) by (bit_vector);
}

/// Enciphering a plaintext byte and then rewinding over its ciphertext gives
/// back the keys one started from.
pub proof fn lemma_backward_after_update(k: Keys, p: u8)
    ensures
        update_backward_spec(update_spec(k, p), p ^ keystream_spec(k.z)) == k,
{
    let t = update_spec(k, p);
    lemma_crc32_inverse_after(k.z, (t.y >> 24u32) as u8);
    lemma_crc32_inverse_after(k.x, p);
    lemma_mult_inverse(k.y, t.x & 0xffu32);
    let kk = keystream_spec(k.z);
    assert((p ^ kk) ^ kk == p) by (bit_vector);
}

/// Deciphering forward from the keys reached by rewinding gives back the
/// keys one rewound from, at every intermediate position.
pub proof fn lemma_state_at_rewind(k: Keys, ct: Seq<u8>, m: nat, a: nat)
    requires
        a <= m <= ct.len(),
    ensures
        state_at(rewind_to(k, ct, m, 0), ct, a) == rewind_to(k, ct, m, a),
    decreases m,
{
    if m == 0 {
    } else if a == m {
        lemma_state_at_rewind(update_backward_spec(k, ct[m - 1]), ct, (m - 1) as nat, (m - 1) as nat);
        let s = update_backward_spec(k, ct[m - 1]);
        lemma_update_after_backward(k, ct[m - 1]);
        lemma_rewind_step(k, ct, m);
    } else {
        lemma_state_at_rewind(update_backward_spec(k, ct[m - 1]), ct, (m - 1) as nat, a);
    }
}

proof fn lemma_rewind_step(k: Keys, ct: Seq<u8>, m: nat)
    requires
        0 < m <= ct.len(),
    ensures
        rewind_to(k, ct, m, (m - 1) as nat) == update_backward_spec(k, ct[m - 1]),
{
    reveal_with_fuel(rewind_to, 2);
}


impl Default for Keys {
    /// The initial keys, before any password byte.
    fn default() -> (k: Self)
        ensures
            k == initial_keys(),
    {
        Keys { x: 0x1234_5678, y: 0x2345_6789, z: 0x3456_7890 }
    }
}

impl Keys {
    pub fn new(x: u32, y: u32, z: u32) -> (k: Self)
        ensures
            k == (Keys { x, y, z }),
    {
        Keys { x, y, z }
    }

    /// The keys derived from a password: the initial keys updated with each
    /// password byte in turn.
    pub fn from_password(password: &[u8]) -> (k: Self)
        ensures
            k == update_seq_spec(initial_keys(), password@),
    {
        let mut k = Keys::default();
        let mut i: usize = 0;
        while i < password.len()
            invariant
                i <= password.len(),
                k == update_seq_spec(initial_keys(), password@.take(i as int)),
            decreases password.len() - i,
        {
            proof {
                assert(password@.take(i + 1).drop_last() =~= password@.take(i as int));
            }
            k.update(password[i]);
            i += 1;
        }
        proof {
            assert(password@.take(password.len() as int) =~= password@);
        }
        k
    }

    /// Advance the keys over plaintext byte `p`.
    pub fn update(&mut self, p: u8)
        ensures
            *final(self) == update_spec(*old(self), p),
    {
        self.x = crc32(self.x, p);
        self.y = wadd(wmul(wadd(self.y, lsb(self.x) as u32), MULT), 1);
        self.z = crc32(self.z, msb(self.y));
    }

    /// Rewind the keys over the byte whose ciphertext is `c`.
    pub fn update_backward(&mut self, c: u8)
        ensures
            *final(self) == update_backward_spec(*old(self), c),
    {
        self.z = crc32inv_direct(self.z, msb(self.y));
        self.y = wsub(wmul(wsub(self.y, 1), MULTINV), lsb(self.x) as u32);
        let k = self.get_k();
        self.x = crc32inv_direct(self.x, c ^ k);
    }

    /// Advance the keys over `ciphertext[current..target]`, deciphering it.
    pub fn update_forward_range(&mut self, ciphertext: &[u8], current: usize, target: usize)
        requires
            current <= target <= ciphertext.len(),
        ensures
            *final(self) == state_at(
                *old(self),
                ciphertext@.subrange(current as int, target as int),
                (target - current) as nat,
            ),
    {
        let ghost sub = ciphertext@.subrange(current as int, target as int);
        let ghost start = *self;
        let mut i = current;
        while i < target
            invariant
                current <= i <= target <= ciphertext.len(),
                sub == ciphertext@.subrange(current as int, target as int),
                *self == state_at(start, sub, (i - current) as nat),
            decreases target - i,
        {
            let c = ciphertext[i];
            let k = self.get_k();
            self.update(c ^ k);
            i += 1;
        }
    }

    /// Rewind the keys over `ciphertext[target..current]`, last byte first.
    pub fn update_backward_range(&mut self, ciphertext: &[u8], current: usize, target: usize)
        requires
            target <= current <= ciphertext.len(),
        ensures
            *final(self) == rewind_to(*old(self), ciphertext@, current as nat, target as nat),
    {
        let ghost start = *self;
        let mut i = current;
        while i > target
            invariant
                target <= i <= current <= ciphertext.len(),
                rewind_to(*self, ciphertext@, i as nat, target as nat) == rewind_to(
                    start,
                    ciphertext@,
                    current as nat,
                    target as nat,
                ),
            decreases i - target,
        {
            self.update_backward(ciphertext[i - 1]);
            i -= 1;
        }
    }

    /// The keystream byte for the current keys.
    pub fn get_k(&self) -> (k: u8)
        ensures
            k == keystream_spec(self.z),
    {
        keystream_direct(self.z)
    }
}

/// Decipher an encrypted entry (ciphertext including its 12-byte encryption
/// header) with the given keys; the result leaves the header out.
pub fn decipher(ciphertext_incl_header: &[u8], keys: Keys) -> (out: Vec<u8>)
    ensures
        out@ == decipher_spec(keys, ciphertext_incl_header@),
        out@.len() == if ciphertext_incl_header.len() >= ENCRYPTION_HEADER_SIZE {
            ciphertext_incl_header.len() - ENCRYPTION_HEADER_SIZE
        } else {
            0
        },
        forall|i: int|
            0 <= i < out@.len() ==> out@[i] == plain_at(
                keys,
                ciphertext_incl_header@,
                (i + ENCRYPTION_HEADER_SIZE) as nat,
            ),
{
    let mut k = keys;
    let cap = if ciphertext_incl_header.len() >= ENCRYPTION_HEADER_SIZE {
        ciphertext_incl_header.len() - ENCRYPTION_HEADER_SIZE
    } else {
        0
    };
    let mut out: Vec<u8> = Vec::with_capacity(cap);
    let mut i: usize = 0;
    while i < ciphertext_incl_header.len()
        invariant
            i <= ciphertext_incl_header.len(),
            k == state_at(keys, ciphertext_incl_header@, i as nat),
            out@.len() == if i >= ENCRYPTION_HEADER_SIZE {
                i - ENCRYPTION_HEADER_SIZE
            } else {
                0
            },
            forall|j: int|
                0 <= j < out@.len() ==> out@[j] == plain_at(
                    keys,
                    ciphertext_incl_header@,
                    (j + ENCRYPTION_HEADER_SIZE) as nat,
                ),
        decreases ciphertext_incl_header.len() - i,
    {
        let c = ciphertext_incl_header[i];
        let p = c ^ k.get_k();
        k.update(p);
        if i >= ENCRYPTION_HEADER_SIZE {
            out.push(p);
        }
        i += 1;
    }
    assert(out@ =~= decipher_spec(keys, ciphertext_incl_header@));
    out
}


// ---------------------------------------------------------------------------
// Lookup tables.
// ---------------------------------------------------------------------------

/// The Zi[2,16) values (multiples of 4) inside block `slot` of 1024 values
/// whose keystream byte is `k`, in increasing order.
pub open spec fn zi_2_16_bucket(k: int, slot: int) -> Seq<u32> {
    zi_2_16_prefix(k, slot, 256)
}

/// The first `n` candidates of block `slot`, filtered like a bucket.
pub open spec fn zi_2_16_prefix(k: int, slot: int, n: int) -> Seq<u32> {
    Seq::new(n as nat, |j: int| (slot * 1024 + 4 * j) as u32).filter(
        |z: u32| keystream_spec(z) as int == k,
    )
}

/// The lookup tables used by the attack.
pub struct Tables {
    crctab: Vec<u32>,
    crcinvtab: Vec<u32>,
    fiber2: Vec<Vec<u8>>,
    fiber3: Vec<Vec<u8>>,
    keystreamtab: Vec<u8>,
    invfilter: Vec<Vec<u32>>,
    invexists: Vec<bool>,
}

impl Tables {
    /// The bytes `x` whose `x * MULTINV` has its high byte at `i` or one
    /// below (the second multiplication fiber), as the tables hold them.
    pub closed spec fn fiber2_at(&self, i: int) -> Seq<u8> {
        self.fiber2@[i]@
    }

    /// The bytes whose `x * MULTINV` has its high byte within one of `i`
    /// (the third multiplication fiber), as the tables hold them.
    pub closed spec fn fiber3_at(&self, i: int) -> Seq<u8> {
        self.fiber3@[i]@
    }

    /// Every table holds what its definition says.
    pub closed spec fn wf(&self) -> bool {
        &&& self.crctab@.len() == 256
        &&& forall|i: int| 0 <= i < 256 ==> self.crctab@[i] == crc_entry(i as u32)
        &&& self.crcinvtab@.len() == 256
        &&& forall|m: int| 0 <= m < 256 ==> self.crcinvtab@[m] == crc_inv_entry(m as u32)
        &&& self.fiber2@.len() == 256
        &&& self.fiber3@.len() == 256
        &&& self.keystreamtab@.len() == 16384
        &&& forall|j: int|
            0 <= j < 16384 ==> self.keystreamtab@[j] == keystream_spec((4 * j) as u32)
        &&& self.invfilter@.len() == 16384
        &&& forall|i: int|
            0 <= i < 16384 ==> #[trigger] self.invfilter@[i]@ == zi_2_16_bucket(i / 64, i % 64)
        &&& self.invexists@.len() == 16384
        &&& forall|i: int|
            0 <= i < 16384 ==> #[trigger] self.invexists@[i] == (self.invfilter@[i]@.len() > 0)
    }
}

proof fn lemma_prefix_push(k: int, slot: int, n: int)
    requires
        0 <= n,
    ensures
        zi_2_16_prefix(k, slot, n + 1) == if keystream_spec((slot * 1024 + 4 * n) as u32) as int == k {
            zi_2_16_prefix(k, slot, n).push((slot * 1024 + 4 * n) as u32)
        } else {
            zi_2_16_prefix(k, slot, n)
        },
{
    let s1 = Seq::new((n + 1) as nat, |j: int| (slot * 1024 + 4 * j) as u32);
    let s0 = Seq::new(n as nat, |j: int| (slot * 1024 + 4 * j) as u32);
    assert(s1.drop_last() =~= s0);
    assert(zi_2_16_prefix(k, slot, n + 1) == s1.filter(|z: u32| keystream_spec(z) as int == k));
    assert(zi_2_16_prefix(k, slot, n) == s0.filter(|z: u32| keystream_spec(z) as int == k));
    assert(s1.last() == (slot * 1024 + 4 * n) as u32);
    let pr = |z: u32| keystream_spec(z) as int == k;
    reveal(Seq::filter);
    assert(s1.filter(pr) == if pr(s1.last()) {
        s1.drop_last().filter(pr).push(s1.last())
    } else {
        s1.drop_last().filter(pr)
    });
}

/// How far the bucket of `slot` is filled once every value below `zz` went in.
pub open spec fn bucket_bound(zz: int, slot: int) -> int {
    if zz <= slot * 1024 {
        0
    } else if zz >= slot * 1024 + 1024 {
        256
    } else {
        (zz - slot * 1024) / 4
    }
}

/// The filter table after every value below `zz` went into its bucket.
pub open spec fn filter_inv(f: Seq<Vec<u32>>, zz: int) -> bool {
    &&& f.len() == 16384
    &&& forall|i: int|
        0 <= i < 16384 ==> (#[trigger] f[i])@ == zi_2_16_prefix(i / 64, i % 64, bucket_bound(zz, i % 64))
}

proof fn lemma_filter_step(f0: Seq<Vec<u32>>, f1: Seq<Vec<u32>>, idx: int, zz: int)
    requires
        filter_inv(f0, zz),
        0 <= zz < 65536,
        zz % 4 == 0,
        idx == keystream_spec(zz as u32) as int * 64 + zz / 1024,
        0 <= idx < 16384,
        f1.len() == 16384,
        f1[idx]@ == f0[idx]@.push(zz as u32),
        forall|i: int| 0 <= i < 16384 && i != idx ==> f1[i] == f0[i],
    ensures
        filter_inv(f1, zz + 4),
{
    let slot = zz / 1024;
    let k = keystream_spec(zz as u32) as int;
    let cnt = (zz - slot * 1024) / 4;
    assert(0 <= slot < 64);
    assert(idx / 64 == k && idx % 64 == slot);
    assert(zz == slot * 1024 + 4 * cnt);
    assert forall|i: int| 0 <= i < 16384 implies (#[trigger] f1[i])@ == zi_2_16_prefix(
        i / 64,
        i % 64,
        bucket_bound(zz + 4, i % 64),
    ) by {
        let s2 = i % 64;
        assert(f0[i]@ == zi_2_16_prefix(i / 64, s2, bucket_bound(zz, s2)));
        if s2 != slot {
            if s2 < slot {
                assert(zz >= s2 * 1024 + 1024);
            } else {
                assert(zz + 4 <= s2 * 1024);
            }
            assert(bucket_bound(zz + 4, s2) == bucket_bound(zz, s2));
            assert(i != idx);
        } else {
            assert(bucket_bound(zz, s2) == cnt);
            assert(bucket_bound(zz + 4, s2) == cnt + 1);
            lemma_prefix_push(i / 64, slot, cnt);
            if i != idx {
                assert(i / 64 != k);
            }
        }
    }
}

proof fn lemma_shift_div(z: u32)
    ensures
        z >> 2u32 == z / 4,
        z >> 10u32 == z / 1024,
{
    assert(z >> 2u32 == z / 4 && z >> 10u32 == z / 1024) by (bit_vector);
}

/// Build all lookup tables.
pub fn build_tables() -> (t: Tables)
    ensures
        t.wf(),
{
    // CRC-32 tables.
    let mut crctab: Vec<u32> = Vec::new();
    let mut crcinvtab: Vec<u32> = Vec::new();
    let mut i: usize = 0;
    while i < 256
        invariant
            i <= 256,
            crcinvtab@.len() == i,
            forall|m: int| 0 <= m < i ==> crcinvtab@[m] == 0,
        decreases 256 - i,
    {
        crcinvtab.push(0);
        i += 1;
    }
    let mut b: u32 = 0;
    while b < 256
        invariant
            b <= 256,
            crctab@.len() == b,
            forall|j: int| 0 <= j < b ==> crctab@[j] == crc_entry(j as u32),
            crcinvtab@.len() == 256,
            forall|j: u32|
                j < b ==> crcinvtab@[(crc_entry(j) >> 24u32) as int] == (crc_entry(j) << 8u32) ^ j,
        decreases 256 - b,
    {
        let crc = crc_table_entry(b);
        crctab.push(crc);
        proof {
            lemma_msb_small(crc);
        }
        let m = msb(crc) as usize;
        crcinvtab.set(m, (crc << 8) ^ b);
        proof {
            assert forall|j: u32| j < b + 1 implies crcinvtab@[(crc_entry(j) >> 24u32) as int] == (
            crc_entry(j) << 8u32) ^ j by {
                if j != b {
                    lemma_crc_msb_injective(j, b);
                    lemma_msb_small(crc_entry(j));
                }
            }
        }
        b += 1;
    }
    proof {
        assert forall|m: int| 0 <= m < 256 implies crcinvtab@[m] == crc_inv_entry(m as u32) by {
            lemma_crc_pre(m as u32);
        }
    }

    // Multiplication fibers.
    let mut fiber2: Vec<Vec<u8>> = Vec::new();
    let mut fiber3: Vec<Vec<u8>> = Vec::new();
    let mut i: usize = 0;
    while i < 256
        invariant
            i <= 256,
            fiber2@.len() == i,
            fiber3@.len() == i,
        decreases 256 - i,
    {
        fiber2.push(Vec::new());
        fiber3.push(Vec::new());
        i += 1;
    }
    let mut prodinv: u32 = 0;
    let mut x: u32 = 0;
    while x < 256
        invariant
            x <= 256,
            fiber2@.len() == 256,
            fiber3@.len() == 256,
        decreases 256 - x,
    {
        let m = msb(prodinv) as u32;
        proof {
            lemma_msb_small(prodinv);
        }
        let xb = x as u8;
        fiber2[m as usize].push(xb);
        fiber2[((m + 1) % 256) as usize].push(xb);
        fiber3[((m + 255) % 256) as usize].push(xb);
        fiber3[m as usize].push(xb);
        fiber3[((m + 1) % 256) as usize].push(xb);
        prodinv = wadd(prodinv, MULTINV);
        x += 1;
    }

    // Keystream tables.
    let mut keystreamtab: Vec<u8> = Vec::new();
    let mut invfilter: Vec<Vec<u32>> = Vec::new();
    let mut invexists: Vec<bool> = Vec::new();
    let mut i: usize = 0;
    while i < 16384
        invariant
            i <= 16384,
            keystreamtab@.len() == i,
            invfilter@.len() == i,
            invexists@.len() == i,
            forall|j: int| 0 <= j < i ==> (#[trigger] invfilter@[j])@.len() == 0,
            forall|j: int| 0 <= j < i ==> !(#[trigger] invexists@[j]),
        decreases 16384 - i,
    {
        keystreamtab.push(0);
        invfilter.push(Vec::new());
        invexists.push(false);
        i += 1;
    }
    let mut z_2_16: u32 = 0;
    proof {
        assert forall|i: int| 0 <= i < 16384 implies (#[trigger] invfilter@[i])@ == zi_2_16_prefix(
            i / 64,
            i % 64,
            bucket_bound(0, i % 64),
        ) by {
            reveal(Seq::filter);
            assert(Seq::new(0, |j: int| ((i % 64) * 1024 + 4 * j) as u32) =~= Seq::<u32>::empty());
            assert(invfilter@[i]@ =~= Seq::<u32>::empty());
        }
    }
    while z_2_16 < 65536
        invariant
            z_2_16 <= 65536,
            z_2_16 % 4 == 0,
            keystreamtab@.len() == 16384,
            invfilter@.len() == 16384,
            invexists@.len() == 16384,
            forall|j: int|
                0 <= j < z_2_16 / 4 ==> keystreamtab@[j] == keystream_spec((4 * j) as u32),
            filter_inv(invfilter@, z_2_16 as int),
            forall|idx: int|
                0 <= idx < 16384 ==> #[trigger] invexists@[idx] == (invfilter@[idx]@.len() > 0),
        decreases 65536 - z_2_16,
    {
        let k = keystream_direct(z_2_16);
        proof {
            lemma_shift_div(z_2_16);
        }
        keystreamtab.set((z_2_16 >> 2) as usize, k);
        let slot = (z_2_16 >> 10) as usize;
        let idx = (k as usize) * 64 + slot;
        let ghost old_filter = invfilter@;
        let ghost zz = z_2_16 as int;
        let ghost cnt = (zz - (slot as int) * 1024) / 4;
        assert(zz == (slot as int) * 1024 + 4 * cnt);
        invfilter[idx].push(z_2_16);
        invexists.set(idx, true);
        proof {
            assert(idx as int / 64 == k as int);
            assert(idx as int % 64 == slot as int);
            lemma_filter_step(old_filter, invfilter@, idx as int, zz);
        }
        z_2_16 += 4;
    }

    Tables { crctab, crcinvtab, fiber2, fiber3, keystreamtab, invfilter, invexists }
}


proof fn lemma_masks()
    ensures
        mask_spec(0, 16) == 0xffffu32,
        mask_spec(0, 24) == 0xff_ffffu32,
        mask_spec(0, 26) == 0x3ff_ffffu32,
        mask_spec(2, 32) == 0xffff_fffcu32,
        mask_spec(8, 32) == 0xffff_ff00u32,
        mask_spec(10, 32) == 0xffff_fc00u32,
        mask_spec(24, 32) == 0xff00_0000u32,
        mask_spec(26, 32) == 0xfc00_0000u32,
{
    assert(mask_spec(0, 16) == 0xffffu32 && mask_spec(0, 24) == 0xff_ffffu32 && mask_spec(0, 26)
        == 0x3ff_ffffu32 && mask_spec(2, 32) == 0xffff_fffcu32 && mask_spec(8, 32) == 0xffff_ff00u32
        && mask_spec(10, 32) == 0xffff_fc00u32 && mask_spec(24, 32) == 0xff00_0000u32 && mask_spec(
        26,
        32,
    ) == 0xfc00_0000u32) by (bit_vector);
}

proof fn lemma_keystream_index(zi: u32)
    ensures
        ((zi & 0xffffu32) >> 2u32) < 16384,
        keystream_spec(zi) == keystream_spec((4 * ((zi & 0xffffu32) >> 2u32)) as u32),
        ((zi & 0xffffu32) >> 10u32) < 64,
{
    let j = (zi & 0xffffu32) >> 2u32;
    assert(((zi & 0xffffu32) >> 2u32) < 16384 && ((zi & 0xffffu32) >> 10u32) < 64 && (((4 * ((zi
        & 0xffffu32) >> 2u32)) as u32) & 0xfffcu32) == (zi & 0xfffcu32)) by (bit_vector);
}

/// CRC-32 of one more byte, by table lookup.
pub fn crc32_table(t: &Tables, pval: u32, b: u8) -> (r: u32)
    requires
        t.wf(),
    ensures
        r == crc32_spec(pval, b),
{
    let i = (lsb(pval) ^ b) as usize;
    proof {
        let pv = pval;
        let bb = b;
        assert(((((pv & 0xffu32) as u8) ^ bb) as u32) == ((pv & 0xffu32) ^ (bb as u32))) by (bit_vector);
        assert((((pv & 0xffu32) as u8) as u32) == (pv & 0xffu32)) by (bit_vector);
    }
    (pval >> 8) ^ t.crctab[i]
}

/// The running CRC value before byte `b`, by table lookup.
pub fn crc32inv(t: &Tables, crc: u32, b: u8) -> (r: u32)
    requires
        t.wf(),
    ensures
        r == crc32inv_spec(crc, b),
{
    proof {
        lemma_msb_small(crc);
    }
    (crc << 8) ^ t.crcinvtab[msb(crc) as usize] ^ (b as u32)
}

/// Yi[24,32) from Zi and Z{i-1}.
pub fn get_yi_24_32(t: &Tables, zi: u32, zim1: u32) -> (r: u32)
    requires
        t.wf(),
    ensures
        r == (crc32inv_spec(zi, 0) ^ zim1) << 24u32,
{
    (crc32inv(t, zi, 0) ^ zim1) << 24
}

/// Z{i-1}[10,32) from Zi[2,32).
pub fn get_zim1_10_32(t: &Tables, zi_2_32: u32) -> (r: u32)
    requires
        t.wf(),
    ensures
        r == crc32inv_spec(zi_2_32, 0) & mask_spec(10, 32),
{
    crc32inv(t, zi_2_32, 0) & mask(10, 32)
}

/// The keystream byte of the Z key, by table lookup.
pub fn keystream_byte(t: &Tables, zi: u32) -> (r: u8)
    requires
        t.wf(),
    ensures
        r == keystream_spec(zi),
{
    proof {
        lemma_keystream_index(zi);
        lemma_masks();
    }
    t.keystreamtab[((zi & mask(0, 16)) >> 2) as usize]
}

/// The Zi[2,16) values with the given bits [10,16) whose keystream byte is `ki`.
pub fn get_zi_2_16<'a>(t: &'a Tables, ki: u8, zi_10_16: u32) -> (r: &'a [u32])
    requires
        t.wf(),
    ensures
        r@ == zi_2_16_bucket(ki as int, ((zi_10_16 & 0xffffu32) >> 10u32) as int),
{
    proof {
        lemma_keystream_index(zi_10_16);
        lemma_masks();
    }
    let slot = ((zi_10_16 & mask(0, 16)) >> 10) as usize;
    let idx = (ki as usize) * 64 + slot;
    assert(idx as int / 64 == ki as int);
    assert(idx as int % 64 == slot as int);
    t.invfilter[idx].as_slice()
}

/// Whether some Zi[2,16) value with the given bits [10,16) has keystream byte `ki`.
pub fn has_zi_2_16(t: &Tables, ki: u8, zi_10_16: u32) -> (r: bool)
    requires
        t.wf(),
    ensures
        r == (zi_2_16_bucket(ki as int, ((zi_10_16 & 0xffffu32) >> 10u32) as int).len() > 0),
{
    proof {
        lemma_keystream_index(zi_10_16);
        lemma_masks();
    }
    let slot = ((zi_10_16 & mask(0, 16)) >> 10) as usize;
    let idx = (ki as usize) * 64 + slot;
    assert(idx as int / 64 == ki as int);
    assert(idx as int % 64 == slot as int);
    t.invexists[idx]
}

fn fiber2<'a>(t: &'a Tables, i: u8) -> (r: &'a [u8])
    requires
        t.wf(),
    ensures
        r@ == t.fiber2_at(i as int),
{
    t.fiber2[i as usize].as_slice()
}

fn fiber3<'a>(t: &'a Tables, i: u8) -> (r: &'a [u8])
    requires
        t.wf(),
    ensures
        r@ == t.fiber3_at(i as int),
{
    t.fiber3[i as usize].as_slice()
}

// ---------------------------------------------------------------------------
// Data preparation.
// ---------------------------------------------------------------------------

/// Why the given data cannot be used for an attack.
#[derive(Clone, Copy, Debug, PartialEq, Eq, Structural)]
pub enum DataError {
    /// The ciphertext is shorter than the bytes the attack needs.
    CiphertextTooShort,
    /// The ciphertext is shorter than the known plaintext.
    CiphertextShorterThanPlaintext,
    /// The plaintext offset lies before the encryption header.
    OffsetTooSmall(i32),
    /// The plaintext, at its offset, runs past the end of the ciphertext.
    OffsetTooLarge(i32),
    /// Fewer contiguous known bytes than the attack needs.
    ContiguousTooShort(usize),
    /// Fewer known bytes in all than the attack needs.
    PlaintextTooShort(usize),
}

/// The first check that fails for a ciphertext of length `ct_len`, a known
/// plaintext of length `pt_len` and a plaintext offset `offset`.
impl DataError {
    /// The message that describes the error.
    pub open spec fn message_spec(&self) -> Seq<char> {
        match *self {
            DataError::CiphertextTooShort => "密文太短，无法攻击（至少 12 字节）"@,
            DataError::CiphertextShorterThanPlaintext => "密文比明文还短"@,
            DataError::OffsetTooSmall(o) => "明文偏移 "@ + signed_decimal(o as int) + " 太小（最小 -12）"@,
            DataError::OffsetTooLarge(o) => "明文偏移 "@ + signed_decimal(o as int) + " 太大，超出密文范围"@,
            DataError::ContiguousTooShort(n) => "连续明文不足（"@ + decimal(n as nat) + " 字节，至少 8）"@,
            DataError::PlaintextTooShort(n) => "已知明文不足（"@ + decimal(n as nat) + " 字节，至少 12）"@,
        }
    }

    /// The message that describes the error.
    pub fn message(&self) -> (s: String)
        ensures
            s@ == self.message_spec(),
    {
        let mut s = String::new();
        match *self {
            DataError::CiphertextTooShort => {
                push_str(&mut s, "密文太短，无法攻击（至少 12 字节）");
            },
            DataError::CiphertextShorterThanPlaintext => {
                push_str(&mut s, "密文比明文还短");
            },
            DataError::OffsetTooSmall(o) => {
                push_str(&mut s, "明文偏移 ");
                push_signed(&mut s, o as i64);
                push_str(&mut s, " 太小（最小 -12）");
            },
            DataError::OffsetTooLarge(o) => {
                push_str(&mut s, "明文偏移 ");
                push_signed(&mut s, o as i64);
                push_str(&mut s, " 太大，超出密文范围");
            },
            DataError::ContiguousTooShort(n) => {
                push_str(&mut s, "连续明文不足（");
                push_decimal(&mut s, n as u64);
                push_str(&mut s, " 字节，至少 8）");
            },
            DataError::PlaintextTooShort(n) => {
                push_str(&mut s, "已知明文不足（");
                push_decimal(&mut s, n as u64);
                push_str(&mut s, " 字节，至少 12）");
            },
        }
        assert(s@ =~= self.message_spec());
        s
    }
}

pub open spec fn data_error(ct_len: int, pt_len: int, offset: int) -> Option<DataError> {
    if ct_len < ATTACK_SIZE {
        Some(DataError::CiphertextTooShort)
    } else if ct_len < pt_len {
        Some(DataError::CiphertextShorterThanPlaintext)
    } else if offset < -(ENCRYPTION_HEADER_SIZE as int) {
        Some(DataError::OffsetTooSmall(offset as i32))
    } else if ct_len < ENCRYPTION_HEADER_SIZE + offset + pt_len {
        Some(DataError::OffsetTooLarge(offset as i32))
    } else if pt_len < CONTIGUOUS_SIZE {
        Some(DataError::ContiguousTooShort(pt_len as usize))
    } else if pt_len < ATTACK_SIZE {
        Some(DataError::PlaintextTooShort(pt_len as usize))
    } else {
        None
    }
}

/// Ciphertext (including the encryption header), a contiguous run of known
/// plaintext, and the keystream derived from the two.
pub struct Data<'a> {
    pub ciphertext: &'a [u8],
    pub plaintext: Vec<u8>,
    pub keystream: Vec<u8>,
    /// Plaintext/keystream offset relative to the ciphertext with its header.
    pub offset: usize,
}

impl<'a> Data<'a> {
    /// The keystream is the plaintext xor the ciphertext at the offset, and
    /// there is enough of both.
    pub open spec fn wf(&self) -> bool {
        &&& self.ciphertext@.len() >= ATTACK_SIZE
        &&& self.plaintext@.len() >= ATTACK_SIZE
        &&& self.offset + self.plaintext.len() <= self.ciphertext.len()
        &&& self.keystream@.len() == self.plaintext@.len()
        &&& forall|j: int|
            0 <= j < self.plaintext@.len() ==> #[trigger] self.keystream@[j] == self.plaintext@[j]
                ^ self.ciphertext@[self.offset + j]
    }

    /// Prepare attack data. `offset_arg` is the plaintext offset relative to
    /// the ciphertext without its encryption header (down to -12).
    pub fn new(ciphertext: &'a [u8], plaintext: Vec<u8>, offset_arg: i32) -> (r: Result<
        Self,
        DataError,
    >)
        ensures
            match r {
                Ok(d) => {
                    &&& data_error(
                        ciphertext@.len() as int,
                        plaintext@.len() as int,
                        offset_arg as int,
                    ) is None
                    &&& d.ciphertext@ == ciphertext@
                    &&& d.plaintext@ == plaintext@
                    &&& d.offset == ENCRYPTION_HEADER_SIZE + offset_arg
                    &&& d.wf()
                },
                Err(e) => data_error(
                    ciphertext@.len() as int,
                    plaintext@.len() as int,
                    offset_arg as int,
                ) == Some(e),
            },
    {
        if ciphertext.len() < ATTACK_SIZE {
            return Err(DataError::CiphertextTooShort);
        }
        if ciphertext.len() < plaintext.len() {
            return Err(DataError::CiphertextShorterThanPlaintext);
        }
        let min_offset: i32 = -12;
        if offset_arg < min_offset {
            return Err(DataError::OffsetTooSmall(offset_arg));
        }
        if (ciphertext.len() as i128) < 12 + offset_arg as i128 + plaintext.len() as i128 {
            return Err(DataError::OffsetTooLarge(offset_arg));
        }
        if plaintext.len() < CONTIGUOUS_SIZE {
            return Err(DataError::ContiguousTooShort(plaintext.len()));
        }
        if plaintext.len() < ATTACK_SIZE {
            return Err(DataError::PlaintextTooShort(plaintext.len()));
        }
        let offset = (12i64 + offset_arg as i64) as usize;
        assert(offset == 12 + offset_arg);
        assert(offset + plaintext@.len() <= ciphertext@.len());
        let mut keystream: Vec<u8> = Vec::new();
        let mut j: usize = 0;
        while j < plaintext.len()
            invariant
                j <= plaintext.len(),
                offset + plaintext.len() <= ciphertext.len(),
                keystream@.len() == j,
                forall|i: int|
                    0 <= i < j ==> #[trigger] keystream@[i] == plaintext@[i] ^ ciphertext@[offset
                        + i],
            decreases plaintext.len() - j,
        {
            keystream.push(plaintext[j] ^ ciphertext[offset + j]);
            j += 1;
        }
        Ok(Data { ciphertext, plaintext, keystream, offset })
    }
}


// ---------------------------------------------------------------------------
// Z reduction.
// ---------------------------------------------------------------------------

/// Every value of a bucket is a multiple of 4 inside the bucket's block.
proof fn lemma_prefix_elems(k: int, slot: int, n: int)
    requires
        0 <= slot < 64,
        0 <= n <= 256,
    ensures
        forall|i: int|
            0 <= i < zi_2_16_prefix(k, slot, n).len() ==> {
                let z = #[trigger] zi_2_16_prefix(k, slot, n)[i];
                &&& z < 65536
                &&& z % 4 == 0
                &&& z / 1024 == slot
                &&& keystream_spec(z) as int == k
            },
        zi_2_16_prefix(k, slot, n).len() <= n,
    decreases n,
{
    if n == 0 {
        assert(zi_2_16_prefix(k, slot, 0) =~= Seq::<u32>::empty()) by {
            reveal(Seq::filter);
        }
    } else {
        lemma_prefix_elems(k, slot, n - 1);
        lemma_prefix_push(k, slot, n - 1);
    }
}

proof fn lemma_bucket_elems(k: int, slot: int)
    requires
        0 <= slot < 64,
    ensures
        forall|i: int|
            0 <= i < zi_2_16_bucket(k, slot).len() ==> {
                let z = #[trigger] zi_2_16_bucket(k, slot)[i];
                &&& z < 65536
                &&& z % 4 == 0
                &&& z / 1024 == slot
                &&& keystream_spec(z) as int == k
            },
        zi_2_16_bucket(k, slot).len() <= 256,
{
    lemma_prefix_elems(k, slot, 256);
}

/// Or-ing a Zi[2,16) value into Zi[10,32) bits of the same block keeps the
/// keystream byte of the Zi[2,16) value.
proof fn lemma_or_low_bits(base: u32, z2: u32)
    requires
        base & 0x3ffu32 == 0,
        z2 < 65536,
        z2 % 4 == 0,
        z2 / 1024 == (base & 0xffffu32) >> 10u32,
    ensures
        (base | z2) & 0xfffcu32 == z2 & 0xfffcu32,
        keystream_spec(base | z2) == keystream_spec(z2),
        (base | z2) & mask_spec(2, 32) == base | z2,
        (base | z2) >> 10u32 == base >> 10u32,
{
    lemma_masks();
    assert(base & 0x3ffu32 == 0 && z2 < 65536 && z2 % 4 == 0 && z2 / 1024 == (base & 0xffffu32)
        >> 10u32 ==> (base | z2) & 0xfffcu32 == z2 & 0xfffcu32 && (base | z2) & 0xffff_fffcu32 == base
        | z2 && (base | z2) >> 10u32 == base >> 10u32) by (bit_vector);
}

/// A Zi[10,32) candidate for keystream position `idx`: its low 10 bits are
/// clear and some Zi[2,16) value completes it.
pub open spec fn valid_zi_10_32(t: &Tables, ks: Seq<u8>, idx: int, z: u32) -> bool {
    &&& z & 0x3ffu32 == 0
    &&& zi_2_16_bucket(ks[idx] as int, ((z & 0xffffu32) >> 10u32) as int).len() > 0
}

/// Bit `i` of a bit set stored in 64-bit words.
pub open spec fn bit_at(v: Seq<u64>, i: int) -> bool {
    ((v[i / 64] >> ((i % 64) as u64)) & 1u64) == 1u64
}

proof fn lemma_bit_word(w: u64, a: u64, b: u64)
    requires
        a < 64,
        b < 64,
    ensures
        ((((w | (1u64 << a)) >> b) & 1u64) == 1u64) == (a == b || ((w >> b) & 1u64) == 1u64),
        ((w & (1u64 << a)) != 0) == (((w >> a) & 1u64) == 1u64),
        ((0u64 >> b) & 1u64) == 0u64,
{
    assert(a < 64 && b < 64 ==> ((((w | (1u64 << a)) >> b) & 1u64) == 1u64) == (a == b || ((w >> b)
        & 1u64) == 1u64) && ((w & (1u64 << a)) != 0) == (((w >> a) & 1u64) == 1u64) && ((0u64 >> b)
        & 1u64) == 0u64) by (bit_vector);
}

proof fn lemma_word_index(i: u32)
    ensures
        i >> 6u32 == i / 64,
        i & 63u32 == i % 64,
{
    assert(i >> 6u32 == i / 64 && i & 63u32 == i % 64) by (bit_vector);
}

fn bset(v: &mut Vec<u64>, i: u32)
    requires
        (i as int) / 64 < old(v)@.len(),
    ensures
        final(v)@.len() == old(v)@.len(),
        forall|j: int|
            #![trigger bit_at(final(v)@, j)]
            0 <= j < old(v)@.len() * 64 ==> bit_at(final(v)@, j) == (j == i || bit_at(old(v)@, j)),
{
    proof {
        lemma_word_index(i);
    }
    let w = (i >> 6) as usize;
    let bit = (i & 63) as u64;
    let nw = v[w] | (1u64 << bit);
    let ghost ov = v@;
    v.set(w, nw);
    proof {
        assert forall|j: int|
            #![trigger bit_at(v@, j)]
            0 <= j < ov.len() * 64 implies bit_at(v@, j) == (j == i || bit_at(ov, j)) by {
            if j / 64 == w as int {
                lemma_bit_word(ov[w as int], bit, (j % 64) as u64);
                assert((j == i) == (j % 64 == i % 64));
            } else {
                assert(j != i);
            }
        }
    }
}

fn bget(v: &Vec<u64>, i: u32) -> (r: bool)
    requires
        (i as int) / 64 < v@.len(),
    ensures
        r == bit_at(v@, i as int),
{
    proof {
        lemma_word_index(i);
        lemma_bit_word(v@[(i / 64) as int], (i % 64) as u64, 0);
    }
    v[(i >> 6) as usize] & (1u64 << ((i & 63) as u64)) != 0
}

proof fn lemma_no_dup_bound(g: Seq<int>, n: int)
    requires
        0 <= n,
        g.no_duplicates(),
        forall|j: int| 0 <= j < g.len() ==> 0 <= #[trigger] g[j] < n,
    ensures
        g.len() <= n,
{
    g.unique_seq_to_set();
    lemma_int_range(0, n);
    assert(g.to_set().subset_of(set_int_range(0, n)));
    vstd::set_lib::lemma_len_subset(g.to_set(), set_int_range(0, n));
}

/// The initial Zi[10,32) candidates: every value whose block has some
/// completion for the last keystream byte.
fn zreduction_init(t: &Tables, keystream: &Vec<u8>) -> (r: (Vec<u32>, usize))
    requires
        t.wf(),
        keystream@.len() >= 1,
    ensures
        r.1 == keystream@.len() - 1,
        forall|j: int| 0 <= j < r.0@.len() ==> valid_zi_10_32(t, keystream@, r.1 as int, #[trigger] r.0@[j]),
        r.0@.to_set() == zinit_set(keystream@),
{
    let index = keystream.len() - 1;
    let mut zi_vector: Vec<u32> = Vec::new();
    let mut s: u32 = 0;
    assert(zi_vector@.to_set() =~= zinit_below(keystream@, 0));
    while s < 0x40_0000
        invariant
            index == keystream@.len() - 1,
            t.wf(),
            s <= 0x40_0000,
            forall|j: int|
                0 <= j < zi_vector@.len() ==> valid_zi_10_32(t, keystream@, index as int, #[trigger] zi_vector@[j]),
            zi_vector@.to_set() == zinit_below(keystream@, s as int),
        decreases 0x40_0000 - s,
    {
        let cand = s << 10;
        proof {
            assert(cand & 0x3ffu32 == 0 && cand >> 10u32 == s) by (bit_vector)
                requires
                    cand == s << 10u32,
                    s < 0x40_0000,
            ;
        }
        let ghost before = zi_vector@;
        if has_zi_2_16(t, keystream[index], cand) {
            zi_vector.push(cand);
        }
        proof {
            let lhs = zi_vector@.to_set();
            let rhs = zinit_below(keystream@, s + 1);
            assert forall|z: u32| #[trigger] lhs.contains(z) == rhs.contains(z) by {
                if z & 0x3ffu32 == 0 && z >> 10u32 == s {
                    lemma_low10_eq(z, cand);
                }
                if zi_vector@.contains(z) {
                    let q = choose|q: int| 0 <= q < zi_vector@.len() && zi_vector@[q] == z;
                    if q < before.len() {
                        assert(before[q] == z);
                        assert(before.to_set().contains(z));
                    }
                }
                if before.to_set().contains(z) {
                    let q = choose|q: int| 0 <= q < before.len() && before[q] == z;
                    assert(zi_vector@[q] == z);
                }
                if z == cand && zi_vector@.len() > before.len() {
                    assert(zi_vector@[before.len() as int] == z);
                }
            }
            assert(lhs =~= rhs);
        }
        s += 1;
    }
    proof {
        assert forall|z: u32| #[trigger] zinit_below(keystream@, 0x40_0000).contains(z) == zinit_set(keystream@).contains(z) by {
            assert(z >> 10u32 < 0x40_0000) by (bit_vector);
        }
        assert(zinit_below(keystream@, 0x40_0000) =~= zinit_set(keystream@));
    }
    (zi_vector, index)
}

/// The Zi[10,32) candidates for the last keystream position: every value
/// with its low 10 bits clear whose block has a completion there.
pub open spec fn zinit_set(ks: Seq<u8>) -> Set<u32> {
    Set::new(|z: u32| z & 0x3ffu32 == 0 && zbk(ks, ks.len() - 1, z).len() > 0)
}

/// The candidates of `zinit_set` whose block number is below `s`.
pub open spec fn zinit_below(ks: Seq<u8>, s: int) -> Set<u32> {
    Set::new(|z: u32| z & 0x3ffu32 == 0 && (z >> 10u32) < s && zbk(ks, ks.len() - 1, z).len() > 0)
}


/// The block numbers (bits [10,32)) of a list of Zi[10,32) values.
pub open spec fn block_keys(v: Seq<u32>) -> Seq<int> {
    v.map_values(|e: u32| (e >> 10u32) as int)
}

/// Every value of the list is a candidate for keystream position `idx`.
pub open spec fn all_valid(t: &Tables, ks: Seq<u8>, idx: int, v: Seq<u32>) -> bool {
    forall|j: int| 0 <= j < v.len() ==> valid_zi_10_32(t, ks, idx, #[trigger] v[j])
}

proof fn lemma_mask10(x: u32)
    ensures
        (x & 0xffff_fc00u32) & 0x3ffu32 == 0,
        (x >> 10u32) < 0x40_0000,
{
    assert((x & 0xffff_fc00u32) & 0x3ffu32 == 0 && (x >> 10u32) < 0x40_0000) by (bit_vector);
}


/// The keystream bucket of the Zi[10,32) value `z` at position `i`: the
/// Zi[2,16) completions whose keystream byte is `ks[i]`.
pub open spec fn zbk(ks: Seq<u8>, i: int, z: u32) -> Seq<u32> {
    zi_2_16_bucket(ks[i] as int, ((z & 0xffffu32) >> 10u32) as int)
}

/// Zi-1[10,32) from a completed Zi[2,32).
pub open spec fn zprev(z: u32) -> u32 {
    crc32inv_spec(z, 0) & mask_spec(10, 32)
}

/// The Zi-1[10,32) values that the first entries of `v` (entries before
/// `a`, and the first `b` completions of entry `a`) give at position `i`,
/// those without a completion at `i - 1` left out.
pub open spec fn zpartial(ks: Seq<u8>, v: Seq<u32>, i: int, a: int, b: int) -> Set<u32> {
    Set::new(
        |w: u32|
            exists|a2: int, b2: int|
                0 <= a2 < v.len() && 0 <= b2 < zbk(ks, i, v[a2]).len() && (a2 < a || (a2 == a && b2 < b))
                    && w == #[trigger] zprev(v[a2] | zbk(ks, i, v[a2])[b2]) && zbk(ks, i - 1, w).len() > 0,
    )
}

/// One reduction step: the Zi-1[10,32) values that some candidate of `s`
/// at position `i` leads to, and that have a completion at `i - 1`.
pub open spec fn zstep(ks: Seq<u8>, s: Set<u32>, i: int) -> Set<u32> {
    Set::new(
        |w: u32|
            exists|z: u32, b: int|
                s.contains(z) && 0 <= b < zbk(ks, i, z).len() && w == #[trigger] zprev(z | zbk(ks, i, z)[b])
                    && zbk(ks, i - 1, w).len() > 0,
    )
}

/// The candidates at position `to` that the candidates `s` at position
/// `from` lead to, one reduction step after the other.
pub open spec fn zreach(ks: Seq<u8>, s: Set<u32>, from: int, to: int) -> Set<u32>
    decreases from - to,
{
    if to >= from {
        s
    } else {
        zstep(ks, zreach(ks, s, from, to + 1), to + 1)
    }
}

proof fn lemma_z_slot(z: u32)
    ensures
        ((z & 0xffff_fc00u32) & 0xffffu32) >> 10u32 == (z & 0xffffu32) >> 10u32,
        (z & 0x3fcu32) >> 2u32 < 256,
        ((((z & 0xffffu32) >> 10u32) * 1024 + 4 * ((z & 0x3fcu32) >> 2u32)) as u32) == z & 0xfffcu32,
        (z & 0xfffcu32) & 0xfffcu32 == z & 0xfffcu32,
        (z & 0xffff_fc00u32) | (z & 0xfffcu32) == z & 0xffff_fffcu32,
        (z & 0xffff_fffcu32) & 0xffff_fffcu32 == z & 0xffff_fffcu32,
        (z & 0xffff_fc00u32) & 0x3ffu32 == 0,
{
    assert(((z & 0xffff_fc00u32) & 0xffffu32) >> 10u32 == (z & 0xffffu32) >> 10u32 && (z & 0x3fcu32) >> 2u32 < 256
        && ((((z & 0xffffu32) >> 10u32) * 1024 + 4 * ((z & 0x3fcu32) >> 2u32)) as u32) == z & 0xfffcu32 && (z
        & 0xfffcu32) & 0xfffcu32 == z & 0xfffcu32 && (z & 0xffff_fc00u32) | (z & 0xfffcu32) == z & 0xffff_fffcu32
        && (z & 0xffff_fffcu32) & 0xffff_fffcu32 == z & 0xffff_fffcu32 && (z & 0xffff_fc00u32) & 0x3ffu32 == 0)
        by (bit_vector);
}

/// The Zi[2,16) bucket of a keystream byte holds bits [2,16) of every Z
/// value that gives that byte.
proof fn lemma_bucket_holds(k: u8, z: u32)
    requires
        keystream_spec(z) == k,
    ensures
        zi_2_16_bucket(k as int, ((z & 0xffffu32) >> 10u32) as int).contains(z & 0xfffcu32),
{
    lemma_z_slot(z);
    let slot = ((z & 0xffffu32) >> 10u32) as int;
    let j0 = ((z & 0x3fcu32) >> 2u32) as int;
    let base = Seq::new(256nat, |j: int| (slot * 1024 + 4 * j) as u32);
    assert(base[j0] == z & 0xfffcu32);
    assert(keystream_spec(z & 0xfffcu32) == keystream_spec(z));
    let pred = |w: u32| keystream_spec(w) as int == k as int;
    base.lemma_filter_contains(pred, j0);
    assert(zi_2_16_bucket(k as int, slot) == base.filter(pred));
}

/// One reduction step keeps bits [10,32) of the Z value before a kept one.
proof fn lemma_zstep_keeps(ks: Seq<u8>, s: Set<u32>, i: int, zi: u32, zim1: u32, b: u8)
    requires
        1 <= i < ks.len(),
        keystream_spec(zi) == ks[i],
        keystream_spec(zim1) == ks[i - 1],
        zim1 == crc32inv_spec(zi, b),
        s.contains(zi & 0xffff_fc00u32),
    ensures
        zstep(ks, s, i).contains(zim1 & 0xffff_fc00u32),
{
    let z10 = zi & 0xffff_fc00u32;
    lemma_z_slot(zi);
    lemma_z_slot(zim1);
    lemma_masks();
    lemma_bucket_holds(ks[i], zi);
    lemma_bucket_holds(ks[i - 1], zim1);
    let bk = zbk(ks, i, z10);
    assert(bk.contains(zi & 0xfffcu32));
    let q = choose|q: int| 0 <= q < bk.len() && bk[q] == zi & 0xfffcu32;
    lemma_crc32inv_high(zi & 0xffff_fffcu32, zi);
    let e = crc_inv_entry(zi >> 24u32);
    let bb = b as u32;
    assert(((zi << 8u32) ^ e ^ 0u32) & 0xffff_fc00u32 == ((zi << 8u32) ^ e ^ bb) & 0xffff_fc00u32) by (bit_vector)
        requires
            bb < 256,
    ;
    let w = zprev(z10 | bk[q]);
    assert(w == zim1 & 0xffff_fc00u32);
    assert(zbk(ks, i - 1, w).contains(zim1 & 0xfffcu32));
    assert(zstep(ks, s, i).contains(w));
}

/// `z[j - 1]` is the CRC step back from `z[j]` over some byte, as the Z key
/// of ZipCrypto goes back one byte.
pub open spec fn z_linked(z: Seq<u32>, j: int) -> bool {
    exists|b: u8| z[j - 1] == #[trigger] crc32inv_spec(z[j], b)
}

/// The reduction keeps every chain of Z values that the keystream allows:
/// where each `z[j]` gives keystream byte `ks[j]` on `[to, from]`, each
/// `z[j - 1]` is the CRC step back from `z[j]` over some byte, and bits
/// [10,32) of `z[from]` are among the candidates, bits [10,32) of `z[to]`
/// are among those reached at `to`.
pub proof fn lemma_zreach_keeps_chain(ks: Seq<u8>, s: Set<u32>, z: Seq<u32>, from: int, to: int)
    requires
        0 <= to <= from < ks.len(),
        z.len() == ks.len(),
        forall|j: int| to <= j <= from ==> keystream_spec(#[trigger] z[j]) == ks[j],
        forall|j: int| to < j <= from ==> #[trigger] z_linked(z, j),
        s.contains(z[from] & 0xffff_fc00u32),
    ensures
        zreach(ks, s, from, to).contains(z[to] & 0xffff_fc00u32),
    decreases from - to,
{
    if to < from {
        lemma_zreach_keeps_chain(ks, s, z, from, to + 1);
        assert(keystream_spec(z[to + 1]) == ks[to + 1]);
        assert(keystream_spec(z[to]) == ks[to]);
        let zz = z[to + 1];
        assert(z_linked(z, to + 1));
        let b = choose|b: u8| z[to + 1 - 1] == #[trigger] crc32inv_spec(z[to + 1], b);
        lemma_zstep_keeps(ks, zreach(ks, s, from, to + 1), to + 1, zz, z[to], b);
    }
}

/// The candidates the reduction starts from hold bits [10,32) of every Z
/// value that gives the last keystream byte; so, with
/// `lemma_zreach_keeps_chain`, every chain of Z values that the keystream
/// allows reaches each position.
pub proof fn lemma_reduction_keeps_chain(ks: Seq<u8>, z: Seq<u32>, to: int)
    requires
        0 <= to < ks.len(),
        z.len() == ks.len(),
        forall|j: int| to <= j < ks.len() ==> keystream_spec(#[trigger] z[j]) == ks[j],
        forall|j: int| to < j < ks.len() ==> #[trigger] z_linked(z, j),
    ensures
        zreach(ks, zinit_set(ks), ks.len() - 1, to).contains(z[to] & 0xffff_fc00u32),
{
    let last = ks.len() - 1;
    let zl = z[last];
    assert(keystream_spec(zl) == ks[last]);
    lemma_z_slot(zl);
    lemma_bucket_holds(ks[last], zl);
    assert(zbk(ks, last, zl & 0xffff_fc00u32).contains(zl & 0xfffcu32));
    assert(zinit_set(ks).contains(zl & 0xffff_fc00u32));
    lemma_zreach_keeps_chain(ks, zinit_set(ks), z, last, to);
}

proof fn lemma_zpartial_full(ks: Seq<u8>, v: Seq<u32>, i: int)
    ensures
        zpartial(ks, v, i, v.len() as int, 0) == zstep(ks, v.to_set(), i),
{
    assert forall|w: u32| #[trigger] zpartial(ks, v, i, v.len() as int, 0).contains(w) == zstep(ks, v.to_set(), i).contains(w) by {
        if zpartial(ks, v, i, v.len() as int, 0).contains(w) {
            let (a2, b2) = choose|a2: int, b2: int|
                0 <= a2 < v.len() && 0 <= b2 < zbk(ks, i, v[a2]).len() && (a2 < v.len() || (a2 == v.len() && b2 < 0))
                    && w == #[trigger] zprev(v[a2] | zbk(ks, i, v[a2])[b2]) && zbk(ks, i - 1, w).len() > 0;
            assert(v.to_set().contains(v[a2]));
            assert(zstep(ks, v.to_set(), i).contains(w));
        }
        if zstep(ks, v.to_set(), i).contains(w) {
            let (z, b) = choose|z: u32, b: int|
                v.to_set().contains(z) && 0 <= b < zbk(ks, i, z).len() && w == #[trigger] zprev(z | zbk(ks, i, z)[b])
                    && zbk(ks, i - 1, w).len() > 0;
            assert(v.contains(z));
            let a2 = choose|a2: int| 0 <= a2 < v.len() && v[a2] == z;
            assert(zpartial(ks, v, i, v.len() as int, 0).contains(w));
        }
    }
    assert(zpartial(ks, v, i, v.len() as int, 0) =~= zstep(ks, v.to_set(), i));
}

proof fn lemma_zpartial_next_a(ks: Seq<u8>, v: Seq<u32>, i: int, a: int)
    requires
        0 <= a < v.len(),
    ensures
        zpartial(ks, v, i, a, zbk(ks, i, v[a]).len() as int) == zpartial(ks, v, i, a + 1, 0),
{
    assert(zpartial(ks, v, i, a, zbk(ks, i, v[a]).len() as int) =~= zpartial(ks, v, i, a + 1, 0));
}

proof fn lemma_zpartial_next_b(ks: Seq<u8>, v: Seq<u32>, i: int, a: int, b: int)
    requires
        0 <= a < v.len(),
        0 <= b < zbk(ks, i, v[a]).len(),
    ensures
        zpartial(ks, v, i, a, b + 1) == if zbk(ks, i - 1, zprev(v[a] | zbk(ks, i, v[a])[b])).len() > 0 {
            zpartial(ks, v, i, a, b).insert(zprev(v[a] | zbk(ks, i, v[a])[b]))
        } else {
            zpartial(ks, v, i, a, b)
        },
{
    let w0 = zprev(v[a] | zbk(ks, i, v[a])[b]);
    let lhs = zpartial(ks, v, i, a, b + 1);
    let rhs = if zbk(ks, i - 1, w0).len() > 0 {
        zpartial(ks, v, i, a, b).insert(w0)
    } else {
        zpartial(ks, v, i, a, b)
    };
    assert forall|w: u32| #[trigger] lhs.contains(w) == rhs.contains(w) by {
        if lhs.contains(w) {
            let (a2, b2) = choose|a2: int, b2: int|
                0 <= a2 < v.len() && 0 <= b2 < zbk(ks, i, v[a2]).len() && (a2 < a || (a2 == a && b2 < b + 1))
                    && w == #[trigger] zprev(v[a2] | zbk(ks, i, v[a2])[b2]) && zbk(ks, i - 1, w).len() > 0;
            if !(a2 == a && b2 == b) {
                assert(zpartial(ks, v, i, a, b).contains(w));
            }
        }
        if rhs.contains(w) && w != w0 {
            assert(zpartial(ks, v, i, a, b).contains(w));
            let (a2, b2) = choose|a2: int, b2: int|
                0 <= a2 < v.len() && 0 <= b2 < zbk(ks, i, v[a2]).len() && (a2 < a || (a2 == a && b2 < b))
                    && w == #[trigger] zprev(v[a2] | zbk(ks, i, v[a2])[b2]) && zbk(ks, i - 1, w).len() > 0;
            assert(lhs.contains(w));
        }
        if rhs.contains(w) && w == w0 {
            if zbk(ks, i - 1, w0).len() > 0 {
                assert(lhs.contains(w));
            } else {
                assert(zpartial(ks, v, i, a, b).contains(w));
                let (a2, b2) = choose|a2: int, b2: int|
                    0 <= a2 < v.len() && 0 <= b2 < zbk(ks, i, v[a2]).len() && (a2 < a || (a2 == a && b2 < b))
                        && w == #[trigger] zprev(v[a2] | zbk(ks, i, v[a2])[b2]) && zbk(ks, i - 1, w).len() > 0;
                assert(lhs.contains(w));
            }
        }
    }
    assert(lhs =~= rhs);
}

proof fn lemma_low10_eq(a: u32, b: u32)
    requires
        a & 0x3ffu32 == 0,
        b & 0x3ffu32 == 0,
        a >> 10u32 == b >> 10u32,
    ensures
        a == b,
{
    assert(a == b) by (bit_vector)
        requires
            a & 0x3ffu32 == 0,
            b & 0x3ffu32 == 0,
            a >> 10u32 == b >> 10u32,
    ;
}

/// Reason an attack did not yield keys.
#[derive(Clone, Copy, Debug, PartialEq, Eq, Structural)]
pub enum AttackError {
    /// The provided data cannot be used for an attack.
    Data(DataError),
    /// The attack completed but found no keys.
    NoSolution,
    /// The operation was cancelled.
    Cancelled,
}

/// Reduce the Zi[10,32) candidates using the contiguous keystream, going
/// backward from the last keystream byte and keeping the smallest
/// intermediate set. `on_progress` receives per-mille values in 0..=500.
fn zreduction_reduce<P: Fn(u32), C: Fn() -> bool>(
    t: &Tables,
    keystream: &Vec<u8>,
    zi_vector: &mut Vec<u32>,
    index: &mut usize,
    on_progress: &P,
    is_cancelled: &C,
) -> (r: Result<(), AttackError>)
    requires
        t.wf(),
        keystream@.len() >= ATTACK_SIZE,
        *old(index) == keystream@.len() - 1,
        all_valid(t, keystream@, *old(index) as int, old(zi_vector)@),
        forall|x: u32| on_progress.requires((x,)),
        is_cancelled.requires(()),
    ensures
        r is Ok ==> {
            &&& CONTIGUOUS_SIZE - 1 <= *final(index) < keystream@.len()
            &&& all_valid(t, keystream@, *final(index) as int, final(zi_vector)@)
        },
        r is Err ==> r == Err::<(), AttackError>(AttackError::Cancelled),
        r is Err ==> is_cancelled.ensures((), true) && *final(index) == *old(index),
        r is Err ==> exists|j: int|
            CONTIGUOUS_SIZE <= j <= *old(index) && #[trigger] final(zi_vector)@.to_set() == zreach(
                keystream@,
                old(zi_vector)@.to_set(),
                *old(index) as int,
                j,
            ),
        r is Ok ==> *final(index) < *old(index) && final(zi_vector)@.to_set() == zreach(
            keystream@,
            old(zi_vector)@.to_set(),
            *old(index) as int,
            *final(index) as int,
        ),
{
    let ghost s0 = zi_vector@.to_set();
    let track_size_threshold: usize = 65536;
    let wait_size_threshold: usize = 256;

    let mut tracking = false;
    let mut best_copy: Vec<u32> = Vec::new();
    let mut best_index: usize = *index;
    let mut best_size: usize = track_size_threshold;

    let mut waiting = false;
    let mut wait: usize = 0;

    let mut zim1_10_32_vector: Vec<u32> = Vec::new();
    let mut zim1_10_32_set: Vec<u64> = Vec::new();
    let mut w: usize = 0;
    while w < 65536
        invariant
            w <= 65536,
            zim1_10_32_set@.len() == w,
        decreases 65536 - w,
    {
        zim1_10_32_set.push(0);
        w += 1;
    }

    let index0 = *index;
    let total = keystream.len() - CONTIGUOUS_SIZE;
    let mut done: usize = 0;

    let mut i = *index;
    while i >= CONTIGUOUS_SIZE
        invariant_except_break
            CONTIGUOUS_SIZE - 1 <= i <= index0,
            done == index0 - i,
            all_valid(t, keystream@, i as int, zi_vector@),
            tracking ==> i <= best_index,
            tracking && best_index > i ==> all_valid(t, keystream@, best_index as int, best_copy@),
            zi_vector@.to_set() == zreach(keystream@, s0, index0 as int, i as int),
            tracking && best_index > i ==> best_copy@.to_set() == zreach(
                keystream@,
                s0,
                index0 as int,
                best_index as int,
            ),
            waiting ==> tracking && best_index > i,
        invariant
            t.wf(),
            index0 == keystream@.len() - 1,
            keystream@.len() >= ATTACK_SIZE,
            total == keystream@.len() - CONTIGUOUS_SIZE,
            zim1_10_32_set@.len() == 65536,
            best_size <= 65536,
            tracking ==> CONTIGUOUS_SIZE - 1 <= best_index < keystream@.len(),
            tracking ==> best_index < index0,
            s0 == old(zi_vector)@.to_set(),
            index0 == *old(index),
            forall|x: u32| on_progress.requires((x,)),
            is_cancelled.requires(()),
        ensures
            tracking && best_index != CONTIGUOUS_SIZE - 1 ==> all_valid(
                t,
                keystream@,
                best_index as int,
                best_copy@,
            ),
            tracking && best_index == CONTIGUOUS_SIZE - 1 ==> all_valid(
                t,
                keystream@,
                best_index as int,
                zi_vector@,
            ),
            !tracking ==> all_valid(t, keystream@, CONTIGUOUS_SIZE - 1, zi_vector@),
            tracking && best_index != CONTIGUOUS_SIZE - 1 ==> best_copy@.to_set() == zreach(
                keystream@,
                s0,
                index0 as int,
                best_index as int,
            ),
            tracking && best_index == CONTIGUOUS_SIZE - 1 ==> zi_vector@.to_set() == zreach(
                keystream@,
                s0,
                index0 as int,
                best_index as int,
            ),
            !tracking ==> zi_vector@.to_set() == zreach(keystream@, s0, index0 as int, CONTIGUOUS_SIZE - 1),
        decreases i,
    {
        if is_cancelled() {
            assert(zi_vector@.to_set() == zreach(keystream@, s0, index0 as int, i as int));
            return Err(AttackError::Cancelled);
        }
        zim1_10_32_vector.clear();
        let mut w: usize = 0;
        while w < 65536
            invariant
                w <= 65536,
                zim1_10_32_set@.len() == 65536,
                forall|j: int| 0 <= j < w * 64 ==> !#[trigger] bit_at(zim1_10_32_set@, j),
            decreases 65536 - w,
        {
            let ghost oldset = zim1_10_32_set@;
            zim1_10_32_set.set(w, 0);
            proof {
                assert forall|j: int| 0 <= j < (w + 1) * 64 implies !#[trigger] bit_at(
                    zim1_10_32_set@,
                    j,
                ) by {
                    if j / 64 == w as int {
                        lemma_bit_word(0, 0, (j % 64) as u64);
                    } else {
                        assert(!bit_at(oldset, j));
                    }
                }
            }
            w += 1;
        }
        let mut number_of_zim1_2_32: usize = 0;

        let ks_i = keystream[i];
        let ks_im1 = keystream[i - 1];
        let ghost zv = zi_vector@;
        proof {
            assert(zim1_10_32_vector@.to_set() =~= zpartial(keystream@, zv, i as int, 0, 0));
        }
        let mut a: usize = 0;
        while a < zi_vector.len()
            invariant
                zi_vector@ == zv,
                a <= zv.len(),
                zim1_10_32_vector@.to_set() == zpartial(keystream@, zv, i as int, a as int, 0),
                t.wf(),
                CONTIGUOUS_SIZE <= i < keystream@.len(),
                ks_i == keystream@[i as int],
                ks_im1 == keystream@[i - 1],
                zim1_10_32_set@.len() == 65536,
                all_valid(t, keystream@, (i - 1) as int, zim1_10_32_vector@),
                block_keys(zim1_10_32_vector@).no_duplicates(),
                forall|j: int|
                    0 <= j < 0x40_0000 ==> #[trigger] bit_at(zim1_10_32_set@, j) == block_keys(
                        zim1_10_32_vector@,
                    ).contains(j),
                number_of_zim1_2_32 <= 256 * zim1_10_32_vector@.len(),
                zim1_10_32_vector@.len() <= 0x40_0000,
            decreases zi_vector@.len() - a,
        {
            let zi_10_32 = zi_vector[a];
            let bucket = get_zi_2_16(t, ks_i, zi_10_32);
            let mut b: usize = 0;
            while b < bucket.len()
                invariant
                    zi_vector@ == zv,
                    a < zv.len(),
                    zi_10_32 == zv[a as int],
                    bucket@ == zbk(keystream@, i as int, zi_10_32),
                    zim1_10_32_vector@.to_set() == zpartial(keystream@, zv, i as int, a as int, b as int),
                    t.wf(),
                    CONTIGUOUS_SIZE <= i < keystream@.len(),
                    ks_im1 == keystream@[i - 1],
                    zim1_10_32_set@.len() == 65536,
                    all_valid(t, keystream@, (i - 1) as int, zim1_10_32_vector@),
                    block_keys(zim1_10_32_vector@).no_duplicates(),
                    forall|j: int|
                        0 <= j < 0x40_0000 ==> #[trigger] bit_at(zim1_10_32_set@, j)
                            == block_keys(zim1_10_32_vector@).contains(j),
                    number_of_zim1_2_32 <= 256 * zim1_10_32_vector@.len(),
                    zim1_10_32_vector@.len() <= 0x40_0000,
                decreases bucket@.len() - b,
            {
                let zim1_10_32 = get_zim1_10_32(t, zi_10_32 | bucket[b]);
                proof {
                    lemma_masks();
                    lemma_mask10(crc32inv_spec(zi_10_32 | bucket@[b as int], 0));
                    lemma_mask10(zim1_10_32);
                }
                let key = zim1_10_32 >> 10;
                proof {
                    lemma_zpartial_next_b(keystream@, zv, i as int, a as int, b as int);
                    assert(zim1_10_32 == zprev(zi_10_32 | bucket@[b as int]));
                }
                let in_set = bget(&zim1_10_32_set, key);
                proof {
                    if in_set {
                        let bk = block_keys(zim1_10_32_vector@);
                        assert(bk.contains(key as int));
                        let q = choose|q: int| 0 <= q < bk.len() && bk[q] == key as int;
                        let e = zim1_10_32_vector@[q];
                        assert(valid_zi_10_32(t, keystream@, (i - 1) as int, e));
                        lemma_low10_eq(e, zim1_10_32);
                        assert(zim1_10_32_vector@.to_set().contains(zim1_10_32));
                        assert(zim1_10_32_vector@.to_set().insert(zim1_10_32) =~= zim1_10_32_vector@.to_set());
                    }
                }
                if !in_set && has_zi_2_16(t, ks_im1, zim1_10_32) {
                    let ghost old_vec = zim1_10_32_vector@;
                    proof {
                        assert(!block_keys(old_vec).contains(key as int));
                        let g2 = block_keys(old_vec).push(key as int);
                        assert forall|j: int| 0 <= j < g2.len() implies 0 <= #[trigger] g2[j] < 0x40_0000 by {
                            if j < old_vec.len() {
                                lemma_mask10(old_vec[j]);
                            }
                        }
                        assert(g2.no_duplicates()) by {
                            assert forall|x: int, y: int|
                                0 <= x < g2.len() && 0 <= y < g2.len() && x != y implies g2[x] != g2[y] by {
                                if x == old_vec.len() as int {
                                    assert(block_keys(old_vec).contains(g2[y]));
                                } else if y == old_vec.len() as int {
                                    assert(block_keys(old_vec).contains(g2[x]));
                                }
                            }
                        }
                        lemma_no_dup_bound(g2, 0x40_0000);
                    }
                    let ghost before_push = zim1_10_32_vector@;
                    zim1_10_32_vector.push(zim1_10_32);
                    proof {
                        assert(zim1_10_32_vector@.to_set() =~= before_push.to_set().insert(zim1_10_32)) by {
                            assert forall|w: u32| #[trigger] zim1_10_32_vector@.to_set().contains(w) == before_push.to_set().insert(
                                zim1_10_32,
                            ).contains(w) by {
                                if zim1_10_32_vector@.contains(w) {
                                    let q = choose|q: int| 0 <= q < zim1_10_32_vector@.len() && zim1_10_32_vector@[q] == w;
                                    if q < before_push.len() {
                                        assert(before_push[q] == w);
                                    }
                                }
                                if before_push.contains(w) {
                                    let q = choose|q: int| 0 <= q < before_push.len() && before_push[q] == w;
                                    assert(zim1_10_32_vector@[q] == w);
                                }
                                if w == zim1_10_32 {
                                    assert(zim1_10_32_vector@[before_push.len() as int] == w);
                                }
                            }
                        }
                    }
                    let ghost oldset = zim1_10_32_set@;
                    bset(&mut zim1_10_32_set, key);
                    let more = get_zi_2_16(t, ks_im1, zim1_10_32).len();
                    proof {
                        lemma_keystream_index(zim1_10_32);
                        lemma_bucket_elems(ks_im1 as int, ((zim1_10_32 & 0xffffu32) >> 10u32) as int);
                        let bk_old = block_keys(old_vec);
                        let bk_new = block_keys(zim1_10_32_vector@);
                        assert(bk_new =~= bk_old.push(key as int));
                        assert forall|j: int| 0 <= j < 0x40_0000 implies #[trigger] bit_at(
                            zim1_10_32_set@,
                            j,
                        ) == bk_new.contains(j) by {
                            assert(bit_at(oldset, j) == bk_old.contains(j));
                            if j == key as int {
                                assert(bk_new[old_vec.len() as int] == j);
                            } else {
                                if bk_new.contains(j) {
                                    let q = choose|q: int| 0 <= q < bk_new.len() && bk_new[q] == j;
                                    assert(bk_old[q] == j);
                                }
                                if bk_old.contains(j) {
                                    let q = choose|q: int| 0 <= q < bk_old.len() && bk_old[q] == j;
                                    assert(bk_new[q] == j);
                                }
                            }
                        }
                        assert forall|j: int| 0 <= j < zim1_10_32_vector@.len() implies valid_zi_10_32(
                            t,
                            keystream@,
                            (i - 1) as int,
                            #[trigger] zim1_10_32_vector@[j],
                        ) by {
                            if j < old_vec.len() {
                                assert(zim1_10_32_vector@[j] == old_vec[j]);
                            }
                        }
                    }
                    number_of_zim1_2_32 += more;
                }
                b += 1;
            }
            proof {
                lemma_zpartial_next_a(keystream@, zv, i as int, a as int);
            }
            a += 1;
        }
        proof {
            lemma_zpartial_full(keystream@, zv, i as int);
            assert(zreach(keystream@, s0, index0 as int, i - 1) == zstep(
                keystream@,
                zreach(keystream@, s0, index0 as int, i as int),
                i as int,
            ));
        }

        // Track the smallest Zi[2,32) set.
        if number_of_zim1_2_32 <= best_size {
            tracking = true;
            best_index = i - 1;
            best_size = number_of_zim1_2_32;
            waiting = false;
        } else if tracking {
            if best_index == i {
                std::mem::swap(&mut best_copy, zi_vector);
                if best_size <= wait_size_threshold {
                    waiting = true;
                    wait = best_size * 4;
                }
            }
            if waiting {
                wait = wait.wrapping_sub(1);
                if wait == 0 {
                    break;
                }
            }
        }
        std::mem::swap(zi_vector, &mut zim1_10_32_vector);

        done += 1;
        let denom: u64 = if total > 0 {
            total as u64
        } else {
            1
        };
        assert(done as u64 <= denom);
        assert(500 * (done as int) / (denom as int) <= 500) by (nonlinear_arith)
            requires
                done as int <= denom as int,
                denom >= 1,
        ;
        let permille = (500u128 * (done as u128) / (denom as u128)) as u32;
        on_progress(permille);

        if i == 0 {
            break;
        }
        i -= 1;
    }

    if tracking {
        if best_index != CONTIGUOUS_SIZE - 1 {
            std::mem::swap(zi_vector, &mut best_copy);
        }
        *index = best_index;
    } else {
        *index = CONTIGUOUS_SIZE - 1;
    }
    Ok(())
}


/// Extend Zi[10,32) candidates into Zi[2,32) candidates for keystream
/// position `index`.
/// The Zi[2,32) candidates that complete the Zi[10,32) candidates `s` at
/// position `i`.
pub open spec fn zcomplete(ks: Seq<u8>, s: Set<u32>, i: int) -> Set<u32> {
    Set::new(|w: u32| exists|z: u32, b: int| s.contains(z) && 0 <= b < zbk(ks, i, z).len() && w == z | #[trigger] zbk(ks, i, z)[b])
}

/// The completions of the first `a` entries of `v`.
pub open spec fn zcomplete_prefix(ks: Seq<u8>, v: Seq<u32>, i: int, a: int) -> Set<u32> {
    Set::new(
        |w: u32|
            exists|a2: int, b: int| 0 <= a2 < a && a2 < v.len() && 0 <= b < zbk(ks, i, v[a2]).len() && w == v[a2] | #[trigger] zbk(ks, i, v[a2])[b],
    )
}

/// The entries of `v` outside `[i, n)`.
pub open spec fn outside(v: Seq<u32>, i: int, n: int) -> Set<u32> {
    Set::new(|w: u32| exists|j: int| 0 <= j < v.len() && (j < i || n <= j) && #[trigger] v[j] == w)
}

/// Extend Zi[10,32) candidates into Zi[2,32) candidates for keystream
/// position `index`.
fn zreduction_generate(t: &Tables, keystream: &Vec<u8>, zi_vector: &mut Vec<u32>, index: usize)
    requires
        t.wf(),
        index < keystream@.len(),
        all_valid(t, keystream@, index as int, old(zi_vector)@),
    ensures
        forall|j: int|
            0 <= j < final(zi_vector)@.len() ==> keystream_spec(#[trigger] final(zi_vector)@[j])
                == keystream@[index as int],
        final(zi_vector)@.to_set() == zcomplete(keystream@, old(zi_vector)@.to_set(), index as int),
{
    let ghost ov = zi_vector@;
    let ghost ksv = keystream@;
    let ghost ix = index as int;
    let n = zi_vector.len();
    let ks = keystream[index];
    let mut i: usize = 0;
    assert(outside(zi_vector@, 0, n as int) =~= zcomplete_prefix(ksv, ov, ix, 0));
    while i < n
        invariant
            t.wf(),
            index < keystream@.len(),
            ksv == keystream@,
            ix == index as int,
            ks == keystream@[index as int],
            i <= n <= zi_vector@.len(),
            n == ov.len(),
            forall|j: int| i <= j < n ==> #[trigger] zi_vector@[j] == ov[j],
            outside(zi_vector@, i as int, n as int) == zcomplete_prefix(ksv, ov, ix, i as int),
            forall|j: int|
                0 <= j < i ==> keystream_spec(#[trigger] zi_vector@[j]) == ks,
            forall|j: int|
                n <= j < zi_vector@.len() ==> keystream_spec(#[trigger] zi_vector@[j]) == ks,
            forall|j: int|
                i <= j < n ==> valid_zi_10_32(t, keystream@, index as int, #[trigger] zi_vector@[j]),
        decreases n - i,
    {
        let base = zi_vector[i];
        let v = get_zi_2_16(t, ks, base);
        proof {
            lemma_keystream_index(base);
            lemma_bucket_elems(ks as int, ((base & 0xffffu32) >> 10u32) as int);
            assert(v@ == zbk(ksv, ix, ov[i as int]));
        }
        if v.len() == 0 {
            i += 1;
            continue;
        }
        let ghost out0 = outside(zi_vector@, i as int, n as int);
        let mut k: usize = 1;
        while k < v.len()
            invariant
                t.wf(),
                1 <= k <= v@.len(),
                i < n <= zi_vector@.len(),
                n == ov.len(),
                base == zi_vector@[i as int],
                base == ov[i as int],
                base & 0x3ffu32 == 0,
                v@ == zi_2_16_bucket(ks as int, ((base & 0xffffu32) >> 10u32) as int),
                v@ == zbk(ksv, ix, ov[i as int]),
                forall|j: int| i <= j < n ==> #[trigger] zi_vector@[j] == ov[j],
                outside(zi_vector@, i as int, n as int) == out0.union(
                    Set::new(|w: u32| exists|q: int| 1 <= q < k && w == base | #[trigger] v@[q]),
                ),
                forall|q: int|
                    0 <= q < v@.len() ==> {
                        let z = #[trigger] v@[q];
                        &&& z < 65536
                        &&& z % 4 == 0
                        &&& z / 1024 == ((base & 0xffffu32) >> 10u32) as int
                        &&& keystream_spec(z) == ks
                    },
                forall|j: int|
                    0 <= j < i ==> keystream_spec(#[trigger] zi_vector@[j]) == ks,
                forall|j: int|
                    n <= j < zi_vector@.len() ==> keystream_spec(#[trigger] zi_vector@[j]) == ks,
                forall|j: int|
                    i <= j < n ==> valid_zi_10_32(t, keystream@, index as int, #[trigger] zi_vector@[j]),
            decreases v@.len() - k,
        {
            proof {
                lemma_or_low_bits(base, v@[k as int]);
            }
            let ghost before = zi_vector@;
            let w = base | v[k];
            zi_vector.push(w);
            proof {
                let lhs = outside(zi_vector@, i as int, n as int);
                let rhs = out0.union(Set::new(|w2: u32| exists|q: int| 1 <= q < k + 1 && w2 == base | #[trigger] v@[q]));
                assert forall|x: u32| #[trigger] lhs.contains(x) == rhs.contains(x) by {
                    if lhs.contains(x) {
                        let j = choose|j: int| 0 <= j < zi_vector@.len() && (j < i || n <= j) && #[trigger] zi_vector@[j] == x;
                        if j < before.len() {
                            assert(before[j] == x);
                            assert(outside(before, i as int, n as int).contains(x));
                        } else {
                            assert(x == base | v@[k as int]);
                        }
                    }
                    if outside(before, i as int, n as int).contains(x) {
                        let j = choose|j: int| 0 <= j < before.len() && (j < i || n <= j) && #[trigger] before[j] == x;
                        assert(zi_vector@[j] == x);
                    }
                    if x == w {
                        assert(zi_vector@[before.len() as int] == x);
                    }
                }
                assert(lhs =~= rhs);
            }
            k += 1;
        }
        proof {
            lemma_or_low_bits(base, v@[0]);
        }
        let ghost before = zi_vector@;
        zi_vector.set(i, base | v[0]);
        proof {
            let lhs = outside(zi_vector@, i + 1, n as int);
            let rhs = zcomplete_prefix(ksv, ov, ix, i + 1);
            assert(outside(before, i as int, n as int) == zcomplete_prefix(ksv, ov, ix, i as int).union(
                Set::new(|w: u32| exists|q: int| 1 <= q < v@.len() && w == base | #[trigger] v@[q]),
            ));
            assert forall|x: u32| #[trigger] lhs.contains(x) == rhs.contains(x) by {
                if lhs.contains(x) {
                    let j = choose|j: int| 0 <= j < zi_vector@.len() && (j < i + 1 || n <= j) && #[trigger] zi_vector@[j] == x;
                    if j == i {
                        assert(x == ov[i as int] | zbk(ksv, ix, ov[i as int])[0]);
                    } else {
                        assert(before[j] == x);
                        assert(outside(before, i as int, n as int).contains(x));
                        if zcomplete_prefix(ksv, ov, ix, i as int).contains(x) {
                            let (a2, b) = choose|a2: int, b: int| 0 <= a2 < i && a2 < ov.len() && 0 <= b < zbk(ksv, ix, ov[a2]).len() && x == ov[a2] | #[trigger] zbk(ksv, ix, ov[a2])[b];
                        } else {
                            let q = choose|q: int| 1 <= q < v@.len() && x == base | #[trigger] v@[q];
                            assert(x == ov[i as int] | zbk(ksv, ix, ov[i as int])[q]);
                        }
                    }
                }
                if rhs.contains(x) {
                    let (a2, b) = choose|a2: int, b: int| 0 <= a2 < i + 1 && a2 < ov.len() && 0 <= b < zbk(ksv, ix, ov[a2]).len() && x == ov[a2] | #[trigger] zbk(ksv, ix, ov[a2])[b];
                    if a2 < i {
                        assert(zcomplete_prefix(ksv, ov, ix, i as int).contains(x));
                        assert(outside(before, i as int, n as int).contains(x));
                        let j = choose|j: int| 0 <= j < before.len() && (j < i || n <= j) && #[trigger] before[j] == x;
                        assert(zi_vector@[j] == x);
                    } else if b == 0 {
                        assert(zi_vector@[i as int] == x);
                    } else {
                        assert(outside(before, i as int, n as int).contains(x));
                        let j = choose|j: int| 0 <= j < before.len() && (j < i || n <= j) && #[trigger] before[j] == x;
                        assert(zi_vector@[j] == x);
                    }
                }
            }
            assert(lhs =~= rhs);
        }
        i += 1;
    }
    proof {
        let lhs = zi_vector@.to_set();
        assert forall|x: u32| #[trigger] lhs.contains(x) == outside(zi_vector@, n as int, n as int).contains(x) by {
            if zi_vector@.contains(x) {
                let j = choose|j: int| 0 <= j < zi_vector@.len() && zi_vector@[j] == x;
            }
        }
        assert forall|x: u32| #[trigger] zcomplete_prefix(ksv, ov, ix, n as int).contains(x) == zcomplete(ksv, ov.to_set(), ix).contains(x) by {
            if zcomplete(ksv, ov.to_set(), ix).contains(x) {
                let (z, b) = choose|z: u32, b: int| ov.to_set().contains(z) && 0 <= b < zbk(ksv, ix, z).len() && x == z | #[trigger] zbk(ksv, ix, z)[b];
                let a2 = choose|a2: int| 0 <= a2 < ov.len() && ov[a2] == z;
                assert(zcomplete_prefix(ksv, ov, ix, n as int).contains(x));
            }
            if zcomplete_prefix(ksv, ov, ix, n as int).contains(x) {
                let (a2, b) = choose|a2: int, b: int| 0 <= a2 < n && a2 < ov.len() && 0 <= b < zbk(ksv, ix, ov[a2]).len() && x == ov[a2] | #[trigger] zbk(ksv, ix, ov[a2])[b];
                assert(ov.to_set().contains(ov[a2]));
            }
        }
        assert(lhs =~= zcomplete(ksv, ov.to_set(), ix));
    }
}

/// The state of a decipherer started at `k` before absolute position `a`,
/// after deciphering up to absolute position `b`.
pub open spec fn state_from(k: Keys, ct: Seq<u8>, a: nat, b: nat) -> Keys
    decreases b - a,
{
    if b <= a {
        k
    } else {
        let s = state_from(k, ct, a, (b - 1) as nat);
        update_spec(s, ct[b - 1] ^ keystream_spec(s.z))
    }
}

proof fn lemma_state_split(k: Keys, ct: Seq<u8>, a: nat, b: nat)
    requires
        a <= b,
    ensures
        state_at(k, ct, b) == state_from(state_at(k, ct, a), ct, a, b),
    decreases b - a,
{
    if b > a {
        lemma_state_split(k, ct, a, (b - 1) as nat);
    }
}

proof fn lemma_rewind_compose(k: Keys, ct: Seq<u8>, m: nat, a: nat)
    requires
        a <= m,
    ensures
        rewind_to(rewind_to(k, ct, m, a), ct, a, 0) == rewind_to(k, ct, m, 0),
    decreases m - a,
{
    if m > a {
        lemma_rewind_compose(update_backward_spec(k, ct[m - 1]), ct, (m - 1) as nat, a);
    }
}

/// The keys decipher the whole known plaintext at its offset.
pub open spec fn sound(k: Keys, ct: Seq<u8>, pt: Seq<u8>, off: int) -> bool {
    forall|j: int| 0 <= j < pt.len() ==> #[trigger] plain_at(k, ct, (off + j) as nat) == pt[j]
}

proof fn lemma_xor_cancel(c: u8, p: u8)
    ensures
        c ^ (p ^ c) == p,
        (p ^ c) ^ c == p,
{
    assert(c ^ (p ^ c) == p && (p ^ c) ^ c == p) by (bit_vector);
}

/// Going back over a byte from a value that agrees (in its high bytes) with a
/// recomputed X value recovers the low byte of the previous X value.
proof fn lemma_xback(xb: u32, q: u8, l: u32, bp: u32, sh: u32)
    requires
        l < 256,
        sh == 8 || sh == 16 || sh == 24,
        (bp >> sh) == (((crc32_spec(xb, q) & 0xffff_ff00u32) | l) >> sh),
    ensures
        (crc32inv_spec(bp, q) & 0xffu32) == (xb & 0xffu32),
        sh < 24 ==> (crc32inv_spec(bp, q) >> ((sh + 8) as u32)) == (xb >> ((sh + 8) as u32)),
{
    let qq = q as u32;
    let i = (xb & 0xffu32) ^ qq;
    let e = crc_entry(i);
    assert(i < 256 && (bp >> 24u32) == (e >> 24u32)) by (bit_vector)
        requires
            i == (xb & 0xffu32) ^ qq,
            qq < 256,
            l < 256,
            sh == 8 || sh == 16 || sh == 24,
            (bp >> sh) == (((((xb >> 8u32) ^ e) & 0xffff_ff00u32) | l) >> sh),
    ;
    lemma_msb_small(bp);
    lemma_crc_pre(bp >> 24u32);
    assert(crc_pre(bp >> 24u32) == i);
    assert(((((bp << 8u32) ^ ((e << 8u32) ^ i) ^ qq) & 0xffu32) == (xb & 0xffu32)) && (sh < 24 ==> (((
    bp << 8u32) ^ ((e << 8u32) ^ i) ^ qq) >> ((sh + 8) as u32)) == (xb >> ((sh + 8) as u32))))
        by (bit_vector)
        requires
            l < 256,
            qq < 256,
            i == (xb & 0xffu32) ^ qq,
            sh == 8 || sh == 16 || sh == 24,
            (bp >> sh) == (((((xb >> 8u32) ^ e) & 0xffff_ff00u32) | l) >> sh),
    ;
}

/// Fixing the two low bits of Zi from Z{i-1} makes the two agree in the way
/// the CRC relation between consecutive Z values needs.
proof fn lemma_zfix(z: u32, e: u32, w: u32)
    requires
        w < 65536,
        w % 4 == 0,
        w / 1024 == (((((z << 8u32) ^ e ^ 0u32) & 0xffff_fc00u32) & 0xffffu32) >> 10u32),
    ensures
        ({
            let zim1 = (((z << 8u32) ^ e ^ 0u32) & 0xffff_fc00u32) | w;
            let zm = z & 0xffff_fffcu32;
            let z2 = zm | ((((zm << 8u32) ^ e ^ 0u32) ^ zim1) >> 8u32);
            &&& (((z2 << 8u32) ^ e ^ 0u32) >> 8u32) == (zim1 >> 8u32)
            &&& z2 >> 24u32 == z >> 24u32
            &&& zm >> 24u32 == z >> 24u32
            &&& z2 >> 8u32 == z >> 8u32
            &&& z2 & 0xfffcu32 == z & 0xfffcu32
            &&& z2 & 0xffff_fffcu32 == zm
        }),
{
    assert(w < 65536 && w % 4 == 0 && w / 1024 == (((((z << 8u32) ^ e ^ 0u32) & 0xffff_fc00u32)
        & 0xffffu32) >> 10u32) ==> ({
        let zim1 = (((z << 8u32) ^ e ^ 0u32) & 0xffff_fc00u32) | w;
        let zm = z & 0xffff_fffcu32;
        let z2 = zm | ((((zm << 8u32) ^ e ^ 0u32) ^ zim1) >> 8u32);
        &&& (((z2 << 8u32) ^ e ^ 0u32) >> 8u32) == (zim1 >> 8u32)
        &&& z2 >> 24u32 == z >> 24u32
        &&& zm >> 24u32 == z >> 24u32
        &&& z2 >> 8u32 == z >> 8u32
        &&& z2 & 0xfffcu32 == z & 0xfffcu32
        &&& z2 & 0xffff_fffcu32 == zm
    })) by (bit_vector);
}

/// Consecutive Z values related through the inverse CRC step satisfy the
/// forward CRC relation with the Y byte derived from them.
proof fn lemma_zchain(zn: u32, zp: u32)
    requires
        (zp >> 8u32) == (crc32inv_spec(zn, 0) >> 8u32),
    ensures
        zn == crc32_spec(zp, ((((crc32inv_spec(zn, 0) ^ zp) << 24u32) >> 24u32) as u8)),
{
    let v = crc32inv_spec(zn, 0);
    lemma_crc32_after_inverse(zn, 0);
    assert(((zp & 0xffu32) ^ ((((((v ^ zp) << 24u32) >> 24u32) as u8) as u32))) == ((v & 0xffu32) ^ (
    0u8 as u32))) by (bit_vector);
}

proof fn lemma_u8_low(x: u8, y: u32, b: u32)
    requires
        b < 0x100_0000,
        b % 256 == 0,
    ensures
        ((x as u32) & 0xffu32) == x as u32,
        ((x as u32) | b | (y & 0xff00_0000u32)) >> 24u32 == y >> 24u32,
        (((y >> 24u32) as u8) as u32) == y >> 24u32,
{
    assert(b < 0x100_0000 && b % 256 == 0 ==> ((x as u32) & 0xffu32) == x as u32 && ((x as u32) | b
        | (y & 0xff00_0000u32)) >> 24u32 == y >> 24u32 && (((y >> 24u32) as u8) as u32) == y >> 24u32)
        by (bit_vector);
}

proof fn lemma_rewind_step_at(k: Keys, ct: Seq<u8>, m: nat, a: nat)
    requires
        a < m,
    ensures
        rewind_to(k, ct, m, a) == update_backward_spec(rewind_to(k, ct, m, (a + 1) as nat), ct[a as int]),
    decreases m - a,
{
    if m == a + 1 {
        reveal_with_fuel(rewind_to, 2);
    } else {
        lemma_rewind_step_at(update_backward_spec(k, ct[m - 1]), ct, (m - 1) as nat, a);
    }
}


/// Keys rewound from a state that deciphers the backward part, whose forward
/// continuation through the list states deciphers the contiguous part, and
/// whose continuation deciphers the forward part, decipher all the known
/// plaintext.
proof fn lemma_found_sound(
    ct: Seq<u8>,
    pt: Seq<u8>,
    ks: Seq<u8>,
    off: int,
    idx: int,
    s3: Keys,
    s4: Keys,
    s5: Keys,
    s6: Keys,
    s7: Keys,
    s8: Keys,
    k0: Keys,
)
    requires
        0 <= off,
        0 <= idx,
        idx + 8 <= pt.len(),
        off + pt.len() <= ct.len(),
        ks.len() == pt.len(),
        forall|j: int| 0 <= j < pt.len() ==> #[trigger] ks[j] == pt[j] ^ ct[off + j],
        k0 == rewind_to(s3, ct, (off + idx + 3) as nat, 0),
        forall|jj: int|
            0 <= jj < idx + 3 ==> ct[off + jj] ^ keystream_spec(
                #[trigger] rewind_to(s3, ct, (off + idx + 3) as nat, (off + jj) as nat).z,
            ) == pt[jj],
        forall|jj: int|
            idx + 8 <= jj < pt.len() ==> ct[off + jj] ^ keystream_spec(
                #[trigger] state_from(s8, ct, (off + idx + 8) as nat, (off + jj) as nat).z,
            ) == pt[jj],
        update_spec(s3, pt[idx + 3]) == s4,
        update_spec(s4, pt[idx + 4]) == s5,
        update_spec(s5, pt[idx + 5]) == s6,
        update_spec(s6, pt[idx + 6]) == s7,
        update_spec(s7, pt[idx + 7]) == s8,
        keystream_spec(s3.z) == ks[idx + 3],
        keystream_spec(s4.z) == ks[idx + 4],
        keystream_spec(s5.z) == ks[idx + 5],
        keystream_spec(s6.z) == ks[idx + 6],
        keystream_spec(s7.z) == ks[idx + 7],
    ensures
        sound(k0, ct, pt, off),
{
    let m = (off + idx + 3) as nat;
    let start8 = (off + idx + 8) as nat;
    reveal_with_fuel(rewind_to, 1);
    lemma_state_at_rewind(s3, ct, m, m);
    assert(state_at(k0, ct, m) == s3);
    lemma_xor_cancel(ct[off + idx + 3], pt[idx + 3]);
    lemma_xor_cancel(ct[off + idx + 4], pt[idx + 4]);
    lemma_xor_cancel(ct[off + idx + 5], pt[idx + 5]);
    lemma_xor_cancel(ct[off + idx + 6], pt[idx + 6]);
    lemma_xor_cancel(ct[off + idx + 7], pt[idx + 7]);
    assert(ks[idx + 3] == pt[idx + 3] ^ ct[off + idx + 3]);
    assert(ks[idx + 4] == pt[idx + 4] ^ ct[off + idx + 4]);
    assert(ks[idx + 5] == pt[idx + 5] ^ ct[off + idx + 5]);
    assert(ks[idx + 6] == pt[idx + 6] ^ ct[off + idx + 6]);
    assert(ks[idx + 7] == pt[idx + 7] ^ ct[off + idx + 7]);
    assert(state_at(k0, ct, m + 1) == s4);
    assert(state_at(k0, ct, m + 2) == s5);
    assert(state_at(k0, ct, m + 3) == s6);
    assert(state_at(k0, ct, m + 4) == s7);
    assert(state_at(k0, ct, m + 5) == s8);
    assert forall|jj: int| 0 <= jj < pt.len() implies #[trigger] plain_at(k0, ct, (off + jj) as nat)
        == pt[jj] by {
        if jj < idx + 3 {
            lemma_state_at_rewind(s3, ct, m, (off + jj) as nat);
        } else if jj < idx + 8 {
        } else {
            lemma_state_split(k0, ct, start8, (off + jj) as nat);
        }
    }
}

/// X at position `i + 5` from X at `i + 4`, keeping the low byte already
/// chosen for it.
pub open spec fn lists_x5(d: Data, i: int, x: Seq<u32>) -> u32 {
    (crc32_spec(x[4], d.plaintext@[i + 4]) & mask_spec(8, 32)) | (x[5] & 0xffu32)
}

pub open spec fn lists_x6(d: Data, i: int, x: Seq<u32>) -> u32 {
    (crc32_spec(lists_x5(d, i, x), d.plaintext@[i + 5]) & mask_spec(8, 32)) | (x[6] & 0xffu32)
}

pub open spec fn lists_x7(d: Data, i: int, x: Seq<u32>) -> u32 {
    (crc32_spec(lists_x6(d, i, x), d.plaintext@[i + 6]) & mask_spec(8, 32)) | (x[7] & 0xffu32)
}

/// X at position `i + 3`, by inverting the CRC from X7.
pub open spec fn lists_x3(d: Data, i: int, x: Seq<u32>) -> u32 {
    let pt = d.plaintext@;
    crc32inv_spec(
        crc32inv_spec(crc32inv_spec(crc32inv_spec(lists_x7(d, i, x), pt[i + 6]), pt[i + 5]), pt[i + 4]),
        pt[i + 3],
    )
}

/// Whether X3 agrees with the high bits of Y1 that Z0 and Z1 give.
pub open spec fn lists_x3_fits(d: Data, i: int, x: Seq<u32>, y: Seq<u32>, z: Seq<u32>) -> bool {
    let y1_26_32 = ((crc32inv_spec(z[1], 0) ^ z[0]) << 24u32) & mask_spec(26, 32);
    let a = (((y[3] - 1) as u32 * MULTINV) as u32);
    let b = ((((a - (lists_x3(d, i, x) & 0xffu32)) as u32 - 1) as u32 * MULTINV) as u32);
    ((b - y1_26_32) as u32) <= ((mask_spec(0, 26) + 0xff) as u32)
}

/// The keys at position `i + 3` that the lists give.
pub open spec fn lists_keys3(d: Data, i: int, x: Seq<u32>, y: Seq<u32>, z: Seq<u32>) -> Keys {
    Keys { x: lists_x3(d, i, x), y: y[3], z: z[3] }
}

/// The keys at position `i + 8` that the lists give.
pub open spec fn lists_keys8(d: Data, i: int, x: Seq<u32>, y: Seq<u32>, z: Seq<u32>) -> Keys {
    update_spec(Keys { x: lists_x7(d, i, x), y: y[7], z: z[7] }, d.plaintext@[i + 7])
}

/// The keys of the lists decipher the known plaintext after them.
pub open spec fn lists_forward_fits(d: Data, i: int, x: Seq<u32>, y: Seq<u32>, z: Seq<u32>) -> bool {
    let ct = d.ciphertext@;
    let pt = d.plaintext@;
    let off = d.offset as int;
    forall|jj: int|
        i + 8 <= jj < pt.len() ==> ct[off + jj] ^ keystream_spec(
            #[trigger] state_from(lists_keys8(d, i, x, y, z), ct, (off + i + 8) as nat, (off + jj) as nat).z,
        ) == pt[jj]
}

/// The keys of the lists, rewound, decipher the known plaintext before them.
pub open spec fn lists_backward_fits(d: Data, i: int, x: Seq<u32>, y: Seq<u32>, z: Seq<u32>) -> bool {
    let ct = d.ciphertext@;
    let pt = d.plaintext@;
    let off = d.offset as int;
    forall|jj: int|
        0 <= jj < i + 3 ==> ct[off + jj] ^ keystream_spec(
            #[trigger] rewind_to(lists_keys3(d, i, x, y, z), ct, (off + i + 3) as nat, (off + jj) as nat).z,
        ) == pt[jj]
}

/// Complete lists that pass every test.
pub open spec fn lists_fit(d: Data, i: int, x: Seq<u32>, y: Seq<u32>, z: Seq<u32>) -> bool {
    &&& lists_x3_fits(d, i, x, y, z)
    &&& lists_forward_fits(d, i, x, y, z)
    &&& lists_backward_fits(d, i, x, y, z)
}

/// Y at position `i - 1` from Y at `i` and the low byte of X at `i`.
pub open spec fn y_prev(y: Seq<u32>, i: int, xb: u8) -> u32 {
    ((((y[i] - 1) as u32 * MULTINV) as u32) - xb as u32) as u32
}

/// The fiber that holds the candidate low bytes of X at position `i`.
pub open spec fn y_fiber_index(y: Seq<u32>, i: int) -> u8 {
    let fy = (((y[i] - 1) as u32 * MULTINV) as u32);
    let ffy = (((fy - 1) as u32 * MULTINV) as u32);
    (((ffy - (y[i - 2] & mask_spec(24, 32))) as u32) >> 24u32) as u8
}

/// Whether low byte `xb` of X at position `i` agrees with the high bytes of
/// Y at positions `i - 1` and `i - 2`.
pub open spec fn y_choice_ok(y: Seq<u32>, i: int, xb: u8) -> bool {
    let fy = (((y[i] - 1) as u32 * MULTINV) as u32);
    let ffy = (((fy - 1) as u32 * MULTINV) as u32);
    &&& (((ffy - ((MULTINV * xb as u32) as u32)) as u32 - (y[i - 2] & mask_spec(24, 32))) as u32) <= ((mask_spec(
        0,
        24,
    ) + 0xff) as u32)
    &&& ((y_prev(y, i, xb) >> 24u32) as u8) == ((y[i - 1] >> 24u32) as u8)
}

/// Whether the Y values of positions `i - 1` down to 3 (and the X low bytes
/// with them) can be chosen from the multiplication fibers so that the
/// completed lists pass every test.
pub open spec fn y_solvable(t: Tables, d: Data, idx: int, x: Seq<u32>, y: Seq<u32>, z: Seq<u32>, i: int) -> bool
    decreases i,
{
    if i <= 3 {
        lists_fit(d, idx, x, y, z)
    } else {
        let f = t.fiber2_at(y_fiber_index(y, i) as int);
        exists|k: int|
            0 <= k < f.len() && #[trigger] y_choice_ok(y, i, f[k]) && y_solvable(
                t,
                d,
                idx,
                x.update(i, f[k] as u32),
                y.update(i - 1, y_prev(y, i, f[k])),
                z,
                i - 1,
            )
    }
}

/// Two states that agree on what the Y search from position `i` reads.
pub open spec fn y_agree(x1: Seq<u32>, y1: Seq<u32>, x2: Seq<u32>, y2: Seq<u32>, i: int) -> bool {
    &&& x1.len() == 8 && x2.len() == 8 && y1.len() == 8 && y2.len() == 8
    &&& forall|j: int| i < j < 8 ==> (#[trigger] x1[j] & 0xffu32) == (x2[j] & 0xffu32)
    &&& i <= 3 ==> x1[4] == x2[4]
    &&& forall|j: int| i <= j < 8 ==> #[trigger] y1[j] == y2[j]
    &&& forall|j: int| 2 <= j < 8 ==> (#[trigger] y1[j] >> 24u32) == (y2[j] >> 24u32)
}

proof fn lemma_high_mask(a: u32, b: u32)
    requires
        a >> 24u32 == b >> 24u32,
    ensures
        a & 0xff00_0000u32 == b & 0xff00_0000u32,
{
    assert(a & 0xff00_0000u32 == b & 0xff00_0000u32) by (bit_vector)
        requires
            a >> 24u32 == b >> 24u32,
    ;
}

proof fn lemma_low_or(c: u32, a: u32, b: u32)
    requires
        a & 0xffu32 == b & 0xffu32,
    ensures
        (c & 0xffff_ff00u32) | (a & 0xffu32) == (c & 0xffff_ff00u32) | (b & 0xffu32),
{
}

/// What the Y search reads fixes its outcome.
proof fn lemma_y_solvable_frame(t: Tables, d: Data, idx: int, x1: Seq<u32>, y1: Seq<u32>, x2: Seq<u32>, y2: Seq<u32>, z: Seq<u32>, i: int)
    requires
        3 <= i <= 7,
        y_agree(x1, y1, x2, y2, i),
    ensures
        y_solvable(t, d, idx, x1, y1, z, i) == y_solvable(t, d, idx, x2, y2, z, i),
    decreases i,
{
    lemma_masks();
    if i > 3 {
        lemma_high_mask(y1[i - 2], y2[i - 2]);
        assert(y1[i] == y2[i]);
        assert(y_fiber_index(y1, i) == y_fiber_index(y2, i));
        let f = t.fiber2_at(y_fiber_index(y1, i) as int);
        assert forall|k: int| 0 <= k < f.len() implies (#[trigger] y_choice_ok(y1, i, f[k]) && y_solvable(
            t,
            d,
            idx,
            x1.update(i, f[k] as u32),
            y1.update(i - 1, y_prev(y1, i, f[k])),
            z,
            i - 1,
        )) == (y_choice_ok(y2, i, f[k]) && y_solvable(
            t,
            d,
            idx,
            x2.update(i, f[k] as u32),
            y2.update(i - 1, y_prev(y2, i, f[k])),
            z,
            i - 1,
        )) by {
            assert(y_prev(y1, i, f[k]) == y_prev(y2, i, f[k]));
            assert((y1[i - 1] >> 24u32) == (y2[i - 1] >> 24u32));
            let xa = x1.update(i, f[k] as u32);
            let xb = x2.update(i, f[k] as u32);
            let ya = y1.update(i - 1, y_prev(y1, i, f[k]));
            let yb = y2.update(i - 1, y_prev(y2, i, f[k]));
            assert(y_agree(xa, ya, xb, yb, i - 1)) by {
                assert forall|j: int| i - 1 < j < 8 implies (#[trigger] xa[j] & 0xffu32) == (xb[j] & 0xffu32) by {
                    if j > i {
                        assert(xa[j] == x1[j] && xb[j] == x2[j]);
                    }
                }
                assert forall|j: int| 2 <= j < 8 implies (#[trigger] ya[j] >> 24u32) == (yb[j] >> 24u32) by {
                    if j != i - 1 {
                        assert(ya[j] == y1[j] && yb[j] == y2[j]);
                    }
                }
                assert forall|j: int| i - 1 <= j < 8 implies #[trigger] ya[j] == yb[j] by {
                    if j != i - 1 {
                        assert(ya[j] == y1[j] && yb[j] == y2[j]);
                    }
                }
            }
            lemma_y_solvable_frame(t, d, idx, xa, ya, xb, yb, z, i - 1);
        }
        reveal_with_fuel(y_solvable, 1);
        if y_solvable(t, d, idx, x1, y1, z, i) {
            let k = choose|k: int|
                0 <= k < f.len() && #[trigger] y_choice_ok(y1, i, f[k]) && y_solvable(
                    t,
                    d,
                    idx,
                    x1.update(i, f[k] as u32),
                    y1.update(i - 1, y_prev(y1, i, f[k])),
                    z,
                    i - 1,
                );
            assert(y_choice_ok(y2, i, f[k]));
            assert(y_solvable(t, d, idx, x2, y2, z, i));
        }
        if y_solvable(t, d, idx, x2, y2, z, i) {
            let k = choose|k: int|
                0 <= k < f.len() && #[trigger] y_choice_ok(y2, i, f[k]) && y_solvable(
                    t,
                    d,
                    idx,
                    x2.update(i, f[k] as u32),
                    y2.update(i - 1, y_prev(y2, i, f[k])),
                    z,
                    i - 1,
                );
            assert(y_choice_ok(y1, i, f[k]) == y_choice_ok(y2, i, f[k]));
            assert(y_choice_ok(y1, i, f[k]));
            assert(y_solvable(t, d, idx, x1, y1, z, i));
        }
    } else {
        assert(x1[4] == x2[4]);
        assert((x1[5] & 0xffu32) == (x2[5] & 0xffu32));
        assert((x1[6] & 0xffu32) == (x2[6] & 0xffu32));
        assert((x1[7] & 0xffu32) == (x2[7] & 0xffu32));
        assert(lists_x5(d, idx, x1) == lists_x5(d, idx, x2));
        assert(lists_x6(d, idx, x1) == lists_x6(d, idx, x2));
        assert(lists_x7(d, idx, x1) == lists_x7(d, idx, x2));
        assert(lists_x3(d, idx, x1) == lists_x3(d, idx, x2));
        assert(y1[3] == y2[3] && y1[7] == y2[7]);
        assert(lists_keys3(d, idx, x1, y1, z) == lists_keys3(d, idx, x2, y2, z));
        assert(lists_keys8(d, idx, x1, y1, z) == lists_keys8(d, idx, x2, y2, z));
        assert(lists_x3_fits(d, idx, x1, y1, z) == lists_x3_fits(d, idx, x2, y2, z));
        assert(lists_forward_fits(d, idx, x1, y1, z) == lists_forward_fits(d, idx, x2, y2, z));
        assert(lists_backward_fits(d, idx, x1, y1, z) == lists_backward_fits(d, idx, x2, y2, z));
    }
}


/// Z at position `i` once Z at `i - 1` is `w`: its bits [2,32) kept, its
/// low byte fixed by the CRC relation.
pub open spec fn z_fixed(z: Seq<u32>, i: int, w: u32) -> u32 {
    (z[i] & 0xffff_fffcu32) | ((crc32inv_spec(z[i] & 0xffff_fffcu32, 0) ^ w) >> 8u32)
}

/// The Z list once Z at position `i - 1` is chosen as `w`.
pub open spec fn z_step_z(z: Seq<u32>, i: int, w: u32) -> Seq<u32> {
    z.update(i - 1, w).update(i, z_fixed(z, i, w))
}

/// The Y list once Z at position `i - 1` is chosen as `w`: the high byte of
/// Y at `i + 1` follows from Z at `i + 1` and `i`.
pub open spec fn z_step_y(y: Seq<u32>, z: Seq<u32>, i: int, w: u32) -> Seq<u32> {
    if i < 7 {
        y.update(i + 1, (crc32inv_spec(z[i + 1], 0) ^ z_fixed(z, i, w)) << 24u32)
    } else {
        y
    }
}

/// The candidates [2,32) of Z at position `i - 1` that Z at `i` and the
/// keystream allow: their bits [10,32) follow from Z at `i`, their bits
/// [2,16) from the keystream byte.
pub open spec fn z_bucket(d: Data, idx: int, z: Seq<u32>, i: int) -> Seq<u32> {
    let zim1 = crc32inv_spec(z[i], 0) & mask_spec(10, 32);
    zi_2_16_bucket(d.keystream@[idx + i - 1] as int, ((zim1 & 0xffffu32) >> 10u32) as int)
}

/// The high bits of Z at position `i - 1` that Z at `i` gives.
pub open spec fn z_high(z: Seq<u32>, i: int) -> u32 {
    crc32inv_spec(z[i], 0) & mask_spec(10, 32)
}

/// `MULTINV * (Y7 >> 24) << 24 - MULTINV`, advanced `v` times by
/// `MULTINV << 8`: the product that bits [8,24) of Y7 equal to `v` give.
pub open spec fn y7_prod(y: Seq<u32>, v: int) -> u32
    decreases v,
{
    if v <= 0 {
        (((((MULTINV * (y[7] >> 24u32)) as u32) << 24u32) - MULTINV) as u32)
    } else {
        ((y7_prod(y, v - 1) + ((MULTINV << 8u32) as u32)) as u32)
    }
}

/// The fiber that holds the candidate low bytes of Y7 for bits [8,24) `v`.
pub open spec fn y7_fiber_index(y: Seq<u32>, v: int) -> u8 {
    let a = (y[6] >> 24u32) as u8;
    let b = (y7_prod(y, v) >> 24u32) as u8;
    if a >= b {
        (a - b) as u8
    } else {
        (a - b + 256) as u8
    }
}

/// Whether low byte `yb` of Y7 (with bits [8,24) `v`) agrees with the high
/// byte of Y6.
pub open spec fn y7_choice_ok(y: Seq<u32>, v: int, yb: u8) -> bool {
    (((((y7_prod(y, v) + ((MULTINV * yb as u32) as u32)) as u32) - (y[6] & mask_spec(24, 32))) as u32) <= ((
    mask_spec(0, 24) + 0xff) as u32))
}

/// Y7 from its low byte, bits [8,24) `v`, and the high byte it has.
pub open spec fn y7_of(y: Seq<u32>, v: int, yb: u8) -> u32 {
    (yb as u32) | ((v * 256) as u32) | (y[7] & mask_spec(24, 32))
}

/// Whether the Z values of positions `i - 1` down to 0 can be chosen from
/// the keystream buckets, and then Y7 and the rest, so that the completed
/// lists pass every test.
pub open spec fn z_solvable(t: Tables, d: Data, idx: int, x: Seq<u32>, y: Seq<u32>, z: Seq<u32>, i: int) -> bool
    decreases i,
{
    if i <= 0 {
        exists|v: int, k: int|
            0 <= v < 65536 && 0 <= k < t.fiber3_at(y7_fiber_index(y, v) as int).len() && #[trigger] y7_choice_ok(
                y,
                v,
                t.fiber3_at(y7_fiber_index(y, v) as int)[k],
            ) && y_solvable(
                t,
                d,
                idx,
                x,
                y.update(7, y7_of(y, v, t.fiber3_at(y7_fiber_index(y, v) as int)[k])),
                z,
                7,
            )
    } else {
        let b = z_bucket(d, idx, z, i);
        exists|k: int|
            0 <= k < b.len() && z_solvable(
                t,
                d,
                idx,
                x,
                z_step_y(y, z, i, z_high(z, i) | #[trigger] b[k]),
                z_step_z(z, i, z_high(z, i) | b[k]),
                i - 1,
            )
    }
}

/// Whether the search from a candidate `c` for Z at position `idx + 7`
/// finds complete lists that pass every test (what the search reads does not
/// depend on the lists it starts from, so they are taken as zeros).
pub open spec fn candidate_solvable(t: Tables, d: Data, idx: int, c: u32) -> bool {
    let zeros = Seq::new(8, |j: int| 0u32);
    z_solvable(t, d, idx, zeros, zeros, zeros.update(7, c), 7)
}

/// Two states that agree on what the Z search from position `i` reads.
pub open spec fn z_agree(y1: Seq<u32>, z1: Seq<u32>, y2: Seq<u32>, z2: Seq<u32>, i: int) -> bool {
    &&& y1.len() == 8 && y2.len() == 8 && z1.len() == 8 && z2.len() == 8
    &&& forall|j: int| i < j < 8 ==> #[trigger] z1[j] == z2[j]
    &&& (z1[i] & 0xffff_fffcu32) == (z2[i] & 0xffff_fffcu32)
    &&& i == 0 ==> z1[0] == z2[0]
    &&& forall|j: int| i + 2 <= j < 8 ==> (#[trigger] y1[j] >> 24u32) == (y2[j] >> 24u32)
}

proof fn lemma_crc32inv_high(a: u32, b: u32)
    requires
        a & 0xffff_fffcu32 == b & 0xffff_fffcu32,
    ensures
        crc32inv_spec(a, 0) & 0xffff_fc00u32 == crc32inv_spec(b, 0) & 0xffff_fc00u32,
{
    assert(a >> 24u32 == b >> 24u32) by (bit_vector)
        requires
            a & 0xffff_fffcu32 == b & 0xffff_fffcu32,
    ;
    let e = crc_inv_entry(a >> 24u32);
    assert(((a << 8u32) ^ e ^ 0u32) & 0xffff_fc00u32 == ((b << 8u32) ^ e ^ 0u32) & 0xffff_fc00u32) by (bit_vector)
        requires
            a & 0xffff_fffcu32 == b & 0xffff_fffcu32,
    ;
}

/// What the Z search reads fixes its outcome.
proof fn lemma_z_solvable_frame(
    t: Tables,
    d: Data,
    idx: int,
    x1: Seq<u32>,
    y1: Seq<u32>,
    z1: Seq<u32>,
    x2: Seq<u32>,
    y2: Seq<u32>,
    z2: Seq<u32>,
    i: int,
)
    requires
        0 <= i <= 7,
        x1.len() == 8,
        x2.len() == 8,
        z_agree(y1, z1, y2, z2, i),
    ensures
        z_solvable(t, d, idx, x1, y1, z1, i) == z_solvable(t, d, idx, x2, y2, z2, i),
    decreases i,
{
    lemma_masks();
    if i > 0 {
        lemma_crc32inv_high(z1[i], z2[i]);
        assert(z_high(z1, i) == z_high(z2, i));
        assert(z_bucket(d, idx, z1, i) == z_bucket(d, idx, z2, i));
        let b = z_bucket(d, idx, z1, i);
        assert forall|k: int| 0 <= k < b.len() implies z_solvable(
            t,
            d,
            idx,
            x1,
            z_step_y(y1, z1, i, z_high(z1, i) | #[trigger] b[k]),
            z_step_z(z1, i, z_high(z1, i) | b[k]),
            i - 1,
        ) == z_solvable(
            t,
            d,
            idx,
            x2,
            z_step_y(y2, z2, i, z_high(z2, i) | b[k]),
            z_step_z(z2, i, z_high(z2, i) | b[k]),
            i - 1,
        ) by {
            let w = z_high(z1, i) | b[k];
            assert(z_fixed(z1, i, w) == z_fixed(z2, i, w));
            let ya = z_step_y(y1, z1, i, w);
            let yb = z_step_y(y2, z2, i, w);
            let za = z_step_z(z1, i, w);
            let zb = z_step_z(z2, i, w);
            assert(z_agree(ya, za, yb, zb, i - 1)) by {
                assert forall|j: int| i - 1 < j < 8 implies #[trigger] za[j] == zb[j] by {
                    if j > i {
                        assert(za[j] == z1[j] && zb[j] == z2[j]);
                    }
                }
                assert forall|j: int| i + 1 <= j < 8 implies (#[trigger] ya[j] >> 24u32) == (yb[j] >> 24u32) by {
                    if j > i + 1 {
                        assert(ya[j] == y1[j] && yb[j] == y2[j]);
                    } else {
                        assert(z1[i + 1] == z2[i + 1]);
                    }
                }
            }
            lemma_z_solvable_frame(t, d, idx, x1, ya, za, x2, yb, zb, i - 1);
        }
        if z_solvable(t, d, idx, x1, y1, z1, i) {
            let k = choose|k: int|
                0 <= k < b.len() && z_solvable(
                    t,
                    d,
                    idx,
                    x1,
                    z_step_y(y1, z1, i, z_high(z1, i) | #[trigger] b[k]),
                    z_step_z(z1, i, z_high(z1, i) | b[k]),
                    i - 1,
                );
            assert(z_solvable(t, d, idx, x2, y2, z2, i));
        }
        if z_solvable(t, d, idx, x2, y2, z2, i) {
            let k = choose|k: int|
                0 <= k < b.len() && z_solvable(
                    t,
                    d,
                    idx,
                    x2,
                    z_step_y(y2, z2, i, z_high(z2, i) | #[trigger] b[k]),
                    z_step_z(z2, i, z_high(z2, i) | b[k]),
                    i - 1,
                );
            assert(z_solvable(t, d, idx, x1, y1, z1, i));
        }
    } else {
        assert(z1 =~= z2);
        assert(y1[7] >> 24u32 == y2[7] >> 24u32 && y1[6] >> 24u32 == y2[6] >> 24u32);
        lemma_high_mask(y1[6], y2[6]);
        lemma_high_mask(y1[7], y2[7]);
        assert forall|v: int| 0 <= v < 65536 implies #[trigger] y7_prod(y1, v) == y7_prod(y2, v) by {
            lemma_y7_prod_frame(y1, y2, v);
        }
        assert forall|v: int, k: int|
            0 <= v < 65536 && 0 <= k < t.fiber3_at(y7_fiber_index(y1, v) as int).len() implies (
            #[trigger] y7_choice_ok(y1, v, t.fiber3_at(y7_fiber_index(y1, v) as int)[k]) && y_solvable(
                t,
                d,
                idx,
                x1,
                y1.update(7, y7_of(y1, v, t.fiber3_at(y7_fiber_index(y1, v) as int)[k])),
                z1,
                7,
            )) == (y7_choice_ok(y2, v, t.fiber3_at(y7_fiber_index(y2, v) as int)[k]) && y_solvable(
                t,
                d,
                idx,
                x2,
                y2.update(7, y7_of(y2, v, t.fiber3_at(y7_fiber_index(y2, v) as int)[k])),
                z2,
                7,
            )) by {
            assert(y7_prod(y1, v) == y7_prod(y2, v));
            assert(y7_fiber_index(y1, v) == y7_fiber_index(y2, v));
            let yb = t.fiber3_at(y7_fiber_index(y1, v) as int)[k];
            assert(y7_of(y1, v, yb) == y7_of(y2, v, yb));
            let ya = y1.update(7, y7_of(y1, v, yb));
            let yc = y2.update(7, y7_of(y2, v, yb));
            assert(y_agree(x1, ya, x2, yc, 7)) by {
                assert forall|j: int| 2 <= j < 8 implies (#[trigger] ya[j] >> 24u32) == (yc[j] >> 24u32) by {
                    if j < 7 {
                        assert(ya[j] == y1[j] && yc[j] == y2[j]);
                    }
                }
                assert forall|j: int| 7 <= j < 8 implies #[trigger] ya[j] == yc[j] by {
                }
            }
            lemma_y_solvable_frame(t, d, idx, x1, ya, x2, yc, z1, 7);
        }
        if z_solvable(t, d, idx, x1, y1, z1, i) {
            let (v, k) = choose|v: int, k: int|
                0 <= v < 65536 && 0 <= k < t.fiber3_at(y7_fiber_index(y1, v) as int).len() && #[trigger] y7_choice_ok(
                    y1,
                    v,
                    t.fiber3_at(y7_fiber_index(y1, v) as int)[k],
                ) && y_solvable(
                    t,
                    d,
                    idx,
                    x1,
                    y1.update(7, y7_of(y1, v, t.fiber3_at(y7_fiber_index(y1, v) as int)[k])),
                    z1,
                    7,
                );
            assert(y7_fiber_index(y1, v) == y7_fiber_index(y2, v));
            assert(y7_choice_ok(y2, v, t.fiber3_at(y7_fiber_index(y2, v) as int)[k]));
            assert(z_solvable(t, d, idx, x2, y2, z2, i));
        }
        if z_solvable(t, d, idx, x2, y2, z2, i) {
            let (v, k) = choose|v: int, k: int|
                0 <= v < 65536 && 0 <= k < t.fiber3_at(y7_fiber_index(y2, v) as int).len() && #[trigger] y7_choice_ok(
                    y2,
                    v,
                    t.fiber3_at(y7_fiber_index(y2, v) as int)[k],
                ) && y_solvable(
                    t,
                    d,
                    idx,
                    x2,
                    y2.update(7, y7_of(y2, v, t.fiber3_at(y7_fiber_index(y2, v) as int)[k])),
                    z2,
                    7,
                );
            assert(y7_fiber_index(y1, v) == y7_fiber_index(y2, v));
            assert(y7_choice_ok(y1, v, t.fiber3_at(y7_fiber_index(y1, v) as int)[k]) == y7_choice_ok(
                y2,
                v,
                t.fiber3_at(y7_fiber_index(y2, v) as int)[k],
            ));
            assert(y7_choice_ok(y1, v, t.fiber3_at(y7_fiber_index(y1, v) as int)[k]));
            assert(z_solvable(t, d, idx, x1, y1, z1, i));
        }
    }
}

proof fn lemma_y7_prod_frame(y1: Seq<u32>, y2: Seq<u32>, v: int)
    requires
        y1.len() == 8,
        y2.len() == 8,
        y1[7] >> 24u32 == y2[7] >> 24u32,
    ensures
        y7_prod(y1, v) == y7_prod(y2, v),
    decreases v,
{
    if v > 0 {
        lemma_y7_prod_frame(y1, y2, v - 1);
    }
}

struct Attack<'a> {
    data: &'a Data<'a>,
    tables: &'a Tables,
    /// Starting index of the used plaintext/keystream.
    index: usize,
    zlist: Vec<u32>,
    ylist: Vec<u32>,
    xlist: Vec<u32>,
    found: Option<Keys>,
}

impl<'a> Attack<'a> {
    spec fn base_inv(&self) -> bool {
        &&& self.data.wf()
        &&& self.tables.wf()
        &&& self.zlist@.len() == 8
        &&& self.ylist@.len() == 8
        &&& self.xlist@.len() == 8
        &&& self.index + CONTIGUOUS_SIZE <= self.data.plaintext.len()
    }

    /// Keys found from a last Z value whose keystream byte matches decipher
    /// all the known plaintext.
    spec fn found_ok(&self) -> bool {
        self.found matches Some(k) ==> (self.zks(7) ==> sound(
            k,
            self.data.ciphertext@,
            self.data.plaintext@,
            self.data.offset as int,
        ))
    }

    spec fn zks(&self, j: int) -> bool {
        keystream_spec(self.zlist@[j]) == self.data.keystream@[self.index + j]
    }

    spec fn zchain(&self, j: int) -> bool {
        self.zlist@[j] == crc32_spec(self.zlist@[j - 1], (self.ylist@[j] >> 24u32) as u8)
    }

    spec fn yrel(&self, j: int) -> bool {
        self.ylist@[j] == ((((self.ylist@[j - 1] + (self.xlist@[j] & 0xffu32)) as u32) * MULT) as u32
            + 1) as u32
    }

    spec fn x5(&self) -> u32 {
        lists_x5(*self.data, self.index as int, self.xlist@)
    }

    spec fn x6(&self) -> u32 {
        lists_x6(*self.data, self.index as int, self.xlist@)
    }

    spec fn x7(&self) -> u32 {
        lists_x7(*self.data, self.index as int, self.xlist@)
    }

    spec fn x3(&self) -> u32 {
        lists_x3(*self.data, self.index as int, self.xlist@)
    }

    spec fn x3_fits(&self) -> bool {
        lists_x3_fits(*self.data, self.index as int, self.xlist@, self.ylist@, self.zlist@)
    }

    spec fn keys3(&self) -> Keys {
        lists_keys3(*self.data, self.index as int, self.xlist@, self.ylist@, self.zlist@)
    }

    spec fn keys8(&self) -> Keys {
        lists_keys8(*self.data, self.index as int, self.xlist@, self.ylist@, self.zlist@)
    }

    spec fn forward_fits(&self) -> bool {
        lists_forward_fits(*self.data, self.index as int, self.xlist@, self.ylist@, self.zlist@)
    }

    spec fn backward_fits(&self) -> bool {
        lists_backward_fits(*self.data, self.index as int, self.xlist@, self.ylist@, self.zlist@)
    }

    spec fn same_frame(&self, other: &Self) -> bool {
        &&& self.data == other.data
        &&& self.tables == other.tables
        &&& self.index == other.index
    }

    fn new(data: &'a Data<'a>, tables: &'a Tables, zi_index: usize) -> (r: Self)
        requires
            data.wf(),
            tables.wf(),
            CONTIGUOUS_SIZE - 1 <= zi_index < data.plaintext@.len(),
        ensures
            r.base_inv(),
            r.found is None,
            r.data == data,
            r.tables == tables,
            r.index == zi_index + 1 - CONTIGUOUS_SIZE,
    {
        let mut zlist: Vec<u32> = Vec::new();
        let mut ylist: Vec<u32> = Vec::new();
        let mut xlist: Vec<u32> = Vec::new();
        let mut k: usize = 0;
        while k < CONTIGUOUS_SIZE
            invariant
                k <= CONTIGUOUS_SIZE,
                zlist@.len() == k,
                ylist@.len() == k,
                xlist@.len() == k,
            decreases CONTIGUOUS_SIZE - k,
        {
            zlist.push(0);
            ylist.push(0);
            xlist.push(0);
            k += 1;
        }
        Attack { data, tables, index: zi_index - (CONTIGUOUS_SIZE - 1), zlist, ylist, xlist, found: None }
    }
}

impl<'a> Attack<'a> {
    /// Check a completed X/Y/Z list against the remaining known plaintext and,
    /// if it fits, rewind to the initial keys.
    #[verifier::loop_isolation(false)]
    #[verifier::spinoff_prover]
    #[verifier::rlimit(60)]
    fn test_xlist(&mut self)
        requires
            old(self).base_inv(),
            old(self).found is None,
            forall|j: int| 0 <= j < 7 ==> old(self).zks(j),
            forall|j: int| 4 <= j < 8 ==> old(self).zchain(j),
            forall|j: int| 4 <= j < 8 ==> old(self).yrel(j),
        ensures
            final(self).base_inv(),
            final(self).same_frame(old(self)),
            final(self).found_ok(),
            final(self).zlist@ == old(self).zlist@,
            final(self).ylist@ == old(self).ylist@,
            forall|j: int|
                0 <= j < 8 ==> (#[trigger] final(self).xlist@[j] & 0xffu32) == (old(self).xlist@[j]
                    & 0xffu32),
            final(self).found is Some <==> (old(self).x3_fits() && old(self).forward_fits() && old(
                self,
            ).backward_fits()),
            final(self).found matches Some(k) ==> k == rewind_to(
                old(self).keys3(),
                old(self).data.ciphertext@,
                (old(self).data.offset + old(self).index + 3) as nat,
                0,
            ),
    {
        let data = self.data;
        let t = self.tables;
        let idx = self.index;
        proof {
            lemma_masks();
        }
        let ghost x_old = self.xlist@;
        let ghost y = self.ylist@;
        let ghost z = self.zlist@;
        let ghost ct = data.ciphertext@;
        let ghost pt = data.plaintext@;
        let ghost ks = data.keystream@;
        let ghost off = data.offset as int;

        // Compute X5, X6, X7.
        let q4 = data.plaintext[idx + 4];
        let q5 = data.plaintext[idx + 5];
        let q6 = data.plaintext[idx + 6];
        let x5 = (crc32_table(t, self.xlist[4], q4) & mask(8, 32)) | (lsb(self.xlist[5]) as u32);
        self.xlist.set(5, x5);
        let x6 = (crc32_table(t, self.xlist[5], q5) & mask(8, 32)) | (lsb(self.xlist[6]) as u32);
        self.xlist.set(6, x6);
        let x7 = (crc32_table(t, self.xlist[6], q6) & mask(8, 32)) | (lsb(self.xlist[7]) as u32);
        self.xlist.set(7, x7);
        assert(x5 == old(self).x5());
        assert(x6 == old(self).x6());
        assert(x7 == old(self).x7());
        let ghost l5 = x_old[5] & 0xffu32;
        let ghost l6 = x_old[6] & 0xffu32;
        let ghost l7 = x_old[7] & 0xffu32;
        proof {
            lemma_msb_small(x_old[5]);
            lemma_msb_small(x_old[6]);
            lemma_msb_small(x_old[7]);
            let c4 = crc32_spec(x_old[4], q4);
            let c5 = crc32_spec(x5, q5);
            let c6 = crc32_spec(x6, q6);
            assert((x5 & 0xffu32) == l5 && (x6 & 0xffu32) == l6 && (x7 & 0xffu32) == l7) by (bit_vector)
                requires
                    l5 < 256,
                    l6 < 256,
                    l7 < 256,
                    x5 == (c4 & 0xffff_ff00u32) | l5,
                    x6 == (c5 & 0xffff_ff00u32) | l6,
                    x7 == (c6 & 0xffff_ff00u32) | l7,
            ;
        }

        // Compute X3.
        let q3 = data.plaintext[idx + 3];
        let a6 = crc32inv(t, x7, q6);
        let a5 = crc32inv(t, a6, q5);
        let a4 = crc32inv(t, a5, q4);
        let x = crc32inv(t, a4, q3);
        assert(x == old(self).x3());
        proof {
            lemma_xback(x6, q6, l7, x7, 8);
            lemma_xback(x5, q5, l6, a6, 16);
            lemma_xback(x_old[4], q4, l5, a5, 24);
            lemma_crc32_after_inverse(a4, q3);
            lemma_crc32_after_inverse(a5, q4);
            lemma_crc32_after_inverse(a6, q5);
            lemma_crc32_after_inverse(x7, q6);
        }

        // Check X3 fits with Y1[26,32).
        let y1_26_32 = get_yi_24_32(t, self.zlist[1], self.zlist[0]) & mask(26, 32);
        let check = wsub(
            wmul(wsub(wsub(wmul(wsub(self.ylist[3], 1), MULTINV), lsb(x) as u32), 1), MULTINV),
            y1_26_32,
        );
        let ghost snap = *self;
        proof {
            assert(self.base_inv());
            assert(self.same_frame(old(self)));
            assert(forall|j: int|
                0 <= j < 8 ==> (#[trigger] self.xlist@[j] & 0xffu32) == (x_old[j] & 0xffu32));
        }
        if check > maxdiff(26) {
            return;
        }

        // The keys at positions I+3 .. I+7 follow from the lists.
        let ghost s3 = Keys { x: x, y: y[3], z: z[3] };
        let ghost s4 = Keys { x: a4, y: y[4], z: z[4] };
        let ghost s5 = Keys { x: a5, y: y[5], z: z[5] };
        let ghost s6 = Keys { x: a6, y: y[6], z: z[6] };
        let ghost s7 = Keys { x: x7, y: y[7], z: z[7] };
        proof {
            assert(old(self).yrel(4) && old(self).yrel(5) && old(self).yrel(6) && old(self).yrel(7));
            assert(old(self).zchain(4) && old(self).zchain(5) && old(self).zchain(6) && old(
                self,
            ).zchain(7));
            assert(update_spec(s3, q3) == s4);
            assert(update_spec(s4, q4) == s5);
            assert(update_spec(s5, q5) == s6);
            assert(update_spec(s6, q6) == s7);
        }

        // Filter forward against the remaining contiguous plaintext.
        let mut keys_forward = Keys::new(self.xlist[7], self.ylist[7], self.zlist[7]);
        keys_forward.update(data.plaintext[idx + 7]);
        let ghost s8 = keys_forward;
        let ghost start8 = (off + idx + 8) as nat;
        let mut pi = idx + 8;
        while pi < data.plaintext.len()
            invariant
                *self == snap,
                data.wf(),
                idx + 8 <= pi <= data.plaintext@.len(),
                ct == data.ciphertext@,
                pt == data.plaintext@,
                off == data.offset as int,
                start8 == (off + idx + 8) as nat,
                keys_forward == state_from(s8, ct, start8, (off + pi) as nat),
                forall|jj: int|
                    idx + 8 <= jj < pi ==> ct[off + jj] ^ keystream_spec(
                        #[trigger] state_from(s8, ct, start8, (off + jj) as nat).z,
                    ) == pt[jj],
            decreases data.plaintext@.len() - pi,
        {
            let c = data.ciphertext[data.offset + pi];
            if (c ^ keys_forward.get_k()) != data.plaintext[pi] {
                proof {
                    assert(s8 == old(self).keys8());
                    let jj = pi as int;
                    assert(ct[off + jj] ^ keystream_spec(
                        state_from(old(self).keys8(), ct, (off + old(self).index + 8) as nat, (off + jj) as nat).z,
                    ) != pt[jj]);
                }
                return;
            }
            proof {
                assert(state_from(s8, ct, start8, (off + pi + 1) as nat) == update_spec(
                    keys_forward,
                    c ^ keystream_spec(keys_forward.z),
                ));
            }
            keys_forward.update(data.plaintext[pi]);
            pi += 1;
        }

        // Filter backward.
        let mut keys_backward = Keys::new(x, self.ylist[3], self.zlist[3]);
        let ghost m = (off + idx + 3) as nat;
        let mut j = idx + 3;
        while j > 0
            invariant
                *self == snap,
                data.wf(),
                j <= idx + 3,
                idx + 8 <= data.plaintext@.len(),
                ct == data.ciphertext@,
                pt == data.plaintext@,
                off == data.offset as int,
                m == (off + idx + 3) as nat,
                keys_backward == rewind_to(s3, ct, m, (off + j) as nat),
                forall|jj: int|
                    j <= jj < idx + 3 ==> ct[off + jj] ^ keystream_spec(
                        #[trigger] rewind_to(s3, ct, m, (off + jj) as nat).z,
                    ) == pt[jj],
            decreases j,
        {
            j -= 1;
            let c = data.ciphertext[data.offset + j];
            proof {
                lemma_rewind_step_at(s3, ct, m, (off + j) as nat);
            }
            keys_backward.update_backward(c);
            if (c ^ keys_backward.get_k()) != data.plaintext[j] {
                proof {
                    assert(s3 == old(self).keys3());
                    let jj = j as int;
                    assert(ct[off + jj] ^ keystream_spec(
                        rewind_to(old(self).keys3(), ct, (off + old(self).index + 3) as nat, (off + jj) as nat).z,
                    ) != pt[jj]);
                }
                return;
            }
        }

        // All tests passed: rewind to the initial state to get the keys.
        keys_backward.update_backward_range(data.ciphertext, data.offset, 0);
        proof {
            let k0 = keys_backward;
            lemma_rewind_compose(s3, ct, m, off as nat);
            assert(old(self).zks(3) && old(self).zks(4) && old(self).zks(5) && old(self).zks(6));
            if old(self).zks(7) {
                lemma_found_sound(ct, pt, ks, off, idx as int, s3, s4, s5, s6, s7, s8, k0);
            }
        }
        self.found = Some(keys_backward);
    }
}

impl<'a> Attack<'a> {
    /// Explore the Y values of positions `i-1` down to 3 (X low bytes along
    /// the way), then test each completed list.
    fn explore_ylists(&mut self, i: usize)
        requires
            old(self).base_inv(),
            old(self).found is None,
            3 <= i <= 7,
            forall|j: int| 0 <= j < 7 ==> old(self).zks(j),
            forall|j: int| 4 <= j < 8 ==> old(self).zchain(j),
            forall|j: int| i < j < 8 ==> old(self).yrel(j),
        ensures
            final(self).base_inv(),
            final(self).same_frame(old(self)),
            final(self).found_ok(),
            final(self).zlist@ == old(self).zlist@,
            forall|j: int| i <= j < 8 ==> #[trigger] final(self).ylist@[j] == old(self).ylist@[j],
            forall|j: int|
                0 <= j < 8 ==> (#[trigger] final(self).ylist@[j] >> 24u32) == (old(self).ylist@[j]
                    >> 24u32),
            forall|j: int|
                i < j < 8 ==> (#[trigger] final(self).xlist@[j] & 0xffu32) == (old(self).xlist@[j]
                    & 0xffu32),
            final(self).found is Some <==> y_solvable(
                *old(self).tables,
                *old(self).data,
                old(self).index as int,
                old(self).xlist@,
                old(self).ylist@,
                old(self).zlist@,
                i as int,
            ),
        decreases i,
    {
        if self.found.is_some() {
            return;
        }
        let ghost t0 = *self.tables;
        let ghost d0 = *self.data;
        let ghost i0 = self.index as int;
        let ghost ox = self.xlist@;
        let ghost oy = self.ylist@;
        let ghost oz = self.zlist@;
        if i != 3 {
            proof {
                lemma_masks();
            }
            let t = self.tables;
            let fy = wmul(wsub(self.ylist[i], 1), MULTINV);
            let ffy = wmul(wsub(fy, 1), MULTINV);
            let idx = msb(wsub(ffy, self.ylist[i - 2] & mask(24, 32)));
            let f = fiber2(t, idx);
            proof {
                lemma_high_mask(self.ylist@[i - 2], oy[i - 2]);
            }
            assert(f@ == t0.fiber2_at(y_fiber_index(oy, i as int) as int));
            let ghost y_i = self.ylist@[i as int];
            let mut k: usize = 0;
            while k < f.len()
                invariant
                    3 < i <= 7,
                    self.base_inv(),
                    self.same_frame(old(self)),
                    self.found is None,
                    self.tables == t,
                    t.wf(),
                    self.zlist@ == old(self).zlist@,
                    y_i == old(self).ylist@[i as int],
                    fy == ((((y_i - 1) as u32) * MULTINV) as u32),
                    forall|j: int| i <= j < 8 ==> #[trigger] self.ylist@[j] == old(self).ylist@[j],
                    forall|j: int|
                        0 <= j < 8 ==> (#[trigger] self.ylist@[j] >> 24u32) == (old(self).ylist@[j]
                            >> 24u32),
                    forall|j: int|
                        i < j < 8 ==> (#[trigger] self.xlist@[j] & 0xffu32) == (old(
                            self,
                        ).xlist@[j] & 0xffu32),
                    forall|j: int| 0 <= j < 7 ==> self.zks(j),
                    forall|j: int| 4 <= j < 8 ==> self.zchain(j),
                    forall|j: int| i < j < 8 ==> self.yrel(j),
                    t0 == *t,
                    d0 == *self.data,
                    i0 == self.index as int,
                    ox == old(self).xlist@,
                    oy == old(self).ylist@,
                    oz == old(self).zlist@,
                    f@ == t0.fiber2_at(y_fiber_index(oy, i as int) as int),
                    ffy == (((fy - 1) as u32 * MULTINV) as u32),
                    y_i == oy[i as int],
                    ox.len() == 8,
                    oy.len() == 8,
                    forall|k2: int|
                        0 <= k2 < k ==> !(#[trigger] y_choice_ok(oy, i as int, f@[k2]) && y_solvable(
                            t0,
                            d0,
                            i0,
                            ox.update(i as int, f@[k2] as u32),
                            oy.update(i - 1, y_prev(oy, i as int, f@[k2])),
                            oz,
                            i - 1,
                        )),
                decreases f@.len() - k,
            {
                let xi_0_8 = f[k];
                let yim1 = wsub(fy, xi_0_8 as u32);
                proof {
                    lemma_masks();
                    lemma_high_mask(self.ylist@[i - 2], oy[i - 2]);
                    assert(self.ylist@[i - 1] >> 24u32 == oy[i - 1] >> 24u32);
                    assert(yim1 == y_prev(oy, i as int, xi_0_8));
                }
                let ghost ok = y_choice_ok(oy, i as int, xi_0_8);
                let c1 = wsub(wsub(ffy, wmul(MULTINV, xi_0_8 as u32)), self.ylist[i - 2] & mask(24, 32))
                    <= maxdiff(24);
                let c2 = msb(yim1) == msb(self.ylist[i - 1]);
                proof {
                    assert((c1 && c2) == ok);
                    assert(f@[k as int] == xi_0_8);
                }
                if c1 && c2 {
                    let ghost pre = *self;
                    self.ylist.set(i - 1, yim1);
                    self.xlist.set(i, xi_0_8 as u32);
                    proof {
                        lemma_u8_low(xi_0_8, 0, 0);
                        lemma_mult_inverse(y_i, xi_0_8 as u32);
                        assert(self.yrel(i as int));
                        assert forall|j: int| i < j < 8 implies self.yrel(j) by {
                            assert(pre.yrel(j));
                            assert(self.ylist@[j] == pre.ylist@[j]);
                            assert(self.ylist@[j - 1] == pre.ylist@[j - 1]);
                            assert(self.xlist@[j] == pre.xlist@[j]);
                        }
                        assert forall|j: int| 4 <= j < 8 implies self.zchain(j) by {
                            assert(pre.zchain(j));
                            assert((self.ylist@[j] >> 24u32) == (pre.ylist@[j] >> 24u32));
                        }
                        assert forall|j: int| 0 <= j < 7 implies self.zks(j) by {
                            assert(pre.zks(j));
                        }
                    }
                    let ghost pre2 = *self;
                    assert(pre2.xlist@ == pre.xlist@.update(i as int, xi_0_8 as u32));
                    assert(pre2.ylist@ == pre.ylist@.update(i - 1, yim1));
                    proof {
                        assert(ok);
                        let xa = ox.update(i as int, xi_0_8 as u32);
                        let ya = oy.update(i - 1, y_prev(oy, i as int, xi_0_8));
                        assert(y_agree(pre2.xlist@, pre2.ylist@, xa, ya, i - 1)) by {
                            assert forall|j: int| i - 1 < j < 8 implies (#[trigger] pre2.xlist@[j] & 0xffu32)
                                == (xa[j] & 0xffu32) by {
                                if j > i {
                                    assert((pre.xlist@[j] & 0xffu32) == (ox[j] & 0xffu32));
                                }
                            }
                            assert forall|j: int| i - 1 <= j < 8 implies #[trigger] pre2.ylist@[j] == ya[j] by {
                                if j >= i {
                                    assert(pre.ylist@[j] == oy[j]);
                                }
                            }
                            assert forall|j: int| 0 <= j < 8 implies (#[trigger] pre2.ylist@[j] >> 24u32) == (ya[j]
                                >> 24u32) by {
                                if j != i - 1 {
                                    assert((pre.ylist@[j] >> 24u32) == (oy[j] >> 24u32));
                                }
                            }
                        }
                        lemma_y_solvable_frame(t0, d0, i0, pre2.xlist@, pre2.ylist@, xa, ya, oz, (i - 1) as int);
                        assert(pre2.zlist@ == oz);
                    }
                    self.explore_ylists(i - 1);
                    if self.found.is_some() {
                        proof {
                            assert(f@[k as int] == xi_0_8);
                            assert(y_choice_ok(oy, i as int, f@[k as int]));
                        }
                        return;
                    }
                    proof {
                        assert forall|j: int| 0 <= j < 7 implies self.zks(j) by {
                            assert(pre2.zks(j));
                        }
                        assert forall|j: int| 4 <= j < 8 implies self.zchain(j) by {
                            assert(pre2.zchain(j));
                            assert((self.ylist@[j] >> 24u32) == (pre2.ylist@[j] >> 24u32));
                        }
                        assert forall|j: int| i < j < 8 implies self.yrel(j) by {
                            assert(pre2.yrel(j));
                            assert(self.ylist@[j] == pre2.ylist@[j]);
                            assert(self.ylist@[j - 1] == pre2.ylist@[j - 1]);
                            assert((self.xlist@[j] & 0xffu32) == (pre2.xlist@[j] & 0xffu32));
                        }
                    }
                }
                k += 1;
            }
        } else {
            self.test_xlist();
        }
    }

    /// Explore the Z values of positions `i-1` down to 0, fixing low bits and
    /// Y high bytes along the way, then explore the Y values.
    fn explore_zlists(&mut self, i: usize)
        requires
            old(self).base_inv(),
            old(self).found is None,
            i <= 7,
            forall|j: int| i <= j < 7 ==> old(self).zks(j),
            forall|j: int| i + 2 <= j < 8 ==> old(self).zchain(j),
            i < 7 ==> (old(self).zlist@[i as int] >> 8u32) == (crc32inv_spec(
                old(self).zlist@[i + 1],
                0,
            ) >> 8u32),
        ensures
            final(self).base_inv(),
            final(self).same_frame(old(self)),
            final(self).found_ok(),
            forall|j: int| i < j < 8 ==> #[trigger] final(self).zlist@[j] == old(self).zlist@[j],
            final(self).zlist@[i as int] & 0xfffcu32 == old(self).zlist@[i as int] & 0xfffcu32,
            forall|j: int|
                i + 2 <= j < 8 ==> (#[trigger] final(self).ylist@[j] >> 24u32) == (old(
                    self,
                ).ylist@[j] >> 24u32),
            final(self).found is Some <==> z_solvable(
                *old(self).tables,
                *old(self).data,
                old(self).index as int,
                old(self).xlist@,
                old(self).ylist@,
                old(self).zlist@,
                i as int,
            ),
        decreases i,
    {
        if self.found.is_some() {
            return;
        }
        let ghost t0 = *self.tables;
        let ghost d0 = *self.data;
        let ghost i0 = self.index as int;
        let ghost ox = self.xlist@;
        let ghost oy = self.ylist@;
        let ghost oz = self.zlist@;
        proof {
            lemma_masks();
        }
        let t = self.tables;
        if i != 0 {
            let ghost z_orig = self.zlist@[i as int];
            let zim1_10_32 = get_zim1_10_32(t, self.zlist[i]);
            let ks = self.data.keystream[self.index + i - 1];
            let bucket = get_zi_2_16(t, ks, zim1_10_32);
            let ghost e = crc_inv_entry(z_orig >> 24u32);
            proof {
                lemma_mask10(crc32inv_spec(z_orig, 0));
                lemma_keystream_index(zim1_10_32);
                lemma_bucket_elems(ks as int, ((zim1_10_32 & 0xffffu32) >> 10u32) as int);
            }
            let mut k: usize = 0;
            while k < bucket.len()
                invariant
                    1 <= i <= 7,
                    self.base_inv(),
                    self.same_frame(old(self)),
                    self.found is None,
                    self.tables == t,
                    t.wf(),
                    z_orig == old(self).zlist@[i as int],
                    e == crc_inv_entry(z_orig >> 24u32),
                    zim1_10_32 == crc32inv_spec(z_orig, 0) & 0xffff_fc00u32,
                    zim1_10_32 & 0x3ffu32 == 0,
                    ks == self.data.keystream@[self.index + i - 1],
                    bucket@ == zi_2_16_bucket(ks as int, ((zim1_10_32 & 0xffffu32) >> 10u32) as int),
                    forall|q: int|
                        0 <= q < bucket@.len() ==> {
                            let w = #[trigger] bucket@[q];
                            &&& w < 65536
                            &&& w % 4 == 0
                            &&& w / 1024 == ((zim1_10_32 & 0xffffu32) >> 10u32) as int
                            &&& keystream_spec(w) == ks
                        },
                    self.zlist@[i as int] & 0xffff_fffcu32 == z_orig & 0xffff_fffcu32,
                    self.zlist@[i as int] >> 8u32 == z_orig >> 8u32,
                    self.zlist@[i as int] & 0xfffcu32 == z_orig & 0xfffcu32,
                    forall|j: int| i < j < 8 ==> #[trigger] self.zlist@[j] == old(self).zlist@[j],
                    forall|j: int|
                        i + 2 <= j < 8 ==> (#[trigger] self.ylist@[j] >> 24u32) == (old(
                            self,
                        ).ylist@[j] >> 24u32),
                    forall|j: int| i <= j < 7 ==> self.zks(j),
                    forall|j: int| i + 2 <= j < 8 ==> self.zchain(j),
                    i < 7 ==> (z_orig >> 8u32) == (crc32inv_spec(self.zlist@[i + 1], 0) >> 8u32),
                    t0 == *t,
                    d0 == *self.data,
                    i0 == self.index as int,
                    ox == old(self).xlist@,
                    oy == old(self).ylist@,
                    oz == old(self).zlist@,
                    ox.len() == 8 && oy.len() == 8 && oz.len() == 8,
                    zim1_10_32 == z_high(oz, i as int),
                    bucket@ == z_bucket(d0, i0, oz, i as int),
                    forall|k2: int|
                        0 <= k2 < k ==> !z_solvable(
                            t0,
                            d0,
                            i0,
                            ox,
                            z_step_y(oy, oz, i as int, z_high(oz, i as int) | #[trigger] bucket@[k2]),
                            z_step_z(oz, i as int, z_high(oz, i as int) | bucket@[k2]),
                            i - 1,
                        ),
                decreases bucket@.len() - k,
            {
                let zim1_2_16 = bucket[k];
                let ghost pre = *self;
                proof {
                    lemma_masks();
                }
                self.zlist.set(i - 1, zim1_10_32 | zim1_2_16);
                let zi = self.zlist[i] & mask(2, 32);
                self.zlist.set(i, zi);
                let zi2 = zi | ((crc32inv(t, zi, 0) ^ self.zlist[i - 1]) >> 8);
                self.zlist.set(i, zi2);
                proof {
                    lemma_or_low_bits(zim1_10_32, zim1_2_16);
                    lemma_zfix(z_orig, e, zim1_2_16);
                    let zm = z_orig & 0xffff_fffcu32;
                    assert(zi == zm);
                    assert(crc32inv_spec(zi, 0) == (zm << 8u32) ^ e ^ (0u8 as u32));
                    assert(crc32inv_spec(zi2, 0) == (zi2 << 8u32) ^ e ^ (0u8 as u32));
                    assert(self.zks(i - 1));
                    if i < 7 {
                        assert(pre.zks(i as int));
                        assert(self.zks(i as int));
                    }
                }
                if i < 7 {
                    let y = get_yi_24_32(t, self.zlist[i + 1], self.zlist[i]);
                    self.ylist.set(i + 1, y);
                    proof {
                        lemma_zchain(self.zlist@[i + 1], zi2);
                        assert(self.zchain(i + 1));
                    }
                }
                proof {
                    assert forall|j: int| i + 2 <= j < 8 implies self.zchain(j) by {
                        assert(pre.zchain(j));
                        assert(self.zlist@[j] == pre.zlist@[j]);
                        assert(self.zlist@[j - 1] == pre.zlist@[j - 1]);
                        assert(self.ylist@[j] == pre.ylist@[j]);
                    }
                    assert forall|j: int| i < j < 7 implies self.zks(j) by {
                        assert(pre.zks(j));
                        assert(self.zlist@[j] == pre.zlist@[j]);
                    }
                }
                let ghost pre2 = *self;
                let ghost w = z_high(oz, i as int) | bucket@[k as int];
                proof {
                    assert(w == zim1_10_32 | zim1_2_16);
                    assert(zi2 == z_fixed(oz, i as int, w));
                    let ya = z_step_y(oy, oz, i as int, w);
                    let za = z_step_z(oz, i as int, w);
                    assert(z_agree(pre2.ylist@, pre2.zlist@, ya, za, i - 1)) by {
                        assert forall|j: int| i - 1 < j < 8 implies #[trigger] pre2.zlist@[j] == za[j] by {
                            if j > i {
                                assert(pre.zlist@[j] == oz[j]);
                            }
                        }
                        assert forall|j: int| i + 1 <= j < 8 implies (#[trigger] pre2.ylist@[j] >> 24u32) == (ya[j]
                            >> 24u32) by {
                            if j > i + 1 {
                                assert(pre2.ylist@[j] == pre.ylist@[j]);
                                assert((pre.ylist@[j] >> 24u32) == (oy[j] >> 24u32));
                            } else {
                                assert(pre.zlist@[i + 1] == oz[i + 1]);
                            }
                        }
                    }
                    lemma_z_solvable_frame(t0, d0, i0, pre2.xlist@, pre2.ylist@, pre2.zlist@, ox, ya, za, i - 1);
                }
                self.explore_zlists(i - 1);
                if self.found.is_some() {
                    return;
                }
                proof {
                    assert(self.zlist@[i as int] == pre2.zlist@[i as int]);
                    assert forall|j: int| i <= j < 7 implies self.zks(j) by {
                        assert(pre2.zks(j));
                        assert(self.zlist@[j] == pre2.zlist@[j]);
                    }
                    assert forall|j: int| i + 2 <= j < 8 implies self.zchain(j) by {
                        assert(pre2.zchain(j));
                        assert(self.zlist@[j] == pre2.zlist@[j]);
                        assert(self.zlist@[j - 1] == pre2.zlist@[j - 1]);
                        assert((self.ylist@[j] >> 24u32) == (pre2.ylist@[j] >> 24u32));
                    }
                }
                k += 1;
            }
        } else {
            // Z-list complete: iterate over possible Y7 values.
            let mut y7_8_24: u32 = 0;
            let mut prod: u32 = wsub(wmul(MULTINV, msb(self.ylist[7]) as u32) << 24, MULTINV);
            assert(prod == y7_prod(oy, 0));
            while y7_8_24 < 0x100_0000
                invariant
                    t0 == *t,
                    d0 == *self.data,
                    i0 == self.index as int,
                    ox == old(self).xlist@,
                    oy == old(self).ylist@,
                    oz == old(self).zlist@,
                    ox.len() == 8 && oy.len() == 8 && oz.len() == 8,
                    prod == y7_prod(oy, y7_8_24 as int / 256),
                    forall|v2: int, k2: int|
                        0 <= v2 < y7_8_24 as int / 256 && 0 <= k2 < t0.fiber3_at(y7_fiber_index(oy, v2) as int).len()
                            ==> !(#[trigger] y7_choice_ok(oy, v2, t0.fiber3_at(y7_fiber_index(oy, v2) as int)[k2])
                            && y_solvable(
                            t0,
                            d0,
                            i0,
                            ox,
                            oy.update(7, y7_of(oy, v2, t0.fiber3_at(y7_fiber_index(oy, v2) as int)[k2])),
                            oz,
                            7,
                        )),
                    i == 0,
                    self.base_inv(),
                    self.same_frame(old(self)),
                    self.found is None,
                    self.tables == t,
                    t.wf(),
                    y7_8_24 % 256 == 0,
                    y7_8_24 <= 0x100_0000,
                    self.zlist@ == old(self).zlist@,
                    forall|j: int|
                        0 <= j < 8 ==> (#[trigger] self.ylist@[j] >> 24u32) == (old(self).ylist@[j]
                            >> 24u32),
                    forall|j: int| 0 <= j < 7 ==> self.zks(j),
                    forall|j: int| 2 <= j < 8 ==> self.zchain(j),
                decreases 0x100_0000 - y7_8_24,
            {
                let idx = msb(self.ylist[6]).wrapping_sub(msb(prod));
                let ghost v = y7_8_24 as int / 256;
                proof {
                    assert(self.ylist@[6] >> 24u32 == oy[6] >> 24u32);
                    assert(idx == y7_fiber_index(oy, v));
                }
                let f = fiber3(t, idx);
                let mut k: usize = 0;
                while k < f.len()
                    invariant
                        t0 == *t,
                        d0 == *self.data,
                        i0 == self.index as int,
                        ox == old(self).xlist@,
                        oy == old(self).ylist@,
                        oz == old(self).zlist@,
                        ox.len() == 8 && oy.len() == 8 && oz.len() == 8,
                        i == 0,
                        v == y7_8_24 as int / 256,
                        prod == y7_prod(oy, v),
                        f@ == t0.fiber3_at(y7_fiber_index(oy, v) as int),
                        forall|v2: int, k2: int|
                            0 <= v2 < v && 0 <= k2 < t0.fiber3_at(y7_fiber_index(oy, v2) as int).len() ==> !(
                            #[trigger] y7_choice_ok(oy, v2, t0.fiber3_at(y7_fiber_index(oy, v2) as int)[k2])
                                && y_solvable(
                                t0,
                                d0,
                                i0,
                                ox,
                                oy.update(7, y7_of(oy, v2, t0.fiber3_at(y7_fiber_index(oy, v2) as int)[k2])),
                                oz,
                                7,
                            )),
                        forall|k2: int|
                            0 <= k2 < k ==> !(#[trigger] y7_choice_ok(oy, v, f@[k2]) && y_solvable(
                                t0,
                                d0,
                                i0,
                                ox,
                                oy.update(7, y7_of(oy, v, f@[k2])),
                                oz,
                                7,
                            )),
                        self.base_inv(),
                        self.same_frame(old(self)),
                        self.found is None,
                        self.tables == t,
                        t.wf(),
                        y7_8_24 % 256 == 0,
                        y7_8_24 < 0x100_0000,
                        self.zlist@ == old(self).zlist@,
                        forall|j: int|
                            0 <= j < 8 ==> (#[trigger] self.ylist@[j] >> 24u32) == (old(
                                self,
                            ).ylist@[j] >> 24u32),
                        forall|j: int| 0 <= j < 7 ==> self.zks(j),
                        forall|j: int| 2 <= j < 8 ==> self.zchain(j),
                    decreases f@.len() - k,
                {
                    let y7_0_8 = f[k];
                    let c = wsub(wadd(prod, wmul(MULTINV, y7_0_8 as u32)), self.ylist[6] & mask(24, 32))
                        <= maxdiff(24);
                    proof {
                        lemma_masks();
                        lemma_high_mask(self.ylist@[6], oy[6]);
                        assert(c == y7_choice_ok(oy, v, y7_0_8));
                        assert(f@[k as int] == y7_0_8);
                    }
                    if c {
                        proof {
                            lemma_masks();
                        }
                        let y7 = (y7_0_8 as u32) | y7_8_24 | (self.ylist[7] & mask(24, 32));
                        proof {
                            lemma_u8_low(y7_0_8, self.ylist@[7], y7_8_24);
                        }
                        let ghost pre = *self;
                        self.ylist.set(7, y7);
                        proof {
                            assert forall|j: int| 2 <= j < 8 implies self.zchain(j) by {
                                assert(pre.zchain(j));
                                assert((self.ylist@[j] >> 24u32) == (pre.ylist@[j] >> 24u32));
                            }
                            assert forall|j: int| 0 <= j < 7 implies self.zks(j) by {
                                assert(pre.zks(j));
                            }
                        }
                        let ghost pre2 = *self;
                        proof {
                            lemma_high_mask(pre.ylist@[7], oy[7]);
                            assert(y7_8_24 == (v * 256) as u32);
                            assert(y7 == y7_of(oy, v, y7_0_8));
                            let ya = oy.update(7, y7);
                            assert(pre2.ylist@ == pre.ylist@.update(7, y7));
                            assert(y_agree(pre2.xlist@, pre2.ylist@, ox, ya, 7)) by {
                                assert forall|j: int| 2 <= j < 8 implies (#[trigger] pre2.ylist@[j] >> 24u32) == (
                                ya[j] >> 24u32) by {
                                    if j < 7 {
                                        assert((pre.ylist@[j] >> 24u32) == (oy[j] >> 24u32));
                                    }
                                }
                                assert forall|j: int| 7 <= j < 8 implies #[trigger] pre2.ylist@[j] == ya[j] by {
                                }
                            }
                            lemma_y_solvable_frame(t0, d0, i0, pre2.xlist@, pre2.ylist@, ox, ya, oz, 7);
                        }
                        self.explore_ylists(7);
                        if self.found.is_some() {
                            proof {
                                let yb = t0.fiber3_at(y7_fiber_index(oy, v) as int)[k as int];
                                assert(yb == y7_0_8);
                                assert(y7_choice_ok(oy, v, yb));
                                assert(pre2.tables == old(self).tables && pre2.data == old(self).data);
                                assert(y_solvable(t0, d0, i0, ox, oy.update(7, y7_of(oy, v, yb)), oz, 7));
                                assert(0 <= v < 65536);
                                assert(z_solvable(t0, d0, i0, ox, oy, oz, 0));
                                assert(t0 == *old(self).tables);
                                assert(d0 == *old(self).data);
                                assert(i0 == old(self).index as int);
                                assert(i == 0);
                            }
                            return;
                        }
                        proof {
                            assert forall|j: int| 0 <= j < 7 implies self.zks(j) by {
                                assert(pre2.zks(j));
                            }
                            assert forall|j: int| 2 <= j < 8 implies self.zchain(j) by {
                                assert(pre2.zchain(j));
                                assert((self.ylist@[j] >> 24u32) == (pre2.ylist@[j] >> 24u32));
                            }
                        }
                    }
                    k += 1;
                }
                y7_8_24 += 0x100;
                prod = wadd(prod, MULTINV << 8);
                proof {
                    assert(y7_8_24 as int / 256 == v + 1);
                    assert(prod == y7_prod(oy, v + 1));
                }
            }
        }
    }

    /// Try one Zi[2,32) candidate for position `index + 7`.
    fn carryout(&mut self, z7_2_32: u32) -> (r: bool)
        requires
            old(self).base_inv(),
            old(self).found is None,
        ensures
            final(self).base_inv(),
            final(self).same_frame(old(self)),
            final(self).found matches Some(k) ==> (keystream_spec(z7_2_32)
                == old(self).data.keystream@[old(self).index + 7] ==> sound(
                k,
                old(self).data.ciphertext@,
                old(self).data.plaintext@,
                old(self).data.offset as int,
            )),
            r == final(self).found is Some,
            r == candidate_solvable(*old(self).tables, *old(self).data, old(self).index as int, z7_2_32),
    {
        self.zlist.set(7, z7_2_32);
        proof {
            let zeros = Seq::new(8, |j: int| 0u32);
            assert(z_agree(self.ylist@, self.zlist@, zeros, zeros.update(7, z7_2_32), 7));
            lemma_z_solvable_frame(
                *self.tables,
                *self.data,
                self.index as int,
                self.xlist@,
                self.ylist@,
                self.zlist@,
                zeros,
                zeros,
                zeros.update(7, z7_2_32),
                7,
            );
        }
        self.explore_zlists(7);
        proof {
            assert(keystream_spec(self.zlist@[7]) == keystream_spec(z7_2_32));
        }
        self.found.is_some()
    }
}

/// Run the attack over an explicit set of Zi[2,32) candidates for keystream
/// position `zi_index`, one candidate after the other, stopping at the first
/// that yields keys. `on_progress` receives per-mille values in 500..=1000
/// after every 64 candidates.
pub fn attack_over_candidates<P: Fn(u32), C: Fn() -> bool>(
    data: &Data,
    t: &Tables,
    candidates: &Vec<u32>,
    zi_index: usize,
    on_progress: &P,
    is_cancelled: &C,
) -> (r: Result<Option<Keys>, AttackError>)
    requires
        data.wf(),
        t.wf(),
        CONTIGUOUS_SIZE - 1 <= zi_index < data.plaintext@.len(),
        forall|x: u32| on_progress.requires((x,)),
        is_cancelled.requires(()),
    ensures
        r matches Ok(Some(k)) ==> ((forall|j: int|
            0 <= j < candidates@.len() ==> keystream_spec(#[trigger] candidates@[j])
                == data.keystream@[zi_index as int]) ==> sound(
            k,
            data.ciphertext@,
            data.plaintext@,
            data.offset as int,
        )),
        r is Err ==> r == Err::<Option<Keys>, AttackError>(AttackError::Cancelled),
        r is Err ==> is_cancelled.ensures((), true),
        r matches Ok(None) ==> forall|j: int|
            0 <= j < candidates@.len() ==> !candidate_solvable(
                *t,
                *data,
                zi_index - (CONTIGUOUS_SIZE - 1),
                #[trigger] candidates@[j],
            ),
        r matches Ok(Some(_)) ==> exists|j: int|
            0 <= j < candidates@.len() && candidate_solvable(
                *t,
                *data,
                zi_index - (CONTIGUOUS_SIZE - 1),
                #[trigger] candidates@[j],
            ) && forall|q: int|
                0 <= q < j ==> !candidate_solvable(
                    *t,
                    *data,
                    zi_index - (CONTIGUOUS_SIZE - 1),
                    #[trigger] candidates@[q],
                ),
{
    let n = candidates.len();
    if n == 0 {
        return Ok(None);
    }
    let mut worker = Attack::new(data, t, zi_index);
    let mut i: usize = 0;
    while i < n
        invariant
            n == candidates@.len(),
            worker.base_inv(),
            worker.found is None,
            worker.data == data,
            worker.index == zi_index - (CONTIGUOUS_SIZE - 1),
            forall|x: u32| on_progress.requires((x,)),
            is_cancelled.requires(()),
            *worker.tables == *t,
            i <= n,
            forall|j: int|
                0 <= j < i ==> !candidate_solvable(
                    *t,
                    *data,
                    zi_index - (CONTIGUOUS_SIZE - 1),
                    #[trigger] candidates@[j],
                ),
        decreases n - i,
    {
        if is_cancelled() {
            return Err(AttackError::Cancelled);
        }
        if worker.carryout(candidates[i]) {
            return Ok(worker.found);
        }
        let d = i + 1;
        if d % 64 == 0 {
            assert(500 * (d as int) / (n as int) <= 500) by (nonlinear_arith)
                requires
                    d <= n,
                    n >= 1,
            ;
            let permille = (500 + 500u128 * (d as u128) / (n as u128)) as u32;
            on_progress(permille);
        }
        i += 1;
    }
    Ok(None)
}

/// Keys that decipher the known plaintext leave bits [10,32) of their Z
/// value at each keystream position among the candidates that the
/// reduction reaches there: the reduction never drops the right keys.
pub proof fn lemma_sound_keys_survive_reduction(d: Data, k: Keys, idx: int)
    requires
        d.wf(),
        sound(k, d.ciphertext@, d.plaintext@, d.offset as int),
        0 <= idx < d.keystream@.len(),
    ensures
        zreach(
            d.keystream@,
            zinit_set(d.keystream@),
            d.keystream@.len() - 1,
            idx,
        ).contains(state_at(k, d.ciphertext@, (d.offset + idx) as nat).z & 0xffff_fc00u32),
{
    let ks = d.keystream@;
    let ct = d.ciphertext@;
    let pt = d.plaintext@;
    let off = d.offset as int;
    let z = Seq::new(ks.len(), |j: int| state_at(k, ct, (off + j) as nat).z);
    assert forall|j: int| idx <= j < ks.len() implies keystream_spec(#[trigger] z[j]) == ks[j] by {
        let kz = keystream_spec(state_at(k, ct, (off + j) as nat).z);
        let c = ct[off + j];
        assert(plain_at(k, ct, (off + j) as nat) == pt[j]);
        assert(pt[j] == c ^ kz);
        assert((c ^ kz) ^ c == kz) by (bit_vector);
        assert(ks[j] == pt[j] ^ c);
    }
    assert forall|j: int| idx < j < ks.len() implies #[trigger] z_linked(z, j) by {
        let n = (off + j) as nat;
        let prev = state_at(k, ct, (n - 1) as nat);
        let p = ct[n - 1] ^ keystream_spec(prev.z);
        let y = update_spec(prev, p).y;
        let b = (y >> 24u32) as u8;
        assert(state_at(k, ct, n) == update_spec(prev, p));
        lemma_crc32_inverse_after(prev.z, b);
        assert((n - 1) as nat == (off + (j - 1)) as nat);
        assert(z[j - 1] == crc32inv_spec(z[j], b));
    }
    lemma_reduction_keeps_chain(ks, z, idx);
}

/// Whether the key search came out empty for this data and these tables:
/// no Zi[2,32) candidate at position `idx` (the completions of the
/// candidates that the reduction reached there from the last keystream
/// position) leads to complete lists that pass every test.
pub open spec fn search_exhausted_with(t: Tables, d: Data, idx: int) -> bool {
    let ks = d.keystream@;
    forall|c: u32|
        #[trigger] zcomplete(ks, zreach(ks, zinit_set(ks), ks.len() - 1, idx), idx).contains(c)
            ==> !candidate_solvable(t, d, idx - (CONTIGUOUS_SIZE - 1), c)
}

/// Whether the attack on known plaintext `pt` at `offset` of ciphertext
/// `ct` searched every candidate that the keystream leaves and found none
/// that passes every test.
pub open spec fn search_exhausted(ct: Seq<u8>, pt: Seq<u8>, offset: int) -> bool {
    exists|t: Tables, d: Data, idx: int|
        #![trigger search_exhausted_with(t, d, idx)]
        t.wf() && d.wf() && d.ciphertext@ == ct && d.plaintext@ == pt && d.offset == ENCRYPTION_HEADER_SIZE + offset
            && CONTIGUOUS_SIZE - 1 <= idx < pt.len() && search_exhausted_with(t, d, idx)
}

/// Recover the internal keys from ciphertext (including the 12-byte
/// encryption header) and a run of known plaintext at `offset` (relative to
/// the ciphertext without the header, may be negative).
///
/// `on_progress` receives per-mille values (0..=500 for the reduction,
/// 500..=1000 for the search), `is_cancelled` is polled to abort, and
/// `on_log` receives the number of candidates left after the reduction.
pub fn recover_keys<P: Fn(u32), C: Fn() -> bool, L: Fn(usize)>(
    ciphertext: &[u8],
    plaintext: Vec<u8>,
    offset: i32,
    on_progress: P,
    is_cancelled: C,
    on_log: L,
) -> (r: Result<Keys, AttackError>)
    requires
        forall|x: u32| on_progress.requires((x,)),
        is_cancelled.requires(()),
        forall|n: usize| on_log.requires((n,)),
    ensures
        match r {
            Ok(k) => {
                &&& data_error(
                    ciphertext@.len() as int,
                    plaintext@.len() as int,
                    offset as int,
                ) is None
                &&& sound(k, ciphertext@, plaintext@, ENCRYPTION_HEADER_SIZE + offset)
            },
            Err(AttackError::Data(e)) => data_error(
                ciphertext@.len() as int,
                plaintext@.len() as int,
                offset as int,
            ) == Some(e),
            Err(AttackError::Cancelled) => data_error(
                ciphertext@.len() as int,
                plaintext@.len() as int,
                offset as int,
            ) is None && is_cancelled.ensures((), true),
            Err(AttackError::NoSolution) => data_error(
                ciphertext@.len() as int,
                plaintext@.len() as int,
                offset as int,
            ) is None && search_exhausted(ciphertext@, plaintext@, offset as int),
        },
{
    let ghost pt = plaintext@;
    let data = match Data::new(ciphertext, plaintext, offset) {
        Ok(d) => d,
        Err(e) => {
            return Err(AttackError::Data(e));
        },
    };
    let t = build_tables();

    // Z reduction (progress 0..500).
    let (mut zi_vector, mut index) = zreduction_init(&t, &data.keystream);
    if data.keystream.len() > CONTIGUOUS_SIZE {
        match zreduction_reduce(&t, &data.keystream, &mut zi_vector, &mut index, &on_progress, &is_cancelled) {
            Ok(()) => {},
            Err(e) => {
                return Err(e);
            },
        }
    }
    zreduction_generate(&t, &data.keystream, &mut zi_vector, index);
    on_log(zi_vector.len());

    // Attack (progress 500..1000).
    match attack_over_candidates(&data, &t, &zi_vector, index, &on_progress, &is_cancelled) {
        Ok(Some(keys)) => Ok(keys),
        Ok(None) => {
            proof {
                let ks = data.keystream@;
                assert forall|c: u32|
                    #[trigger] zcomplete(ks, zreach(ks, zinit_set(ks), ks.len() - 1, index as int), index as int).contains(c)
                        implies !candidate_solvable(t, data, index - (CONTIGUOUS_SIZE - 1), c) by {
                    assert(zi_vector@.contains(c));
                    let j = choose|j: int| 0 <= j < zi_vector@.len() && zi_vector@[j] == c;
                }
                assert(search_exhausted_with(t, data, index as int));
            }
            Err(AttackError::NoSolution)
        },
        Err(e) => Err(e),
    }
}

/// What deciphering an entry (ciphertext including its header) with keys `k`
/// gives: every byte after the 12-byte header, deciphered.
pub open spec fn decipher_spec(k: Keys, ct: Seq<u8>) -> Seq<u8> {
    Seq::new(
        if ct.len() >= ENCRYPTION_HEADER_SIZE {
            (ct.len() - ENCRYPTION_HEADER_SIZE) as nat
        } else {
            0
        },
        |i: int| plain_at(k, ct, (i + ENCRYPTION_HEADER_SIZE) as nat),
    )
}

/// Keys that decipher the known plaintext at its offset (such as the keys
/// `recover_keys` returns) give that plaintext back when the entry is
/// deciphered with `decipher`, at the same offset.
pub proof fn lemma_decipher_recovers_plaintext(k: Keys, ct: Seq<u8>, pt: Seq<u8>, offset: int)
    requires
        0 <= offset,
        ENCRYPTION_HEADER_SIZE + offset + pt.len() <= ct.len(),
        sound(k, ct, pt, ENCRYPTION_HEADER_SIZE + offset),
    ensures
        decipher_spec(k, ct).subrange(offset, offset + pt.len()) == pt,
{
    assert forall|j: int| 0 <= j < pt.len() implies decipher_spec(k, ct).subrange(
        offset,
        offset + pt.len(),
    )[j] == pt[j] by {
        assert(plain_at(k, ct, (ENCRYPTION_HEADER_SIZE + offset + j) as nat) == pt[j]);
    }
    assert(decipher_spec(k, ct).subrange(offset, offset + pt.len()) =~= pt);
}

} // verus!
