//! Character-level helpers shared by the text codecs: taking a string apart
//! into its characters and building one from characters.
use vstd::prelude::*;
use vstd::std_specs::iter::IteratorSpec;
use vstd::string::StringExecFns;

verus! {

/// The characters of a string, in order.
pub fn chars_of(s: &str) -> (v: Vec<char>)
    ensures
        v@ == s@,
{
    broadcast use vstd::string::axiom_spec_iter, vstd::string::next_postcondition;

    let mut v: Vec<char> = Vec::new();
    let mut it = s.chars();
    loop
        invariant_except_break
            v@ + it.remaining() == s@,
            it.obeys_prophetic_iter_laws(),
            it.decrease() is Some,
        ensures
            v@ == s@,
        decreases it.decrease()->0,
    {
        match it.next() {
            Some(c) => {
                assert(v@.push(c) + it.remaining() =~= s@);
                v.push(c);
            },
            None => {
                assert(v@ =~= s@);
                break ;
            },
        }
    }
    v
}

/// Append one character to a string: calls `String::push`, which appends the
/// character at the end.
#[verifier::external_body]
pub(crate) fn push_char(s: &mut String, c: char)
    ensures
        final(s)@ == old(s)@.push(c),
{
    s.push(c);
}

/// The string made of the given characters.
pub fn string_from_chars(v: &[char]) -> (s: String)
    ensures
        s@ == v@,
{
    let mut s = String::new();
    let mut i: usize = 0;
    while i < v.len()
        invariant
            i <= v.len(),
            s@ == v@.take(i as int),
        decreases v.len() - i,
    {
        proof {
            assert(v@.take(i + 1) =~= v@.take(i as int).push(v@[i as int]));
        }
        push_char(&mut s, v[i]);
        i += 1;
    }
    proof {
        assert(v@.take(v.len() as int) =~= v@);
    }
    s
}

/// The character of a decimal digit.
pub open spec fn digit_char(d: nat) -> char {
    (d + 48) as char
}

/// The decimal representation of a number, without sign or leading zeros.
pub open spec fn decimal(n: nat) -> Seq<char>
    decreases n,
{
    if n < 10 {
        seq![digit_char(n)]
    } else {
        decimal(n / 10).push(digit_char(n % 10))
    }
}

/// The character of a decimal digit.
pub fn digit_to_char(d: u8) -> (c: char)
    requires
        d < 10,
    ensures
        c == digit_char(d as nat),
{
    (d + 48) as char
}

/// Append the decimal representation of `n` to `s`.
pub fn push_decimal(s: &mut String, n: u64)
    ensures
        final(s)@ == old(s)@ + decimal(n as nat),
    decreases n,
{
    if n < 10 {
        push_char(s, digit_to_char(n as u8));
        assert(final(s)@ =~= old(s)@ + decimal(n as nat));
    } else {
        push_decimal(s, n / 10);
        push_char(s, digit_to_char((n % 10) as u8));
        assert(final(s)@ =~= old(s)@ + decimal(n as nat));
    }
}

/// A signed decimal number.
pub open spec fn signed_decimal(v: int) -> Seq<char> {
    if v < 0 {
        seq!['-'] + decimal((-v) as nat)
    } else {
        decimal(v as nat)
    }
}

/// Append a signed decimal number.
pub fn push_signed(s: &mut String, v: i64)
    ensures
        final(s)@ == old(s)@ + signed_decimal(v as int),
{
    if v < 0 {
        push_char(s, '-');
        let m: u64 = (-(v + 1)) as u64 + 1;
        push_decimal(s, m);
        assert(final(s)@ =~= old(s)@ + signed_decimal(v as int));
    } else {
        push_decimal(s, v as u64);
    }
}

/// Append `t` to `s`.
pub fn push_str(s: &mut String, t: &str)
    ensures
        final(s)@ == old(s)@ + t@,
{
    s.append(t);
}

/// Unicode white space (the characters for which `char::is_whitespace` holds).
pub open spec fn is_white(c: char) -> bool {
    ||| ('\u{9}' <= c && c <= '\u{d}')
    ||| c == ' '
    ||| c == '\u{85}'
    ||| c == '\u{a0}'
    ||| c == '\u{1680}'
    ||| ('\u{2000}' <= c && c <= '\u{200a}')
    ||| c == '\u{2028}'
    ||| c == '\u{2029}'
    ||| c == '\u{202f}'
    ||| c == '\u{205f}'
    ||| c == '\u{3000}'
}

/// Whether `c` is Unicode white space.
pub fn is_whitespace(c: char) -> (b: bool)
    ensures
        b == is_white(c),
{
    ('\u{9}' <= c && c <= '\u{d}') || c == ' ' || c == '\u{85}' || c == '\u{a0}' || c == '\u{1680}'
        || ('\u{2000}' <= c && c <= '\u{200a}') || c == '\u{2028}' || c == '\u{2029}' || c
        == '\u{202f}' || c == '\u{205f}' || c == '\u{3000}'
}

/// Whether `s` holds a character that is not white space (whether it is
/// nonempty once trimmed).
pub open spec fn has_non_white(s: Seq<char>) -> bool {
    exists|k: int| 0 <= k < s.len() && !is_white(#[trigger] s[k])
}

/// Whether `s` is nonempty once white space is trimmed from both ends.
pub fn not_blank(s: &str) -> (b: bool)
    ensures
        b == has_non_white(s@),
{
    let cs = chars_of(s);
    let mut i: usize = 0;
    while i < cs.len()
        invariant
            i <= cs.len(),
            cs@ == s@,
            forall|k: int| 0 <= k < i ==> is_white(#[trigger] cs@[k]),
        decreases cs.len() - i,
    {
        if !is_whitespace(cs[i]) {
            return true;
        }
        i += 1;
    }
    false
}

/// `s` without leading white space.
pub open spec fn trim_start_spec(s: Seq<char>) -> Seq<char>
    decreases s.len(),
{
    if s.len() > 0 && is_white(s[0]) {
        trim_start_spec(s.skip(1))
    } else {
        s
    }
}

/// `s` without trailing white space.
pub open spec fn trim_end_spec(s: Seq<char>) -> Seq<char>
    decreases s.len(),
{
    if s.len() > 0 && is_white(s.last()) {
        trim_end_spec(s.drop_last())
    } else {
        s
    }
}

/// `s` without leading and trailing white space (`str::trim`).
pub open spec fn trim_spec(s: Seq<char>) -> Seq<char> {
    trim_end_spec(trim_start_spec(s))
}

/// The characters of `s` without leading and trailing white space.
pub fn trim_chars(s: &[char]) -> (t: Vec<char>)
    ensures
        t@ == trim_spec(s@),
{
    let n = s.len();
    let mut a: usize = 0;
    assert(s@.skip(0) =~= s@);
    while a < n && is_whitespace(s[a])
        invariant
            a <= n,
            n == s.len(),
            trim_start_spec(s@.skip(a as int)) == trim_start_spec(s@),
        decreases n - a,
    {
        assert(s@.skip(a as int).skip(1) =~= s@.skip(a + 1));
        a += 1;
    }
    let ghost st = s@.skip(a as int);
    assert(trim_start_spec(st) == st);
    let mut b: usize = n;
    assert(st.take((b - a) as int) =~= st);
    while b > a && is_whitespace(s[b - 1])
        invariant
            a <= b <= n,
            n == s.len(),
            st == s@.skip(a as int),
            trim_end_spec(st.take((b - a) as int)) == trim_end_spec(st),
        decreases b,
    {
        assert(st.take((b - a) as int).drop_last() =~= st.take((b - 1 - a) as int));
        b -= 1;
    }
    let ghost fin = st.take((b - a) as int);
    assert(trim_end_spec(fin) == fin);
    let mut t: Vec<char> = Vec::new();
    let mut i: usize = a;
    while i < b
        invariant
            a <= i <= b,
            b <= n,
            n == s.len(),
            t@ == s@.subrange(a as int, i as int),
        decreases b - i,
    {
        t.push(s[i]);
        assert(s@.subrange(a as int, i + 1) =~= s@.subrange(a as int, i as int).push(s@[i as int]));
        i += 1;
    }
    assert(t@ =~= fin);
    t
}

/// Whether two character sequences are equal.
pub fn chars_eq(a: &[char], b: &[char]) -> (r: bool)
    ensures
        r == (a@ == b@),
{
    if a.len() != b.len() {
        return false;
    }
    let mut i: usize = 0;
    while i < a.len()
        invariant
            i <= a.len(),
            a.len() == b.len(),
            forall|k: int| 0 <= k < i ==> a@[k] == b@[k],
        decreases a.len() - i,
    {
        if a[i] != b[i] {
            return false;
        }
        i += 1;
    }
    assert(a@ =~= b@);
    true
}

/// ASCII letters.
pub open spec fn is_alpha(c: char) -> bool {
    ('a' <= c && c <= 'z') || ('A' <= c && c <= 'Z')
}

/// ASCII digits.
pub open spec fn is_digit(c: char) -> bool {
    '0' <= c && c <= '9'
}

/// ASCII letters and digits.
pub open spec fn is_alnum(c: char) -> bool {
    is_alpha(c) || is_digit(c)
}

/// The ASCII upper case of `c`; other characters unchanged.
pub open spec fn upper(c: char) -> char {
    if 'a' <= c && c <= 'z' {
        ((c as int) - 32) as char
    } else {
        c
    }
}

/// The ASCII lower case of `c`; other characters unchanged.
pub open spec fn lower(c: char) -> char {
    if 'A' <= c && c <= 'Z' {
        ((c as int) + 32) as char
    } else {
        c
    }
}

/// Whether `c` is an ASCII letter.
pub fn is_ascii_alpha(c: char) -> (b: bool)
    ensures
        b == is_alpha(c),
{
    ('a' <= c && c <= 'z') || ('A' <= c && c <= 'Z')
}

/// Whether `c` is an ASCII digit.
pub fn is_ascii_digit(c: char) -> (b: bool)
    ensures
        b == is_digit(c),
{
    '0' <= c && c <= '9'
}

/// Whether `c` is an ASCII letter or digit.
pub fn is_ascii_alnum(c: char) -> (b: bool)
    ensures
        b == is_alnum(c),
{
    is_ascii_alpha(c) || is_ascii_digit(c)
}

/// The ASCII upper case of `c`.
pub fn to_upper(c: char) -> (u: char)
    ensures
        u == upper(c),
{
    if 'a' <= c && c <= 'z' {
        let v = #[verifier::truncate] (c as u32) as u8;
        assert(v as int == c as int) by {
            assert(c as int <= 122);
        }
        (v - 32) as char
    } else {
        c
    }
}

/// The ASCII lower case of `c`.
pub fn to_lower(c: char) -> (l: char)
    ensures
        l == lower(c),
{
    if 'A' <= c && c <= 'Z' {
        let v = #[verifier::truncate] (c as u32) as u8;
        assert(v as int == c as int) by {
            assert(c as int <= 90);
        }
        (v + 32) as char
    } else {
        c
    }
}

/// What `str::to_uppercase` gives for a string: its Unicode upper case.
pub uninterp spec fn unicode_upper(s: Seq<char>) -> Seq<char>;

/// What `str::to_lowercase` gives for a string: its Unicode lower case.
pub uninterp spec fn unicode_lower(s: Seq<char>) -> Seq<char>;

/// `str::to_uppercase`: the Unicode upper case of `s`, which is a function
/// of `s` alone.
#[verifier::external_body]
pub(crate) fn str_to_uppercase(s: &str) -> (r: String)
    ensures
        r@ == unicode_upper(s@),
{
    s.to_uppercase()
}

/// `str::to_lowercase`: the Unicode lower case of `s`, which is a function
/// of `s` alone.
#[verifier::external_body]
pub(crate) fn str_to_lowercase(s: &str) -> (r: String)
    ensures
        r@ == unicode_lower(s@),
{
    s.to_lowercase()
}

/// What `String::from_utf8_lossy` gives for bytes: the text they encode in
/// UTF-8, each invalid sequence replaced by U+FFFD.
pub uninterp spec fn utf8_lossy(b: Seq<u8>) -> Seq<char>;

/// `String::from_utf8_lossy`: the text of UTF-8 bytes, invalid sequences
/// replaced; a function of the bytes alone.
#[verifier::external_body]
pub(crate) fn string_from_utf8_lossy(b: &[u8]) -> (s: String)
    ensures
        s@ == utf8_lossy(b@),
{
    String::from_utf8_lossy(b).into_owned()
}

/// The value of ASCII decimal digits.
pub open spec fn dec_value(ds: Seq<char>) -> int
    decreases ds.len(),
{
    if ds.len() == 0 {
        0
    } else {
        dec_value(ds.drop_last()) * 10 + (ds.last() as int - 48)
    }
}

/// What `usize::from_str` gives: an optional `+`, then one or more ASCII
/// digits whose value fits in `usize`.
pub open spec fn parse_usize_spec(s: Seq<char>) -> Option<int> {
    parse_digits_spec(
        if s.len() > 0 && s[0] == '+' {
            s.skip(1)
        } else {
            s
        },
    )
}

/// One or more ASCII digits whose value fits in `usize`.
pub open spec fn parse_digits_spec(ds: Seq<char>) -> Option<int> {
    if ds.len() > 0 && (forall|k: int| 0 <= k < ds.len() ==> #[trigger] is_digit(ds[k])) && dec_value(
        ds,
    ) <= usize::MAX {
        Some(dec_value(ds))
    } else {
        None
    }
}

proof fn lemma_dec_value_mono(ds: Seq<char>, i: int)
    requires
        0 <= i <= ds.len(),
        forall|k: int| 0 <= k < ds.len() ==> #[trigger] is_digit(ds[k]),
    ensures
        0 <= dec_value(ds.take(i)) <= dec_value(ds),
    decreases ds.len() - i,
{
    if i < ds.len() {
        lemma_dec_value_mono(ds, i + 1);
        assert(ds.take(i + 1).drop_last() =~= ds.take(i));
        assert(is_digit(ds[i]));
        lemma_dec_value_nonneg(ds.take(i));
    } else {
        assert(ds.take(i) =~= ds);
        lemma_dec_value_nonneg(ds);
    }
}

proof fn lemma_dec_value_nonneg(ds: Seq<char>)
    requires
        forall|k: int| 0 <= k < ds.len() ==> #[trigger] is_digit(ds[k]),
    ensures
        dec_value(ds) >= 0,
    decreases ds.len(),
{
    if ds.len() > 0 {
        let t = ds.drop_last();
        assert forall|k: int| 0 <= k < t.len() implies #[trigger] is_digit(t[k]) by {
            assert(t[k] == ds[k]);
        }
        lemma_dec_value_nonneg(t);
        assert(is_digit(ds[ds.len() - 1]));
    }
}

/// Parse a decimal `usize` as `str::parse::<usize>` does.
pub fn parse_usize(s: &[char]) -> (r: Option<usize>)
    ensures
        match (r, parse_usize_spec(s@)) {
            (Some(v), Some(w)) => v == w,
            (None, None) => true,
            _ => false,
        },
{
    let start: usize = if s.len() > 0 && s[0] == '+' {
        1
    } else {
        0
    };
    let ghost ds = if s@.len() > 0 && s@[0] == '+' {
        s@.skip(1)
    } else {
        s@
    };
    assert(ds =~= s@.skip(start as int));
    if start >= s.len() {
        return None;
    }
    let mut v: usize = 0;
    let mut i: usize = start;
    assert(ds.take(0) =~= Seq::<char>::empty());
    while i < s.len()
        invariant
            start <= i <= s.len(),
            ds == s@.skip(start as int),
            ds == (if s@.len() > 0 && s@[0] == '+' {
                s@.skip(1)
            } else {
                s@
            }),
            ds.len() > 0,
            forall|k: int| start <= k < i ==> #[trigger] is_digit(s@[k]),
            v as int == dec_value(ds.take(i - start)),
        decreases s.len() - i,
    {
        let c = s[i];
        assert(ds[i - start] == c);
        if !is_ascii_digit(c) {
            assert(!is_digit(ds[i - start]));
            assert(!(forall|k: int| 0 <= k < ds.len() ==> #[trigger] is_digit(ds[k])));
            assert(parse_digits_spec(ds) is None);
            return None;
        }
        let d = #[verifier::truncate] (c as u32) as usize;
        assert(d as int == c as int) by {
            assert(c as int <= 57);
        }
        assert(ds.take(i + 1 - start).drop_last() =~= ds.take(i - start));
        if v > (usize::MAX - (d - 48)) / 10 {
            proof {
                if forall|k: int| 0 <= k < ds.len() ==> #[trigger] is_digit(ds[k]) {
                    lemma_dec_value_mono(ds, i + 1 - start);
                    assert(ds.take(i + 1 - start).last() == c);
                    assert(dec_value(ds.take(i + 1 - start)) == v * 10 + (d - 48));
                    assert(v * 10 + (d - 48) > usize::MAX) by (nonlinear_arith)
                        requires
                            v > (usize::MAX - (d - 48)) / 10,
                            d - 48 >= 0,
                    ;
                }
                assert(parse_digits_spec(ds) is None);
            }
            return None;
        }
        v = v * 10 + (d - 48);
        i += 1;
    }
    assert(ds.take(s.len() - start) =~= ds);
    Some(v)
}

} // verus!
