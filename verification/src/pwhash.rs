//! bcrypt password hashes, through the `bcrypt` crate: a fresh salted hash,
//! or whether a password matches a `$2b$…` hash.
use vstd::prelude::*;
use crate::error::CoreError;
use crate::text::push_str;
use vstd::string::StringExecFns;
use vstd::string::StringSliceAdditionalSpecFns;

verus! {

/// What `bcrypt::verify` gives for a password's bytes and a hash: whether
/// they match, or the text of its error (a malformed hash, cost or salt).
pub uninterp spec fn bcrypt_verdict(password: Seq<u8>, hash: Seq<char>) -> Result<bool, Seq<char>>;

/// The views of a verdict.
pub open spec fn verdict_view(r: Result<bool, String>) -> Result<bool, Seq<char>> {
    match r {
        Ok(b) => Ok(b),
        Err(s) => Err(s@),
    }
}

/// `bcrypt::verify`: recomputes the hash of the password with the cost and
/// salt written in `hash` and compares; the result is a function of the
/// two arguments alone.
#[verifier::external_body]
fn bcrypt_verify(password: &[u8], hash: &str) -> (r: Result<bool, String>)
    ensures
        verdict_view(r) == bcrypt_verdict(password@, hash@),
{
    match bcrypt::verify(password, hash) {
        Ok(b) => Ok(b),
        Err(e) => Err(e.to_string()),
    }
}

/// `bcrypt::hash`: the hash of the password under a salt drawn from the
/// operating system's randomness, so two calls differ. Its source refuses
/// a cost outside 4 to 31, and a hash it returns is one that `bcrypt::verify`
/// accepts for the same password (verify recomputes with the cost and salt
/// written in the hash, over the same 72-byte, NUL-terminated password).
/// Which salt it draws is not stated.
#[verifier::external_body]
fn bcrypt_hash_raw(password: &[u8], cost: u32) -> (r: Result<String, String>)
    ensures
        match r {
            Ok(s) => 4 <= cost <= 31 && bcrypt_verdict(password@, s@) == Ok::<bool, Seq<char>>(true),
            Err(_) => true,
        },
{
    match bcrypt::hash(password, cost) {
        Ok(s) => Ok(s),
        Err(e) => Err(e.to_string()),
    }
}

/// Whether `password` matches `hash`, and the verdict as text; an error of
/// the check comes back as `Other` with a `bcrypt: ` prefix.
pub fn bcrypt_check(password: &str, hash: &str) -> (r: Result<(bool, String), CoreError>)
    ensures
        match (r, bcrypt_verdict(password.spec_bytes(), hash@)) {
            (Ok((b, t)), Ok(v)) => b == v && t@ == if v {
                "匹配 ✓"@
            } else {
                "不匹配 ✗"@
            },
            (Err(e), Err(m)) => e matches CoreError::Other(msg) && msg@ == "bcrypt: "@ + m,
            _ => false,
        },
{
    match bcrypt_verify(password.as_bytes(), hash) {
        Ok(b) => {
            let t = if b {
                String::from_str("匹配 ✓")
            } else {
                String::from_str("不匹配 ✗")
            };
            Ok((b, t))
        },
        Err(m) => {
            let mut msg = String::new();
            push_str(&mut msg, "bcrypt: ");
            push_str(&mut msg, m.as_str());
            Err(CoreError::Other(msg))
        },
    }
}

/// A fresh bcrypt hash of `password` at `cost`, one that `bcrypt_check`
/// accepts for the same password. Whatever the hashing gives comes back,
/// its error as `Other` with a `bcrypt: ` prefix; a cost outside 4 to 31 is
/// always an error.
pub fn bcrypt_hash(password: &str, cost: u32) -> (r: Result<String, CoreError>)
    ensures
        !(4 <= cost <= 31) ==> r is Err,
        r matches Ok(s) ==> bcrypt_verdict(password.spec_bytes(), s@) == Ok::<bool, Seq<char>>(true),
        r matches Err(e) ==> e matches CoreError::Other(msg) && msg@.len() >= 8 && msg@.take(8) == "bcrypt: "@,
{
    match bcrypt_hash_raw(password.as_bytes(), cost) {
        Ok(s) => Ok(s),
        Err(m) => {
            let mut msg = String::new();
            push_str(&mut msg, "bcrypt: ");
            proof {
                reveal_strlit("bcrypt: ");
            }
            let ghost pre = msg@;
            push_str(&mut msg, m.as_str());
            assert(msg@.take(8) =~= pre);
            Err(CoreError::Other(msg))
        },
    }
}

} // verus!
