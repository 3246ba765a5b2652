//! AES-128/192/256 in CBC, ECB and CTR modes (PKCS#7 padding in the block
//! modes), through the RustCrypto `aes`, `cbc`, `ecb` and `ctr` crates, with
//! key, IV, input and output each written in a byte format.
use vstd::prelude::*;
use ::aes::cipher::block_padding::Pkcs7;
use ::aes::cipher::{BlockDecryptMut, BlockEncryptMut, KeyInit, KeyIvInit, StreamCipher};
use crate::error::CoreError;
use crate::formats::{format_bytes, format_bytes_spec, parse_bytes, parse_bytes_spec};
use crate::text::{decimal, push_decimal, push_str};
use vstd::string::StringExecFns;

verus! {

/// The mode of operation.
#[derive(Debug, Clone, Copy, PartialEq, Eq, Structural)]
pub enum AesMode {
    Cbc,
    Ecb,
    Ctr,
}

/// The view of an optional byte vector.
pub open spec fn opt_view(r: Option<Vec<u8>>) -> Option<Seq<u8>> {
    match r {
        Some(v) => Some(v@),
        None => None,
    }
}

/// What `cbc::Encryptor::encrypt_padded_vec_mut::<Pkcs7>` gives for a key,
/// an IV and a message (the key's length picks AES-128, -192 or -256).
pub uninterp spec fn cbc_encrypted(key: Seq<u8>, iv: Seq<u8>, data: Seq<u8>) -> Seq<u8>;

/// What `cbc::Decryptor::decrypt_padded_vec_mut::<Pkcs7>` gives: the
/// plaintext, or `None` where the length or the padding is wrong.
pub uninterp spec fn cbc_decrypted(key: Seq<u8>, iv: Seq<u8>, data: Seq<u8>) -> Option<Seq<u8>>;

/// What `ecb::Encryptor::encrypt_padded_vec_mut::<Pkcs7>` gives.
pub uninterp spec fn ecb_encrypted(key: Seq<u8>, data: Seq<u8>) -> Seq<u8>;

/// What `ecb::Decryptor::decrypt_padded_vec_mut::<Pkcs7>` gives.
pub uninterp spec fn ecb_decrypted(key: Seq<u8>, data: Seq<u8>) -> Option<Seq<u8>>;

/// What `StreamCipher::apply_keystream` of `ctr::Ctr128BE` makes of the
/// data: the data XOR the keystream of the key and initial counter block.
pub uninterp spec fn ctr_applied(key: Seq<u8>, iv: Seq<u8>, data: Seq<u8>) -> Seq<u8>;

/// `cbc::Encryptor::<Aes128>::new(key, iv).encrypt_padded_vec_mut::<Pkcs7>`.
/// The key and IV conversions panic on other lengths, which `requires`
/// leaves out.
#[verifier::external_body]
fn cbc_encrypt_128(key: &[u8], iv: &[u8], data: &[u8]) -> (r: Vec<u8>)
    requires
        key@.len() == 16,
        iv@.len() == 16,
    ensures
        r@ == cbc_encrypted(key@, iv@, data@),
{
    cbc::Encryptor::<::aes::Aes128>::new(key.into(), iv.into()).encrypt_padded_vec_mut::<Pkcs7>(data)
}

/// `cbc::Decryptor::<Aes128>::new(key, iv).decrypt_padded_vec_mut::<Pkcs7>`,
/// its unpadding error as `None`.
#[verifier::external_body]
fn cbc_decrypt_128(key: &[u8], iv: &[u8], data: &[u8]) -> (r: Option<Vec<u8>>)
    requires
        key@.len() == 16,
        iv@.len() == 16,
    ensures
        opt_view(r) == cbc_decrypted(key@, iv@, data@),
{
    cbc::Decryptor::<::aes::Aes128>::new(key.into(), iv.into()).decrypt_padded_vec_mut::<Pkcs7>(data).ok()
}

/// `ecb::Encryptor::<Aes128>::new(key).encrypt_padded_vec_mut::<Pkcs7>`.
#[verifier::external_body]
fn ecb_encrypt_128(key: &[u8], data: &[u8]) -> (r: Vec<u8>)
    requires
        key@.len() == 16,
    ensures
        r@ == ecb_encrypted(key@, data@),
{
    ecb::Encryptor::<::aes::Aes128>::new(key.into()).encrypt_padded_vec_mut::<Pkcs7>(data)
}

/// `ecb::Decryptor::<Aes128>::new(key).decrypt_padded_vec_mut::<Pkcs7>`, its
/// unpadding error as `None`.
#[verifier::external_body]
fn ecb_decrypt_128(key: &[u8], data: &[u8]) -> (r: Option<Vec<u8>>)
    requires
        key@.len() == 16,
    ensures
        opt_view(r) == ecb_decrypted(key@, data@),
{
    ecb::Decryptor::<::aes::Aes128>::new(key.into()).decrypt_padded_vec_mut::<Pkcs7>(data).ok()
}

/// `ctr::Ctr128BE::<Aes128>::new(key, iv).apply_keystream` on a copy of the
/// data. It panics only at the end of a 128-bit counter's keystream, which
/// no slice reaches.
#[verifier::external_body]
fn ctr_apply_128(key: &[u8], iv: &[u8], data: &[u8]) -> (r: Vec<u8>)
    requires
        key@.len() == 16,
        iv@.len() == 16,
    ensures
        r@ == ctr_applied(key@, iv@, data@),
{
    let mut buf = data.to_vec();
    let mut c = ctr::Ctr128BE::<::aes::Aes128>::new(key.into(), iv.into());
    c.apply_keystream(&mut buf);
    buf
}

/// `cbc::Encryptor::<Aes192>::new(key, iv).encrypt_padded_vec_mut::<Pkcs7>`.
/// The key and IV conversions panic on other lengths, which `requires`
/// leaves out.
#[verifier::external_body]
fn cbc_encrypt_192(key: &[u8], iv: &[u8], data: &[u8]) -> (r: Vec<u8>)
    requires
        key@.len() == 24,
        iv@.len() == 16,
    ensures
        r@ == cbc_encrypted(key@, iv@, data@),
{
    cbc::Encryptor::<::aes::Aes192>::new(key.into(), iv.into()).encrypt_padded_vec_mut::<Pkcs7>(data)
}

/// `cbc::Decryptor::<Aes192>::new(key, iv).decrypt_padded_vec_mut::<Pkcs7>`,
/// its unpadding error as `None`.
#[verifier::external_body]
fn cbc_decrypt_192(key: &[u8], iv: &[u8], data: &[u8]) -> (r: Option<Vec<u8>>)
    requires
        key@.len() == 24,
        iv@.len() == 16,
    ensures
        opt_view(r) == cbc_decrypted(key@, iv@, data@),
{
    cbc::Decryptor::<::aes::Aes192>::new(key.into(), iv.into()).decrypt_padded_vec_mut::<Pkcs7>(data).ok()
}

/// `ecb::Encryptor::<Aes192>::new(key).encrypt_padded_vec_mut::<Pkcs7>`.
#[verifier::external_body]
fn ecb_encrypt_192(key: &[u8], data: &[u8]) -> (r: Vec<u8>)
    requires
        key@.len() == 24,
    ensures
        r@ == ecb_encrypted(key@, data@),
{
    ecb::Encryptor::<::aes::Aes192>::new(key.into()).encrypt_padded_vec_mut::<Pkcs7>(data)
}

/// `ecb::Decryptor::<Aes192>::new(key).decrypt_padded_vec_mut::<Pkcs7>`, its
/// unpadding error as `None`.
#[verifier::external_body]
fn ecb_decrypt_192(key: &[u8], data: &[u8]) -> (r: Option<Vec<u8>>)
    requires
        key@.len() == 24,
    ensures
        opt_view(r) == ecb_decrypted(key@, data@),
{
    ecb::Decryptor::<::aes::Aes192>::new(key.into()).decrypt_padded_vec_mut::<Pkcs7>(data).ok()
}

/// `ctr::Ctr128BE::<Aes192>::new(key, iv).apply_keystream` on a copy of the
/// data. It panics only at the end of a 128-bit counter's keystream, which
/// no slice reaches.
#[verifier::external_body]
fn ctr_apply_192(key: &[u8], iv: &[u8], data: &[u8]) -> (r: Vec<u8>)
    requires
        key@.len() == 24,
        iv@.len() == 16,
    ensures
        r@ == ctr_applied(key@, iv@, data@),
{
    let mut buf = data.to_vec();
    let mut c = ctr::Ctr128BE::<::aes::Aes192>::new(key.into(), iv.into());
    c.apply_keystream(&mut buf);
    buf
}

/// `cbc::Encryptor::<Aes256>::new(key, iv).encrypt_padded_vec_mut::<Pkcs7>`.
/// The key and IV conversions panic on other lengths, which `requires`
/// leaves out.
#[verifier::external_body]
fn cbc_encrypt_256(key: &[u8], iv: &[u8], data: &[u8]) -> (r: Vec<u8>)
    requires
        key@.len() == 32,
        iv@.len() == 16,
    ensures
        r@ == cbc_encrypted(key@, iv@, data@),
{
    cbc::Encryptor::<::aes::Aes256>::new(key.into(), iv.into()).encrypt_padded_vec_mut::<Pkcs7>(data)
}

/// `cbc::Decryptor::<Aes256>::new(key, iv).decrypt_padded_vec_mut::<Pkcs7>`,
/// its unpadding error as `None`.
#[verifier::external_body]
fn cbc_decrypt_256(key: &[u8], iv: &[u8], data: &[u8]) -> (r: Option<Vec<u8>>)
    requires
        key@.len() == 32,
        iv@.len() == 16,
    ensures
        opt_view(r) == cbc_decrypted(key@, iv@, data@),
{
    cbc::Decryptor::<::aes::Aes256>::new(key.into(), iv.into()).decrypt_padded_vec_mut::<Pkcs7>(data).ok()
}

/// `ecb::Encryptor::<Aes256>::new(key).encrypt_padded_vec_mut::<Pkcs7>`.
#[verifier::external_body]
fn ecb_encrypt_256(key: &[u8], data: &[u8]) -> (r: Vec<u8>)
    requires
        key@.len() == 32,
    ensures
        r@ == ecb_encrypted(key@, data@),
{
    ecb::Encryptor::<::aes::Aes256>::new(key.into()).encrypt_padded_vec_mut::<Pkcs7>(data)
}

/// `ecb::Decryptor::<Aes256>::new(key).decrypt_padded_vec_mut::<Pkcs7>`, its
/// unpadding error as `None`.
#[verifier::external_body]
fn ecb_decrypt_256(key: &[u8], data: &[u8]) -> (r: Option<Vec<u8>>)
    requires
        key@.len() == 32,
    ensures
        opt_view(r) == ecb_decrypted(key@, data@),
{
    ecb::Decryptor::<::aes::Aes256>::new(key.into()).decrypt_padded_vec_mut::<Pkcs7>(data).ok()
}

/// `ctr::Ctr128BE::<Aes256>::new(key, iv).apply_keystream` on a copy of the
/// data. It panics only at the end of a 128-bit counter's keystream, which
/// no slice reaches.
#[verifier::external_body]
fn ctr_apply_256(key: &[u8], iv: &[u8], data: &[u8]) -> (r: Vec<u8>)
    requires
        key@.len() == 32,
        iv@.len() == 16,
    ensures
        r@ == ctr_applied(key@, iv@, data@),
{
    let mut buf = data.to_vec();
    let mut c = ctr::Ctr128BE::<::aes::Aes256>::new(key.into(), iv.into());
    c.apply_keystream(&mut buf);
    buf
}

/// A key length that AES takes.
pub open spec fn key_size_ok(n: nat) -> bool {
    n == 16 || n == 24 || n == 32
}

/// The message for a block-mode ciphertext whose length or padding is
/// wrong.
pub open spec fn bad_padding_message() -> Seq<char> {
    "解密失败：密文长度或填充无效"@
}

/// What one AES operation gives. The block modes pad with PKCS#7; CTR is
/// the same both ways. CBC and CTR need a 16-byte IV.
pub open spec fn aes_apply_spec(encrypt: bool, mode: AesMode, key: Seq<u8>, iv: Seq<u8>, data: Seq<u8>) -> Result<
    Seq<u8>,
    Seq<char>,
> {
    match mode {
        AesMode::Ecb => if encrypt {
            Ok(ecb_encrypted(key, data))
        } else {
            match ecb_decrypted(key, data) {
                Some(b) => Ok(b),
                None => Err(bad_padding_message()),
            }
        },
        AesMode::Ctr => if iv.len() != 16 {
            Err("CTR 需要 16 字节 IV(nonce)"@)
        } else {
            Ok(ctr_applied(key, iv, data))
        },
        AesMode::Cbc => if iv.len() != 16 {
            Err("CBC 需要 16 字节 IV"@)
        } else if encrypt {
            Ok(cbc_encrypted(key, iv, data))
        } else {
            match cbc_decrypted(key, iv, data) {
                Some(b) => Ok(b),
                None => Err(bad_padding_message()),
            }
        },
    }
}

fn padding_error() -> (e: CoreError)
    ensures
        e.is_parse_with(bad_padding_message()),
{
    CoreError::Parse(String::from_str("解密失败：密文长度或填充无效"))
}

/// One AES operation with a key of a length AES takes.
pub fn aes_apply(encrypt: bool, mode: AesMode, key: &[u8], iv: &[u8], data: &[u8]) -> (r: Result<Vec<u8>, CoreError>)
    requires
        key_size_ok(key@.len()),
    ensures
        match (r, aes_apply_spec(encrypt, mode, key@, iv@, data@)) {
            (Ok(v), Ok(w)) => v@ == w,
            (Err(e), Err(m)) => e.is_parse_with(m),
            _ => false,
        },
{
    let n = key.len();
    match mode {
        AesMode::Ecb => {
            if encrypt {
                Ok(if n == 16 { ecb_encrypt_128(key, data) } else if n == 24 { ecb_encrypt_192(key, data) } else { ecb_encrypt_256(key, data) })
            } else {
                let d = if n == 16 { ecb_decrypt_128(key, data) } else if n == 24 { ecb_decrypt_192(key, data) } else { ecb_decrypt_256(key, data) };
                match d {
                    Some(v) => Ok(v),
                    None => Err(padding_error()),
                }
            }
        },
        AesMode::Ctr => {
            if iv.len() != 16 {
                return Err(CoreError::Parse(String::from_str("CTR 需要 16 字节 IV(nonce)")));
            }
            Ok(if n == 16 { ctr_apply_128(key, iv, data) } else if n == 24 { ctr_apply_192(key, iv, data) } else { ctr_apply_256(key, iv, data) })
        },
        AesMode::Cbc => {
            if iv.len() != 16 {
                return Err(CoreError::Parse(String::from_str("CBC 需要 16 字节 IV")));
            }
            if encrypt {
                Ok(if n == 16 { cbc_encrypt_128(key, iv, data) } else if n == 24 { cbc_encrypt_192(key, iv, data) } else { cbc_encrypt_256(key, iv, data) })
            } else {
                let d = if n == 16 { cbc_decrypt_128(key, iv, data) } else if n == 24 { cbc_decrypt_192(key, iv, data) } else { cbc_decrypt_256(key, iv, data) };
                match d {
                    Some(v) => Ok(v),
                    None => Err(padding_error()),
                }
            }
        },
    }
}

/// The message for a key of a length AES does not take.
pub open spec fn key_size_message(n: nat) -> Seq<char> {
    "AES 密钥须为 16/24/32 字节(当前 "@ + decimal(n) + ")"@
}

/// What `aes_transform` gives: the key, IV and input read in their formats
/// (in that order, the key's length checked right after the key), the
/// operation applied, and the output also written in the output format.
pub open spec fn aes_transform_spec(
    encrypt: bool,
    mode: AesMode,
    key: Seq<char>,
    key_format: Seq<char>,
    iv: Seq<char>,
    iv_format: Seq<char>,
    input: Seq<char>,
    input_format: Seq<char>,
    output_format: Seq<char>,
) -> Result<(Seq<u8>, Seq<char>), Seq<char>> {
    match parse_bytes_spec(key, key_format) {
        Err(m) => Err(m),
        Ok(k) => if !key_size_ok(k.len()) {
            Err(key_size_message(k.len()))
        } else {
            match parse_bytes_spec(iv, iv_format) {
                Err(m) => Err(m),
                Ok(v) => match parse_bytes_spec(input, input_format) {
                    Err(m) => Err(m),
                    Ok(d) => match aes_apply_spec(encrypt, mode, k, v, d) {
                        Err(m) => Err(m),
                        Ok(out) => Ok((out, format_bytes_spec(out, output_format))),
                    },
                },
            }
        },
    }
}

/// Encrypt or decrypt `input` with AES: the key, IV and input are text in
/// a byte format (`Hex`, `Base64`, `UTF8`); gives the output bytes and
/// their text in `output_format`.
pub fn aes_transform(
    encrypt: bool,
    mode: AesMode,
    key: &str,
    key_format: &str,
    iv: &str,
    iv_format: &str,
    input: &str,
    input_format: &str,
    output_format: &str,
) -> (r: Result<(Vec<u8>, String), CoreError>)
    ensures
        match (
            r,
            aes_transform_spec(encrypt, mode, key@, key_format@, iv@, iv_format@, input@, input_format@, output_format@),
        ) {
            (Ok((b, t)), Ok((w, u))) => b@ == w && t@ == u,
            (Err(e), Err(m)) => e.is_parse_with(m),
            _ => false,
        },
{
    let k = match parse_bytes(key, key_format) {
        Ok(k) => k,
        Err(e) => {
            return Err(e);
        },
    };
    if !(k.len() == 16 || k.len() == 24 || k.len() == 32) {
        let mut m = String::new();
        push_str(&mut m, "AES 密钥须为 16/24/32 字节(当前 ");
        push_decimal(&mut m, k.len() as u64);
        push_str(&mut m, ")");
        return Err(CoreError::Parse(m));
    }
    let v = match parse_bytes(iv, iv_format) {
        Ok(v) => v,
        Err(e) => {
            return Err(e);
        },
    };
    let d = match parse_bytes(input, input_format) {
        Ok(d) => d,
        Err(e) => {
            return Err(e);
        },
    };
    let out = match aes_apply(encrypt, mode, k.as_slice(), v.as_slice(), d.as_slice()) {
        Ok(o) => o,
        Err(e) => {
            return Err(e);
        },
    };
    let text = format_bytes(out.as_slice(), output_format);
    Ok((out, text))
}

} // verus!
