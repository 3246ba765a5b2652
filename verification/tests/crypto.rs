use misclab_core::blockcipher::{aes_apply, aes_transform, AesMode};
use misclab_core::error::CoreError;
use misclab_core::formats::{format_bytes, parse_bytes};
use misclab_core::pwhash::{bcrypt_check, bcrypt_hash};

fn parse_message(e: CoreError) -> String {
    match e {
        CoreError::Parse(m) => m,
        other => panic!("expected a parse error, got {other:?}"),
    }
}

#[test]
fn byte_formats_read_and_write() {
    assert_eq!(parse_bytes("de ad\nbe EF", "Hex").unwrap(), vec![0xde, 0xad, 0xbe, 0xef]);
    assert_eq!(parse_bytes("aGk=", "Base64").unwrap(), b"hi".to_vec());
    assert_eq!(parse_bytes(" x ", "UTF8").unwrap(), b" x ".to_vec());
    assert_eq!(format_bytes(&[0x00, 0xff], "Hex"), "00ff");
    assert_eq!(format_bytes(b"hi", "Base64"), "aGk=");
    assert_eq!(format_bytes(b"hi", "UTF8"), "hi");
    assert_eq!(format_bytes(&[0xff], "UTF8"), "\u{fffd}");
}

#[test]
fn byte_format_errors_name_the_format() {
    let m = parse_message(parse_bytes("abc", "Hex").unwrap_err());
    assert!(m.starts_with("Hex 解析失败: "), "{m}");
    let m = parse_message(parse_bytes("a", "Base64").unwrap_err());
    assert!(m.starts_with("Base64 解析失败: "), "{m}");
}

#[test]
fn aes128_ecb_matches_the_standard_vector() {
    // FIPS-197 appendix C.1, followed by a block of PKCS#7 padding
    let (out, text) = aes_transform(
        true,
        AesMode::Ecb,
        "000102030405060708090a0b0c0d0e0f",
        "Hex",
        "",
        "Hex",
        "00112233445566778899aabbccddeeff",
        "Hex",
        "Hex",
    )
    .unwrap();
    assert_eq!(out.len(), 32);
    assert!(text.starts_with("69c4e0d86a7b0430d8cdb78070b4c55a"), "{text}");
}

#[test]
fn aes_modes_round_trip() {
    let iv = "0f0e0d0c0b0a09080706050403020100";
    for (mode, key) in [
        (AesMode::Cbc, "2b7e151628aed2a6abf7158809cf4f3c"),
        (AesMode::Ctr, "8e73b0f7da0e6452c810f32b809079e562f8ead2522c6b7b"),
        (AesMode::Ecb, "603deb1015ca71be2b73aef0857d77811f352c073b6108d72d9810a30914dff4"),
    ] {
        let (_, cipher) = aes_transform(true, mode, key, "Hex", iv, "Hex", "flag{aes}", "UTF8", "Base64").unwrap();
        let (plain, text) = aes_transform(false, mode, key, "Hex", iv, "Hex", &cipher, "Base64", "UTF8").unwrap();
        assert_eq!(plain, b"flag{aes}".to_vec());
        assert_eq!(text, "flag{aes}");
    }
}

#[test]
fn aes_ctr_keeps_the_length() {
    let key = [7u8; 16];
    let iv = [1u8; 16];
    let out = aes_apply(true, AesMode::Ctr, &key, &iv, b"abc").unwrap();
    assert_eq!(out.len(), 3);
    assert_ne!(out, b"abc".to_vec());
}

#[test]
fn aes_errors() {
    let m = parse_message(aes_transform(true, AesMode::Cbc, "0102030405", "Hex", "", "Hex", "x", "UTF8", "Hex").unwrap_err());
    assert_eq!(m, "AES 密钥须为 16/24/32 字节(当前 5)");
    let key = "000102030405060708090a0b0c0d0e0f";
    let m = parse_message(aes_transform(true, AesMode::Cbc, key, "Hex", "00", "Hex", "x", "UTF8", "Hex").unwrap_err());
    assert_eq!(m, "CBC 需要 16 字节 IV");
    let m = parse_message(aes_transform(true, AesMode::Ctr, key, "Hex", "", "Hex", "x", "UTF8", "Hex").unwrap_err());
    assert_eq!(m, "CTR 需要 16 字节 IV(nonce)");
    let m = parse_message(aes_transform(false, AesMode::Ecb, key, "Hex", "", "Hex", "00", "Hex", "Hex").unwrap_err());
    assert_eq!(m, "解密失败：密文长度或填充无效");
}

#[test]
fn bcrypt_checks_known_hashes() {
    let (ok, text) = bcrypt_check("password", "$2a$04$UuTkLRZZ6QofpDOlMz32MuuxEHA43WOemOYHPz6.SjsVsyO1tDU96").unwrap();
    assert!(ok);
    assert_eq!(text, "匹配 ✓");
    let (ok, text) = bcrypt_check("wrong", "$2a$04$UuTkLRZZ6QofpDOlMz32MuuxEHA43WOemOYHPz6.SjsVsyO1tDU96").unwrap();
    assert!(!ok);
    assert_eq!(text, "不匹配 ✗");
    match bcrypt_check("x", "not a hash") {
        Err(CoreError::Other(m)) => assert!(m.starts_with("bcrypt: "), "{m}"),
        other => panic!("{other:?}"),
    }
}

#[test]
fn bcrypt_hash_then_check() {
    let h = bcrypt_hash("hunter2", 4).unwrap();
    assert!(h.starts_with("$2b$04$"), "{h}");
    assert!(bcrypt_check("hunter2", &h).unwrap().0);
    assert!(bcrypt_hash("x", 3).is_err());
}
