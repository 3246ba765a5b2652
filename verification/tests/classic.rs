use misclab_core::adfgvx::{
    adfgvx_decrypt, adfgvx_encrypt, build_square, clean_plaintext, key_bytes, key_order, labels,
    transpose_decrypt, transpose_encrypt,
};
use misclab_core::bifid::{bifid_decode, bifid_encode, clean_coords, coords, square};
use misclab_core::classic::{
    a1z26_decode, a1z26_encode, affine, atbash, bacon_decode, bacon_encode, binary_decode,
    binary_encode, bitwise, braille_decode, braille_encode, mod_inv, BitOp,
};
use misclab_core::error::CoreError;

#[test]
fn atbash_reverses_letters_and_undoes_itself() {
    assert_eq!(atbash("Hello, World!"), "Svool, Dliow!");
    assert_eq!(atbash(&atbash("Zebra 42")), "Zebra 42");
}

#[test]
fn affine_encrypts_and_decrypts() {
    assert_eq!(affine("affine cipher", 5, 8, false).unwrap(), "ihhwvc swfrcp");
    assert_eq!(affine("ihhwvc swfrcp", 5, 8, true).unwrap(), "affine cipher");
    assert_eq!(affine("ABC", -1, 0, true).unwrap(), "AZY");
    match affine("abc", 13, 0, true) {
        Err(CoreError::Parse(m)) => assert_eq!(m, "a=13 与 26 不互质，无法解密"),
        other => panic!("{:?}", other),
    }
    match affine("abc", -2, 0, true) {
        Err(CoreError::Parse(m)) => assert_eq!(m, "a=-2 与 26 不互质，无法解密"),
        other => panic!("{:?}", other),
    }
}

#[test]
fn modular_inverse() {
    assert_eq!(mod_inv(5, 26), Some(21));
    assert_eq!(mod_inv(13, 26), None);
    assert_eq!(mod_inv(1, 26), Some(1));
}

#[test]
fn a1z26_both_ways() {
    assert_eq!(a1z26_encode("Hi!", " "), "8 9");
    assert_eq!(a1z26_encode("Hi!", "-"), "8-9");
    assert_eq!(a1z26_encode("", ","), "");
    assert_eq!(a1z26_decode("8 9,27 0 26"), "HIZ");
    assert_eq!(a1z26_decode("007x300"), "G");
}

#[test]
fn bacon_both_ways() {
    assert_eq!(bacon_encode("ab"), "AAAAAAAAAB");
    assert_eq!(bacon_encode("z!"), "BBAAB");
    assert_eq!(bacon_decode("AAAAB aaaba 0001 1"), "BCD");
    assert_eq!(bacon_decode("AAAA"), "");
}

#[test]
fn braille_both_ways() {
    assert_eq!(braille_encode("Ab c"), "\u{2801}\u{2803}\u{2800}\u{2809}");
    assert_eq!(braille_decode("\u{2801}\u{2803}\u{2800}\u{2809}!"), "ab c!");
}

#[test]
fn binary_both_ways() {
    assert_eq!(binary_encode(&[65, 66], " "), "01000001 01000010");
    assert_eq!(binary_encode(&[65, 66], ""), "0100000101000010");
    assert_eq!(binary_decode("01000001x01000010 1"), vec![65, 66]);
}

#[test]
fn bitwise_operations() {
    assert_eq!(bitwise(&[0x0f], BitOp::Not, 0, &[]), vec![0xf0]);
    assert_eq!(bitwise(&[0x81], BitOp::ShiftLeft, 1, &[]), vec![0x02]);
    assert_eq!(bitwise(&[0x81], BitOp::ShiftRight, 1, &[]), vec![0x40]);
    assert_eq!(bitwise(&[0x81], BitOp::RotateLeft, 1, &[]), vec![0x03]);
    assert_eq!(bitwise(&[0x81], BitOp::RotateRight, 1, &[]), vec![0xc0]);
    assert_eq!(bitwise(&[0x81], BitOp::RotateLeft, 0, &[]), vec![0x81]);
    assert_eq!(bitwise(&[1, 1, 1], BitOp::Xor, 0, &[1, 2]), vec![0, 3, 0]);
    assert_eq!(bitwise(&[0xff, 0x0f], BitOp::And, 0, &[0x3c]), vec![0x3c, 0x0c]);
    assert_eq!(bitwise(&[0x10], BitOp::Or, 0, &[0x01]), vec![0x11]);
    assert_eq!(bitwise(&[7, 8], BitOp::And, 0, &[]), vec![7, 8]);
}

#[test]
fn bifid_classic_example() {
    let enc = bifid_encode("defend the east wall of the castle", "fortification");
    assert_eq!(enc, "NRARHBINEFHAMHVFLQFBPDWTEOSV");
    assert_eq!(bifid_decode(&enc, "fortification"), "DEFENDTHEEASTWALLOFTHECASTLE");
}

#[test]
fn bifid_square_and_coordinates() {
    let sq = square("Jelly");
    let s: String = sq.iter().collect();
    assert_eq!(s, "IELYABCDFGHKMNOPQRSTUVWXZ");
    assert_eq!(coords(&sq, 'J'), Some((0, 0)));
    assert_eq!(coords(&sq, 'Z'), Some((4, 4)));
    assert_eq!(coords(&sq, '1'), None);
    assert_eq!(clean_coords(&sq, "e1y"), vec![(0, 1), (0, 3)]);
}

#[test]
fn adfgvx_wikipedia_example() {
    let square_kw = "na1c3h8tb2ome5wrpd4f6g7i9j0klqsuvxyz";
    let enc = adfgvx_encrypt("attack at 1200am", 6, square_kw, "privacy").unwrap();
    assert_eq!(enc, "DGDDDAGDDGAFADDFDADVDVFAADVX");
    assert_eq!(adfgvx_decrypt(&enc, 6, square_kw, "privacy").unwrap(), "ATTACKAT1200AM");
}

#[test]
fn adfgx_merges_j() {
    let enc = adfgvx_encrypt("Jump now", 5, "", "key").unwrap();
    assert_eq!(enc, "GFXFDDXFFXGDFG");
    assert_eq!(adfgvx_decrypt(&enc, 5, "", "key").unwrap(), "IUMPNOW");
    match adfgvx_encrypt("x", 5, "", "!!") {
        Err(CoreError::Parse(m)) => assert_eq!(m, "转置关键词不能为空"),
        other => panic!("{:?}", other),
    }
}

#[test]
fn adfgvx_parts() {
    assert_eq!(labels(6), b"ADFGVX".to_vec());
    assert_eq!(labels(5), b"ADFGX".to_vec());
    assert_eq!(build_square("secret", 5), b"SECRTABDFGHIKLMNOPQUVWXYZ".to_vec());
    assert_eq!(key_bytes("se-c ret"), b"SECRET".to_vec());
    assert_eq!(key_order(b"SECRET"), vec![2, 1, 4, 3, 0, 5]);
    assert_eq!(clean_plaintext("a-j!", b"ABCDEFGHIKLMNOPQRSTUVWXYZ", 5), b"AI".to_vec());
    let enc = transpose_encrypt(b"ABCDEFGHIJ", b"CAB");
    assert_eq!(enc, b"BEHCFIADGJ".to_vec());
    assert_eq!(transpose_decrypt(&enc, b"CAB"), b"ABCDEFGHIJ".to_vec());
}

#[test]
fn bacon_and_a1z26_round_trip_to_capitals() {
    assert_eq!(bacon_decode(&bacon_encode("Hello, World 42")), "HELLOWORLD");
    for sep in [" ", ",", "-"] {
        assert_eq!(a1z26_decode(&a1z26_encode("Zebra at 9!", sep)), "ZEBRAAT");
    }
}
