use misclab_core::zipcrypto::{
    attack_over_candidates, build_tables, decipher, get_zi_2_16, keystream_byte, mask, recover_keys,
    AttackError, Data, DataError, Keys,
};

// Vectors from bkcrack's own tests: password "password" over "Hello World!".
const PLAINTEXT: &[u8] = b"Hello World!";
const CIPHERTEXT: [u8; 24] = [
    0x3e, 0xb4, 0xc5, 0x92, 0x58, 0x40, 0x9a, 0x6c, 0xed, 0x99, 0x65, 0x81, 0x66, 0x1b, 0x1d, 0xda,
    0x5d, 0x8a, 0x8c, 0x30, 0x07, 0x76, 0x50, 0xbb,
];
const EXPECTED: Keys = Keys { x: 0xea9b_4e4d, y: 0xba78_9085, z: 0x5ff8_707d };

#[test]
fn keys_from_password_matches() {
    assert_eq!(Keys::from_password(b"password"), EXPECTED);
}

#[test]
fn keystream_table_vectors() {
    let t = build_tables();
    let k = [b't' ^ 0x9a, b'e' ^ 0x6b, b's' ^ 0x40, b't' ^ 0x2c];
    assert_eq!(keystream_byte(&t, 0x5ff8_707d), k[0]);
    assert_eq!(keystream_byte(&t, 0x868c_2aa4), k[1]);
    assert_eq!(get_zi_2_16(&t, k[0], 0x7000), &[0x707c]);
    assert_eq!(get_zi_2_16(&t, k[1], 0x2800), &[0x29a8, 0x2aa4, 0x2ab0, 0x2b3c]);
    assert_eq!(get_zi_2_16(&t, k[0], 0x6000), &[] as &[u32]);
}

#[test]
fn keys_update_backward_roundtrip() {
    let mut k = Keys::from_password(b"password");
    for &p in b"test" {
        k.update(p);
    }
    assert_eq!(k, Keys { x: 0x382b_d98d, y: 0x5ad5_5f3b, z: 0x04f8_d2f6 });
    for &c in [0x2cu8, 0x40, 0x6b, 0x9a].iter() {
        k.update_backward(c);
    }
    assert_eq!(k, EXPECTED);
}

#[test]
fn direct_attack_recovers_keys() {
    let t = build_tables();
    let z7: u32 = 0x7493_0e66;
    let candidates: Vec<u32> = vec![
        0x0000_0000, 0x1000_0000, 0x2000_0000, 0x3000_0000, 0x4000_0000, 0x5000_0000,
        0x6000_0000, z7 & mask(2, 32), 0x8000_0000, 0x9000_0000, 0xa000_0000, 0xb000_0000,
        0xc000_0000, 0xd000_0000, 0xe000_0000, 0xf000_0000,
    ];
    let data = Data::new(&CIPHERTEXT, PLAINTEXT.to_vec(), 0).unwrap();
    let found = attack_over_candidates(&data, &t, &candidates, 7, &|_| {}, &|| false)
        .unwrap()
        .expect("should find keys");
    assert_eq!(found, EXPECTED);
}

#[test]
fn decipher_roundtrip() {
    let out = decipher(&CIPHERTEXT, EXPECTED);
    assert_eq!(&out, PLAINTEXT);
}

#[test]
fn keys_default_is_initial_state() {
    assert_eq!(Keys::default(), Keys::new(0x1234_5678, 0x2345_6789, 0x3456_7890));
    assert_eq!(Keys::from_password(b""), Keys::default());
}

#[test]
fn update_then_backward_is_identity() {
    let start = Keys::from_password(b"S3cr3tPass");
    let mut k = start;
    let p = b'Q';
    let c = p ^ k.get_k();
    k.update(p);
    k.update_backward(c);
    assert_eq!(k, start);
}

#[test]
fn forward_and_backward_ranges_undo_each_other() {
    let start = Keys::from_password(b"password");
    let mut k = start;
    k.update_forward_range(&CIPHERTEXT, 0, 12);
    assert_ne!(k, start);
    k.update_backward_range(&CIPHERTEXT, 12, 0);
    assert_eq!(k, start);
}

#[test]
fn decipher_of_short_input_is_empty() {
    assert!(decipher(&CIPHERTEXT[..5], EXPECTED).is_empty());
    assert!(decipher(&CIPHERTEXT[..12], EXPECTED).is_empty());
}

#[test]
fn data_errors_follow_the_checks_in_order() {
    assert_eq!(Data::new(&CIPHERTEXT[..11], PLAINTEXT.to_vec(), 0).err(), Some(DataError::CiphertextTooShort));
    assert_eq!(
        Data::new(&CIPHERTEXT[..12], vec![0u8; 13], 0).err(),
        Some(DataError::CiphertextShorterThanPlaintext)
    );
    assert_eq!(Data::new(&CIPHERTEXT, PLAINTEXT.to_vec(), -13).err(), Some(DataError::OffsetTooSmall(-13)));
    assert_eq!(Data::new(&CIPHERTEXT, PLAINTEXT.to_vec(), 1).err(), Some(DataError::OffsetTooLarge(1)));
    assert_eq!(Data::new(&CIPHERTEXT, vec![0u8; 7], 0).err(), Some(DataError::ContiguousTooShort(7)));
    assert_eq!(Data::new(&CIPHERTEXT, vec![0u8; 11], 0).err(), Some(DataError::PlaintextTooShort(11)));
    let d = Data::new(&CIPHERTEXT, PLAINTEXT.to_vec(), -12).unwrap();
    assert_eq!(d.offset, 0);
    assert_eq!(d.keystream[0], PLAINTEXT[0] ^ CIPHERTEXT[0]);
}

#[test]
fn recover_keys_reports_bad_data() {
    let r = recover_keys(&CIPHERTEXT[..8], PLAINTEXT.to_vec(), 0, |_| {}, || false, |_| {});
    assert_eq!(r, Err(AttackError::Data(DataError::CiphertextTooShort)));
}

#[test]
fn recover_keys_honours_cancellation() {
    let password = b"S3cr3tPass";
    let data: &[u8] = b"flag{bkcrack_native_rust_port_end_to_end!}";
    let mut k = Keys::from_password(password);
    let mut ct = Vec::new();
    for &h in &[1u8, 2, 3, 4, 5, 6, 7, 8, 9, 10, 11, 12] {
        ct.push(h ^ k.get_k());
        k.update(h);
    }
    for &p in data {
        ct.push(p ^ k.get_k());
        k.update(p);
    }
    let r = recover_keys(&ct, data.to_vec(), 0, |_| {}, || true, |_| {});
    assert_eq!(r, Err(AttackError::Cancelled));
}
