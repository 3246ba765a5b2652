use misclab_core::basex::{
    base32_decode, base32_encode, base45_decode, base45_encode, base85_decode, base85_encode,
    base92_decode, base92_encode, expand_alph_range, radix_decode, radix_encode,
};
use misclab_core::error::CoreError;

fn alph(s: &str) -> Vec<char> {
    expand_alph_range(s)
}

fn parse_message(r: Result<Vec<u8>, CoreError>) -> String {
    match r {
        Err(CoreError::Parse(m)) => m,
        other => panic!("expected a parse error, got {:?}", other),
    }
}

#[test]
fn expands_ranges_and_escaped_dash() {
    let b45: String = alph("0-9A-Z $%*+\\-./:").into_iter().collect();
    assert_eq!(b45, "0123456789ABCDEFGHIJKLMNOPQRSTUVWXYZ $%*+-./:");
    assert_eq!(alph("!-u").len(), 85);
    let b32: String = alph("A-Z2-7=").into_iter().collect();
    assert_eq!(b32, "ABCDEFGHIJKLMNOPQRSTUVWXYZ234567=");
    // a reversed range is empty
    assert_eq!(alph("z-a"), Vec::<char>::new());
    // a trailing dash is literal
    let tail: String = alph("ab-").into_iter().collect();
    assert_eq!(tail, "ab-");
}

#[test]
fn base32_rfc4648_vectors() {
    let a = alph("A-Z2-7=");
    let cases: [(&str, &str); 7] = [
        ("", ""),
        ("f", "MY======"),
        ("fo", "MZXQ===="),
        ("foo", "MZXW6==="),
        ("foob", "MZXW6YQ="),
        ("fooba", "MZXW6YTB"),
        ("foobar", "MZXW6YTBOI======"),
    ];
    for (plain, enc) in cases {
        assert_eq!(base32_encode(plain.as_bytes(), &a), enc);
        assert_eq!(base32_decode(enc, &a, true), plain.as_bytes());
        assert_eq!(base32_decode(enc, &a, false), plain.as_bytes());
    }
}

#[test]
fn base32_hex_alphabet_and_stripping() {
    let a = alph("0-9A-V=");
    assert_eq!(base32_encode(b"foobar", &a), "CPNMUOJ1E8======");
    // foreign characters are dropped with strip
    assert_eq!(base32_decode("MZ XW\n6===", &alph("A-Z2-7="), true), b"foo");
}

#[test]
fn base45_rfc9285_vectors() {
    let a = alph("0-9A-Z $%*+\\-./:");
    assert_eq!(base45_encode(b"AB", &a), "BB8");
    assert_eq!(base45_encode(b"Hello!!", &a), "%69 VD92EX0");
    assert_eq!(base45_encode(b"base-45", &a), "UJCLQE7W581");
    assert_eq!(base45_decode("QED8WEX0", &a, false).unwrap(), b"ietf!");
    assert_eq!(base45_decode("%69 VD92EX0", &a, false).unwrap(), b"Hello!!");
}

#[test]
fn base45_errors() {
    let a = alph("0-9A-Z $%*+\\-./:");
    assert_eq!(parse_message(base45_decode("GGW", &a, false)), "三元组过大: 'GGW'");
    assert_eq!(parse_message(base45_decode("ab", &a, false)), "字符不在码表中: 'b'");
    // with strip the lowercase letters are dropped first
    assert_eq!(base45_decode("BabB8", &a, true).unwrap(), b"AB");
}

#[test]
fn base58_and_base62_radix() {
    let b58: Vec<char> = "123456789ABCDEFGHJKLMNPQRSTUVWXYZabcdefghijkmnopqrstuvwxyz".chars().collect();
    assert_eq!(radix_encode(b"Hello World!", &b58, true), "2NEpo7TZRRrLZSi2U");
    assert_eq!(radix_encode(&[0, 0, 1], &b58, true), "112");
    assert_eq!(radix_decode("2NEpo7TZRRrLZSi2U", &b58, true, false).unwrap(), b"Hello World!");
    assert_eq!(radix_decode("112", &b58, true, false).unwrap(), vec![0, 0, 1]);
    let b62 = alph("0-9A-Za-z");
    assert_eq!(radix_encode(b"Hello", &b62, false), "5TP3P3v");
    assert_eq!(radix_encode(&[0, 0], &b62, false), "0");
    assert_eq!(radix_encode(&[], &b62, false), "");
    assert_eq!(radix_decode("5TP3P3v", &b62, false, false).unwrap(), b"Hello");
}

#[test]
fn radix_decode_rejects_or_strips_foreign_characters() {
    let b58: Vec<char> = "123456789ABCDEFGHJKLMNPQRSTUVWXYZabcdefghijkmnopqrstuvwxyz".chars().collect();
    assert_eq!(
        parse_message(radix_decode("11O", &b58, true, false)),
        "字符 'O' (位置 2) 不在码表中"
    );
    assert_eq!(radix_decode("1 1 2", &b58, true, true).unwrap(), vec![0, 1]);
}

#[test]
fn base85_ascii85_vectors() {
    let a = alph("!-u");
    assert_eq!(base85_encode(b"Man ", &a, true, false), "9jqo^");
    assert_eq!(base85_encode(b"sure.", &a, true, false), "F*2M7/c");
    assert_eq!(base85_encode(&[0, 0, 0, 0], &a, true, true), "<~z~>");
    assert_eq!(base85_encode(&[], &a, true, true), "");
    assert_eq!(base85_decode("<~9jqo^~>", &a, true, Some('z')).unwrap(), b"Man ");
    assert_eq!(base85_decode("F*2M7/c", &a, false, Some('z')).unwrap(), b"sure.");
    assert_eq!(base85_decode("z", &a, false, Some('z')).unwrap(), vec![0, 0, 0, 0]);
}

#[test]
fn base85_z85_and_bad_characters() {
    let a = alph("0-9a-zA-Z.\\-:+=^!/*?&<>()[]{}@%$#");
    assert_eq!(base85_encode(b"Hello", &a, false, false), "nm=QNzV");
    assert_eq!(base85_decode("nm=QNzV", &a, false, None).unwrap(), b"Hello");
    assert_eq!(
        parse_message(base85_decode("nm~QN", &a, false, None)),
        "非法字符 '~' 于位置 2"
    );
}

#[test]
fn base92_vectors() {
    assert_eq!(base92_encode(b"hello world"), "Fc_$aOTdKnsM*k");
    assert_eq!(base92_encode(b"A"), "8q");
    assert_eq!(base92_encode(b"AB"), "8y2");
    assert_eq!(base92_encode(&[0xff]), "|_");
    assert_eq!(base92_encode(&[]), "");
    assert_eq!(base92_decode("Fc_$aOTdKnsM*k").unwrap(), b"hello world");
    assert_eq!(base92_decode("8q").unwrap(), b"A");
    assert_eq!(base92_decode("8y2").unwrap(), b"AB");
    assert_eq!(parse_message(base92_decode("8\"")), "'\"' 不是 base92 字符");
}

#[test]
fn base92_round_trips_every_length() {
    let data: Vec<u8> = (0u32..40).map(|i| (i * 97 + 13) as u8).collect();
    for n in 0..data.len() {
        let enc = base92_encode(&data[..n]);
        assert_eq!(base92_decode(&enc).unwrap(), data[..n].to_vec(), "length {n}");
    }
}

#[test]
fn base85_round_trips_in_every_variant() {
    let data: Vec<u8> = (0u32..23).map(|i| (i * 53 + 7) as u8).collect();
    let variants = [
        (alph("!-u"), true),
        (alph("0-9a-zA-Z.\\-:+=^!/*?&<>()[]{}@%$#"), false),
    ];
    for (a, standard) in variants.iter() {
        let zero = if *standard { Some('z') } else { None };
        for n in 0..data.len() {
            for delim in [false, true] {
                let enc = base85_encode(&data[..n], a, *standard, delim);
                for strip in [false, true] {
                    assert_eq!(base85_decode(&enc, a, strip, zero).unwrap(), data[..n].to_vec(), "length {n}");
                }
            }
        }
    }
    // full zero blocks become `z` and come back
    let zeros = [0u8, 0, 0, 0, 9, 0, 0, 0, 0, 5];
    let a = alph("!-u");
    assert_eq!(base85_decode(&base85_encode(&zeros, &a, true, false), &a, false, Some('z')).unwrap(), zeros.to_vec());
}

#[test]
fn base85_standard_zero_tail_widens() {
    // a last partial block of zero bytes is written `z`, which reads back as a full block
    let a = alph("!-u");
    let enc = base85_encode(&[1, 2, 3, 4, 0], &a, true, false);
    assert!(enc.ends_with('z'));
    assert_eq!(base85_decode(&enc, &a, false, Some('z')).unwrap(), vec![1, 2, 3, 4, 0, 0, 0, 0]);
}

#[test]
fn radix_round_trip_drops_leading_zeros_without_preserving() {
    let a = alph("0-9A-Za-z");
    for strip in [false, true] {
        let enc = radix_encode(&[0, 0, 1, 2, 255], &a, false);
        assert_eq!(radix_decode(&enc, &a, false, strip).unwrap(), vec![1, 2, 255]);
        let zeros = radix_encode(&[0, 0, 0], &a, false);
        assert_eq!(zeros, "0");
        assert_eq!(radix_decode(&zeros, &a, false, strip).unwrap(), Vec::<u8>::new());
        let kept = radix_encode(&[0, 0, 1, 2, 255], &a, true);
        assert_eq!(radix_decode(&kept, &a, true, strip).unwrap(), vec![0, 0, 1, 2, 255]);
    }
}

#[test]
fn base32_and_base45_lengths() {
    let b32 = alph("A-Z2-7=");
    let b45 = alph("0-9A-Z $%*+\\-./:");
    for n in 0..17usize {
        let data: Vec<u8> = (0..n as u8).collect();
        assert_eq!(base32_encode(&data, &b32).chars().count(), 8 * ((n + 4) / 5));
        assert_eq!(base45_encode(&data, &b45).chars().count(), 3 * (n / 2) + 2 * (n % 2));
    }
}
