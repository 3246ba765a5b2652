use misclab_core::bkcrack::{
    bkcrack_attack, parse_zip, resolve_plaintext, select_entry, templates,
};
use misclab_core::error::CoreError;
use misclab_core::zipcrypto::Keys;

fn le16(v: &mut Vec<u8>, x: u16) {
    v.extend_from_slice(&x.to_le_bytes());
}
fn le32(v: &mut Vec<u8>, x: u32) {
    v.extend_from_slice(&x.to_le_bytes());
}

/// A minimal ZIP with one Stored, ZipCrypto-encrypted entry.
fn make_encrypted_zip(name: &str, password: &[u8], data: &[u8]) -> Vec<u8> {
    let mut k = Keys::from_password(password);
    let mut ct = Vec::new();
    for &h in &[1u8, 2, 3, 4, 5, 6, 7, 8, 9, 10, 11, 12] {
        ct.push(h ^ k.get_k());
        k.update(h);
    }
    for &p in data {
        ct.push(p ^ k.get_k());
        k.update(p);
    }
    let comp = ct.len() as u32;
    let uncomp = data.len() as u32;
    let nlen = name.len() as u16;
    let mut z = Vec::new();
    z.extend_from_slice(&[0x50, 0x4b, 0x03, 0x04]);
    le16(&mut z, 20);
    le16(&mut z, 1);
    le16(&mut z, 0);
    le16(&mut z, 0);
    le16(&mut z, 0);
    le32(&mut z, 0);
    le32(&mut z, comp);
    le32(&mut z, uncomp);
    le16(&mut z, nlen);
    le16(&mut z, 0);
    z.extend_from_slice(name.as_bytes());
    z.extend_from_slice(&ct);
    let cd_offset = z.len() as u32;
    z.extend_from_slice(&[0x50, 0x4b, 0x01, 0x02]);
    le16(&mut z, 20);
    le16(&mut z, 20);
    le16(&mut z, 1);
    le16(&mut z, 0);
    le16(&mut z, 0);
    le16(&mut z, 0);
    le32(&mut z, 0);
    le32(&mut z, comp);
    le32(&mut z, uncomp);
    le16(&mut z, nlen);
    le16(&mut z, 0);
    le16(&mut z, 0);
    le16(&mut z, 0);
    le16(&mut z, 0);
    le32(&mut z, 0);
    le32(&mut z, 0);
    z.extend_from_slice(name.as_bytes());
    let cd_size = z.len() as u32 - cd_offset;
    z.extend_from_slice(&[0x50, 0x4b, 0x05, 0x06]);
    le16(&mut z, 0);
    le16(&mut z, 0);
    le16(&mut z, 1);
    le16(&mut z, 1);
    le32(&mut z, cd_size);
    le32(&mut z, cd_offset);
    le16(&mut z, 0);
    z
}

fn other_message<T: std::fmt::Debug>(r: Result<T, CoreError>) -> String {
    match r {
        Err(CoreError::Other(m)) => m,
        other => panic!("expected Other, got {:?}", other),
    }
}

#[test]
fn templates_are_valid_and_sufficient() {
    for (name, hexed, _) in templates() {
        let bytes = hex::decode(hexed).unwrap_or_else(|_| panic!("template {name} hex"));
        assert!(bytes.len() >= 12, "template {name} needs >= 12 bytes, got {}", bytes.len());
    }
}

#[test]
fn resolves_template_and_custom() {
    let (bytes, off) = resolve_plaintext("PNG 图片", 0, "", "").unwrap();
    assert_eq!(bytes, hex::decode("89504e470d0a1a0a0000000d49484452").unwrap());
    assert_eq!(off, 0);

    let (bytes, off) = resolve_plaintext("自定义", 4, "", "flag{demo}").unwrap();
    assert_eq!(bytes, b"flag{demo}");
    assert_eq!(off, 4);
}

#[test]
fn resolves_hex_and_reports_missing_plaintext() {
    let (bytes, off) = resolve_plaintext("自定义", -2, "0a:0B zz", "ignored").unwrap();
    assert_eq!(bytes, vec![0x0a, 0x0b]);
    assert_eq!(off, -2);
    match resolve_plaintext("自定义", 0, "abc", "") {
        Err(CoreError::Parse(m)) => assert_eq!(m, "已知明文 Hex 不合法（需偶数个十六进制字符）"),
        other => panic!("{:?}", other),
    }
    assert_eq!(
        other_message(resolve_plaintext("自定义", 0, "", "")),
        "请提供已知明文：选择一个明文模板，或填写「已知明文(Hex)」/「已知明文(文本)」"
    );
}

#[test]
fn parses_the_central_directory() {
    let zip = make_encrypted_zip("flag.txt", b"pw", b"hello world, hello zip");
    let entries = parse_zip(&zip).unwrap();
    assert_eq!(entries.len(), 1);
    let e = &entries[0];
    assert_eq!(e.name, "flag.txt");
    assert_eq!(e.method, 0);
    assert!(e.encrypted);
    assert_eq!(e.data_start, 30 + 8);
    assert_eq!(e.comp_size, 12 + 22);
    assert_eq!(select_entry(&entries, "  ").unwrap(), 0);
    assert_eq!(select_entry(&entries, " flag.txt ").unwrap(), 0);
    assert_eq!(
        other_message(select_entry(&entries, "nope")),
        "ZIP 中没有条目「nope」"
    );
}

#[test]
fn rejects_what_is_no_zip() {
    match parse_zip(b"definitely not a zip archive") {
        Err(CoreError::Parse(m)) => assert_eq!(m, "不是有效 ZIP（未找到中央目录结尾 EOCD）"),
        other => panic!("{:?}", other),
    }
    let mut eocd_only = vec![0x50, 0x4b, 0x05, 0x06];
    eocd_only.extend_from_slice(&[0u8; 18]);
    match parse_zip(&eocd_only) {
        Err(CoreError::Parse(m)) => assert_eq!(m, "ZIP 中央目录为空或无法解析"),
        other => panic!("{:?}", other),
    }
}

#[test]
fn attack_reports_bad_plaintext_before_searching() {
    let zip = make_encrypted_zip("flag.txt", b"pw", b"hello world, hello zip");
    let r = bkcrack_attack(&zip, "", "自定义", 0, "", "short", true, |_| {}, || false, |_| {});
    assert_eq!(other_message(r), "连续明文不足（5 字节，至少 8）");
    let r = bkcrack_attack(&zip, "", "自定义", -20, "", "hello world,", true, |_| {}, || false, |_| {});
    assert_eq!(other_message(r), "明文偏移 -20 太小（最小 -12）");
    let r = bkcrack_attack(&zip, "x.txt", "自定义", 0, "", "hello world,", true, |_| {}, || false, |_| {});
    assert_eq!(other_message(r), "ZIP 中没有条目「x.txt」");
}
