use std::io::{Cursor, Write};

use misclab_core::bitgrid::{bit_rows, bits_text, layout_bits, luma, pixel_level, BitLayout};
use misclab_core::error::CoreError;
use misclab_core::ziplist::list_zip;

fn crc32(data: &[u8]) -> u32 {
    let mut crc = 0xffff_ffffu32;
    for &b in data {
        crc ^= b as u32;
        for _ in 0..8 {
            crc = if crc & 1 == 1 { (crc >> 1) ^ 0xedb8_8320 } else { crc >> 1 };
        }
    }
    !crc
}

fn stored_zip() -> Vec<u8> {
    let mut buf = Vec::new();
    {
        let mut w = zip::ZipWriter::new(Cursor::new(&mut buf));
        let opts = zip::write::SimpleFileOptions::default().compression_method(zip::CompressionMethod::Stored);
        w.add_directory("dir/", opts).unwrap();
        w.start_file("a.txt", opts).unwrap();
        w.write_all(b"alpha").unwrap();
        w.start_file("dir/b.bin", opts).unwrap();
        w.write_all(&[0, 1, 2, 3]).unwrap();
        w.finish().unwrap();
    }
    buf
}

#[test]
fn zip_listing_is_an_aligned_table() {
    let l = list_zip(&stored_zip()).unwrap();
    let row = |name: &str, size: u64, crc: u32| {
        format!("{name:<9}  原始 {size:>9}  压缩 {size:>9}  {:<9}  明文    CRC {crc:08x}\n", "Stored")
    };
    let expected = format!(
        "共 3 个条目（0 个加密）：\n{:<9}  <目录>\n{}{}",
        "dir/",
        row("a.txt", 5, crc32(b"alpha")),
        row("dir/b.bin", 4, crc32(&[0, 1, 2, 3]))
    );
    assert_eq!(l.text, expected);
    assert_eq!(l.files, vec!["dir/".to_string(), "a.txt".to_string(), "dir/b.bin".to_string()]);
    assert_eq!(l.count, 3);
    assert!(!l.encrypted);
}

#[test]
fn zip_listing_refuses_other_formats() {
    match list_zip(&[0x1f, 0x8b, 8, 0]) {
        Err(CoreError::Parse(m)) => {
            assert_eq!(m, "详细文件列表目前仅支持 zip（检测到 gz）。其它格式请用「解压」节点。")
        }
        _ => panic!("gzip bytes were listed"),
    }
    match list_zip(b"PK\x03\x04 broken") {
        Err(CoreError::Parse(m)) => assert!(m.starts_with("zip: "), "{m}"),
        _ => panic!("a broken zip was listed"),
    }
}

#[test]
fn bit_rows_keep_only_digits_of_nonempty_lines() {
    assert_eq!(bit_rows("10 1\nxx\n0110"), vec![vec![1, 0, 1], vec![0, 1, 1, 0]]);
    assert_eq!(bit_rows("\n\n"), Vec::<Vec<u8>>::new());
}

#[test]
fn bit_layouts() {
    let rows = bit_rows("101\n0110\n");
    let (w, out) = layout_bits(rows.clone(), BitLayout::Auto, 0);
    assert_eq!(w, 4);
    assert_eq!(out, rows);
    let (w, out) = layout_bits(bit_rows("1011010"), BitLayout::Auto, 0);
    assert_eq!(w, 3);
    assert_eq!(out, vec![vec![1, 0, 1], vec![1, 0, 1], vec![0]]);
    let (w, out) = layout_bits(rows, BitLayout::Width, 2);
    assert_eq!(w, 2);
    assert_eq!(out, vec![vec![1, 0], vec![1, 0], vec![1, 1], vec![0]]);
    let (w, out) = layout_bits(Vec::new(), BitLayout::Width, 0);
    assert_eq!(w, 1);
    assert!(out.is_empty());
}

#[test]
fn threshold_to_bits() {
    assert_eq!(luma(255, 255, 255), 255);
    assert_eq!(luma(0, 0, 0), 0);
    assert_eq!(luma(255, 0, 0), 76);
    assert_eq!(bits_text(&[0, 255, 100, 200], 2, 2, 128, false, true), "10\n10\n");
    assert_eq!(bits_text(&[0, 255, 100, 200], 2, 2, 128, true, false), "0101");
}

#[test]
fn drawn_bits_read_back() {
    for invert in [false, true] {
        let (w, rows) = layout_bits(bit_rows("1010\n0110"), BitLayout::Auto, 0);
        let levels: Vec<u8> = rows
            .iter()
            .flat_map(|r| (0..w).map(move |x| pixel_level(r[x], invert)))
            .map(|v| luma(v, v, v))
            .collect();
        assert_eq!(bits_text(&levels, w, rows.len(), 128, invert, true), "1010\n0110\n");
    }
    assert_eq!(pixel_level(1, false), 0);
    assert_eq!(pixel_level(1, true), 255);
}

fn make_zip() -> Vec<u8> {
    let mut buf = Vec::new();
    {
        let mut w = zip::ZipWriter::new(Cursor::new(&mut buf));
        w.start_file(
            "hello.txt",
            zip::write::SimpleFileOptions::default().compression_method(zip::CompressionMethod::Deflated),
        )
        .unwrap();
        w.write_all(b"hello world hello world hello world").unwrap();
        w.start_file(
            "secret.txt",
            zip::write::SimpleFileOptions::default().with_aes_encryption(zip::AesMode::Aes256, "pass"),
        )
        .unwrap();
        w.write_all(b"top secret data").unwrap();
        w.finish().unwrap();
    }
    buf
}

#[test]
fn lists_entries_with_metadata() {
    let out = list_zip(&make_zip()).unwrap();
    let text = out.text;
    assert!(text.contains("hello.txt"), "{text}");
    assert!(text.contains("secret.txt") && text.contains("加密"), "{text}");
    assert!(out.encrypted);
    assert_eq!(out.count, 2);
}
