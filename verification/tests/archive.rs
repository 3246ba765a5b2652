use std::io::{Cursor, Write};

use base64::Engine as _;
use misclab_core::archive::{
    archive_kind, compact_base64_candidate, decode_base64_archive_text, decode_data_url_text, detect,
    extract_deflate, extract_gz, extract_tar, extract_tar_gz, extract_zip, extract_zlib, finish_archive,
    looks_like_path, looks_like_zlib, normalize_format, ArchiveData, ArchiveKind, ArchiveOutput,
};
use misclab_core::error::CoreError;

fn extract(data: &[u8], fmt: &str, password: &str) -> Result<ArchiveData, CoreError> {
    let (kind, auto) = archive_kind(data, fmt)?;
    match kind {
        ArchiveKind::Zip => extract_zip(data, password),
        ArchiveKind::Gz => extract_gz(data, auto),
        ArchiveKind::TarGz => extract_tar_gz(data),
        ArchiveKind::Zlib => extract_zlib(data),
        ArchiveKind::Deflate => extract_deflate(data),
        ArchiveKind::Tar => extract_tar(data),
        other => panic!("not read here: {other:?}"),
    }
}

fn run_extract(data: &[u8], fmt: &str, target: &str) -> ArchiveOutput {
    let a = extract(data, fmt, "").unwrap();
    finish_archive(&a, target).unwrap()
}

/// Archive bytes from text input: a data URL, else bare base64, else the text.
fn input_bytes(s: &str) -> Vec<u8> {
    if let Some(r) = decode_data_url_text(s) {
        return r.unwrap();
    }
    if let Some(b) = decode_base64_archive_text(s) {
        return b;
    }
    s.as_bytes().to_vec()
}

fn make_zip() -> Vec<u8> {
    let mut buf = Vec::new();
    {
        let mut w = zip::ZipWriter::new(Cursor::new(&mut buf));
        let opts = zip::write::SimpleFileOptions::default()
            .compression_method(zip::CompressionMethod::Deflated);
        w.add_directory("dir/", opts).unwrap();
        w.start_file("a.txt", opts).unwrap();
        w.write_all(b"alpha").unwrap();
        w.start_file("dir/b.bin", opts).unwrap();
        w.write_all(&[0, 1, 2, 3]).unwrap();
        w.finish().unwrap();
    }
    buf
}

#[test]
fn zip_outputs_file_list_bundle_and_first_file() {
    let zip = make_zip();
    let a = extract(&zip, "自动", "").unwrap();
    assert_eq!(a.format, "zip");
    assert_eq!(a.entries.len(), 3);
    let out = finish_archive(&a, "").unwrap();
    assert_eq!(out.entry, "a.txt");
    assert_eq!(out.text, "alpha");
    assert_eq!(out.bytes, b"alpha");
    assert!(out.summary.contains("2 个文件"));
    assert_eq!(out.count, 2);
    assert_eq!(out.files, vec!["a.txt", "dir/b.bin"]);
    assert_eq!(out.format, "zip");
    assert_eq!(out.summary, "zip: 2 个文件，1 个目录；当前输出「a.txt」（5 字节）。");
}

#[test]
fn zip_can_select_file_by_name_or_index() {
    let zip = make_zip();
    let by_name = run_extract(&zip, "自动", "dir/b.bin");
    assert_eq!(by_name.bytes, vec![0, 1, 2, 3]);
    let by_index = run_extract(&zip, "自动", "1");
    assert_eq!(by_index.entry, "dir/b.bin");
    assert_eq!(by_index.bytes, vec![0, 1, 2, 3]);
}

#[test]
fn zip_accepts_text_data_url_and_bare_base64() {
    let zip = make_zip();
    let encoded = base64::engine::general_purpose::STANDARD.encode(&zip);
    let data_url = format!("data:application/zip;base64,{encoded}");

    let from_data_url = run_extract(&input_bytes(&data_url), "zip", "");
    assert_eq!(from_data_url.entry, "a.txt");
    assert_eq!(from_data_url.text, "alpha");

    let from_base64 = run_extract(&input_bytes(&encoded), "自动", "");
    assert_eq!(from_base64.format, "zip");
    assert_eq!(from_base64.entry, "a.txt");
}

#[test]
fn tar_extracts_multiple_files() {
    let mut buf = Vec::new();
    {
        let mut builder = tar::Builder::new(&mut buf);
        let mut h = tar::Header::new_gnu();
        h.set_size(5);
        h.set_mode(0o644);
        h.set_cksum();
        builder.append_data(&mut h, "one.txt", Cursor::new(b"first")).unwrap();
        let mut h = tar::Header::new_gnu();
        h.set_size(6);
        h.set_mode(0o644);
        h.set_cksum();
        builder.append_data(&mut h, "two.txt", Cursor::new(b"second")).unwrap();
        builder.finish().unwrap();
    }
    let out = run_extract(&buf, "tar", "two.txt");
    assert_eq!(out.format, "tar");
    assert_eq!(out.text, "second");
    // the same archive gzipped is read as tar.gz when detected
    let mut gz = flate2::write::GzEncoder::new(Vec::new(), flate2::Compression::default());
    gz.write_all(&buf).unwrap();
    let gz = gz.finish().unwrap();
    let out = run_extract(&gz, "自动", "one.txt");
    assert_eq!(out.format, "tar.gz");
    assert_eq!(out.text, "first");
}

#[test]
fn deflate_family_roundtrips() {
    let data = b"hello archive";
    let mut gz = flate2::write::GzEncoder::new(Vec::new(), flate2::Compression::default());
    gz.write_all(data).unwrap();
    let gz = gz.finish().unwrap();
    let mut zl = flate2::write::ZlibEncoder::new(Vec::new(), flate2::Compression::default());
    zl.write_all(data).unwrap();
    let zl = zl.finish().unwrap();
    let mut df = flate2::write::DeflateEncoder::new(Vec::new(), flate2::Compression::default());
    df.write_all(data).unwrap();
    let df = df.finish().unwrap();
    for (bytes, fmt) in [(gz, "自动"), (zl, "zlib"), (df, "deflate")] {
        let out = run_extract(&bytes, fmt, "");
        assert_eq!(out.text, "hello archive");
    }
}

#[test]
fn formats_and_detection() {
    assert_eq!(normalize_format("  TGZ "), "tar.gz");
    assert_eq!(normalize_format("Raw Deflate"), "deflate");
    assert_eq!(normalize_format(""), "auto");
    assert_eq!(normalize_format("xz"), "xz");
    assert_eq!(detect(b"PK\x03\x04rest"), "zip");
    assert_eq!(detect(&[0x1f, 0x8b, 8]), "gz");
    assert_eq!(detect(b"Rar!\x1a"), "rar");
    assert_eq!(detect(&[0x78, 0x9c]), "zlib");
    assert!(looks_like_zlib(&[0x78, 0x01]));
    assert!(!looks_like_zlib(&[0x78, 0x02]));
    assert_eq!(detect(b"hello"), "unknown");
    match archive_kind(b"hello", "auto") {
        Err(CoreError::Unsupported(m)) => assert!(m.starts_with("未识别的压缩格式")),
        other => panic!("{:?}", other),
    }
    match archive_kind(b"hello", "xz") {
        Err(CoreError::Unsupported(m)) => assert_eq!(m, "不支持的压缩格式: xz"),
        other => panic!("{:?}", other),
    }
}

#[test]
fn input_text_helpers() {
    assert!(looks_like_path(" C:\\temp\\a.zip "));
    assert!(looks_like_path("/tmp/a.zip"));
    assert!(!looks_like_path("a.zip"));
    assert!(!looks_like_path("a/b\nc"));
    assert_eq!(compact_base64_candidate("UEsDBAoAAAAA AAAAAAAA\nAAAA"), Some("UEsDBAoAAAAAAAAAAAAAAAAA".to_string()));
    assert_eq!(compact_base64_candidate("short"), None);
    assert_eq!(compact_base64_candidate("UEsDBAoAAAAAAAAAAAAA!AAA"), None);
    match decode_data_url_text("data:text/plain,hi there ") {
        Some(Ok(b)) => assert_eq!(b, b"hi there"),
        other => panic!("{:?}", other),
    }
    match decode_data_url_text("data:no-comma") {
        Some(Err(CoreError::Parse(m))) => assert_eq!(m, "压缩包 data URL 缺少逗号分隔符"),
        other => panic!("{:?}", other),
    }
    assert!(decode_data_url_text("hello").is_none());
}

#[test]
fn selection_errors() {
    let zip = make_zip();
    let a = extract(&zip, "zip", "").unwrap();
    match finish_archive(&a, "dir/") {
        Err(CoreError::Parse(m)) => assert_eq!(m, "指定条目是目录: dir/"),
        other => panic!("{:?}", other),
    }
    match finish_archive(&a, "9") {
        Err(CoreError::Parse(m)) => assert_eq!(m, "找不到压缩包条目: 9。可选文件: a.txt, dir/b.bin"),
        other => panic!("{:?}", other),
    }
}
