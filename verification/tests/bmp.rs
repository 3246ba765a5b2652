use misclab_core::bmp::{embed_padding, extract_padding, fix_bmp, layout, row_size};
use misclab_core::error::CoreError;

/// An uncompressed w×h BMP of the given depth (pixels zero, no palette).
fn make_bmp(w: u32, h: u32, bpp: u32) -> Vec<u8> {
    let rs = ((bpp * w).div_ceil(32) * 4) as usize;
    let off = 54usize;
    let size = off + rs * h as usize;
    let mut d = vec![0u8; size];
    d[0..2].copy_from_slice(b"BM");
    d[2..6].copy_from_slice(&(size as u32).to_le_bytes());
    d[10..14].copy_from_slice(&(off as u32).to_le_bytes());
    d[14..18].copy_from_slice(&40u32.to_le_bytes());
    d[18..22].copy_from_slice(&(w as i32).to_le_bytes());
    d[22..26].copy_from_slice(&(h as i32).to_le_bytes());
    d[26..28].copy_from_slice(&1u16.to_le_bytes());
    d[28..30].copy_from_slice(&(bpp as u16).to_le_bytes());
    d
}

fn dims(d: &[u8]) -> (i32, i32) {
    (
        i32::from_le_bytes([d[0x12], d[0x13], d[0x14], d[0x15]]),
        i32::from_le_bytes([d[0x16], d[0x17], d[0x18], d[0x19]]),
    )
}

#[test]
fn recovers_shrunk_height() {
    let mut bmp = make_bmp(40, 30, 24);
    bmp[0x16..0x1A].copy_from_slice(&5i32.to_le_bytes());
    let (fixed, report) = fix_bmp(bmp, false, 0, 0).unwrap();
    assert_eq!(dims(&fixed), (40, 30));
    assert_eq!(report, "按像素数据推断：宽 40 不变，真实高 30（原记录 5）。");
}

#[test]
fn recovers_scrambled_width() {
    let mut bmp = make_bmp(50, 12, 32);
    bmp[0x12..0x16].copy_from_slice(&999i32.to_le_bytes());
    let (fixed, _) = fix_bmp(bmp, false, 0, 0).unwrap();
    assert_eq!(dims(&fixed), (50, 12));
}

#[test]
fn manual_sets_dims() {
    let bmp = make_bmp(8, 8, 24);
    let (fixed, report) = fix_bmp(bmp, true, 16, 9).unwrap();
    assert_eq!(dims(&fixed), (16, 9));
    assert_eq!(report, "手动设置为 16×9。");
}

#[test]
fn bmp_fix_reports() {
    let bmp = make_bmp(8, 8, 24);
    let (same, report) = fix_bmp(bmp.clone(), false, 0, 0).unwrap();
    assert_eq!(same, bmp);
    assert_eq!(report, "尺寸 8×8 与像素数据一致，无需修复。");
    // a negative (top-down) height keeps its sign
    let mut top_down = make_bmp(8, 8, 24);
    top_down[0x16..0x1A].copy_from_slice(&(-3i32).to_le_bytes());
    let (fixed, _) = fix_bmp(top_down, false, 0, 0).unwrap();
    assert_eq!(dims(&fixed), (8, -8));
    match fix_bmp(b"not a bitmap at all, no header!!!!".to_vec(), false, 0, 0) {
        Err(CoreError::Parse(m)) => assert_eq!(m, "不是有效的 BMP（缺少 'BM' 头）。"),
        other => panic!("{:?}", other),
    }
    assert_eq!(row_size(3, 24), 12);
}

#[test]
fn padding_roundtrip() {
    // width 3 at 24 bits: 9 data bytes and 3 padding bytes per row
    let bmp = make_bmp(3, 4, 24);
    assert_eq!(layout(&bmp).unwrap(), (54, 9, 3, 4));
    let (with, msg) = embed_padding(bmp, b"secret").unwrap();
    assert_eq!(msg, "已写入 6 字节到填补区。");
    let p = extract_padding(&with).unwrap();
    assert_eq!(p.bytes, b"secret\0\0\0\0\0\0".to_vec());
    assert_eq!(p.hex, "736563726574000000000000");
    assert_eq!(p.report, "每行填补 3 字节 × 4 行 = 12 字节容量。");
}

#[test]
fn padding_errors() {
    let aligned = make_bmp(4, 2, 24);
    match extract_padding(&aligned) {
        Err(CoreError::Parse(m)) => assert_eq!(m, "该 BMP 每行无填补字节（宽度已 4 字节对齐），无处可藏。"),
        other => panic!("{:?}", other.map(|p| p.bytes)),
    }
    let small = make_bmp(3, 1, 24);
    match embed_padding(small, b"four") {
        Err(CoreError::Other(m)) => assert_eq!(m, "容量不足：填补区仅 3 字节，载荷 4 字节。"),
        other => panic!("{:?}", other),
    }
}
