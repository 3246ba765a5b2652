use misclab_core::stego::base64_stego_extract;

#[test]
fn extracts_hidden_bits() {
    // "AA==" hides 0000 in 'A'; "AP==" hides 1111 in 'P' → 0x0f.
    let out = base64_stego_extract("AA==\nAP==", false);
    assert_eq!(out.hex, "0f");
    assert_eq!(out.bits, 8);
    assert_eq!(out.bytes, vec![0x0f]);
}

#[test]
fn reads_one_pad_lines_and_skips_others() {
    // 'B' = 1 → low 2 bits 01; 'D' = 3 → 11; lines without padding hide nothing.
    let out = base64_stego_extract("QUJD\r\nQB=\n\n  QD= \nQB=\nQD=\n", false);
    assert_eq!(out.bits, 8);
    assert_eq!(out.bytes, vec![0b0111_0111]);
    // the URL alphabet reads '-' as 62 (low 4 bits 1110)
    let out = base64_stego_extract("A-==\nA-==", true);
    assert_eq!(out.bytes, vec![0xee]);
}
