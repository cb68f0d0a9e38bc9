use libzstd_bitexact::bits::{ForwardBitReader, ReverseBitReader};

#[test]
fn forward_reader_reads_lsb_first() {
    // 0b1101_0110, 0b0000_0001
    let mut br = ForwardBitReader::new(&[0xD6, 0x01]);
    assert_eq!(br.read(3), 0b110);
    assert_eq!(br.read(5), 0b11010);
    assert_eq!(br.read(4), 0b0001);
    assert_eq!(br.bits_consumed(), 12);
    // Past the end: zeros.
    assert_eq!(br.read(8), 0);
}

#[test]
fn reverse_reader_strips_padding_and_reads_backward() {
    // Stream written forward as: 5 bits 0b10001, then 3 bits 0b011, then
    // the padding bit. Byte 0 = 0b011_10001 = 0x71, byte 1 = 0b0000_0001.
    let mut br = ReverseBitReader::new(&[0x71, 0x01]).unwrap();
    assert_eq!(br.bits_remaining(), 8);
    assert_eq!(br.read(3), 0b011);
    assert_eq!(br.read(5), 0b10001);
    assert!(br.finished_exactly());
}

#[test]
fn reverse_reader_zero_fills_past_start() {
    // Single byte 0b0000_0101: padding bit at position 2, payload = "01".
    let mut br = ReverseBitReader::new(&[0x05]).unwrap();
    assert_eq!(br.bits_remaining(), 2);
    // Peeking 4 bits with only 2 available: the two real bits land in the
    // top positions, missing bits are zero.
    assert_eq!(br.peek(4), 0b0100);
    br.consume(4);
    assert_eq!(br.bits_remaining(), -2);
    assert!(!br.finished_exactly());
}

#[test]
fn reverse_reader_rejects_empty_and_zero_padding() {
    assert!(ReverseBitReader::new(&[]).is_err());
    assert!(ReverseBitReader::new(&[0x00]).is_err());
}
