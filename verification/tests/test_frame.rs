use libzstd_bitexact::frame::parse;
use libzstd_bitexact::{Error, WINDOW_LOG_MAX};

#[test]
fn single_segment_with_one_byte_fcs() {
    // Descriptor 0x20: single segment, FCS flag 0 -> 1-byte content size.
    let h = parse(&[0x20, 0x05], WINDOW_LOG_MAX).unwrap();
    assert_eq!(h.content_size, Some(5));
    assert_eq!(h.window_size, 5);
    assert_eq!(h.dict_id, 0);
    assert!(!h.has_checksum);
    assert_eq!(h.header_len, 2);
}

#[test]
fn windowed_with_checksum() {
    // Descriptor 0x04: checksum, window descriptor follows.
    // Window byte 0x08: exponent 1, mantissa 0 -> 2 KiB.
    let h = parse(&[0x04, 0x08], WINDOW_LOG_MAX).unwrap();
    assert_eq!(h.content_size, None);
    assert_eq!(h.window_size, 2048);
    assert!(h.has_checksum);
    assert_eq!(h.header_len, 2);
}

#[test]
fn two_byte_fcs_is_biased() {
    // Descriptor 0x60: single segment + FCS flag 1 -> 2-byte FCS + 256.
    let h = parse(&[0x60, 0x00, 0x01], WINDOW_LOG_MAX).unwrap();
    assert_eq!(h.content_size, Some(256 + 256));
}

#[test]
fn rejects_reserved_bit() {
    assert!(matches!(
        parse(&[0x08, 0x00], WINDOW_LOG_MAX),
        Err(Error::FrameHeaderInvalid(_))
    ));
}

#[test]
fn window_log_max_bounds_the_window_descriptor() {
    // Window byte 0x90: exponent 18 -> window log 28.
    assert!(parse(&[0x00, 0x90], 28).is_ok());
    assert!(matches!(
        parse(&[0x00, 0x90], 27),
        Err(Error::WindowTooLarge)
    ));
    // Values above the format maximum are clamped, never widened.
    assert!(matches!(
        parse(&[0x00, 0xF8], 60),
        Err(Error::WindowTooLarge)
    ));
}
