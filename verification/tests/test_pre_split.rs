use libzstd_bitexact::pre_split::split_block;

/// Uniform content must not split; a hard statistical boundary must.
#[test]
fn split_reacts_to_content_shift() {
    let block_size = 128 << 10;
    let uniform = vec![b'x'; block_size];
    assert_eq!(split_block(&uniform, 0), block_size);

    // First half text-like, second half binary-ish: borders differ.
    let mut shifted = Vec::with_capacity(block_size);
    while shifted.len() < block_size / 2 {
        shifted.extend_from_slice(b"plain english words here ");
    }
    shifted.truncate(block_size / 2);
    let mut s = 0x1234_5678_9ABC_DEF0u64;
    while shifted.len() < block_size {
        s ^= s >> 12;
        s ^= s << 25;
        s ^= s >> 27;
        shifted.extend_from_slice(&s.wrapping_mul(0x2545_F491_4F6C_DD1D).to_le_bytes());
    }
    shifted.truncate(block_size);
    let cut = split_block(&shifted, 0);
    assert!(cut < block_size, "expected a split, got {cut}");
    assert!(
        matches!(cut, 32_768 | 65_536 | 98_304),
        "fromBorders cuts are quartiles, got {cut}"
    );

    for level in 1..=4usize {
        let cut = split_block(&shifted, level);
        assert!(
            cut < block_size && cut % (8 << 10) == 0,
            "byChunks level {level}: got {cut}"
        );
    }
}
