use libzstd_bitexact::block::{self, FrameContext, BLOCK_SIZE_MAX};
use libzstd_bitexact::literals_encode::compress_literals;

/// Decode an emitted section with a fresh context and require the literals
/// back, with the whole section consumed.
fn assert_round_trip(literals: &[u8]) {
    let section = compress_literals(literals, 3, false, false);
    let mut ctx = FrameContext::new();
    let (decoded, used) = block::decode_literals(&mut ctx, &section, BLOCK_SIZE_MAX)
        .unwrap_or_else(|e| panic!("decode of {}-byte literals failed: {e:?}", literals.len()));
    assert_eq!(decoded, literals, "literals round-trip mismatch");
    assert_eq!(used, section.len(), "section length mismatch");
}

fn sample(seed: u64, len: usize, alphabet: u32) -> Vec<u8> {
    let mut s = seed | 1;
    let mut next = || {
        s ^= s >> 12;
        s ^= s << 25;
        s ^= s >> 27;
        s.wrapping_mul(0x2545_F491_4F6C_DD1D)
    };
    (0..len)
        .map(|_| {
            let a = next() % alphabet as u64;
            let b = next() % alphabet as u64;
            a.min(b) as u8
        })
        .collect()
}

#[test]
fn tiny_inputs_stay_raw() {
    for n in 0..40usize {
        let data = sample(0x1111 ^ n as u64, n, 20);
        assert_round_trip(&data);
    }
}

#[test]
fn rle_literals_round_trip() {
    for &n in &[1usize, 5, 50, 5000, 100_000] {
        assert_round_trip(&vec![0xABu8; n]);
    }
}

#[test]
fn compressible_literals_use_huffman_and_round_trip() {
    // Skewed alphabets compress; sizes span the 1-stream/4-stream split and
    // the 3/4/5-byte header sizes (256, 1 KiB, 16 KiB thresholds).
    for &alphabet in &[8u32, 40, 120] {
        for &len in &[200usize, 300, 2000, 20_000, 70_000] {
            assert_round_trip(&sample(0xC0DE ^ (len as u64), len, alphabet));
        }
    }
}

#[test]
fn incompressible_literals_fall_back_to_raw() {
    // Near-uniform bytes over the full alphabet: Huffman can't help, so the
    // encoder must fall back to a raw section that still round-trips.
    let mut s = 0x9E37_79B9_7F4A_7C15u64;
    let data: Vec<u8> = (0..10_000)
        .map(|_| {
            s ^= s >> 12;
            s ^= s << 25;
            s ^= s >> 27;
            (s.wrapping_mul(0x2545_F491_4F6C_DD1D) >> 33) as u8
        })
        .collect();
    assert_round_trip(&data);
}
