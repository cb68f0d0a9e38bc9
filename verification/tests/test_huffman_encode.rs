use libzstd_bitexact::huffman;
use libzstd_bitexact::huffman_codes::{compress1x, compress4x};
use libzstd_bitexact::huffman_header::write_ctable;
use libzstd_bitexact::huffman_tree::{build_ctable, complete_table, HUF_TABLELOG_MAX};
use libzstd_bitexact::Error;

/// Histogram of `data` over byte symbols, returning (counts, max_symbol).
fn histogram(data: &[u8]) -> (Vec<u32>, u32) {
    let mut count = vec![0u32; 256];
    let mut max_symbol = 0u32;
    for &b in data {
        count[b as usize] += 1;
        max_symbol = max_symbol.max(b as u32);
    }
    (count, max_symbol)
}

/// Build a table, write it, encode `data`, then decode via the Huffman
/// decoder and require the bytes back.
fn round_trip(data: &[u8], four_streams: bool) {
    let (count, max_symbol) = histogram(data);
    let ct = build_ctable(&count, max_symbol, 0).unwrap();

    // Table description must parse and rebuild on the decoder side.
    let table_bytes = write_ctable(&ct).unwrap();
    let (table, _used) = huffman::read_table(&table_bytes).unwrap();

    let encoded = if four_streams {
        compress4x(&ct, data)
    } else {
        compress1x(&ct, data)
    };
    let decoded = if four_streams {
        huffman::decode_four_streams(&table, &encoded, data.len()).unwrap()
    } else {
        huffman::decode_single_stream(&table, &encoded, data.len()).unwrap()
    };
    assert_eq!(
        decoded, data,
        "huffman round-trip mismatch (4x={four_streams})"
    );
}

/// A smoothly skewed sample over `[0, alphabet)`: each draw is the min of
/// two uniforms (a triangular distribution), so every symbol below the max
/// appears with a spread of frequencies and there are always ≥2 distinct
/// symbols. `alphabet` is kept ≤ 129 so `max_symbol ≤ 128` and the direct
/// weight-writing path is valid (the FSE-weights path is exercised
/// separately).
fn sample(seed: u64, len: usize, alphabet: u32) -> Vec<u8> {
    let mut s = seed | 1;
    let mut next = || {
        s ^= s >> 12;
        s ^= s << 25;
        s ^= s >> 27;
        s.wrapping_mul(0x2545_F491_4F6C_DD1D)
    };
    (0..len)
        .map(|_| {
            let a = next() % alphabet as u64;
            let b = next() % alphabet as u64;
            a.min(b) as u8
        })
        .collect()
}

/// All 256 symbols present with geometrically decreasing frequencies, so the
/// weight array is smooth and FSE-compressible: driving the FSE-weights
/// path of `write_ctable` (and `max_symbol == 255`).
fn full_alphabet_geometric() -> Vec<u8> {
    let mut data = Vec::new();
    for s in 0u32..256 {
        let freq = 1 + (4000usize >> (s / 16));
        data.extend(std::iter::repeat_n(s as u8, freq));
    }
    data
}

#[test]
fn single_stream_round_trip() {
    for &alphabet in &[2u32, 5, 16, 60, 100, 129] {
        let data = sample(0xABCD_0001 ^ alphabet as u64, 5000, alphabet);
        round_trip(&data, false);
    }
    round_trip(&full_alphabet_geometric(), false);
}

#[test]
fn four_stream_round_trip() {
    for &alphabet in &[3u32, 8, 32, 128, 129] {
        let data = sample(0x1234_0001 ^ alphabet as u64, 20_000, alphabet);
        round_trip(&data, true);
    }
    round_trip(&full_alphabet_geometric(), true);
}

#[test]
fn skewed_distribution_needs_height_limiting() {
    // A geometric-ish distribution drives the unlimited tree past 12 bits,
    // exercising the height limit; the round-trip proves the clamp is valid.
    let mut data = Vec::new();
    let mut freq = 1usize << 16;
    for sym in 0u8..20 {
        for _ in 0..freq.max(1) {
            data.push(sym);
        }
        freq /= 2;
    }
    let (count, max_symbol) = histogram(&data);
    let ct = build_ctable(&count, max_symbol, 0).unwrap();
    assert!(ct.table_log <= HUF_TABLELOG_MAX);
    round_trip(&data, false);
    round_trip(&data, true);
}

#[test]
fn write_ctable_round_trips_through_reader() {
    // A small alphabet exercises the direct 4-bit path; the full geometric
    // alphabet (max_symbol = 255) forces the FSE-compressed-weights path.
    let small = sample(7, 30_000, 50);
    for data in [small, full_alphabet_geometric()] {
        let (count, max_symbol) = histogram(&data);
        let ct = build_ctable(&count, max_symbol, 0).unwrap();
        let bytes = write_ctable(&ct).unwrap();
        let (table, used) = huffman::read_table(&bytes).unwrap();
        assert_eq!(used, bytes.len(), "table description length");
        // Re-encode/decode using the reader-built table to confirm the
        // weights describe the same code lengths.
        let encoded = compress1x(&ct, &data);
        let decoded = huffman::decode_single_stream(&table, &encoded, data.len()).unwrap();
        assert_eq!(decoded, data);
    }
}

/// A pseudo-random histogram of `n` symbols.
fn counts(seed: u32, n: usize) -> Vec<u32> {
    let mut x = seed;
    let mut out = Vec::new();
    for _ in 0..n {
        x = x.wrapping_mul(1664525).wrapping_add(1013904223);
        out.push((x >> 20) >> (x % 11));
    }
    out[0] = 1;
    out[n - 1] = 2;
    out
}

#[test]
fn codes_fill_the_code_space() {
    for seed in 0..40 {
        for n in [2usize, 3, 17, 100, 256] {
            let count = counts(seed, n);
            let ct = build_ctable(&count, n as u32 - 1, 9).unwrap();
            assert!(ct.table_log <= 9);
            let mut room = 0u32;
            for s in 0..n {
                assert_eq!(ct.nb_bits[s] != 0, count[s] != 0);
                if ct.nb_bits[s] != 0 {
                    room += 1 << (ct.table_log - ct.nb_bits[s] as u32);
                }
            }
            assert_eq!(room, 1 << ct.table_log);
        }
    }
}

#[test]
fn a_more_frequent_symbol_has_no_longer_code() {
    for seed in 0..20 {
        let count = counts(seed, 200);
        let ct = build_ctable(&count, 199, 8).unwrap();
        for a in 0..200 {
            for b in 0..200 {
                if count[a] > count[b] && count[b] > 0 {
                    assert!(ct.nb_bits[a] <= ct.nb_bits[b]);
                }
            }
        }
    }
}

#[test]
fn heavy_counts_keep_their_tree() {
    let count = [1u32 << 30, 1 << 29, 1 << 29, 5];
    let ct = build_ctable(&count, 3, 0).unwrap();
    assert_eq!(ct.table_log, 3);
    assert_eq!(ct.nb_bits[..4], [1, 2, 3, 3]);
    assert_eq!(ct.code[..4], [1, 1, 0, 1]);
    let two = build_ctable(&[1 << 30, 1 << 30], 1, 0).unwrap();
    assert_eq!(two.nb_bits[..2], [1, 1]);
}

#[test]
fn a_high_tree_is_cut_down() {
    let mut count = vec![1u32, 1];
    while count.len() < 24 {
        let n = count.len();
        count.push(count[n - 1] + count[n - 2]);
    }
    let ct = complete_table(&count, 23, 6).unwrap();
    assert_eq!(ct.table_log, 6);
    assert_eq!(complete_table(&count, 23, 0).unwrap().table_log, 11);
    assert_eq!(build_ctable(&count, 23, 30).err(), Some(Error::Encode("huffman table log too large")));
    assert_eq!(build_ctable(&count, 256, 0).err(), Some(Error::Encode("huffman max symbol too large")));
}
