use libzstd_bitexact::fse;
use libzstd_bitexact::fse_counts::{normalize_count, write_ncount, Normalized};
use libzstd_bitexact::fse_encode::{build_ctable, fse_compress_using_ctable, optimal_table_log, FSE_MIN_TABLELOG};

/// zstd's predefined offset-code distribution (`OF_defaultNorm`, log 5).
const OF_DEFAULT_NORM: [i16; 29] = [
     1, 1, 1, 1, 1, 1, 2, 2,
     2, 1, 1, 1, 1, 1, 1, 1,
     1, 1, 1, 1, 1, 1, 1, 1,
    -1,-1,-1,-1,-1,
];

/// zstd's predefined literal-length distribution (`LL_defaultNorm`, log 6).
const LL_DEFAULT_NORM: [i16; 36] = [
     4, 3, 2, 2, 2, 2, 2, 2,
     2, 2, 2, 2, 2, 1, 1, 1,
     2, 2, 2, 2, 2, 2, 2, 2,
     2, 3, 2, 1, 1, 1, 1, 1,
    -1,-1,-1,-1,
];

/// Read a written header back through the decoder and compare,
/// padding the recovered counts with the implicit trailing zeros.
fn round_trip(norm: &[i16], table_log: u32, max_log: u32) {
    let max_symbol = norm.len() as u32 - 1;
    let bytes = write_ncount(norm, max_symbol, table_log).expect("write");
    let nc = fse::read_ncount(&bytes, max_symbol, max_log).expect("read back");
    assert_eq!(nc.table_log, table_log, "table log round-trips");
    let mut got = nc.counts;
    assert!(got.len() <= norm.len());
    got.resize(norm.len(), 0);
    assert_eq!(got, norm, "normalized counts round-trip");
    assert_eq!(nc.bytes_consumed, bytes.len(), "header length round-trips");
}

#[test]
fn predefined_tables_round_trip() {
    round_trip(&OF_DEFAULT_NORM, 5, 8);
    round_trip(&LL_DEFAULT_NORM, 6, 9);
}

#[test]
fn optimal_table_log_matches_reference_cases() {
    // Small alphabet, modest source: bounded by the source-accuracy term.
    assert_eq!(optimal_table_log(0, 6, 5), 5);
    // Larger source raises the accuracy toward the default/cap.
    assert_eq!(optimal_table_log(9, 100_000, 35), 9);
    // Never below the format minimum.
    assert!(optimal_table_log(0, 3, 1) >= FSE_MIN_TABLELOG);
}

/// A normalized distribution must spend exactly `2^tableLog` states (a `-1`
/// low-probability symbol still costs one state).
fn assert_sums_to_table(norm: &[i16], table_log: u32) {
    let used: i32 = norm
        .iter()
        .map(|&p| if p == -1 { 1 } else { p as i32 })
        .sum();
    assert_eq!(used, 1i32 << table_log, "uses the whole table");
}

#[test]
fn normalize_then_round_trip_synthetic_histograms() {
    let histograms: &[&[u32]] = &[
        &[5, 5, 5, 5, 5, 5, 5, 5],                         // uniform
        &[100, 50, 25, 12, 6, 3, 2, 1, 1],                 // skewed with low-prob tail
        &[1000, 1, 1, 1, 1, 1, 1, 1],                      // one dominant symbol
        &[7, 7, 7, 7, 7, 7, 7, 7, 7, 7, 7, 7, 7, 7, 7, 7], // even, larger alphabet
        &[3, 3, 4, 2, 9, 1, 1, 5, 8, 2],                   // irregular (exercises rounding)
    ];
    for &hist in histograms {
        let total: usize = hist.iter().map(|&c| c as usize).sum();
        let max_symbol = hist.len() as u32 - 1;
        let table_log = optimal_table_log(9, total, max_symbol);
        match normalize_count(hist, total, max_symbol, table_log, true).unwrap() {
            Normalized::Table(norm) => {
                assert_sums_to_table(&norm, table_log);
                // Every present symbol keeps a nonzero slot.
                for (s, &c) in hist.iter().enumerate() {
                    if c > 0 {
                        assert_ne!(norm[s], 0, "symbol {s} dropped");
                    }
                }
                round_trip(&norm, table_log, 12);
            }
            Normalized::Rle(_) => panic!("unexpected RLE for a multi-symbol histogram"),
        }
    }
}

#[test]
fn single_symbol_histogram_is_rle() {
    let hist = [0u32, 42, 0, 0];
    match normalize_count(&hist, 42, 3, 6, true).unwrap() {
        Normalized::Rle(s) => assert_eq!(s, 1),
        Normalized::Table(_) => panic!("expected RLE"),
    }
}

/// Build matching compression and decompression tables, FSE-encode a symbol
/// stream, then decode it with `decode_interleaved`: the symbols come back.
#[test]
fn fse_encode_decode_round_trip() {
    let mut state = 0x243F_6A88_85A3_08D3u64; // deterministic xorshift
    let mut next = || {
        state ^= state >> 12;
        state ^= state << 25;
        state ^= state >> 27;
        state.wrapping_mul(0x2545_F491_4F6C_DD1D)
    };

    let histograms: &[&[u32]] = &[
        &[100, 50, 25, 12, 6, 3, 2, 1],
        &[5, 5, 5, 5, 5, 5, 5, 5],
        &[400, 1, 1, 1, 1, 1, 200, 50, 3, 9],
    ];
    for hist in histograms {
        let total: usize = hist.iter().map(|&c| c as usize).sum();
        let max_symbol = hist.len() as u32 - 1;
        let table_log = optimal_table_log(9, total, max_symbol);
        let norm = match normalize_count(hist, total, max_symbol, table_log, true).unwrap() {
            Normalized::Table(n) => n,
            Normalized::Rle(_) => unreachable!(),
        };
        let ct = build_ctable(&norm, max_symbol, table_log);
        let dt = fse::build_dtable(&norm, table_log).unwrap();

        // Only symbols with a nonzero normalized count are encodable.
        let encodable: Vec<u8> = (0..=max_symbol as usize)
            .filter(|&s| norm[s] != 0)
            .map(|s| s as u8)
            .collect();

        // Lengths covering every parity / join branch of the encoder.
        for &len in &[3usize, 4, 5, 6, 7, 8, 9, 64, 257, 1000] {
            let symbols: Vec<u8> = (0..len)
                .map(|_| encodable[(next() % encodable.len() as u64) as usize])
                .collect();
            let encoded = fse_compress_using_ctable(&ct, &symbols);
            let decoded = fse::decode_interleaved(&dt, &encoded, len + 16).unwrap();
            assert_eq!(decoded, symbols, "round-trip mismatch at len {len}");
        }
    }
}

#[test]
fn long_inputs_round_trip() {
    let norm: [i16; 3] = [20, 11, 1];
    let ct = build_ctable(&norm, 2, 5);
    let dt = fse::build_dtable(&norm, 5).unwrap();
    let src: Vec<u8> = (0..1_500_000usize).map(|i| if i % 31 == 0 { 2 } else { (i * i % 3 % 2) as u8 }).collect();
    let packed = fse_compress_using_ctable(&ct, &src);
    assert_eq!(fse::decode_interleaved(&dt, &packed, src.len() + 16).unwrap(), src);
}

#[test]
fn every_histogram_is_scaled() {
    let mut x = 1u32;
    for n in [2usize, 3, 9, 40, 200] {
        for _ in 0..60 {
            let mut hist = Vec::new();
            for _ in 0..n {
                x = x.wrapping_mul(1664525).wrapping_add(1013904223);
                hist.push((x >> 18) >> (x % 15));
            }
            hist[0] += 1;
            hist[n - 1] += 1;
            let total: usize = hist.iter().map(|&c| c as usize).sum();
            let max_symbol = n as u32 - 1;
            let least = optimal_table_log(5, total, max_symbol);
            for table_log in least..=12 {
                for low in [false, true] {
                    match normalize_count(&hist, total, max_symbol, table_log, low).unwrap() {
                        Normalized::Table(norm) => {
                            assert_sums_to_table(&norm, table_log);
                            for (s, &c) in hist.iter().enumerate() {
                                assert_eq!(norm[s] != 0, c != 0);
                                assert!((norm[s] as i32) < 1 << table_log);
                            }
                        }
                        Normalized::Rle(_) => panic!("more than one symbol"),
                    }
                }
            }
        }
    }
}
