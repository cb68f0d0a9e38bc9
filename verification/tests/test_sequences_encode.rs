use libzstd_bitexact::block::{self, FrameContext, BLOCK_SIZE_MAX};
use libzstd_bitexact::seq_store::{LongLengthType, SeqStore};
use libzstd_bitexact::seq_tables::{FseRepeat, SymbolEncodingType};
use libzstd_bitexact::sequences_encode::{
    entropy_compress_seq_store, entropy_compress_seq_store_internal, FseEntropyState,
};
use std::collections::HashMap;

/// Decode one emitted block body into `out` with the given frame context.
fn decode_block(body: &[u8], ctx: &mut FrameContext, out: &mut Vec<u8>) {
    block::decode_compressed_block(ctx, body, out, 0, &[], BLOCK_SIZE_MAX, usize::MAX)
        .unwrap_or_else(|e| panic!("decoding our emitted block failed: {e:?}"));
}

/// Compress a store and require a compressed (non-fallback) block.
fn compress(store: &SeqStore, strategy: i32, block_size: usize) -> Vec<u8> {
    let entropy = FseEntropyState::new();
    entropy_compress_seq_store(store, &entropy, strategy, false, block_size)
        .unwrap()
        .expect("expected a compressible block")
        .0
}

/// Like [`compress`], but without the block-level compressibility gate —
/// for tiny handcrafted blocks that a real compressor would emit raw.
fn compress_ungated(store: &SeqStore, strategy: i32, block_size: usize) -> Vec<u8> {
    let mut entropy = FseEntropyState::new();
    entropy_compress_seq_store_internal(store, &mut entropy, strategy, false, usize::MAX)
        .unwrap()
        .unwrap_or_else(|| panic!("ungated compression returned None ({block_size} bytes)"))
}

/// A naive greedy matcher: 4-byte hash chaining, emitting real offsets
/// only. Not a zstd match finder: just a generator of valid seqStores.
fn greedy_store(data: &[u8]) -> SeqStore {
    let mut store = SeqStore::new();
    let mut map: HashMap<[u8; 4], usize> = HashMap::new();
    let mut anchor = 0usize;
    let mut i = 0usize;
    while i + 4 <= data.len() {
        let key: [u8; 4] = data[i..i + 4].try_into().unwrap();
        if let Some(&prev) = map.get(&key) {
            if data[prev..prev + 4] == data[i..i + 4] {
                let mut len = 4usize;
                while i + len < data.len() && data[prev + len] == data[i + len] {
                    len += 1;
                }
                store.store_seq(&data[anchor..i], (i - prev + 3) as u32, len as u32);
                i += len;
                anchor = i;
                continue;
            }
        }
        map.insert(key, i);
        i += 1;
    }
    store.store_last_literals(&data[anchor..]);
    store
}

fn word_salad(seed: u64, len: usize) -> Vec<u8> {
    const WORDS: &[&[u8]] = &[
        b"alpha", b"bravo", b"charlie", b"delta", b"echo", b"foxtrot", b"golf", b"hotel",
        b"india", b"juliet",
    ];
    let mut s = seed | 1;
    let mut data = Vec::with_capacity(len + 8);
    while data.len() < len {
        s ^= s >> 12;
        s ^= s << 25;
        s ^= s >> 27;
        let r = s.wrapping_mul(0x2545_F491_4F6C_DD1D);
        data.extend_from_slice(WORDS[(r % WORDS.len() as u64) as usize]);
        data.push(b' ');
    }
    data.truncate(len);
    data
}

#[test]
fn handcrafted_real_and_repeat_offsets() {
    // "abcabcabc" via offset 3, then "xyzxyz" via repeat-offset 1.
    let data = b"abcabcabcxyzxyz";
    let mut store = SeqStore::new();
    store.store_seq(b"abc", 3 + 3, 6); // real offset 3
    store.store_seq(b"xyz", 1, 3); // repcode 1 (most recent offset, 3)
    let body = compress_ungated(&store, 1, data.len());
    let mut out = Vec::new();
    decode_block(&body, &mut FrameContext::new(), &mut out);
    assert_eq!(out, data);
}

#[test]
fn single_sequence_block() {
    let data = b"0123456789_0123456789";
    let mut store = SeqStore::new();
    store.store_seq(b"0123456789_", 11 + 3, 10);
    let body = compress_ungated(&store, 3, data.len());
    let mut out = Vec::new();
    decode_block(&body, &mut FrameContext::new(), &mut out);
    assert_eq!(out, data);
}

/// All-identical sequences drive every component to the RLE table mode,
/// across all three forms of the sequence-count header.
#[test]
fn rle_tables_and_nbseq_header_forms() {
    // 32_700 crosses the LONG_NB_SEQ (0x7F00) threshold while keeping the
    // block within its largest size.
    for &nb_seq in &[5usize, 200, 32_700] {
        let data = vec![b'a'; 4 * nb_seq];
        let mut store = SeqStore::new();
        let mut pos = 0usize;
        for _ in 0..nb_seq {
            store.store_seq(&data[pos..pos + 1], 1 + 3, 3); // 'a' + 3-byte match, offset 1
            pos += 4;
        }
        assert!(data.len() <= BLOCK_SIZE_MAX);
        let body = compress(&store, 3, data.len());
        let mut out = Vec::new();
        decode_block(&body, &mut FrameContext::new(), &mut out);
        assert_eq!(out, data, "nbSeq={nb_seq}");
    }
}

/// Compressed FSE tables (heuristic branch at strategy 1, cost branch at
/// strategy 6) over a realistic seqStore from the naive matcher.
#[test]
fn matcher_blocks_round_trip_across_strategies() {
    for &len in &[2_000usize, 40_000, 120_000] {
        let data = word_salad(0x5E0D ^ len as u64, len);
        let store = greedy_store(&data);
        assert!(!store.sequences.is_empty(), "matcher found no matches");
        for strategy in [1, 3, 6, 9] {
            let entropy = FseEntropyState::new();
            let (body, _next) =
                entropy_compress_seq_store(&store, &entropy, strategy, false, data.len())
                    .unwrap()
                    .expect("word salad must compress");
            let mut out = Vec::new();
            decode_block(&body, &mut FrameContext::new(), &mut out);
            assert_eq!(out, data, "len={len} strategy={strategy}");
        }
    }
}

/// Two consecutive blocks with identical statistics: the second must be
/// decodable against the carried-over decoder context, and with
/// `Valid` tables at a low strategy the second block repeats them. (Valid is
/// only sound when the tables cover every symbol the next block uses, which
/// holds here because the same sequences are compressed twice.)
#[test]
fn repeat_mode_across_blocks() {
    let data = word_salad(0xAAAA, 6_000);
    let store1 = greedy_store(&data);
    let store2 = greedy_store(&data);
    assert!(store2.sequences.len() < 1000, "below the repeat-gate limit");

    let entropy = FseEntropyState::new();
    let (body1, mut entropy) =
        entropy_compress_seq_store(&store1, &entropy, 6, false, data.len())
            .unwrap()
            .unwrap();
    // Promote the freshly built tables to Valid, as loading a dictionary
    // would, so that the lowest strategy reuses them.
    entropy.ll_repeat = FseRepeat::Valid;
    entropy.of_repeat = FseRepeat::Valid;
    entropy.ml_repeat = FseRepeat::Valid;
    let (body2, _next) = entropy_compress_seq_store(&store2, &entropy, 1, false, data.len())
        .unwrap()
        .unwrap();

    // Locate block 2's modes byte: after the literals section and the
    // sequence-count header.
    let mut probe_ctx = FrameContext::new();
    let (_, lit_len) = block::decode_literals(&mut probe_ctx, &body2, BLOCK_SIZE_MAX).unwrap();
    let nb_seq_header = match body2[lit_len] {
        b if b < 128 => 1,
        0xFF => 3,
        _ => 2,
    };
    let modes = body2[lit_len + nb_seq_header];
    let types = [(modes >> 6) & 3, (modes >> 4) & 3, (modes >> 2) & 3];
    assert!(
        types.contains(&(SymbolEncodingType::Repeat as u8)),
        "expected at least one Repeat_Mode component in block 2, got {types:?}"
    );

    // Both blocks decode against one shared context, like a real frame.
    let mut ctx = FrameContext::new();
    let mut out = Vec::new();
    decode_block(&body1, &mut ctx, &mut out);
    decode_block(&body2, &mut ctx, &mut out);
    let expected: Vec<u8> = data.iter().chain(data.iter()).copied().collect();
    assert_eq!(out, expected);
}

/// A literal run beyond 65535 bytes exercises the long-length marker.
#[test]
fn long_literal_length_marker() {
    let lits = word_salad(0x10_06, 70_000);
    let mut data = lits.clone();
    data.extend_from_slice(&lits[..8]);
    let mut store = SeqStore::new();
    store.store_seq(&lits, 70_000 + 3, 8);
    assert_eq!(store.long_length_type, LongLengthType::LiteralLength);
    let body = compress(&store, 3, data.len());
    let mut out = Vec::new();
    decode_block(&body, &mut FrameContext::new(), &mut out);
    assert_eq!(out, data);
}

/// No sequences at all: the body is a literals section plus a zero count.
#[test]
fn literals_only_block() {
    let lits = word_salad(0x1177, 5_000);
    let mut store = SeqStore::new();
    store.store_last_literals(&lits);
    let body = compress(&store, 3, lits.len());
    let mut out = Vec::new();
    decode_block(&body, &mut FrameContext::new(), &mut out);
    assert_eq!(out, lits);
}

/// Incompressible input falls back to a raw block (None).
#[test]
fn incompressible_returns_none() {
    let mut s = 0x9E37_79B9u64;
    let data: Vec<u8> = (0..4096)
        .map(|_| {
            s ^= s >> 12;
            s ^= s << 25;
            s ^= s >> 27;
            (s.wrapping_mul(0x2545_F491_4F6C_DD1D) >> 33) as u8
        })
        .collect();
    let mut store = SeqStore::new();
    store.store_last_literals(&data);
    let entropy = FseEntropyState::new();
    let r = entropy_compress_seq_store(&store, &entropy, 3, false, data.len()).unwrap();
    assert!(
        r.is_none(),
        "random bytes must not produce a compressed block"
    );
}
