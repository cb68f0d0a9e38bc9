//! Frames are byte-identical to those of libzstd.

use libzstd_bitexact::compress_dict::streaming_cdict_init;
use libzstd_bitexact::frame_compress::FrameCompressor;
use libzstd_bitexact::{
    compress, compress_mt, compress_with_cdict, compress_with_dict, DecodeOptions, Dictionary, Error,
};
use zstd_safe::CParameter;

struct Rng(u64);

impl Rng {
    fn next(&mut self) -> u64 {
        self.0 ^= self.0 >> 12;
        self.0 ^= self.0 << 25;
        self.0 ^= self.0 >> 27;
        self.0.wrapping_mul(0x2545_F491_4F6C_DD1D)
    }
    fn below(&mut self, n: u64) -> u64 {
        self.next() % n
    }
}

fn text(seed: u64, len: usize) -> Vec<u8> {
    const WORDS: [&str; 16] = [
        "the", "quick", "brown", "fox", "jumps", "over", "lazy", "dog", "window", "match", "offset", "literal",
        "sequence", "entropy", "table", "block",
    ];
    let mut rng = Rng(seed | 1);
    let mut out = Vec::new();
    while out.len() < len {
        out.extend_from_slice(WORDS[rng.below(16) as usize].as_bytes());
        out.push(if rng.below(12) == 0 { b'\n' } else { b' ' });
    }
    out.truncate(len);
    out
}

fn noise(seed: u64, len: usize) -> Vec<u8> {
    let mut rng = Rng(seed | 1);
    (0..len).map(|_| (rng.next() >> 33) as u8).collect()
}

/// Runs, copies of what came before, and noise.
fn mixed(seed: u64, len: usize) -> Vec<u8> {
    let mut rng = Rng(seed | 1);
    let mut out: Vec<u8> = Vec::new();
    while out.len() < len {
        match rng.below(5) {
            0 => {
                let b = rng.next() as u8;
                for _ in 0..rng.below(300) {
                    out.push(b);
                }
            }
            1 => {
                for _ in 0..rng.below(60) {
                    out.push((rng.next() >> 40) as u8);
                }
            }
            2 => {
                for _ in 0..rng.below(80) {
                    out.push(b'a' + rng.below(6) as u8);
                }
            }
            _ => {
                if out.len() > 8 {
                    let off = 1 + rng.below(out.len() as u64) as usize;
                    let n = 3 + rng.below(90) as usize;
                    for _ in 0..n {
                        let b = out[out.len() - off];
                        out.push(b);
                    }
                }
            }
        }
    }
    out.truncate(len);
    out
}

fn check(name: &str, data: &[u8], level: i32) {
    let ours = compress(data, level).unwrap();
    let theirs = zstd::bulk::compress(data, level).unwrap();
    if ours != theirs {
        let at = ours.iter().zip(theirs.iter()).position(|(a, b)| a != b);
        panic!(
            "{name} len {} level {level}: {} bytes against {}, first difference at {at:?}",
            data.len(),
            ours.len(),
            theirs.len()
        );
    }
}

fn sweep(levels: &[i32], sizes: &[usize]) {
    for &level in levels {
        for &n in sizes {
            check("text", &text(7 + n as u64, n), level);
            check("mixed", &mixed(9 + n as u64, n), level);
            check("noise", &noise(11 + n as u64, n), level);
            check("zeros", &vec![0u8; n], level);
        }
    }
}

#[test]
fn small_inputs_match_at_every_level() {
    let levels: Vec<i32> = (-7..=22).collect();
    sweep(&levels, &[0, 1, 5, 6, 7, 8, 30, 100, 700, 3000]);
}

#[test]
fn fast_levels_match() {
    sweep(&[-50, -5, -1, 1, 2], &[17_000, 130_000, 140_000, 600_000]);
}

#[test]
fn dfast_levels_match() {
    sweep(&[3, 4], &[17_000, 130_000, 140_000, 600_000]);
}

#[test]
fn lazy_levels_match() {
    sweep(&[5, 6, 7, 8, 9, 10, 11, 12], &[17_000, 130_000, 400_000]);
}

#[test]
fn btlazy_levels_match() {
    sweep(&[13, 14, 15], &[17_000, 130_000, 300_000]);
}

#[test]
fn opt_levels_match() {
    sweep(&[16, 17], &[17_000, 140_000, 300_000]);
}

#[test]
fn ultra_levels_match() {
    sweep(&[18, 19], &[17_000, 140_000]);
}

#[test]
fn ultra2_levels_match() {
    sweep(&[20, 21, 22], &[17_000, 140_000]);
}

fn same(name: &str, ours: &[u8], theirs: &[u8]) {
    if ours != theirs {
        let at = ours.iter().zip(theirs.iter()).position(|(a, b)| a != b);
        panic!("{name}: {} bytes against {}, first difference at {at:?}", ours.len(), theirs.len());
    }
}

/// A dictionary trained on short samples, and a source like them.
fn trained() -> Vec<u8> {
    let mut samples = Vec::new();
    let mut sizes = Vec::new();
    for i in 0..400u64 {
        let s = text(1000 + i, 200 + (i as usize * 7) % 300);
        sizes.push(s.len());
        samples.extend_from_slice(&s);
    }
    zstd::dict::from_continuous(&samples, &sizes, 6000).unwrap()
}

fn with_dict(src: &[u8], dict: &[u8], level: i32) -> Vec<u8> {
    let mut out = vec![0u8; zstd_safe::compress_bound(src.len()) + 64];
    let mut cctx = zstd_safe::CCtx::create();
    let n = cctx.compress_using_dict(&mut out[..], src, dict, level).unwrap();
    out.truncate(n);
    out
}

fn dict_sources() -> Vec<Vec<u8>> {
    vec![
        Vec::new(),
        text(3, 40),
        text(1003, 700),
        mixed(5, 5000),
        text(21, 12_000),
        text(22, 30_000),
        mixed(23, 60_000),
        text(24, 200_000),
    ]
}

fn dict_sweep(levels: &[i32]) {
    let dicts =
        [Vec::new(), b"short".to_vec(), text(1001, 8), text(1001, 12), text(50, 3000), mixed(51, 20_000), trained()];
    for &level in levels {
        for dict in &dicts {
            for src in dict_sources() {
                let name = format!("dict {} src {} level {level}", dict.len(), src.len());
                let ours = compress_with_dict(&src, dict, level).unwrap();
                same(&name, &ours, &with_dict(&src, dict, level));
            }
        }
    }
}

fn cdict_sweep(levels: &[i32]) {
    let dicts = [text(50, 3000), mixed(51, 20_000), mixed(52, 30_000), trained()];
    for &level in levels {
        for dict in &dicts {
            for src in dict_sources() {
                let name = format!("cdict {} src {} level {level}", dict.len(), src.len());
                let ours = compress_with_cdict(&src, dict, level).unwrap();
                let theirs = zstd::bulk::Compressor::with_dictionary(level, dict).unwrap().compress(&src).unwrap();
                same(&name, &ours, &theirs);
            }
        }
    }
}

#[test]
fn dictionary_frames_match_fast() {
    dict_sweep(&[-3, 1, 2]);
}

#[test]
fn digested_dictionary_frames_match_fast() {
    cdict_sweep(&[-3, 1, 2]);
}

#[test]
fn dictionary_frames_match_dfast() {
    dict_sweep(&[3, 4]);
}

#[test]
fn digested_dictionary_frames_match_dfast() {
    cdict_sweep(&[3, 4]);
}

#[test]
fn dictionary_frames_match_lazy() {
    dict_sweep(&[5, 7, 10]);
}

#[test]
fn digested_dictionary_frames_match_lazy() {
    cdict_sweep(&[5, 7, 10]);
}

#[test]
fn dictionary_frames_match_btlazy() {
    dict_sweep(&[12, 13, 15]);
}

#[test]
fn digested_dictionary_frames_match_btlazy() {
    cdict_sweep(&[12, 13, 15]);
}

#[test]
fn dictionary_frames_match_opt() {
    dict_sweep(&[16, 17]);
}

#[test]
fn digested_dictionary_frames_match_opt() {
    cdict_sweep(&[16, 17]);
}

#[test]
fn dictionary_frames_match_ultra() {
    dict_sweep(&[18]);
}

#[test]
fn digested_dictionary_frames_match_ultra() {
    cdict_sweep(&[18]);
}

#[test]
fn dictionary_frames_match_ultra2() {
    dict_sweep(&[19, 22]);
}

#[test]
fn digested_dictionary_frames_match_ultra2() {
    cdict_sweep(&[19, 22]);
}

fn mt_sweep(levels: &[i32]) {
    for &level in levels {
        for (job, overlap) in [(524_288u32, 0i32), (1_000_000, 0), (600_000, 3), (524_288, 1), (524_288, 6)] {
            for src in [mixed(77, 1_700_000), text(78, 2_500_000)] {
                let mut out = vec![0u8; zstd_safe::compress_bound(src.len()) + 64];
                let mut cctx = zstd_safe::CCtx::create();
                cctx.set_parameter(CParameter::CompressionLevel(level)).unwrap();
                cctx.set_parameter(CParameter::NbWorkers(2)).unwrap();
                cctx.set_parameter(CParameter::JobSize(job)).unwrap();
                cctx.set_parameter(CParameter::OverlapSizeLog(overlap as u32)).unwrap();
                let n = cctx.compress2(&mut out[..], &src[..]).unwrap();
                out.truncate(n);
                let ours = compress_mt(&src, level, 2, job as u64, overlap).unwrap();
                same(&format!("mt job {job} overlap {overlap} level {level}"), &ours, &out);
            }
        }
    }
}

#[test]
fn multithreaded_frames_match_fast() {
    mt_sweep(&[-2, 1, 3]);
}

#[test]
fn multithreaded_frames_match_lazy() {
    mt_sweep(&[5, 9]);
}

#[test]
fn multithreaded_frames_match_btlazy() {
    mt_sweep(&[13]);
}

/// Sources longer than the window: what lies further back is given up.
#[test]
fn windowed_frames_match() {
    for level in [-5, 1, 2, 3, 4, 5, 6, 8] {
        for src in [mixed(79, 2_900_000), text(80, 3_300_000)] {
            check("windowed", &src, level);
        }
    }
}

#[test]
fn windowed_frames_match_btlazy() {
    check("windowed", &text(81, 5_000_000), 13);
    check("windowed", &mixed(82, 4_800_000), 14);
}

/// A source in two chunks, the first flushed, with an attached dictionary.
#[test]
fn chunks_with_an_attached_dictionary_match() {
    for level in [-3, 1, 3, 5, 7, 9, 13, 16, 18, 20] {
        for dict in [text(50, 3000), mixed(51, 20_000), trained()] {
            let src = text(1005, 9000);
            let half = 5000;
            let mut out = vec![0u8; 20_000];
            let mut cctx = zstd_safe::CCtx::create();
            cctx.set_parameter(CParameter::CompressionLevel(level)).unwrap();
            cctx.set_parameter(CParameter::ChecksumFlag(true)).unwrap();
            cctx.load_dictionary(&dict).unwrap();
            let n = {
                let mut o = zstd_safe::OutBuffer::around(&mut out[..]);
                let mut a = zstd_safe::InBuffer::around(&src[..half]);
                cctx.compress_stream(&mut o, &mut a).unwrap();
                while cctx.flush_stream(&mut o).unwrap() != 0 {}
                let mut b = zstd_safe::InBuffer::around(&src[half..]);
                cctx.compress_stream(&mut o, &mut b).unwrap();
                while cctx.end_stream(&mut o).unwrap() != 0 {}
                o.pos()
            };
            out.truncate(n);
            let mut init = streaming_cdict_init(&dict, level, None, true).unwrap();
            assert!(init.in_buff.len() > init.content_len);
            let mut data = init.in_buff[..init.content_len].to_vec();
            data.extend_from_slice(&src);
            let start = init.content_len;
            assert!(!init.fc.cdict_attach_overflow(data.len()));
            let mut ours = Vec::new();
            assert!(init.fc.compress_continue(&mut ours, &data, start, start + half, false).is_ok());
            assert!(init.fc.compress_end(&mut ours, &data, start + half, data.len()).is_ok());
            let d = Dictionary::new(&dict).unwrap();
            assert_eq!(DecodeOptions::new().dictionary(&d).decompress(&ours).unwrap(), src);
            same(&format!("chunks dict {} level {level}", dict.len()), &ours, &out);
        }
    }
}

#[test]
fn chunks_with_a_dictionary_are_refused_when_it_would_be_copied() {
    let dict = text(50, 3000);
    assert!(matches!(streaming_cdict_init(&dict, 3, Some(16384), false), Ok(_)));
    assert!(matches!(streaming_cdict_init(&dict, 3, Some(16385), false), Err(Error::Encode(_))));
    assert!(matches!(streaming_cdict_init(&dict[..8], 3, None, false), Err(Error::Encode(_))));
}

/// Mostly noise, so that a block has few sequences: the dictionary's tables
/// stay in use for long.
fn sparse(seed: u64, len: usize) -> Vec<u8> {
    let mut out = noise(seed, len);
    let words = text(1000, 400);
    let mut at = 700;
    while at + 400 < len {
        out[at..at + 40].copy_from_slice(&words[at % 300..at % 300 + 40]);
        at += 9000;
    }
    out
}

#[test]
fn dictionary_frames_of_many_blocks_match() {
    let dict = trained();
    for level in [-1, 1, 2, 3, 4, 5, 6, 7, 9, 12, 13, 16, 18] {
        for src in [sparse(90, 150_000), sparse(91, 420_000), mixed(92, 270_000)] {
            let ours = compress_with_dict(&src, &dict, level).unwrap();
            same(&format!("dict src {} level {level}", src.len()), &ours, &with_dict(&src, &dict, level));
        }
    }
}

#[test]
fn digested_dictionary_frames_of_many_blocks_match() {
    let dict = trained();
    for level in [-1, 1, 2, 3, 4, 5, 6, 7, 9, 12, 13, 16, 18] {
        for src in [sparse(90, 150_000), sparse(91, 420_000), mixed(92, 270_000)] {
            let ours = compress_with_cdict(&src, &dict, level).unwrap();
            let mut theirs = zstd::bulk::Compressor::with_dictionary(level, &dict).unwrap();
            same(&format!("cdict src {} level {level}", src.len()), &ours, &theirs.compress(&src).unwrap());
        }
    }
}

/// What a stream makes of `data` when the size is not known.
fn their_stream(data: &[u8], level: i32) -> Vec<u8> {
    let mut out = vec![0u8; zstd_safe::compress_bound(data.len()) + 1000];
    let mut cctx = zstd_safe::CCtx::create();
    cctx.set_parameter(zstd_safe::CParameter::CompressionLevel(level)).unwrap();
    let used = {
        let mut output = zstd_safe::OutBuffer::around(&mut out[..]);
        let mut input = zstd_safe::InBuffer::around(data);
        while input.pos < data.len() {
            cctx.compress_stream(&mut output, &mut input).unwrap();
        }
        while cctx.end_stream(&mut output).unwrap() > 0 {}
        output.pos()
    };
    out.truncate(used);
    out
}

/// The same with a ring buffer of one window and one block: chunks that start
/// over at its front leave the history in two parts.
fn our_stream(data: &[u8], level: i32) -> (Vec<u8>, usize) {
    let mut fc = FrameCompressor::new(level, None, false);
    let block = fc.block_size_max();
    let mut ring = vec![0u8; fc.window_size() as usize + block];
    let mut out = Vec::new();
    let mut from = 0;
    let mut wraps = 0;
    let mut at = 0;
    while data.len() - at >= block {
        ring[from..from + block].copy_from_slice(&data[at..at + block]);
        fc.compress_continue(&mut out, &ring, from, from + block, false).unwrap();
        at += block;
        from += block;
        if from + block > ring.len() {
            from = 0;
            wraps += 1;
        }
    }
    let left = data.len() - at;
    ring[from..from + left].copy_from_slice(&data[at..]);
    fc.compress_end(&mut out, &ring, from, from + left).unwrap();
    (out, wraps)
}

fn ring_check(data: &[u8], level: i32) {
    let (ours, wraps) = our_stream(data, level);
    assert!(wraps > 0, "level {level}");
    same(&format!("ring of {} at level {level}", data.len()), &ours, &their_stream(data, level));
}

#[test]
fn a_ring_buffer_that_wraps_matches_fast() {
    let data = mixed(101, 2_300_000);
    for level in [-3, 1, 2] {
        ring_check(&data, level);
    }
}

#[test]
fn a_ring_buffer_that_wraps_matches_dfast() {
    let data = mixed(102, 5_000_000);
    for level in [3, 4] {
        ring_check(&data, level);
    }
}

#[test]
fn a_ring_buffer_that_wraps_matches_lazy() {
    let data = mixed(103, 5_300_000);
    for level in [5, 6, 8, 9] {
        ring_check(&data, level);
    }
}

#[test]
fn a_ring_buffer_that_wraps_matches_btlazy() {
    ring_check(&mixed(104, 5_300_000), 13);
}

#[test]
fn a_ring_buffer_that_wraps_matches_btopt() {
    ring_check(&mixed(105, 5_300_000), 16);
}

#[test]
fn a_new_frame_has_fixed_bytes() {
    let mut fc = FrameCompressor::new(1, Some(30), false);
    let mut out = Vec::new();
    assert!(fc.compress_continue(&mut out, &[0x61; 30], 0, 30, true).is_ok());
    assert_eq!(
        out,
        [0x28, 0xB5, 0x2F, 0xFD, 0x20, 0x1E, 0x45, 0x00, 0x00, 0x10, 0x61, 0x61, 0x01, 0x00, 0x0C, 0xC0, 0x02]
    );
}
