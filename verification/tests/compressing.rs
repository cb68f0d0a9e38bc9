//! Parameters, refusals and shapes of frames.

use libzstd_bitexact::block::{FrameContext, BLOCK_SIZE_MAX};
use libzstd_bitexact::cparams::Strategy;
use libzstd_bitexact::frame::parse;
use libzstd_bitexact::parser::count_2segments;
use libzstd_bitexact::window::Window;
use libzstd_bitexact::{
    compress, compress_mt, compress_with_cdict, compress_with_dict, cparams_create_cdict_for_testing,
    cparams_for_testing, decompress, Error, WINDOW_LOG_MAX,
};

#[test]
fn parameters_of_some_levels() {
    assert_eq!(cparams_for_testing(3, u64::MAX, 0), [21, 16, 17, 1, 5, 0, 2]);
    assert_eq!(cparams_for_testing(0, u64::MAX, 0), cparams_for_testing(3, u64::MAX, 0));
    assert_eq!(cparams_for_testing(22, u64::MAX, 0), [27, 27, 25, 9, 3, 999, 9]);
    assert_eq!(cparams_for_testing(100, u64::MAX, 0), cparams_for_testing(22, u64::MAX, 0));
    assert_eq!(cparams_for_testing(-5, u64::MAX, 0), [19, 12, 13, 1, 6, 5, 1]);
    // A short source shrinks the window and the tables, but the window not
    // below ten bits.
    assert_eq!(cparams_for_testing(1, 100, 0)[0], 10);
    let cdict = cparams_create_cdict_for_testing(1, 3000);
    assert!(cdict[2] <= 24);
}

#[test]
fn strategies_have_numbers() {
    for n in 1..=9u32 {
        assert_eq!(Strategy::from_num(n).num(), n as i32);
    }
}

#[test]
fn frames_say_their_size() {
    for n in [0usize, 1, 255, 256, 65_791, 65_792, 600_000] {
        let src = vec![7u8; n];
        let frame = compress(&src, 1).unwrap();
        assert_eq!(frame[..4], [0x28, 0xB5, 0x2F, 0xFD]);
        let h = parse(&frame[4..], WINDOW_LOG_MAX).unwrap();
        assert_eq!(h.content_size, Some(n as u64));
        assert_eq!(h.dict_id, 0);
        assert!(!h.has_checksum);
        assert_eq!(decompress(&frame), Ok(src));
    }
}

#[test]
fn empty_input_is_one_empty_block() {
    assert_eq!(compress(&[], 3), Ok(vec![0x28, 0xB5, 0x2F, 0xFD, 0x20, 0x00, 0x01, 0x00, 0x00]));
}

#[test]
fn a_run_becomes_an_rle_block() {
    let frame = compress(&[9u8; 40_000], 3).unwrap();
    assert!(frame.len() < 32);
    assert_eq!(decompress(&frame), Ok(vec![9u8; 40_000]));
}

#[test]
fn refusals() {
    let corrupt = [0x37, 0xA4, 0x30, 0xEC, 1, 0, 0, 0, 0, 0, 0, 0];
    assert_eq!(compress_with_dict(b"x", &corrupt, 3), Err(Error::DictionaryCorrupted));
    assert_eq!(compress_with_cdict(b"x", &corrupt, 3), Err(Error::DictionaryCorrupted));
    assert_eq!(
        compress_with_cdict(b"x", b"12345678", 3),
        Err(Error::Encode("CDict (Path B): dictionaries with <= 8 bytes of content are not supported yet"))
    );
    // An overlap of the whole window is more than the tables of a fast level
    // can index.
    let src = vec![1u8; 3_000_000];
    assert_eq!(
        compress_mt(&src, -1, 1, 0, 9),
        Err(Error::Encode(
            "multithreaded overlap larger than the indexable dictionary size is not supported yet"
        ))
    );
    assert_eq!(
        compress_mt(&src, -1, 1, 0, i32::MAX),
        Err(Error::Encode(
            "multithreaded overlap larger than the indexable dictionary size is not supported yet"
        ))
    );
}

#[test]
fn no_workers_means_one_piece() {
    let src: Vec<u8> = (0..700_000u32).map(|i| (i / 7 * 13) as u8).collect();
    let whole = compress(&src, 2).unwrap();
    assert_eq!(compress_mt(&src, 2, 0, 0, 0).unwrap(), whole);
    assert_eq!(compress_mt(&src[..500_000], 2, 4, 0, 0), compress(&src[..500_000], 2));
    let split = compress_mt(&src, 2, 3, 1, 1).unwrap();
    assert_ne!(split, whole);
    assert_eq!(decompress(&split), Ok(src));
}

#[test]
fn sections_of_runs_decode() {
    // Runs make every section start with a match.
    let src = vec![5u8; 2_000_000];
    for level in [1, 3, 5, 9, 16] {
        let frame = compress_mt(&src, level, 1, 524_288, 6).unwrap();
        assert_eq!(decompress(&frame).as_ref(), Ok(&src));
    }
}

#[test]
fn indices_are_recycled() {
    let mut w = Window::new();
    assert!(w.update(0, 1000));
    assert!(!w.has_ext_dict());
    assert!(!w.update(5000, 6000));
    assert!(w.has_ext_dict());
    let before = w.next_src_idx;
    let mut high = Window { seg_bias: 3_670_016_000, ..w };
    assert!(high.needs_overflow_correction(6000));
    let taken = high.correct_overflow(16, 1 << 19, 5000);
    assert!(taken > 3_000_000_000);
    assert!(!high.needs_overflow_correction(6000));
    assert_eq!(before, 2002);
}

#[test]
fn a_fresh_context_repeats_nothing() {
    // A section that repeats a table before there was one.
    let mut ctx = FrameContext::new();
    let section = [0x03u8, 0x00, 0x00, 0x00];
    assert!(libzstd_bitexact::block::decode_literals(&mut ctx, &section, BLOCK_SIZE_MAX).is_err());
}

#[test]
fn workers_make_no_difference() {
    let data: Vec<u8> = (0..1_400_000u32).map(|i| ((i / 7) ^ (i >> 11)) as u8).collect();
    let one = compress_mt(&data, 1, 1, 600_000, 0).unwrap();
    assert_eq!(compress_mt(&data, 1, 2, 600_000, 0).unwrap(), one);
    assert_eq!(compress_mt(&data, 1, 200, 600_000, 0).unwrap(), one);
    assert_ne!(compress_mt(&data, 1, 2, 700_000, 0).unwrap(), one);
}

#[test]
fn parameters_of_sizes_that_wrap_around() {
    assert_eq!(cparams_for_testing(3, 1 << 40, u64::MAX - (1 << 21) + 1), [21, 16, 17, 1, 5, 0, 2]);
    assert_eq!(cparams_for_testing(3, 1 << 40, u64::MAX), [21, 16, 17, 1, 5, 0, 2]);
}

#[test]
fn a_run_is_counted_over_two_parts() {
    // The source "abcd" at 8 goes on with what starts at 0.
    let data = b"efgh----abcdabcdefgX";
    assert_eq!(count_2segments(data, 12, 8, 20, 12, 0), 7);
    assert_eq!(count_2segments(data, 12, 8, 14, 12, 0), 2);
    assert_eq!(count_2segments(b"xbcdab", 4, 0, 6, 2, 2), 0);
}

#[test]
fn a_window_in_two_parts_is_joined() {
    // Indices 10 to 13 are at 8, those from 14 on at 0.
    let w = Window { seg_bias: 14, dict_bias: 2, low_limit: 10, dict_limit: 14, next_src_pos: 4, next_src_idx: 18 };
    let data = b"efghijk-abcd";
    assert!(!w.is_one_run());
    assert!(w.can_hold(12, 4, 7));
    assert!(!w.can_hold(11, 4, 7));
    assert_eq!(w.join(data, 4, 7), b"abcdefghijk");
}

#[test]
fn levels_outside_the_table_are_those_at_its_ends() {
    let data: Vec<u8> = (0..3000u32).map(|i| (i * i / 7) as u8 % 40).collect();
    assert_eq!(compress(&data, 0), compress(&data, 3));
    assert_eq!(compress(&data, 23), compress(&data, 22));
    assert_eq!(compress(&data, i32::MAX), compress(&data, 22));
}

#[test]
fn an_empty_dictionary_changes_nothing() {
    let data: Vec<u8> = (0..3000u32).map(|i| (i * i / 7) as u8 % 40).collect();
    for level in [-5, 1, 3, 7, 19] {
        assert_eq!(compress_with_dict(&data, &[], level), compress(&data, level));
    }
}
