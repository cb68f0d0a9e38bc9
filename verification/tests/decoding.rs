//! Decoding, at once and in pieces.

use libzstd_bitexact::stream::Progress;
use libzstd_bitexact::{
    compress, compress_with_dict, decompress, decompress_with_limit, DecodeOptions, Dictionary, Error, StreamDecoder,
};

/// A single-segment frame of five bytes in one RLE block.
const RLE_FRAME: [u8; 10] = [0x28, 0xB5, 0x2F, 0xFD, 0x20, 0x05, 0x2B, 0x00, 0x00, b'a'];

fn words(len: usize) -> Vec<u8> {
    let mut out = Vec::new();
    let mut i = 0u32;
    while out.len() < len {
        i = i.wrapping_mul(1664525).wrapping_add(1013904223);
        let w: [&[u8]; 6] = [b"alpha ", b"beta ", b"gamma ", b"delta ", b"epsilon ", b"zeta\n"];
        out.extend_from_slice(w[(i >> 24) as usize % 6]);
    }
    out.truncate(len);
    out
}

/// Decodes `input` in pieces of `step` bytes.
fn in_pieces(input: &[u8], step: usize, options: DecodeOptions) -> Result<Vec<u8>, Error> {
    let mut decoder = StreamDecoder::with_options(options);
    let mut out = Vec::new();
    let mut at = 0;
    loop {
        match decoder.decode_more()? {
            Progress::Output => loop {
                let piece = decoder.take_ready(777);
                if piece.is_empty() {
                    break;
                }
                out.extend_from_slice(&piece);
            },
            Progress::NeedInput => {
                if at == input.len() {
                    decoder.finish_input();
                } else {
                    let next = (at + step).min(input.len());
                    decoder.feed(&input[at..next]);
                    at = next;
                }
            }
            Progress::Finished => return Ok(out),
        }
    }
}

/// A frame with a checksum and no content size, as a streaming encoder makes
/// it.
fn streamed(data: &[u8], level: i32) -> Vec<u8> {
    let mut out = vec![0u8; zstd_safe::compress_bound(data.len()) + 1000];
    let mut cctx = zstd_safe::CCtx::create();
    cctx.set_parameter(zstd_safe::CParameter::CompressionLevel(level)).unwrap();
    cctx.set_parameter(zstd_safe::CParameter::ChecksumFlag(true)).unwrap();
    let mut total = 0;
    let mut at = 0;
    {
        let mut o = zstd_safe::OutBuffer::around(&mut out[..]);
        while at < data.len() {
            let next = (at + 100_000).min(data.len());
            let mut i = zstd_safe::InBuffer::around(&data[at..next]);
            while i.pos() < next - at {
                cctx.compress_stream(&mut o, &mut i).unwrap();
            }
            at = next;
        }
        while cctx.end_stream(&mut o).unwrap() != 0 {}
        total += o.pos();
    }
    out.truncate(total);
    out
}

#[test]
fn rle_frame_decodes() {
    assert_eq!(decompress(&RLE_FRAME), Ok(b"aaaaa".to_vec()));
    assert_eq!(decompress(&[]), Ok(Vec::new()));
}

#[test]
fn frames_and_skippable_frames_follow_each_other() {
    let mut input = RLE_FRAME.to_vec();
    input.extend_from_slice(&[0x53, 0x2A, 0x4D, 0x18, 3, 0, 0, 0, 9, 9, 9]);
    input.extend_from_slice(&RLE_FRAME);
    assert_eq!(decompress(&input), Ok(b"aaaaaaaaaa".to_vec()));
    for step in [1, 2, 7, 100] {
        assert_eq!(in_pieces(&input, step, DecodeOptions::new()), Ok(b"aaaaaaaaaa".to_vec()));
    }
}

#[test]
fn every_error_has_an_input() {
    let with = |i: usize, b: u8| {
        let mut f = RLE_FRAME.to_vec();
        f[i] = b;
        f
    };
    assert_eq!(decompress(&RLE_FRAME[..9]), Err(Error::SrcSizeWrong));
    assert_eq!(decompress(&RLE_FRAME[..3]), Err(Error::SrcSizeWrong));
    assert_eq!(decompress(&with(0, 0)), Err(Error::UnknownMagic(0xFD2F_B500)));
    assert_eq!(decompress(&with(4, 0x28)), Err(Error::FrameHeaderInvalid("reserved descriptor bit set")));
    assert_eq!(decompress(&with(6, 0x2F)), Err(Error::BlockTypeInvalid));
    assert_eq!(decompress(&with(6, 0x33)), Err(Error::Corrupted("block size exceeds block size limit")));
    assert_eq!(decompress(&with(5, 6)), Err(Error::FrameContentSizeMismatch));
    assert_eq!(decompress_with_limit(&RLE_FRAME, 4), Err(Error::OutputTooLarge));
    assert_eq!(decompress_with_limit(&RLE_FRAME, 5), Ok(b"aaaaa".to_vec()));
    // A window of 2^20 bytes where 2^19 are accepted.
    let windowed = [0x28, 0xB5, 0x2F, 0xFD, 0x00, 0x50, 0x01, 0x00, 0x00];
    assert_eq!(DecodeOptions::new().window_log_max(19).decompress(&windowed), Err(Error::WindowTooLarge));
    assert_eq!(DecodeOptions::new().window_log_max(20).decompress(&windowed), Ok(Vec::new()));
    // A checksum of the empty content that is off by one.
    let mut summed = vec![0x28, 0xB5, 0x2F, 0xFD, 0x24, 0x00, 0x01, 0x00, 0x00, 0x99, 0xE9, 0xD8, 0x51];
    assert_eq!(decompress(&summed), Ok(Vec::new()));
    summed[9] = 0x98;
    assert_eq!(
        decompress(&summed),
        Err(Error::ChecksumMismatch { expected: 0x51D8_E998, actual: 0x51D8_E999 })
    );
    // A frame that asks for dictionary 7.
    let asks = [0x28, 0xB5, 0x2F, 0xFD, 0x21, 0x07, 0x00, 0x01, 0x00, 0x00];
    assert_eq!(decompress(&asks), Err(Error::DictionaryRequired(7)));
    let raw = Dictionary::raw_content(b"some content");
    assert_eq!(
        DecodeOptions::new().dictionary(&raw).decompress(&asks),
        Err(Error::DictionaryWrong { expected: 7, actual: 0 })
    );
    assert!(matches!(
        Dictionary::new(&[0x37, 0xA4, 0x30, 0xEC, 1, 0, 0, 0]),
        Err(Error::DictionaryCorrupted)
    ));
}

#[test]
fn messages_say_what_is_wrong() {
    assert_eq!(Error::UnknownMagic(0xFD2F_B500).message(), "unknown frame magic number 0xfd2fb500");
    assert_eq!(Error::UnknownMagic(0x1F).message(), "unknown frame magic number 0x0000001f");
    assert_eq!(Error::SrcSizeWrong.message(), "input is truncated or has trailing garbage");
    assert_eq!(Error::Corrupted("bad offset").message(), "corrupted compressed data: bad offset");
    assert_eq!(
        Error::ChecksumMismatch { expected: 1, actual: 0xABCD_EF01 }.message(),
        "content checksum mismatch: stored 0x00000001, computed 0xabcdef01"
    );
    assert_eq!(
        Error::DictionaryRequired(4_000_000_000).message(),
        "frame requires dictionary 4000000000, but none was supplied"
    );
    assert_eq!(
        Error::DictionaryWrong { expected: 10, actual: 0 }.message(),
        "wrong dictionary: frame requires ID 10, supplied dictionary has ID 0"
    );
}

#[test]
fn streamed_frames_decode() {
    for (n, level) in [(0, 1), (10, 3), (5000, 3), (300_000, 1), (700_000, 5), (200_000, 19)] {
        let data = words(n);
        let frame = streamed(&data, level);
        assert_eq!(decompress(&frame).as_ref(), Ok(&data));
        for step in [1usize, 1000, 65_536] {
            if step > 1 || n < 10_000 {
                assert_eq!(in_pieces(&frame, step, DecodeOptions::new()).as_ref(), Ok(&data));
            }
        }
    }
}

#[test]
fn own_frames_decode_in_pieces() {
    for level in [-5, 1, 3, 6, 13, 17] {
        let data = words(1_200_000);
        let frame = compress(&data, level).unwrap();
        assert_eq!(decompress(&frame).as_ref(), Ok(&data));
        assert_eq!(in_pieces(&frame, 5000, DecodeOptions::new()).as_ref(), Ok(&data));
    }
}

#[test]
fn a_stream_is_refused_as_the_whole_is() {
    let mut damaged = streamed(&words(20_000), 3);
    let n = damaged.len();
    damaged[n - 1] ^= 1;
    let whole = decompress(&damaged);
    assert!(matches!(whole, Err(Error::ChecksumMismatch { .. })));
    assert_eq!(in_pieces(&damaged, 300, DecodeOptions::new()), whole);
    assert_eq!(in_pieces(&damaged[..n - 2], 300, DecodeOptions::new()), Err(Error::SrcSizeWrong));
}

#[test]
fn dictionaries_are_used_and_told_apart() {
    let content = words(4000);
    let dict = Dictionary::new(&content).unwrap();
    assert_eq!(dict.id(), 0);
    let src = content[1000..1500].to_vec();
    let frame = compress_with_dict(&src, &content, 3).unwrap();
    assert!(frame.len() < src.len() / 2);
    assert_eq!(DecodeOptions::new().dictionary(&dict).decompress(&frame).as_ref(), Ok(&src));
    assert_eq!(in_pieces(&frame, 9, DecodeOptions::new().dictionary(&dict)).as_ref(), Ok(&src));
    assert_ne!(decompress(&frame).ok(), Some(src));
}

#[test]
fn an_unneeded_raw_dictionary_changes_nothing() {
    let src = words(3000);
    let frame = compress(&src, 5).unwrap();
    let dict = Dictionary::raw_content(b"something else");
    assert_eq!(DecodeOptions::new().dictionary(&dict).decompress(&frame), Ok(src.clone()));
    let short = compress_with_dict(&src, b"seven..", 5).unwrap();
    assert_eq!(decompress(&short), Ok(src));
}

#[test]
fn a_limit_only_refuses() {
    let data = words(50_000);
    let frame = compress(&data, 3).unwrap();
    assert_eq!(decompress_with_limit(&frame, 50_000).unwrap(), data);
    assert_eq!(decompress_with_limit(&frame, 1_000_000).unwrap(), data);
    assert_eq!(decompress_with_limit(&frame, 49_999).unwrap_err(), Error::OutputTooLarge);
    assert_eq!(decompress_with_limit(&streamed(&data, 3), 49_999).unwrap_err(), Error::OutputTooLarge);
}

#[test]
fn frames_follow_each_other() {
    let (a, b) = (words(3000), words(70_000));
    let mut both = compress(&a, 1).unwrap();
    both.extend_from_slice(&compress(&b, 5).unwrap());
    let mut content = a.clone();
    content.extend_from_slice(&b);
    assert_eq!(decompress(&both).unwrap(), content);
    assert_eq!(in_pieces(&both, 100, DecodeOptions::new()).unwrap(), content);
}

#[test]
fn skippable_frames_are_skipped() {
    let data = words(500);
    let frame = compress(&data, 1).unwrap();
    for low in [0x50u8, 0x5F] {
        let mut with = vec![low, 0x2A, 0x4D, 0x18, 3, 0, 0, 0, 9, 9, 9];
        with.extend_from_slice(&frame);
        assert_eq!(decompress(&with).unwrap(), data);
    }
}

#[test]
fn a_window_ceiling_only_refuses() {
    let data = words(3_000_000);
    let frame = compress(&data, 1).unwrap();
    for log in [19, 20, 31] {
        assert_eq!(DecodeOptions::new().window_log_max(log).decompress(&frame).unwrap(), data);
    }
    assert_eq!(
        DecodeOptions::new().window_log_max(18).decompress(&frame).unwrap_err(),
        Error::WindowTooLarge
    );
}

#[test]
fn own_windowed_frames_decode_as_streams() {
    let data = words(2_600_000);
    for level in [-3, 1, 3, 5] {
        let frame = compress(&data, level).unwrap();
        assert!(frame.len() < data.len() / 2);
        assert_eq!(in_pieces(&frame, 10_000, DecodeOptions::new()).unwrap(), data, "level {level}");
    }
}

#[test]
fn a_window_that_holds_all_loses_nothing() {
    let dict = words(6000);
    let d = Dictionary::new(&dict).unwrap();
    let mut data = dict[1000..5000].to_vec();
    data.extend_from_slice(b"and a new end");
    let frame = compress_with_dict(&data, &dict, 3).unwrap();
    assert!(frame.len() < compress(&data, 3).unwrap().len());
    let options = DecodeOptions::new().dictionary(&d);
    assert_eq!(options.decompress(&frame).unwrap(), data);
    for step in [1, 7, 1000] {
        assert_eq!(in_pieces(&frame, step, DecodeOptions::new().dictionary(&d)).unwrap(), data);
    }
    let mut twice = frame.clone();
    twice.extend_from_slice(&[0x50, 0x2A, 0x4D, 0x18, 2, 0, 0, 0, 1, 1]);
    twice.extend_from_slice(&frame);
    let mut both = data.clone();
    both.extend_from_slice(&data);
    assert_eq!(in_pieces(&twice, 5, DecodeOptions::new().dictionary(&d)).unwrap(), both);
}

/// What is handed out, and how it ends, when the input comes in pieces.
fn session(input: &[u8], step: usize, take: usize) -> (Vec<u8>, Option<Error>) {
    let mut decoder = StreamDecoder::new();
    let mut out = Vec::new();
    let mut at = 0;
    loop {
        match decoder.decode_more() {
            Err(e) => return (out, Some(e)),
            Ok(Progress::Finished) => return (out, None),
            Ok(Progress::Output) => loop {
                let piece = decoder.take_ready(take);
                if piece.is_empty() {
                    break;
                }
                out.extend_from_slice(&piece);
            },
            Ok(Progress::NeedInput) => {
                if at == input.len() {
                    decoder.finish_input();
                } else {
                    let next = (at + step).min(input.len());
                    decoder.feed(&input[at..next]);
                    at = next;
                }
            }
        }
    }
}

#[test]
fn cutting_up_makes_no_difference() {
    let mut data = words(300_000);
    for i in 0..data.len() {
        data[i] ^= (i / 50_000) as u8;
    }
    let good = streamed(&data, 3);
    assert_eq!(session(&good, 1000, 999), (data.clone(), None));
    let mut bad = good.clone();
    let last = bad.len() - 1;
    bad[last] ^= 1;
    let mut torn = good.clone();
    torn.truncate(good.len() - 10);
    let mut more = good.clone();
    more.extend_from_slice(&[1, 2]);
    for input in [good, bad, torn, more] {
        let whole = session(&input, input.len(), 1 << 20);
        assert!(whole.0.len() > 100_000);
        for (step, take) in [(1, 5000), (7, 100_000), (5000, 77)] {
            assert_eq!(session(&input, step, take), whole);
        }
        match whole.1 {
            None => assert_eq!(decompress(&input).unwrap(), whole.0),
            Some(e) => assert_eq!(decompress(&input).unwrap_err(), e),
        }
    }
}

#[test]
fn what_follows_a_frame_must_decode() {
    for tail in [&[1u8][..], &[0x28, 0xB5], &[0x28, 0xB5, 0x2F]] {
        let mut input = RLE_FRAME.to_vec();
        input.extend_from_slice(tail);
        assert_eq!(decompress(&input), Err(Error::SrcSizeWrong));
    }
    let mut input = RLE_FRAME.to_vec();
    input.extend_from_slice(&RLE_FRAME[..9]);
    assert!(decompress(&input).is_err());
    let mut twice = RLE_FRAME.to_vec();
    twice.extend_from_slice(&RLE_FRAME);
    assert_eq!(decompress_with_limit(&twice, 9), Err(Error::OutputTooLarge));
    assert_eq!(decompress_with_limit(&twice, 10), Ok(b"aaaaaaaaaa".to_vec()));
    assert_eq!(decompress(&[]), Ok(Vec::new()));
}

#[test]
fn an_error_stays() {
    // The block has the reserved type.
    let refused = [0x28, 0xB5, 0x2F, 0xFD, 0x20, 0x05, 0x2F, 0x00, 0x00, b'a'];
    let mut decoder = StreamDecoder::new();
    decoder.feed(&refused);
    decoder.finish_input();
    let first = loop {
        match decoder.decode_more() {
            Ok(_) => {
                decoder.take_ready(100);
            }
            Err(e) => break e,
        }
    };
    assert_eq!(first, decompress(&refused).unwrap_err());
    for _ in 0..3 {
        assert_eq!(decoder.decode_more().err(), Some(first.clone()));
    }
    decoder.feed(&RLE_FRAME);
    assert_eq!(decoder.decode_more().err(), Some(first));
}

#[test]
fn a_window_ceiling_above_the_highest_is_the_highest() {
    // A window descriptor of 2^32 bytes and one of 2^31.
    let too_large = [0x28, 0xB5, 0x2F, 0xFD, 0x00, 0xB0, 0x01, 0x00, 0x00];
    let largest = [0x28, 0xB5, 0x2F, 0xFD, 0x00, 0xA8, 0x01, 0x00, 0x00];
    for input in [&too_large[..], &largest[..], &RLE_FRAME[..]] {
        let capped = DecodeOptions::new().window_log_max(31).decompress(input);
        for ceiling in [32, 40, u32::MAX] {
            assert_eq!(DecodeOptions::new().window_log_max(ceiling).decompress(input), capped);
        }
    }
    assert!(DecodeOptions::new().window_log_max(31).decompress(&too_large).is_err());
    assert_eq!(DecodeOptions::new().window_log_max(31).decompress(&largest), Ok(Vec::new()));
}

#[test]
fn a_cut_skippable_frame_is_too_short() {
    let skippable = [0x53, 0x2A, 0x4D, 0x18, 3, 0, 0, 0, 9, 9, 9];
    assert_eq!(decompress(&skippable), Ok(Vec::new()));
    for cut in 1..skippable.len() {
        assert_eq!(decompress(&skippable[..cut]), Err(Error::SrcSizeWrong));
    }
}
