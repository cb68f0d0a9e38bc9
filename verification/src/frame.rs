//! Frame header parsing.

use crate::error::Error;
use crate::math::{bits_at, lemma_bits_at_bound, lemma_bits_at_sub, load8, low_bits, pow2_u64};
use vstd::arithmetic::power2::{lemma2_to64, lemma_pow2_strictly_increases, pow2};
use vstd::prelude::*;

verus! {

/// The largest window log the format permits, and the ceiling that the decode
/// options start from. Asking for a larger one has no effect.
pub const WINDOW_LOG_MAX: u32 = 31;

/// A parsed frame header.
pub struct FrameHeader {
    /// Declared decompressed size of the frame, when present.
    pub content_size: Option<u64>,
    /// Window size; equal to the content size for single-segment frames.
    pub window_size: u64,
    /// Dictionary ID, 0 when absent.
    pub dict_id: u32,
    pub has_checksum: bool,
    /// Header length in bytes, not counting the 4-byte magic.
    pub header_len: usize,
}

/// Bytes of the dictionary-ID field for a descriptor's two-bit flag.
pub open spec fn dict_id_len(flag: int) -> nat {
    if flag == 0 {
        0
    } else if flag == 1 {
        1
    } else if flag == 2 {
        2
    } else {
        4
    }
}

/// Bytes of the content-size field for a descriptor's two-bit flag.
pub open spec fn fcs_len(single_segment: bool, flag: int) -> nat {
    if flag == 0 {
        if single_segment {
            1
        } else {
            0
        }
    } else if flag == 1 {
        2
    } else if flag == 2 {
        4
    } else {
        8
    }
}

/// The window size that a window-descriptor byte stands for.
#[verifier::opaque]
pub open spec fn window_of_descriptor(wd: nat) -> nat {
    pow2(10 + wd / 8) + pow2(10 + wd / 8) / 8 * (wd % 8)
}

/// What the bytes after a frame's magic number say, where window logs up to
/// `window_log_max` (and never above [`WINDOW_LOG_MAX`]) are accepted.
#[verifier::opaque]
pub open spec fn spec_parse(src: Seq<u8>, window_log_max: nat) -> Result<FrameHeader, Error> {
    let max_log: nat = if window_log_max < 31 {
        window_log_max
    } else {
        31
    };
    if src.len() == 0 {
        Err(Error::SrcSizeWrong)
    } else {
        let d = src[0] as int;
        let single = (d / 32) % 2 == 1;
        let wpos: nat = if single {
            1
        } else {
            2
        };
        let dpos: nat = wpos + dict_id_len(d % 4);
        let fcs = fcs_len(single, d / 64);
        let end: nat = dpos + fcs;
        if (d / 8) % 2 == 1 {
            Err(Error::FrameHeaderInvalid("reserved descriptor bit set"))
        } else if !single && src.len() < 2 {
            Err(Error::SrcSizeWrong)
        } else if !single && 10 + src[1] as nat / 8 > max_log {
            Err(Error::WindowTooLarge)
        } else if src.len() < end {
            Err(Error::SrcSizeWrong)
        } else {
            let raw = bits_at(src, 8 * dpos, 8 * fcs);
            let content = if fcs == 2 {
                raw + 256
            } else {
                raw
            };
            let window = if single {
                content
            } else {
                window_of_descriptor(src[1] as nat)
            };
            if single && content > pow2(max_log) {
                Err(Error::WindowTooLarge)
            } else {
                Ok(
                    FrameHeader {
                        content_size: if fcs == 0 {
                            None
                        } else {
                            Some(content as u64)
                        },
                        window_size: window as u64,
                        dict_id: bits_at(src, 8 * wpos, 8 * dict_id_len(d % 4)) as u32,
                        has_checksum: (d / 4) % 2 == 1,
                        header_len: end as usize,
                    },
                )
            }
        }
    }
}

/// Parses a frame header. `src` starts immediately after the magic number.
#[verifier::rlimit(30)]
pub fn parse(src: &[u8], window_log_max: u32) -> (r: Result<FrameHeader, Error>)
    ensures
        r == spec_parse(src@, window_log_max as nat),
{
    proof {
        reveal(spec_parse);
    }
    let max_log: u32 = if window_log_max < WINDOW_LOG_MAX {
        window_log_max
    } else {
        WINDOW_LOG_MAX
    };
    if src.len() == 0 {
        return Err(Error::SrcSizeWrong);
    }
    let descriptor: u8 = src[0];
    let dict_id_flag: u8 = descriptor % 4;
    let has_checksum: bool = (descriptor / 4) % 2 == 1;
    if (descriptor / 8) % 2 == 1 {
        return Err(Error::FrameHeaderInvalid("reserved descriptor bit set"));
    }
    let single_segment: bool = (descriptor / 32) % 2 == 1;
    let fcs_flag: u8 = descriptor / 64;
    let mut pos: usize = 1;

    let mut window_size: u64 = 0;
    if !single_segment {
        if src.len() < 2 {
            return Err(Error::SrcSizeWrong);
        }
        let wd: u32 = src[1] as u32;
        pos = 2;
        let exponent: u32 = wd / 8;
        let mantissa: u64 = (wd % 8) as u64;
        if 10 + exponent > max_log {
            return Err(Error::WindowTooLarge);
        }
        let base: u64 = pow2_u64(10 + exponent);
        proof {
            lemma2_to64();
            if 10 + exponent < 31 {
                lemma_pow2_strictly_increases((10 + exponent) as nat, 31);
            }
            assert(base / 8 * mantissa <= base * 7) by (nonlinear_arith)
                requires
                    mantissa <= 7,
                    base >= 0,
            ;
        }
        window_size = base + base / 8 * mantissa;
        proof {
            reveal(window_of_descriptor);
            assert(window_size == window_of_descriptor(src[1] as nat));
        }
    }
    let id_len: usize = if dict_id_flag == 0 {
        0
    } else if dict_id_flag == 1 {
        1
    } else if dict_id_flag == 2 {
        2
    } else {
        4
    };
    let dict_id: u32 = match read_le(src, pos, id_len) {
        Ok(v) => {
            proof {
                lemma2_to64();
                lemma_bits_at_bound(src@, 8 * pos as nat, 8 * id_len as nat);
                if id_len < 4 {
                    lemma_pow2_strictly_increases(8 * id_len as nat, 32);
                }
            }
            v as u32
        },
        Err(e) => {
            return Err(e);
        },
    };
    pos = pos + id_len;

    let fcs: usize = if fcs_flag == 0 {
        if single_segment {
            1
        } else {
            0
        }
    } else if fcs_flag == 1 {
        2
    } else if fcs_flag == 2 {
        4
    } else {
        8
    };
    let raw: u64 = match read_le(src, pos, fcs) {
        Ok(v) => v,
        Err(e) => {
            return Err(e);
        },
    };
    proof {
        lemma2_to64();
        lemma_bits_at_bound(src@, 8 * pos as nat, 8 * fcs as nat);
    }
    let content: u64 = if fcs == 2 {
        raw + 256
    } else {
        raw
    };
    pos = pos + fcs;
    if single_segment {
        window_size = content;
        if window_size > pow2_u64(max_log) {
            return Err(Error::WindowTooLarge);
        }
    }
    Ok(
        FrameHeader {
            content_size: if fcs == 0 {
                None
            } else {
                Some(content)
            },
            window_size,
            dict_id,
            has_checksum,
            header_len: pos,
        },
    )
}

/// The `n`-byte little-endian number at `pos`.
fn read_le(src: &[u8], pos: usize, n: usize) -> (r: Result<u64, Error>)
    requires
        n <= 8,
        pos <= 14,
    ensures
        r == if pos + n <= src@.len() {
            Ok::<u64, Error>(bits_at(src@, 8 * pos as nat, 8 * n as nat) as u64)
        } else {
            Err(Error::SrcSizeWrong)
        },
{
    if pos + n > src.len() {
        return Err(Error::SrcSizeWrong);
    }
    proof {
        lemma_bits_at_sub(src@, 8 * pos as nat, 64, 0, 8 * n as nat);
        lemma2_to64();
        assert(bits_at(src@, 8 * pos as nat, 64) / 1 == bits_at(src@, 8 * pos as nat, 64));
    }
    Ok(low_bits(load8(src, pos), 8 * n as u32))
}

/// A parsed header lies within its input.
pub proof fn lemma_header_len(src: Seq<u8>, window_log_max: nat)
    ensures
        spec_parse(src, window_log_max) matches Ok(h) ==> 2 <= h.header_len <= src.len()
            && h.header_len <= 14,
{
    reveal(spec_parse);
}

} // verus!
