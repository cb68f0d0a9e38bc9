//! What the bytes of a frame header stand for, read and written.

use crate::decompress::ZSTD_MAGIC;
use crate::error::Error;
use crate::frame::{spec_parse, window_of_descriptor};
use crate::frame_encode::{header_fields, le_bytes};
use crate::math::{bits_at, lemma_bits_at_byte};
use vstd::arithmetic::power2::{lemma2_to64, lemma2_to64_rest, lemma_pow2_adds, lemma_pow2_strictly_increases, pow2};
use vstd::prelude::*;

verus! {

/// `v` is the number whose bytes, the lowest first, are the `n` bytes of `s`
/// at `at`.
pub open spec fn is_number_at(v: int, s: Seq<u8>, at: int, n: int) -> bool {
    &&& n == 0 ==> v == 0
    &&& n == 1 ==> v == s[at]
    &&& n == 2 ==> v == s[at] + 256 * s[at + 1]
    &&& n == 4 ==> v == s[at] + 256 * s[at + 1] + 65536 * s[at + 2] + 16777216 * s[at + 3]
    &&& n == 8 ==> v == s[at] + 256 * s[at + 1] + 65536 * s[at + 2] + 16777216 * s[at + 3]
        + 0x1_0000_0000 * (s[at + 4] + 256 * s[at + 5] + 65536 * s[at + 6] + 16777216 * s[at + 7])
}

/// A field of whole bytes is the number that they are.
pub proof fn lemma_number_at(s: Seq<u8>, at: nat, n: nat)
    requires
        n == 0 || n == 1 || n == 2 || n == 4 || n == 8,
        at + n <= s.len(),
    ensures
        is_number_at(bits_at(s, 8 * at, 8 * n) as int, s, at as int, n as int),
        n < 8 ==> bits_at(s, 8 * at, 8 * n) <= u32::MAX,
        bits_at(s, 8 * at, 8 * n) <= u64::MAX,
{
    lemma2_to64();
    reveal(bits_at);
    assert(8 * 0nat == 0);
    assert(forall|x: nat| bits_at(s, x, 0) == 0);
    if n > 0 {
        lemma_bits_at_byte(s, at, (n - 1) as nat);
    }
    if n > 1 {
        lemma_bits_at_byte(s, at + 1, (n - 2) as nat);
    }
    if n > 2 {
        lemma_bits_at_byte(s, at + 2, (n - 3) as nat);
        lemma_bits_at_byte(s, at + 3, (n - 4) as nat);
    }
    if n > 4 {
        lemma_bits_at_byte(s, at + 4, (n - 5) as nat);
        lemma_bits_at_byte(s, at + 5, (n - 6) as nat);
        lemma_bits_at_byte(s, at + 6, (n - 7) as nat);
        lemma_bits_at_byte(s, at + 7, (n - 8) as nat);
    }
}

/// A window descriptor with the exponent `e` and the mantissa `m` stands for
/// `8 + m` eighths of `2^(10 + e)` bytes.
pub proof fn law_window_descriptor(e: nat, m: nat)
    requires
        m < 8,
    ensures
        8 * window_of_descriptor(8 * e + m) == (8 + m) * pow2(10 + e),
{
    reveal(window_of_descriptor);
    lemma2_to64();
    lemma_pow2_adds(3, 7 + e);
    let p = pow2(10 + e);
    assert((8 * e + m) / 8 == e);
    assert((8 * e + m) % 8 == m);
    let q = p / 8;
    assert(p == 8 * q);
    assert(8 * (p + q * m) == (8 + m) * p) by (nonlinear_arith)
        requires
            p == 8 * q,
    ;
}

/// The descriptor says how long each field is: the window takes one byte
/// unless the content is a single segment, the dictionary ID 0, 1, 2 or 4
/// bytes, the content size 0, 2, 4 or 8 bytes (one, for a single segment,
/// instead of none). The fields follow each other in this order, the lowest
/// byte first, and a content size of two bytes counts from 256.
#[verifier::rlimit(30)]
pub proof fn law_header_fields_read(src: Seq<u8>, window_log_max: nat)
    requires
        spec_parse(src, window_log_max) is Ok,
    ensures
        ({
            let h = spec_parse(src, window_log_max)->Ok_0;
            let single = src[0] % 64 >= 32;
            let w: int = if single {
                0
            } else {
                1
            };
            let i: int = match src[0] % 4 {
                0 => 0,
                1 => 1,
                2 => 2,
                _ => 4,
            };
            let c: int = match src[0] / 64 {
                0 => 1 - w,
                1 => 2,
                2 => 4,
                _ => 8,
            };
            &&& h.header_len == 1 + w + i + c
            &&& h.header_len <= src.len()
            &&& h.has_checksum == (src[0] % 8 >= 4)
            &&& is_number_at(h.dict_id as int, src, 1 + w, i)
            &&& h.content_size is None <==> c == 0
            &&& c > 0 ==> is_number_at(
                h.content_size->0 - if c == 2 {
                    256int
                } else {
                    0
                },
                src,
                1 + w + i,
                c,
            )
            &&& single ==> h.window_size == h.content_size->0
            &&& !single ==> 8 * h.window_size == (8 + src[1] % 8) * pow2((10 + src[1] / 8) as nat)
        }),
{
    reveal(spec_parse);
    lemma2_to64();
    let d = src[0] as int;
    let single = (d / 32) % 2 == 1;
    let wpos: nat = if single {
        1
    } else {
        2
    };
    let i = crate::frame::dict_id_len(d % 4);
    let c = crate::frame::fcs_len(single, d / 64);
    lemma_number_at(src, wpos, i);
    lemma_number_at(src, wpos + i, c);
    if !single {
        let e = src[1] as nat / 8;
        law_window_descriptor(e, (src[1] % 8) as nat);
        assert(8 * e + (src[1] % 8) as nat == src[1] as nat);
        if e < 21 {
            lemma_pow2_strictly_increases(10 + e, 31);
        }
        let p = pow2(10 + e);
        assert((8 + src[1] % 8) * p <= 15 * 0x8000_0000) by (nonlinear_arith)
            requires
                p <= 0x8000_0000,
                0 <= src[1] % 8 <= 7,
        ;
    }
}

/// A header is accepted if and only if its fields are all there, its reserved
/// bit is clear, and the window that it asks for is within the ceiling; which
/// of these fails, in that order of the bytes, says how it is refused.
#[verifier::rlimit(30)]
pub proof fn law_headers_accepted(src: Seq<u8>, window_log_max: nat)
    ensures
        ({
            let ceiling: nat = if window_log_max > 31 {
                31
            } else {
                window_log_max
            };
            let r = spec_parse(src, window_log_max);
            let w: int = if src[0] % 64 >= 32 {
                0
            } else {
                1
            };
            let i: int = match src[0] % 4 {
                0 => 0,
                1 => 1,
                2 => 2,
                _ => 4,
            };
            let c: int = match src[0] / 64 {
                0 => 1 - w,
                1 => 2,
                2 => 4,
                _ => 8,
            };
            &&& src.len() == 0 ==> r == Err::<crate::frame::FrameHeader, Error>(Error::SrcSizeWrong)
            &&& src.len() > 0 && src[0] % 16 >= 8 ==> r == Err::<crate::frame::FrameHeader, Error>(
                Error::FrameHeaderInvalid("reserved descriptor bit set"),
            )
            &&& src.len() > 0 && src[0] % 16 < 8 ==> {
                let late = w == 1 && src.len() > 1 && 10 + src[1] / 8 > ceiling;
                &&& late ==> r == Err::<crate::frame::FrameHeader, Error>(Error::WindowTooLarge)
                &&& !late && src.len() < 1 + w + i + c ==> r == Err::<
                    crate::frame::FrameHeader,
                    Error,
                >(Error::SrcSizeWrong)
                &&& !late && src.len() >= 1 + w + i + c && w == 1 ==> r is Ok
                &&& w == 0 && src.len() >= 1 + i + c ==> {
                    &&& r is Ok || r == Err::<crate::frame::FrameHeader, Error>(
                        Error::WindowTooLarge,
                    )
                    &&& forall|v: int| #[trigger]
                        is_number_at(v, src, 1 + i, c) ==> (r is Ok <==> v + if c == 2 {
                            256int
                        } else {
                            0
                        } <= pow2(ceiling))
                }
            }
        }),
{
    reveal(spec_parse);
    lemma2_to64();
    if src.len() > 0 {
        let d = src[0] as int;
        let i = crate::frame::dict_id_len(d % 4);
        let c = crate::frame::fcs_len(true, d / 64);
        if (d / 32) % 2 == 1 && src.len() >= 1 + i + c {
            lemma_number_at(src, 1, i);
            lemma_number_at(src, 1 + i, c);
        }
    }
}

/// The bytes that a number is written in, the lowest first.
proof fn lemma_bytes_written(v: nat, n: nat)
    requires
        n == 0 || n == 1 && v < 256 || n == 2 && v < 65536 || n == 4 && v < 0x1_0000_0000 || n == 8 && v
            < 0x1_0000_0000_0000_0000,
    ensures
        le_bytes(v, n).len() == n,
        n > 0 ==> is_number_at(v as int, le_bytes(v, n), 0, n as int),
{
    reveal_with_fuel(le_bytes, 9);
}

/// A number within a longer byte string.
proof fn lemma_number_within(v: int, a: Seq<u8>, b: Seq<u8>, c: Seq<u8>)
    requires
        is_number_at(v, b, 0, b.len() as int),
    ensures
        is_number_at(v, a + b + c, a.len() as int, b.len() as int),
{
}

/// A header that is written: the descriptor's flags, one byte for the window
/// log unless the content is known to fit the window, a dictionary ID in no
/// bytes if it is zero, in one below 256, in two below 65536, else in four, and
/// a known content size in one byte below 256, in two (counted from 256) below
/// 65792, in four below 2^32 - 1, else in eight.
#[verifier::spinoff_prover]
#[verifier::rlimit(60)]
pub proof fn law_header_fields_written(window_log: u32, pledged: Option<u64>, checksum: bool, dict_id: u32)
    requires
        10 <= window_log <= 31,
    ensures
        ({
            let h = header_fields(window_log, pledged, checksum, dict_id);
            let known = pledged is Some;
            let size = pledged->0;
            let w: int = if known && size <= pow2(window_log as nat) {
                0
            } else {
                1
            };
            let i: int = if dict_id == 0 {
                0
            } else if dict_id <= 0xFF {
                1
            } else if dict_id <= 0xFFFF {
                2
            } else {
                4
            };
            let c: int = if !known {
                0
            } else if size <= 0xFF {
                1
            } else if size <= 0x100FF {
                2
            } else if size < 0xFFFF_FFFF {
                4
            } else {
                8
            };
            &&& h.len() == 1 + w + i + c
            &&& h[0] % 4 == i - i / 4
            &&& h[0] % 8 >= 4 <==> checksum
            &&& h[0] % 32 < 8
            &&& h[0] % 64 >= 32 <==> w == 0
            &&& h[0] / 64 == if c <= 1 {
                0int
            } else if c == 2 {
                1
            } else if c == 4 {
                2
            } else {
                3
            }
            &&& w == 1 ==> h[1] == 8 * (window_log - 10)
            &&& is_number_at(dict_id as int, h, 1 + w, i)
            &&& c > 0 ==> is_number_at(
                size - if c == 2 {
                    256int
                } else {
                    0
                },
                h,
                1 + w + i,
                c,
            )
        }),
{
    lemma2_to64();
    lemma2_to64_rest();
    if window_log > 10 {
        lemma_pow2_strictly_increases(10, window_log as nat);
    }
    let h = header_fields(window_log, pledged, checksum, dict_id);
    let single = crate::frame_encode::is_single_segment(window_log, pledged);
    let code = crate::frame_encode::fcs_code(pledged);
    let did = crate::frame_encode::did_code(dict_id);
    let w = if single {
        Seq::<u8>::empty()
    } else {
        seq![(8 * (window_log - 10)) as u8]
    };
    let n: nat = match pledged {
        Some(x) => x as nat,
        None => 0,
    };
    let m: nat = if code == 1 {
        (n - 256) as nat
    } else {
        n
    };
    let d = 64 * code + 32 * crate::frame_encode::bool_num(single) + 4 * crate::frame_encode::bool_num(
        checksum,
    ) + did;
    let i = crate::frame::dict_id_len(did as int);
    let c = crate::frame::fcs_len(single, code as int);
    let idb = le_bytes(dict_id as nat, i);
    let fb = le_bytes(m, c);
    lemma_bytes_written(dict_id as nat, i);
    lemma_bytes_written(m, c);
    let head = seq![d as u8] + w;
    assert(h == head + idb + fb);
    assert(h[0] == d as u8);
    lemma_number_within(dict_id as int, head, idb, fb);
    assert(head + idb + fb =~= (head + idb) + fb + Seq::<u8>::empty());
    if c > 0 {
        lemma_number_within(m as int, head + idb, fb, Seq::<u8>::empty());
    }
}

/// A frame starts with the bytes 28 B5 2F FD.
pub proof fn law_magic_number()
    ensures
        le_bytes(ZSTD_MAGIC as nat, 4) == seq![0x28u8, 0xB5u8, 0x2Fu8, 0xFDu8],
{
    reveal_with_fuel(le_bytes, 5);
    assert(le_bytes(ZSTD_MAGIC as nat, 4) =~= seq![0x28u8, 0xB5u8, 0x2Fu8, 0xFDu8]);
}

} // verus!
