//! What the fields of a block stand for, read and written, and what sequences
//! do with them.

use crate::bits::{highest_bit, lemma_highest_bit_bound};
use crate::block::{
    fresh_ctx, lit_header, sequence_count, spec_copy, spec_resolve, CtxView, RepView, SeqKind, LL_BASE, LL_BITS,
    ML_BASE, ML_BITS,
};
use crate::block_encode_model::{basic_header_bytes, coded_header_bytes, count_bytes};
use crate::checksum_laws::four;
use crate::decompress::{resolve_dictionary, spec_block, spec_decompress, BlockStep, OptionsView};
use crate::decompress_laws::is_skippable_frame;
use crate::dictionary::{formatted_dict, spec_dictionary, DictView};
use crate::error::Error;
use crate::frame_encode::{block_header_bytes, le_bytes};
use crate::frame_laws::{is_number_at, lemma_number_at};
use crate::math::bits_at;
use crate::seq_codes::{spec_ll_code, spec_ml_code};
use vstd::arithmetic::power2::{lemma2_to64, lemma_pow2_strictly_increases, pow2};
use vstd::prelude::*;

verus! {

/// The number that the first `n` bytes of `s` are, the lowest first.
pub open spec fn first(s: Seq<u8>, n: int) -> int
    decreases n,
{
    if n <= 0 {
        0
    } else {
        s[0] + 256 * first(s.skip(1), n - 1)
    }
}

proof fn lemma_first(s: Seq<u8>)
    ensures
        first(s, 1) == s[0],
        s.len() >= 2 ==> first(s, 2) == s[0] + 256 * s[1],
        s.len() >= 3 ==> first(s, 3) == s[0] + 256 * s[1] + 65536 * s[2],
        s.len() >= 4 ==> first(s, 4) == s[0] + 256 * s[1] + 65536 * s[2] + 16777216 * s[3],
        s.len() >= 5 ==> first(s, 5) == s[0] + 256 * s[1] + 65536 * s[2] + 16777216 * s[3]
            + 0x1_0000_0000 * s[4],
{
    reveal_with_fuel(first, 6);
}

// ---------------------------------------------------------------------------
// Blocks.

/// A block starts with a number of three bytes: whether it is the last, its
/// type, and its size. A raw block is its bytes, a block of one byte repeats
/// it, and a block of a type that does not exist, or too large, is refused.
pub proof fn law_blocks_read(ctx: CtxView, input: Seq<u8>, hist: Seq<u8>, block_max: nat, room: int)
    requires
        input.len() >= 3,
    ensures
        ({
            let r = spec_block(ctx, input, hist, block_max, room);
            let v = first(input, 3);
            let size = v / 8;
            &&& v / 2 % 4 == 3 ==> r == Err::<BlockStep, Error>(Error::BlockTypeInvalid)
            &&& v / 2 % 4 < 3 && size > block_max ==> r is Err
            &&& r matches Ok(b) ==> {
                &&& b.last <==> v % 2 == 1
                &&& size <= block_max
                &&& v / 2 % 4 == 0 ==> b.used == 3 + size && b.hist == hist + input.subrange(
                    3,
                    3 + size,
                ) && b.ctx == ctx
                &&& v / 2 % 4 == 1 ==> {
                    &&& b.used == 4
                    &&& b.ctx == ctx
                    &&& b.hist.len() == hist.len() + size
                    &&& b.hist.take(hist.len() as int) == hist
                    &&& forall|i: int|
                        hist.len() <= i < b.hist.len() ==> #[trigger] b.hist[i] == input[3]
                }
                &&& v / 2 % 4 == 2 ==> b.used == 3 + size
            }
            &&& v / 2 % 4 == 0 && size <= block_max && size <= room && input.len() >= 3 + size ==> r is Ok
            &&& v / 2 % 4 == 1 && size <= block_max && size <= room && input.len() >= 4 ==> r is Ok
        }),
{
    reveal(spec_block);
    lemma_first(input);
    let r = spec_block(ctx, input, hist, block_max, room);
    if r is Ok {
        assert(r->Ok_0.hist.take(hist.len() as int) =~= hist || first(input, 3) / 2 % 4 == 2);
    }
}

/// A block header that is written is that number.
pub proof fn law_block_headers_written(last: bool, kind: nat, size: nat)
    requires
        kind <= 3,
        size < 0x20_0000,
    ensures
        ({
            let h = block_header_bytes(last, kind, size);
            let v = first(h, 3);
            &&& h.len() == 3
            &&& v % 2 == 1 <==> last
            &&& v / 2 % 4 == kind
            &&& v / 8 == size
        }),
{
    reveal_with_fuel(le_bytes, 4);
    lemma_first(block_header_bytes(last, kind, size));
}

// ---------------------------------------------------------------------------
// Literals.

/// The two sizes of a coded header, taken from its bytes.
proof fn lemma_sizes3(a: int, b: int, c: int)
    requires
        0 <= a < 256,
        0 <= b < 256,
        0 <= c < 256,
    ensures
        (a + 256 * b + 65536 * c) / 16 % 1024 == a / 16 + 16 * (b % 64),
        (a + 256 * b + 65536 * c) / 16384 == b / 64 + 4 * c,
{
    assert((a + 256 * b + 65536 * c) / 16 == a / 16 + 16 * b + 4096 * c);
    assert(a / 16 + 16 * b + 4096 * c == (a / 16 + 16 * (b % 64)) + 1024 * (b / 64 + 4 * c));
}

proof fn lemma_sizes4(a: int, b: int, c: int, d: int)
    requires
        0 <= a < 256,
        0 <= b < 256,
        0 <= c < 256,
        0 <= d < 256,
    ensures
        (a + 256 * b + 65536 * c + 16777216 * d) / 16 % 16384 == a / 16 + 16 * b + 4096 * (c % 4),
        (a + 256 * b + 65536 * c + 16777216 * d) / 262144 == c / 4 + 64 * d,
{
    let v = a + 256 * b + 65536 * c + 16777216 * d;
    assert(v / 16 == a / 16 + 16 * b + 4096 * c + 1048576 * d);
    assert(v / 16 == (a / 16 + 16 * b + 4096 * (c % 4)) + 16384 * (c / 4 + 64 * d));
}

proof fn lemma_sizes5(a: int, b: int, c: int, d: int, e: int)
    requires
        0 <= a < 256,
        0 <= b < 256,
        0 <= c < 256,
        0 <= d < 256,
        0 <= e < 256,
    ensures
        ({
            let v = a + 256 * b + 65536 * c + 16777216 * d + 0x1_0000_0000 * e;
            &&& v / 16 % 262144 == a / 16 + 16 * b + 4096 * (c % 64)
            &&& v / 4194304 == c / 64 + 4 * d + 1024 * e
        }),
{
    let v = a + 256 * b + 65536 * c + 16777216 * d + 0x1_0000_0000 * e;
    assert(v / 16 == a / 16 + 16 * b + 4096 * c + 1048576 * d + 268435456 * e);
    assert(v / 16 == (a / 16 + 16 * b + 4096 * (c % 64)) + 262144 * (c / 64 + 4 * d + 1024 * e));
}

/// A literals header is one number: two bits of type, one or two of format, and
/// the sizes above them. The literals of the first two types have a size of 5,
/// 12 or 20 bits, in 1, 2 or 3 bytes; coded ones have two sizes of 10, 14 or 18
/// bits, in 3, 4 or 5 bytes, and are in four streams but for the first format.
#[verifier::rlimit(60)]
pub proof fn law_literals_headers_read(src: Seq<u8>)
    requires
        src.len() > 0,
    ensures
        ({
            let ty = src[0] % 4;
            let format = src[0] / 4 % 4;
            let r = lit_header(src);
            let len: int = if ty < 2 {
                if format % 2 == 0 {
                    1
                } else if format == 1 {
                    2
                } else {
                    3
                }
            } else if format < 2 {
                3
            } else {
                format + 2
            };
            let v = first(src, len);
            &&& r is Ok <==> src.len() >= len
            &&& r matches Ok(h) ==> {
                &&& h.len == len
                &&& h.lit_type == ty
                &&& ty < 2 ==> h.regenerated == if format % 2 == 0 {
                    v / 8
                } else {
                    v / 16
                }
                &&& ty >= 2 && format < 2 ==> h.regenerated == v / 16 % 1024 && h.compressed == v / 16384
                &&& ty >= 2 && format == 2 ==> h.regenerated == v / 16 % 16384 && h.compressed == v
                    / 262144
                &&& ty >= 2 && format == 3 ==> h.regenerated == v / 16 % 262144 && h.compressed == v
                    / 4194304
                &&& ty >= 2 ==> (h.four_streams <==> format > 0)
            }
        }),
{
    lemma_first(src);
    if src[0] % 4 >= 2 {
        if src.len() >= 3 {
            lemma_sizes3(src[0] as int, src[1] as int, src[2] as int);
        }
        if src.len() >= 4 {
            lemma_sizes4(src[0] as int, src[1] as int, src[2] as int, src[3] as int);
        }
        if src.len() >= 5 {
            lemma_sizes5(
                src[0] as int,
                src[1] as int,
                src[2] as int,
                src[3] as int,
                src[4] as int,
            );
        }
    }
}

/// A header that is written takes as few bytes as its sizes fit in.
#[verifier::rlimit(40)]
pub proof fn law_literals_headers_written(ty: nat, n: nat, c: nat, single: bool)
    requires
        n < 0x10_0000,
        ty <= 3,
    ensures
        ({
            let h = basic_header_bytes(ty, n);
            &&& ty < 2 ==> h.len() == if n < 32 {
                1int
            } else if n < 4096 {
                2
            } else {
                3
            }
            &&& ty < 2 ==> first(h, h.len() as int) == ty + if n < 32 {
                8 * n
            } else if n < 4096 {
                4 + 16 * n
            } else {
                12 + 16 * n
            }
        }),
        ty >= 2 && n < 1024 && c < 1024 ==> {
            let h = coded_header_bytes(ty, n, c, single);
            &&& h.len() == 3
            &&& first(h, 3) == ty + (if single {
                0int
            } else {
                4
            }) + 16 * n + 16384 * c
        },
        ty >= 2 && 1024 <= n < 16384 && c < 16384 ==> {
            let h = coded_header_bytes(ty, n, c, single);
            h.len() == 4 && first(h, 4) == ty + 8 + 16 * n + 262144 * c
        },
        ty >= 2 && 16384 <= n < 262144 && c < 262144 ==> {
            let h = coded_header_bytes(ty, n, c, single);
            h.len() == 5 && first(h, 5) == ty + 12 + 16 * n + 4194304 * c
        },
{
    lemma_first(basic_header_bytes(ty, n));
    lemma_first(coded_header_bytes(ty, n, c, single));
}

// ---------------------------------------------------------------------------
// Sequences.

/// The number of sequences takes one byte below 128, two (the higher first,
/// with its top bit set) below 32512, and else three.
pub proof fn law_sequence_counts_read(src: Seq<u8>)
    requires
        src.len() > 0,
    ensures
        ({
            let r = sequence_count(src);
            &&& src[0] < 128 ==> r == Ok::<(nat, nat), Error>((src[0] as nat, 1))
            &&& 128 <= src[0] < 255 && src.len() >= 2 ==> r == Ok::<(nat, nat), Error>(
                ((256 * src[0] + src[1] - 32768) as nat, 2),
            )
            &&& src[0] == 255 && src.len() >= 3 ==> r == Ok::<(nat, nat), Error>(
                ((32512 + src[1] + 256 * src[2]) as nat, 3),
            )
            &&& src[0] >= 128 && src.len() < 2 ==> r is Err
            &&& src[0] == 255 && src.len() < 3 ==> r is Err
        }),
{
}

/// A number of sequences that is written takes as few bytes as can be, and is
/// read back.
pub proof fn law_sequence_counts_written(n: nat, rest: Seq<u8>)
    requires
        n < 32512 + 65536,
    ensures
        count_bytes(n).len() == if n < 128 {
            1int
        } else if n < 32512 {
            2
        } else {
            3
        },
        sequence_count(count_bytes(n) + rest) == Ok::<(nat, nat), Error>((n, count_bytes(n).len())),
        n >= 32512 ==> count_bytes(n)[0] == 255 && count_bytes(n)[1] + 256 * count_bytes(n)[2] == n
            - 32512,
{
}

/// The codes of literals lengths follow each other without a gap, from zero on:
/// sixteen of one length each, four of 2, two of 4, two of 8 and one of 16, and
/// then each as long as where it starts.
pub proof fn law_literals_length_codes(c: int)
    requires
        0 <= c <= 35,
    ensures
        LL_BASE[0] == 0,
        c < 35 ==> LL_BASE[c] + pow2(LL_BITS[c] as nat) == LL_BASE[c + 1],
        LL_BITS[c] == if c < 16 {
            0
        } else if c < 20 {
            1
        } else if c < 22 {
            2
        } else if c < 24 {
            3
        } else if c < 25 {
            4
        } else {
            c - 19
        },
        c >= 25 ==> LL_BASE[c] == pow2(LL_BITS[c] as nat),
{
    lemma2_to64();
    lemma_ll_row(c);
    if c < 35 {
        lemma_ll_row(c + 1);
    }
}

#[verifier::spinoff_prover]
proof fn lemma_ll_row(c: int)
    requires
        0 <= c <= 35,
    ensures
        c < 16 ==> LL_BITS[c] == 0 && LL_BASE[c] == c,
        16 <= c < 20 ==> LL_BITS[c] == 1 && LL_BASE[c] == 16 + 2 * (c - 16),
        20 <= c < 22 ==> LL_BITS[c] == 2 && LL_BASE[c] == 24 + 4 * (c - 20),
        22 <= c < 24 ==> LL_BITS[c] == 3 && LL_BASE[c] == 32 + 8 * (c - 22),
        c == 24 ==> LL_BITS[c] == 4 && LL_BASE[c] == 48,
        c >= 25 ==> LL_BITS[c] == c - 19 && LL_BASE[c] == pow2((c - 19) as nat),
        LL_BASE[0] == 0,
{
    lemma2_to64();
    assert(LL_BASE[24] == 48 && LL_BITS[24] == 4 && LL_BASE[25] == 64 && LL_BITS[25] == 6);
}

/// The codes of match lengths, from three on: 32 of one length each, four of 2,
/// two of 4, two of 8, two of 16 and one of 32, and then each twice as long as
/// the one before.
pub proof fn law_match_length_codes(c: int)
    requires
        0 <= c <= 52,
    ensures
        ML_BASE[0] == 3,
        c < 52 ==> ML_BASE[c] + pow2(ML_BITS[c] as nat) == ML_BASE[c + 1],
        ML_BITS[c] == if c < 32 {
            0
        } else if c < 36 {
            1
        } else if c < 38 {
            2
        } else if c < 40 {
            3
        } else if c < 42 {
            4
        } else if c < 43 {
            5
        } else {
            c - 36
        },
{
    lemma2_to64();
    lemma_ml_row(c);
    if c < 52 {
        lemma_ml_row(c + 1);
    }
}

#[verifier::spinoff_prover]
proof fn lemma_ml_row(c: int)
    requires
        0 <= c <= 52,
    ensures
        c < 32 ==> ML_BITS[c] == 0 && ML_BASE[c] == 3 + c,
        32 <= c < 36 ==> ML_BITS[c] == 1 && ML_BASE[c] == 35 + 2 * (c - 32),
        36 <= c < 38 ==> ML_BITS[c] == 2 && ML_BASE[c] == 43 + 4 * (c - 36),
        38 <= c < 40 ==> ML_BITS[c] == 3 && ML_BASE[c] == 51 + 8 * (c - 38),
        40 <= c < 42 ==> ML_BITS[c] == 4 && ML_BASE[c] == 67 + 16 * (c - 40),
        c == 42 ==> ML_BITS[c] == 5 && ML_BASE[c] == 99,
        c >= 43 ==> ML_BITS[c] == c - 36 && ML_BASE[c] == 3 + pow2((c - 36) as nat),
        ML_BASE[0] == 3,
{
    lemma2_to64();
    assert(ML_BASE[42] == 99 && ML_BITS[42] == 5 && ML_BASE[43] == 131 && ML_BITS[43] == 7);
}

/// A length is written with the one code whose range it lies in.
pub proof fn law_lengths_have_their_codes(v: nat)
    requires
        v < 131072,
    ensures
        ({
            let c = spec_ll_code(v) as int;
            &&& 0 <= c <= 35
            &&& LL_BASE[c] <= v < LL_BASE[c] + pow2(LL_BITS[c] as nat)
        }),
        ({
            let c = spec_ml_code(v) as int;
            &&& 0 <= c <= 52
            &&& ML_BASE[c] <= v + 3 < ML_BASE[c] + pow2(ML_BITS[c] as nat)
        }),
{
    reveal(spec_ll_code);
    reveal(spec_ml_code);
    lemma2_to64();
    if v > 0 {
        lemma_highest_bit_bound(v, 17);
        let h = highest_bit(v);
        if v >= 64 && h < 6 {
            lemma_pow2_strictly_increases(h, 6);
        }
        if v >= 128 && h < 7 {
            lemma_pow2_strictly_increases(h, 7);
        }
        if v >= 64 {
            lemma_ll_row((h + 19) as int);
        }
        if v >= 128 {
            lemma_ml_row((h + 36) as int);
        }
    }
    if v < 64 {
        lemma_ll_row(spec_ll_code(v) as int);
    }
    if v < 128 {
        lemma_ml_row(spec_ml_code(v) as int);
    }
}

/// The predefined tables: how many states each code has, of 64, 32 and 64, and
/// how large a table of each kind may be. Codes with less than one state are
/// the last ones of each kind.
#[verifier::rlimit(40)]
pub proof fn law_predefined_tables(c: int)
    ensures
        SeqKind::LiteralLength.default_counts().len() == 36,
        SeqKind::Offset.default_counts().len() == 29,
        SeqKind::MatchLength.default_counts().len() == 53,
        0 <= c < 36 ==> SeqKind::LiteralLength.default_counts()[c] == if c == 0 {
            4
        } else if c == 1 || c == 25 {
            3
        } else if 13 <= c <= 15 || 27 <= c <= 31 {
            1
        } else if c >= 32 {
            -1int
        } else {
            2
        },
        0 <= c < 29 ==> SeqKind::Offset.default_counts()[c] == if c >= 24 {
            -1int
        } else if 6 <= c <= 8 {
            2
        } else {
            1
        },
        0 <= c < 53 ==> SeqKind::MatchLength.default_counts()[c] == if c == 1 {
            4
        } else if c == 2 {
            3
        } else if 3 <= c <= 8 {
            2
        } else if c >= 46 {
            -1int
        } else {
            1
        },
        SeqKind::LiteralLength.default_log() == 6,
        SeqKind::Offset.default_log() == 5,
        SeqKind::MatchLength.default_log() == 6,
        SeqKind::LiteralLength.spec_max_symbol() == 35,
        SeqKind::Offset.spec_max_symbol() == 31,
        SeqKind::MatchLength.spec_max_symbol() == 52,
        SeqKind::LiteralLength.spec_max_log() == 9,
        SeqKind::Offset.spec_max_log() == 8,
        SeqKind::MatchLength.spec_max_log() == 9,
{
    lemma_default_rows(c);
}

#[verifier::spinoff_prover]
#[verifier::rlimit(40)]
proof fn lemma_default_rows(c: int)
    ensures
        0 <= c < 36 ==> crate::block::LL_DEFAULT_NORM[c] == if c == 0 {
            4
        } else if c == 1 || c == 25 {
            3
        } else if 13 <= c <= 15 || 27 <= c <= 31 {
            1
        } else if c >= 32 {
            -1int
        } else {
            2
        },
        0 <= c < 29 ==> crate::block::OF_DEFAULT_NORM[c] == if c >= 24 {
            -1int
        } else if 6 <= c <= 8 {
            2
        } else {
            1
        },
        0 <= c < 53 ==> crate::block::ML_DEFAULT_NORM[c] == if c == 1 {
            4
        } else if c == 2 {
            3
        } else if 3 <= c <= 8 {
            2
        } else if c >= 46 {
            -1int
        } else {
            1
        },
{
}

/// An offset value above three is an offset, and the newest from then on. The
/// values up to three name recent offsets, which move to the front: the newest,
/// the second and the third, or without literals the second, the third, and
/// the newest less one.
pub proof fn law_repeat_offsets(of_value: nat, lit_len: nat, rep: RepView)
    requires
        of_value >= 1,
        rep.r0 >= 1,
    ensures
        ({
            let r = spec_resolve(of_value, lit_len, rep);
            let recent = seq![rep.r0, rep.r1, rep.r2];
            let k = of_value - 1 + if lit_len == 0 {
                1int
            } else {
                0
            };
            &&& r is Err <==> of_value == 3 && lit_len == 0 && rep.r0 == 1
            &&& r matches Ok(p) ==> {
                let after = seq![p.1.r0, p.1.r1, p.1.r2];
                &&& after[0] == p.0
                &&& of_value > 3 ==> p.0 + 3 == of_value
                &&& of_value <= 3 && k < 3 ==> p.0 == recent[k]
                &&& of_value <= 3 && k == 3 ==> p.0 + 1 == rep.r0
                &&& of_value <= 3 && k == 0 ==> after == recent
                &&& of_value <= 3 && k == 1 ==> after[1] == recent[0] && after[2] == recent[2]
                &&& of_value > 3 || k >= 2 ==> after[1] == recent[0] && after[2] == recent[1]
            }
        }),
{
}

/// The recent offsets at the start of a frame are 1, 4 and 8.
pub proof fn law_first_offsets(p: RepView)
    ensures
        p == fresh_ctx().rep ==> p.r0 == 1 && p.r1 == 4 && p.r2 == 8,
        crate::compress_model::first_offsets() == seq![1u32, 4u32, 8u32],
{
}

/// Each byte of a match is the one `offset` places before it, even where that
/// one belongs to the match itself.
pub proof fn law_matches_repeat_the_history(h: Seq<u8>, offset: nat, len: nat)
    requires
        1 <= offset <= h.len(),
    ensures
        spec_copy(h, offset, len).len() == h.len() + len,
        forall|i: int| 0 <= i < h.len() ==> #[trigger] spec_copy(h, offset, len)[i] == h[i],
        forall|i: int|
            h.len() <= i < h.len() + len ==> #[trigger] spec_copy(h, offset, len)[i] == spec_copy(
                h,
                offset,
                len,
            )[i - offset],
    decreases len,
{
    if len > 0 {
        let g = h.push(h[h.len() - offset]);
        law_matches_repeat_the_history(g, offset, (len - 1) as nat);
        let r = spec_copy(h, offset, len);
        assert(r == spec_copy(g, offset, (len - 1) as nat));
        assert forall|i: int| 0 <= i < h.len() implies #[trigger] r[i] == h[i] by {
            assert(spec_copy(g, offset, (len - 1) as nat)[i] == g[i]);
        }
        let n = h.len() as int;
        assert(spec_copy(g, offset, (len - 1) as nat)[n] == g[n]);
        assert(spec_copy(g, offset, (len - 1) as nat)[n - offset] == g[n - offset]);
    }
}

// ---------------------------------------------------------------------------
// Frames and dictionaries.

/// A frame that names no dictionary takes whatever is supplied; one that names
/// one takes it under that name only.
pub proof fn law_dictionaries_go_by_their_names(supplied: Option<DictView>, id: u32)
    ensures
        id == 0 ==> resolve_dictionary(supplied, id) == Ok::<Option<DictView>, Error>(supplied),
        id != 0 && supplied is None ==> resolve_dictionary(supplied, id) == Err::<
            Option<DictView>,
            Error,
        >(Error::DictionaryRequired(id)),
        id != 0 && supplied is Some && supplied->0.id == id ==> resolve_dictionary(supplied, id)
            == Ok::<Option<DictView>, Error>(supplied),
        id != 0 && supplied is Some && supplied->0.id != id ==> resolve_dictionary(supplied, id)
            == Err::<Option<DictView>, Error>(
            Error::DictionaryWrong { expected: id, actual: supplied->0.id },
        ),
{
}

/// The bytes 37 A4 30 EC make a dictionary a formatted one: its name is in the
/// next four bytes, and its content follows the three numbers of four bytes
/// that are its recent offsets, none of which is zero or reaches beyond the
/// content. Any other bytes are content only.
pub proof fn law_dictionaries_read(bytes: Seq<u8>)
    ensures
        ({
            let r = spec_dictionary(bytes);
            let formatted = bytes.len() >= 8 && bytes[0] == 0x37 && bytes[1] == 0xA4 && bytes[2] == 0x30
                && bytes[3] == 0xEC;
            &&& !formatted ==> r == Ok::<DictView, Error>(
                DictView { id: 0, content: bytes, ctx: fresh_ctx() },
            )
            &&& formatted && r is Err ==> r == Err::<DictView, Error>(Error::DictionaryCorrupted)
            &&& formatted && r is Ok ==> {
                let d = r->Ok_0;
                let at = bytes.len() - d.content.len();
                &&& at >= 20
                &&& d.content == bytes.skip(at)
                &&& d.id == four(bytes, 4)
                &&& d.ctx.rep.r0 == four(bytes, at - 12)
                &&& d.ctx.rep.r1 == four(bytes, at - 8)
                &&& d.ctx.rep.r2 == four(bytes, at - 4)
                &&& 1 <= d.ctx.rep.r0 <= d.content.len()
                &&& 1 <= d.ctx.rep.r1 <= d.content.len()
                &&& 1 <= d.ctx.rep.r2 <= d.content.len()
                &&& d.ctx.huffman is Some && d.ctx.ll is Some && d.ctx.of is Some && d.ctx.ml is Some
            }
        }),
{
    if bytes.len() >= 8 {
        lemma_number_at(bytes, 0, 4);
        lemma_number_at(bytes, 4, 4);
        assert(is_number_at(bits_at(bytes, 0, 32) as int, bytes, 0, 4));
        assert(is_number_at(bits_at(bytes, 32, 32) as int, bytes, 4, 4));
        if formatted_dict(bytes) is Some {
            let d = formatted_dict(bytes)->0;
            let p3 = (bytes.len() - d.content.len() - 12) as nat;
            lemma_number_at(bytes, p3, 4);
            lemma_number_at(bytes, p3 + 4, 4);
            lemma_number_at(bytes, p3 + 8, 4);
            assert(is_number_at(bits_at(bytes, 8 * p3, 32) as int, bytes, p3 as int, 4));
            assert(is_number_at(bits_at(bytes, 8 * (p3 + 4), 32) as int, bytes, (p3 + 4) as int, 4));
            assert(is_number_at(bits_at(bytes, 8 * (p3 + 8), 32) as int, bytes, (p3 + 8) as int, 4));
        }
    }
}

/// A skippable frame starts with one of the bytes 50 to 5F, then 2A 4D 18, and
/// the length of what follows in four bytes.
pub proof fn law_skippable_frames(s: Seq<u8>)
    requires
        s.len() >= 8,
    ensures
        is_skippable_frame(s) <==> s[0] / 16 == 5 && s[1] == 0x2A && s[2] == 0x4D && s[3] == 0x18
            && s.len() == 8 + four(s, 4),
{
    lemma_number_at(s, 0, 4);
    lemma_number_at(s, 4, 4);
    assert(is_number_at(bits_at(s, 0, 32) as int, s, 0, 4));
    assert(is_number_at(bits_at(s, 32, 32) as int, s, 4, 4));
}

/// Input that starts with neither kind of frame is refused, and the error says
/// what it starts with.
pub proof fn law_unknown_frames_are_refused(opts: OptionsView, src: Seq<u8>)
    requires
        src.len() >= 4,
        !(src[0] == 0x28 && src[1] == 0xB5 && src[2] == 0x2F && src[3] == 0xFD),
        !(src[0] / 16 == 5 && src[1] == 0x2A && src[2] == 0x4D && src[3] == 0x18),
    ensures
        spec_decompress(opts, src) == Err::<Seq<u8>, Error>(Error::UnknownMagic(four(src, 0) as u32)),
{
    lemma_number_at(src, 0, 4);
    assert(is_number_at(bits_at(src, 0, 32) as int, src, 0, 4));
}

} // verus!
