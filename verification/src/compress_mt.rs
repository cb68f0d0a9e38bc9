//! Compressing in sections that could be worked on side by side: each section
//! sees the end of the one before it, but none of its tables and offsets.

use crate::block::{fresh_ctx, CtxView};
use crate::compress::{
    compress, lemma_block_sizes, lemma_frame, lemma_frame_streams, lemma_fresh_near, needs_ldm, reader_block_max,
    starts_frame, too_long,
};
use crate::compress_model::{chunks_made, first_offsets, frame_bytes, section_bytes, sections_made};
use crate::cparams::{get_cparams, spec_cparams, CParamMode, CParams, Strategy};
use crate::decompress::{default_options, spec_decompress, ZSTD_MAGIC};
use crate::error::Error;
use crate::frame_compress::{lemma_first_chunk, FrameCompressor, Stage};
use crate::frame_encode::{are_blocks, header_fields, le_bytes, lemma_more_blocks, lemma_no_blocks};
use crate::frame_model::{fresh_frame, FrameView};
use crate::ldm::LdmParams;
use crate::math::pow2_u64;
use crate::parser::ends_with;
use crate::seq_store::near_offsets;
use crate::stream::{initial_stream, run_stream};
use vstd::arithmetic::power2::{lemma2_to64, lemma_pow2_strictly_increases, pow2};
use vstd::prelude::*;
use vstd::slice::slice_subrange;

verus! {

/// Sources no longer than this are compressed in one piece.
pub const JOB_SIZE_MIN: u64 = 524288;

pub const JOB_SIZE_MAX: u64 = 1073741824;

/// A section is compressed in chunks of four full blocks.
pub const CHUNK_SIZE: usize = 524288;

/// The logarithm of how much of the section before it a section sees, counted
/// from the window log: larger for the strategies that search longer. None for
/// a setting of 1 or less that is not 0.
pub open spec fn spec_overlap_log(cp: CParams, overlap_log: int) -> int {
    let setting = if overlap_log != 0 {
        overlap_log
    } else if cp.strategy is Btultra2 {
        9
    } else if cp.strategy.spec_num() >= 7 {
        8
    } else if cp.strategy.spec_num() >= 5 {
        7
    } else {
        6
    };
    if setting <= 1 {
        0
    } else {
        cp.window_log + setting - 9
    }
}

/// How much of the section before it a section sees.
pub open spec fn spec_overlap_size(cp: CParams, overlap_log: int) -> nat {
    let log = spec_overlap_log(cp, overlap_log);
    if log <= 0 {
        0
    } else {
        pow2(log as nat)
    }
}

/// The overlap, where it is less than 2^63; otherwise that bound.
pub fn mt_overlap_size(cp: &CParams, overlap_log: i32) -> (r: u64)
    requires
        cp.wf(),
    ensures
        r == if spec_overlap_log(*cp, overlap_log as int) < 63 {
            spec_overlap_size(*cp, overlap_log as int)
        } else {
            0x8000_0000_0000_0000
        },
{
    let default_overlap_log: i32 = match cp.strategy {
        Strategy::Btultra2 => 9,
        Strategy::Btultra | Strategy::Btopt => 8,
        Strategy::Btlazy2 | Strategy::Lazy2 => 7,
        _ => 6,
    };
    let setting: i64 = if overlap_log == 0 {
        default_overlap_log as i64
    } else {
        overlap_log as i64
    };
    let log: i64 = if setting <= 1 {
        0
    } else {
        cp.window_log as i64 + setting - 9
    };
    if log <= 0 {
        0
    } else if log < 63 {
        pow2_u64(log as u32)
    } else {
        0x8000_0000_0000_0000
    }
}

/// The length of a section: as asked for, within bounds, or four times the
/// window; and no less than the overlap.
pub open spec fn spec_section_size(cp: CParams, job_size: nat, overlap_size: nat) -> nat {
    let asked = if job_size == 0 {
        if cp.window_log <= 18 {
            0x10_0000
        } else {
            pow2((cp.window_log + 2) as nat)
        }
    } else if job_size < JOB_SIZE_MIN {
        JOB_SIZE_MIN as nat
    } else if job_size > JOB_SIZE_MAX {
        JOB_SIZE_MAX as nat
    } else {
        job_size
    };
    if asked < overlap_size {
        overlap_size
    } else {
        asked
    }
}

pub fn mt_target_section_size(cp: &CParams, job_size: u64, overlap_size: u64) -> (r: u64)
    requires
        cp.wf(),
    ensures
        r == spec_section_size(*cp, job_size as nat, overlap_size as nat),
        r >= JOB_SIZE_MIN,
{
    proof {
        lemma2_to64();
        if cp.window_log > 18 {
            lemma_pow2_strictly_increases(20, (cp.window_log + 2) as nat);
        }
    }
    let asked: u64 = if job_size != 0 {
        if job_size < JOB_SIZE_MIN {
            JOB_SIZE_MIN
        } else if job_size > JOB_SIZE_MAX {
            JOB_SIZE_MAX
        } else {
            job_size
        }
    } else if cp.window_log <= 18 {
        0x10_0000
    } else {
        pow2_u64(cp.window_log + 2)
    };
    if asked < overlap_size {
        overlap_size
    } else {
        asked
    }
}

/// The most that the tables of `cp` can index of a prefix.
pub open spec fn max_prefix(cp: CParams) -> nat {
    let a = cp.hash_log + 3;
    let b = cp.chain_log + 1;
    pow2(
        (if a < b {
            b
        } else {
            a
        }) as nat,
    )
}

/// Compresses one section of `src`, from `seg_start` to `seg_end`, seeing the
/// `prefix_len` bytes before it. The first section's blocks follow the frame's
/// header; the last section ends the frame. Nothing is known of the decoder's
/// recent offsets where a section starts.
#[verifier::rlimit(60)]
fn compress_mt_job(
    out: &mut Vec<u8>,
    cparams: CParams,
    src: &[u8],
    prefix_len: usize,
    seg_start: usize,
    seg_end: usize,
    pledged: u64,
    first: bool,
    is_last: bool,
    Ghost(ctx): Ghost<CtxView>,
    Ghost(bm): Ghost<nat>,
) -> (r: Result<(Ghost<Seq<u8>>, Ghost<CtxView>), Error>)
    requires
        cparams.wf(),
        prefix_len <= seg_start < seg_end <= src@.len() <= u32::MAX - 3,
        pledged == if first {
            src@.len()
        } else {
            (seg_end - seg_start) as nat
        },
        bm == reader_block_max(cparams.window_log, Some(src@.len() as u64)),
        first <==> seg_start == 0,
        first ==> ctx == fresh_ctx(),
        near_offsets(ctx.rep, pow2(cparams.window_log as nat)),
        is_last <==> seg_end == src@.len(),
    ensures
        r matches Ok((bytes, ctx1)) && {
            &&& final(out)@ == old(out)@ + (if first {
                le_bytes(ZSTD_MAGIC as nat, 4) + header_fields(
                    cparams.window_log,
                    Some(pledged),
                    false,
                    0,
                )
            } else {
                Seq::empty()
            }) + bytes@
            &&& are_blocks(
                bytes@,
                is_last,
                ctx,
                src@.take(seg_start as int),
                ctx1@,
                src@.take(seg_end as int),
                bm,
                pow2(cparams.window_log as nat),
            )
            &&& near_offsets(ctx1@.rep, pow2(cparams.window_log as nat))
            &&& bytes@ == section_bytes(
                src@,
                cparams,
                prefix_len as int,
                seg_start as int,
                seg_end as int,
            )
        },
{
    let buf = slice_subrange(src, seg_start - prefix_len, seg_end);
    let end: usize = buf.len();
    let rep: [u32; 3] = if first {
        [1, 4, 8]
    } else {
        [0, 0, 0]
    };
    let ghost hist = src@.take(seg_start as int);
    proof {
        if first {
            assert(rep@ =~= first_offsets());
        } else {
            assert(rep@ =~= seq![0u32, 0u32, 0u32]);
        }
        assert(buf@ =~= src@.subrange(seg_start - prefix_len, seg_end as int));
    }
    let mut fc = FrameCompressor::from_cparams(
        cparams,
        Some(pledged),
        false,
        rep,
        Ghost(ctx),
        Ghost(hist),
        Ghost(bm),
    );
    if prefix_len > 0 {
        let first_end: usize = if end - prefix_len > CHUNK_SIZE {
            prefix_len + CHUNK_SIZE
        } else {
            end
        };
        fc.prime_contiguous_prefix(buf, prefix_len, first_end);
    }
    if !first {
        fc.stage = Stage::Ongoing;
    }
    let ghost head = fc.head_bytes();
    let ghost before = out@;
    proof {
        lemma_block_sizes(cparams.window_log, src@.len() as u64);
        lemma_block_sizes(cparams.window_log, pledged);
        assert(buf@.take(prefix_len as int) =~= hist.skip(seg_start - prefix_len));
        assert(buf@.subrange(prefix_len as int, end as int) =~= src@.subrange(
            seg_start as int,
            seg_end as int,
        ));
        assert(hist + src@.subrange(seg_start as int, seg_end as int) =~= src@.take(
            seg_end as int,
        ));
    }
    let ghost mut bytes = Seq::<u8>::empty();
    let mut pos: usize = prefix_len;
    proof {
        reveal(fresh_frame);
        assert(ends_with(hist, buf@.take(prefix_len as int)));
        lemma_first_chunk(fc@, buf@, pos as int, chunk_end(buf@, pos as int), hist);
        lemma_no_blocks(ctx, hist, bm, pow2(cparams.window_log as nat));
        assert(buf@.subrange(prefix_len as int, prefix_len as int) =~= Seq::<u8>::empty());
        assert(hist + Seq::<u8>::empty() =~= hist);
        assert(out@ =~= before + bytes);
    }
    let ghost all = chunks_made(fc@, buf@, pos as int, is_last, bytes);
    assert(all == section_bytes(
        src@,
        cparams,
        prefix_len as int,
        seg_start as int,
        seg_end as int,
    ));
    while end - pos > CHUNK_SIZE
        invariant
            all == chunks_made(fc@, buf@, pos as int, is_last, bytes),
            prefix_len <= pos < end == buf@.len(),
            buf@.len() <= u32::MAX,
            fc.wf(),
            fc.stage != Stage::Ending,
            !fc.checksum,
            fc.pledged == Some(pledged),
            fc.consumed == pos - prefix_len,
            end - prefix_len <= pledged,
            fc.block_size_max <= bm,
            fc.decoder_max@ == bm,
            at_chunk(fc@, buf@, pos as int, fc.hist@),
            fc.window_preloaded ==> fc.window.next_src_pos == chunk_end(buf@, pos as int),
            fc.hist@ == hist + buf@.subrange(prefix_len as int, pos as int),
            out@ + fc.head_bytes() == before + head + bytes,
            fc.reach == pow2(cparams.window_log as nat),
            are_blocks(bytes, false, ctx, hist, fc.ctx@, fc.hist@, bm, fc.reach as nat),
        decreases end - pos,
    {
        proof {
            reveal_with_fuel(chunks_made, 1);
        }
        let ghost c1 = fc.ctx@;
        let ghost h1 = fc.hist@;
        let next: usize = pos + CHUNK_SIZE;
        let more = match fc.compress_continue(out, buf, pos, next, false) {
            Ok(b) => b,
            Err(e) => {
                return Err(e);
            },
        };
        proof {
            lemma_chunk(hist, buf@, prefix_len as int, pos as int, next as int);
            assert(fc@.chunk_entered(next as nat, chunk_end(buf@, next as int) as nat).goes_on(
                buf@,
                next as int,
                chunk_end(buf@, next as int),
                fc.hist@,
            ));
            lemma_more_blocks(
                bytes,
                more@,
                false,
                ctx,
                hist,
                c1,
                h1,
                fc.ctx@,
                fc.hist@,
                bm,
                fc.reach as nat,
            );
            assert(out@ + Seq::<u8>::empty() =~= before + head + (bytes + more@));
            bytes = bytes + more@;
        }
        pos = next;
    }
    let ghost c1 = fc.ctx@;
    let ghost h1 = fc.hist@;
    proof {
        reveal_with_fuel(chunks_made, 1);
        lemma_chunk(hist, buf@, prefix_len as int, pos as int, end as int);
    }
    let more = match if is_last {
        fc.compress_end(out, buf, pos, end)
    } else {
        fc.compress_continue(out, buf, pos, end, false)
    } {
        Ok(b) => b,
        Err(e) => {
            return Err(e);
        },
    };
    proof {
        lemma_more_blocks(
            bytes,
            more@,
            is_last,
            ctx,
            hist,
            c1,
            h1,
            fc.ctx@,
            fc.hist@,
            bm,
            pow2(cparams.window_log as nat),
        );
        assert(out@ =~= before + head + (bytes + more@));
        bytes = bytes + more@;
    }
    Ok((Ghost(bytes), Ghost(fc.ctx@)))
}

/// Where the next chunk of the section `buf[pos ..]` ends.
pub open spec fn chunk_end(buf: Seq<u8>, pos: int) -> int {
    if buf.len() - pos > CHUNK_SIZE {
        pos + CHUNK_SIZE
    } else {
        buf.len() as int
    }
}

/// The next chunk of the section goes on from what a decoder has.
pub open spec fn at_chunk(f: FrameView, buf: Seq<u8>, pos: int, hist: Seq<u8>) -> bool {
    f.chunk_entered(pos as nat, chunk_end(buf, pos) as nat).goes_on(buf, pos, chunk_end(buf, pos), hist)
}

/// A history grows by one chunk of the buffer.
proof fn lemma_chunk(hist: Seq<u8>, buf: Seq<u8>, start: int, a: int, b: int)
    requires
        0 <= start <= a <= b <= buf.len(),
    ensures
        hist + buf.subrange(start, a) + buf.subrange(a, b) == hist + buf.subrange(start, b),
{
    assert(buf.subrange(start, a) + buf.subrange(a, b) =~= buf.subrange(start, b));
    assert(hist + buf.subrange(start, a) + buf.subrange(a, b) =~= hist + (buf.subrange(start, a)
        + buf.subrange(a, b)));
}

/// The bytes that compressing in sections gives.
pub open spec fn mt_bytes(src: Seq<u8>, cp: CParams, nb_workers: u32, job_size: nat, overlap_log: int) -> Seq<u8> {
    let overlap = spec_overlap_size(cp, overlap_log);
    let section = spec_section_size(cp, job_size, overlap);
    if nb_workers == 0 || src.len() <= JOB_SIZE_MIN || src.len() < section {
        frame_bytes(src, cp)
    } else {
        le_bytes(ZSTD_MAGIC as nat, 4) + header_fields(
            cp.window_log,
            Some(src.len() as u64),
            false,
            0,
        ) + sections_made(src, cp, overlap, section, 0, Seq::empty())
    }
}

/// How many workers there are makes no difference, as long as there is one:
/// only the sections count.
pub proof fn law_workers_make_no_difference(
    src: Seq<u8>,
    cp: CParams,
    workers: u32,
    others: u32,
    job_size: nat,
    overlap_log: int,
)
    requires
        workers != 0,
        others != 0,
    ensures
        mt_bytes(src, cp, workers, job_size, overlap_log) == mt_bytes(
            src,
            cp,
            others,
            job_size,
            overlap_log,
        ),
{
}

/// Compresses `src` in sections of `job_size` bytes, each of which sees a part
/// of the section before it that `overlap_log` sets; 0 stands for the default
/// of either. With no workers, and for a source that one section holds, this
/// is [`compress`]. Decompressing the frame gives `src` back.
#[verifier::rlimit(40)]
pub fn compress_mt(src: &[u8], level: i32, nb_workers: u32, job_size: u64, overlap_log: i32) -> (r: Result<
    Vec<u8>,
    Error,
>)
    ensures
        ({
            let cp = spec_cparams(level as int, src@.len(), 0, CParamMode::NoAttachDict);
            if too_long(src@.len()) {
                r == Err::<Vec<u8>, Error>(Error::Encode("inputs >= 4 GiB are not supported yet"))
            } else if nb_workers != 0 && src@.len() > JOB_SIZE_MIN && needs_ldm(
                cp.strategy,
                cp.window_log,
            ) {
                r == Err::<Vec<u8>, Error>(
                    Error::Encode("long-distance matching with multithreading is not supported yet"),
                )
            } else if nb_workers != 0 && src@.len() > JOB_SIZE_MIN && spec_overlap_size(
                cp,
                overlap_log as int,
            ) > max_prefix(cp) {
                r == Err::<Vec<u8>, Error>(
                    Error::Encode(
                        "multithreaded overlap larger than the indexable dictionary size is not supported yet",
                    ),
                )
            } else {
                &&& r matches Ok(out)
                &&& spec_decompress(default_options(), out@) == Ok::<Seq<u8>, Error>(src@)
                &&& run_stream(default_options(), initial_stream(), out@) == Ok::<Seq<u8>, Error>(
                    src@,
                )
                &&& starts_frame(out@, cp.window_log, src@.len(), 0)
                &&& out@ == mt_bytes(src@, cp, nb_workers, job_size as nat, overlap_log as int)
            }
        }),
{
    let n: usize = src.len();
    if n as u64 >= 0xFFFF_FFFD {
        return Err(Error::Encode("inputs >= 4 GiB are not supported yet"));
    }
    if nb_workers == 0 || n as u64 <= JOB_SIZE_MIN {
        return compress(src, level);
    }
    let cparams = get_cparams(level, n as u64, 0);
    if LdmParams::auto(&cparams).is_some() {
        return Err(
            Error::Encode("long-distance matching with multithreading is not supported yet"),
        );
    }
    let overlap: u64 = mt_overlap_size(&cparams, overlap_log);
    let section: u64 = mt_target_section_size(&cparams, job_size, overlap);
    let a: u32 = cparams.hash_log + 3;
    let b: u32 = cparams.chain_log + 1;
    let prefix_log: u32 = if a < b {
        b
    } else {
        a
    };
    proof {
        lemma2_to64();
        lemma_pow2_strictly_increases(prefix_log as nat, 32);
        let log = spec_overlap_log(cparams, overlap_log as int);
        if log >= 63 {
            lemma_pow2_strictly_increases(32, log as nat);
        }
    }
    let max_prefix_size: u64 = pow2_u64(prefix_log);
    if overlap > max_prefix_size {
        return Err(
            Error::Encode(
                "multithreaded overlap larger than the indexable dictionary size is not supported yet",
            ),
        );
    }
    if (n as u64) < section {
        return compress(src, level);
    }
    let section_len: usize = section as usize;
    let ghost pledged = Some(n as u64);
    let ghost head = le_bytes(ZSTD_MAGIC as nat, 4) + header_fields(
        cparams.window_log,
        pledged,
        false,
        0,
    );
    let ghost bm = reader_block_max(cparams.window_log, pledged);
    let mut out: Vec<u8> = Vec::new();
    let ghost mut bytes = Seq::<u8>::empty();
    let mut ctx: Ghost<CtxView> = Ghost(fresh_ctx());
    let mut seg_start: usize = 0;
    let mut first: bool = true;
    proof {
        assert(src@.take(0) =~= Seq::<u8>::empty());
        lemma_no_blocks(fresh_ctx(), Seq::empty(), bm, pow2(cparams.window_log as nat));
        lemma_fresh_near(cparams.window_log);
    }
    let ghost all = sections_made(
        src@,
        cparams,
        overlap as nat,
        section_len as nat,
        0,
        bytes,
    );
    while seg_start < n
        invariant
            all == sections_made(
                src@,
                cparams,
                overlap as nat,
                section_len as nat,
                seg_start as int,
                bytes,
            ),
            seg_start <= n,
            n == src@.len(),
            0 < n < 0xFFFF_FFFD,
            cparams.wf(),
            overlap <= 0x1_0000_0000,
            section_len >= 1,
            pledged == Some(n as u64),
            head == le_bytes(ZSTD_MAGIC as nat, 4) + header_fields(
                cparams.window_log,
                pledged,
                false,
                0,
            ),
            bm == reader_block_max(cparams.window_log, pledged),
            first <==> seg_start == 0,
            first ==> ctx@ == fresh_ctx() && out@ == Seq::<u8>::empty() && bytes == Seq::<
                u8,
            >::empty(),
            !first ==> out@ == head + bytes,
            are_blocks(
                bytes,
                seg_start == n,
                fresh_ctx(),
                Seq::empty(),
                ctx@,
                src@.take(seg_start as int),
                bm,
                pow2(cparams.window_log as nat),
            ),
            near_offsets(ctx@.rep, pow2(cparams.window_log as nat)),
        decreases n - seg_start,
    {
        proof {
            reveal_with_fuel(sections_made, 1);
        }
        let seg_len: usize = if n - seg_start < section_len {
            n - seg_start
        } else {
            section_len
        };
        let seg_end: usize = seg_start + seg_len;
        let is_last: bool = seg_end == n;
        let prefix_len: usize = if overlap < seg_start as u64 {
            overlap as usize
        } else {
            seg_start
        };
        let job_pledged: u64 = if first {
            n as u64
        } else {
            seg_len as u64
        };
        let (more, ctx1) = match compress_mt_job(
            &mut out,
            cparams,
            src,
            prefix_len,
            seg_start,
            seg_end,
            job_pledged,
            first,
            is_last,
            ctx,
            Ghost(bm),
        ) {
            Ok(p) => p,
            Err(e) => {
                return Err(e);
            },
        };
        proof {
            lemma_more_blocks(
                bytes,
                more@,
                is_last,
                fresh_ctx(),
                Seq::empty(),
                ctx@,
                src@.take(seg_start as int),
                ctx1@,
                src@.take(seg_end as int),
                bm,
                pow2(cparams.window_log as nat),
            );
            if first {
                assert(out@ =~= head + (bytes + more@));
            } else {
                assert(out@ =~= head + (bytes + more@));
            }
            bytes = bytes + more@;
        }
        ctx = ctx1;
        seg_start = seg_end;
        first = false;
    }
    proof {
        reveal_with_fuel(sections_made, 1);
        assert(src@.take(n as int) =~= src@);
        assert(Seq::<u8>::empty() + src@ =~= src@);
        lemma_frame(
            default_options(),
            cparams.window_log,
            pledged,
            false,
            0,
            None,
            bytes,
            ctx@,
            src@,
            pow2(cparams.window_log as nat),
        );
        lemma_frame_streams(
            default_options(),
            cparams.window_log,
            pledged,
            false,
            bytes,
            ctx@,
            src@,
        );
        assert(head + bytes + Seq::<u8>::empty() =~= head + bytes);
        assert(out@.take(head.len() as int) =~= head);
    }
    Ok(out)
}

} // verus!
