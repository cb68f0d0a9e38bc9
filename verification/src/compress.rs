//! Compressing a buffer into a frame.

use crate::block::{fresh_ctx, CtxView};
use crate::compress_model::{first_offsets, frame_bytes};
use crate::cparams::{get_cparams, spec_cparams, CParamMode, CParams, Strategy};
use crate::decompress::{
    block_max_of, checksum32, default_options, dict_content, dict_ctx, resolve_dictionary, spec_blocks,
    spec_decompress, spec_frame, spec_frame_end, spec_frames, OptionsView, ZSTD_MAGIC,
};
use crate::dictionary::{le32, DictView};
use crate::error::Error;
use crate::frame_compress::FrameCompressor;
use crate::frame_encode::{
    are_blocks, gone_on, header_fields, header_says, is_single_segment, le_bytes, lemma_field, lemma_header_parses,
    lemma_le_bytes, runs_on, window_serves,
};
use crate::frame_model::spec_block_size_max;
use crate::seq_store::near_offsets;
use crate::stream::{
    initial_stream, law_step_at_end, opened_frame, prepend, run_stream, step_footer, step_frame_start, trim,
    PhaseView, StreamView,
};
use vstd::arithmetic::power2::{lemma2_to64, lemma_pow2_strictly_increases, pow2};
use vstd::prelude::*;

verus! {

/// Whether a buffer is too long for 32-bit indices.
pub open spec fn too_long(len: nat) -> bool {
    len >= 0xFFFF_FFFD
}

/// The largest block that the reader of a frame accepts.
pub open spec fn reader_block_max(window_log: u32, pledged: Option<u64>) -> nat {
    block_max_of(header_says(window_log, pledged, false, 0).window_size)
}

/// Parameters under which long-distance matching is on.
pub open spec fn needs_ldm(strategy: Strategy, window_log: u32) -> bool {
    strategy.spec_num() >= 7 && window_log >= 27
}

/// A frame that says its size, with a header of the given parameters.
pub open spec fn starts_frame(out: Seq<u8>, window_log: u32, len: nat, dict_id: u32) -> bool {
    let head = le_bytes(ZSTD_MAGIC as nat, 4) + header_fields(
        window_log,
        Some(len as u64),
        false,
        dict_id,
    );
    out.len() >= head.len() && out.take(head.len() as int) == head
}

/// A header, blocks up to a last one, and the checksum where the header
/// announces it, are a frame: decompressing it gives the content.
#[verifier::rlimit(40)]
pub proof fn lemma_frame(
    opts: OptionsView,
    window_log: u32,
    pledged: Option<u64>,
    checksum: bool,
    dict_id: u32,
    d: Option<DictView>,
    bytes: Seq<u8>,
    ctx1: CtxView,
    content: Seq<u8>,
    reach: nat,
)
    requires
        10 <= window_log <= 31,
        window_log <= opts.window_log_max,
        content.len() <= opts.limit,
        pledged matches Some(n) ==> n == content.len(),
        resolve_dictionary(opts.dictionary, dict_id) == Ok::<Option<DictView>, Error>(d),
        are_blocks(
            bytes,
            true,
            dict_ctx(d),
            dict_content(d),
            ctx1,
            dict_content(d) + content,
            reader_block_max(window_log, pledged),
            reach,
        ),
    ensures
        spec_decompress(
            opts,
            le_bytes(ZSTD_MAGIC as nat, 4) + header_fields(window_log, pledged, checksum, dict_id)
                + bytes + FrameCompressor::tail_bytes(checksum, content),
        ) == Ok::<Seq<u8>, Error>(content),
{
    let magic = le_bytes(ZSTD_MAGIC as nat, 4);
    let fields = header_fields(window_log, pledged, checksum, dict_id);
    let tail = FrameCompressor::tail_bytes(checksum, content);
    let src = magic + fields + bytes + tail;
    let h = header_says(window_log, pledged, checksum, dict_id);
    let prefix = dict_content(d);
    let bm = reader_block_max(window_log, pledged);
    lemma2_to64();
    if pledged is Some && !is_single_segment(window_log, pledged) {
        if window_log > 10 {
            lemma_pow2_strictly_increases(10, window_log as nat);
        }
    }
    lemma_le_bytes(ZSTD_MAGIC as nat, 4);
    lemma_field(Seq::empty(), magic, fields + bytes + tail);
    assert(Seq::<u8>::empty() + magic + (fields + bytes + tail) =~= src);
    assert(le32(src, 0) == ZSTD_MAGIC);
    assert(src.skip(4) =~= fields + (bytes + tail));
    lemma_header_parses(window_log, pledged, checksum, dict_id, bytes + tail, opts.window_log_max);
    let frame = src.skip(4);
    assert(frame.skip(h.header_len as int) =~= bytes + tail);
    reveal(are_blocks);
    assert(spec_blocks(
        dict_ctx(d),
        bytes + tail,
        prefix,
        bm,
        prefix.len(),
        opts.limit as int,
    ) == Ok::<(Seq<u8>, Seq<u8>), Error>((prefix + content, tail)));
    assert((prefix + content).skip(prefix.len() as int) =~= content);
    if checksum {
        lemma_le_bytes(checksum32(content) as nat, 4);
        lemma_field(Seq::empty(), tail, Seq::empty());
        assert(Seq::<u8>::empty() + tail + Seq::<u8>::empty() =~= tail);
    }
    let rest = if checksum {
        tail.skip(4)
    } else {
        tail
    };
    assert(rest =~= Seq::<u8>::empty());
    assert(spec_frame_end(h, content, tail) == Ok::<Seq<u8>, Error>(rest));
    reveal(spec_frame);
    assert(spec_frame(opts, frame, 0) == Ok::<(Seq<u8>, Seq<u8>), Error>((content, rest)));
    assert(Seq::<u8>::empty() + content =~= content);
    assert(spec_frames(opts, rest, content) == Ok::<Seq<u8>, Error>(content));
    assert(src.len() >= 4);
    assert(spec_frames(opts, src, Seq::empty()) == Ok::<Seq<u8>, Error>(content));
}

/// A header, blocks up to a last one that reach no further back than the
/// window, and the checksum where the header announces it, are a frame to a
/// stream too.
#[verifier::rlimit(60)]
pub proof fn lemma_frame_streams(
    opts: OptionsView,
    window_log: u32,
    pledged: Option<u64>,
    checksum: bool,
    bytes: Seq<u8>,
    ctx1: CtxView,
    content: Seq<u8>,
)
    requires
        10 <= window_log <= 31,
        window_log <= opts.window_log_max,
        content.len() <= opts.limit,
        content.len() <= usize::MAX,
        pledged matches Some(n) ==> n == content.len(),
        opts.dictionary is None,
        are_blocks(
            bytes,
            true,
            fresh_ctx(),
            Seq::empty(),
            ctx1,
            content,
            reader_block_max(window_log, pledged),
            pow2(window_log as nat),
        ),
    ensures
        run_stream(
            opts,
            initial_stream(),
            le_bytes(ZSTD_MAGIC as nat, 4) + header_fields(window_log, pledged, checksum, 0) + bytes
                + FrameCompressor::tail_bytes(checksum, content),
        ) == Ok::<Seq<u8>, Error>(content),
{
    let magic = le_bytes(ZSTD_MAGIC as nat, 4);
    let fields = header_fields(window_log, pledged, checksum, 0);
    let tail = FrameCompressor::tail_bytes(checksum, content);
    let src = magic + fields + bytes + tail;
    let h = header_says(window_log, pledged, checksum, 0);
    let none = Seq::<u8>::empty();
    lemma2_to64();
    if window_log < 31 {
        lemma_pow2_strictly_increases(window_log as nat, 31);
    }
    if window_log > 10 {
        lemma_pow2_strictly_increases(10, window_log as nat);
    }
    lemma_le_bytes(ZSTD_MAGIC as nat, 4);
    lemma_field(none, magic, fields + bytes + tail);
    assert(none + magic + (fields + bytes + tail) =~= src);
    assert(le32(src, 0) == ZSTD_MAGIC);
    assert(src.skip(4) =~= fields + (bytes + tail));
    lemma_header_parses(window_log, pledged, checksum, 0, bytes + tail, opts.window_log_max);
    reveal(step_frame_start);
    let f = opened_frame(opts, h)->Ok_0;
    law_step_at_end(opts, initial_stream(), src);
    let body = src.skip(4 + h.header_len as int);
    assert(body =~= bytes + tail);
    let s1 = StreamView { phase: PhaseView::Blocks(f), total: 0 };
    assert(run_stream(opts, initial_stream(), src) == prepend(none, run_stream(opts, s1, body)));
    reveal(are_blocks);
    assert(window_serves(f.window, content, pow2(window_log as nat)));
    assert(runs_on(
        bytes,
        true,
        fresh_ctx(),
        none,
        ctx1,
        content,
        f.block_max,
        f.window,
    ));
    reveal(runs_on);
    let more = content.skip(0);
    assert(more =~= content);
    assert(trim(none, f.window) =~= none);
    assert(f.win =~= none);
    let g = gone_on(f, ctx1, content, more);
    let s2 = StreamView { phase: PhaseView::Footer(g), total: content.len() };
    assert(run_stream(opts, s1, bytes + tail) == prepend(more, run_stream(opts, s2, tail)));
    assert(g.content =~= content);
    if checksum {
        lemma_le_bytes(checksum32(content) as nat, 4);
        lemma_field(none, tail, none);
        assert(none + tail + none =~= tail);
    }
    reveal(step_footer);
    law_step_at_end(opts, s2, tail);
    let used: int = if checksum {
        4
    } else {
        0
    };
    assert(tail.skip(used) =~= none);
    let s3 = StreamView { phase: PhaseView::FrameStart, total: content.len() };
    assert(run_stream(opts, s2, tail) == prepend(none, run_stream(opts, s3, none)));
    law_step_at_end(opts, s3, none);
    assert(none + none =~= none);
    assert(content + none =~= content);
    assert(none + content =~= content);
}

/// No block that is made is larger than what the reader accepts.
pub proof fn lemma_block_sizes(window_log: u32, pledged: u64)
    requires
        10 <= window_log <= 31,
        pledged > 0,
    ensures
        spec_block_size_max(window_log, Some(pledged)) <= reader_block_max(
            window_log,
            Some(pledged),
        ),
{
    lemma2_to64();
    if window_log < 31 {
        lemma_pow2_strictly_increases(window_log as nat, 31);
    }
}

/// Compresses `src` at `level`. The frame says the size of its content, and
/// decompressing it, at once or as a stream, gives `src` back. Buffers of 4 GiB
/// are refused.
pub fn compress(src: &[u8], level: i32) -> (r: Result<Vec<u8>, Error>)
    ensures
        r is Err <==> too_long(src@.len()),
        r matches Err(e) ==> e == Error::Encode("inputs >= 4 GiB are not supported yet"),
        r matches Ok(out) ==> {
            &&& spec_decompress(default_options(), out@) == Ok::<Seq<u8>, Error>(src@)
            &&& run_stream(default_options(), initial_stream(), out@) == Ok::<Seq<u8>, Error>(
                src@,
            )
            &&& starts_frame(
                out@,
                spec_cparams(level as int, src@.len(), 0, CParamMode::NoAttachDict).window_log,
                src@.len(),
                0,
            )
            &&& out@ == frame_bytes(
                src@,
                spec_cparams(level as int, src@.len(), 0, CParamMode::NoAttachDict),
            )
        },
{
    let n: usize = src.len();
    if n as u64 >= 0xFFFF_FFFD {
        return Err(Error::Encode("inputs >= 4 GiB are not supported yet"));
    }
    let cparams = get_cparams(level, n as u64, 0);
    compress_plain(src, cparams)
}

/// A frame's first recent offsets are within any window.
pub proof fn lemma_fresh_near(window_log: u32)
    requires
        10 <= window_log,
    ensures
        near_offsets(fresh_ctx().rep, pow2(window_log as nat)),
{
    lemma2_to64();
    if window_log > 10 {
        lemma_pow2_strictly_increases(10, window_log as nat);
    }
}

/// Compresses `src` with given parameters.
pub fn compress_plain(src: &[u8], cparams: CParams) -> (r: Result<Vec<u8>, Error>)
    requires
        src@.len() <= u32::MAX,
        cparams.wf(),
    ensures
        r matches Ok(out) && {
            &&& spec_decompress(default_options(), out@) == Ok::<Seq<u8>, Error>(src@)
            &&& run_stream(default_options(), initial_stream(), out@) == Ok::<Seq<u8>, Error>(
                src@,
            )
            &&& starts_frame(out@, cparams.window_log, src@.len(), 0)
            &&& out@ == frame_bytes(src@, cparams)
        },
{
    let n: usize = src.len();
    let pledged = Some(n as u64);
    let ghost bm = reader_block_max(cparams.window_log, pledged);
    let rep: [u32; 3] = [1, 4, 8];
    proof {
        lemma_fresh_near(cparams.window_log);
        reveal(frame_bytes);
        assert(rep@ =~= first_offsets());
    }
    let mut fc = FrameCompressor::from_cparams(
        cparams,
        pledged,
        false,
        rep,
        Ghost(fresh_ctx()),
        Ghost(Seq::empty()),
        Ghost(bm),
    );
    let ghost head = fc.head_bytes();
    let mut out: Vec<u8> = Vec::new();
    proof {
        if n > 0 {
            lemma_block_sizes(cparams.window_log, n as u64);
        }
        assert(src@.take(0) =~= Seq::<u8>::empty());
        assert(Seq::<u8>::empty().skip(0) =~= Seq::<u8>::empty());
        assert(Seq::<u8>::empty() + src@ =~= src@);
        assert(src@.subrange(0, n as int) =~= src@);
    }
    let bytes = match fc.compress_end(&mut out, src, 0, n) {
        Ok(b) => b,
        Err(e) => {
            return Err(e);
        },
    };
    proof {
        lemma_frame(
            default_options(),
            cparams.window_log,
            pledged,
            false,
            0,
            None,
            bytes@,
            fc.ctx@,
            src@,
            pow2(cparams.window_log as nat),
        );
        lemma_frame_streams(
            default_options(),
            cparams.window_log,
            pledged,
            false,
            bytes@,
            fc.ctx@,
            src@,
        );
        assert(Seq::<u8>::empty() + head =~= head);
        assert(out@.take(head.len() as int) =~= head);
        assert(out@ =~= frame_bytes(src@, cparams));
    }
    Ok(out)
}

} // verus!
