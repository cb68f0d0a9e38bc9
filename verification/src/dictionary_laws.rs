//! What a dictionary that a frame does not need changes: nothing.

use crate::block::{fresh_ctx, CtxView};
use crate::decompress::{
    block_max_of, spec_block, spec_blocks, spec_decompress, spec_frame, spec_frames, OptionsView, SKIPPABLE_MAGIC,
    ZSTD_MAGIC,
};
use crate::dictionary::{le32, raw_dict};
use crate::error::Error;
use crate::frame::{lemma_header_len, spec_parse};
use crate::stream_laws::{lemma_block_prefix, lemma_block_room, lemma_blocks_bounded, rep_positive};
use vstd::prelude::*;

verus! {

/// Blocks that decode decode to the same when there is more history.
proof fn lemma_blocks_prefix(
    ctx: CtxView,
    input: Seq<u8>,
    p: Seq<u8>,
    hist: Seq<u8>,
    block_max: nat,
    base: nat,
    room: int,
)
    requires
        rep_positive(ctx.rep),
        hist.len() - base <= room,
        spec_blocks(ctx, input, hist, block_max, base, room) is Ok,
    ensures
        ({
            let (h, rest) = spec_blocks(ctx, input, hist, block_max, base, room)->Ok_0;
            &&& spec_blocks(ctx, input, p + hist, block_max, p.len() + base, room) == Ok::<
                (Seq<u8>, Seq<u8>),
                Error,
            >((p + h, rest))
            &&& rest.len() <= input.len()
        }),
    decreases input.len(),
{
    let left = room - (hist.len() - base);
    lemma_block_room(ctx, input, hist, block_max, left);
    lemma_block_prefix(ctx, input, p, hist, block_max, left, left);
    let b = spec_block(ctx, input, hist, block_max, left)->Ok_0;
    let rest = input.skip(b.used as int);
    if !b.last {
        lemma_blocks_prefix(b.ctx, rest, p, b.hist, block_max, base, room);
    }
}

/// The frames of `src` decode to the same with a raw dictionary.
proof fn lemma_frames_prefix(opts: OptionsView, src: Seq<u8>, out: Seq<u8>, content: Seq<u8>)
    requires
        opts.dictionary is None,
        out.len() <= opts.limit,
        spec_frames(opts, src, out) is Ok,
    ensures
        spec_frames(
            OptionsView { dictionary: Some(raw_dict(content)), ..opts },
            src,
            out,
        ) == spec_frames(opts, src, out),
    decreases src.len(),
{
    let with = OptionsView { dictionary: Some(raw_dict(content)), ..opts };
    if src.len() >= 4 {
        let magic = le32(src, 0);
        if magic == ZSTD_MAGIC {
            let frame = src.skip(4);
            reveal(spec_frame);
            lemma_header_len(frame, opts.window_log_max);
            let h = spec_parse(frame, opts.window_log_max)->Ok_0;
            let body = frame.skip(h.header_len as int);
            let none = Seq::<u8>::empty();
            let bm = block_max_of(h.window_size);
            let room = opts.limit - out.len();
            lemma_blocks_prefix(fresh_ctx(), body, content, none, bm, 0, room);
            lemma_blocks_bounded(fresh_ctx(), body, none, bm, 0, room);
            assert(content + none =~= content);
            let (hist, rest) = spec_blocks(fresh_ctx(), body, none, bm, 0, room)->Ok_0;
            assert(hist.skip(0) =~= hist);
            assert((content + hist).skip(content.len() as int) =~= hist);
            assert(spec_frame(with, frame, out.len()) == spec_frame(opts, frame, out.len()));
            let (got, after) = spec_frame(opts, frame, out.len())->Ok_0;
            if after.len() < src.len() {
                lemma_frames_prefix(opts, after, out + got, content);
            }
        } else if magic / 16 == SKIPPABLE_MAGIC / 16 {
            let size = le32(src, 4);
            if src.len() >= 8 + size {
                lemma_frames_prefix(opts, src.skip(8 + size as int), out, content);
            }
        }
    }
}

/// What decompresses without a dictionary decompresses to the same with any
/// raw-content dictionary.
pub proof fn law_raw_dictionary_changes_nothing(opts: OptionsView, src: Seq<u8>, content: Seq<u8>)
    requires
        opts.dictionary is None,
        spec_decompress(opts, src) is Ok,
    ensures
        spec_decompress(
            OptionsView { dictionary: Some(raw_dict(content)), ..opts },
            src,
        ) == spec_decompress(opts, src),
{
    lemma_frames_prefix(opts, src, Seq::empty(), content);
}

} // verus!
