//! What an output limit refuses: everything that needs more than it, as too
//! large.

use crate::block::{
    exec_sequences, section_tables, sequence_count, spec_compressed_block, spec_copy, spec_decode_sequences,
    spec_literals, spec_sequences_section, CtxView, SequenceView,
};
use crate::decompress::{
    block_max_of, dict_content, dict_ctx, resolve_dictionary, spec_block, spec_blocks, spec_decompress, spec_frame,
    spec_frames, OptionsView, ZSTD_MAGIC,
};
use crate::decompress_laws::{
    dictionary_sound, lemma_blocks_longer, lemma_frame_room, lemma_frames_longer, lemma_frames_more,
    lemma_frames_room,
};
use crate::dictionary::le32;
use crate::error::Error;
use crate::frame::{lemma_header_len, spec_parse};
use crate::stream_laws::{lemma_block_prefix, lemma_block_room, lemma_ctx_positive, rep_positive};
use vstd::prelude::*;

verus! {

/// Sequences that execute in more room are refused in less only as too large,
/// and alike if they fit.
proof fn lemma_exec_short(
    seqs: Seq<SequenceView>,
    i: nat,
    literals: Seq<u8>,
    lit_pos: nat,
    h: Seq<u8>,
    h0: nat,
    block_max: nat,
    room: int,
    room2: int,
)
    requires
        exec_sequences(seqs, i, literals, lit_pos, h, h0, block_max, room) is Ok,
    ensures
        ({
            let less = exec_sequences(seqs, i, literals, lit_pos, h, h0, block_max, room2);
            less == exec_sequences(seqs, i, literals, lit_pos, h, h0, block_max, room) || less == Err::<
                (Seq<u8>, nat),
                Error,
            >(Error::OutputTooLarge)
        }),
    decreases seqs.len() - i,
{
    if i < seqs.len() {
        let q = seqs[i as int];
        let h1 = h + literals.subrange(lit_pos as int, (lit_pos + q.lit_len) as int);
        let h2 = spec_copy(h1, q.offset, q.match_len);
        lemma_exec_short(seqs, i + 1, literals, lit_pos + q.lit_len, h2, h0, block_max, room, room2);
    }
}

/// A block that decodes in more room is refused as too large in less than it
/// needs.
pub proof fn lemma_block_short(
    ctx: CtxView,
    input: Seq<u8>,
    hist: Seq<u8>,
    block_max: nat,
    room: int,
    room2: int,
)
    requires
        spec_block(ctx, input, hist, block_max, room) matches Ok(b) && b.hist.len() - hist.len() > room2,
    ensures
        spec_block(ctx, input, hist, block_max, room2) == Err::<crate::decompress::BlockStep, Error>(
            Error::OutputTooLarge,
        ),
{
    reveal(spec_block);
    reveal(spec_compressed_block);
    let raw = crate::decompress::block_header(input);
    let ty = (raw / 2) % 4;
    let size = raw / 8;
    if ty == 2 {
        let src = input.subrange(3, 3 + size as int);
        let l = spec_literals(ctx.huffman, src, block_max)->Ok_0;
        lemma_section_short(
            CtxView { huffman: l.huffman, ..ctx },
            src.skip(l.used as int),
            l.literals,
            hist,
            block_max,
            room,
            room2,
        );
    }
}

proof fn lemma_section_short(
    ctx: CtxView,
    src: Seq<u8>,
    literals: Seq<u8>,
    hist: Seq<u8>,
    block_max: nat,
    room: int,
    room2: int,
)
    requires
        spec_sequences_section(ctx, src, literals, hist, block_max, room) matches Ok((c1, h1))
            && h1.len() - hist.len() > room2,
    ensures
        spec_sequences_section(ctx, src, literals, hist, block_max, room2) == Err::<
            (CtxView, Seq<u8>),
            Error,
        >(Error::OutputTooLarge),
{
    reveal(spec_sequences_section);
    let (count, pos) = sequence_count(src)->Ok_0;
    if count > 0 {
        let input = src.skip(pos as int + 1);
        let (t, used) = section_tables(ctx, src[pos as int], input)->Ok_0;
        let (seqs, c) = spec_decode_sequences(t, input.skip(used as int), ctx.rep, count)->Ok_0;
        lemma_exec_short(seqs, 0, literals, 0, hist, hist.len(), block_max, room, room2);
    }
}

/// Blocks that decode in more room are refused as too large in less than they
/// need.
proof fn lemma_blocks_short(
    ctx: CtxView,
    input: Seq<u8>,
    hist: Seq<u8>,
    block_max: nat,
    base: nat,
    room: int,
    room2: int,
)
    requires
        rep_positive(ctx.rep),
        base <= hist.len(),
        hist.len() - base <= room,
        spec_blocks(ctx, input, hist, block_max, base, room) matches Ok((h, _)) && h.len() - base
            > room2,
    ensures
        spec_blocks(ctx, input, hist, block_max, base, room2) == Err::<(Seq<u8>, Seq<u8>), Error>(
            Error::OutputTooLarge,
        ),
    decreases input.len(),
{
    let left = room - (hist.len() - base);
    let left2 = room2 - (hist.len() - base);
    let none = Seq::<u8>::empty();
    assert(none + hist =~= hist);
    lemma_block_room(ctx, input, hist, block_max, left);
    lemma_block_prefix(ctx, input, none, hist, block_max, left, left);
    let b = spec_block(ctx, input, hist, block_max, left)->Ok_0;
    if b.hist.len() - hist.len() > left2 {
        lemma_block_short(ctx, input, hist, block_max, left, left2);
    } else {
        lemma_block_prefix(ctx, input, none, hist, block_max, left, left2);
        assert(none + b.hist =~= b.hist);
        let rest = input.skip(b.used as int);
        if !b.last {
            lemma_blocks_short(b.ctx, rest, b.hist, block_max, base, room, room2);
        }
    }
}

/// A frame that is too large for what a limit leaves.
proof fn lemma_frame_short(opts: OptionsView, limit: nat, src: Seq<u8>, before: nat, before2: nat)
    requires
        dictionary_sound(opts),
        before <= opts.limit,
        before2 <= limit,
        spec_frame(opts, src, before) matches Ok((content, _)) && before2 + content.len() > limit,
    ensures
        spec_frame(OptionsView { limit, ..opts }, src, before2) == Err::<(Seq<u8>, Seq<u8>), Error>(
            Error::OutputTooLarge,
        ),
{
    reveal(spec_frame);
    lemma_header_len(src, opts.window_log_max);
    let h = spec_parse(src, opts.window_log_max)->Ok_0;
    let d = resolve_dictionary(opts.dictionary, h.dict_id)->Ok_0;
    lemma_ctx_positive(opts, h.dict_id);
    let prefix = dict_content(d);
    let body = src.skip(h.header_len as int);
    let bm = block_max_of(h.window_size);
    lemma_blocks_longer(dict_ctx(d), body, prefix, bm, prefix.len(), opts.limit - before);
    lemma_blocks_short(
        dict_ctx(d),
        body,
        prefix,
        bm,
        prefix.len(),
        opts.limit - before,
        limit - before2,
    );
}

/// Frames that need more than a limit leaves are refused as too large.
pub proof fn lemma_frames_short(opts: OptionsView, limit: nat, src: Seq<u8>, out: Seq<u8>, out2: Seq<u8>)
    requires
        dictionary_sound(opts),
        out.len() <= opts.limit,
        out2.len() <= limit,
        spec_frames(opts, src, out) matches Ok(v) && v.len() - out.len() + out2.len() > limit,
    ensures
        spec_frames(OptionsView { limit, ..opts }, src, out2) == Err::<Seq<u8>, Error>(
            Error::OutputTooLarge,
        ),
    decreases src.len(),
{
    if src.len() > 0 {
        if le32(src, 0) == ZSTD_MAGIC {
            let frame = src.skip(4);
            let (content, rest) = spec_frame(opts, frame, out.len())->Ok_0;
            lemma_frame_room(opts, opts.limit + content.len(), frame, out.len(), opts.limit);
            if out2.len() + content.len() > limit {
                lemma_frame_short(opts, limit, frame, out.len(), out2.len());
            } else {
                lemma_frame_room(opts, limit, frame, out.len(), out2.len());
                lemma_frames_short(opts, limit, rest, out + content, out2 + content);
            }
        } else {
            let size = le32(src, 4);
            lemma_frames_short(opts, limit, src.skip(8 + size as int), out, out2);
        }
    }
}

/// A limit only refuses: what decompresses within one limit decompresses to
/// the same within any that holds it, and is refused as too large within any
/// that does not.
pub proof fn law_limit_only_refuses(opts: OptionsView, limit: nat, src: Seq<u8>)
    requires
        dictionary_sound(opts),
    ensures
        spec_decompress(opts, src) matches Ok(v) ==> {
            &&& v.len() <= opts.limit
            &&& spec_decompress(OptionsView { limit, ..opts }, src) == if v.len() <= limit {
                Ok::<Seq<u8>, Error>(v)
            } else {
                Err(Error::OutputTooLarge)
            }
        },
{
    let none = Seq::<u8>::empty();
    if spec_decompress(opts, src) is Ok {
        let v = spec_decompress(opts, src)->Ok_0;
        lemma_frames_longer(opts, src, none);
        assert(none + v.skip(0) =~= v);
        if v.len() <= limit {
            lemma_frames_room(opts, limit, src, none, none);
        } else {
            lemma_frames_short(opts, limit, src, none, none);
        }
    }
}

/// Frames one after another decompress to their contents one after another.
/// Where the limit does not hold both they are refused as too large, and where
/// the second part does not decompress by itself, neither do both. Up to three
/// bytes left over are too few. Nothing decompresses to nothing.
pub proof fn law_frames_follow_each_other(opts: OptionsView, a: Seq<u8>, b: Seq<u8>)
    requires
        dictionary_sound(opts),
    ensures
        spec_decompress(opts, Seq::empty()) == Ok::<Seq<u8>, Error>(Seq::empty()),
        spec_decompress(opts, a) matches Ok(x) ==> {
            &&& match spec_decompress(opts, b) {
                Ok(y) => spec_decompress(opts, a + b) == if x.len() + y.len() <= opts.limit {
                    Ok::<Seq<u8>, Error>(x + y)
                } else {
                    Err(Error::OutputTooLarge)
                },
                Err(_) => spec_decompress(opts, a + b) is Err,
            }
            &&& 1 <= b.len() <= 3 ==> spec_decompress(opts, a + b) == Err::<Seq<u8>, Error>(
                Error::SrcSizeWrong,
            )
        },
{
    let none = Seq::<u8>::empty();
    if spec_decompress(opts, a) is Ok {
        let x = spec_decompress(opts, a)->Ok_0;
        lemma_frames_longer(opts, a, none);
        lemma_frames_more(opts, a, b, none);
        if spec_decompress(opts, b) is Ok {
            let y = spec_decompress(opts, b)->Ok_0;
            if x.len() + y.len() <= opts.limit {
                lemma_frames_room(opts, opts.limit, b, none, x);
                assert(y.skip(0) =~= y);
            } else {
                lemma_frames_short(opts, opts.limit, b, none, x);
            }
        } else if spec_decompress(opts, a + b) is Ok {
            lemma_frames_longer(opts, b, x);
            lemma_frames_room(opts, opts.limit, b, x, none);
        }
    }
}

} // verus!
