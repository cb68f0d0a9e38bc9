//! What the one-shot decoder decodes, a stream decodes to the same bytes where
//! its window holds all of the history.

use crate::block::CtxView;
use crate::decompress::{
    spec_block, spec_blocks, spec_decompress, spec_frame, spec_frame_end, spec_frames, OptionsView, ZSTD_MAGIC,
};
use crate::dictionary::le32;
use crate::error::Error;
use crate::frame::{lemma_header_len, spec_parse};
use crate::stream::{
    initial_stream, law_step_at_end, opened_frame, prepend, run_stream, step_block, step_footer, step_frame_start,
    trim, FrameStateView, PhaseView, Step, StreamView,
};
use crate::stream_laws::{lemma_block_prefix, lemma_block_room, lemma_ctx_positive, rep_positive, same_frame};
use vstd::prelude::*;

verus! {

/// The blocks at the start of `input` decode, and before the last of them all
/// of the history fits in `window`.
pub open spec fn blocks_fit(ctx: CtxView, input: Seq<u8>, hist: Seq<u8>, block_max: nat, window: nat) -> bool
    decreases input.len(),
{
    match spec_block(ctx, input, hist, block_max, usize::MAX - hist.len()) {
        Err(_) => false,
        Ok(b) => {
            let rest = input.skip(b.used as int);
            b.last || (b.hist.len() <= window && rest.len() < input.len() && blocks_fit(
                b.ctx,
                rest,
                b.hist,
                block_max,
                window,
            ))
        },
    }
}

/// In each frame of `src`, the dictionary and what comes before the frame's
/// last block fit in the frame's window. `before` bytes have been produced.
pub open spec fn frames_fit(opts: OptionsView, src: Seq<u8>, before: nat) -> bool
    decreases src.len(),
{
    if src.len() < 4 {
        true
    } else if le32(src, 0) != ZSTD_MAGIC {
        src.len() >= 8 + le32(src, 4) ==> frames_fit(opts, src.skip(8 + le32(src, 4) as int), before)
    } else {
        match (spec_parse(src.skip(4), opts.window_log_max), spec_frame(opts, src.skip(4), before)) {
            (Ok(h), Ok((content, rest))) => {
                &&& opened_frame(opts, h) matches Ok(f) && blocks_fit(
                    f.ctx,
                    src.skip(4 + h.header_len as int),
                    f.win,
                    f.block_max,
                    f.window,
                )
                &&& rest.len() < src.len() ==> frames_fit(opts, rest, before + content.len())
            },
            _ => true,
        }
    }
}

/// The rest of a frame's blocks, in both decoders, where nothing is dropped.
#[verifier::rlimit(30)]
proof fn lemma_blocks_stream(
    opts: OptionsView,
    f: FrameStateView,
    total: nat,
    input: Seq<u8>,
    base: nat,
    room: int,
) -> (r: (FrameStateView, Seq<u8>, Seq<u8>))
    requires
        rep_positive(f.ctx.rep),
        base <= f.win.len() <= usize::MAX,
        total <= opts.limit,
        room - (f.win.len() - base) == opts.limit - total,
        spec_blocks(f.ctx, input, f.win, f.block_max, base, room) is Ok,
        blocks_fit(f.ctx, input, f.win, f.block_max, f.window),
    ensures
        ({
            let (g, more, rest) = r;
            &&& spec_blocks(f.ctx, input, f.win, f.block_max, base, room) == Ok::<
                (Seq<u8>, Seq<u8>),
                Error,
            >((f.win + more, rest))
            &&& same_frame(f, g, more)
            &&& rest.len() < input.len()
            &&& total + more.len() <= opts.limit
            &&& run_stream(
                opts,
                StreamView { phase: PhaseView::Blocks(f), total },
                input,
            ) == prepend(
                more,
                run_stream(
                    opts,
                    StreamView { phase: PhaseView::Footer(g), total: total + more.len() },
                    rest,
                ),
            )
        }),
    decreases input.len(),
{
    let s = StreamView { phase: PhaseView::Blocks(f), total };
    let none = Seq::<u8>::empty();
    let all = usize::MAX - f.win.len();
    let left = opts.limit - total;
    let a = spec_block(f.ctx, input, f.win, f.block_max, all)->Ok_0;
    assert(none + f.win =~= f.win);
    lemma_block_room(f.ctx, input, f.win, f.block_max, left);
    if all <= left {
        lemma_block_room(f.ctx, input, f.win, f.block_max, all);
        lemma_block_prefix(f.ctx, input, none, f.win, f.block_max, all, left);
    } else {
        lemma_block_prefix(f.ctx, input, none, f.win, f.block_max, left, all);
    }
    let b = spec_block(f.ctx, input, f.win, f.block_max, left)->Ok_0;
    assert(none + a.hist =~= a.hist);
    assert(none + b.hist =~= b.hist);
    assert(a.hist == b.hist && a.ctx == b.ctx && a.used == b.used && a.last == b.last);
    let fresh = a.hist.skip(f.win.len() as int);
    assert(a.hist =~= f.win + fresh);
    let g = FrameStateView {
        ctx: a.ctx,
        win: trim(a.hist, f.window),
        content: f.content + fresh,
        ..f
    };
    let rest = input.skip(a.used as int);
    law_step_at_end(opts, s, input);
    lemma_block_step(opts, f, total, input);
    if a.last {
        (g, fresh, rest)
    } else {
        let s1 = StreamView { phase: PhaseView::Blocks(g), total: total + fresh.len() };
        assert(g.win == a.hist);
        let (g1, more, rest1) = lemma_blocks_stream(opts, g, total + fresh.len(), rest, base, room);
        let tail = run_stream(
            opts,
            StreamView { phase: PhaseView::Footer(g1), total: total + fresh.len() + more.len() },
            rest1,
        );
        if tail is Ok {
            assert(fresh + (more + tail->Ok_0) =~= (fresh + more) + tail->Ok_0);
        }
        assert(prepend(fresh, prepend(more, tail)) == prepend(fresh + more, tail));
        assert(f.win + (fresh + more) =~= a.hist + more);
        assert(f.content + fresh + more =~= f.content + (fresh + more));
        (g1, fresh + more, rest1)
    }
}

/// A stream takes a block that decodes on its history.
proof fn lemma_block_step(opts: OptionsView, f: FrameStateView, total: nat, input: Seq<u8>)
    requires
        spec_block(f.ctx, input, f.win, f.block_max, usize::MAX - f.win.len()) matches Ok(b) && total
            + b.hist.skip(f.win.len() as int).len() <= opts.limit,
    ensures
        ({
            let b = spec_block(f.ctx, input, f.win, f.block_max, usize::MAX - f.win.len())->Ok_0;
            let fresh = b.hist.skip(f.win.len() as int);
            let g = FrameStateView {
                ctx: b.ctx,
                win: trim(b.hist, f.window),
                content: f.content + fresh,
                ..f
            };
            step_block(opts, f, total, input, true) == Step::Go {
                state: StreamView {
                    phase: if b.last {
                        PhaseView::Footer(g)
                    } else {
                        PhaseView::Blocks(g)
                    },
                    total: total + fresh.len(),
                },
                used: b.used,
                out: fresh,
            }
        }),
{
    reveal(spec_block);
    reveal(step_block);
}

/// A stream passes over the payload of a skippable frame.
proof fn lemma_skip_stream(opts: OptionsView, left: nat, input: Seq<u8>, total: nat)
    requires
        left <= input.len(),
    ensures
        run_stream(opts, StreamView { phase: PhaseView::Skippable(left), total }, input) == run_stream(
            opts,
            StreamView { phase: PhaseView::FrameStart, total },
            input.skip(left as int),
        ),
{
    let none = Seq::<u8>::empty();
    let s = StreamView { phase: PhaseView::Skippable(left), total };
    let rest = input.skip(left as int);
    law_step_at_end(opts, s, input);
    if left > 0 {
        law_step_at_end(opts, StreamView { phase: PhaseView::Skippable(0), total }, rest);
    }
    assert(rest.skip(0) =~= rest);
    assert(input.skip(0) =~= input);
    lemma_prepend_none(run_stream(opts, StreamView { phase: PhaseView::FrameStart, total }, rest));
    lemma_prepend_none(run_stream(opts, StreamView { phase: PhaseView::Skippable(0), total }, rest));
}

proof fn lemma_prepend_none(r: Result<Seq<u8>, Error>)
    ensures
        prepend(Seq::empty(), r) == r,
{
    if r is Ok {
        assert(Seq::<u8>::empty() + r->Ok_0 =~= r->Ok_0);
    }
}

/// The frames of `input`, in both decoders, where nothing is dropped.
#[verifier::rlimit(50)]
proof fn lemma_frames_stream(opts: OptionsView, input: Seq<u8>, out: Seq<u8>)
    requires
        opts.dictionary matches Some(d) ==> d.ctx.wf() && d.content.len() <= usize::MAX,
        out.len() <= opts.limit,
        spec_frames(opts, input, out) is Ok,
        frames_fit(opts, input, out.len()),
    ensures
        prepend(
            out,
            run_stream(opts, StreamView { phase: PhaseView::FrameStart, total: out.len() }, input),
        ) == spec_frames(opts, input, out),
    decreases input.len(),
{
    reveal(step_frame_start);
    let s = StreamView { phase: PhaseView::FrameStart, total: out.len() };
    let none = Seq::<u8>::empty();
    law_step_at_end(opts, s, input);
    if input.len() == 0 {
        assert(out + none =~= out);
    } else if le32(input, 0) == ZSTD_MAGIC {
        reveal(spec_frame);
        let src = input.skip(4);
        lemma_header_len(src, opts.window_log_max);
        let h = spec_parse(src, opts.window_log_max)->Ok_0;
        let f = opened_frame(opts, h)->Ok_0;
        let prefix = f.win;
        lemma_ctx_positive(opts, h.dict_id);
        let body = src.skip(h.header_len as int);
        assert(input.skip(4 + h.header_len as int) =~= body);
        let s1 = StreamView { phase: PhaseView::Blocks(f), total: out.len() };
        lemma_prepend_none(run_stream(opts, s1, body));
        let (g, more, rest) = lemma_blocks_stream(
            opts,
            f,
            out.len(),
            body,
            prefix.len(),
            opts.limit - out.len(),
        );
        assert((prefix + more).skip(prefix.len() as int) =~= more);
        assert(g.content =~= more);
        let s2 = StreamView { phase: PhaseView::Footer(g), total: out.len() + more.len() };
        law_step_at_end(opts, s2, rest);
        reveal(step_footer);
        assert(rest.skip(0) =~= rest);
        let rest1 = spec_frame_end(h, more, rest)->Ok_0;
        let s3 = StreamView { phase: PhaseView::FrameStart, total: out.len() + more.len() };
        let run3 = run_stream(opts, s3, rest1);
        lemma_prepend_none(run3);
        assert(run_stream(opts, s2, rest) == run3);
        assert(run_stream(opts, s, input) == prepend(more, run3));
        assert(spec_frame(opts, src, out.len()) == Ok::<(Seq<u8>, Seq<u8>), Error>((more, rest1)));
        assert((out + more).len() == out.len() + more.len());
        lemma_frames_stream(opts, rest1, out + more);
        if run3 is Ok {
            assert((out + more) + run3->Ok_0 =~= out + (more + run3->Ok_0));
        }
    } else {
        let size = le32(input, 4);
        let rest = input.skip(8 + size as int);
        assert(input.skip(8).skip(size as int) =~= rest);
        lemma_skip_stream(opts, size, input.skip(8), out.len());
        lemma_prepend_none(
            run_stream(opts, StreamView { phase: PhaseView::FrameStart, total: out.len() }, rest),
        );
        lemma_frames_stream(opts, rest, out);
    }
}

/// What decompresses at once decompresses as a stream to the same bytes, as
/// long as each frame's window has room for its dictionary and all of its
/// content before its last block. A frame of one block needs no such room.
pub proof fn law_a_window_that_holds_all_loses_nothing(opts: OptionsView, input: Seq<u8>)
    requires
        opts.dictionary matches Some(d) ==> d.ctx.wf() && d.content.len() <= usize::MAX,
        spec_decompress(opts, input) is Ok,
        frames_fit(opts, input, 0),
    ensures
        run_stream(opts, initial_stream(), input) == spec_decompress(opts, input),
{
    lemma_frames_stream(opts, input, Seq::empty());
    lemma_prepend_none(run_stream(opts, initial_stream(), input));
}

} // verus!
