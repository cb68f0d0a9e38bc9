//! What the streaming decoder accepts, the one-shot decoder decodes to the
//! same bytes.

use crate::block::{
    decode_sequences, exec_sequences, lemma_copy_extends, sequence_fields, spec_compressed_block, spec_copy,
    spec_decode_sequences, spec_literals, spec_resolve, spec_sequences_section, CtxView, RepView, SeqCursor,
    SeqTables, SequenceView,
};
use crate::decompress::{
    dict_content, dict_ctx, resolve_dictionary, spec_block, spec_blocks, spec_decompress, spec_frame, spec_frame_end,
    spec_frames, OptionsView,
};
use crate::dictionary::le32;
use crate::error::Error;
use crate::frame::{lemma_header_len, spec_parse};
use crate::stream::{
    initial_stream, law_step_at_end, opened_frame, prepend, run_stream, step_block, step_footer, step_frame_start,
    trim, FrameStateView, PhaseView, StreamView,
};
use vstd::arithmetic::power2::lemma_pow2_pos;
use vstd::prelude::*;

verus! {

pub open spec fn rep_positive(rep: RepView) -> bool {
    rep.r0 >= 1 && rep.r1 >= 1 && rep.r2 >= 1
}

/// A match that starts inside `h` copies the same bytes whatever precedes `h`.
pub proof fn lemma_copy_prefix(p: Seq<u8>, h: Seq<u8>, offset: nat, len: nat)
    requires
        1 <= offset <= h.len(),
    ensures
        spec_copy(p + h, offset, len) == p + spec_copy(h, offset, len),
    decreases len,
{
    if len > 0 {
        let b = h[h.len() - offset];
        assert((p + h)[(p + h).len() - offset] == b);
        assert((p + h).push(b) =~= p + h.push(b));
        lemma_copy_prefix(p, h.push(b), offset, (len - 1) as nat);
    }
}

proof fn lemma_resolve_positive(of_value: nat, lit_len: nat, rep: RepView)
    requires
        rep_positive(rep),
        of_value >= 1,
    ensures
        spec_resolve(of_value, lit_len, rep) matches Ok((o, r)) ==> o >= 1 && rep_positive(r),
{
}

/// Decoded offsets are positive.
proof fn lemma_offsets_positive(
    t: SeqTables,
    data: Seq<u8>,
    c: SeqCursor,
    left: nat,
    done: Seq<SequenceView>,
)
    requires
        rep_positive(c.rep),
        forall|i: int| 0 <= i < done.len() ==> (#[trigger] done[i]).offset >= 1,
    ensures
        decode_sequences(t, data, c, left, done) matches Ok((seqs, c1)) ==> rep_positive(c1.rep)
            && forall|i: int| 0 <= i < seqs.len() ==> (#[trigger] seqs[i]).offset >= 1,
    decreases left,
{
    if left > 0 {
        let (of_value, match_len, lit_len, rem) = sequence_fields(t, data, c);
        lemma_pow2_pos(t.of.symbol(c.of) as nat);
        lemma_resolve_positive(of_value, lit_len, c.rep);
        match spec_resolve(of_value, lit_len, c.rep) {
            Err(_) => {},
            Ok((offset, rep)) => {
                let c1 = if left > 1 {
                    crate::block::advance_states(t, data, c, rem, rep)
                } else {
                    SeqCursor { rem, rep, ..c }
                };
                let more = done.push(SequenceView { lit_len, offset, match_len });
                lemma_offsets_positive(t, data, c1, (left - 1) as nat, more);
            },
        }
    }
}

/// Executing sequences leaves the history longer.
proof fn lemma_exec_grows(
    seqs: Seq<SequenceView>,
    i: nat,
    literals: Seq<u8>,
    lit_pos: nat,
    h: Seq<u8>,
    h0: nat,
    block_max: nat,
    room: int,
)
    ensures
        exec_sequences(seqs, i, literals, lit_pos, h, h0, block_max, room) matches Ok((h1, lp))
            ==> h1.len() >= h.len() && h1.take(h.len() as int) == h && lit_pos <= lp,
    decreases seqs.len() - i,
{
    if i < seqs.len() {
        let q = seqs[i as int];
        let h1 = h + literals.subrange(lit_pos as int, (lit_pos + q.lit_len) as int);
        let h2 = spec_copy(h1, q.offset, q.match_len);
        if lit_pos + q.lit_len <= literals.len() {
            lemma_copy_extends(h1, q.offset, q.match_len);
            lemma_exec_grows(
                seqs,
                i + 1,
                literals,
                lit_pos + q.lit_len,
                h2,
                h0,
                block_max,
                room,
            );
            match exec_sequences(
                seqs,
                i + 1,
                literals,
                lit_pos + q.lit_len,
                h2,
                h0,
                block_max,
                room,
            ) {
                Ok((h3, _)) => {
                    assert(h3.take(h.len() as int) =~= h3.take(h2.len() as int).take(
                        h1.len() as int,
                    ).take(h.len() as int));
                    assert(h1.take(h.len() as int) =~= h);
                },
                Err(_) => {},
            }
        }
    } else {
        assert(h.take(h.len() as int) =~= h);
    }
}

/// Sequences that execute on a history execute alike with more history before
/// it, as long as the output limit has room.
proof fn lemma_exec_prefix(
    seqs: Seq<SequenceView>,
    i: nat,
    literals: Seq<u8>,
    lit_pos: nat,
    p: Seq<u8>,
    h: Seq<u8>,
    h0: nat,
    block_max: nat,
    room: int,
    room2: int,
)
    requires
        forall|i: int| 0 <= i < seqs.len() ==> (#[trigger] seqs[i]).offset >= 1,
        exec_sequences(seqs, i, literals, lit_pos, h, h0, block_max, room) matches Ok((h1, lp))
            && h1.len() - h0 <= room2,
    ensures
        exec_sequences(
            seqs,
            i,
            literals,
            lit_pos,
            p + h,
            p.len() + h0,
            block_max,
            room2,
        ) == Ok::<(Seq<u8>, nat), Error>(
            (
                p + exec_sequences(
                    seqs,
                    i,
                    literals,
                    lit_pos,
                    h,
                    h0,
                    block_max,
                    room,
                )->Ok_0.0,
                exec_sequences(seqs, i, literals, lit_pos, h, h0, block_max, room)->Ok_0.1,
            ),
        ),
    decreases seqs.len() - i,
{
    if i < seqs.len() {
        let q = seqs[i as int];
        let piece = literals.subrange(lit_pos as int, (lit_pos + q.lit_len) as int);
        let h1 = h + piece;
        let h2 = spec_copy(h1, q.offset, q.match_len);
        assert((p + h) + piece =~= p + h1);
        lemma_copy_prefix(p, h1, q.offset, q.match_len);
        lemma_copy_extends(h1, q.offset, q.match_len);
        lemma_exec_grows(seqs, i + 1, literals, lit_pos + q.lit_len, h2, h0, block_max, room);
        lemma_exec_prefix(
            seqs,
            i + 1,
            literals,
            lit_pos + q.lit_len,
            p,
            h2,
            h0,
            block_max,
            room,
            room2,
        );
    }
}

#[verifier::rlimit(30)]
proof fn lemma_section_prefix(
    ctx: CtxView,
    src: Seq<u8>,
    literals: Seq<u8>,
    p: Seq<u8>,
    hist: Seq<u8>,
    block_max: nat,
    room: int,
    room2: int,
)
    requires
        rep_positive(ctx.rep),
        spec_sequences_section(ctx, src, literals, hist, block_max, room) matches Ok((c1, h1))
            && h1.len() - hist.len() <= room2,
    ensures
        spec_sequences_section(ctx, src, literals, p + hist, block_max, room2) == Ok::<
            (CtxView, Seq<u8>),
            Error,
        >(
            (
                spec_sequences_section(ctx, src, literals, hist, block_max, room)->Ok_0.0,
                p + spec_sequences_section(ctx, src, literals, hist, block_max, room)->Ok_0.1,
            ),
        ),
        rep_positive(
            spec_sequences_section(ctx, src, literals, hist, block_max, room)->Ok_0.0.rep,
        ),
        hist.len() <= spec_sequences_section(
            ctx,
            src,
            literals,
            hist,
            block_max,
            room,
        )->Ok_0.1.len(),
        spec_sequences_section(ctx, src, literals, hist, block_max, room)->Ok_0.1.take(
            hist.len() as int,
        ) == hist,
{
    reveal(spec_sequences_section);
    let (count, pos) = crate::block::sequence_count(src)->Ok_0;
    if count == 0 {
        assert((p + hist) + literals =~= p + (hist + literals));
        assert((hist + literals).take(hist.len() as int) =~= hist);
    } else {
        let input = src.skip(pos as int + 1);
        let (t, used) = crate::block::section_tables(ctx, src[pos as int], input)->Ok_0;
        let data = input.skip(used as int);
        lemma_offsets_positive(
            t,
            data,
            crate::block::start_cursor(t, data, ctx.rep),
            count,
            Seq::empty(),
        );
        let (seqs, c) = spec_decode_sequences(t, data, ctx.rep, count)->Ok_0;
        let (h, lit_pos) = exec_sequences(
            seqs,
            0,
            literals,
            0,
            hist,
            hist.len(),
            block_max,
            room,
        )->Ok_0;
        lemma_exec_grows(seqs, 0, literals, 0, hist, hist.len(), block_max, room);
        lemma_exec_prefix(seqs, 0, literals, 0, p, hist, hist.len(), block_max, room, room2);
        let tail = literals.skip(lit_pos as int);
        assert((p + h) + tail =~= p + (h + tail));
        assert((h + tail).take(hist.len() as int) =~= h.take(hist.len() as int));
    }
}

/// A block decoded with less history before it.
pub proof fn lemma_block_prefix(
    ctx: CtxView,
    input: Seq<u8>,
    p: Seq<u8>,
    hist: Seq<u8>,
    block_max: nat,
    room: int,
    room2: int,
)
    requires
        rep_positive(ctx.rep),
        spec_block(ctx, input, hist, block_max, room) matches Ok(b) && b.hist.len() - hist.len()
            <= room2,
    ensures
        spec_block(ctx, input, p + hist, block_max, room2) is Ok,
        ({
            let a = spec_block(ctx, input, hist, block_max, room)->Ok_0;
            let b = spec_block(ctx, input, p + hist, block_max, room2)->Ok_0;
            &&& b.ctx == a.ctx
            &&& b.hist == p + a.hist
            &&& b.used == a.used
            &&& b.last == a.last
            &&& rep_positive(a.ctx.rep)
            &&& a.hist.len() >= hist.len()
            &&& a.hist.take(hist.len() as int) == hist
            &&& 3 <= a.used <= input.len()
        }),
{
    reveal(spec_block);
    reveal(spec_compressed_block);
    let raw = crate::decompress::block_header(input);
    let ty = (raw / 2) % 4;
    let size = raw / 8;
    let a = spec_block(ctx, input, hist, block_max, room)->Ok_0;
    if ty == 1 {
        let run = crate::block::repeat_byte(input[3], size);
        assert((p + hist) + run =~= p + (hist + run));
        assert((hist + run).take(hist.len() as int) =~= hist);
    } else if ty == 0 {
        let run = input.subrange(3, 3 + size as int);
        assert((p + hist) + run =~= p + (hist + run));
        assert((hist + run).take(hist.len() as int) =~= hist);
    } else {
        let src = input.subrange(3, 3 + size as int);
        let l = spec_literals(ctx.huffman, src, block_max)->Ok_0;
        lemma_section_prefix(
            CtxView { huffman: l.huffman, ..ctx },
            src.skip(l.used as int),
            l.literals,
            p,
            hist,
            block_max,
            room,
            room2,
        );
    }
}

/// The state that `f` becomes when the frame produces `more`.
pub open spec fn same_frame(f: FrameStateView, g: FrameStateView, more: Seq<u8>) -> bool {
    &&& g.content == f.content + more
    &&& g.has_checksum == f.has_checksum
    &&& g.content_size == f.content_size
}

/// The rest of a frame's blocks, in both decoders.
#[verifier::rlimit(30)]
proof fn lemma_blocks_agree(
    opts: OptionsView,
    f: FrameStateView,
    total: nat,
    input: Seq<u8>,
    p: Seq<u8>,
    base: nat,
    room: int,
) -> (r: (FrameStateView, Seq<u8>, Seq<u8>))
    requires
        rep_positive(f.ctx.rep),
        run_stream(opts, StreamView { phase: PhaseView::Blocks(f), total }, input) is Ok,
        base <= p.len() + f.win.len(),
        room - (p.len() + f.win.len() - base) == opts.limit - total,
    ensures
        ({
            let (g, more, rest) = r;
            &&& spec_blocks(f.ctx, input, p + f.win, f.block_max, base, room) == Ok::<
                (Seq<u8>, Seq<u8>),
                Error,
            >((p + f.win + more, rest))
            &&& same_frame(f, g, more)
            &&& rest.len() < input.len()
            &&& run_stream(
                opts,
                StreamView { phase: PhaseView::Blocks(f), total },
                input,
            ) == prepend(
                more,
                run_stream(
                    opts,
                    StreamView { phase: PhaseView::Footer(g), total: total + more.len() },
                    rest,
                ),
            )
        }),
    decreases input.len(),
{
    reveal(step_block);
    let s = StreamView { phase: PhaseView::Blocks(f), total };
    law_step_at_end(opts, s, input);
    let hist_room = usize::MAX - f.win.len();
    let a = spec_block(f.ctx, input, f.win, f.block_max, hist_room)->Ok_0;
    let fresh = a.hist.skip(f.win.len() as int);
    let g = FrameStateView {
        ctx: a.ctx,
        win: trim(a.hist, f.window),
        content: f.content + fresh,
        ..f
    };
    let room2 = opts.limit - total;
    lemma_block_prefix(f.ctx, input, p, f.win, f.block_max, hist_room, room2);
    assert((p + f.win).len() - base == p.len() + f.win.len() - base);
    assert(a.hist =~= f.win + fresh);
    let rest = input.skip(a.used as int);
    assert(p + a.hist =~= p + f.win + fresh);
    if a.last {
        (g, fresh, rest)
    } else {
        let s1 = StreamView { phase: PhaseView::Blocks(g), total: total + fresh.len() };
        assert(run_stream(opts, s, input) == prepend(fresh, run_stream(opts, s1, rest)));
        let cut: int = if a.hist.len() > f.window {
            a.hist.len() - f.window
        } else {
            0
        };
        let p1 = p + a.hist.take(cut);
        assert(p1 + g.win =~= p + a.hist);
        let (g1, more, rest1) = lemma_blocks_agree(
            opts,
            g,
            total + fresh.len(),
            rest,
            p1,
            base,
            room,
        );
        let tail = run_stream(
            opts,
            StreamView { phase: PhaseView::Footer(g1), total: total + fresh.len() + more.len() },
            rest1,
        );
        if tail is Ok {
            assert(fresh + (more + tail->Ok_0) =~= (fresh + more) + tail->Ok_0);
        }
        assert(prepend(fresh, prepend(more, tail)) == prepend(fresh + more, tail));
        assert(p + f.win + (fresh + more) =~= p1 + g.win + more);
        assert(f.content + fresh + more =~= f.content + (fresh + more));
        (g1, fresh + more, rest1)
    }
}

/// A frame starts with recent offsets that are not zero.
pub proof fn lemma_ctx_positive(opts: OptionsView, id: u32)
    requires
        opts.dictionary matches Some(d) ==> d.ctx.wf(),
    ensures
        resolve_dictionary(opts.dictionary, id) matches Ok(d) ==> rep_positive(dict_ctx(d).rep),
{
}

/// The frames from `input` on, in both decoders, when `out` was produced
/// before.
#[verifier::rlimit(30)]
proof fn lemma_frames_agree(opts: OptionsView, phase: PhaseView, input: Seq<u8>, out: Seq<u8>)
    requires
        phase is FrameStart,
        opts.dictionary matches Some(d) ==> d.ctx.wf(),
        out.len() <= opts.limit,
        run_stream(opts, StreamView { phase, total: out.len() }, input) is Ok,
    ensures
        spec_frames(opts, input, out) == Ok::<Seq<u8>, Error>(
            out + run_stream(opts, StreamView { phase, total: out.len() }, input)->Ok_0,
        ),
    decreases input.len(),
{
    reveal(spec_frame);
    reveal(step_frame_start);
    let s = StreamView { phase, total: out.len() };
    law_step_at_end(opts, s, input);
    if input.len() == 0 {
        assert(out + Seq::<u8>::empty() =~= out);
    } else {
        let magic = le32(input, 0);
        if magic == crate::decompress::ZSTD_MAGIC {
            let src = input.skip(4);
            lemma_header_len(src, opts.window_log_max);
            let h = spec_parse(src, opts.window_log_max)->Ok_0;
            let f = opened_frame(opts, h)->Ok_0;
            let d = resolve_dictionary(opts.dictionary, h.dict_id)->Ok_0;
            lemma_ctx_positive(opts, h.dict_id);
            let body = src.skip(h.header_len as int);
            assert(input.skip(4 + h.header_len as int) =~= body);
            let s1 = StreamView { phase: PhaseView::Blocks(f), total: out.len() };
            let run1 = run_stream(opts, s1, body);
            assert(run_stream(opts, s, input) == prepend(Seq::empty(), run1));
            let empty = Seq::<u8>::empty();
            let prefix = dict_content(d);
            assert(empty + f.win =~= prefix);
            let (g, more, rest) = lemma_blocks_agree(
                opts,
                f,
                out.len(),
                body,
                empty,
                prefix.len(),
                opts.limit - out.len(),
            );
            assert(empty + f.win + more =~= prefix + more);
            let content = (prefix + more).skip(prefix.len() as int);
            assert(content =~= more);
            assert(g.content =~= more);
            let s2 = StreamView { phase: PhaseView::Footer(g), total: out.len() + more.len() };
            law_step_at_end(opts, s2, rest);
            reveal(step_footer);
            let run2 = run_stream(opts, s2, rest);
            assert(run2 is Ok);
            let used: int = if g.has_checksum {
                4
            } else {
                0
            };
            let rest1 = rest.skip(used);
            assert(rest.skip(0) =~= rest);
            assert(spec_frame_end(h, content, rest) == Ok::<Seq<u8>, Error>(rest1));
            let s3 = StreamView { phase: PhaseView::FrameStart, total: out.len() + more.len() };
            let run3 = run_stream(opts, s3, rest1);
            assert(run2 == prepend(empty, run3));
            lemma_total_bounded(opts, f, out.len(), body, g, more, rest);
            assert((out + more).len() == out.len() + more.len());
            lemma_frames_agree(opts, PhaseView::FrameStart, rest1, out + more);
            assert(empty + (more + (empty + run3->Ok_0)) =~= more + run3->Ok_0);
            assert((out + more) + run3->Ok_0 =~= out + (more + run3->Ok_0));
            assert(spec_frame(opts, src, out.len()) == Ok::<(Seq<u8>, Seq<u8>), Error>(
                (content, rest1),
            ));
        } else {
            let size = le32(input, 4);
            lemma_skippable_agree(opts, size, input.skip(8), out);
            let s1 = StreamView { phase: PhaseView::Skippable(size), total: out.len() };
            let run1 = run_stream(opts, s1, input.skip(8));
            assert(run_stream(opts, s, input) == prepend(Seq::empty(), run1));
            assert(Seq::<u8>::empty() + run1->Ok_0 =~= run1->Ok_0);
            assert(input.skip(8).skip(size as int) =~= input.skip(8 + size as int));
            lemma_frames_agree(
                opts,
                PhaseView::FrameStart,
                input.skip(8 + size as int),
                out,
            );
        }
    }
}

/// A stream never produces more than its limit.
proof fn lemma_total_bounded(
    opts: OptionsView,
    f: FrameStateView,
    total: nat,
    input: Seq<u8>,
    g: FrameStateView,
    more: Seq<u8>,
    rest: Seq<u8>,
)
    requires
        rep_positive(f.ctx.rep),
        total <= opts.limit,
        spec_blocks(
            f.ctx,
            input,
            f.win,
            f.block_max,
            f.win.len(),
            opts.limit - total,
        ) == Ok::<(Seq<u8>, Seq<u8>), Error>((f.win + more, rest)),
    ensures
        total + more.len() <= opts.limit,
{
    lemma_blocks_bounded(
        f.ctx,
        input,
        f.win,
        f.block_max,
        f.win.len(),
        opts.limit - total,
    );
}

pub proof fn lemma_blocks_bounded(
    ctx: CtxView,
    input: Seq<u8>,
    hist: Seq<u8>,
    block_max: nat,
    base: nat,
    room: int,
)
    requires
        rep_positive(ctx.rep),
        hist.len() - base <= room,
    ensures
        spec_blocks(ctx, input, hist, block_max, base, room) matches Ok((h, rest)) ==> h.len()
            - base <= room,
    decreases input.len(),
{
    let left = room - (hist.len() - base);
    match spec_block(ctx, input, hist, block_max, left) {
        Err(_) => {},
        Ok(b) => {
            lemma_block_room(ctx, input, hist, block_max, left);
            lemma_block_prefix(
                ctx,
                input,
                Seq::empty(),
                hist,
                block_max,
                left,
                left,
            );
            let rest = input.skip(b.used as int);
            if !b.last && rest.len() < input.len() {
                lemma_blocks_bounded(b.ctx, rest, b.hist, block_max, base, room);
            }
        },
    }
}

pub proof fn lemma_block_room(ctx: CtxView, input: Seq<u8>, hist: Seq<u8>, block_max: nat, room: int)
    requires
        room >= 0,
    ensures
        spec_block(ctx, input, hist, block_max, room) matches Ok(b) ==> b.hist.len() - hist.len()
            <= room,
{
    reveal(spec_block);
    reveal(spec_compressed_block);
    reveal(spec_sequences_section);
}

proof fn lemma_skippable_agree(opts: OptionsView, left: nat, input: Seq<u8>, out: Seq<u8>)
    requires
        run_stream(
            opts,
            StreamView { phase: PhaseView::Skippable(left), total: out.len() },
            input,
        ) is Ok,
    ensures
        left <= input.len(),
        run_stream(
            opts,
            StreamView { phase: PhaseView::Skippable(left), total: out.len() },
            input,
        ) == run_stream(
            opts,
            StreamView { phase: PhaseView::FrameStart, total: out.len() },
            input.skip(left as int),
        ),
    decreases left,
{
    let s = StreamView { phase: PhaseView::Skippable(left), total: out.len() };
    law_step_at_end(opts, s, input);
    let empty = Seq::<u8>::empty();
    if left == 0 {
        assert(input.skip(0) =~= input);
        let r = run_stream(
            opts,
            StreamView { phase: PhaseView::FrameStart, total: out.len() },
            input,
        );
        assert(empty + r->Ok_0 =~= r->Ok_0);
    } else {
        let take: nat = if left < input.len() {
            left
        } else {
            input.len()
        };
        let s1 = StreamView {
            phase: PhaseView::Skippable((left - take) as nat),
            total: out.len(),
        };
        let r = run_stream(opts, s1, input.skip(take as int));
        assert(empty + r->Ok_0 =~= r->Ok_0);
        lemma_skippable_agree(opts, (left - take) as nat, input.skip(take as int), out);
        assert(input.skip(take as int).skip(left - take) =~= input.skip(left as int));
    }
}

/// Whatever a stream of bytes yields when it is decoded incrementally, the
/// one-shot decoder yields too. (The converse fails where a match reaches
/// further back than the frame's window: the stream no longer holds that far
/// history.)
pub proof fn law_stream_agrees_with_one_shot(opts: OptionsView, input: Seq<u8>)
    requires
        opts.dictionary matches Some(d) ==> d.ctx.wf(),
        run_stream(opts, initial_stream(), input) is Ok,
    ensures
        spec_decompress(opts, input) == run_stream(opts, initial_stream(), input),
{
    lemma_frames_agree(opts, PhaseView::FrameStart, input, Seq::empty());
    let r = run_stream(opts, initial_stream(), input)->Ok_0;
    assert(Seq::<u8>::empty() + r =~= r);
}

} // verus!
