//! What holds of decompression as a whole: limits only refuse, and frames
//! follow each other.

use crate::block::CtxView;
use crate::decompress::{
    block_header, block_max_of, dict_content, dict_ctx, resolve_dictionary, spec_block, spec_blocks, spec_decompress,
    spec_frame, spec_frames, OptionsView, SKIPPABLE_MAGIC, ZSTD_MAGIC,
};
use crate::dictionary::le32;
use crate::error::Error;
use crate::frame::{dict_id_len, fcs_len, lemma_header_len, spec_parse};
use crate::stream_laws::{lemma_block_prefix, lemma_block_room, rep_positive};
use crate::xxhash::lemma_bits_at_window;
use vstd::arithmetic::power2::lemma_pow2_strictly_increases;
use vstd::prelude::*;

verus! {

/// A dictionary as reading one gives it.
pub open spec fn dictionary_sound(opts: OptionsView) -> bool {
    opts.dictionary matches Some(d) ==> d.ctx.wf()
}

/// Blocks decode to the same in any room that holds what they decode to.
pub proof fn lemma_blocks_room(
    ctx: CtxView,
    input: Seq<u8>,
    hist: Seq<u8>,
    block_max: nat,
    base: nat,
    room: int,
    room2: int,
)
    requires
        rep_positive(ctx.rep),
        base <= hist.len(),
        hist.len() - base <= room,
        spec_blocks(ctx, input, hist, block_max, base, room) matches Ok((h, _)) && h.len() - base
            <= room2,
    ensures
        spec_blocks(ctx, input, hist, block_max, base, room2) == spec_blocks(
            ctx,
            input,
            hist,
            block_max,
            base,
            room,
        ),
        spec_blocks(ctx, input, hist, block_max, base, room)->Ok_0.0.len() >= hist.len(),
        spec_blocks(ctx, input, hist, block_max, base, room)->Ok_0.0.len() - base <= room,
        spec_blocks(ctx, input, hist, block_max, base, room)->Ok_0.1.len() < input.len(),
    decreases input.len(),
{
    let left = room - (hist.len() - base);
    let left2 = room2 - (hist.len() - base);
    let none = Seq::<u8>::empty();
    assert(none + hist =~= hist);
    lemma_block_room(ctx, input, hist, block_max, left);
    lemma_block_prefix(ctx, input, none, hist, block_max, left, left);
    let b = spec_block(ctx, input, hist, block_max, left)->Ok_0;
    let rest = input.skip(b.used as int);
    if !b.last {
        lemma_blocks_longer(b.ctx, rest, b.hist, block_max, base, room);
    }
    lemma_block_prefix(ctx, input, none, hist, block_max, left, left2);
    assert(none + b.hist =~= b.hist);
    if !b.last {
        lemma_blocks_room(b.ctx, rest, b.hist, block_max, base, room, room2);
    }
}

/// Blocks only add to the history.
pub proof fn lemma_blocks_longer(ctx: CtxView, input: Seq<u8>, hist: Seq<u8>, block_max: nat, base: nat, room: int)
    requires
        rep_positive(ctx.rep),
        hist.len() - base <= room,
        spec_blocks(ctx, input, hist, block_max, base, room) is Ok,
    ensures
        spec_blocks(ctx, input, hist, block_max, base, room)->Ok_0.0.len() >= hist.len(),
    decreases input.len(),
{
    let left = room - (hist.len() - base);
    lemma_block_room(ctx, input, hist, block_max, left);
    lemma_block_prefix(ctx, input, Seq::empty(), hist, block_max, left, left);
    let b = spec_block(ctx, input, hist, block_max, left)->Ok_0;
    let rest = input.skip(b.used as int);
    if !b.last {
        lemma_blocks_longer(b.ctx, rest, b.hist, block_max, base, room);
    }
}

/// A frame decodes to the same wherever there is room for it.
pub proof fn lemma_frame_room(opts: OptionsView, limit: nat, src: Seq<u8>, before: nat, before2: nat)
    requires
        dictionary_sound(opts),
        before <= opts.limit,
        spec_frame(opts, src, before) matches Ok((content, _)) && before2 + content.len() <= limit,
    ensures
        spec_frame(OptionsView { limit, ..opts }, src, before2) == spec_frame(opts, src, before),
        before + spec_frame(opts, src, before)->Ok_0.0.len() <= opts.limit,
        spec_frame(opts, src, before)->Ok_0.1.len() < src.len(),
{
    reveal(spec_frame);
    lemma_header_len(src, opts.window_log_max);
    let h = spec_parse(src, opts.window_log_max)->Ok_0;
    let d = resolve_dictionary(opts.dictionary, h.dict_id)->Ok_0;
    let prefix = dict_content(d);
    let body = src.skip(h.header_len as int);
    let bm = block_max_of(h.window_size);
    let (hist, rest) = spec_blocks(
        dict_ctx(d),
        body,
        prefix,
        bm,
        prefix.len(),
        opts.limit - before,
    )->Ok_0;
    lemma_blocks_longer(dict_ctx(d), body, prefix, bm, prefix.len(), opts.limit - before);
    lemma_blocks_room(
        dict_ctx(d),
        body,
        prefix,
        bm,
        prefix.len(),
        opts.limit - before,
        limit - before2,
    );
}

/// Frames decode to the same under any limit that holds what they decode to,
/// and after any output.
pub proof fn lemma_frames_room(opts: OptionsView, limit: nat, src: Seq<u8>, out: Seq<u8>, out2: Seq<u8>)
    requires
        dictionary_sound(opts),
        out.len() <= opts.limit,
        spec_frames(opts, src, out) matches Ok(v) && v.len() - out.len() + out2.len() <= limit,
    ensures
        ({
            let v = spec_frames(opts, src, out)->Ok_0;
            &&& out.len() <= v.len() <= opts.limit
            &&& spec_frames(OptionsView { limit, ..opts }, src, out2) == Ok::<Seq<u8>, Error>(
                out2 + v.skip(out.len() as int),
            )
        }),
    decreases src.len(),
{
    let with = OptionsView { limit, ..opts };
    if src.len() == 0 {
        assert(out2 + out.skip(out.len() as int) =~= out2);
    } else {
        let magic = le32(src, 0);
        if magic == ZSTD_MAGIC {
            let frame = src.skip(4);
            let (content, rest) = spec_frame(opts, frame, out.len())->Ok_0;
            lemma_frame_room(opts, opts.limit + content.len(), frame, out.len(), opts.limit);
            lemma_frames_longer(opts, rest, out + content);
            lemma_frame_room(opts, limit, frame, out.len(), out2.len());
            lemma_frames_room(opts, limit, rest, out + content, out2 + content);
            let v = spec_frames(opts, src, out)->Ok_0;
            lemma_frames_start(opts, rest, out + content);
            assert(v.skip(out.len() as int) =~= content + v.skip((out + content).len() as int)) by {
                let s = v.skip(out.len() as int);
                let t = content + v.skip((out + content).len() as int);
                assert forall|i: int| 0 <= i < s.len() implies #[trigger] s[i] == t[i] by {
                    if i < content.len() {
                        assert(v.take((out + content).len() as int)[out.len() + i] == (out
                            + content)[out.len() + i]);
                    }
                }
            }
            assert(out2 + content + v.skip((out + content).len() as int) =~= out2 + (content
                + v.skip((out + content).len() as int)));
        } else {
            let size = le32(src, 4);
            lemma_frames_room(opts, limit, src.skip(8 + size as int), out, out2);
        }
    }
}

/// Frames only add to the output.
pub proof fn lemma_frames_longer(opts: OptionsView, src: Seq<u8>, out: Seq<u8>)
    requires
        dictionary_sound(opts),
        out.len() <= opts.limit,
        spec_frames(opts, src, out) is Ok,
    ensures
        out.len() <= spec_frames(opts, src, out)->Ok_0.len() <= opts.limit,
    decreases src.len(),
{
    if src.len() > 0 {
        let magic = le32(src, 0);
        if magic == ZSTD_MAGIC {
            let frame = src.skip(4);
            let (content, rest) = spec_frame(opts, frame, out.len())->Ok_0;
            lemma_frame_room(opts, opts.limit + content.len(), frame, out.len(), opts.limit);
            lemma_frames_longer(opts, rest, out + content);
        } else {
            let size = le32(src, 4);
            lemma_frames_longer(opts, src.skip(8 + size as int), out);
        }
    }
}

/// What has been put out stays.
proof fn lemma_frames_start(opts: OptionsView, src: Seq<u8>, out: Seq<u8>)
    requires
        dictionary_sound(opts),
        out.len() <= opts.limit,
        spec_frames(opts, src, out) is Ok,
    ensures
        out.len() <= spec_frames(opts, src, out)->Ok_0.len(),
        spec_frames(opts, src, out)->Ok_0.take(out.len() as int) == out,
    decreases src.len(),
{
    if src.len() == 0 {
        assert(out.take(out.len() as int) =~= out);
    } else {
        let magic = le32(src, 0);
        if magic == ZSTD_MAGIC {
            let frame = src.skip(4);
            let (content, rest) = spec_frame(opts, frame, out.len())->Ok_0;
            lemma_frame_room(opts, opts.limit + content.len(), frame, out.len(), opts.limit);
            lemma_frames_start(opts, rest, out + content);
            let v = spec_frames(opts, src, out)->Ok_0;
            assert(v.take(out.len() as int) =~= v.take((out + content).len() as int).take(
                out.len() as int,
            ));
            assert((out + content).take(out.len() as int) =~= out);
        } else {
            let size = le32(src, 4);
            lemma_frames_start(opts, src.skip(8 + size as int), out);
        }
    }
}

// ---------------------------------------------------------------------------
// Frames one after another.

/// A header that is all there is read alike with more after it.
proof fn lemma_parse_more(a: Seq<u8>, b: Seq<u8>, w: nat)
    requires
        spec_parse(a, w) is Ok,
    ensures
        spec_parse(a + b, w) == spec_parse(a, w),
{
    reveal(spec_parse);
    let c = a + b;
    let d = a[0] as int;
    let single = (d / 32) % 2 == 1;
    let wpos: nat = if single {
        1
    } else {
        2
    };
    let dlen = dict_id_len(d % 4);
    let fcs = fcs_len(single, d / 64);
    assert(c[0] == a[0]);
    if !single {
        assert(c[1] == a[1]);
    }
    lemma_bits_at_window(a, c, wpos, dlen);
    lemma_bits_at_window(a, c, wpos + dlen, fcs);
}

/// A block decodes alike with more after it.
proof fn lemma_block_more(ctx: CtxView, a: Seq<u8>, b: Seq<u8>, hist: Seq<u8>, block_max: nat, room: int)
    requires
        spec_block(ctx, a, hist, block_max, room) is Ok,
    ensures
        spec_block(ctx, a + b, hist, block_max, room) == spec_block(ctx, a, hist, block_max, room),
        3 <= spec_block(ctx, a, hist, block_max, room)->Ok_0.used <= a.len(),
{
    reveal(spec_block);
    let c = a + b;
    assert(c[0] == a[0] && c[1] == a[1] && c[2] == a[2]);
    let raw = block_header(a);
    let size = (raw / 8) as int;
    if (raw / 2) % 4 == 1 {
        assert(c[3] == a[3]);
    } else {
        assert(c.subrange(3, 3 + size) =~= a.subrange(3, 3 + size));
    }
}

/// Blocks decode alike with more after them.
proof fn lemma_blocks_more(
    ctx: CtxView,
    a: Seq<u8>,
    b: Seq<u8>,
    hist: Seq<u8>,
    block_max: nat,
    base: nat,
    room: int,
)
    requires
        spec_blocks(ctx, a, hist, block_max, base, room) is Ok,
    ensures
        ({
            let (h, rest) = spec_blocks(ctx, a, hist, block_max, base, room)->Ok_0;
            spec_blocks(ctx, a + b, hist, block_max, base, room) == Ok::<
                (Seq<u8>, Seq<u8>),
                Error,
            >((h, rest + b))
        }),
    decreases a.len(),
{
    let left = room - (hist.len() - base);
    lemma_block_more(ctx, a, b, hist, block_max, left);
    let s = spec_block(ctx, a, hist, block_max, left)->Ok_0;
    assert((a + b).skip(s.used as int) =~= a.skip(s.used as int) + b);
    if !s.last {
        lemma_blocks_more(s.ctx, a.skip(s.used as int), b, s.hist, block_max, base, room);
    }
}

/// Frames that decode leave what follows them to be decoded.
pub proof fn lemma_frames_more(opts: OptionsView, a: Seq<u8>, b: Seq<u8>, out: Seq<u8>)
    requires
        dictionary_sound(opts),
        out.len() <= opts.limit,
        spec_frames(opts, a, out) is Ok,
    ensures
        spec_frames(opts, a + b, out) == spec_frames(opts, b, spec_frames(opts, a, out)->Ok_0),
    decreases a.len(),
{
    let c = a + b;
    if a.len() == 0 {
        assert(c =~= b);
    } else {
        lemma_bits_at_window(a, c, 0, 4);
        let magic = le32(a, 0);
        if magic == ZSTD_MAGIC {
            let frame = a.skip(4);
            let (content, rest) = spec_frame(opts, frame, out.len())->Ok_0;
            lemma_frame_room(opts, opts.limit + content.len(), frame, out.len(), opts.limit);
            assert(c.skip(4) =~= frame + b);
            reveal(spec_frame);
            lemma_header_len(frame, opts.window_log_max);
            lemma_parse_more(frame, b, opts.window_log_max);
            let h = spec_parse(frame, opts.window_log_max)->Ok_0;
            let d = resolve_dictionary(opts.dictionary, h.dict_id)->Ok_0;
            let prefix = dict_content(d);
            let body = frame.skip(h.header_len as int);
            assert((frame + b).skip(h.header_len as int) =~= body + b);
            let room = opts.limit - out.len();
            let bm = block_max_of(h.window_size);
            lemma_blocks_more(dict_ctx(d), body, b, prefix, bm, prefix.len(), room);
            let (hist, after) = spec_blocks(
                dict_ctx(d),
                body,
                prefix,
                bm,
                prefix.len(),
                room,
            )->Ok_0;
            if h.has_checksum {
                lemma_bits_at_window(after, after + b, 0, 4);
                assert((after + b).skip(4) =~= after.skip(4) + b);
            }
            assert(spec_frame(opts, frame + b, out.len()) == Ok::<(Seq<u8>, Seq<u8>), Error>(
                (content, rest + b),
            ));
            lemma_frames_more(opts, rest, b, out + content);
        } else {
            lemma_bits_at_window(a, c, 4, 4);
            let size = le32(a, 4) as int;
            assert(c.skip(8 + size) =~= a.skip(8 + size) + b);
            lemma_frames_more(opts, a.skip(8 + size), b, out);
        }
    }
}

/// A skippable frame: the magic, the length of the payload, and the payload.
pub open spec fn is_skippable_frame(s: Seq<u8>) -> bool {
    &&& s.len() >= 8
    &&& le32(s, 0) / 16 == SKIPPABLE_MAGIC / 16
    &&& s.len() == 8 + le32(s, 4)
}

/// A skippable frame in front changes nothing, so that by itself it
/// decompresses to nothing. One that is cut short, to any length but none, is
/// refused as too short.
pub proof fn law_skippable_frames_are_skipped(opts: OptionsView, skippable: Seq<u8>, src: Seq<u8>, cut: int)
    requires
        is_skippable_frame(skippable),
        0 < cut < skippable.len(),
    ensures
        spec_decompress(opts, skippable + src) == spec_decompress(opts, src),
        spec_decompress(opts, skippable) == Ok::<Seq<u8>, Error>(Seq::empty()),
        spec_decompress(opts, skippable.take(cut)) == Err::<Seq<u8>, Error>(Error::SrcSizeWrong),
{
    let c = skippable + src;
    lemma_bits_at_window(skippable, c, 0, 4);
    lemma_bits_at_window(skippable, c, 4, 4);
    assert(c.skip(skippable.len() as int) =~= src);
    let none = skippable.skip(skippable.len() as int);
    assert(none =~= Seq::<u8>::empty());
    assert(spec_frames(opts, none, Seq::empty()) == Ok::<Seq<u8>, Error>(Seq::empty()));
    let t = skippable.take(cut);
    assert(t + skippable.skip(cut) =~= skippable);
    if cut >= 4 {
        lemma_bits_at_window(t, t + skippable.skip(cut), 0, 4);
    }
    if cut >= 8 {
        lemma_bits_at_window(t, t + skippable.skip(cut), 4, 4);
    }
}

// ---------------------------------------------------------------------------
// The window ceiling.

/// A header that is accepted is accepted alike under a higher ceiling.
proof fn lemma_parse_ceiling(src: Seq<u8>, w1: nat, w2: nat)
    requires
        w1 <= w2,
        spec_parse(src, w1) is Ok,
    ensures
        spec_parse(src, w2) == spec_parse(src, w1),
{
    reveal(spec_parse);
    let m1: nat = if w1 < 31 {
        w1
    } else {
        31
    };
    let m2: nat = if w2 < 31 {
        w2
    } else {
        31
    };
    if m1 < m2 {
        lemma_pow2_strictly_increases(m1, m2);
    }
}

proof fn lemma_frames_ceiling(opts: OptionsView, ceiling: nat, src: Seq<u8>, out: Seq<u8>)
    requires
        dictionary_sound(opts),
        opts.window_log_max <= ceiling,
        out.len() <= opts.limit,
        spec_frames(opts, src, out) is Ok,
    ensures
        spec_frames(OptionsView { window_log_max: ceiling, ..opts }, src, out) == spec_frames(
            opts,
            src,
            out,
        ),
    decreases src.len(),
{
    let with = OptionsView { window_log_max: ceiling, ..opts };
    if src.len() > 0 {
        let magic = le32(src, 0);
        if magic == ZSTD_MAGIC {
            let frame = src.skip(4);
            let (content, rest) = spec_frame(opts, frame, out.len())->Ok_0;
            lemma_frame_room(opts, opts.limit + content.len(), frame, out.len(), opts.limit);
            reveal(spec_frame);
            lemma_parse_ceiling(frame, opts.window_log_max, ceiling);
            assert(spec_frame(with, frame, out.len()) == spec_frame(opts, frame, out.len()));
            lemma_frames_ceiling(opts, ceiling, rest, out + content);
        } else {
            let size = le32(src, 4);
            lemma_frames_ceiling(opts, ceiling, src.skip(8 + size as int), out);
        }
    }
}

/// A ceiling on the window only refuses: what decompresses under one
/// decompresses to the same under a higher one.
pub proof fn law_window_ceiling_only_refuses(opts: OptionsView, ceiling: nat, src: Seq<u8>)
    requires
        dictionary_sound(opts),
        opts.window_log_max <= ceiling,
    ensures
        spec_decompress(opts, src) is Ok ==> spec_decompress(
            OptionsView { window_log_max: ceiling, ..opts },
            src,
        ) == spec_decompress(opts, src),
{
    if spec_decompress(opts, src) is Ok {
        lemma_frames_ceiling(opts, ceiling, src, Seq::empty());
    }
}

proof fn lemma_frames_capped(opts: OptionsView, src: Seq<u8>, out: Seq<u8>)
    requires
        opts.window_log_max > 31,
    ensures
        spec_frames(opts, src, out) == spec_frames(OptionsView { window_log_max: 31, ..opts }, src, out),
    decreases src.len(),
{
    let with = OptionsView { window_log_max: 31, ..opts };
    if src.len() >= 4 {
        if le32(src, 0) == ZSTD_MAGIC {
            let frame = src.skip(4);
            reveal(spec_frame);
            reveal(spec_parse);
            assert(spec_parse(frame, opts.window_log_max) == spec_parse(frame, 31));
            assert(spec_frame(with, frame, out.len()) == spec_frame(opts, frame, out.len()));
            match spec_frame(opts, frame, out.len()) {
                Err(_) => {},
                Ok((content, rest)) => {
                    if rest.len() < src.len() {
                        lemma_frames_capped(opts, rest, out + content);
                    }
                },
            }
        } else if src.len() >= 8 + le32(src, 4) {
            lemma_frames_capped(opts, src.skip(8 + le32(src, 4) as int), out);
        }
    }
}

/// A ceiling above 31 acts as 31, in what is refused and how too.
pub proof fn law_window_ceiling_is_capped(opts: OptionsView, src: Seq<u8>)
    requires
        opts.window_log_max > 31,
    ensures
        spec_decompress(opts, src) == spec_decompress(OptionsView { window_log_max: 31, ..opts }, src),
{
    lemma_frames_capped(opts, src, Seq::empty());
}

} // verus!
