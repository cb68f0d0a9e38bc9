//! Writing one block: raw, as a repeated byte, or compressed, whichever is
//! called for.

use crate::bits::{highest_bit, lemma_highest_bit_bound};
use crate::block::{repeat_byte, spec_compressed_block, spec_sequences_section, CtxView, RepView};
use crate::block_encode_model::{of_codes_of, offsets_ready, offsets_served, spec_block, BlockView, EntropyView};
use crate::dict_encode::top_offset_code;
use crate::error::Error;
use crate::frame_encode::{
    block_header_bytes, is_block, is_near_block, keeps, lemma_coded_block, lemma_raw_block, lemma_rle_block,
    push_block_header,
};
use crate::parser::stands_at;
use crate::seq_store::{
    lemma_replay_counts, lemma_replay_near, near_offsets, near_values, replay, ReplayState, SeqStore, Triple,
};
use crate::seq_tables::{lemma_highest_bit_rises, FseRepeat};
use crate::sequences_encode::{
    block_decodes, body_ok, entropy_compress_seq_store, store_end, store_replay, FseEntropyState,
};
use vstd::arithmetic::power2::{lemma2_to64, lemma2_to64_rest};
use vstd::prelude::*;
use vstd::slice::slice_subrange;

verus! {

/// How a block is written.
#[derive(Clone, Copy, PartialEq, Eq, Debug, Structural)]
pub enum BlockKind {
    Raw,
    Rle,
    Compressed,
}

/// Below this size of its body, a block of one repeated byte is written as
/// such.
pub const RLE_MAX_LENGTH: usize = 25;

/// All bytes of `s` are the same.
pub open spec fn all_same(s: Seq<u8>) -> bool {
    forall|i: int| 0 <= i < s.len() ==> #[trigger] s[i] == s[0]
}

/// Whether all bytes of `data[start .. end]` are the same.
pub fn is_rle(data: &[u8], start: usize, end: usize) -> (r: bool)
    requires
        start < end <= data@.len(),
    ensures
        r == all_same(data@.subrange(start as int, end as int)),
{
    let b: u8 = data[start];
    let ghost s = data@.subrange(start as int, end as int);
    let mut i: usize = start + 1;
    while i < end
        invariant
            start < i <= end <= data@.len(),
            s == data@.subrange(start as int, end as int),
            b == s[0],
            forall|k: int| 0 <= k < i - start ==> #[trigger] s[k] == s[0],
        decreases end - i,
    {
        if data[i] != b {
            assert(s[i - start] != s[0]);
            return false;
        }
        i = i + 1;
    }
    true
}

/// The context after a block does not depend on the room for output.
proof fn lemma_ctx_alike(ctx: CtxView, body: Seq<u8>, hist: Seq<u8>, block_max: nat, r1: int, r2: int)
    requires
        spec_compressed_block(ctx, body, hist, block_max, r1) is Ok,
        spec_compressed_block(ctx, body, hist, block_max, r2) is Ok,
    ensures
        spec_compressed_block(ctx, body, hist, block_max, r1)->Ok_0.0 == spec_compressed_block(
            ctx,
            body,
            hist,
            block_max,
            r2,
        )->Ok_0.0,
{
    reveal(spec_compressed_block);
    reveal(spec_sequences_section);
}

/// A body that decodes to what a store stands for makes a block.
proof fn lemma_body_block(
    body: Seq<u8>,
    store: &SeqStore,
    prev: &FseEntropyState,
    next: &FseEntropyState,
    last: bool,
    ctx: CtxView,
    hist: Seq<u8>,
    block: Seq<u8>,
    rep1: RepView,
    block_max: nat,
) -> (ctx1: CtxView)
    requires
        body_ok(body, store, prev, next),
        prev.in_step(ctx),
        stands_at(store, hist, block, ctx.rep, rep1),
        block.len() <= block_max,
        body.len() < 0x20_0000,
        body.len() <= block_max,
    ensures
        is_block(
            block_header_bytes(last, 2, body.len()) + body,
            last,
            ctx,
            hist,
            ctx1,
            hist + block,
            block_max,
        ),
        next.in_step(ctx1),
        ctx1.rep == rep1,
{
    let n = block.len() as int;
    assert(store_end(store, hist, ctx.rep) == hist + block);
    let first = spec_compressed_block(ctx, body, hist, block_max, n);
    assert(block_decodes(first, hist + block, rep1, next));
    let ctx1 = first->Ok_0.0;
    assert forall|room: int| room >= n implies #[trigger] spec_compressed_block(
        ctx,
        body,
        hist,
        block_max,
        room,
    ) == Ok::<(CtxView, Seq<u8>), Error>((ctx1, hist + block)) by {
        assert(block_decodes(
            spec_compressed_block(ctx, body, hist, block_max, room),
            hist + block,
            rep1,
            next,
        ));
        lemma_ctx_alike(ctx, body, hist, block_max, n, room);
    }
    lemma_coded_block(body, last, ctx, hist, ctx1, hist + block, block_max);
    ctx1
}

/// The context after a block does not depend on the history either.
proof fn lemma_ctx_same(ctx: CtxView, body: Seq<u8>, h1: Seq<u8>, h2: Seq<u8>, block_max: nat, room: int)
    requires
        spec_compressed_block(ctx, body, h1, block_max, room) is Ok,
        spec_compressed_block(ctx, body, h2, block_max, room) is Ok,
    ensures
        spec_compressed_block(ctx, body, h1, block_max, room)->Ok_0.0 == spec_compressed_block(
            ctx,
            body,
            h2,
            block_max,
            room,
        )->Ok_0.0,
{
    reveal(spec_compressed_block);
    reveal(spec_sequences_section);
}

/// Where a store that reaches no further than `reach` stands for a block, it
/// does so with no more of the history than that.
proof fn lemma_stands_near(
    store: &SeqStore,
    hist: Seq<u8>,
    t: Seq<u8>,
    block: Seq<u8>,
    rep: RepView,
    rep1: RepView,
    reach: nat,
)
    requires
        store.wf(),
        stands_at(store, hist, block, rep, rep1),
        near_values(store.triples(), reach),
        near_offsets(rep, reach),
        keeps(t, hist, reach),
    ensures
        stands_at(store, t, block, rep, rep1),
        near_offsets(rep1, reach),
{
    let p = hist.take(hist.len() - t.len());
    assert(hist =~= p + t);
    let q = store.triples();
    assert forall|i: int| 0 <= i < q.len() implies (#[trigger] q[i]).of_value >= 1 by {
        assert(store.sequences@[i].off_base >= 1);
    }
    lemma_replay_near(q, store.literals@, p, t, rep, reach);
    let a = store_replay(store, hist, rep)->0;
    let b = store_replay(store, t, rep)->0;
    let tail = store.literals@.skip(a.lit_pos as int);
    assert(p + (b.hist + tail) =~= a.hist + tail);
    assert(p + (t + block) =~= hist + block);
    assert(b.hist + tail =~= t + block) by {
        let x = p + (b.hist + tail);
        let y = p + (t + block);
        assert(x == y);
        assert(x.skip(p.len() as int) =~= b.hist + tail);
        assert(y.skip(p.len() as int) =~= t + block);
    }
}

/// What a sequence gives for its offset is within the history and the block.
proof fn lemma_value_in_reach(q: Seq<Triple>, lits: Seq<u8>, st: ReplayState, i: int)
    requires
        0 <= i < q.len(),
        replay(q, lits, st) is Some,
        forall|k: int| 0 <= k < q.len() ==> (#[trigger] q[k]).match_len >= 3,
    ensures
        q[i].of_value <= 3 || q[i].of_value <= replay(q, lits, st)->0.hist.len(),
    decreases q.len(),
{
    let q0 = q.drop_last();
    let s = replay(q0, lits, st)->0;
    lemma_replay_counts(q, lits, st);
    lemma_replay_counts(q0, lits, st);
    assert forall|k: int| 0 <= k < q0.len() implies (#[trigger] q0[k]).match_len >= 3 by {
        assert(q0[k] == q[k]);
    }
    if i < q.len() - 1 {
        assert(q0[i] == q[i]);
        lemma_value_in_reach(q0, lits, st, i);
    } else {
        assert(q[i].match_len >= 3);
    }
}

/// Where the history and a block are no longer than the reach of a frame, no
/// match of the block goes past it.
pub proof fn law_matches_stay_within_the_history(
    store: &SeqStore,
    hist: Seq<u8>,
    block: Seq<u8>,
    rep: RepView,
    rep1: RepView,
    reach: nat,
)
    requires
        store.wf(),
        stands_at(store, hist, block, rep, rep1),
        hist.len() + block.len() <= reach,
    ensures
        near_values(store.triples(), reach),
{
    let q = store.triples();
    let st = ReplayState { hist, rep, lit_pos: 0 };
    assert forall|i: int| 0 <= i < q.len() implies (#[trigger] q[i]).of_value <= reach + 3 by {
        assert forall|k: int| 0 <= k < q.len() implies (#[trigger] q[k]).match_len >= 3 by {}
        lemma_value_in_reach(q, store.literals@, st, i);
        lemma_replay_counts(q, store.literals@, st);
        assert(store_end(store, hist, rep).len() == hist.len() + block.len());
    }
}

/// A table that is ready for the offsets into the history and a block serves
/// those of a store that stands for the block.
pub proof fn lemma_offsets_in_reach(
    store: &SeqStore,
    hist: Seq<u8>,
    block: Seq<u8>,
    rep: RepView,
    rep1: RepView,
    e: EntropyView,
    strategy: int,
)
    requires
        store.wf(),
        stands_at(store, hist, block, rep, rep1),
        block.len() <= 131072,
        offsets_ready(e, hist.len(), strategy),
    ensures
        offsets_served(e, store.triples(), strategy),
{
    let q = store.triples();
    if strategy < 4 && e.of_repeat == FseRepeat::Valid {
        let st = ReplayState { hist, rep, lit_pos: 0 };
        lemma2_to64();
        lemma2_to64_rest();
        assert forall|i: int| 0 <= i < q.len() implies #[trigger] e.of->0.encodable(of_codes_of(q)[i] as int) by {
            assert(store.sequences@[i].off_base >= 1);
            assert forall|k: int| 0 <= k < q.len() implies (#[trigger] q[k]).match_len >= 3 by {}
            lemma_value_in_reach(q, store.literals@, st, i);
            lemma_replay_counts(q, store.literals@, st);
            assert(store_end(store, hist, rep).len() == hist.len() + block.len());
            let v = q[i].of_value;
            let n = hist.len();
            lemma_highest_bit_bound(v, 32);
            if n <= 4294836223 {
                lemma_highest_bit_bound(n + 131072, 32);
                lemma_highest_bit_rises(v, n + 131072);
            }
            assert(0 <= highest_bit(v) <= top_offset_code(n));
            assert(of_codes_of(q)[i] as int == highest_bit(v));
        }
    }
}

/// What writing one block gives: the context of a decoder after it.
pub struct Written {
    pub kind: BlockKind,
    pub ctx: Ghost<CtxView>,
}

/// A body that decodes to what a near store stands for makes a near block.
proof fn lemma_near_block(
    body: Seq<u8>,
    store: &SeqStore,
    prev: &FseEntropyState,
    next: &FseEntropyState,
    last: bool,
    ctx: CtxView,
    hist: Seq<u8>,
    block: Seq<u8>,
    rep1: RepView,
    block_max: nat,
    reach: nat,
) -> (ctx1: CtxView)
    requires
        store.wf(),
        body_ok(body, store, prev, next),
        prev.in_step(ctx),
        stands_at(store, hist, block, ctx.rep, rep1),
        block.len() <= block_max,
        block.len() <= 131072,
        body.len() < 0x20_0000,
        body.len() <= block_max,
        near_values(store.triples(), reach),
        near_offsets(ctx.rep, reach),
    ensures
        is_near_block(
            block_header_bytes(last, 2, body.len()) + body,
            last,
            ctx,
            hist,
            ctx1,
            block,
            block_max,
            reach,
        ),
        next.in_step(ctx1),
        ctx1.rep == rep1,
        near_offsets(rep1, reach),
{
    let ctx1 = lemma_body_block(body, store, prev, next, last, ctx, hist, block, rep1, block_max);
    assert(hist.skip(0) =~= hist);
    lemma_stands_near(store, hist, hist, block, ctx.rep, rep1, reach);
    assert forall|t: Seq<u8>| keeps(t, hist, reach) implies #[trigger] is_block(
        block_header_bytes(last, 2, body.len()) + body,
        last,
        ctx,
        t,
        ctx1,
        t + block,
        block_max,
    ) by {
        lemma_stands_near(store, hist, t, block, ctx.rep, rep1, reach);
        let c2 = lemma_body_block(body, store, prev, next, last, ctx, t, block, rep1, block_max);
        lemma_block_ctx(body, last, ctx, hist, t, ctx1, c2, block, block_max);
    }
    ctx1
}

/// Two decoders in the same context are in the same context after a block.
proof fn lemma_block_ctx(
    body: Seq<u8>,
    last: bool,
    ctx: CtxView,
    h1: Seq<u8>,
    h2: Seq<u8>,
    c1: CtxView,
    c2: CtxView,
    block: Seq<u8>,
    block_max: nat,
)
    requires
        body.len() < 0x20_0000,
        is_block(
            block_header_bytes(last, 2, body.len()) + body,
            last,
            ctx,
            h1,
            c1,
            h1 + block,
            block_max,
        ),
        is_block(
            block_header_bytes(last, 2, body.len()) + body,
            last,
            ctx,
            h2,
            c2,
            h2 + block,
            block_max,
        ),
    ensures
        c1 == c2,
{
    let bytes = block_header_bytes(last, 2, body.len()) + body;
    let none = Seq::<u8>::empty();
    let n = block.len() as int;
    assert(crate::decompress::spec_block(ctx, bytes + none, h1, block_max, n) is Ok);
    assert(crate::decompress::spec_block(ctx, bytes + none, h2, block_max, n) is Ok);
    reveal(crate::decompress::spec_block);
    let raw = crate::decompress::block_header(bytes + none);
    let inner = (bytes + none).subrange(3, 3 + (raw / 8) as int);
    if (raw / 2) % 4 == 2 {
        lemma_ctx_same(ctx, inner, h1, h2, block_max, n);
    }
}

/// Appends `data[start .. end]` as a raw block.
pub fn write_raw_block(
    out: &mut Vec<u8>,
    data: &[u8],
    start: usize,
    end: usize,
    last: bool,
    Ghost(ctx): Ghost<CtxView>,
    Ghost(hist): Ghost<Seq<u8>>,
    Ghost(block_max): Ghost<nat>,
)
    requires
        start <= end <= data@.len(),
        end - start <= 131072,
        end - start <= block_max,
    ensures
        final(out)@ == old(out)@ + (block_header_bytes(last, 0, (end - start) as nat)
            + data@.subrange(start as int, end as int)),
        forall|reach: nat| #[trigger]
            is_near_block(
                block_header_bytes(last, 0, (end - start) as nat) + data@.subrange(
                    start as int,
                    end as int,
                ),
                last,
                ctx,
                hist,
                ctx,
                data@.subrange(start as int, end as int),
                block_max,
                reach,
            ),
{
    let ghost o = out@;
    let ghost block = data@.subrange(start as int, end as int);
    push_block_header(out, last, 0, end - start);
    out.extend_from_slice(slice_subrange(data, start, end));
    proof {
        assert forall|t: Seq<u8>| #[trigger]
            is_block(
                block_header_bytes(last, 0, block.len()) + block,
                last,
                ctx,
                t,
                ctx,
                t + block,
                block_max,
            ) by {
            lemma_raw_block(block, last, ctx, t, block_max);
        }
        assert(out@ =~= o + (block_header_bytes(last, 0, block.len()) + block));
    }
}

/// Appends the block `data[start .. end]`, for which `store` stands: compressed
/// if that saves enough, as a repeated byte if that is what it is, or raw. The
/// entropy state moves on only with a compressed block. The match finders keep
/// within the window; that no match reaches further than `reach` is made sure
/// of here.
#[verifier::rlimit(30)]
pub fn write_block(
    out: &mut Vec<u8>,
    store: &SeqStore,
    data: &[u8],
    start: usize,
    end: usize,
    entropy: &mut FseEntropyState,
    strategy: i32,
    disable_literals: bool,
    last: bool,
    first_block: bool,
    reach: u64,
    Ghost(ctx): Ghost<CtxView>,
    Ghost(hist): Ghost<Seq<u8>>,
    Ghost(rep1): Ghost<RepView>,
    Ghost(block_max): Ghost<nat>,
) -> (r: (Written, Ghost<Seq<u8>>))
    requires
        start < end <= data@.len(),
        end - start <= 131072,
        end - start <= block_max,
        store.wf(),
        old(entropy).wf(),
        old(entropy).in_step(ctx),
        0 <= strategy <= 9,
        offsets_ready(old(entropy)@, hist.len(), strategy as int),
        stands_at(store, hist, data@.subrange(start as int, end as int), ctx.rep, rep1),
        near_offsets(ctx.rep, reach as nat),
        reach <= 0x1_0000_0000,
    ensures
        final(entropy).wf(),
        final(entropy).in_step(r.0.ctx@),
        final(out)@ == old(out)@ + r.1@,
        is_near_block(
            r.1@,
            last,
            ctx,
            hist,
            r.0.ctx@,
            data@.subrange(start as int, end as int),
            block_max,
            reach as nat,
        ),
        near_offsets(r.0.ctx@.rep, reach as nat),
        r.1@.len() <= 3 + (end - start),
        r.0.kind == BlockKind::Compressed ==> r.0.ctx@.rep == rep1,
        r.0.kind != BlockKind::Compressed ==> r.0.ctx@ == ctx && *final(entropy) == *old(entropy),
        r.0.kind == BlockKind::Rle ==> !first_block && all_same(
            data@.subrange(start as int, end as int),
        ),
        r.0.kind == BlockKind::Compressed ==> r.1@.len() < 3 + (end - start),
        (BlockView { bytes: r.1@, kind: r.0.kind, entropy: final(entropy)@ }) == spec_block(
            data@.subrange(start as int, end as int),
            store.triples(),
            store.literals@,
            old(entropy)@,
            strategy as int,
            disable_literals,
            last,
            first_block,
            reach as nat,
        ),
{
    proof {
        reveal(spec_block);
    }
    let ghost o = out@;
    let ghost block = data@.subrange(start as int, end as int);
    let size: usize = end - start;
    proof {
        lemma_offsets_in_reach(store, hist, block, ctx.rep, rep1, entropy@, strategy as int);
    }
    let near: bool = store.is_near(reach);
    let coded = if near {
        match entropy_compress_seq_store(store, entropy, strategy, disable_literals, size) {
            Ok(c) => c,
            Err(_) => {
                assert(false);
                None
            },
        }
    } else {
        None
    };
    match coded {
        None => {
            write_raw_block(
                out,
                data,
                start,
                end,
                last,
                Ghost(ctx),
                Ghost(hist),
                Ghost(block_max),
            );
            let ghost bytes = block_header_bytes(last, 0, block.len()) + block;
            proof {
                crate::frame_encode::lemma_block_header_len(last, 0, block.len());
            }
            (Written { kind: BlockKind::Raw, ctx: Ghost(ctx) }, Ghost(bytes))
        },
        Some((body, next)) => {
            if !first_block && body.len() < RLE_MAX_LENGTH && is_rle(data, start, end) {
                push_block_header(out, last, 1, size);
                out.push(data[start]);
                let ghost bytes = block_header_bytes(last, 1, block.len()) + seq![block[0]];
                proof {
                    assert(repeat_byte(block[0], block.len()) =~= block);
                    assert forall|t: Seq<u8>| #[trigger]
                        is_block(bytes, last, ctx, t, ctx, t + block, block_max) by {
                        lemma_rle_block(block[0], block.len(), last, ctx, t, block_max);
                    }
                    assert(out@ =~= o + bytes);
                    crate::frame_encode::lemma_block_header_len(last, 1, block.len());
                }
                (Written { kind: BlockKind::Rle, ctx: Ghost(ctx) }, Ghost(bytes))
            } else {
                push_block_header(out, last, 2, body.len());
                out.extend_from_slice(&body);
                let ghost bytes = block_header_bytes(last, 2, body@.len()) + body@;
                let ghost ctx1 = lemma_near_block(
                    body@,
                    store,
                    entropy,
                    &next,
                    last,
                    ctx,
                    hist,
                    block,
                    rep1,
                    block_max,
                    reach as nat,
                );
                proof {
                    assert(out@ =~= o + bytes);
                    crate::frame_encode::lemma_block_header_len(last, 2, body@.len());
                }
                *entropy = next;
                (Written { kind: BlockKind::Compressed, ctx: Ghost(ctx1) }, Ghost(bytes))
            }
        },
    }
}

} // verus!
