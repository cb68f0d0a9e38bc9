//! How the parts of a frame are put together again when it is read.

use crate::block::{
    exec_sequences, lit_header, sequence_count, spec_compressed_block, spec_copy, spec_literals, spec_sequence_table,
    spec_sequences_section, CtxView, SeqKind, SequenceView,
};
use crate::decompress::{
    dict_content, dict_ctx, resolve_dictionary, spec_block, spec_blocks, spec_frame, spec_frame_end, OptionsView,
};
use crate::error::Error;
use crate::format_laws::law_matches_repeat_the_history;
use crate::frame::spec_parse;
use crate::fse::{rle_view, spec_dtable, FseTableView};
use crate::huffman::{spec_complete_weights, spec_listed_weights, weight_sum, HuffmanTableView};
use crate::stream::{opened_frame, step_block, FrameStateView, PhaseView, Step};
use vstd::arithmetic::power2::{lemma2_to64, lemma_pow2_pos, lemma_pow2_strictly_increases, lemma_pow2_unfold, pow2};
use vstd::prelude::*;

verus! {

/// Raw literals are the bytes after their header, and repeated ones one byte
/// over and over; either kind is accepted as long as all of it is there and the
/// block may be that large, and leaves the table for coded literals as it was.
pub proof fn law_plain_literals(huf: Option<HuffmanTableView>, src: Seq<u8>, block_max: nat)
    requires
        lit_header(src) is Ok,
        lit_header(src)->Ok_0.lit_type <= 1,
    ensures
        ({
            let h = lit_header(src)->Ok_0;
            let r = spec_literals(huf, src, block_max);
            let n = if h.lit_type == 0 {
                h.regenerated
            } else {
                1
            };
            &&& r is Ok <==> h.regenerated <= block_max && src.len() >= h.len + n
            &&& r matches Ok(l) ==> {
                &&& l.literals.len() == h.regenerated
                &&& l.used == h.len + n
                &&& l.huffman == huf
                &&& forall|i: int|
                    0 <= i < h.regenerated ==> #[trigger] l.literals[i] == src[h.len + if h.lit_type
                        == 0 {
                        i
                    } else {
                        0
                    }]
            }
        }),
{
}

/// Coded literals without a table of their own need one from before; the table
/// that was used stays in force.
pub proof fn law_coded_literals(huf: Option<HuffmanTableView>, src: Seq<u8>, block_max: nat)
    requires
        lit_header(src) is Ok,
        lit_header(src)->Ok_0.lit_type >= 2,
    ensures
        ({
            let h = lit_header(src)->Ok_0;
            let r = spec_literals(huf, src, block_max);
            &&& h.lit_type == 3 && huf is None ==> r is Err
            &&& h.regenerated > block_max ==> r is Err
            &&& src.len() < h.len + h.compressed ==> r is Err
            &&& r matches Ok(l) ==> {
                &&& l.used == h.len + h.compressed
                &&& l.huffman is Some
                &&& h.lit_type == 3 ==> l.huffman == huf
            }
        }),
{
}

/// A component uses its predefined table, one code alone, a table that is
/// described here, or the one from before.
pub proof fn law_sequence_tables(previous: Option<FseTableView>, mode: nat, input: Seq<u8>, kind: SeqKind)
    requires
        mode <= 3,
    ensures
        ({
            let r = spec_sequence_table(previous, mode, input, kind);
            let top: nat = match kind {
                SeqKind::LiteralLength => 35,
                SeqKind::Offset => 31,
                SeqKind::MatchLength => 52,
            };
            let log: nat = match kind {
                SeqKind::LiteralLength => 6,
                SeqKind::Offset => 5,
                SeqKind::MatchLength => 6,
            };
            &&& mode == 0 ==> r == Ok::<(FseTableView, nat), Error>(
                (spec_dtable(kind.default_counts(), log), 0),
            )
            &&& mode == 1 ==> (r is Ok <==> input.len() > 0 && input[0] <= top)
            &&& mode == 1 && r is Ok ==> r->Ok_0 == (rle_view(input[0]), 1nat)
            &&& mode == 3 ==> (r is Ok <==> previous is Some)
            &&& mode == 3 && r is Ok ==> r->Ok_0 == (previous->0, 0nat)
        }),
{
}

/// A sequence appends its literals and then its match, each byte of which is
/// the one `offset` places before it. It is refused where there are not enough
/// literals, where it reaches before all history, or where the block or the
/// output would grow too large; and then the next one is executed.
pub proof fn law_sequences_are_executed(
    seqs: Seq<SequenceView>,
    i: nat,
    literals: Seq<u8>,
    lit_pos: nat,
    h: Seq<u8>,
    h0: nat,
    block_max: nat,
    room: int,
)
    requires
        i < seqs.len(),
        lit_pos <= literals.len(),
        seqs[i as int].offset >= 1,
    ensures
        ({
            let q = seqs[i as int];
            let r = exec_sequences(seqs, i, literals, lit_pos, h, h0, block_max, room);
            let grown = h.len() + q.lit_len + q.match_len - h0;
            let fits = lit_pos + q.lit_len <= literals.len() && q.offset <= h.len() + q.lit_len && grown
                <= block_max && grown <= room;
            &&& !fits ==> r is Err
            &&& fits ==> exists|g: Seq<u8>|
                {
                    &&& g.len() == h.len() + q.lit_len + q.match_len
                    &&& g.take(h.len() as int) == h
                    &&& g.subrange(h.len() as int, (h.len() + q.lit_len) as int) == literals.subrange(
                        lit_pos as int,
                        (lit_pos + q.lit_len) as int,
                    )
                    &&& forall|k: int|
                        h.len() + q.lit_len <= k < g.len() ==> #[trigger] g[k] == g[k - q.offset]
                    &&& r == #[trigger] exec_sequences(
                        seqs,
                        i + 1,
                        literals,
                        lit_pos + q.lit_len,
                        g,
                        h0,
                        block_max,
                        room,
                    )
                }
        }),
{
    let q = seqs[i as int];
    let fits = lit_pos + q.lit_len <= literals.len() && q.offset <= h.len() + q.lit_len;
    if fits {
        let lits = literals.subrange(lit_pos as int, (lit_pos + q.lit_len) as int);
        let h1 = h + lits;
        law_matches_repeat_the_history(h1, q.offset, q.match_len);
        let g = spec_copy(h1, q.offset, q.match_len);
        assert(g.take(h.len() as int) =~= h) by {
            assert forall|k: int| 0 <= k < h.len() implies g[k] == h[k] by {
                assert(g[k] == h1[k]);
            }
        }
        assert(g.subrange(h.len() as int, (h.len() + q.lit_len) as int) =~= lits) by {
            assert forall|k: int| 0 <= k < q.lit_len implies g[h.len() + k] == lits[k] by {
                assert(g[h.len() + k] == h1[h.len() + k]);
            }
        }
        assert(exec_sequences(seqs, i, literals, lit_pos, h, h0, block_max, room) == exec_sequences(
            seqs,
            i + 1,
            literals,
            lit_pos + q.lit_len,
            g,
            h0,
            block_max,
            room,
        ) || !(g.len() - h0 <= block_max && g.len() - h0 <= room));
    } else if lit_pos + q.lit_len > literals.len() {
    }
}

/// A block without sequences is its literals.
pub proof fn law_blocks_of_literals(ctx: CtxView, src: Seq<u8>, hist: Seq<u8>, block_max: nat, room: int)
    requires
        spec_literals(ctx.huffman, src, block_max) is Ok,
        ({
            let l = spec_literals(ctx.huffman, src, block_max)->Ok_0;
            src.len() == l.used + 1 && src[l.used as int] == 0
        }),
    ensures
        ({
            let l = spec_literals(ctx.huffman, src, block_max)->Ok_0;
            let r = spec_compressed_block(ctx, src, hist, block_max, room);
            &&& l.literals.len() > room ==> r is Err
            &&& l.literals.len() <= room ==> r == Ok::<(CtxView, Seq<u8>), Error>(
                (CtxView { huffman: l.huffman, ..ctx }, hist + l.literals),
            )
        }),
{
    reveal(spec_compressed_block);
    reveal(spec_sequences_section);
    let l = spec_literals(ctx.huffman, src, block_max)->Ok_0;
    let rest = src.skip(l.used as int);
    assert(rest.len() == 1 && rest[0] == 0);
    assert(sequence_count(rest) == Ok::<(nat, nat), Error>((0, 1)));
}

/// The blocks of a frame follow each other up to the one that is marked as the
/// last; each is applied to the history that those before it leave.
pub proof fn law_blocks_follow_each_other(
    ctx: CtxView,
    input: Seq<u8>,
    hist: Seq<u8>,
    block_max: nat,
    base: nat,
    room: int,
)
    ensures
        ({
            let b = spec_block(ctx, input, hist, block_max, room - (hist.len() - base));
            let r = spec_blocks(ctx, input, hist, block_max, base, room);
            &&& b matches Err(e) ==> r == Err::<(Seq<u8>, Seq<u8>), Error>(e)
            &&& b matches Ok(s) ==> {
                let rest = input.skip(s.used as int);
                &&& s.last ==> r == Ok::<(Seq<u8>, Seq<u8>), Error>((s.hist, rest))
                &&& !s.last && 0 < s.used <= input.len() ==> r == spec_blocks(
                    s.ctx,
                    rest,
                    s.hist,
                    block_max,
                    base,
                    room,
                )
            }
        }),
{
}

/// A frame is read with the dictionary that it asks for in front of its
/// content; its blocks are at most 128 KiB, or the window, if that is smaller;
/// it is refused before its blocks are read if it says that it is too long; and
/// its content is all that its blocks add, once size and checksum are right.
pub proof fn law_frames_are_read(opts: OptionsView, src: Seq<u8>, before: nat)
    requires
        spec_parse(src, opts.window_log_max) is Ok,
    ensures
        ({
            let h = spec_parse(src, opts.window_log_max)->Ok_0;
            let r = spec_frame(opts, src, before);
            let d = resolve_dictionary(opts.dictionary, h.dict_id);
            let block_max: nat = if h.window_size < 0x2_0000 {
                h.window_size as nat
            } else {
                0x2_0000
            };
            &&& d matches Err(e) ==> r == Err::<(Seq<u8>, Seq<u8>), Error>(e)
            &&& d is Ok && h.content_size is Some && h.content_size->0 + before > opts.limit ==> r
                == Err::<(Seq<u8>, Seq<u8>), Error>(Error::OutputTooLarge)
            &&& d is Ok && (h.content_size is None || h.content_size->0 + before <= opts.limit) ==> {
                let prefix = dict_content(d->Ok_0);
                let b = spec_blocks(
                    dict_ctx(d->Ok_0),
                    src.skip(h.header_len as int),
                    prefix,
                    block_max,
                    prefix.len(),
                    opts.limit - before,
                );
                &&& b matches Err(e) ==> r == Err::<(Seq<u8>, Seq<u8>), Error>(e)
                &&& b matches Ok(x) ==> {
                    let content = x.0.skip(prefix.len() as int);
                    let e = spec_frame_end(h, content, x.1);
                    &&& e is Err ==> r is Err && r->Err_0 == e->Err_0
                    &&& e is Ok ==> r == Ok::<(Seq<u8>, Seq<u8>), Error>((content, e->Ok_0))
                    &&& h.content_size is Some && h.content_size->0 != content.len() ==> r == Err::<
                        (Seq<u8>, Seq<u8>),
                        Error,
                    >(Error::FrameContentSizeMismatch)
                    &&& (h.content_size is None || h.content_size->0 == content.len())
                        && !h.has_checksum ==> r == Ok::<(Seq<u8>, Seq<u8>), Error>(
                        (content, x.1),
                    )
                }
            }
        }),
{
    reveal(spec_frame);
}

/// Weights that are listed one by one are the halves of the bytes, the upper
/// half first: as many as the header byte is above 127.
pub proof fn law_listed_weights(src: Seq<u8>, i: int)
    requires
        src.len() > 0,
        src[0] >= 128,
    ensures
        ({
            let n = src[0] - 127;
            let r = spec_listed_weights(src);
            let size = 1 + (n + 1) / 2;
            &&& r is Ok <==> src.len() >= size
            &&& r matches Ok(w) ==> {
                &&& w.0.len() == n
                &&& w.1 == size
                &&& 0 <= i && 2 * i + 1 < n ==> 16 * w.0[2 * i] + w.0[2 * i + 1] == src[1 + i]
                &&& 0 <= i && 2 * i < n ==> w.0[2 * i] == src[1 + i] / 16
            }
        }),
{
}

/// The last weight is left out: it is the one that fills the code space up to
/// the next power of two, which has at most 2^12 places.
pub proof fn law_weights_are_completed(listed: Seq<u8>, log: nat, last: nat)
    requires
        forall|i: int| 0 <= i < listed.len() ==> #[trigger] listed[i] <= 12,
        listed.len() < 256,
        1 <= log <= 12,
        1 <= last,
        pow2((log - 1) as nat) <= weight_sum(listed),
        weight_sum(listed) + pow2((last - 1) as nat) == pow2(log),
    ensures
        spec_complete_weights(listed) == Ok::<(Seq<u8>, nat), Error>((listed.push(last as u8), log)),
{
    let total = weight_sum(listed);
    lemma2_to64();
    lemma_pow2_pos((last - 1) as nat);
    lemma_pow2_pos((log - 1) as nat);
    crate::bits::lemma_highest_bit_bound(total, log);
    let b = crate::bits::highest_bit(total);
    if b < log - 1 {
        lemma_pow2_unfold(b + 1);
        if b + 1 < log - 1 {
            lemma_pow2_strictly_increases(b + 1, (log - 1) as nat);
        }
    }
    assert(b == log - 1);
    let rest = (pow2(log) - total) as nat;
    lemma_power_has_its_bit((last - 1) as nat);
    if last - 1 >= 12 {
        if last - 1 > 12 {
            lemma_pow2_strictly_increases(12, (last - 1) as nat);
        }
        if log < 12 {
            lemma_pow2_strictly_increases(log, 12);
        }
    }
}

/// The highest bit of a power of two.
proof fn lemma_power_has_its_bit(k: nat)
    ensures
        crate::bits::highest_bit(pow2(k)) == k,
    decreases k,
{
    lemma2_to64();
    if k > 0 {
        lemma_pow2_unfold(k);
        lemma_pow2_pos((k - 1) as nat);
        lemma_power_has_its_bit((k - 1) as nat);
        assert(pow2(k) / 2 == pow2((k - 1) as nat));
    }
}

/// Options start with no output limit, the largest window that the format has,
/// and no dictionary.
pub proof fn law_default_options(opts: OptionsView)
    requires
        opts == crate::decompress::default_options(),
    ensures
        opts.limit == usize::MAX,
        opts.window_log_max == 31,
        opts.dictionary is None,
{
}

/// A stream keeps, of what it has put out and the dictionary before it, the
/// last bytes that its window holds, and no fewer.
pub proof fn law_streams_keep_a_window(
    opts: OptionsView,
    f: FrameStateView,
    total: nat,
    avail: Seq<u8>,
    eof: bool,
)
    ensures
        step_block(opts, f, total, avail, eof) matches Step::Go { state, used, out } ==> {
            let g = match state.phase {
                PhaseView::Blocks(g) => g,
                PhaseView::Footer(g) => g,
                _ => f,
            };
            let b = spec_block(f.ctx, avail, f.win, f.block_max, usize::MAX - f.win.len())->Ok_0;
            &&& state.phase is Blocks || state.phase is Footer
            &&& out == b.hist.skip(f.win.len() as int)
            &&& used == b.used
            &&& b.last <==> state.phase is Footer
            &&& state.total == total + out.len() && state.total <= opts.limit
            &&& g.win.len() == if b.hist.len() < f.window {
                b.hist.len()
            } else {
                f.window
            }
            &&& g.win == b.hist.skip(b.hist.len() - g.win.len())
            &&& g.content == f.content + out
            &&& g.window == f.window && g.block_max == f.block_max && g.ctx == b.ctx
        },
{
    reveal(step_block);
    let s = step_block(opts, f, total, avail, eof);
    if s is Go {
        let b = spec_block(f.ctx, avail, f.win, f.block_max, usize::MAX - f.win.len())->Ok_0;
        assert(b.hist.skip(0) =~= b.hist);
    }
}

/// A frame that is opened has the window and the blocks that its header says.
pub proof fn law_streams_open_frames(opts: OptionsView, h: crate::frame::FrameHeader)
    ensures
        opened_frame(opts, h) matches Ok(f) ==> {
            &&& h.window_size <= usize::MAX ==> f.window == h.window_size
            &&& f.block_max <= 0x2_0000 && f.block_max <= h.window_size
            &&& f.block_max == 0x2_0000 || f.block_max == h.window_size
            &&& f.content.len() == 0
            &&& f.content_size == h.content_size && f.has_checksum == h.has_checksum
            &&& f.win == dict_content(resolve_dictionary(opts.dictionary, h.dict_id)->Ok_0)
            &&& f.ctx == dict_ctx(resolve_dictionary(opts.dictionary, h.dict_id)->Ok_0)
        },
{
}

} // verus!
