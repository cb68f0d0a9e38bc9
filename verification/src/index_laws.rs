//! What the index window keeps: which indices stay valid, and where table
//! entries point once the index space has been recycled.

use crate::frame_model::{FrameView, MatcherView};
use crate::parser::{index_of, pos_of};
use crate::window::{reduced_table, spec_corrected, spec_correction, spec_enforced, spec_update, Window};
use vstd::arithmetic::power2::{lemma2_to64, lemma_pow2_adds, lemma_pow2_strictly_increases, pow2};
use vstd::prelude::*;

verus! {

/// Recycling brings an index down to just above the window (and above one full
/// cycle of the chains), and leaves its place in the cycle as it was.
pub proof fn law_recycling_keeps_the_window(w: Window, cycle_log: u32, window_log: u32, block_start: nat)
    requires
        1 <= cycle_log <= 29,
        window_log <= 31,
        index_of(block_start, w.seg_bias) >= 0xC000_0000,
    ensures
        ({
            let cycle = pow2(cycle_log as nat);
            let far = pow2(window_log as nat);
            let curr = index_of(block_start, w.seg_bias) as int;
            let left = curr - spec_correction(w, cycle_log, far as u32, block_start);
            &&& left % cycle as int == curr % cycle as int
            &&& left >= far + 2
            &&& left >= cycle + 2
            &&& left < far + cycle + 2 || left < 2 * cycle + 2
        }),
{
    lemma2_to64();
    lemma_pow2_strictly_increases(0, cycle_log as nat);
    if cycle_log < 29 {
        lemma_pow2_strictly_increases(cycle_log as nat, 29);
    }
    if window_log < 31 {
        lemma_pow2_strictly_increases(window_log as nat, 31);
    }
    let cycle = pow2(cycle_log as nat) as int;
    let far = pow2(window_log as nat) as int;
    let curr = index_of(block_start, w.seg_bias) as int;
    let low = curr % cycle;
    vstd::arithmetic::div_mod::lemma_mod_bound(curr, cycle);
    let mut n: int = 1;
    if window_log > cycle_log {
        lemma_pow2_strictly_increases(cycle_log as nat, window_log as nat);
        lemma_pow2_adds(cycle_log as nat, (window_log - cycle_log) as nat);
        n = pow2((window_log - cycle_log) as nat) as int;
        assert(far == cycle * n);
    } else if window_log < cycle_log {
        lemma_pow2_strictly_increases(window_log as nat, cycle_log as nat);
    }
    let big = if far > cycle {
        far
    } else {
        cycle
    };
    assert(big == cycle * n) by (nonlinear_arith)
        requires
            big == cycle && n == 1 || big == cycle * n,
    ;
    let left = curr - spec_correction(w, cycle_log, far as u32, block_start);
    assert(left == low + big || left == low + cycle + big);
    vstd::arithmetic::div_mod::lemma_mod_multiples_vanish(n, low, cycle);
    vstd::arithmetic::div_mod::lemma_mod_multiples_vanish(n + 1, low, cycle);
    assert(cycle * (n + 1) == cycle * n + cycle) by (nonlinear_arith);
    vstd::arithmetic::div_mod::lemma_small_mod(low as nat, cycle as nat);
}

/// An entry that is still within reach points to the same position as before;
/// one that is not is emptied. The mark of a tree node that has not been sorted
/// in stays where trees are kept.
pub proof fn law_entries_survive_recycling(table: Seq<u32>, w: Window, correction: u32, marks: bool, i: int)
    requires
        0 <= i < table.len(),
        correction <= u32::MAX - 2,
    ensures
        ({
            let x = table[i];
            let y = reduced_table(table, correction, marks)[i];
            let v = spec_corrected(w, correction);
            &&& x >= correction + 2 && !(marks && x == 1) ==> {
                &&& y == x - correction
                &&& pos_of(y, v.seg_bias) == pos_of(x, w.seg_bias)
                &&& pos_of(y, v.dict_bias) == pos_of(x, w.dict_bias)
            }
            &&& x < correction + 2 && !(marks && x == 1) ==> y == 0
            &&& marks && x == 1 ==> y == 1
        }),
{
}

/// The positions of the window get indices that are lower by what is taken
/// off, and its limits come down with them, but not below the first index that
/// is used.
pub proof fn law_windows_survive_recycling(w: Window, correction: u32, pos: nat)
    requires
        correction <= u32::MAX - 2,
    ensures
        ({
            let v = spec_corrected(w, correction);
            &&& index_of(pos, w.seg_bias) >= correction ==> index_of(pos, v.seg_bias) == index_of(
                pos,
                w.seg_bias,
            ) - correction
            &&& w.low_limit >= correction + 2 ==> v.low_limit == w.low_limit - correction
            &&& w.low_limit < correction + 2 ==> v.low_limit == 2
            &&& w.dict_limit >= correction + 2 ==> v.dict_limit == w.dict_limit - correction
            &&& w.dict_limit < correction + 2 ==> v.dict_limit == 2
            &&& v.next_src_pos == w.next_src_pos
        }),
{
}

/// What lies further back than the window is given up, and no more: the lowest
/// valid index is the higher of what it was and `max_dist` below `idx`.
pub proof fn law_windows_slide(w: Window, idx: u32, max_dist: u32)
    requires
        w.low_limit <= w.dict_limit,
    ensures
        ({
            let v = spec_enforced(w, idx, max_dist);
            &&& v.low_limit >= w.low_limit
            &&& idx - v.low_limit <= max_dist || idx < max_dist || v.low_limit > idx
            &&& v.low_limit > w.low_limit ==> idx - v.low_limit == max_dist
            &&& v.dict_limit == if w.dict_limit < v.low_limit {
                v.low_limit
            } else {
                w.dict_limit
            }
            &&& v.seg_bias == w.seg_bias && v.dict_bias == w.dict_bias
        }),
{
}

/// A chunk that goes on where the last one ended extends the segment, and the
/// indices go on with it. One that does not begins a new segment: the last one
/// becomes the external part, if it is at least eight bytes long, and the
/// indices still go on.
pub proof fn law_chunks_follow_each_other(w: Window, start: nat, end: nat)
    requires
        start < end <= usize::MAX,
        w.low_limit <= w.dict_limit <= w.next_src_idx,
        w.next_src_idx == index_of(w.next_src_pos as nat, w.seg_bias),
    ensures
        ({
            let v = spec_update(w, start, end);
            &&& v.next_src_pos == end
            &&& index_of(start, v.seg_bias) == w.next_src_idx
            &&& v.low_limit >= w.low_limit
            &&& start == w.next_src_pos ==> v.seg_bias == w.seg_bias && v.dict_limit == w.dict_limit
                && v.dict_bias == w.dict_bias
            &&& start != w.next_src_pos ==> v.dict_limit == w.next_src_idx && v.dict_bias == w.seg_bias
            &&& start != w.next_src_pos && w.next_src_idx - w.dict_limit >= 8 ==> v.low_limit
                >= w.dict_limit
            &&& start != w.next_src_pos && w.next_src_idx - w.dict_limit < 8 ==> v.low_limit
                == w.next_src_idx
        }),
{
}

/// The index space is recycled for a block if and only if its indices would
/// pass 3500 MiB; otherwise nothing but the reach of the window changes.
pub proof fn law_indices_are_recycled_late(f: FrameView, pos: nat, block_end: nat)
    requires
        f.window.low_limit <= f.window.dict_limit,
        f.cparams.wf(),
    ensures
        index_of(block_end, f.window.seg_bias) <= 3500 * 0x10_0000 ==> {
            let g = f.slid(pos, block_end);
            &&& g.window == spec_enforced(
                f.window,
                index_of(pos, f.window.seg_bias),
                pow2(f.cparams.window_log as nat) as u32,
            )
            &&& f.matcher is Fast || f.matcher is Dfast ==> g.matcher == f.matcher
            &&& f.matcher matches MatcherView::Lazy(s) ==> g.matcher == MatcherView::Lazy(
                crate::lazy_model::LazyState {
                    next: if s.next < g.window.low_limit {
                        g.window.low_limit
                    } else {
                        s.next
                    },
                    ..s
                },
            )
            &&& f.matcher matches MatcherView::Opt(s) ==> g.matcher == MatcherView::Opt(
                crate::opt_match_model::OptState {
                    next: if s.next < g.window.low_limit {
                        g.window.low_limit
                    } else {
                        s.next
                    },
                    ..s
                },
            )
        },
        index_of(block_end, f.window.seg_bias) > 3500 * 0x10_0000 ==> {
            let g = f.slid(pos, block_end);
            let cycle_log = if f.cparams.strategy.spec_num() >= 6 {
                f.cparams.chain_log - 1
            } else {
                f.cparams.chain_log as int
            };
            let c = spec_correction(
                f.window,
                cycle_log as u32,
                pow2(f.cparams.window_log as nat) as u32,
                pos,
            );
            &&& g.window.seg_bias == spec_corrected(f.window, c).seg_bias
            &&& f.matcher matches MatcherView::Fast { setup, table } ==> g.matcher
                == MatcherView::Fast { setup, table: reduced_table(table, c, false) }
            &&& f.matcher matches MatcherView::Dfast { logs, window_log, tables } ==> g.matcher
                == MatcherView::Dfast {
                logs,
                window_log,
                tables: crate::dfast_model::Tables {
                    long: reduced_table(tables.long, c, false),
                    small: reduced_table(tables.small, c, false),
                },
            }
            &&& f.matcher matches MatcherView::Lazy(s) ==> g.matcher matches MatcherView::Lazy(t)
                && t.hash == reduced_table(s.hash, c, false)
            &&& f.matcher matches MatcherView::Opt(s) ==> g.matcher matches MatcherView::Opt(t)
                && t.hash == reduced_table(s.hash, c, false) && t.tree == reduced_table(
                s.tree,
                c,
                false,
            )
        },
{
}

} // verus!
