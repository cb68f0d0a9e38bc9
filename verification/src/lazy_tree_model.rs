//! What the searches in late-sorted trees do, step by step.

use crate::bits::highest_bit;
use crate::fast_model::spec_lowest_index;
use crate::layout::Layout;
use crate::lazy_model::{less, FoundView, LazyPlace, LazyState};
use crate::lazy_search::SearchMethod;
use crate::parser::{index_of, pos_of, spec_hash};
use crate::tree_model::{inserted, node_below, reach, slot_of, sorted_in, DescentView, Insertion, TreePlace};
use vstd::arithmetic::power2::pow2;
use vstd::prelude::*;

verus! {

/// The `len` bytes at `ip` and at `m` are equal.
pub open spec fn same_run(data: Seq<u8>, ip: int, m: int, len: int) -> bool {
    forall|k: int| 0 <= k < len ==> #[trigger] data[ip + k] == data[m + k]
}

/// Index `idx` chained under its hash, and marked as not sorted.
pub open spec fn marked(s: LazyState, data: Seq<u8>, idx: u32, bias: u32) -> LazyState {
    let pos = pos_of(idx, bias);
    if pos <= data.len() - 8 {
        let h = spec_hash(data, pos, s.hash_log, s.mls) as int;
        let slot = slot_of(s.chain_log, idx);
        LazyState {
            chain: s.chain.update(slot, s.hash[h]).update(slot + 1, 1),
            hash: s.hash.update(h, idx),
            ..s
        }
    } else {
        s
    }
}

/// The indices from `idx` up to `goal` chained.
#[verifier::opaque]
pub open spec fn all_marked(s: LazyState, data: Seq<u8>, idx: u32, goal: u32, bias: u32) -> LazyState
    decreases goal - idx,
{
    if idx < goal {
        all_marked(marked(s, data, idx, bias), data, (idx + 1) as u32, goal, bias)
    } else {
        s
    }
}

/// The indices from `idx` up to `goal` sorted in, passing over what a long
/// match covers.
#[verifier::opaque]
pub open spec fn all_sorted(
    s: LazyState,
    data: Seq<u8>,
    idx: u32,
    goal: u32,
    end: int,
    bias: u32,
    low: u32,
) -> LazyState
    decreases goal - idx,
{
    if idx < goal {
        let pos = pos_of(idx, bias);
        let r = sorted_in(
            s.hash,
            s.chain,
            data,
            pos,
            end,
            bias,
            low,
            spec_hash(data, pos, s.hash_log, s.mls) as int,
            s.chain_log,
            s.search_log,
        );
        let s1 = if pos <= end - 8 {
            LazyState { hash: r.hash, chain: r.table, ..s }
        } else {
            s
        };
        let forward = if pos <= end - 8 && r.forward > 1 {
            r.forward
        } else {
            1
        };
        all_sorted(
            s1,
            data,
            if forward < goal - idx {
                (idx + forward) as u32
            } else {
                goal
            },
            goal,
            end,
            bias,
            low,
        )
    } else {
        s
    }
}

/// A chained position sorted into the tree. One before the seam is compared
/// only up to it.
#[verifier::opaque]
pub open spec fn late_sorted(
    s: LazyState,
    data: Seq<u8>,
    curr: u32,
    end: int,
    left: nat,
    bt_low: u32,
    win: Layout,
) -> LazyState {
    let bias = win.bias;
    let ip = pos_of(curr, bias);
    let limit = if curr >= win.dict_limit {
        end
    } else {
        pos_of(win.dict_limit, bias)
    };
    if ip > limit || limit > end {
        s
    } else {
        let r = inserted(
            TreePlace { data, ip, end: limit, bias, log: s.chain_log, bt_low },
            spec_lowest_index(curr, win.low_limit, s.window_log) + 1,
            Insertion {
                table: s.chain,
                d: DescentView::start(s.chain_log, curr),
                match_end: curr,
                best: 8,
            },
            Some(s.chain[slot_of(s.chain_log, curr)]),
            left,
        );
        LazyState { chain: r.d.closed(r.table), ..s }
    }
}

/// The chain of unsorted positions turned round from `idx` on, in front of
/// `previous`: the table, the last that was turned, the one after it, and what
/// is left of the budget.
#[verifier::opaque]
pub open spec fn turned(table: Seq<u32>, log: u32, limit: u32, idx: u32, previous: u32, left: nat) -> (
    Seq<u32>,
    u32,
    u32,
    nat,
)
    decreases left,
{
    let slot = slot_of(log, idx);
    if idx > limit && table[slot + 1] == 1 && left > 1 {
        let t = table.update(slot + 1, previous);
        turned(t, log, limit, t[slot], idx, (left - 1) as nat)
    } else {
        (table, previous, idx, left)
    }
}

/// The table with the node `idx` emptied, if it is still unsorted.
pub open spec fn emptied(table: Seq<u32>, log: u32, limit: u32, idx: u32) -> Seq<u32> {
    let slot = slot_of(log, idx);
    if idx > limit && table[slot + 1] == 1 {
        table.update(slot, 0).update(slot + 1, 0)
    } else {
        table
    }
}

/// The stacked positions from `idx` on sorted in, the `k`-th of `count` being
/// next.
#[verifier::opaque]
pub open spec fn stack_sorted(
    s: LazyState,
    data: Seq<u8>,
    idx: u32,
    end: int,
    k: nat,
    count: nat,
    left: nat,
    limit: u32,
    win: Layout,
) -> LazyState
    decreases count - k,
{
    if idx != 0 && k < count {
        let after = s.chain[slot_of(s.chain_log, idx) + 1];
        stack_sorted(
            late_sorted(s, data, idx, end, left + k, limit, win),
            data,
            after,
            end,
            k + 1,
            count,
            left,
            limit,
            win,
        )
    } else {
        s
    }
}

/// The state of a search in the tree.
pub struct TreeSearch {
    pub table: Seq<u32>,
    pub d: DescentView,
    pub match_end: u32,
    pub best: FoundView,
    pub left: nat,
}

/// A match of `len` bytes at the distance `offset` is worth more than `best`:
/// four bytes outweigh one bit more of offset.
pub open spec fn worth_more(len: nat, offset: nat, best: FoundView, best_cost: nat) -> bool {
    4 * (len - best.len) > highest_bit(offset + 1) - highest_bit(best_cost)
}

/// Descends from `node` on, hanging each node, for the best match. What is left
/// of the budget is nothing, where the end was reached.
#[verifier::opaque]
pub open spec fn tree_searched(w: TreePlace, window_low: u32, s: TreeSearch, node: Option<u32>) -> TreeSearch
    decreases s.left,
{
    match node {
        Some(idx) => {
            let m = pos_of(idx, w.bias);
            if s.left > 0 && idx > window_low && m < w.ip {
                let len = w.len_with(idx, s.d.common());
                let offset = (w.ip - m) as nat;
                let longer = len > s.best.len;
                let s1 = TreeSearch {
                    match_end: if longer {
                        reach(s.match_end, idx, len)
                    } else {
                        s.match_end
                    },
                    best: if longer && worth_more(len, offset, s.best, s.best.off_base) && same_run(
                        w.data,
                        w.ip,
                        m,
                        len as int,
                    ) {
                        FoundView { len, off_base: offset + 3 }
                    } else {
                        s.best
                    },
                    ..s
                };
                if w.ip + len < w.end {
                    let smaller = w.is_smaller(idx, len);
                    let t = s.d.table_after(s.table, idx, smaller);
                    let next = node_below(t, w.log, idx, smaller, w.bt_low);
                    let s2 = TreeSearch {
                        table: t,
                        d: s.d.below(w.log, idx, smaller, len, w.bt_low),
                        ..s1
                    };
                    if next is Some {
                        tree_searched(
                            w,
                            window_low,
                            TreeSearch { left: (s.left - 1) as nat, ..s2 },
                            next,
                        )
                    } else {
                        s2
                    }
                } else if longer {
                    TreeSearch { left: 0, ..s1 }
                } else {
                    s1
                }
            } else {
                s
            }
        },
        None => s,
    }
}

/// Descends the tree of an attached dictionary for something better than
/// `best`.
#[verifier::opaque]
pub open spec fn dict_tree_searched(
    w: TreePlace,
    table: Seq<u32>,
    common_smaller: nat,
    common_larger: nat,
    node: Option<u32>,
    left: nat,
    best: FoundView,
) -> FoundView
    decreases left,
{
    match node {
        Some(idx) => {
            let m = pos_of(idx, 2);
            if left > 0 && idx > 2 && m < w.ip {
                let common = if common_smaller < common_larger {
                    common_smaller
                } else {
                    common_larger
                };
                let len = w.len_with(idx, common);
                let offset = (w.ip - m) as nat;
                let b = if len > best.len && worth_more(len, offset, best, best.off_base + 1)
                    && same_run(w.data, w.ip, m, len as int) {
                    FoundView { len, off_base: offset + 3 }
                } else {
                    best
                };
                if w.ip + len < w.end && idx > w.bt_low {
                    let smaller = w.is_smaller(idx, len);
                    let slot = slot_of(w.log, idx);
                    dict_tree_searched(
                        w,
                        table,
                        if smaller {
                            len
                        } else {
                            common_smaller
                        },
                        if smaller {
                            common_larger
                        } else {
                            len
                        },
                        Some(
                            if smaller {
                                table[slot + 1]
                            } else {
                                table[slot]
                            },
                        ),
                        (left - 1) as nat,
                        b,
                    )
                } else {
                    b
                }
            } else {
                best
            }
        },
        None => best,
    }
}

/// The same from the tree's root on.
pub open spec fn dict_tree_best(
    d: LazyState,
    content_len: int,
    mls: u32,
    data: Seq<u8>,
    ip: int,
    end: int,
    left: nat,
    best: FoundView,
) -> FoundView {
    let size = pow2((d.chain_log - 1) as nat);
    let high = if content_len < 0xFFFF_FFFD {
        content_len + 2
    } else {
        0xFFFF_FFFF
    };
    let bt_low = if size - 1 >= high - 2 {
        2
    } else {
        high - (size - 1)
    };
    dict_tree_searched(
        TreePlace { data, ip, end, bias: 2, log: d.chain_log, bt_low: bt_low as u32 },
        d.chain,
        0,
        0,
        Some(d.hash[spec_hash(data, ip, d.hash_log, mls) as int]),
        left,
        best,
    )
}

/// What has been chained sorted in, and then the best match of the position.
#[verifier::opaque]
pub open spec fn late_tree_best(w: LazyPlace, s: LazyState, ip: int) -> (LazyState, FoundView) {
    let bias = w.win.bias;
    let curr = index_of(ip as nat, bias);
    let h = spec_hash(w.data, ip, s.hash_log, s.mls) as int;
    let window_low = spec_lowest_index(curr, w.win.low_limit, s.window_log);
    let bt_low = less(curr, (pow2((s.chain_log - 1) as nat) - 1) as nat);
    let limit = if bt_low > window_low {
        bt_low
    } else {
        window_low
    };
    let budget = pow2(s.search_log as nat);
    let (t1, stacked, last, left) = turned(s.chain, s.chain_log, limit, s.hash[h], 0, budget);
    let s1 = LazyState { chain: emptied(t1, s.chain_log, limit, last), ..s };
    let s2 = stack_sorted(
        s1,
        w.data,
        stacked,
        w.end,
        0,
        (budget - left) as nat,
        left,
        limit,
        w.win,
    );
    let r = tree_searched(
        TreePlace { data: w.data, ip, end: w.end, bias, log: s.chain_log, bt_low },
        window_low,
        TreeSearch {
            table: s2.chain,
            d: DescentView::start(s.chain_log, curr),
            match_end: ((curr + 9) % 0x1_0000_0000) as u32,
            best: FoundView { len: 0, off_base: 999_999_999 },
            left: budget,
        },
        Some(s2.hash[h]),
    );
    let s3 = LazyState {
        hash: s2.hash.update(h, curr),
        chain: r.d.closed(r.table),
        next: ((r.match_end - 8) % 0x1_0000_0000) as u32,
        ..s2
    };
    match w.dict {
        Some((d, content_len)) => if r.left > 0 && d.method == SearchMethod::BinaryTree {
            (
                s3,
                dict_tree_best(d, content_len, s.mls, w.data, ip, w.end, r.left, r.best),
            )
        } else {
            (s3, r.best)
        },
        None => (s3, r.best),
    }
}

/// The best match of the position in the tree; none where a long match has
/// passed over it.
pub open spec fn tree_best(w: LazyPlace, s: LazyState, ip: int) -> (LazyState, FoundView) {
    let curr = index_of(ip as nat, w.win.bias);
    if curr < s.next {
        (s, FoundView { len: 0, off_base: 999_999_999 })
    } else {
        late_tree_best(
            w,
            LazyState { next: curr, ..all_marked(s, w.data, s.next, curr, w.win.bias) },
            ip,
        )
    }
}

} // verus!
