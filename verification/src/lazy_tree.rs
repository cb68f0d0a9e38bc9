//! Searching for the best match in a binary tree that is sorted late: new
//! positions are only chained, and sorted in when a search comes by.

use crate::bits::highbit32;
use crate::fast::lowest_index;
use crate::layout::Layout;
use crate::lazy_model::{FoundView, LazyState};
use crate::lazy_search::{found_ok, place_of, AttachedDict, Found, LazyCtx, SearchMethod, NO_OFFSET};
use crate::lazy_tree_model::{
    all_marked, all_sorted, dict_tree_best, dict_tree_searched, emptied, late_sorted, late_tree_best, marked,
    same_run, stack_sorted, tree_best, tree_searched, turned, TreeSearch,
};
use crate::math::pow2_u64;
use crate::parser::{count_eq, eq_run, hash_ptr, index_of, to_index, to_pos};
use crate::tree::{descend, further, insert_bt1, tree_size, tree_slot, Descent};
use crate::tree_model::{DescentView, TreePlace};
use crate::window::WINDOW_START_INDEX;
use vstd::arithmetic::power2::{lemma2_to64, lemma_pow2_strictly_increases};
use vstd::prelude::*;

verus! {

/// In a node's second slot: the node has not been sorted in yet.
pub const DUBT_UNSORTED_MARK: u32 = 1;

/// Whether the `len` bytes at `ip` and at `m` are equal.
pub fn run_holds(data: &[u8], ip: usize, m: usize, len: usize) -> (r: bool)
    requires
        m < ip,
        ip + len <= data@.len(),
    ensures
        r ==> eq_run(data@, ip as int, ip - m, len as int),
        r == same_run(data@, ip as int, m as int, len as int),
{
    let total: usize = data.len();
    let n: usize = count_eq(data, ip, m, ip + len);
    if n < len {
        assert(data@[ip + n] != data@[m + n]);
    }
    n == len
}

impl LazyCtx {
    pub open spec fn is_tree(&self) -> bool {
        self.wf() && self.method == SearchMethod::BinaryTree
    }
}

/// Chains the positions before index `target`, unsorted.
fn update_dubt(ctx: &mut LazyCtx, data: &[u8], target: u32, bias: u32)
    requires
        old(ctx).is_tree(),
        data@.len() <= u32::MAX,
    ensures
        final(ctx).is_tree(),
        final(ctx).same_params(old(ctx)),
        final(ctx).next_to_update == target,
        final(ctx)@ == (LazyState {
            next: target,
            ..all_marked(old(ctx)@, data@, old(ctx).next_to_update, target, bias)
        }),
{
    let ghost entry = *ctx;
    let n: usize = data.len();
    let mut idx: u32 = ctx.next_to_update;
    while idx < target
        invariant
            ctx.is_tree(),
            ctx.same_params(&entry),
            n == data@.len(),
            all_marked(entry@, data@, entry.next_to_update, target, bias) == all_marked(
                ctx@,
                data@,
                idx,
                target,
                bias,
            ),
        decreases target - idx,
    {
        proof {
            reveal_with_fuel(all_marked, 1);
        }
        let ghost before = ctx@;
        let pos: usize = to_pos(idx, bias);
        if n >= 8 && pos <= n - 8 {
            let h: usize = hash_ptr(data, pos, ctx.hash_log, ctx.mls);
            let slot: usize = tree_slot(ctx.chain_log, idx);
            let head: u32 = ctx.hash_table[h];
            ctx.chain_table.set(slot, head);
            ctx.chain_table.set(slot + 1, DUBT_UNSORTED_MARK);
            ctx.hash_table.set(h, idx);
        }
        assert(ctx@ == marked(before, data@, idx, bias));
        idx = idx + 1;
    }
    proof {
        reveal_with_fuel(all_marked, 1);
    }
    ctx.next_to_update = target;
}

/// Sorts the positions before index `target` into the tree, as a dictionary
/// is loaded.
pub fn update_tree_nodict(ctx: &mut LazyCtx, data: &[u8], target: u32, end: usize, bias: u32, low: u32)
    requires
        old(ctx).is_tree(),
        end <= data@.len() <= u32::MAX,
    ensures
        final(ctx).is_tree(),
        final(ctx).same_params(old(ctx)),
        final(ctx).next_to_update == target,
        final(ctx)@ == (LazyState {
            next: target,
            ..all_sorted(
                old(ctx)@,
                data@,
                old(ctx).next_to_update,
                target,
                end as int,
                bias,
                low,
            )
        }),
{
    let ghost entry = *ctx;
    let mut idx: u32 = ctx.next_to_update;
    while idx < target
        invariant
            ctx.is_tree(),
            ctx.same_params(&entry),
            end <= data@.len() <= u32::MAX,
            all_sorted(
                entry@,
                data@,
                entry.next_to_update,
                target,
                end as int,
                bias,
                low,
            ) == all_sorted(ctx@, data@, idx, target, end as int, bias, low),
        decreases target - idx,
    {
        proof {
            reveal_with_fuel(all_sorted, 1);
        }
        let pos: usize = to_pos(idx, bias);
        let forward: u32 = if end >= 8 && pos <= end - 8 {
            let h: usize = hash_ptr(data, pos, ctx.hash_log, ctx.mls);
            insert_bt1(
                &mut ctx.hash_table,
                &mut ctx.chain_table,
                data,
                pos,
                end,
                bias,
                low,
                h,
                ctx.chain_log,
                ctx.search_log,
            )
        } else {
            1
        };
        idx = if forward < target - idx {
            idx + forward
        } else {
            target
        };
    }
    proof {
        reveal_with_fuel(all_sorted, 1);
    }
    ctx.next_to_update = target;
}

/// Sorts a chained position into the tree. One before the seam is compared
/// only up to it.
fn insert_dubt1(
    ctx: &mut LazyCtx,
    data: &[u8],
    curr: u32,
    end: usize,
    nb: u32,
    bt_low: u32,
    win: &Layout,
)
    requires
        old(ctx).is_tree(),
        end <= data@.len() <= u32::MAX,
    ensures
        final(ctx).is_tree(),
        final(ctx).same_params(old(ctx)),
        final(ctx)@ == late_sorted(
            old(ctx)@,
            data@,
            curr,
            end as int,
            nb as nat,
            bt_low,
            *win,
        ),
{
    proof {
        reveal(late_sorted);
    }
    let bias: u32 = win.bias;
    let ip: usize = to_pos(curr, bias);
    let limit: usize = if curr >= win.dict_limit {
        end
    } else {
        to_pos(win.dict_limit, bias)
    };
    if ip > limit || limit > end {
        return ;
    }
    let window_low: u32 = lowest_index(curr, win.low_limit, ctx.window_log);
    let mut d = Descent::start(ctx.chain_log, curr, Ghost(ip as int), Ghost(limit as int));
    let root: usize = tree_slot(ctx.chain_log, curr);
    let head: u32 = ctx.chain_table[root];
    let (_reach, _len) = descend(
        &mut ctx.chain_table,
        &mut d,
        data,
        ip,
        limit,
        bias,
        window_low as u64 + 1,
        ctx.chain_log,
        bt_low,
        head,
        curr,
        nb,
    );
    d.close(&mut ctx.chain_table, Ghost(ip as int), Ghost(limit as int));
}

/// Turns the chain of unsorted positions round, from its head on; gives the
/// last of them, how many there were, and what is left of the budget.
fn reverse_unsorted(ctx: &mut LazyCtx, head: u32, limit: u32, budget: u32) -> (r: (u32, u32, u32))
    requires
        old(ctx).is_tree(),
        budget >= 1,
    ensures
        final(ctx).is_tree(),
        final(ctx).same_params(old(ctx)),
        r.1 + r.2 == budget,
        ({
            let (t, stacked, last, left) = turned(
                old(ctx)@.chain,
                old(ctx).chain_log,
                limit,
                head,
                0,
                budget as nat,
            );
            &&& final(ctx)@ == (LazyState {
                chain: emptied(t, old(ctx).chain_log, limit, last),
                ..old(ctx)@
            })
            &&& r.0 == stacked
            &&& r.2 == left
        }),
{
    let mut match_index: u32 = head;
    let mut previous: u32 = 0;
    let mut left: u32 = budget;
    let mut go: bool = true;
    while go
        invariant
            ctx.is_tree(),
            ctx.same_params(old(ctx)),
            1 <= left <= budget,
            ctx@ == (LazyState { chain: ctx@.chain, ..old(ctx)@ }),
            turned(old(ctx)@.chain, old(ctx).chain_log, limit, head, 0, budget as nat) == if go {
                turned(
                    ctx@.chain,
                    old(ctx).chain_log,
                    limit,
                    match_index,
                    previous,
                    left as nat,
                )
            } else {
                (ctx@.chain, previous, match_index, left as nat)
            },
        decreases
                left + if go {
                    1int
                } else {
                    0
                },
    {
        proof {
            reveal_with_fuel(turned, 1);
        }
        let slot: usize = tree_slot(ctx.chain_log, match_index);
        go = match_index > limit && ctx.chain_table[slot + 1] == DUBT_UNSORTED_MARK && left > 1;
        if go {
            ctx.chain_table.set(slot + 1, previous);
            previous = match_index;
            match_index = ctx.chain_table[slot];
            left = left - 1;
        }
    }
    let slot: usize = tree_slot(ctx.chain_log, match_index);
    if match_index > limit && ctx.chain_table[slot + 1] == DUBT_UNSORTED_MARK {
        ctx.chain_table.set(slot, 0);
        ctx.chain_table.set(slot + 1, 0);
    }
    (previous, budget - left, left)
}

/// Sorts in what has been chained, and then finds the best match of the
/// position, weighing its length against its offset.
#[verifier::rlimit(40)]
fn dubt_find_best_match(
    ctx: &mut LazyCtx,
    data: &[u8],
    ip: usize,
    end: usize,
    win: &Layout,
    dms: Option<&AttachedDict>,
) -> (r: Found)
    requires
        old(ctx).is_tree(),
        ip + 8 <= end <= data@.len() <= u32::MAX,
        dms matches Some(d) ==> d.ms.wf(),
    ensures
        final(ctx).is_tree(),
        final(ctx).same_params(old(ctx)),
        found_ok(r, data@, ip as int, end as int),
        r.len >= 1 ==> ip + r.len <= end,
        forall|ext: bool|
            #![trigger place_of(data, end, win, ext, dms)]
            (final(ctx)@, r@) == late_tree_best(
                place_of(data, end, win, ext, dms),
                old(ctx)@,
                ip as int,
            ),
{
    proof {
        reveal(late_tree_best);
    }
    let bias: u32 = win.bias;
    let curr: u32 = to_index(ip, bias);
    let h: usize = hash_ptr(data, ip, ctx.hash_log, ctx.mls);
    let window_low: u32 = lowest_index(curr, win.low_limit, ctx.window_log);
    let size: u32 = tree_size(ctx.chain_log);
    let bt_low: u32 = curr.saturating_sub(size - 1);
    let unsort_limit: u32 = if bt_low > window_low {
        bt_low
    } else {
        window_low
    };
    proof {
        lemma2_to64();
        lemma_pow2_strictly_increases(ctx.search_log as nat, 31);
    }
    let budget: u32 = pow2_u64(ctx.search_log) as u32;
    let (stacked, count, left) = reverse_unsorted(ctx, ctx.hash_table[h], unsort_limit, budget);
    sort_stacked(ctx, data, stacked, end, count, left, unsort_limit, win);
    let head: u32 = ctx.hash_table[h];
    ctx.hash_table.set(h, curr);
    let (best, match_end, compares) = search_tree(
        ctx,
        data,
        ip,
        end,
        bias,
        window_low,
        bt_low,
        head,
        budget,
    );
    ctx.next_to_update = match_end.wrapping_sub(8);
    match dms {
        Some(dict) => if compares > 0 && dict.ms.method == SearchMethod::BinaryTree {
            dubt_find_better_dict_match(dict, data, ip, end, ctx.mls, best, compares)
        } else {
            best
        },
        None => best,
    }
}

/// Sorts in the positions stacked from `stacked` on, at most `count`.
#[verifier::rlimit(30)]
fn sort_stacked(
    ctx: &mut LazyCtx,
    data: &[u8],
    stacked: u32,
    end: usize,
    count: u32,
    left: u32,
    limit: u32,
    win: &Layout,
)
    requires
        old(ctx).is_tree(),
        end <= data@.len() <= u32::MAX,
        count + left <= u32::MAX,
    ensures
        final(ctx).is_tree(),
        final(ctx).same_params(old(ctx)),
        final(ctx)@ == stack_sorted(
            old(ctx)@,
            data@,
            stacked,
            end as int,
            0,
            count as nat,
            left as nat,
            limit,
            *win,
        ),
{
    let mut candidate: u32 = stacked;
    let mut k: u32 = 0;
    let ghost sorting = stack_sorted(
        ctx@,
        data@,
        stacked,
        end as int,
        0,
        count as nat,
        left as nat,
        limit,
        *win,
    );
    while candidate != 0 && k < count
        invariant
            ctx.is_tree(),
            ctx.same_params(old(ctx)),
            end <= data@.len() <= u32::MAX,
            k <= count,
            count + left <= u32::MAX,
            sorting == stack_sorted(
                ctx@,
                data@,
                candidate,
                end as int,
                k as nat,
                count as nat,
                left as nat,
                limit,
                *win,
            ),
        decreases count - k,
    {
        proof {
            reveal_with_fuel(stack_sorted, 1);
        }
        let slot: usize = tree_slot(ctx.chain_log, candidate);
        let after: u32 = ctx.chain_table[slot + 1];
        insert_dubt1(ctx, data, candidate, end, left + k, limit, win);
        candidate = after;
        k = k + 1;
    }
    proof {
        reveal_with_fuel(stack_sorted, 1);
    }
}

/// Descends the tree from `head` on, hanging each node below the position:
/// the best match, the index that the longest one reaches, and what is left of
/// the budget.
#[verifier::rlimit(60)]
fn search_tree(
    ctx: &mut LazyCtx,
    data: &[u8],
    ip: usize,
    end: usize,
    bias: u32,
    window_low: u32,
    bt_low: u32,
    head: u32,
    budget: u32,
) -> (r: (Found, u32, u32))
    requires
        old(ctx).is_tree(),
        ip + 8 <= end <= data@.len() <= u32::MAX,
    ensures
        final(ctx).is_tree(),
        final(ctx).same_params(old(ctx)),
        found_ok(r.0, data@, ip as int, end as int),
        ip + r.0.len <= end,
        r.0.off_base < u32::MAX,
        ({
            let curr = index_of(ip as nat, bias);
            let s = tree_searched(
                TreePlace {
                    data: data@,
                    ip: ip as int,
                    end: end as int,
                    bias,
                    log: old(ctx).chain_log,
                    bt_low,
                },
                window_low,
                TreeSearch {
                    table: old(ctx)@.chain,
                    d: DescentView::start(old(ctx).chain_log, curr),
                    match_end: ((curr + 9) % 0x1_0000_0000) as u32,
                    best: FoundView { len: 0, off_base: 999_999_999 },
                    left: budget as nat,
                },
                Some(head),
            );
            &&& final(ctx)@ == (LazyState { chain: s.d.closed(s.table), ..old(ctx)@ })
            &&& r.0@ == s.best
            &&& r.1 == s.match_end
            &&& r.2 == s.left
        }),
{
    let curr: u32 = to_index(ip, bias);
    let mut d = Descent::start(ctx.chain_log, curr, Ghost(ip as int), Ghost(end as int));
    let mut match_end: u32 = curr.wrapping_add(9);
    let mut best = Found { len: 0, off_base: NO_OFFSET };
    let mut node: Option<u32> = Some(head);
    let mut nb_compares: u32 = budget;
    let ghost w = TreePlace {
        data: data@,
        ip: ip as int,
        end: end as int,
        bias,
        log: ctx.chain_log,
        bt_low,
    };
    let ghost whole = tree_searched(
        w,
        window_low,
        TreeSearch {
            table: ctx.chain_table@,
            d: d@,
            match_end,
            best: best@,
            left: nb_compares as nat,
        },
        node,
    );
    let ghost filed = ctx@;
    while node.is_some() && nb_compares > 0
        invariant
            ctx.is_tree(),
            ctx.same_params(old(ctx)),
            ip + 8 <= end <= data@.len() <= u32::MAX,
            d.ok(ctx.chain_table@.len(), ip as int, end as int),
            found_ok(best, data@, ip as int, end as int),
            ip + best.len <= end,
            best.off_base < u32::MAX,
            ctx@ == (LazyState { chain: ctx@.chain, ..filed }),
            w == (TreePlace {
                data: data@,
                ip: ip as int,
                end: end as int,
                bias,
                log: ctx.chain_log,
                bt_low,
            }),
            whole == tree_searched(
                w,
                window_low,
                TreeSearch {
                    table: ctx.chain_table@,
                    d: d@,
                    match_end,
                    best: best@,
                    left: nb_compares as nat,
                },
                node,
            ),
        decreases
                nb_compares + if node.is_some() {
                    1int
                } else {
                    0
                },
    {
        proof {
            reveal_with_fuel(tree_searched, 1);
        }
        let mut next: Option<u32> = None;
        let mut at_end: bool = false;
        if let Some(match_index) = node {
            let m: usize = to_pos(match_index, bias);
            if match_index > window_low && m < ip {
                let common: usize = d.common();
                let len: usize = common + count_eq(data, ip + common, m + common, end);
                if len > best.len {
                    at_end = ip + len == end;
                    match_end = further(match_end, match_index, len);
                    let offset: u32 = (ip - m) as u32;
                    let gain: i64 = 4 * (len as i64 - best.len as i64);
                    let cost: i64 = highbit32(offset + 1) as i64 - highbit32(best.off_base) as i64;
                    if gain > cost && run_holds(data, ip, m, len) {
                        best = Found { len, off_base: offset + 3 };
                    }
                }
                if ip + len < end {
                    next =
                    d.step(
                        &mut ctx.chain_table,
                        ctx.chain_log,
                        match_index,
                        data[m + len] < data[ip + len],
                        len,
                        bt_low,
                        Ghost(ip as int),
                        Ghost(end as int),
                    );
                }
            }
        }
        node = next;
        if at_end {
            nb_compares = 0;
        } else if node.is_some() {
            nb_compares = nb_compares - 1;
        }
    }
    proof {
        reveal_with_fuel(tree_searched, 1);
    }
    d.close(&mut ctx.chain_table, Ghost(ip as int), Ghost(end as int));
    (best, match_end, nb_compares)
}

/// Descends the tree of an attached dictionary, whose content stands at the
/// start of the data, for something better than `found`.
#[verifier::rlimit(30)]
fn dubt_find_better_dict_match(
    dict: &AttachedDict,
    data: &[u8],
    ip: usize,
    end: usize,
    mls: u32,
    found: Found,
    budget: u32,
) -> (r: Found)
    requires
        dict.ms.is_tree(),
        ip + 8 <= end <= data@.len() <= u32::MAX,
        found_ok(found, data@, ip as int, end as int),
        ip + found.len <= end,
        found.off_base < u32::MAX,
    ensures
        found_ok(r, data@, ip as int, end as int),
        ip + r.len <= end,
        r.len >= found.len,
        r@ == dict_tree_best(
            dict.ms@,
            dict.content_len as int,
            mls,
            data@,
            ip as int,
            end as int,
            budget as nat,
            found@,
        ),
{
    let ms = dict.ms;
    let size: u32 = tree_size(ms.chain_log);
    let high: u32 = if dict.content_len < u32::MAX as usize - 2 {
        WINDOW_START_INDEX + dict.content_len as u32
    } else {
        u32::MAX
    };
    let bt_low: u32 = if size - 1 >= high - WINDOW_START_INDEX {
        WINDOW_START_INDEX
    } else {
        high - (size - 1)
    };
    let mut best = found;
    let mut common_smaller: usize = 0;
    let mut common_larger: usize = 0;
    let mut node: Option<u32> = Some(ms.hash_table[hash_ptr(data, ip, ms.hash_log, mls)]);
    let mut nb_compares: u32 = budget;
    let ghost w = TreePlace {
        data: data@,
        ip: ip as int,
        end: end as int,
        bias: 2,
        log: ms.chain_log,
        bt_low,
    };
    let ghost whole = dict_tree_searched(
        w,
        ms.chain_table@,
        0,
        0,
        node,
        nb_compares as nat,
        best@,
    );
    while node.is_some() && nb_compares > 0
        invariant
            w == (TreePlace {
                data: data@,
                ip: ip as int,
                end: end as int,
                bias: 2,
                log: ms.chain_log,
                bt_low,
            }),
            best.off_base < u32::MAX,
            whole == dict_tree_searched(
                w,
                ms.chain_table@,
                common_smaller as nat,
                common_larger as nat,
                node,
                nb_compares as nat,
                best@,
            ),
            ms.is_tree(),
            ip + 8 <= end <= data@.len() <= u32::MAX,
            found_ok(best, data@, ip as int, end as int),
            ip + best.len <= end,
            best.len >= found.len,
            ip + common_smaller <= end,
            ip + common_larger <= end,
            found.off_base < u32::MAX,
        decreases nb_compares,
    {
        proof {
            reveal_with_fuel(dict_tree_searched, 1);
        }
        let mut next: Option<u32> = None;
        if let Some(match_index) = node {
            let m: usize = to_pos(match_index, WINDOW_START_INDEX);
            if match_index > WINDOW_START_INDEX && m < ip {
                let slot: usize = tree_slot(ms.chain_log, match_index);
                let common: usize = if common_smaller < common_larger {
                    common_smaller
                } else {
                    common_larger
                };
                let len: usize = common + count_eq(data, ip + common, m + common, end);
                if len > best.len {
                    let offset: u32 = (ip - m) as u32;
                    let gain: i64 = 4 * (len as i64 - best.len as i64);
                    let cost: i64 = highbit32(offset + 1) as i64 - highbit32(
                        best.off_base.saturating_add(1),
                    ) as i64;
                    if gain > cost && run_holds(data, ip, m, len) {
                        best = Found { len, off_base: offset + 3 };
                    }
                }
                if ip + len < end && match_index > bt_low {
                    if data[m + len] < data[ip + len] {
                        common_smaller = len;
                        next = Some(ms.chain_table[slot + 1]);
                    } else {
                        common_larger = len;
                        next = Some(ms.chain_table[slot]);
                    }
                }
            }
        }
        node = next;
        nb_compares = nb_compares - 1;
    }
    proof {
        reveal_with_fuel(dict_tree_searched, 1);
    }
    best
}

/// The best match of the position in the tree; none where a long match has
/// passed over it.
pub fn bt_find_best_match(
    ctx: &mut LazyCtx,
    data: &[u8],
    ip: usize,
    end: usize,
    win: &Layout,
    dms: Option<&AttachedDict>,
) -> (r: Found)
    requires
        old(ctx).is_tree(),
        ip + 8 <= end <= data@.len() <= u32::MAX,
        dms matches Some(d) ==> d.ms.wf(),
    ensures
        final(ctx).is_tree(),
        final(ctx).same_params(old(ctx)),
        found_ok(r, data@, ip as int, end as int),
        forall|ext: bool|
            #![trigger place_of(data, end, win, ext, dms)]
            (final(ctx)@, r@) == tree_best(
                place_of(data, end, win, ext, dms),
                old(ctx)@,
                ip as int,
            ),
{
    let curr: u32 = to_index(ip, win.bias);
    if curr < ctx.next_to_update {
        return Found { len: 0, off_base: NO_OFFSET };
    }
    update_dubt(ctx, data, curr, win.bias);
    dubt_find_best_match(ctx, data, ip, end, win, dms)
}

} // verus!
