//! All the matches at a position, by increasing length: with the recent
//! offsets, by a three-byte hash, and from a binary tree.

use crate::cparams::{CParams, Strategy};
use crate::fast::lowest_index;
use crate::lazy_search::limited;
use crate::ldm::RawSeq;
use crate::math::{load4, pow2_u64};
use crate::opt_match_model::{
    brought_to, dict_matches_searched, dict_tree_found, gathered, hash3_entered, matches_searched, may_repeat, moved,
    moved_from, next_looked_up, opt_loaded, opt_repeat_len, opt_sorted, opt_updated, reduced_opt, repeats_found,
    short_len, spec_hash3, tree_found, trees_gathered, with_candidate, Gathered, LdmView, MatchSearch, OptPlace,
    OptState,
};
use crate::opt_price_model::{fresh_stats, plus};
use crate::opt_prices::OptStats;
use crate::parser::{count_eq, hash_ptr, index_of, new_table, rep_offset, spec_hash, to_index, to_pos, top_bits32};
use crate::tree::{further, insert_bt1, is_tree_table, tree_size, tree_slot, Descent};
use crate::tree_model::TreePlace;
use crate::window::{reduce_table, WINDOW_START_INDEX};
use vstd::arithmetic::power2::{lemma2_to64, lemma_pow2_strictly_increases, pow2};
use vstd::prelude::*;

verus! {

/// The longest stretch that is priced at once.
pub const OPT_NUM: usize = 4096;

/// A match: an offset value and a length.
#[derive(Clone, Copy)]
pub struct Match {
    pub off: u32,
    pub len: u32,
}

/// The state of the optimal parser.
pub struct OptCtx {
    pub hash_table: Vec<u32>,
    /// The tree, with two slots for each position.
    pub bt: Vec<u32>,
    pub hash3: Vec<u32>,
    pub hash_log3: u32,
    /// The index of the next position to enter.
    pub next_to_update: u32,
    pub is_ultra2: bool,
    pub mls: u32,
    pub sufficient_len: u32,
    pub search_log: u32,
    pub window_log: u32,
    pub hash_log: u32,
    pub chain_log: u32,
    pub stats: OptStats,
}

impl OptCtx {
    pub open spec fn view(&self) -> OptState {
        OptState {
            hash: self.hash_table@,
            tree: self.bt@,
            hash3: self.hash3@,
            hash_log3: self.hash_log3,
            next: self.next_to_update,
            is_ultra2: self.is_ultra2,
            mls: self.mls,
            sufficient_len: self.sufficient_len,
            search_log: self.search_log,
            window_log: self.window_log,
            hash_log: self.hash_log,
            chain_log: self.chain_log,
            stats: self.stats@,
        }
    }

    pub open spec fn wf(&self) -> bool {
        &&& 6 <= self.hash_log <= 28
        &&& self.hash_table@.len() == pow2(self.hash_log as nat)
        &&& is_tree_table(self.bt@, self.chain_log)
        &&& 3 <= self.mls <= 6
        &&& self.mls == 3 ==> 1 <= self.hash_log3 <= 17 && self.hash3@.len() == pow2(
            self.hash_log3 as nat,
        )
        &&& self.search_log <= 13
        &&& self.window_log <= 31
        &&& self.sufficient_len < OPT_NUM
        &&& self.stats.wf()
    }

    pub open spec fn same_params(&self, other: &Self) -> bool {
        &&& self.hash_log3 == other.hash_log3
        &&& self.is_ultra2 == other.is_ultra2
        &&& self.mls == other.mls
        &&& self.sufficient_len == other.sufficient_len
        &&& self.search_log == other.search_log
        &&& self.window_log == other.window_log
        &&& self.hash_log == other.hash_log
        &&& self.chain_log == other.chain_log
    }

    pub fn new(cparams: &CParams) -> (r: Self)
        requires
            cparams.wf(),
        ensures
            r.wf(),
            r@ == fresh_opt(*cparams),
    {
        let mls: u32 = if cparams.min_match > 6 {
            6
        } else {
            cparams.min_match
        };
        let hash_log3: u32 = if mls != 3 {
            0
        } else if cparams.window_log < 17 {
            cparams.window_log
        } else {
            17
        };
        let ultra2 = match cparams.strategy {
            Strategy::Btultra2 => true,
            _ => false,
        };
        let ultra = match cparams.strategy {
            Strategy::Btopt => false,
            _ => true,
        };
        OptCtx {
            hash_table: new_table(cparams.hash_log),
            bt: new_table(cparams.chain_log),
            hash3: if mls == 3 {
                new_table(hash_log3)
            } else {
                Vec::new()
            },
            hash_log3,
            next_to_update: WINDOW_START_INDEX,
            is_ultra2: ultra2,
            mls,
            sufficient_len: if cparams.target_length < 4095 {
                cparams.target_length
            } else {
                4095
            },
            search_log: cparams.search_log,
            window_log: cparams.window_log,
            hash_log: cparams.hash_log,
            chain_log: cparams.chain_log,
            stats: OptStats::new(ultra),
        }
    }

    /// After a very long match, enters only the last positions before `curr`.
    pub fn limit_update(&mut self, curr: u32)
        requires
            old(self).wf(),
        ensures
            final(self).wf(),
            final(self).same_params(old(self)),
            final(self)@ == (OptState { next: limited(old(self).next_to_update, curr), ..old(self)@ }),
    {
        if curr > self.next_to_update && curr - self.next_to_update > 384 {
            let gap: u32 = curr - self.next_to_update - 384;
            self.next_to_update = if gap < 192 {
                curr - gap
            } else {
                curr - 192
            };
        }
    }

    /// Takes `correction` off every index.
    pub fn reduce_indices(&mut self, correction: u32)
        requires
            old(self).wf(),
        ensures
            final(self).wf(),
            final(self).same_params(old(self)),
            final(self)@ == reduced_opt(old(self)@, correction),
    {
        reduce_table(&mut self.hash_table, correction, false);
        reduce_table(&mut self.bt, correction, false);
        if self.hash_log3 > 0 {
            reduce_table(&mut self.hash3, correction, false);
        }
        self.next_to_update = self.next_to_update.saturating_sub(correction);
    }

    /// Sorts the dictionary `data[.. dict_len]` into the tree, all but its
    /// last positions.
    pub fn load_dictionary(&mut self, data: &[u8], dict_len: usize)
        requires
            old(self).wf(),
            8 < dict_len <= data@.len() <= u32::MAX,
        ensures
            final(self).wf(),
            final(self).same_params(old(self)),
            final(self)@ == opt_loaded(old(self)@, data@, dict_len as int),
    {
        let bias: u32 = WINDOW_START_INDEX;
        update_tree(self, data, to_index(dict_len - 8, bias), dict_len, bias, bias);
        self.next_to_update = to_index(dict_len, bias);
    }

    /// The shortest match that is looked for.
    pub fn min_match(&self) -> (r: u32)
        requires
            self.wf(),
        ensures
            r == self@.min_match(),
    {
        if self.mls == 3 {
            3
        } else {
            4
        }
    }
}

/// The state before the first block of a frame.
pub open spec fn fresh_opt(cparams: CParams) -> OptState {
    let mls: u32 = if cparams.min_match > 6 {
        6
    } else {
        cparams.min_match
    };
    let hash_log3: u32 = if mls != 3 {
        0
    } else if cparams.window_log < 17 {
        cparams.window_log
    } else {
        17
    };
    OptState {
        hash: Seq::new(pow2(cparams.hash_log as nat), |i: int| 0u32),
        tree: Seq::new(pow2(cparams.chain_log as nat), |i: int| 0u32),
        hash3: if mls == 3 {
            Seq::new(pow2(hash_log3 as nat), |i: int| 0u32)
        } else {
            Seq::empty()
        },
        hash_log3,
        next: WINDOW_START_INDEX,
        is_ultra2: cparams.strategy is Btultra2,
        mls,
        sufficient_len: if cparams.target_length < 4095 {
            cparams.target_length
        } else {
            4095
        },
        search_log: cparams.search_log,
        window_log: cparams.window_log,
        hash_log: cparams.hash_log,
        chain_log: cparams.chain_log,
        stats: fresh_stats(!(cparams.strategy is Btopt)),
    }
}

/// A dictionary's state beside the window's.
pub struct OptDms<'a> {
    pub ms: &'a OptCtx,
    pub content_len: usize,
}

/// Where matches may have their source, for one block.
pub struct OptView<'a> {
    pub bias: u32,
    pub dict_limit: u32,
    pub low_limit: u32,
    pub ext_dict: bool,
    pub dms: Option<&'a OptDms<'a>>,
}

impl<'a> OptView<'a> {
    pub open spec fn wf(&self) -> bool {
        self.dms matches Some(d) ==> d.ms.wf()
    }

    pub open spec fn place(&self, data: &[u8], end: usize) -> OptPlace {
        OptPlace {
            data: data@,
            end: end as int,
            bias: self.bias,
            dict_limit: self.dict_limit,
            low_limit: self.low_limit,
            ext_dict: self.ext_dict,
            dict: match self.dms {
                Some(d) => Some((d.ms@, d.content_len as int)),
                None => None,
            },
        }
    }
}

/// The index of the last place with the three-byte hash of `ip`, after
/// entering all positions before.
fn insert_and_find_first_index_hash3(
    ctx: &mut OptCtx,
    data: &[u8],
    next3: &mut u32,
    ip: usize,
    bias: u32,
) -> (r: u32)
    requires
        old(ctx).wf(),
        old(ctx).mls == 3,
        ip + 8 <= data@.len() <= u32::MAX,
    ensures
        final(ctx).wf(),
        final(ctx).same_params(old(ctx)),
        final(ctx).stats == old(ctx).stats,
        *final(next3) == index_of(ip as nat, bias),
        final(ctx)@ == (OptState {
            hash3: hash3_entered(
                old(ctx)@.hash3,
                data@,
                *old(next3),
                index_of(ip as nat, bias),
                old(ctx).hash_log3,
                bias,
            ),
            ..old(ctx)@
        }),
        r == final(ctx)@.hash3[spec_hash3(data@, ip as int, old(ctx).hash_log3) as int],
{
    let ghost entry = *ctx;
    let n: usize = data.len();
    let goal: u32 = to_index(ip, bias);
    let mut idx: u32 = *next3;
    let ghost all = hash3_entered(ctx@.hash3, data@, idx, goal, ctx.hash_log3, bias);
    while idx < goal
        invariant
            ctx.wf(),
            ctx.mls == 3,
            ctx.same_params(&entry),
            ctx.stats == entry.stats,
            ctx@ == (OptState { hash3: ctx@.hash3, ..entry@ }),
            all == hash3_entered(ctx@.hash3, data@, idx, goal, ctx.hash_log3, bias),
            n == data@.len(),
            n >= 8,
        decreases goal - idx,
    {
        proof {
            reveal_with_fuel(hash3_entered, 1);
        }
        let pos: usize = to_pos(idx, bias);
        if pos <= n - 8 {
            let h: usize = hash3_ptr(data, pos, ctx.hash_log3);
            ctx.hash3.set(h, idx);
        }
        idx = idx + 1;
    }
    proof {
        reveal_with_fuel(hash3_entered, 1);
    }
    *next3 = goal;
    ctx.hash3[hash3_ptr(data, ip, ctx.hash_log3)]
}

/// A hash of three bytes.
fn hash3_ptr(data: &[u8], at: usize, h: u32) -> (r: usize)
    requires
        at + 4 <= data@.len(),
        1 <= h <= 32,
    ensures
        r < pow2(h as nat),
        r == spec_hash3(data@, at as int, h),
{
    proof {
        reveal(spec_hash3);
    }
    top_bits32(load4(data, at).wrapping_mul(256).wrapping_mul(506_832_829), h) as usize
}

/// Sorts the positions before index `target` into the tree.
fn update_tree(ctx: &mut OptCtx, data: &[u8], target: u32, end: usize, bias: u32, low_limit: u32)
    requires
        old(ctx).wf(),
        end <= data@.len() <= u32::MAX,
    ensures
        final(ctx).wf(),
        final(ctx).same_params(old(ctx)),
        final(ctx).next_to_update == target,
        final(ctx).stats == old(ctx).stats,
        final(ctx)@ == opt_updated(old(ctx)@, data@, target, end as int, bias, low_limit),
{
    let ghost entry = *ctx;
    let low: u32 = lowest_index(target, low_limit, ctx.window_log);
    let mut idx: u32 = ctx.next_to_update;
    while idx < target
        invariant
            ctx.wf(),
            ctx.same_params(&entry),
            ctx.stats == entry.stats,
            end <= data@.len() <= u32::MAX,
            opt_sorted(entry@, data@, entry.next_to_update, target, end as int, bias, low)
                == opt_sorted(ctx@, data@, idx, target, end as int, bias, low),
        decreases target - idx,
    {
        proof {
            reveal_with_fuel(opt_sorted, 1);
        }
        let pos: usize = to_pos(idx, bias);
        let forward: u32 = if end >= 8 && pos <= end - 8 {
            let h: usize = hash_ptr(data, pos, ctx.hash_log, ctx.mls);
            insert_bt1(
                &mut ctx.hash_table,
                &mut ctx.bt,
                data,
                pos,
                end,
                bias,
                low,
                h,
                ctx.chain_log,
                ctx.search_log,
            )
        } else {
            1
        };
        idx = if forward < target - idx {
            idx + forward
        } else {
            target
        };
    }
    proof {
        reveal_with_fuel(opt_sorted, 1);
    }
    ctx.next_to_update = target;
}

/// Every match fits before `end`.
pub open spec fn matches_fit(ms: Seq<Match>, ip: int, end: int) -> bool {
    forall|i: int| 0 <= i < ms.len() ==> fits(#[trigger] ms[i], ip, end)
}

pub open spec fn fits(m: Match, ip: int, end: int) -> bool {
    &&& m.off >= 1
    &&& ip + m.len <= end
}

/// Each match is longer than the one before, the first longer than `floor`, and
/// none longer than `best`.
pub open spec fn rising(ms: Seq<Match>, floor: int, best: int) -> bool {
    &&& forall|i: int| 0 <= i < ms.len() ==> floor < (#[trigger] ms[i]).len <= best
    &&& forall|i: int, j: int| 0 <= i < j < ms.len() ==> (#[trigger] ms[i]).len < (#[trigger] ms[j]).len
}

/// The length of the match at `ip` with the offset `offset`, or zero.
fn repeat_len(
    data: &[u8],
    ip: usize,
    end: usize,
    offset: u32,
    min_match: usize,
    view: &OptView,
    window_low: u32,
) -> (r: usize)
    requires
        ip + 8 <= end <= data@.len() <= u32::MAX,
        3 <= min_match <= 4,
    ensures
        ip + r <= end,
        r == 0 || r >= min_match,
        r > 0 ==> 1 <= offset <= ip && crate::parser::eq_run(
            data@,
            ip as int,
            offset as int,
            r as int,
        ),
        r == opt_repeat_len(
            view.place(data, end),
            ip as int,
            offset,
            min_match as nat,
            window_low,
        ),
{
    proof {
        reveal(opt_repeat_len);
        reveal(may_repeat);
    }
    if offset == 0 || offset as usize > ip {
        return 0;
    }
    let curr: u32 = to_index(ip, view.bias);
    let rep_index: u32 = curr.wrapping_sub(offset);
    let allowed: bool = if offset - 1 < curr.wrapping_sub(view.dict_limit) {
        rep_index >= window_low
    } else {
        let apart: bool = view.dict_limit.wrapping_sub(1).wrapping_sub(rep_index) >= 3;
        if view.ext_dict {
            apart && offset - 1 < curr.wrapping_sub(window_low)
        } else if view.dms.is_some() {
            apart && offset - 1 < curr.wrapping_sub(WINDOW_START_INDEX)
        } else {
            false
        }
    };
    let m: usize = ip - offset as usize;
    if !allowed {
        return 0;
    }
    let len: usize = count_eq(data, ip, m, end);
    if len >= min_match {
        len
    } else {
        0
    }
}

/// Descends the tree from the position, which is sorted in on the way, and
/// appends each match that is longer than all before. Gives what is left of
/// the budget, and whether the best possible match was found.
#[verifier::rlimit(40)]
fn tree_matches(
    ctx: &mut OptCtx,
    data: &[u8],
    ip: usize,
    end: usize,
    view: &OptView,
    matches: &mut Vec<Match>,
    best: &mut usize,
    match_end: &mut u32,
    Ghost(floor): Ghost<int>,
) -> (r: u32)
    requires
        old(ctx).wf(),
        ip + 8 <= end <= data@.len() <= u32::MAX,
        matches_fit(old(matches)@, ip as int, end as int),
        rising(old(matches)@, floor, *old(best) as int),
        floor <= *old(best),
        *old(match_end) == (index_of(ip as nat, view.bias) + 9) % 0x1_0000_0000,
    ensures
        final(ctx).wf(),
        final(ctx).same_params(old(ctx)),
        final(ctx).stats == old(ctx).stats,
        matches_fit(final(matches)@, ip as int, end as int),
        rising(final(matches)@, floor, *final(best) as int),
        floor <= *final(best),
        ({
            let s = tree_found(
                view.place(data, end),
                old(ctx)@,
                ip as int,
                *old(best) as nat,
                old(matches)@,
            );
            &&& final(ctx)@ == (OptState {
                hash: old(ctx)@.hash.update(
                    spec_hash(data@, ip as int, old(ctx).hash_log, old(ctx).mls) as int,
                    index_of(ip as nat, view.bias),
                ),
                tree: s.d.closed(s.table),
                ..old(ctx)@
            })
            &&& final(matches)@ == s.found
            &&& *final(best) == s.best
            &&& *final(match_end) == s.match_end
            &&& r == s.left
        }),
{
    proof {
        reveal(tree_found);
    }
    let bias: u32 = view.bias;
    let curr: u32 = to_index(ip, bias);
    let h: usize = hash_ptr(data, ip, ctx.hash_log, ctx.mls);
    let window_low: u32 = lowest_index(curr, view.low_limit, ctx.window_log);
    let match_low: u32 = if window_low > 1 {
        window_low
    } else {
        1
    };
    let size: u32 = tree_size(ctx.chain_log);
    let bt_low: u32 = curr.saturating_sub(size - 1);
    let log: u32 = ctx.chain_log;
    let mut node: Option<u32> = Some(ctx.hash_table[h]);
    let mut d = Descent::start(log, curr, Ghost(ip as int), Ghost(end as int));
    proof {
        lemma2_to64();
        lemma_pow2_strictly_increases(ctx.search_log as nat, 31);
    }
    let mut nb_compares: u32 = pow2_u64(ctx.search_log) as u32;
    let mut done: bool = false;
    ctx.hash_table.set(h, curr);
    let ghost filed = ctx@;
    let ghost w = TreePlace {
        data: data@,
        ip: ip as int,
        end: end as int,
        bias,
        log,
        bt_low,
    };
    let ghost whole = matches_searched(
        w,
        match_low,
        MatchSearch {
            table: ctx.bt@,
            d: d@,
            match_end: *match_end,
            best: *best as nat,
            found: matches@,
            left: nb_compares as nat,
        },
        node,
    );
    while node.is_some() && nb_compares > 0
        invariant
            ctx@ == (OptState { tree: ctx@.tree, ..filed }),
            w == (TreePlace { data: data@, ip: ip as int, end: end as int, bias, log, bt_low }),
            done ==> node is None,
            whole == if done {
                MatchSearch {
                    table: ctx.bt@,
                    d: d@,
                    match_end: *match_end,
                    best: *best as nat,
                    found: matches@,
                    left: 0,
                }
            } else {
                matches_searched(
                    w,
                    match_low,
                    MatchSearch {
                        table: ctx.bt@,
                        d: d@,
                        match_end: *match_end,
                        best: *best as nat,
                        found: matches@,
                        left: nb_compares as nat,
                    },
                    node,
                )
            },
            ctx.wf(),
            ctx.same_params(old(ctx)),
            ctx.stats == old(ctx).stats,
            log == ctx.chain_log,
            ip + 8 <= end <= data@.len() <= u32::MAX,
            d.ok(ctx.bt@.len(), ip as int, end as int),
            matches_fit(matches@, ip as int, end as int),
            rising(matches@, floor, *best as int),
            floor <= *best,
        decreases
                nb_compares + if node.is_some() {
                    1int
                } else {
                    0
                },
    {
        proof {
            reveal_with_fuel(matches_searched, 1);
        }
        let mut next: Option<u32> = None;
        let mut spent: bool = false;
        if let Some(match_index) = node {
            let m: usize = to_pos(match_index, bias);
            if match_index >= match_low && m < ip {
                let common: usize = d.common();
                let len: usize = common + count_eq(data, ip + common, m + common, end);
                if len > *best {
                    *match_end = further(*match_end, match_index, len);
                    *best = len;
                    matches.push(Match { off: (ip - m) as u32 + 3, len: len as u32 });
                    done = len > OPT_NUM || ip + len >= end;
                }
                if !done && ip + len < end {
                    next =
                    d.step(
                        &mut ctx.bt,
                        log,
                        match_index,
                        data[m + len] < data[ip + len],
                        len,
                        bt_low,
                        Ghost(ip as int),
                        Ghost(end as int),
                    );
                    spent = next.is_some();
                }
            }
        }
        node = next;
        if spent {
            nb_compares = nb_compares - 1;
        }
    }
    proof {
        reveal_with_fuel(matches_searched, 1);
    }
    d.close(&mut ctx.bt, Ghost(ip as int), Ghost(end as int));
    if done {
        0
    } else {
        nb_compares
    }
}

/// Descends the dictionary's tree in the same way, without changing it.
#[verifier::rlimit(30)]
fn dict_tree_matches(
    dict: &OptDms,
    data: &[u8],
    ip: usize,
    end: usize,
    mls: u32,
    budget: u32,
    matches: &mut Vec<Match>,
    best_before: usize,
    match_end: &mut u32,
    Ghost(floor): Ghost<int>,
)
    requires
        dict.ms.wf(),
        ip + 8 <= end <= data@.len() <= u32::MAX,
        matches_fit(old(matches)@, ip as int, end as int),
        rising(old(matches)@, floor, best_before as int),
        floor <= best_before,
    ensures
        matches_fit(final(matches)@, ip as int, end as int),
        rising(final(matches)@, floor, u32::MAX as int),
        (*final(match_end), final(matches)@) == dict_tree_found(
            dict.ms@,
            dict.content_len as int,
            mls,
            data@,
            ip as int,
            end as int,
            budget as nat,
            *old(match_end),
            best_before as nat,
            old(matches)@,
        ),
{
    proof {
        reveal(dict_tree_found);
    }
    let d = dict.ms;
    let low: u32 = WINDOW_START_INDEX;
    let high: u32 = ((dict.content_len as u64 % 0x1_0000_0000 + 2) % 0x1_0000_0000) as u32;
    let mask: u32 = tree_size(d.chain_log) - 1;
    let bt_low: u32 = if high > low && mask < high - low {
        high - mask
    } else {
        low
    };
    let h: usize = hash_ptr(data, ip, d.hash_log, mls);
    let mut index: u32 = d.hash_table[h];
    let mut best: usize = best_before;
    let mut common_smaller: usize = 0;
    let mut common_larger: usize = 0;
    let mut nb_compares: u32 = budget;
    let mut go: bool = true;
    let ghost w = TreePlace {
        data: data@,
        ip: ip as int,
        end: end as int,
        bias: 2,
        log: d.chain_log,
        bt_low,
    };
    let ghost whole = dict_matches_searched(
        w,
        d.bt@,
        0,
        0,
        index,
        budget as nat,
        *match_end,
        best as nat,
        matches@,
    );
    while go && nb_compares > 0 && index > low
        invariant
            low == 2,
            w == (TreePlace {
                data: data@,
                ip: ip as int,
                end: end as int,
                bias: 2,
                log: d.chain_log,
                bt_low,
            }),
            whole == if go {
                dict_matches_searched(
                    w,
                    d.bt@,
                    common_smaller as nat,
                    common_larger as nat,
                    index,
                    nb_compares as nat,
                    *match_end,
                    best as nat,
                    matches@,
                )
            } else {
                (*match_end, matches@)
            },
            d.wf(),
            ip + 8 <= end <= data@.len() <= u32::MAX,
            ip + common_smaller <= end,
            ip + common_larger <= end,
            matches_fit(matches@, ip as int, end as int),
            rising(matches@, floor, best as int),
            floor <= best,
        decreases nb_compares,
    {
        proof {
            reveal_with_fuel(dict_matches_searched, 1);
        }
        let m: usize = to_pos(index, low);
        nb_compares = nb_compares - 1;
        if m >= ip {
            go = false;
        } else {
            let common: usize = if common_smaller < common_larger {
                common_smaller
            } else {
                common_larger
            };
            let len: usize = common + count_eq(data, ip + common, m + common, end);
            if len > best {
                *match_end = further(*match_end, index, len);
                best = len;
                matches.push(Match { off: (ip - m) as u32 + 3, len: len as u32 });
                if len > OPT_NUM || ip + len == end {
                    go = false;
                }
            }
            if index <= bt_low || ip + len >= end {
                go = false;
            }
            if go {
                let slot: usize = tree_slot(d.chain_log, index);
                if data[m + len] < data[ip + len] {
                    common_smaller = len;
                    index = d.bt[slot + 1];
                } else {
                    common_larger = len;
                    index = d.bt[slot];
                }
            }
        }
    }
    proof {
        reveal_with_fuel(dict_matches_searched, 1);
    }
}

/// The matches at `ip`, each longer than the one before, and all longer than
/// `length_to_beat - 1`; none where a long match has passed over it.
#[verifier::rlimit(30)]
pub fn get_all_matches(
    ctx: &mut OptCtx,
    data: &[u8],
    next3: &mut u32,
    ip: usize,
    end: usize,
    rep: &[u32; 3],
    ll0: bool,
    length_to_beat: u32,
    view: &OptView,
    matches: &mut Vec<Match>,
)
    requires
        old(ctx).wf(),
        view.wf(),
        ip + 8 <= end <= data@.len() <= u32::MAX,
        3 <= length_to_beat <= 4,
    ensures
        final(ctx).wf(),
        final(ctx).same_params(old(ctx)),
        final(ctx).stats == old(ctx).stats,
        matches_fit(final(matches)@, ip as int, end as int),
        rising(final(matches)@, length_to_beat - 1, u32::MAX as int),
        (Gathered { state: final(ctx)@, next3: *final(next3), found: final(matches)@ }) == gathered(
            view.place(data, end),
            old(ctx)@,
            *old(next3),
            ip as int,
            rep@,
            ll0,
            length_to_beat,
        ),
{
    proof {
        reveal(gathered);
        reveal(short_len);
    }
    matches.clear();
    let bias: u32 = view.bias;
    let curr: u32 = to_index(ip, bias);
    if curr < ctx.next_to_update {
        return ;
    }
    update_tree(ctx, data, curr, end, bias, view.low_limit);
    let window_low: u32 = lowest_index(curr, view.low_limit, ctx.window_log);
    let (longest, stop) = repeat_matches(
        ctx,
        data,
        ip,
        end,
        rep,
        ll0,
        (length_to_beat - 1) as usize,
        view,
        window_low,
        matches,
        Ghost(length_to_beat - 1),
    );
    if stop {
        return ;
    }
    let mut best: usize = longest;
    if ctx.mls == 3 && best < 3 {
        let index3: u32 = insert_and_find_first_index_hash3(ctx, data, next3, ip, bias);
        let m: usize = to_pos(index3, bias);
        if index3 >= window_low && index3 >= 1 && m < ip && ip - m < 262144 {
            let len: usize = count_eq(data, ip, m, end);
            if len >= 3 {
                best = len;
                matches.push(Match { off: (ip - m) as u32 + 3, len: len as u32 });
                if len > ctx.sufficient_len as usize || ip + len == end {
                    ctx.next_to_update = curr.wrapping_add(1);
                    return ;
                }
            }
        }
    }
    all_tree_matches(ctx, data, ip, end, view, best, matches, Ghost(length_to_beat - 1));
}

/// The matches with the recent offsets, each longer than those before: the
/// length of the longest, and whether it is long enough to stop.
#[verifier::rlimit(30)]
fn repeat_matches(
    ctx: &OptCtx,
    data: &[u8],
    ip: usize,
    end: usize,
    rep: &[u32; 3],
    ll0: bool,
    before: usize,
    view: &OptView,
    window_low: u32,
    matches: &mut Vec<Match>,
    Ghost(floor): Ghost<int>,
) -> (r: (usize, bool))
    requires
        ctx.wf(),
        ip + 8 <= end <= data@.len() <= u32::MAX,
        matches_fit(old(matches)@, ip as int, end as int),
        rising(old(matches)@, floor, before as int),
        floor <= before,
    ensures
        matches_fit(final(matches)@, ip as int, end as int),
        rising(final(matches)@, floor, r.0 as int),
        floor <= r.0,
        r.0 == before || r.0 <= end,
        (r.0 as nat, final(matches)@, r.1) == repeats_found(
            view.place(data, end),
            ip as int,
            rep@,
            ll0,
            1,
            ctx@.min_match() as nat,
            window_low,
            ctx.sufficient_len,
            before as nat,
            old(matches)@,
        ),
{
    let min_match: usize = ctx.min_match() as usize;
    let ghost w = view.place(data, end);
    let ghost whole = repeats_found(
        w,
        ip as int,
        rep@,
        ll0,
        1,
        min_match as nat,
        window_low,
        ctx.sufficient_len,
        before as nat,
        matches@,
    );
    let mut best: usize = before;
    let mut code: u32 = 1;
    let mut stop: bool = false;
    while code <= 3 && !stop
        invariant
            ip + 8 <= end <= data@.len() <= u32::MAX,
            3 <= min_match <= 4,
            1 <= code <= 4,
            matches_fit(matches@, ip as int, end as int),
            rising(matches@, floor, best as int),
            floor <= best,
            best == before || best <= end,
            w == view.place(data, end),
            whole == if stop {
                (best as nat, matches@, true)
            } else {
                repeats_found(
                    w,
                    ip as int,
                    rep@,
                    ll0,
                    code,
                    min_match as nat,
                    window_low,
                    ctx.sufficient_len,
                    best as nat,
                    matches@,
                )
            },
        decreases 4 - code,
    {
        proof {
            reveal_with_fuel(repeats_found, 1);
        }
        let offset: u32 = rep_offset(*rep, code, ll0);
        let len: usize = repeat_len(data, ip, end, offset, min_match, view, window_low);
        if len > best {
            best = len;
            matches.push(Match { off: code, len: len as u32 });
            stop = len > ctx.sufficient_len as usize || ip + len == end;
        }
        code = code + 1;
    }
    proof {
        reveal_with_fuel(repeats_found, 1);
    }
    (best, stop)
}

/// The matches of the tree that are longer than `before`, and then those of an
/// attached dictionary's.
fn all_tree_matches(
    ctx: &mut OptCtx,
    data: &[u8],
    ip: usize,
    end: usize,
    view: &OptView,
    before: usize,
    matches: &mut Vec<Match>,
    Ghost(floor): Ghost<int>,
)
    requires
        old(ctx).wf(),
        view.wf(),
        ip + 8 <= end <= data@.len() <= u32::MAX,
        matches_fit(old(matches)@, ip as int, end as int),
        rising(old(matches)@, floor, before as int),
        floor <= before,
    ensures
        final(ctx).wf(),
        final(ctx).same_params(old(ctx)),
        final(ctx).stats == old(ctx).stats,
        matches_fit(final(matches)@, ip as int, end as int),
        rising(final(matches)@, floor, u32::MAX as int),
        (final(ctx)@, final(matches)@) == trees_gathered(
            view.place(data, end),
            old(ctx)@,
            ip as int,
            before as nat,
            old(matches)@,
        ),
{
    proof {
        reveal(trees_gathered);
    }
    let mut best: usize = before;
    let curr: u32 = to_index(ip, view.bias);
    let mut match_end: u32 = curr.wrapping_add(9);
    let left: u32 = tree_matches(ctx, data, ip, end, view, matches, &mut best, &mut match_end, Ghost(floor));
    if let Some(d) = view.dms {
        if left > 0 {
            dict_tree_matches(d, data, ip, end, ctx.mls, left, matches, best, &mut match_end, Ghost(floor));
        }
    }
    ctx.next_to_update = match_end.wrapping_sub(8);
}

// ---------------------------------------------------------------------------
// Long-distance candidates.

/// How far a run of raw sequences has been used up.
#[derive(Clone, Copy)]
pub struct LdmCursor {
    pub pos: usize,
    pub pos_in_sequence: u32,
}

impl LdmCursor {
    pub fn start() -> (r: Self)
        ensures
            r == (LdmCursor { pos: 0, pos_in_sequence: 0 }),
    {
        LdmCursor { pos: 0, pos_in_sequence: 0 }
    }

    /// Moves on by `nb_bytes`.
    pub fn skip_bytes(&mut self, seqs: &Vec<RawSeq>, nb_bytes: u32)
        ensures
            final(self).pos >= old(self).pos,
            old(self).pos <= seqs@.len() ==> final(self).pos <= seqs@.len(),
            *final(self) == moved(*old(self), seqs@, nb_bytes),
    {
        proof {
            reveal(plus);
        }
        let ghost within = self.pos_in_sequence;
        let mut curr: u32 = self.pos_in_sequence.wrapping_add(nb_bytes);
        let mut go: bool = true;
        while go && curr > 0 && self.pos < seqs.len()
            invariant
                self.pos >= old(self).pos,
                old(self).pos <= seqs@.len() ==> self.pos <= seqs@.len(),
                go ==> self.pos_in_sequence == within,
                !go ==> curr > 0 && self.pos < seqs@.len(),
                moved(*old(self), seqs@, nb_bytes) == if go {
                    moved_from(seqs@, self.pos as int, curr, within)
                } else {
                    *self
                },
            decreases
                    seqs@.len() - self.pos + if go {
                        1int
                    } else {
                        0
                    },
        {
            proof {
                reveal_with_fuel(moved_from, 1);
                reveal(plus);
            }
            let q = seqs[self.pos];
            let size: u32 = q.lit_length.wrapping_add(q.match_length);
            if curr >= size {
                curr = curr - size;
                self.pos = self.pos + 1;
            } else {
                self.pos_in_sequence = curr;
                go = false;
            }
        }
        proof {
            reveal_with_fuel(moved_from, 1);
        }
        if curr == 0 || self.pos == seqs.len() {
            self.pos_in_sequence = 0;
        }
    }
}

/// The next long-distance match of a block, as places within the block.
pub struct OptLdm<'a> {
    pub seqs: &'a Vec<RawSeq>,
    pub cursor: LdmCursor,
    pub start_pos_in_block: u32,
    pub end_pos_in_block: u32,
    pub offset: u32,
}

/// The state at the start of a block of `size` bytes.
pub open spec fn ldm_started(seqs: Seq<RawSeq>, cursor: LdmCursor, size: u32) -> LdmView {
    next_looked_up(LdmView { cursor, start: 0, end: 0, offset: 0 }, seqs, 0, size)
}

impl<'a> OptLdm<'a> {
    pub open spec fn view(&self) -> LdmView {
        LdmView {
            cursor: self.cursor,
            start: self.start_pos_in_block,
            end: self.end_pos_in_block,
            offset: self.offset,
        }
    }

    /// Starts on a block of `size` bytes.
    pub fn new(seqs: &'a Vec<RawSeq>, cursor: LdmCursor, size: u32) -> (r: Self)
        ensures
            r.seqs == seqs,
            r@ == ldm_started(seqs@, cursor, size),
    {
        let mut r = OptLdm {
            seqs,
            cursor,
            start_pos_in_block: 0,
            end_pos_in_block: 0,
            offset: 0,
        };
        r.get_next_match(0, size);
        r
    }

    /// Finds where the next match lies, and moves on past it.
    fn get_next_match(&mut self, curr_pos_in_block: u32, remaining: u32)
        ensures
            final(self).seqs == old(self).seqs,
            final(self)@ == next_looked_up(
                old(self)@,
                old(self).seqs@,
                curr_pos_in_block,
                remaining,
            ),
    {
        proof {
            reveal(next_looked_up);
        }
        if self.cursor.pos >= self.seqs.len() {
            self.start_pos_in_block = u32::MAX;
            self.end_pos_in_block = u32::MAX;
            return ;
        }
        let q = self.seqs[self.cursor.pos];
        let block_end: u32 = curr_pos_in_block.saturating_add(remaining);
        let literals: u32 = q.lit_length.saturating_sub(self.cursor.pos_in_sequence);
        let matched: u32 = if literals == 0 {
            q.match_length.saturating_sub(self.cursor.pos_in_sequence.saturating_sub(q.lit_length))
        } else {
            q.match_length
        };
        if literals >= remaining {
            self.start_pos_in_block = u32::MAX;
            self.end_pos_in_block = u32::MAX;
            self.cursor.skip_bytes(self.seqs, remaining);
            return ;
        }
        self.start_pos_in_block = curr_pos_in_block.saturating_add(literals);
        self.end_pos_in_block = self.start_pos_in_block.saturating_add(matched);
        self.offset = q.offset;
        if self.end_pos_in_block > block_end {
            self.end_pos_in_block = block_end;
            self.cursor.skip_bytes(self.seqs, block_end.saturating_sub(curr_pos_in_block));
        } else {
            self.cursor.skip_bytes(self.seqs, literals.saturating_add(matched));
        }
    }

    /// Appends the long-distance match at this place of the block, if it is
    /// longer than those there are.
    pub fn process_match_candidate(
        &mut self,
        matches: &mut Vec<Match>,
        curr_pos_in_block: u32,
        remaining: u32,
        min_match: u32,
        Ghost(ip): Ghost<int>,
        Ghost(end): Ghost<int>,
    )
        requires
            matches_fit(old(matches)@, ip, end),
            ip + remaining == end,
        ensures
            matches_fit(final(matches)@, ip, end),
            final(self).seqs == old(self).seqs,
            (final(self)@, final(matches)@) == with_candidate(
                old(self)@,
                old(self).seqs@,
                old(matches)@,
                curr_pos_in_block,
                remaining,
                min_match,
            ),
    {
        proof {
            reveal(with_candidate);
            reveal(brought_to);
        }
        if self.cursor.pos >= self.seqs.len() {
            return ;
        }
        if curr_pos_in_block >= self.end_pos_in_block {
            if curr_pos_in_block > self.end_pos_in_block {
                self.cursor.skip_bytes(self.seqs, curr_pos_in_block - self.end_pos_in_block);
            }
            self.get_next_match(curr_pos_in_block, remaining);
        }
        if curr_pos_in_block < self.start_pos_in_block || curr_pos_in_block >= self.end_pos_in_block {
            return ;
        }
        let len: u32 = self.end_pos_in_block - curr_pos_in_block;
        if len < min_match || len > remaining || self.offset > u32::MAX - 3 {
            return ;
        }
        let n: usize = matches.len();
        if n == 0 || (len > matches[n - 1].len && n < OPT_NUM) {
            matches.push(Match { off: self.offset + 3, len });
        }
    }
}

} // verus!
