//! What is found in a dictionary that is searched beside the window.

use crate::bits::highest_bit;
use crate::dfast_model::{same8, scan_attached, DfastPlace, DictTablesView, Tables};
use crate::fast_model::{dict_scan, same4, FastDict, FastPlace};
use crate::lazy_model::{better_of, dict_chain_best, dict_chain_walked, dict_picks_best, FoundView, LazyState};
use crate::lazy_tree_model::{dict_tree_best, dict_tree_searched, same_run};
use crate::opt_match_model::dict_matches_searched;
use crate::opt_matches::Match;
use crate::parser::{common_run, index_of, pos_of, spec_hash};
use crate::tree_model::{slot_of, TreePlace};
use vstd::arithmetic::power2::pow2;
use vstd::prelude::*;

verus! {

/// How many bytes at `ip` are the same as at `m`, if four at least are.
pub open spec fn agreeing(data: Seq<u8>, ip: int, m: int, end: int) -> nat {
    if same4(data, ip, m) {
        4 + common_run(data, ip + 4, m + 4, end)
    } else {
        0
    }
}

/// A walk along a dictionary's chain never loses a match that it has, and takes
/// the first of the chain if that is longer.
pub proof fn law_attached_chains_take_the_longest(
    data: Seq<u8>,
    end: int,
    chain: Seq<u32>,
    chain_log: u32,
    ip: int,
    min_chain: u32,
    idx: u32,
    left: nat,
    best: FoundView,
)
    ensures
        ({
            let r = dict_chain_walked(data, end, chain, chain_log, ip, min_chain, idx, left, best);
            let m = pos_of(idx, 2);
            &&& r.len >= best.len
            &&& r.len == best.len ==> r == best
            &&& idx >= 2 && left > 0 && m < ip ==> r.len >= agreeing(data, ip, m, end)
            &&& r != best ==> exists|k: u32|
                #![trigger pos_of(k, 2)]
                k >= 2 && pos_of(k, 2) < ip && r.off_base == ip - pos_of(k, 2) + 3
        }),
    decreases left,
{
    reveal_with_fuel(dict_chain_walked, 1);
    if idx >= 2 && left > 0 {
        let b = better_of(data, ip, end, pos_of(idx, 2), best, false);
        if (b != best && ip + b.len == end) || idx <= min_chain {
        } else {
            law_attached_chains_take_the_longest(
                data,
                end,
                chain,
                chain_log,
                ip,
                min_chain,
                chain[idx as int % pow2(chain_log as nat) as int],
                (left - 1) as nat,
                b,
            );
        }
    }
}

/// The newest position that the dictionary has for the bytes at `ip`, and the
/// one before it on its chain, are always looked at, wherever they are in the
/// dictionary; the second only if the chain reaches so far.
pub proof fn law_attached_chains_start_at_the_newest(
    d: LazyState,
    content_len: int,
    mls: u32,
    data: Seq<u8>,
    ip: int,
    end: int,
    left: nat,
    best: FoundView,
)
    requires
        !(d.method is RowHash),
        0 <= content_len < 0xFFFF_FFF0,
        left >= 2,
    ensures
        ({
            let r = dict_chain_best(d, content_len, mls, data, ip, end, left, best);
            let newest = d.hash[spec_hash(data, ip, d.hash_log, mls) as int];
            let before = d.chain[newest as int % pow2(d.chain_log as nat) as int];
            let m = newest - 2;
            &&& 0 <= m < ip ==> r.len >= agreeing(data, ip, m, end)
            &&& 0 <= m < ip && 0 <= before - 2 < ip && newest + pow2(d.chain_log as nat) > content_len + 2
                && newest > 0 && r.len < end - ip ==> r.len >= agreeing(data, ip, before - 2, end)
        }),
{
    let newest = d.hash[spec_hash(data, ip, d.hash_log, mls) as int];
    let before = d.chain[newest as int % pow2(d.chain_log as nat) as int];
    let low = crate::lazy_model::less((content_len + 2) as u32, pow2(d.chain_log as nat));
    law_attached_chains_take_the_longest(data, end, d.chain, d.chain_log, ip, low, newest, left, best);
    reveal_with_fuel(dict_chain_walked, 1);
    if newest >= 2 {
        let b = better_of(data, ip, end, pos_of(newest, 2), best, false);
        law_attached_chains_take_the_longest(
            data,
            end,
            d.chain,
            d.chain_log,
            ip,
            low,
            before,
            (left - 1) as nat,
            b,
        );
    }
}

/// None of the candidates of a dictionary's row is passed over for a shorter
/// one.
pub proof fn law_attached_rows_take_the_longest(
    data: Seq<u8>,
    end: int,
    picks: Seq<u32>,
    ip: int,
    i: nat,
    best: FoundView,
)
    ensures
        ({
            let r = dict_picks_best(data, end, picks, ip, i, best);
            let m = pos_of(picks[i as int], 2);
            &&& r.len >= best.len
            &&& i < picks.len() && ip + best.len < end && m < ip ==> r.len >= agreeing(data, ip, m, end)
            &&& r != best ==> exists|k: int|
                i <= k < picks.len() && #[trigger] pos_of(picks[k], 2) < ip && r.off_base == ip - pos_of(
                    picks[k],
                    2,
                ) + 3
        }),
    decreases picks.len() - i,
{
    reveal_with_fuel(dict_picks_best, 1);
    if i < picks.len() && ip + best.len < end {
        let b = better_of(data, ip, end, pos_of(picks[i as int], 2), best, false);
        law_attached_rows_take_the_longest(data, end, picks, ip, i + 1, b);
    }
}

proof fn lemma_attached_descents(
    w: TreePlace,
    table: Seq<u32>,
    common_smaller: nat,
    common_larger: nat,
    node: Option<u32>,
    left: nat,
    best: FoundView,
)
    ensures
        ({
            let r = dict_tree_searched(w, table, common_smaller, common_larger, node, left, best);
            let common = if common_smaller < common_larger {
                common_smaller
            } else {
                common_larger
            };
            &&& r.len >= best.len
            &&& r.len == best.len ==> r == best
            &&& node is Some && left > 0 && node->0 > 2 && pos_of(node->0, 2) < w.ip ==> {
                let m = pos_of(node->0, 2);
                let len = w.len_with(node->0, common);
                len > best.len && same_run(w.data, w.ip, m, len as int) && 4 * (len - best.len) > highest_bit(
                    (w.ip - m + 1) as nat,
                ) - highest_bit(best.off_base + 1) ==> r.len >= len
            }
        }),
    decreases left,
{
    reveal_with_fuel(dict_tree_searched, 1);
    if node is Some {
        let idx = node->0;
        let m = pos_of(idx, 2);
        if left > 0 && idx > 2 && m < w.ip {
            let common = if common_smaller < common_larger {
                common_smaller
            } else {
                common_larger
            };
            let len = w.len_with(idx, common);
            let offset = (w.ip - m) as nat;
            let b = if len > best.len && crate::lazy_tree_model::worth_more(
                len,
                offset,
                best,
                best.off_base + 1,
            ) && same_run(w.data, w.ip, m, len as int) {
                FoundView { len, off_base: offset + 3 }
            } else {
                best
            };
            if w.ip + len < w.end && idx > w.bt_low {
                let smaller = w.is_smaller(idx, len);
                let slot = slot_of(w.log, idx);
                lemma_attached_descents(
                    w,
                    table,
                    if smaller {
                        len
                    } else {
                        common_smaller
                    },
                    if smaller {
                        common_larger
                    } else {
                        len
                    },
                    Some(
                        if smaller {
                            table[slot + 1]
                        } else {
                            table[slot]
                        },
                    ),
                    (left - 1) as nat,
                    b,
                );
            }
        }
    }
}

/// The root of the dictionary's tree for the bytes at `ip` is taken, wherever
/// it is in the dictionary, if what it has more in common than the best so far
/// outweighs what its offset takes more.
pub proof fn law_attached_trees_take_the_root(
    d: LazyState,
    content_len: int,
    mls: u32,
    data: Seq<u8>,
    ip: int,
    end: int,
    left: nat,
    best: FoundView,
)
    ensures
        ({
            let r = dict_tree_best(d, content_len, mls, data, ip, end, left, best);
            let root = d.hash[spec_hash(data, ip, d.hash_log, mls) as int];
            let m = root - 2;
            let len = common_run(data, ip, m, end);
            &&& r.len >= best.len
            &&& r.len == best.len ==> r == best
            &&& left > 0 && 0 < m < ip && len > best.len && same_run(data, ip, m, len as int) && 4 * (len
                - best.len) > highest_bit((ip - m + 1) as nat) - highest_bit(best.off_base + 1) ==> r.len >= len
        }),
{
    let size = pow2((d.chain_log - 1) as nat);
    let high = if content_len < 0xFFFF_FFFD {
        content_len + 2
    } else {
        0xFFFF_FFFF
    };
    let bt_low = if size - 1 >= high - 2 {
        2
    } else {
        high - (size - 1)
    };
    lemma_attached_descents(
        TreePlace { data, ip, end, bias: 2, log: d.chain_log, bt_low: bt_low as u32 },
        d.chain,
        0,
        0,
        Some(d.hash[spec_hash(data, ip, d.hash_log, mls) as int]),
        left,
        best,
    );
}

/// The descent for the optimal parser takes the node that it starts with, if
/// that has more in common than all before.
pub proof fn law_attached_descents_take_the_root(
    w: TreePlace,
    table: Seq<u32>,
    idx: u32,
    left: nat,
    match_end: u32,
    best: nat,
    found: Seq<Match>,
)
    requires
        left > 0,
        idx > 2,
        pos_of(idx, 2) < w.ip,
        w.bias == 2,
    ensures
        ({
            let r = dict_matches_searched(w, table, 0, 0, idx, left, match_end, best, found).1;
            let m = pos_of(idx, 2);
            let len = common_run(w.data, w.ip, m, w.end);
            len > best ==> r.len() > found.len() && r[found.len() as int] == (Match {
                off: (w.ip - m + 3) as u32,
                len: len as u32,
            })
        }),
{
    crate::tree_laws::lemma_dict_descents_add(w, table, 0, 0, idx, left, match_end, best, found);
}

/// The fast search beside a dictionary looks at its position: first one place
/// on for the newest offset; then, where the window has nothing newer than the
/// dictionary, in the dictionary; then in the window.
pub proof fn law_attached_fast_search(
    w: FastPlace,
    d: FastDict,
    first: u32,
    table: Seq<u32>,
    ip0: int,
    ip1: int,
    step: nat,
    next_step: int,
)
    requires
        ip0 < ip1 <= w.end - 8,
    ensures
        ({
            let found = dict_scan(w, d, first, table, ip0, ip1, step, next_step).1;
            let r = ip0 + 1 - first;
            let repeat = 0 < first <= ip0 + 1 && same4(w.data, ip0 + 1, r) && (d.content_len == 0 || r
                >= d.content_len || r + 4 <= d.content_len);
            let idx = table[w.hash(ip0) as int];
            let border = index_of(d.content_len as nat, w.bias);
            let hash = spec_hash(w.data, ip0, (d.hlog + 8) as u32, w.mls) as int;
            let entry = d.table[hash / 256] as int;
            let m = entry / 256 - w.bias;
            let in_dict = idx <= border && entry % 256 == hash % 256 && 0 < m < ip0 && same4(w.data, ip0, m);
            let p = pos_of(idx, w.bias);
            let in_window = idx >= border && p < ip0 && same4(w.data, ip0, p);
            &&& repeat ==> found is Some && found->0.repeat && found->0.ip == ip0 + 1 && found->0.source == r
            &&& !repeat && in_dict ==> found is Some && !found->0.repeat && found->0.ip == ip0
                && found->0.source == m && found->0.low == 0
            &&& !repeat && !in_dict && in_window ==> found is Some && !found->0.repeat && found->0.ip == ip0
                && found->0.source == p && found->0.low == d.content_len
        }),
{
    reveal_with_fuel(dict_scan, 1);
}

/// The double-fast search beside a dictionary looks at its position: first one
/// place on for the newest offset, then for eight bytes, then for four; each in
/// the window first.
pub proof fn law_attached_dfast_search(w: DfastPlace, d: DictTablesView, first: u32, t: Tables, anchor: int, ip: int)
    requires
        anchor <= ip < w.end - 8,
    ensures
        ({
            let found = scan_attached(w, d, first, t, anchor, ip).1;
            let r = ip + 1 - first;
            let repeat = 0 < first <= ip + 1 && same4(w.data, ip + 1, r) && (d.content_len == 0 || r
                >= d.content_len || r + 4 <= d.content_len);
            let ml = pos_of(t.long[w.hash_long(ip)], w.bias);
            let ms = pos_of(t.small[w.hash_small(ip)], w.bias);
            let long = d.content_len <= ml < ip && same8(w.data, ip, ml);
            let dl = d.long_at(w.data, ip);
            let dict_long = dl is Some && dl->0 < ip && same8(w.data, ip, dl->0);
            let ds = d.small_at(w.data, ip, w.logs.mls);
            let short = d.content_len < ms < ip && same4(w.data, ip, ms);
            let dict_short = !(d.content_len < ms < ip) && ds is Some && ds->0 < ip && same4(w.data, ip, ds->0);
            &&& repeat ==> found is Some && found->0.repeat && found->0.ip == ip + 1 && found->0.source == r
            &&& !repeat && long ==> found is Some && !found->0.repeat && found->0.ip == ip && found->0.source == ml
                && found->0.run == 8
            &&& !repeat && !long && dict_long ==> found is Some && !found->0.repeat && found->0.ip == ip
                && found->0.source == dl->0 && found->0.run == 8
            &&& !repeat && !long && !dict_long && (short || dict_short) ==> {
                &&& found is Some && !found->0.repeat
                &&& found->0.ip == ip + 1 && found->0.run == 8 || found->0.ip == ip && found->0.run == 4
                    && found->0.source == (if short {
                    ms
                } else {
                    ds->0
                })
            }
        }),
{
    reveal_with_fuel(scan_attached, 1);
}

} // verus!
