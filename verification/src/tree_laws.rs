//! What searches in trees take: the root, if it is long enough, and the recent
//! offsets before that.

use crate::bits::highest_bit;
use crate::fast_model::spec_lowest_index;
use crate::lazy_model::FoundView;
use crate::lazy_tree_model::{same_run, tree_searched, worth_more, TreeSearch};
use crate::opt_match_model::{
    dict_matches_searched, dict_tree_found, gathered, matches_searched, opt_repeat_len, repeats_found, tree_found,
    trees_gathered, MatchSearch, OptPlace, OptState,
};
use crate::opt_matches::Match;
use crate::parser::{common_run, index_of, pos_of, spec_rep_offset};
use crate::tree_model::{node_below, reach, slot_of, TreePlace};
use vstd::prelude::*;

verus! {

/// `b` starts with all of `a`.
pub open spec fn adds_to(b: Seq<Match>, a: Seq<Match>) -> bool {
    &&& a.len() <= b.len()
    &&& forall|i: int| 0 <= i < a.len() ==> #[trigger] b[i] == a[i]
}

/// A descent through a tree never loses what it has found, and takes the node
/// that it starts with, if that has more in common with the position than any
/// match before.
pub proof fn law_descents_take_the_root(w: TreePlace, low: u32, s: MatchSearch, node: Option<u32>)
    ensures
        ({
            let r = matches_searched(w, low, s, node);
            &&& r.best >= s.best
            &&& adds_to(r.found, s.found)
            &&& node is Some && s.left > 0 && node->0 >= low && pos_of(node->0, w.bias) < w.ip ==> {
                let m = pos_of(node->0, w.bias);
                let common = s.d.common();
                let len = common + common_run(w.data, w.ip + common, m + common, w.end);
                &&& r.best >= len
                &&& len > s.best ==> r.found.len() > s.found.len() && r.found[s.found.len() as int] == (
                Match { off: (w.ip - m + 3) as u32, len: len as u32 })
            }
        }),
    decreases s.left,
{
    reveal_with_fuel(matches_searched, 1);
    if node is Some {
        let idx = node->0;
        let m = pos_of(idx, w.bias);
        if s.left > 0 && idx >= low && m < w.ip {
            let len = w.len_with(idx, s.d.common());
            let longer = len > s.best;
            let s1 = if longer {
                MatchSearch {
                    match_end: reach(s.match_end, idx, len),
                    best: len,
                    found: s.found.push(Match { off: (w.ip - m + 3) as u32, len: len as u32 }),
                    ..s
                }
            } else {
                s
            };
            if longer && crate::opt_match_model::is_final(w.ip, w.end, len) {
            } else if w.ip + len < w.end {
                let smaller = w.is_smaller(idx, len);
                let t = s.d.table_after(s.table, idx, smaller);
                let next = node_below(t, w.log, idx, smaller, w.bt_low);
                let s2 = MatchSearch {
                    table: t,
                    d: s.d.below(w.log, idx, smaller, len, w.bt_low),
                    ..s1
                };
                if next is Some {
                    law_descents_take_the_root(
                        w,
                        low,
                        MatchSearch { left: (s.left - 1) as nat, ..s2 },
                        next,
                    );
                }
            }
        }
    }
}

/// The recent offsets are tried in turn, and each that gives more than all
/// before is taken.
pub proof fn law_recent_offsets_are_tried(
    w: OptPlace,
    ip: int,
    rep: Seq<u32>,
    ll0: bool,
    code: u32,
    min_match: nat,
    window_low: u32,
    sufficient: u32,
    best: nat,
    found: Seq<Match>,
)
    ensures
        ({
            let (n, all, stop) = repeats_found(
                w,
                ip,
                rep,
                ll0,
                code,
                min_match,
                window_low,
                sufficient,
                best,
                found,
            );
            let len = opt_repeat_len(w, ip, spec_rep_offset(rep, code, ll0), min_match, window_low);
            &&& n >= best
            &&& adds_to(all, found)
            &&& code <= 3 ==> n >= len
            &&& code <= 3 && len > best ==> all.len() > found.len() && all[found.len() as int] == (Match {
                off: code,
                len: len as u32,
            })
        }),
    decreases 4 - code,
{
    reveal_with_fuel(repeats_found, 1);
    if code <= 3 {
        let len = opt_repeat_len(w, ip, spec_rep_offset(rep, code, ll0), min_match, window_low);
        let (best1, found1) = if len > best {
            (len, found.push(Match { off: code, len: len as u32 }))
        } else {
            (best, found)
        };
        law_recent_offsets_are_tried(
            w,
            ip,
            rep,
            ll0,
            (code + 1) as u32,
            min_match,
            window_low,
            sufficient,
            best1,
            found1,
        );
    }
}

/// The lazy finder's descent keeps the best match that it has, unless another
/// is longer.
pub proof fn law_lazy_descents_keep_the_best(w: TreePlace, window_low: u32, s: TreeSearch, node: Option<u32>)
    ensures
        ({
            let r = tree_searched(w, window_low, s, node);
            &&& r.best.len >= s.best.len
            &&& r.best.len == s.best.len ==> r.best == s.best
            &&& node is Some && s.left > 0 && node->0 > window_low && pos_of(node->0, w.bias) < w.ip ==> {
                let m = pos_of(node->0, w.bias);
                let common = s.d.common();
                let len = common + common_run(w.data, w.ip + common, m + common, w.end);
                len > s.best.len && 4 * (len - s.best.len) > highest_bit((w.ip - m + 1) as nat)
                    - highest_bit(s.best.off_base) && same_run(w.data, w.ip, m, len as int)
                    ==> r.best.len >= len
            }
        }),
    decreases s.left,
{
    reveal_with_fuel(tree_searched, 1);
    if node is Some {
        let idx = node->0;
        let m = pos_of(idx, w.bias);
        if s.left > 0 && idx > window_low && m < w.ip {
            let len = w.len_with(idx, s.d.common());
            let offset = (w.ip - m) as nat;
            let longer = len > s.best.len;
            let s1 = TreeSearch {
                match_end: if longer {
                    reach(s.match_end, idx, len)
                } else {
                    s.match_end
                },
                best: if longer && worth_more(len, offset, s.best, s.best.off_base) && same_run(
                    w.data,
                    w.ip,
                    m,
                    len as int,
                ) {
                    FoundView { len, off_base: offset + 3 }
                } else {
                    s.best
                },
                ..s
            };
            if w.ip + len < w.end {
                let smaller = w.is_smaller(idx, len);
                let t = s.d.table_after(s.table, idx, smaller);
                let next = node_below(t, w.log, idx, smaller, w.bt_low);
                let s2 = TreeSearch {
                    table: t,
                    d: s.d.below(w.log, idx, smaller, len, w.bt_low),
                    ..s1
                };
                if next is Some {
                    law_lazy_descents_keep_the_best(
                        w,
                        window_low,
                        TreeSearch { left: (s.left - 1) as nat, ..s2 },
                        next,
                    );
                }
            }
        }
    }
}

/// At a position that no long match has passed over, the newest offset comes
/// first among the matches, if it gives enough.
pub proof fn law_matches_are_gathered(
    w: OptPlace,
    s: OptState,
    next3: u32,
    ip: int,
    rep: Seq<u32>,
    ll0: bool,
    length_to_beat: u32,
)
    requires
        index_of(ip as nat, w.bias) >= s.next,
        length_to_beat >= 1,
    ensures
        ({
            let g = gathered(w, s, next3, ip, rep, ll0, length_to_beat);
            let curr = index_of(ip as nat, w.bias);
            let low = spec_lowest_index(curr, w.low_limit, s.window_log);
            let len = opt_repeat_len(
                w,
                ip,
                spec_rep_offset(rep, 1, ll0),
                if s.mls == 3 {
                    3nat
                } else {
                    4nat
                },
                low,
            );
            len >= length_to_beat ==> g.found.len() > 0 && g.found[0] == (Match {
                off: 1,
                len: len as u32,
            })
        }),
{
    reveal(gathered);
    let curr = index_of(ip as nat, w.bias);
    let window_low = spec_lowest_index(curr, w.low_limit, s.window_log);
    law_recent_offsets_are_tried(
        w,
        ip,
        rep,
        ll0,
        1,
        s.min_match() as nat,
        window_low,
        s.sufficient_len,
        (length_to_beat - 1) as nat,
        Seq::empty(),
    );
    assert forall|t: OptState, best: nat, found: Seq<Match>|
        adds_to(#[trigger] trees_gathered(w, t, ip, best, found).1, found) by {
        lemma_trees_gathered(w, t, ip, best, found);
    }
}

/// What was found before stays in front.
proof fn lemma_trees_gathered(w: OptPlace, s: OptState, ip: int, best: nat, found: Seq<Match>)
    ensures
        adds_to(trees_gathered(w, s, ip, best, found).1, found),
{
    reveal(trees_gathered);
    reveal(tree_found);
    reveal(dict_tree_found);
    assert forall|p: TreePlace, low: u32, m: MatchSearch, node: Option<u32>|
        adds_to(#[trigger] matches_searched(p, low, m, node).found, m.found) by {
        law_descents_take_the_root(p, low, m, node);
    }
    assert forall|
        p: TreePlace,
        table: Seq<u32>,
        a: nat,
        b: nat,
        idx: u32,
        left: nat,
        e: u32,
        n: nat,
        q: Seq<Match>,
    |
        adds_to(#[trigger] dict_matches_searched(p, table, a, b, idx, left, e, n, q).1, q) by {
        lemma_dict_descents_add(p, table, a, b, idx, left, e, n, q);
    }
}

pub proof fn lemma_dict_descents_add(
    w: TreePlace,
    table: Seq<u32>,
    common_smaller: nat,
    common_larger: nat,
    idx: u32,
    left: nat,
    match_end: u32,
    best: nat,
    found: Seq<Match>,
)
    ensures
        ({
            let r = dict_matches_searched(
                w,
                table,
                common_smaller,
                common_larger,
                idx,
                left,
                match_end,
                best,
                found,
            ).1;
            let common = if common_smaller < common_larger {
                common_smaller
            } else {
                common_larger
            };
            let len = w.len_with(idx, common);
            &&& adds_to(r, found)
            &&& left > 0 && idx > 2 && pos_of(idx, 2) < w.ip && len > best ==> r.len() > found.len()
                && r[found.len() as int] == (Match { off: (w.ip - pos_of(idx, 2) + 3) as u32, len: len as u32 })
        }),
    decreases left,
{
    reveal_with_fuel(dict_matches_searched, 1);
    let m = pos_of(idx, 2);
    if left > 0 && idx > 2 && m < w.ip {
        let common = if common_smaller < common_larger {
            common_smaller
        } else {
            common_larger
        };
        let len = w.len_with(idx, common);
        let longer = len > best;
        let match_end1 = if longer {
            reach(match_end, idx, len)
        } else {
            match_end
        };
        let best1 = if longer {
            len
        } else {
            best
        };
        let found1 = if longer {
            found.push(Match { off: (w.ip - m + 3) as u32, len: len as u32 })
        } else {
            found
        };
        assert(adds_to(found1, found));
        if !((longer && crate::opt_match_model::is_final(w.ip, w.end, len)) || idx <= w.bt_low || w.ip
            + len >= w.end) {
            let smaller = w.is_smaller(idx, len);
            let slot = slot_of(w.log, idx);
            lemma_dict_descents_add(
                w,
                table,
                if smaller {
                    len
                } else {
                    common_smaller
                },
                if smaller {
                    common_larger
                } else {
                    len
                },
                if smaller {
                    table[slot + 1]
                } else {
                    table[slot]
                },
                (left - 1) as nat,
                match_end1,
                best1,
                found1,
            );
        }
    }
}

} // verus!
