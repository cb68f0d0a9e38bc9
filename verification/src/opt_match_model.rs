//! Which matches the optimal parser is given at a position.

use crate::fast_model::spec_lowest_index;
use crate::lazy_model::less;
use crate::ldm::RawSeq;
use crate::math::bits_at;
use crate::opt_matches::{LdmCursor, Match};
use crate::opt_price_model::{plus, StatsView};
use crate::parser::{common_run, index_of, pos_of, spec_hash, spec_rep_offset};
use crate::tree_model::{node_below, reach, slot_of, sorted_in, DescentView, TreePlace};
use crate::window::reduced_table;
use vstd::arithmetic::power2::pow2;
use vstd::prelude::*;

verus! {

/// The state of the parser.
pub struct OptState {
    pub hash: Seq<u32>,
    pub tree: Seq<u32>,
    pub hash3: Seq<u32>,
    pub hash_log3: u32,
    pub next: u32,
    pub is_ultra2: bool,
    pub mls: u32,
    pub sufficient_len: u32,
    pub search_log: u32,
    pub window_log: u32,
    pub hash_log: u32,
    pub chain_log: u32,
    pub stats: StatsView,
}

impl OptState {
    /// The shortest match that is looked for.
    pub open spec fn min_match(self) -> u32 {
        if self.mls == 3 {
            3
        } else {
            4
        }
    }
}

/// Where matches may have their source, for one block.
pub struct OptPlace {
    pub data: Seq<u8>,
    pub end: int,
    pub bias: u32,
    pub dict_limit: u32,
    pub low_limit: u32,
    pub ext_dict: bool,
    /// An attached dictionary, and the length of its content.
    pub dict: Option<(OptState, int)>,
}

/// Every index with `correction` taken off.
pub open spec fn reduced_opt(s: OptState, correction: u32) -> OptState {
    OptState {
        hash: reduced_table(s.hash, correction, false),
        tree: reduced_table(s.tree, correction, false),
        hash3: if s.hash_log3 > 0 {
            reduced_table(s.hash3, correction, false)
        } else {
            s.hash3
        },
        next: less(s.next, correction as nat),
        ..s
    }
}

/// A hash of three bytes, of `h` bits.
#[verifier::opaque]
pub open spec fn spec_hash3(data: Seq<u8>, at: int, h: u32) -> nat {
    let v = bits_at(data, (8 * at) as nat, 32) as u32;
    v.wrapping_mul(256).wrapping_mul(506_832_829) as nat / pow2((32 - h) as nat)
}

/// The positions from `idx` up to `goal` entered under their three-byte hash.
#[verifier::opaque]
pub open spec fn hash3_entered(t: Seq<u32>, data: Seq<u8>, idx: u32, goal: u32, log: u32, bias: u32) -> Seq<u32>
    decreases goal - idx,
{
    if idx < goal {
        let pos = pos_of(idx, bias);
        let t1 = if pos <= data.len() - 8 {
            t.update(spec_hash3(data, pos, log) as int, idx)
        } else {
            t
        };
        hash3_entered(t1, data, (idx + 1) as u32, goal, log, bias)
    } else {
        t
    }
}

/// The positions from `idx` up to `goal` sorted in, passing over what a long
/// match covers.
#[verifier::opaque]
pub open spec fn opt_sorted(
    s: OptState,
    data: Seq<u8>,
    idx: u32,
    goal: u32,
    end: int,
    bias: u32,
    low: u32,
) -> OptState
    decreases goal - idx,
{
    if idx < goal {
        let pos = pos_of(idx, bias);
        let r = sorted_in(
            s.hash,
            s.tree,
            data,
            pos,
            end,
            bias,
            low,
            spec_hash(data, pos, s.hash_log, s.mls) as int,
            s.chain_log,
            s.search_log,
        );
        let s1 = if pos <= end - 8 {
            OptState { hash: r.hash, tree: r.table, ..s }
        } else {
            s
        };
        let forward = if pos <= end - 8 && r.forward > 1 {
            r.forward
        } else {
            1
        };
        opt_sorted(
            s1,
            data,
            if forward < goal - idx {
                (idx + forward) as u32
            } else {
                goal
            },
            goal,
            end,
            bias,
            low,
        )
    } else {
        s
    }
}

/// The positions before index `target` sorted in.
pub open spec fn opt_updated(s: OptState, data: Seq<u8>, target: u32, end: int, bias: u32, low_limit: u32) -> OptState {
    OptState {
        next: target,
        ..opt_sorted(
            s,
            data,
            s.next,
            target,
            end,
            bias,
            spec_lowest_index(target, low_limit, s.window_log),
        )
    }
}

/// The state once the dictionary `data[.. dict_len]` has been sorted in, all
/// but its last positions.
pub open spec fn opt_loaded(s: OptState, data: Seq<u8>, dict_len: int) -> OptState {
    OptState {
        next: index_of(dict_len as nat, 2),
        ..opt_updated(s, data, index_of((dict_len - 8) as nat, 2), dict_len, 2, 2)
    }
}

// ---------------------------------------------------------------------------
// Recent offsets.

/// A source at the distance `offset` may be used: in the newer segment one
/// that is in the window, or in the older one that does not straddle the seam.
#[verifier::opaque]
pub open spec fn may_repeat(w: OptPlace, ip: int, offset: u32, window_low: u32) -> bool {
    let curr = index_of(ip as nat, w.bias);
    let rep_index = curr.wrapping_sub(offset);
    let apart = w.dict_limit.wrapping_sub(1).wrapping_sub(rep_index) >= 3;
    if offset - 1 < curr.wrapping_sub(w.dict_limit) {
        rep_index >= window_low
    } else if w.ext_dict {
        apart && offset - 1 < curr.wrapping_sub(window_low)
    } else {
        w.dict is Some && apart && offset - 1 < curr.wrapping_sub(2)
    }
}

/// The length of the match at `ip` with the offset `offset`, or zero.
#[verifier::opaque]
pub open spec fn opt_repeat_len(w: OptPlace, ip: int, offset: u32, min_match: nat, window_low: u32) -> nat {
    let len = common_run(w.data, ip, ip - offset, w.end);
    if 0 < offset <= ip && may_repeat(w, ip, offset, window_low) && len >= min_match {
        len
    } else {
        0
    }
}

/// The matches with the recent offsets from `code` on, each longer than those
/// before; the length of the longest, and whether it is long enough to stop.
#[verifier::opaque]
pub open spec fn repeats_found(
    w: OptPlace,
    ip: int,
    rep: Seq<u32>,
    ll0: bool,
    code: u32,
    min_match: nat,
    window_low: u32,
    sufficient: u32,
    best: nat,
    found: Seq<Match>,
) -> (nat, Seq<Match>, bool)
    decreases 4 - code,
{
    if code <= 3 {
        let len = opt_repeat_len(w, ip, spec_rep_offset(rep, code, ll0), min_match, window_low);
        if len > best {
            let more = found.push(Match { off: code, len: len as u32 });
            if len > sufficient || ip + len == w.end {
                (len, more, true)
            } else {
                repeats_found(
                    w,
                    ip,
                    rep,
                    ll0,
                    (code + 1) as u32,
                    min_match,
                    window_low,
                    sufficient,
                    len,
                    more,
                )
            }
        } else {
            repeats_found(
                w,
                ip,
                rep,
                ll0,
                (code + 1) as u32,
                min_match,
                window_low,
                sufficient,
                best,
                found,
            )
        }
    } else {
        (best, found, false)
    }
}

// ---------------------------------------------------------------------------
// The tree.

/// The state of a descent for matches.
pub struct MatchSearch {
    pub table: Seq<u32>,
    pub d: DescentView,
    pub match_end: u32,
    pub best: nat,
    pub found: Seq<Match>,
    pub left: nat,
}

/// A match of `len` bytes is the longest that will be found.
pub open spec fn is_final(ip: int, end: int, len: nat) -> bool {
    len > 4096 || ip + len >= end
}

/// Descends from `node` on, hanging each, and takes every match that is longer
/// than all before. What is left of the budget is nothing, where the search
/// ended with a match that cannot be beaten.
#[verifier::opaque]
pub open spec fn matches_searched(w: TreePlace, low: u32, s: MatchSearch, node: Option<u32>) -> MatchSearch
    decreases s.left,
{
    match node {
        Some(idx) => {
            let m = pos_of(idx, w.bias);
            if s.left > 0 && idx >= low && m < w.ip {
                let len = w.len_with(idx, s.d.common());
                let longer = len > s.best;
                let s1 = if longer {
                    MatchSearch {
                        match_end: reach(s.match_end, idx, len),
                        best: len,
                        found: s.found.push(Match { off: (w.ip - m + 3) as u32, len: len as u32 }),
                        ..s
                    }
                } else {
                    s
                };
                if longer && is_final(w.ip, w.end, len) {
                    MatchSearch { left: 0, ..s1 }
                } else if w.ip + len < w.end {
                    let smaller = w.is_smaller(idx, len);
                    let t = s.d.table_after(s.table, idx, smaller);
                    let next = node_below(t, w.log, idx, smaller, w.bt_low);
                    let s2 = MatchSearch {
                        table: t,
                        d: s.d.below(w.log, idx, smaller, len, w.bt_low),
                        ..s1
                    };
                    if next is Some {
                        matches_searched(w, low, MatchSearch { left: (s.left - 1) as nat, ..s2 }, next)
                    } else {
                        s2
                    }
                } else {
                    s1
                }
            } else {
                s
            }
        },
        None => s,
    }
}

/// The search for the position `ip`, which is sorted in.
#[verifier::opaque]
pub open spec fn tree_found(w: OptPlace, s: OptState, ip: int, best: nat, found: Seq<Match>) -> MatchSearch {
    let curr = index_of(ip as nat, w.bias);
    let window_low = spec_lowest_index(curr, w.low_limit, s.window_log);
    let h = spec_hash(w.data, ip, s.hash_log, s.mls) as int;
    matches_searched(
        TreePlace {
            data: w.data,
            ip,
            end: w.end,
            bias: w.bias,
            log: s.chain_log,
            bt_low: less(curr, (pow2((s.chain_log - 1) as nat) - 1) as nat),
        },
        if window_low > 1 {
            window_low
        } else {
            1
        },
        MatchSearch {
            table: s.tree,
            d: DescentView::start(s.chain_log, curr),
            match_end: ((curr + 9) % 0x1_0000_0000) as u32,
            best,
            found,
            left: pow2(s.search_log as nat),
        },
        Some(s.hash[h]),
    )
}

/// Descends a dictionary's tree in the same way, without changing it.
#[verifier::opaque]
pub open spec fn dict_matches_searched(
    w: TreePlace,
    table: Seq<u32>,
    common_smaller: nat,
    common_larger: nat,
    idx: u32,
    left: nat,
    match_end: u32,
    best: nat,
    found: Seq<Match>,
) -> (u32, Seq<Match>)
    decreases left,
{
    let m = pos_of(idx, 2);
    if left > 0 && idx > 2 && m < w.ip {
        let common = if common_smaller < common_larger {
            common_smaller
        } else {
            common_larger
        };
        let len = w.len_with(idx, common);
        let longer = len > best;
        let match_end1 = if longer {
            reach(match_end, idx, len)
        } else {
            match_end
        };
        let best1 = if longer {
            len
        } else {
            best
        };
        let found1 = if longer {
            found.push(Match { off: (w.ip - m + 3) as u32, len: len as u32 })
        } else {
            found
        };
        if (longer && is_final(w.ip, w.end, len)) || idx <= w.bt_low || w.ip + len >= w.end {
            (match_end1, found1)
        } else {
            let smaller = w.is_smaller(idx, len);
            let slot = slot_of(w.log, idx);
            dict_matches_searched(
                w,
                table,
                if smaller {
                    len
                } else {
                    common_smaller
                },
                if smaller {
                    common_larger
                } else {
                    len
                },
                if smaller {
                    table[slot + 1]
                } else {
                    table[slot]
                },
                (left - 1) as nat,
                match_end1,
                best1,
                found1,
            )
        }
    } else {
        (match_end, found)
    }
}

/// The same from the tree's root on.
#[verifier::opaque]
pub open spec fn dict_tree_found(
    d: OptState,
    content_len: int,
    mls: u32,
    data: Seq<u8>,
    ip: int,
    end: int,
    left: nat,
    match_end: u32,
    best: nat,
    found: Seq<Match>,
) -> (u32, Seq<Match>) {
    let high = (content_len + 2) % 0x1_0000_0000;
    let mask = pow2((d.chain_log - 1) as nat) - 1;
    dict_matches_searched(
        TreePlace {
            data,
            ip,
            end,
            bias: 2,
            log: d.chain_log,
            bt_low: (if mask < high - 2 {
                high - mask
            } else {
                2
            }) as u32,
        },
        d.tree,
        0,
        0,
        d.hash[spec_hash(data, ip, d.hash_log, mls) as int],
        left,
        match_end,
        best,
        found,
    )
}

// ---------------------------------------------------------------------------
// All of them.

/// The outcome of a search at one position.
pub struct Gathered {
    pub state: OptState,
    pub next3: u32,
    pub found: Seq<Match>,
}

/// The matches of the tree, and then of a dictionary's.
#[verifier::opaque]
pub open spec fn trees_gathered(w: OptPlace, s: OptState, ip: int, best: nat, found: Seq<Match>) -> (
    OptState,
    Seq<Match>,
) {
    let curr = index_of(ip as nat, w.bias);
    let h = spec_hash(w.data, ip, s.hash_log, s.mls) as int;
    let r = tree_found(w, s, ip, best, found);
    let (match_end, all) = match w.dict {
        Some((d, content_len)) => if r.left > 0 {
            dict_tree_found(
                d,
                content_len,
                s.mls,
                w.data,
                ip,
                w.end,
                r.left,
                r.match_end,
                r.best,
                r.found,
            )
        } else {
            (r.match_end, r.found)
        },
        None => (r.match_end, r.found),
    };
    (
        OptState {
            hash: s.hash.update(h, curr),
            tree: r.d.closed(r.table),
            next: ((match_end - 8) % 0x1_0000_0000) as u32,
            ..s
        },
        all,
    )
}

/// The match by the three-byte hash, where nothing has been found yet: its
/// length, or zero.
#[verifier::opaque]
pub open spec fn short_len(w: OptPlace, idx: u32, ip: int, window_low: u32) -> nat {
    let m = pos_of(idx, w.bias);
    let len = common_run(w.data, ip, m, w.end);
    if idx >= window_low && idx >= 1 && m < ip && ip - m < 262144 && len >= 3 {
        len
    } else {
        0
    }
}

/// The matches at `ip`, each longer than the one before; none where a long
/// match has passed over it.
#[verifier::opaque]
pub open spec fn gathered(
    w: OptPlace,
    s: OptState,
    next3: u32,
    ip: int,
    rep: Seq<u32>,
    ll0: bool,
    length_to_beat: u32,
) -> Gathered {
    let curr = index_of(ip as nat, w.bias);
    if curr < s.next {
        Gathered { state: s, next3, found: Seq::empty() }
    } else {
        let s1 = opt_updated(s, w.data, curr, w.end, w.bias, w.low_limit);
        let window_low = spec_lowest_index(curr, w.low_limit, s.window_log);
        let (best, found, stop) = repeats_found(
            w,
            ip,
            rep,
            ll0,
            1,
            s.min_match() as nat,
            window_low,
            s.sufficient_len,
            (length_to_beat - 1) as nat,
            Seq::empty(),
        );
        if stop {
            Gathered { state: s1, next3, found }
        } else if s.mls == 3 && best < 3 {
            let t3 = hash3_entered(s1.hash3, w.data, next3, curr, s.hash_log3, w.bias);
            let idx3 = t3[spec_hash3(w.data, ip, s.hash_log3) as int];
            let len = short_len(w, idx3, ip, window_low);
            let s2 = OptState { hash3: t3, ..s1 };
            if len == 0 {
                let (s3, all) = trees_gathered(w, s2, ip, best, found);
                Gathered { state: s3, next3: curr, found: all }
            } else {
                let more = found.push(
                    Match { off: (ip - pos_of(idx3, w.bias) + 3) as u32, len: len as u32 },
                );
                if len > s.sufficient_len || ip + len == w.end {
                    Gathered {
                        state: OptState { next: ((curr + 1) % 0x1_0000_0000) as u32, ..s2 },
                        next3: curr,
                        found: more,
                    }
                } else {
                    let (s3, all) = trees_gathered(w, s2, ip, len, more);
                    Gathered { state: s3, next3: curr, found: all }
                }
            }
        } else {
            let (s3, all) = trees_gathered(w, s1, ip, best, found);
            Gathered { state: s3, next3, found: all }
        }
    }
}

// ---------------------------------------------------------------------------
// Long-distance candidates.

/// `a + b`, or the largest number.
pub open spec fn plus_at_most(a: u32, b: u32) -> u32 {
    if a + b > u32::MAX {
        u32::MAX
    } else {
        (a + b) as u32
    }
}

/// The cursor moved on by `curr` bytes from the start of the sequence `pos`.
#[verifier::opaque]
pub open spec fn moved_from(seqs: Seq<RawSeq>, pos: int, curr: u32, within: u32) -> LdmCursor
    decreases seqs.len() - pos,
{
    if curr > 0 && pos < seqs.len() {
        let q = seqs[pos];
        let size = plus(q.lit_length, q.match_length as nat);
        if curr >= size {
            moved_from(seqs, pos + 1, (curr - size) as u32, within)
        } else {
            LdmCursor { pos: pos as usize, pos_in_sequence: curr }
        }
    } else {
        LdmCursor {
            pos: pos as usize,
            pos_in_sequence: if curr == 0 || pos == seqs.len() {
                0
            } else {
                within
            },
        }
    }
}

/// The cursor moved on by `n` bytes.
pub open spec fn moved(c: LdmCursor, seqs: Seq<RawSeq>, n: u32) -> LdmCursor {
    moved_from(seqs, c.pos as int, plus(c.pos_in_sequence, n as nat), c.pos_in_sequence)
}

/// The next long-distance match, as places within the block.
pub struct LdmView {
    pub cursor: LdmCursor,
    pub start: u32,
    pub end: u32,
    pub offset: u32,
}

/// The next match looked up, and the cursor moved past it.
#[verifier::opaque]
pub open spec fn next_looked_up(v: LdmView, seqs: Seq<RawSeq>, at: u32, remaining: u32) -> LdmView {
    if v.cursor.pos >= seqs.len() {
        LdmView { start: u32::MAX, end: u32::MAX, ..v }
    } else {
        let q = seqs[v.cursor.pos as int];
        let block_end = plus_at_most(at, remaining);
        let literals = less(q.lit_length, v.cursor.pos_in_sequence as nat);
        let matched = if literals == 0 {
            less(q.match_length, less(v.cursor.pos_in_sequence, q.lit_length as nat) as nat)
        } else {
            q.match_length
        };
        let start = plus_at_most(at, literals);
        let end = plus_at_most(start, matched);
        if literals >= remaining {
            LdmView {
                start: u32::MAX,
                end: u32::MAX,
                cursor: moved(v.cursor, seqs, remaining),
                ..v
            }
        } else if end > block_end {
            LdmView {
                start,
                end: block_end,
                offset: q.offset,
                cursor: moved(v.cursor, seqs, less(block_end, at as nat)),
            }
        } else {
            LdmView {
                start,
                end,
                offset: q.offset,
                cursor: moved(v.cursor, seqs, plus_at_most(literals, matched)),
            }
        }
    }
}

/// The match that covers place `at` of the block looked up.
#[verifier::opaque]
pub open spec fn brought_to(v: LdmView, seqs: Seq<RawSeq>, at: u32, remaining: u32) -> LdmView {
    if v.cursor.pos >= seqs.len() || at < v.end {
        v
    } else {
        let v1 = if at > v.end {
            LdmView { cursor: moved(v.cursor, seqs, (at - v.end) as u32), ..v }
        } else {
            v
        };
        next_looked_up(v1, seqs, at, remaining)
    }
}

/// The matches with the long-distance one at place `at` of the block, if it is
/// longer than those there are.
#[verifier::opaque]
pub open spec fn with_candidate(
    had: LdmView,
    seqs: Seq<RawSeq>,
    found: Seq<Match>,
    at: u32,
    remaining: u32,
    min_match: u32,
) -> (LdmView, Seq<Match>) {
    let v = brought_to(had, seqs, at, remaining);
    let len = v.end - at;
    if had.cursor.pos < seqs.len() && v.start <= at < v.end && min_match <= len <= remaining && v.offset
        <= u32::MAX - 3 && (found.len() == 0 || (len > found.last().len && found.len() < 4096)) {
        (v, found.push(Match { off: (v.offset + 3) as u32, len: len as u32 }))
    } else {
        (v, found)
    }
}

} // verus!
