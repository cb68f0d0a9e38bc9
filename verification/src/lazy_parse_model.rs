//! How the greedy and lazy match finders choose among what their searches
//! find.

use crate::bits::highest_bit;
use crate::fast_model::{is_whole, same4, spec_lowest_index};
use crate::layout::Layout;
use crate::lazy_model::{cache_filled, chain_best, row_best, FoundView, LazyPlace, LazyState};
use crate::lazy_search::SearchMethod;
use crate::lazy_tree_model::tree_best;
use crate::parser::{back_run, common_run, index_of, pos_of, Parse};
use crate::recent::Recent;
use vstd::prelude::*;

verus! {

/// Where a block is parsed.
pub struct LazyScene {
    pub w: LazyPlace,
    /// Where the newer of two segments starts; zero if there is one.
    pub seam: int,
    /// How far a source may be extended back in the older and in the newer
    /// segment.
    pub older_low: int,
    pub newer_low: int,
}

/// The length of the match at `ip` with the offset `offset`, or zero.
#[verifier::opaque]
pub open spec fn repeat_len(v: LazyScene, ip: int, offset: u32, window_log: u32) -> nat {
    let curr = index_of(ip as nat, v.w.win.bias);
    let low = spec_lowest_index(curr, v.w.win.low_limit, window_log);
    let r = ip - offset;
    if 0 < offset <= ip && is_whole(r, v.seam) && !(v.w.ext_dict && offset > (curr - low)
        % 0x1_0000_0000) && same4(v.w.data, ip, r) {
        common_run(v.w.data, ip + 4, r + 4, v.w.end) + 4
    } else {
        0
    }
}

/// The best match at `ip`, by the method in use.
pub open spec fn best_at(w: LazyPlace, s: LazyState, ip: int) -> (LazyState, FoundView) {
    match s.method {
        SearchMethod::HashChain => chain_best(w, s, ip),
        SearchMethod::RowHash => row_best(w, s, ip),
        SearchMethod::BinaryTree => tree_best(w, s, ip),
    }
}

/// A solution. The offset value 1 stands for the newest offset.
pub struct BestView {
    pub start: int,
    pub len: nat,
    pub off_base: nat,
}

/// A length weighed against the cost of its offset.
#[verifier::opaque]
pub open spec fn worth(len: nat, weight: int, off_base: nat) -> int {
    len * weight - highest_bit(off_base)
}

/// The better of `best` and what `ip` offers: with the newest offset, and by a
/// search. The last result says whether the search found it.
#[verifier::opaque]
pub open spec fn improved(
    v: LazyScene,
    s: LazyState,
    ip: int,
    best: BestView,
    first: u32,
    weight: int,
    margin: int,
) -> (LazyState, BestView, bool) {
    let rep = repeat_len(v, ip, first, s.window_log);
    let b = if rep >= 4 && worth(rep, weight, 1) > worth(best.len, weight, best.off_base) + 1 {
        BestView { start: ip, len: rep, off_base: 1 }
    } else {
        best
    };
    let (s1, f) = best_at(v.w, s, ip);
    if f.len >= 4 && worth(f.len, 4, f.off_base) > worth(b.len, 4, b.off_base) + margin {
        (s1, BestView { start: ip, len: f.len, off_base: f.off_base }, true)
    } else {
        (s1, b, false)
    }
}

/// The positions after `ip` looked at, for as long as they offer something
/// better.
#[verifier::opaque]
pub open spec fn refined(v: LazyScene, s: LazyState, ip: int, best: BestView, first: u32, ilimit: int) -> (
    LazyState,
    BestView,
)
    decreases ilimit - ip,
{
    if ip < ilimit {
        let (s1, b1, found1) = improved(v, s, ip + 1, best, first, 3, 4);
        if found1 {
            refined(v, s1, ip + 1, b1, first, ilimit)
        } else if s.depth == 2 && ip + 1 < ilimit {
            let (s2, b2, found2) = improved(v, s1, ip + 2, b1, first, 4, 7);
            if found2 {
                refined(v, s2, ip + 2, b2, first, ilimit)
            } else {
                (s2, b2)
            }
        } else {
            (s1, b1)
        }
    } else {
        (s, best)
    }
}

/// What changes while a block is parsed.
pub struct LazyProgress {
    pub state: LazyState,
    pub parse: Parse,
    pub recent: Recent,
}

/// The matches right at the anchor with the second newest offset.
#[verifier::opaque]
pub open spec fn lazy_repeated(v: LazyScene, parse: Parse, recent: Recent, window_log: u32, ilimit: int) -> (
    Parse,
    Recent,
)
    decreases ilimit - parse.anchor,
{
    let ip = parse.anchor;
    let len = repeat_len(v, ip, recent.second, window_log);
    if ip <= ilimit && len >= 4 {
        let next = parse.with_match(ip, 1, len);
        if next.anchor <= ilimit {
            lazy_repeated(v, next, recent.swapped(), window_log, ilimit)
        } else {
            (next, recent.swapped())
        }
    } else {
        (parse, recent)
    }
}

/// Kept hashes are made good again after positions have been skipped.
pub open spec fn caught_up(v: LazyScene, s: LazyState) -> LazyState {
    if s.skipping {
        let bias = v.w.win.bias;
        let limit = index_of(v.w.end as nat, bias) - 16;
        let s1 = if s.method == SearchMethod::RowHash {
            cache_filled(s, v.w.data, s.next, limit, bias, 0)
        } else {
            s
        };
        LazyState { skipping: false, ..s1 }
    } else {
        s
    }
}

/// A solution, extended backward, stored.
#[verifier::opaque]
pub open spec fn solution_stored(v: LazyScene, s: LazyProgress, best: BestView, ilimit: int) -> LazyProgress {
    let offset = best.off_base - 3;
    let m = best.start - offset;
    let back = back_run(
        v.w.data,
        best.start,
        m,
        s.parse.anchor,
        if m < v.seam {
            v.older_low
        } else {
            v.newer_low
        },
    );
    let (parse, recent) = if best.off_base > 3 {
        (
            s.parse.with_match(best.start - back, best.off_base, back + best.len),
            s.recent.pushed(offset as u32),
        )
    } else {
        (s.parse.with_match(best.start, 1, best.len), s.recent)
    };
    let (parse1, recent1) = lazy_repeated(v, parse, recent, s.state.window_log, ilimit);
    LazyProgress { state: caught_up(v, s.state), parse: parse1, recent: recent1 }
}

/// The first solution at `ip`: one position on with the newest offset, or what
/// a search at `ip` finds. The greedy finder does not search where the former
/// has a match. The last result says whether there was a search.
#[verifier::opaque]
pub open spec fn first_solution(v: LazyScene, s: LazyState, first: u32, ip: int) -> (
    LazyState,
    BestView,
    bool,
) {
    let rep = repeat_len(v, ip + 1, first, s.window_log);
    let best = BestView { start: ip + 1, len: rep, off_base: 1 };
    if s.depth == 0 && rep >= 4 {
        (s, best, false)
    } else {
        let (s1, f) = best_at(v.w, s, ip);
        if f.len > rep && f.len >= 4 {
            (s1, BestView { start: ip, len: f.len, off_base: f.off_base }, true)
        } else {
            (s1, best, true)
        }
    }
}

/// Parsing from `ip` on. Where nothing is found, steps grow with the distance
/// from the anchor.
#[verifier::opaque]
pub open spec fn lazily_parsed(v: LazyScene, s: LazyProgress, ip: int, ilimit: int) -> LazyProgress
    decreases ilimit - ip,
{
    if ip < ilimit {
        let (c1, b1, searched) = first_solution(v, s.state, s.recent.first, ip);
        if b1.len < 4 {
            let step = (ip - s.parse.anchor) / 256;
            let skipping = if v.w.ext_dict {
                step
            } else {
                step + 1
            };
            let s1 = LazyProgress { state: LazyState { skipping: skipping > 8, ..c1 }, ..s };
            if 0 <= step < ilimit - ip {
                lazily_parsed(v, s1, ip + step + 1, ilimit)
            } else {
                s1
            }
        } else {
            let (c2, b2) = if searched && c1.depth >= 1 {
                refined(v, c1, ip, b1, s.recent.first, ilimit)
            } else {
                (c1, b1)
            };
            let s1 = solution_stored(v, LazyProgress { state: c2, ..s }, b2, ilimit);
            if ip < s1.parse.anchor < ilimit {
                lazily_parsed(v, s1, s1.parse.anchor, ilimit)
            } else {
                s1
            }
        }
    } else {
        s
    }
}

/// A whole block, from `at` on.
#[verifier::opaque]
pub open spec fn lazy_block_parsed(v: LazyScene, s: LazyProgress, at: int) -> LazyProgress {
    let bias = v.w.win.bias;
    let by_rows = s.state.method == SearchMethod::RowHash;
    let c0 = LazyState { skipping: false, ..s.state };
    let c1 = if by_rows {
        cache_filled(c0, v.w.data, c0.next, index_of(v.w.end as nat, bias) - 16, bias, 0)
    } else {
        c0
    };
    let s1 = LazyProgress { state: c1, ..s };
    let margin = if by_rows {
        16int
    } else {
        8
    };
    if v.w.end < margin {
        s1
    } else {
        lazily_parsed(v, s1, at, v.w.end - margin)
    }
}

// ---------------------------------------------------------------------------
// Blocks.

/// The outcome of a block: the state, the sequences, and the recent offsets.
pub struct LazyOutcome {
    pub state: LazyState,
    pub parse: Parse,
    pub rep: Seq<u32>,
}

/// The outcome of parsing a block from `at` on with the recent offsets
/// `recent`.
pub open spec fn lazy_outcome(
    v: LazyScene,
    state: LazyState,
    start: int,
    at: int,
    recent: Recent,
    rep: Seq<u32>,
) -> LazyOutcome {
    let s = lazy_block_parsed(
        v,
        LazyProgress {
            state,
            parse: Parse { triples: Seq::empty(), anchor: start },
            recent,
        },
        at,
    );
    LazyOutcome { state: s.state, parse: s.parse, rep: s.recent.finished(rep) }
}

/// A block with its history in one segment.
pub open spec fn lazy_block_outcome(
    state: LazyState,
    data: Seq<u8>,
    start: int,
    end: int,
    rep: Seq<u32>,
    win: Layout,
) -> LazyOutcome {
    let bias = win.bias;
    let low = pos_of(win.dict_limit, bias);
    let at = if start == low {
        start + 1
    } else {
        start
    };
    let curr = index_of(at as nat, bias);
    let window_low = spec_lowest_index(curr, win.dict_limit, state.window_log);
    if start >= end {
        LazyOutcome { state, parse: Parse { triples: Seq::empty(), anchor: start }, rep }
    } else {
        lazy_outcome(
            LazyScene {
                w: LazyPlace { data, end, win, ext_dict: false, dict: None },
                seam: 0,
                older_low: low,
                newer_low: low,
            },
            state,
            start,
            at,
            Recent::spec_start(rep, (curr - window_low) % 0x1_0000_0000, false),
            rep,
        )
    }
}

/// A block with an attached dictionary, whose content stands at the start of
/// the data.
pub open spec fn lazy_dict_block_outcome(
    state: LazyState,
    data: Seq<u8>,
    start: int,
    end: int,
    rep: Seq<u32>,
    win: Layout,
    dict: LazyState,
    content_len: int,
) -> LazyOutcome {
    lazy_outcome(
        LazyScene {
            w: LazyPlace { data, end, win, ext_dict: false, dict: Some((dict, content_len)) },
            seam: content_len,
            older_low: 0,
            newer_low: content_len,
        },
        state,
        start,
        if start == 0 {
            1
        } else {
            start
        },
        Recent { first: rep[0], second: rep[1], saved_first: 0, saved_second: 0 },
        rep,
    )
}

/// A block whose history is in two segments, one after the other.
pub open spec fn lazy_ext_block_outcome(
    state: LazyState,
    data: Seq<u8>,
    start: int,
    end: int,
    rep: Seq<u32>,
    win: Layout,
) -> LazyOutcome {
    let seam = pos_of(win.dict_limit, win.bias);
    if start >= end {
        LazyOutcome { state, parse: Parse { triples: Seq::empty(), anchor: start }, rep }
    } else {
        lazy_outcome(
            LazyScene {
                w: LazyPlace { data, end, win, ext_dict: true, dict: None },
                seam,
                older_low: pos_of(win.low_limit, win.bias),
                newer_low: seam,
            },
            state,
            start,
            if start == seam {
                start + 1
            } else {
                start
            },
            Recent { first: rep[0], second: rep[1], saved_first: 0, saved_second: 0 },
            rep,
        )
    }
}

} // verus!
