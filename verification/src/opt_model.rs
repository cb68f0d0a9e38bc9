//! How the optimal parser prices a stretch and chooses its sequences.

use crate::block_encode_model::EntropyView;
use crate::layout::{slid_layout, Layout};
use crate::lazy_model::less;
use crate::ldm::RawSeq;
use crate::opt::{Optimal, Path, Recents};
use crate::opt_match_model::{gathered, plus_at_most, with_candidate, LdmView, OptPlace, OptState};
use crate::opt_matches::{ldm_started, LdmCursor, Match};
use crate::opt_price_model::{rescaled, StatsView};
use crate::parser::{bears_out, index_of, pos_of, spec_new_rep, spec_rep_offset, Parse};
use vstd::prelude::*;

verus! {

/// A place that has not been reached.
pub open spec fn no_way_yet() -> Optimal {
    Optimal { price: 1073741824, off: 0, mlen: 0, litlen: 0, rep: Recents { r0: 0, r1: 0, r2: 0 } }
}

/// The cheapest way to place `i`; there is none beyond the table.
pub open spec fn way_to(t: Seq<Optimal>, i: int) -> Optimal {
    if i < 4099 {
        t[i]
    } else {
        no_way_yet()
    }
}

pub open spec fn way_set(t: Seq<Optimal>, i: int, o: Optimal) -> Seq<Optimal> {
    if i < 4099 {
        t.update(i, o)
    } else {
        t
    }
}

/// Place `i` marked as not reached yet.
pub open spec fn way_barred(t: Seq<Optimal>, i: int) -> Seq<Optimal> {
    way_set(t, i, Optimal { price: 1073741824, ..way_to(t, i) })
}

/// The recent offsets after the match that `o` ends with, which started from
/// `before`.
pub open spec fn recents_after(before: Optimal, o: Optimal) -> Recents {
    if o.off >= 1 {
        Recents::of(spec_new_rep(before.rep@, o.off, before.litlen == 0))
    } else {
        before.rep
    }
}

// ---------------------------------------------------------------------------
// Pricing.

/// The places from `pos` up to the shortest match: only literals lead there.
#[verifier::opaque]
pub open spec fn literals_only(t: Seq<Optimal>, pos: u32, min_match: u32, litlen: u32) -> Seq<Optimal>
    decreases min_match - pos,
{
    if pos < min_match {
        literals_only(
            way_set(
                t,
                pos as int,
                Optimal {
                    price: 1073741824,
                    mlen: 0,
                    litlen: litlen.wrapping_add(pos),
                    ..way_to(t, pos as int)
                },
            ),
            (pos + 1) as u32,
            min_match,
            litlen,
        )
    } else {
        t
    }
}

/// What a match costs at a place that costs `price`.
pub open spec fn with_match_price(s: StatsView, price: i32, off: u32, len: u32) -> i32 {
    price.wrapping_add(s.match_price(off, len) as i32).wrapping_add(s.ll_price(0) as i32)
}

/// The lengths of the match `m` from `pos` on priced: the table, and the next
/// length.
#[verifier::opaque]
pub open spec fn lengths_priced(s: StatsView, t: Seq<Optimal>, price: i32, m: Match, pos: u32) -> (
    Seq<Optimal>,
    u32,
)
    decreases 4097 - pos,
{
    if pos <= m.len && pos <= 4096 {
        lengths_priced(
            s,
            way_set(
                t,
                pos as int,
                Optimal {
                    price: with_match_price(s, price, m.off, pos),
                    off: m.off,
                    mlen: pos,
                    litlen: 0,
                    rep: way_to(t, pos as int).rep,
                },
            ),
            price,
            m,
            (pos + 1) as u32,
        )
    } else {
        (t, pos)
    }
}

/// The same for the matches from the `k`-th on.
#[verifier::opaque]
pub open spec fn matches_priced(s: StatsView, t: Seq<Optimal>, price: i32, ms: Seq<Match>, k: nat, pos: u32) -> (
    Seq<Optimal>,
    u32,
)
    decreases ms.len() - k,
{
    if k < ms.len() {
        let (t1, pos1) = lengths_priced(s, t, price, ms[k as int], pos);
        matches_priced(s, t1, price, ms, k + 1, pos1)
    } else {
        (t, pos)
    }
}

/// The matches at the first place priced: the table, and the last place
/// reached.
#[verifier::opaque]
pub open spec fn first_priced(s: StatsView, t: Seq<Optimal>, ms: Seq<Match>, min_match: u32, litlen: u32) -> (
    Seq<Optimal>,
    u32,
) {
    let t1 = literals_only(t, 1, min_match, litlen);
    let (t2, pos) = matches_priced(s, t1, way_to(t1, 0).price, ms, 0, min_match);
    (way_barred(t2, pos as int), (pos - 1) as u32)
}

/// The price of the place before `cur` with one literal more.
pub open spec fn literal_price(s: StatsView, data: Seq<u8>, prev: Optimal, at: int) -> i32 {
    prev.price.wrapping_add(s.lit_price(data[at]) as i32).wrapping_add(
        s.ll_incprice(plus_at_most(prev.litlen, 1)) as i32,
    )
}

/// A match that ended at `cur`, with the way `here`, taken to the next place by
/// one literal, where that is cheaper than what came in its place.
#[verifier::opaque]
pub open spec fn carried_on(
    s: StatsView,
    data: Seq<u8>,
    end: int,
    t: Seq<Optimal>,
    ip: int,
    cur: u32,
    here: Optimal,
    price: i32,
    litlen: u32,
    last: u32,
) -> (Seq<Optimal>, u32) {
    if s.ultra && here.litlen == 0 && s.ll_incprice(1) < 0 && ip + cur < end {
        let lit = s.lit_price(data[ip + cur]) as i32;
        let with1 = here.price.wrapping_add(lit).wrapping_add(s.ll_incprice(1) as i32);
        let more = price.wrapping_add(lit).wrapping_add(
            s.ll_incprice(plus_at_most(litlen, 1)) as i32,
        );
        if with1 < more && with1 < way_to(t, cur + 1).price && here.mlen <= cur {
            (
                way_set(
                    t,
                    cur + 1,
                    Optimal {
                        rep: recents_after(way_to(t, cur - here.mlen), here),
                        litlen: 1,
                        price: with1,
                        ..here
                    },
                ),
                if last < cur + 1 && cur < 4098 {
                    (cur + 1) as u32
                } else {
                    last
                },
            )
        } else {
            (t, last)
        }
    } else {
        (t, last)
    }
}

/// Place `cur` settled: the table, and the last place reached.
#[verifier::opaque]
pub open spec fn settled(s: StatsView, data: Seq<u8>, end: int, t: Seq<Optimal>, ip: int, cur: u32, last: u32) -> (
    Seq<Optimal>,
    u32,
) {
    let prev = way_to(t, cur - 1);
    let here = way_to(t, cur as int);
    let price = literal_price(s, data, prev, ip + cur - 1);
    let litlen = plus_at_most(prev.litlen, 1);
    let (t1, last1) = if price <= here.price {
        carried_on(
            s,
            data,
            end,
            way_set(t, cur as int, Optimal { litlen, price, ..prev }),
            ip,
            cur,
            here,
            price,
            litlen,
            last,
        )
    } else {
        (t, last)
    };
    let now = way_to(t1, cur as int);
    let t2 = if now.litlen == 0 && now.mlen <= cur {
        way_set(
            t1,
            cur as int,
            Optimal { rep: recents_after(way_to(t1, cur - now.mlen), now), ..now },
        )
    } else {
        t1
    };
    (t2, last1)
}

/// The places after `last` up to `pos` opened.
#[verifier::opaque]
pub open spec fn opened(t: Seq<Optimal>, last: u32, pos: u32) -> Seq<Optimal>
    decreases pos - last,
{
    if last < pos {
        let next = (last + 1) as u32;
        opened(
            way_set(
                t,
                next as int,
                Optimal { price: 1073741824, litlen: 1, ..way_to(t, next as int) },
            ),
            next,
            pos,
        )
    } else {
        t
    }
}

/// The lengths of the match `m` from `len` down to `first` priced at place
/// `cur`, whose price with no literals is `base`. Without `ultra`, the first
/// length that is not cheaper ends it.
#[verifier::opaque]
pub open spec fn lengths_down(
    s: StatsView,
    t: Seq<Optimal>,
    last: u32,
    cur: u32,
    base: i32,
    m: Match,
    len: u32,
    first: u32,
) -> (Seq<Optimal>, u32)
    decreases len,
{
    if len >= first && len >= 1 {
        if len < 4096 - cur {
            let pos = (cur + len) as u32;
            let price = base.wrapping_add(s.match_price(m.off, len) as i32);
            if pos > last || price < way_to(t, pos as int).price {
                let t1 = opened(t, last, pos);
                let last1 = if last < pos {
                    pos
                } else {
                    last
                };
                lengths_down(
                    s,
                    way_set(
                        t1,
                        pos as int,
                        Optimal {
                            price,
                            off: m.off,
                            mlen: len,
                            litlen: 0,
                            rep: way_to(t1, pos as int).rep,
                        },
                    ),
                    last1,
                    cur,
                    base,
                    m,
                    (len - 1) as u32,
                    first,
                )
            } else if s.ultra {
                lengths_down(s, t, last, cur, base, m, (len - 1) as u32, first)
            } else {
                (t, last)
            }
        } else {
            lengths_down(s, t, last, cur, base, m, (len - 1) as u32, first)
        }
    } else {
        (t, last)
    }
}

/// The matches from the `k`-th on priced at place `cur`, each from where the
/// one before ends.
#[verifier::opaque]
pub open spec fn more_matches(
    s: StatsView,
    t: Seq<Optimal>,
    last: u32,
    cur: u32,
    base: i32,
    ms: Seq<Match>,
    k: nat,
    min_match: u32,
) -> (Seq<Optimal>, u32)
    decreases ms.len() - k,
{
    if k < ms.len() {
        let m = ms[k as int];
        let first = if k > 0 {
            plus_at_most(ms[k - 1].len, 1)
        } else {
            min_match
        };
        let (t1, last1) = lengths_down(s, t, last, cur, base, m, m.len, first);
        more_matches(s, t1, last1, cur, base, ms, k + 1, min_match)
    } else {
        (t, last)
    }
}

/// The matches at place `cur` priced: the table, and the last place reached.
#[verifier::opaque]
pub open spec fn more_priced(s: StatsView, t: Seq<Optimal>, ms: Seq<Match>, min_match: u32, cur: u32, last: u32) -> (
    Seq<Optimal>,
    u32,
) {
    let base = way_to(t, cur as int).price.wrapping_add(s.ll_price(0) as i32);
    let (t1, last1) = more_matches(s, t, last, cur, base, ms, 0, min_match);
    (way_barred(t1, last1 + 1), last1)
}

// ---------------------------------------------------------------------------
// A stretch.

/// Where a block is parsed.
pub struct OptScene {
    pub w: OptPlace,
    pub seqs: Seq<RawSeq>,
    pub start: int,
}

/// What changes while a stretch is priced.
pub struct OptSearch {
    pub state: OptState,
    pub next3: u32,
    pub ldm: LdmView,
    pub table: Seq<Optimal>,
}

/// The matches at `ip`, with the long-distance one.
#[verifier::opaque]
pub open spec fn candidates(v: OptScene, s: OptSearch, ip: int, rep: Seq<u32>, ll0: bool) -> (
    OptSearch,
    Seq<Match>,
) {
    let min_match = s.state.min_match();
    let g = gathered(v.w, s.state, s.next3, ip, rep, ll0, min_match);
    let (ldm, found) = with_candidate(
        s.ldm,
        v.seqs,
        g.found,
        (ip - v.start) as u32,
        (v.w.end - ip) as u32,
        min_match,
    );
    (OptSearch { state: g.state, next3: g.next3, ldm, ..s }, found)
}

/// A chain that ends with a match taken at once.
pub open spec fn path_of(m: Match, cur: u32) -> Path {
    Path {
        last: Optimal {
            price: 0,
            off: m.off,
            mlen: m.len,
            litlen: 0,
            rep: Recents { r0: 0, r1: 0, r2: 0 },
        },
        cur,
        last_pos: plus_at_most(cur, m.len),
    }
}

/// The chain that leads to the place `last`.
pub open spec fn path_to(t: Seq<Optimal>, last: u32) -> Path {
    let o = way_to(t, last as int);
    Path { last: o, cur: less(last, o.mlen as nat), last_pos: last }
}

/// A match that ends the stretch: it is long enough, or reaches the end of the
/// table or of the block.
pub open spec fn ends_stretch(v: OptScene, sufficient: u32, m: Match, ip: int, cur: u32) -> bool {
    m.len > sufficient || cur + m.len >= 4096 || ip + cur + m.len >= v.w.end
}

/// The places from `cur` on settled and priced, up to the last one reached.
#[verifier::opaque]
pub open spec fn places_priced(v: OptScene, s: OptSearch, ip: int, cur: u32, last: u32) -> (OptSearch, Path)
    decreases 4099 - cur,
{
    if cur <= last && cur <= 4098 && cur <= v.w.end - ip {
        let stats = s.state.stats;
        let at = ip + cur;
        let ilimit = v.w.end - 8;
        let (t1, last1) = settled(stats, v.w.data, v.w.end, s.table, ip, cur, last);
        let s1 = OptSearch { table: t1, ..s };
        let here = way_to(t1, cur as int);
        if at <= ilimit && cur == last1 {
            (s1, path_to(t1, last1))
        } else if at > ilimit || (!stats.ultra && cur != last1 && way_to(t1, cur + 1).price
            <= here.price.wrapping_add(128)) {
            places_priced(v, s1, ip, (cur + 1) as u32, last1)
        } else {
            let (s2, ms) = candidates(v, s1, at, here.rep@, here.litlen == 0);
            if ms.len() == 0 {
                places_priced(v, s2, ip, (cur + 1) as u32, last1)
            } else if ends_stretch(v, s.state.sufficient_len, ms.last(), ip, cur) {
                (s2, path_of(ms.last(), cur))
            } else {
                let (t3, last3) = more_priced(stats, t1, ms, s.state.min_match(), cur, last1);
                places_priced(v, OptSearch { table: t3, ..s2 }, ip, (cur + 1) as u32, last3)
            }
        }
    } else {
        (s, path_to(s.table, last))
    }
}

/// The cheapest chain from `ip` on; none where there is no match.
#[verifier::opaque]
pub open spec fn stretch_priced(v: OptScene, s: OptSearch, ip: int, anchor: int, rep: Seq<u32>) -> (
    OptSearch,
    Option<Path>,
) {
    let litlen = (ip - anchor) as u32;
    let (s1, ms) = candidates(v, s, ip, rep, litlen == 0);
    let stats = s.state.stats;
    let t1 = way_set(
        s.table,
        0,
        Optimal {
            mlen: 0,
            litlen,
            price: stats.ll_price(litlen) as i32,
            rep: Recents::of(rep),
            off: way_to(s.table, 0).off,
        },
    );
    if ms.len() == 0 {
        (s1, None)
    } else if ms.last().len > s.state.sufficient_len {
        (OptSearch { table: t1, ..s1 }, Some(path_of(ms.last(), 0)))
    } else {
        let (t2, last) = first_priced(stats, t1, ms, s.state.min_match(), litlen);
        let (s2, path) = places_priced(v, OptSearch { table: t2, ..s1 }, ip, 1, last);
        (s2, Some(path))
    }
}

// ---------------------------------------------------------------------------
// Storing.

/// The parts of the chain that leads to `part`, which starts at place `at`, the
/// last one first. Each takes the number of its literals from the part before.
#[verifier::opaque]
pub open spec fn chain_parts(t: Seq<Optimal>, at: u32, part: Optimal) -> Seq<Optimal>
    decreases at,
{
    let before = way_to(t, at as int);
    let one = seq![Optimal { litlen: before.litlen, ..part }];
    let size = plus_at_most(before.litlen, before.mlen);
    if before.mlen == 0 || size > at {
        one
    } else {
        one + chain_parts(t, (at - size) as u32, before)
    }
}

/// What changes while a chain is stored.
pub struct OptStored {
    pub stats: StatsView,
    pub parse: Parse,
    pub rep: Seq<u32>,
    /// Where to go on.
    pub ip: int,
}

/// The parts before the `k`-th stored, the last of them first, up to one that
/// the data does not bear out.
#[verifier::opaque]
pub open spec fn parts_stored(data: Seq<u8>, end: int, parts: Seq<Optimal>, k: nat, s: OptStored) -> OptStored
    decreases k,
{
    if k > 0 {
        let o = parts[k - 1];
        let from = s.parse.anchor;
        let start = from + o.litlen;
        if start > end {
            s
        } else if o.mlen == 0 {
            parts_stored(data, end, parts, (k - 1) as nat, OptStored { ip: start, ..s })
        } else if o.off >= 1 {
            let ll0 = start == from;
            if bears_out(
                data,
                start,
                end,
                spec_rep_offset(s.rep, o.off, ll0) as int,
                o.mlen as int,
            ) {
                let parse = s.parse.with_match(start, o.off as nat, o.mlen as nat);
                parts_stored(
                    data,
                    end,
                    parts,
                    (k - 1) as nat,
                    OptStored {
                        stats: s.stats.counted(data, from, start, o.off, o.mlen),
                        parse,
                        rep: spec_new_rep(s.rep, o.off, ll0),
                        ip: parse.anchor,
                    },
                )
            } else {
                OptStored { ip: from, ..s }
            }
        } else {
            s
        }
    } else {
        s
    }
}

/// A chain stored, from the anchor on.
#[verifier::opaque]
pub open spec fn chain_stored(
    data: Seq<u8>,
    end: int,
    t: Seq<Optimal>,
    path: Path,
    stats: StatsView,
    parse: Parse,
    rep: Seq<u32>,
) -> OptStored {
    let parts = chain_parts(t, less(path.cur, path.last.litlen as nat), path.last);
    let s = parts_stored(
        data,
        end,
        parts,
        parts.len(),
        OptStored { stats, parse, rep, ip: parse.anchor },
    );
    OptStored { stats: s.stats.with_bases(), ..s }
}

// ---------------------------------------------------------------------------
// A block.

/// What changes while a block is parsed.
pub struct OptProgress {
    pub search: OptSearch,
    pub parse: Parse,
    pub rep: Seq<u32>,
}

/// The stretch at `ip` priced and stored: the progress, and where to go on.
#[verifier::opaque]
pub open spec fn stretch_parsed(v: OptScene, s: OptProgress, ip: int) -> (OptProgress, int) {
    let (s1, path) = stretch_priced(v, s.search, ip, s.parse.anchor, s.rep);
    match path {
        None => (OptProgress { search: s1, ..s }, ip + 1),
        Some(path) => if path.last.mlen == 0 {
            (
                OptProgress { search: s1, ..s },
                if 1 <= path.last_pos <= v.w.end - ip {
                    ip + path.last_pos
                } else {
                    ip + 1
                },
            )
        } else {
            let r = chain_stored(
                v.w.data,
                v.w.end,
                s1.table,
                path,
                s1.state.stats,
                s.parse,
                s.rep,
            );
            (
                OptProgress {
                    search: OptSearch { state: OptState { stats: r.stats, ..s1.state }, ..s1 },
                    parse: r.parse,
                    rep: r.rep,
                },
                if r.ip > ip + 1 {
                    r.ip
                } else {
                    ip + 1
                },
            )
        },
    }
}

/// Stretch after stretch from `ip` on.
#[verifier::opaque]
pub open spec fn stretches_parsed(v: OptScene, s: OptProgress, ip: int, ilimit: int) -> OptProgress
    decreases ilimit - ip,
{
    if ip < ilimit {
        let (s1, next) = stretch_parsed(v, s, ip);
        if ip < next < ilimit {
            stretches_parsed(v, s1, next, ilimit)
        } else {
            s1
        }
    } else {
        s
    }
}

/// The outcome of a block: the state, the sequences, and the recent offsets.
pub struct OptOutcome {
    pub state: OptState,
    pub parse: Parse,
    pub rep: Seq<u32>,
}

/// A block with the given view of the history.
#[verifier::opaque]
pub open spec fn opt_pass(
    v: OptScene,
    state: OptState,
    parse: Parse,
    rep: Seq<u32>,
    cursor: LdmCursor,
    costs: EntropyView,
) -> OptOutcome {
    let s = OptState {
        stats: rescaled(state.stats, v.w.data, v.start, v.w.end, costs),
        ..state
    };
    let at = if v.start == pos_of(v.w.dict_limit, v.w.bias) {
        v.start + 1
    } else {
        v.start
    };
    if v.w.end - v.start < 8 {
        OptOutcome { state: s, parse, rep }
    } else {
        let r = stretches_parsed(
            v,
            OptProgress {
                search: OptSearch {
                    state: s,
                    next3: state.next,
                    ldm: ldm_started(v.seqs, cursor, (v.w.end - v.start) as u32),
                    table: Seq::new(4099, |i: int| no_way_yet()),
                },
                parse,
                rep,
            },
            if parse.anchor > at {
                parse.anchor
            } else {
                at
            },
            v.w.end - 8,
        );
        OptOutcome { state: r.search.state, parse: r.parse, rep: r.rep }
    }
}

/// Where a block is parsed with the window `win`.
pub open spec fn opt_place(
    data: Seq<u8>,
    end: int,
    win: Layout,
    ext_dict: bool,
    dict: Option<(OptState, int)>,
) -> OptPlace {
    OptPlace {
        data,
        end,
        bias: win.bias,
        dict_limit: win.dict_limit,
        low_limit: win.low_limit,
        ext_dict,
        dict,
    }
}

/// The block is the first of a frame, and the strategy the one that makes a
/// pass for its statistics first.
pub open spec fn is_tried_first(state: OptState, start: int, end: int, win: Layout, alone: bool) -> bool {
    &&& alone
    &&& state.is_ultra2
    &&& state.stats.ll_sum == 0
    &&& win.dict_limit == win.low_limit
    &&& index_of(start as nat, win.bias) == win.dict_limit
    &&& end - start > 8
}

/// The outcome of a block, and the window after it. The block that is tried
/// first is parsed twice; the matches of the first pass are out of the window
/// in the second.
#[verifier::opaque]
pub open spec fn opt_block_outcome(
    data: Seq<u8>,
    seqs: Seq<RawSeq>,
    start: int,
    end: int,
    state: OptState,
    rep: Seq<u32>,
    win: Layout,
    ext_dict: bool,
    dict: Option<(OptState, int)>,
    cursor: LdmCursor,
    costs: EntropyView,
) -> (OptOutcome, Layout) {
    let parse = Parse { triples: Seq::empty(), anchor: start };
    let (s, w) = if is_tried_first(state, start, end, win, !ext_dict && dict is None) {
        let slid = slid_layout(win, (end - start) as nat);
        let trial = opt_pass(
            OptScene { w: opt_place(data, end, win, false, None), seqs, start },
            state,
            parse,
            rep,
            cursor,
            costs,
        );
        (OptState { next: slid.dict_limit, ..trial.state }, slid)
    } else {
        (state, win)
    };
    (
        opt_pass(
            OptScene { w: opt_place(data, end, w, ext_dict, dict), seqs, start },
            s,
            parse,
            rep,
            cursor,
            costs,
        ),
        w,
    )
}

} // verus!
