//! What the finders do with what their tables name: a repetition that is named
//! is taken, as long as it is.

use crate::dfast_model::{DfastPlace, DfastState, Logs, Tables};
use crate::fast_model::{
    block_outcome, match_ended, match_stored, parsed, repeats_stored, same4, search, spec_lowest_index, FastPlace,
    FastSetup, FastState, HitView,
};
use crate::lazy_model::{better_of, chain_walked, picks_best, row_picks, source_len, FoundView, LazyPlace, LazyState};
use crate::lazy_parse_model::{
    first_solution, lazily_parsed, lazy_repeated, solution_stored, BestView, LazyProgress, LazyScene,
};
use crate::parser::{back_run, common_run, index_of, pos_of, spec_hash, Parse};
use crate::recent::Recent;
use crate::seq_store::Triple;
use vstd::arithmetic::power2::{lemma2_to64, lemma2_to64_rest, pow2};
use vstd::prelude::*;

verus! {

/// A run goes on as long as the bytes agree, and no longer.
pub proof fn law_runs_are_as_long_as_they_can_be(data: Seq<u8>, a: int, b: int, limit: int)
    requires
        a <= limit,
    ensures
        ({
            let n = common_run(data, a, b, limit);
            &&& a + n <= limit
            &&& forall|i: int| 0 <= i < n ==> #[trigger] data[a + i] == data[b + i]
            &&& a + n < limit ==> data[a + n] != data[b + n]
        }),
    decreases limit - a,
{
    if a < limit && data[a] == data[b] {
        law_runs_are_as_long_as_they_can_be(data, a + 1, b + 1, limit);
        let n = common_run(data, a, b, limit);
        assert forall|i: int| 0 <= i < n implies #[trigger] data[a + i] == data[b + i] by {
            if i > 0 {
                assert(data[(a + 1) + (i - 1)] == data[(b + 1) + (i - 1)]);
            }
        }
    }
}

/// Backward too, but not beyond what has been used or is out of reach.
pub proof fn law_runs_reach_back_as_far_as_they_can(data: Seq<u8>, ip: int, m: int, anchor: int, low: int)
    requires
        anchor <= ip,
        low <= m,
        0 <= m,
    ensures
        ({
            let n = back_run(data, ip, m, anchor, low);
            &&& ip - n >= anchor
            &&& m - n >= low
            &&& m - n >= 0
            &&& forall|i: int| 1 <= i <= n ==> #[trigger] data[ip - i] == data[m - i]
            &&& ip - n > anchor && m - n > low && m - n > 0 ==> data[ip - n - 1] != data[m - n - 1]
        }),
    decreases m,
{
    if ip > anchor && m > 0 && m > low && data[ip - 1] == data[m - 1] {
        law_runs_reach_back_as_far_as_they_can(data, ip - 1, m - 1, anchor, low);
        let n = back_run(data, ip, m, anchor, low);
        assert forall|i: int| 1 <= i <= n implies #[trigger] data[ip - i] == data[m - i] by {
            if i > 1 {
                assert(data[(ip - 1) - (i - 1)] == data[(m - 1) - (i - 1)]);
            }
        }
    }
}

// ---------------------------------------------------------------------------
// The fast finder.

/// `b` starts with all of `a`.
pub open spec fn goes_on_from(b: Seq<Triple>, a: Seq<Triple>) -> bool {
    &&& a.len() <= b.len()
    &&& forall|i: int| 0 <= i < a.len() ==> #[trigger] b[i] == a[i]
}

proof fn lemma_fast_repeats(w: FastPlace, s: FastState)
    ensures
        goes_on_from(repeats_stored(w, s).parse.triples, s.parse.triples),
    decreases w.end - s.parse.anchor,
{
    reveal_with_fuel(repeats_stored, 1);
    let ip = s.parse.anchor;
    let second = s.recent.second;
    if ip <= w.end - 8 && 0 < second <= ip && crate::fast_model::is_whole(ip - second, w.seam)
        && same4(w.data, ip, ip - second) {
        let rest = common_run(w.data, ip + 4, ip - second + 4, w.end);
        let s1 = FastState {
            table: w.enter(s.table, ip),
            parse: s.parse.with_match(ip, 1, rest + 4),
            recent: s.recent.swapped(),
        };
        if s1.parse.anchor < w.end {
            lemma_fast_repeats(w, s1);
        }
    }
}

proof fn lemma_fast_parsed(w: FastPlace, s: FastState, from: int)
    ensures
        goes_on_from(parsed(w, s, from).parse.triples, s.parse.triples),
        ({
            let (t, found) = search(w, s.recent.first, s.table, from);
            found matches Some(h) ==> goes_on_from(
                parsed(w, s, from).parse.triples,
                fast_match(w, s.parse, h).triples,
            )
        }),
    decreases w.end - s.parse.anchor,
{
    reveal_with_fuel(parsed, 1);
    let (t, found) = search(w, s.recent.first, s.table, from);
    if found is Some {
        let h = found->0;
        let s0 = FastState { table: t, ..s };
        let s1 = match_stored(w, s0, h);
        lemma_fast_stored(w, s0, h);
        if s.parse.anchor < s1.parse.anchor <= w.end {
            lemma_fast_parsed(w, s1, s1.parse.anchor);
        }
    }
}

/// The match that was found, extended both ways.
pub open spec fn fast_match(w: FastPlace, parse: Parse, h: HitView) -> Parse {
    let back: nat = if h.repeat {
        if h.source > 0 && w.data[h.ip - 1] == w.data[h.source - 1] {
            1
        } else {
            0
        }
    } else {
        back_run(
            w.data,
            h.ip,
            h.source,
            parse.anchor,
            if h.source < w.seam || w.seam <= w.low {
                w.low
            } else {
                w.seam
            },
        )
    };
    parse.with_match(
        h.ip - back,
        if h.repeat {
            1
        } else {
            (h.ip - h.source + 3) as nat
        },
        back + 4 + common_run(w.data, h.ip + 4, h.source + 4, w.end),
    )
}

proof fn lemma_fast_stored(w: FastPlace, s: FastState, h: HitView)
    ensures
        goes_on_from(match_stored(w, s, h).parse.triples, fast_match(w, s.parse, h).triples),
        goes_on_from(match_stored(w, s, h).parse.triples, s.parse.triples),
{
    reveal(match_stored);
    reveal(match_ended);
    let p = fast_match(w, s.parse, h);
    let t1 = if !w.late && h.enter_next {
        s.table.update(h.next_hash, index_of(h.next as nat, w.bias))
    } else {
        s.table
    };
    let t2 = if w.late && h.next < p.anchor {
        t1.update(h.next_hash, index_of(h.next as nat, w.bias))
    } else {
        t1
    };
    let recent = if h.repeat {
        s.recent
    } else {
        s.recent.pushed((h.ip - h.source) as u32)
    };
    let s1 = FastState { table: t2, parse: p, recent };
    assert(match_stored(w, s, h) == match_ended(w, s1, h.current));
    if p.anchor <= w.end - 8 {
        let t = w.enter(w.enter(t2, h.current + 2), p.anchor - 2);
        lemma_fast_repeats(w, FastState { table: t, ..s1 });
    }
    assert(goes_on_from(p.triples, s.parse.triples));
}

/// A search takes, wherever it starts: a repetition of the newest offset one
/// step on; or else what the table names for the position itself, if four
/// bytes agree within reach; or else what it names for the position after.
pub proof fn law_fast_search_takes_what_is_named(w: FastPlace, first: u32, table: Seq<u32>, from: int)
    requires
        w.step_size > 0,
        from + w.step_size + 1 < w.end - 8,
    ensures
        ({
            let (t, found) = search(w, first, table, from);
            let ip2 = from + w.step_size;
            let repeat = w.repeats(first, ip2);
            let m0 = pos_of(table[w.hash(from) as int], w.bias);
            let hit0 = w.low <= m0 < from && same4(w.data, from, m0);
            let t1 = table.update(w.hash(from) as int, index_of(from as nat, w.bias));
            let m1 = pos_of(t1[w.hash(from + 1) as int], w.bias);
            let hit1 = w.low <= m1 < from + 1 && same4(w.data, from + 1, m1);
            &&& repeat ==> found is Some && found->0.repeat && found->0.ip == ip2 && found->0.source == ip2 - first
            &&& !repeat && hit0 ==> found is Some && !found->0.repeat && found->0.ip == from && found->0.source == m0
            &&& !repeat && !hit0 && hit1 ==> found is Some && !found->0.repeat && found->0.ip == from + 1
                && found->0.source == m1
        }),
{
    reveal(search);
    reveal_with_fuel(crate::fast_model::scan, 1);
}

/// What a search finds is the next match of the block.
pub proof fn law_fast_parse_stores_what_is_found(w: FastPlace, s: FastState, from: int)
    ensures
        ({
            let (t, found) = search(w, s.recent.first, s.table, from);
            let r = parsed(w, s, from).parse.triples;
            let n = s.parse.triples.len() as int;
            found matches Some(h) ==> {
                &&& goes_on_from(r, s.parse.triples)
                &&& r.len() > n
                &&& r[n] == fast_match(w, s.parse, h).triples[n]
            }
        }),
{
    lemma_fast_parsed(w, s, from);
}

/// A block whose first bytes the table names, anywhere in the window, starts
/// with that match: no literals before it, and as long as the bytes agree.
pub proof fn law_fast_blocks_take_what_is_named(
    k: FastSetup,
    data: Seq<u8>,
    start: int,
    end: int,
    table: Seq<u32>,
    rep: Seq<u32>,
    bias: u32,
    lowest_valid: u32,
)
    requires
        0 <= start,
        end <= data.len(),
        k.step_size > 0,
        start + k.step_size + 1 < end - 8,
        ({
            let low = pos_of(
                spec_lowest_index(index_of(end as nat, bias), lowest_valid, k.window_log),
                bias,
            );
            let m = pos_of(table[spec_hash(data, start, k.hlog, k.mls) as int], bias);
            let curr = index_of(start as nat, bias);
            let max_rep = pos_of(curr, spec_lowest_index(curr, lowest_valid, k.window_log));
            let first = Recent::spec_start(rep, max_rep, false).first;
            let ip2 = start + k.step_size;
            &&& start != low
            &&& low <= m < start
            &&& same4(data, start, m)
            &&& !(0 < first <= ip2 && same4(data, ip2, ip2 - first))
        }),
    ensures
        ({
            let q = block_outcome(k, data, start, end, table, rep, bias, lowest_valid).parse.triples;
            let m = pos_of(table[spec_hash(data, start, k.hlog, k.mls) as int], bias);
            &&& q.len() > 0
            &&& q[0].lit_len == 0
            &&& q[0].of_value == start - m + 3
            &&& q[0].match_len == common_run(data, start, m, end)
        }),
{
    reveal(block_outcome);
    let low = pos_of(
        spec_lowest_index(index_of(end as nat, bias), lowest_valid, k.window_log),
        bias,
    );
    let curr = index_of(start as nat, bias);
    let max_rep = pos_of(curr, spec_lowest_index(curr, lowest_valid, k.window_log));
    let w = FastPlace {
        data,
        end,
        low,
        seam: 0,
        bias,
        hlog: k.hlog,
        mls: k.mls,
        step_size: k.step_size,
        late: false,
    };
    let s = FastState {
        table,
        parse: Parse { triples: Seq::empty(), anchor: start },
        recent: Recent::spec_start(rep, max_rep, false),
    };
    law_fast_search_takes_what_is_named(w, s.recent.first, table, start);
    law_fast_parse_stores_what_is_found(w, s, start);
    let m = pos_of(table[spec_hash(data, start, k.hlog, k.mls) as int], bias);
    lemma_four_agree(data, start, m, end);
}

/// Four bytes that agree are part of the run.
proof fn lemma_four_agree(data: Seq<u8>, a: int, b: int, limit: int)
    requires
        0 <= b < a,
        a + 4 <= limit <= data.len(),
        same4(data, a, b),
    ensures
        common_run(data, a, b, limit) == 4 + common_run(data, a + 4, b + 4, limit),
{
    let x = data.subrange(a, a + 4);
    let y = data.subrange(b, b + 4);
    assert(x[0] == y[0] && x[1] == y[1] && x[2] == y[2] && x[3] == y[3]);
    reveal_with_fuel(common_run, 5);
}

// ---------------------------------------------------------------------------
// The double-fast finder.

/// A search looks at its position: first one place on for the newest offset,
/// then for eight bytes, then for four.
pub proof fn law_dfast_search_takes_what_is_named(w: DfastPlace, first: u32, t: Tables, anchor: int, from: int)
    requires
        w.history is One,
        from + 1 <= w.end - 8,
    ensures
        ({
            let (u, found) = crate::dfast_model::search(w, first, t, anchor, from);
            let ml = pos_of(t.long[w.hash_long(from)], w.bias);
            let ms = pos_of(t.small[w.hash_small(from)], w.bias);
            let repeat = 0 < first <= from + 1 && same4(w.data, from + 1, from + 1 - first);
            let long = w.low <= ml < from && crate::dfast_model::same8(w.data, from, ml);
            let short = w.low <= ms < from && same4(w.data, from, ms);
            &&& repeat ==> found is Some && found->0.repeat && found->0.ip == from + 1 && found->0.source == from + 1
                - first
            &&& !repeat && long ==> found is Some && !found->0.repeat && found->0.ip == from && found->0.source == ml
                && found->0.run == 8
            &&& !repeat && !long && short ==> found is Some && !found->0.repeat && (found->0.ip == from
                && found->0.source == ms || found->0.ip == from + 1)
            &&& repeat || long || short ==> found is Some
        }),
{
    reveal_with_fuel(crate::dfast_model::scan_one, 1);
}

proof fn lemma_dfast_repeats(w: DfastPlace, s: DfastState)
    ensures
        goes_on_from(
            crate::dfast_model::repeats_stored(w, s).parse.triples,
            s.parse.triples,
        ),
    decreases w.end - s.parse.anchor,
{
    reveal_with_fuel(crate::dfast_model::repeats_stored, 1);
    let ip = s.parse.anchor;
    let second = s.recent.second;
    if ip <= w.end - 8 && 0 < second <= ip && ip - second >= w.rep_low && crate::fast_model::is_whole(
        ip - second,
        w.seam,
    ) && same4(w.data, ip, ip - second) {
        let rest = common_run(w.data, ip + 4, ip - second + 4, w.end);
        let s1 = DfastState {
            tables: w.with(s.tables, ip),
            parse: s.parse.with_match(ip, 1, rest + 4),
            recent: s.recent.swapped(),
        };
        if s1.parse.anchor < w.end {
            lemma_dfast_repeats(w, s1);
        }
    }
}

/// The match that was found, extended both ways.
pub open spec fn dfast_match(w: DfastPlace, parse: Parse, h: crate::dfast_model::HitView) -> Parse {
    let back = if h.repeat {
        0
    } else {
        back_run(w.data, h.ip, h.source, parse.anchor, h.low)
    };
    parse.with_match(
        h.ip - back,
        if h.repeat {
            1
        } else {
            (h.ip - h.source + 3) as nat
        },
        (back + h.run + common_run(w.data, h.ip + h.run, h.source + h.run, w.end)) as nat,
    )
}

proof fn lemma_dfast_stored(w: DfastPlace, s: DfastState, h: crate::dfast_model::HitView)
    ensures
        goes_on_from(
            crate::dfast_model::match_stored(w, s, h).parse.triples,
            dfast_match(w, s.parse, h).triples,
        ),
        goes_on_from(
            crate::dfast_model::match_stored(w, s, h).parse.triples,
            s.parse.triples,
        ),
{
    reveal(crate::dfast_model::match_stored);
    let p = dfast_match(w, s.parse, h);
    let recent = if h.repeat {
        s.recent
    } else {
        s.recent.pushed((h.ip - h.source) as u32)
    };
    if p.anchor <= w.end - 8 {
        let t1 = w.with_long(w.with_long(s.tables, h.current + 2), p.anchor - 2);
        let t2 = w.with_small(w.with_small(t1, h.current + 2), p.anchor - 1);
        lemma_dfast_repeats(w, DfastState { tables: t2, parse: p, recent });
    }
    assert(goes_on_from(p.triples, s.parse.triples));
}

/// What a search finds is the next match of the block.
pub proof fn law_dfast_parse_stores_what_is_found(w: DfastPlace, s: DfastState, from: int)
    ensures
        ({
            let (t, found) = crate::dfast_model::search(
                w,
                s.recent.first,
                s.tables,
                s.parse.anchor,
                from,
            );
            let r = crate::dfast_model::parsed(w, s, from).parse.triples;
            let n = s.parse.triples.len() as int;
            &&& goes_on_from(r, s.parse.triples)
            &&& found matches Some(h) ==> r.len() > n && r[n] == dfast_match(w, s.parse, h).triples[n]
        }),
    decreases w.end - s.parse.anchor,
{
    reveal_with_fuel(crate::dfast_model::parsed, 1);
    let (t, found) = crate::dfast_model::search(w, s.recent.first, s.tables, s.parse.anchor, from);
    if found is Some {
        let h = found->0;
        let s0 = DfastState { tables: t, ..s };
        let s1 = crate::dfast_model::match_stored(w, s0, h);
        lemma_dfast_stored(w, s0, h);
        if s.parse.anchor < s1.parse.anchor <= w.end {
            law_dfast_parse_stores_what_is_found(w, s1, s1.parse.anchor);
        }
    }
}

/// A block whose first eight bytes the table names starts with that match.
pub proof fn law_dfast_blocks_take_what_is_named(
    k: Logs,
    window_log: u32,
    data: Seq<u8>,
    start: int,
    end: int,
    t: Tables,
    rep: Seq<u32>,
    bias: u32,
    lowest_valid: u32,
)
    requires
        0 <= start,
        start + 1 <= end - 8,
        end <= data.len(),
        ({
            let low = pos_of(
                spec_lowest_index(index_of(end as nat, bias), lowest_valid, window_log),
                bias,
            );
            let m = pos_of(t.long[spec_hash(data, start, k.long, 8) as int], bias);
            let curr = index_of(start as nat, bias);
            let max_rep = pos_of(curr, spec_lowest_index(curr, lowest_valid, window_log));
            let first = Recent::spec_start(rep, max_rep, false).first;
            &&& start != low
            &&& low <= m < start
            &&& crate::dfast_model::same8(data, start, m)
            &&& !(0 < first <= start + 1 && same4(data, start + 1, start + 1 - first))
        }),
    ensures
        ({
            let q = crate::dfast_model::block_outcome(
                k,
                window_log,
                data,
                start,
                end,
                t,
                rep,
                bias,
                lowest_valid,
            ).parse.triples;
            let m = pos_of(t.long[spec_hash(data, start, k.long, 8) as int], bias);
            &&& q.len() > 0
            &&& q[0].lit_len == 0
            &&& q[0].of_value == start - m + 3
            &&& q[0].match_len == common_run(data, start, m, end)
        }),
{
    reveal(crate::dfast_model::block_outcome);
    let low = pos_of(
        spec_lowest_index(index_of(end as nat, bias), lowest_valid, window_log),
        bias,
    );
    let curr = index_of(start as nat, bias);
    let max_rep = pos_of(curr, spec_lowest_index(curr, lowest_valid, window_log));
    let w = DfastPlace {
        data,
        end,
        low,
        seam: 0,
        rep_low: 0,
        bias,
        logs: k,
        history: crate::dfast_model::History::One,
    };
    let s = DfastState {
        tables: t,
        parse: Parse { triples: Seq::empty(), anchor: start },
        recent: Recent::spec_start(rep, max_rep, false),
    };
    law_dfast_search_takes_what_is_named(w, s.recent.first, t, start, start);
    law_dfast_parse_stores_what_is_found(w, s, start);
    let m = pos_of(t.long[spec_hash(data, start, k.long, 8) as int], bias);
    assert(data[start + 0] == data[m + 0] && data[start + 1] == data[m + 1] && data[start + 2]
        == data[m + 2] && data[start + 3] == data[m + 3] && data[start + 4] == data[m + 4]
        && data[start + 5] == data[m + 5] && data[start + 6] == data[m + 6] && data[start + 7]
        == data[m + 7]);
    reveal_with_fuel(common_run, 9);
}

// ---------------------------------------------------------------------------
// The lazy finders.

/// A walk along a chain never loses a match that it has, and takes the first
/// of the chain if that is longer.
pub proof fn law_chains_take_the_longest(
    w: LazyPlace,
    chain: Seq<u32>,
    chain_log: u32,
    ip: int,
    low: u32,
    min_chain: u32,
    idx: u32,
    left: nat,
    best: FoundView,
)
    ensures
        ({
            let (r, n) = chain_walked(w, chain, chain_log, ip, low, min_chain, idx, left, best);
            let m = pos_of(idx, w.win.bias);
            &&& r.len >= best.len
            &&& idx >= low && left > 0 && m < ip ==> r.len >= source_len(
                w.data,
                ip,
                w.end,
                m,
                best.len,
                w.within(idx),
            )
            &&& r.len == best.len ==> r == best
            &&& r != best ==> exists|k: u32|
                #![trigger pos_of(k, w.win.bias)]
                k >= low && pos_of(k, w.win.bias) < ip && r.off_base == ip - pos_of(k, w.win.bias) + 3
        }),
    decreases left,
{
    reveal_with_fuel(chain_walked, 1);
    if idx >= low && left > 0 {
        let b = better_of(w.data, ip, w.end, pos_of(idx, w.win.bias), best, w.within(idx));
        if (b != best && ip + b.len == w.end) || idx <= min_chain {
        } else {
            law_chains_take_the_longest(
                w,
                chain,
                chain_log,
                ip,
                low,
                min_chain,
                chain[idx as int % pow2(chain_log as nat) as int],
                (left - 1) as nat,
                b,
            );
        }
    }
}

/// The candidates of a row: none is passed over for a shorter one.
pub proof fn law_rows_take_the_longest(w: LazyPlace, picks: Seq<u32>, ip: int, i: nat, best: FoundView)
    ensures
        ({
            let r = picks_best(w, picks, ip, i, best);
            let m = pos_of(picks[i as int], w.win.bias);
            &&& r.len >= best.len
            &&& i < picks.len() && ip + best.len < w.end && m < ip ==> r.len >= source_len(
                w.data,
                ip,
                w.end,
                m,
                best.len,
                w.within(picks[i as int]),
            )
            &&& r != best ==> exists|k: int|
                i <= k < picks.len() && #[trigger] pos_of(picks[k], w.win.bias) < ip && r.off_base == ip
                    - pos_of(picks[k], w.win.bias) + 3
        }),
    decreases picks.len() - i,
{
    reveal_with_fuel(picks_best, 1);
    if i < picks.len() && ip + best.len < w.end {
        let idx = picks[i as int];
        let b = better_of(w.data, ip, w.end, pos_of(idx, w.win.bias), best, w.within(idx));
        law_rows_take_the_longest(w, picks, ip, i + 1, b);
    }
}

/// The newest entry of a row is a candidate if its tag is right and it is
/// within reach.
pub proof fn law_rows_offer_the_newest(s: LazyState, row: int, tag: u8, lowest: u32, left: nat)
    requires
        left > 0,
        1 <= s.tags[row] < s.entries(),
        s.tags[row + s.tags[row]] == tag,
        s.hash[row + s.tags[row]] >= lowest,
    ensures
        ({
            let picks = row_picks(s, row, tag, lowest, 0, left);
            picks.len() > 0 && picks[0] == s.hash[row + s.tags[row]]
        }),
{
    reveal_with_fuel(row_picks, 1);
    let e = s.entries();
    vstd::arithmetic::div_mod::lemma_small_mod(s.tags[row] as nat, e);
    assert((s.tags[row] as nat % e + 0) % e == s.tags[row]);
}

proof fn lemma_lazy_repeats(v: LazyScene, parse: Parse, recent: Recent, window_log: u32, ilimit: int)
    ensures
        goes_on_from(
            lazy_repeated(v, parse, recent, window_log, ilimit).0.triples,
            parse.triples,
        ),
    decreases ilimit - parse.anchor,
{
    reveal_with_fuel(lazy_repeated, 1);
    let ip = parse.anchor;
    let len = crate::lazy_parse_model::repeat_len(v, ip, recent.second, window_log);
    if ip <= ilimit && len >= 4 {
        let next = parse.with_match(ip, 1, len);
        if next.anchor <= ilimit {
            lemma_lazy_repeats(v, next, recent.swapped(), window_log, ilimit);
        }
    }
}

proof fn lemma_lazy_stored(v: LazyScene, s: LazyProgress, best: BestView, ilimit: int)
    ensures
        goes_on_from(solution_stored(v, s, best, ilimit).parse.triples, s.parse.triples),
        solution_stored(v, s, best, ilimit).parse.triples.len() > s.parse.triples.len(),
{
    reveal(solution_stored);
    let offset = best.off_base - 3;
    let m = best.start - offset;
    let back = back_run(
        v.w.data,
        best.start,
        m,
        s.parse.anchor,
        if m < v.seam {
            v.older_low
        } else {
            v.newer_low
        },
    );
    let (parse, recent) = if best.off_base > 3 {
        (
            s.parse.with_match(best.start - back, best.off_base, back + best.len),
            s.recent.pushed(offset as u32),
        )
    } else {
        (s.parse.with_match(best.start, 1, best.len), s.recent)
    };
    lemma_lazy_repeats(v, parse, recent, s.state.window_log, ilimit);
}

/// Where a position offers four bytes or more, a match is stored; and what was
/// stored before stays.
pub proof fn law_lazy_parse_stores_what_is_found(v: LazyScene, s: LazyProgress, ip: int, ilimit: int)
    ensures
        ({
            let r = lazily_parsed(v, s, ip, ilimit).parse.triples;
            &&& goes_on_from(r, s.parse.triples)
            &&& ip < ilimit && first_solution(v, s.state, s.recent.first, ip).1.len >= 4 ==> r.len()
                > s.parse.triples.len()
        }),
    decreases ilimit - ip,
{
    reveal_with_fuel(lazily_parsed, 1);
    if ip < ilimit {
        let (c1, b1, searched) = first_solution(v, s.state, s.recent.first, ip);
        if b1.len < 4 {
            let step = (ip - s.parse.anchor) / 256;
            let skipping = if v.w.ext_dict {
                step
            } else {
                step + 1
            };
            let s1 = LazyProgress { state: LazyState { skipping: skipping > 8, ..c1 }, ..s };
            if 0 <= step < ilimit - ip {
                law_lazy_parse_stores_what_is_found(v, s1, ip + step + 1, ilimit);
            }
        } else {
            let (c2, b2) = if searched && c1.depth >= 1 {
                crate::lazy_parse_model::refined(v, c1, ip, b1, s.recent.first, ilimit)
            } else {
                (c1, b1)
            };
            let s0 = LazyProgress { state: c2, ..s };
            let s1 = solution_stored(v, s0, b2, ilimit);
            lemma_lazy_stored(v, s0, b2, ilimit);
            if ip < s1.parse.anchor < ilimit {
                law_lazy_parse_stores_what_is_found(v, s1, s1.parse.anchor, ilimit);
            }
        }
    }
}

/// The first solution at a position is no shorter than what the search there
/// finds, nor than a repetition of the newest offset one place on.
pub proof fn law_first_solutions(v: LazyScene, s: LazyState, first: u32, ip: int)
    ensures
        ({
            let (c, b, searched) = first_solution(v, s, first, ip);
            let rep = crate::lazy_parse_model::repeat_len(v, ip + 1, first, s.window_log);
            let (c1, f) = crate::lazy_parse_model::best_at(v.w, s, ip);
            &&& b.len >= rep
            &&& searched && f.len >= 4 ==> b.len >= f.len
            &&& !searched <==> s.depth == 0 && rep >= 4
            &&& searched ==> c == c1
            &&& b.len >= 4 && b.start == ip ==> b.len == f.len && b.off_base == f.off_base
        }),
{
    reveal(first_solution);
}

// ---------------------------------------------------------------------------
// Hashes.

/// Multiplying twice modulo `m`.
proof fn lemma_twice(n: int, a: int, b: int, m: int)
    requires
        m > 0,
    ensures
        ((n * a) % m * b) % m == (n * (a * b)) % m,
{
    vstd::arithmetic::div_mod::lemma_mul_mod_noop_left(n * a, b, m);
    vstd::arithmetic::mul::lemma_mul_is_associative(n, a, b);
}

/// The hash of five to eight bytes: their number, shifted to the top of 64
/// bits, times a prime of its own for each length, and of that the top bits.
/// Of any other length four bytes are hashed, in 32 bits.
pub proof fn law_hashes(data: Seq<u8>, at: nat, log: u32, mls: u32)
    requires
        at + 8 <= data.len(),
        1 <= log <= 32,
    ensures
        ({
            let h = spec_hash(data, at as int, log, mls) as int;
            let word = crate::checksum_laws::eight(data, at as int);
            let m = 0x1_0000_0000_0000_0000int;
            let top = pow2((64 - log) as nat) as int;
            &&& mls == 5 ==> h == (word % 0x100_0000_0000 * (0x100_0000 * 889523592379)) % m / top
            &&& mls == 6 ==> h == (word % 0x1_0000_0000_0000 * (0x1_0000 * 227718039650203)) % m / top
            &&& mls == 7 ==> h == (word % 0x100_0000_0000_0000 * (0x100 * 58295818150454627)) % m / top
            &&& mls == 8 ==> h == (word * 0xCF1B_BCDC_B7A5_6463) % m / top
            &&& mls < 5 || mls > 8 ==> h == (crate::checksum_laws::four(data, at as int) * 2654435761)
                % 0x1_0000_0000 / (pow2((32 - log) as nat) as int)
        }),
{
    reveal(spec_hash);
    lemma2_to64();
    lemma2_to64_rest();
    crate::frame_laws::lemma_number_at(data, at, 8);
    crate::frame_laws::lemma_number_at(data, at, 4);
    let word = crate::checksum_laws::eight(data, at as int);
    let small = crate::checksum_laws::four(data, at as int);
    assert(crate::frame_laws::is_number_at(
        crate::math::bits_at(data, 8 * at, 64) as int,
        data,
        at as int,
        8,
    ));
    assert(crate::frame_laws::is_number_at(
        crate::math::bits_at(data, 8 * at, 32) as int,
        data,
        at as int,
        4,
    ));
    assert(crate::math::bits_at(data, 8 * at, 64) == word);
    assert(crate::math::bits_at(data, 8 * at, 32) == small);
    let m = 0x1_0000_0000_0000_0000int;
    lemma_twice(word % 0x100_0000_0000, 0x100_0000, 889523592379, m);
    lemma_twice(word % 0x1_0000_0000_0000, 0x1_0000, 227718039650203, m);
    lemma_twice(word % 0x100_0000_0000_0000, 0x100, 58295818150454627, m);
}

} // verus!
