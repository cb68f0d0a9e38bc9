//! What the fast match finder does, step by step.

use crate::layout::Layout;
use crate::parser::{back_run, common_run, index_of, pos_of, spec_hash, Parse};
use crate::recent::Recent;
use vstd::arithmetic::power2::pow2;
use vstd::prelude::*;

verus! {

/// The lowest index a match at `curr` may start from: that of the window, but
/// none that is not valid.
#[verifier::opaque]
pub open spec fn spec_lowest_index(curr: u32, valid: u32, window_log: u32) -> u32 {
    if (curr - valid) % 0x1_0000_0000 > pow2(window_log as nat) {
        ((curr - pow2(window_log as nat)) % 0x1_0000_0000) as u32
    } else {
        valid
    }
}

/// The four bytes at `a` and at `b` are equal.
pub open spec fn same4(data: Seq<u8>, a: int, b: int) -> bool {
    data.subrange(a, a + 4) == data.subrange(b, b + 4)
}

/// The four bytes at `r` do not straddle the seam; no matter what, if there is
/// none.
pub open spec fn is_whole(r: int, seam: int) -> bool {
    seam == 0 || r >= seam || r <= seam - 4
}

/// A table with position `pos` entered under its hash.
pub open spec fn entered(table: Seq<u32>, data: Seq<u8>, pos: int, hlog: u32, mls: u32, bias: u32) -> Seq<u32> {
    table.update(spec_hash(data, pos, hlog, mls) as int, index_of(pos as nat, bias))
}

/// A table with every third position from `ip` on entered.
pub open spec fn thirds_entered(
    table: Seq<u32>,
    data: Seq<u8>,
    ip: int,
    dict_len: int,
    hlog: u32,
    mls: u32,
    bias: u32,
) -> Seq<u32>
    decreases dict_len - ip,
{
    if ip < dict_len - 9 {
        thirds_entered(
            entered(table, data, ip, hlog, mls, bias),
            data,
            ip + 3,
            dict_len,
            hlog,
            mls,
            bias,
        )
    } else {
        table
    }
}

/// A table with position `pos` entered, if its bucket is empty.
pub open spec fn filled_in(table: Seq<u32>, data: Seq<u8>, pos: int, hlog: u32, mls: u32, bias: u32) -> Seq<u32> {
    if table[spec_hash(data, pos, hlog, mls) as int] == 0 {
        entered(table, data, pos, hlog, mls, bias)
    } else {
        table
    }
}

/// A table with every third position from `ip` on entered, and of those
/// between each whose bucket is empty by then.
pub open spec fn all_entered(
    table: Seq<u32>,
    data: Seq<u8>,
    ip: int,
    dict_len: int,
    hlog: u32,
    mls: u32,
    bias: u32,
) -> Seq<u32>
    decreases dict_len - ip,
{
    if ip < dict_len - 9 {
        let t0 = entered(table, data, ip, hlog, mls, bias);
        let t1 = filled_in(t0, data, ip + 1, hlog, mls, bias);
        let t2 = filled_in(t1, data, ip + 2, hlog, mls, bias);
        all_entered(t2, data, ip + 3, dict_len, hlog, mls, bias)
    } else {
        table
    }
}

/// An index and the tag of its hash in one entry.
pub open spec fn tagged(index: u32, tag: nat) -> int {
    (index * 256 + tag) % 0x1_0000_0000
}

/// A tagged table with `index` entered under a hash that has its tag below.
pub open spec fn tag_entered(table: Seq<u32>, hash_and_tag: nat, index: u32) -> Seq<u32> {
    table.update(hash_and_tag as int / 256, tagged(index, hash_and_tag % 256) as u32)
}

/// The same for position `pos`.
pub open spec fn tagged_at(table: Seq<u32>, data: Seq<u8>, pos: int, hlog: u32, mls: u32, bias: u32) -> Seq<u32> {
    tag_entered(
        table,
        spec_hash(data, pos, (hlog + 8) as u32, mls),
        index_of(pos as nat, bias),
    )
}

/// The same, if the bucket is empty.
pub open spec fn tag_filled_in(table: Seq<u32>, data: Seq<u8>, pos: int, hlog: u32, mls: u32, bias: u32) -> Seq<
    u32,
> {
    if table[spec_hash(data, pos, (hlog + 8) as u32, mls) as int / 256] == 0 {
        tagged_at(table, data, pos, hlog, mls, bias)
    } else {
        table
    }
}

/// A tagged table with every third position from `ip` on entered, and of those
/// between each whose bucket is empty by then.
pub open spec fn all_tagged(
    table: Seq<u32>,
    data: Seq<u8>,
    ip: int,
    dict_len: int,
    hlog: u32,
    mls: u32,
    bias: u32,
) -> Seq<u32>
    decreases dict_len - ip,
{
    if ip < dict_len - 9 {
        let t0 = tagged_at(table, data, ip, hlog, mls, bias);
        let t1 = tag_filled_in(t0, data, ip + 1, hlog, mls, bias);
        let t2 = tag_filled_in(t1, data, ip + 2, hlog, mls, bias);
        all_tagged(t2, data, ip + 3, dict_len, hlog, mls, bias)
    } else {
        table
    }
}

// ---------------------------------------------------------------------------
// Searching.

/// Where a search takes place, and what does not change while it does.
pub struct FastPlace {
    pub data: Seq<u8>,
    pub end: int,
    /// Sources lie at `low` or above.
    pub low: int,
    /// Where the newer of two segments starts; zero if there is one.
    pub seam: int,
    pub bias: u32,
    pub hlog: u32,
    pub mls: u32,
    pub step_size: nat,
    /// The position after a match's is entered only if the match covers it.
    pub late: bool,
}

impl FastPlace {
    pub open spec fn hash(self, pos: int) -> nat {
        spec_hash(self.data, pos, self.hlog, self.mls)
    }

    pub open spec fn enter(self, table: Seq<u32>, pos: int) -> Seq<u32> {
        entered(table, self.data, pos, self.hlog, self.mls, self.bias)
    }

    /// A table entry gives a match at `ip`.
    pub open spec fn hits(self, idx: u32, ip: int) -> bool {
        let m = pos_of(idx, self.bias);
        self.low <= m < ip && same4(self.data, ip, m)
    }

    /// The offset `first` gives a match at `ip`.
    pub open spec fn repeats(self, first: u32, ip: int) -> bool {
        let r = ip - first;
        &&& 0 < first <= ip
        &&& self.seam == 0 || r > self.seam || r <= self.seam - 4
        &&& same4(self.data, ip, r)
    }
}

/// What a search found.
pub struct HitView {
    pub ip: int,
    pub source: int,
    pub repeat: bool,
    pub current: int,
    pub next: int,
    pub next_hash: int,
    pub enter_next: bool,
}

/// A state of the search: four positions, `ip0` with the one after it and
/// `ip2` with the one after it; the hashes of the first two, and the entry
/// found under the first.
pub struct Probe {
    pub ip0: int,
    pub ip2: int,
    pub hash0: nat,
    pub hash1: nat,
    pub idx: u32,
    pub step: nat,
    pub next_step: int,
}

/// Looks at `ip0` and the position after it, in the table, and at `ip2` with
/// the newest offset; goes on from `ip2`. Each position looked at is entered.
/// Steps grow by one for every 128 positions without a match.
#[verifier::opaque]
pub open spec fn scan(w: FastPlace, first: u32, table: Seq<u32>, c: Probe) -> (Seq<u32>, Option<HitView>)
    decreases w.end - c.ip0,
{
    if !(c.ip0 < c.ip2 && c.ip2 + 1 < w.end - 8) {
        (table, None)
    } else {
        let t1 = table.update(c.hash0 as int, index_of(c.ip0 as nat, w.bias));
        let ip1 = c.ip0 + 1;
        if w.repeats(first, c.ip2) {
            (
                t1,
                Some(
                    HitView {
                        ip: c.ip2,
                        source: c.ip2 - first,
                        repeat: true,
                        current: c.ip0,
                        next: ip1,
                        next_hash: c.hash1 as int,
                        enter_next: true,
                    },
                ),
            )
        } else if w.hits(c.idx, c.ip0) {
            (
                t1,
                Some(
                    HitView {
                        ip: c.ip0,
                        source: pos_of(c.idx, w.bias),
                        repeat: false,
                        current: c.ip0,
                        next: ip1,
                        next_hash: c.hash1 as int,
                        enter_next: true,
                    },
                ),
            )
        } else {
            let idx1 = t1[c.hash1 as int];
            let t2 = t1.update(c.hash1 as int, index_of(ip1 as nat, w.bias));
            let h2 = w.hash(c.ip2);
            if w.hits(idx1, ip1) {
                (
                    t2,
                    Some(
                        HitView {
                            ip: ip1,
                            source: pos_of(idx1, w.bias),
                            repeat: false,
                            current: ip1,
                            next: c.ip2,
                            next_hash: h2 as int,
                            enter_next: c.step <= 4,
                        },
                    ),
                )
            } else {
                let far = c.ip2 + c.step;
                scan(
                    w,
                    first,
                    t2,
                    Probe {
                        ip0: c.ip2,
                        ip2: far,
                        hash0: h2,
                        hash1: w.hash(c.ip2 + 1),
                        idx: t2[h2 as int],
                        step: if far >= c.next_step {
                            c.step + 1
                        } else {
                            c.step
                        },
                        next_step: if far >= c.next_step {
                            c.next_step + 128
                        } else {
                            c.next_step
                        },
                    },
                )
            }
        }
    }
}

/// The search from `from` on.
#[verifier::opaque]
pub open spec fn search(w: FastPlace, first: u32, table: Seq<u32>, from: int) -> (Seq<u32>, Option<HitView>) {
    if from + w.step_size + 1 >= w.end - 8 {
        (table, None)
    } else {
        scan(
            w,
            first,
            table,
            Probe {
                ip0: from,
                ip2: from + w.step_size,
                hash0: w.hash(from),
                hash1: w.hash(from + 1),
                idx: table[w.hash(from) as int],
                step: w.step_size,
                next_step: from + 128,
            },
        )
    }
}

// ---------------------------------------------------------------------------
// Parsing.

/// What changes while a block is parsed.
pub struct FastState {
    pub table: Seq<u32>,
    pub parse: Parse,
    pub recent: Recent,
}

/// The matches right at the anchor with the second newest offset.
#[verifier::opaque]
pub open spec fn repeats_stored(w: FastPlace, s: FastState) -> FastState
    decreases w.end - s.parse.anchor,
{
    let ip = s.parse.anchor;
    let second = s.recent.second;
    if ip <= w.end - 8 && 0 < second <= ip && is_whole(ip - second, w.seam) && same4(
        w.data,
        ip,
        ip - second,
    ) {
        let rest = common_run(w.data, ip + 4, ip - second + 4, w.end);
        let s1 = FastState {
            table: w.enter(s.table, ip),
            parse: s.parse.with_match(ip, 1, rest + 4),
            recent: s.recent.swapped(),
        };
        if s1.parse.anchor < w.end {
            repeats_stored(w, s1)
        } else {
            s1
        }
    } else {
        s
    }
}

/// A match at the anchor's block end leaves positions to enter.
#[verifier::opaque]
pub open spec fn match_ended(w: FastPlace, s: FastState, current: int) -> FastState {
    if s.parse.anchor <= w.end - 8 {
        let t = w.enter(w.enter(s.table, current + 2), s.parse.anchor - 2);
        repeats_stored(w, FastState { table: t, ..s })
    } else {
        s
    }
}

/// What was found, extended both ways and stored. Backward, a source stays in
/// its own segment.
#[verifier::opaque]
pub open spec fn match_stored(w: FastPlace, s: FastState, h: HitView) -> FastState {
    let t1 = if !w.late && h.enter_next {
        s.table.update(h.next_hash, index_of(h.next as nat, w.bias))
    } else {
        s.table
    };
    let back = if h.repeat {
        if h.source > 0 && w.data[h.ip - 1] == w.data[h.source - 1] {
            1
        } else {
            0
        }
    } else {
        back_run(
            w.data,
            h.ip,
            h.source,
            s.parse.anchor,
            if h.source < w.seam || w.seam <= w.low {
                w.low
            } else {
                w.seam
            },
        )
    };
    let len = back + 4 + common_run(w.data, h.ip + 4, h.source + 4, w.end);
    let offset = h.ip - h.source;
    let parse = s.parse.with_match(
        h.ip - back,
        if h.repeat {
            1
        } else {
            (offset + 3) as nat
        },
        len,
    );
    let t2 = if w.late && h.next < parse.anchor {
        t1.update(h.next_hash, index_of(h.next as nat, w.bias))
    } else {
        t1
    };
    let recent = if h.repeat {
        s.recent
    } else {
        s.recent.pushed(offset as u32)
    };
    match_ended(w, FastState { table: t2, parse, recent }, h.current)
}

/// Searching from `from` on and storing what is found, until nothing is.
#[verifier::opaque]
pub open spec fn parsed(w: FastPlace, s: FastState, from: int) -> FastState
    decreases w.end - s.parse.anchor,
{
    let (t, found) = search(w, s.recent.first, s.table, from);
    match found {
        None => FastState { table: t, ..s },
        Some(h) => {
            let s1 = match_stored(w, FastState { table: t, ..s }, h);
            if s.parse.anchor < s1.parse.anchor <= w.end {
                parsed(w, s1, s1.parse.anchor)
            } else {
                s1
            }
        },
    }
}

// ---------------------------------------------------------------------------
// Blocks.

/// The outcome of a block: the table, the sequences, and the recent offsets.
pub struct FastOutcome {
    pub table: Seq<u32>,
    pub parse: Parse,
    pub rep: Seq<u32>,
}

/// The numbers that a match finder works with.
pub struct FastSetup {
    pub hlog: u32,
    pub mls: u32,
    pub step_size: nat,
    pub window_log: u32,
}

/// A block with its history in one segment.
#[verifier::opaque]
pub open spec fn block_outcome(
    k: FastSetup,
    data: Seq<u8>,
    start: int,
    end: int,
    table: Seq<u32>,
    rep: Seq<u32>,
    bias: u32,
    lowest_valid: u32,
) -> FastOutcome {
    let parse = Parse { triples: Seq::empty(), anchor: start };
    if end - start < 8 {
        FastOutcome { table, parse, rep }
    } else {
        let low = pos_of(
            spec_lowest_index(index_of(end as nat, bias), lowest_valid, k.window_log),
            bias,
        );
        let from = if start == low {
            start + 1
        } else {
            start
        };
        let curr = index_of(from as nat, bias);
        let max_rep = pos_of(curr, spec_lowest_index(curr, lowest_valid, k.window_log));
        let s = parsed(
            FastPlace {
                data,
                end,
                low,
                seam: 0,
                bias,
                hlog: k.hlog,
                mls: k.mls,
                step_size: k.step_size,
                late: false,
            },
            FastState { table, parse, recent: Recent::spec_start(rep, max_rep, false) },
            from,
        );
        FastOutcome { table: s.table, parse: s.parse, rep: s.recent.finished(rep) }
    }
}

/// A block whose history is in two segments, one after the other; in one, where the
/// older segment is out of reach.
#[verifier::opaque]
pub open spec fn ext_block_outcome(
    k: FastSetup,
    data: Seq<u8>,
    start: int,
    end: int,
    table: Seq<u32>,
    rep: Seq<u32>,
    win: Layout,
) -> FastOutcome {
    let bias = win.bias;
    let dict_start = spec_lowest_index(index_of(end as nat, bias), win.low_limit, k.window_log);
    let parse = Parse { triples: Seq::empty(), anchor: start };
    if dict_start >= win.dict_limit {
        block_outcome(k, data, start, end, table, rep, bias, win.dict_limit)
    } else if end - start < 8 {
        FastOutcome { table, parse, rep }
    } else {
        let max_rep = pos_of(index_of(start as nat, bias), dict_start);
        let s = parsed(
            FastPlace {
                data,
                end,
                low: pos_of(dict_start, bias),
                seam: pos_of(win.dict_limit, bias),
                bias,
                hlog: k.hlog,
                mls: k.mls,
                step_size: k.step_size,
                late: true,
            },
            FastState { table, parse, recent: Recent::spec_start(rep, max_rep, true) },
            start,
        );
        FastOutcome { table: s.table, parse: s.parse, rep: s.recent.finished(rep) }
    }
}

// ---------------------------------------------------------------------------
// With an attached dictionary.

/// An attached dictionary: its tagged table, and the length of its content.
pub struct FastDict {
    pub table: Seq<u32>,
    pub hlog: u32,
    pub content_len: int,
}

/// What a search with a dictionary found.
pub struct DictHitView {
    pub ip: int,
    pub source: int,
    pub repeat: bool,
    /// How far back the source may be extended.
    pub low: int,
    pub current: int,
}

/// The position that the dictionary's table gives for a hash, if its tag
/// agrees.
pub open spec fn dict_candidate(d: FastDict, hash_and_tag: nat, bias: u32) -> Option<int> {
    let e = d.table[hash_and_tag as int / 256];
    if e % 256 == hash_and_tag % 256 && e / 256 > bias {
        Some(e / 256 - bias)
    } else {
        None
    }
}

/// The dictionary gives a match at `ip`.
pub open spec fn dict_hits(w: FastPlace, d: FastDict, ip: int) -> bool {
    dict_candidate(d, spec_hash(w.data, ip, (d.hlog + 8) as u32, w.mls), w.bias) matches Some(m) && m
        < ip && same4(w.data, ip, m)
}

/// Looks at `ip0`: one position on with the newest offset; in the dictionary,
/// where the window has nothing; in the window. Goes on from `ip1`.
#[verifier::opaque]
pub open spec fn dict_scan(
    w: FastPlace,
    d: FastDict,
    first: u32,
    table: Seq<u32>,
    ip0: int,
    ip1: int,
    step: nat,
    next_step: int,
) -> (Seq<u32>, Option<DictHitView>)
    decreases w.end - ip0,
{
    if !(ip0 < ip1 <= w.end - 8) {
        (table, None)
    } else {
        let h0 = w.hash(ip0);
        let idx = table[h0 as int];
        let t1 = w.enter(table, ip0);
        let prefix_start = index_of(d.content_len as nat, w.bias);
        let r = ip0 + 1 - first;
        let m = pos_of(idx, w.bias);
        if 0 < first <= ip0 + 1 && is_whole(r, d.content_len) && same4(w.data, ip0 + 1, r) {
            (t1, Some(DictHitView { ip: ip0 + 1, source: r, repeat: true, low: 0, current: ip0 }))
        } else if dict_hits(w, d, ip0) && idx <= prefix_start {
            let dm = dict_candidate(
                d,
                spec_hash(w.data, ip0, (d.hlog + 8) as u32, w.mls),
                w.bias,
            )->0;
            (t1, Some(DictHitView { ip: ip0, source: dm, repeat: false, low: 0, current: ip0 }))
        } else if idx >= prefix_start && m < ip0 && same4(w.data, ip0, m) {
            (
                t1,
                Some(
                    DictHitView {
                        ip: ip0,
                        source: m,
                        repeat: false,
                        low: d.content_len,
                        current: ip0,
                    },
                ),
            )
        } else {
            let longer = ip1 >= next_step;
            let step1 = if longer {
                step + 1
            } else {
                step
            };
            dict_scan(
                w,
                d,
                first,
                t1,
                ip1,
                ip1 + step1,
                step1,
                if longer {
                    next_step + 256
                } else {
                    next_step
                },
            )
        }
    }
}

/// The search from `from` on.
#[verifier::opaque]
pub open spec fn dict_search(w: FastPlace, d: FastDict, first: u32, table: Seq<u32>, from: int) -> (
    Seq<u32>,
    Option<DictHitView>,
) {
    let step = (w.step_size - 1) as nat;
    dict_scan(w, d, first, table, from, from + step, step, from + 256)
}

/// What was found, extended both ways and stored.
#[verifier::opaque]
pub open spec fn dict_match_stored(w: FastPlace, s: FastState, h: DictHitView) -> FastState {
    let back = if h.repeat {
        0
    } else {
        back_run(w.data, h.ip, h.source, s.parse.anchor, h.low)
    };
    let len = back + 4 + common_run(w.data, h.ip + 4, h.source + 4, w.end);
    let offset = h.ip - h.source;
    let parse = s.parse.with_match(
        h.ip - back,
        if h.repeat {
            1
        } else {
            (offset + 3) as nat
        },
        len,
    );
    let recent = if h.repeat {
        s.recent
    } else {
        s.recent.pushed(offset as u32)
    };
    match_ended(w, FastState { table: s.table, parse, recent }, h.current)
}

/// Searching from `from` on and storing what is found, until nothing is.
#[verifier::opaque]
pub open spec fn dict_parsed(w: FastPlace, d: FastDict, s: FastState, from: int) -> FastState
    decreases w.end - s.parse.anchor,
{
    let (t, found) = dict_search(w, d, s.recent.first, s.table, from);
    match found {
        None => FastState { table: t, ..s },
        Some(h) => {
            let s1 = dict_match_stored(w, FastState { table: t, ..s }, h);
            if s.parse.anchor < s1.parse.anchor <= w.end {
                dict_parsed(w, d, s1, s1.parse.anchor)
            } else {
                s1
            }
        },
    }
}

/// A block with an attached dictionary, whose content stands at the start of
/// the data.
#[verifier::opaque]
pub open spec fn dict_block_outcome(
    k: FastSetup,
    data: Seq<u8>,
    start: int,
    end: int,
    table: Seq<u32>,
    rep: Seq<u32>,
    d: FastDict,
) -> FastOutcome {
    let parse = Parse { triples: Seq::empty(), anchor: start };
    if end - start < 8 {
        FastOutcome { table, parse, rep }
    } else {
        let s = dict_parsed(
            FastPlace {
                data,
                end,
                low: 0,
                seam: d.content_len,
                bias: 2,
                hlog: k.hlog,
                mls: k.mls,
                step_size: k.step_size,
                late: false,
            },
            d,
            FastState {
                table,
                parse,
                recent: Recent { first: rep[0], second: rep[1], saved_first: 0, saved_second: 0 },
            },
            if start == 0 {
                1
            } else {
                start
            },
        );
        FastOutcome { table: s.table, parse: s.parse, rep: s.recent.finished(rep) }
    }
}

} // verus!
