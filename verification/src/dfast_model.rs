//! What the double-fast match finder does, step by step.

use crate::fast_model::{entered, filled_in, is_whole, same4, spec_lowest_index, tag_filled_in, tagged_at};
use crate::layout::Layout;
use crate::parser::{back_run, common_run, index_of, pos_of, spec_hash, Parse};
use crate::recent::Recent;
use vstd::prelude::*;

verus! {

/// The eight bytes at `a` and at `b` are equal.
pub open spec fn same8(data: Seq<u8>, a: int, b: int) -> bool {
    forall|k: int| 0 <= k < 8 ==> #[trigger] data[a + k] == data[b + k]
}

/// The table of eight-byte hashes and that of short hashes.
pub struct Tables {
    pub long: Seq<u32>,
    pub small: Seq<u32>,
}

/// The logarithms of the tables' sizes, and how many bytes the short hash
/// takes.
#[verifier::ext_equal]
pub struct Logs {
    pub long: u32,
    pub small: u32,
    pub mls: u32,
}

impl Tables {
    /// With position `pos` entered into both.
    pub open spec fn with(self, data: Seq<u8>, pos: int, k: Logs, bias: u32) -> Tables {
        Tables {
            long: entered(self.long, data, pos, k.long, 8, bias),
            small: entered(self.small, data, pos, k.small, k.mls, bias),
        }
    }
}

/// Every third position from `ip` on entered into both tables.
pub open spec fn thirds_entered(t: Tables, data: Seq<u8>, ip: int, dict_len: int, k: Logs, bias: u32) -> Tables
    decreases dict_len - ip,
{
    if ip < dict_len - 9 {
        thirds_entered(t.with(data, ip, k, bias), data, ip + 3, dict_len, k, bias)
    } else {
        t
    }
}

/// Every third position from `ip` on entered into both tables, and those
/// between into the long one where their bucket is empty by then.
pub open spec fn all_entered(t: Tables, data: Seq<u8>, ip: int, dict_len: int, k: Logs, bias: u32) -> Tables
    decreases dict_len - ip,
{
    if ip < dict_len - 9 {
        let t0 = t.with(data, ip, k, bias);
        let l1 = filled_in(t0.long, data, ip + 1, k.long, 8, bias);
        let l2 = filled_in(l1, data, ip + 2, k.long, 8, bias);
        all_entered(Tables { long: l2, ..t0 }, data, ip + 3, dict_len, k, bias)
    } else {
        t
    }
}

/// The same with tagged tables.
pub open spec fn all_tagged(t: Tables, data: Seq<u8>, ip: int, dict_len: int, k: Logs, bias: u32) -> Tables
    decreases dict_len - ip,
{
    if ip < dict_len - 9 {
        let l0 = tagged_at(t.long, data, ip, k.long, 8, bias);
        let l1 = tag_filled_in(l0, data, ip + 1, k.long, 8, bias);
        let l2 = tag_filled_in(l1, data, ip + 2, k.long, 8, bias);
        let s0 = tagged_at(t.small, data, ip, k.small, k.mls, bias);
        all_tagged(Tables { long: l2, small: s0 }, data, ip + 3, dict_len, k, bias)
    } else {
        t
    }
}

// ---------------------------------------------------------------------------
// Searching.

/// A dictionary's tagged tables, and the length of its content.
pub struct DictTablesView {
    pub tables: Tables,
    pub logs: Logs,
    pub content_len: int,
}

/// What history a search has: one segment, two that adjoin, or one beside an
/// attached dictionary.
pub enum History {
    One,
    Two,
    Attached(DictTablesView),
}

/// Where a search takes place, and what does not change while it does.
pub struct DfastPlace {
    pub data: Seq<u8>,
    pub end: int,
    pub low: int,
    pub seam: int,
    /// Repeated sources lie here or above.
    pub rep_low: int,
    pub bias: u32,
    pub logs: Logs,
    pub history: History,
}

impl DfastPlace {
    pub open spec fn hash_long(self, pos: int) -> int {
        spec_hash(self.data, pos, self.logs.long, 8) as int
    }

    pub open spec fn hash_small(self, pos: int) -> int {
        spec_hash(self.data, pos, self.logs.small, self.logs.mls) as int
    }

    pub open spec fn with(self, t: Tables, pos: int) -> Tables {
        t.with(self.data, pos, self.logs, self.bias)
    }

    pub open spec fn with_long(self, t: Tables, pos: int) -> Tables {
        Tables { long: entered(t.long, self.data, pos, self.logs.long, 8, self.bias), ..t }
    }

    pub open spec fn with_small(self, t: Tables, pos: int) -> Tables {
        Tables {
            small: entered(t.small, self.data, pos, self.logs.small, self.logs.mls, self.bias),
            ..t
        }
    }

    /// How far back a source at `m` may be extended within its segment.
    pub open spec fn segment_low(self, m: int) -> int {
        if m < self.seam {
            self.low
        } else {
            self.seam
        }
    }
}

/// What a search found: `run` equal bytes at `ip` and `source`, with the
/// lowest place to which the source may be extended.
pub struct HitView {
    pub ip: int,
    pub source: int,
    pub run: int,
    pub low: int,
    pub repeat: bool,
    pub current: int,
}

pub open spec fn repeat_hit(ip: int, first: u32) -> HitView {
    HitView { ip: ip + 1, source: ip + 1 - first, run: 4, low: 0, repeat: true, current: ip }
}

/// One segment. Looks at `ip`: one position on with the newest offset; for
/// eight bytes; for four bytes, or then rather a longer match at `ip1`. Goes
/// on from `ip1`, with steps that grow by one for every 256 positions.
#[verifier::opaque]
pub open spec fn scan_one(
    w: DfastPlace,
    first: u32,
    t: Tables,
    ip: int,
    ip1: int,
    step: nat,
    next_step: int,
) -> (Tables, Option<HitView>)
    decreases w.end - ip,
{
    if !(ip < ip1 <= w.end - 8) {
        (t, None)
    } else {
        let ml = pos_of(t.long[w.hash_long(ip)], w.bias);
        let ms = pos_of(t.small[w.hash_small(ip)], w.bias);
        let t1 = w.with(t, ip);
        let t2 = if step < 4 {
            w.with_long(t1, ip1)
        } else {
            t1
        };
        let ml1 = pos_of(t1.long[w.hash_long(ip1)], w.bias);
        if 0 < first <= ip + 1 && same4(w.data, ip + 1, ip + 1 - first) {
            (t1, Some(repeat_hit(ip, first)))
        } else if w.low <= ml < ip && same8(w.data, ip, ml) {
            (
                t2,
                Some(
                    HitView { ip, source: ml, run: 8, low: w.low, repeat: false, current: ip },
                ),
            )
        } else if w.low <= ms < ip && same4(w.data, ip, ms) {
            let run = common_run(w.data, ip + 4, ms + 4, w.end) + 4;
            let run1 = common_run(w.data, ip1 + 8, ml1 + 8, w.end) + 8;
            let better = w.low < ml1 < ip1 && same8(w.data, ip1, ml1) && run1 > run;
            (
                t2,
                Some(
                    HitView {
                        ip: if better {
                            ip1
                        } else {
                            ip
                        },
                        source: if better {
                            ml1
                        } else {
                            ms
                        },
                        run: if better {
                            run1 as int
                        } else {
                            run as int
                        },
                        low: w.low,
                        repeat: false,
                        current: ip,
                    },
                ),
            )
        } else {
            let longer = ip1 >= next_step;
            let step1 = if longer {
                step + 1
            } else {
                step
            };
            scan_one(
                w,
                first,
                t1,
                ip1,
                ip1 + step1,
                step1,
                if longer {
                    next_step + 256
                } else {
                    next_step
                },
            )
        }
    }
}

/// Two segments. Looks at `ip`: one position on with the newest offset; for
/// eight bytes; for four bytes, or then rather eight one position on. Steps
/// grow with the distance from the anchor.
#[verifier::opaque]
pub open spec fn scan_two(w: DfastPlace, first: u32, t: Tables, anchor: int, ip: int) -> (
    Tables,
    Option<HitView>,
)
    decreases w.end - ip,
{
    if !(anchor <= ip < w.end - 8) {
        (t, None)
    } else {
        let ml = pos_of(t.long[w.hash_long(ip)], w.bias);
        let ms = pos_of(t.small[w.hash_small(ip)], w.bias);
        let t1 = w.with(t, ip);
        let r = ip + 1 - first;
        if 0 < first <= ip + 1 && is_whole(r, w.seam) && r >= w.low && same4(w.data, ip + 1, r) {
            (t1, Some(repeat_hit(ip, first)))
        } else if w.low < ml < ip && same8(w.data, ip, ml) {
            (
                t1,
                Some(
                    HitView {
                        ip,
                        source: ml,
                        run: 8,
                        low: w.segment_low(ml),
                        repeat: false,
                        current: ip,
                    },
                ),
            )
        } else if w.low < ms < ip && same4(w.data, ip, ms) {
            let m3 = pos_of(t1.long[w.hash_long(ip + 1)], w.bias);
            let t2 = w.with_long(t1, ip + 1);
            if w.low < m3 < ip + 1 && same8(w.data, ip + 1, m3) {
                (
                    t2,
                    Some(
                        HitView {
                            ip: ip + 1,
                            source: m3,
                            run: 8,
                            low: w.segment_low(m3),
                            repeat: false,
                            current: ip,
                        },
                    ),
                )
            } else {
                (
                    t2,
                    Some(
                        HitView {
                            ip,
                            source: ms,
                            run: 4,
                            low: w.segment_low(ms),
                            repeat: false,
                            current: ip,
                        },
                    ),
                )
            }
        } else {
            let next = ip + (ip - anchor) / 256 + 1;
            if ip < next < w.end {
                scan_two(w, first, t1, anchor, next)
            } else {
                (t1, None)
            }
        }
    }
}

/// The position in a tagged entry, where the tag is that of the hash and the
/// position is not the very first.
pub open spec fn untagged(entry: u32, hash_and_tag: nat) -> Option<int> {
    if entry % 256 == hash_and_tag % 256 && entry / 256 > 2 {
        Some(entry / 256 - 2)
    } else {
        None
    }
}

impl DictTablesView {
    pub open spec fn long_at(self, data: Seq<u8>, at: int) -> Option<int> {
        let h = spec_hash(data, at, (self.logs.long + 8) as u32, 8);
        untagged(self.tables.long[h as int / 256], h)
    }

    pub open spec fn small_at(self, data: Seq<u8>, at: int, mls: u32) -> Option<int> {
        let h = spec_hash(data, at, (self.logs.small + 8) as u32, mls);
        untagged(self.tables.small[h as int / 256], h)
    }

    /// An eight-byte source for `ip`, with the lowest place to which it may be
    /// extended: the window's candidate `ml`, or else the dictionary's.
    pub open spec fn long_source(self, data: Seq<u8>, ip: int, ml: int) -> Option<(int, int)> {
        if self.content_len <= ml < ip && same8(data, ip, ml) {
            Some((ml, self.content_len))
        } else {
            match self.long_at(data, ip) {
                Some(m) => if m < ip && same8(data, ip, m) {
                    Some((m, 0))
                } else {
                    None
                },
                None => None,
            }
        }
    }

    /// A four-byte source for `ip`: the window's candidate `ms`, or where it
    /// has none, the dictionary's.
    pub open spec fn short_source(self, data: Seq<u8>, ip: int, ms: int, mls: u32) -> Option<(int, int)> {
        if self.content_len < ms < ip {
            if same4(data, ip, ms) {
                Some((ms, self.content_len))
            } else {
                None
            }
        } else {
            match self.small_at(data, ip, mls) {
                Some(m) => if m < ip && same4(data, ip, m) {
                    Some(
                        (
                            m,
                            if m < self.content_len {
                                0
                            } else {
                                self.content_len
                            },
                        ),
                    )
                } else {
                    None
                },
                None => None,
            }
        }
    }
}

/// An attached dictionary beside the window.
#[verifier::opaque]
pub open spec fn scan_attached(
    w: DfastPlace,
    d: DictTablesView,
    first: u32,
    t: Tables,
    anchor: int,
    ip: int,
) -> (Tables, Option<HitView>)
    decreases w.end - ip,
{
    if !(anchor <= ip < w.end - 8) {
        (t, None)
    } else {
        let ml = pos_of(t.long[w.hash_long(ip)], w.bias);
        let ms = pos_of(t.small[w.hash_small(ip)], w.bias);
        let t1 = w.with(t, ip);
        let r = ip + 1 - first;
        if 0 < first <= ip + 1 && is_whole(r, d.content_len) && same4(w.data, ip + 1, r) {
            (t1, Some(repeat_hit(ip, first)))
        } else {
            match d.long_source(w.data, ip, ml) {
                Some((m, low)) => (
                    t1,
                    Some(HitView { ip, source: m, run: 8, low, repeat: false, current: ip }),
                ),
                None => match d.short_source(w.data, ip, ms, w.logs.mls) {
                    Some((s, s_low)) => {
                        let m3 = pos_of(t1.long[w.hash_long(ip + 1)], w.bias);
                        let t2 = w.with_long(t1, ip + 1);
                        match d.long_source(w.data, ip + 1, m3) {
                            Some((m, low)) => (
                                t2,
                                Some(
                                    HitView {
                                        ip: ip + 1,
                                        source: m,
                                        run: 8,
                                        low,
                                        repeat: false,
                                        current: ip,
                                    },
                                ),
                            ),
                            None => (
                                t2,
                                Some(
                                    HitView {
                                        ip,
                                        source: s,
                                        run: 4,
                                        low: s_low,
                                        repeat: false,
                                        current: ip,
                                    },
                                ),
                            ),
                        }
                    },
                    None => {
                        let next = ip + (ip - anchor) / 256 + 1;
                        if ip < next < w.end {
                            scan_attached(w, d, first, t1, anchor, next)
                        } else {
                            (t1, None)
                        }
                    },
                },
            }
        }
    }
}

/// The search from `from` on.
pub open spec fn search(w: DfastPlace, first: u32, t: Tables, anchor: int, from: int) -> (
    Tables,
    Option<HitView>,
) {
    match w.history {
        History::One => scan_one(w, first, t, from, from + 1, 1, from + 256),
        History::Two => scan_two(w, first, t, anchor, from),
        History::Attached(d) => scan_attached(w, d, first, t, anchor, from),
    }
}

// ---------------------------------------------------------------------------
// Parsing.

/// What changes while a block is parsed.
pub struct DfastState {
    pub tables: Tables,
    pub parse: Parse,
    pub recent: Recent,
}

/// The matches right at the anchor with the second newest offset.
#[verifier::opaque]
pub open spec fn repeats_stored(w: DfastPlace, s: DfastState) -> DfastState
    decreases w.end - s.parse.anchor,
{
    let ip = s.parse.anchor;
    let second = s.recent.second;
    if ip <= w.end - 8 && 0 < second <= ip && ip - second >= w.rep_low && is_whole(
        ip - second,
        w.seam,
    ) && same4(w.data, ip, ip - second) {
        let rest = common_run(w.data, ip + 4, ip - second + 4, w.end);
        let s1 = DfastState {
            tables: w.with(s.tables, ip),
            parse: s.parse.with_match(ip, 1, rest + 4),
            recent: s.recent.swapped(),
        };
        if s1.parse.anchor < w.end {
            repeats_stored(w, s1)
        } else {
            s1
        }
    } else {
        s
    }
}

/// What was found, extended both ways and stored; four positions around it
/// entered, and what follows at once stored.
#[verifier::opaque]
pub open spec fn match_stored(w: DfastPlace, s: DfastState, h: HitView) -> DfastState {
    let back = if h.repeat {
        0
    } else {
        back_run(w.data, h.ip, h.source, s.parse.anchor, h.low)
    };
    let len = (back + h.run + common_run(w.data, h.ip + h.run, h.source + h.run, w.end)) as nat;
    let offset = h.ip - h.source;
    let parse = s.parse.with_match(
        h.ip - back,
        if h.repeat {
            1
        } else {
            (offset + 3) as nat
        },
        len,
    );
    let recent = if h.repeat {
        s.recent
    } else {
        s.recent.pushed(offset as u32)
    };
    if parse.anchor <= w.end - 8 {
        let t1 = w.with_long(w.with_long(s.tables, h.current + 2), parse.anchor - 2);
        let t2 = w.with_small(w.with_small(t1, h.current + 2), parse.anchor - 1);
        repeats_stored(w, DfastState { tables: t2, parse, recent })
    } else {
        DfastState { tables: s.tables, parse, recent }
    }
}

/// Searching from `from` on and storing what is found, until nothing is.
#[verifier::opaque]
pub open spec fn parsed(w: DfastPlace, s: DfastState, from: int) -> DfastState
    decreases w.end - s.parse.anchor,
{
    let (t, found) = search(w, s.recent.first, s.tables, s.parse.anchor, from);
    match found {
        None => DfastState { tables: t, ..s },
        Some(h) => {
            let s1 = match_stored(w, DfastState { tables: t, ..s }, h);
            if s.parse.anchor < s1.parse.anchor <= w.end {
                parsed(w, s1, s1.parse.anchor)
            } else {
                s1
            }
        },
    }
}

// ---------------------------------------------------------------------------
// Blocks.

/// The outcome of a block: the tables, the sequences, and the recent offsets.
pub struct DfastOutcome {
    pub tables: Tables,
    pub parse: Parse,
    pub rep: Seq<u32>,
}

pub open spec fn nothing_stored(t: Tables, start: int, rep: Seq<u32>) -> DfastOutcome {
    DfastOutcome { tables: t, parse: Parse { triples: Seq::empty(), anchor: start }, rep }
}

pub open spec fn outcome_of(w: DfastPlace, t: Tables, start: int, from: int, recent: Recent, rep: Seq<u32>) -> DfastOutcome {
    let parse = Parse { triples: Seq::empty(), anchor: start };
    let s = parsed(w, DfastState { tables: t, parse, recent }, from);
    DfastOutcome { tables: s.tables, parse: s.parse, rep: s.recent.finished(rep) }
}

/// A block with its history in one segment.
#[verifier::opaque]
pub open spec fn block_outcome(
    k: Logs,
    window_log: u32,
    data: Seq<u8>,
    start: int,
    end: int,
    t: Tables,
    rep: Seq<u32>,
    bias: u32,
    lowest_valid: u32,
) -> DfastOutcome {
    if end - start < 8 {
        nothing_stored(t, start, rep)
    } else {
        let low = pos_of(
            spec_lowest_index(index_of(end as nat, bias), lowest_valid, window_log),
            bias,
        );
        let from = if start == low {
            start + 1
        } else {
            start
        };
        let curr = index_of(from as nat, bias);
        let max_rep = pos_of(curr, spec_lowest_index(curr, lowest_valid, window_log));
        outcome_of(
            DfastPlace {
                data,
                end,
                low,
                seam: 0,
                rep_low: 0,
                bias,
                logs: k,
                history: History::One,
            },
            t,
            start,
            from,
            Recent::spec_start(rep, max_rep, false),
            rep,
        )
    }
}

/// A block whose history is in two segments, one after the other; in one, where the
/// older segment is out of reach.
#[verifier::opaque]
pub open spec fn ext_block_outcome(
    k: Logs,
    window_log: u32,
    data: Seq<u8>,
    start: int,
    end: int,
    t: Tables,
    rep: Seq<u32>,
    win: Layout,
) -> DfastOutcome {
    let bias = win.bias;
    let dict_start = spec_lowest_index(index_of(end as nat, bias), win.low_limit, window_log);
    if dict_start >= win.dict_limit {
        block_outcome(k, window_log, data, start, end, t, rep, bias, win.dict_limit)
    } else if end - start < 8 {
        nothing_stored(t, start, rep)
    } else {
        let low = pos_of(dict_start, bias);
        outcome_of(
            DfastPlace {
                data,
                end,
                low,
                seam: pos_of(win.dict_limit, bias),
                rep_low: low,
                bias,
                logs: k,
                history: History::Two,
            },
            t,
            start,
            start,
            Recent { first: rep[0], second: rep[1], saved_first: 0, saved_second: 0 },
            rep,
        )
    }
}

/// A block with an attached dictionary, whose content stands at the start of
/// the data.
#[verifier::opaque]
pub open spec fn dict_block_outcome(
    k: Logs,
    data: Seq<u8>,
    start: int,
    end: int,
    t: Tables,
    rep: Seq<u32>,
    d: DictTablesView,
) -> DfastOutcome {
    if end - start < 8 {
        nothing_stored(t, start, rep)
    } else {
        outcome_of(
            DfastPlace {
                data,
                end,
                low: 0,
                seam: d.content_len,
                rep_low: 0,
                bias: 2,
                logs: k,
                history: History::Attached(d),
            },
            t,
            start,
            if start == 0 {
                1
            } else {
                start
            },
            Recent { first: rep[0], second: rep[1], saved_first: 0, saved_second: 0 },
            rep,
        )
    }
}

} // verus!
