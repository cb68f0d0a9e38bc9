//! What a frame is made of, byte by byte.

use crate::block_encode_model::{fresh_entropy, spec_block, EntropyView};
use crate::blocks_encode::BlockKind;
use crate::cparams::{spec_cycle_log, CParams, Strategy};
use crate::decompress::ZSTD_MAGIC;
use crate::dfast_model::{DictTablesView, Logs, Tables};
use crate::fast_model::{FastDict, FastSetup};
use crate::frame_compress::Stage;
use crate::frame_encode::{block_header_bytes, header_fields, le_bytes};
use crate::layout::Layout;
use crate::lazy::loaded_state;
use crate::lazy_model::{fresh_lazy, reduced_state, spec_use_rows, LazyState};
use crate::lazy_parse_model::{lazy_block_outcome, lazy_dict_block_outcome, lazy_ext_block_outcome};
use crate::lazy_search::limited;
use crate::ldm::{LdmParams, RawSeq};
use crate::ldm_model::{fresh_ldm, ldm_generated, LdmTables};
use crate::opt_match_model::{opt_loaded, reduced_opt, OptState};
use crate::opt_matches::{fresh_opt, LdmCursor};
use crate::opt_model::opt_block_outcome;
use crate::parser::{block_literals, ends_with, index_of, Parse};
use crate::post_split_model::{block_split, offsets_settled};
use crate::pre_split::spec_split;
use crate::window::{reduced_table, spec_corrected, spec_correction, spec_enforced, spec_update, Window, CURRENT_MAX};
use vstd::arithmetic::power2::pow2;
use vstd::prelude::*;

verus! {

// ---------------------------------------------------------------------------
// Match finders.

/// The match finder in use.
pub enum MatcherView {
    Fast { setup: FastSetup, table: Seq<u32> },
    Dfast { logs: Logs, window_log: u32, tables: Tables },
    Lazy(LazyState),
    Opt(OptState),
}

/// A dictionary's own tables.
pub enum AttachedTables {
    Fast { table: Seq<u32>, hlog: u32 },
    Dfast { tables: Tables, logs: Logs },
    Lazy(LazyState),
    Opt(OptState),
}

/// An attached dictionary: its tables, and the length of its content.
pub struct AttachedDict {
    pub tables: AttachedTables,
    pub content_len: int,
}

/// The match finder of a strategy.
pub open spec fn fresh_matcher(cparams: CParams) -> MatcherView {
    let mls = if cparams.min_match < 4 {
        4
    } else {
        cparams.min_match
    };
    match cparams.strategy {
        Strategy::Fast => MatcherView::Fast {
            setup: FastSetup {
                hlog: cparams.hash_log,
                mls,
                step_size: cparams.target_length as nat + if cparams.target_length == 0 {
                    2nat
                } else {
                    1
                },
                window_log: cparams.window_log,
            },
            table: Seq::new(pow2(cparams.hash_log as nat), |i: int| 0u32),
        },
        Strategy::Dfast => MatcherView::Dfast {
            logs: Logs { long: cparams.hash_log, small: cparams.chain_log, mls },
            window_log: cparams.window_log,
            tables: Tables {
                long: Seq::new(pow2(cparams.hash_log as nat), |i: int| 0u32),
                small: Seq::new(pow2(cparams.chain_log as nat), |i: int| 0u32),
            },
        },
        Strategy::Greedy | Strategy::Lazy | Strategy::Lazy2 | Strategy::Btlazy2 => {
            MatcherView::Lazy(fresh_lazy(cparams, spec_use_rows(cparams)))
        },
        _ => MatcherView::Opt(fresh_opt(cparams)),
    }
}

impl MatcherView {
    /// Positions are entered from index `idx` on.
    pub open spec fn resumed(self, idx: u32) -> MatcherView {
        match self {
            MatcherView::Lazy(s) => MatcherView::Lazy(LazyState { next: idx, ..s }),
            MatcherView::Opt(s) => MatcherView::Opt(OptState { next: idx, ..s }),
            _ => self,
        }
    }

    /// Nothing is entered below index `low`.
    pub open spec fn resumed_no_lower(self, low: u32) -> MatcherView {
        match self {
            MatcherView::Lazy(s) => if s.next < low {
                self.resumed(low)
            } else {
                self
            },
            MatcherView::Opt(s) => if s.next < low {
                self.resumed(low)
            } else {
                self
            },
            _ => self,
        }
    }

    /// After a very long match, most of what has not been entered is skipped.
    pub open spec fn update_limited(self, curr: u32) -> MatcherView {
        match self {
            MatcherView::Lazy(s) => self.resumed(limited(s.next, curr)),
            MatcherView::Opt(s) => self.resumed(limited(s.next, curr)),
            _ => self,
        }
    }

    /// `correction` is taken off every index.
    pub open spec fn indices_reduced(self, correction: u32) -> MatcherView {
        match self {
            MatcherView::Fast { setup, table } => MatcherView::Fast {
                setup,
                table: reduced_table(table, correction, false),
            },
            MatcherView::Dfast { logs, window_log, tables } => MatcherView::Dfast {
                logs,
                window_log,
                tables: Tables {
                    long: reduced_table(tables.long, correction, false),
                    small: reduced_table(tables.small, correction, false),
                },
            },
            MatcherView::Lazy(s) => MatcherView::Lazy(reduced_state(s, correction)),
            MatcherView::Opt(s) => MatcherView::Opt(reduced_opt(s, correction)),
        }
    }

    /// The positions of the prefix `buf[.. len]` are entered, unless it is too
    /// short for that.
    pub open spec fn prefix_entered(self, buf: Seq<u8>, len: int) -> MatcherView {
        if len <= 8 {
            self
        } else {
            match self {
                MatcherView::Fast { setup, table } => MatcherView::Fast {
                    setup,
                    table: crate::fast_model::thirds_entered(
                        table,
                        buf,
                        0,
                        len,
                        setup.hlog,
                        setup.mls,
                        2,
                    ),
                },
                MatcherView::Dfast { logs, window_log, tables } => MatcherView::Dfast {
                    logs,
                    window_log,
                    tables: crate::dfast_model::thirds_entered(tables, buf, 0, len, logs, 2),
                },
                MatcherView::Lazy(s) => MatcherView::Lazy(loaded_state(s, buf, len)),
                MatcherView::Opt(s) => MatcherView::Opt(opt_loaded(s, buf, len)),
            }
        }
    }
}

/// What parsing a block gives: the sequences, the recent offsets after them,
/// and the match finder and layout after the block.
pub struct Parsed {
    pub matcher: MatcherView,
    pub parse: Parse,
    pub rep: Seq<u32>,
    pub layout: Layout,
}

/// The block `data[start .. end]` parsed: with an attached dictionary, with an
/// external segment, or with the current segment alone.
#[verifier::opaque]
pub open spec fn block_parsed(
    m: MatcherView,
    data: Seq<u8>,
    start: int,
    end: int,
    rep: Seq<u32>,
    win: Layout,
    dict: Option<AttachedDict>,
    ldm: Seq<RawSeq>,
    e: EntropyView,
) -> Parsed {
    let ext = win.low_limit < win.dict_limit;
    match m {
        MatcherView::Fast { setup, table } => {
            let o = if dict is Some && dict->0.tables is Fast && dict->0.content_len <= start {
                crate::fast_model::dict_block_outcome(
                    setup,
                    data,
                    start,
                    end,
                    table,
                    rep,
                    FastDict {
                        table: dict->0.tables->Fast_table,
                        hlog: dict->0.tables->Fast_hlog,
                        content_len: dict->0.content_len,
                    },
                )
            } else if ext {
                crate::fast_model::ext_block_outcome(setup, data, start, end, table, rep, win)
            } else {
                crate::fast_model::block_outcome(
                    setup,
                    data,
                    start,
                    end,
                    table,
                    rep,
                    win.bias,
                    win.dict_limit,
                )
            };
            Parsed {
                matcher: MatcherView::Fast { setup, table: o.table },
                parse: o.parse,
                rep: o.rep,
                layout: win,
            }
        },
        MatcherView::Dfast { logs, window_log, tables } => {
            let o = if dict is Some && dict->0.tables is Dfast && dict->0.content_len <= start {
                crate::dfast_model::dict_block_outcome(
                    logs,
                    data,
                    start,
                    end,
                    tables,
                    rep,
                    DictTablesView {
                        tables: dict->0.tables->Dfast_tables,
                        logs: dict->0.tables->Dfast_logs,
                        content_len: dict->0.content_len,
                    },
                )
            } else if ext {
                crate::dfast_model::ext_block_outcome(
                    logs,
                    window_log,
                    data,
                    start,
                    end,
                    tables,
                    rep,
                    win,
                )
            } else {
                crate::dfast_model::block_outcome(
                    logs,
                    window_log,
                    data,
                    start,
                    end,
                    tables,
                    rep,
                    win.bias,
                    win.dict_limit,
                )
            };
            Parsed {
                matcher: MatcherView::Dfast { logs, window_log, tables: o.tables },
                parse: o.parse,
                rep: o.rep,
                layout: win,
            }
        },
        MatcherView::Lazy(s) => {
            let o = if dict is Some && dict->0.tables is Lazy {
                lazy_dict_block_outcome(
                    s,
                    data,
                    start,
                    end,
                    rep,
                    win,
                    dict->0.tables->Lazy_0,
                    dict->0.content_len,
                )
            } else if ext {
                lazy_ext_block_outcome(s, data, start, end, rep, win)
            } else {
                lazy_block_outcome(s, data, start, end, rep, win)
            };
            Parsed {
                matcher: MatcherView::Lazy(o.state),
                parse: o.parse,
                rep: o.rep,
                layout: win,
            }
        },
        MatcherView::Opt(s) => {
            let (o, after) = opt_block_outcome(
                data,
                ldm,
                start,
                end,
                s,
                rep,
                win,
                ext,
                if dict is Some && dict->0.tables is Opt {
                    Some((dict->0.tables->Opt_0, dict->0.content_len))
                } else {
                    None
                },
                LdmCursor { pos: 0, pos_in_sequence: 0 },
                e,
            );
            Parsed {
                matcher: MatcherView::Opt(o.state),
                parse: o.parse,
                rep: o.rep,
                layout: after,
            }
        },
    }
}

// ---------------------------------------------------------------------------
// Frames.

/// A frame being compressed.
pub struct FrameView {
    pub cparams: CParams,
    pub matcher: MatcherView,
    pub rep: Seq<u32>,
    pub entropy: EntropyView,
    pub first: bool,
    pub consumed: u64,
    pub produced: u64,
    pub block_size_max: usize,
    /// No match reaches further back than this.
    pub reach: nat,
    pub pledged: Option<u64>,
    pub checksum: bool,
    pub stage: Stage,
    pub raw_literals: bool,
    pub split_blocks: bool,
    pub window: Window,
    pub ldm: Option<LdmTables>,
    pub preloaded: bool,
    pub dict_id: u32,
    pub dict: Option<AttachedDict>,
}

/// The window size of a frame: no larger than its content, and never zero.
pub open spec fn spec_window_size(window_log: u32, pledged: Option<u64>) -> nat {
    let full = pow2(window_log as nat);
    match pledged {
        None => full,
        Some(n) => if n == 0 {
            1
        } else if (n as nat) < full {
            n as nat
        } else {
            full
        },
    }
}

/// The largest block that is made.
pub open spec fn spec_block_size_max(window_log: u32, pledged: Option<u64>) -> nat {
    let w = spec_window_size(window_log, pledged);
    if w < 131072 {
        w
    } else {
        131072
    }
}

/// The window of an empty frame.
pub open spec fn fresh_window() -> Window {
    Window {
        seg_bias: 2,
        dict_bias: 2,
        low_limit: 2,
        dict_limit: 2,
        next_src_pos: 0,
        next_src_idx: 2,
    }
}

/// Long-distance matching goes with the strongest strategies, once the window
/// is very large.
pub open spec fn auto_ldm(cparams: CParams) -> Option<LdmParams> {
    if cparams.strategy.spec_num() >= 7 && cparams.window_log >= 27 {
        Some(
            LdmParams {
                hash_log: (cparams.window_log - 7) as u32,
                bucket_size_log: 3,
                hash_rate_log: 7,
                window_log: cparams.window_log,
            },
        )
    } else {
        None
    }
}

/// A frame at its start.
#[verifier::opaque]
pub open spec fn fresh_frame(cparams: CParams, pledged: Option<u64>, checksum: bool, rep: Seq<u32>) -> FrameView {
    FrameView {
        cparams,
        matcher: fresh_matcher(cparams),
        rep,
        entropy: fresh_entropy(),
        first: true,
        consumed: 0,
        produced: 0,
        block_size_max: spec_block_size_max(cparams.window_log, pledged) as usize,
        reach: pow2(cparams.window_log as nat),
        pledged,
        checksum,
        stage: Stage::Init,
        raw_literals: cparams.target_length > 0 && cparams.strategy is Fast,
        split_blocks: cparams.window_log >= 17 && cparams.strategy.spec_num() >= 7,
        window: fresh_window(),
        ldm: match auto_ldm(cparams) {
            Some(p) => Some(fresh_ldm(p)),
            None => None,
        },
        preloaded: false,
        dict_id: 0,
        dict: None,
    }
}

impl FrameView {
    /// The window is laid out for the first chunk, whose first position has the
    /// index `first`.
    pub open spec fn laid_out(self, window: Window, first: u32) -> FrameView {
        FrameView {
            window,
            preloaded: true,
            matcher: self.matcher.resumed(first),
            ..self
        }
    }

    /// The prefix `buf[.. len]` is loaded as an external segment before the
    /// chunk that is the rest of `buf`.
    pub open spec fn raw_prefix_primed(self, buf: Seq<u8>, len: int) -> FrameView {
        let window = Window {
            seg_bias: 2,
            dict_bias: 2,
            low_limit: 2,
            dict_limit: (2 + len) as u32,
            next_src_pos: buf.len() as usize,
            next_src_idx: (2 + buf.len()) as u32,
        };
        FrameView { matcher: self.matcher.prefix_entered(buf, len), ..self }.laid_out(
            window,
            window.dict_limit,
        )
    }

    /// The prefix `buf[.. len]` is loaded as the start of the segment that the
    /// first chunk, up to `chunk_end`, continues.
    pub open spec fn contiguous_prefix_primed(self, buf: Seq<u8>, len: int, chunk_end: int) -> FrameView {
        let window = Window {
            seg_bias: 2,
            dict_bias: 2,
            low_limit: 2,
            dict_limit: 2,
            next_src_pos: chunk_end as usize,
            next_src_idx: (2 + chunk_end) as u32,
        };
        FrameView { matcher: self.matcher.prefix_entered(buf, len), ..self }.laid_out(
            window,
            (2 + len) as u32,
        )
    }

    /// The window is taken over to the chunk `start .. end`.
    pub open spec fn chunk_entered(self, start: nat, end: nat) -> FrameView {
        let ldm = match self.ldm {
            Some(t) => Some(LdmTables { window: spec_update(t.window, start, end), ..t }),
            None => None,
        };
        if self.preloaded {
            FrameView { preloaded: false, ldm, ..self }
        } else {
            let window = spec_update(self.window, start, end);
            FrameView {
                window,
                matcher: if start == end || start == self.window.next_src_pos {
                    self.matcher
                } else {
                    self.matcher.resumed(window.dict_limit)
                },
                ldm,
                ..self
            }
        }
    }

    /// The window is brought to a block: the indices are recycled when they run
    /// out, and what is out of reach is given up.
    pub open spec fn slid(self, pos: nat, block_end: nat) -> FrameView {
        let max_dist = pow2(self.cparams.window_log as nat) as u32;
        let (w, m) = if index_of(block_end, self.window.seg_bias) > CURRENT_MAX {
            let c = spec_correction(
                self.window,
                spec_cycle_log(self.cparams.chain_log as int, self.cparams.strategy) as u32,
                max_dist,
                pos,
            );
            (spec_corrected(self.window, c), self.matcher.indices_reduced(c))
        } else {
            (self.window, self.matcher)
        };
        let window = spec_enforced(w, index_of(pos, w.seg_bias), max_dist);
        FrameView { window, matcher: m.resumed_no_lower(window.low_limit), ..self }
    }

    /// How much of `data[pos .. end]` the next block takes: a full block is
    /// split where its content changes, once enough has been saved.
    pub open spec fn next_size(self, data: Seq<u8>, pos: int, end: int, savings: i64) -> int {
        let remaining = end - pos;
        if remaining < 131072 || self.block_size_max < 131072 {
            if remaining < self.block_size_max {
                remaining
            } else {
                self.block_size_max as int
            }
        } else if savings < 3 {
            131072
        } else {
            spec_split(
                data.subrange(pos, pos + 131072),
                match self.cparams.strategy {
                    Strategy::Fast => 0,
                    Strategy::Dfast => 1,
                    Strategy::Greedy => 2,
                    Strategy::Lazy => 2,
                    Strategy::Lazy2 => 3,
                    Strategy::Btlazy2 => 3,
                    _ => 4,
                },
            ) as int
        }
    }
}

impl FrameView {
    /// The history that the match finder sees before position `pos`.
    pub open spec fn past(self, data: Seq<u8>, pos: int) -> Seq<u8> {
        past_of(self.window, self.dict is Some, data, pos)
    }

    /// That history, followed by the block `data[pos .. end]`.
    pub open spec fn laid(self, data: Seq<u8>, pos: int, end: int) -> Seq<u8> {
        self.past(data, pos) + data.subrange(pos, end)
    }

    /// The window over that buffer.
    pub open spec fn layout(self) -> Layout {
        if self.dict is Some {
            Layout {
                bias: self.window.seg_bias,
                low_limit: self.window.low_limit,
                dict_limit: self.window.dict_limit,
            }
        } else {
            self.window.spec_layout()
        }
    }

    /// The bytes that the match finder sees before `pos` are those that a
    /// decoder with the history `hist` has last, and the indices of the next
    /// block of `data[pos .. end]` do not wrap around.
    pub open spec fn goes_on(self, data: Seq<u8>, pos: int, end: int, hist: Seq<u8>) -> bool {
        history_goes_on(self.window, self.dict is Some, data, pos, end, hist)
    }
}

/// The history that a match finder sees before position `pos`: what the window
/// shows, or, with an attached dictionary, all that is in front of it.
pub open spec fn past_of(w: Window, attached: bool, data: Seq<u8>, pos: int) -> Seq<u8> {
    if attached {
        data.take(pos)
    } else {
        w.shown(data, pos as nat)
    }
}

#[verifier::opaque]
pub open spec fn history_goes_on(
    w: Window,
    attached: bool,
    data: Seq<u8>,
    pos: int,
    end: int,
    hist: Seq<u8>,
) -> bool {
    &&& attached || {
        &&& w.fits(data.len(), pos as nat)
        &&& index_of(pos as nat, w.seg_bias) + (if end - pos < 131072 {
            end - pos
        } else {
            131072
        }) <= u32::MAX
    }
    &&& ends_with(hist, past_of(w, attached, data, pos))
}

/// The long-distance matches of the block `data[pos .. end]`, and the state of
/// their finder after it. None are used if there are too many.
pub open spec fn far_found(f: FrameView, data: Seq<u8>, pos: int, end: int) -> (
    Option<LdmTables>,
    Seq<RawSeq>,
) {
    match f.ldm {
        Some(t) => {
            let (t1, found) = ldm_generated(t, (f.block_size_max / 64) as nat, data, pos, end);
            (
                Some(t1),
                match found {
                    Some(q) => q,
                    None => Seq::empty(),
                },
            )
        },
        None => (None, Seq::empty()),
    }
}

/// The block at `at` of the buffer `laid`, which ends with it, made: its bytes,
/// and the frame after it. The block begins at `pos` of the caller's buffer,
/// and `far` are its long-distance matches.
#[verifier::opaque]
pub open spec fn laid_made(
    f: FrameView,
    laid: Seq<u8>,
    at: int,
    pos: nat,
    far: Seq<RawSeq>,
    last: bool,
) -> (FrameView, Seq<u8>) {
    let end = laid.len() as int;
    let p = block_parsed(
        f.matcher.update_limited(index_of(pos, f.window.seg_bias)),
        laid,
        at,
        end,
        f.rep,
        f.layout(),
        f.dict,
        far,
        f.entropy,
    );
    let g = FrameView {
        matcher: p.matcher,
        window: f.window.spec_followed(f.layout(), p.layout),
        first: false,
        ..f
    };
    let triples = p.parse.triples;
    let literals = block_literals(laid, at, end, triples);
    let strategy = f.cparams.strategy.spec_num() as int;
    if f.split_blocks {
        let w = block_split(
            laid,
            at,
            end,
            triples,
            literals,
            f.entropy,
            f.rep,
            p.rep,
            strategy,
            last,
            f.first,
            f.reach,
        );
        (FrameView { entropy: w.entropy, rep: w.rep, ..g }, w.bytes)
    } else {
        let w = spec_block(
            laid.subrange(at, end),
            triples,
            literals,
            f.entropy,
            strategy,
            f.raw_literals,
            last,
            f.first,
            f.reach,
        );
        (
            FrameView {
                entropy: offsets_settled(w.entropy),
                rep: if w.kind == BlockKind::Compressed {
                    p.rep
                } else {
                    f.rep
                },
                ..g
            },
            w.bytes,
        )
    }
}

/// The block `data[pos .. end]` made: its bytes, and the frame after it.
#[verifier::opaque]
pub open spec fn block_made(f: FrameView, data: Seq<u8>, pos: int, end: int, last: bool) -> (
    FrameView,
    Seq<u8>,
) {
    if end - pos < 7 {
        let block = data.subrange(pos, end);
        (
            FrameView { entropy: offsets_settled(f.entropy), first: false, ..f },
            block_header_bytes(last, 0, block.len()) + block,
        )
    } else {
        let (ldm, far) = far_found(f, data, pos, end);
        let laid = f.laid(data, pos, end);
        laid_made(
            FrameView { ldm, ..f },
            laid,
            laid.len() - (end - pos),
            pos as nat,
            far,
            last,
        )
    }
}

/// The blocks of `data[pos .. end]` made, after those in `bytes`.
#[verifier::opaque]
pub open spec fn blocks_made(
    f: FrameView,
    data: Seq<u8>,
    pos: int,
    end: int,
    last: bool,
    savings: i64,
    bytes: Seq<u8>,
) -> (FrameView, Seq<u8>)
    decreases end - pos,
{
    if pos < end {
        let size = f.next_size(data, pos, end, savings);
        let next = pos + size;
        let (f1, more) = block_made(
            f.slid(pos as nat, next as nat),
            data,
            pos,
            next,
            last && next == end,
        );
        if pos < next <= end {
            blocks_made(
                f1,
                data,
                next,
                end,
                last,
                savings.wrapping_add(size as i64).wrapping_sub(more.len() as i64),
                bytes + more,
            )
        } else {
            (f1, bytes + more)
        }
    } else {
        (f, bytes)
    }
}

/// The bytes in front of the next block: those of the header, if it has not
/// been written.
pub open spec fn head_of(f: FrameView) -> Seq<u8> {
    if f.stage == Stage::Init {
        le_bytes(ZSTD_MAGIC as nat, 4) + header_fields(
            f.cparams.window_log,
            f.pledged,
            f.checksum,
            f.dict_id,
        )
    } else {
        Seq::empty()
    }
}

/// The chunk `data[start .. end]` made into blocks, and the frame after it.
#[verifier::opaque]
pub open spec fn chunk_made(f: FrameView, data: Seq<u8>, start: int, end: int, last: bool) -> (
    FrameView,
    Seq<u8>,
) {
    if start == end {
        (
            FrameView {
                stage: Stage::Ongoing,
                produced: f.produced.wrapping_add(head_of(f).len() as u64),
                ..f
            },
            Seq::empty(),
        )
    } else {
        let f1 = FrameView {
            stage: Stage::Ongoing,
            consumed: (f.consumed + (end - start)) as u64,
            ..f.chunk_entered(start as nat, end as nat)
        };
        let (f2, bytes) = blocks_made(
            f1,
            data,
            start,
            end,
            last,
            (f.consumed as i64).wrapping_sub(f.produced as i64),
            Seq::empty(),
        );
        (
            FrameView {
                stage: if last {
                    Stage::Ending
                } else {
                    Stage::Ongoing
                },
                produced: f2.produced.wrapping_add((head_of(f).len() + bytes.len()) as u64),
                ..f2
            },
            bytes,
        )
    }
}

/// The blocks of the last chunk `data[start .. end]`; without any, an empty
/// one ends the frame.
#[verifier::opaque]
pub open spec fn last_chunk_made(f: FrameView, data: Seq<u8>, start: int, end: int) -> Seq<u8> {
    let (f1, bytes) = chunk_made(f, data, start, end, true);
    if f1.stage != Stage::Ending {
        bytes + block_header_bytes(true, 0, 0)
    } else {
        bytes
    }
}

} // verus!
