//! Frames: header, blocks, checksum.

use crate::block::{fresh_ctx, CtxView, RepView};
use crate::block_encode_model::offsets_ready;
use crate::blocks_encode::{write_block, write_raw_block, BlockKind};
use crate::compress::lemma_fresh_near;
use crate::compress_model::first_offsets;
use crate::cparams::{cycle_log, get_cparams, spec_cycle_log, CParams, Strategy, CONTENTSIZE_UNKNOWN};
use crate::decompress::checksum32;
use crate::dfast::{
    compress_block_dfast, compress_block_dfast_dict_match_state, compress_block_dfast_extdict,
    fill_dfast_hash_tables_for_cctx, DfastCtx, DfastDict,
};
use crate::dfast_model::{Logs, Tables};
use crate::error::Error;
use crate::fast::{
    compress_block_fast, compress_block_fast_dict_match_state, compress_block_fast_extdict,
    fill_fast_hash_table_for_cctx, FastCtx,
};
use crate::frame_encode::{
    are_blocks, block_header_bytes, is_block, le_bytes, lemma_more_blocks, lemma_no_blocks, lemma_one_block,
    lemma_raw_block, push_block_header, push_le, write_frame_header,
};
use crate::frame_model::{
    block_made, block_parsed, blocks_made, chunk_made, far_found, fresh_frame, fresh_matcher, fresh_window, head_of,
    history_goes_on, laid_made, last_chunk_made, spec_block_size_max, spec_window_size, AttachedDict, AttachedTables,
    FrameView, MatcherView, Parsed,
};
use crate::layout::{
    lemma_advanced, lemma_continued, lemma_corrected, lemma_enforced, lemma_followed, lemma_shown_parts, slid_layout,
    Layout,
};
use crate::lazy::{compress_block_lazy, compress_block_lazy_dict_match_state, compress_block_lazy_extdict};
use crate::lazy_search::LazyCtx;
use crate::ldm::{generate_sequences, LdmParams, LdmState, RawSeq};
use crate::ldm_model::LdmTables;
use crate::math::pow2_u64;
use crate::opt::compress_block_opt;
use crate::opt_matches::{LdmCursor, OptCtx, OptDms};
use crate::opt_model::opt_block_outcome;
use crate::parser::{block_literals, borne_out, ends_with, index_of, known, stands_for, to_index, Parser};
use crate::post_split::{block_splitter_enabled, compress_block_split, lemma_ends_further, settle_offsets};
use crate::post_split_model::offsets_settled;
use crate::pre_split::split_block;
use crate::recent::in_sync;
use crate::seq_store::{lit_total, near_offsets, triple_total, SeqStore};
use crate::sequences_encode::FseEntropyState;
use crate::window::{spec_corrected, spec_correction, Window, CURRENT_MAX, WINDOW_START_INDEX};
use crate::xxhash::Xxh64;
use vstd::arithmetic::power2::{lemma2_to64, lemma_pow2_pos, lemma_pow2_strictly_increases, pow2};
use vstd::prelude::*;
use vstd::slice::slice_subrange;

verus! {

/// The largest block.
pub const BLOCK_SIZE_MAX: usize = 131072;

/// A prefix must be longer than this for its positions to be entered.
pub const HASH_READ_SIZE: usize = 8;

/// Blocks smaller than this are stored raw without a try.
pub const MIN_BLOCK_TO_TRY: usize = 7;

// ---------------------------------------------------------------------------
// Match finders.

/// The match finder in use.
pub enum Matcher {
    Fast(FastCtx),
    Dfast(DfastCtx),
    Lazy(LazyCtx),
    Opt(OptCtx),
}

/// A dictionary's own tables, of an attached dictionary.
pub enum DictTables {
    Fast { hash_table: Vec<u32>, hlog: u32 },
    Dfast { hash_long: Vec<u32>, hash_small: Vec<u32>, hlog_l: u32, hlog_s: u32 },
    Lazy(LazyCtx),
    Opt(OptCtx),
}

/// An attached dictionary: its tables, and the length of its content, which
/// stands at the start of the data.
pub struct DictMatchState {
    pub tables: DictTables,
    pub content_len: usize,
}

impl DictMatchState {
    pub open spec fn view(&self) -> AttachedDict {
        AttachedDict {
            tables: match self.tables {
                DictTables::Fast { hash_table, hlog } => AttachedTables::Fast {
                    table: hash_table@,
                    hlog,
                },
                DictTables::Dfast { hash_long, hash_small, hlog_l, hlog_s } => AttachedTables::Dfast {
                    tables: Tables { long: hash_long@, small: hash_small@ },
                    logs: Logs { long: hlog_l, small: hlog_s, mls: 0 },
                },
                DictTables::Lazy(ms) => AttachedTables::Lazy(ms@),
                DictTables::Opt(ms) => AttachedTables::Opt(ms@),
            },
            content_len: self.content_len as int,
        }
    }

    pub open spec fn wf(&self) -> bool {
        match self.tables {
            DictTables::Fast { hash_table, hlog } => 6 <= hlog <= 24 && hash_table@.len() == pow2(
                hlog as nat,
            ),
            DictTables::Dfast { hash_long, hash_small, hlog_l, hlog_s } => {
                &&& 6 <= hlog_l <= 24
                &&& 6 <= hlog_s <= 24
                &&& hash_long@.len() == pow2(hlog_l as nat)
                &&& hash_small@.len() == pow2(hlog_s as nat)
            },
            DictTables::Lazy(ms) => ms.wf(),
            DictTables::Opt(ms) => ms.wf(),
        }
    }
}

pub open spec fn attached_view(d: Option<DictMatchState>) -> Option<AttachedDict> {
    match d {
        Some(x) => Some(x@),
        None => None,
    }
}

pub open spec fn ldm_view(l: Option<LdmState>) -> Option<LdmTables> {
    match l {
        Some(x) => Some(x@),
        None => None,
    }
}

/// What a match finder is told of the recent offsets is true.
pub open spec fn rep_sync(is_opt: bool, rep: Seq<u32>, v: RepView) -> bool {
    if is_opt {
        known(rep, v)
    } else {
        in_sync(rep, v)
    }
}

impl Matcher {
    pub open spec fn view(&self) -> MatcherView {
        match self {
            Matcher::Fast(ctx) => MatcherView::Fast { setup: ctx.setup(), table: ctx.hash_table@ },
            Matcher::Dfast(ctx) => MatcherView::Dfast {
                logs: ctx.logs(),
                window_log: ctx.window_log,
                tables: ctx.tables(),
            },
            Matcher::Lazy(ctx) => MatcherView::Lazy(ctx@),
            Matcher::Opt(ctx) => MatcherView::Opt(ctx@),
        }
    }

    pub open spec fn wf(&self) -> bool {
        match self {
            Matcher::Fast(ctx) => ctx.wf(),
            Matcher::Dfast(ctx) => ctx.wf(),
            Matcher::Lazy(ctx) => ctx.wf(),
            Matcher::Opt(ctx) => ctx.wf(),
        }
    }

    /// Whether matches are chosen by their prices.
    pub open spec fn is_opt(&self) -> bool {
        self is Opt
    }

    /// The match finder of a strategy.
    pub fn new(cparams: &CParams) -> (r: Self)
        requires
            cparams.wf(),
        ensures
            r.wf(),
            r.is_opt() <==> cparams.strategy.spec_num() >= 7,
            r is Fast <==> cparams.strategy is Fast,
            r is Dfast <==> cparams.strategy is Dfast,
            r@ == fresh_matcher(*cparams),
    {
        match cparams.strategy {
            Strategy::Fast => Matcher::Fast(FastCtx::new(cparams)),
            Strategy::Dfast => Matcher::Dfast(DfastCtx::new(cparams)),
            Strategy::Greedy | Strategy::Lazy | Strategy::Lazy2 | Strategy::Btlazy2 => {
                Matcher::Lazy(LazyCtx::new(cparams))
            },
            _ => Matcher::Opt(OptCtx::new(cparams)),
        }
    }

    /// Goes on entering positions from index `idx`, where positions are
    /// entered in order.
    pub fn resume_at(&mut self, idx: u32)
        requires
            old(self).wf(),
        ensures
            final(self).wf(),
            final(self).is_opt() == old(self).is_opt(),
            final(self)@ == old(self)@.resumed(idx),
    {
        match self {
            Matcher::Lazy(ctx) => {
                ctx.next_to_update = idx;
            },
            Matcher::Opt(ctx) => {
                ctx.next_to_update = idx;
            },
            _ => {},
        }
    }

    /// Enters nothing below index `low` any more.
    fn resume_no_lower(&mut self, low: u32)
        requires
            old(self).wf(),
        ensures
            final(self).wf(),
            final(self).is_opt() == old(self).is_opt(),
            final(self)@ == old(self)@.resumed_no_lower(low),
    {
        match self {
            Matcher::Lazy(ctx) => {
                if ctx.next_to_update < low {
                    ctx.next_to_update = low;
                }
            },
            Matcher::Opt(ctx) => {
                if ctx.next_to_update < low {
                    ctx.next_to_update = low;
                }
            },
            _ => {},
        }
    }

    /// After a very long match, skips most of what has not been entered.
    fn limit_update(&mut self, curr: u32)
        requires
            old(self).wf(),
        ensures
            final(self).wf(),
            final(self).is_opt() == old(self).is_opt(),
            final(self)@ == old(self)@.update_limited(curr),
    {
        match self {
            Matcher::Lazy(ctx) => {
                ctx.limit_update(curr);
            },
            Matcher::Opt(ctx) => {
                ctx.limit_update(curr);
            },
            _ => {},
        }
    }

    /// Takes `correction` off every index.
    fn reduce_indices(&mut self, correction: u32)
        requires
            old(self).wf(),
        ensures
            final(self).wf(),
            final(self).is_opt() == old(self).is_opt(),
            final(self)@ == old(self)@.indices_reduced(correction),
    {
        match self {
            Matcher::Fast(ctx) => {
                ctx.reduce_indices(correction);
            },
            Matcher::Dfast(ctx) => {
                ctx.reduce_indices(correction);
            },
            Matcher::Lazy(ctx) => {
                ctx.reduce_indices(correction);
            },
            Matcher::Opt(ctx) => {
                ctx.reduce_indices(correction);
            },
        }
    }

    /// Parses a block into sequences: with an attached dictionary, with an
    /// external segment, or with the current segment alone.
    #[verifier::rlimit(60)]
    fn parse(
        &mut self,
        p: &mut Parser,
        rep: &mut [u32; 3],
        win: &mut Layout,
        dms: &Option<DictMatchState>,
        ldm_seqs: &Vec<RawSeq>,
        entropy: &FseEntropyState,
    )
        requires
            old(self).wf(),
            old(p).wf(),
            old(p).anchor == old(p).start,
            rep_sync(old(self).is_opt(), old(rep)@, old(p).rep@),
            dms matches Some(d) ==> d.wf(),
            entropy.wf(),
        ensures
            final(self).wf(),
            final(self).is_opt() == old(self).is_opt(),
            final(p).wf(),
            final(p).same_block(old(p)),
            rep_sync(old(self).is_opt(), final(rep)@, final(p).rep@),
            old(self).is_opt() ==> final(p).bears(old(rep)@, final(rep)@),
            dms is Some || *final(win) == *old(win) || {
                &&& old(win).low_limit == old(win).dict_limit
                &&& index_of(old(p).start as nat, old(win).bias) == old(win).dict_limit
                &&& *final(win) == slid_layout(*old(win), (old(p).end - old(p).start) as nat)
            },
            (Parsed {
                matcher: final(self)@,
                parse: final(p).parse(),
                rep: final(rep)@,
                layout: *final(win),
            }) == block_parsed(
                old(self)@,
                old(p).data@,
                old(p).start as int,
                old(p).end as int,
                old(rep)@,
                *old(win),
                attached_view(*dms),
                ldm_seqs@,
                entropy@,
            ),
    {
        proof {
            reveal(block_parsed);
            reveal(opt_block_outcome);
        }
        match self {
            Matcher::Fast(ctx) => {
                if let Some(d) = dms {
                    if let DictTables::Fast { hash_table, hlog } = &d.tables {
                        if d.content_len <= p.start {
                            compress_block_fast_dict_match_state(
                                ctx,
                                p,
                                rep,
                                d.content_len,
                                hash_table,
                                *hlog,
                            );
                            return ;
                        }
                    }
                }
                if win.has_ext_dict() {
                    compress_block_fast_extdict(ctx, p, rep, win);
                } else {
                    compress_block_fast(ctx, p, rep, win.bias, win.dict_limit);
                }
            },
            Matcher::Dfast(ctx) => {
                if let Some(d) = dms {
                    if let DictTables::Dfast { hash_long, hash_small, hlog_l, hlog_s } = &d.tables {
                        if d.content_len <= p.start {
                            let tables = DfastDict {
                                hash_long,
                                hash_small,
                                hlog_l: *hlog_l,
                                hlog_s: *hlog_s,
                            };
                            compress_block_dfast_dict_match_state(
                                ctx,
                                p,
                                rep,
                                d.content_len,
                                &tables,
                            );
                            return ;
                        }
                    }
                }
                if win.has_ext_dict() {
                    compress_block_dfast_extdict(ctx, p, rep, win);
                } else {
                    compress_block_dfast(ctx, p, rep, win.bias, win.dict_limit);
                }
            },
            Matcher::Lazy(ctx) => {
                if let Some(d) = dms {
                    if let DictTables::Lazy(ms) = &d.tables {
                        compress_block_lazy_dict_match_state(ctx, p, rep, win, ms, d.content_len);
                        return ;
                    }
                }
                if win.has_ext_dict() {
                    compress_block_lazy_extdict(ctx, p, rep, win);
                } else {
                    compress_block_lazy(ctx, p, rep, win);
                }
            },
            Matcher::Opt(ctx) => {
                let ext_dict: bool = win.has_ext_dict();
                if let Some(d) = dms {
                    if let DictTables::Opt(ms) = &d.tables {
                        let attached = OptDms { ms, content_len: d.content_len };
                        compress_block_opt(
                            ctx,
                            p,
                            rep,
                            win,
                            ext_dict,
                            ldm_seqs,
                            LdmCursor::start(),
                            entropy,
                            Some(&attached),
                        );
                        return ;
                    }
                }
                compress_block_opt(
                    ctx,
                    p,
                    rep,
                    win,
                    ext_dict,
                    ldm_seqs,
                    LdmCursor::start(),
                    entropy,
                    None,
                );
            },
        }
    }
}

// ---------------------------------------------------------------------------
// Frames.

/// How far a frame has come.
#[derive(Clone, Copy, PartialEq, Eq, Debug, Structural)]
pub enum Stage {
    /// The header has not been written.
    Init,
    /// No block has been marked as the last.
    Ongoing,
    /// The last block has been written.
    Ending,
}

/// A frame being compressed. The ghost fields hold the context and history of
/// a decoder that has read what has been written, and the largest block that
/// it accepts.
pub struct FrameCompressor {
    pub cparams: CParams,
    pub matcher: Matcher,
    pub rep: [u32; 3],
    pub entropy: FseEntropyState,
    pub is_first_block: bool,
    pub consumed: u64,
    pub produced: u64,
    pub window_size: u64,
    pub block_size_max: usize,
    /// No match reaches further back than this.
    pub reach: u64,
    pub pledged: Option<u64>,
    pub checksum: bool,
    pub xxh: Xxh64,
    pub stage: Stage,
    pub disable_literal_compression: bool,
    /// Blocks are split after their sequences are known.
    pub split_blocks: bool,
    pub window: Window,
    pub ldm: Option<LdmState>,
    /// The window has been laid out for the first chunk already.
    pub window_preloaded: bool,
    pub dict_id: u32,
    pub dict_match_state: Option<DictMatchState>,
    pub ctx: Ghost<CtxView>,
    pub hist: Ghost<Seq<u8>>,
    pub decoder_max: Ghost<nat>,
}

impl FrameCompressor {
    pub open spec fn view(&self) -> FrameView {
        FrameView {
            cparams: self.cparams,
            matcher: self.matcher@,
            rep: self.rep@,
            entropy: self.entropy@,
            first: self.is_first_block,
            consumed: self.consumed,
            produced: self.produced,
            block_size_max: self.block_size_max,
            reach: self.reach as nat,
            pledged: self.pledged,
            checksum: self.checksum,
            stage: self.stage,
            raw_literals: self.disable_literal_compression,
            split_blocks: self.split_blocks,
            window: self.window,
            ldm: ldm_view(self.ldm),
            preloaded: self.window_preloaded,
            dict_id: self.dict_id,
            dict: attached_view(self.dict_match_state),
        }
    }

    pub open spec fn wf(&self) -> bool {
        &&& self.cparams.wf()
        &&& self.matcher.wf()
        &&& self.matcher.is_opt() <==> self.cparams.strategy.spec_num() >= 7
        &&& self.split_blocks ==> self.matcher.is_opt()
        &&& rep_sync(self.matcher.is_opt(), self.rep@, self.ctx@.rep)
        &&& self.entropy.wf()
        &&& self.entropy.in_step(self.ctx@)
        &&& offsets_ready(self.entropy@, self.hist@.len(), self.cparams.strategy.spec_num() as int)
        &&& near_offsets(self.ctx@.rep, self.reach as nat)
        &&& self.reach <= 0x1_0000_0000
        &&& self.block_size_max == spec_block_size_max(self.cparams.window_log, self.pledged)
        &&& self.window_size == spec_window_size(self.cparams.window_log, self.pledged)
        &&& self.ldm matches Some(l) ==> l.wf()
        &&& self.dict_match_state matches Some(d) ==> d.wf()
        &&& self.xxh.wf()
        &&& self.xxh.spec_seed() == 0
        &&& self.xxh.bytes().len() <= self.consumed
    }

    /// What stays the same while a frame is written.
    pub open spec fn same_frame(&self, other: &Self) -> bool {
        &&& self.cparams == other.cparams
        &&& self.pledged == other.pledged
        &&& self.checksum == other.checksum
        &&& self.dict_id == other.dict_id
        &&& self.reach == other.reach
        &&& self.decoder_max == other.decoder_max
    }

    /// A frame at `level`, with the size of its content if that is known.
    pub fn new(level: i32, pledged: Option<u64>, checksum: bool) -> (r: Self)
        ensures
            r.wf(),
            r@ == fresh_frame(r.cparams, pledged, checksum, first_offsets()),
            r.reach == pow2(r.cparams.window_log as nat),
            r.pledged == pledged,
            r.checksum == checksum,
            r.dict_id == 0,
            r.stage == Stage::Init,
            r.consumed == 0,
            r.xxh.bytes() == Seq::<u8>::empty(),
            r.ctx@ == fresh_ctx(),
            r.hist@ == Seq::<u8>::empty(),
            r.decoder_max@ == r.block_size_max,
            starts_anywhere(r@, Seq::empty()),
            r.cparams == crate::cparams::spec_cparams(
                level as int,
                match pledged {
                    Some(n) => n as nat,
                    None => CONTENTSIZE_UNKNOWN as nat,
                },
                0,
                crate::cparams::CParamMode::NoAttachDict,
            ),
    {
        let size: u64 = match pledged {
            Some(n) => n,
            None => CONTENTSIZE_UNKNOWN,
        };
        let cparams = get_cparams(level, size, 0);
        let rep: [u32; 3] = [1, 4, 8];
        proof {
            lemma_fresh_near(cparams.window_log);
            assert(rep@ =~= first_offsets());
        }
        Self::from_cparams(
            cparams,
            pledged,
            checksum,
            rep,
            Ghost(fresh_ctx()),
            Ghost(Seq::empty()),
            Ghost(spec_block_size_max(cparams.window_log, pledged)),
        )
    }

    /// A frame with given parameters. `rep` is what is known of the recent
    /// offsets of a decoder in the context `ctx`.
    #[verifier::rlimit(30)]
    pub fn from_cparams(
        cparams: CParams,
        pledged: Option<u64>,
        checksum: bool,
        rep: [u32; 3],
        ctx: Ghost<CtxView>,
        hist: Ghost<Seq<u8>>,
        decoder_max: Ghost<nat>,
    ) -> (r: Self)
        requires
            cparams.wf(),
            known(rep@, ctx@.rep),
            rep@[0] == 0 ==> rep@[1] == 0,
            near_offsets(ctx@.rep, pow2(cparams.window_log as nat)),
        ensures
            r.wf(),
            r.reach == pow2(cparams.window_log as nat),
            r.cparams == cparams,
            r.pledged == pledged,
            r.checksum == checksum,
            r.dict_id == 0,
            r.stage == Stage::Init,
            r.consumed == 0,
            r.xxh.bytes() == Seq::<u8>::empty(),
            r.ctx == ctx,
            r.hist == hist,
            r.decoder_max == decoder_max,
            r.ldm is Some <==> cparams.strategy.spec_num() >= 7 && cparams.window_log >= 27,
            r@ == fresh_frame(cparams, pledged, checksum, rep@),
            starts_anywhere(r@, hist@),
    {
        proof {
            reveal(fresh_frame);
        }
        proof {
            lemma2_to64();
            lemma_pow2_strictly_increases(cparams.window_log as nat, 32);
        }
        let full: u64 = pow2_u64(cparams.window_log);
        let window_size: u64 = match pledged {
            None => full,
            Some(n) => if n == 0 {
                1
            } else if n < full {
                n
            } else {
                full
            },
        };
        let block_size_max: usize = if window_size < BLOCK_SIZE_MAX as u64 {
            window_size as usize
        } else {
            BLOCK_SIZE_MAX
        };
        let disable_literal_compression: bool = cparams.target_length > 0 && match cparams.strategy {
            Strategy::Fast => true,
            _ => false,
        };
        let ldm: Option<LdmState> = match LdmParams::auto(&cparams) {
            Some(l) => Some(LdmState::new(l)),
            None => None,
        };
        proof {
            lemma_starts(fresh_frame(cparams, pledged, checksum, rep@), hist@);
        }
        FrameCompressor {
            cparams,
            matcher: Matcher::new(&cparams),
            rep,
            entropy: FseEntropyState::new(),
            is_first_block: true,
            consumed: 0,
            produced: 0,
            window_size,
            block_size_max,
            reach: full,
            pledged,
            checksum,
            xxh: Xxh64::new(0),
            stage: Stage::Init,
            disable_literal_compression,
            split_blocks: block_splitter_enabled(&cparams),
            window: Window::new(),
            ldm,
            window_preloaded: false,
            dict_id: 0,
            dict_match_state: None,
            ctx,
            hist,
            decoder_max,
        }
    }

    /// Takes over the tables and recent offsets of a dictionary that a decoder
    /// starts with. Matches may reach all of it.
    pub fn start_with(
        &mut self,
        entropy: FseEntropyState,
        rep: [u32; 3],
        dict_id: u32,
        ctx: Ghost<CtxView>,
    )
        requires
            old(self).wf(),
            entropy.wf(),
            entropy.in_step(ctx@),
            offsets_ready(entropy@, old(self).hist@.len(), old(self).cparams.strategy.spec_num() as int),
            known(rep@, ctx@.rep),
            rep@[0] == 0 ==> rep@[1] == 0,
            near_offsets(ctx@.rep, 0x1_0000_0000),
        ensures
            final(self).wf(),
            *final(self) == (FrameCompressor {
                entropy,
                rep,
                dict_id,
                ctx,
                reach: 0x1_0000_0000,
                ..*old(self)
            }),
    {
        self.reach = 0x1_0000_0000;
        self.entropy = entropy;
        self.rep = rep;
        self.dict_id = dict_id;
        self.ctx = ctx;
    }

    /// Enters the positions of the prefix `buf[.. prefix_len]`, unless it is
    /// too short for that.
    fn enter_prefix(&mut self, buf: &[u8], prefix_len: usize)
        requires
            old(self).wf(),
            prefix_len <= buf@.len() <= u32::MAX,
        ensures
            final(self).wf(),
            *final(self) == (FrameCompressor { matcher: final(self).matcher, ..*old(self) }),
            final(self).matcher@ == old(self).matcher@.prefix_entered(buf@, prefix_len as int),
    {
        if prefix_len > HASH_READ_SIZE {
            match &mut self.matcher {
                Matcher::Fast(ctx) => {
                    fill_fast_hash_table_for_cctx(ctx, buf, prefix_len);
                },
                Matcher::Dfast(ctx) => {
                    fill_dfast_hash_tables_for_cctx(ctx, buf, prefix_len);
                },
                Matcher::Lazy(ctx) => {
                    ctx.load_dictionary(buf, prefix_len);
                },
                Matcher::Opt(ctx) => {
                    ctx.load_dictionary(buf, prefix_len);
                },
            }
        }
    }

    /// Lays the window out for the first chunk, whose first position has the
    /// index `first`.
    pub fn preload(&mut self, window: Window, first: u32)
        requires
            old(self).wf(),
        ensures
            final(self).wf(),
            *final(self) == (FrameCompressor {
                matcher: final(self).matcher,
                window,
                window_preloaded: true,
                ..*old(self)
            }),
            final(self)@ == old(self)@.laid_out(window, first),
    {
        self.window = window;
        self.window_preloaded = true;
        self.matcher.resume_at(first);
    }

    /// Loads the prefix `buf[.. prefix_len]` as an external segment before the
    /// chunk that is the rest of `buf`.
    pub fn prime_raw_prefix(&mut self, buf: &[u8], prefix_len: usize)
        requires
            old(self).wf(),
            prefix_len <= buf@.len() <= u32::MAX - 2,
        ensures
            final(self).wf(),
            *final(self) == (FrameCompressor {
                matcher: final(self).matcher,
                window: final(self).window,
                window_preloaded: true,
                ..*old(self)
            }),
            final(self)@ == old(self)@.raw_prefix_primed(buf@, prefix_len as int),
    {
        self.enter_prefix(buf, prefix_len);
        let window = Window::preloaded_ext_dict(prefix_len, buf.len() - prefix_len);
        self.preload(window, window.dict_limit);
    }

    /// Loads the prefix `buf[.. prefix_len]` as the start of the segment that
    /// the first chunk, up to `chunk_end`, continues.
    pub fn prime_contiguous_prefix(&mut self, buf: &[u8], prefix_len: usize, chunk_end: usize)
        requires
            old(self).wf(),
            prefix_len <= chunk_end <= buf@.len() <= u32::MAX - 2,
        ensures
            final(self).wf(),
            *final(self) == (FrameCompressor {
                matcher: final(self).matcher,
                window: final(self).window,
                window_preloaded: true,
                ..*old(self)
            }),
            final(self)@ == old(self)@.contiguous_prefix_primed(
                buf@,
                prefix_len as int,
                chunk_end as int,
            ),
    {
        self.enter_prefix(buf, prefix_len);
        let window = Window::preloaded_contiguous_prefix(chunk_end);
        self.preload(window, WINDOW_START_INDEX + prefix_len as u32);
    }

    /// Looks for the long-distance matches of the block `data[pos .. end]`.
    fn find_far(&mut self, data: &[u8], pos: usize, end: usize) -> (r: Vec<RawSeq>)
        requires
            old(self).wf(),
            pos <= end <= data@.len() <= u32::MAX,
        ensures
            final(self).wf(),
            *final(self) == (FrameCompressor { ldm: final(self).ldm, ..*old(self) }),
            (ldm_view(final(self).ldm), r@) == far_found(old(self)@, data@, pos as int, end as int),
    {
        let mut ldm_seqs: Vec<RawSeq> = Vec::new();
        assert(ldm_seqs@ =~= Seq::<RawSeq>::empty());
        if let Some(ldm) = &mut self.ldm {
            let capacity: usize = self.block_size_max / 64;
            match generate_sequences(ldm, capacity, data, pos, end) {
                Ok(seqs) => {
                    ldm_seqs = seqs;
                },
                Err(_) => {},
            }
        }
        ldm_seqs
    }

    /// The window over the buffer that the match finder searches.
    fn layout(&self) -> (r: Layout)
        ensures
            r == self@.layout(),
    {
        let bias: u32 = if self.dict_match_state.is_some() {
            self.window.seg_bias
        } else {
            self.window.low_limit
        };
        Layout { bias, low_limit: self.window.low_limit, dict_limit: self.window.dict_limit }
    }

    /// Looks for the matches of the block at `at` in the buffer `laid`, which
    /// ends with it. The block begins at `pos` of the caller's buffer. Gives
    /// what stands for it, and the recent offsets after it.
    #[verifier::rlimit(60)]
    fn search_block(&mut self, laid: &[u8], at: usize, pos: usize, ldm_seqs: &Vec<RawSeq>) -> (r: (
        SeqStore,
        [u32; 3],
        Ghost<RepView>,
    ))
        requires
            old(self).wf(),
            laid@.len() <= u32::MAX,
            at <= laid@.len(),
            pos <= u32::MAX,
            laid@.len() - at <= BLOCK_SIZE_MAX,
        ensures
            final(self).wf(),
            *final(self) == (FrameCompressor {
                matcher: final(self).matcher,
                window: final(self).window,
                ..*old(self)
            }),
            final(self).matcher.is_opt() == old(self).matcher.is_opt(),
            r.0.wf(),
            stands_for(&r.0, laid@, at as int, laid@.len() as int, old(self).ctx@.rep, r.2@),
            triple_total(r.0.triples()) + r.0.literals@.len() - lit_total(r.0.triples())
                == laid@.len() - at,
            rep_sync(old(self).matcher.is_opt(), r.1@, r.2@),
            old(self).matcher.is_opt() ==> borne_out(
                laid@,
                at as int,
                laid@.len() as int,
                r.0.triples(),
                old(self).rep@,
            ),
            r.0.literals@ == block_literals(laid@, at as int, laid@.len() as int, r.0.triples()),
            final(self).window.next_src_pos == old(self).window.next_src_pos,
            old(self).dict_match_state is Some || final(self).window == old(self).window || {
                &&& old(self).window.low_limit == old(self).window.dict_limit
                &&& index_of(at as nat, old(self)@.layout().bias) == old(self).window.dict_limit
                &&& final(self).window == old(self).window.spec_followed(
                    old(self).window.spec_layout(),
                    slid_layout(old(self).window.spec_layout(), (laid@.len() - at) as nat),
                )
            },
            ({
                let p = block_parsed(
                    old(self)@.matcher.update_limited(
                        index_of(pos as nat, old(self).window.seg_bias),
                    ),
                    laid@,
                    at as int,
                    laid@.len() as int,
                    old(self).rep@,
                    old(self)@.layout(),
                    old(self)@.dict,
                    ldm_seqs@,
                    old(self).entropy@,
                );
                &&& final(self).matcher@ == p.matcher
                &&& final(self).window == old(self).window.spec_followed(old(self)@.layout(), p.layout)
                &&& r.0.triples() == p.parse.triples
                &&& r.1@ == p.rep
            }),
    {
        let ghost ctx = self.ctx@;
        let end: usize = laid.len();
        let curr: u32 = to_index(pos, self.window.seg_bias);
        self.matcher.limit_update(curr);
        let mut next_rep: [u32; 3] = self.rep;
        let mut p = Parser::new(laid, at, end, Ghost(ctx.rep));
        let before: Layout = self.layout();
        let mut layout: Layout = before;
        self.matcher.parse(
            &mut p,
            &mut next_rep,
            &mut layout,
            &self.dict_match_state,
            ldm_seqs,
            &self.entropy,
        );
        self.window.follow(before, layout);
        let ghost rep1 = p.rep@;
        let store = p.finish();
        (store, next_rep, Ghost(rep1))
    }

    /// Writes the block `data[pos .. pos + size]`.
    #[verifier::rlimit(60)]
    fn compress_block(&mut self, out: &mut Vec<u8>, data: &[u8], pos: usize, size: usize, last: bool) -> (r:
        Ghost<Seq<u8>>)
        requires
            old(self).wf(),
            data@.len() <= u32::MAX,
            1 <= size <= BLOCK_SIZE_MAX,
            pos + size <= data@.len(),
            size <= old(self).decoder_max@,
            old(self)@.goes_on(data@, pos as int, pos + size, old(self).hist@),
            old(self)@.dict is None ==> index_of(pos as nat, old(self).window.seg_bias) + size
                <= CURRENT_MAX,
        ensures
            final(self).wf(),
            final(self).same_frame(old(self)),
            final(self).consumed == old(self).consumed,
            final(self).xxh == old(self).xxh,
            final(self).stage == old(self).stage,
            final(self).produced == old(self).produced,
            final(self).dict_match_state == old(self).dict_match_state,
            final(self).window_preloaded == old(self).window_preloaded,
            final(self).window.next_src_pos == old(self).window.next_src_pos,
            final(self).hist@ == old(self).hist@ + data@.subrange(pos as int, pos + size),
            final(self)@.goes_on(data@, pos + size, pos + size, final(self).hist@),
            final(self)@.dict is None ==> index_of((pos + size) as nat, final(self).window.seg_bias)
                <= CURRENT_MAX + 131072,
            final(out)@ == old(out)@ + r@,
            are_blocks(
                r@,
                last,
                old(self).ctx@,
                old(self).hist@,
                final(self).ctx@,
                final(self).hist@,
                old(self).decoder_max@,
                old(self).reach as nat,
            ),
            (final(self)@, r@) == block_made(
                old(self)@,
                data@,
                pos as int,
                pos + size,
                last,
            ),
    {
        let end: usize = pos + size;
        let ghost before = *self;
        let bytes = if size < MIN_BLOCK_TO_TRY {
            self.store_small(out, data, pos, end, last)
        } else {
            let ldm_seqs = self.find_far(data, pos, end);
            self.write_shown(out, data, pos, end, &ldm_seqs, last)
        };
        proof {
            reveal(block_made);
            lemma_block_passed(before@, self@, data@, pos as int, end as int, before.hist@);
        }
        bytes
    }

    /// Writes the block `data[pos .. end]` raw, without a try.
    fn store_small(&mut self, out: &mut Vec<u8>, data: &[u8], pos: usize, end: usize, last: bool) -> (r: Ghost<
        Seq<u8>,
    >)
        requires
            old(self).wf(),
            pos < end <= data@.len(),
            end - pos < MIN_BLOCK_TO_TRY,
            end - pos <= old(self).decoder_max@,
        ensures
            final(self).wf(),
            *final(self) == (FrameCompressor {
                entropy: final(self).entropy,
                is_first_block: false,
                hist: final(self).hist,
                ..*old(self)
            }),
            final(self).hist@ == old(self).hist@ + data@.subrange(pos as int, end as int),
            final(out)@ == old(out)@ + r@,
            are_blocks(
                r@,
                last,
                old(self).ctx@,
                old(self).hist@,
                final(self).ctx@,
                final(self).hist@,
                old(self).decoder_max@,
                old(self).reach as nat,
            ),
            final(self)@ == (FrameView {
                entropy: offsets_settled(old(self)@.entropy),
                first: false,
                ..old(self)@
            }),
            r@ == block_header_bytes(last, 0, (end - pos) as nat) + data@.subrange(
                pos as int,
                end as int,
            ),
    {
        let ghost ctx = self.ctx@;
        let ghost hist = self.hist@;
        let ghost bm = self.decoder_max@;
        let ghost block = data@.subrange(pos as int, end as int);
        write_raw_block(out, data, pos, end, last, Ghost(ctx), Ghost(hist), Ghost(bm));
        let ghost bytes = block_header_bytes(last, 0, (end - pos) as nat) + block;
        proof {
            lemma_one_block(bytes, last, ctx, hist, ctx, block, bm, self.reach as nat);
            self.hist@ = hist + block;
        }
        settle_offsets(&mut self.entropy, Ghost(ctx));
        self.is_first_block = false;
        Ghost(bytes)
    }

    /// Writes the block `data[pos .. end]`, whose history is searched where it
    /// lies if that is one run, and in a copy if not.
    #[verifier::rlimit(60)]
    fn write_shown(
        &mut self,
        out: &mut Vec<u8>,
        data: &[u8],
        pos: usize,
        end: usize,
        ldm_seqs: &Vec<RawSeq>,
        last: bool,
    ) -> (r: Ghost<Seq<u8>>)
        requires
            old(self).wf(),
            data@.len() <= u32::MAX,
            pos + MIN_BLOCK_TO_TRY <= end <= data@.len(),
            end - pos <= BLOCK_SIZE_MAX,
            end - pos <= old(self).decoder_max@,
            old(self)@.goes_on(data@, pos as int, end as int, old(self).hist@),
        ensures
            final(self).wf(),
            final(self).same_frame(old(self)),
            final(self).consumed == old(self).consumed,
            final(self).xxh == old(self).xxh,
            final(self).stage == old(self).stage,
            final(self).produced == old(self).produced,
            final(self).dict_match_state == old(self).dict_match_state,
            final(self).window_preloaded == old(self).window_preloaded,
            final(self).window.next_src_pos == old(self).window.next_src_pos,
            final(self).hist@ == old(self).hist@ + data@.subrange(pos as int, end as int),
            final(out)@ == old(out)@ + r@,
            are_blocks(
                r@,
                last,
                old(self).ctx@,
                old(self).hist@,
                final(self).ctx@,
                final(self).hist@,
                old(self).decoder_max@,
                old(self).reach as nat,
            ),
            old(self).dict_match_state is Some || final(self).window == old(self).window || {
                &&& old(self).window.low_limit == old(self).window.dict_limit == index_of(
                    pos as nat,
                    old(self).window.seg_bias,
                )
                &&& final(self).window == old(self).window.spec_followed(
                    old(self).window.spec_layout(),
                    slid_layout(old(self).window.spec_layout(), (end - pos) as nat),
                )
            },
            ({
                let laid = old(self)@.laid(data@, pos as int, end as int);
                (final(self)@, r@) == laid_made(
                    old(self)@,
                    laid,
                    laid.len() - (end - pos),
                    pos as nat,
                    ldm_seqs@,
                    last,
                )
            }),
    {
        let ghost laid = self@.laid(data@, pos as int, end as int);
        let ghost past = self@.past(data@, pos as int);
        proof {
            lemma_past(self@, data@, pos as int, end as int, self.hist@);
        }
        if self.dict_match_state.is_some() {
            let run = slice_subrange(data, 0, end);
            assert(run@ =~= laid);
            self.write_laid(out, run, pos, pos, ldm_seqs, last)
        } else if self.window.is_one_run() {
            let base: usize = self.window.run_start(data, pos);
            let run = slice_subrange(data, base, end);
            assert(run@ =~= laid);
            self.write_laid(out, run, pos - base, pos, ldm_seqs, last)
        } else {
            let joined: Vec<u8> = self.window.join(data, pos, end);
            let at: usize = joined.len() - (end - pos);
            self.write_laid(out, joined.as_slice(), at, pos, ldm_seqs, last)
        }
    }

    /// Writes the block at `at` of the buffer `laid`, which ends with it. The
    /// block begins at `pos` of the caller's buffer.
    #[verifier::rlimit(60)]
    fn write_laid(
        &mut self,
        out: &mut Vec<u8>,
        laid: &[u8],
        at: usize,
        pos: usize,
        ldm_seqs: &Vec<RawSeq>,
        last: bool,
    ) -> (r: Ghost<Seq<u8>>)
        requires
            old(self).wf(),
            at + MIN_BLOCK_TO_TRY <= laid@.len() <= u32::MAX,
            laid@.len() - at <= BLOCK_SIZE_MAX,
            pos <= u32::MAX,
            laid@.len() - at <= old(self).decoder_max@,
            ends_with(old(self).hist@, laid@.take(at as int)),
        ensures
            final(self).wf(),
            final(self).same_frame(old(self)),
            final(self).consumed == old(self).consumed,
            final(self).xxh == old(self).xxh,
            final(self).stage == old(self).stage,
            final(self).produced == old(self).produced,
            final(self).dict_match_state == old(self).dict_match_state,
            final(self).window_preloaded == old(self).window_preloaded,
            final(self).hist@ == old(self).hist@ + laid@.subrange(at as int, laid@.len() as int),
            final(out)@ == old(out)@ + r@,
            are_blocks(
                r@,
                last,
                old(self).ctx@,
                old(self).hist@,
                final(self).ctx@,
                final(self).hist@,
                old(self).decoder_max@,
                old(self).reach as nat,
            ),
            final(self).window.next_src_pos == old(self).window.next_src_pos,
            old(self).dict_match_state is Some || final(self).window == old(self).window || {
                &&& old(self).window.low_limit == old(self).window.dict_limit
                &&& index_of(at as nat, old(self)@.layout().bias) == old(self).window.dict_limit
                &&& final(self).window == old(self).window.spec_followed(
                    old(self).window.spec_layout(),
                    slid_layout(old(self).window.spec_layout(), (laid@.len() - at) as nat),
                )
            },
            (final(self)@, r@) == laid_made(old(self)@, laid@, at as int, pos as nat, ldm_seqs@, last),
    {
        proof {
            reveal(laid_made);
        }
        let ghost ctx = self.ctx@;
        let ghost hist = self.hist@;
        let ghost bm = self.decoder_max@;
        let end: usize = laid.len();
        let ghost block = laid@.subrange(at as int, end as int);
        let (store, next_rep, Ghost(rep1)) = self.search_block(laid, at, pos, ldm_seqs);
        let strategy: i32 = self.cparams.strategy.num();
        if self.split_blocks {
            let (c1, bytes) = compress_block_split(
                out,
                &store,
                laid,
                at,
                end,
                &mut self.entropy,
                &mut self.rep,
                next_rep,
                strategy,
                last,
                self.is_first_block,
                self.reach,
                Ghost(ctx),
                Ghost(hist),
                Ghost(rep1),
                Ghost(bm),
            );
            proof {
                self.ctx@ = c1@;
                self.hist@ = hist + block;
            }
            self.is_first_block = false;
            return bytes;
        }
        proof {
            assert(crate::parser::stands_at(&store, hist, block, ctx.rep, rep1));
        }
        let (w, bytes) = write_block(
            out,
            &store,
            laid,
            at,
            end,
            &mut self.entropy,
            strategy,
            self.disable_literal_compression,
            last,
            self.is_first_block,
            self.reach,
            Ghost(ctx),
            Ghost(hist),
            Ghost(rep1),
            Ghost(bm),
        );
        if w.kind == BlockKind::Compressed {
            self.rep = next_rep;
        }
        settle_offsets(&mut self.entropy, Ghost(w.ctx@));
        proof {
            lemma_one_block(bytes@, last, ctx, hist, w.ctx@, block, bm, self.reach as nat);
            self.ctx@ = w.ctx@;
            self.hist@ = hist + block;
        }
        self.is_first_block = false;
        bytes
    }

    pub fn window_size(&self) -> (r: u64)
        ensures
            r == self.window_size,
    {
        self.window_size
    }

    pub fn block_size_max(&self) -> (r: usize)
        ensures
            r == self.block_size_max,
    {
        self.block_size_max
    }

    /// Whether a block that ends at `block_end` would carry the source past the
    /// window while a dictionary is attached.
    pub fn cdict_attach_overflow(&self, block_end: usize) -> (r: bool)
        requires
            self.wf(),
            block_end <= u32::MAX,
        ensures
            r == (self.dict_match_state is Some && block_end + self.window.seg_bias > pow2(
                self.cparams.window_log as nat,
            )),
    {
        self.dict_match_state.is_some() && block_end as u64 + self.window.seg_bias as u64
            > pow2_u64(self.cparams.window_log)
    }

    /// Cuts the next block off `data[pos .. end]`: a full block is split where
    /// its content changes, once enough has been saved.
    fn next_block_size(&self, data: &[u8], pos: usize, end: usize, savings: i64) -> (r: usize)
        requires
            self.wf(),
            pos < end <= data@.len(),
        ensures
            1 <= r <= end - pos,
            r <= self.block_size_max,
            r == self@.next_size(data@, pos as int, end as int, savings),
    {
        let remaining: usize = end - pos;
        proof {
            lemma_pow2_pos(self.cparams.window_log as nat);
        }
        if remaining < BLOCK_SIZE_MAX || self.block_size_max < BLOCK_SIZE_MAX {
            if remaining < self.block_size_max {
                remaining
            } else {
                self.block_size_max
            }
        } else if savings < 3 {
            BLOCK_SIZE_MAX
        } else {
            let level: usize = match self.cparams.strategy {
                Strategy::Fast => 0,
                Strategy::Dfast => 1,
                Strategy::Greedy => 2,
                Strategy::Lazy => 2,
                Strategy::Lazy2 => 3,
                Strategy::Btlazy2 => 3,
                _ => 4,
            };
            split_block(slice_subrange(data, pos, pos + BLOCK_SIZE_MAX), level)
        }
    }

    /// Brings the window to a block: recycles the indices when they run out,
    /// and gives up what is out of reach.
    fn slide(&mut self, pos: usize, block_end: usize)
        requires
            old(self).wf(),
            pos <= block_end <= u32::MAX,
        ensures
            final(self).wf(),
            *final(self) == (FrameCompressor {
                window: final(self).window,
                matcher: final(self).matcher,
                ..*old(self)
            }),
            final(self)@ == old(self)@.slid(pos as nat, block_end as nat),
    {
        proof {
            lemma2_to64();
            lemma_pow2_strictly_increases(self.cparams.window_log as nat, 31);
        }
        let max_dist: u32 = pow2_u64(self.cparams.window_log) as u32;
        if self.window.needs_overflow_correction(block_end) {
            let cycle: u32 = cycle_log(self.cparams.chain_log, self.cparams.strategy);
            let correction: u32 = self.window.correct_overflow(cycle, max_dist, pos);
            self.matcher.reduce_indices(correction);
        }
        let idx: u32 = to_index(pos, self.window.seg_bias);
        self.window.enforce_max_dist(idx, max_dist);
        self.matcher.resume_no_lower(self.window.low_limit);
    }

    /// Takes the window over to the chunk `start .. end`.
    fn enter_chunk(&mut self, start: usize, end: usize)
        requires
            old(self).wf(),
            start <= end <= u32::MAX,
        ensures
            final(self).wf(),
            *final(self) == (FrameCompressor {
                window: final(self).window,
                window_preloaded: false,
                matcher: final(self).matcher,
                ldm: final(self).ldm,
                ..*old(self)
            }),
            final(self)@ == old(self)@.chunk_entered(start as nat, end as nat),
    {
        if self.window_preloaded {
            self.window_preloaded = false;
        } else if !self.window.update(start, end) {
            self.matcher.resume_at(self.window.dict_limit);
        }
        if let Some(ldm) = &mut self.ldm {
            ldm.window.update(start, end);
        }
    }

    /// Writes the blocks of `data[start .. end]`. `saved` is how much smaller
    /// the frame has been so far than its content.
    #[verifier::rlimit(60)]
    fn write_blocks(
        &mut self,
        out: &mut Vec<u8>,
        data: &[u8],
        start: usize,
        end: usize,
        last: bool,
        saved: i64,
    ) -> (r: Ghost<Seq<u8>>)
        requires
            old(self).wf(),
            data@.len() <= u32::MAX,
            start < end <= data@.len(),
            old(self).block_size_max <= old(self).decoder_max@,
            old(self)@.goes_on(data@, start as int, end as int, old(self).hist@),
        ensures
            final(self).wf(),
            final(self).same_frame(old(self)),
            final(self).consumed == old(self).consumed,
            final(self).xxh == old(self).xxh,
            final(self).stage == old(self).stage,
            final(self).produced == old(self).produced,
            final(self).dict_match_state == old(self).dict_match_state,
            final(self).window_preloaded == old(self).window_preloaded,
            final(self).window.next_src_pos == old(self).window.next_src_pos,
            final(self)@.goes_on(data@, end as int, end as int, final(self).hist@),
            final(self)@.dict is None ==> index_of(end as nat, final(self).window.seg_bias)
                <= CURRENT_MAX + 131072,
            final(self).hist@ == old(self).hist@ + data@.subrange(start as int, end as int),
            final(out)@ == old(out)@ + r@,
            are_blocks(
                r@,
                last,
                old(self).ctx@,
                old(self).hist@,
                final(self).ctx@,
                final(self).hist@,
                old(self).decoder_max@,
                old(self).reach as nat,
            ),
            (final(self)@, r@) == blocks_made(
                old(self)@,
                data@,
                start as int,
                end as int,
                last,
                saved,
                Seq::empty(),
            ),
    {
        let ghost ctx = self.ctx@;
        let ghost hist = self.hist@;
        let ghost bm = self.decoder_max@;
        let ghost base = out@;
        let ghost entered = *self;
        let mut savings: i64 = saved;
        let ghost mut bytes = Seq::<u8>::empty();
        let mut pos: usize = start;
        proof {
            lemma_no_blocks(ctx, hist, bm, self.reach as nat);
            assert(data@.subrange(start as int, start as int) =~= Seq::<u8>::empty());
            assert(hist + Seq::<u8>::empty() =~= hist);
            assert(out@ =~= base + bytes);
        }
        let ghost all = blocks_made(
            self@,
            data@,
            start as int,
            end as int,
            last,
            savings,
            bytes,
        );
        while pos < end
            invariant
                all == blocks_made(
                    self@,
                    data@,
                    pos as int,
                    end as int,
                    last,
                    savings,
                    bytes,
                ),
                start <= pos <= end <= data@.len(),
                start < end,
                data@.len() <= u32::MAX,
                self.stage == entered.stage,
                self.produced == entered.produced,
                entered == *old(self),
                self.same_frame(&entered),
                self.xxh == entered.xxh,
                self.consumed == entered.consumed,
                self.block_size_max == entered.block_size_max,
                self.block_size_max <= bm,
                bm == self.decoder_max@,
                self@.goes_on(data@, pos as int, end as int, self.hist@),
                self@.dict is None && pos > start ==> index_of(pos as nat, self.window.seg_bias)
                    <= CURRENT_MAX + 131072,
                self.dict_match_state == entered.dict_match_state,
                self.window_preloaded == entered.window_preloaded,
                self.window.next_src_pos == entered.window.next_src_pos,
                self.hist@ == hist + data@.subrange(start as int, pos as int),
                out@ == base + bytes,
                are_blocks(
                    bytes,
                    last && pos == end,
                    ctx,
                    hist,
                    self.ctx@,
                    self.hist@,
                    bm,
                    self.reach as nat,
                ),
                self.wf(),
            decreases end - pos,
        {
            proof {
                reveal_with_fuel(blocks_made, 1);
            }
            let size: usize = self.next_block_size(data, pos, end, savings);
            let last_block: bool = last && size == end - pos;
            proof {
                lemma_one_of(self@, data@, pos as int, pos + size, end as int, self.hist@);
                lemma_slid(self@, data@, pos as int, pos + size, self.hist@);
            }
            self.slide(pos, pos + size);
            let before: usize = out.len();
            let ghost c1 = self.ctx@;
            let ghost h1 = self.hist@;
            let more = self.compress_block(out, data, pos, size, last_block);
            let after: usize = out.len();
            savings = savings.wrapping_add(size as i64).wrapping_sub((after - before) as i64);
            proof {
                assert(data@.subrange(start as int, pos + size) =~= data@.subrange(
                    start as int,
                    pos as int,
                ) + data@.subrange(pos as int, pos + size));
                assert(hist + data@.subrange(start as int, pos + size) =~= h1 + data@.subrange(
                    pos as int,
                    pos + size,
                ));
                lemma_more_blocks(
                    bytes,
                    more@,
                    last_block,
                    ctx,
                    hist,
                    c1,
                    h1,
                    self.ctx@,
                    self.hist@,
                    bm,
                    self.reach as nat,
                );
                assert(base + (bytes + more@) =~= base + bytes + more@);
                bytes = bytes + more@;
                lemma_room_left(self@, data@, pos + size, end as int, self.hist@);
            }
            pos = pos + size;
        }
        proof {
            reveal_with_fuel(blocks_made, 1);
        }
        Ghost(bytes)
    }

    /// The bytes that come before the next block: those of the header, if it
    /// has not been written.
    pub open spec fn head_bytes(&self) -> Seq<u8> {
        head_of(self@)
    }

    /// More has been consumed than was pledged.
    pub open spec fn exceeds(&self, more: nat) -> bool {
        self.pledged matches Some(n) && self.consumed + more > n
    }

    /// Takes the window over to the chunk `data[start .. end]`, and writes its
    /// blocks.
    #[verifier::rlimit(60)]
    fn compress_chunk(&mut self, out: &mut Vec<u8>, data: &[u8], start: usize, end: usize, last: bool) -> (r:
        Ghost<Seq<u8>>)
        requires
            old(self).wf(),
            data@.len() <= u32::MAX,
            start < end <= data@.len(),
            old(self).consumed + (end - start) <= u64::MAX,
            old(self).block_size_max <= old(self).decoder_max@,
            old(self)@.chunk_entered(start as nat, end as nat).goes_on(
                data@,
                start as int,
                end as int,
                old(self).hist@,
            ),
        ensures
            final(self).wf(),
            final(self).same_frame(old(self)),
            final(self).consumed == old(self).consumed + (end - start),
            final(self).stage == old(self).stage,
            final(self).produced == old(self).produced,
            final(self).dict_match_state == old(self).dict_match_state,
            !final(self).window_preloaded,
            final(self).window.next_src_pos == old(self)@.chunk_entered(
                start as nat,
                end as nat,
            ).window.next_src_pos,
            final(self)@.goes_on(data@, end as int, end as int, final(self).hist@),
            final(self)@.dict is None ==> index_of(end as nat, final(self).window.seg_bias)
                <= CURRENT_MAX + 131072,
            final(self).hist@ == old(self).hist@ + data@.subrange(start as int, end as int),
            old(self).checksum ==> final(self).xxh.bytes() == old(self).xxh.bytes()
                + data@.subrange(start as int, end as int),
            final(out)@ == old(out)@ + r@,
            are_blocks(
                r@,
                last,
                old(self).ctx@,
                old(self).hist@,
                final(self).ctx@,
                final(self).hist@,
                old(self).decoder_max@,
                old(self).reach as nat,
            ),
            (final(self)@, r@) == blocks_made(
                (FrameView {
                    consumed: (old(self).consumed + (end - start)) as u64,
                    ..old(self)@.chunk_entered(start as nat, end as nat)
                }),
                data@,
                start as int,
                end as int,
                last,
                (old(self).consumed as i64).wrapping_sub(old(self).produced as i64),
                Seq::empty(),
            ),
    {
        self.enter_chunk(start, end);
        if self.checksum {
            self.xxh.update(slice_subrange(data, start, end));
        }
        let savings: i64 = (self.consumed as i64).wrapping_sub(self.produced as i64);
        self.consumed = self.consumed + (end - start) as u64;
        self.write_blocks(out, data, start, end, last, savings)
    }

    /// Compresses the chunk `data[start .. end]` into blocks, the last of them
    /// marked as the frame's last if `last`. An empty chunk makes no block. The
    /// parts of `data` that the window then shows must hold what a decoder has
    /// last; where they lie does not matter, so that a chunk may start over in
    /// a ring buffer.
    #[verifier::rlimit(80)]
    pub fn compress_continue(
        &mut self,
        out: &mut Vec<u8>,
        data: &[u8],
        start: usize,
        end: usize,
        last: bool,
    ) -> (r: Result<Ghost<Seq<u8>>, Error>)
        requires
            old(self).wf(),
            old(self).stage != Stage::Ending,
            data@.len() <= u32::MAX,
            start <= end <= data@.len(),
            old(self).consumed + (end - start) <= u64::MAX,
            start == end || old(self).block_size_max <= old(self).decoder_max@,
            start < end ==> old(self)@.chunk_entered(start as nat, end as nat).goes_on(
                data@,
                start as int,
                end as int,
                old(self).hist@,
            ),
        ensures
            final(self).wf(),
            final(self).same_frame(old(self)),
            final(self).consumed == old(self).consumed + (end - start),
            final(self).hist@ == old(self).hist@ + data@.subrange(start as int, end as int),
            start < end ==> {
                &&& final(self)@.dict == old(self)@.dict
                &&& !final(self).window_preloaded
                &&& final(self).window.next_src_pos == old(self)@.chunk_entered(
                    start as nat,
                    end as nat,
                ).window.next_src_pos
                &&& final(self).window.next_src_pos == end ==> continues(
                    final(self)@,
                    data@,
                    end as int,
                    final(self).hist@,
                )
            },
            old(self).checksum ==> final(self).xxh.bytes() == old(self).xxh.bytes()
                + data@.subrange(start as int, end as int),
            final(self).stage == if last && start < end {
                Stage::Ending
            } else {
                Stage::Ongoing
            },
            r is Err <==> start < end && old(self).exceeds((end - start) as nat),
            r matches Err(e) ==> e == Error::Encode("pledged source size exceeded"),
            r matches Ok(bytes) ==> {
                &&& final(out)@ == old(out)@ + old(self).head_bytes() + bytes@
                &&& are_blocks(
                    bytes@,
                    last && start < end,
                    old(self).ctx@,
                    old(self).hist@,
                    final(self).ctx@,
                    final(self).hist@,
                    old(self).decoder_max@,
                    old(self).reach as nat,
                )
                &&& bytes@ == chunk_made(old(self)@, data@, start as int, end as int, last).1
            },
            final(self)@ == chunk_made(old(self)@, data@, start as int, end as int, last).0,
    {
        proof {
            reveal(chunk_made);
        }
        let out_start: usize = out.len();
        let ghost ctx = self.ctx@;
        let ghost hist = self.hist@;
        let ghost bm = self.decoder_max@;
        let ghost head = self.head_bytes();
        let ghost base = out@ + head;
        if self.stage == Stage::Init {
            write_frame_header(
                out,
                self.cparams.window_log,
                self.pledged,
                self.checksum,
                self.dict_id,
            );
            self.stage = Stage::Ongoing;
        }
        assert(out@ =~= base);
        if start == end {
            let ghost bytes = Seq::<u8>::empty();
            let out_len: usize = out.len();
            self.produced = self.produced.wrapping_add((out_len - out_start) as u64);
            proof {
                lemma_no_blocks(ctx, hist, bm, self.reach as nat);
                assert(data@.subrange(start as int, end as int) =~= Seq::<u8>::empty());
                assert(hist + Seq::<u8>::empty() =~= hist);
                assert(self.xxh.bytes() + Seq::<u8>::empty() =~= self.xxh.bytes());
                assert(out@ =~= base + bytes);
            }
            return Ok(Ghost(bytes));
        }
        let Ghost(bytes) = self.compress_chunk(out, data, start, end, last);
        assert(out@ =~= base + bytes);
        if last {
            self.stage = Stage::Ending;
        }
        let out_len: usize = out.len();
        self.produced = self.produced.wrapping_add((out_len - out_start) as u64);
        proof {
            if self.window.next_src_pos == end {
                lemma_continues(self@, data@, end as int, self.hist@);
            }
        }
        if let Some(n) = self.pledged {
            if self.consumed > n {
                return Err(Error::Encode("pledged source size exceeded"));
            }
        }
        Ok(Ghost(bytes))
    }

    /// The bytes after a frame's last block.
    pub open spec fn tail_bytes(checksum: bool, content: Seq<u8>) -> Seq<u8> {
        if checksum {
            le_bytes(checksum32(content) as nat, 4)
        } else {
            Seq::empty()
        }
    }

    /// Compresses the last chunk and ends the frame.
    #[verifier::rlimit(30)]
    pub fn compress_end(&mut self, out: &mut Vec<u8>, data: &[u8], start: usize, end: usize) -> (r: Result<
        Ghost<Seq<u8>>,
        Error,
    >)
        requires
            old(self).wf(),
            old(self).stage != Stage::Ending,
            data@.len() <= u32::MAX,
            start <= end <= data@.len(),
            old(self).consumed + (end - start) <= u64::MAX,
            start == end || old(self).block_size_max <= old(self).decoder_max@,
            start < end ==> old(self)@.chunk_entered(start as nat, end as nat).goes_on(
                data@,
                start as int,
                end as int,
                old(self).hist@,
            ),
        ensures
            final(self).wf(),
            final(self).same_frame(old(self)),
            final(self).hist@ == old(self).hist@ + data@.subrange(start as int, end as int),
            r is Err <==> (old(self).pledged matches Some(n) && old(self).consumed + (end - start)
                != n),
            r matches Err(e) ==> e == if start < end && old(self).exceeds((end - start) as nat) {
                Error::Encode("pledged source size exceeded")
            } else {
                Error::Encode("pledged source size not honored")
            },
            r matches Ok(bytes) ==> {
                &&& final(out)@ == old(out)@ + old(self).head_bytes() + bytes@ + Self::tail_bytes(
                    old(self).checksum,
                    old(self).xxh.bytes() + data@.subrange(start as int, end as int),
                )
                &&& are_blocks(
                    bytes@,
                    true,
                    old(self).ctx@,
                    old(self).hist@,
                    final(self).ctx@,
                    final(self).hist@,
                    old(self).decoder_max@,
                    old(self).reach as nat,
                )
                &&& bytes@ == last_chunk_made(old(self)@, data@, start as int, end as int)
            },
    {
        proof {
            reveal(last_chunk_made);
        }
        let ghost base = out@ + self.head_bytes();
        let ghost ctx = self.ctx@;
        let ghost hist = self.hist@;
        let ghost bm = self.decoder_max@;
        let made = match self.compress_continue(out, data, start, end, true) {
            Ok(b) => b,
            Err(e) => {
                return Err(e);
            },
        };
        let ghost mut bytes = made@;
        if self.stage != Stage::Ending {
            push_block_header(out, true, 0, 0);
            proof {
                let none = Seq::<u8>::empty();
                let h = block_header_bytes(true, 0, 0);
                let c = self.ctx@;
                assert(h + none =~= h);
                assert(self.hist@ + none =~= self.hist@);
                assert forall|t: Seq<u8>| #[trigger] is_block(h, true, c, t, c, t + none, bm) by {
                    lemma_raw_block(none, true, c, t, bm);
                }
                lemma_one_block(h, true, c, self.hist@, c, none, bm, self.reach as nat);
                lemma_more_blocks(
                    bytes,
                    h,
                    true,
                    ctx,
                    hist,
                    self.ctx@,
                    self.hist@,
                    self.ctx@,
                    self.hist@,
                    bm,
                    self.reach as nat,
                );
                assert(base + (bytes + h) =~= base + bytes + h);
                bytes = bytes + h;
            }
        }
        assert(out@ == base + bytes);
        if self.checksum {
            let sum: u64 = self.xxh.digest() % 0x1_0000_0000;
            push_le(out, sum, 4);
        } else {
            assert(out@ + Seq::<u8>::empty() =~= out@);
        }
        if let Some(n) = self.pledged {
            if self.consumed != n {
                return Err(Error::Encode("pledged source size not honored"));
            }
        }
        Ok(Ghost(bytes))
    }
}

// ---------------------------------------------------------------------------
// The history that the match finder sees.

/// What is searched: the history, which a decoder has, and the block.
proof fn lemma_past(f: FrameView, data: Seq<u8>, pos: int, end: int, hist: Seq<u8>)
    requires
        0 <= pos <= end <= data.len() <= u32::MAX,
        end - pos <= 131072,
        f.goes_on(data, pos, end, hist),
    ensures
        ({
            let laid = f.laid(data, pos, end);
            let past = f.past(data, pos);
            &&& laid.len() == past.len() + (end - pos)
            &&& laid.len() <= u32::MAX
            &&& laid.take(past.len() as int) == past
            &&& laid.subrange(past.len() as int, laid.len() as int) == data.subrange(pos, end)
            &&& ends_with(hist, past)
            &&& f.dict is None ==> {
                &&& f.window.fits(data.len(), pos as nat)
                &&& past.len() == index_of(pos as nat, f.window.seg_bias) - f.window.low_limit
                &&& index_of(past.len(), f.window.low_limit) == index_of(pos as nat, f.window.seg_bias)
            }
        }),
{
    reveal(history_goes_on);
    let laid = f.laid(data, pos, end);
    let past = f.past(data, pos);
    if f.dict is None {
        lemma_shown_parts(f.window, data, pos as nat);
    }
    assert(laid.take(past.len() as int) =~= past);
    assert(laid.subrange(past.len() as int, laid.len() as int) =~= data.subrange(pos, end));
}

/// A block passed: the window still shows what a decoder has last.
proof fn lemma_block_passed(f: FrameView, g: FrameView, data: Seq<u8>, pos: int, end: int, hist: Seq<u8>)
    requires
        0 <= pos < end <= data.len() <= u32::MAX,
        end - pos <= 131072,
        f.goes_on(data, pos, end, hist),
        f.dict is None ==> index_of(pos as nat, f.window.seg_bias) + (end - pos) <= CURRENT_MAX,
        g.dict == f.dict,
        g.window.next_src_pos == f.window.next_src_pos,
        f.dict is Some || g.window == f.window || {
            &&& f.window.low_limit == f.window.dict_limit == index_of(pos as nat, f.window.seg_bias)
            &&& g.window == f.window.spec_followed(
                f.window.spec_layout(),
                slid_layout(f.window.spec_layout(), (end - pos) as nat),
            )
        },
    ensures
        g.goes_on(data, end, end, hist + data.subrange(pos, end)),
        g.dict is None ==> index_of(end as nat, g.window.seg_bias) <= CURRENT_MAX + 131072,
{
    reveal(history_goes_on);
    if f.dict is Some {
        lemma_ends_further(hist, data, pos, end);
    } else {
        let n = (end - pos) as nat;
        if g.window != f.window {
            lemma_followed(f.window, n, data, pos as nat, hist);
        }
        lemma_advanced(g.window, data, pos as nat, n, hist);
    }
}

/// A block of a longer run.
proof fn lemma_one_of(f: FrameView, data: Seq<u8>, pos: int, next: int, end: int, hist: Seq<u8>)
    requires
        pos <= next <= end,
        next - pos <= 131072,
        f.goes_on(data, pos, end, hist),
    ensures
        f.goes_on(data, pos, next, hist),
{
    reveal(history_goes_on);
}

/// There are indices for another block.
proof fn lemma_room_left(f: FrameView, data: Seq<u8>, pos: int, end: int, hist: Seq<u8>)
    requires
        pos <= end,
        f.goes_on(data, pos, pos, hist),
        f.dict is None ==> index_of(pos as nat, f.window.seg_bias) <= CURRENT_MAX + 131072,
    ensures
        f.goes_on(data, pos, end, hist),
{
    reveal(history_goes_on);
}

/// The window brought to a block.
#[verifier::spinoff_prover]
#[verifier::rlimit(60)]
proof fn lemma_slid(f: FrameView, data: Seq<u8>, pos: int, end: int, hist: Seq<u8>)
    requires
        f.cparams.wf(),
        0 <= pos < end <= data.len() <= u32::MAX,
        end - pos <= 131072,
        f.goes_on(data, pos, end, hist),
    ensures
        f.slid(pos as nat, end as nat).goes_on(data, pos, end, hist),
        f.slid(pos as nat, end as nat).window.next_src_pos == f.window.next_src_pos,
        f.dict is None ==> index_of(pos as nat, f.slid(pos as nat, end as nat).window.seg_bias) + (end
            - pos) <= CURRENT_MAX,
{
    reveal(history_goes_on);
    lemma2_to64();
    if f.cparams.window_log < 31 {
        lemma_pow2_strictly_increases(f.cparams.window_log as nat, 31);
    }
    let max_dist = pow2(f.cparams.window_log as nat) as u32;
    if f.dict is None {
        let cycle = spec_cycle_log(f.cparams.chain_log as int, f.cparams.strategy) as u32;
        let w = if index_of(end as nat, f.window.seg_bias) > CURRENT_MAX {
            lemma_corrected(f.window, cycle, max_dist, data, pos as nat, hist);
            spec_corrected(f.window, spec_correction(f.window, cycle, max_dist, pos as nat))
        } else {
            f.window
        };
        lemma_enforced(w, max_dist, data, pos as nat, hist);
    }
}

/// The first chunk may be at the front of any buffer.
pub open spec fn starts_anywhere(f: FrameView, hist: Seq<u8>) -> bool {
    forall|data: Seq<u8>, end: nat|
        end <= data.len() <= u32::MAX ==> #[trigger] f.chunk_entered(0, end).goes_on(
            data,
            0,
            end as int,
            hist,
        )
}

/// The next chunk may follow in the same buffer.
pub open spec fn continues(f: FrameView, data: Seq<u8>, pos: int, hist: Seq<u8>) -> bool {
    forall|end: nat|
        pos <= end <= data.len() ==> #[trigger] f.chunk_entered(pos as nat, end).goes_on(
            data,
            pos,
            end as int,
            hist,
        )
}

proof fn lemma_starts(f: FrameView, hist: Seq<u8>)
    requires
        f.dict is None,
        !f.preloaded,
        f.window == fresh_window(),
    ensures
        starts_anywhere(f, hist),
{
    assert forall|data: Seq<u8>, end: nat| end <= data.len() <= u32::MAX implies #[trigger] f.chunk_entered(
        0,
        end,
    ).goes_on(data, 0, end as int, hist) by {
        reveal(history_goes_on);
        assert(f.window.shown(data, 0) =~= Seq::<u8>::empty());
        assert(hist.skip(hist.len() as int) =~= Seq::<u8>::empty());
        lemma_continued(f.window, data, 0, end, hist);
    }
}

/// The next chunk of the same buffer.
proof fn lemma_next_chunk(f: FrameView, data: Seq<u8>, start: int, end: int, hist: Seq<u8>)
    requires
        0 <= start <= end <= data.len() <= u32::MAX,
        f.goes_on(data, start, start, hist),
        !f.preloaded,
        f.window.next_src_pos == start,
        f.dict is None ==> index_of(start as nat, f.window.seg_bias) <= CURRENT_MAX + 131072,
    ensures
        f.chunk_entered(start as nat, end as nat).goes_on(data, start, end, hist),
{
    reveal(history_goes_on);
    if f.dict is None {
        lemma_continued(f.window, data, start as nat, end as nat, hist);
    }
}

proof fn lemma_continues(f: FrameView, data: Seq<u8>, pos: int, hist: Seq<u8>)
    requires
        0 <= pos <= data.len() <= u32::MAX,
        f.goes_on(data, pos, pos, hist),
        !f.preloaded,
        f.window.next_src_pos == pos,
        f.dict is None ==> index_of(pos as nat, f.window.seg_bias) <= CURRENT_MAX + 131072,
    ensures
        continues(f, data, pos, hist),
{
    assert forall|end: nat| pos <= end <= data.len() implies #[trigger] f.chunk_entered(
        pos as nat,
        end,
    ).goes_on(data, pos, end as int, hist) by {
        lemma_next_chunk(f, data, pos, end as int, hist);
    }
}

/// The first chunk of a frame, after a prefix that the window shows.
pub proof fn lemma_first_chunk(f: FrameView, data: Seq<u8>, start: int, end: int, hist: Seq<u8>)
    requires
        0 <= start <= end <= data.len() <= u32::MAX - 2,
        ends_with(hist, data.take(start)),
        f.dict is None ==> {
            &&& f.window.seg_bias == 2
            &&& f.window.dict_bias == 2
            &&& f.window.low_limit == 2
            &&& f.window.dict_limit == 2 || f.window.dict_limit == 2 + start
        },
        f.preloaded || f.window.next_src_pos == start,
    ensures
        f.chunk_entered(start as nat, end as nat).goes_on(data, start, end, hist),
{
    reveal(history_goes_on);
    if f.dict is None {
        lemma_shown_parts(f.window, data, start as nat);
        assert(f.window.shown(data, start as nat) =~= data.take(start));
        if !f.preloaded {
            lemma_continued(f.window, data, start as nat, end as nat, hist);
        }
    }
}

} // verus!
