//! Compressing with a dictionary.

use crate::block::fresh_ctx;
use crate::block_encode_model::offsets_ready;
use crate::compress::{
    compress_plain, lemma_block_sizes, lemma_frame, lemma_fresh_near, needs_ldm, reader_block_max, starts_frame,
    too_long,
};
use crate::compress_model::{
    attached_frame, attached_stream, bytes_with_cdict, bytes_with_dict, copied_frame, dict_frame_bytes, dict_tables,
    first_offsets,
};
use crate::cparams::{
    adjust_cparams_internal, get_cparams, get_cparams_create_cdict, spec_cparams, CParamMode, CParams, Strategy,
    CONTENTSIZE_UNKNOWN,
};
use crate::decompress::{default_options, spec_decompress, OptionsView};
use crate::dfast::{fill_dfast_hash_tables_for_cctx_full, fill_dfast_hash_tables_for_cdict};
use crate::dict_encode::{dict_entropy, load_c_entropy};
use crate::dictionary::{spec_dictionary, DictView, DICT_MAGIC};
use crate::dictionary_laws::law_raw_dictionary_changes_nothing;
use crate::error::Error;
use crate::fast::{fill_fast_hash_table_for_cctx_full, fill_fast_hash_table_for_cdict};
use crate::frame_compress::{
    lemma_first_chunk, DictMatchState, DictTables, FrameCompressor, Matcher, Stage, HASH_READ_SIZE,
};
use crate::frame_model::fresh_frame;
use crate::lazy_search::{use_row_match_finder, LazyCtx};
use crate::math::load4;
use crate::opt_matches::OptCtx;
use crate::parser::{known, new_table};
use crate::post_split::block_splitter_enabled;
use crate::seq_store::near_offsets;
use crate::sequences_encode::FseEntropyState;
use crate::window::Window;
use vstd::arithmetic::power2::{lemma2_to64, lemma_pow2_strictly_increases};
use vstd::prelude::*;
use vstd::slice::slice_subrange;

verus! {

/// Decoding with a dictionary, and without limits.
pub open spec fn with_dictionary(d: DictView) -> OptionsView {
    OptionsView { limit: usize::MAX as nat, window_log_max: 31, dictionary: Some(d) }
}

/// A dictionary as an encoder uses it: its content, and what a frame starts
/// with.
pub struct ParsedDict<'a> {
    pub content: &'a [u8],
    pub entropy: FseEntropyState,
    pub rep: [u32; 3],
    pub dict_id: u32,
}

impl<'a> ParsedDict<'a> {
    /// A decoder makes `d` of the same dictionary.
    pub open spec fn stands_for(&self, d: DictView) -> bool {
        &&& self.content@ == d.content
        &&& self.entropy.wf()
        &&& self.entropy.in_step(d.ctx)
        &&& forall|strategy: int| #[trigger] offsets_ready(self.entropy@, d.content.len(), strategy)
        &&& known(self.rep@, d.ctx.rep)
        &&& self.rep@[0] != 0
        &&& self.dict_id == d.id
        &&& near_offsets(d.ctx.rep, 0x1_0000_0000)
        &&& self.rep@ == seq![d.ctx.rep.r0 as u32, d.ctx.rep.r1 as u32, d.ctx.rep.r2 as u32]
    }
}

/// Reads a dictionary buffer: a trained dictionary, or else raw content.
pub fn parse_cdict<'a>(dict: &'a [u8]) -> (r: Result<ParsedDict<'a>, Error>)
    ensures
        match r {
            Ok(p) => spec_dictionary(dict@) matches Ok(d) && p.stands_for(d) && p.entropy@
                == dict_entropy(dict@),
            Err(e) => spec_dictionary(dict@) == Err::<DictView, Error>(e),
        },
{
    if dict.len() >= 8 && load4(dict, 0) == DICT_MAGIC {
        match load_c_entropy(dict) {
            Ok(seed) => {
                let content = slice_subrange(dict, seed.entropy_size, dict.len());
                proof {
                    let rep = spec_dictionary(dict@)->Ok_0.ctx.rep;
                    assert(content@ =~= dict@.skip(seed.entropy_size as int));
                    assert(seed.rep@ =~= seq![rep.r0 as u32, rep.r1 as u32, rep.r2 as u32]);
                }
                Ok(
                    ParsedDict {
                        content,
                        entropy: seed.entropy,
                        rep: seed.rep,
                        dict_id: seed.dict_id,
                    },
                )
            },
            Err(e) => Err(e),
        }
    } else {
        let rep: [u32; 3] = [1, 4, 8];
        assert(rep@ =~= seq![1u32, 4u32, 8u32]);
        Ok(ParsedDict { content: dict, entropy: FseEntropyState::new(), rep, dict_id: 0 })
    }
}

/// Compresses the end of `data`, after the dictionary content that it starts
/// with, with a compressor that has loaded the content.
fn finish_with_dict(
    fc: FrameCompressor,
    parsed: ParsedDict,
    data: &Vec<u8>,
    Ghost(dict): Ghost<Seq<u8>>,
    Ghost(d): Ghost<DictView>,
    Ghost(src): Ghost<Seq<u8>>,
) -> (r: Result<Vec<u8>, Error>)
    requires
        fc.wf(),
        fc.stage == Stage::Init,
        fc.pledged == Some(src.len() as u64),
        fc.consumed == 0,
        !fc.checksum,
        parsed.stands_for(d),
        parsed.entropy@ == dict_entropy(dict),
        data@ == d.content + src,
        data@.len() <= u32::MAX,
        fc.hist@ == d.content,
        fc.decoder_max@ == reader_block_max(fc.cparams.window_log, fc.pledged),
        fc@.chunk_entered(d.content.len(), data@.len()).goes_on(
            data@,
            d.content.len() as int,
            data@.len() as int,
            d.content,
        ),
    ensures
        r matches Ok(out) && {
            &&& spec_decompress(with_dictionary(d), out@) == Ok::<Seq<u8>, Error>(src)
            &&& starts_frame(out@, fc.cparams.window_log, src.len(), d.id)
            &&& out@ == dict_frame_bytes(fc@, dict, d, src)
        },
{
    proof {
        reveal(dict_frame_bytes);
    }
    let ghost loaded = fc@;
    let mut fc = fc;
    let content_len: usize = parsed.content.len();
    let end: usize = data.len();
    fc.start_with(parsed.entropy, parsed.rep, parsed.dict_id, Ghost(d.ctx));
    let ghost head = fc.head_bytes();
    let ghost pledged = fc.pledged;
    let ghost wlog = fc.cparams.window_log;
    let mut out: Vec<u8> = Vec::new();
    proof {
        if src.len() > 0 {
            lemma_block_sizes(wlog, src.len() as u64);
        }
        assert(data@.take(content_len as int) =~= d.content);
        assert(d.content.skip(0) =~= d.content);
        assert(data@.subrange(content_len as int, end as int) =~= src);
    }
    let bytes = match fc.compress_end(&mut out, data, content_len, end) {
        Ok(b) => b,
        Err(e) => {
            return Err(e);
        },
    };
    proof {
        let opts = with_dictionary(d);
        lemma_frame(opts, wlog, pledged, false, d.id, Some(d), bytes@, fc.ctx@, src, 0x1_0000_0000);
        assert(Seq::<u8>::empty() + head =~= head);
        assert(out@.take(head.len() as int) =~= head);
        assert(out@ =~= dict_frame_bytes(loaded, dict, d, src));
    }
    Ok(out)
}

/// Compresses `src` with the dictionary `dict` in front of it. A decoder with
/// the same dictionary gives `src` back. Less than 8 bytes of dictionary are
/// not used, and a decoder does without them.
pub fn compress_with_dict(src: &[u8], dict: &[u8], level: i32) -> (r: Result<Vec<u8>, Error>)
    ensures
        ({
            let cp = spec_cparams(level as int, src@.len(), dict@.len(), CParamMode::NoAttachDict);
            if too_long(dict@.len() + src@.len()) {
                r == Err::<Vec<u8>, Error>(Error::Encode("inputs >= 4 GiB are not supported yet"))
            } else {
                match spec_dictionary(dict@) {
                    Err(e) => r == Err::<Vec<u8>, Error>(e),
                    Ok(d) => if dict@.len() >= 8 && needs_ldm(cp.strategy, cp.window_log) {
                        r == Err::<Vec<u8>, Error>(
                            Error::Encode(
                                "long-distance matching with a dictionary is not supported yet",
                            ),
                        )
                    } else {
                        &&& r matches Ok(out)
                        &&& spec_decompress(with_dictionary(d), out@) == Ok::<Seq<u8>, Error>(src@)
                        &&& starts_frame(out@, cp.window_log, src@.len(), d.id)
                        &&& out@ == bytes_with_dict(src@, dict@, d, cp)
                        &&& dict@.len() < 8 ==> spec_decompress(default_options(), out@) == Ok::<
                            Seq<u8>,
                            Error,
                        >(src@)
                    },
                }
            }
        }),
{
    let n: usize = src.len();
    let m: usize = dict.len();
    if n as u64 >= 0xFFFF_FFFD || m as u64 >= 0xFFFF_FFFD || m as u64 + n as u64 >= 0xFFFF_FFFD {
        return Err(Error::Encode("inputs >= 4 GiB are not supported yet"));
    }
    let cparams = get_cparams(level, n as u64, m as u64);
    let parsed = match parse_cdict(dict) {
        Ok(p) => p,
        Err(e) => {
            return Err(e);
        },
    };
    if m < 8 {
        let r = compress_plain(src, cparams);
        proof {
            law_raw_dictionary_changes_nothing(default_options(), r->Ok_0@, dict@);
        }
        return r;
    }
    let ghost d = spec_dictionary(dict@)->Ok_0;
    let pledged = Some(n as u64);
    let rep: [u32; 3] = [1, 4, 8];
    proof {
        assert(rep@ =~= first_offsets());
        lemma_fresh_near(cparams.window_log);
    }
    let mut fc = FrameCompressor::from_cparams(
        cparams,
        pledged,
        false,
        rep,
        Ghost(fresh_ctx()),
        Ghost(d.content),
        Ghost(reader_block_max(cparams.window_log, pledged)),
    );
    if fc.ldm.is_some() {
        return Err(Error::Encode("long-distance matching with a dictionary is not supported yet"));
    }
    let mut data: Vec<u8> = Vec::new();
    data.extend_from_slice(parsed.content);
    data.extend_from_slice(src);
    assert(data@ =~= d.content + src@);
    let content_len: usize = parsed.content.len();
    fc.prime_raw_prefix(&data, content_len);
    proof {
        reveal(fresh_frame);
        assert(data@.take(content_len as int) =~= d.content);
        assert(d.content.skip(0) =~= d.content);
        lemma_first_chunk(fc@, data@, content_len as int, data@.len() as int, d.content);
    }
    finish_with_dict(fc, parsed, &data, Ghost(dict@), Ghost(d), Ghost(src@))
}

/// The longest source for which a dictionary's own tables are searched, rather
/// than copied.
pub open spec fn spec_attach_cutoff(strategy: Strategy) -> nat {
    if strategy is Dfast {
        16384
    } else if 3 <= strategy.spec_num() <= 7 {
        32768
    } else {
        8192
    }
}

pub fn cdict_attach_cutoff(strategy: Strategy) -> (r: usize)
    ensures
        r == spec_attach_cutoff(strategy),
{
    match strategy {
        Strategy::Greedy
        | Strategy::Lazy
        | Strategy::Lazy2
        | Strategy::Btlazy2
        | Strategy::Btopt => 32768,
        Strategy::Dfast => 16384,
        _ => 8192,
    }
}

/// The tables that a dictionary's content has under its own parameters.
fn build_tables(content: &[u8], cdict: &CParams) -> (r: DictMatchState)
    requires
        cdict.wf(),
        8 < content@.len() <= u32::MAX,
        cdict.strategy.spec_num() <= 2 ==> cdict.hash_log <= 24 && cdict.chain_log <= 24,
    ensures
        r.wf(),
        r.content_len == content@.len(),
        r@.tables == dict_tables(content@, *cdict),
{
    proof {
        reveal(dict_tables);
    }
    let content_len: usize = content.len();
    let mls: u32 = if cdict.min_match < 4 {
        4
    } else {
        cdict.min_match
    };
    let tables = match cdict.strategy {
        Strategy::Greedy | Strategy::Lazy | Strategy::Lazy2 | Strategy::Btlazy2 => {
            let mut ms = LazyCtx::with_row_match_finder(cdict, use_row_match_finder(cdict));
            ms.use_cdict_hash_salt();
            ms.load_dictionary(content, content_len);
            DictTables::Lazy(ms)
        },
        Strategy::Btopt | Strategy::Btultra | Strategy::Btultra2 => {
            let mut ms = OptCtx::new(cdict);
            ms.load_dictionary(content, content_len);
            DictTables::Opt(ms)
        },
        Strategy::Dfast => {
            let mut hash_long = new_table(cdict.hash_log);
            let mut hash_small = new_table(cdict.chain_log);
            fill_dfast_hash_tables_for_cdict(
                &mut hash_long,
                &mut hash_small,
                content,
                content_len,
                cdict.hash_log,
                cdict.chain_log,
                mls,
            );
            DictTables::Dfast {
                hash_long,
                hash_small,
                hlog_l: cdict.hash_log,
                hlog_s: cdict.chain_log,
            }
        },
        Strategy::Fast => {
            let mut hash_table = new_table(cdict.hash_log);
            fill_fast_hash_table_for_cdict(
                &mut hash_table,
                content,
                content_len,
                cdict.hash_log,
                mls,
            );
            DictTables::Fast { hash_table, hlog: cdict.hash_log }
        },
    };
    DictMatchState { tables, content_len }
}

/// A compressor that searches the tables of an attached dictionary beside its
/// own.
pub fn attach_cdict_compressor(
    content: &[u8],
    cdict: CParams,
    level: i32,
    pledged: Option<u64>,
    checksum: bool,
    Ghost(decoder_max): Ghost<nat>,
) -> (r: FrameCompressor)
    requires
        cdict.wf(),
        8 < content@.len() <= u32::MAX,
        cdict.strategy.spec_num() <= 2 ==> cdict.hash_log <= 24 && cdict.chain_log <= 24,
    ensures
        r.wf(),
        r.cparams.strategy == cdict.strategy,
        r.cparams.window_log == spec_cparams(
            level as int,
            match pledged {
                Some(n) => n as nat,
                None => CONTENTSIZE_UNKNOWN as nat,
            },
            0,
            CParamMode::NoAttachDict,
        ).window_log,
        r.ldm is Some <==> needs_ldm(r.cparams.strategy, r.cparams.window_log),
        r.pledged == pledged,
        r.checksum == checksum,
        r.stage == Stage::Init,
        r.consumed == 0,
        r.xxh.bytes() == Seq::<u8>::empty(),
        r.hist@ == content@,
        r.decoder_max@ == decoder_max,
        r@ == attached_frame(content@, cdict, level as int, pledged, checksum),
{
    proof {
        reveal(attached_frame);
    }
    let src_size: u64 = match pledged {
        Some(n) => n,
        None => CONTENTSIZE_UNKNOWN,
    };
    let mut working = adjust_cparams_internal(cdict, src_size, 0, CParamMode::NoAttachDict);
    working.window_log = get_cparams(level, src_size, 0).window_log;
    let rep: [u32; 3] = [1, 4, 8];
    proof {
        assert(rep@ =~= first_offsets());
        lemma_fresh_near(working.window_log);
    }
    let mut fc = FrameCompressor::from_cparams(
        working,
        pledged,
        checksum,
        rep,
        Ghost(fresh_ctx()),
        Ghost(content@),
        Ghost(decoder_max),
    );
    match cdict.strategy {
        Strategy::Greedy | Strategy::Lazy | Strategy::Lazy2 | Strategy::Btlazy2 => {
            fc.matcher =
            Matcher::Lazy(LazyCtx::with_row_match_finder(&working, use_row_match_finder(&cdict)));
        },
        _ => {},
    }
    fc.dict_match_state = Some(build_tables(content, &cdict));
    fc
}

/// A compressor over a copy of the dictionary's tables, the dictionary's
/// content standing at the start of `data`. The window, and whether blocks are
/// split, go by the parameters of the source.
fn copy_cdict_compressor(
    data: &Vec<u8>,
    content_len: usize,
    cdict: CParams,
    source: CParams,
    pledged: Option<u64>,
    Ghost(content): Ghost<Seq<u8>>,
    Ghost(decoder_max): Ghost<nat>,
) -> (r: FrameCompressor)
    requires
        cdict.wf(),
        source.wf(),
        8 < content_len <= data@.len() <= u32::MAX - 2,
    ensures
        r.wf(),
        r.cparams == (CParams { window_log: source.window_log, ..cdict }),
        r.ldm is Some <==> needs_ldm(r.cparams.strategy, r.cparams.window_log),
        r.pledged == pledged,
        !r.checksum,
        r.stage == Stage::Init,
        r.consumed == 0,
        r.hist@ == content,
        r.decoder_max@ == decoder_max,
        r@ == copied_frame(data@, content_len as int, cdict, source, pledged),
{
    proof {
        reveal(copied_frame);
        reveal(fresh_frame);
    }
    let working = CParams { window_log: source.window_log, ..cdict };
    let rep: [u32; 3] = [1, 4, 8];
    proof {
        assert(rep@ =~= first_offsets());
        lemma_fresh_near(working.window_log);
    }
    let mut fc = FrameCompressor::from_cparams(
        working,
        pledged,
        false,
        rep,
        Ghost(fresh_ctx()),
        Ghost(content),
        Ghost(decoder_max),
    );
    match cdict.strategy {
        Strategy::Greedy | Strategy::Lazy | Strategy::Lazy2 | Strategy::Btlazy2 => {
            let mut ctx = LazyCtx::with_row_match_finder(&working, use_row_match_finder(&cdict));
            ctx.use_cdict_hash_salt();
            ctx.load_dictionary(data, content_len);
            fc.matcher = Matcher::Lazy(ctx);
        },
        _ => match &mut fc.matcher {
            Matcher::Fast(ctx) => {
                fill_fast_hash_table_for_cctx_full(ctx, data, content_len);
            },
            Matcher::Dfast(ctx) => {
                fill_dfast_hash_tables_for_cctx_full(ctx, data, content_len);
            },
            Matcher::Opt(ctx) => {
                ctx.load_dictionary(data, content_len);
            },
            Matcher::Lazy(_) => {},
        },
    }
    if !block_splitter_enabled(&source) {
        fc.split_blocks = false;
    }
    let window = Window::preloaded_ext_dict(content_len, data.len() - content_len);
    fc.preload(window, window.dict_limit);
    fc
}

/// The parameters of a digested dictionary's own tables.
pub open spec fn cdict_cparams(level: int, dict_size: nat) -> CParams {
    spec_cparams(level, CONTENTSIZE_UNKNOWN as nat, dict_size, CParamMode::CreateCDict)
}

/// The window log of a frame compressed with a digested dictionary: that of
/// the source alone where the dictionary is attached.
pub open spec fn cdict_window_log(level: int, src_size: nat, dict_size: nat) -> u32 {
    let attached = src_size <= spec_attach_cutoff(cdict_cparams(level, dict_size).strategy);
    spec_cparams(
        level,
        src_size,
        if attached {
            0
        } else {
            dict_size
        },
        CParamMode::NoAttachDict,
    ).window_log
}

/// Compresses `src` with a dictionary that is digested first, under parameters
/// of its own: its tables are attached for a short source, and copied for a
/// longer one. A decoder with the same dictionary gives `src` back.
#[verifier::rlimit(30)]
pub fn compress_with_cdict(src: &[u8], dict: &[u8], level: i32) -> (r: Result<Vec<u8>, Error>)
    ensures
        ({
            let window_log = cdict_window_log(level as int, src@.len(), dict@.len());
            let strategy = cdict_cparams(level as int, dict@.len()).strategy;
            if too_long(dict@.len() + src@.len()) {
                r == Err::<Vec<u8>, Error>(Error::Encode("inputs >= 4 GiB are not supported yet"))
            } else {
                match spec_dictionary(dict@) {
                    Err(e) => r == Err::<Vec<u8>, Error>(e),
                    Ok(d) => if d.content.len() <= 8 {
                        r == Err::<Vec<u8>, Error>(
                            Error::Encode(
                                "CDict (Path B): dictionaries with <= 8 bytes of content are not supported yet",
                            ),
                        )
                    } else if needs_ldm(strategy, window_log) {
                        r == Err::<Vec<u8>, Error>(
                            Error::Encode("long-distance matching with a CDict is not supported yet"),
                        )
                    } else {
                        &&& r matches Ok(out)
                        &&& spec_decompress(with_dictionary(d), out@) == Ok::<Seq<u8>, Error>(src@)
                        &&& starts_frame(out@, window_log, src@.len(), d.id)
                        &&& out@ == bytes_with_cdict(
                            src@,
                            dict@,
                            d,
                            level as int,
                            cdict_cparams(level as int, dict@.len()),
                            src@.len() <= spec_attach_cutoff(strategy),
                            spec_cparams(
                                level as int,
                                src@.len(),
                                dict@.len(),
                                CParamMode::NoAttachDict,
                            ),
                        )
                    },
                }
            }
        }),
{
    let n: usize = src.len();
    let m: usize = dict.len();
    if n as u64 >= 0xFFFF_FFFD || m as u64 >= 0xFFFF_FFFD || m as u64 + n as u64 >= 0xFFFF_FFFD {
        return Err(Error::Encode("inputs >= 4 GiB are not supported yet"));
    }
    let cdict = get_cparams_create_cdict(level, m as u64);
    let parsed = match parse_cdict(dict) {
        Ok(p) => p,
        Err(e) => {
            return Err(e);
        },
    };
    let ghost d = spec_dictionary(dict@)->Ok_0;
    let content_len: usize = parsed.content.len();
    if content_len <= HASH_READ_SIZE {
        return Err(
            Error::Encode(
                "CDict (Path B): dictionaries with <= 8 bytes of content are not supported yet",
            ),
        );
    }
    proof {
        lemma_content_fits(dict@);
    }
    let mut data: Vec<u8> = Vec::new();
    data.extend_from_slice(parsed.content);
    data.extend_from_slice(src);
    assert(data@ =~= d.content + src@);
    let pledged = Some(n as u64);
    let fc = if n <= cdict_attach_cutoff(cdict.strategy) {
        let ghost wlog = cdict_window_log(level as int, src@.len(), dict@.len());
        let mut fc = attach_cdict_compressor(
            parsed.content,
            cdict,
            level,
            pledged,
            false,
            Ghost(reader_block_max(wlog, pledged)),
        );
        let window = Window::preloaded_attached_dict(content_len, n);
        fc.preload(window, window.dict_limit);
        fc
    } else {
        let source = get_cparams(level, n as u64, m as u64);
        copy_cdict_compressor(
            &data,
            content_len,
            cdict,
            source,
            pledged,
            Ghost(d.content),
            Ghost(reader_block_max(source.window_log, pledged)),
        )
    };
    if fc.ldm.is_some() {
        return Err(Error::Encode("long-distance matching with a CDict is not supported yet"));
    }
    proof {
        reveal(copied_frame);
        reveal(attached_frame);
        reveal(fresh_frame);
        assert(data@.take(content_len as int) =~= d.content);
        assert(d.content.skip(0) =~= d.content);
        lemma_first_chunk(fc@, data@, content_len as int, data@.len() as int, d.content);
    }
    finish_with_dict(fc, parsed, &data, Ghost(dict@), Ghost(d), Ghost(src@))
}

/// What a source in chunks needs to be compressed with an attached dictionary:
/// the compressor, and a buffer that starts with the dictionary's content and
/// has room for a window and a block after it.
pub struct StreamCdictInit {
    pub fc: FrameCompressor,
    pub in_buff: Vec<u8>,
    pub content_len: usize,
}

/// Prepares to compress a source in chunks with an attached dictionary. A
/// pledged size for which the dictionary would be copied is refused.
#[verifier::rlimit(80)]
pub fn streaming_cdict_init(dict: &[u8], level: i32, pledged: Option<u64>, checksum: bool) -> (r: Result<
    StreamCdictInit,
    Error,
>)
    requires
        dict@.len() <= u32::MAX - 2,
        dict@.len() + 0x8002_0000 <= usize::MAX,
    ensures
        ({
            let cdict = cdict_cparams(level as int, dict@.len());
            match spec_dictionary(dict@) {
                Err(e) => r == Err::<StreamCdictInit, Error>(e),
                Ok(d) => if d.content.len() <= 8 {
                    r == Err::<StreamCdictInit, Error>(
                        Error::Encode(
                            "CDict (Path B): dictionaries with <= 8 bytes of content are not supported yet",
                        ),
                    )
                } else if pledged matches Some(n) && n > spec_attach_cutoff(cdict.strategy) {
                    r == Err::<StreamCdictInit, Error>(
                        Error::Encode(
                            "streaming with a CDict above the attach cutoff (copy path) is not supported yet",
                        ),
                    )
                } else {
                    &&& r matches Ok(init)
                    &&& init.fc.wf()
                    &&& init.fc@ == attached_stream(
                        dict@,
                        d,
                        cdict,
                        level as int,
                        pledged,
                        checksum,
                    )
                    &&& init.fc.ctx@ == d.ctx
                    &&& init.fc.hist@ == d.content
                    &&& init.fc.xxh.bytes() == Seq::<u8>::empty()
                    &&& init.fc.decoder_max@ == reader_block_max(
                        init.fc.cparams.window_log,
                        pledged,
                    )
                    &&& init.content_len == d.content.len()
                    &&& init.in_buff@ == d.content + Seq::new(
                        (init.fc.window_size + init.fc.block_size_max) as nat,
                        |i: int| 0u8,
                    )
                },
            }
        }),
{
    let cdict = get_cparams_create_cdict(level, dict.len() as u64);
    let parsed = match parse_cdict(dict) {
        Ok(p) => p,
        Err(e) => {
            return Err(e);
        },
    };
    let ghost d = spec_dictionary(dict@)->Ok_0;
    let content_len: usize = parsed.content.len();
    if content_len <= HASH_READ_SIZE {
        return Err(
            Error::Encode(
                "CDict (Path B): dictionaries with <= 8 bytes of content are not supported yet",
            ),
        );
    }
    if let Some(n) = pledged {
        if n > cdict_attach_cutoff(cdict.strategy) as u64 {
            return Err(
                Error::Encode(
                    "streaming with a CDict above the attach cutoff (copy path) is not supported yet",
                ),
            );
        }
    }
    proof {
        reveal(attached_stream);
        lemma_content_fits(dict@);
    }
    let ghost wlog = spec_cparams(
        level as int,
        match pledged {
            Some(n) => n as nat,
            None => CONTENTSIZE_UNKNOWN as nat,
        },
        0,
        CParamMode::NoAttachDict,
    ).window_log;
    let mut fc = attach_cdict_compressor(
        parsed.content,
        cdict,
        level,
        pledged,
        checksum,
        Ghost(reader_block_max(wlog, pledged)),
    );
    fc.start_with(parsed.entropy, parsed.rep, parsed.dict_id, Ghost(d.ctx));
    let window = Window::streaming_attached_dict(content_len);
    fc.window = window;
    fc.matcher.resume_at(window.dict_limit);
    proof {
        lemma2_to64();
        lemma_pow2_strictly_increases(fc.cparams.window_log as nat, 31);
    }
    let room: usize = fc.window_size() as usize + fc.block_size_max();
    let mut in_buff: Vec<u8> = Vec::new();
    in_buff.extend_from_slice(parsed.content);
    in_buff.resize(content_len + room, 0);
    proof {
        let want = d.content + Seq::new(room as nat, |i: int| 0u8);
        assert forall|i: int| 0 <= i < want.len() implies #[trigger] in_buff@[i] == want[i] by {
            if i < content_len {
                assert(in_buff@.subrange(0, content_len as int)[i] == d.content[i]);
            }
        }
        assert(in_buff@ =~= want);
    }
    Ok(StreamCdictInit { fc, in_buff, content_len })
}

/// A dictionary's content is a part of its buffer.
proof fn lemma_content_fits(bytes: Seq<u8>)
    ensures
        spec_dictionary(bytes) matches Ok(d) ==> d.content.len() <= bytes.len(),
{
}

} // verus!
