//! The bytes that compressing gives.

use crate::cparams::{spec_adjust, spec_cparams, CParamMode, CParams, Strategy};
use crate::dfast_model::{Logs, Tables};
use crate::dict_encode::dict_entropy;
use crate::dictionary::DictView;
use crate::frame_compress::Stage;
use crate::frame_model::{
    chunk_made, fresh_frame, head_of, last_chunk_made, AttachedDict, AttachedTables, FrameView, MatcherView,
};
use crate::lazy::loaded_state;
use crate::lazy_model::{fresh_lazy, spec_use_rows, LazyState};
use crate::opt_match_model::opt_loaded;
use crate::opt_matches::fresh_opt;
use crate::window::Window;
use vstd::arithmetic::power2::pow2;
use vstd::prelude::*;

verus! {

/// The recent offsets at the start of a frame.
pub open spec fn first_offsets() -> Seq<u32> {
    seq![1u32, 4u32, 8u32]
}

/// The frame of `src` with given parameters.
#[verifier::opaque]
pub open spec fn frame_bytes(src: Seq<u8>, cparams: CParams) -> Seq<u8> {
    let f = fresh_frame(cparams, Some(src.len() as u64), false, first_offsets());
    head_of(f) + last_chunk_made(f, src, 0, src.len() as int)
}

// ---------------------------------------------------------------------------
// Dictionaries.

/// The frame of `src`, made from `f` once that has loaded the content of the
/// dictionary `d`, whose bytes are `dict`. Matches may reach all of it.
#[verifier::opaque]
pub open spec fn dict_frame_bytes(f: FrameView, dict: Seq<u8>, d: DictView, src: Seq<u8>) -> Seq<u8> {
    let g = FrameView {
        entropy: dict_entropy(dict),
        rep: seq![d.ctx.rep.r0 as u32, d.ctx.rep.r1 as u32, d.ctx.rep.r2 as u32],
        dict_id: d.id,
        reach: 0x1_0000_0000,
        ..f
    };
    let data = d.content + src;
    head_of(g) + last_chunk_made(g, data, d.content.len() as int, data.len() as int)
}

/// The frame of `src` with the dictionary in front of it.
pub open spec fn bytes_with_dict(src: Seq<u8>, dict: Seq<u8>, d: DictView, cparams: CParams) -> Seq<u8> {
    if dict.len() < 8 {
        frame_bytes(src, cparams)
    } else {
        dict_frame_bytes(
            fresh_frame(
                cparams,
                Some(src.len() as u64),
                false,
                first_offsets(),
            ).raw_prefix_primed(d.content + src, d.content.len() as int),
            dict,
            d,
            src,
        )
    }
}

/// The state of the lazy match finders over a dictionary's content, without a
/// salt.
pub open spec fn lazy_over_dict(cparams: CParams, cdict: CParams, data: Seq<u8>, len: int) -> LazyState {
    loaded_state(
        LazyState { salt: 0, ..fresh_lazy(cparams, spec_use_rows(cdict)) },
        data,
        len,
    )
}

/// The tables that a dictionary's content has under its own parameters.
#[verifier::opaque]
pub open spec fn dict_tables(content: Seq<u8>, cdict: CParams) -> AttachedTables {
    let len = content.len() as int;
    let mls = if cdict.min_match < 4 {
        4
    } else {
        cdict.min_match
    };
    let none = |log: u32| Seq::new(pow2(log as nat), |i: int| 0u32);
    match cdict.strategy {
        Strategy::Fast => AttachedTables::Fast {
            table: crate::fast_model::all_tagged(
                none(cdict.hash_log),
                content,
                0,
                len,
                cdict.hash_log,
                mls,
                2,
            ),
            hlog: cdict.hash_log,
        },
        Strategy::Dfast => AttachedTables::Dfast {
            tables: crate::dfast_model::all_tagged(
                Tables { long: none(cdict.hash_log), small: none(cdict.chain_log) },
                content,
                0,
                len,
                Logs { long: cdict.hash_log, small: cdict.chain_log, mls },
                2,
            ),
            logs: Logs { long: cdict.hash_log, small: cdict.chain_log, mls: 0 },
        },
        Strategy::Greedy | Strategy::Lazy | Strategy::Lazy2 | Strategy::Btlazy2 => {
            AttachedTables::Lazy(lazy_over_dict(cdict, cdict, content, len))
        },
        _ => AttachedTables::Opt(opt_loaded(fresh_opt(cdict), content, len)),
    }
}

/// The parameters of a frame that searches an attached dictionary.
pub open spec fn attached_cparams(cdict: CParams, level: int, src_size: nat) -> CParams {
    CParams {
        window_log: spec_cparams(level, src_size, 0, CParamMode::NoAttachDict).window_log,
        ..spec_adjust(cdict, src_size, 0, CParamMode::NoAttachDict)
    }
}

/// A frame that searches the tables of an attached dictionary beside its own.
#[verifier::opaque]
pub open spec fn attached_frame(
    content: Seq<u8>,
    cdict: CParams,
    level: int,
    pledged: Option<u64>,
    checksum: bool,
) -> FrameView {
    let working = attached_cparams(
        cdict,
        level,
        match pledged {
            Some(n) => n as nat,
            None => 0xFFFF_FFFF_FFFF_FFFF,
        },
    );
    let f = fresh_frame(working, pledged, checksum, first_offsets());
    FrameView {
        matcher: if 3 <= cdict.strategy.spec_num() <= 6 {
            MatcherView::Lazy(fresh_lazy(working, spec_use_rows(cdict)))
        } else {
            f.matcher
        },
        dict: Some(
            AttachedDict {
                tables: dict_tables(content, cdict),
                content_len: content.len() as int,
            },
        ),
        ..f
    }
}

/// A frame that searches an attached dictionary, for a source that comes in
/// chunks after the dictionary's content.
#[verifier::opaque]
pub open spec fn attached_stream(
    dict: Seq<u8>,
    d: DictView,
    cdict: CParams,
    level: int,
    pledged: Option<u64>,
    checksum: bool,
) -> FrameView {
    let f = attached_frame(d.content, cdict, level, pledged, checksum);
    let start = (2 + d.content.len()) as u32;
    FrameView {
        entropy: dict_entropy(dict),
        rep: seq![d.ctx.rep.r0 as u32, d.ctx.rep.r1 as u32, d.ctx.rep.r2 as u32],
        dict_id: d.id,
        reach: 0x1_0000_0000,
        window: Window {
            seg_bias: 2,
            dict_bias: 2,
            low_limit: start,
            dict_limit: start,
            next_src_pos: d.content.len() as usize,
            next_src_idx: start,
        },
        matcher: f.matcher.resumed(start),
        ..f
    }
}

/// A frame over a copy of the dictionary's tables, the dictionary's content
/// standing at the start of `data`.
#[verifier::opaque]
pub open spec fn copied_frame(data: Seq<u8>, len: int, cdict: CParams, source: CParams, pledged: Option<u64>) -> FrameView {
    let working = CParams { window_log: source.window_log, ..cdict };
    let f = fresh_frame(working, pledged, false, first_offsets());
    let window = Window {
        seg_bias: 2,
        dict_bias: 2,
        low_limit: 2,
        dict_limit: (2 + len) as u32,
        next_src_pos: data.len() as usize,
        next_src_idx: (2 + data.len()) as u32,
    };
    FrameView {
        matcher: match f.matcher {
            MatcherView::Fast { setup, table } => MatcherView::Fast {
                setup,
                table: crate::fast_model::all_entered(
                    table,
                    data,
                    0,
                    len,
                    setup.hlog,
                    setup.mls,
                    2,
                ),
            },
            MatcherView::Dfast { logs, window_log, tables } => MatcherView::Dfast {
                logs,
                window_log,
                tables: crate::dfast_model::all_entered(tables, data, 0, len, logs, 2),
            },
            MatcherView::Lazy(_) => MatcherView::Lazy(lazy_over_dict(working, cdict, data, len)),
            MatcherView::Opt(s) => MatcherView::Opt(opt_loaded(s, data, len)),
        },
        split_blocks: f.split_blocks && source.window_log >= 17 && source.strategy.spec_num() >= 7,
        ..f
    }.laid_out(window, window.dict_limit)
}

/// The frame of `src` with a dictionary that was digested under the parameters
/// `cdict`: attached, or copied for a source with the parameters `source`.
pub open spec fn bytes_with_cdict(
    src: Seq<u8>,
    dict: Seq<u8>,
    d: DictView,
    level: int,
    cdict: CParams,
    attached: bool,
    source: CParams,
) -> Seq<u8> {
    let len = d.content.len();
    let pledged = Some(src.len() as u64);
    let window = Window {
        seg_bias: 2,
        dict_bias: 2,
        low_limit: (2 + len) as u32,
        dict_limit: (2 + len) as u32,
        next_src_pos: (len + src.len()) as usize,
        next_src_idx: (2 + len + src.len()) as u32,
    };
    let f = if attached {
        attached_frame(d.content, cdict, level, pledged, false).laid_out(
            window,
            window.dict_limit,
        )
    } else {
        copied_frame(d.content + src, len as int, cdict, source, pledged)
    };
    dict_frame_bytes(f, dict, d, src)
}

// ---------------------------------------------------------------------------
// Sections.

/// A section's frame at its start. `buf` is the section after `prefix` bytes of
/// those before it.
pub open spec fn section_frame(cparams: CParams, buf: Seq<u8>, prefix: int, pledged: u64, first: bool) -> FrameView {
    let f = fresh_frame(
        cparams,
        Some(pledged),
        false,
        if first {
            first_offsets()
        } else {
            seq![0u32, 0u32, 0u32]
        },
    );
    let g = if prefix > 0 {
        f.contiguous_prefix_primed(
            buf,
            prefix,
            if buf.len() - prefix > 524288 {
                prefix + 524288
            } else {
                buf.len() as int
            },
        )
    } else {
        f
    };
    if first {
        g
    } else {
        FrameView { stage: Stage::Ongoing, ..g }
    }
}

/// The blocks of `buf` from `pos` on, chunk by chunk, after those in `bytes`.
#[verifier::opaque]
pub open spec fn chunks_made(f: FrameView, buf: Seq<u8>, pos: int, last: bool, bytes: Seq<u8>) -> Seq<u8>
    decreases buf.len() - pos,
{
    let end = buf.len() as int;
    if end - pos > 524288 {
        let (f1, more) = chunk_made(f, buf, pos, pos + 524288, false);
        chunks_made(f1, buf, pos + 524288, last, bytes + more)
    } else {
        bytes + if last {
            last_chunk_made(f, buf, pos, end)
        } else {
            chunk_made(f, buf, pos, end, false).1
        }
    }
}

/// The blocks of the section `src[start .. end]`, which sees `prefix` bytes
/// before it.
pub open spec fn section_bytes(src: Seq<u8>, cparams: CParams, prefix: int, start: int, end: int) -> Seq<u8> {
    let buf = src.subrange(start - prefix, end);
    let pledged = if start == 0 {
        src.len() as u64
    } else {
        (end - start) as u64
    };
    chunks_made(
        section_frame(cparams, buf, prefix, pledged, start == 0),
        buf,
        prefix,
        end == src.len(),
        Seq::empty(),
    )
}

/// The blocks of the sections of `src` from `start` on, after those in `bytes`.
#[verifier::opaque]
pub open spec fn sections_made(src: Seq<u8>, cparams: CParams, overlap: nat, section: nat, start: int, bytes: Seq<u8>) -> Seq<
    u8,
>
    decreases src.len() - start,
{
    if start < src.len() {
        let end = if src.len() - start < section {
            src.len() as int
        } else {
            start + section
        };
        let prefix = if overlap < start {
            overlap as int
        } else {
            start
        };
        let more = section_bytes(src, cparams, prefix, start, end);
        if start < end {
            sections_made(src, cparams, overlap, section, end, bytes + more)
        } else {
            bytes + more
        }
    } else {
        bytes
    }
}

} // verus!
