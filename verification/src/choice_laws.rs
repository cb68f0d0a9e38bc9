//! What is chosen for a frame by its parameters alone: finders and their
//! tables, block sizes, and what is worth keeping.

use crate::block::SeqKind;
use crate::block_encode_model::{
    basic_header_bytes, literals_section, spec_block, spec_choice, EntropyView, HufStateView,
};
use crate::blocks_encode::BlockKind;
use crate::compress::too_long;
use crate::compress_dict::{cdict_window_log, spec_attach_cutoff};
use crate::compress_model::{
    attached_frame, bytes_with_dict, chunks_made, dict_frame_bytes, first_offsets, frame_bytes,
};
use crate::compress_mt::max_prefix;
use crate::cparams::{spec_adjust, spec_cparams, CParamMode, CParams, Strategy};
use crate::dictionary::DictView;
use crate::frame_encode::block_header_bytes;
use crate::frame_model::{chunk_made, fresh_frame, last_chunk_made, FrameView, MatcherView};
use crate::fse_encode_model::FseCView;
use crate::huffman_encode::HufRepeat;
use crate::layout::Layout;
use crate::lazy_model::fresh_lazy;
use crate::lazy_search::{limited, SearchMethod};
use crate::literals_encode::{spec_min_gain, spec_min_literals};
use crate::opt_match_model::OptState;
use crate::opt_model::is_tried_first;
use crate::parser::index_of;
use crate::seq_store::Triple;
use crate::seq_tables::{FseRepeat, SymbolEncodingType};
use vstd::arithmetic::power2::{lemma2_to64, lemma_pow2_pos, lemma_pow2_strictly_increases, pow2};
use vstd::prelude::*;

verus! {

/// A frame starts with an empty window, blocks of up to 128 KiB (or the window,
/// or the content, if that is less), literals as they are with the negative
/// levels, and with blocks split after the fact where a strong strategy has a
/// window of at least 128 KiB.
pub proof fn law_frames_start(cp: CParams, pledged: Option<u64>, checksum: bool, rep: Seq<u32>)
    requires
        cp.wf(),
    ensures
        ({
            let f = fresh_frame(cp, pledged, checksum, rep);
            let window = pow2(cp.window_log as nat);
            &&& f.block_size_max <= 0x2_0000
            &&& f.block_size_max <= window
            &&& pledged matches Some(n) ==> f.block_size_max <= n || n == 0
            &&& f.block_size_max == 0x2_0000 || f.block_size_max == window || pledged is Some
                && f.block_size_max == if pledged->0 == 0 {
                1
            } else {
                pledged->0
            }
            &&& f.raw_literals <==> cp.strategy is Fast && cp.target_length > 0
            &&& f.split_blocks <==> window >= 0x2_0000 && (cp.strategy is Btopt || cp.strategy is Btultra
                || cp.strategy is Btultra2)
            &&& f.reach == window
            &&& f.rep == rep && f.first && f.consumed == 0 && f.produced == 0
            &&& f.dict_id == 0 && f.dict is None && !f.preloaded
            &&& f.window.low_limit == 2 && f.window.dict_limit == 2 && f.window.next_src_idx == 2
        }),
{
    reveal(fresh_frame);
    lemma2_to64();
    lemma_pow2_pos(cp.window_log as nat);
    if cp.window_log < 17 {
        lemma_pow2_strictly_increases(cp.window_log as nat, 17);
    } else if cp.window_log > 17 {
        lemma_pow2_strictly_increases(17, cp.window_log as nat);
    }
}

/// Each strategy has its finder, with tables of the sizes that the parameters
/// say, all empty. The fast finders hash at least four bytes, the lazy ones
/// four to six; the lazy ones look one or two positions ahead, and have rows
/// of 16 to 64 entries once the window is larger than 16 KiB.
#[verifier::rlimit(30)]
pub proof fn law_finders_of_strategies(cp: CParams, pledged: Option<u64>, checksum: bool, rep: Seq<u32>)
    requires
        cp.wf(),
    ensures
        ({
            let m = fresh_frame(cp, pledged, checksum, rep).matcher;
            let least: u32 = if cp.min_match == 3 {
                4
            } else {
                cp.min_match
            };
            let lazy_bytes: u32 = if least == 7 {
                6
            } else {
                least
            };
            match cp.strategy {
                Strategy::Fast => {
                    &&& m matches MatcherView::Fast { setup, table }
                    &&& setup.mls == least && setup.hlog == cp.hash_log
                    &&& setup.step_size == if cp.target_length == 0 {
                        2int
                    } else {
                        cp.target_length + 1
                    }
                    &&& table == Seq::new(pow2(cp.hash_log as nat), |i: int| 0u32)
                },
                Strategy::Dfast => {
                    &&& m matches MatcherView::Dfast { logs, window_log, tables }
                    &&& logs.mls == least && logs.long == cp.hash_log && logs.small == cp.chain_log
                    &&& tables.long == Seq::new(pow2(cp.hash_log as nat), |i: int| 0u32)
                    &&& tables.small == Seq::new(pow2(cp.chain_log as nat), |i: int| 0u32)
                },
                Strategy::Greedy | Strategy::Lazy | Strategy::Lazy2 | Strategy::Btlazy2 => {
                    &&& m matches MatcherView::Lazy(s)
                    &&& s.mls == lazy_bytes
                    &&& s.depth == if cp.strategy is Greedy {
                        0int
                    } else if cp.strategy is Lazy {
                        1
                    } else {
                        2
                    }
                    &&& s.method == if cp.strategy is Btlazy2 {
                        SearchMethod::BinaryTree
                    } else if cp.window_log > 14 {
                        SearchMethod::RowHash
                    } else {
                        SearchMethod::HashChain
                    }
                    &&& 4 <= s.row_log <= 6
                    &&& 4 <= cp.search_log <= 6 ==> s.row_log == cp.search_log
                    &&& cp.search_log < 4 ==> s.row_log == 4
                    &&& cp.search_log > 6 ==> s.row_log == 6
                    &&& s.search_log == cp.search_log && s.window_log == cp.window_log
                    &&& s.hash == Seq::new(pow2(cp.hash_log as nat), |i: int| 0u32)
                },
                _ => {
                    &&& m matches MatcherView::Opt(s)
                    &&& s.is_ultra2 <==> cp.strategy is Btultra2
                    &&& s.stats.ultra <==> cp.strategy is Btultra || cp.strategy is Btultra2
                    &&& s.mls == if cp.min_match == 7 {
                        6
                    } else {
                        cp.min_match
                    }
                    &&& s.hash_log3 == if cp.min_match != 3 {
                        0
                    } else if cp.window_log > 17 {
                        17
                    } else {
                        cp.window_log
                    }
                    &&& s.sufficient_len == if cp.target_length > 4095 {
                        4095
                    } else {
                        cp.target_length
                    }
                    &&& s.search_log == cp.search_log && s.window_log == cp.window_log
                    &&& s.hash == Seq::new(pow2(cp.hash_log as nat), |i: int| 0u32)
                    &&& s.tree == Seq::new(pow2(cp.chain_log as nat), |i: int| 0u32)
                },
            }
        }),
{
    reveal(fresh_frame);
    reveal(fresh_lazy);
}

/// A block takes what is left, but no more than fits; only a full block of
/// 128 KiB may be cut, and only once three bytes have been saved.
pub proof fn law_blocks_take_what_fits(f: FrameView, data: Seq<u8>, pos: int, end: int, savings: i64)
    requires
        pos < end,
        0 < f.block_size_max <= 0x2_0000,
    ensures
        ({
            let n = f.next_size(data, pos, end, savings);
            &&& end - pos < 0x2_0000 || f.block_size_max < 0x2_0000 || savings < 3 ==> {
                &&& n <= end - pos && n <= f.block_size_max
                &&& n == end - pos || n == f.block_size_max
            }
            &&& end - pos >= 0x2_0000 && f.block_size_max == 0x2_0000 && savings >= 3 ==> n
                == crate::pre_split::spec_split(
                data.subrange(pos, pos + 0x2_0000),
                match f.cparams.strategy {
                    Strategy::Fast => 0,
                    Strategy::Dfast => 1,
                    Strategy::Greedy | Strategy::Lazy => 2,
                    Strategy::Lazy2 | Strategy::Btlazy2 => 3,
                    Strategy::Btopt | Strategy::Btultra | Strategy::Btultra2 => 4,
                },
            )
        }),
{
}

/// What a compressed section or block has to save: two bytes and a 64th of its
/// content, a 128th with the second strongest strategy, a 256th with the
/// strongest.
pub proof fn law_savings(n: nat, s: Strategy)
    ensures
        ({
            let gain = spec_min_gain(n, s.spec_num() as int) as int;
            let part: int = if s is Btultra2 {
                256
            } else if s is Btultra {
                128
            } else {
                64
            };
            &&& gain >= 2
            &&& part * (gain - 2) <= n < part * (gain - 1)
        }),
{
}

/// Literals are worth compressing from 64 on; from 32, 16 and 8 on with the
/// three strongest strategies; and from 6 on with a table at hand.
pub proof fn law_few_literals_stay_raw(
    src: Seq<u8>,
    s: Strategy,
    suspect_flat: bool,
    disable: bool,
    prev: HufStateView,
)
    ensures
        ({
            let least: int = if prev.repeat == HufRepeat::Valid {
                6
            } else if s is Btultra2 {
                8
            } else if s is Btultra {
                16
            } else if s is Btopt {
                32
            } else {
                64
            };
            let r = literals_section(src, s.spec_num() as int, suspect_flat, disable, prev);
            &&& spec_min_literals(s.spec_num() as int, prev.repeat == HufRepeat::Valid) == least
            &&& disable || src.len() < least ==> r.0 == basic_header_bytes(0, src.len()) + src && r.1
                is None
        }),
{
    reveal(literals_section);
}

/// A dictionary's own tables are searched for sources of up to 8 KiB, 16 KiB or
/// 32 KiB, by the dictionary's strategy; for longer ones they are copied. The
/// window of a frame is then that of its source alone, or of both.
pub proof fn law_short_sources_attach(s: Strategy, level: int, src: nat, dict: nat)
    ensures
        spec_attach_cutoff(s) == match s {
            Strategy::Fast => 8192,
            Strategy::Dfast => 16384,
            Strategy::Greedy
            | Strategy::Lazy
            | Strategy::Lazy2
            | Strategy::Btlazy2
            | Strategy::Btopt => 32768,
            Strategy::Btultra | Strategy::Btultra2 => 8192nat,
        },
        ({
            let own = spec_cparams(level, 0xFFFF_FFFF_FFFF_FFFF, dict, CParamMode::CreateCDict);
            &&& src <= spec_attach_cutoff(own.strategy) ==> cdict_window_log(level, src, dict)
                == spec_cparams(level, src, 0, CParamMode::NoAttachDict).window_log
            &&& src > spec_attach_cutoff(own.strategy) ==> cdict_window_log(level, src, dict)
                == spec_cparams(level, src, dict, CParamMode::NoAttachDict).window_log
        }),
{
}

/// A frame with an attached dictionary searches as the dictionary does, with
/// tables that are fitted to its source, and the window of its source.
pub proof fn law_attached_frames_search_as_the_dictionary(
    content: Seq<u8>,
    cdict: CParams,
    level: int,
    n: u64,
    checksum: bool,
)
    ensures
        ({
            let f = attached_frame(content, cdict, level, Some(n), checksum);
            let fitted = spec_adjust(cdict, n as nat, 0, CParamMode::NoAttachDict);
            &&& f.cparams.strategy == cdict.strategy
            &&& f.cparams.search_log == cdict.search_log
            &&& f.cparams.min_match == cdict.min_match
            &&& f.cparams.target_length == cdict.target_length
            &&& f.cparams.hash_log == fitted.hash_log
            &&& f.cparams.chain_log == fitted.chain_log
            &&& f.cparams.window_log == spec_cparams(
                level,
                n as nat,
                0,
                CParamMode::NoAttachDict,
            ).window_log
            &&& f.pledged == Some(n) && f.checksum == checksum
            &&& f.dict is Some && f.dict->0.content_len == content.len()
        }),
{
    reveal(attached_frame);
    reveal(fresh_frame);
}

/// Where a match was so long that 384 positions have not been entered, at most
/// the last 192 of them are: as many as it was longer than that.
pub proof fn law_long_matches_are_passed_over(next: u32, curr: u32)
    requires
        next <= curr,
    ensures
        curr - next <= 384 ==> limited(next, curr) == next,
        384 < curr - next <= 576 ==> curr - limited(next, curr) == curr - next - 384,
        curr - next > 576 ==> curr - limited(next, curr) == 192,
{
}

/// Sources are taken up to four bytes short of 4 GiB; and the overlap of
/// sections may be eight times what the hash table indexes, or twice what the
/// chain table does.
pub proof fn law_limits(n: nat, cp: CParams)
    requires
        cp.wf(),
    ensures
        too_long(n) <==> n + 3 >= 0x1_0000_0000,
        max_prefix(cp) >= 8 * pow2(cp.hash_log as nat),
        max_prefix(cp) >= 2 * pow2(cp.chain_log as nat),
        max_prefix(cp) == 8 * pow2(cp.hash_log as nat) || max_prefix(cp) == 2 * pow2(cp.chain_log as nat),
{
    lemma2_to64();
    vstd::arithmetic::power2::lemma_pow2_adds(3, cp.hash_log as nat);
    vstd::arithmetic::power2::lemma_pow2_adds(1, cp.chain_log as nat);
    let a = (cp.hash_log + 3) as nat;
    let b = (cp.chain_log + 1) as nat;
    if a < b {
        lemma_pow2_strictly_increases(a, b);
    } else if b < a {
        lemma_pow2_strictly_increases(b, a);
    }
}

/// A block is compressed, one repeated byte, or as it is, and takes no more
/// bytes than its content and a header of three.
pub proof fn law_blocks_never_grow(
    block: Seq<u8>,
    q: Seq<Triple>,
    literals: Seq<u8>,
    e: EntropyView,
    s: Strategy,
    disable: bool,
    last: bool,
    first: bool,
    reach: nat,
)
    requires
        block.len() > 0,
    ensures
        ({
            let b = spec_block(
                block,
                q,
                literals,
                e,
                s.spec_num() as int,
                disable,
                last,
                first,
                reach,
            );
            &&& b.bytes.len() <= 3 + block.len()
            &&& b.kind == BlockKind::Raw ==> b.bytes == block_header_bytes(last, 0, block.len()) + block
                && b.entropy == e
            &&& b.kind == BlockKind::Rle ==> {
                &&& b.bytes == block_header_bytes(last, 1, block.len()) + seq![block[0]]
                &&& b.entropy == e
                &&& !first
                &&& forall|i: int| 0 <= i < block.len() ==> #[trigger] block[i] == block[0]
            }
            &&& b.kind == BlockKind::Compressed ==> {
                let body = b.bytes.len() - 3;
                &&& b.bytes.take(3) == block_header_bytes(last, 2, body as nat)
                &&& body + spec_min_gain(block.len(), s.spec_num() as int) < block.len()
            }
        }),
{
    reveal(spec_block);
    reveal(crate::block_encode_model::spec_body);
    let b = spec_block(block, q, literals, e, s.spec_num() as int, disable, last, first, reach);
    crate::frame_encode::lemma_block_header_len(last, 0, block.len());
    crate::frame_encode::lemma_block_header_len(last, 1, block.len());
    if b.kind == BlockKind::Compressed {
        let body = (b.bytes.len() - 3) as nat;
        crate::frame_encode::lemma_block_header_len(last, 2, body);
        let made = crate::block_encode_model::spec_body(
            q,
            literals,
            e,
            s.spec_num() as int,
            disable,
            block.len(),
        )->Ok_0->0;
        crate::frame_encode::lemma_block_header_len(last, 2, made.0.len());
        assert(b.bytes.take(3) =~= block_header_bytes(last, 2, body));
    }
}

/// The frame and the blocks after the first `k` chunks of 512 KiB of a section.
pub open spec fn after_chunks(f: FrameView, buf: Seq<u8>, pos: int, k: nat) -> (FrameView, Seq<u8>)
    decreases k,
{
    if k == 0 {
        (f, Seq::empty())
    } else {
        let (g, bytes) = after_chunks(f, buf, pos, (k - 1) as nat);
        let at = pos + (k - 1) * 0x8_0000;
        let (h, more) = chunk_made(g, buf, at, at + 0x8_0000, false);
        (h, bytes + more)
    }
}

proof fn lemma_chunks(f: FrameView, buf: Seq<u8>, pos: int, last: bool, k: nat, n: nat)
    requires
        k <= n,
        pos + n * 0x8_0000 <= buf.len(),
        n > 0 ==> pos + n * 0x8_0000 < buf.len(),
        buf.len() <= pos + (n + 1) * 0x8_0000,
    ensures
        ({
            let (g, bytes) = after_chunks(f, buf, pos, k);
            let (h, all) = after_chunks(f, buf, pos, n);
            let at = pos + n * 0x8_0000;
            chunks_made(g, buf, pos + k * 0x8_0000, last, bytes) == all + if last {
                last_chunk_made(h, buf, at, buf.len() as int)
            } else {
                chunk_made(h, buf, at, buf.len() as int, false).1
            }
        }),
    decreases n - k,
{
    reveal_with_fuel(chunks_made, 1);
    if k < n {
        lemma_chunks(f, buf, pos, last, k + 1, n);
    }
}

/// A section is compressed in chunks of 512 KiB, but for the last, which takes
/// what is left.
pub proof fn law_sections_in_chunks(f: FrameView, buf: Seq<u8>, pos: int, last: bool, n: nat)
    requires
        0 <= pos <= buf.len(),
        n > 0 ==> pos + n * 0x8_0000 < buf.len(),
        buf.len() <= pos + (n + 1) * 0x8_0000,
    ensures
        ({
            let (g, bytes) = after_chunks(f, buf, pos, n);
            let at = pos + n * 0x8_0000;
            chunks_made(f, buf, pos, last, Seq::empty()) == bytes + if last {
                last_chunk_made(g, buf, at, buf.len() as int)
            } else {
                chunk_made(g, buf, at, buf.len() as int, false).1
            }
        }),
{
    lemma_chunks(f, buf, pos, last, 0, n);
}

/// The choice of a component's table at the three fastest strategies: one code
/// alone if there is but one (and more than two of it, where the predefined
/// table would do); the one from before where it is known to do, for fewer than
/// a thousand sequences; the predefined one for few sequences, or where no code
/// stands out; else one of its own.
pub proof fn law_tables_are_chosen_quickly(
    repeat: FseRepeat,
    count: Seq<u32>,
    max: nat,
    most_frequent: nat,
    n: nat,
    kind: SeqKind,
    prev: Option<FseCView>,
    s: Strategy,
)
    requires
        s is Fast || s is Dfast || s is Greedy,
        most_frequent <= n,
    ensures
        ({
            let r = spec_choice(
                repeat,
                count,
                max,
                most_frequent,
                n,
                kind,
                prev,
                s.spec_num() as int,
            );
            let allowed = match kind {
                SeqKind::LiteralLength => max <= 35,
                SeqKind::Offset => max <= 28,
                SeqKind::MatchLength => max <= 52,
            };
            let few: int = (if kind is Offset {
                4int
            } else {
                8
            }) * (if s is Fast {
                9int
            } else if s is Dfast {
                8
            } else {
                7
            });
            let part: nat = if kind is Offset {
                16
            } else {
                32
            };
            &&& r is Ok
            &&& most_frequent == n ==> r->Ok_0 == if allowed && n <= 2 {
                SymbolEncodingType::Basic
            } else {
                SymbolEncodingType::Rle
            }
            &&& most_frequent < n && allowed && repeat == FseRepeat::Valid && n < 1000 ==> r->Ok_0
                == SymbolEncodingType::Repeat
            &&& most_frequent < n && allowed && !(repeat == FseRepeat::Valid && n < 1000) ==> r->Ok_0
                == if n < few || most_frequent < n / part {
                SymbolEncodingType::Basic
            } else {
                SymbolEncodingType::Compressed
            }
            &&& most_frequent < n && !allowed ==> r->Ok_0 == SymbolEncodingType::Compressed
        }),
{
    reveal(spec_choice);
    lemma2_to64();
}

/// The lightest of a full block's borders decide at the lowest effort: alike
/// ones leave it whole, and otherwise it is cut at a quarter, a half or three
/// quarters.
pub proof fn law_border_cuts(block: Seq<u8>)
    requires
        block.len() == 0x2_0000,
    ensures
        ({
            let n = crate::pre_split::spec_split(block, 0);
            n == 0x8000 || n == 0x1_0000 || n == 0x1_8000 || n == 0x2_0000
        }),
{
}

/// Chunks of 8 KiB are taken in at the higher ones, and a cut is made before
/// one of them.
pub proof fn law_chunk_cuts(
    block: Seq<u8>,
    rate: int,
    log: u32,
    pos: int,
    past: Seq<u32>,
    past_n: int,
    penalty: int,
)
    requires
        block.len() == 0x2_0000,
        0 <= pos <= block.len(),
        pos % 0x2000 == 0,
    ensures
        ({
            let n = crate::pre_split::chunk_cut(block, rate, log, pos, past, past_n, penalty);
            &&& n % 0x2000 == 0
            &&& pos <= n <= block.len()
        }),
    decreases block.len() - pos,
{
    if pos + 0x2000 <= block.len() {
        let e = crate::pre_split::recorded(block.subrange(pos, pos + 0x2000), rate, log);
        let n: int = (0x2000 - 1) / rate;
        if !crate::pre_split::differ(past, past_n, e, n, penalty, log) {
            law_chunk_cuts(
                block,
                rate,
                log,
                pos + 0x2000,
                crate::pre_split::added(past, e),
                past_n + n,
                if penalty > 0 {
                    penalty - 1
                } else {
                    0
                },
            );
        }
    }
}

/// A dictionary of fewer than eight bytes is as good as none.
pub proof fn law_short_dictionaries_are_ignored(src: Seq<u8>, dict: Seq<u8>, d: DictView, cp: CParams)
    ensures
        dict.len() < 8 ==> bytes_with_dict(src, dict, d, cp) == frame_bytes(src, cp),
        dict.len() >= 8 ==> bytes_with_dict(src, dict, d, cp) == dict_frame_bytes(
            fresh_frame(cp, Some(src.len() as u64), false, seq![1u32, 4u32, 8u32]).raw_prefix_primed(
                d.content + src,
                d.content.len() as int,
            ),
            dict,
            d,
            src,
        ),
{
    assert(first_offsets() =~= seq![1u32, 4u32, 8u32]);
}

/// The first block of a frame is parsed twice by the strongest strategy, if it
/// has more than eight bytes and nothing before it; no other block is.
pub proof fn law_first_blocks_are_tried(state: OptState, start: int, end: int, win: Layout, alone: bool)
    ensures
        is_tried_first(state, start, end, win, alone) ==> state.is_ultra2 && end - start > 8 && alone
            && win.low_limit == win.dict_limit,
        state.is_ultra2 && end - start > 8 && alone && win.low_limit == win.dict_limit
            && state.stats.ll_sum == 0 && index_of(start as nat, win.bias) == win.dict_limit
            ==> is_tried_first(state, start, end, win, alone),
{
}

} // verus!
