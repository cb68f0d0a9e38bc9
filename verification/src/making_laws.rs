//! How a frame is put together: its header, its chunks, and block after block.

use crate::block_encode_model::{fresh_entropy, spec_block};
use crate::blocks_encode::BlockKind;
use crate::compress_model::{dict_frame_bytes, first_offsets, frame_bytes, section_bytes, section_frame};
use crate::cparams::CParams;
use crate::dict_encode::dict_entropy;
use crate::dictionary::DictView;
use crate::frame_compress::Stage;
use crate::frame_encode::{block_header_bytes, header_fields, le_bytes};
use crate::frame_laws::law_magic_number;
use crate::frame_model::{
    block_made, block_parsed, blocks_made, chunk_made, far_found, fresh_frame, laid_made, last_chunk_made, FrameView,
};
use crate::ldm_model::ldm_generated;
use crate::opt_model::{candidates, path_of, stretch_priced, OptScene, OptSearch};
use crate::parser::{block_literals, index_of};
use crate::post_split_model::offsets_settled;
use vstd::arithmetic::power2::pow2;
use vstd::prelude::*;

verus! {

/// The magic number, and a header.
pub open spec fn headed(window_log: u32, pledged: Option<u64>, checksum: bool, dict_id: u32) -> Seq<u8> {
    seq![0x28u8, 0xB5u8, 0x2Fu8, 0xFDu8] + header_fields(window_log, pledged, checksum, dict_id)
}

/// A frame is its header, which says how long the content is and that there is
/// no checksum, and the blocks that a fresh frame makes of its one chunk; or
/// for an empty source one empty block.
pub proof fn law_frames_are_made(src: Seq<u8>, cp: CParams)
    ensures
        ({
            let f = fresh_frame(cp, Some(src.len() as u64), false, seq![1u32, 4u32, 8u32]);
            &&& src.len() > 0 ==> frame_bytes(src, cp) == headed(
                cp.window_log,
                Some(src.len() as u64),
                false,
                0,
            ) + chunk_made(f, src, 0, src.len() as int, true).1
            &&& src.len() == 0 ==> frame_bytes(src, cp) == headed(cp.window_log, Some(0), false, 0)
                + seq![1u8, 0u8, 0u8]
        }),
{
    reveal(frame_bytes);
    reveal(fresh_frame);
    reveal(last_chunk_made);
    reveal(chunk_made);
    law_magic_number();
    assert(first_offsets() =~= seq![1u32, 4u32, 8u32]);
    reveal_with_fuel(le_bytes, 4);
    assert(block_header_bytes(true, 0, 0) =~= seq![1u8, 0u8, 0u8]);
    assert(Seq::<u8>::empty() + seq![1u8, 0u8, 0u8] =~= seq![1u8, 0u8, 0u8]);
}

/// A frame with a dictionary names it in its header, and is made from the
/// dictionary's recent offsets and tables, after the dictionary's content.
pub proof fn law_dictionary_frames_are_made(f: FrameView, dict: Seq<u8>, d: DictView, src: Seq<u8>)
    requires
        f.stage == Stage::Init,
    ensures
        ({
            let g = FrameView {
                entropy: dict_entropy(dict),
                rep: seq![d.ctx.rep.r0 as u32, d.ctx.rep.r1 as u32, d.ctx.rep.r2 as u32],
                dict_id: d.id,
                reach: pow2(32),
                ..f
            };
            let n = d.content.len() as int;
            dict_frame_bytes(f, dict, d, src) == headed(
                f.cparams.window_log,
                f.pledged,
                f.checksum,
                d.id,
            ) + last_chunk_made(g, d.content + src, n, n + src.len())
        }),
        dict.len() < 8 || !(dict[0] == 0x37 && dict[1] == 0xA4 && dict[2] == 0x30 && dict[3] == 0xEC)
            ==> dict_entropy(dict) == fresh_entropy(),
{
    reveal(dict_frame_bytes);
    law_magic_number();
    vstd::arithmetic::power2::lemma2_to64();
    if dict.len() >= 8 {
        crate::frame_laws::lemma_number_at(dict, 0, 4);
        assert(crate::frame_laws::is_number_at(
            crate::math::bits_at(dict, 0, 32) as int,
            dict,
            0,
            4,
        ));
    }
}

/// A section is compressed as a frame of its own would be, but for its header:
/// the first one knows the length of the whole and has the usual recent
/// offsets, the others know their own length and have none.
pub proof fn law_sections_start(cp: CParams, buf: Seq<u8>, prefix: int, pledged: u64, first: bool)
    requires
        0 <= prefix <= buf.len(),
    ensures
        ({
            let s = section_frame(cp, buf, prefix, pledged, first);
            let f = fresh_frame(
                cp,
                Some(pledged),
                false,
                if first {
                    seq![1u32, 4u32, 8u32]
                } else {
                    seq![0u32, 0u32, 0u32]
                },
            );
            let chunk_end = if buf.len() > prefix + 0x8_0000 {
                prefix + 0x8_0000
            } else {
                buf.len() as int
            };
            &&& s.stage == if first {
                Stage::Init
            } else {
                Stage::Ongoing
            }
            &&& prefix == 0 ==> s == (FrameView { stage: s.stage, ..f })
            &&& prefix > 0 ==> s == (FrameView {
                stage: s.stage,
                ..f.contiguous_prefix_primed(buf, prefix, chunk_end)
            })
        }),
{
    reveal(fresh_frame);
    assert(first_offsets() =~= seq![1u32, 4u32, 8u32]);
}

/// What a section hands over: the bytes before it as far as it sees them, its
/// own bytes, and whether it is the last.
pub proof fn law_sections_see_their_prefix(src: Seq<u8>, cp: CParams, prefix: int, start: int, end: int)
    requires
        0 <= prefix <= start < end <= src.len(),
    ensures
        section_bytes(src, cp, prefix, start, end) == crate::compress_model::chunks_made(
            section_frame(
                cp,
                src.subrange(start - prefix, end),
                prefix,
                if start == 0 {
                    src.len() as u64
                } else {
                    (end - start) as u64
                },
                start == 0,
            ),
            src.subrange(start - prefix, end),
            prefix,
            end == src.len(),
            Seq::empty(),
        ),
{
}

/// Blocks are made one after the other: the window is brought to the next one,
/// the block is made, and what is left follows from the frame after it. What
/// has been saved so far counts from the start of the frame.
pub proof fn law_blocks_are_made_in_turn(
    f: FrameView,
    data: Seq<u8>,
    pos: int,
    end: int,
    last: bool,
    savings: i64,
    bytes: Seq<u8>,
)
    requires
        0 <= pos < end,
        0 < f.next_size(data, pos, end, savings) <= end - pos,
    ensures
        ({
            let next = pos + f.next_size(data, pos, end, savings);
            let (g, more) = block_made(
                f.slid(pos as nat, next as nat),
                data,
                pos,
                next,
                last && next == end,
            );
            let saved = savings.wrapping_add((next - pos) as i64).wrapping_sub(more.len() as i64);
            &&& next < end ==> blocks_made(f, data, pos, end, last, savings, bytes) == blocks_made(
                g,
                data,
                next,
                end,
                last,
                saved,
                bytes + more,
            )
            &&& next == end ==> blocks_made(f, data, pos, end, last, savings, bytes) == (
                g,
                bytes + more,
            )
        }),
{
    reveal_with_fuel(blocks_made, 2);
}

/// A block of fewer than seven bytes is stored as it is; any other is parsed,
/// after its far matches have been looked for.
pub proof fn law_blocks_are_made(f: FrameView, data: Seq<u8>, pos: int, end: int, last: bool)
    requires
        0 <= pos < end <= data.len(),
    ensures
        end - pos < 7 ==> block_made(f, data, pos, end, last).1 == block_header_bytes(
            last,
            0,
            (end - pos) as nat,
        ) + data.subrange(pos, end) && block_made(f, data, pos, end, last).0 == (FrameView {
            entropy: offsets_settled(f.entropy),
            first: false,
            ..f
        }),
        end - pos >= 7 ==> {
            let (ldm, far) = far_found(f, data, pos, end);
            let laid = f.past(data, pos) + data.subrange(pos, end);
            block_made(f, data, pos, end, last) == laid_made(
                FrameView { ldm, ..f },
                laid,
                laid.len() - (end - pos),
                pos as nat,
                far,
                last,
            )
        },
        f.ldm is None ==> far_found(f, data, pos, end).1.len() == 0,
        f.ldm matches Some(t) ==> {
            let (t1, found) = ldm_generated(t, (f.block_size_max / 64) as nat, data, pos, end);
            &&& far_found(f, data, pos, end).0 == Some(t1)
            &&& found is Some ==> far_found(f, data, pos, end).1 == found->0
            &&& found is None ==> far_found(f, data, pos, end).1.len() == 0
        },
{
    reveal(block_made);
}

/// A block that is not split is written with the sequences and literals of its
/// parse; only if it is compressed do the recent offsets move on.
pub proof fn law_parsed_blocks_are_written(
    f: FrameView,
    laid: Seq<u8>,
    at: int,
    pos: nat,
    far: Seq<crate::ldm::RawSeq>,
    last: bool,
)
    requires
        !f.split_blocks,
        0 <= at <= laid.len(),
    ensures
        ({
            let p = block_parsed(
                f.matcher.update_limited(index_of(pos, f.window.seg_bias)),
                laid,
                at,
                laid.len() as int,
                f.rep,
                f.layout(),
                f.dict,
                far,
                f.entropy,
            );
            let w = spec_block(
                laid.subrange(at, laid.len() as int),
                p.parse.triples,
                block_literals(laid, at, laid.len() as int, p.parse.triples),
                f.entropy,
                f.cparams.strategy.spec_num() as int,
                f.raw_literals,
                last,
                f.first,
                f.reach,
            );
            let (g, bytes) = laid_made(f, laid, at, pos, far, last);
            &&& bytes == w.bytes
            &&& g.matcher == p.matcher
            &&& !g.first
            &&& g.rep == if w.kind == BlockKind::Compressed {
                p.rep
            } else {
                f.rep
            }
            &&& g.cparams == f.cparams && g.dict == f.dict && g.pledged == f.pledged
        }),
{
    reveal(laid_made);
}

/// The optimal parser takes a match that is longer than the length that
/// suffices at once, and without any match goes on.
pub proof fn law_long_matches_end_the_search(v: OptScene, s: OptSearch, ip: int, anchor: int, rep: Seq<u32>)
    ensures
        ({
            let ms = candidates(v, s, ip, rep, (ip - anchor) as u32 == 0).1;
            let r = stretch_priced(v, s, ip, anchor, rep).1;
            &&& ms.len() == 0 ==> r is None
            &&& ms.len() > 0 ==> r is Some
            &&& ms.len() > 0 && ms.last().len > s.state.sufficient_len ==> r->0 == path_of(
                ms.last(),
                0,
            )
            &&& ms.len() > 0 ==> path_of(ms.last(), 0).last.mlen == ms.last().len && path_of(
                ms.last(),
                0,
            ).last.off == ms.last().off
        }),
{
    reveal(stretch_priced);
}

} // verus!
