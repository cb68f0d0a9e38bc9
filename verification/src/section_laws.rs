//! Where the sections of a source lie, and how much each sees of what is before
//! it.

use crate::compress_model::{frame_bytes, section_bytes, sections_made};
use crate::compress_mt::{mt_bytes, spec_overlap_size, spec_section_size};
use crate::cparams::CParams;
use crate::decompress::ZSTD_MAGIC;
use crate::frame_encode::{header_fields, le_bytes};
use vstd::arithmetic::power2::{lemma2_to64, lemma_pow2_adds, lemma_pow2_strictly_increases, pow2};
use vstd::prelude::*;

verus! {

/// The largest of three numbers.
pub open spec fn largest(a: nat, b: nat, c: nat) -> nat {
    if a >= b && a >= c {
        a
    } else if b >= c {
        b
    } else {
        c
    }
}

/// Where no length is asked for, a section is four windows long, but never
/// shorter than 1 MiB, and never shorter than the overlap.
pub proof fn law_sections_are_four_windows_long(cp: CParams, overlap: nat)
    requires
        cp.wf(),
    ensures
        spec_section_size(cp, 0, overlap) == largest(
            4 * pow2(cp.window_log as nat),
            0x10_0000,
            overlap,
        ),
{
    lemma2_to64();
    lemma_pow2_adds(2, cp.window_log as nat);
    if cp.window_log < 18 {
        lemma_pow2_strictly_increases(cp.window_log as nat, 18);
    }
    if cp.window_log > 18 {
        lemma_pow2_strictly_increases(18, cp.window_log as nat);
    }
}

/// A length that is asked for is kept, between 512 KiB and 1 GiB, unless the
/// overlap is longer.
pub proof fn law_sections_are_as_long_as_asked(cp: CParams, asked: nat, overlap: nat)
    requires
        asked > 0,
    ensures
        asked < 0x8_0000 ==> spec_section_size(cp, asked, overlap) == largest(0x8_0000, overlap, 0),
        0x8_0000 <= asked <= 0x4000_0000 ==> spec_section_size(cp, asked, overlap) == largest(
            asked,
            overlap,
            0,
        ),
        asked > 0x4000_0000 ==> spec_section_size(cp, asked, overlap) == largest(
            0x4000_0000,
            overlap,
            0,
        ),
{
}

/// A setting from 2 to 9 stands for a part of the window: all of it at 9, and
/// half as much with each step down; at 1 and below there is no overlap. The
/// setting 0 stands for 9 with the strongest strategy, for 8 with the two below
/// it, for 7 with the next two, and for 6 with the others.
pub proof fn law_overlaps_are_parts_of_the_window(cp: CParams, setting: int)
    requires
        cp.wf(),
        setting <= 9,
    ensures
        2 <= setting ==> pow2((9 - setting) as nat) * spec_overlap_size(cp, setting) == pow2(
            cp.window_log as nat,
        ),
        setting < 0 || setting == 1 ==> spec_overlap_size(cp, setting) == 0,
        ({
            let whole = pow2(cp.window_log as nat);
            match cp.strategy {
                crate::cparams::Strategy::Btultra2 => spec_overlap_size(cp, 0) == whole,
                crate::cparams::Strategy::Btultra => 2 * spec_overlap_size(cp, 0) == whole,
                crate::cparams::Strategy::Btopt => 2 * spec_overlap_size(cp, 0) == whole,
                crate::cparams::Strategy::Btlazy2 => 4 * spec_overlap_size(cp, 0) == whole,
                crate::cparams::Strategy::Lazy2 => 4 * spec_overlap_size(cp, 0) == whole,
                _ => 8 * spec_overlap_size(cp, 0) == whole,
            }
        }),
{
    lemma2_to64();
    let w = cp.window_log as nat;
    if 2 <= setting {
        lemma_pow2_adds((9 - setting) as nat, (w + setting - 9) as nat);
    }
    lemma_pow2_adds(1, (w - 1) as nat);
    lemma_pow2_adds(2, (w - 2) as nat);
    lemma_pow2_adds(3, (w - 3) as nat);
}

/// The blocks of the first `k` sections of `src`, each `section` bytes long but
/// for the last, which sees `overlap` bytes before it as far as there are any.
pub open spec fn of_sections(src: Seq<u8>, cp: CParams, overlap: nat, section: nat, k: nat) -> Seq<u8>
    decreases k,
{
    if k == 0 {
        Seq::empty()
    } else {
        let start = (k - 1) * section;
        let end = k * section;
        of_sections(src, cp, overlap, section, (k - 1) as nat) + section_bytes(
            src,
            cp,
            if overlap < start {
                overlap as int
            } else {
                start
            },
            start,
            if end < src.len() {
                end as int
            } else {
                src.len() as int
            },
        )
    }
}

proof fn lemma_sections(src: Seq<u8>, cp: CParams, overlap: nat, section: nat, k: nat, n: nat)
    requires
        section > 0,
        k < n,
        (n - 1) * section < src.len() <= n * section,
    ensures
        sections_made(
            src,
            cp,
            overlap,
            section,
            (k * section) as int,
            of_sections(src, cp, overlap, section, k),
        ) == of_sections(src, cp, overlap, section, n),
    decreases n - k,
{
    reveal_with_fuel(sections_made, 2);
    let start = k * section;
    assert(start <= (n - 1) * section) by (nonlinear_arith)
        requires
            k <= n - 1,
            start == k * section,
            section > 0,
    ;
    assert((k + 1) * section == start + section) by (nonlinear_arith)
        requires
            start == k * section,
    ;
    if k + 1 < n {
        assert((k + 1) * section <= (n - 1) * section) by (nonlinear_arith)
            requires
                k + 1 <= n - 1,
                section > 0,
        ;
        lemma_sections(src, cp, overlap, section, k + 1, n);
    }
}

/// A frame in sections is its header and the blocks of section after section:
/// the sections start at the multiples of their length, as many as it takes.
pub proof fn law_frames_in_sections(
    src: Seq<u8>,
    cp: CParams,
    workers: u32,
    job_size: nat,
    overlap_log: int,
    n: nat,
)
    requires
        cp.wf(),
        workers > 0,
        src.len() > 0x8_0000,
        ({
            let section = spec_section_size(cp, job_size, spec_overlap_size(cp, overlap_log));
            &&& src.len() >= section
            &&& (n - 1) * section < src.len() <= n * section
        }),
    ensures
        ({
            let overlap = spec_overlap_size(cp, overlap_log);
            mt_bytes(src, cp, workers, job_size, overlap_log) == le_bytes(ZSTD_MAGIC as nat, 4)
                + header_fields(cp.window_log, Some(src.len() as u64), false, 0) + of_sections(
                src,
                cp,
                overlap,
                spec_section_size(cp, job_size, overlap),
                n,
            )
        }),
{
    let overlap = spec_overlap_size(cp, overlap_log);
    let section = spec_section_size(cp, job_size, overlap);
    if job_size == 0 {
        law_sections_are_four_windows_long(cp, overlap);
    } else {
        law_sections_are_as_long_as_asked(cp, job_size, overlap);
    }
    assert(n > 0) by (nonlinear_arith)
        requires
            src.len() > 0,
            src.len() <= n * section,
    ;
    lemma_sections(src, cp, overlap, section, 0, n);
    assert(0 * section == 0) by (nonlinear_arith);
}

/// Where no length is asked for and no overlap is longer, a source of up to
/// 512 KiB, and one that four windows and 1 MiB are longer than, is compressed
/// in one piece; a longer one goes on in a second section right there.
pub proof fn law_second_section_starts_after_four_windows(
    src: Seq<u8>,
    cp: CParams,
    workers: u32,
    overlap_log: int,
)
    requires
        cp.wf(),
        workers > 0,
        overlap_log <= 9,
    ensures
        ({
            let four = largest(4 * pow2(cp.window_log as nat), 0x10_0000, 0);
            &&& src.len() < four ==> mt_bytes(src, cp, workers, 0, overlap_log) == frame_bytes(
                src,
                cp,
            )
            &&& four < src.len() <= 2 * four ==> mt_bytes(src, cp, workers, 0, overlap_log)
                == le_bytes(ZSTD_MAGIC as nat, 4) + header_fields(
                cp.window_log,
                Some(src.len() as u64),
                false,
                0,
            ) + (section_bytes(src, cp, 0, 0, four as int) + section_bytes(
                src,
                cp,
                spec_overlap_size(cp, overlap_log) as int,
                four as int,
                src.len() as int,
            ))
        }),
{
    let overlap = spec_overlap_size(cp, overlap_log);
    let four = largest(4 * pow2(cp.window_log as nat), 0x10_0000, 0);
    law_overlaps_are_parts_of_the_window(cp, overlap_log);
    if 2 <= overlap_log {
        let a = pow2((9 - overlap_log) as nat);
        vstd::arithmetic::power2::lemma_pow2_pos((9 - overlap_log) as nat);
        assert(overlap <= a * overlap) by (nonlinear_arith)
            requires
                a >= 1,
                overlap >= 0,
        ;
    }
    law_sections_are_four_windows_long(cp, overlap);
    if four < src.len() <= 2 * four {
        law_frames_in_sections(src, cp, workers, 0, overlap_log, 2);
        reveal_with_fuel(of_sections, 3);
        assert(of_sections(src, cp, overlap, four, 2) =~= section_bytes(src, cp, 0, 0, four as int)
            + section_bytes(src, cp, overlap as int, four as int, src.len() as int));
    }
}

} // verus!
