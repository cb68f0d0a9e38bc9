//! Huffman compression of a literals payload, with reuse of an earlier table.

use crate::bits::{highbit32, highest_bit};
use crate::error::Error;
use crate::fse_encode::{optimal_table_log_internal, spec_optimal_table_log};
use crate::histogram::{
    histogram, is_histogram, is_top_symbol, largest_count, lemma_all_equal, lemma_occurs, lemma_other, occurrences,
    spec_histogram, top_symbol,
};
use crate::huffman::{spec_decode_four, spec_decode_stream, spec_read_table, HuffmanTableView};
use crate::huffman_codes::{compress1x, compress4x, HufCTable};
use crate::huffman_encode_model::{
    best_log, fresh_or_reused, gated, largest_in, looks_flat, reused, spec_huf_compress, spec_huf_log, HufCView,
    HufOutView,
};
use crate::huffman_header::{describes_weights, estimate_compressed_size, packed_view, validate_ctable, write_ctable};
use crate::huffman_tree::{complete_table, count_present, present, HUF_TABLELOG_DEFAULT};
use vstd::prelude::*;
use vstd::slice::slice_subrange;

verus! {

/// Whether an earlier table may be reused.
#[derive(Clone, Copy, PartialEq, Eq, Debug, Structural)]
pub enum HufRepeat {
    /// There is none.
    Never,
    /// It may lack some symbols.
    Check,
    /// It has all symbols.
    Valid,
}

/// The outcome of compressing a literals payload.
pub enum HufOutput {
    /// Not worth compressing.
    Raw,
    /// A single symbol fills the input.
    Rle,
    /// A fresh table: its description, then the streams.
    Compressed(Vec<u8>, HufCTable),
    /// The streams alone, with the earlier table.
    Repeat(Vec<u8>),
}

/// What one or four streams decode to.
pub open spec fn spec_streams(t: HuffmanTableView, src: Seq<u8>, size: nat, single: bool) -> Result<
    Seq<u8>,
    Error,
> {
    if single {
        spec_decode_stream(t, src, size)
    } else {
        spec_decode_four(t, src, size)
    }
}

/// `out` is the description of the table `t`, then streams that decode to
/// `src`.
pub open spec fn table_and_streams(
    out: Seq<u8>,
    t: HuffmanTableView,
    src: Seq<u8>,
    single: bool,
) -> bool {
    match spec_read_table(out) {
        Ok((u, used)) => u == t && used <= out.len() && spec_streams(
            t,
            out.skip(used as int),
            src.len(),
            single,
        ) == Ok::<Seq<u8>, Error>(src),
        Err(_) => false,
    }
}

proof fn lemma_two_present(count: Seq<u32>, k: nat, a: int, b: int)
    requires
        0 <= a < k,
        0 <= b < k,
        a != b,
        count[a] != 0,
        count[b] != 0,
    ensures
        present(count, k) >= 2,
    decreases k,
{
    if a < k - 1 && b < k - 1 {
        lemma_two_present(count, (k - 1) as nat, a, b);
    } else if a < k - 1 {
        lemma_one_present(count, (k - 1) as nat, a);
    } else {
        lemma_one_present(count, (k - 1) as nat, b);
    }
}

proof fn lemma_one_present(count: Seq<u32>, k: nat, a: int)
    requires
        0 <= a < k,
        count[a] != 0,
    ensures
        present(count, k) >= 1,
    decreases k,
{
    if a < k - 1 {
        lemma_one_present(count, (k - 1) as nat, a);
    }
}

/// The table log to try: a cheap estimate from the source size, or (with
/// `optimal_depth`) the one with the smallest estimated total, searched
/// upward from what the alphabet needs until the sizes regress.
#[verifier::rlimit(30)]
pub fn huf_optimal_table_log(
    max_table_log: u32,
    src_size: usize,
    max_symbol: u32,
    count: &[u32],
    optimal_depth: bool,
) -> (r: u32)
    requires
        2 <= src_size <= u32::MAX,
        1 <= max_symbol <= 255,
        count@.len() > max_symbol,
        count@[max_symbol as int] != 0,
        present(count@, (max_symbol + 1) as nat) >= 2,
        1 <= max_table_log <= 12,
    ensures
        !optimal_depth ==> r == spec_optimal_table_log(
            max_table_log as nat,
            src_size as nat,
            max_symbol as nat,
            1,
        ),
        optimal_depth ==> r == max_table_log || highest_bit(
            present(count@, (max_symbol + 1) as nat),
        ) + 1 <= r < max_table_log,
        1 <= r <= 12,
        r == spec_huf_log(max_table_log, src_size as nat, max_symbol, count@, optimal_depth),
{
    proof {
        reveal(spec_huf_log);
    }
    if !optimal_depth {
        return optimal_table_log_internal(max_table_log, src_size, max_symbol, 1);
    }
    let cardinality: u32 = count_present(count, max_symbol as usize + 1);
    let min_table_log: u32 = highbit32(cardinality) + 1;
    let mut opt_size: u64 = u64::MAX - 1;
    let mut opt_log: u32 = max_table_log;
    let mut guess: u32 = min_table_log;
    let mut searching: bool = true;
    let ghost found = best_log(
        count@,
        max_symbol,
        max_table_log,
        min_table_log,
        guess as nat,
        opt_log,
        opt_size as int,
    );
    while searching && guess <= max_table_log
        invariant
            found == if searching {
                best_log(
                    count@,
                    max_symbol,
                    max_table_log,
                    min_table_log,
                    guess as nat,
                    opt_log,
                    opt_size as int,
                )
            } else {
                opt_log
            },
            1 <= max_symbol <= 255,
            count@.len() > max_symbol,
            count@[max_symbol as int] != 0,
            present(count@, (max_symbol + 1) as nat) >= 2,
            1 <= max_table_log <= 12,
            1 <= min_table_log <= guess,
            guess <= max_table_log + 1 || guess == min_table_log,
            opt_log == max_table_log || min_table_log <= opt_log < max_table_log,
            opt_size < u64::MAX,
        decreases (max_table_log + 1 - guess) + (if searching {
            1int
        } else {
            0int
        }),
    {
        proof {
            reveal_with_fuel(best_log, 1);
        }
        match complete_table(count, max_symbol, guess) {
            Some(ct) => {
                assert(ct.encodable(max_symbol as int)) by {
                    assert(count@[max_symbol as int] != 0);
                }
                if ct.table_log < guess && guess > min_table_log {
                    searching = false;
                } else {
                    match write_ctable(&ct) {
                        Ok(desc) => {
                            let new_size: u64 = estimate_compressed_size(&ct, count, max_symbol)
                                + desc.len() as u64;
                            if new_size > opt_size + 1 {
                                searching = false;
                            } else if new_size < opt_size {
                                opt_size = new_size;
                                opt_log = guess;
                            }
                        },
                        Err(_) => {},
                    }
                }
            },
            None => {},
        }
        if searching {
            guess = guess + 1;
        }
    }
    proof {
        reveal_with_fuel(best_log, 1);
    }
    opt_log
}

/// Encodes `src`, unless the result (after `prefix_len` more bytes) does not
/// shrink it.
fn encode_gated(ct: &HufCTable, src: &[u8], single_stream: bool, prefix_len: usize) -> (r: Option<
    Vec<u8>,
>)
    requires
        ct.wf(),
        src@.len() >= 1,
        prefix_len <= 128,
        forall|i: int| 0 <= i < src@.len() ==> ct.encodable(#[trigger] src@[i] as int),
    ensures
        r matches Some(out) ==> {
            &&& spec_streams(ct.decoder(), out@, src@.len(), single_stream) == Ok::<Seq<u8>, Error>(
                src@,
            )
            &&& prefix_len + out@.len() < src@.len() - 1
            &&& out@.len() >= 1
        },
        packed_view(r) == gated(ct@, src@, single_stream, prefix_len as nat),
{
    proof {
        reveal(gated);
    }
    let streams: Vec<u8> = if single_stream {
        compress1x(ct, src)
    } else {
        compress4x(ct, src)
    };
    let limit: usize = src.len() - 1;
    if streams.len() == 0 || streams.len() >= limit || limit - streams.len() <= prefix_len {
        return None;
    }
    Some(streams)
}

/// The largest count among the bytes of `chunk`.
fn largest_of(chunk: &[u8]) -> (r: u32)
    requires
        chunk@.len() <= u32::MAX,
    ensures
        forall|s: int| 0 <= s < 256 ==> #[trigger] occurrences(chunk@, s, chunk@.len()) <= r,
        r == largest_in(chunk@),
{
    let count: Vec<u32> = histogram(chunk, 256);
    let r: u32 = largest_count(&count);
    proof {
        assert forall|s: int| 0 <= s < 256 implies #[trigger] occurrences(
            chunk@,
            s,
            chunk@.len(),
        ) <= r by {
            assert(count@[s] <= r);
        }
    }
    r
}

/// Whether head and tail samples of a long input are both flat.
fn looks_incompressible(src: &[u8]) -> (r: bool)
    requires
        src@.len() <= u32::MAX,
    ensures
        src@.len() < 40960 ==> !r,
        r == looks_flat(src@),
{
    proof {
        reveal(looks_flat);
    }
    if src.len() < 40960 {
        return false;
    }
    let n: usize = src.len();
    let head: u64 = largest_of(slice_subrange(src, 0, 4096)) as u64;
    let tail: u64 = largest_of(slice_subrange(src, n - 4096, n)) as u64;
    head + tail <= 68
}

/// What the outcome promises of the bytes.
pub open spec fn output_ok(
    r: HufOutput,
    src: Seq<u8>,
    single: bool,
    prev: Option<HuffmanTableView>,
) -> bool {
    match r {
        HufOutput::Raw => true,
        HufOutput::Rle => src.len() >= 1 && forall|i: int|
            0 <= i < src.len() ==> #[trigger] src[i] == src[0],
        HufOutput::Compressed(out, ct) => {
            &&& ct.wf()
            &&& table_and_streams(out@, ct.decoder(), src, single)
            &&& out@.len() < src.len() - 1
            &&& out@.len() >= 1
        },
        HufOutput::Repeat(out) => {
            &&& prev is Some
            &&& spec_streams(prev->0, out@, src.len(), single) == Ok::<Seq<u8>, Error>(src)
            &&& out@.len() < src.len() - 1
            &&& out@.len() >= 1
        },
    }
}

/// The outcome by its bytes.
pub open spec fn out_view(r: HufOutput) -> HufOutView {
    match r {
        HufOutput::Raw => HufOutView::Raw,
        HufOutput::Rle => HufOutView::Rle,
        HufOutput::Compressed(out, ct) => HufOutView::Compressed(out@, ct@),
        HufOutput::Repeat(out) => HufOutView::Repeat(out@),
    }
}

pub open spec fn table_view(t: Option<&HufCTable>) -> Option<HufCView> {
    match t {
        Some(x) => Some(x@),
        None => None,
    }
}

pub open spec fn ref_view(t: Option<&HufCTable>) -> Option<HuffmanTableView> {
    match t {
        Some(x) => Some(x.decoder()),
        None => None,
    }
}

fn reuse(prev: &HufCTable, src: &[u8], single_stream: bool) -> (r: HufOutput)
    requires
        prev.wf(),
        src@.len() >= 1,
        forall|i: int| 0 <= i < src@.len() ==> prev.encodable(#[trigger] src@[i] as int),
    ensures
        output_ok(r, src@, single_stream, Some(prev.decoder())),
        r is Repeat || r is Raw,
        out_view(r) == reused(prev@, src@, single_stream),
{
    match encode_gated(prev, src, single_stream, 0) {
        Some(streams) => HufOutput::Repeat(streams),
        None => HufOutput::Raw,
    }
}

/// Compresses a literals payload: a fresh table with its description, or the
/// streams alone where the earlier table `prev` is estimated cheaper.
/// `single_stream` selects one stream over four; `suspect_uncompressible`
/// samples long inputs first; `prefer_repeat` reuses a usable table at once;
/// `optimal_depth` searches for the best table log.
#[verifier::rlimit(40)]
pub fn huf_compress(
    src: &[u8],
    single_stream: bool,
    suspect_uncompressible: bool,
    prefer_repeat: bool,
    optimal_depth: bool,
    prev: Option<&HufCTable>,
    repeat: HufRepeat,
) -> (r: HufOutput)
    requires
        src@.len() <= u32::MAX,
        prev matches Some(p) ==> p.wf(),
        repeat == HufRepeat::Valid ==> (prev matches Some(p) ==> p.covers_all()),
    ensures
        output_ok(r, src@, single_stream, ref_view(prev)),
        src@.len() == 0 ==> r is Raw,
        repeat == HufRepeat::Never ==> !(r is Repeat),
        out_view(r) == spec_huf_compress(
            src@,
            single_stream,
            suspect_uncompressible,
            prefer_repeat,
            optimal_depth,
            table_view(prev),
            repeat,
        ),
{
    proof {
        reveal(spec_huf_compress);
    }
    let src_size: usize = src.len();
    if src_size == 0 {
        return HufOutput::Raw;
    }
    let mut repeat = repeat;
    if prefer_repeat && repeat == HufRepeat::Valid {
        if let Some(p) = prev {
            assert forall|i: int| 0 <= i < src@.len() implies p.encodable(
                #[trigger] src@[i] as int,
            ) by {}
            return reuse(p, src, single_stream);
        }
    }
    if suspect_uncompressible && looks_incompressible(src) {
        return HufOutput::Raw;
    }
    let count: Vec<u32> = histogram(src, 256);
    let max_symbol: u32 = top_symbol(&count) as u32;
    let largest: u32 = largest_count(&count);
    if largest as usize == src_size {
        proof {
            let s = choose|s: int| 0 <= s < count@.len() && #[trigger] count@[s] == largest;
            lemma_all_equal(src@, s, src@.len());
            assert(src@[0] == s);
        }
        return HufOutput::Rle;
    }
    if largest as usize <= src_size / 128 + 4 {
        return HufOutput::Raw;
    }
    proof {
        lemma_occurs(src@, 0, src@.len());
        let a = src@[0] as int;
        assert(count@[a] <= largest);
        let i = lemma_other(src@, a, src@.len());
        lemma_occurs(src@, i, src@.len());
        let b = src@[i] as int;
        assert(count@[a] != 0 && count@[b] != 0);
        lemma_two_present(count@, (max_symbol + 1) as nat, a, b);
        if max_symbol == 0 {
            assert(a == 0 && b == 0);
        }
        assert(count@[max_symbol as int] != 0);
    }
    if repeat == HufRepeat::Check {
        let valid = match prev {
            Some(p) => validate_ctable(p, &count, max_symbol),
            None => false,
        };
        if !valid {
            repeat = HufRepeat::Never;
        }
    }
    proof {
        if repeat != HufRepeat::Never {
            if let Some(p) = prev {
                assert forall|i: int| 0 <= i < src@.len() implies p.encodable(
                    #[trigger] src@[i] as int,
                ) by {
                    lemma_occurs(src@, i, src@.len());
                    assert(count@[src@[i] as int] != 0);
                }
            }
        }
    }
    if prefer_repeat && repeat != HufRepeat::Never {
        if let Some(p) = prev {
            return reuse(p, src, single_stream);
        }
    }
    compress_afresh(
        src,
        &count,
        max_symbol,
        single_stream,
        optimal_depth,
        if repeat == HufRepeat::Never {
            None
        } else {
            prev
        },
    )
}

/// Compresses with a fresh table, or with the earlier one `prev` where that is
/// estimated cheaper.
#[verifier::rlimit(40)]
fn compress_afresh(
    src: &[u8],
    count: &Vec<u32>,
    max_symbol: u32,
    single_stream: bool,
    optimal_depth: bool,
    prev: Option<&HufCTable>,
) -> (r: HufOutput)
    requires
        2 <= src@.len() <= u32::MAX,
        count@ == spec_histogram(src@, 256),
        is_histogram(count@, src@),
        is_top_symbol(count@, max_symbol as nat),
        1 <= max_symbol <= 255,
        present(count@, (max_symbol + 1) as nat) >= 2,
        prev matches Some(p) ==> p.wf(),
        prev matches Some(p) ==> forall|i: int|
            0 <= i < src@.len() ==> p.encodable(#[trigger] src@[i] as int),
    ensures
        output_ok(r, src@, single_stream, ref_view(prev)),
        prev is None ==> !(r is Repeat),
        out_view(r) == fresh_or_reused(
            src@,
            count@,
            max_symbol,
            single_stream,
            optimal_depth,
            table_view(prev),
        ),
{
    proof {
        reveal(fresh_or_reused);
    }
    let src_size: usize = src.len();
    let huff_log: u32 = huf_optimal_table_log(
        HUF_TABLELOG_DEFAULT,
        src_size,
        max_symbol,
        count,
        optimal_depth,
    );
    let ct = match complete_table(count, max_symbol, huff_log) {
        Some(ct) => ct,
        None => {
            return HufOutput::Raw;
        },
    };
    proof {
        assert(ct.encodable(max_symbol as int)) by {
            assert(count@[max_symbol as int] != 0);
        }
        assert forall|i: int| 0 <= i < src@.len() implies ct.encodable(
            #[trigger] src@[i] as int,
        ) by {
            lemma_occurs(src@, i, src@.len());
            let s = src@[i] as int;
            assert(count@[s] != 0);
        }
    }
    let table: Vec<u8> = match write_ctable(&ct) {
        Ok(t) => t,
        Err(_) => {
            return HufOutput::Raw;
        },
    };
    let h_size: usize = table.len();
    if let Some(p) = prev {
        let old_size: u64 = estimate_compressed_size(p, count, max_symbol);
        let new_size: u64 = estimate_compressed_size(&ct, count, max_symbol);
        if old_size <= h_size as u64 + new_size || h_size + 12 >= src_size {
            return reuse(p, src, single_stream);
        }
    }
    if h_size + 12 >= src_size {
        return HufOutput::Raw;
    }
    match encode_gated(&ct, src, single_stream, h_size) {
        Some(streams) => {
            let ghost h = table@;
            let mut out: Vec<u8> = table;
            out.extend_from_slice(&streams);
            proof {
                assert(out@ =~= h + streams@);
                assert(describes_weights(h, ct.weights(), ct.table_log as nat));
                assert(crate::huffman::spec_read_weights(h + streams@) == Ok::<
                    (Seq<u8>, nat, nat),
                    Error,
                >((ct.weights(), ct.table_log as nat, h.len())));
                assert(out@.skip(h.len() as int) =~= streams@);
            }
            HufOutput::Compressed(out, ct)
        },
        None => HufOutput::Raw,
    }
}

} // verus!
