//! The prefix codes, their descriptions and streams, and the choice among
//! them.

use crate::bits::highest_bit;
use crate::bits_encode::{append_field, closed_bytes, Bits};
use crate::fse_counts_model::{spec_normalize, spec_write_ncount, NormView};
use crate::fse_encode::spec_optimal_table_log;
use crate::fse_encode_model::{spec_ctable, spec_fse_compress};
use crate::histogram::{spec_histogram, spec_largest, spec_top};
use crate::huffman_codes::weights_of;
use crate::huffman_encode::HufRepeat;
use crate::huffman_header::code_cost;
use crate::huffman_tree::{length_target, lengths_ok, present};
use crate::huffman_tree_model::spec_huf_lengths;
use vstd::prelude::*;

verus! {

/// A compression table.
pub struct HufCView {
    pub log: u32,
    pub max_symbol: u32,
    pub nb_bits: Seq<u8>,
    pub code: Seq<u16>,
}

// ---------------------------------------------------------------------------
// Codes.

/// The lengths of the symbols from `s` up to `n` counted.
#[verifier::opaque]
pub open spec fn lengths_counted(nb_bits: Seq<u8>, s: nat, n: nat, per: Seq<u32>) -> Seq<u32>
    decreases n - s,
{
    if s < n {
        let b = nb_bits[s as int] as int;
        lengths_counted(nb_bits, s + 1, n, per.update(b, (per[b] + 1) as u32))
    } else {
        per
    }
}

/// The first code of each length from `r` down; longer codes come first.
#[verifier::opaque]
pub open spec fn firsts_set(per: Seq<u32>, first: Seq<u32>, min: u32, r: nat) -> Seq<u32>
    decreases r,
{
    if r > 0 {
        firsts_set(
            per,
            first.update(r as int, min),
            ((min + per[r as int]) / 2) as u32,
            (r - 1) as nat,
        )
    } else {
        first
    }
}

/// The codes of the symbols from `code.len()` up to `n`: in order within each
/// length.
#[verifier::opaque]
pub open spec fn codes_given(nb_bits: Seq<u8>, n: nat, next: Seq<u32>, code: Seq<u16>) -> Seq<u16>
    decreases n - code.len(),
{
    if code.len() < n {
        let b = nb_bits[code.len() as int] as int;
        if b > 0 {
            codes_given(
                nb_bits,
                n,
                next.update(b, (next[b] + 1) as u32),
                code.push(next[b] as u16),
            )
        } else {
            codes_given(nb_bits, n, next, code.push(0))
        }
    } else {
        code
    }
}

/// The canonical codes.
#[verifier::opaque]
pub open spec fn spec_codes(nb_bits: Seq<u8>, max_symbol: u32, log: u32) -> Seq<u16> {
    let zeros = Seq::new(14, |i: int| 0u32);
    let n = (max_symbol + 1) as nat;
    let first = firsts_set(lengths_counted(nb_bits, 0, n, zeros), zeros, 0, log as nat);
    let code = codes_given(nb_bits, n, first, Seq::empty());
    code + Seq::new((256 - n) as nat, |i: int| 0u16)
}

/// The table of code lengths.
pub open spec fn table_of_lengths(nb_bits: Seq<u8>, max_symbol: u32, log: u32) -> HufCView {
    HufCView { log, max_symbol, nb_bits, code: spec_codes(nb_bits, max_symbol, log) }
}

/// The table for a histogram, with codes of at most `max_nb_bits` bits.
pub open spec fn spec_huf_table(count: Seq<u32>, max_symbol: u32, max_nb_bits: u32) -> Option<HufCView> {
    match spec_huf_lengths(count, max_symbol as nat, length_target(max_nb_bits)) {
        Some((lengths, log)) => Some(table_of_lengths(lengths, max_symbol, log)),
        None => None,
    }
}

/// The table for a histogram, if its codes fill the code space.
pub open spec fn spec_complete_table(count: Seq<u32>, max_symbol: u32, max_nb_bits: u32) -> Option<HufCView> {
    match spec_huf_table(count, max_symbol, max_nb_bits) {
        Some(ct) => if lengths_ok(ct.nb_bits, count, max_symbol as nat, ct.log as nat) {
            Some(ct)
        } else {
            None
        },
        None => None,
    }
}

// ---------------------------------------------------------------------------
// Streams.

/// The symbols before `i` appended, last one first.
#[verifier::opaque]
pub open spec fn codes_appended(ct: HufCView, src: Seq<u8>, i: nat, b: Bits) -> Bits
    decreases i,
{
    if i > 0 {
        let s = src[i - 1] as int;
        codes_appended(
            ct,
            src,
            (i - 1) as nat,
            append_field(b, ct.code[s] as nat, ct.nb_bits[s] as nat),
        )
    } else {
        b
    }
}

/// One stream.
#[verifier::opaque]
pub open spec fn spec_compress1x(ct: HufCView, src: Seq<u8>) -> Seq<u8> {
    closed_bytes(codes_appended(ct, src, src.len(), Bits { num: 0, len: 0 }))
}

/// Two bytes of a size, the lower one first.
pub open spec fn two_bytes(n: nat) -> Seq<u8> {
    seq![(n % 256) as u8, (n / 256) as u8]
}

/// Four streams behind the sizes of the first three; nothing where that is not
/// possible.
#[verifier::opaque]
pub open spec fn spec_compress4x(ct: HufCView, src: Seq<u8>) -> Seq<u8> {
    let n = src.len();
    let part = (n + 3) / 4;
    let c1 = spec_compress1x(ct, src.subrange(0, part as int));
    let c2 = spec_compress1x(ct, src.subrange(part as int, (2 * part) as int));
    let c3 = spec_compress1x(ct, src.subrange((2 * part) as int, (3 * part) as int));
    let c4 = spec_compress1x(ct, src.subrange((3 * part) as int, n as int));
    if n < 12 || c1.len() > 65535 || c2.len() > 65535 || c3.len() > 65535 || c4.len() > 65535 {
        Seq::empty()
    } else {
        two_bytes(c1.len()) + two_bytes(c2.len()) + two_bytes(c3.len()) + c1 + c2 + c3 + c4
    }
}

/// The streams of `src`, unless they (after `prefix` more bytes) do not shrink
/// it.
#[verifier::opaque]
pub open spec fn gated(ct: HufCView, src: Seq<u8>, single: bool, prefix: nat) -> Option<Seq<u8>> {
    let streams = if single {
        spec_compress1x(ct, src)
    } else {
        spec_compress4x(ct, src)
    };
    if streams.len() == 0 || streams.len() + prefix >= src.len() - 1 {
        None
    } else {
        Some(streams)
    }
}

// ---------------------------------------------------------------------------
// Descriptions.

/// The weights compressed, unless that is not possible or not worthwhile.
#[verifier::opaque]
pub open spec fn weights_compressed(weights: Seq<u8>) -> Option<Seq<u8>> {
    let n = weights.len();
    let all = spec_histogram(weights, 13);
    let top = spec_top(all, 13);
    let largest = spec_largest(all, 13);
    let log = spec_optimal_table_log(6, n, top, 2);
    let count = all.subrange(0, (top + 1) as int);
    if n <= 1 || largest == n || largest == 1 || top == 0 {
        None
    } else {
        match spec_normalize(count, n, top, log, false) {
            Ok(NormView::Table(norm)) => match spec_write_ncount(norm, log) {
                Ok(h) => Some(h + spec_fse_compress(spec_ctable(norm, log), weights)),
                Err(_) => None,
            },
            _ => None,
        }
    }
}

/// The `k`-th pair of weights in one byte.
pub open spec fn pair_of(w: Seq<u8>, k: int) -> u8 {
    (w[2 * k] * 16 + if 2 * k + 1 < w.len() {
        w[2 * k + 1]
    } else {
        0
    }) as u8
}

/// The number of weights, and the weights two to a byte.
pub open spec fn paired(w: Seq<u8>) -> Seq<u8> {
    seq![(127 + w.len()) as u8] + Seq::new((w.len() + 1) / 2, |k: int| pair_of(w, k))
}

/// The description of a table: compressed weights where that is clearly
/// smaller, else two to a byte; none where there are too many for that.
#[verifier::opaque]
pub open spec fn spec_describe(ct: HufCView) -> Option<Seq<u8>> {
    let n = ct.max_symbol as nat;
    let w = weights_of(ct.nb_bits, n, ct.log as nat);
    let packed = weights_compressed(w);
    if packed is Some && 1 < packed->0.len() < n / 2 {
        Some(seq![packed->0.len() as u8] + packed->0)
    } else if n > 128 {
        None
    } else {
        Some(paired(w))
    }
}

// ---------------------------------------------------------------------------
// Choices.

/// The bytes that a stream with this histogram takes, rounded down.
pub open spec fn estimated(ct: HufCView, count: Seq<u32>, max_symbol: u32) -> nat {
    code_cost(ct.nb_bits, count, (max_symbol + 1) as nat) / 8
}

/// The logs from `guess` on tried, until one does worse: the one with the
/// smallest estimated total. `best` and `best_size` are what was found so far.
#[verifier::opaque]
pub open spec fn best_log(
    count: Seq<u32>,
    max_symbol: u32,
    max_log: u32,
    min_log: u32,
    guess: nat,
    best: u32,
    best_size: int,
) -> u32
    decreases max_log + 1 - guess,
{
    if guess <= max_log {
        match spec_complete_table(count, max_symbol, guess as u32) {
            Some(ct) => if ct.log < guess && guess > min_log {
                best
            } else {
                match spec_describe(ct) {
                    Some(d) => {
                        let size = estimated(ct, count, max_symbol) + d.len();
                        if size > best_size + 1 {
                            best
                        } else if size < best_size {
                            best_log(
                                count,
                                max_symbol,
                                max_log,
                                min_log,
                                guess + 1,
                                guess as u32,
                                size as int,
                            )
                        } else {
                            best_log(
                                count,
                                max_symbol,
                                max_log,
                                min_log,
                                guess + 1,
                                best,
                                best_size,
                            )
                        }
                    },
                    None => best_log(
                        count,
                        max_symbol,
                        max_log,
                        min_log,
                        guess + 1,
                        best,
                        best_size,
                    ),
                }
            },
            None => best_log(
                count,
                max_symbol,
                max_log,
                min_log,
                guess + 1,
                best,
                best_size,
            ),
        }
    } else {
        best
    }
}

/// The table log to try.
#[verifier::opaque]
pub open spec fn spec_huf_log(max_log: u32, src_size: nat, max_symbol: u32, count: Seq<u32>, optimal_depth: bool) -> u32 {
    if optimal_depth {
        let min_log = (highest_bit(present(count, (max_symbol + 1) as nat)) + 1) as u32;
        best_log(
            count,
            max_symbol,
            max_log,
            min_log,
            min_log as nat,
            max_log,
            0xFFFF_FFFF_FFFF_FFFE,
        )
    } else {
        spec_optimal_table_log(max_log as nat, src_size, max_symbol as nat, 1) as u32
    }
}

/// The largest count among the bytes of `chunk`.
pub open spec fn largest_in(chunk: Seq<u8>) -> u32 {
    spec_largest(spec_histogram(chunk, 256), 256)
}

/// Head and tail of a long input are both flat.
#[verifier::opaque]
pub open spec fn looks_flat(src: Seq<u8>) -> bool {
    &&& src.len() >= 40960
    &&& largest_in(src.subrange(0, 4096)) + largest_in(
        src.subrange(src.len() - 4096, src.len() as int),
    ) <= 68
}

/// The outcome of compressing literals.
pub enum HufOutView {
    Raw,
    Rle,
    Compressed(Seq<u8>, HufCView),
    Repeat(Seq<u8>),
}

/// The table has a code for every counted symbol.
pub open spec fn table_serves(ct: HufCView, count: Seq<u32>, max_symbol: u32) -> bool {
    ct.max_symbol >= max_symbol && forall|s: int|
        0 <= s <= max_symbol && #[trigger] count[s] != 0 ==> ct.nb_bits[s] != 0
}

/// The streams with the earlier table, if they shrink the input.
pub open spec fn reused(prev: HufCView, src: Seq<u8>, single: bool) -> HufOutView {
    match gated(prev, src, single, 0) {
        Some(streams) => HufOutView::Repeat(streams),
        None => HufOutView::Raw,
    }
}

/// A fresh table, or the earlier one `prev` where that is estimated cheaper.
#[verifier::opaque]
pub open spec fn fresh_or_reused(
    src: Seq<u8>,
    count: Seq<u32>,
    max_symbol: u32,
    single: bool,
    optimal_depth: bool,
    prev: Option<HufCView>,
) -> HufOutView {
    let n = src.len();
    match spec_complete_table(
        count,
        max_symbol,
        spec_huf_log(11, n, max_symbol, count, optimal_depth),
    ) {
        Some(ct) => match spec_describe(ct) {
            Some(d) => if prev is Some && (estimated(prev->0, count, max_symbol) <= d.len()
                + estimated(ct, count, max_symbol) || d.len() + 12 >= n) {
                reused(prev->0, src, single)
            } else if d.len() + 12 >= n {
                HufOutView::Raw
            } else {
                match gated(ct, src, single, d.len()) {
                    Some(streams) => HufOutView::Compressed(d + streams, ct),
                    None => HufOutView::Raw,
                }
            },
            None => HufOutView::Raw,
        },
        None => HufOutView::Raw,
    }
}

/// The outcome of compressing literals.
#[verifier::opaque]
pub open spec fn spec_huf_compress(
    src: Seq<u8>,
    single: bool,
    suspect_flat: bool,
    prefer_repeat: bool,
    optimal_depth: bool,
    prev: Option<HufCView>,
    repeat: HufRepeat,
) -> HufOutView {
    let n = src.len();
    let count = spec_histogram(src, 256);
    let max_symbol = spec_top(count, 256) as u32;
    let largest = spec_largest(count, 256);
    if n == 0 {
        HufOutView::Raw
    } else if prefer_repeat && repeat == HufRepeat::Valid && prev is Some {
        reused(prev->0, src, single)
    } else if suspect_flat && looks_flat(src) {
        HufOutView::Raw
    } else if largest == n {
        HufOutView::Rle
    } else if largest <= n / 128 + 4 {
        HufOutView::Raw
    } else {
        let usable = prev is Some && repeat != HufRepeat::Never && (repeat == HufRepeat::Check
            ==> table_serves(prev->0, count, max_symbol));
        if prefer_repeat && usable {
            reused(prev->0, src, single)
        } else {
            fresh_or_reused(
                src,
                count,
                max_symbol,
                single,
                optimal_depth,
                if usable {
                    prev
                } else {
                    None
                },
            )
        }
    }
}

} // verus!
