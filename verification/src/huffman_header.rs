//! Descriptions of Huffman tables: writing and reading the symbol weights.

use crate::bits::{highest_bit, lemma_highest_bit_bound};
use crate::error::Error;
use crate::fse::{spec_decode_interleaved, spec_dtable, spec_read_ncount, valid_counts, NCountView};
use crate::fse_counts::{describes, lemma_whole_described, normalize_count, write_ncount, Normalized};
use crate::fse_encode::{
    build_ctable, fse_compress_using_ctable, lemma_start_monotone, lemma_start_step, lemma_start_total,
    optimal_table_log, start_of,
};
use crate::histogram::{
    histogram, largest_count, lemma_histogram_total, lemma_occurs, lemma_other, occurrences, top_symbol,
};
use crate::huffman::{
    lemma_span_le_sum, lemma_weight_sum_push, nibble, read_weights, spec_complete_weights, spec_listed_weights,
    spec_read_weights, valid_weights, weight_sum,
};
use crate::huffman_codes::{assign_codes, weight_of, weights_of, HufCTable};
use crate::huffman_encode_model::{pair_of, paired, spec_describe, table_of_lengths, weights_compressed, HufCView};
use crate::huffman_laws::{law_huffman_round_trip, table_round_trips};
use vstd::arithmetic::power2::{lemma2_to64, lemma_pow2_pos, lemma_pow2_strictly_increases, lemma_pow2_unfold, pow2};
use vstd::prelude::*;
use vstd::slice::slice_subrange;

verus! {

/// `payload` is an FSE description followed by the FSE stream of `weights`.
pub open spec fn packs_weights(payload: Seq<u8>, weights: Seq<u8>) -> bool {
    match spec_read_ncount(payload, 255, 6) {
        Ok(nc) => spec_decode_interleaved(
            spec_dtable(nc.counts, nc.log),
            payload.skip(nc.bytes as int),
            255,
        ) == Ok::<Seq<u8>, Error>(weights),
        Err(_) => false,
    }
}

/// In a distribution with two symbols, none has all the states.
proof fn lemma_two_symbols(norm: Seq<i16>, log: nat, a: int, b: int)
    requires
        valid_counts(norm, log),
        0 <= a < norm.len(),
        0 <= b < norm.len(),
        a != b,
        norm[b] != 0,
    ensures
        norm[a] < pow2(log),
{
    lemma_start_total(norm, log, a);
    lemma_start_total(norm, log, b);
    lemma_start_step(norm, a);
    lemma_start_step(norm, b);
    if a < b {
        lemma_start_monotone(norm, a + 1, b);
    } else {
        lemma_start_monotone(norm, b + 1, a);
    }
}

pub open spec fn packed_view(r: Option<Vec<u8>>) -> Option<Seq<u8>> {
    match r {
        Some(v) => Some(v@),
        None => None,
    }
}

/// FSE-compresses weights, unless that is not worthwhile.
#[verifier::rlimit(30)]
fn compress_weights(weights: &[u8]) -> (r: Option<Vec<u8>>)
    requires
        weights@.len() <= 255,
        forall|i: int| 0 <= i < weights@.len() ==> #[trigger] weights@[i] <= 12,
    ensures
        r matches Some(out) ==> packs_weights(out@, weights@),
        packed_view(r) == weights_compressed(weights@),
{
    proof {
        reveal(weights_compressed);
    }
    let wt_size: usize = weights.len();
    if wt_size <= 1 {
        return None;
    }
    let all: Vec<u32> = histogram(weights, 13);
    let max_symbol: usize = top_symbol(&all);
    let max_count: u32 = largest_count(&all);
    if max_count as usize == wt_size {
        return None;
    }
    if max_count == 1 || max_symbol == 0 {
        return None;
    }
    let table_log: u32 = optimal_table_log(6, wt_size, max_symbol as u32);
    let count = slice_subrange(all.as_slice(), 0, max_symbol + 1);
    proof {
        assert forall|i: int| 0 <= i < weights@.len() implies #[trigger] weights@[i] < count@.len() by {
            lemma_occurs(weights@, i, weights@.len());
            assert(all@[weights@[i] as int] >= 1);
        }
        assert forall|s: int| 0 <= s < count@.len() implies #[trigger] count@[s] == occurrences(
            weights@,
            s,
            weights@.len(),
        ) by {
            assert(count@[s] == all@[s]);
        }
        lemma_histogram_total(count@, weights@);
    }
    let norm: Vec<i16> = match normalize_count(count, wt_size, max_symbol as u32, table_log, false) {
        Ok(Normalized::Table(n)) => n,
        _ => {
            return None;
        },
    };
    let mut out: Vec<u8> = match write_ncount(&norm, max_symbol as u32, table_log) {
        Ok(h) => h,
        Err(_) => {
            return None;
        },
    };
    let ct = build_ctable(&norm, max_symbol as u32, table_log);
    let ghost h = out@;
    let ghost log = table_log as nat;
    proof {
        assert forall|i: int| 0 <= i < weights@.len() implies ct.encodable(
            #[trigger] weights@[i] as int,
        ) by {
            lemma_occurs(weights@, i, weights@.len());
            let w = weights@[i] as int;
            assert(all@[w] >= 1);
            assert(w <= max_symbol);
            assert(count@[w] == all@[w]);
            assert(norm@[w] != 0);
        }
        assert forall|s: int| 0 <= s < norm@.len() implies #[trigger] norm@[s] < pow2(log) by {
            assert(all@[s] < weights@.len());
            let i = lemma_other(weights@, s, weights@.len());
            assert(ct.encodable(weights@[i] as int));
            lemma_two_symbols(norm@, log, s, weights@[i] as int);
        }
        assert(norm@[max_symbol as int] != 0) by {
            assert(count@[max_symbol as int] != 0);
        }
    }
    let stream: Vec<u8> = fse_compress_using_ctable(&ct, weights);
    out.extend_from_slice(&stream);
    proof {
        let k = choose|k: int|
            0 < k <= norm@.len() && norm@[k - 1] != 0 && #[trigger] start_of(norm@, k) == pow2(log)
                && describes(h, norm@.take(k), log);
        lemma_whole_described(norm@, log, k);
        lemma_log_at_most_six(wt_size as nat, max_symbol as nat);
        assert(out@ =~= h + stream@);
        assert(spec_read_ncount(h + stream@, 255, 6) == Ok::<NCountView, Error>(
            NCountView { counts: norm@, log, bytes: h.len() },
        ));
        assert(out@.skip(h.len() as int) =~= stream@);
    }
    Some(out)
}

proof fn lemma_log_at_most_six(n: nat, max_symbol: nat)
    requires
        2 <= n,
        1 <= max_symbol <= 12,
    ensures
        crate::fse_encode::spec_optimal_table_log(6, n, max_symbol, 2) <= 6,
{
    lemma2_to64();
    lemma_highest_bit_bound(max_symbol, 4);
    let h = highest_bit(max_symbol);
    assert(h <= 3);
}

/// Any bytes that start with `h` describe the table of `weights` with their
/// first `h.len()` bytes.
pub open spec fn describes_weights(h: Seq<u8>, weights: Seq<u8>, log: nat) -> bool {
    forall|rest: Seq<u8>| #[trigger]
        spec_read_weights(h + rest) == Ok::<(Seq<u8>, nat, nat), Error>((weights, log, h.len()))
}

/// The implicit last weight is found again.
proof fn lemma_complete(weights: Seq<u8>, log: nat)
    requires
        valid_weights(weights, log),
        weights.len() >= 2,
        1 <= weights.last() <= log,
    ensures
        spec_complete_weights(weights.drop_last()) == Ok::<(Seq<u8>, nat), Error>((weights, log)),
{
    let listed = weights.drop_last();
    let last = weights.last();
    let total = weight_sum(listed);
    assert(listed.push(last) =~= weights);
    lemma_weight_sum_push(listed, last);
    let span = pow2((last - 1) as nat);
    lemma_pow2_pos((last - 1) as nat);
    lemma_pow2_unfold(log);
    if last < log {
        lemma_pow2_strictly_increases((last - 1) as nat, (log - 1) as nat);
    }
    // 2^(log-1) <= total < 2^log
    let half = pow2((log - 1) as nat);
    assert(half <= total < 2 * half);
    lemma_pow2_pos((log - 1) as nat);
    lemma_top_bit(total, (log - 1) as nat);
    lemma_top_bit(span, (last - 1) as nat);
    assert forall|i: int| 0 <= i < listed.len() implies #[trigger] listed[i] <= 12 by {
        assert(weights[i] <= 12);
    }
}

/// The highest bit of a number between `2^k` and `2^(k+1)`.
pub proof fn lemma_top_bit(x: nat, k: nat)
    requires
        pow2(k) <= x < 2 * pow2(k),
    ensures
        highest_bit(x) == k,
{
    lemma_pow2_pos(k);
    lemma_pow2_unfold(k + 1);
    lemma_highest_bit_bound(x, k + 1);
    let h = highest_bit(x);
    if h < k {
        lemma_pow2_unfold(k);
        if h < k - 1 {
            lemma_pow2_strictly_increases(h, (k - 1) as nat);
        }
    }
}

/// Serializes a table: FSE-compressed weights where that is clearly smaller,
/// else packed nibbles. What is written with the table is read back with what
/// is read from the result.
pub fn write_ctable(ct: &HufCTable) -> (r: Result<Vec<u8>, Error>)
    requires
        ct.wf(),
        1 <= ct.max_symbol,
        ct.encodable(ct.max_symbol as int),
    ensures
        match r {
            Ok(h) => {
                &&& describes_weights(h@, ct.weights(), ct.table_log as nat)
                &&& 2 <= h@.len() <= 128
                &&& spec_describe(ct@) == Some(h@)
                &&& forall|data: Seq<u8>|
                    (forall|k: int| 0 <= k < data.len() ==> ct.encodable(#[trigger] data[k] as int))
                        ==> #[trigger] table_round_trips(*ct, h@, data)
            },
            Err(e) => {
                &&& ct.max_symbol > 128
                &&& e == Error::Encode("too many huffman symbols for direct table")
                &&& spec_describe(ct@) is None
            },
        },
{
    let r = describe_table(ct);
    proof {
        if r is Ok {
            let h = r->Ok_0@;
            assert forall|data: Seq<u8>|
                (forall|k: int| 0 <= k < data.len() ==> ct.encodable(#[trigger] data[k] as int)) implies
                #[trigger] table_round_trips(*ct, h, data) by {
                law_huffman_round_trip(*ct, h, data);
            }
        }
    }
    r
}

/// The description of a table.
#[verifier::rlimit(30)]
fn describe_table(ct: &HufCTable) -> (r: Result<Vec<u8>, Error>)
    requires
        ct.wf(),
        1 <= ct.max_symbol,
        ct.encodable(ct.max_symbol as int),
    ensures
        match r {
            Ok(h) => describes_weights(h@, ct.weights(), ct.table_log as nat) && 2 <= h@.len() <= 128,
            Err(e) => ct.max_symbol > 128 && e == Error::Encode(
                "too many huffman symbols for direct table",
            ),
        },
        match r {
            Ok(h) => spec_describe(ct@) == Some(h@),
            Err(_) => spec_describe(ct@) is None,
        },
{
    proof {
        reveal(spec_describe);
    }
    let max_symbol: usize = ct.max_symbol as usize;
    let ghost log = ct.table_log as nat;
    let ghost full = ct.weights();
    let mut weights: Vec<u8> = Vec::new();
    let mut n: usize = 0;
    while n < max_symbol
        invariant
            n <= max_symbol,
            ct.wf(),
            max_symbol == ct.max_symbol,
            log == ct.table_log as nat,
            full == ct.weights(),
            weights@ == full.take(n as int),
            forall|i: int| 0 <= i < n ==> #[trigger] weights@[i] <= 12,
        decreases max_symbol - n,
    {
        let nb: u32 = ct.nb_bits[n] as u32;
        assert(ct.nb_bits@[n as int] <= ct.table_log);
        let w: u8 = if nb == 0 {
            0
        } else {
            (ct.table_log + 1 - nb) as u8
        };
        weights.push(w);
        assert(full.take(n + 1) =~= full.take(n as int).push(full[n as int]));
        n = n + 1;
    }
    proof {
        assert(full.drop_last() =~= full.take(max_symbol as int));
        assert(full.last() == weight_of(ct.nb_bits@[max_symbol as int], log));
        assert(ct.nb_bits@[max_symbol as int] <= ct.table_log);
        lemma_complete(full, log);
        assert(weights@ =~= weights_of(ct.nb_bits@, max_symbol as nat, log));
    }
    match compress_weights(&weights) {
        Some(fse) => {
            let h_size: usize = fse.len();
            if h_size > 1 && h_size < max_symbol / 2 {
                let mut out: Vec<u8> = Vec::new();
                out.push(h_size as u8);
                out.extend_from_slice(&fse);
                proof {
                    assert(out@ =~= seq![h_size as u8] + fse@);
                    assert forall|rest: Seq<u8>| #[trigger] spec_read_weights(out@ + rest) == Ok::<
                        (Seq<u8>, nat, nat),
                        Error,
                    >((full, log, out@.len())) by {
                        let src = out@ + rest;
                        assert(src.subrange(1, 1 + h_size as int) =~= fse@);
                    }
                }
                return Ok(out);
            }
        },
        None => {},
    }
    if max_symbol > 128 {
        return Err(Error::Encode("too many huffman symbols for direct table"));
    }
    let out: Vec<u8> = pack_pairs(&weights);
    proof {
        assert forall|rest: Seq<u8>| #[trigger] spec_read_weights(out@ + rest) == Ok::<
            (Seq<u8>, nat, nat),
            Error,
        >((full, log, out@.len())) by {
            let src = out@ + rest;
            assert(src[0] == out@[0]);
            assert(Seq::new(max_symbol as nat, |i: int| nibble(src, i)) =~= weights@) by {
                assert forall|i: int| 0 <= i < max_symbol implies nibble(src, i) == weights@[i] by {
                    assert(src[1 + i / 2] == out@[1 + i / 2]);
                    assert(nibble(out@, i) == weights@[i]);
                }
            }
        }
    }
    Ok(out)
}

/// The weights two to a byte, behind their number.
fn pack_pairs(weights: &Vec<u8>) -> (r: Vec<u8>)
    requires
        1 <= weights@.len() <= 128,
        forall|i: int| 0 <= i < weights@.len() ==> #[trigger] weights@[i] <= 12,
    ensures
        r@ == paired(weights@),
        forall|i: int| 0 <= i < weights@.len() ==> nibble(r@, i) == #[trigger] weights@[i],
{
    let n: usize = weights.len();
    let mut out: Vec<u8> = Vec::new();
    out.push((127 + n) as u8);
    let mut k: usize = 0;
    while k < n
        invariant
            k <= n + 1,
            k % 2 == 0,
            n <= 128,
            weights@.len() == n,
            forall|i: int| 0 <= i < n ==> #[trigger] weights@[i] <= 12,
            out@.len() == 1 + k / 2,
            out@[0] == 127 + n,
            forall|i: int| 1 <= i < out@.len() ==> #[trigger] out@[i] == pair_of(weights@, i - 1),
            forall|i: int| 0 <= i < k && i < n ==> nibble(out@, i) == #[trigger] weights@[i],
        decreases n + 1 - k,
    {
        let hi: u8 = weights[k];
        let lo: u8 = if k + 1 < n {
            weights[k + 1]
        } else {
            0
        };
        let ghost before = out@;
        out.push(hi * 16 + lo);
        proof {
            assert forall|i: int| 0 <= i < k + 2 && i < n implies nibble(out@, i)
                == #[trigger] weights@[i] by {
                if i < k {
                    assert(nibble(before, i) == weights@[i]);
                    assert(out@[1 + i / 2] == before[1 + i / 2]);
                }
            }
        }
        k = k + 2;
    }
    assert(out@ =~= paired(weights@));
    out
}

/// The compression table that weights stand for.
pub open spec fn read_table_view(weights: Seq<u8>, log: u32) -> HufCView {
    table_of_lengths(
        Seq::new(
            256,
            |s: int|
                if s >= weights.len() || weights[s] == 0 {
                    0u8
                } else {
                    (log + 1 - weights[s]) as u8
                },
        ),
        (weights.len() - 1) as u32,
        log,
    )
}

/// Reads a table description into a compression table: the table, whether
/// some symbol has no code, and the bytes consumed.
#[verifier::rlimit(30)]
pub fn read_ctable(src: &[u8]) -> (r: Result<(HufCTable, bool, usize), Error>)
    ensures
        match r {
            Ok((ct, has_zero, used)) => {
                &&& ct.wf()
                &&& ct@ == read_table_view(ct.weights(), ct.table_log)
                &&& spec_read_weights(src@) == Ok::<(Seq<u8>, nat, nat), Error>(
                    (ct.weights(), ct.table_log as nat, used as nat),
                )
                &&& has_zero == exists|s: int|
                    0 <= s <= ct.max_symbol && #[trigger] ct.nb_bits@[s] == 0
                &&& used <= src@.len()
            },
            Err(e) => spec_read_weights(src@) == Err::<(Seq<u8>, nat, nat), Error>(e),
        },
{
    let (weights, table_log, consumed) = match read_weights(src) {
        Ok(p) => p,
        Err(e) => {
            return Err(e);
        },
    };
    let ghost log = table_log as nat;
    let n: usize = weights.len();
    proof {
        lemma_read_weights_le(src@, weights@, log, consumed as nat);
    }
    let mut nb_bits: Vec<u8> = Vec::new();
    let mut has_zero: bool = false;
    let mut s: usize = 0;
    while s < n
        invariant
            s <= n,
            n == weights@.len(),
            n <= 256,
            1 <= log <= 12,
            log == table_log as nat,
            forall|i: int| 0 <= i < n ==> #[trigger] weights@[i] <= log,
            nb_bits@.len() == s,
            forall|i: int| 0 <= i < s ==> #[trigger] nb_bits@[i] <= log,
            forall|i: int| 0 <= i < s ==> weights@[i] == weight_of(#[trigger] nb_bits@[i], log),
            has_zero == exists|i: int| 0 <= i < s && #[trigger] nb_bits@[i] == 0,
        decreases n - s,
    {
        let w: u32 = weights[s] as u32;
        let ghost before = nb_bits@;
        if w == 0 {
            nb_bits.push(0);
            has_zero = true;
            assert(nb_bits@[s as int] == 0);
        } else {
            nb_bits.push((table_log + 1 - w) as u8);
            proof {
                if exists|i: int| 0 <= i < s && #[trigger] before[i] == 0 {
                    let i = choose|i: int| 0 <= i < s && #[trigger] before[i] == 0;
                    assert(nb_bits@[i] == 0);
                }
                if exists|i: int| 0 <= i < s + 1 && #[trigger] nb_bits@[i] == 0 {
                    let i = choose|i: int| 0 <= i < s + 1 && #[trigger] nb_bits@[i] == 0;
                    assert(before[i] == 0);
                }
            }
        }
        s = s + 1;
    }
    while s < 256
        invariant
            n <= s <= 256,
            nb_bits@.len() == s,
            1 <= n,
            forall|i: int| 0 <= i < s ==> #[trigger] nb_bits@[i] <= log,
            forall|i: int| 0 <= i < n ==> weights@[i] == weight_of(#[trigger] nb_bits@[i], log),
            forall|i: int| n <= i < s ==> #[trigger] nb_bits@[i] == 0,
            has_zero == exists|i: int| 0 <= i < n && #[trigger] nb_bits@[i] == 0,
        decreases 256 - s,
    {
        let ghost before = nb_bits@;
        nb_bits.push(0);
        proof {
            if exists|i: int| 0 <= i < n && #[trigger] before[i] == 0 {
                let i = choose|i: int| 0 <= i < n && #[trigger] before[i] == 0;
                assert(nb_bits@[i] == 0);
            }
            if exists|i: int| 0 <= i < n && #[trigger] nb_bits@[i] == 0 {
                let i = choose|i: int| 0 <= i < n && #[trigger] nb_bits@[i] == 0;
                assert(before[i] == 0);
            }
        }
        s = s + 1;
    }
    proof {
        assert(weights_of(nb_bits@, n as nat, log) =~= weights@);
    }
    let ghost lengths = nb_bits@;
    let ct = assign_codes(nb_bits, (n - 1) as u32, table_log);
    proof {
        if has_zero {
            let i = choose|i: int| 0 <= i < n && #[trigger] lengths[i] == 0;
            assert(ct.nb_bits@[i] == 0);
        }
        assert(ct.weights() =~= weights@);
        assert forall|s: int| 0 <= s < 256 implies #[trigger] lengths[s] == if s >= weights@.len()
            || weights@[s] == 0 {
            0
        } else {
            log + 1 - weights@[s]
        } by {
            if s < n {
                assert(weights@[s] == weight_of(lengths[s], log));
            }
        }
        assert(lengths =~= read_table_view(weights@, table_log).nb_bits);
    }
    Ok((ct, has_zero, consumed))
}

/// Weights that were read leave every present symbol a code of at least one
/// bit.
proof fn lemma_read_weights_le(src: Seq<u8>, w: Seq<u8>, log: nat, used: nat)
    requires
        spec_read_weights(src) == Ok::<(Seq<u8>, nat, nat), Error>((w, log, used)),
    ensures
        forall|i: int| 0 <= i < w.len() ==> #[trigger] w[i] <= log,
{
    let listed = spec_listed_weights(src)->Ok_0.0;
    let total = weight_sum(listed);
    let rest = (pow2(log) - total) as nat;
    lemma_top_of(total);
    lemma_pow2_unfold(log);
    lemma_top_of(rest);
    if log < highest_bit(rest) {
        lemma_pow2_strictly_increases(log, highest_bit(rest));
    }
    assert forall|i: int| 0 <= i < w.len() implies #[trigger] w[i] <= log by {
        if i < listed.len() {
            assert(w[i] == listed[i]);
            lemma_span_le_sum(listed, i);
            if log < listed[i] - 1 {
                lemma_pow2_strictly_increases(log, (listed[i] - 1) as nat);
            }
        }
    }
}

/// A positive number lies between its highest bit and twice that.
proof fn lemma_top_of(x: nat)
    requires
        x > 0,
    ensures
        pow2(highest_bit(x)) <= x < 2 * pow2(highest_bit(x)),
    decreases x,
{
    lemma2_to64();
    if x > 1 {
        lemma_top_of(x / 2);
        lemma_pow2_unfold(highest_bit(x));
    }
}

/// The old table can encode the new histogram.
pub fn validate_ctable(ct: &HufCTable, count: &[u32], max_symbol: u32) -> (r: bool)
    requires
        ct.wf(),
        count@.len() > max_symbol,
        max_symbol <= 255,
    ensures
        r == (ct.max_symbol >= max_symbol && forall|s: int|
            0 <= s <= max_symbol && #[trigger] count@[s] != 0 ==> ct.encodable(s)),
{
    if ct.max_symbol < max_symbol {
        return false;
    }
    let mut s: usize = 0;
    while s <= max_symbol as usize
        invariant
            s <= max_symbol + 1,
            max_symbol <= 255,
            ct.wf(),
            ct.max_symbol >= max_symbol,
            count@.len() > max_symbol,
            forall|i: int| 0 <= i < s && #[trigger] count@[i] != 0 ==> ct.encodable(i),
        decreases max_symbol + 1 - s,
    {
        if count[s] != 0 && ct.nb_bits[s] == 0 {
            assert(!ct.encodable(s as int));
            return false;
        }
        s = s + 1;
    }
    true
}

/// Bits that the symbols below `k` take.
pub open spec fn code_cost(nb_bits: Seq<u8>, count: Seq<u32>, k: nat) -> nat
    decreases k,
{
    if k == 0 {
        0
    } else {
        code_cost(nb_bits, count, (k - 1) as nat) + nb_bits[k - 1] as nat * count[k - 1] as nat
    }
}

/// The bytes that a stream with this histogram takes, rounded down.
pub fn estimate_compressed_size(ct: &HufCTable, count: &[u32], max_symbol: u32) -> (r: u64)
    requires
        ct.wf(),
        count@.len() > max_symbol,
        max_symbol <= 255,
    ensures
        r == code_cost(ct.nb_bits@, count@, (max_symbol + 1) as nat) / 8,
        r <= 0x200_0000_0000,
{
    let mut bits: u64 = 0;
    let mut s: usize = 0;
    while s <= max_symbol as usize
        invariant
            s <= max_symbol + 1,
            max_symbol <= 255,
            ct.wf(),
            count@.len() > max_symbol,
            bits == code_cost(ct.nb_bits@, count@, s as nat),
            bits <= s * 0x1_0000_0000 * 12,
        decreases max_symbol + 1 - s,
    {
        let nb: u64 = ct.nb_bits[s] as u64;
        let c: u64 = count[s] as u64;
        assert(nb * c <= 12 * 0x1_0000_0000) by (nonlinear_arith)
            requires
                nb <= 12,
                c <= 0x1_0000_0000,
        ;
        assert(nb * c >= 0) by (nonlinear_arith);
        bits = bits + nb * c;
        s = s + 1;
    }
    bits / 8
}

} // verus!
