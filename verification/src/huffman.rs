//! Huffman decoding for the literals section: table descriptions, decoding
//! tables, and the one- and four-stream decoders.

use crate::fse;
use crate::bits::{
    highbit32, highest_bit, lemma_highest_bit_bound, payload_bits, rev_open_error, rev_peek, ReverseBitReader,
};
use crate::error::Error;
use crate::fse::{bytes_result, spec_decode_interleaved, spec_dtable, spec_read_ncount};
use crate::math::pow2_u64;
use vstd::arithmetic::power2::{lemma2_to64, lemma_pow2_strictly_increases, lemma_pow2_unfold, pow2};
use vstd::prelude::*;
use vstd::slice::slice_subrange;

verus! {

/// The largest table the format allows; also the largest weight.
pub const MAX_TABLE_LOG: u32 = 12;

/// One entry of a decoding table: the symbol whose code starts with these
/// bits, and the length of that code.
#[derive(Clone, Copy, Debug)]
pub struct HufEntry {
    pub symbol: u8,
    pub nb_bits: u8,
}

/// A decoding table, indexed by the next `table_log` bits.
#[derive(Debug)]
pub struct HuffmanTable {
    pub table_log: u32,
    pub entries: Vec<HufEntry>,
}

/// The mathematical content of a [`HuffmanTable`].
pub struct HuffmanTableView {
    pub log: nat,
    pub entries: Seq<HufEntry>,
}

impl View for HuffmanTable {
    type V = HuffmanTableView;

    open spec fn view(&self) -> HuffmanTableView {
        HuffmanTableView { log: self.table_log as nat, entries: self.entries@ }
    }
}

impl HuffmanTableView {
    pub open spec fn wf(self) -> bool {
        &&& self.log <= 12
        &&& self.entries.len() == pow2(self.log)
        &&& forall|u: int|
            0 <= u < self.entries.len() ==> (#[trigger] self.entries[u]).nb_bits <= 13
    }
}

pub open spec fn opt_view(t: Option<HuffmanTable>) -> Option<HuffmanTableView> {
    match t {
        Some(x) => Some(x@),
        None => None,
    }
}

impl HuffmanTable {
    /// A copy of the table.
    pub fn duplicate(&self) -> (r: Self)
        ensures
            r@ == self@,
    {
        let mut entries: Vec<HufEntry> = Vec::new();
        let mut i: usize = 0;
        while i < self.entries.len()
            invariant
                i <= self.entries@.len(),
                entries@ == self.entries@.take(i as int),
            decreases self.entries@.len() - i,
        {
            entries.push(self.entries[i]);
            assert(self.entries@.take(i + 1) =~= self.entries@.take(i as int).push(
                self.entries@[i as int],
            ));
            i = i + 1;
        }
        assert(self.entries@.take(self.entries@.len() as int) =~= self.entries@);
        HuffmanTable { table_log: self.table_log, entries }
    }
}

// ---------------------------------------------------------------------------
// Weights.

/// Entries that a symbol of weight `w` takes.
pub open spec fn weight_span(w: u8) -> nat {
    if w == 0 {
        0
    } else {
        pow2((w - 1) as nat)
    }
}

/// Entries that all symbols together take.
pub open spec fn weight_sum(weights: Seq<u8>) -> nat
    decreases weights.len(),
{
    if weights.len() == 0 {
        0
    } else {
        weight_sum(weights.drop_last()) + weight_span(weights.last())
    }
}

/// The weights listed at the start of `src`, and the bytes they occupy. A
/// header byte below 128 is the size of FSE-compressed weights; a larger one
/// announces `header - 127` weights packed as nibbles, high nibble first.
pub open spec fn spec_listed_weights(src: Seq<u8>) -> Result<(Seq<u8>, nat), Error> {
    if src.len() == 0 {
        Err(Error::Corrupted("missing huffman header"))
    } else {
        let header = src[0] as nat;
        if header < 128 {
            if src.len() < 1 + header {
                Err(Error::Corrupted("huffman weights overrun input"))
            } else {
                let payload = src.subrange(1, 1 + header as int);
                match spec_read_ncount(payload, 255, 6) {
                    Err(e) => Err(e),
                    Ok(nc) => match spec_decode_interleaved(
                        spec_dtable(nc.counts, nc.log),
                        payload.skip(nc.bytes as int),
                        255,
                    ) {
                        Err(e) => Err(e),
                        Ok(weights) => Ok((weights, 1 + header)),
                    },
                }
            }
        } else {
            let n = (header - 127) as nat;
            if src.len() < 1 + (n + 1) / 2 {
                Err(Error::Corrupted("huffman weights overrun input"))
            } else {
                Ok((Seq::new(n, |i: int| nibble(src, i)), 1 + (n + 1) / 2))
            }
        }
    }
}

/// The `i`-th packed weight after the header byte.
pub open spec fn nibble(src: Seq<u8>, i: int) -> u8 {
    let b = src[1 + i / 2];
    if i % 2 == 0 {
        (b / 16) as u8
    } else {
        (b % 16) as u8
    }
}

/// The full weights and the table log: the last symbol's weight is implicit
/// and completes the sum to a power of two.
pub open spec fn spec_complete_weights(listed: Seq<u8>) -> Result<(Seq<u8>, nat), Error> {
    let total = weight_sum(listed);
    let log = highest_bit(total) + 1;
    let rest = (pow2(log) - total) as nat;
    if exists|i: int| 0 <= i < listed.len() && #[trigger] listed[i] > 12 {
        Err(Error::Corrupted("huffman weight too large"))
    } else if total == 0 {
        Err(Error::Corrupted("huffman table has no weights"))
    } else if log > 12 {
        Err(Error::Corrupted("huffman code lengths too long"))
    } else if rest != pow2(highest_bit(rest)) {
        Err(Error::Corrupted("huffman weights do not sum to a power of two"))
    } else if listed.len() >= 256 {
        Err(Error::Corrupted("too many huffman symbols"))
    } else {
        Ok((listed.push((highest_bit(rest) + 1) as u8), log))
    }
}

/// What the description at the start of `src` says: all weights, the table
/// log, and the bytes it occupies.
pub open spec fn spec_read_weights(src: Seq<u8>) -> Result<(Seq<u8>, nat, nat), Error> {
    match spec_listed_weights(src) {
        Err(e) => Err(e),
        Ok((listed, used)) => match spec_complete_weights(listed) {
            Err(e) => Err(e),
            Ok((weights, log)) => Ok((weights, log, used)),
        },
    }
}

/// Weights that fill a table of `2^log` entries exactly.
pub open spec fn valid_weights(weights: Seq<u8>, log: nat) -> bool {
    &&& 1 <= log <= 12
    &&& 1 <= weights.len() <= 256
    &&& forall|i: int| 0 <= i < weights.len() ==> #[trigger] weights[i] <= 12
    &&& weight_sum(weights) == pow2(log)
}

pub proof fn lemma_weight_sum_push(weights: Seq<u8>, w: u8)
    ensures
        weight_sum(weights.push(w)) == weight_sum(weights) + weight_span(w),
{
    assert(weights.push(w).drop_last() =~= weights);
}

/// Reads the weights that `src` lists.
fn read_listed_weights(src: &[u8]) -> (r: Result<(Vec<u8>, usize), Error>)
    ensures
        match r {
            Ok((w, used)) => {
                &&& spec_listed_weights(src@) == Ok::<(Seq<u8>, nat), Error>((w@, used as nat))
                &&& w@.len() <= 255
                &&& used <= src@.len()
            },
            Err(e) => spec_listed_weights(src@) == Err::<(Seq<u8>, nat), Error>(e),
        },
{
    if src.len() == 0 {
        return Err(Error::Corrupted("missing huffman header"));
    }
    let header: usize = src[0] as usize;
    if header < 128 {
        if src.len() < 1 + header {
            return Err(Error::Corrupted("huffman weights overrun input"));
        }
        let payload = slice_subrange(src, 1, 1 + header);
        let nc = match fse::read_ncount(payload, 255, 6) {
            Ok(nc) => nc,
            Err(e) => {
                return Err(e);
            },
        };
        let table = match fse::build_dtable(&nc.counts, nc.table_log) {
            Ok(t) => t,
            Err(e) => {
                return Err(e);
            },
        };
        proof {
            fse::lemma_dtable_wf(nc.counts@, nc.table_log as nat, 255);
        }
        let stream = slice_subrange(payload, nc.bytes_consumed, payload.len());
        assert(stream@ =~= payload@.skip(nc.bytes_consumed as int));
        match fse::decode_interleaved(&table, stream, 255) {
            Ok(w) => Ok((w, 1 + header)),
            Err(e) => Err(e),
        }
    } else {
        let n: usize = header - 127;
        let n_bytes: usize = (n + 1) / 2;
        if src.len() < 1 + n_bytes {
            return Err(Error::Corrupted("huffman weights overrun input"));
        }
        let mut weights: Vec<u8> = Vec::new();
        let mut i: usize = 0;
        while i < n
            invariant
                i <= n,
                n <= 128,
                src@.len() >= 1 + (n + 1) / 2,
                weights@.len() == i,
                forall|j: int| 0 <= j < i ==> #[trigger] weights@[j] == nibble(src@, j),
            decreases n - i,
        {
            let b: u8 = src[1 + i / 2];
            weights.push(
                if i % 2 == 0 {
                    b / 16
                } else {
                    b % 16
                },
            );
            i = i + 1;
        }
        assert(weights@ =~= Seq::new(n as nat, |i: int| nibble(src@, i)));
        Ok((weights, 1 + n_bytes))
    }
}

/// Reads a table description: all weights with the implicit last one, the
/// table log, and the number of bytes consumed.
#[verifier::rlimit(30)]
pub fn read_weights(src: &[u8]) -> (r: Result<(Vec<u8>, u32, usize), Error>)
    ensures
        match r {
            Ok((w, log, used)) => {
                &&& spec_read_weights(src@) == Ok::<(Seq<u8>, nat, nat), Error>(
                    (w@, log as nat, used as nat),
                )
                &&& valid_weights(w@, log as nat)
                &&& used <= src@.len()
            },
            Err(e) => spec_read_weights(src@) == Err::<(Seq<u8>, nat, nat), Error>(e),
        },
{
    let (mut weights, consumed) = match read_listed_weights(src) {
        Ok(p) => p,
        Err(e) => {
            return Err(e);
        },
    };
    let ghost listed = weights@;
    let mut total: u32 = 0;
    let mut i: usize = 0;
    proof {
        lemma2_to64();
        assert(listed.take(0) =~= Seq::<u8>::empty());
        assert(listed.take(listed.len() as int) =~= listed);
    }
    while i < weights.len()
        invariant
            i <= weights@.len(),
            weights@ == listed,
            listed.len() <= 255,
            total == weight_sum(listed.take(i as int)),
            total <= 2048 * i,
            forall|j: int| 0 <= j < i ==> #[trigger] listed[j] <= 12,
            spec_listed_weights(src@) == Ok::<(Seq<u8>, nat), Error>((listed, consumed as nat)),
        decreases weights@.len() - i,
    {
        let w: u8 = weights[i];
        if w > 12 {
            assert(listed[i as int] > 12);
            return Err(Error::Corrupted("huffman weight too large"));
        }
        proof {
            assert(listed.take(i + 1) =~= listed.take(i as int).push(w));
            lemma_weight_sum_push(listed.take(i as int), w);
            lemma2_to64();
            if 1 < w < 12 {
                lemma_pow2_strictly_increases((w - 1) as nat, 11);
            }
        }
        if w > 0 {
            total = total + pow2_u64(w as u32 - 1) as u32;
        }
        i = i + 1;
    }
    if total == 0 {
        return Err(Error::Corrupted("huffman table has no weights"));
    }
    let table_log: u32 = highbit32(total) + 1;
    if table_log > MAX_TABLE_LOG {
        return Err(Error::Corrupted("huffman code lengths too long"));
    }
    proof {
        lemma2_to64();
        lemma_pow2_unfold(table_log as nat);
        if table_log < 12 {
            lemma_pow2_strictly_increases(table_log as nat, 12);
        }
    }
    let rest: u32 = pow2_u64(table_log) as u32 - total;
    let rest_bit: u32 = highbit32(rest);
    if rest != pow2_u64(rest_bit) as u32 {
        return Err(Error::Corrupted("huffman weights do not sum to a power of two"));
    }
    proof {
        lemma_highest_bit_bound(rest as nat, table_log as nat);
        lemma_weight_sum_push(listed, (rest_bit + 1) as u8);
    }
    weights.push((rest_bit + 1) as u8);
    Ok((weights, table_log, consumed))
}

// ---------------------------------------------------------------------------
// Tables.

/// `n` equal entries.
pub open spec fn entry_run(symbol: u8, nb_bits: u8, n: nat) -> Seq<HufEntry> {
    Seq::new(n, |i: int| HufEntry { symbol, nb_bits })
}

/// The entries of the symbols below `k` that have weight `w`, in order.
pub open spec fn rank_entries(weights: Seq<u8>, log: nat, w: nat, k: nat) -> Seq<HufEntry>
    decreases k,
{
    if k == 0 {
        Seq::empty()
    } else if weights[k - 1] == w {
        rank_entries(weights, log, w, (k - 1) as nat) + entry_run(
            (k - 1) as u8,
            (log + 1 - w) as u8,
            pow2((w - 1) as nat),
        )
    } else {
        rank_entries(weights, log, w, (k - 1) as nat)
    }
}

/// The entries of all symbols with weights `1 ..= w`, lightest first.
pub open spec fn table_entries(weights: Seq<u8>, log: nat, w: nat) -> Seq<HufEntry>
    decreases w,
{
    if w == 0 {
        Seq::empty()
    } else {
        table_entries(weights, log, (w - 1) as nat) + rank_entries(weights, log, w, weights.len())
    }
}

/// The decoding table for `weights`: symbols in weight order (longest codes
/// first), in natural order within each weight, each taking `2^(weight-1)`
/// consecutive entries.
pub open spec fn spec_build(weights: Seq<u8>, log: nat) -> HuffmanTableView {
    HuffmanTableView { log, entries: table_entries(weights, log, 12) }
}

/// Entries of the symbols below `k` with weights `1 ..= w`.
pub open spec fn sum_upto(weights: Seq<u8>, w: nat, k: nat) -> nat
    decreases k,
{
    if k == 0 {
        0
    } else {
        sum_upto(weights, w, (k - 1) as nat) + if 1 <= weights[k - 1] <= w {
            weight_span(weights[k - 1])
        } else {
            0
        }
    }
}

pub proof fn lemma_rank_len(weights: Seq<u8>, log: nat, w: nat, k: nat)
    requires
        k <= weights.len(),
        1 <= w <= 12,
    ensures
        rank_entries(weights, log, w, k).len() + sum_upto(weights, (w - 1) as nat, k) == sum_upto(
            weights,
            w,
            k,
        ),
    decreases k,
{
    if k > 0 {
        lemma_rank_len(weights, log, w, (k - 1) as nat);
    }
}

pub proof fn lemma_table_len(weights: Seq<u8>, log: nat, w: nat)
    requires
        w <= 12,
    ensures
        table_entries(weights, log, w).len() == sum_upto(weights, w, weights.len()),
    decreases w,
{
    if w == 0 {
        lemma_sum_upto_zero(weights, weights.len());
    } else {
        lemma_table_len(weights, log, (w - 1) as nat);
        lemma_rank_len(weights, log, w, weights.len());
    }
}

pub proof fn lemma_sum_upto_zero(weights: Seq<u8>, k: nat)
    ensures
        sum_upto(weights, 0, k) == 0,
    decreases k,
{
    if k > 0 {
        lemma_sum_upto_zero(weights, (k - 1) as nat);
    }
}

pub proof fn lemma_sum_upto_all(weights: Seq<u8>, k: nat)
    requires
        k <= weights.len(),
        forall|i: int| 0 <= i < weights.len() ==> #[trigger] weights[i] <= 12,
    ensures
        sum_upto(weights, 12, k) == weight_sum(weights.take(k as int)),
    decreases k,
{
    if k == 0 {
        assert(weights.take(0) =~= Seq::<u8>::empty());
    } else {
        lemma_sum_upto_all(weights, (k - 1) as nat);
        assert(weights.take(k as int).drop_last() =~= weights.take(k - 1));
    }
}

pub proof fn lemma_span_le_sum(weights: Seq<u8>, i: int)
    requires
        0 <= i < weights.len(),
    ensures
        weight_span(weights[i]) <= weight_sum(weights),
    decreases weights.len(),
{
    if i < weights.len() - 1 {
        lemma_span_le_sum(weights.drop_last(), i);
    }
}

/// No weight is above the table log plus one.
pub proof fn lemma_weights_le_log(weights: Seq<u8>, log: nat)
    requires
        valid_weights(weights, log),
    ensures
        forall|i: int| 0 <= i < weights.len() ==> #[trigger] weights[i] <= log + 1,
{
    assert forall|i: int| 0 <= i < weights.len() implies #[trigger] weights[i] <= log + 1 by {
        lemma_span_le_sum(weights, i);
        if weights[i] > log + 1 {
            lemma_pow2_strictly_increases(log, (weights[i] - 1) as nat);
        }
    }
}

pub proof fn lemma_build_wf(weights: Seq<u8>, log: nat)
    requires
        valid_weights(weights, log),
    ensures
        spec_build(weights, log).wf(),
{
    lemma_table_len(weights, log, 12);
    lemma_sum_upto_all(weights, weights.len());
    assert(weights.take(weights.len() as int) =~= weights);
    lemma_weights_le_log(weights, log);
    lemma_table_bits(weights, log, 12);
}

proof fn lemma_table_bits(weights: Seq<u8>, log: nat, w: nat)
    requires
        w <= 12,
        log <= 12,
        forall|i: int| 0 <= i < weights.len() ==> #[trigger] weights[i] <= log + 1,
    ensures
        forall|u: int|
            0 <= u < table_entries(weights, log, w).len() ==> (#[trigger] table_entries(
                weights,
                log,
                w,
            )[u]).nb_bits <= 13,
    decreases w,
{
    if w > 0 {
        lemma_table_bits(weights, log, (w - 1) as nat);
        lemma_rank_bits(weights, log, w, weights.len());
        let e = table_entries(weights, log, w);
        let f = table_entries(weights, log, (w - 1) as nat);
        let g = rank_entries(weights, log, w, weights.len());
        assert forall|u: int| 0 <= u < e.len() implies (#[trigger] e[u]).nb_bits <= 13 by {
            if u < f.len() {
                assert(e[u] == f[u]);
            } else {
                assert(e[u] == g[u - f.len()]);
            }
        }
    }
}

proof fn lemma_rank_bits(weights: Seq<u8>, log: nat, w: nat, k: nat)
    requires
        k <= weights.len(),
        1 <= w <= 12,
        log <= 12,
        forall|i: int| 0 <= i < weights.len() ==> #[trigger] weights[i] <= log + 1,
    ensures
        forall|u: int|
            0 <= u < rank_entries(weights, log, w, k).len() ==> (#[trigger] rank_entries(
                weights,
                log,
                w,
                k,
            )[u]).nb_bits <= 13,
    decreases k,
{
    if k > 0 {
        lemma_rank_bits(weights, log, w, (k - 1) as nat);
        let e = rank_entries(weights, log, w, k);
        let f = rank_entries(weights, log, w, (k - 1) as nat);
        assert forall|u: int| 0 <= u < e.len() implies (#[trigger] e[u]).nb_bits <= 13 by {
            if u < f.len() {
                assert(e[u] == f[u]);
            }
        }
    }
}

/// Builds the decoding table for `weights`.
pub fn build(weights: &[u8], table_log: u32) -> (r: HuffmanTable)
    requires
        valid_weights(weights@, table_log as nat),
    ensures
        r@ == spec_build(weights@, table_log as nat),
{
    let mut entries: Vec<HufEntry> = Vec::new();
    let ghost log = table_log as nat;
    let mut w: u32 = 1;
    proof {
        lemma_weights_le_log(weights@, log);
    }
    assert(entries@ =~= table_entries(weights@, log, 0));
    while w <= 12
        invariant
            1 <= w <= 13,
            log == table_log as nat,
            valid_weights(weights@, log),
            forall|i: int| 0 <= i < weights@.len() ==> #[trigger] weights@[i] <= log + 1,
            entries@ == table_entries(weights@, log, (w - 1) as nat),
        decreases 13 - w,
    {
        let mut k: usize = 0;
        let ghost before = entries@;
        assert(before + rank_entries(weights@, log, w as nat, 0) =~= before);
        let span: u64 = pow2_u64(w - 1);
        while k < weights.len()
            invariant
                k <= weights@.len(),
                1 <= w <= 12,
                log == table_log as nat,
                valid_weights(weights@, log),
                forall|i: int| 0 <= i < weights@.len() ==> #[trigger] weights@[i] <= log + 1,
                span == pow2((w - 1) as nat),
                entries@ == before + rank_entries(weights@, log, w as nat, k as nat),
            decreases weights@.len() - k,
        {
            if weights[k] as u32 == w {
                assert(weights@[k as int] <= log + 1);
                let nb_bits: u8 = (table_log + 1 - w) as u8;
                let ghost prior = entries@;
                let mut i: u64 = 0;
                assert(prior + entry_run(k as u8, nb_bits, 0) =~= prior);
                while i < span
                    invariant
                        i <= span,
                        k < 256,
                        entries@ == prior + entry_run(k as u8, nb_bits, i as nat),
                    decreases span - i,
                {
                    entries.push(HufEntry { symbol: k as u8, nb_bits });
                    assert(entries@ =~= prior + entry_run(k as u8, nb_bits, (i + 1) as nat));
                    i = i + 1;
                }
                assert(entries@ =~= before + rank_entries(
                    weights@,
                    log,
                    w as nat,
                    (k + 1) as nat,
                ));
            }
            k = k + 1;
        }
        w = w + 1;
    }
    HuffmanTable { table_log, entries }
}

/// The table that `src` describes, and the bytes the description occupies.
pub open spec fn spec_read_table(src: Seq<u8>) -> Result<(HuffmanTableView, nat), Error> {
    match spec_read_weights(src) {
        Err(e) => Err(e),
        Ok((weights, log, used)) => Ok((spec_build(weights, log), used)),
    }
}

/// Reads a table description and builds the decoding table.
pub fn read_table(src: &[u8]) -> (r: Result<(HuffmanTable, usize), Error>)
    ensures
        match r {
            Ok((t, used)) => {
                &&& spec_read_table(src@) == Ok::<(HuffmanTableView, nat), Error>(
                    (t@, used as nat),
                )
                &&& t@.wf()
                &&& used <= src@.len()
            },
            Err(e) => spec_read_table(src@) == Err::<(HuffmanTableView, nat), Error>(e),
        },
{
    match read_weights(src) {
        Ok((weights, table_log, consumed)) => {
            proof {
                lemma_build_wf(weights@, table_log as nat);
            }
            Ok((build(&weights, table_log), consumed))
        },
        Err(e) => Err(e),
    }
}

// ---------------------------------------------------------------------------
// Decoding.

/// `out` with `count` more symbols decoded from `data`, and the bits left.
pub open spec fn huf_symbols(
    t: HuffmanTableView,
    data: Seq<u8>,
    rem: int,
    count: nat,
    out: Seq<u8>,
) -> (Seq<u8>, int)
    decreases count,
{
    if count == 0 {
        (out, rem)
    } else {
        let e = t.entries[rev_peek(data, rem, t.log) as int];
        huf_symbols(t, data, rem - e.nb_bits, (count - 1) as nat, out.push(e.symbol))
    }
}

/// Exactly `count` symbols decoded from one backward stream.
#[verifier::opaque]
pub open spec fn spec_decode_stream(t: HuffmanTableView, src: Seq<u8>, count: nat) -> Result<
    Seq<u8>,
    Error,
> {
    match rev_open_error(src) {
        Some(e) => Err(e),
        None => {
            let (symbols, rem) = huf_symbols(t, src, payload_bits(src), count, Seq::empty());
            if rem != 0 {
                Err(Error::Corrupted("huffman stream not fully consumed"))
            } else {
                Ok(symbols)
            }
        },
    }
}

proof fn lemma_huf_symbols_acc(
    t: HuffmanTableView,
    data: Seq<u8>,
    rem: int,
    count: nat,
    out: Seq<u8>,
)
    ensures
        huf_symbols(t, data, rem, count, out).0 == out + huf_symbols(
            t,
            data,
            rem,
            count,
            Seq::empty(),
        ).0,
        huf_symbols(t, data, rem, count, out).1 == huf_symbols(
            t,
            data,
            rem,
            count,
            Seq::empty(),
        ).1,
        huf_symbols(t, data, rem, count, Seq::empty()).0.len() == count,
    decreases count,
{
    if count > 0 {
        let e = t.entries[rev_peek(data, rem, t.log) as int];
        let r = rem - e.nb_bits;
        lemma_huf_symbols_acc(t, data, r, (count - 1) as nat, out.push(e.symbol));
        lemma_huf_symbols_acc(t, data, r, (count - 1) as nat, Seq::<u8>::empty().push(e.symbol));
        let tail = huf_symbols(t, data, r, (count - 1) as nat, Seq::empty()).0;
        assert(out.push(e.symbol) + tail =~= out + (Seq::<u8>::empty().push(e.symbol) + tail));
    } else {
        assert(out + Seq::<u8>::empty() =~= out);
    }
}

/// Decodes exactly `count` symbols from one backward stream onto `out`.
fn decode_stream_into(table: &HuffmanTable, src: &[u8], count: usize, out: &mut Vec<u8>) -> (r: Result<
    (),
    Error,
>)
    requires
        table@.wf(),
        src@.len() * 8 + 64 <= i64::MAX,
        count <= 0xFFFF_FFFF,
    ensures
        match r {
            Ok(_) => {
                &&& spec_decode_stream(table@, src@, count as nat) is Ok
                &&& final(out)@ == old(out)@ + spec_decode_stream(table@, src@, count as nat)->Ok_0
                &&& spec_decode_stream(table@, src@, count as nat)->Ok_0.len() == count
            },
            Err(e) => spec_decode_stream(table@, src@, count as nat) == Err::<Seq<u8>, Error>(e),
        },
{
    proof {
        reveal(spec_decode_stream);
    }
    let mut br = match ReverseBitReader::new(src) {
        Ok(b) => b,
        Err(e) => {
            return Err(e);
        },
    };
    let mut i: usize = 0;
    let ghost n = payload_bits(src@);
    let ghost goal = huf_symbols(table@, src@, n, count as nat, out@);
    proof {
        lemma_huf_symbols_acc(table@, src@, n, count as nat, out@);
        lemma2_to64();
        lemma_highest_bit_bound(src@.last() as nat, 8);
    }
    while i < count
        invariant
            i <= count,
            count <= 0xFFFF_FFFF,
            table@.wf(),
            br.wf(),
            br.data@ == src@,
            br.bits_remaining >= -(13 * i),
            goal == huf_symbols(
                table@,
                src@,
                br.bits_remaining as int,
                (count - i) as nat,
                out@,
            ),
        decreases count - i,
    {
        proof {
            lemma2_to64();
            if table@.log < 12 {
                lemma_pow2_strictly_increases(table@.log, 12);
            }
        }
        let idx: usize = br.peek(table.table_log) as usize;
        let e: HufEntry = table.entries[idx];
        br.consume(e.nb_bits as u32);
        out.push(e.symbol);
        i = i + 1;
    }
    if !br.finished_exactly() {
        return Err(Error::Corrupted("huffman stream not fully consumed"));
    }
    Ok(())
}

/// Decodes a single-stream literals payload.
pub fn decode_single_stream(table: &HuffmanTable, src: &[u8], regenerated_size: usize) -> (r: Result<
    Vec<u8>,
    Error,
>)
    requires
        table@.wf(),
        src@.len() * 8 + 64 <= i64::MAX,
        regenerated_size <= 0xFFFF_FFFF,
    ensures
        bytes_result(r) == spec_decode_stream(table@, src@, regenerated_size as nat),
        r matches Ok(v) ==> v@.len() == regenerated_size,
{
    let mut out: Vec<u8> = Vec::new();
    match decode_stream_into(table, src, regenerated_size, &mut out) {
        Ok(_) => {
            assert(out@ =~= spec_decode_stream(table@, src@, regenerated_size as nat)->Ok_0);
            Ok(out)
        },
        Err(e) => Err(e),
    }
}

/// The two-byte little-endian number at `at`.
pub open spec fn le16(s: Seq<u8>, at: int) -> nat {
    (s[at] + 256 * s[at + 1]) as nat
}

pub open spec fn join_results(a: Result<Seq<u8>, Error>, b: Result<Seq<u8>, Error>) -> Result<
    Seq<u8>,
    Error,
> {
    match a {
        Err(e) => Err(e),
        Ok(x) => match b {
            Err(e) => Err(e),
            Ok(y) => Ok(x + y),
        },
    }
}

/// What a four-stream payload decodes to. It starts with the sizes of the
/// first three streams; the fourth runs to the end. The first three
/// regenerate a quarter of the bytes each, rounded up, the last the rest.
pub open spec fn spec_decode_four(t: HuffmanTableView, src: Seq<u8>, size: nat) -> Result<
    Seq<u8>,
    Error,
> {
    if src.len() < 6 {
        Err(Error::Corrupted("missing huffman jump table"))
    } else {
        let s1 = le16(src, 0);
        let s2 = le16(src, 2);
        let s3 = le16(src, 4);
        let rest = src.skip(6);
        let segment = (size + 3) / 4;
        if s1 + s2 + s3 >= rest.len() {
            Err(Error::Corrupted("huffman jump table overruns input"))
        } else if size <= 3 * segment {
            Err(Error::Corrupted("four-stream literals too short"))
        } else {
            join_results(
                join_results(
                    join_results(
                        spec_decode_stream(t, rest.subrange(0, s1 as int), segment),
                        spec_decode_stream(t, rest.subrange(s1 as int, (s1 + s2) as int), segment),
                    ),
                    spec_decode_stream(
                        t,
                        rest.subrange((s1 + s2) as int, (s1 + s2 + s3) as int),
                        segment,
                    ),
                ),
                spec_decode_stream(
                    t,
                    rest.skip((s1 + s2 + s3) as int),
                    (size - 3 * segment) as nat,
                ),
            )
        }
    }
}

/// Decodes a four-stream literals payload.
pub fn decode_four_streams(table: &HuffmanTable, src: &[u8], regenerated_size: usize) -> (r: Result<
    Vec<u8>,
    Error,
>)
    requires
        table@.wf(),
        src@.len() * 8 + 64 <= i64::MAX,
        regenerated_size <= 0xFFFF_FFF0,
    ensures
        bytes_result(r) == spec_decode_four(table@, src@, regenerated_size as nat),
        r matches Ok(v) ==> v@.len() == regenerated_size,
{
    if src.len() < 6 {
        return Err(Error::Corrupted("missing huffman jump table"));
    }
    let s1: usize = src[0] as usize + 256 * src[1] as usize;
    let s2: usize = src[2] as usize + 256 * src[3] as usize;
    let s3: usize = src[4] as usize + 256 * src[5] as usize;
    let rest = slice_subrange(src, 6, src.len());
    assert(rest@ =~= src@.skip(6));
    if s1 + s2 + s3 >= rest.len() {
        return Err(Error::Corrupted("huffman jump table overruns input"));
    }
    let segment: usize = (regenerated_size + 3) / 4;
    if regenerated_size <= 3 * segment {
        return Err(Error::Corrupted("four-stream literals too short"));
    }
    let last: usize = regenerated_size - 3 * segment;
    let mut out: Vec<u8> = Vec::new();
    let p1 = slice_subrange(rest, 0, s1);
    match decode_stream_into(table, p1, segment, &mut out) {
        Ok(_) => {},
        Err(e) => {
            return Err(e);
        },
    }
    let ghost d1 = spec_decode_stream(table@, p1@, segment as nat)->Ok_0;
    assert(out@ =~= d1);
    let p2 = slice_subrange(rest, s1, s1 + s2);
    match decode_stream_into(table, p2, segment, &mut out) {
        Ok(_) => {},
        Err(e) => {
            return Err(e);
        },
    }
    let p3 = slice_subrange(rest, s1 + s2, s1 + s2 + s3);
    match decode_stream_into(table, p3, segment, &mut out) {
        Ok(_) => {},
        Err(e) => {
            return Err(e);
        },
    }
    let p4 = slice_subrange(rest, s1 + s2 + s3, rest.len());
    assert(p4@ =~= rest@.skip(s1 + s2 + s3));
    match decode_stream_into(table, p4, last, &mut out) {
        Ok(_) => {},
        Err(e) => {
            return Err(e);
        },
    }
    Ok(out)
}

} // verus!
