//! Huffman codes: canonical code assignment, table descriptions, and the
//! streams that the decoder of [`crate::huffman`] reads back.

use crate::bits::rev_peek;
use crate::bits_encode::{append_field, lemma_open_closed, lemma_take_field, stream_holds, BitCStream, Bits};
use crate::error::Error;
use crate::huffman::{
    huf_symbols, lemma_build_wf, lemma_sum_upto_all, lemma_table_len, rank_entries, spec_build, spec_decode_four,
    spec_decode_stream, table_entries, valid_weights, HufEntry, HuffmanTableView,
};
use crate::huffman_encode_model::{
    codes_appended, codes_given, firsts_set, lengths_counted, spec_codes, spec_compress1x, spec_compress4x,
    table_of_lengths, two_bytes, HufCView,
};
use crate::math::bits_at;
use vstd::arithmetic::div_mod::{lemma_fundamental_div_mod, lemma_mod_bound, lemma_small_mod};
use vstd::arithmetic::power2::{
    lemma2_to64, lemma_pow2_adds, lemma_pow2_pos, lemma_pow2_strictly_increases, lemma_pow2_unfold, pow2,
};
use vstd::prelude::*;
use vstd::slice::slice_subrange;

verus! {

/// The weight of a symbol with a code of `nb` bits.
pub open spec fn weight_of(nb: u8, log: nat) -> u8 {
    if nb == 0 {
        0
    } else {
        (log + 1 - nb) as u8
    }
}

/// A compression table: per-symbol code length and canonical code, and the
/// table log (the largest code length).
pub struct HufCTable {
    pub table_log: u32,
    pub max_symbol: u32,
    pub nb_bits: Vec<u8>,
    pub code: Vec<u16>,
}

/// The symbol weights that code lengths stand for.
pub open spec fn weights_of(nb_bits: Seq<u8>, n: nat, log: nat) -> Seq<u8> {
    Seq::new(n, |s: int| weight_of(nb_bits[s], log))
}

/// The code of symbol `s` selects exactly the entries of `s`.
pub open spec fn code_ok(t: HuffmanTableView, s: int, nb: u8, code: u16) -> bool {
    let span = pow2((t.log - nb) as nat);
    &&& code < pow2(nb as nat)
    &&& forall|i: int|
        code * span <= i < (code + 1) * span ==> #[trigger] t.entries[i] == (HufEntry {
            symbol: s as u8,
            nb_bits: nb,
        })
}

impl HufCTable {
    pub open spec fn view(&self) -> HufCView {
        HufCView {
            log: self.table_log,
            max_symbol: self.max_symbol,
            nb_bits: self.nb_bits@,
            code: self.code@,
        }
    }

    pub open spec fn weights(&self) -> Seq<u8> {
        weights_of(self.nb_bits@, (self.max_symbol + 1) as nat, self.table_log as nat)
    }

    /// The table that reads back what this one writes.
    pub open spec fn decoder(&self) -> HuffmanTableView {
        spec_build(self.weights(), self.table_log as nat)
    }

    /// Whether `s` has a code.
    pub open spec fn encodable(&self, s: int) -> bool {
        0 <= s < 256 && self.nb_bits@[s] != 0
    }

    pub open spec fn wf(&self) -> bool {
        &&& 1 <= self.table_log <= 12
        &&& self.max_symbol <= 255
        &&& self.nb_bits@.len() == 256
        &&& self.code@.len() == 256
        &&& forall|s: int| 0 <= s < 256 ==> #[trigger] self.nb_bits@[s] <= self.table_log
        &&& forall|s: int| self.max_symbol < s < 256 ==> #[trigger] self.nb_bits@[s] == 0
        &&& valid_weights(self.weights(), self.table_log as nat)
        &&& forall|s: int| #[trigger]
            self.encodable(s) ==> code_ok(self.decoder(), s, self.nb_bits@[s], self.code@[s])
    }

    /// Whether every byte has a code.
    pub open spec fn covers_all(&self) -> bool {
        forall|s: int| 0 <= s < 256 ==> #[trigger] self.encodable(s)
    }

    /// The code length of `symbol`, or 0 when the table does not cover it.
    pub fn nb_bits_of(&self, symbol: u32) -> (r: u32)
        requires
            self.nb_bits@.len() == 256,
            self.max_symbol <= 255,
        ensures
            r == if symbol > self.max_symbol {
                0
            } else {
                self.nb_bits@[symbol as int] as int
            },
    {
        if symbol > self.max_symbol {
            return 0;
        }
        self.nb_bits[symbol as usize] as u32
    }

    /// A copy of the table.
    pub fn duplicate(&self) -> (r: Self)
        requires
            self.wf(),
        ensures
            r.wf(),
            r.table_log == self.table_log,
            r.max_symbol == self.max_symbol,
            r.nb_bits@ == self.nb_bits@,
            r.code@ == self.code@,
            r@ == self@,
            r.decoder() == self.decoder(),
    {
        let mut nb_bits: Vec<u8> = Vec::new();
        let mut code: Vec<u16> = Vec::new();
        let mut i: usize = 0;
        while i < 256
            invariant
                i <= 256,
                self.nb_bits@.len() == 256,
                self.code@.len() == 256,
                nb_bits@ == self.nb_bits@.take(i as int),
                code@ == self.code@.take(i as int),
            decreases 256 - i,
        {
            nb_bits.push(self.nb_bits[i]);
            code.push(self.code[i]);
            assert(self.nb_bits@.take(i + 1) =~= self.nb_bits@.take(i as int).push(
                self.nb_bits@[i as int],
            ));
            assert(self.code@.take(i + 1) =~= self.code@.take(i as int).push(self.code@[i as int]));
            i = i + 1;
        }
        assert(nb_bits@ =~= self.nb_bits@);
        assert(code@ =~= self.code@);
        let r = HufCTable { table_log: self.table_log, max_symbol: self.max_symbol, nb_bits, code };
        assert forall|s: int| #[trigger] r.encodable(s) implies code_ok(
            r.decoder(),
            s,
            r.nb_bits@[s],
            r.code@[s],
        ) by {
            assert(self.encodable(s));
        }
        r
    }
}

// ---------------------------------------------------------------------------
// Canonical codes.

/// Symbols below `k` with weight `w`.
pub open spec fn weight_count(weights: Seq<u8>, w: nat, k: nat) -> nat
    decreases k,
{
    if k == 0 {
        0
    } else {
        weight_count(weights, w, (k - 1) as nat) + if weights[k - 1] == w {
            1nat
        } else {
            0
        }
    }
}

proof fn lemma_rank_count(weights: Seq<u8>, log: nat, w: nat, k: nat)
    requires
        1 <= w,
        k <= weights.len(),
    ensures
        rank_entries(weights, log, w, k).len() == weight_count(weights, w, k) * pow2(
            (w - 1) as nat,
        ),
    decreases k,
{
    let p = pow2((w - 1) as nat);
    if k > 0 {
        lemma_rank_count(weights, log, w, (k - 1) as nat);
        let c = weight_count(weights, w, (k - 1) as nat);
        assert((c + 1) * p == c * p + p) by (nonlinear_arith);
    } else {
        assert(0 * p == 0) by (nonlinear_arith);
    }
}

/// The entries of lighter symbols come first.
proof fn lemma_table_prefix(weights: Seq<u8>, log: nat, w: nat, v: nat, i: int)
    requires
        w <= v,
        0 <= i < table_entries(weights, log, w).len(),
    ensures
        i < table_entries(weights, log, v).len(),
        table_entries(weights, log, v)[i] == table_entries(weights, log, w)[i],
    decreases v,
{
    if w < v {
        lemma_table_prefix(weights, log, w, (v - 1) as nat, i);
    }
}

/// The entries of earlier symbols come first.
proof fn lemma_rank_prefix(weights: Seq<u8>, log: nat, w: nat, k: nat, m: nat, i: int)
    requires
        k <= m,
        0 <= i < rank_entries(weights, log, w, k).len(),
    ensures
        i < rank_entries(weights, log, w, m).len(),
        rank_entries(weights, log, w, m)[i] == rank_entries(weights, log, w, k)[i],
    decreases m,
{
    if k < m {
        lemma_rank_prefix(weights, log, w, k, (m - 1) as nat, i);
    }
}

/// Where the entries of symbol `s` lie.
proof fn lemma_symbol_entries(weights: Seq<u8>, log: nat, s: int, j: nat)
    requires
        0 <= s < weights.len(),
        1 <= weights[s] <= 12,
        j < pow2((weights[s] - 1) as nat),
    ensures
        ({
            let w = weights[s] as nat;
            let at = table_entries(weights, log, (w - 1) as nat).len() + weight_count(
                weights,
                w,
                s as nat,
            ) * pow2((w - 1) as nat) + j;
            &&& at < table_entries(weights, log, w).len()
            &&& spec_build(weights, log).entries[at as int] == (HufEntry {
                symbol: s as u8,
                nb_bits: (log + 1 - w) as u8,
            })
        }),
{
    let w = weights[s] as nat;
    let base = table_entries(weights, log, (w - 1) as nat).len();
    lemma_rank_count(weights, log, w, s as nat);
    let i = (rank_entries(weights, log, w, s as nat).len() + j) as int;
    assert(rank_entries(weights, log, w, (s + 1) as nat)[i] == (HufEntry {
        symbol: s as u8,
        nb_bits: (log + 1 - w) as u8,
    }));
    lemma_rank_prefix(weights, log, w, (s + 1) as nat, weights.len(), i);
    assert(table_entries(weights, log, w)[base + i] == rank_entries(
        weights,
        log,
        w,
        weights.len(),
    )[i]);
    lemma_table_prefix(weights, log, w, 12, base + i);
}

/// The entries of the weights up to `w` fill whole spans of the next weight.
proof fn lemma_table_multiple(weights: Seq<u8>, log: nat, w: nat) -> (q: nat)
    requires
        valid_weights(weights, log),
        forall|s: int| 0 <= s < weights.len() ==> #[trigger] weights[s] <= log,
        w <= log,
    ensures
        table_entries(weights, log, w).len() == q * pow2(w),
    decreases log - w,
{
    if w == log {
        lemma_table_len(weights, log, log);
        lemma_sum_upto_top(weights, log, weights.len());
        lemma_sum_upto_all(weights, weights.len());
        assert(weights.take(weights.len() as int) =~= weights);
        assert(1 * pow2(log) == pow2(log)) by (nonlinear_arith);
        1
    } else {
        let q = lemma_table_multiple(weights, log, w + 1);
        lemma_rank_count(weights, log, w + 1, weights.len());
        let c = weight_count(weights, w + 1, weights.len());
        let p = pow2(w);
        lemma_pow2_unfold(w + 1);
        assert(q * (2 * p) == (2 * q) * p) by (nonlinear_arith);
        let t = table_entries(weights, log, w).len();
        lemma_pow2_pos(w);
        assert(2 * q >= c) by (nonlinear_arith)
            requires
                t + c * p == (2 * q) * p,
                p > 0,
                t >= 0,
        ;
        assert((2 * q - c) * p == (2 * q) * p - c * p) by (nonlinear_arith);
        (2 * q - c) as nat
    }
}

proof fn lemma_sum_upto_top(weights: Seq<u8>, log: nat, k: nat)
    requires
        k <= weights.len(),
        log <= 12,
        forall|s: int| 0 <= s < weights.len() ==> #[trigger] weights[s] <= log,
    ensures
        crate::huffman::sum_upto(weights, log, k) == crate::huffman::sum_upto(weights, 12, k),
    decreases k,
{
    if k > 0 {
        lemma_sum_upto_top(weights, log, (k - 1) as nat);
    }
}

/// The first code of each length, given the code lengths. `r[b]` is the first
/// code of `b` bits.
#[verifier::rlimit(30)]
fn first_codes(nb_bits: &Vec<u8>, n: usize, table_log: u32) -> (r: Vec<u32>)
    requires
        1 <= table_log <= 12,
        n <= 256,
        nb_bits@.len() == 256,
        forall|s: int| 0 <= s < 256 ==> #[trigger] nb_bits@[s] <= table_log,
        valid_weights(weights_of(nb_bits@, n as nat, table_log as nat), table_log as nat),
    ensures
        r@.len() == 14,
        forall|b: int|
            1 <= b <= table_log ==> (#[trigger] r@[b]) * pow2((table_log - b) as nat)
                == table_entries(
                weights_of(nb_bits@, n as nat, table_log as nat),
                table_log as nat,
                (table_log - b) as nat,
            ).len(),
        ({
            let zeros = Seq::new(14, |i: int| 0u32);
            r@ == firsts_set(
                lengths_counted(nb_bits@, 0, n as nat, zeros),
                zeros,
                0,
                table_log as nat,
            )
        }),
{
    let ghost log = table_log as nat;
    let ghost weights = weights_of(nb_bits@, n as nat, log);
    let ghost zeros = Seq::new(14, |i: int| 0u32);
    let mut per_rank: Vec<u32> = Vec::new();
    let mut first: Vec<u32> = Vec::new();
    let mut i: usize = 0;
    while i < 14
        invariant
            i <= 14,
            per_rank@.len() == i,
            first@.len() == i,
            forall|b: int| 0 <= b < i ==> #[trigger] first@[b] == 0,
            forall|b: int| 0 <= b < i ==> #[trigger] per_rank@[b] == 0,
        decreases 14 - i,
    {
        per_rank.push(0);
        first.push(0);
        i = i + 1;
    }
    proof {
        assert(per_rank@ =~= zeros);
        assert(first@ =~= zeros);
    }
    let mut s: usize = 0;
    while s < n
        invariant
            lengths_counted(nb_bits@, 0, n as nat, zeros) == lengths_counted(
                nb_bits@,
                s as nat,
                n as nat,
                per_rank@,
            ),
            s <= n,
            n <= 256,
            nb_bits@.len() == 256,
            1 <= log <= 12,
            weights == weights_of(nb_bits@, n as nat, log),
            forall|s: int| 0 <= s < 256 ==> #[trigger] nb_bits@[s] <= log,
            per_rank@.len() == 14,
            forall|b: int| 0 <= b < 14 ==> #[trigger] per_rank@[b] <= s,
            forall|b: int|
                1 <= b <= log ==> #[trigger] per_rank@[b] == weight_count(
                    weights,
                    (log + 1 - b) as nat,
                    s as nat,
                ),
        decreases n - s,
    {
        proof {
            reveal_with_fuel(lengths_counted, 1);
        }
        let b: usize = nb_bits[s] as usize;
        let c: u32 = per_rank[b];
        per_rank.set(b, c + 1);
        assert(weights[s as int] == weight_of(b as u8, log));
        s = s + 1;
    }
    let mut min: u32 = 0;
    let mut r: u32 = table_log;
    let ghost all = firsts_set(per_rank@, first@, 0, log);
    proof {
        reveal_with_fuel(lengths_counted, 1);
        lemma2_to64();
        assert(0 * pow2(0) == 0) by (nonlinear_arith);
    }
    while r > 0
        invariant
            all == firsts_set(per_rank@, first@, min, r as nat),
            r <= log,
            1 <= log <= 12,
            log == table_log as nat,
            n <= 256,
            weights.len() == n,
            valid_weights(weights, log),
            forall|s: int| 0 <= s < weights.len() ==> #[trigger] weights[s] <= log,
            per_rank@.len() == 14,
            first@.len() == 14,
            forall|b: int| 0 <= b < 14 ==> #[trigger] per_rank@[b] <= 256,
            forall|b: int|
                1 <= b <= log ==> #[trigger] per_rank@[b] == weight_count(
                    weights,
                    (log + 1 - b) as nat,
                    n as nat,
                ),
            min * pow2((log - r) as nat) == table_entries(weights, log, (log - r) as nat).len(),
            min <= 256,
            forall|b: int|
                r < b <= log ==> (#[trigger] first@[b]) * pow2((log - b) as nat) == table_entries(
                    weights,
                    log,
                    (log - b) as nat,
                ).len(),
        decreases r,
    {
        proof {
            reveal_with_fuel(firsts_set, 1);
        }
        first.set(r as usize, min);
        let c: u32 = per_rank[r as usize];
        proof {
            let w = (log + 1 - r) as nat;
            lemma_rank_count(weights, log, w, n as nat);
            let q = lemma_table_multiple(weights, log, w);
            let p = pow2((w - 1) as nat);
            lemma_pow2_pos((w - 1) as nat);
            lemma_pow2_unfold(w);
            assert(min + c == 2 * q) by (nonlinear_arith)
                requires
                    min * p + c * p == q * (2 * p),
                    p > 0,
            ;
            assert(((min + c) / 2) as nat == q);
        }
        min = (min + c) / 2;
        r = r - 1;
    }
    proof {
        reveal_with_fuel(firsts_set, 1);
    }
    first
}

/// Assigns codes by any lengths: in symbol order within each length, whether
/// or not they fill the code space.
pub fn codes_by_length(nb_bits: Vec<u8>, max_symbol: u32, table_log: u32) -> (r: HufCTable)
    requires
        table_log <= 12,
        max_symbol <= 255,
        nb_bits@.len() == 256,
        forall|s: int| 0 <= s < 256 ==> #[trigger] nb_bits@[s] <= 12,
    ensures
        r.nb_bits@ == nb_bits@,
        r.max_symbol == max_symbol,
        r.table_log == table_log,
        r@ == table_of_lengths(nb_bits@, max_symbol, table_log),
{
    let n: usize = max_symbol as usize + 1;
    let mut per: Vec<u32> = Vec::new();
    let mut next: Vec<u32> = Vec::new();
    let mut i: usize = 0;
    while i < 14
        invariant
            i <= 14,
            per@.len() == i,
            next@.len() == i,
            forall|k: int| 0 <= k < i ==> #[trigger] per@[k] == 0,
            forall|k: int| 0 <= k < i ==> #[trigger] next@[k] == 0,
        decreases 14 - i,
    {
        per.push(0);
        next.push(0);
        i = i + 1;
    }
    let ghost zeros = Seq::new(14, |i: int| 0u32);
    assert(per@ =~= zeros && next@ =~= zeros);
    let ghost counted = lengths_counted(nb_bits@, 0, n as nat, zeros);
    let mut s: usize = 0;
    while s < n
        invariant
            s <= n <= 256,
            nb_bits@.len() == 256,
            forall|s: int| 0 <= s < 256 ==> #[trigger] nb_bits@[s] <= 12,
            per@.len() == 14,
            forall|k: int| 0 <= k < 14 ==> #[trigger] per@[k] <= s,
            counted == lengths_counted(nb_bits@, s as nat, n as nat, per@),
        decreases n - s,
    {
        proof {
            reveal_with_fuel(lengths_counted, 1);
        }
        let b: usize = nb_bits[s] as usize;
        let c: u32 = per[b];
        per.set(b, c + 1);
        s = s + 1;
    }
    proof {
        reveal_with_fuel(lengths_counted, 1);
    }
    let ghost firsts = firsts_set(per@, zeros, 0, table_log as nat);
    let mut min: u32 = 0;
    let mut r: u32 = table_log;
    while r > 0
        invariant
            r <= table_log <= 12,
            per@.len() == 14,
            next@.len() == 14,
            forall|k: int| 0 <= k < 14 ==> #[trigger] per@[k] <= 256,
            forall|k: int| 0 <= k < 14 ==> #[trigger] next@[k] <= 256,
            min <= 256,
            firsts == firsts_set(per@, next@, min, r as nat),
        decreases r,
    {
        proof {
            reveal_with_fuel(firsts_set, 1);
        }
        next.set(r as usize, min);
        let c: u32 = per[r as usize];
        min = (min + c) / 2;
        r = r - 1;
    }
    proof {
        reveal_with_fuel(firsts_set, 1);
    }
    let mut code: Vec<u16> = Vec::new();
    let ghost given = codes_given(nb_bits@, n as nat, next@, Seq::empty());
    assert(code@ =~= Seq::<u16>::empty());
    s = 0;
    while s < n
        invariant
            s <= n <= 256,
            nb_bits@.len() == 256,
            forall|s: int| 0 <= s < 256 ==> #[trigger] nb_bits@[s] <= 12,
            next@.len() == 14,
            forall|k: int| 0 <= k < 14 ==> #[trigger] next@[k] <= 256 + s,
            code@.len() == s,
            given == codes_given(nb_bits@, n as nat, next@, code@),
        decreases n - s,
    {
        proof {
            reveal_with_fuel(codes_given, 1);
        }
        let b: usize = nb_bits[s] as usize;
        if b > 0 {
            let v: u32 = next[b];
            next.set(b, v + 1);
            code.push(v as u16);
        } else {
            code.push(0);
        }
        s = s + 1;
    }
    proof {
        reveal_with_fuel(codes_given, 1);
        assert(code@ =~= given + Seq::new((s - n) as nat, |i: int| 0u16));
    }
    while s < 256
        invariant
            n <= s <= 256,
            n == max_symbol + 1,
            code@ == given + Seq::new((s - n) as nat, |i: int| 0u16),
            given.len() == n,
        decreases 256 - s,
    {
        code.push(0);
        assert(code@ =~= given + Seq::new((s + 1 - n) as nat, |i: int| 0u16));
        s = s + 1;
    }
    proof {
        reveal(spec_codes);
    }
    HufCTable { table_log, max_symbol, nb_bits, code }
}

/// Assigns canonical codes: in symbol order within each code length.
#[verifier::rlimit(30)]
pub fn assign_codes(nb_bits: Vec<u8>, max_symbol: u32, table_log: u32) -> (r: HufCTable)
    requires
        1 <= table_log <= 12,
        max_symbol <= 255,
        nb_bits@.len() == 256,
        forall|s: int| 0 <= s < 256 ==> #[trigger] nb_bits@[s] <= table_log,
        forall|s: int| max_symbol < s < 256 ==> #[trigger] nb_bits@[s] == 0,
        valid_weights(
            weights_of(nb_bits@, (max_symbol + 1) as nat, table_log as nat),
            table_log as nat,
        ),
    ensures
        r.wf(),
        r.nb_bits@ == nb_bits@,
        r.max_symbol == max_symbol,
        r.table_log == table_log,
        r@ == table_of_lengths(nb_bits@, max_symbol, table_log),
{
    let ghost log = table_log as nat;
    let n: usize = max_symbol as usize + 1;
    let ghost weights = weights_of(nb_bits@, n as nat, log);
    let mut next: Vec<u32> = first_codes(&nb_bits, n, table_log);
    let ghost first = next@;
    let mut code: Vec<u16> = Vec::new();
    let mut s: usize = 0;
    let ghost given = codes_given(nb_bits@, n as nat, next@, Seq::empty());
    proof {
        reveal(spec_codes);
        assert(code@ =~= Seq::<u16>::empty());
        lemma2_to64();
        lemma_build_wf(weights, log);
        if log < 12 {
            lemma_pow2_strictly_increases(log, 12);
        }
    }
    while s < n
        invariant
            given == codes_given(nb_bits@, n as nat, next@, code@),
            s <= n,
            n <= 256,
            nb_bits@.len() == 256,
            1 <= log <= 12,
            pow2(log) <= 4096,
            valid_weights(weights, log),
            weights == weights_of(nb_bits@, n as nat, log),
            forall|s: int| 0 <= s < 256 ==> #[trigger] nb_bits@[s] <= log,
            next@.len() == 14,
            first.len() == 14,
            forall|b: int|
                1 <= b <= log ==> (#[trigger] first[b]) * pow2((log - b) as nat) == table_entries(
                    weights,
                    log,
                    (log - b) as nat,
                ).len(),
            forall|b: int|
                1 <= b <= log ==> #[trigger] next@[b] == first[b] + weight_count(
                    weights,
                    (log + 1 - b) as nat,
                    s as nat,
                ),
            code@.len() == s,
            forall|i: int|
                0 <= i < s && nb_bits@[i] != 0 ==> code_ok(
                    spec_build(weights, log),
                    i,
                    nb_bits@[i],
                    #[trigger] code@[i],
                ),
        decreases n - s,
    {
        proof {
            reveal_with_fuel(codes_given, 1);
        }
        let b: usize = nb_bits[s] as usize;
        assert(weights[s as int] == weight_of(b as u8, log));
        if b > 0 {
            let v: u32 = next[b];
            proof {
                lemma_code_ok(weights, log, s as int, first[b as int] as nat, v as nat);
            }
            next.set(b, v + 1);
            code.push(v as u16);
        } else {
            code.push(0);
        }
        s = s + 1;
    }
    proof {
        reveal_with_fuel(codes_given, 1);
        assert(code@ =~= given + Seq::new((s - n) as nat, |i: int| 0u16));
    }
    while s < 256
        invariant
            n <= s <= 256,
            code@.len() == s,
            nb_bits@.len() == 256,
            code@ == given + Seq::new((s - n) as nat, |i: int| 0u16),
            forall|i: int|
                0 <= i < n && nb_bits@[i] != 0 ==> code_ok(
                    spec_build(weights, log),
                    i,
                    nb_bits@[i],
                    #[trigger] code@[i],
                ),
        decreases 256 - s,
    {
        code.push(0);
        s = s + 1;
        assert(code@ =~= given + Seq::new((s - n) as nat, |i: int| 0u16));
    }
    let r = HufCTable { table_log, max_symbol, nb_bits, code };
    assert(r.weights() =~= weights);
    assert forall|s: int| #[trigger] r.encodable(s) implies code_ok(
        r.decoder(),
        s,
        r.nb_bits@[s],
        r.code@[s],
    ) by {
        assert(0 <= s < n);
        assert(code_ok(spec_build(weights, log), s, r.nb_bits@[s], r.code@[s]));
    }
    r
}

/// The code of a symbol: its length's first code plus its rank there.
proof fn lemma_code_ok(weights: Seq<u8>, log: nat, s: int, first: nat, v: nat)
    requires
        valid_weights(weights, log),
        0 <= s < weights.len(),
        1 <= weights[s] <= log,
        first * pow2((weights[s] - 1) as nat) == table_entries(
            weights,
            log,
            (weights[s] - 1) as nat,
        ).len(),
        v == first + weight_count(weights, weights[s] as nat, s as nat),
    ensures
        v < pow2((log + 1 - weights[s]) as nat),
        v < 65535,
        code_ok(spec_build(weights, log), s, (log + 1 - weights[s]) as u8, v as u16),
{
    let w = weights[s] as nat;
    let nb = (log + 1 - w) as nat;
    let p = pow2((w - 1) as nat);
    let c = weight_count(weights, w, s as nat);
    let t = spec_build(weights, log);
    lemma_build_wf(weights, log);
    lemma_pow2_pos((w - 1) as nat);
    lemma_pow2_adds(nb, (w - 1) as nat);
    assert(v * p == first * p + c * p) by (nonlinear_arith)
        requires
            v == first + c,
    ;
    lemma_symbol_entries(weights, log, s, (p - 1) as nat);
    lemma_table_prefix(weights, log, w, 12, (v * p + (p - 1)) as int);
    assert(v < pow2(nb)) by (nonlinear_arith)
        requires
            v * p + (p - 1) < pow2(nb) * p,
            p > 0,
    ;
    lemma2_to64();
    if nb < 12 {
        lemma_pow2_strictly_increases(nb, 12);
    }
    assert((v + 1) * p == v * p + p) by (nonlinear_arith);
    assert forall|i: int| v * p <= i < (v + 1) * p implies #[trigger] t.entries[i] == (HufEntry {
        symbol: s as u8,
        nb_bits: nb as u8,
    }) by {
        lemma_symbol_entries(weights, log, s, (i - v * p) as nat);
    }
    assert((log - nb) as nat == (w - 1) as nat);
}

// ---------------------------------------------------------------------------
// Streams.

/// A backward reader that peeks `log` bits at a code finds an entry of the
/// code, whatever bits (or none) lie before it.
#[verifier::rlimit(30)]
proof fn lemma_peek_code(data: Seq<u8>, b: Bits, code: nat, nb: nat, log: nat)
    requires
        b.num < pow2(b.len),
        code < pow2(nb),
        1 <= nb <= log,
        stream_holds(data, append_field(b, code, nb)),
    ensures
        ({
            let span = pow2((log - nb) as nat);
            let i = rev_peek(data, (b.len + nb) as int, log);
            code * span <= i < (code + 1) * span
        }),
        stream_holds(data, b),
{
    lemma_take_field(data, b, code, nb);
    lemma_small_mod(code, pow2(nb));
    let d = (log - nb) as nat;
    let span = pow2(d);
    lemma_pow2_pos(d);
    let rem = b.len + nb;
    assert((code + 1) * span == code * span + span) by (nonlinear_arith);
    let lo = if rem < log {
        0nat
    } else {
        (rem - log) as nat
    };
    // The field of `w` bits at `lo` ends in the code.
    let w = (rem - lo) as nat;
    let below = (w - nb) as nat;
    assert(lo + below == b.len);
    crate::math::lemma_bits_at_sub(data, lo, w, below, nb);
    crate::math::lemma_bits_at_bound(data, lo, w);
    let x = bits_at(data, lo, w);
    assert(bits_at(data, b.len, nb) == code);
    let p = pow2(below);
    lemma_pow2_pos(below);
    lemma_pow2_adds(below, nb);
    lemma_fundamental_div_mod(x as int, p as int);
    lemma_mod_bound(x as int, p as int);
    let q = x / p;
    assert(q < pow2(nb)) by (nonlinear_arith)
        requires
            x == p * q + x % p,
            x < p * pow2(nb),
            0 <= x % p,
            p > 0,
    ;
    lemma_small_mod(q, pow2(nb));
    assert(q == code);
    if rem < log {
        let k = (log - rem) as nat;
        lemma_pow2_adds(below, k);
        assert(below + k == d);
        let m = pow2(k);
        lemma_pow2_pos(k);
        assert(x * m >= code * (p * m)) by (nonlinear_arith)
            requires
                x == p * code + x % p,
                0 <= x % p,
                m > 0,
        ;
        let y = p * code + p;
        assert(x * m < y * m) by (nonlinear_arith)
            requires
                x < y,
                m > 0,
        ;
        assert(y * m == code * (p * m) + p * m) by (nonlinear_arith)
            requires
                y == p * code + p,
        ;
    } else {
        assert(below == d);
        assert(p * code == code * span) by (nonlinear_arith)
            requires
                p == span,
        ;
    }
}

/// From `b` on, the decoder yields `rest` and has used every bit.
pub open spec fn huf_yields(t: HuffmanTableView, b: Bits, rest: Seq<u8>) -> bool {
    forall|data: Seq<u8>, out: Seq<u8>|
        stream_holds(data, b) ==> #[trigger] huf_symbols(t, data, b.len as int, rest.len(), out) == (
            out + rest,
            0int,
        )
}

/// One more code in front.
pub proof fn lemma_huf_yields_step(ct: &HufCTable, b: Bits, s: u8, rest: Seq<u8>)
    requires
        ct.wf(),
        ct.encodable(s as int),
        b.num < pow2(b.len),
        huf_yields(ct.decoder(), b, rest),
    ensures
        huf_yields(
            ct.decoder(),
            append_field(b, ct.code@[s as int] as nat, ct.nb_bits@[s as int] as nat),
            seq![s] + rest,
        ),
{
    let nb = ct.nb_bits@[s as int];
    let code = ct.code@[s as int];
    let b1 = append_field(b, code as nat, nb as nat);
    let t = ct.decoder();
    let all = seq![s] + rest;
    assert(code_ok(t, s as int, nb, code));
    assert forall|data: Seq<u8>, out: Seq<u8>| stream_holds(data, b1) implies #[trigger] huf_symbols(
        t,
        data,
        b1.len as int,
        all.len(),
        out,
    ) == (out + all, 0int) by {
        lemma_peek_code(data, b, code as nat, nb as nat, t.log);
        let i = rev_peek(data, b1.len as int, t.log);
        assert(t.entries[i as int] == (HufEntry { symbol: s, nb_bits: nb }));
        assert(out.push(s) + rest =~= out + all);
        assert(huf_symbols(t, data, b.len as int, rest.len(), out.push(s)) == (
            out.push(s) + rest,
            0int,
        ));
    }
}

/// Encodes `src` as a single stream.
pub fn compress1x(ct: &HufCTable, src: &[u8]) -> (r: Vec<u8>)
    requires
        ct.wf(),
        forall|i: int| 0 <= i < src@.len() ==> ct.encodable(#[trigger] src@[i] as int),
    ensures
        r@.len() >= 1,
        spec_decode_stream(ct.decoder(), r@, src@.len()) == Ok::<Seq<u8>, Error>(src@),
        r@ == spec_compress1x(ct@, src@),
{
    proof {
        reveal(spec_decode_stream);
    }
    let mut bitc = BitCStream::new();
    let mut i: usize = src.len();
    let ghost all = codes_appended(ct@, src@, i as nat, bitc.bits());
    proof {
        reveal(spec_compress1x);
        lemma2_to64();
        assert(src@.skip(i as int) =~= Seq::<u8>::empty());
        assert forall|data: Seq<u8>, out: Seq<u8>|
            stream_holds(data, bitc.bits()) implies #[trigger] huf_symbols(
            ct.decoder(),
            data,
            0,
            0,
            out,
        ) == (out + Seq::<u8>::empty(), 0int) by {
            assert(out + Seq::<u8>::empty() =~= out);
        }
    }
    while i > 0
        invariant
            i <= src@.len(),
            ct.wf(),
            forall|i: int| 0 <= i < src@.len() ==> ct.encodable(#[trigger] src@[i] as int),
            bitc.wf(),
            huf_yields(ct.decoder(), bitc.bits(), src@.skip(i as int)),
            all == codes_appended(ct@, src@, i as nat, bitc.bits()),
        decreases i,
    {
        proof {
            reveal_with_fuel(codes_appended, 1);
        }
        let ghost rest = src@.skip(i as int);
        i = i - 1;
        let s: usize = src[i] as usize;
        proof {
            assert(ct.encodable(src@[i as int] as int));
            bitc.lemma_bits_bound();
            lemma_huf_yields_step(ct, bitc.bits(), src@[i as int], rest);
            assert(seq![src@[i as int]] + rest =~= src@.skip(i as int));
        }
        bitc.add_bits(ct.code[s] as u64, ct.nb_bits[s] as u32);
    }
    let ghost b = bitc.bits();
    let out: Vec<u8> = bitc.close();
    proof {
        reveal_with_fuel(codes_appended, 1);
        lemma_open_closed(b, out@);
        assert(src@.skip(0) =~= src@);
        assert(Seq::<u8>::empty() + src@ =~= src@);
    }
    out
}

/// Four streams behind their jump table decode to the four parts.
#[verifier::rlimit(30)]
pub proof fn lemma_four(
    t: HuffmanTableView,
    head: Seq<u8>,
    d1: Seq<u8>,
    d2: Seq<u8>,
    d3: Seq<u8>,
    d4: Seq<u8>,
    p1: Seq<u8>,
    p2: Seq<u8>,
    p3: Seq<u8>,
    p4: Seq<u8>,
)
    requires
        head.len() == 6,
        head[0] + 256 * head[1] == d1.len(),
        head[2] + 256 * head[3] == d2.len(),
        head[4] + 256 * head[5] == d3.len(),
        d4.len() >= 1,
        p1.len() == p2.len() == p3.len(),
        1 <= p4.len() <= p1.len(),
        p1.len() - p4.len() <= 3,
        spec_decode_stream(t, d1, p1.len()) == Ok::<Seq<u8>, Error>(p1),
        spec_decode_stream(t, d2, p2.len()) == Ok::<Seq<u8>, Error>(p2),
        spec_decode_stream(t, d3, p3.len()) == Ok::<Seq<u8>, Error>(p3),
        spec_decode_stream(t, d4, p4.len()) == Ok::<Seq<u8>, Error>(p4),
    ensures
        spec_decode_four(
            t,
            head + d1 + d2 + d3 + d4,
            (p1 + p2 + p3 + p4).len(),
        ) == Ok::<Seq<u8>, Error>(p1 + p2 + p3 + p4),
{
    let out = head + d1 + d2 + d3 + d4;
    let rest = out.skip(6);
    let (s1, s2, s3) = (d1.len(), d2.len(), d3.len());
    assert(out.take(6) =~= head);
    assert forall|i: int| 0 <= i < 6 implies out[i] == head[i] by {}
    assert(rest =~= d1 + d2 + d3 + d4);
    assert(rest.subrange(0, s1 as int) =~= d1);
    assert(rest.subrange(s1 as int, (s1 + s2) as int) =~= d2);
    assert(rest.subrange((s1 + s2) as int, (s1 + s2 + s3) as int) =~= d3);
    assert(rest.skip((s1 + s2 + s3) as int) =~= d4);
    assert(((p1 + p2 + p3 + p4).len() + 3) / 4 == p1.len());
}

/// Encodes `src` as four streams with a jump table of the sizes of the first
/// three. Returns no bytes when the input is too short for four streams or a
/// stream is too long for the table.
#[verifier::rlimit(40)]
pub fn compress4x(ct: &HufCTable, src: &[u8]) -> (r: Vec<u8>)
    requires
        ct.wf(),
        forall|i: int| 0 <= i < src@.len() ==> ct.encodable(#[trigger] src@[i] as int),
    ensures
        src@.len() < 12 ==> r@.len() == 0,
        r@.len() > 0 ==> spec_decode_four(ct.decoder(), r@, src@.len()) == Ok::<Seq<u8>, Error>(
            src@,
        ),
        r@ == spec_compress4x(ct@, src@),
{
    proof {
        reveal(spec_compress4x);
    }
    let n: usize = src.len();
    if n < 12 {
        return Vec::new();
    }
    let segment: usize = n / 4 + (if n % 4 == 0 {
        0usize
    } else {
        1usize
    });
    assert(segment == (n + 3) / 4);
    let p1 = slice_subrange(src, 0, segment);
    let p2 = slice_subrange(src, segment, 2 * segment);
    let p3 = slice_subrange(src, 2 * segment, 3 * segment);
    let p4 = slice_subrange(src, 3 * segment, n);
    let c1: Vec<u8> = compress1x(ct, p1);
    let c2: Vec<u8> = compress1x(ct, p2);
    let c3: Vec<u8> = compress1x(ct, p3);
    let c4: Vec<u8> = compress1x(ct, p4);
    if c1.len() > 65535 || c2.len() > 65535 || c3.len() > 65535 || c4.len() > 65535 {
        return Vec::new();
    }
    let ghost (d1, d2, d3, d4) = (c1@, c2@, c3@, c4@);
    let mut out: Vec<u8> = Vec::new();
    out.push((c1.len() % 256) as u8);
    out.push((c1.len() / 256) as u8);
    out.push((c2.len() % 256) as u8);
    out.push((c2.len() / 256) as u8);
    out.push((c3.len() % 256) as u8);
    out.push((c3.len() / 256) as u8);
    let ghost head = out@;
    out.extend_from_slice(&c1);
    out.extend_from_slice(&c2);
    out.extend_from_slice(&c3);
    out.extend_from_slice(&c4);
    proof {
        assert(out@ =~= head + d1 + d2 + d3 + d4);
        assert(head =~= two_bytes(d1.len()) + two_bytes(d2.len()) + two_bytes(d3.len()));
        assert(src@ =~= p1@ + p2@ + p3@ + p4@);
        lemma_four(ct.decoder(), head, d1, d2, d3, d4, p1@, p2@, p3@, p4@);
    }
    out
}

} // verus!
