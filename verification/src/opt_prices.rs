//! The price model of the optimal parser: what symbols cost, in 1/256 bit,
//! from statistics that adapt to what has been stored.

use crate::bits::highbit32;
use crate::block::{LL_BITS, ML_BITS};
use crate::fse_encode::FseCTable;
use crate::huffman_codes::HufCTable;
use crate::huffman_encode::HufRepeat;
use crate::math::{pow2_u64, shr};
use crate::opt_price_model::{
    bits_with, brought_down, bytes_counted, first_counted, freq_of, freqs_of_code, freqs_of_table, fresh_stats, plus,
    rescaled, scaled, scaled_table, spec_weight, wrapped_sum, StatsView,
};
use crate::seq_codes::{ll_code, ml_code};
use crate::sequences_encode::{component_view, FseEntropyState};
use vstd::arithmetic::power2::{lemma_pow2_pos, pow2};
use vstd::prelude::*;

verus! {

/// One bit.
pub const BITCOST_MULTIPLIER: u32 = 256;

/// Blocks up to this size use fixed prices.
pub const PREDEF_THRESHOLD: usize = 8;

/// What a literal adds to its frequency.
pub const LITFREQ_ADD: u32 = 2;

pub const BASE_LL_FREQS: [u32; 36] = [
    4, 2, 1, 1, 1, 1, 1, 1, 1, 1, 1, 1, 1, 1, 1, 1, 1, 1, 1, 1, 1, 1, 1, 1, 1, 1, 1, 1, 1, 1, 1, 1,
    1, 1, 1, 1,
];

pub const BASE_OF_FREQS: [u32; 32] = [
    6, 2, 1, 1, 2, 3, 4, 4, 4, 3, 2, 1, 1, 1, 1, 1, 1, 1, 1, 1, 1, 1, 1, 1, 1, 1, 1, 1, 1, 1, 1, 1,
];

/// The logarithm of a count plus one.
pub fn weight(stat: u32, ultra: bool) -> (r: u32)
    ensures
        r == spec_weight(stat, ultra),
        r <= 8447,
        stat >= 1 ==> r >= 256,
{
    let s: u32 = stat.saturating_add(1);
    let h: u32 = highbit32(s);
    proof {
        reveal(spec_weight);
        let p = pow2(h as nat) as int;
        assert((s as int * 256) / p < 512) by (nonlinear_arith)
            requires
                0 < s < 2 * p,
                p > 0,
        ;
        assert((s as int * 256) / p >= 0) by (nonlinear_arith)
            requires
                0 < s,
                p > 0,
        ;
        if stat >= 1 {
            if h == 0 {
                vstd::arithmetic::power2::lemma2_to64();
            }
        }
    }
    if ultra {
        h * BITCOST_MULTIPLIER + shr(s as u64 * 256, h) as u32
    } else {
        h * BITCOST_MULTIPLIER
    }
}

/// The adaptive statistics.
pub struct OptStats {
    /// Prices go below whole bits.
    pub ultra: bool,
    pub lit_freq: Vec<u32>,
    pub ll_freq: Vec<u32>,
    pub ml_freq: Vec<u32>,
    pub of_freq: Vec<u32>,
    pub lit_sum: u32,
    pub ll_sum: u32,
    pub ml_sum: u32,
    pub of_sum: u32,
    pub lit_sum_base: u32,
    pub ll_sum_base: u32,
    pub ml_sum_base: u32,
    pub of_sum_base: u32,
    /// Fixed prices are in use.
    pub price_predef: bool,
}

/// A table of `n` equal counts.
fn table_of(n: usize, value: u32) -> (r: Vec<u32>)
    ensures
        r@ == Seq::new(n as nat, |i: int| value),
{
    let mut v: Vec<u32> = Vec::new();
    v.resize(n, value);
    assert(v@ =~= Seq::new(n as nat, |i: int| value));
    v
}

impl OptStats {
    pub open spec fn view(&self) -> StatsView {
        StatsView {
            ultra: self.ultra,
            lit: self.lit_freq@,
            ll: self.ll_freq@,
            ml: self.ml_freq@,
            of: self.of_freq@,
            lit_sum: self.lit_sum,
            ll_sum: self.ll_sum,
            ml_sum: self.ml_sum,
            of_sum: self.of_sum,
            lit_base: self.lit_sum_base,
            ll_base: self.ll_sum_base,
            ml_base: self.ml_sum_base,
            of_base: self.of_sum_base,
            predef: self.price_predef,
        }
    }

    pub open spec fn wf(&self) -> bool {
        &&& self.lit_freq@.len() == 256
        &&& self.ll_freq@.len() == 36
        &&& self.ml_freq@.len() == 53
        &&& self.of_freq@.len() == 32
        &&& self.lit_sum_base <= 8447
        &&& self.ll_sum_base <= 8447
        &&& self.ml_sum_base <= 8447
        &&& self.of_sum_base <= 8447
    }

    pub fn new(ultra: bool) -> (r: Self)
        ensures
            r.wf(),
            r@ == fresh_stats(ultra),
    {
        OptStats {
            ultra,
            lit_freq: table_of(256, 0),
            ll_freq: table_of(36, 0),
            ml_freq: table_of(53, 0),
            of_freq: table_of(32, 0),
            lit_sum: 0,
            ll_sum: 0,
            ml_sum: 0,
            of_sum: 0,
            lit_sum_base: 0,
            ll_sum_base: 0,
            ml_sum_base: 0,
            of_sum_base: 0,
            price_predef: false,
        }
    }

    /// Takes the prices of the sums anew.
    pub fn set_base_prices(&mut self)
        requires
            old(self).wf(),
        ensures
            final(self).wf(),
            final(self)@ == old(self)@.with_bases(),
    {
        self.lit_sum_base = weight(self.lit_sum, self.ultra);
        self.ll_sum_base = weight(self.ll_sum, self.ultra);
        self.ml_sum_base = weight(self.ml_sum, self.ultra);
        self.of_sum_base = weight(self.of_sum, self.ultra);
    }
}

/// Divides every count by `2^shift`, keeping those above zero (or all) at one
/// at least, and gives the sum.
pub fn downscale_stats(table: &mut Vec<u32>, shift: u32, base1: bool) -> (r: u32)
    requires
        shift < 32,
    ensures
        final(table)@ == scaled_table(old(table)@, shift, base1),
        r == wrapped_sum(final(table)@, final(table)@.len()),
{
    proof {
        reveal_with_fuel(wrapped_sum, 1);
    }
    let mut sum: u32 = 0;
    let mut i: usize = 0;
    while i < table.len()
        invariant
            i <= table@.len(),
            shift < 32,
            table@.len() == old(table)@.len(),
            forall|k: int|
                0 <= k < i ==> #[trigger] table@[k] == scaled(old(table)@[k], shift, base1),
            forall|k: int| i <= k < table@.len() ==> #[trigger] table@[k] == old(table)@[k],
            sum == wrapped_sum(scaled_table(old(table)@, shift, base1), i as nat),
        decreases table@.len() - i,
    {
        let v: u32 = table[i];
        let base: u32 = if base1 || v > 0 {
            1
        } else {
            0
        };
        proof {
            reveal(scaled);
            reveal_with_fuel(wrapped_sum, 1);
            reveal(plus);
            lemma_pow2_pos(shift as nat);
            let p = pow2(shift as nat) as int;
            assert((v as int) / p <= v) by (nonlinear_arith)
                requires
                    p > 0,
                    v >= 0,
            ;
        }
        let stat: u32 = base.saturating_add(shr(v as u64, shift) as u32);
        sum = sum.wrapping_add(stat);
        table.set(i, stat);
        i = i + 1;
    }
    assert(table@ =~= scaled_table(old(table)@, shift, base1));
    sum
}

/// Brings the sum of the counts down to about `2^log_target`.
fn scale_stats(table: &mut Vec<u32>, log_target: u32) -> (r: u32)
    requires
        log_target < 32,
    ensures
        final(table)@ == brought_down(old(table)@, log_target),
        final(table)@.len() == old(table)@.len(),
        r == wrapped_sum(final(table)@, final(table)@.len()),
{
    proof {
        reveal(brought_down);
        reveal_with_fuel(wrapped_sum, 1);
    }
    let n: usize = table.len();
    let mut sum: u32 = 0;
    let mut i: usize = 0;
    while i < n
        invariant
            i <= n,
            n == table@.len(),
            *table == *old(table),
            sum == wrapped_sum(table@, i as nat),
        decreases n - i,
    {
        proof {
            reveal_with_fuel(wrapped_sum, 1);
            reveal(plus);
        }
        sum = sum.wrapping_add(table[i]);
        i = i + 1;
    }
    proof {
        lemma_pow2_pos(log_target as nat);
        let p = pow2(log_target as nat) as int;
        assert((sum as int) / p <= sum) by (nonlinear_arith)
            requires
                p > 0,
                sum >= 0,
        ;
    }
    let factor: u32 = shr(sum as u64, log_target) as u32;
    if factor <= 1 {
        return sum;
    }
    downscale_stats(table, highbit32(factor), true)
}

/// The frequency that a code of `bits` bits stands for, out of `2^log`.
fn freq_of_bits(bits: u32, log: u32) -> (r: u32)
    requires
        log <= 11,
    ensures
        r == freq_of(bits as nat, log as nat),
        1 <= r <= 2048,
{
    proof {
        reveal(freq_of);
    }
    if bits >= 1 && bits <= log {
        proof {
            vstd::arithmetic::power2::lemma2_to64();
            if log - bits < 11 {
                vstd::arithmetic::power2::lemma_pow2_strictly_increases((log - bits) as nat, 11);
            }
            lemma_pow2_pos((log - bits) as nat);
        }
        pow2_u64(log - bits) as u32
    } else {
        1
    }
}

/// Takes the frequencies of a component from an encoding table.
fn seed_fse(freq: &mut Vec<u32>, ct: &Option<FseCTable>) -> (r: u32)
    requires
        old(freq)@.len() <= 64,
    ensures
        final(freq)@ == freqs_of_table(old(freq)@.len(), component_view(*ct)),
        r == wrapped_sum(final(freq)@, final(freq)@.len()),
{
    proof {
        reveal_with_fuel(wrapped_sum, 1);
    }
    let n: usize = freq.len();
    let mut sum: u32 = 0;
    let mut s: usize = 0;
    while s < n
        invariant
            s <= n <= 64,
            n == freq@.len(),
            n == old(freq)@.len(),
            forall|k: int|
                0 <= k < s ==> #[trigger] freq@[k] == freq_of(bits_with(component_view(*ct), k), 10),
            sum == wrapped_sum(freqs_of_table(n as nat, component_view(*ct)), s as nat),
        decreases n - s,
    {
        proof {
            reveal_with_fuel(wrapped_sum, 1);
            reveal(plus);
        }
        let mut bits: u32 = 0;
        if let Some(t) = ct {
            if s < t.symbol_tt.len() && t.symbol_tt[s].delta_nb_bits <= 917504 {
                bits = t.max_nb_bits(s as u32);
            }
        }
        let f: u32 = freq_of_bits(bits, 10);
        freq.set(s, f);
        sum = sum.wrapping_add(f);
        s = s + 1;
    }
    assert(freq@ =~= freqs_of_table(n as nat, component_view(*ct)));
    sum
}

/// Takes the frequencies of the literals from a prefix code.
fn seed_huf(freq: &mut Vec<u32>, huf: &HufCTable) -> (r: u32)
    requires
        old(freq)@.len() == 256,
        huf.nb_bits@.len() == 256,
        huf.max_symbol <= 255,
    ensures
        final(freq)@ == freqs_of_code(huf@),
        r == wrapped_sum(final(freq)@, 256),
{
    proof {
        reveal_with_fuel(wrapped_sum, 1);
    }
    let mut sum: u32 = 0;
    let mut lit: usize = 0;
    while lit < 256
        invariant
            lit <= 256,
            freq@.len() == 256,
            huf.nb_bits@.len() == 256,
            huf.max_symbol <= 255,
            forall|k: int| 0 <= k < lit ==> #[trigger] freq@[k] == freqs_of_code(huf@)[k],
            sum == wrapped_sum(freqs_of_code(huf@), lit as nat),
        decreases 256 - lit,
    {
        proof {
            reveal_with_fuel(wrapped_sum, 1);
            reveal(plus);
        }
        let f: u32 = freq_of_bits(huf.nb_bits_of(lit as u32), 11);
        freq.set(lit, f);
        sum = sum.wrapping_add(f);
        lit = lit + 1;
    }
    assert(freq@ =~= freqs_of_code(huf@));
    sum
}

/// Prepares the statistics for a block: the first takes them from a
/// dictionary's tables, if those cover everything, or else from the block and
/// fixed tables; the later ones scale down what there is.
pub fn rescale_freqs(
    stats: &mut OptStats,
    data: &[u8],
    start: usize,
    end: usize,
    symbol_costs: &FseEntropyState,
)
    requires
        old(stats).wf(),
        start <= end <= data@.len(),
        end - start <= 131072,
        symbol_costs.wf(),
    ensures
        final(stats).wf(),
        final(stats)@ == rescaled(old(stats)@, data@, start as int, end as int, symbol_costs@),
{
    proof {
        reveal(rescaled);
    }
    stats.price_predef = false;
    if stats.ll_sum == 0 {
        if end - start <= PREDEF_THRESHOLD {
            stats.price_predef = true;
        }
        let mut seeded: bool = false;
        if symbol_costs.huf.repeat == HufRepeat::Valid {
            if let Some(huf) = &symbol_costs.huf.table {
                seeded = true;
                stats.price_predef = false;
                stats.lit_sum = seed_huf(&mut stats.lit_freq, huf);
                stats.ll_sum = seed_fse(&mut stats.ll_freq, &symbol_costs.ll);
                stats.ml_sum = seed_fse(&mut stats.ml_freq, &symbol_costs.ml);
                stats.of_sum = seed_fse(&mut stats.of_freq, &symbol_costs.of);
            }
        }
        if !seeded {
            seed_first_block(stats, data, start, end);
        }
    } else {
        stats.lit_sum = scale_stats(&mut stats.lit_freq, 12);
        stats.ll_sum = scale_stats(&mut stats.ll_freq, 11);
        stats.ml_sum = scale_stats(&mut stats.ml_freq, 11);
        stats.of_sum = scale_stats(&mut stats.of_freq, 11);
    }
    stats.set_base_prices();
}

/// The statistics of a first block without a dictionary.
fn seed_first_block(stats: &mut OptStats, data: &[u8], start: usize, end: usize)
    requires
        old(stats).wf(),
        start <= end <= data@.len(),
        end - start <= 131072,
    ensures
        final(stats).wf(),
        final(stats)@ == first_counted(old(stats)@, data@, start as int, end as int),
{
    stats.lit_freq = table_of(256, 0);
    let ghost all = bytes_counted(stats.lit_freq@, data@, start as int, end as int, 1);
    let mut at: usize = start;
    while at < end
        invariant
            start <= at <= end <= data@.len(),
            stats.wf(),
            stats@ == (StatsView { lit: stats@.lit, ..old(stats)@ }),
            all == bytes_counted(stats@.lit, data@, at as int, end as int, 1),
        decreases end - at,
    {
        proof {
            reveal_with_fuel(bytes_counted, 1);
            reveal(plus);
        }
        let b: usize = data[at] as usize;
        let c: u32 = stats.lit_freq[b];
        stats.lit_freq.set(b, c.wrapping_add(1));
        at = at + 1;
    }
    proof {
        reveal_with_fuel(bytes_counted, 1);
    }
    stats.lit_sum = downscale_stats(&mut stats.lit_freq, 8, false);
    let ghost literals = stats@;
    let mut i: usize = 0;
    while i < 36
        invariant
            i <= 36,
            stats.wf(),
            stats@ == (StatsView { ll: stats@.ll, ..literals }),
            forall|k: int| 0 <= k < i ==> #[trigger] stats@.ll[k] == BASE_LL_FREQS@[k],
        decreases 36 - i,
    {
        stats.ll_freq.set(i, BASE_LL_FREQS[i]);
        i = i + 1;
    }
    assert(stats@.ll =~= BASE_LL_FREQS@);
    stats.ll_sum = 40;
    stats.ml_freq = table_of(53, 1);
    stats.ml_sum = 53;
    let ghost lengths = stats@;
    let mut j: usize = 0;
    while j < 32
        invariant
            j <= 32,
            stats.wf(),
            stats@ == (StatsView { of: stats@.of, ..lengths }),
            forall|k: int| 0 <= k < j ==> #[trigger] stats@.of[k] == BASE_OF_FREQS@[k],
        decreases 32 - j,
    {
        stats.of_freq.set(j, BASE_OF_FREQS[j]);
        j = j + 1;
    }
    assert(stats@.of =~= BASE_OF_FREQS@);
    stats.of_sum = 53;
}

impl OptStats {
    /// What a literal costs.
    pub fn lit_price(&self, byte: u8) -> (r: i32)
        requires
            self.wf(),
        ensures
            r == self@.lit_price(byte),
            0 <= r <= 8447,
    {
        proof {
            reveal(StatsView::lit_price);
        }
        if self.price_predef {
            return 1536;
        }
        let most: u32 = self.lit_sum_base.saturating_sub(256);
        let w: u32 = weight(self.lit_freq[byte as usize], self.ultra);
        (self.lit_sum_base - if w > most {
            most
        } else {
            w
        }) as i32
    }

    /// What a literal length costs.
    pub fn ll_price(&self, lit_length: u32) -> (r: i32)
        requires
            self.wf(),
        ensures
            r == self@.ll_price(lit_length),
            -16384 <= r <= 16384,
    {
        proof {
            reveal(StatsView::ll_price);
        }
        if self.price_predef {
            return weight(lit_length, self.ultra) as i32;
        }
        let long: bool = lit_length >= 131072;
        let len: u32 = if long {
            131071
        } else {
            lit_length
        };
        let c: usize = ll_code(len) as usize;
        let price: i32 = (LL_BITS[c] * BITCOST_MULTIPLIER + self.ll_sum_base) as i32 - weight(
            self.ll_freq[c],
            self.ultra,
        ) as i32;
        if long {
            price + 256
        } else {
            price
        }
    }

    /// What one more literal costs in the literal length.
    pub fn ll_incprice(&self, lit_length: u32) -> (r: i32)
        requires
            self.wf(),
        ensures
            r == self@.ll_incprice(lit_length),
            -32768 <= r <= 32768,
    {
        proof {
            reveal(StatsView::ll_incprice);
        }
        self.ll_price(lit_length) - self.ll_price(lit_length.saturating_sub(1))
    }

    /// What a match costs: its offset code and its length.
    pub fn get_match_price(&self, off_base: u32, match_length: u32) -> (r: i32)
        requires
            self.wf(),
            off_base >= 1,
        ensures
            -65536 <= r <= 65536,
            r == self@.match_price(off_base, match_length),
    {
        proof {
            reveal(StatsView::match_price);
        }
        let off_code: u32 = highbit32(off_base);
        let ml_base: u32 = match_length.saturating_sub(3);
        if self.price_predef {
            return (weight(ml_base, self.ultra) + (16 + off_code) * BITCOST_MULTIPLIER) as i32;
        }
        let mut price: i32 = (off_code * BITCOST_MULTIPLIER + self.of_sum_base) as i32 - weight(
            self.of_freq[off_code as usize],
            self.ultra,
        ) as i32;
        if !self.ultra && off_code >= 20 {
            price = price + ((off_code - 19) * 2 * BITCOST_MULTIPLIER) as i32;
        }
        let m: u32 = if ml_base < 131072 {
            ml_base
        } else {
            131071
        };
        let mlc: usize = ml_code(m) as usize;
        price + (ML_BITS[mlc] * BITCOST_MULTIPLIER + self.ml_sum_base) as i32 - weight(
            self.ml_freq[mlc],
            self.ultra,
        ) as i32 + 51
    }

    /// Counts a stored sequence whose literals are `data[from .. to]`.
    pub fn update_stats(
        &mut self,
        data: &[u8],
        from: usize,
        to: usize,
        off_base: u32,
        match_length: u32,
    )
        requires
            old(self).wf(),
            from <= to <= data@.len(),
            to - from <= 131072,
            off_base >= 1,
        ensures
            final(self).wf(),
            final(self)@ == old(self)@.counted(
                data@,
                from as int,
                to as int,
                off_base,
                match_length,
            ),
    {
        proof {
            reveal(StatsView::counted);
        }
        let ghost all = bytes_counted(self@.lit, data@, from as int, to as int, 2);
        let mut at: usize = from;
        while at < to
            invariant
                from <= at <= to <= data@.len(),
                self.wf(),
                self@ == (StatsView { lit: self@.lit, ..old(self)@ }),
                all == bytes_counted(self@.lit, data@, at as int, to as int, 2),
            decreases to - at,
        {
            proof {
                reveal_with_fuel(bytes_counted, 1);
                reveal(plus);
            }
            let b: usize = data[at] as usize;
            let f: u32 = self.lit_freq[b];
            self.lit_freq.set(b, f.wrapping_add(LITFREQ_ADD));
            at = at + 1;
        }
        proof {
            reveal_with_fuel(bytes_counted, 1);
            reveal(plus);
        }
        let lit_length: u32 = (to - from) as u32;
        self.lit_sum = self.lit_sum.wrapping_add(lit_length * LITFREQ_ADD);
        let llc: usize = if lit_length < 131072 {
            ll_code(lit_length) as usize
        } else {
            35
        };
        let l: u32 = self.ll_freq[llc];
        self.ll_freq.set(llc, l.wrapping_add(1));
        self.ll_sum = self.ll_sum.wrapping_add(1);
        let ofc: usize = highbit32(off_base) as usize;
        let o: u32 = self.of_freq[ofc];
        self.of_freq.set(ofc, o.wrapping_add(1));
        self.of_sum = self.of_sum.wrapping_add(1);
        let ml_base: u32 = match_length.saturating_sub(3);
        let mlc: usize = if ml_base < 131072 {
            ml_code(ml_base) as usize
        } else {
            52
        };
        let m: u32 = self.ml_freq[mlc];
        self.ml_freq.set(mlc, m.wrapping_add(1));
        self.ml_sum = self.ml_sum.wrapping_add(1);
    }
}

} // verus!
