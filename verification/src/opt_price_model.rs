//! What the optimal parser takes symbols to cost, in 1/256 bit, and how its
//! statistics change.

use crate::bits::highest_bit;
use crate::block::{LL_BITS, ML_BITS};
use crate::block_encode_model::EntropyView;
use crate::fse_encode_model::FseCView;
use crate::huffman_encode::HufRepeat;
use crate::huffman_encode_model::HufCView;
use crate::lazy_model::less;
use crate::opt_prices::{BASE_LL_FREQS, BASE_OF_FREQS};
use crate::seq_codes::{spec_ll_code, spec_ml_code};
use vstd::arithmetic::power2::pow2;
use vstd::prelude::*;

verus! {

/// The logarithm of a count plus one: whole bits, or with `ultra` a linear
/// interpolation between them.
#[verifier::opaque]
pub open spec fn spec_weight(stat: u32, ultra: bool) -> int {
    let s: int = if stat < u32::MAX {
        stat + 1
    } else {
        stat as int
    };
    let h = highest_bit(s as nat);
    if ultra {
        h * 256 + (s * 256) / (pow2(h) as int)
    } else {
        (h * 256) as int
    }
}

/// The statistics.
pub struct StatsView {
    pub ultra: bool,
    pub lit: Seq<u32>,
    pub ll: Seq<u32>,
    pub ml: Seq<u32>,
    pub of: Seq<u32>,
    pub lit_sum: u32,
    pub ll_sum: u32,
    pub ml_sum: u32,
    pub of_sum: u32,
    pub lit_base: u32,
    pub ll_base: u32,
    pub ml_base: u32,
    pub of_base: u32,
    pub predef: bool,
}

/// Nothing counted yet.
pub open spec fn fresh_stats(ultra: bool) -> StatsView {
    StatsView {
        ultra,
        lit: Seq::new(256, |i: int| 0u32),
        ll: Seq::new(36, |i: int| 0u32),
        ml: Seq::new(53, |i: int| 0u32),
        of: Seq::new(32, |i: int| 0u32),
        lit_sum: 0,
        ll_sum: 0,
        ml_sum: 0,
        of_sum: 0,
        lit_base: 0,
        ll_base: 0,
        ml_base: 0,
        of_base: 0,
        predef: false,
    }
}

impl StatsView {
    /// The prices of the sums taken anew.
    pub open spec fn with_bases(self) -> StatsView {
        StatsView {
            lit_base: spec_weight(self.lit_sum, self.ultra) as u32,
            ll_base: spec_weight(self.ll_sum, self.ultra) as u32,
            ml_base: spec_weight(self.ml_sum, self.ultra) as u32,
            of_base: spec_weight(self.of_sum, self.ultra) as u32,
            ..self
        }
    }

    /// What a literal costs: its share of all literals, and at least one bit.
    #[verifier::opaque]
    pub open spec fn lit_price(self, byte: u8) -> int {
        if self.predef {
            1536
        } else {
            let w = spec_weight(self.lit[byte as int], self.ultra);
            let most = if self.lit_base >= 256 {
                self.lit_base - 256
            } else {
                0
            };
            self.lit_base - if w > most {
                most
            } else {
                w
            }
        }
    }

    /// What a literal length costs. That of a whole block takes one bit more
    /// than the longest that has a code.
    #[verifier::opaque]
    pub open spec fn ll_price(self, len: u32) -> int {
        if self.predef {
            spec_weight(len, self.ultra)
        } else if len >= 131072 {
            256 + self.ll_code_price(spec_ll_code(131071) as int)
        } else {
            self.ll_code_price(spec_ll_code(len as nat) as int)
        }
    }

    pub open spec fn ll_code_price(self, c: int) -> int {
        LL_BITS[c] * 256 + self.ll_base - spec_weight(self.ll[c], self.ultra)
    }

    /// What one more literal costs in the literal length.
    #[verifier::opaque]
    pub open spec fn ll_incprice(self, len: u32) -> int {
        self.ll_price(len) - self.ll_price(less(len, 1))
    }

    /// What a match costs: its offset code and its length. Without `ultra`, far
    /// offsets cost more.
    #[verifier::opaque]
    pub open spec fn match_price(self, off_base: u32, len: u32) -> int {
        let off_code = highest_bit(off_base as nat) as int;
        let base = less(len, 3);
        if self.predef {
            spec_weight(base, self.ultra) + (16 + off_code) * 256
        } else {
            let mlc = spec_ml_code(
                if base < 131072 {
                    base as nat
                } else {
                    131071
                },
            ) as int;
            off_code * 256 + self.of_base - spec_weight(self.of[off_code], self.ultra) + (
            if !self.ultra && off_code >= 20 {
                (off_code - 19) * 512
            } else {
                0
            }) + ML_BITS[mlc] * 256 + self.ml_base - spec_weight(self.ml[mlc], self.ultra) + 51
        }
    }

    /// A stored sequence counted, whose literals are `data[from .. to]`.
    #[verifier::opaque]
    pub open spec fn counted(self, data: Seq<u8>, from: int, to: int, off_base: u32, len: u32) -> StatsView {
        let llc = if to - from < 131072 {
            spec_ll_code((to - from) as nat) as int
        } else {
            35
        };
        let ofc = highest_bit(off_base as nat) as int;
        let base = less(len, 3);
        let mlc = if base < 131072 {
            spec_ml_code(base as nat) as int
        } else {
            52
        };
        StatsView {
            lit: bytes_counted(self.lit, data, from, to, 2),
            lit_sum: plus(self.lit_sum, (2 * (to - from)) as nat),
            ll: one_more(self.ll, llc),
            ll_sum: plus(self.ll_sum, 1),
            of: one_more(self.of, ofc),
            of_sum: plus(self.of_sum, 1),
            ml: one_more(self.ml, mlc),
            ml_sum: plus(self.ml_sum, 1),
            ..self
        }
    }
}

/// `a + b`, wrapped.
#[verifier::opaque]
pub open spec fn plus(a: u32, b: nat) -> u32 {
    ((a + b) % 0x1_0000_0000) as u32
}

/// One more of symbol `c`.
pub open spec fn one_more(t: Seq<u32>, c: int) -> Seq<u32> {
    t.update(c, plus(t[c], 1))
}

/// The bytes from `at` up to `to` counted, each `weight` times.
#[verifier::opaque]
pub open spec fn bytes_counted(t: Seq<u32>, data: Seq<u8>, at: int, to: int, weight: nat) -> Seq<u32>
    decreases to - at,
{
    if at < to {
        let b = data[at] as int;
        bytes_counted(t.update(b, plus(t[b], weight)), data, at + 1, to, weight)
    } else {
        t
    }
}

/// The sum of the first `n` counts, wrapped.
#[verifier::opaque]
pub open spec fn wrapped_sum(t: Seq<u32>, n: nat) -> u32
    decreases n,
{
    if n == 0 {
        0
    } else {
        plus(wrapped_sum(t, (n - 1) as nat), t[n - 1] as nat)
    }
}

/// A count after division by `2^shift`; one at least, where it was not zero
/// or `base1` holds.
#[verifier::opaque]
pub open spec fn scaled(v: u32, shift: u32, base1: bool) -> u32 {
    let q: int = v as int / pow2(shift as nat) as int + if base1 || v > 0 {
        1int
    } else {
        0
    };
    if q > u32::MAX {
        u32::MAX
    } else {
        q as u32
    }
}

pub open spec fn scaled_table(t: Seq<u32>, shift: u32, base1: bool) -> Seq<u32> {
    Seq::new(t.len(), |i: int| scaled(t[i], shift, base1))
}

/// The counts brought down to a sum of about `2^log`.
#[verifier::opaque]
pub open spec fn brought_down(t: Seq<u32>, log: u32) -> Seq<u32> {
    let factor = wrapped_sum(t, t.len()) as nat / pow2(log as nat);
    if factor <= 1 {
        t
    } else {
        scaled_table(t, highest_bit(factor) as u32, true)
    }
}

/// The frequency that a code of `bits` bits stands for, out of `2^log`.
#[verifier::opaque]
pub open spec fn freq_of(bits: nat, log: nat) -> u32 {
    if 1 <= bits <= log {
        pow2((log - bits) as nat) as u32
    } else {
        1
    }
}

/// The most bits that symbol `s` takes with a table, or none.
pub open spec fn bits_with(ct: Option<FseCView>, s: int) -> nat {
    match ct {
        Some(t) => if s < t.tt.len() && t.tt[s].delta_nb_bits <= 917504 {
            ((t.tt[s].delta_nb_bits + 65535) / 65536) as nat
        } else {
            0
        },
        None => 0,
    }
}

/// The frequencies that a table stands for.
pub open spec fn freqs_of_table(n: nat, ct: Option<FseCView>) -> Seq<u32> {
    Seq::new(n, |s: int| freq_of(bits_with(ct, s), 10))
}

/// The frequencies that a prefix code stands for.
pub open spec fn freqs_of_code(huf: HufCView) -> Seq<u32> {
    Seq::new(
        256,
        |s: int|
            freq_of(
                if s > huf.max_symbol {
                    0
                } else {
                    huf.nb_bits[s] as nat
                },
                11,
            ),
    )
}

/// The sums of the counts.
pub open spec fn summed(s: StatsView) -> StatsView {
    StatsView {
        lit_sum: wrapped_sum(s.lit, s.lit.len()),
        ll_sum: wrapped_sum(s.ll, s.ll.len()),
        ml_sum: wrapped_sum(s.ml, s.ml.len()),
        of_sum: wrapped_sum(s.of, s.of.len()),
        ..s
    }
}

/// The statistics of a first block without a dictionary.
pub open spec fn first_counted(s: StatsView, data: Seq<u8>, start: int, end: int) -> StatsView {
    let lit = scaled_table(
        bytes_counted(Seq::new(256, |i: int| 0u32), data, start, end, 1),
        8,
        false,
    );
    StatsView {
        lit,
        lit_sum: wrapped_sum(lit, 256),
        ll: BASE_LL_FREQS@,
        ll_sum: 40,
        ml: Seq::new(53, |i: int| 1u32),
        ml_sum: 53,
        of: BASE_OF_FREQS@,
        of_sum: 53,
        ..s
    }
}

/// The statistics made ready for a block.
#[verifier::opaque]
pub open spec fn rescaled(s: StatsView, data: Seq<u8>, start: int, end: int, costs: EntropyView) -> StatsView {
    let s1 = if s.ll_sum != 0 {
        summed(
            StatsView {
                lit: brought_down(s.lit, 12),
                ll: brought_down(s.ll, 11),
                ml: brought_down(s.ml, 11),
                of: brought_down(s.of, 11),
                predef: false,
                ..s
            },
        )
    } else if costs.huf.repeat == HufRepeat::Valid && costs.huf.table is Some {
        summed(
            StatsView {
                lit: freqs_of_code(costs.huf.table->0),
                ll: freqs_of_table(36, costs.ll),
                ml: freqs_of_table(53, costs.ml),
                of: freqs_of_table(32, costs.of),
                predef: false,
                ..s
            },
        )
    } else {
        first_counted(StatsView { predef: end - start <= 8, ..s }, data, start, end)
    };
    s1.with_bases()
}

} // verus!
