//! How a histogram is scaled, and what describes a distribution, bit by bit.

use crate::bits_encode::{append_field, open_bytes, Bits};
use crate::error::Error;
use crate::fse::{abs16, shrink_bits};
use crate::fse_counts::{absorbed, absorbs};
use crate::fse_encode::spec_min_table_log;
use vstd::arithmetic::power2::pow2;
use vstd::prelude::*;

verus! {

// ---------------------------------------------------------------------------
// Describing a distribution.

/// `b` with a run of `run` zero counts appended: two-bit flags, 3 for three
/// zeros and more to come.
#[verifier::opaque]
pub open spec fn run_bits(b: Bits, run: nat) -> Bits
    decreases run,
{
    if run >= 3 {
        run_bits(append_field(b, 3, 2), (run - 3) as nat)
    } else {
        append_field(b, run, 2)
    }
}

/// `b` with one count field appended: values below `2^nb - 1 - remaining` take
/// one bit less.
#[verifier::opaque]
pub open spec fn count_bits(b: Bits, value: int, nb: nat, remaining: int) -> Bits {
    let threshold = pow2((nb - 1) as nat) as int;
    let max = 2 * threshold - 1 - remaining;
    let v = if value >= threshold {
        value + max
    } else {
        value
    };
    if v < max {
        append_field(b, v as nat, (nb - 1) as nat)
    } else {
        append_field(b, v as nat, nb)
    }
}

/// How many counts from `s` on are zero.
#[verifier::opaque]
pub open spec fn zeros_from(norm: Seq<i16>, s: nat) -> nat
    decreases norm.len() - s,
{
    if s < norm.len() && norm[s as int] == 0 {
        1 + zeros_from(norm, s + 1)
    } else {
        0
    }
}

/// The counts from symbol `s` on appended, while `remaining - 1` states are
/// left; after a zero count comes the run of further ones.
#[verifier::opaque]
pub open spec fn counts_described(norm: Seq<i16>, s: nat, remaining: int, nb: nat, after_zero: bool, b: Bits) -> Result<
    Seq<u8>,
    Error,
>
    decreases norm.len() - s,
{
    if s < norm.len() && remaining > 1 {
        let run = if after_zero {
            zeros_from(norm, s)
        } else {
            0
        };
        let s1 = s + run;
        let b1 = if after_zero {
            run_bits(b, run)
        } else {
            b
        };
        let c = norm[s1 as int];
        let left = remaining - abs16(c);
        if s1 >= norm.len() {
            Err(Error::Encode("FSE write: distribution not normalized"))
        } else if left <= 0 {
            Err(Error::Encode("FSE write: incorrect distribution"))
        } else {
            counts_described(
                norm,
                s1 + 1,
                left,
                shrink_bits(nb, left),
                c == 0,
                count_bits(b1, c + 1, nb, remaining),
            )
        }
    } else if remaining != 1 {
        Err(Error::Encode("FSE write: distribution not normalized"))
    } else {
        Ok(open_bytes(b))
    }
}

/// The description of a distribution.
pub open spec fn spec_write_ncount(norm: Seq<i16>, log: nat) -> Result<Seq<u8>, Error> {
    counts_described(
        norm,
        0,
        (pow2(log) + 1) as int,
        log + 1,
        false,
        append_field(Bits { num: 0, len: 0 }, (log - 5) as nat, 4),
    )
}

// ---------------------------------------------------------------------------
// Scaling.

/// The result of scaling a histogram.
pub enum NormView {
    Rle(u8),
    Table(Seq<i16>),
}

/// The first symbol from `s` on that has the entire count.
#[verifier::opaque]
pub open spec fn sole_symbol(count: Seq<u32>, total: nat, s: nat) -> Option<u8>
    decreases count.len() - s,
{
    if s < count.len() {
        if count[s as int] == total {
            Some(s as u8)
        } else {
            sole_symbol(count, total, s + 1)
        }
    } else {
        None
    }
}

/// `a - b`, but not below zero.
pub open spec fn minus(a: nat, b: nat) -> nat {
    if a >= b {
        (a - b) as nat
    } else {
        0
    }
}

/// What the slower scaling knows: the counts, -2 where one is not settled yet;
/// the total of those; and the states given away.
pub struct Settling {
    pub norm: Seq<i16>,
    pub total: nat,
    pub given: nat,
}

/// The symbols from `norm.len()` on: poor ones get one state.
#[verifier::opaque]
pub open spec fn poor_settled(count: Seq<u32>, threshold: nat, one: nat, low: i16, s: Settling) -> Settling
    decreases count.len() - s.norm.len(),
{
    if s.norm.len() < count.len() {
        let c = count[s.norm.len() as int] as nat;
        let next = if c == 0 {
            Settling { norm: s.norm.push(0), ..s }
        } else if c <= threshold {
            Settling { norm: s.norm.push(low), total: minus(s.total, c), given: s.given + 1 }
        } else if c <= one {
            Settling { norm: s.norm.push(1), total: minus(s.total, c), given: s.given + 1 }
        } else {
            Settling { norm: s.norm.push(-2i16), ..s }
        };
        poor_settled(count, threshold, one, low, next)
    } else {
        s
    }
}

/// The unsettled symbols from `i` on that are worth no more than `one`: they
/// get one state.
#[verifier::opaque]
pub open spec fn small_settled(count: Seq<u32>, one: nat, s: Settling, i: nat) -> Settling
    decreases count.len() - i,
{
    if i < count.len() {
        let c = count[i as int] as nat;
        let next = if s.norm[i as int] == -2i16 && c <= one {
            Settling {
                norm: s.norm.update(i as int, 1),
                total: minus(s.total, c),
                given: s.given + 1,
            }
        } else {
            s
        };
        small_settled(count, one, next, i + 1)
    } else {
        s
    }
}

/// The first symbol from `i` on with the largest count above `best`, or `at`.
#[verifier::opaque]
pub open spec fn most_frequent(count: Seq<u32>, i: nat, at: nat, best: u32) -> nat
    decreases count.len() - i,
{
    if i < count.len() {
        if count[i as int] > best {
            most_frequent(count, i + 1, i, count[i as int])
        } else {
            most_frequent(count, i + 1, at, best)
        }
    } else {
        at
    }
}

/// The unsettled symbols from `i` on get the states between their ends on the
/// line; none, where one would get no state.
#[verifier::opaque]
pub open spec fn line_settled(count: Seq<u32>, norm: Seq<i16>, i: nat, step: nat, unit: nat, from: nat) -> Option<
    Seq<i16>,
>
    decreases count.len() - i,
{
    if i < count.len() {
        if norm[i as int] == -2i16 {
            let to = from + count[i as int] * step;
            let n = to / unit as int - from / unit;
            if n <= 0 || n > 4096 {
                None
            } else {
                line_settled(count, norm.update(i as int, n as i16), i + 1, step, unit, to as nat)
            }
        } else {
            line_settled(count, norm, i + 1, step, unit, from)
        }
    } else {
        Some(norm)
    }
}

/// One state more for each symbol from `i` on that has some, while any are
/// left.
#[verifier::opaque]
pub open spec fn round_handed(norm: Seq<i16>, i: nat, left: nat) -> (Seq<i16>, nat)
    decreases norm.len() - i,
{
    if i < norm.len() && left > 0 {
        if norm[i as int] > 0 {
            round_handed(norm.update(i as int, (norm[i as int] + 1) as i16), i + 1, (left - 1) as nat)
        } else {
            round_handed(norm, i + 1, left)
        }
    } else {
        (norm, left)
    }
}

/// Round after round of states handed out.
#[verifier::opaque]
pub open spec fn rounds_handed(norm: Seq<i16>, left: nat) -> Option<Seq<i16>>
    decreases left,
{
    if left > 0 {
        let (n, l) = round_handed(norm, 0, left);
        if l < left {
            rounds_handed(n, l)
        } else {
            None
        }
    } else {
        Some(norm)
    }
}

/// What is left given to the symbols that are not poor.
#[verifier::opaque]
pub open spec fn rest_settled(count: Seq<u32>, log: nat, s: Settling, left: nat) -> Option<Seq<i16>> {
    if s.given == count.len() {
        let at = most_frequent(count, 0, 0, 0) as int;
        Some(s.norm.update(at, (s.norm[at] + left) as i16))
    } else if s.total == 0 {
        rounds_handed(s.norm, left)
    } else {
        let unit = pow2((62 - log) as nat);
        let mid = (unit / 2 - 1) as nat;
        line_settled(count, s.norm, 0, (unit * left + mid) / s.total, unit, mid)
    }
}

/// The slower scaling, for histograms whose leftover the most frequent symbol
/// cannot absorb.
#[verifier::opaque]
pub open spec fn slowly_scaled(count: Seq<u32>, total: nat, log: nat, low: i16) -> Option<Seq<i16>> {
    let size = pow2(log);
    let one = (total * 3) / (size * 2);
    let s = poor_settled(
        count,
        total / size,
        one,
        low,
        Settling { norm: Seq::empty(), total, given: 0 },
    );
    let left = (size - s.given) as nat;
    if s.given > size {
        None
    } else if left == 0 {
        Some(s.norm)
    } else if s.total / left > one {
        let s1 = small_settled(count, (s.total * 3) / (left * 2), s, 0);
        if s1.given > size {
            None
        } else {
            rest_settled(count, log, s1, (size - s1.given) as nat)
        }
    } else {
        rest_settled(count, log, s, left)
    }
}

/// The distribution that a histogram is scaled to.
#[verifier::opaque]
pub open spec fn spec_normalize(count: Seq<u32>, total: nat, max_symbol: nat, table_log: nat, use_low_prob: bool) -> Result<
    NormView,
    Error,
> {
    let log = if table_log == 0 {
        6nat
    } else {
        table_log
    };
    let low = if use_low_prob {
        -1i16
    } else {
        1i16
    };
    if log < 5 {
        Err(Error::Encode("FSE table log too small"))
    } else if log > 12 {
        Err(Error::Encode("FSE table log too large"))
    } else if log < spec_min_table_log(total, max_symbol) {
        Err(Error::Encode("FSE table log below the alphabet minimum"))
    } else {
        match sole_symbol(count, total, 0) {
            Some(s) => Ok(NormView::Rle(s)),
            None => if absorbs(count, total, log, low) {
                Ok(NormView::Table(absorbed(count, total, log, low)))
            } else {
                match slowly_scaled(count, total, log, low) {
                    Some(norm) => Ok(NormView::Table(norm)),
                    None => Err(Error::Encode("FSE normalize weight underflow")),
                }
            },
        }
    }
}

} // verus!
