//! The encoding tables and the streams that they write.

use crate::bits::highest_bit;
use crate::bits_encode::{append_field, closed_bytes, Bits};
use crate::fse_encode::{no_transform, start_of, SymbolTransform};
use crate::spread::spec_spread;
use vstd::arithmetic::power2::pow2;
use vstd::prelude::*;

verus! {

/// An encoding table.
pub struct FseCView {
    pub log: u32,
    pub next_state: Seq<u16>,
    pub tt: Seq<SymbolTransform>,
}

impl FseCView {
    pub open spec fn size(self) -> nat {
        pow2(self.log as nat)
    }

    /// Whether `s` can be encoded.
    pub open spec fn encodable(self, s: int) -> bool {
        0 <= s < self.tt.len() && self.tt[s].delta_nb_bits != no_transform(self.log as nat)
    }

    /// Bits emitted when `s` is encoded in state `x`.
    pub open spec fn nb_out(self, s: int, x: nat) -> nat {
        (x + self.tt[s].delta_nb_bits as nat) / 65536
    }

    /// The state after `s` is encoded in state `x`.
    pub open spec fn next(self, s: int, x: nat) -> nat {
        self.next_state[x / pow2(self.nb_out(s, x)) + self.tt[s].delta_find_state] as nat
    }

    /// The bits that `s` costs, in units of 1/256: between its two bit counts, by
    /// how often each comes up.
    pub open spec fn cost(self, s: int) -> int {
        let d = self.tt[s].delta_nb_bits as int;
        let top = (d / 65536 + 1) * 65536;
        let below = if d + self.size() <= top {
            top - (d + self.size())
        } else {
            0
        };
        let c = (d / 65536 + 1) * 256 - (below * 256) / self.size() as int;
        if c >= 0 {
            c
        } else {
            0
        }
    }

    /// The state that a stream ending in `s` starts from.
    pub open spec fn start(self, s: int) -> nat {
        let d = self.tt[s].delta_nb_bits as int;
        let nb = (d + 32768) / 65536;
        let value = nb * 65536 - d;
        if self.log == 0 {
            self.next_state[0] as nat
        } else {
            self.next_state[value / pow2(nb as nat) as int + self.tt[s].delta_find_state] as nat
        }
    }
}

/// The transform of a symbol with count `c` whose states start at `start`.
pub open spec fn spec_transform(c: i16, log: nat, start: nat) -> SymbolTransform {
    if c == 0 {
        SymbolTransform { delta_nb_bits: no_transform(log) as u32, delta_find_state: 0 }
    } else if c == 1 || c == -1 {
        SymbolTransform {
            delta_nb_bits: (log * 65536 - pow2(log)) as u32,
            delta_find_state: (start - 1) as i32,
        }
    } else {
        let mb = (log - highest_bit((c - 1) as nat)) as nat;
        SymbolTransform {
            delta_nb_bits: (mb * 65536 - c * pow2(mb)) as u32,
            delta_find_state: (start - c) as i32,
        }
    }
}

/// The states from `u` on entered in symbol order; `at` says where the next
/// state of each symbol goes.
#[verifier::opaque]
pub open spec fn states_placed(symbols: Seq<u8>, at: Seq<u32>, table: Seq<u16>, u: nat) -> Seq<u16>
    decreases symbols.len() - u,
{
    if u < symbols.len() {
        let s = symbols[u as int] as int;
        states_placed(
            symbols,
            at.update(s, (at[s] + 1) as u32),
            table.update(at[s] as int, (symbols.len() + u) as u16),
            u + 1,
        )
    } else {
        table
    }
}

/// The encoding table for a distribution.
#[verifier::opaque]
pub open spec fn spec_ctable(norm: Seq<i16>, log: nat) -> FseCView {
    FseCView {
        log: log as u32,
        next_state: states_placed(
            spec_spread(norm, log),
            Seq::new(norm.len(), |s: int| start_of(norm, s) as u32),
            Seq::new(pow2(log), |i: int| 0u16),
            0,
        ),
        tt: Seq::new(norm.len(), |s: int| spec_transform(norm[s], log, start_of(norm, s))),
    }
}

/// The table that encodes `symbol` only, without any bits.
#[verifier::opaque]
pub open spec fn spec_rle_ctable(symbol: u8) -> FseCView {
    FseCView {
        log: 0,
        next_state: seq![1u16],
        tt: Seq::new(
            symbol as nat,
            |i: int| SymbolTransform { delta_nb_bits: 65535, delta_find_state: 0 },
        ).push(SymbolTransform { delta_nb_bits: 0, delta_find_state: -1i32 }),
    }
}

/// The symbols before `ip` appended, last one first, by two states in turn, and
/// then both states.
#[verifier::opaque]
pub open spec fn interleaved_bits(ct: FseCView, src: Seq<u8>, ip: nat, b: Bits, cur: nat, next: nat) -> Bits
    decreases ip,
{
    if ip > 0 {
        let s = src[ip - 1] as int;
        interleaved_bits(
            ct,
            src,
            (ip - 1) as nat,
            append_field(b, next, ct.nb_out(s, next)),
            ct.next(s, next),
            cur,
        )
    } else {
        append_field(append_field(b, next, ct.log as nat), cur, ct.log as nat)
    }
}

/// The stream of `src`.
#[verifier::opaque]
pub open spec fn spec_fse_compress(ct: FseCView, src: Seq<u8>) -> Seq<u8> {
    let n = src.len();
    closed_bytes(
        interleaved_bits(
            ct,
            src,
            (n - 2) as nat,
            Bits { num: 0, len: 0 },
            ct.start(src[n - 2] as int),
            ct.start(src[n - 1] as int),
        ),
    )
}

} // verus!
