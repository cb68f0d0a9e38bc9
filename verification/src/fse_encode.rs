//! FSE encoding: table logs, encoding tables, and the symbol streams that the
//! decoder of [`crate::fse`] reads back.

use crate::bits::{highbit32, highest_bit, lemma_highest_bit_bound, rev_peek};
use crate::bits_encode::{append_field, lemma_open_closed, lemma_take_field, stream_holds, BitCStream, Bits};
use crate::fse::{
    abs16, dtable_entry, interleaved, lemma_dtable_wf, lemma_scale, spec_decode_interleaved, spec_dtable, sum_abs,
    valid_counts, FseTableView,
};
use crate::fse_encode_model::{
    interleaved_bits, spec_ctable, spec_fse_compress, spec_rle_ctable, spec_transform, states_placed, FseCView,
};
use crate::math::pow2_u64;
use crate::spread::{
    lemma_find_rank, lemma_rank_monotone, lemma_spread_counts, lemma_spread_symbols, rank_before, spec_spread,
    spread_symbols,
};
use vstd::arithmetic::div_mod::{lemma_fundamental_div_mod, lemma_fundamental_div_mod_converse, lemma_mod_bound};
use vstd::arithmetic::power2::{
    lemma2_to64, lemma_pow2_adds, lemma_pow2_pos, lemma_pow2_strictly_increases, lemma_pow2_unfold, pow2,
};
use vstd::prelude::*;

verus! {

pub const FSE_MIN_TABLELOG: u32 = 5;

pub const FSE_MAX_TABLELOG: u32 = 12;

pub const FSE_DEFAULT_TABLELOG: u32 = 6;

// ---------------------------------------------------------------------------
// Table logs.

pub open spec fn min_nat(a: nat, b: nat) -> nat {
    if a < b {
        a
    } else {
        b
    }
}

pub open spec fn max_nat(a: nat, b: nat) -> nat {
    if a < b {
        b
    } else {
        a
    }
}

/// The smallest table log that can represent the alphabet.
pub open spec fn spec_min_table_log(src_size: nat, max_symbol: nat) -> nat {
    min_nat(highest_bit(src_size) + 1, highest_bit(max_symbol) + 2)
}

pub fn min_table_log(src_size: usize, max_symbol: u32) -> (r: u32)
    requires
        1 <= src_size <= u32::MAX,
        1 <= max_symbol,
    ensures
        r == spec_min_table_log(src_size as nat, max_symbol as nat),
{
    let a: u32 = highbit32(src_size as u32) + 1;
    let b: u32 = highbit32(max_symbol) + 2;
    if a < b {
        a
    } else {
        b
    }
}

/// A table log for `src_size` symbols up to `max_symbol`: as large as the
/// source warrants (`minus` bits below its own size), at most
/// `max_table_log`, at least what the alphabet needs, and within the format's
/// bounds.
pub open spec fn spec_optimal_table_log(
    max_table_log: nat,
    src_size: nat,
    max_symbol: nat,
    minus: nat,
) -> nat {
    let cap = if max_table_log == 0 {
        6nat
    } else {
        max_table_log
    };
    let top = highest_bit((src_size - 1) as nat);
    let t = if top >= minus && top - minus < cap {
        (top - minus) as nat
    } else {
        cap
    };
    let u = max_nat(spec_min_table_log(src_size, max_symbol), t);
    min_nat(12, max_nat(5, u))
}

pub fn optimal_table_log_internal(
    max_table_log: u32,
    src_size: usize,
    max_symbol: u32,
    minus: u32,
) -> (r: u32)
    requires
        2 <= src_size <= u32::MAX,
        1 <= max_symbol,
    ensures
        r == spec_optimal_table_log(
            max_table_log as nat,
            src_size as nat,
            max_symbol as nat,
            minus as nat,
        ),
        5 <= r <= 12,
{
    let mut table_log: u32 = if max_table_log == 0 {
        FSE_DEFAULT_TABLELOG
    } else {
        max_table_log
    };
    let top: u32 = highbit32((src_size - 1) as u32);
    let min_bits: u32 = min_table_log(src_size, max_symbol);
    if top >= minus && top - minus < table_log {
        table_log = top - minus;
    }
    if min_bits > table_log {
        table_log = min_bits;
    }
    if table_log < FSE_MIN_TABLELOG {
        FSE_MIN_TABLELOG
    } else if table_log > FSE_MAX_TABLELOG {
        FSE_MAX_TABLELOG
    } else {
        table_log
    }
}

/// The table log for a source of `src_size` symbols.
pub fn optimal_table_log(max_table_log: u32, src_size: usize, max_symbol: u32) -> (r: u32)
    requires
        2 <= src_size <= u32::MAX,
        1 <= max_symbol,
    ensures
        r == spec_optimal_table_log(
            max_table_log as nat,
            src_size as nat,
            max_symbol as nat,
            2,
        ),
        5 <= r <= 12,
{
    optimal_table_log_internal(max_table_log, src_size, max_symbol, 2)
}

// ---------------------------------------------------------------------------
// Encoding tables.

/// How one symbol moves the encoder's state.
#[derive(Clone, Copy)]
pub struct SymbolTransform {
    pub delta_nb_bits: u32,
    pub delta_find_state: i32,
}

/// An encoding table: the next-state lookup and the per-symbol transforms. It
/// remembers (as a ghost) the decoding table that it encodes for.
pub struct FseCTable {
    pub table_log: u32,
    pub next_state: Vec<u16>,
    pub symbol_tt: Vec<SymbolTransform>,
    pub dt: Ghost<FseTableView>,
}

/// The transform of a symbol that the table cannot encode.
pub open spec fn no_transform(log: nat) -> nat {
    ((log + 1) * 65536 - pow2(log)) as nat
}

impl FseCTable {
    pub open spec fn view(&self) -> FseCView {
        FseCView { log: self.table_log, next_state: self.next_state@, tt: self.symbol_tt@ }
    }

    /// The table that reads back what this one writes.
    pub open spec fn decoder(&self) -> FseTableView {
        self.dt@
    }

    pub open spec fn size(&self) -> nat {
        pow2(self.table_log as nat)
    }

    /// Whether `s` can be encoded.
    pub open spec fn encodable(&self, s: int) -> bool {
        &&& 0 <= s < self.symbol_tt@.len()
        &&& self.symbol_tt@[s].delta_nb_bits != no_transform(self.table_log as nat)
    }

    /// Bits emitted when `s` is encoded in state `x`.
    pub open spec fn nb_out(&self, s: int, x: nat) -> nat {
        (x + self.symbol_tt@[s].delta_nb_bits as nat) / 65536
    }

    pub open spec fn next_index(&self, s: int, x: nat) -> int {
        x / pow2(self.nb_out(s, x)) + self.symbol_tt@[s].delta_find_state
    }

    /// The state after `s` is encoded in state `x`.
    pub open spec fn next(&self, s: int, x: nat) -> nat {
        self.next_state@[self.next_index(s, x)] as nat
    }

    /// Encoding `s` in state `x` gives a state that decodes to `s`, and from
    /// which the emitted bits lead back to `x`.
    pub open spec fn step_ok(&self, s: int, x: nat) -> bool {
        let nb = self.nb_out(s, x);
        let y = self.next(s, x);
        let e = self.dt@.entries[y - self.size()];
        &&& nb <= self.table_log
        &&& 0 <= self.next_index(s, x) < self.next_state@.len()
        &&& self.size() <= y < 2 * self.size()
        &&& e.symbol == s
        &&& e.nb_bits == nb
        &&& e.base + x % pow2(nb) == x - self.size()
    }

    /// The state that a stream ending in `s` starts from decodes to `s`.
    pub open spec fn start_ok(&self, s: int) -> bool {
        let i = self.start_index(s);
        let y = self.next_state@[i];
        &&& 0 <= i < self.next_state@.len()
        &&& self.size() <= y < 2 * self.size()
        &&& self.dt@.entries[y - self.size()].symbol == s
        &&& self.table_log > 0 ==> self.start_value(s) >= 0
    }

    /// The least state from which `s` is encoded in the most bits.
    pub open spec fn start_value(&self, s: int) -> int {
        let d = self.symbol_tt@[s].delta_nb_bits as int;
        (d + 32768) / 65536 * 65536 - d
    }

    /// Where the first state of `s` is found.
    pub open spec fn start_index(&self, s: int) -> int {
        if self.table_log == 0 {
            0
        } else {
            let nb = (self.symbol_tt@[s].delta_nb_bits as int + 32768) / 65536;
            self.start_value(s) / pow2(nb as nat) as int + self.symbol_tt@[s].delta_find_state
        }
    }

    pub open spec fn wf(&self) -> bool {
        &&& self.table_log <= 12
        &&& self.dt@.log == self.table_log
        &&& self.dt@.wf()
        &&& 1 <= self.symbol_tt@.len() <= 256
        &&& forall|s: int| #[trigger] self.encodable(s) ==> self.start_ok(s)
        &&& forall|s: int, x: nat|
            self.encodable(s) && self.size() <= x < 2 * self.size() ==> #[trigger] self.step_ok(
                s,
                x,
            )
        &&& forall|s: int|
            0 <= s < self.symbol_tt@.len() ==> (#[trigger] self.symbol_tt@[s]).delta_nb_bits <= 65536
                * 14
    }

    /// The largest symbol that the table knows.
    pub fn max_symbol(&self) -> (r: u32)
        requires
            self.wf(),
        ensures
            r == self.symbol_tt@.len() - 1,
    {
        (self.symbol_tt.len() - 1) as u32
    }

    pub fn table_log(&self) -> (r: u32)
        ensures
            r == self.table_log,
    {
        self.table_log
    }

    /// Whether the table can encode `symbol`.
    pub fn can_encode(&self, symbol: u8) -> (r: bool)
        requires
            self.wf(),
        ensures
            r == self.encodable(symbol as int),
    {
        if symbol as usize >= self.symbol_tt.len() {
            return false;
        }
        let size: u32 = pow2_u64(self.table_log) as u32;
        proof {
            lemma2_to64();
            if self.table_log < 12 {
                lemma_pow2_strictly_increases(self.table_log as nat, 12);
            }
        }
        self.symbol_tt[symbol as usize].delta_nb_bits != (self.table_log + 1) * 65536 - size
    }

    /// The most bits that encoding `symbol` can take.
    pub fn max_nb_bits(&self, symbol: u32) -> (r: u32)
        requires
            symbol < self.symbol_tt@.len(),
            self.symbol_tt@[symbol as int].delta_nb_bits <= 65536 * 14,
        ensures
            r == (self.symbol_tt@[symbol as int].delta_nb_bits + 65535) / 65536,
    {
        (self.symbol_tt[symbol as usize].delta_nb_bits + 65535) / 65536
    }

    /// The bits that `symbol` costs, in units of 1/256: between its two bit
    /// counts, by how often each comes up.
    pub open spec fn spec_bit_cost(&self, symbol: int) -> int {
        let d = self.symbol_tt@[symbol].delta_nb_bits as int;
        let top = (d / 65536 + 1) * 65536;
        let below = if d + self.size() <= top {
            top - (d + self.size())
        } else {
            0
        };
        (d / 65536 + 1) * 256 - (below * 256) / self.size() as int
    }

    /// The cost of `symbol` in units of 1/256 bit, where it is not negative.
    pub fn bit_cost(&self, symbol: u32) -> (r: u32)
        requires
            self.wf(),
            symbol < self.symbol_tt@.len(),
        ensures
            self.spec_bit_cost(symbol as int) >= 0 ==> r == self.spec_bit_cost(symbol as int),
            !self.encodable(symbol as int) ==> r == (self.table_log + 1) * 256,
            r <= 15 * 256,
            r == self@.cost(symbol as int),
    {
        proof {
            lemma2_to64();
            if self.table_log < 12 {
                lemma_pow2_strictly_increases(self.table_log as nat, 12);
            }
            lemma_pow2_pos(self.table_log as nat);
        }
        let d: i64 = self.symbol_tt[symbol as usize].delta_nb_bits as i64;
        let size: i64 = pow2_u64(self.table_log) as i64;
        let top: i64 = (d / 65536 + 1) * 65536;
        let below: i64 = if d + size <= top {
            top - (d + size)
        } else {
            0
        };
        proof {
            assert((below * 256) / size as int >= 0) by (nonlinear_arith)
                requires
                    below >= 0,
                    size > 0,
            ;
            if !self.encodable(symbol as int) {
                assert(d == (self.table_log + 1) * 65536 - size);
                assert(d / 65536 == self.table_log);
                assert(below == 0);
                assert((0int * 256) / size as int == 0) by (nonlinear_arith)
                    requires
                        size > 0,
                ;
            }
        }
        let cost: i64 = (d / 65536 + 1) * 256 - below * 256 / size;
        if cost >= 0 {
            cost as u32
        } else {
            0
        }
    }

    /// The table that encodes `symbol` only, without any bits.
    pub fn rle(symbol: u8) -> (r: Self)
        ensures
            r.wf(),
            r@ == spec_rle_ctable(symbol),
            r.decoder() == crate::fse::rle_view(symbol),
            r.encodable(symbol as int),
            forall|s: int| r.encodable(s) ==> s == symbol,
    {
        proof {
            lemma2_to64();
        }
        let mut symbol_tt: Vec<SymbolTransform> = Vec::new();
        let mut i: usize = 0;
        while i < symbol as usize
            invariant
                i <= symbol,
                symbol_tt@.len() == i,
                forall|j: int|
                    0 <= j < i ==> #[trigger] symbol_tt@[j] == (SymbolTransform {
                        delta_nb_bits: 65535,
                        delta_find_state: 0,
                    }),
            decreases symbol as usize - i,
        {
            symbol_tt.push(SymbolTransform { delta_nb_bits: 65535, delta_find_state: 0 });
            i = i + 1;
        }
        symbol_tt.push(SymbolTransform { delta_nb_bits: 0, delta_find_state: -1 });
        let mut next_state: Vec<u16> = Vec::new();
        next_state.push(1);
        let r = FseCTable {
            table_log: 0,
            next_state,
            symbol_tt,
            dt: Ghost(crate::fse::rle_view(symbol)),
        };
        proof {
            reveal(spec_rle_ctable);
            assert(r.symbol_tt@ =~= spec_rle_ctable(symbol).tt);
            assert(r.next_state@ =~= seq![1u16]);
        }
        assert(no_transform(0) == 65535);
        assert forall|s: int, x: nat| r.encodable(s) && r.size() <= x < 2
            * r.size() implies #[trigger] r.step_ok(s, x) by {
            assert(s == symbol && x == 1);
            assert(r.nb_out(s, x) == 0);
            assert(x / pow2(0) == 1);
        }
        r
    }

    /// A copy of the table.
    pub fn duplicate(&self) -> (r: Self)
        ensures
            r.table_log == self.table_log,
            r.next_state@ == self.next_state@,
            r.symbol_tt@ == self.symbol_tt@,
            r@ == self@,
            r.decoder() == self.decoder(),
            self.wf() ==> r.wf(),
            forall|s: int| r.encodable(s) == self.encodable(s),
    {
        let mut next_state: Vec<u16> = Vec::new();
        let mut i: usize = 0;
        while i < self.next_state.len()
            invariant
                i <= self.next_state@.len(),
                next_state@ == self.next_state@.take(i as int),
            decreases self.next_state@.len() - i,
        {
            next_state.push(self.next_state[i]);
            assert(self.next_state@.take(i + 1) =~= self.next_state@.take(i as int).push(
                self.next_state@[i as int],
            ));
            i = i + 1;
        }
        let mut symbol_tt: Vec<SymbolTransform> = Vec::new();
        let mut j: usize = 0;
        while j < self.symbol_tt.len()
            invariant
                j <= self.symbol_tt@.len(),
                symbol_tt@ == self.symbol_tt@.take(j as int),
            decreases self.symbol_tt@.len() - j,
        {
            symbol_tt.push(self.symbol_tt[j]);
            assert(self.symbol_tt@.take(j + 1) =~= self.symbol_tt@.take(j as int).push(
                self.symbol_tt@[j as int],
            ));
            j = j + 1;
        }
        let r = FseCTable {
            table_log: self.table_log,
            next_state,
            symbol_tt,
            dt: Ghost(self.dt@),
        };
        proof {
            assert(r.next_state@ =~= self.next_state@);
            assert(r.symbol_tt@ =~= self.symbol_tt@);
            lemma_same_table(self, &r);
        }
        r
    }
}

proof fn lemma_same_table(a: &FseCTable, b: &FseCTable)
    requires
        a.table_log == b.table_log,
        a.next_state@ == b.next_state@,
        a.symbol_tt@ == b.symbol_tt@,
        a.dt@ == b.dt@,
    ensures
        a.wf() ==> b.wf(),
        forall|s: int| a.encodable(s) == b.encodable(s),
{
    assert forall|s: int| a.encodable(s) == b.encodable(s) by {}
    if a.wf() {
        assert forall|s: int| #[trigger] b.encodable(s) implies b.start_ok(s) by {
            assert(a.encodable(s));
            assert(a.start_ok(s));
        }
        assert forall|s: int, x: nat| b.encodable(s) && b.size() <= x < 2
            * b.size() implies #[trigger] b.step_ok(s, x) by {
            assert(a.encodable(s));
            assert(a.step_ok(s, x));
        }
    }
}

/// States taken by the symbols below `s`.
pub open spec fn start_of(counts: Seq<i16>, s: int) -> nat {
    sum_abs(counts.take(s))
}

pub proof fn lemma_start_step(counts: Seq<i16>, s: int)
    requires
        0 <= s < counts.len(),
    ensures
        start_of(counts, s + 1) == start_of(counts, s) + abs16(counts[s]),
{
    assert(counts.take(s + 1).drop_last() =~= counts.take(s));
}

pub proof fn lemma_start_monotone(counts: Seq<i16>, a: int, b: int)
    requires
        0 <= a <= b <= counts.len(),
    ensures
        start_of(counts, a) <= start_of(counts, b),
    decreases b - a,
{
    if a < b {
        lemma_start_monotone(counts, a, b - 1);
        lemma_start_step(counts, b - 1);
    }
}

pub proof fn lemma_start_total(counts: Seq<i16>, log: nat, s: int)
    requires
        valid_counts(counts, log),
        0 <= s < counts.len(),
    ensures
        start_of(counts, s) + abs16(counts[s]) <= pow2(log),
{
    lemma_start_step(counts, s);
    lemma_start_monotone(counts, s + 1, counts.len() as int);
    assert(counts.take(counts.len() as int) =~= counts);
}

/// The next-state table: the states of each symbol in order, symbol by symbol.
pub open spec fn next_states_ok(counts: Seq<i16>, log: nat, next_state: Seq<u16>, upto: nat) -> bool {
    let symbols = spec_spread(counts, log);
    forall|u: int|
        0 <= u < upto ==> next_state[(start_of(counts, #[trigger] symbols[u] as int) + rank_before(
            symbols,
            symbols[u],
            u as nat,
        )) as int] == pow2(log) + u
}

/// The transform that symbol `s` gets: the states of the table from `start`
/// on belong to it.
pub open spec fn transform_ok(c: i16, log: nat, start: nat, t: SymbolTransform) -> bool {
    if c == 0 {
        t.delta_nb_bits == no_transform(log)
    } else if c == 1 || c == -1 {
        &&& t.delta_nb_bits == log * 65536 - pow2(log)
        &&& t.delta_find_state == start - 1
    } else {
        let mb = (log - highest_bit((c - 1) as nat)) as nat;
        &&& t.delta_nb_bits == mb * 65536 - c * pow2(mb)
        &&& t.delta_find_state == start - c
    }
}

/// The number of bits that brings a state `x` of the table down to the range
/// `n .. 2 n` of a symbol with count `n`.
#[verifier::rlimit(30)]
proof fn lemma_bits_out(n: nat, log: nat, x: nat)
    requires
        2 <= n <= pow2(log),
        5 <= log <= 12,
        pow2(log) <= x < 2 * pow2(log),
    ensures
        ({
            let mb = (log - highest_bit((n - 1) as nat)) as nat;
            let nb = ((x + (mb * 65536 - n * pow2(mb))) / 65536) as nat;
            &&& highest_bit((n - 1) as nat) < log
            &&& 1 <= mb <= log
            &&& n * pow2(mb) <= 2 * pow2(log)
            &&& nb <= mb
            &&& n <= x / pow2(nb) < 2 * n
        }),
{
    lemma2_to64();
    let h = highest_bit((n - 1) as nat);
    lemma_highest_bit_bound((n - 1) as nat, log);
    let mb = (log - h) as nat;
    lemma_pow2_adds(h, mb);
    lemma_pow2_pos(mb);
    lemma_pow2_pos(h);
    let p = pow2(mb) as int;
    let q = pow2(h) as int;
    if log < 12 {
        lemma_pow2_strictly_increases(log, 12);
    }
    assert(n * p <= (2 * q) * p) by (nonlinear_arith)
        requires
            n <= 2 * q,
            p > 0,
    ;
    assert((2 * q) * p == 2 * (q * p)) by (nonlinear_arith);
    assert(n * p >= 0) by (nonlinear_arith)
        requires
            p > 0,
    ;
    let msp = n * p;
    if x >= msp {
        // nb == mb
        assert((x + (mb * 65536 - msp)) / 65536 == mb);
        lemma_fundamental_div_mod(x as int, p);
        lemma_mod_bound(x as int, p);
        let k = x as int / p;
        assert(k >= n) by (nonlinear_arith)
            requires
                x == p * k + x as int % p,
                x as int % p < p,
                x >= n * p,
                p > 0,
        ;
        assert(k < 2 * q) by (nonlinear_arith)
            requires
                x == p * k + x as int % p,
                0 <= x as int % p,
                x < 2 * (q * p),
                p > 0,
        ;
    } else {
        let nb = (mb - 1) as nat;
        assert((x + (mb * 65536 - msp)) / 65536 == nb);
        lemma_pow2_unfold(mb);
        lemma_pow2_pos(nb);
        let r = pow2(nb) as int;
        lemma_fundamental_div_mod(x as int, r);
        lemma_mod_bound(x as int, r);
        let k = x as int / r;
        assert(k < 2 * n) by (nonlinear_arith)
            requires
                x == r * k + x as int % r,
                0 <= x as int % r,
                x < n * (2 * r),
                r > 0,
        ;
        assert(k >= 2 * q) by (nonlinear_arith)
            requires
                x == r * k + x as int % r,
                x as int % r < r,
                x >= q * (2 * r),
                r > 0,
        ;
    }
}

/// Splitting a state into a symbol's range gives the decoder's view of it.
proof fn lemma_split_state(log: nat, x: nat, nb: nat, k: nat)
    requires
        pow2(log) <= x < 2 * pow2(log),
        k == x / pow2(nb),
        1 <= k,
        nb <= log,
    ensures
        nb == log - highest_bit(k),
        k * pow2(nb) + x % pow2(nb) == x,
        k < pow2(log + 1),
{
    let p = pow2(nb) as int;
    lemma_pow2_pos(nb);
    lemma_fundamental_div_mod(x as int, p);
    lemma_mod_bound(x as int, p);
    lemma_pow2_unfold(log + 1);
    assert(k * p == p * k) by (nonlinear_arith);
    assert(k <= x) by (nonlinear_arith)
        requires
            x == p * k + x as int % p,
            0 <= x as int % p,
            p >= 1,
            k >= 0,
    ;
    lemma_highest_bit_bound(k, log + 1);
    let h = highest_bit(k);
    let q = pow2(h) as int;
    lemma_pow2_adds(h, nb);
    // 2^(h+nb) <= x < 2^(h+nb+1)
    assert(q * p <= x) by (nonlinear_arith)
        requires
            x == p * k + x as int % p,
            0 <= x as int % p,
            q <= k,
            p > 0,
    ;
    assert(x < 2 * (q * p)) by (nonlinear_arith)
        requires
            x == p * k + x as int % p,
            x as int % p < p,
            k + 1 <= 2 * q,
            p > 0,
    ;
    let e = h + nb;
    if e < log {
        lemma_pow2_unfold(log);
        if e < log - 1 {
            lemma_pow2_strictly_increases(e, (log - 1) as nat);
        }
    } else if e > log {
        lemma_pow2_unfold(e);
        if log < e - 1 {
            lemma_pow2_strictly_increases(log, (e - 1) as nat);
        }
    }
}

/// The slot of state `u` in the next-state table lies inside it.
proof fn lemma_slot_bound(counts: Seq<i16>, log: nat, u: int)
    requires
        valid_counts(counts, log),
        0 <= u < pow2(log),
    ensures
        ({
            let symbols = spec_spread(counts, log);
            start_of(counts, symbols[u] as int) + rank_before(symbols, symbols[u], u as nat) < pow2(log)
        }),
{
    let symbols = spec_spread(counts, log);
    lemma_spread_symbols(counts, log);
    let s = symbols[u];
    lemma_start_total(counts, log, s as int);
    lemma_spread_counts(counts, log, s as int);
    lemma_rank_monotone(symbols, s, (u + 1) as nat, pow2(log));
    assert(rank_before(symbols, s, (u + 1) as nat) == rank_before(symbols, s, u as nat) + 1);
}

/// The `r`-th state of symbol `s`.
proof fn lemma_lookup(counts: Seq<i16>, log: nat, next_state: Seq<u16>, s: int, r: nat) -> (u: nat)
    requires
        valid_counts(counts, log),
        next_states_ok(counts, log, next_state, pow2(log)),
        0 <= s < counts.len(),
        r < abs16(counts[s]),
    ensures
        u < pow2(log),
        next_state[(start_of(counts, s) + r) as int] == pow2(log) + u,
        spec_dtable(counts, log).entries[u as int] == dtable_entry(counts, log, spec_spread(counts, log), u),
        spec_spread(counts, log)[u as int] == s,
        rank_before(spec_spread(counts, log), s as u8, u) == r,
{
    let symbols = spec_spread(counts, log);
    lemma_spread_symbols(counts, log);
    lemma_spread_counts(counts, log, s);
    let u = lemma_find_rank(symbols, s as u8, pow2(log), r);
    assert(symbols[u as int] as int == s);
    u
}

/// What lies between a symbol's transform and its bit counts.
proof fn lemma_transform(c: i16, log: nat, start: nat, t: SymbolTransform, x: nat)
    requires
        c != 0,
        -1 <= c,
        1 <= abs16(c) <= pow2(log),
        5 <= log <= 12,
        transform_ok(c, log, start, t),
        pow2(log) <= x < 2 * pow2(log),
    ensures
        ({
            let n = abs16(c);
            let nb = (x + t.delta_nb_bits as nat) / 65536;
            let k = x / pow2(nb);
            let d = t.delta_nb_bits as int;
            let m = (d + 32768) / 65536;
            &&& nb <= log
            &&& n <= k < 2 * n
            &&& k + t.delta_find_state == start + (k - n)
            &&& m >= 0
            &&& m * 65536 - d >= 0
            &&& (m * 65536 - d) / pow2(m as nat) as int + t.delta_find_state == start
        }),
{
    let size = pow2(log);
    let n = abs16(c);
    lemma2_to64();
    if log < 12 {
        lemma_pow2_strictly_increases(log, 12);
    }
    lemma_pow2_pos(log);
    let d = t.delta_nb_bits as int;
    let m = (d + 32768) / 65536;
    if n == 1 {
        assert((x + t.delta_nb_bits as nat) / 65536 == log);
        lemma_fundamental_div_mod_converse(x as int, size as int, 1, x - size);
        assert(m == log);
        lemma_fundamental_div_mod_converse(size as int, size as int, 1, 0);
        assert(m * 65536 - d == size);
    } else {
        lemma_bits_out(n, log, x);
        let mb = (log - highest_bit((n - 1) as nat)) as nat;
        let p = pow2(mb) as int;
        lemma_pow2_pos(mb);
        assert(n * p > 0) by (nonlinear_arith)
            requires
                p > 0,
                n > 0,
        ;
        assert(c as int == n);
        assert(d == mb * 65536 - n * p);
        assert(m == mb);
        assert(m * 65536 - d == n * p);
        lemma_fundamental_div_mod_converse(n * p, p, n as int, 0);
    }
}

/// A table built from the layout encodes for the decoding table of the layout.
#[verifier::spinoff_prover]
#[verifier::rlimit(50)]
proof fn lemma_step(ct: &FseCTable, counts: Seq<i16>, log: nat, s: int, x: nat)
    requires
        valid_counts(counts, log),
        log <= 12,
        ct.table_log == log,
        ct.dt@ == spec_dtable(counts, log),
        ct.next_state@.len() == pow2(log),
        next_states_ok(counts, log, ct.next_state@, pow2(log)),
        ct.symbol_tt@.len() == counts.len(),
        0 <= s < counts.len(),
        counts[s] != 0,
        transform_ok(counts[s], log, start_of(counts, s), ct.symbol_tt@[s]),
        pow2(log) <= x < 2 * pow2(log),
    ensures
        ct.step_ok(s, x),
        ct.start_ok(s),
        counts[s] < pow2(log) ==> ct.decoder().nb(
            (ct.next_state@[ct.start_index(s)] - ct.size()) as nat,
        ) >= 1,
{
    let n = abs16(counts[s]);
    let start = start_of(counts, s);
    lemma_start_total(counts, log, s);
    lemma_transform(counts[s], log, start, ct.symbol_tt@[s], x);
    let nb = ct.nb_out(s, x);
    let k = x / pow2(nb);
    lemma_split_state(log, x, nb, k);
    let u = lemma_lookup(counts, log, ct.next_state@, s, (k - n) as nat);
    lemma_scale(k, log);
    let v = lemma_lookup(counts, log, ct.next_state@, s, 0);
    assert(ct.start_index(s) == start);
    assert(ct.next_index(s, x) == start + (k - n));
    if n < pow2(log) {
        lemma_highest_bit_bound(n, log);
    }
}

/// The transform of a symbol with count `c` whose states start at `start`.
fn make_transform(c: i16, table_log: u32, start: u32) -> (r: SymbolTransform)
    requires
        5 <= table_log <= 12,
        -1 <= c <= 4096,
        abs16(c) <= pow2(table_log as nat),
        start <= 4096,
    ensures
        r == spec_transform(c, table_log as nat, start as nat),
        transform_ok(c, table_log as nat, start as nat, r),
        r.delta_nb_bits <= 65536 * 13,
        c != 0 ==> r.delta_nb_bits != no_transform(table_log as nat),
{
    let size: u32 = pow2_u64(table_log) as u32;
    proof {
        lemma2_to64();
        if table_log < 12 {
            lemma_pow2_strictly_increases(table_log as nat, 12);
        }
        lemma_pow2_strictly_increases(0, table_log as nat);
    }
    if c == 0 {
        SymbolTransform { delta_nb_bits: (table_log + 1) * 65536 - size, delta_find_state: 0 }
    } else if c == 1 || c == -1 {
        SymbolTransform {
            delta_nb_bits: table_log * 65536 - size,
            delta_find_state: start as i32 - 1,
        }
    } else {
        proof {
            lemma_bits_out(c as nat, table_log as nat, size as nat);
        }
        let max_bits_out: u32 = table_log - highbit32((c - 1) as u32);
        let scale: u32 = pow2_u64(max_bits_out) as u32;
        proof {
            if max_bits_out < 12 {
                lemma_pow2_strictly_increases(max_bits_out as nat, 12);
            }
            lemma_pow2_pos(max_bits_out as nat);
            assert(c as nat * scale as nat >= 0) by (nonlinear_arith);
            assert(c * pow2(max_bits_out as nat) > 0) by (nonlinear_arith)
                requires
                    c > 0,
                    pow2(max_bits_out as nat) > 0,
            ;
        }
        let min_state_plus: u32 = c as u32 * scale;
        SymbolTransform {
            delta_nb_bits: max_bits_out * 65536 - min_state_plus,
            delta_find_state: start as i32 - c as i32,
        }
    }
}

/// Lays out the encoding table for a distribution.
#[verifier::rlimit(30)]
pub fn build_ctable(norm: &[i16], max_symbol: u32, table_log: u32) -> (r: FseCTable)
    requires
        valid_counts(norm@, table_log as nat),
        table_log <= 12,
        norm@.len() == max_symbol + 1,
    ensures
        r.wf(),
        r.table_log == table_log,
        r@ == spec_ctable(norm@, table_log as nat),
        r.decoder() == spec_dtable(norm@, table_log as nat),
        r.symbol_tt@.len() == norm@.len(),
        forall|s: int| 0 <= s < norm@.len() ==> (r.encodable(s) <==> #[trigger] norm@[s] != 0),
        forall|s: int|
            0 <= s < r.symbol_tt@.len() ==> (#[trigger] r.symbol_tt@[s]).delta_nb_bits <= 65536
                * 13,
        r.built_from(norm@, table_log as nat),
{
    let ghost log = table_log as nat;
    let ghost symbols = spec_spread(norm@, log);
    proof {
        lemma2_to64();
        if log < 12 {
            lemma_pow2_strictly_increases(log, 12);
        }
        lemma_spread_symbols(norm@, log);
        lemma_dtable_wf(norm@, log, 255);
        assert(norm@.take(norm@.len() as int) =~= norm@);
        assert(norm@.take(0) =~= Seq::<i16>::empty());
    }
    let table_size: usize = pow2_u64(table_log) as usize;
    let table_symbol: Vec<u8> = spread_symbols(norm, table_log);

    // Where each symbol's states start, and its transform.
    let mut cumul: Vec<u32> = Vec::new();
    let mut symbol_tt: Vec<SymbolTransform> = Vec::new();
    let mut total: u32 = 0;
    let mut s: usize = 0;
    while s < norm.len()
        invariant
            s <= norm@.len(),
            valid_counts(norm@, log),
            log == table_log as nat,
            5 <= log <= 12,
            pow2(log) <= 4096,
            total == start_of(norm@, s as int),
            total <= pow2(log),
            cumul@.len() == s,
            symbol_tt@.len() == s,
            forall|i: int| 0 <= i < s ==> #[trigger] cumul@[i] == start_of(norm@, i),
            forall|i: int|
                0 <= i < s ==> transform_ok(
                    norm@[i],
                    log,
                    start_of(norm@, i),
                    #[trigger] symbol_tt@[i],
                ),
            forall|i: int|
                0 <= i < s ==> #[trigger] symbol_tt@[i] == spec_transform(
                    norm@[i],
                    log,
                    start_of(norm@, i),
                ),
            forall|i: int|
                0 <= i < s ==> (#[trigger] symbol_tt@[i]).delta_nb_bits <= 65536 * 13 && (norm@[i]
                    != 0 ==> symbol_tt@[i].delta_nb_bits != no_transform(log)),
        decreases norm@.len() - s,
    {
        proof {
            lemma_start_total(norm@, log, s as int);
            lemma_start_step(norm@, s as int);
        }
        let c: i16 = norm[s];
        cumul.push(total);
        symbol_tt.push(make_transform(c, table_log, total));
        total = total + (if c == -1 {
            1u32
        } else {
            c as u32
        });
        s = s + 1;
    }

    // The next-state table, in symbol order.
    let mut next_state: Vec<u16> = Vec::new();
    let mut i: usize = 0;
    while i < table_size
        invariant
            i <= table_size,
            next_state@.len() == i,
            forall|j: int| 0 <= j < i ==> #[trigger] next_state@[j] == 0,
        decreases table_size - i,
    {
        next_state.push(0);
        i = i + 1;
    }
    let ghost placed = spec_ctable(norm@, log).next_state;
    proof {
        reveal(spec_ctable);
        assert(next_state@ =~= Seq::new(pow2(log), |i: int| 0u16));
        assert(cumul@ =~= Seq::new(norm@.len(), |s: int| start_of(norm@, s) as u32));
        assert(symbol_tt@ =~= spec_ctable(norm@, log).tt);
    }
    let mut u: usize = 0;
    while u < table_size
        invariant
            placed == states_placed(symbols, cumul@, next_state@, u as nat),
            u <= table_size,
            table_size == pow2(log),
            table_size <= 4096,
            valid_counts(norm@, log),
            symbols == spec_spread(norm@, log),
            table_symbol@ == symbols,
            symbols.len() == table_size,
            next_state@.len() == table_size,
            cumul@.len() == norm@.len(),
            forall|v: int|
                0 <= v < table_size ==> (#[trigger] symbols[v]) < norm@.len() && norm@[symbols[v] as int]
                    != 0,
            forall|s: int|
                0 <= s < norm@.len() ==> #[trigger] cumul@[s] == start_of(norm@, s) + rank_before(
                    symbols,
                    s as u8,
                    u as nat,
                ),
            next_states_ok(norm@, log, next_state@, u as nat),
        decreases table_size - u,
    {
        let sym: u8 = table_symbol[u];
        let at: u32 = cumul[sym as usize];
        proof {
            reveal_with_fuel(states_placed, 1);
            lemma_start_total(norm@, log, sym as int);
            lemma_spread_counts(norm@, log, sym as int);
            lemma_rank_monotone(symbols, sym, (u + 1) as nat, table_size as nat);
            assert(rank_before(symbols, sym, (u + 1) as nat) == rank_before(symbols, sym, u as nat)
                + 1);
            assert forall|v: int| 0 <= v < u implies at != (start_of(
                norm@,
                #[trigger] symbols[v] as int,
            ) + rank_before(symbols, symbols[v], v as nat)) by {
                let other = symbols[v] as int;
                lemma_rank_monotone(symbols, symbols[v], (v + 1) as nat, u as nat);
                assert(rank_before(symbols, symbols[v], (v + 1) as nat) == rank_before(
                    symbols,
                    symbols[v],
                    v as nat,
                ) + 1);
                if other != sym {
                    lemma_spread_counts(norm@, log, other);
                    lemma_rank_monotone(symbols, symbols[v], u as nat, table_size as nat);
                    lemma_start_step(norm@, other);
                    lemma_start_step(norm@, sym as int);
                    if other < sym {
                        lemma_start_monotone(norm@, other + 1, sym as int);
                    } else {
                        lemma_start_monotone(norm@, sym + 1, other);
                    }
                }
            }
        }
        let ghost before = next_state@;
        next_state.set(at as usize, (table_size + u) as u16);
        cumul.set(sym as usize, at + 1);
        assert(next_states_ok(norm@, log, next_state@, (u + 1) as nat)) by {
            assert forall|v: int| 0 <= v < u + 1 implies next_state@[(start_of(
                norm@,
                #[trigger] symbols[v] as int,
            ) + rank_before(symbols, symbols[v], v as nat)) as int] == pow2(log) + v by {
                if v < u {
                    let j = (start_of(norm@, symbols[v] as int) + rank_before(
                        symbols,
                        symbols[v],
                        v as nat,
                    )) as int;
                    lemma_slot_bound(norm@, log, v);
                    assert(before[j] == pow2(log) + v);
                    assert(j != at);
                }
            }
        }
        u = u + 1;
    }
    proof {
        reveal_with_fuel(states_placed, 1);
    }
    let r = FseCTable {
        table_log,
        next_state,
        symbol_tt,
        dt: Ghost(spec_dtable(norm@, log)),
    };
    proof {
        assert forall|s: int| 0 <= s < norm@.len() implies (r.encodable(s) <==> #[trigger] norm@[s]
            != 0) by {
            assert(transform_ok(norm@[s], log, start_of(norm@, s), r.symbol_tt@[s]));
        }
        assert forall|s: int, x: nat| r.encodable(s) && r.size() <= x < 2
            * r.size() implies #[trigger] r.step_ok(s, x) by {
            assert(norm@[s] != 0);
            assert(transform_ok(norm@[s], log, start_of(norm@, s), r.symbol_tt@[s]));
            lemma_step(&r, norm@, log, s, x);
        }
        assert forall|s: int| #[trigger] r.encodable(s) implies r.start_ok(s) by {
            assert(norm@[s] != 0);
            assert(transform_ok(norm@[s], log, start_of(norm@, s), r.symbol_tt@[s]));
            lemma_pow2_pos(log);
            lemma_step(&r, norm@, log, s, pow2(log));
        }
        if forall|s: int| 0 <= s < norm@.len() ==> #[trigger] norm@[s] < pow2(log) {
            assert forall|s: int| #[trigger] r.encodable(s) implies r.decoder().nb(
                (r.next_state@[r.start_index(s)] - r.size()) as nat,
            ) >= 1 by {
                assert(norm@[s] != 0);
                assert(transform_ok(norm@[s], log, start_of(norm@, s), r.symbol_tt@[s]));
                lemma_pow2_pos(log);
                lemma_step(&r, norm@, log, s, pow2(log));
            }
        }
    }
    r
}

// ---------------------------------------------------------------------------
// Encoding.

/// The state that a stream ending in `symbol` starts from.
pub fn init_cstate2(ct: &FseCTable, symbol: usize) -> (r: u32)
    requires
        ct.wf(),
        ct.encodable(symbol as int),
    ensures
        ct.size() <= r < 2 * ct.size(),
        ct.decoder().symbol((r - ct.size()) as nat) == symbol,
        r == ct.next_state@[ct.start_index(symbol as int)],
        r == ct@.start(symbol as int),
{
    assert(ct.start_ok(symbol as int));
    if ct.table_log == 0 {
        return ct.next_state[0] as u32;
    }
    let stt: SymbolTransform = ct.symbol_tt[symbol];
    let nb_bits_out: u32 = (stt.delta_nb_bits + 32768) / 65536;
    let value: i64 = nb_bits_out as i64 * 65536 - stt.delta_nb_bits as i64;
    let p: u64 = pow2_u64(nb_bits_out);
    proof {
        lemma2_to64();
        if nb_bits_out < 14 {
            lemma_pow2_strictly_increases(nb_bits_out as nat, 14);
        }
    }
    let shifted: i64 = value / p as i64;
    proof {
        assert(value as int / p as int >= 0) by (nonlinear_arith)
            requires
                value >= 0,
                p > 0,
        ;
        assert(value as int / p as int <= value) by (nonlinear_arith)
            requires
                value >= 0,
                p > 0,
        ;
    }
    let idx: i64 = shifted + stt.delta_find_state as i64;
    ct.next_state[idx as usize] as u32
}

/// Emits the bits of `symbol` and advances the state.
pub fn encode_symbol(bitc: &mut BitCStream, ct: &FseCTable, state: &mut u32, symbol: usize)
    requires
        old(bitc).wf(),
        ct.wf(),
        ct.encodable(symbol as int),
        ct.size() <= *old(state) < 2 * ct.size(),
    ensures
        final(bitc).wf(),
        final(bitc).bits() == append_field(
            old(bitc).bits(),
            *old(state) as nat,
            ct.nb_out(symbol as int, *old(state) as nat),
        ),
        *final(state) == ct.next(symbol as int, *old(state) as nat),
        ct.size() <= *final(state) < 2 * ct.size(),
{
    proof {
        assert(ct.step_ok(symbol as int, *state as nat));
        lemma2_to64();
        if ct.table_log < 12 {
            lemma_pow2_strictly_increases(ct.table_log as nat, 12);
        }
    }
    let stt: SymbolTransform = ct.symbol_tt[symbol];
    let nb_bits_out: u32 = (*state + stt.delta_nb_bits) / 65536;
    bitc.add_bits(*state as u64, nb_bits_out);
    let p: u64 = pow2_u64(nb_bits_out);
    let idx: i64 = (*state as u64 / p) as i64 + stt.delta_find_state as i64;
    *state = ct.next_state[idx as usize] as u32;
}

/// Writes the final state.
pub fn flush_cstate(bitc: &mut BitCStream, ct: &FseCTable, state: u32)
    requires
        old(bitc).wf(),
        ct.wf(),
    ensures
        final(bitc).wf(),
        final(bitc).bits() == append_field(
            old(bitc).bits(),
            state as nat,
            ct.table_log as nat,
        ),
{
    bitc.add_bits(state as u64, ct.table_log);
}

/// Decoding takes an encoded symbol off the stream again: the new state shows
/// the symbol, and the bits lead back to the state before.
pub proof fn lemma_decode_step(ct: &FseCTable, s: int, x: nat, data: Seq<u8>, b: Bits)
    requires
        ct.wf(),
        ct.encodable(s),
        ct.size() <= x < 2 * ct.size(),
        b.num < pow2(b.len),
        stream_holds(data, append_field(b, x, ct.nb_out(s, x))),
    ensures
        ({
            let t = ct.decoder();
            let nb = ct.nb_out(s, x);
            let y = (ct.next(s, x) - ct.size()) as nat;
            &&& y < ct.size()
            &&& t.symbol(y) == s
            &&& t.nb(y) == nb
            &&& t.next(y, data, (b.len + nb) as int) == x - ct.size()
            &&& stream_holds(data, b)
        }),
{
    assert(ct.step_ok(s, x));
    lemma_take_field(data, b, x, ct.nb_out(s, x));
}

/// Decoding takes a flushed state off the stream again.
pub proof fn lemma_decode_state(ct: &FseCTable, x: nat, data: Seq<u8>, b: Bits)
    requires
        ct.wf(),
        ct.size() <= x < 2 * ct.size(),
        b.num < pow2(b.len),
        stream_holds(data, append_field(b, x, ct.table_log as nat)),
    ensures
        rev_peek(data, (b.len + ct.table_log) as int, ct.table_log as nat) == x - ct.size(),
        stream_holds(data, b),
{
    lemma_take_field(data, b, x, ct.table_log as nat);
    lemma_fundamental_div_mod_converse(x as int, ct.size() as int, 1, x - ct.size());
}

impl FseCTable {
    /// What is known of the table of a distribution: it drains unless one
    /// symbol has all the states.
    pub open spec fn built_from(&self, norm: Seq<i16>, log: nat) -> bool {
        &&& self.wf()
        &&& self@ == spec_ctable(norm, log)
        &&& self.decoder() == spec_dtable(norm, log)
        &&& forall|s: int| 0 <= s < norm.len() ==> (self.encodable(s) <==> #[trigger] norm[s] != 0)
        &&& (forall|s: int| 0 <= s < norm.len() ==> #[trigger] norm[s] < pow2(log)) ==> self.drains()
    }

    /// No first state can be left without reading a bit.
    pub open spec fn drains(&self) -> bool {
        forall|s: int| #[trigger]
            self.encodable(s) ==> self.decoder().nb(
                (self.next_state@[self.start_index(s)] - self.size()) as nat,
            ) >= 1
    }
}

/// From the two states on, the decoder yields `rest` and is then out of bits.
pub open spec fn yields(ct: &FseCTable, b: Bits, first: u32, second: u32, rest: Seq<u8>) -> bool {
    forall|data: Seq<u8>, out: Seq<u8>, max_out: nat|
        stream_holds(data, b) && out.len() + rest.len() <= max_out ==> #[trigger] interleaved(
            ct.decoder(),
            data,
            b.len as int,
            (first - ct.size()) as nat,
            (second - ct.size()) as nat,
            out,
            max_out,
        ) == Ok::<Seq<u8>, crate::error::Error>(out + rest)
}

proof fn lemma_yields_step(ct: &FseCTable, b: Bits, s: u8, x: u32, y: u32, other: u32, rest: Seq<u8>)
    requires
        ct.wf(),
        ct.encodable(s as int),
        ct.size() <= x < 2 * ct.size(),
        y == ct.next(s as int, x as nat),
        b.num < pow2(b.len),
        yields(ct, b, other, x, rest),
        rest.len() >= 2,
    ensures
        yields(ct, append_field(b, x as nat, ct.nb_out(s as int, x as nat)), y, other, seq![s] + rest),
{
    let nb = ct.nb_out(s as int, x as nat);
    let b1 = append_field(b, x as nat, nb);
    let all = seq![s] + rest;
    assert forall|data: Seq<u8>, out: Seq<u8>, max_out: nat|
        stream_holds(data, b1) && out.len() + all.len()
            <= max_out implies #[trigger] interleaved(
        ct.decoder(),
        data,
        b1.len as int,
        (y - ct.size()) as nat,
        (other - ct.size()) as nat,
        out,
        max_out,
    ) == Ok::<Seq<u8>, crate::error::Error>(out + all) by {
        lemma_decode_step(ct, s as int, x as nat, data, b);
        let out1 = out.push(s);
        assert(out1 + rest =~= out + all);
        assert(interleaved(
            ct.decoder(),
            data,
            b.len as int,
            (other - ct.size()) as nat,
            (x - ct.size()) as nat,
            out1,
            max_out,
        ) == Ok::<Seq<u8>, crate::error::Error>(out1 + rest));
    }
}

/// Encodes `src` with two interleaved states.
#[verifier::rlimit(30)]
pub fn fse_compress_using_ctable(ct: &FseCTable, src: &[u8]) -> (r: Vec<u8>)
    requires
        ct.wf(),
        ct.drains(),
        src@.len() >= 2,
        forall|i: int| 0 <= i < src@.len() ==> ct.encodable(#[trigger] src@[i] as int),
    ensures
        forall|max_out: nat|
            max_out >= src@.len() ==> #[trigger] spec_decode_interleaved(ct.decoder(), r@, max_out)
                == Ok::<Seq<u8>, crate::error::Error>(src@),
        r@ == spec_fse_compress(ct@, src@),
{
    let n: usize = src.len();
    let mut bitc = BitCStream::new();
    let mut ip: usize = n - 2;
    let last: u32 = init_cstate2(ct, src[n - 1] as usize);
    let before: u32 = init_cstate2(ct, src[n - 2] as usize);
    // The state that yields the symbol at `ip`, and the one after it.
    let mut cur: u32 = before;
    let mut next: u32 = last;
    let ghost all = interleaved_bits(
        ct@,
        src@,
        ip as nat,
        bitc.bits(),
        cur as nat,
        next as nat,
    );
    proof {
        reveal(spec_fse_compress);
        lemma2_to64();
        let rest = src@.subrange(ip as int, n as int);
        let b = bitc.bits();
        assert forall|data: Seq<u8>, out: Seq<u8>, max_out: nat|
            stream_holds(data, b) && out.len() + rest.len()
                <= max_out implies #[trigger] interleaved(
            ct.decoder(),
            data,
            b.len as int,
            (cur - ct.size()) as nat,
            (next - ct.size()) as nat,
            out,
            max_out,
        ) == Ok::<Seq<u8>, crate::error::Error>(out + rest) by {
            assert(ct.encodable(src@[n - 2] as int));
            assert(out.push(src@[n - 2]).push(src@[n - 1]) =~= out + rest);
        }
    }
    while ip > 0
        invariant
            n == src@.len(),
            ip <= n - 2,
            ct.wf(),
            forall|i: int| 0 <= i < src@.len() ==> ct.encodable(#[trigger] src@[i] as int),
            bitc.wf(),
            ct.size() <= cur < 2 * ct.size(),
            ct.size() <= next < 2 * ct.size(),
            yields(ct, bitc.bits(), cur, next, src@.subrange(ip as int, n as int)),
            all == interleaved_bits(
                ct@,
                src@,
                ip as nat,
                bitc.bits(),
                cur as nat,
                next as nat,
            ),
        decreases ip,
    {
        proof {
            reveal_with_fuel(interleaved_bits, 1);
        }
        let ghost rest = src@.subrange(ip as int, n as int);
        let ghost b = bitc.bits();
        proof {
            bitc.lemma_bits_bound();
        }
        ip = ip - 1;
        let mut s: u32 = next;
        encode_symbol(&mut bitc, ct, &mut s, src[ip] as usize);
        proof {
            lemma_yields_step(ct, b, src@[ip as int], next, s, cur, rest);
            assert(seq![src@[ip as int]] + rest =~= src@.subrange(ip as int, n as int));
        }
        next = cur;
        cur = s;
    }
    let ghost b0 = bitc.bits();
    proof {
        reveal_with_fuel(interleaved_bits, 1);
        bitc.lemma_bits_bound();
    }
    flush_cstate(&mut bitc, ct, next);
    let ghost b1 = bitc.bits();
    proof {
        bitc.lemma_bits_bound();
    }
    flush_cstate(&mut bitc, ct, cur);
    let ghost b2 = bitc.bits();
    let out: Vec<u8> = bitc.close();
    proof {
        lemma_open_closed(b2, out@);
        lemma_decode_state(ct, cur as nat, out@, b1);
        lemma_decode_state(ct, next as nat, out@, b0);
        assert(src@.subrange(0, n as int) =~= src@);
        assert forall|max_out: nat| max_out >= src@.len() implies #[trigger] spec_decode_interleaved(
            ct.decoder(),
            out@,
            max_out,
        ) == Ok::<Seq<u8>, crate::error::Error>(src@) by {
            assert(Seq::<u8>::empty() + src@ =~= src@);
            assert(interleaved(
                ct.decoder(),
                out@,
                b0.len as int,
                (cur - ct.size()) as nat,
                (next - ct.size()) as nat,
                Seq::empty(),
                max_out,
            ) == Ok::<Seq<u8>, crate::error::Error>(Seq::<u8>::empty() + src@));
        }
    }
    out
}

} // verus!
