//! Finite State Entropy decoding: table descriptions, decoding tables and
//! the interleaved two-state decoder.

use crate::bits::{
    highbit32, highest_bit, lemma_highest_bit_bound, payload_bits, rev_open_error, rev_peek, ForwardBitReader,
    ReverseBitReader,
};
use crate::error::Error;
use crate::math::{bits_at, lemma_bits_at_bound, pow2_u64};
use crate::spread::{lemma_spread_symbols, rank_before, spec_spread, spread_symbols};
use vstd::arithmetic::power2::{
    lemma2_to64, lemma_pow2_adds, lemma_pow2_pos, lemma_pow2_strictly_increases, lemma_pow2_unfold, pow2,
};
use vstd::prelude::*;

verus! {

/// One state of a decoding table: the symbol it stands for, and the next
/// state as `base` plus the next `nb_bits` bits.
#[derive(Clone, Copy, Debug)]
pub struct FseEntry {
    pub symbol: u8,
    pub nb_bits: u8,
    pub base: u16,
}

/// A decoding table: `2^table_log` states.
#[derive(Debug)]
pub struct FseTable {
    pub table_log: u32,
    pub entries: Vec<FseEntry>,
}

/// The mathematical content of an [`FseTable`].
pub struct FseTableView {
    pub log: nat,
    pub entries: Seq<FseEntry>,
}

impl View for FseTable {
    type V = FseTableView;

    open spec fn view(&self) -> FseTableView {
        FseTableView { log: self.table_log as nat, entries: self.entries@ }
    }
}

impl FseTableView {
    /// Every state leads to states of the table.
    pub open spec fn wf(self) -> bool {
        &&& self.log <= 14
        &&& self.entries.len() == pow2(self.log)
        &&& forall|u: int|
            0 <= u < self.entries.len() ==> {
                let e = #[trigger] self.entries[u];
                &&& e.nb_bits <= self.log
                &&& e.base + pow2(e.nb_bits as nat) <= pow2(self.log)
            }
    }

    /// No symbol is above `max_symbol`.
    pub open spec fn bounded(self, max_symbol: nat) -> bool {
        forall|u: int|
            0 <= u < self.entries.len() ==> (#[trigger] self.entries[u]).symbol <= max_symbol
    }

    /// The symbol of state `state`.
    pub open spec fn symbol(self, state: nat) -> u8 {
        self.entries[state as int].symbol
    }

    /// The number of bits that leaving state `state` takes.
    pub open spec fn nb(self, state: nat) -> nat {
        self.entries[state as int].nb_bits as nat
    }

    /// The state that follows `state` when `rem` bits of `data` are left.
    pub open spec fn next(self, state: nat, data: Seq<u8>, rem: int) -> nat {
        self.entries[state as int].base as nat + rev_peek(data, rem, self.nb(state))
    }
}

pub open spec fn opt_view(t: Option<FseTable>) -> Option<FseTableView> {
    match t {
        Some(x) => Some(x@),
        None => None,
    }
}

/// The one-entry table that always yields `symbol`.
pub open spec fn rle_view(symbol: u8) -> FseTableView {
    FseTableView { log: 0, entries: seq![FseEntry { symbol, nb_bits: 0, base: 0 }] }
}

impl FseTable {
    /// One-entry table that always yields `symbol` and consumes no bits.
    pub fn rle(symbol: u8) -> (r: Self)
        ensures
            r@ == rle_view(symbol),
            r@.wf(),
            forall|m: nat| symbol <= m ==> #[trigger] r@.bounded(m),
    {
        proof {
            lemma2_to64();
        }
        let mut entries: Vec<FseEntry> = Vec::new();
        entries.push(FseEntry { symbol, nb_bits: 0, base: 0 });
        let r = FseTable { table_log: 0, entries };
        assert(r@.entries =~= rle_view(symbol).entries);
        r
    }

    /// A copy of the table.
    pub fn duplicate(&self) -> (r: Self)
        ensures
            r@ == self@,
    {
        let mut entries: Vec<FseEntry> = Vec::new();
        let mut i: usize = 0;
        while i < self.entries.len()
            invariant
                i <= self.entries@.len(),
                entries@ == self.entries@.take(i as int),
            decreases self.entries@.len() - i,
        {
            entries.push(self.entries[i]);
            assert(self.entries@.take(i + 1) =~= self.entries@.take(i as int).push(self.entries@[i as int]));
            i = i + 1;
        }
        assert(self.entries@.take(self.entries@.len() as int) =~= self.entries@);
        FseTable { table_log: self.table_log, entries }
    }
}

// ---------------------------------------------------------------------------
// Table descriptions.

/// A decoded normalized-count table description.
pub struct NCount {
    pub counts: Vec<i16>,
    pub table_log: u32,
    pub bytes_consumed: usize,
}

/// What a table description says: the counts, the table log and the number of
/// bytes that it occupies.
pub struct NCountView {
    pub counts: Seq<i16>,
    pub log: nat,
    pub bytes: nat,
}

impl View for NCount {
    type V = NCountView;

    open spec fn view(&self) -> NCountView {
        NCountView {
            counts: self.counts@,
            log: self.table_log as nat,
            bytes: self.bytes_consumed as nat,
        }
    }
}

pub open spec fn abs16(c: i16) -> nat {
    if c < 0 {
        (-c) as nat
    } else {
        c as nat
    }
}

/// Number of states that the counts ask for.
pub open spec fn sum_abs(counts: Seq<i16>) -> nat
    decreases counts.len(),
{
    if counts.len() == 0 {
        0
    } else {
        sum_abs(counts.drop_last()) + abs16(counts.last())
    }
}

/// Counts that fill a table of `2^log` states exactly; `-1` stands for a
/// probability below one, which still takes a state.
pub open spec fn valid_counts(counts: Seq<i16>, log: nat) -> bool {
    &&& 1 <= counts.len() <= 256
    &&& 5 <= log <= 14
    &&& forall|i: int| 0 <= i < counts.len() ==> #[trigger] counts[i] >= -1
    &&& sum_abs(counts) == pow2(log)
}

pub open spec fn zeros16(n: nat) -> Seq<i16> {
    Seq::new(n, |i: int| 0i16)
}

/// The zero-count run at bit `bit`: two-bit flags, where 3 adds three zero
/// counts and continues and a smaller value adds that many and ends the run.
pub open spec fn zero_run(src: Seq<u8>, bit: nat, counts: Seq<i16>, max_symbol: nat) -> Result<
    (Seq<i16>, nat),
    Error,
>
    decreases max_symbol + 4 - counts.len(),
{
    let flag = bits_at(src, bit, 2);
    let more = counts + zeros16(flag);
    if more.len() > max_symbol + 1 {
        Err(Error::Corrupted("FSE table describes too many symbols"))
    } else if flag == 3 {
        zero_run(src, bit + 2, more, max_symbol)
    } else {
        Ok((more, bit + 2))
    }
}

/// The value of a count field of at most `nb` bits when `remaining` is left to
/// distribute, and the bits it takes: values below `2^nb - 1 - remaining` fit
/// in `nb - 1` bits.
pub open spec fn count_field(src: Seq<u8>, bit: nat, nb: nat, remaining: int) -> (int, nat) {
    let threshold = pow2((nb - 1) as nat) as int;
    let max = 2 * threshold - 1 - remaining;
    let low = bits_at(src, bit, (nb - 1) as nat) as int;
    if low < max {
        (low, (nb - 1) as nat)
    } else {
        let v = bits_at(src, bit, nb) as int;
        (if v >= threshold {
            v - max
        } else {
            v
        }, nb)
    }
}

/// The field width after `remaining` has shrunk.
pub open spec fn shrink_bits(nb: nat, remaining: int) -> nat
    decreases nb,
{
    if nb > 1 && remaining < pow2((nb - 1) as nat) {
        shrink_bits((nb - 1) as nat, remaining)
    } else {
        nb
    }
}

pub open spec fn abs_int(x: int) -> int {
    if x < 0 {
        -x
    } else {
        x
    }
}

/// The counts described from bit `bit` on, and the bit position after them.
/// `remaining` is one more than what is left to distribute.
pub open spec fn ncount_from(
    src: Seq<u8>,
    bit: nat,
    remaining: int,
    nb: nat,
    counts: Seq<i16>,
    previous0: bool,
    max_symbol: nat,
) -> Result<(Seq<i16>, nat), Error>
    decreases max_symbol + 1 - counts.len(),
{
    if remaining <= 1 {
        Ok((counts, bit))
    } else {
        let run = if previous0 {
            zero_run(src, bit, counts, max_symbol)
        } else {
            Ok((counts, bit))
        };
        match run {
            Err(e) => Err(e),
            Ok((counts1, bit1)) => {
                if counts1.len() > max_symbol {
                    Err(Error::Corrupted("FSE table describes too many symbols"))
                } else if counts1.len() < counts.len() {
                    Ok((counts, bit))
                } else {
                    let (value, used) = count_field(src, bit1, nb, remaining);
                    let left = remaining - abs_int(value - 1);
                    if left < 1 {
                        Err(Error::Corrupted("FSE counts exceed table size"))
                    } else {
                        ncount_from(
                            src,
                            bit1 + used,
                            left,
                            shrink_bits(nb, left),
                            counts1.push((value - 1) as i16),
                            value == 1,
                            max_symbol,
                        )
                    }
                }
            },
        }
    }
}

/// What `src` describes at its start, where tables of more than
/// `2^max_table_log` states or with symbols above `max_symbol` are refused.
pub open spec fn spec_read_ncount(src: Seq<u8>, max_symbol: nat, max_table_log: nat) -> Result<
    NCountView,
    Error,
> {
    let log = bits_at(src, 0, 4) + 5;
    if log > max_table_log {
        Err(Error::Corrupted("FSE accuracy log too large"))
    } else {
        match ncount_from(
            src,
            4,
            pow2(log) as int + 1,
            log + 1,
            Seq::empty(),
            false,
            max_symbol,
        ) {
            Err(e) => Err(e),
            Ok((counts, bit)) => {
                if (bit + 7) / 8 > src.len() {
                    Err(Error::SrcSizeWrong)
                } else {
                    Ok(NCountView { counts, log, bytes: (bit + 7) / 8 })
                }
            },
        }
    }
}

proof fn lemma_sum_abs_push(counts: Seq<i16>, c: i16)
    ensures
        sum_abs(counts.push(c)) == sum_abs(counts) + abs16(c),
{
    assert(counts.push(c).drop_last() =~= counts);
}

proof fn lemma_sum_abs_zeros(counts: Seq<i16>, n: nat)
    ensures
        sum_abs(counts + zeros16(n)) == sum_abs(counts),
    decreases n,
{
    if n == 0 {
        assert(counts + zeros16(0) =~= counts);
    } else {
        lemma_sum_abs_zeros(counts, (n - 1) as nat);
        assert((counts + zeros16(n)).drop_last() =~= counts + zeros16((n - 1) as nat));
    }
}

/// Reads the zero-count run at the reader's position.
#[verifier::rlimit(30)]
fn read_zero_run(br: &mut ForwardBitReader<'_>, counts: &mut Vec<i16>, max_symbol: u32) -> (r: Result<
    (),
    Error,
>)
    requires
        max_symbol <= 255,
        old(counts)@.len() <= max_symbol + 1,
        old(br).bit_pos <= 30 * old(counts)@.len() + 4,
        forall|i: int| 0 <= i < old(counts)@.len() ==> #[trigger] old(counts)@[i] >= -1,
    ensures
        final(br).data@ == old(br).data@,
        match r {
            Ok(_) => {
                &&& zero_run(
                    old(br).data@,
                    old(br).bit_pos as nat,
                    old(counts)@,
                    max_symbol as nat,
                ) == Ok::<(Seq<i16>, nat), Error>((final(counts)@, final(br).bit_pos as nat))
                &&& final(counts)@.len() <= max_symbol + 1
                &&& final(counts)@.len() >= old(counts)@.len()
                &&& final(br).bit_pos <= 30 * final(counts)@.len() + 6
                &&& sum_abs(final(counts)@) == sum_abs(old(counts)@)
                &&& forall|i: int|
                    0 <= i < final(counts)@.len() ==> #[trigger] final(counts)@[i] >= -1
            },
            Err(e) => zero_run(
                old(br).data@,
                old(br).bit_pos as nat,
                old(counts)@,
                max_symbol as nat,
            ) == Err::<(Seq<i16>, nat), Error>(e),
        },
{
    let ghost goal = zero_run(br.data@, br.bit_pos as nat, counts@, max_symbol as nat);
    loop
        invariant
            max_symbol <= 255,
            br.data@ == old(br).data@,
            counts@.len() <= max_symbol + 1,
            counts@.len() >= old(counts)@.len(),
            br.bit_pos <= 30 * counts@.len() + 4,
            sum_abs(counts@) == sum_abs(old(counts)@),
            forall|i: int| 0 <= i < counts@.len() ==> #[trigger] counts@[i] >= -1,
            goal == zero_run(
                old(br).data@,
                old(br).bit_pos as nat,
                old(counts)@,
                max_symbol as nat,
            ),
            goal == zero_run(br.data@, br.bit_pos as nat, counts@, max_symbol as nat),
        decreases max_symbol + 4 - counts@.len(),
    {
        let ghost before = counts@;
        proof {
            lemma_bits_at_bound(br.data@, br.bit_pos as nat, 2);
            lemma2_to64();
        }
        let flag: u32 = br.read(2);
        let mut k: u32 = 0;
        assert(before + zeros16(0) =~= before);
        while k < flag
            invariant
                k <= flag,
                flag <= 3,
                counts@ == before + zeros16(k as nat),
            decreases flag - k,
        {
            counts.push(0);
            assert(counts@ =~= before + zeros16((k + 1) as nat));
            k = k + 1;
        }
        proof {
            lemma_sum_abs_zeros(before, flag as nat);
            assert forall|i: int| 0 <= i < counts@.len() implies #[trigger] counts@[i] >= -1 by {
                if i < before.len() {
                    assert(counts@[i] == before[i]);
                }
            }
        }
        if counts.len() > max_symbol as usize + 1 {
            return Err(Error::Corrupted("FSE table describes too many symbols"));
        }
        if flag != 3 {
            return Ok(());
        }
    }
}

/// Reads a table description from the start of `src`.
#[verifier::rlimit(30)]
pub fn read_ncount(src: &[u8], max_symbol: u32, max_table_log: u32) -> (r: Result<NCount, Error>)
    requires
        max_symbol <= 255,
        max_table_log <= 14,
    ensures
        match r {
            Ok(nc) => {
                &&& spec_read_ncount(src@, max_symbol as nat, max_table_log as nat) == Ok::<
                    NCountView,
                    Error,
                >(nc@)
                &&& valid_counts(nc.counts@, nc.table_log as nat)
                &&& nc.counts@.len() <= max_symbol + 1
                &&& nc.table_log <= max_table_log
                &&& nc.bytes_consumed <= src@.len()
            },
            Err(e) => spec_read_ncount(src@, max_symbol as nat, max_table_log as nat) == Err::<
                NCountView,
                Error,
            >(e),
        },
{
    let mut br = ForwardBitReader::new(src);
    proof {
        lemma2_to64();
        lemma_bits_at_bound(src@, 0, 4);
    }
    let table_log: u32 = br.read(4) + 5;
    if table_log > max_table_log {
        return Err(Error::Corrupted("FSE accuracy log too large"));
    }
    let table_size: i32 = pow2_u64(table_log) as i32;
    proof {
        if table_log < 14 {
            lemma_pow2_strictly_increases(table_log as nat, 14);
        }
        lemma_pow2_strictly_increases(4, table_log as nat);
    }
    let mut remaining: i32 = table_size + 1;
    let mut nb_bits: u32 = table_log + 1;
    let mut threshold: i32 = table_size;
    let mut counts: Vec<i16> = Vec::new();
    let mut previous0: bool = false;
    let ghost goal = ncount_from(
        src@,
        4,
        pow2(table_log as nat) as int + 1,
        (table_log + 1) as nat,
        Seq::empty(),
        false,
        max_symbol as nat,
    );
    assert(counts@ =~= Seq::<i16>::empty());

    while remaining > 1
        invariant
            max_symbol <= 255,
            br.data@ == src@,
            table_log <= 14,
            table_log == bits_at(src@, 0, 4) + 5,
            table_log <= max_table_log,
            goal == ncount_from(
                src@,
                4,
                pow2(table_log as nat) as int + 1,
                (table_log + 1) as nat,
                Seq::empty(),
                false,
                max_symbol as nat,
            ),
            table_size == pow2(table_log as nat),
            table_size <= 16384,
            1 <= nb_bits <= table_log + 1,
            threshold == pow2((nb_bits - 1) as nat),
            threshold <= remaining <= table_size + 1,
            1 <= remaining,
            remaining > 1 ==> remaining < 2 * threshold,
            counts@.len() <= max_symbol + 1,
            br.bit_pos <= 30 * counts@.len() + 4,
            sum_abs(counts@) + remaining == table_size + 1,
            forall|i: int| 0 <= i < counts@.len() ==> #[trigger] counts@[i] >= -1,
            goal == ncount_from(
                src@,
                br.bit_pos as nat,
                remaining as int,
                nb_bits as nat,
                counts@,
                previous0,
                max_symbol as nat,
            ),
        decreases max_symbol + 1 - counts@.len(),
    {
        if previous0 {
            match read_zero_run(&mut br, &mut counts, max_symbol) {
                Ok(_) => {},
                Err(e) => {
                    assert(goal == Err::<(Seq<i16>, nat), Error>(e));
                    return Err(e);
                },
            }
        }
        let ghost counts1 = counts@;
        let ghost bit1 = br.bit_pos as nat;
        if counts.len() > max_symbol as usize {
            return Err(Error::Corrupted("FSE table describes too many symbols"));
        }
        let max: i32 = (2 * threshold - 1) - remaining;
        proof {
            lemma_bits_at_bound(src@, bit1, (nb_bits - 1) as nat);
            lemma_bits_at_bound(src@, bit1, nb_bits as nat);
            lemma_pow2_unfold(nb_bits as nat);
        }
        let low: i32 = br.peek(nb_bits - 1) as i32;
        let mut count: i32 = low;
        if low < max {
            br.consume(nb_bits - 1);
        } else {
            let v: i32 = br.peek(nb_bits) as i32;
            count = if v >= threshold {
                v - max
            } else {
                v
            };
            br.consume(nb_bits);
        }
        proof {
            let (value, used) = count_field(src@, bit1, nb_bits as nat, remaining as int);
            assert(count == value);
            assert(br.bit_pos == bit1 + used);
            assert(0 <= count <= remaining);
            lemma_sum_abs_push(counts1, (count - 1) as i16);
        }
        count = count - 1;
        let used_up: i32 = if count < 0 {
            -count
        } else {
            count
        };
        remaining = remaining - used_up;
        counts.push(count as i16);
        previous0 = count == 0;
        if remaining < 1 {
            return Err(Error::Corrupted("FSE counts exceed table size"));
        }
        let ghost nb0 = nb_bits as nat;
        while remaining < threshold && threshold > 1
            invariant
                1 <= nb_bits <= table_log + 1,
                table_log <= 14,
                threshold == pow2((nb_bits - 1) as nat),
                1 <= remaining,
                remaining < 2 * threshold,
                shrink_bits(nb0, remaining as int) == shrink_bits(nb_bits as nat, remaining as int),
            decreases nb_bits,
        {
            proof {
                lemma2_to64();
                if nb_bits == 1 {
                    assert(false);
                }
                lemma_pow2_unfold((nb_bits - 1) as nat);
            }
            nb_bits = nb_bits - 1;
            threshold = threshold / 2;
        }
        proof {
            lemma2_to64();
            if nb_bits > 1 {
                lemma_pow2_strictly_increases(0, (nb_bits - 1) as nat);
            }
            assert(shrink_bits(nb0, remaining as int) == nb_bits);
        }
    }
    let bytes: usize = (br.bits_consumed() + 7) / 8;
    if bytes > src.len() {
        return Err(Error::SrcSizeWrong);
    }
    Ok(NCount { counts, table_log, bytes_consumed: bytes })
}

// ---------------------------------------------------------------------------
// Decoding tables.

/// State `u` of the decoding table: with `x` the symbol's count plus the rank
/// of the state among the symbol's states, the next state is `x` scaled up to
/// the table size by the bits read.
pub open spec fn dtable_entry(counts: Seq<i16>, log: nat, symbols: Seq<u8>, u: nat) -> FseEntry {
    let s = symbols[u as int];
    let x = abs16(counts[s as int]) + rank_before(symbols, s, u);
    let nb = (log - highest_bit(x)) as nat;
    FseEntry { symbol: s, nb_bits: nb as u8, base: (x * pow2(nb) - pow2(log)) as u16 }
}

/// The decoding table for `counts`.
pub open spec fn spec_dtable(counts: Seq<i16>, log: nat) -> FseTableView {
    let symbols = spec_spread(counts, log);
    FseTableView {
        log,
        entries: Seq::new(pow2(log), |u: int| dtable_entry(counts, log, symbols, u as nat)),
    }
}

proof fn lemma_rank_bound(symbols: Seq<u8>, symbol: u8, u: nat)
    ensures
        rank_before(symbols, symbol, u) <= u,
    decreases u,
{
    if u > 0 {
        lemma_rank_bound(symbols, symbol, (u - 1) as nat);
    }
}

/// Scaling `x` below `2^(log+1)` up to `2^log .. 2^(log+1)`.
pub proof fn lemma_scale(x: nat, log: nat)
    requires
        1 <= x < pow2(log + 1),
    ensures
        highest_bit(x) <= log,
        pow2(log) <= x * pow2((log - highest_bit(x)) as nat),
        (x + 1) * pow2((log - highest_bit(x)) as nat) <= pow2(log + 1),
{
    lemma_highest_bit_bound(x, log + 1);
    let h = highest_bit(x);
    let nb = (log - h) as nat;
    lemma_pow2_adds(h, nb);
    lemma_pow2_adds(h + 1, nb);
    lemma_pow2_unfold(h + 1);
    let p = pow2(nb);
    let q = pow2(h);
    assert(q * p <= x * p) by (nonlinear_arith)
        requires
            q <= x,
    ;
    assert((x + 1) * p <= (2 * q) * p) by (nonlinear_arith)
        requires
            x + 1 <= 2 * q,
    ;
}

proof fn lemma_abs_le_sum(counts: Seq<i16>, i: int)
    requires
        0 <= i < counts.len(),
    ensures
        abs16(counts[i]) <= sum_abs(counts),
    decreases counts.len(),
{
    if i < counts.len() - 1 {
        lemma_abs_le_sum(counts.drop_last(), i);
    }
}

proof fn lemma_dtable_entry(counts: Seq<i16>, log: nat, u: nat)
    requires
        valid_counts(counts, log),
        u < pow2(log),
    ensures
        ({
            let symbols = spec_spread(counts, log);
            let s = symbols[u as int];
            let x = abs16(counts[s as int]) + rank_before(symbols, s, u);
            let e = dtable_entry(counts, log, symbols, u);
            let nb = (log - highest_bit(x)) as nat;
            &&& s < counts.len()
            &&& 1 <= x < pow2(log + 1)
            &&& highest_bit(x) <= log
            &&& e.nb_bits == nb
            &&& e.base == x * pow2(nb) - pow2(log)
            &&& e.base + pow2(nb) <= pow2(log)
            &&& pow2(log) <= x * pow2(nb) < pow2(log + 1)
        }),
{
    let symbols = spec_spread(counts, log);
    lemma_spread_symbols(counts, log);
    let s = symbols[u as int];
    lemma_abs_le_sum(counts, s as int);
    lemma_rank_bound(symbols, s, u);
    lemma_pow2_unfold(log + 1);
    let x = abs16(counts[s as int]) + rank_before(symbols, s, u);
    lemma_scale(x, log);
    let nb = (log - highest_bit(x)) as nat;
    lemma_pow2_pos(nb);
    lemma2_to64();
    if log < 14 {
        lemma_pow2_strictly_increases(log, 14);
    }
    assert((x + 1) * pow2(nb) == x * pow2(nb) + pow2(nb)) by (nonlinear_arith);
}

/// The decoding table for valid counts is well formed.
pub proof fn lemma_dtable_wf(counts: Seq<i16>, log: nat, max_symbol: nat)
    requires
        valid_counts(counts, log),
        counts.len() <= max_symbol + 1,
    ensures
        spec_dtable(counts, log).wf(),
        spec_dtable(counts, log).bounded(max_symbol),
{
    let t = spec_dtable(counts, log);
    assert forall|u: int| 0 <= u < t.entries.len() implies {
        let e = #[trigger] t.entries[u];
        &&& e.nb_bits <= t.log
        &&& e.base + pow2(e.nb_bits as nat) <= pow2(t.log)
        &&& e.symbol <= max_symbol
    } by {
        lemma_dtable_entry(counts, log, u as nat);
    }
}

/// How many counts are below one.
pub open spec fn rare_count(counts: Seq<i16>) -> nat
    decreases counts.len(),
{
    if counts.len() == 0 {
        0
    } else {
        rare_count(counts.drop_last()) + if counts.last() == -1 {
            1nat
        } else {
            0
        }
    }
}

/// Counts for which a table of `2^log` states is filled, or which are seen not
/// to fill it: those below one need more states than there are, or spreading
/// the others over the states that are left does not end where it began.
pub open spec fn counts_decidable(counts: Seq<i16>, log: nat) -> bool {
    let rare = rare_count(counts);
    let left = pow2(log) - rare;
    &&& 1 <= counts.len() <= 256
    &&& 5 <= log <= 14
    &&& forall|i: int| 0 <= i < counts.len() ==> #[trigger] counts[i] >= -1
    &&& {
        ||| sum_abs(counts) == pow2(log)
        ||| left < 0
        ||| left > 0 && (sum_abs(counts) - rare) % left != 0
    }
}

/// Builds the decoding table for `counts`, or says why they do not fill it.
pub fn build_dtable(counts: &[i16], table_log: u32) -> (r: Result<FseTable, Error>)
    requires
        counts_decidable(counts@, table_log as nat),
    ensures
        match r {
            Ok(t) => sum_abs(counts@) == pow2(table_log as nat) && t@ == spec_dtable(
                counts@,
                table_log as nat,
            ),
            Err(e) => {
                &&& sum_abs(counts@) != pow2(table_log as nat)
                &&& e == if rare_count(counts@) > pow2(table_log as nat) {
                    Error::Corrupted("FSE counts exceed table size")
                } else {
                    Error::Corrupted("FSE table spread did not complete")
                }
            },
        },
{
    proof {
        lemma2_to64();
        if table_log < 14 {
            lemma_pow2_strictly_increases(table_log as nat, 14);
        }
    }
    let table_size: u64 = pow2_u64(table_log);
    let mut rare: u64 = 0;
    let mut total: u64 = 0;
    let mut s: usize = 0;
    while s < counts.len()
        invariant
            s <= counts@.len() <= 256,
            forall|i: int| 0 <= i < counts@.len() ==> #[trigger] counts@[i] >= -1,
            rare == rare_count(counts@.take(s as int)),
            total == sum_abs(counts@.take(s as int)),
            rare <= total,
            total <= 32767 * s,
        decreases counts@.len() - s,
    {
        assert(counts@.take(s + 1).drop_last() =~= counts@.take(s as int));
        let c: i16 = counts[s];
        if c == -1 {
            rare = rare + 1;
            total = total + 1;
        } else {
            total = total + c as u64;
        }
        s = s + 1;
    }
    assert(counts@.take(counts@.len() as int) =~= counts@);
    if rare > table_size {
        return Err(Error::Corrupted("FSE counts exceed table size"));
    }
    if total != table_size {
        return Err(Error::Corrupted("FSE table spread did not complete"));
    }
    Ok(fill_dtable(counts, table_log))
}

/// Builds the decoding table for counts that fill it.
#[verifier::rlimit(30)]
fn fill_dtable(counts: &[i16], table_log: u32) -> (r: FseTable)
    requires
        valid_counts(counts@, table_log as nat),
    ensures
        r@ == spec_dtable(counts@, table_log as nat),
{
    let symbols: Vec<u8> = spread_symbols(counts, table_log);
    let table_size: usize = pow2_u64(table_log) as usize;
    let ghost log = table_log as nat;
    proof {
        lemma_spread_symbols(counts@, log);
        lemma2_to64();
        if log < 14 {
            lemma_pow2_strictly_increases(log, 14);
        }
    }
    let mut symbol_next: Vec<u32> = Vec::new();
    let mut s: usize = 0;
    while s < counts.len()
        invariant
            s <= counts@.len(),
            forall|i: int| 0 <= i < counts@.len() ==> #[trigger] counts@[i] >= -1,
            symbol_next@.len() == s,
            forall|i: int| 0 <= i < s ==> symbol_next@[i] == abs16(counts@[i]),
        decreases counts@.len() - s,
    {
        let c: i16 = counts[s];
        symbol_next.push(
            if c == -1 {
                1
            } else {
                c as u32
            },
        );
        s = s + 1;
    }
    let mut entries: Vec<FseEntry> = Vec::new();
    let mut u: usize = 0;
    while u < table_size
        invariant
            u <= table_size,
            table_size == pow2(log),
            table_size <= 16384,
            log == table_log as nat,
            valid_counts(counts@, log),
            symbols@ == spec_spread(counts@, log),
            symbols@.len() == table_size,
            symbol_next@.len() == counts@.len(),
            entries@.len() == u,
            forall|i: int|
                0 <= i < counts@.len() ==> #[trigger] symbol_next@[i] == abs16(counts@[i])
                    + rank_before(symbols@, i as u8, u as nat),
            forall|i: int|
                0 <= i < u ==> #[trigger] entries@[i] == dtable_entry(
                    counts@,
                    log,
                    symbols@,
                    i as nat,
                ),
        decreases table_size - u,
    {
        proof {
            lemma_dtable_entry(counts@, log, u as nat);
            lemma_pow2_unfold(log + 1);
        }
        let symbol: u8 = symbols[u];
        let next: u32 = symbol_next[symbol as usize];
        let nb_bits: u32 = table_log - highbit32(next);
        let scale: u32 = pow2_u64(nb_bits) as u32;
        proof {
            lemma2_to64();
            if nb_bits < 14 {
                lemma_pow2_strictly_increases(nb_bits as nat, 14);
            }
        }
        let base: u32 = next * scale - table_size as u32;
        symbol_next.set(symbol as usize, next + 1);
        entries.push(FseEntry { symbol, nb_bits: nb_bits as u8, base: base as u16 });
        u = u + 1;
    }
    let r = FseTable { table_log, entries };
    assert(r@.entries =~= spec_dtable(counts@, log).entries);
    r
}

// ---------------------------------------------------------------------------
// Decoding.

/// A decoder state register over an [`FseTable`].
pub struct FseState<'t> {
    pub table: &'t FseTable,
    pub state: usize,
}

impl<'t> FseState<'t> {
    pub open spec fn wf(&self) -> bool {
        &&& self.table@.wf()
        &&& self.state < self.table@.entries.len()
    }

    /// Starts in the state given by the next `table_log` bits.
    pub fn new(table: &'t FseTable, br: &mut ReverseBitReader<'_>) -> (r: Self)
        requires
            table@.wf(),
            old(br).wf(),
            old(br).bits_remaining >= -1000,
        ensures
            r.wf(),
            r.table@ == table@,
            r.state == rev_peek(old(br).data@, old(br).bits_remaining as int, table@.log),
            final(br).wf(),
            final(br).data@ == old(br).data@,
            final(br).bits_remaining == old(br).bits_remaining - table@.log,
    {
        proof {
            lemma2_to64();
            if table@.log < 14 {
                lemma_pow2_strictly_increases(table@.log, 14);
            }
        }
        let state: usize = br.read(table.table_log) as usize;
        FseState { table, state }
    }

    /// The symbol of the current state.
    pub fn symbol(&self) -> (r: u8)
        requires
            self.wf(),
        ensures
            r == self.table@.symbol(self.state as nat),
    {
        self.table.entries[self.state].symbol
    }

    /// Moves to the next state.
    pub fn advance(&mut self, br: &mut ReverseBitReader<'_>)
        requires
            old(self).wf(),
            old(br).wf(),
            old(br).bits_remaining >= -1000,
        ensures
            final(self).wf(),
            final(self).table@ == old(self).table@,
            final(self).state == old(self).table@.next(
                old(self).state as nat,
                old(br).data@,
                old(br).bits_remaining as int,
            ),
            final(br).wf(),
            final(br).data@ == old(br).data@,
            final(br).bits_remaining == old(br).bits_remaining - old(self).table@.nb(
                old(self).state as nat,
            ),
    {
        let e: FseEntry = self.table.entries[self.state];
        proof {
            lemma2_to64();
            if self.table@.log < 14 {
                lemma_pow2_strictly_increases(self.table@.log, 14);
            }
        }
        self.state = e.base as usize + br.read(e.nb_bits as u32) as usize;
    }
}

/// The symbols that two alternating states yield until the stream is
/// overdrawn: each step emits the symbol of the state `a` and advances it;
/// when that overdraws the stream, the symbol of the other state is the last.
pub open spec fn interleaved(
    t: FseTableView,
    data: Seq<u8>,
    rem: int,
    a: nat,
    b: nat,
    out: Seq<u8>,
    max_out: nat,
) -> Result<Seq<u8>, Error>
    decreases max_out - out.len(),
{
    if max_out < 2 || out.len() > max_out - 2 {
        Err(Error::Corrupted("FSE output exceeds limit"))
    } else {
        let out1 = out.push(t.symbol(a));
        let rem1 = rem - t.nb(a);
        if rem1 < 0 {
            Ok(out1.push(t.symbol(b)))
        } else {
            interleaved(t, data, rem1, b, t.next(a, data, rem), out1, max_out)
        }
    }
}

/// What decoding `src` with two interleaved states of `t` gives.
pub open spec fn spec_decode_interleaved(t: FseTableView, src: Seq<u8>, max_out: nat) -> Result<
    Seq<u8>,
    Error,
> {
    match rev_open_error(src) {
        Some(e) => Err(e),
        None => {
            let n = payload_bits(src);
            interleaved(
                t,
                src,
                n - 2 * t.log,
                rev_peek(src, n, t.log),
                rev_peek(src, n - t.log, t.log),
                Seq::empty(),
                max_out,
            )
        },
    }
}

pub open spec fn bytes_result(r: Result<Vec<u8>, Error>) -> Result<Seq<u8>, Error> {
    match r {
        Ok(v) => Ok(v@),
        Err(e) => Err(e),
    }
}

/// Decodes a stream with two interleaved states until it is exhausted.
#[verifier::rlimit(30)]
pub fn decode_interleaved(
    table: &FseTable,
    src: &[u8],
    max_out: usize,
) -> (r: Result<Vec<u8>, Error>)
    requires
        table@.wf(),
        src@.len() * 8 + 64 <= i64::MAX,
    ensures
        bytes_result(r) == spec_decode_interleaved(table@, src@, max_out as nat),
        r matches Ok(v) ==> v@.len() <= max_out,
{
    let mut br = match ReverseBitReader::new(src) {
        Ok(b) => b,
        Err(e) => {
            return Err(e);
        },
    };
    let mut s1 = FseState::new(table, &mut br);
    let mut s2 = FseState::new(table, &mut br);
    let mut out: Vec<u8> = Vec::new();
    let ghost goal = spec_decode_interleaved(table@, src@, max_out as nat);
    assert(out@ =~= Seq::<u8>::empty());
    loop
        invariant
            table@.wf(),
            s1.wf(),
            s2.wf(),
            s1.table@ == table@,
            s2.table@ == table@,
            br.wf(),
            br.data@ == src@,
            br.bits_remaining >= -28,
            out@.len() <= max_out,
            goal == spec_decode_interleaved(table@, src@, max_out as nat),
            goal == interleaved(
                table@,
                src@,
                br.bits_remaining as int,
                s1.state as nat,
                s2.state as nat,
                out@,
                max_out as nat,
            ),
        decreases max_out - out@.len(),
    {
        if max_out < 2 || out.len() > max_out - 2 {
            return Err(Error::Corrupted("FSE output exceeds limit"));
        }
        out.push(s1.symbol());
        s1.advance(&mut br);
        if br.bits_remaining() < 0 {
            out.push(s2.symbol());
            return Ok(out);
        }
        assert(goal == interleaved(
            table@,
            src@,
            br.bits_remaining as int,
            s2.state as nat,
            s1.state as nat,
            out@,
            max_out as nat,
        ));
        if max_out < 2 || out.len() > max_out - 2 {
            return Err(Error::Corrupted("FSE output exceeds limit"));
        }
        out.push(s2.symbol());
        s2.advance(&mut br);
        if br.bits_remaining() < 0 {
            out.push(s1.symbol());
            return Ok(out);
        }
    }
}

} // verus!
