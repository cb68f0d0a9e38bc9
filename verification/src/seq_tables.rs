//! The tables of the three sequence components: choosing between the
//! predefined table, a single symbol, a fresh description and the previous
//! table.

use crate::bits::{highest_bit, lemma_highest_bit_bound};
use crate::block::{
    lemma_default_counts, spec_sequence_table, SeqKind, LL_DEFAULT_NORM, ML_DEFAULT_NORM, OF_DEFAULT_NORM,
};
use crate::block_encode_model::{
    cheapest_choice, cost_with, costs_from, description_cost, spec_choice, spec_component, table_described,
    table_given, without_last, ComponentView,
};
use crate::error::Error;
use crate::fse::{abs16, spec_dtable, spec_read_ncount, valid_counts, FseTableView, NCountView};
use crate::fse_counts::{describes, lemma_whole_described, normalize_count, write_ncount, Normalized};
use crate::fse_encode::{
    build_ctable, optimal_table_log, spec_min_table_log, spec_optimal_table_log, start_of, FseCTable,
};
use crate::fse_encode_model::{spec_ctable, FseCView};
use crate::histogram::{
    histogram, is_histogram, is_largest, largest_count, lemma_all_equal, lemma_histogram_total,
    lemma_occurrences_bound, lemma_occurs, lemma_other, lemma_total_bounds, lemma_total_less, occurrences, top_symbol,
    total_count,
};
use crate::math::pow2_u64;
use vstd::arithmetic::power2::{lemma2_to64, pow2};
use vstd::prelude::*;
use vstd::slice::slice_subrange;

verus! {

/// How a component's table is given.
#[derive(Clone, Copy, PartialEq, Eq, Debug, Structural)]
pub enum SymbolEncodingType {
    /// The predefined table.
    Basic,
    /// One symbol.
    Rle,
    /// A described table.
    Compressed,
    /// The previous table.
    Repeat,
}

impl SymbolEncodingType {
    pub open spec fn spec_wire(self) -> nat {
        match self {
            SymbolEncodingType::Basic => 0,
            SymbolEncodingType::Rle => 1,
            SymbolEncodingType::Compressed => 2,
            SymbolEncodingType::Repeat => 3,
        }
    }

    /// The mode field that says so.
    pub fn wire(self) -> (r: u8)
        ensures
            r == self.spec_wire(),
            r <= 3,
    {
        match self {
            SymbolEncodingType::Basic => 0,
            SymbolEncodingType::Rle => 1,
            SymbolEncodingType::Compressed => 2,
            SymbolEncodingType::Repeat => 3,
        }
    }
}

/// Whether the previous table may be used again.
#[derive(Clone, Copy, PartialEq, Eq, Debug, Structural)]
pub enum FseRepeat {
    /// There is none.
    Never,
    /// It may lack some symbols.
    Check,
    /// It has all symbols.
    Valid,
}

/// `-log2(x / 256)` in units of 1/256 bit.
pub const K_INVERSE_PROBABILITY_LOG256: [u32; 256] = [
    0, 2048, 1792, 1642, 1536, 1453, 1386, 1329, 1280, 1236, 1197, 1162, 1130, 1100, 1073, 1047,
    1024, 1001, 980, 960, 941, 923, 906, 889, 874, 859, 844, 830, 817, 804, 791, 779,
    768, 756, 745, 734, 724, 714, 704, 694, 685, 676, 667, 658, 650, 642, 633, 626,
    618, 610, 603, 595, 588, 581, 574, 567, 561, 554, 548, 542, 535, 529, 523, 517,
    512, 506, 500, 495, 489, 484, 478, 473, 468, 463, 458, 453, 448, 443, 438, 434,
    429, 424, 420, 415, 411, 407, 402, 398, 394, 390, 386, 382, 377, 373, 370, 366,
    362, 358, 354, 350, 347, 343, 339, 336, 332, 329, 325, 322, 318, 315, 311, 308,
    305, 302, 298, 295, 292, 289, 286, 282, 279, 276, 273, 270, 267, 264, 261, 258,
    256, 253, 250, 247, 244, 241, 239, 236, 233, 230, 228, 225, 222, 220, 217, 215,
    212, 209, 207, 204, 202, 199, 197, 194, 192, 190, 187, 185, 182, 180, 178, 175,
    173, 171, 168, 166, 164, 162, 159, 157, 155, 153, 151, 149, 146, 144, 142, 140,
    138, 136, 134, 132, 130, 128, 126, 123, 121, 119, 117, 115, 114, 112, 110, 108,
    106, 104, 102, 100, 98, 96, 94, 93, 91, 89, 87, 85, 83, 82, 80, 78,
    76, 74, 73, 71, 69, 67, 66, 64, 62, 61, 59, 57, 55, 54, 52, 50,
    49, 47, 46, 44, 42, 41, 39, 37, 36, 34, 33, 31, 30, 28, 26, 25,
    23, 22, 20, 19, 17, 16, 14, 13, 11, 10, 8, 7, 5, 4, 2, 1,
];

/// Whether low-probability markers pay off.
pub open spec fn spec_use_low_prob(nb_seq: nat) -> bool {
    nb_seq >= 2048
}

pub fn use_low_prob_count(nb_seq: usize) -> (r: bool)
    ensures
        r == spec_use_low_prob(nb_seq as nat),
{
    nb_seq >= 2048
}

proof fn lemma_inverse_bound(i: int)
    requires
        0 <= i < 256,
    ensures
        K_INVERSE_PROBABILITY_LOG256[i] <= 2048,
{
    assert(forall|k: int| 0 <= k < 256 ==> #[trigger] K_INVERSE_PROBABILITY_LOG256[k] <= 2048);
}

/// The share of `c` in `total`, in 256ths and at least one.
pub open spec fn share256(c: nat, total: nat) -> nat {
    if 256 * c / total == 0 {
        1
    } else {
        256 * c / total
    }
}

/// The bits, in 256ths, that the symbols below `k` cost under their own
/// distribution.
pub open spec fn own_cost(count: Seq<u32>, total: nat, k: nat) -> nat
    decreases k,
{
    if k == 0 {
        0
    } else if count[k - 1] == 0 {
        own_cost(count, total, (k - 1) as nat)
    } else {
        own_cost(count, total, (k - 1) as nat) + count[k - 1] as nat
            * K_INVERSE_PROBABILITY_LOG256[share256(count[k - 1] as nat, total) as int] as nat
    }
}

/// The bits that `count` costs under its own distribution.
pub fn entropy_cost(count: &[u32], max: u32, total: usize) -> (r: u64)
    requires
        max <= 255,
        count@.len() > max,
        0 < total <= u32::MAX,
        forall|s: int| 0 <= s <= max ==> #[trigger] count@[s] < total,
    ensures
        r == own_cost(count@, total as nat, (max + 1) as nat) / 256,
        r <= 0x1000_0000_0000,
{
    let mut cost: u64 = 0;
    let mut s: usize = 0;
    while s <= max as usize
        invariant
            s <= max + 1,
            max <= 255,
            count@.len() > max,
            0 < total <= u32::MAX,
            forall|s: int| 0 <= s <= max ==> #[trigger] count@[s] < total,
            cost == own_cost(count@, total as nat, s as nat),
            cost <= s * 0x1_0000_0000 * 2048,
        decreases max + 1 - s,
    {
        let c: u64 = count[s] as u64;
        if c != 0 {
            let q: u64 = 256 * c / total as u64;
            assert(q < 256) by (nonlinear_arith)
                requires
                    q == (256 * c) / (total as int),
                    c < total,
                    total > 0,
            ;
            let norm: usize = if q == 0 {
                1
            } else {
                q as usize
            };
            let k: u64 = K_INVERSE_PROBABILITY_LOG256[norm] as u64;
            proof {
                lemma_inverse_bound(norm as int);
                assert(c * k <= 0x1_0000_0000 * 2048) by (nonlinear_arith)
                    requires
                        c <= 0x1_0000_0000,
                        k <= 2048,
                ;
                assert(c * k >= 0) by (nonlinear_arith);
            }
            cost = cost + c * k;
        }
        s = s + 1;
    }
    cost / 256
}

/// The bits, in 256ths, that the symbols below `k` cost under `norm`.
pub open spec fn cross_cost(norm: Seq<i16>, log: nat, count: Seq<u32>, k: nat) -> nat
    decreases k,
{
    if k == 0 {
        0
    } else {
        cross_cost(norm, log, count, (k - 1) as nat) + count[k - 1] as nat
            * K_INVERSE_PROBABILITY_LOG256[(abs16(norm[k - 1]) * pow2((8 - log) as nat)) as int] as nat
    }
}

/// The bits that `count` costs under the distribution `norm`.
pub fn cross_entropy_cost(norm: &[i16], accuracy_log: u32, count: &[u32], max: u32) -> (r: u64)
    requires
        max <= 255,
        5 <= accuracy_log <= 8,
        norm@.len() > max,
        count@.len() > max,
        forall|s: int| 0 <= s <= max ==> -1 <= #[trigger] norm@[s] <= 31,
    ensures
        r == cross_cost(norm@, accuracy_log as nat, count@, (max + 1) as nat) / 256,
{
    proof {
        lemma2_to64();
    }
    let scale: u64 = pow2_u64(8 - accuracy_log);
    assert(1 <= scale <= 8);
    let mut cost: u64 = 0;
    let mut s: usize = 0;
    while s <= max as usize
        invariant
            s <= max + 1,
            max <= 255,
            norm@.len() > max,
            count@.len() > max,
            1 <= scale <= 8,
            scale == pow2((8 - accuracy_log) as nat),
            5 <= accuracy_log <= 8,
            forall|s: int| 0 <= s <= max ==> -1 <= #[trigger] norm@[s] <= 31,
            cost == cross_cost(norm@, accuracy_log as nat, count@, s as nat),
            cost <= s * 0x1_0000_0000 * 2048,
        decreases max + 1 - s,
    {
        let c: u64 = count[s] as u64;
        let acc: u64 = if norm[s] == -1 {
            1
        } else {
            norm[s] as u64
        };
        assert(acc * scale <= 31 * 8) by (nonlinear_arith)
            requires
                acc <= 31,
                scale <= 8,
        ;
        assert(acc * scale >= 0) by (nonlinear_arith);
        let k: u64 = K_INVERSE_PROBABILITY_LOG256[(acc * scale) as usize] as u64;
        proof {
            lemma_inverse_bound((acc * scale) as int);
            assert(c * k <= 0x1_0000_0000 * 2048) by (nonlinear_arith)
                requires
                    c <= 0x1_0000_0000,
                    k <= 2048,
            ;
            assert(c * k >= 0) by (nonlinear_arith);
        }
        cost = cost + c * k;
        s = s + 1;
    }
    cost / 256
}

/// The bits that `count` costs with the table `ct`, or nothing if the table
/// lacks a symbol.
pub fn fse_bit_cost(ct: &FseCTable, count: &[u32], max: u32) -> (r: Option<u64>)
    requires
        ct.wf(),
        max <= 255,
        count@.len() > max,
    ensures
        r is Some ==> forall|s: int|
            0 <= s <= max && #[trigger] count@[s] != 0 ==> ct.encodable(s),
        r matches Some(c) ==> c < u64::MAX,
        match r {
            Some(c) => cost_with(ct@, count@, max as nat) == Some(c as int),
            None => cost_with(ct@, count@, max as nat) is None,
        },
{
    if ct.max_symbol() < max {
        return None;
    }
    let bad_cost: u32 = (ct.table_log + 1) * 256;
    let mut cost: u64 = 0;
    let mut s: u32 = 0;
    while s <= max
        invariant
            s <= max + 1,
            max <= 255,
            ct.wf(),
            ct.symbol_tt@.len() > max,
            count@.len() > max,
            bad_cost == (ct.table_log + 1) * 256,
            forall|i: int| 0 <= i < s && #[trigger] count@[i] != 0 ==> ct.encodable(i),
            cost <= s * 0x1_0000_0000 * 4096,
            costs_from(ct@, count@, 0, max as nat, 0) == costs_from(
                ct@,
                count@,
                s as nat,
                max as nat,
                cost as int,
            ),
        decreases max + 1 - s,
    {
        proof {
            reveal_with_fuel(costs_from, 1);
        }
        let c: u64 = count[s as usize] as u64;
        if c != 0 {
            let bit_cost: u32 = ct.bit_cost(s);
            if bit_cost >= bad_cost {
                return None;
            }
            assert(c * bit_cost as u64 <= 0x1_0000_0000 * 4096) by (nonlinear_arith)
                requires
                    c <= 0x1_0000_0000,
                    bit_cost <= 15 * 256,
            ;
            assert(c * bit_cost as u64 >= 0) by (nonlinear_arith);
            cost = cost + c * bit_cost as u64;
        }
        s = s + 1;
    }
    proof {
        reveal_with_fuel(costs_from, 1);
    }
    Some(cost / 256)
}

// ---------------------------------------------------------------------------
// Predefined tables.

/// Every code that the predefined table covers has a state.
proof fn lemma_default_present(kind: SeqKind)
    ensures
        forall|s: int|
            0 <= s < kind.default_counts().len() ==> #[trigger] kind.default_counts()[s] != 0,
        forall|s: int|
            0 <= s < kind.default_counts().len() ==> -1 <= #[trigger] kind.default_counts()[s] <= 4,
        kind.default_counts().len() == default_len(kind),
{
    match kind {
        SeqKind::LiteralLength => {
            assert(forall|s: int| 0 <= s < 36 ==> #[trigger] LL_DEFAULT_NORM@[s] != 0);
            assert(forall|s: int| 0 <= s < 36 ==> -1 <= #[trigger] LL_DEFAULT_NORM@[s] <= 4);
        },
        SeqKind::Offset => {
            assert(forall|s: int| 0 <= s < 29 ==> #[trigger] OF_DEFAULT_NORM@[s] != 0);
            assert(forall|s: int| 0 <= s < 29 ==> -1 <= #[trigger] OF_DEFAULT_NORM@[s] <= 4);
        },
        SeqKind::MatchLength => {
            assert(forall|s: int| 0 <= s < 53 ==> #[trigger] ML_DEFAULT_NORM@[s] != 0);
            assert(forall|s: int| 0 <= s < 53 ==> -1 <= #[trigger] ML_DEFAULT_NORM@[s] <= 4);
        },
    }
}

/// Codes that the predefined table covers.
pub open spec fn default_len(kind: SeqKind) -> nat {
    match kind {
        SeqKind::LiteralLength => 36,
        SeqKind::Offset => 29,
        SeqKind::MatchLength => 53,
    }
}

/// Whether the predefined table covers the codes up to `max`.
pub fn default_allowed(kind: SeqKind, max: u32) -> (r: bool)
    ensures
        r == (max < default_len(kind)),
{
    match kind {
        SeqKind::LiteralLength => max <= 35,
        SeqKind::Offset => max <= 28,
        SeqKind::MatchLength => max <= 52,
    }
}

pub fn default_log(kind: SeqKind) -> (r: u32)
    ensures
        r == kind.default_log(),
        5 <= r <= 6,
{
    match kind {
        SeqKind::LiteralLength => 6,
        SeqKind::Offset => 5,
        SeqKind::MatchLength => 6,
    }
}

/// The bits that `count` costs under the predefined distribution.
pub fn default_cost(kind: SeqKind, count: &[u32], max: u32) -> (r: u64)
    requires
        max < default_len(kind),
        count@.len() > max,
    ensures
        r == cross_cost(kind.default_counts(), kind.default_log(), count@, (max + 1) as nat) / 256,
{
    proof {
        lemma_default_present(kind);
    }
    match kind {
        SeqKind::LiteralLength => cross_entropy_cost(&LL_DEFAULT_NORM, 6, count, max),
        SeqKind::Offset => cross_entropy_cost(&OF_DEFAULT_NORM, 5, count, max),
        SeqKind::MatchLength => cross_entropy_cost(&ML_DEFAULT_NORM, 6, count, max),
    }
}

/// The encoding table of the predefined distribution.
pub fn default_ctable(kind: SeqKind) -> (r: FseCTable)
    ensures
        r.wf(),
        r@ == spec_ctable(kind.default_counts(), kind.default_log()),
        r.decoder() == spec_dtable(kind.default_counts(), kind.default_log()),
        forall|s: int| 0 <= s < default_len(kind) ==> #[trigger] r.encodable(s),
{
    proof {
        lemma_default_counts(kind);
        lemma_default_present(kind);
    }
    let r = match kind {
        SeqKind::LiteralLength => build_ctable(&LL_DEFAULT_NORM, 35, 6),
        SeqKind::Offset => build_ctable(&OF_DEFAULT_NORM, 28, 5),
        SeqKind::MatchLength => build_ctable(&ML_DEFAULT_NORM, 52, 6),
    };
    proof {
        assert forall|s: int| 0 <= s < default_len(kind) implies #[trigger] r.encodable(s) by {
            assert(kind.default_counts()[s] != 0);
        }
    }
    r
}

// ---------------------------------------------------------------------------
// Choosing.

/// The log picked for `n` symbols is large enough for `m` of them too.
proof fn lemma_log_allowed(max_log: nat, n: nat, max: nat, m: nat)
    requires
        2 <= n <= u32::MAX,
        1 <= max <= 255,
        1 <= m <= n <= m + 1,
    ensures
        spec_optimal_table_log(max_log, n, max, 2) >= spec_min_table_log(m, max),
{
    lemma2_to64();
    vstd::arithmetic::power2::lemma2_to64_rest();
    lemma_highest_bit_bound(max, 8);
    lemma_highest_bit_rises(m, n);
}

/// The highest bit of a larger number is no lower.
pub proof fn lemma_highest_bit_rises(a: nat, b: nat)
    requires
        a <= b,
    ensures
        highest_bit(a) <= highest_bit(b),
    decreases b,
{
    if a > 1 {
        lemma_highest_bit_rises(a / 2, b / 2);
    }
}

/// The bytes that describing the distribution of `count` takes.
pub fn ncount_cost(count: &[u32], max: u32, nb_seq: usize, fse_log: u32) -> (r: Result<usize, Error>)
    requires
        1 <= max <= 255,
        count@.len() == max + 1,
        2 <= nb_seq <= u32::MAX,
        total_count(count@, count@.len()) == nb_seq,
        forall|s: int| 0 <= s < count@.len() ==> #[trigger] count@[s] < nb_seq,
    ensures
        r is Ok,
        match r {
            Ok(n) => description_cost(count@, max as nat, nb_seq as nat, fse_log as nat) == Ok::<
                nat,
                Error,
            >(n as nat),
            Err(e) => description_cost(count@, max as nat, nb_seq as nat, fse_log as nat) == Err::<
                nat,
                Error,
            >(e),
        },
{
    proof {
        reveal(description_cost);
    }
    let table_log: u32 = optimal_table_log(fse_log, nb_seq, max);
    proof {
        lemma_log_allowed(fse_log as nat, nb_seq as nat, max as nat, nb_seq as nat);
    }
    match normalize_count(count, nb_seq, max, table_log, use_low_prob_count(nb_seq)) {
        Ok(Normalized::Table(norm)) => {
            proof {
                assert(norm@.take(norm@.len() as int) =~= norm@);
                assert(start_of(norm@, norm@.len() as int) == pow2(table_log as nat));
            }
            match write_ncount(&norm, max, table_log) {
                Ok(h) => Ok(h.len()),
                Err(e) => Err(e),
            }
        },
        Ok(Normalized::Rle(_)) => Err(Error::Encode("RLE distribution in NCount cost")),
        Err(e) => Err(e),
    }
}

/// Whether `ct` has a code for every counted symbol.
pub open spec fn has_all(ct: &FseCTable, count: Seq<u32>) -> bool {
    forall|s: int| 0 <= s < count.len() && #[trigger] count[s] != 0 ==> ct.encodable(s)
}

/// How the next block may use the table that was chosen.
pub open spec fn repeat_after(choice: SymbolEncodingType, before: FseRepeat) -> FseRepeat {
    match choice {
        SymbolEncodingType::Basic => FseRepeat::Never,
        SymbolEncodingType::Rle => FseRepeat::Never,
        SymbolEncodingType::Compressed => FseRepeat::Check,
        SymbolEncodingType::Repeat => before,
    }
}

/// The choice at the fast strategies, by thresholds on the number of
/// sequences alone.
pub open spec fn quick_choice(
    repeat: FseRepeat,
    most_frequent: nat,
    nb_seq: nat,
    default_log: nat,
    allowed: bool,
    strategy: int,
) -> SymbolEncodingType {
    if allowed && repeat == FseRepeat::Valid && nb_seq < 1000 {
        SymbolEncodingType::Repeat
    } else if allowed && (nb_seq < (pow2(default_log) * (10 - strategy)) / 8 || most_frequent < nb_seq
        / pow2((default_log - 1) as nat)) {
        SymbolEncodingType::Basic
    } else {
        SymbolEncodingType::Compressed
    }
}

pub open spec fn ct_view(t: Option<&FseCTable>) -> Option<FseCView> {
    match t {
        Some(x) => Some(x@),
        None => None,
    }
}

/// Chooses how to give a component's table: by thresholds at the fast
/// strategies, by estimated cost above them.
#[verifier::rlimit(30)]
pub fn select_encoding_type(
    repeat_mode: &mut FseRepeat,
    count: &[u32],
    max: u32,
    most_frequent: usize,
    nb_seq: usize,
    kind: SeqKind,
    prev_ctable: Option<&FseCTable>,
    strategy: i32,
) -> (r: Result<SymbolEncodingType, Error>)
    requires
        max <= kind.spec_max_symbol(),
        count@.len() == max + 1,
        1 <= nb_seq <= u32::MAX,
        total_count(count@, count@.len()) == nb_seq,
        is_largest(count@, most_frequent as u32),
        1 <= most_frequent <= nb_seq,
        most_frequent < nb_seq ==> max >= 1,
        0 <= strategy <= 9,
        prev_ctable matches Some(p) ==> p.wf(),
    ensures
        ({
            let allowed = max < default_len(kind);
            match r {
                Ok(choice) => {
                    &&& *final(repeat_mode) == repeat_after(choice, *old(repeat_mode))
                    &&& most_frequent == nb_seq ==> choice == if allowed && nb_seq <= 2 {
                        SymbolEncodingType::Basic
                    } else {
                        SymbolEncodingType::Rle
                    }
                    &&& most_frequent < nb_seq && strategy < 4 ==> choice == quick_choice(
                        *old(repeat_mode),
                        most_frequent as nat,
                        nb_seq as nat,
                        kind.default_log(),
                        allowed,
                        strategy as int,
                    )
                    &&& choice == SymbolEncodingType::Basic ==> allowed
                    &&& choice == SymbolEncodingType::Rle ==> most_frequent == nb_seq
                    &&& choice == SymbolEncodingType::Compressed ==> most_frequent < nb_seq
                    &&& choice == SymbolEncodingType::Repeat && strategy >= 4 ==> *old(repeat_mode)
                        != FseRepeat::Never && prev_ctable is Some && has_all(
                        prev_ctable->0,
                        count@,
                    )
                },
                Err(_) => false,
            }
        }),
        r == spec_choice(
            *old(repeat_mode),
            count@,
            max as nat,
            most_frequent as nat,
            nb_seq as nat,
            kind,
            ct_view(prev_ctable),
            strategy as int,
        ),
{
    proof {
        reveal(spec_choice);
        reveal(cheapest_choice);
    }
    let allowed: bool = default_allowed(kind, max);
    if most_frequent == nb_seq {
        *repeat_mode = FseRepeat::Never;
        if allowed && nb_seq <= 2 {
            return Ok(SymbolEncodingType::Basic);
        }
        return Ok(SymbolEncodingType::Rle);
    }
    let log: u32 = default_log(kind);
    if strategy < 4 {
        if allowed {
            proof {
                lemma2_to64();
            }
            let size: u64 = pow2_u64(log);
            let half: u64 = pow2_u64(log - 1);
            assert(size <= 64 && 16 <= half <= 32);
            assert(size * (10 - strategy) as u64 <= 64 * 10) by (nonlinear_arith)
                requires
                    size <= 64,
                    0 <= 10 - strategy <= 10,
            ;
            assert(size * (10 - strategy) as u64 >= 0) by (nonlinear_arith)
                requires
                    0 <= 10 - strategy <= 10,
            ;
            let dynamic_min: u64 = size * (10 - strategy) as u64 / 8;
            if *repeat_mode == FseRepeat::Valid && nb_seq < 1000 {
                return Ok(SymbolEncodingType::Repeat);
            }
            if (nb_seq as u64) < dynamic_min || (most_frequent as u64) < nb_seq as u64 / half {
                *repeat_mode = FseRepeat::Never;
                return Ok(SymbolEncodingType::Basic);
            }
        }
    } else {
        let basic_cost: u64 = if allowed {
            default_cost(kind, count, max)
        } else {
            u64::MAX
        };
        let mut repeat_cost: u64 = u64::MAX;
        let ghost mut usable = false;
        if *repeat_mode != FseRepeat::Never {
            if let Some(p) = prev_ctable {
                match fse_bit_cost(p, count, max) {
                    Some(c) => {
                        repeat_cost = c;
                        proof {
                            usable = true;
                            assert(has_all(p, count@));
                        }
                    },
                    None => {},
                }
            }
        }
        let described: u64 = match ncount_cost(count, max, nb_seq, kind.max_log()) {
            Ok(n) => n as u64,
            Err(e) => {
                return Err(e);
            },
        };
        let own: u64 = entropy_cost(count, max, nb_seq);
        let compressed_cost: u64 = if described < 0x1000_0000_0000 {
            described * 8 + own
        } else {
            u64::MAX - 1
        };
        if allowed && basic_cost <= repeat_cost && basic_cost <= compressed_cost {
            *repeat_mode = FseRepeat::Never;
            return Ok(SymbolEncodingType::Basic);
        }
        if repeat_cost <= compressed_cost {
            return Ok(SymbolEncodingType::Repeat);
        }
    }
    *repeat_mode = FseRepeat::Check;
    Ok(SymbolEncodingType::Compressed)
}

// ---------------------------------------------------------------------------
// Building.

/// `header` selects or describes the decoding table of `ct`, whatever follows;
/// a repeated table must be the decoder's previous one.
#[verifier::opaque]
pub open spec fn gives_table(
    choice: SymbolEncodingType,
    header: Seq<u8>,
    ct: &FseCTable,
    kind: SeqKind,
) -> bool {
    forall|rest: Seq<u8>, previous: Option<FseTableView>|
        (choice == SymbolEncodingType::Repeat ==> previous == Some(ct.decoder()))
            ==> #[trigger] spec_sequence_table(previous, choice.spec_wire(), header + rest, kind)
            == Ok::<(FseTableView, nat), Error>((ct.decoder(), header.len()))
}

/// Every code has a state in `ct`.
pub open spec fn encodes_all(ct: &FseCTable, codes: Seq<u8>) -> bool {
    forall|i: int| 0 <= i < codes.len() ==> ct.encodable(#[trigger] codes[i] as int)
}

proof fn lemma_log_fits(max_log: nat, n: nat, max: nat)
    requires
        2 <= n,
        1 <= max <= 52,
        max <= 31 || max_log == 9,
        8 <= max_log <= 9,
    ensures
        spec_optimal_table_log(max_log, n, max, 2) <= max_log,
{
    lemma2_to64();
    lemma_highest_bit_bound(max, 6);
}

/// A description of the whole distribution gives its table.
proof fn lemma_described(
    kind: SeqKind,
    norm: Seq<i16>,
    log: nat,
    n: nat,
    max: nat,
    header: Seq<u8>,
    ct: &FseCTable,
)
    requires
        valid_counts(norm, log),
        norm.len() == max + 1,
        norm[max as int] != 0,
        2 <= n,
        1 <= max <= kind.spec_max_symbol(),
        log == spec_optimal_table_log(kind.spec_max_log(), n, max, 2),
        ct.decoder() == spec_dtable(norm, log),
        exists|k: int|
            0 < k <= norm.len() && norm[k - 1] != 0 && #[trigger] start_of(norm, k) == pow2(log)
                && describes(header, norm.take(k), log),
    ensures
        gives_table(SymbolEncodingType::Compressed, header, ct, kind),
{
    let k = choose|k: int|
        0 < k <= norm.len() && norm[k - 1] != 0 && #[trigger] start_of(norm, k) == pow2(log)
            && describes(header, norm.take(k), log);
    lemma_whole_described(norm, log, k);
    lemma_log_fits(kind.spec_max_log(), n, max);
    reveal(gives_table);
    assert forall|rest: Seq<u8>, previous: Option<FseTableView>| #[trigger]
        spec_sequence_table(previous, 2, header + rest, kind) == Ok::<(FseTableView, nat), Error>(
            (ct.decoder(), header.len()),
        ) by {
        assert(spec_read_ncount(
            header + rest,
            kind.spec_max_symbol(),
            kind.spec_max_log(),
        ) == Ok::<NCountView, Error>(NCountView { counts: norm, log, bytes: header.len() }));
    }
}

pub open spec fn given_view(r: Result<(FseCTable, Vec<u8>), Error>) -> Result<
    (FseCView, Seq<u8>),
    Error,
> {
    match r {
        Ok((ct, header)) => Ok((ct@, header@)),
        Err(e) => Err(e),
    }
}

/// No symbol has all of the counts without the last code.
proof fn lemma_not_all(count: Seq<u32>, codes: Seq<u8>, s: int)
    requires
        is_histogram(count, codes),
        codes.len() >= 2,
        0 <= s < count.len(),
        forall|i: int| 0 <= i < codes.len() ==> #[trigger] codes[i] < count.len(),
        forall|i: int| 0 <= i < count.len() ==> #[trigger] count[i] < codes.len(),
    ensures
        without_last(count, codes).0[s] != without_last(count, codes).1,
{
    let last = codes.last() as int;
    let n = codes.len();
    assert(codes[n - 1] < count.len());
    if count[last] > 1 && s != last && count[s] == n - 1 {
        lemma_histogram_total(count, codes);
        lemma_two_counts(count, s, last, count.len());
    }
}

/// Two counts are at most the total.
proof fn lemma_two_counts(count: Seq<u32>, i: int, j: int, n: nat)
    requires
        0 <= i < n,
        0 <= j < n,
        i != j,
    ensures
        count[i] + count[j] <= total_count(count, n),
    decreases n,
{
    if i == n - 1 {
        lemma_total_bounds(count, (n - 1) as nat, j);
    } else if j == n - 1 {
        lemma_total_bounds(count, (n - 1) as nat, i);
    } else {
        lemma_two_counts(count, i, j, (n - 1) as nat);
    }
}

/// Builds a described table: the distribution without the last code where
/// that leaves one, since the final state shows it.
#[verifier::rlimit(30)]
fn build_described(kind: SeqKind, count: &[u32], max: u32, codes: &[u8]) -> (r: Result<
    (FseCTable, Vec<u8>),
    Error,
>)
    requires
        1 <= max <= kind.spec_max_symbol(),
        count@.len() == max + 1,
        is_histogram(count@, codes@),
        count@[max as int] != 0,
        2 <= codes@.len() <= u32::MAX,
        forall|i: int| 0 <= i < codes@.len() ==> #[trigger] codes@[i] <= max,
        forall|s: int| 0 <= s < count@.len() ==> #[trigger] count@[s] < codes@.len(),
    ensures
        r matches Ok((ct, header)) && {
            &&& ct.wf()
            &&& encodes_all(&ct, codes@)
            &&& gives_table(SymbolEncodingType::Compressed, header@, &ct, kind)
        },
        given_view(r) == table_described(kind, count@, max as nat, codes@),
{
    proof {
        reveal(table_described);
    }
    let nb_seq: usize = codes.len();
    let table_log: u32 = optimal_table_log(kind.max_log(), nb_seq, max);
    let mut total: usize = nb_seq;
    let mut adjusted: Vec<u32> = Vec::new();
    let mut k: usize = 0;
    while k < count.len()
        invariant
            k <= count@.len(),
            adjusted@ == count@.take(k as int),
        decreases count@.len() - k,
    {
        adjusted.push(count[k]);
        assert(count@.take(k + 1) =~= count@.take(k as int).push(count@[k as int]));
        k = k + 1;
    }
    assert(adjusted@ =~= count@);
    let last: usize = codes[nb_seq - 1] as usize;
    if adjusted[last] > 1 {
        let c: u32 = adjusted[last];
        adjusted.set(last, c - 1);
        total = total - 1;
    }
    proof {
        assert((adjusted@, total as nat) == without_last(count@, codes@));
        assert forall|s: int| 0 <= s < adjusted@.len() implies (#[trigger] adjusted@[s] != 0
            <==> count@[s] != 0) by {}
    }
    proof {
        lemma_histogram_total(count@, codes@);
        lemma_total_less(count@, last as int, count@.len());
        lemma_log_allowed(kind.spec_max_log(), nb_seq as nat, max as nat, total as nat);
        assert forall|s: int| 0 <= s < adjusted@.len() implies #[trigger] adjusted@[s] != total by {
            lemma_not_all(count@, codes@, s);
        }
    }
    match normalize_count(&adjusted, total, max, table_log, use_low_prob_count(total)) {
        Ok(Normalized::Table(norm)) => {
            proof {
                assert(norm@.take(norm@.len() as int) =~= norm@);
                assert(start_of(norm@, norm@.len() as int) == pow2(table_log as nat));
            }
            let header: Vec<u8> = match write_ncount(&norm, max, table_log) {
                Ok(h) => h,
                Err(e) => {
                    return Err(e);
                },
            };
            let ct = build_ctable(&norm, max, table_log);
            proof {
                assert(adjusted@[max as int] != 0);
                lemma_described(kind, norm@, table_log as nat, nb_seq as nat, max as nat, header@, &ct);
                assert forall|i: int| 0 <= i < codes@.len() implies ct.encodable(
                    #[trigger] codes@[i] as int,
                ) by {
                    lemma_occurs(codes@, i, codes@.len());
                    let s = codes@[i] as int;
                    assert(count@[s] != 0);
                    assert(adjusted@[s] != 0);
                    assert(norm@[s] != 0);
                }
            }
            Ok((ct, header))
        },
        Ok(Normalized::Rle(_)) => Err(Error::Encode("degenerate compressed distribution")),
        Err(e) => Err(e),
    }
}

/// Builds the table that `choice` says, and the bytes that give it.
#[verifier::rlimit(30)]
pub fn build_seq_ctable(
    choice: SymbolEncodingType,
    kind: SeqKind,
    count: &[u32],
    max: u32,
    codes: &[u8],
    prev_ctable: Option<&FseCTable>,
) -> (r: Result<(FseCTable, Vec<u8>), Error>)
    requires
        max <= kind.spec_max_symbol(),
        count@.len() == max + 1,
        is_histogram(count@, codes@),
        1 <= codes@.len() <= u32::MAX,
        forall|i: int| 0 <= i < codes@.len() ==> #[trigger] codes@[i] <= max,
        choice == SymbolEncodingType::Basic ==> max < default_len(kind),
        choice == SymbolEncodingType::Rle ==> forall|i: int|
            0 <= i < codes@.len() ==> #[trigger] codes@[i] == max,
        choice == SymbolEncodingType::Compressed ==> max >= 1 && count@[max as int] != 0
            && codes@.len() >= 2 && forall|s: int|
            0 <= s < count@.len() ==> #[trigger] count@[s] < codes@.len(),
        prev_ctable matches Some(p) ==> p.wf(),
        choice == SymbolEncodingType::Repeat ==> (prev_ctable matches Some(p) ==> encodes_all(p, codes@)),
    ensures
        match r {
            Ok((ct, header)) => {
                &&& ct.wf()
                &&& encodes_all(&ct, codes@)
                &&& gives_table(choice, header@, &ct, kind)
                &&& choice == SymbolEncodingType::Repeat ==> prev_ctable is Some && ct.decoder()
                    == prev_ctable->0.decoder() && ct@ == prev_ctable->0@
                &&& choice == SymbolEncodingType::Basic ==> header@.len() == 0
                &&& choice == SymbolEncodingType::Repeat ==> header@.len() == 0
                &&& choice == SymbolEncodingType::Rle ==> header@ == seq![max as u8]
            },
            Err(e) => choice == SymbolEncodingType::Repeat && prev_ctable is None && e == Error::Encode(
                "repeat mode without previous table",
            ),
        },
        given_view(r) == table_given(
            choice,
            kind,
            count@,
            max as nat,
            codes@,
            ct_view(prev_ctable),
        ),
{
    proof {
        reveal(table_given);
        reveal(gives_table);
    }
    match choice {
        SymbolEncodingType::Rle => {
            let ct = FseCTable::rle(max as u8);
            let mut header: Vec<u8> = Vec::new();
            header.push(codes[0]);
            proof {
                assert(header@ =~= seq![codes@[0]]);
                assert(header@ =~= seq![max as u8]);
                assert forall|rest: Seq<u8>, previous: Option<FseTableView>| #[trigger]
                    spec_sequence_table(previous, 1, header@ + rest, kind) == Ok::<
                        (FseTableView, nat),
                        Error,
                    >((ct.decoder(), header@.len())) by {
                    assert((header@ + rest)[0] == max as u8);
                }
            }
            Ok((ct, header))
        },
        SymbolEncodingType::Repeat => {
            match prev_ctable {
                Some(p) => {
                    let ct = p.duplicate();
                    assert forall|i: int| 0 <= i < codes@.len() implies ct.encodable(
                        #[trigger] codes@[i] as int,
                    ) by {
                        assert(p.encodable(codes@[i] as int));
                    }
                    {
                let none: Vec<u8> = Vec::new();
                assert(none@ =~= Seq::<u8>::empty());
                Ok((ct, none))
            }
                },
                None => Err(Error::Encode("repeat mode without previous table")),
            }
        },
        SymbolEncodingType::Basic => {
            let ct = default_ctable(kind);
            assert forall|i: int| 0 <= i < codes@.len() implies ct.encodable(
                #[trigger] codes@[i] as int,
            ) by {}
            {
                let none: Vec<u8> = Vec::new();
                assert(none@ =~= Seq::<u8>::empty());
                Ok((ct, none))
            }
        },
        SymbolEncodingType::Compressed => build_described(kind, count, max, codes),
    }
}

/// One component of a block: its choice, its table, and the bytes that give
/// the table.
#[verifier::rlimit(30)]
pub fn build_component(
    codes: &[u8],
    kind: SeqKind,
    prev: Option<&FseCTable>,
    repeat: &mut FseRepeat,
    strategy: i32,
) -> (r: Result<(SymbolEncodingType, FseCTable, Vec<u8>), Error>)
    requires
        1 <= codes@.len() <= u32::MAX,
        forall|i: int| 0 <= i < codes@.len() ==> #[trigger] codes@[i] <= kind.spec_max_symbol(),
        0 <= strategy <= 9,
        prev matches Some(p) ==> p.wf(),
        strategy < 4 && *old(repeat) == FseRepeat::Valid ==> (prev matches Some(p) && encodes_all(p, codes@)),
    ensures
        r matches Ok((choice, ct, header)) && {
            &&& ct.wf()
            &&& encodes_all(&ct, codes@)
            &&& gives_table(choice, header@, &ct, kind)
            &&& *final(repeat) == repeat_after(choice, *old(repeat))
            &&& choice == SymbolEncodingType::Repeat ==> prev is Some && *old(repeat)
                != FseRepeat::Never && ct.decoder() == prev->0.decoder() && ct@ == prev->0@
        },
        match r {
            Ok((choice, ct, header)) => spec_component(
                codes@,
                kind,
                ct_view(prev),
                *old(repeat),
                strategy as int,
            ) == Ok::<ComponentView, Error>(
                ComponentView { choice, table: ct@, header: header@ },
            ),
            Err(e) => spec_component(codes@, kind, ct_view(prev), *old(repeat), strategy as int)
                == Err::<ComponentView, Error>(e),
        },
{
    proof {
        reveal(spec_component);
    }
    let nb_seq: usize = codes.len();
    let all: Vec<u32> = histogram(codes, kind.max_symbol() as usize + 1);
    let max: usize = top_symbol(&all);
    let count = slice_subrange(all.as_slice(), 0, max + 1);
    let most_frequent: u32 = largest_count(count);
    proof {
        let c = count@;
        assert forall|s: int| 0 <= s < c.len() implies #[trigger] c[s] == all@[s] by {}
        let m = choose|s: int| 0 <= s < c.len() && #[trigger] c[s] == most_frequent;
        lemma_occurrences_bound(codes@, m, codes@.len());
        lemma_occurs(codes@, 0, codes@.len());
        assert(all@[codes@[0] as int] >= 1);
        assert(c[codes@[0] as int] <= most_frequent);
        assert forall|i: int| 0 <= i < codes@.len() implies #[trigger] codes@[i] <= max by {
            lemma_occurs(codes@, i, codes@.len());
            assert(all@[codes@[i] as int] != 0);
        }
        assert forall|s: int| 0 <= s < c.len() implies #[trigger] c[s] == occurrences(
            codes@,
            s,
            codes@.len(),
        ) by {
            assert(c[s] == all@[s]);
        }
        lemma_histogram_total(c, codes@);
        if most_frequent == nb_seq {
            lemma_all_equal(codes@, m, codes@.len());
            assert(codes@[0] == m);
            if max > 0 {
                assert(all@[max as int] != 0);
                let i = crate::histogram::lemma_counted(codes@, max as int, codes@.len());
                assert(codes@[i] == m);
            }
            assert(m == max);
        } else {
            if max == 0 {
                assert(c[0] <= most_frequent);
                let i = lemma_other(codes@, 0, codes@.len());
                assert(codes@[i] <= max);
            }
            assert(all@[max as int] != 0);
            assert forall|s: int| 0 <= s < c.len() implies #[trigger] c[s] < codes@.len() by {
                assert(c[s] <= most_frequent);
            }
        }
    }
    let choice = match select_encoding_type(
        repeat,
        count,
        max as u32,
        most_frequent as usize,
        nb_seq,
        kind,
        prev,
        strategy,
    ) {
        Ok(c) => c,
        Err(e) => {
            return Err(e);
        },
    };
    proof {
        if choice == SymbolEncodingType::Repeat {
            if strategy < 4 {
                assert(*old(repeat) == FseRepeat::Valid);
            } else {
                assert forall|i: int| 0 <= i < codes@.len() implies prev->0.encodable(
                    #[trigger] codes@[i] as int,
                ) by {
                    lemma_occurs(codes@, i, codes@.len());
                    assert(count@[codes@[i] as int] != 0);
                }
            }
        }
    }
    match build_seq_ctable(choice, kind, count, max as u32, codes, prev) {
        Ok((ct, header)) => {
            proof {
                if choice == SymbolEncodingType::Repeat && strategy < 4 {
                    assert(*old(repeat) == FseRepeat::Valid);
                }
            }
            Ok((choice, ct, header))
        },
        Err(e) => Err(e),
    }
}

} // verus!
