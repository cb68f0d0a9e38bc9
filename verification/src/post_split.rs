//! Splitting a parsed block: where parts of it would be smaller with entropy
//! tables of their own, each part becomes a block.

use crate::block::{CtxView, RepView, SeqKind, LL_BITS, ML_BITS};
use crate::block_encode_model::{of_codes_of, offsets_ready, offsets_served, ComponentView, EntropyView};
use crate::blocks_encode::{lemma_offsets_in_reach, write_block, BlockKind};
use crate::cparams::{CParams, Strategy};
use crate::fast::lemma_nothing_parsed;
use crate::frame_encode::{are_blocks, lemma_more_blocks, lemma_no_blocks, lemma_one_block};
use crate::fse_encode::FseCTable;
use crate::histogram::{histogram, largest_count, top_symbol};
use crate::huffman_codes::HufCTable;
use crate::huffman_encode::{huf_optimal_table_log, HufRepeat};
use crate::huffman_encode_model::HufCView;
use crate::huffman_header::{estimate_compressed_size, validate_ctable, write_ctable};
use crate::huffman_tree::{complete_table, count_present, present};
use crate::literals_encode::HufState;
use crate::parser::{
    bears_out, borne_out, ends_with, known, new_rep, offset_at, rep_offset, reps_after, spec_new_rep, spec_rep_offset,
    stands_at, stands_for, Parse, Parser,
};
use crate::post_split_model::{
    block_split, chosen_literals, chosen_table, component_estimate, extras_counted, halves_smaller, literals_estimate,
    offset_written, offsets_settled, part_estimate, part_written, parts_written, reparsed, sequences_estimate,
    splits_added, BlocksView, LitChoice, PartsView, Reparsed,
};
use crate::seq_codes::seq_to_codes;
use crate::seq_store::{lit_total, near_offsets, triple_total, LongLengthType, SeqStore, Triple};
use crate::seq_tables::{default_cost, fse_bit_cost, FseRepeat, SymbolEncodingType};
use crate::sequences_encode::{build_components, lemma_offsets_served, FseEntropyState};
use vstd::prelude::*;
use vstd::slice::slice_subrange;

verus! {

/// Fewer sequences than this are not split.
pub const MIN_SEQUENCES: usize = 300;

pub const MAX_SPLITS: usize = 196;

/// Literals up to this size are not compressed.
pub const COMPRESS_LITERALS_SIZE_MIN: usize = 63;

/// Blocks are split with the strongest strategies, once the window is not
/// small.
pub fn block_splitter_enabled(cparams: &CParams) -> (r: bool)
    ensures
        r <==> cparams.window_log >= 17 && (cparams.strategy is Btopt || cparams.strategy is Btultra
            || cparams.strategy is Btultra2),
{
    cparams.window_log >= 17 && match cparams.strategy {
        Strategy::Btopt | Strategy::Btultra | Strategy::Btultra2 => true,
        _ => false,
    }
}

// ---------------------------------------------------------------------------
// Parts of a store.

/// The totals of adjoining parts add up.
proof fn lemma_parts(q: Seq<Triple>, a: int, b: int)
    requires
        0 <= a <= b <= q.len(),
    ensures
        lit_total(q.take(a)) + lit_total(q.subrange(a, b)) == lit_total(q.take(b)),
        triple_total(q.take(a)) + triple_total(q.subrange(a, b)) == triple_total(q.take(b)),
    decreases b - a,
{
    if a == b {
        assert(q.subrange(a, b) =~= Seq::<Triple>::empty());
    } else {
        lemma_parts(q, a, b - 1);
        assert(q.subrange(a, b).drop_last() =~= q.subrange(a, b - 1));
        assert(q.take(b).drop_last() =~= q.take(b - 1));
    }
}

/// A part is no larger than the whole.
proof fn lemma_part_le(q: Seq<Triple>, a: int, b: int)
    requires
        0 <= a <= b <= q.len(),
    ensures
        triple_total(q.subrange(a, b)) <= triple_total(q),
        lit_total(q.take(b)) <= lit_total(q),
        triple_total(q.take(b)) <= triple_total(q),
{
    lemma_parts(q, a, b);
    lemma_parts(q, b, q.len() as int);
    assert(q.take(q.len() as int) =~= q);
}

impl SeqStore {
    /// The literals of sequence `i`.
    pub fn lit_len_at(&self, i: usize) -> (r: usize)
        requires
            self.wf(),
            i < self.sequences@.len(),
        ensures
            r == self.triples()[i as int].lit_len,
    {
        let base: usize = self.sequences[i].lit_length as usize;
        if self.long_length_type == LongLengthType::LiteralLength && self.long_length_pos as usize == i {
            base + 65536
        } else {
            base
        }
    }

    /// The match length of sequence `i`.
    pub fn match_len_at(&self, i: usize) -> (r: usize)
        requires
            self.wf(),
            i < self.sequences@.len(),
        ensures
            r == self.triples()[i as int].match_len,
            r >= 3,
    {
        let base: usize = self.sequences[i].ml_base as usize + 3;
        if self.long_length_type == LongLengthType::MatchLength && self.long_length_pos as usize == i {
            base + 65536
        } else {
            base
        }
    }
}

/// The sequences `a .. b` with their literals; the last part takes those after
/// the last sequence too.
#[verifier::rlimit(30)]
pub fn sub_store(store: &SeqStore, a: usize, b: usize) -> (r: SeqStore)
    requires
        store.wf(),
        a <= b <= store.sequences@.len(),
    ensures
        r.wf(),
        r.triples() == store.triples().subrange(a as int, b as int),
        r.literals@ == store.literals@.subrange(
            lit_total(store.triples().take(a as int)) as int,
            if b == store.sequences@.len() {
                store.literals@.len() as int
            } else {
                lit_total(store.triples().take(b as int)) as int
            },
        ),
{
    let ghost q = store.triples();
    let n: usize = store.sequences.len();
    proof {
        crate::seq_store::lemma_lit_total(q);
    }
    let mut at: usize = 0;
    let mut i: usize = 0;
    while i < a
        invariant
            i <= a <= n,
            n == store.sequences@.len(),
            store.wf(),
            q == store.triples(),
            at == lit_total(q.take(i as int)),
            at <= store.literals@.len(),
            store.literals@.len() <= 131072,
        decreases a - i,
    {
        proof {
            assert(q.take(i + 1).drop_last() =~= q.take(i as int));
            lemma_part_le(q, 0, i + 1);
        }
        at = at + store.lit_len_at(i);
        i = i + 1;
    }
    let ghost start = at;
    let mut r = SeqStore::new();
    proof {
        assert(q.subrange(a as int, a as int) =~= Seq::<Triple>::empty());
        assert(store.literals@.subrange(start as int, at as int) =~= Seq::<u8>::empty());
    }
    while i < b
        invariant
            a <= i <= b <= n,
            n == store.sequences@.len(),
            store.wf(),
            q == store.triples(),
            start == lit_total(q.take(a as int)),
            at == lit_total(q.take(i as int)),
            start <= at <= store.literals@.len(),
            store.literals@.len() <= 131072,
            r.wf(),
            r.triples() == q.subrange(a as int, i as int),
            r.literals@ == store.literals@.subrange(start as int, at as int),
            lit_total(r.triples()) == r.literals@.len(),
        decreases b - i,
    {
        let lit: usize = store.lit_len_at(i);
        let len: usize = store.match_len_at(i);
        proof {
            assert(q.take(i + 1).drop_last() =~= q.take(i as int));
            lemma_part_le(q, a as int, i + 1);
            assert(q.subrange(a as int, i + 1).drop_last() =~= q.subrange(a as int, i as int));
        }
        r.store_seq(
            slice_subrange(&store.literals, at, at + lit),
            store.sequences[i].off_base,
            len as u32,
        );
        proof {
            assert(r.triples() =~= q.subrange(a as int, i + 1));
            assert(r.literals@ =~= store.literals@.subrange(start as int, at + lit));
        }
        at = at + lit;
        i = i + 1;
    }
    if b == n {
        proof {
            lemma_parts(q, a as int, b as int);
            lemma_part_le(q, a as int, b as int);
            assert(q.take(b as int) =~= q);
            crate::seq_store::lemma_lit_total(q.take(a as int));
        }
        r.store_last_literals(slice_subrange(&store.literals, at, store.literals.len()));
        proof {
            assert(r.literals@ =~= store.literals@.subrange(
                start as int,
                store.literals@.len() as int,
            ));
        }
    }
    r
}

// ---------------------------------------------------------------------------
// Estimates.

pub open spec fn made_view(t: Option<HufCTable>) -> Option<HufCView> {
    match t {
        Some(x) => Some(x@),
        None => None,
    }
}

/// How the literals would be written, the size of the table description, and
/// the table.
#[verifier::rlimit(30)]
fn literals_choice(literals: &Vec<u8>, prev: &HufState, optimal_depth: bool) -> (r: (
    SymbolEncodingType,
    usize,
    Option<HufCTable>,
))
    requires
        literals@.len() <= 131072,
        prev.wf(),
    ensures
        r.2 matches Some(t) ==> t.wf(),
        r.1 <= 128,
        r.0 == SymbolEncodingType::Compressed ==> r.2 is Some,
        r.0 == SymbolEncodingType::Repeat ==> prev.table is Some,
        (LitChoice { choice: r.0, description: r.1 as nat, table: made_view(r.2) })
            == chosen_literals(literals@, prev@, optimal_depth),
{
    proof {
        reveal(chosen_literals);
        reveal(chosen_table);
    }
    let size: usize = literals.len();
    let least: usize = if prev.repeat == HufRepeat::Valid {
        6
    } else {
        COMPRESS_LITERALS_SIZE_MIN
    };
    if size <= least {
        return (SymbolEncodingType::Basic, 0, None);
    }
    let count: Vec<u32> = histogram(literals, 256);
    let max_symbol: u32 = top_symbol(&count) as u32;
    proof {
        reveal_with_fuel(present, 2);
    }
    let largest: usize = largest_count(&count) as usize;
    if largest == size {
        return (SymbolEncodingType::Rle, 0, None);
    }
    if largest <= size / 128 + 4 || max_symbol == 0 || count[max_symbol as usize] == 0
        || count_present(&count, max_symbol as usize + 1) < 2 {
        return (SymbolEncodingType::Basic, 0, None);
    }
    let mut repeat: HufRepeat = prev.repeat;
    if repeat == HufRepeat::Check {
        let usable: bool = match &prev.table {
            Some(t) => validate_ctable(t, &count, max_symbol),
            None => false,
        };
        if !usable {
            repeat = HufRepeat::Never;
        }
    }
    let huff_log: u32 = huf_optimal_table_log(11, size, max_symbol, &count, optimal_depth);
    let table = match complete_table(&count, max_symbol, huff_log) {
        Some(t) => t,
        None => {
            return (SymbolEncodingType::Basic, 0, None);
        },
    };
    let new_size: u64 = estimate_compressed_size(&table, &count, max_symbol);
    let desc = match write_ctable(&table) {
        Ok(d) => d,
        Err(_) => {
            return (SymbolEncodingType::Basic, 0, None);
        },
    };
    let h_size: usize = desc.len();
    if repeat != HufRepeat::Never {
        if let Some(old_table) = &prev.table {
            let old_size: u64 = estimate_compressed_size(old_table, &count, max_symbol);
            if old_size < size as u64 && (old_size <= h_size as u64 + new_size || h_size + 12 >= size) {
                return (SymbolEncodingType::Repeat, 0, None);
            }
        }
    }
    if new_size + h_size as u64 >= size as u64 {
        return (SymbolEncodingType::Basic, 0, None);
    }
    (SymbolEncodingType::Compressed, h_size, Some(table))
}

/// The size of the literals written with `table`, with its description if it
/// is new.
fn estimate_literals(literals: &Vec<u8>, table: &HufCTable, description: usize) -> (r: u64)
    requires
        literals@.len() <= 131072,
        table.wf(),
        description <= 128,
    ensures
        r <= 0x400_0000_0000,
        r == literals_estimate(literals@, table@, description as nat),
{
    proof {
        reveal(literals_estimate);
    }
    let size: usize = literals.len();
    let header: u64 = if size >= 16384 {
        5
    } else if size >= 1024 {
        4
    } else {
        3
    };
    let count: Vec<u32> = histogram(literals, 256);
    let max_symbol: u32 = top_symbol(&count) as u32;
    let streams: u64 = if size < 256 {
        0
    } else {
        6
    };
    estimate_compressed_size(table, &count, max_symbol) + description as u64 + streams + header
}

/// The size of one component's codes with their extra bits.
fn estimate_component(choice: SymbolEncodingType, codes: &Vec<u8>, table: &FseCTable, kind: SeqKind) -> (r:
    u64)
    requires
        codes@.len() <= 131072,
        table.wf(),
        forall|i: int| 0 <= i < codes@.len() ==> #[trigger] codes@[i] <= kind.spec_max_symbol(),
    ensures
        r <= 0x2000_0000_0000_0000,
        r == component_estimate(
            ComponentView { choice, table: table@, header: Seq::empty() },
            codes@,
            kind,
        ),
{
    proof {
        reveal(component_estimate);
    }
    let n: usize = codes.len();
    let last: u32 = match kind {
        SeqKind::LiteralLength => 35,
        SeqKind::Offset => 31,
        SeqKind::MatchLength => 52,
    };
    let count: Vec<u32> = histogram(codes, last as usize + 1);
    let max: u32 = top_symbol(&count) as u32;
    let guess: u64 = n as u64 * 10;
    let mut bits: u64 = match choice {
        SymbolEncodingType::Basic => {
            let known_symbols: bool = match kind {
                SeqKind::Offset => max <= 28,
                _ => true,
            };
            if !known_symbols {
                return guess;
            }
            default_cost(kind, &count, max)
        },
        SymbolEncodingType::Rle => 0,
        _ => match fse_bit_cost(table, &count, max) {
            Some(c) => c,
            None => {
                return guess;
            },
        },
    };
    let ghost all = extras_counted(kind, codes@, 0, bits);
    let mut i: usize = 0;
    while i < n
        invariant
            i <= n,
            n == codes@.len(),
            forall|k: int| 0 <= k < codes@.len() ==> #[trigger] codes@[k] <= kind.spec_max_symbol(),
            all == extras_counted(kind, codes@, i as nat, bits),
        decreases n - i,
    {
        proof {
            reveal_with_fuel(extras_counted, 1);
        }
        let c: usize = codes[i] as usize;
        let extra: u32 = match kind {
            SeqKind::LiteralLength => LL_BITS[c],
            SeqKind::Offset => c as u32,
            SeqKind::MatchLength => ML_BITS[c],
        };
        bits = bits.wrapping_add(extra as u64);
        i = i + 1;
    }
    proof {
        reveal_with_fuel(extras_counted, 1);
    }
    bits / 8
}

pub open spec fn size_view(r: Option<u64>) -> Option<nat> {
    match r {
        Some(s) => Some(s as nat),
        None => None,
    }
}

/// The size of a part's sequences; none where it is out of all range.
#[verifier::rlimit(40)]
fn estimate_sequences(store: &SeqStore, entropy: &FseEntropyState, strategy: i32) -> (r: Option<u64>)
    requires
        store.wf(),
        entropy.wf(),
        0 <= strategy <= 9,
        offsets_served(entropy@, store.triples(), strategy as int),
    ensures
        r matches Some(s) ==> s <= 0x6800_0000_0000_0000,
        size_view(r) == sequences_estimate(store.triples(), entropy@, strategy as int),
{
    proof {
        crate::seq_store::lemma_lit_total(store.triples());
        reveal(sequences_estimate);
        reveal(component_estimate);
    }
    let n: usize = store.sequences.len();
    let header: u64 = 2 + (if n >= 128 {
        1u64
    } else {
        0
    }) + if n >= 0x7F00 {
        1u64
    } else {
        0
    };
    if n == 0 {
        return Some(header);
    }
    let (ll_codes, of_codes, ml_codes) = seq_to_codes(store);
    let mut scratch = entropy.duplicate();
    proof {
        assert forall|i: int| 0 <= i < n implies #[trigger] ll_codes@[i] <= 35 by {
            let t = store.triples()[i];
        }
        assert forall|i: int| 0 <= i < n implies #[trigger] of_codes@[i] <= 31 by {
            let t = store.triples()[i];
        }
        assert forall|i: int| 0 <= i < n implies #[trigger] ml_codes@[i] <= 52 by {
            let t = store.triples()[i];
        }
    }
    proof {
        lemma_offsets_served(&scratch, store.triples(), strategy as int);
    }
    let c = match build_components(&mut scratch, &ll_codes, &of_codes, &ml_codes, strategy) {
        Ok(c) => c,
        Err(_) => {
            return None;
        },
    };
    let of: u64 = estimate_component(c.of_type, &of_codes, &c.of, SeqKind::Offset);
    let ll: u64 = estimate_component(c.ll_type, &ll_codes, &c.ll, SeqKind::LiteralLength);
    let ml: u64 = estimate_component(c.ml_type, &ml_codes, &c.ml, SeqKind::MatchLength);
    let tables: u64 = (c.ll_header.len() as u64).saturating_add(
        c.of_header.len() as u64,
    ).saturating_add(c.ml_header.len() as u64);
    let mut sequences: u64 = of + ll + ml;
    sequences = sequences.saturating_add(tables).saturating_add(header);
    if sequences > 0x6800_0000_0000_0000 {
        return None;
    }
    Some(sequences)
}

/// The size of a part as a block of its own; none where it is out of all range.
fn estimate_sub_block_size(store: &SeqStore, entropy: &FseEntropyState, strategy: i32, optimal_depth: bool) -> (r:
    Option<u64>)
    requires
        store.wf(),
        entropy.wf(),
        0 <= strategy <= 9,
        offsets_served(entropy@, store.triples(), strategy as int),
    ensures
        r matches Some(s) ==> s <= 0x7000_0000_0000_0000,
        size_view(r) == part_estimate(
            store.triples(),
            store.literals@,
            entropy@,
            strategy as int,
            optimal_depth,
        ),
{
    proof {
        crate::seq_store::lemma_lit_total(store.triples());
        reveal(part_estimate);
    }
    let (choice, description, table) = literals_choice(&store.literals, &entropy.huf, optimal_depth);
    let sequences: u64 = match estimate_sequences(store, entropy, strategy) {
        Some(n) => n,
        None => {
            return None;
        },
    };
    let lits: u64 = match choice {
        SymbolEncodingType::Basic => store.literals.len() as u64,
        SymbolEncodingType::Rle => 1,
        SymbolEncodingType::Compressed => match &table {
            Some(t) => estimate_literals(&store.literals, t, description),
            None => store.literals.len() as u64,
        },
        SymbolEncodingType::Repeat => match &entropy.huf.table {
            Some(t) => estimate_literals(&store.literals, t, 0),
            None => store.literals.len() as u64,
        },
    };
    Some(lits + sequences + 3)
}

// ---------------------------------------------------------------------------
// Splits.

/// Places between `lo` and `hi`, in order.
pub open spec fn ordered_within(s: Seq<usize>, lo: int, hi: int) -> bool {
    &&& forall|i: int| 0 <= i < s.len() ==> lo < #[trigger] s[i] < hi
    &&& forall|i: int, j: int| 0 <= i < j < s.len() ==> s[i] < s[j]
}

/// A table that serves all offsets serves those of a part.
proof fn lemma_part_served(e: EntropyView, q: Seq<Triple>, a: int, b: int, strategy: int)
    requires
        0 <= a <= b <= q.len(),
        offsets_served(e, q, strategy),
    ensures
        offsets_served(e, q.subrange(a, b), strategy),
{
    let part = q.subrange(a, b);
    if strategy < 4 && e.of_repeat == FseRepeat::Valid {
        assert forall|i: int| 0 <= i < part.len() implies #[trigger] e.of->0.encodable(
            of_codes_of(part)[i] as int,
        ) by {
            assert(e.of->0.encodable(of_codes_of(q)[a + i] as int));
        }
    }
}

/// Whether the halves of `start .. end` are estimated smaller than the whole.
fn are_halves_smaller(
    start: usize,
    end: usize,
    store: &SeqStore,
    entropy: &FseEntropyState,
    strategy: i32,
    optimal_depth: bool,
) -> (r: bool)
    requires
        store.wf(),
        entropy.wf(),
        0 <= strategy <= 9,
        offsets_served(entropy@, store.triples(), strategy as int),
        start <= end <= store.sequences@.len(),
    ensures
        r == halves_smaller(
            start as int,
            end as int,
            store.triples(),
            store.literals@,
            entropy@,
            strategy as int,
            optimal_depth,
        ),
{
    proof {
        crate::seq_store::lemma_lit_total(store.triples());
    }
    let mid: usize = (start + end) / 2;
    proof {
        lemma_part_served(entropy@, store.triples(), start as int, end as int, strategy as int);
        lemma_part_served(entropy@, store.triples(), start as int, mid as int, strategy as int);
        lemma_part_served(entropy@, store.triples(), mid as int, end as int, strategy as int);
    }
    let whole = estimate_sub_block_size(
        &sub_store(store, start, end),
        entropy,
        strategy,
        optimal_depth,
    );
    let left = estimate_sub_block_size(
        &sub_store(store, start, mid),
        entropy,
        strategy,
        optimal_depth,
    );
    let right = estimate_sub_block_size(
        &sub_store(store, mid, end),
        entropy,
        strategy,
        optimal_depth,
    );
    match (whole, left, right) {
        (Some(w), Some(a), Some(b)) => a.saturating_add(b) < w,
        _ => false,
    }
}

/// Splits `start .. end` in the middle, if the halves are estimated smaller
/// than the whole, and then each half.
#[verifier::spinoff_prover]
#[verifier::rlimit(60)]
fn derive_splits_helper(
    splits: &mut Vec<usize>,
    start: usize,
    end: usize,
    store: &SeqStore,
    entropy: &FseEntropyState,
    strategy: i32,
    optimal_depth: bool,
)
    requires
        store.wf(),
        entropy.wf(),
        0 <= strategy <= 9,
        offsets_served(entropy@, store.triples(), strategy as int),
        start <= end <= store.sequences@.len(),
        ordered_within(old(splits)@, 0, start + 1),
        start > 0 ==> old(splits)@.len() > 0 && old(splits)@.last() == start,
        start == 0 ==> old(splits)@.len() == 0,
    ensures
        old(splits)@.len() <= final(splits)@.len(),
        final(splits)@.take(old(splits)@.len() as int) == old(splits)@,
        ordered_within(final(splits)@, 0, end as int) || final(splits)@ == old(splits)@,
        forall|i: int|
            old(splits)@.len() <= i < final(splits)@.len() ==> start < #[trigger] final(splits)@[i]
                < end,
        forall|i: int, j: int|
            0 <= i < j < final(splits)@.len() ==> final(splits)@[i] < final(splits)@[j],
        forall|i: int| 0 <= i < final(splits)@.len() ==> 0 < #[trigger] final(splits)@[i],
        final(splits)@ == splits_added(
            old(splits)@,
            start as int,
            end as int,
            store.triples(),
            store.literals@,
            entropy@,
            strategy as int,
            optimal_depth,
        ),
    decreases end - start,
{
    proof {
        reveal_with_fuel(splits_added, 1);
        assert(splits@.take(splits@.len() as int) =~= splits@);
    }
    if end - start < MIN_SEQUENCES || splits.len() >= MAX_SPLITS {
        return ;
    }
    proof {
        crate::seq_store::lemma_lit_total(store.triples());
    }
    let mid: usize = (start + end) / 2;
    if are_halves_smaller(start, end, store, entropy, strategy, optimal_depth) {
        let ghost s0 = splits@;
        derive_splits_helper(splits, start, mid, store, entropy, strategy, optimal_depth);
        let ghost s1 = splits@;
        splits.push(mid);
        let ghost s2 = splits@;
        proof {
            assert(s2.take(s0.len() as int) =~= s0) by {
                assert(s1.take(s0.len() as int) == s0);
                assert forall|i: int| 0 <= i < s0.len() implies s2.take(s0.len() as int)[i] == s0[i] by {
                    assert(s1.take(s0.len() as int)[i] == s0[i]);
                }
            }
            assert forall|i: int| 0 <= i < s2.len() implies 0 < #[trigger] s2[i] < mid + 1 by {
                if i < s0.len() {
                    assert(s1.take(s0.len() as int)[i] == s0[i]);
                }
            }
            assert forall|i: int, j: int| 0 <= i < j < s2.len() implies s2[i] < s2[j] by {
                if j == s2.len() - 1 {
                    if i < s0.len() {
                        assert(s1.take(s0.len() as int)[i] == s0[i]);
                        assert(s0[i] < start + 1);
                    }
                }
            }
        }
        derive_splits_helper(splits, mid, end, store, entropy, strategy, optimal_depth);
        let ghost s3 = splits@;
        proof {
            assert(s3.take(s0.len() as int) =~= s0) by {
                assert(s3.take(s2.len() as int) == s2);
                assert forall|i: int| 0 <= i < s0.len() implies s3.take(s0.len() as int)[i] == s0[i] by {
                    assert(s3.take(s2.len() as int)[i] == s2[i]);
                    assert(s2.take(s0.len() as int)[i] == s0[i]);
                }
            }
            assert forall|i: int| s0.len() <= i < s3.len() implies start < #[trigger] s3[i] < end by {
                if i < s2.len() {
                    assert(s3.take(s2.len() as int)[i] == s2[i]);
                }
            }
            assert forall|i: int| 0 <= i < s3.len() implies 0 < #[trigger] s3[i] < end by {
                if i < s0.len() {
                    assert(s3.take(s0.len() as int)[i] == s0[i]);
                }
            }
        }
    }
}

/// Where to split the sequences of a store.
pub fn derive_splits(store: &SeqStore, entropy: &FseEntropyState, strategy: i32, optimal_depth: bool) -> (r:
    Vec<usize>)
    requires
        store.wf(),
        entropy.wf(),
        0 <= strategy <= 9,
        offsets_served(entropy@, store.triples(), strategy as int),
    ensures
        ordered_within(r@, 0, store.sequences@.len() as int),
        store.sequences@.len() < MIN_SEQUENCES ==> r@.len() == 0,
        r@ == splits_added(
            Seq::empty(),
            0,
            store.sequences@.len() as int,
            store.triples(),
            store.literals@,
            entropy@,
            strategy as int,
            optimal_depth,
        ),
{
    proof {
        reveal_with_fuel(splits_added, 1);
    }
    let mut splits: Vec<usize> = Vec::new();
    let n: usize = store.sequences.len();
    if n < MIN_SEQUENCES {
        return splits;
    }
    derive_splits_helper(&mut splits, 0, n, store, entropy, strategy, optimal_depth);
    splits
}

// ---------------------------------------------------------------------------
// Writing the parts.

/// Every sequence covers three bytes or more.
proof fn lemma_at_least(q: Seq<Triple>)
    requires
        forall|i: int| 0 <= i < q.len() ==> (#[trigger] q[i]).match_len >= 3,
    ensures
        triple_total(q) >= 3 * q.len(),
    decreases q.len(),
{
    if q.len() > 0 {
        assert forall|i: int| 0 <= i < q.len() - 1 implies (
        #[trigger] q.drop_last()[i]).match_len >= 3 by {
            assert(q.drop_last()[i] == q[i]);
        }
        lemma_at_least(q.drop_last());
    }
}

/// Where the part from sequence `a` on starts, and that it is not empty.
proof fn lemma_part_place(q: Seq<Triple>, a: int, b: int)
    requires
        0 <= a < b <= q.len(),
        forall|i: int| 0 <= i < q.len() ==> (#[trigger] q[i]).match_len >= 3,
    ensures
        triple_total(q.take(a)) + 3 <= triple_total(q.take(b)),
        triple_total(q.take(b)) <= triple_total(q),
        triple_total(q.take(a)) + triple_total(q.subrange(a, b)) == triple_total(q.take(b)),
{
    lemma_parts(q, a, b);
    lemma_part_le(q, a, b);
    assert forall|i: int| 0 <= i < b - a implies (#[trigger] q.subrange(a, b)[i]).match_len >= 3 by {
        assert(q.subrange(a, b)[i] == q[a + i]);
    }
    lemma_at_least(q.subrange(a, b));
}

/// The sequences `new` cover the same bytes with the same offsets as those of
/// `q` from the `a`-th on.
pub open spec fn same_matches(new: Seq<Triple>, d_rep: Seq<u32>, q: Seq<Triple>, rep: Seq<u32>, a: int) -> bool {
    forall|k: int|
        0 <= k < new.len() ==> {
            &&& #[trigger] offset_at(new, d_rep, k) == offset_at(q, rep, a + k)
            &&& new[k].lit_len == q[a + k].lit_len
            &&& new[k].match_len == q[a + k].match_len
        }
}

/// One more sequence with the same offset.
proof fn lemma_same_step(new: Seq<Triple>, t: Triple, d_rep: Seq<u32>, q: Seq<Triple>, rep: Seq<u32>, a: int)
    requires
        same_matches(new, d_rep, q, rep, a),
        spec_rep_offset(reps_after(new, d_rep), t.of_value as u32, t.lit_len == 0) == offset_at(
            q,
            rep,
            a + new.len(),
        ),
        t.lit_len == q[a + new.len()].lit_len,
        t.match_len == q[a + new.len()].match_len,
    ensures
        same_matches(new.push(t), d_rep, q, rep, a),
{
    let more = new.push(t);
    assert forall|k: int| 0 <= k < more.len() implies {
        &&& #[trigger] offset_at(more, d_rep, k) == offset_at(q, rep, a + k)
        &&& more[k].lit_len == q[a + k].lit_len
        &&& more[k].match_len == q[a + k].match_len
    } by {
        if k < new.len() {
            assert(more.take(k) =~= new.take(k));
            assert(offset_at(new, d_rep, k) == offset_at(more, d_rep, k));
        } else {
            assert(more.take(k) =~= new);
        }
    }
}

/// The value that a sequence is written with stands for the offset it has.
proof fn lemma_written(data: Seq<u8>, start: int, end: int, q: Seq<Triple>, rep: Seq<u32>, i: int, d_rep: Seq<u32>)
    requires
        0 <= i < q.len(),
        borne_out(data, start, end, q, rep),
        end <= data.len() <= u32::MAX,
        1 <= q[i].of_value <= u32::MAX,
    ensures
        ({
            let c_rep = reps_after(q.take(i), rep);
            let written = offset_written(q[i], d_rep, c_rep);
            let at = start + triple_total(q.take(i)) + q[i].lit_len;
            &&& written >= 1
            &&& spec_rep_offset(d_rep, written, q[i].lit_len == 0) == offset_at(q, rep, i)
            &&& bears_out(data, at, end, offset_at(q, rep, i) as int, q[i].match_len as int)
            &&& triple_total(q.take(i + 1)) == triple_total(q.take(i)) + q[i].lit_len + q[i].match_len
            &&& reps_after(q.take(i + 1), rep) == spec_new_rep(
                c_rep,
                q[i].of_value as u32,
                q[i].lit_len == 0,
            )
        }),
{
    reveal(borne_out);
    assert(q.take(i + 1).drop_last() =~= q.take(i));
    let o = offset_at(q, rep, i);
    assert(bears_out(
        data,
        start + triple_total(q.take(i)) + q[i].lit_len,
        end,
        o as int,
        q[i].match_len as int,
    ));
}

/// Parses `data[from .. to]` anew with the sequences `a .. b` of the store.
/// Where the recent offsets of the decoder have parted from those that the
/// store was made with, the offset is written out. The matches stay the same.
#[verifier::rlimit(40)]
fn reparse<'a>(
    data: &'a [u8],
    from: usize,
    to: usize,
    store: &SeqStore,
    a: usize,
    b: usize,
    d_rep: &mut [u32; 3],
    c_rep: &mut [u32; 3],
    rep: Ghost<RepView>,
    Ghost(start): Ghost<int>,
    Ghost(end): Ghost<int>,
    Ghost(rep0): Ghost<Seq<u32>>,
) -> (r: Parser<'a>)
    requires
        from <= to <= end <= data@.len(),
        to - from <= 131072,
        data@.len() <= u32::MAX,
        store.wf(),
        a <= b <= store.sequences@.len(),
        known(old(d_rep)@, rep@),
        borne_out(data@, start, end, store.triples(), rep0),
        old(c_rep)@ == reps_after(store.triples().take(a as int), rep0),
        from == start + triple_total(store.triples().take(a as int)),
        start + triple_total(store.triples().take(b as int)) <= to,
    ensures
        r.wf(),
        r.data@ == data@,
        r.start == from,
        r.end == to,
        r.rep0@ == rep@,
        known(final(d_rep)@, r.rep@),
        r.parse().triples.len() == b - a,
        same_matches(r.parse().triples, old(d_rep)@, store.triples(), rep0, a as int),
        final(c_rep)@ == reps_after(store.triples().take(b as int), rep0),
        (Reparsed { parse: r.parse(), d_rep: final(d_rep)@, c_rep: final(c_rep)@ }) == reparsed(
            store.triples(),
            a as int,
            b as int,
            Reparsed {
                parse: Parse { triples: Seq::empty(), anchor: from as int },
                d_rep: old(d_rep)@,
                c_rep: old(c_rep)@,
            },
        ),
{
    let mut p = Parser::new(data, from, to, Ghost(rep@));
    let ghost block = p;
    let ghost d_rep0 = d_rep@;
    let mut i: usize = a;
    let ghost q = store.triples();
    let ghost all = reparsed(
        q,
        a as int,
        b as int,
        Reparsed { parse: p.parse(), d_rep: d_rep@, c_rep: c_rep@ },
    );
    proof {
        lemma_nothing_parsed(&p);
        reveal(borne_out);
        assert(p.bears(d_rep0, d_rep0));
    }
    while i < b
        invariant
            a <= i <= b <= store.sequences@.len(),
            store.wf(),
            p.wf(),
            p.same_block(&block),
            block.data@ == data@,
            block.start == from,
            block.end == to,
            block.rep0@ == rep@,
            known(d_rep@, p.rep@),
            q == store.triples(),
            from <= to <= end <= data@.len() <= u32::MAX,
            borne_out(data@, start, end, q, rep0),
            c_rep@ == reps_after(q.take(i as int), rep0),
            p.anchor == start + triple_total(q.take(i as int)),
            start + triple_total(q.take(b as int)) <= to,
            p.bears(d_rep0, d_rep@),
            p.parse().triples.len() == i - a,
            same_matches(p.parse().triples, d_rep0, q, rep0, a as int),
            all == reparsed(
                q,
                i as int,
                b as int,
                Reparsed { parse: p.parse(), d_rep: d_rep@, c_rep: c_rep@ },
            ),
        decreases b - i,
    {
        proof {
            reveal_with_fuel(reparsed, 1);
            assert(store.sequences@[i as int].off_base >= 1);
            lemma_written(data@, start, end, q, rep0, i as int, d_rep@);
            lemma_parts(q, i + 1, b as int);
        }
        let lit: usize = store.lit_len_at(i);
        let len: usize = store.match_len_at(i);
        let off_base: u32 = store.sequences[i].off_base;
        let mut written: u32 = off_base;
        if off_base <= 3 {
            let d_raw: u32 = rep_offset(*d_rep, off_base, lit == 0);
            let c_raw: u32 = rep_offset(*c_rep, off_base, lit == 0);
            if d_raw != c_raw {
                written = c_raw + 3;
            }
        }
        let at: usize = p.anchor + lit;
        proof {
            let t = Triple { of_value: written as nat, lit_len: lit as nat, match_len: len as nat };
            lemma_same_step(p.parse().triples, t, d_rep0, q, rep0, a as int);
        }
        p.emit_known(at, written, len, d_rep);
        let next = new_rep(*c_rep, off_base, lit == 0);
        *c_rep = next;
        i = i + 1;
    }
    proof {
        reveal_with_fuel(reparsed, 1);
    }
    p
}

/// After a block, a table that was taken over unseen is looked at again.
pub fn settle_offsets(entropy: &mut FseEntropyState, Ghost(ctx): Ghost<CtxView>)
    requires
        old(entropy).wf(),
        old(entropy).in_step(ctx),
    ensures
        final(entropy).wf(),
        final(entropy).in_step(ctx),
        final(entropy)@ == offsets_settled(old(entropy)@),
{
    if entropy.of_repeat == FseRepeat::Valid {
        entropy.of_repeat = FseRepeat::Check;
    }
}

/// Writes the block `data[start .. end]`, for which `store` stands, as one or
/// more blocks. `rep` is what is known of the recent offsets before, and then
/// after it; `matcher_rep` what is known after all of the store.
#[verifier::rlimit(60)]
pub fn compress_block_split(
    out: &mut Vec<u8>,
    store: &SeqStore,
    data: &[u8],
    start: usize,
    end: usize,
    entropy: &mut FseEntropyState,
    rep: &mut [u32; 3],
    matcher_rep: [u32; 3],
    strategy: i32,
    last: bool,
    first_block: bool,
    reach: u64,
    Ghost(ctx): Ghost<CtxView>,
    Ghost(hist): Ghost<Seq<u8>>,
    Ghost(rep1): Ghost<RepView>,
    Ghost(block_max): Ghost<nat>,
) -> (r: (Ghost<CtxView>, Ghost<Seq<u8>>))
    requires
        start < end <= data@.len(),
        data@.len() <= u32::MAX,
        end - start <= 131072,
        end - start <= block_max,
        store.wf(),
        triple_total(store.triples()) + store.literals@.len() - lit_total(store.triples()) == end
            - start,
        old(entropy).wf(),
        old(entropy).in_step(ctx),
        0 <= strategy <= 9,
        offsets_ready(old(entropy)@, hist.len(), strategy as int),
        ends_with(hist, data@.take(start as int)),
        stands_for(store, data@, start as int, end as int, ctx.rep, rep1),
        known(old(rep)@, ctx.rep),
        known(matcher_rep@, rep1),
        borne_out(data@, start as int, end as int, store.triples(), old(rep)@),
        near_offsets(ctx.rep, reach as nat),
        reach <= 0x1_0000_0000,
    ensures
        final(entropy).wf(),
        final(entropy).in_step(r.0@),
        known(final(rep)@, r.0@.rep),
        final(out)@ == old(out)@ + r.1@,
        are_blocks(
            r.1@,
            last,
            ctx,
            hist,
            r.0@,
            hist + data@.subrange(start as int, end as int),
            block_max,
            reach as nat,
        ),
        near_offsets(r.0@.rep, reach as nat),
        (BlocksView { bytes: r.1@, entropy: final(entropy)@, rep: final(rep)@ }) == block_split(
            data@,
            start as int,
            end as int,
            store.triples(),
            store.literals@,
            old(entropy)@,
            old(rep)@,
            matcher_rep@,
            strategy as int,
            last,
            first_block,
            reach as nat,
        ),
{
    let ghost o = out@;
    let ghost q = store.triples();
    let ghost rep_in = rep@;
    let n: usize = store.sequences.len();
    proof {
        reveal(block_split);
        crate::seq_store::lemma_lit_total(q);
        assert forall|i: int| 0 <= i < q.len() implies (#[trigger] q[i]).match_len >= 3 by {}
        assert(stands_at(
            store,
            hist,
            data@.subrange(start as int, end as int),
            ctx.rep,
            rep1,
        ));
        lemma_offsets_in_reach(
            store,
            hist,
            data@.subrange(start as int, end as int),
            ctx.rep,
            rep1,
            entropy@,
            strategy as int,
        );
    }
    let splits: Vec<usize> = derive_splits(store, entropy, strategy, strategy >= 8);
    if splits.len() == 0 {
        let (w, bytes) = write_block(
            out,
            store,
            data,
            start,
            end,
            entropy,
            strategy,
            false,
            last,
            first_block,
            reach,
            Ghost(ctx),
            Ghost(hist),
            Ghost(rep1),
            Ghost(block_max),
        );
        if w.kind == BlockKind::Compressed {
            *rep = matcher_rep;
        }
        settle_offsets(entropy, Ghost(w.ctx@));
        proof {
            lemma_one_block(
                bytes@,
                last,
                ctx,
                hist,
                w.ctx@,
                data@.subrange(start as int, end as int),
                block_max,
                reach as nat,
            );
        }
        return (w.ctx, bytes);
    }
    let mut d_rep: [u32; 3] = *rep;
    let mut c_rep: [u32; 3] = *rep;
    let ghost mut c1 = ctx;
    let ghost mut h1 = hist;
    let ghost mut bytes = Seq::<u8>::empty();
    let mut from: usize = start;
    let mut k: usize = 0;
    let mut a: usize = 0;
    proof {
        lemma_no_blocks(ctx, hist, block_max, reach as nat);
        assert(q.take(0) =~= Seq::<Triple>::empty());
        assert(out@ =~= o + bytes);
        assert(hist + data@.subrange(start as int, start as int) =~= hist);
    }
    let ghost all = parts_written(
        data@,
        end as int,
        q,
        splits@,
        0,
        0,
        start as int,
        strategy as int,
        last,
        first_block,
        reach as nat,
        PartsView { bytes, entropy: entropy@, d_rep: d_rep@, c_rep: c_rep@ },
    );
    while k < splits.len()
        invariant
            k <= splits@.len(),
            splits@.len() > 0,
            ordered_within(splits@, 0, n as int),
            n == store.sequences@.len(),
            q == store.triples(),
            forall|i: int| 0 <= i < q.len() ==> (#[trigger] q[i]).match_len >= 3,
            store.wf(),
            k == 0 ==> a == 0,
            k > 0 ==> a == splits@[k - 1],
            start <= from < end <= data@.len(),
            data@.len() <= u32::MAX,
            end - start <= 131072,
            end - start <= block_max,
            triple_total(q) <= end - start,
            from == start + triple_total(q.take(a as int)),
            entropy.wf(),
            entropy.in_step(c1),
            0 <= strategy <= 9,
            offsets_ready(entropy@, h1.len(), strategy as int),
            borne_out(data@, start as int, end as int, q, rep_in),
            c_rep@ == reps_after(q.take(a as int), rep_in),
            known(d_rep@, c1.rep),
            h1 == hist + data@.subrange(start as int, from as int),
            ends_with(hist, data@.take(start as int)),
            out@ == o + bytes,
            are_blocks(bytes, false, ctx, hist, c1, h1, block_max, reach as nat),
            near_offsets(c1.rep, reach as nat),
            reach <= 0x1_0000_0000,
            all == parts_written(
                data@,
                end as int,
                q,
                splits@,
                k as nat,
                a as int,
                from as int,
                strategy as int,
                last,
                first_block,
                reach as nat,
                PartsView { bytes, entropy: entropy@, d_rep: d_rep@, c_rep: c_rep@ },
            ),
        decreases splits@.len() - k,
    {
        proof {
            reveal_with_fuel(parts_written, 1);
            reveal(part_written);
        }
        let b: usize = splits[k];
        proof {
            assert(0 < b < n);
            if k > 0 {
                assert(splits@[k - 1] < splits@[k as int]);
            }
            lemma_part_place(q, a as int, b as int);
            lemma_part_place(q, b as int, n as int);
            assert(q.take(n as int) =~= q);
        }
        let size: usize = part_size(store, a, b);
        let to: usize = from + size;
        let before: [u32; 3] = d_rep;
        let p = reparse(data, from, to, store, a, b, &mut d_rep, &mut c_rep, Ghost(c1.rep), Ghost(start as int), Ghost(end as int), Ghost(rep_in));
        let ghost after = p.rep@;
        let part = p.finish();
        proof {
            lemma_ends_further(hist, data@, start as int, from as int);
            assert(stands_at(
                &part,
                h1,
                data@.subrange(from as int, to as int),
                c1.rep,
                after,
            ));
        }
        let (w, more) = write_block(
            out,
            &part,
            data,
            from,
            to,
            entropy,
            strategy,
            false,
            false,
            first_block,
            reach,
            Ghost(c1),
            Ghost(h1),
            Ghost(after),
            Ghost(block_max),
        );
        if w.kind != BlockKind::Compressed {
            d_rep = before;
        }
        settle_offsets(entropy, Ghost(w.ctx@));
        proof {
            let h2 = h1 + data@.subrange(from as int, to as int);
            let part_bytes = data@.subrange(from as int, to as int);
            lemma_one_block(more@, false, c1, h1, w.ctx@, part_bytes, block_max, reach as nat);
            lemma_more_blocks(
                bytes,
                more@,
                false,
                ctx,
                hist,
                c1,
                h1,
                w.ctx@,
                h2,
                block_max,
                reach as nat,
            );
            assert(h2 =~= hist + data@.subrange(start as int, to as int));
            assert(out@ =~= o + (bytes + more@));
            bytes = bytes + more@;
            c1 = w.ctx@;
            h1 = h2;
        }
        from = to;
        a = b;
        k = k + 1;
    }
    proof {
        reveal_with_fuel(parts_written, 1);
        reveal(part_written);
    }
    proof {
        assert(q.take(n as int) =~= q);
    }
    let before: [u32; 3] = d_rep;
    let p = reparse(data, from, end, store, a, n, &mut d_rep, &mut c_rep, Ghost(c1.rep), Ghost(start as int), Ghost(end as int), Ghost(rep_in));
    let ghost after = p.rep@;
    let part = p.finish();
    proof {
        lemma_ends_further(hist, data@, start as int, from as int);
        assert(stands_at(&part, h1, data@.subrange(from as int, end as int), c1.rep, after));
    }
    let (w, more) = write_block(
        out,
        &part,
        data,
        from,
        end,
        entropy,
        strategy,
        false,
        last,
        first_block,
        reach,
        Ghost(c1),
        Ghost(h1),
        Ghost(after),
        Ghost(block_max),
    );
    if w.kind != BlockKind::Compressed {
        d_rep = before;
    }
    settle_offsets(entropy, Ghost(w.ctx@));
    *rep = d_rep;
    proof {
        let h2 = h1 + data@.subrange(from as int, end as int);
        let part_bytes = data@.subrange(from as int, end as int);
        lemma_one_block(more@, last, c1, h1, w.ctx@, part_bytes, block_max, reach as nat);
        lemma_more_blocks(
            bytes,
            more@,
            last,
            ctx,
            hist,
            c1,
            h1,
            w.ctx@,
            h2,
            block_max,
            reach as nat,
        );
        assert(h2 =~= hist + data@.subrange(start as int, end as int));
        assert(out@ =~= o + (bytes + more@));
        bytes = bytes + more@;
    }
    (w.ctx, Ghost(bytes))
}

/// The bytes that the sequences `a .. b` cover.
fn part_size(store: &SeqStore, a: usize, b: usize) -> (r: usize)
    requires
        store.wf(),
        a <= b <= store.sequences@.len(),
    ensures
        r == triple_total(store.triples().subrange(a as int, b as int)),
        r <= 131072,
{
    let ghost q = store.triples();
    let mut r: usize = 0;
    let mut i: usize = a;
    proof {
        assert(q.subrange(a as int, a as int) =~= Seq::<Triple>::empty());
    }
    while i < b
        invariant
            a <= i <= b <= store.sequences@.len(),
            store.wf(),
            q == store.triples(),
            r == triple_total(q.subrange(a as int, i as int)),
            r <= 131072,
        decreases b - i,
    {
        proof {
            assert(q.subrange(a as int, i + 1).drop_last() =~= q.subrange(a as int, i as int));
            lemma_part_le(q, a as int, i + 1);
        }
        r = r + store.lit_len_at(i) + store.match_len_at(i);
        i = i + 1;
    }
    r
}

/// A history goes on with the data that follows it.
pub proof fn lemma_ends_further(hist: Seq<u8>, data: Seq<u8>, a: int, b: int)
    requires
        0 <= a <= b <= data.len(),
        ends_with(hist, data.take(a)),
    ensures
        ends_with(hist + data.subrange(a, b), data.take(b)),
{
    let h = hist + data.subrange(a, b);
    let t = h.skip(h.len() - b);
    assert(t =~= data.take(b)) by {
        assert forall|k: int| 0 <= k < b implies #[trigger] t[k] == data[k] by {
            if k < a {
                assert(hist.skip(hist.len() - a)[k] == data.take(a)[k]);
            }
        }
    }
}

} // verus!
