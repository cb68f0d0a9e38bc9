//! Where a parsed block is split, and the blocks that come of it.

use crate::block::{SeqKind, LL_BITS, ML_BITS};
use crate::block_encode_model::{
    cost_with, ll_codes_of, ml_codes_of, of_codes_of, spec_block, spec_components, ComponentView, EntropyView,
    HufStateView,
};
use crate::blocks_encode::BlockKind;
use crate::histogram::{spec_histogram, spec_largest, spec_top};
use crate::huffman_encode::HufRepeat;
use crate::huffman_encode_model::{
    estimated, spec_complete_table, spec_describe, spec_huf_log, table_serves, HufCView,
};
use crate::huffman_tree::present;
use crate::parser::{block_literals, spec_new_rep, spec_rep_offset, Parse};
use crate::seq_store::{lit_total, triple_total, Triple};
use crate::seq_tables::{cross_cost, FseRepeat, SymbolEncodingType};
use vstd::prelude::*;

verus! {

// ---------------------------------------------------------------------------
// Estimates.

/// How the literals of a part would be written.
pub struct LitChoice {
    pub choice: SymbolEncodingType,
    pub description: nat,
    pub table: Option<HufCView>,
}

pub open spec fn plain_literals() -> LitChoice {
    LitChoice { choice: SymbolEncodingType::Basic, description: 0, table: None }
}

/// Literals with a table of their own, or the table of the block before where
/// that is estimated no larger.
#[verifier::opaque]
pub open spec fn chosen_table(
    literals: Seq<u8>,
    count: Seq<u32>,
    max_symbol: u32,
    prev: Option<HufCView>,
    optimal_depth: bool,
) -> LitChoice {
    let size = literals.len();
    match spec_complete_table(
        count,
        max_symbol,
        spec_huf_log(11, size, max_symbol, count, optimal_depth),
    ) {
        Some(ct) => match spec_describe(ct) {
            Some(d) => {
                let fresh = estimated(ct, count, max_symbol);
                if prev is Some && estimated(prev->0, count, max_symbol) < size && (estimated(
                    prev->0,
                    count,
                    max_symbol,
                ) <= d.len() + fresh || d.len() + 12 >= size) {
                    LitChoice { choice: SymbolEncodingType::Repeat, description: 0, table: None }
                } else if fresh + d.len() >= size {
                    plain_literals()
                } else {
                    LitChoice {
                        choice: SymbolEncodingType::Compressed,
                        description: d.len(),
                        table: Some(ct),
                    }
                }
            },
            None => plain_literals(),
        },
        None => plain_literals(),
    }
}

/// How the literals would be written.
#[verifier::opaque]
pub open spec fn chosen_literals(literals: Seq<u8>, prev: HufStateView, optimal_depth: bool) -> LitChoice {
    let size = literals.len();
    let least: nat = if prev.repeat == HufRepeat::Valid {
        6
    } else {
        63
    };
    let count = spec_histogram(literals, 256);
    let max_symbol = spec_top(count, 256) as u32;
    let largest = spec_largest(count, 256);
    if size <= least {
        plain_literals()
    } else if largest == size {
        LitChoice { choice: SymbolEncodingType::Rle, description: 0, table: None }
    } else if largest <= size / 128 + 4 || present(count, (max_symbol + 1) as nat) < 2 {
        plain_literals()
    } else {
        let usable = prev.table is Some && prev.repeat != HufRepeat::Never && (prev.repeat
            == HufRepeat::Check ==> table_serves(prev.table->0, count, max_symbol));
        chosen_table(
            literals,
            count,
            max_symbol,
            if usable {
                prev.table
            } else {
                None
            },
            optimal_depth,
        )
    }
}

/// The size of the literals written with `table`.
#[verifier::opaque]
pub open spec fn literals_estimate(literals: Seq<u8>, table: HufCView, description: nat) -> nat {
    let size = literals.len();
    let header: nat = if size >= 16384 {
        5
    } else if size >= 1024 {
        4
    } else {
        3
    };
    let streams: nat = if size < 256 {
        0
    } else {
        6
    };
    let count = spec_histogram(literals, 256);
    estimated(table, count, spec_top(count, 256) as u32) + description + streams + header
}

pub open spec fn extra_of(kind: SeqKind, code: u8) -> u32 {
    match kind {
        SeqKind::LiteralLength => LL_BITS[code as int],
        SeqKind::Offset => code as u32,
        SeqKind::MatchLength => ML_BITS[code as int],
    }
}

/// The extra bits of the codes from the `i`-th on, added to `bits`.
#[verifier::opaque]
pub open spec fn extras_counted(kind: SeqKind, codes: Seq<u8>, i: nat, bits: u64) -> u64
    decreases codes.len() - i,
{
    if i < codes.len() {
        extras_counted(
            kind,
            codes,
            i + 1,
            bits.wrapping_add(extra_of(kind, codes[i as int]) as u64),
        )
    } else {
        bits
    }
}

/// The size of one component's codes with their extra bits.
#[verifier::opaque]
pub open spec fn component_estimate(c: ComponentView, codes: Seq<u8>, kind: SeqKind) -> nat {
    let n = kind.spec_max_symbol() + 1;
    let count = spec_histogram(codes, n);
    let max = spec_top(count, n);
    let bits: Option<int> = match c.choice {
        SymbolEncodingType::Basic => if kind == SeqKind::Offset && max > 28 {
            None
        } else {
            Some(
                (cross_cost(kind.default_counts(), kind.default_log(), count, max + 1)
                    / 256) as int,
            )
        },
        SymbolEncodingType::Rle => Some(0),
        _ => cost_with(c.table, count, max),
    };
    match bits {
        Some(b) => extras_counted(kind, codes, 0, b as u64) as nat / 8,
        None => codes.len() * 10,
    }
}

/// The size of a part's sequences; none where it is out of all range.
#[verifier::opaque]
pub open spec fn sequences_estimate(q: Seq<Triple>, e: EntropyView, strategy: int) -> Option<nat> {
    let header: nat = 2 + (if q.len() >= 128 {
        1nat
    } else {
        0
    }) + if q.len() >= 0x7F00 {
        1nat
    } else {
        0
    };
    if q.len() == 0 {
        Some(header)
    } else {
        match spec_components(e, ll_codes_of(q), of_codes_of(q), ml_codes_of(q), strategy) {
            Ok(c) => {
                let all = component_estimate(c.of, of_codes_of(q), SeqKind::Offset)
                    + component_estimate(c.ll, ll_codes_of(q), SeqKind::LiteralLength)
                    + component_estimate(c.ml, ml_codes_of(q), SeqKind::MatchLength)
                    + c.ll.header.len() + c.of.header.len() + c.ml.header.len() + header;
                if all > 0x6800_0000_0000_0000 {
                    None
                } else {
                    Some(all)
                }
            },
            Err(_) => None,
        }
    }
}

/// The size of a part as a block of its own; none where it is out of all range.
#[verifier::opaque]
pub open spec fn part_estimate(q: Seq<Triple>, literals: Seq<u8>, e: EntropyView, strategy: int, optimal_depth: bool) -> Option<
    nat,
> {
    let l = chosen_literals(literals, e.huf, optimal_depth);
    match sequences_estimate(q, e, strategy) {
        Some(s) => {
            let lits = match l.choice {
                SymbolEncodingType::Basic => literals.len(),
                SymbolEncodingType::Rle => 1,
                SymbolEncodingType::Compressed => literals_estimate(
                    literals,
                    l.table->0,
                    l.description,
                ),
                SymbolEncodingType::Repeat => literals_estimate(literals, e.huf.table->0, 0),
            };
            Some(lits + s + 3)
        },
        None => None,
    }
}

// ---------------------------------------------------------------------------
// Splits.

/// The literals of the sequences `a .. b`; the last part takes those after the
/// last sequence too.
pub open spec fn part_literals(q: Seq<Triple>, literals: Seq<u8>, a: int, b: int) -> Seq<u8> {
    literals.subrange(
        lit_total(q.take(a)) as int,
        if b == q.len() {
            literals.len() as int
        } else {
            lit_total(q.take(b)) as int
        },
    )
}

/// The size of the sequences `a .. b` as a block of their own.
pub open spec fn range_estimate(
    q: Seq<Triple>,
    literals: Seq<u8>,
    a: int,
    b: int,
    e: EntropyView,
    strategy: int,
    optimal_depth: bool,
) -> Option<nat> {
    part_estimate(
        q.subrange(a, b),
        part_literals(q, literals, a, b),
        e,
        strategy,
        optimal_depth,
    )
}

/// The halves of `start .. end` are estimated smaller than the whole.
pub open spec fn halves_smaller(
    start: int,
    end: int,
    q: Seq<Triple>,
    literals: Seq<u8>,
    e: EntropyView,
    strategy: int,
    optimal_depth: bool,
) -> bool {
    let mid = (start + end) / 2;
    let whole = range_estimate(q, literals, start, end, e, strategy, optimal_depth);
    let left = range_estimate(q, literals, start, mid, e, strategy, optimal_depth);
    let right = range_estimate(q, literals, mid, end, e, strategy, optimal_depth);
    whole is Some && left is Some && right is Some && left->0 + right->0 < whole->0
}

/// `splits` with those of `start .. end`: the middle, if the halves are
/// estimated smaller than the whole, and then those of each half.
#[verifier::opaque]
pub open spec fn splits_added(
    splits: Seq<usize>,
    start: int,
    end: int,
    q: Seq<Triple>,
    literals: Seq<u8>,
    e: EntropyView,
    strategy: int,
    optimal_depth: bool,
) -> Seq<usize>
    decreases end - start,
{
    if end - start < 300 || splits.len() >= 196 {
        splits
    } else if halves_smaller(start, end, q, literals, e, strategy, optimal_depth) {
        let mid = (start + end) / 2;
        let left = splits_added(splits, start, mid, q, literals, e, strategy, optimal_depth);
        splits_added(
            left.push(mid as usize),
            mid,
            end,
            q,
            literals,
            e,
            strategy,
            optimal_depth,
        )
    } else {
        splits
    }
}

// ---------------------------------------------------------------------------
// Writing the parts.

/// A part parsed anew: how far it got, and the recent offsets on either side.
pub struct Reparsed {
    pub parse: Parse,
    pub d_rep: Seq<u32>,
    pub c_rep: Seq<u32>,
}

/// The offset value that a sequence is written with: the one it has, or the
/// offset itself where the recent offsets of the two sides differ.
pub open spec fn offset_written(t: Triple, d_rep: Seq<u32>, c_rep: Seq<u32>) -> u32 {
    let off_base = t.of_value as u32;
    let d_raw = spec_rep_offset(d_rep, off_base, t.lit_len == 0);
    let c_raw = spec_rep_offset(c_rep, off_base, t.lit_len == 0);
    if off_base <= 3 && d_raw != c_raw {
        (c_raw + 3) as u32
    } else {
        off_base
    }
}

/// The sequences from the `i`-th to before the `b`-th parsed anew.
#[verifier::opaque]
pub open spec fn reparsed(q: Seq<Triple>, i: int, b: int, r: Reparsed) -> Reparsed
    decreases b - i,
{
    if i < b {
        let t = q[i];
        let written = offset_written(t, r.d_rep, r.c_rep);
        reparsed(
            q,
            i + 1,
            b,
            Reparsed {
                parse: r.parse.with_match(
                    r.parse.anchor + t.lit_len,
                    written as nat,
                    t.match_len,
                ),
                d_rep: spec_new_rep(r.d_rep, written, t.lit_len == 0),
                c_rep: spec_new_rep(r.c_rep, t.of_value as u32, t.lit_len == 0),
            },
        )
    } else {
        r
    }
}

/// After a block, a table that was taken over unseen is looked at again.
pub open spec fn offsets_settled(e: EntropyView) -> EntropyView {
    EntropyView {
        of_repeat: if e.of_repeat == FseRepeat::Valid {
            FseRepeat::Check
        } else {
            e.of_repeat
        },
        ..e
    }
}

/// Blocks as they are written, and what they leave: the entropy state and the
/// recent offsets of a decoder and of the parse.
pub struct PartsView {
    pub bytes: Seq<u8>,
    pub entropy: EntropyView,
    pub d_rep: Seq<u32>,
    pub c_rep: Seq<u32>,
}

/// The sequences `a .. b` as the block `data[from .. to]`.
#[verifier::opaque]
pub open spec fn part_written(
    data: Seq<u8>,
    from: int,
    to: int,
    q: Seq<Triple>,
    a: int,
    b: int,
    strategy: int,
    last: bool,
    first_block: bool,
    reach: nat,
    s: PartsView,
) -> PartsView {
    let r = reparsed(
        q,
        a,
        b,
        Reparsed {
            parse: Parse { triples: Seq::empty(), anchor: from },
            d_rep: s.d_rep,
            c_rep: s.c_rep,
        },
    );
    let w = spec_block(
        data.subrange(from, to),
        r.parse.triples,
        block_literals(data, from, to, r.parse.triples),
        s.entropy,
        strategy,
        false,
        last,
        first_block,
        reach,
    );
    PartsView {
        bytes: s.bytes + w.bytes,
        entropy: offsets_settled(w.entropy),
        d_rep: if w.kind == BlockKind::Compressed {
            r.d_rep
        } else {
            s.d_rep
        },
        c_rep: r.c_rep,
    }
}

/// The parts from the `k`-th split on, where the one before ended at sequence
/// `a` and at `from`.
#[verifier::opaque]
pub open spec fn parts_written(
    data: Seq<u8>,
    end: int,
    q: Seq<Triple>,
    splits: Seq<usize>,
    k: nat,
    a: int,
    from: int,
    strategy: int,
    last: bool,
    first_block: bool,
    reach: nat,
    s: PartsView,
) -> PartsView
    decreases splits.len() - k,
{
    if k < splits.len() {
        let b = splits[k as int] as int;
        let to = from + triple_total(q.subrange(a, b));
        parts_written(
            data,
            end,
            q,
            splits,
            k + 1,
            b,
            to,
            strategy,
            last,
            first_block,
            reach,
            part_written(data, from, to, q, a, b, strategy, false, first_block, reach, s),
        )
    } else {
        part_written(data, from, end, q, a, q.len() as int, strategy, last, first_block, reach, s)
    }
}

/// What writing a parsed block gives, and the state after it.
pub struct BlocksView {
    pub bytes: Seq<u8>,
    pub entropy: EntropyView,
    pub rep: Seq<u32>,
}

/// The block `data[start .. end]` with these sequences and literals, written
/// as one or more blocks.
#[verifier::opaque]
pub open spec fn block_split(
    data: Seq<u8>,
    start: int,
    end: int,
    q: Seq<Triple>,
    literals: Seq<u8>,
    e: EntropyView,
    rep: Seq<u32>,
    matcher_rep: Seq<u32>,
    strategy: int,
    last: bool,
    first_block: bool,
    reach: nat,
) -> BlocksView {
    let splits = splits_added(
        Seq::empty(),
        0,
        q.len() as int,
        q,
        literals,
        e,
        strategy,
        strategy >= 8,
    );
    if splits.len() == 0 {
        let w = spec_block(
            data.subrange(start, end),
            q,
            literals,
            e,
            strategy,
            false,
            last,
            first_block,
            reach,
        );
        BlocksView {
            bytes: w.bytes,
            entropy: offsets_settled(w.entropy),
            rep: if w.kind == BlockKind::Compressed {
                matcher_rep
            } else {
                rep
            },
        }
    } else {
        let s = parts_written(
            data,
            end,
            q,
            splits,
            0,
            0,
            start,
            strategy,
            last,
            first_block,
            reach,
            PartsView { bytes: Seq::empty(), entropy: e, d_rep: rep, c_rep: rep },
        );
        BlocksView { bytes: s.bytes, entropy: s.entropy, rep: s.d_rep }
    }
}

} // verus!
