//! How a block is written, byte by byte.

use crate::bits::highest_bit;
use crate::bits_encode::{append_field, closed_bytes, Bits};
use crate::block::{SeqKind, LL_BITS, ML_BITS};
use crate::blocks_encode::{all_same, BlockKind};
use crate::dict_encode::top_offset_code;
use crate::error::Error;
use crate::frame_encode::block_header_bytes;
use crate::fse_counts_model::{spec_normalize, spec_write_ncount, NormView};
use crate::fse_encode::spec_optimal_table_log;
use crate::fse_encode_model::{spec_ctable, spec_rle_ctable, FseCView};
use crate::histogram::{spec_histogram, spec_largest, spec_top};
use crate::huffman_encode::HufRepeat;
use crate::huffman_encode_model::{spec_huf_compress, HufCView, HufOutView};
use crate::literals_encode::{spec_min_gain, spec_min_literals};
use crate::seq_codes::{spec_ll_code, spec_ml_code};
use crate::seq_store::{near_values, Triple};
use crate::seq_tables::{
    cross_cost, default_len, own_cost, quick_choice, repeat_after, spec_use_low_prob, FseRepeat, SymbolEncodingType,
};
use crate::sequences_encode::worth_keeping;
use vstd::prelude::*;

verus! {

// ---------------------------------------------------------------------------
// Literals.

/// The Huffman state that carries over from block to block.
pub struct HufStateView {
    pub table: Option<HufCView>,
    pub repeat: HufRepeat,
}

/// The header of a raw (0) or repeated-byte (1) section of `n` literals.
pub open spec fn basic_header_bytes(ty: nat, n: nat) -> Seq<u8> {
    if n <= 31 {
        seq![(ty + n * 8) as u8]
    } else if n <= 4095 {
        seq![(ty + 4 + (n % 16) * 16) as u8, (n / 16) as u8]
    } else {
        seq![(ty + 12 + (n % 16) * 16) as u8, (n / 16 % 256) as u8, (n / 4096) as u8]
    }
}

/// The header of a coded section of `n` literals in `c` bytes.
pub open spec fn coded_header_bytes(ty: nat, n: nat, c: nat, single: bool) -> Seq<u8> {
    let low = (n % 16) * 16;
    if n < 1024 {
        seq![
            (ty + (if single {
                0nat
            } else {
                4
            }) + low) as u8,
            (n / 16 + (c % 4) * 64) as u8,
            (c / 4) as u8,
        ]
    } else if n < 16384 {
        seq![
            (ty + 8 + low) as u8,
            (n / 16 % 256) as u8,
            (n / 4096 + (c % 64) * 4) as u8,
            (c / 64) as u8,
        ]
    } else {
        seq![
            (ty + 12 + low) as u8,
            (n / 16 % 256) as u8,
            (n / 4096 + (c % 4) * 64) as u8,
            (c / 4 % 256) as u8,
            (c / 1024) as u8,
        ]
    }
}

pub open spec fn raw_section(src: Seq<u8>) -> Seq<u8> {
    basic_header_bytes(0, src.len()) + src
}

/// A coded section, unless it saves too little.
pub open spec fn coded_section(src: Seq<u8>, ty: nat, payload: Seq<u8>, single: bool, strategy: int) -> Option<Seq<u8>> {
    if payload.len() + spec_min_gain(src.len(), strategy) >= src.len() {
        None
    } else {
        Some(coded_header_bytes(ty, src.len(), payload.len(), single) + payload)
    }
}

/// The literals section for `src`, and the new state where a fresh table was
/// written.
#[verifier::opaque]
pub open spec fn literals_section(src: Seq<u8>, strategy: int, suspect_flat: bool, disable: bool, prev: HufStateView) -> (
    Seq<u8>,
    Option<HufStateView>,
) {
    let n = src.len();
    let valid = prev.repeat == HufRepeat::Valid;
    let single = n < 256 || (valid && n < 1024);
    if disable || n < spec_min_literals(strategy, valid) {
        (raw_section(src), None)
    } else {
        match spec_huf_compress(
            src,
            single,
            suspect_flat,
            strategy < 4 && n <= 1024,
            strategy >= 8,
            prev.table,
            prev.repeat,
        ) {
            HufOutView::Raw => (raw_section(src), None),
            HufOutView::Rle => (basic_header_bytes(1, n) + seq![src[0]], None),
            HufOutView::Compressed(payload, ct) => match coded_section(
                src,
                2,
                payload,
                single,
                strategy,
            ) {
                Some(s) => (s, Some(HufStateView { table: Some(ct), repeat: HufRepeat::Check })),
                None => (raw_section(src), None),
            },
            HufOutView::Repeat(payload) => match coded_section(src, 3, payload, single, strategy) {
                Some(s) => (s, None),
                None => (raw_section(src), None),
            },
        }
    }
}

// ---------------------------------------------------------------------------
// The tables of the sequence components.

/// The bits, in 256ths, that the symbols from `s` to `max` cost with a table,
/// added to `cost`; nothing where it lacks one.
#[verifier::opaque]
pub open spec fn costs_from(ct: FseCView, count: Seq<u32>, s: nat, max: nat, cost: int) -> Option<int>
    decreases max + 1 - s,
{
    if s <= max {
        let c = count[s as int] as int;
        if c == 0 {
            costs_from(ct, count, s + 1, max, cost)
        } else if ct.cost(s as int) >= (ct.log + 1) * 256 {
            None
        } else {
            costs_from(ct, count, s + 1, max, cost + c * ct.cost(s as int))
        }
    } else {
        Some(cost)
    }
}

/// The bits that `count` costs with the table, or nothing.
pub open spec fn cost_with(ct: FseCView, count: Seq<u32>, max: nat) -> Option<int> {
    if ct.tt.len() - 1 < max {
        None
    } else {
        match costs_from(ct, count, 0, max, 0) {
            Some(c) => Some(c / 256),
            None => None,
        }
    }
}

/// The bytes that describing the distribution of `count` takes.
#[verifier::opaque]
pub open spec fn description_cost(count: Seq<u32>, max: nat, nb_seq: nat, max_log: nat) -> Result<nat, Error> {
    let log = spec_optimal_table_log(max_log, nb_seq, max, 2);
    match spec_normalize(count, nb_seq, max, log, spec_use_low_prob(nb_seq)) {
        Ok(NormView::Table(norm)) => match spec_write_ncount(norm, log) {
            Ok(h) => Ok(h.len()),
            Err(e) => Err(e),
        },
        Ok(NormView::Rle(_)) => Err(Error::Encode("RLE distribution in NCount cost")),
        Err(e) => Err(e),
    }
}

/// The choice by estimated cost.
#[verifier::opaque]
pub open spec fn cheapest_choice(
    repeat: FseRepeat,
    count: Seq<u32>,
    max: nat,
    nb_seq: nat,
    kind: SeqKind,
    prev: Option<FseCView>,
) -> Result<SymbolEncodingType, Error> {
    let allowed = max < default_len(kind);
    let basic = if allowed {
        cross_cost(kind.default_counts(), kind.default_log(), count, max + 1) / 256
    } else {
        0xFFFF_FFFF_FFFF_FFFF
    };
    let repeated = if repeat != FseRepeat::Never && prev is Some && cost_with(
        prev->0,
        count,
        max,
    ) is Some {
        cost_with(prev->0, count, max)->0
    } else {
        0xFFFF_FFFF_FFFF_FFFF
    };
    match description_cost(count, max, nb_seq, kind.spec_max_log()) {
        Ok(described) => {
            let compressed = if described < 0x1000_0000_0000 {
                described * 8 + own_cost(count, nb_seq, max + 1) / 256
            } else {
                0xFFFF_FFFF_FFFF_FFFE
            };
            if allowed && basic <= repeated && basic <= compressed {
                Ok(SymbolEncodingType::Basic)
            } else if repeated <= compressed {
                Ok(SymbolEncodingType::Repeat)
            } else {
                Ok(SymbolEncodingType::Compressed)
            }
        },
        Err(e) => Err(e),
    }
}

/// How a component's table is given.
#[verifier::opaque]
pub open spec fn spec_choice(
    repeat: FseRepeat,
    count: Seq<u32>,
    max: nat,
    most_frequent: nat,
    nb_seq: nat,
    kind: SeqKind,
    prev: Option<FseCView>,
    strategy: int,
) -> Result<SymbolEncodingType, Error> {
    let allowed = max < default_len(kind);
    if most_frequent == nb_seq {
        Ok(
            if allowed && nb_seq <= 2 {
                SymbolEncodingType::Basic
            } else {
                SymbolEncodingType::Rle
            },
        )
    } else if strategy < 4 {
        Ok(quick_choice(repeat, most_frequent, nb_seq, kind.default_log(), allowed, strategy))
    } else {
        cheapest_choice(repeat, count, max, nb_seq, kind, prev)
    }
}

/// The counts without the last code, where that leaves one: the final state
/// shows it.
pub open spec fn without_last(count: Seq<u32>, codes: Seq<u8>) -> (Seq<u32>, nat) {
    let last = codes.last() as int;
    if count[last] > 1 {
        (count.update(last, (count[last] - 1) as u32), (codes.len() - 1) as nat)
    } else {
        (count, codes.len())
    }
}

/// A described table, and its description.
#[verifier::opaque]
pub open spec fn table_described(kind: SeqKind, count: Seq<u32>, max: nat, codes: Seq<u8>) -> Result<
    (FseCView, Seq<u8>),
    Error,
> {
    let log = spec_optimal_table_log(kind.spec_max_log(), codes.len(), max, 2);
    let (adjusted, total) = without_last(count, codes);
    match spec_normalize(adjusted, total, max, log, spec_use_low_prob(total)) {
        Ok(NormView::Table(norm)) => match spec_write_ncount(norm, log) {
            Ok(h) => Ok((spec_ctable(norm, log), h)),
            Err(e) => Err(e),
        },
        Ok(NormView::Rle(_)) => Err(Error::Encode("degenerate compressed distribution")),
        Err(e) => Err(e),
    }
}

/// The table that `choice` says, and the bytes that give it.
#[verifier::opaque]
pub open spec fn table_given(
    choice: SymbolEncodingType,
    kind: SeqKind,
    count: Seq<u32>,
    max: nat,
    codes: Seq<u8>,
    prev: Option<FseCView>,
) -> Result<(FseCView, Seq<u8>), Error> {
    match choice {
        SymbolEncodingType::Rle => Ok((spec_rle_ctable(max as u8), seq![codes[0]])),
        SymbolEncodingType::Repeat => match prev {
            Some(p) => Ok((p, Seq::empty())),
            None => Err(Error::Encode("repeat mode without previous table")),
        },
        SymbolEncodingType::Basic => Ok(
            (spec_ctable(kind.default_counts(), kind.default_log()), Seq::empty()),
        ),
        SymbolEncodingType::Compressed => table_described(kind, count, max, codes),
    }
}

/// One component: its choice, its table, and the bytes that give the table.
pub struct ComponentView {
    pub choice: SymbolEncodingType,
    pub table: FseCView,
    pub header: Seq<u8>,
}

#[verifier::opaque]
pub open spec fn spec_component(codes: Seq<u8>, kind: SeqKind, prev: Option<FseCView>, repeat: FseRepeat, strategy: int) -> Result<
    ComponentView,
    Error,
> {
    let n = kind.spec_max_symbol() + 1;
    let all = spec_histogram(codes, n);
    let max = spec_top(all, n);
    let count = all.subrange(0, (max + 1) as int);
    let most_frequent = spec_largest(count, max + 1) as nat;
    match spec_choice(repeat, count, max, most_frequent, codes.len(), kind, prev, strategy) {
        Ok(choice) => match table_given(choice, kind, count, max, codes, prev) {
            Ok((table, header)) => Ok(ComponentView { choice, table, header }),
            Err(e) => Err(e),
        },
        Err(e) => Err(e),
    }
}

// ---------------------------------------------------------------------------
// Sequences.

pub open spec fn ll_codes_of(q: Seq<Triple>) -> Seq<u8> {
    Seq::new(q.len(), |i: int| spec_ll_code(q[i].lit_len) as u8)
}

pub open spec fn of_codes_of(q: Seq<Triple>) -> Seq<u8> {
    Seq::new(q.len(), |i: int| highest_bit(q[i].of_value) as u8)
}

pub open spec fn ml_codes_of(q: Seq<Triple>) -> Seq<u8> {
    Seq::new(q.len(), |i: int| spec_ml_code((q[i].match_len - 3) as nat) as u8)
}

/// The extra bits of one sequence.
#[verifier::opaque]
pub open spec fn extras_appended(b: Bits, t: Triple) -> Bits {
    append_field(
        append_field(
            append_field(b, t.lit_len, LL_BITS[spec_ll_code(t.lit_len) as int] as nat),
            (t.match_len - 3) as nat,
            ML_BITS[spec_ml_code((t.match_len - 3) as nat) as int] as nat,
        ),
        t.of_value,
        highest_bit(t.of_value),
    )
}

/// The three tables of a block.
pub struct SeqTablesView {
    pub ll: FseCView,
    pub of: FseCView,
    pub ml: FseCView,
}

/// The sequences before the `n`-th appended, last one first, and then the three
/// states.
#[verifier::opaque]
pub open spec fn sequences_appended(t: SeqTablesView, q: Seq<Triple>, n: nat, b: Bits, ll: nat, of: nat, ml: nat) -> Bits
    decreases n,
{
    if n > 0 {
        let lc = ll_codes_of(q)[n - 1] as int;
        let oc = of_codes_of(q)[n - 1] as int;
        let mc = ml_codes_of(q)[n - 1] as int;
        let b1 = append_field(b, of, t.of.nb_out(oc, of));
        let b2 = append_field(b1, ml, t.ml.nb_out(mc, ml));
        let b3 = append_field(b2, ll, t.ll.nb_out(lc, ll));
        sequences_appended(
            t,
            q,
            (n - 1) as nat,
            extras_appended(b3, q[n - 1]),
            t.ll.next(lc, ll),
            t.of.next(oc, of),
            t.ml.next(mc, ml),
        )
    } else {
        append_field(
            append_field(append_field(b, ml, t.ml.log as nat), of, t.of.log as nat),
            ll,
            t.ll.log as nat,
        )
    }
}

/// The stream of the sequences.
#[verifier::opaque]
pub open spec fn sequences_stream(t: SeqTablesView, q: Seq<Triple>) -> Seq<u8> {
    let last = q.len() - 1;
    closed_bytes(
        sequences_appended(
            t,
            q,
            last as nat,
            extras_appended(Bits { num: 0, len: 0 }, q[last]),
            t.ll.start(ll_codes_of(q)[last] as int),
            t.of.start(of_codes_of(q)[last] as int),
            t.ml.start(ml_codes_of(q)[last] as int),
        ),
    )
}

/// The number of sequences.
pub open spec fn count_bytes(n: nat) -> Seq<u8> {
    if n < 128 {
        seq![n as u8]
    } else if n < 0x7F00 {
        seq![(n / 256 + 128) as u8, (n % 256) as u8]
    } else {
        seq![255u8, ((n - 0x7F00) % 256) as u8, ((n - 0x7F00) / 256) as u8]
    }
}

// ---------------------------------------------------------------------------
// Blocks.

/// The entropy state that carries over from block to block.
pub struct EntropyView {
    pub huf: HufStateView,
    pub ll: Option<FseCView>,
    pub ll_repeat: FseRepeat,
    pub of: Option<FseCView>,
    pub of_repeat: FseRepeat,
    pub ml: Option<FseCView>,
    pub ml_repeat: FseRepeat,
}

/// A table for every code up to `top`.
pub open spec fn covers(t: Option<FseCView>, top: nat) -> bool {
    t is Some && forall|c: int| 0 <= c <= top ==> #[trigger] t->0.encodable(c)
}

/// The offsets of `q` have codes in a table that the fast strategies repeat
/// without a look at them.
pub open spec fn offsets_served(e: EntropyView, q: Seq<Triple>, strategy: int) -> bool {
    strategy < 4 && e.of_repeat == FseRepeat::Valid ==> {
        &&& e.of is Some
        &&& forall|i: int| 0 <= i < q.len() ==> #[trigger] e.of->0.encodable(of_codes_of(q)[i] as int)
    }
}

/// Such a table covers the offsets into a history of `n` bytes and a block.
pub open spec fn offsets_ready(e: EntropyView, n: nat, strategy: int) -> bool {
    strategy < 4 && e.of_repeat == FseRepeat::Valid ==> covers(e.of, top_offset_code(n) as nat)
}

/// The state at the start of a frame.
pub open spec fn fresh_entropy() -> EntropyView {
    EntropyView {
        huf: HufStateView { table: None, repeat: HufRepeat::Never },
        ll: None,
        ll_repeat: FseRepeat::Never,
        of: None,
        of_repeat: FseRepeat::Never,
        ml: None,
        ml_repeat: FseRepeat::Never,
    }
}

/// The three components of a block.
pub struct ComponentsView {
    pub ll: ComponentView,
    pub of: ComponentView,
    pub ml: ComponentView,
}

#[verifier::opaque]
pub open spec fn spec_components(e: EntropyView, ll: Seq<u8>, of: Seq<u8>, ml: Seq<u8>, strategy: int) -> Result<
    ComponentsView,
    Error,
> {
    match spec_component(ll, SeqKind::LiteralLength, e.ll, e.ll_repeat, strategy) {
        Ok(l) => match spec_component(of, SeqKind::Offset, e.of, e.of_repeat, strategy) {
            Ok(o) => match spec_component(ml, SeqKind::MatchLength, e.ml, e.ml_repeat, strategy) {
                Ok(m) => Ok(ComponentsView { ll: l, of: o, ml: m }),
                Err(x) => Err(x),
            },
            Err(x) => Err(x),
        },
        Err(x) => Err(x),
    }
}

/// The repeat modes after a block with these components.
pub open spec fn modes_moved(e: EntropyView, c: ComponentsView) -> EntropyView {
    EntropyView {
        ll_repeat: repeat_after(c.ll.choice, e.ll_repeat),
        of_repeat: repeat_after(c.of.choice, e.of_repeat),
        ml_repeat: repeat_after(c.ml.choice, e.ml_repeat),
        ..e
    }
}

/// The state after a block with these components.
pub open spec fn entropy_moved(e: EntropyView, c: ComponentsView) -> EntropyView {
    EntropyView {
        ll: Some(c.ll.table),
        of: Some(c.of.table),
        ml: Some(c.ml.table),
        ..modes_moved(e, c)
    }
}

/// The size of the last description in front of the stream.
pub open spec fn last_described(c: ComponentsView) -> nat {
    if c.ml.choice == SymbolEncodingType::Compressed {
        c.ml.header.len()
    } else if c.of.choice == SymbolEncodingType::Compressed {
        c.of.header.len()
    } else if c.ll.choice == SymbolEncodingType::Compressed {
        c.ll.header.len()
    } else {
        0
    }
}

/// What follows the literals in a block with sequences.
pub open spec fn sequences_section(q: Seq<Triple>, c: ComponentsView) -> Seq<u8> {
    let modes = 64 * c.ll.choice.spec_wire() + 16 * c.of.choice.spec_wire() + 4
        * c.ml.choice.spec_wire();
    count_bytes(q.len()) + seq![modes as u8] + (c.ll.header + c.of.header + c.ml.header)
        + sequences_stream(SeqTablesView { ll: c.ll.table, of: c.of.table, ml: c.ml.table }, q)
}

/// A body, if it saves enough of the block.
pub open spec fn kept(body: Seq<u8>, e: EntropyView, strategy: int, block_size: nat) -> Option<(
    Seq<u8>,
    EntropyView,
)> {
    if worth_keeping(body.len(), strategy, block_size) {
        Some((body, e))
    } else {
        None
    }
}

/// The body of a compressed block with the sequences `q` and these literals,
/// and the entropy state after it; nothing where the block is better stored as
/// it is. Two bytes of a description and one of the stream are more than some
/// decoders can take.
#[verifier::opaque]
pub open spec fn spec_body(
    q: Seq<Triple>,
    literals: Seq<u8>,
    e: EntropyView,
    strategy: int,
    disable_literals: bool,
    block_size: nat,
) -> Result<Option<(Seq<u8>, EntropyView)>, Error> {
    let (section, next) = literals_section(
        literals,
        strategy,
        q.len() == 0 || literals.len() / q.len() >= 20,
        disable_literals,
        e.huf,
    );
    let e1 = match next {
        Some(huf) => EntropyView { huf, ..e },
        None => e,
    };
    if q.len() == 0 {
        Ok(kept(section + count_bytes(0), e1, strategy, block_size))
    } else {
        match spec_components(e1, ll_codes_of(q), of_codes_of(q), ml_codes_of(q), strategy) {
            Ok(c) => {
                let tables = SeqTablesView { ll: c.ll.table, of: c.of.table, ml: c.ml.table };
                let stream = sequences_stream(tables, q).len();
                if 0 < last_described(c) && last_described(c) + stream < 4 {
                    Ok(None)
                } else {
                    Ok(
                        kept(
                            section + sequences_section(q, c),
                            entropy_moved(e1, c),
                            strategy,
                            block_size,
                        ),
                    )
                }
            },
            Err(x) => Err(x),
        }
    }
}

/// A block as it is written, and the entropy state after it.
pub struct BlockView {
    pub bytes: Seq<u8>,
    pub kind: BlockKind,
    pub entropy: EntropyView,
}

/// The block whose content is `block`: compressed if that saves enough, as a
/// repeated byte if that is what it is, or raw. It is raw also where a match
/// would reach further than `reach`.
#[verifier::opaque]
pub open spec fn spec_block(
    block: Seq<u8>,
    q: Seq<Triple>,
    literals: Seq<u8>,
    e: EntropyView,
    strategy: int,
    disable_literals: bool,
    last: bool,
    first_block: bool,
    reach: nat,
) -> BlockView {
    let n = block.len();
    match if near_values(q, reach) {
        spec_body(q, literals, e, strategy, disable_literals, n)
    } else {
        Ok(None)
    } {
        Ok(Some((body, next))) => if !first_block && body.len() < 25 && all_same(block) {
            BlockView {
                bytes: block_header_bytes(last, 1, n) + seq![block[0]],
                kind: BlockKind::Rle,
                entropy: e,
            }
        } else {
            BlockView {
                bytes: block_header_bytes(last, 2, body.len()) + body,
                kind: BlockKind::Compressed,
                entropy: next,
            }
        },
        _ => BlockView {
            bytes: block_header_bytes(last, 0, n) + block,
            kind: BlockKind::Raw,
            entropy: e,
        },
    }
}

} // verus!
