//! What literals and codes are compressed with.

use crate::bits::{highest_bit, lemma_highest_bit_bound};
use crate::block::SeqKind;
use crate::block_encode_model::{
    cheapest_choice, cost_with, description_cost, literals_section, spec_choice, EntropyView, HufStateView,
};
use crate::dict_encode::{spec_ncount_repeat, top_offset_code};
use crate::fse_encode::spec_optimal_table_log;
use crate::fse_encode_model::FseCView;
use crate::histogram::{spec_histogram, spec_largest};
use crate::huffman_encode::HufRepeat;
use crate::huffman_encode_model::{gated, largest_in, looks_flat, reused, spec_huf_compress, HufCView};
use crate::post_split_model::{halves_smaller, splits_added};
use crate::seq_store::Triple;
use crate::seq_tables::{cross_cost, own_cost, FseRepeat};
use vstd::arithmetic::power2::{lemma2_to64, pow2};
use vstd::prelude::*;

verus! {

/// Streams are kept only if they, with what stands before them, are at least
/// two bytes shorter than what they hold.
pub proof fn law_streams_must_shrink(ct: HufCView, src: Seq<u8>, single: bool, prefix: nat)
    ensures
        gated(ct, src, single, prefix) matches Some(s) ==> 0 < s.len() && s.len() + prefix + 2
            <= src.len(),
{
    reveal(gated);
}

/// Literals of one byte alone are stored as that; those without a byte that
/// stands out, by five and a 128th of them, are stored as they are. A table
/// that is known to do is used again for short literals at the fast
/// strategies. Only long literals, from 40 KiB on, are given up for flat after
/// a look at 4 KiB at either end.
pub proof fn law_literals_go_by_their_histogram(
    src: Seq<u8>,
    single: bool,
    suspect_flat: bool,
    prefer_repeat: bool,
    optimal_depth: bool,
    prev: Option<HufCView>,
    repeat: HufRepeat,
)
    requires
        src.len() > 0,
    ensures
        ({
            let r = spec_huf_compress(
                src,
                single,
                suspect_flat,
                prefer_repeat,
                optimal_depth,
                prev,
                repeat,
            );
            let n = src.len();
            let most = spec_largest(spec_histogram(src, 256), 256) as int;
            let again = prefer_repeat && repeat == HufRepeat::Valid && prev is Some;
            let flat = suspect_flat && looks_flat(src);
            &&& again ==> r == reused(prev->0, src, single)
            &&& !again && flat ==> r is Raw
            &&& !again && !flat && most == n ==> r is Rle
            &&& !again && !flat && most != n && 128 * (most - 4) <= n ==> r is Raw
            &&& r is Rle ==> most == n
            &&& src.len() < 40960 ==> !flat
            &&& flat ==> largest_in(src.take(4096)) + largest_in(
                src.skip(src.len() - 4096),
            ) <= 68
        }),
{
    reveal(spec_huf_compress);
    reveal(looks_flat);
    reveal(crate::huffman_encode_model::fresh_or_reused);
    if src.len() >= 40960 {
        assert(src.subrange(0, 4096) =~= src.take(4096));
        assert(src.subrange(src.len() - 4096, src.len() as int) =~= src.skip(src.len() - 4096));
    }
}

/// The log of a table lies between 5 and 12, never asks for more states than
/// the source has symbols, as far as it can be less, and is no larger than the
/// cap unless the alphabet needs it.
pub proof fn law_table_logs(cap: nat, n: nat, max_symbol: nat, minus: nat)
    requires
        5 <= cap <= 12,
        2 <= n <= u32::MAX,
        1 <= max_symbol,
    ensures
        ({
            let log = spec_optimal_table_log(cap, n, max_symbol, minus);
            let needed = crate::fse_encode::spec_min_table_log(n, max_symbol);
            &&& 5 <= log <= 12
            &&& log > cap ==> log <= needed || log == 5
            &&& log > 5 && log > needed && log < cap ==> log + minus == highest_bit((n - 1) as nat)
            &&& log < cap && log < 12 ==> log + minus >= highest_bit((n - 1) as nat) && log >= needed
        }),
{
}

/// A range of sequences is split if and only if it has at least 300 of them,
/// its halves are estimated smaller, and fewer than 196 splits have been made.
pub proof fn law_long_ranges_are_split(
    splits: Seq<usize>,
    start: int,
    end: int,
    q: Seq<Triple>,
    literals: Seq<u8>,
    e: EntropyView,
    strategy: int,
    optimal_depth: bool,
)
    ensures
        ({
            let r = splits_added(splits, start, end, q, literals, e, strategy, optimal_depth);
            &&& splits.len() <= r.len()
            &&& end - start < 300 ==> r == splits
            &&& splits.len() >= 196 ==> r == splits
            &&& !halves_smaller(start, end, q, literals, e, strategy, optimal_depth) ==> r == splits
            &&& end - start >= 300 && splits.len() < 196 && halves_smaller(
                start,
                end,
                q,
                literals,
                e,
                strategy,
                optimal_depth,
            ) ==> r.len() > splits.len()
        }),
{
    reveal_with_fuel(splits_added, 1);
    if end - start >= 300 && splits.len() < 196 && halves_smaller(
        start,
        end,
        q,
        literals,
        e,
        strategy,
        optimal_depth,
    ) {
        let mid = (start + end) / 2;
        let left = splits_added(splits, start, mid, q, literals, e, strategy, optimal_depth);
        lemma_splits_grow(splits, start, mid, q, literals, e, strategy, optimal_depth);
        lemma_splits_grow(
            left.push(mid as usize),
            mid,
            end,
            q,
            literals,
            e,
            strategy,
            optimal_depth,
        );
    }
}

/// Splits are only ever added.
proof fn lemma_splits_grow(
    splits: Seq<usize>,
    start: int,
    end: int,
    q: Seq<Triple>,
    literals: Seq<u8>,
    e: EntropyView,
    strategy: int,
    optimal_depth: bool,
)
    ensures
        ({
            let r = splits_added(splits, start, end, q, literals, e, strategy, optimal_depth);
            r.len() >= splits.len()
        }),
    decreases end - start,
{
    reveal_with_fuel(splits_added, 1);
    if !(end - start < 300 || splits.len() >= 196) && halves_smaller(
        start,
        end,
        q,
        literals,
        e,
        strategy,
        optimal_depth,
    ) {
        let mid = (start + end) / 2;
        let left = splits_added(splits, start, mid, q, literals, e, strategy, optimal_depth);
        lemma_splits_grow(splits, start, mid, q, literals, e, strategy, optimal_depth);
        lemma_splits_grow(
            left.push(mid as usize),
            mid,
            end,
            q,
            literals,
            e,
            strategy,
            optimal_depth,
        );
    }
}

/// A dictionary's table is used unseen only if it has a state for every code
/// that can occur.
pub proof fn law_tables_used_unseen(norm: Seq<i16>, top: u32, needed: u32)
    ensures
        spec_ncount_repeat(norm, top, needed) == FseRepeat::Valid <==> needed <= top && forall|s: int|
            0 <= s <= needed ==> #[trigger] norm[s] != 0,
        spec_ncount_repeat(norm, top, needed) != FseRepeat::Valid ==> spec_ncount_repeat(
            norm,
            top,
            needed,
        ) == FseRepeat::Check,
{
}

/// The highest offset code that content of `n` bytes and a block after it can
/// need is that of all of it.
pub proof fn law_offset_codes_of_a_dictionary(n: nat)
    requires
        n + 0x2_0000 <= u32::MAX,
    ensures
        pow2(top_offset_code(n) as nat) <= n + 0x2_0000,
        n + 0x2_0000 < 2 * pow2(top_offset_code(n) as nat),
{
    lemma2_to64();
    lemma_highest_bit_bound(n + 0x2_0000, 32);
}

/// Coded literals are in one stream if there are fewer than 256 of them, or
/// fewer than 1024 with a table that is known to do; in four otherwise. A fast
/// strategy writes no table for so few if it has one that is known to do.
pub proof fn law_short_literals_take_one_stream(
    src: Seq<u8>,
    strategy: int,
    suspect_flat: bool,
    disable: bool,
    prev: HufStateView,
)
    requires
        0 < src.len() < 1024,
    ensures
        ({
            let h = literals_section(src, strategy, suspect_flat, disable, prev).0[0] as int;
            let known = prev.repeat == HufRepeat::Valid;
            &&& h % 4 >= 2 && (src.len() < 256 || known) ==> h / 4 % 4 == 0
            &&& h % 4 >= 2 && src.len() >= 256 && !known ==> h / 4 % 4 == 1
            &&& known && prev.table is Some && strategy < 4 ==> h % 4 != 2
        }),
{
    reveal(literals_section);
    reveal(spec_huf_compress);
}

/// What the parts of a block are estimated to take for their literals: the
/// bits of the code, its description, the sizes of four streams from 256
/// literals on, and the section's header.
pub proof fn law_literals_are_estimated(literals: Seq<u8>, table: HufCView, description: nat)
    ensures
        ({
            let n = literals.len();
            let count = spec_histogram(literals, 256);
            let coded = crate::huffman_encode_model::estimated(
                table,
                count,
                crate::histogram::spec_top(count, 256) as u32,
            );
            let r = crate::post_split_model::literals_estimate(literals, table, description);
            &&& n < 256 ==> r == coded + description + 3
            &&& 256 <= n < 1024 ==> r == coded + description + 9
            &&& 1024 <= n < 16384 ==> r == coded + description + 10
            &&& n >= 16384 ==> r == coded + description + 11
        }),
{
    reveal(crate::post_split_model::literals_estimate);
}

/// The stronger strategies choose the table that is estimated to take least:
/// the predefined one, where it has all codes; the one from before, where it
/// has all that occur; or one of its own, with its description. Of two that
/// take as much, the one named first here.
pub proof fn law_cheapest_tables_are_chosen(
    repeat: FseRepeat,
    count: Seq<u32>,
    max: nat,
    most_frequent: nat,
    n: nat,
    kind: SeqKind,
    prev: Option<FseCView>,
    strategy: int,
)
    requires
        strategy >= 4,
        most_frequent < n,
        description_cost(count, max, n, kind.spec_max_log()) is Ok,
        description_cost(count, max, n, kind.spec_max_log())->Ok_0 < 0x1000_0000,
    ensures
        ({
            let r = spec_choice(repeat, count, max, most_frequent, n, kind, prev, strategy);
            let allowed = match kind {
                SeqKind::LiteralLength => max <= 35,
                SeqKind::Offset => max <= 28,
                SeqKind::MatchLength => max <= 52,
            };
            let known = repeat != FseRepeat::Never && prev is Some && cost_with(prev->0, count, max) is Some;
            let basic = cross_cost(kind.default_counts(), kind.default_log(), count, max + 1) / 256;
            let again = cost_with(prev->0, count, max)->0;
            let own = 8 * description_cost(count, max, n, kind.spec_max_log())->Ok_0 + own_cost(count, n, max + 1)
                / 256;
            let most = 0xFFFF_FFFF_FFFF_FFFFint;
            &&& r is Ok
            &&& r->Ok_0 is Basic ==> allowed && basic <= own && (known ==> basic <= again)
            &&& r->Ok_0 is Repeat && own < most ==> known && again <= own && (allowed && basic < most ==> again
                < basic)
            &&& r->Ok_0 is Compressed ==> (known ==> own < again) && (allowed && own < most ==> own < basic
                || known && again < basic)
            &&& !(r->Ok_0 is Rle)
        }),
{
    reveal(spec_choice);
    reveal(cheapest_choice);
}

} // verus!
