//! What the optimal parser pays for, and what it counts.

use crate::bits::{highest_bit, lemma_highest_bit_bound};
use crate::block::{LL_BITS, ML_BITS};
use crate::block_encode_model::EntropyView;
use crate::checksum_laws::four;
use crate::format_laws::law_lengths_have_their_codes;
use crate::frame_laws::{is_number_at, lemma_number_at};
use crate::huffman_encode::HufRepeat;
use crate::opt::Optimal;
use crate::opt_match_model::{hash3_entered, may_repeat, short_len, spec_hash3, OptPlace};
use crate::opt_matches::Match;
use crate::opt_model::{carried_on, lengths_down, literal_price, opened, settled, way_to};
use crate::opt_price_model::{
    bits_with, brought_down, bytes_counted, freq_of, plus, rescaled, scaled, spec_weight, wrapped_sum, StatsView,
};
use crate::parser::{common_run, index_of, pos_of};
use crate::seq_codes::{spec_ll_code, spec_ml_code};
use vstd::arithmetic::div_mod::lemma_hoist_over_denominator;
use vstd::arithmetic::power2::{lemma2_to64, lemma_pow2_pos, lemma_pow2_strictly_increases, lemma_pow2_unfold, pow2};
use vstd::prelude::*;

verus! {

// ---------------------------------------------------------------------------
// Prices.

proof fn lemma_between_powers(x: nat, h: nat)
    requires
        pow2(h) <= x < 2 * pow2(h),
        h < 32,
    ensures
        highest_bit(x) == h,
{
    lemma2_to64();
    lemma_pow2_pos(h);
    lemma_pow2_unfold(h + 1);
    if h + 1 < 32 {
        lemma_pow2_strictly_increases(h + 1, 32);
    }
    lemma_highest_bit_bound(x, 32);
    let g = highest_bit(x);
    lemma_pow2_unfold(g + 1);
    if g < h {
        if g + 1 < h {
            lemma_pow2_strictly_increases(g + 1, h);
        }
    } else if g > h {
        if h + 1 < g {
            lemma_pow2_strictly_increases(h + 1, g);
        }
    }
}

/// A count that is one less than a power of two weighs as many bits as the
/// power has. The weights between the powers are those of the lower one, or
/// with `ultra` lie on the line between the two and are one bit higher.
pub proof fn law_weights(stat: u32, ultra: bool, h: nat)
    requires
        stat < u32::MAX,
        h < 32,
        pow2(h) <= stat + 1 < 2 * pow2(h),
    ensures
        !ultra ==> spec_weight(stat, ultra) == 256 * h,
        ultra ==> spec_weight(stat, ultra) == 256 * h + 256 + ((stat + 1 - pow2(h)) * 256) / (pow2(h) as int),
{
    reveal(spec_weight);
    lemma_between_powers((stat + 1) as nat, h);
    lemma_pow2_pos(h);
    let p = pow2(h) as int;
    let s = stat + 1;
    lemma_hoist_over_denominator((s - p) * 256, 256, p as nat);
    assert((s - p) * 256 + 256 * p == s * 256) by (nonlinear_arith);
}

/// A match takes the bits of its offset's code, those of its length's code, and
/// what the two codes cost by their share of all codes. Without `ultra`, each
/// bit of an offset beyond the nineteenth costs two more. A length over the
/// longest of the format has the last code. In a block without statistics the
/// offset costs sixteen bits beside its own, and the length its weight.
pub proof fn law_match_prices(s: StatsView, off_base: u32, len: u32, c: nat)
    requires
        pow2(c) <= off_base < 2 * pow2(c),
        c < 32,
        len >= 3,
    ensures
        s.predef ==> s.match_price(off_base, len) == 256 * (16 + c) + spec_weight((len - 3) as u32, s.ultra),
        !s.predef ==> {
            let k = if len - 3 < 0x2_0000 {
                spec_ml_code((len - 3) as nat) as int
            } else {
                52
            };
            let offset_cost = 256 * c + s.of_base - spec_weight(s.of[c as int], s.ultra);
            let length_cost = 256 * ML_BITS[k] + s.ml_base - spec_weight(s.ml[k], s.ultra);
            s.match_price(off_base, len) - offset_cost - length_cost == if s.ultra || c < 20 {
                51
            } else {
                51 + 512 * (c - 19)
            }
        },
{
    reveal(StatsView::match_price);
    lemma_between_powers(off_base as nat, c);
    assert(highest_bit(131071) == 16) by {
        lemma2_to64();
        lemma_between_powers(131071, 16);
    }
    reveal(spec_ml_code);
    assert(spec_ml_code(131071) == 52);
}

/// A number of literals takes the bits of its code and what the code costs by
/// its share. A block of literals alone, which has no code, costs one bit more
/// than the longest that has one.
pub proof fn law_literal_length_prices(s: StatsView, len: u32)
    ensures
        s.predef ==> s.ll_price(len) == spec_weight(len, s.ultra),
        !s.predef && len < 0x2_0000 ==> s.ll_price(len) + spec_weight(
            s.ll[spec_ll_code(len as nat) as int],
            s.ultra,
        ) == 256 * LL_BITS[spec_ll_code(len as nat) as int] + s.ll_base,
        !s.predef && len >= 0x2_0000 ==> s.ll_price(len) == s.ll_price(0x1_FFFF) + 256,
        len > 0 ==> s.ll_incprice(len) == s.ll_price(len) - s.ll_price((len - 1) as u32),
{
    reveal(StatsView::ll_price);
    reveal(StatsView::ll_incprice);
}

/// A literal costs one bit at least, and otherwise what it costs by its share;
/// six bits in a block without statistics.
pub proof fn law_literal_prices(s: StatsView, byte: u8)
    ensures
        s.predef ==> s.lit_price(byte) == 6 * 256,
        !s.predef && s.lit_base >= 256 ==> {
            let by_share = s.lit_base - spec_weight(s.lit[byte as int], s.ultra);
            &&& s.lit_price(byte) >= 256
            &&& s.lit_price(byte) >= by_share
            &&& s.lit_price(byte) == 256 || s.lit_price(byte) == by_share
        },
{
    reveal(StatsView::lit_price);
}

// ---------------------------------------------------------------------------
// Counts.

/// How often `b` occurs in `data[from .. to]`.
pub open spec fn times(data: Seq<u8>, from: int, to: int, b: u8) -> nat
    decreases to - from,
{
    if from < to {
        times(data, from + 1, to, b) + if data[from] == b {
            1nat
        } else {
            0
        }
    } else {
        0
    }
}

proof fn lemma_bytes_counted(t: Seq<u32>, data: Seq<u8>, from: int, to: int, weight: nat, b: u8)
    requires
        t.len() == 256,
    ensures
        bytes_counted(t, data, from, to, weight).len() == 256,
        bytes_counted(t, data, from, to, weight)[b as int] == (t[b as int] + weight * times(data, from, to, b))
            % 0x1_0000_0000,
    decreases to - from,
{
    reveal_with_fuel(bytes_counted, 1);
    if from < to {
        reveal(plus);
        let c = data[from] as int;
        let t1 = t.update(c, plus(t[c], weight));
        lemma_bytes_counted(t1, data, from + 1, to, weight, b);
        let n = times(data, from + 1, to, b) as int;
        let w = weight as int;
        if c == b {
            assert(w * (n + 1) == w * n + w) by (nonlinear_arith);
            let whole = t[c] + w;
            vstd::arithmetic::div_mod::lemma_add_mod_noop(whole, w * n, 0x1_0000_0000);
            vstd::arithmetic::div_mod::lemma_add_mod_noop(whole % 0x1_0000_0000, w * n, 0x1_0000_0000);
            vstd::arithmetic::div_mod::lemma_mod_twice(whole, 0x1_0000_0000);
        }
    } else {
        assert(weight * 0 == 0) by (nonlinear_arith);
    }
}

/// A stored sequence counts each of its literals twice, and its three codes
/// once; nothing else changes.
pub proof fn law_sequences_are_counted(s: StatsView, data: Seq<u8>, from: int, to: int, off_base: u32, len: u32, c: nat)
    requires
        s.lit.len() == 256,
        s.ll.len() == 36,
        s.ml.len() == 53,
        s.of.len() == 32,
        0 <= from <= to < from + 0x2_0000,
        pow2(c) <= off_base < 2 * pow2(c),
        c < 32,
        3 <= len < 0x2_0003,
        s.lit_sum < 0x4000_0000,
        s.ll_sum < 0x4000_0000,
    ensures
        ({
            let r = s.counted(data, from, to, off_base, len);
            let ll = spec_ll_code((to - from) as nat) as int;
            let ml = spec_ml_code((len - 3) as nat) as int;
            &&& forall|b: u8| #[trigger]
                r.lit[b as int] == (s.lit[b as int] + 2 * times(data, from, to, b)) % 0x1_0000_0000
            &&& r.lit_sum == s.lit_sum + 2 * (to - from)
            &&& r.ll_sum == s.ll_sum + 1
            &&& r.ll[ll] == (s.ll[ll] + 1) % 0x1_0000_0000
            &&& r.ml[ml] == (s.ml[ml] + 1) % 0x1_0000_0000
            &&& r.of[c as int] == (s.of[c as int] + 1) % 0x1_0000_0000
            &&& forall|i: int| 0 <= i < 36 && i != ll ==> #[trigger] r.ll[i] == s.ll[i]
            &&& forall|i: int| 0 <= i < 53 && i != ml ==> #[trigger] r.ml[i] == s.ml[i]
            &&& forall|i: int| 0 <= i < 32 && i != c ==> #[trigger] r.of[i] == s.of[i]
            &&& r.predef == s.predef && r.ultra == s.ultra
        }),
{
    reveal(StatsView::counted);
    reveal(plus);
    lemma_between_powers(off_base as nat, c);
    law_lengths_have_their_codes((to - from) as nat);
    law_lengths_have_their_codes((len - 3) as nat);
    assert forall|b: u8| #[trigger]
        s.counted(data, from, to, off_base, len).lit[b as int] == (s.lit[b as int] + 2 * times(
            data,
            from,
            to,
            b,
        )) % 0x1_0000_0000 by {
        lemma_bytes_counted(s.lit, data, from, to, 2, b);
    }
}

/// The statistics of a first block: a literal counts one for each 256 times
/// that it occurs, and one more if it occurs at all; the codes have counts of
/// their own.
pub proof fn law_first_statistics(s: StatsView, data: Seq<u8>, start: int, end: int, costs: EntropyView, b: u8)
    requires
        s.ll_sum == 0,
        !(costs.huf.repeat is Valid),
        0 <= start <= end < start + 0x1_0000_0000,
    ensures
        ({
            let r = rescaled(s, data, start, end, costs);
            let n = times(data, start, end, b);
            &&& r.predef == (end - start <= 8)
            &&& n == 0 ==> r.lit[b as int] == 0
            &&& 0 < n < 0xFFFF_FFFF ==> r.lit[b as int] == n / 256 + 1
            &&& r.ll =~= seq![
                4u32, 2, 1, 1, 1, 1, 1, 1, 1, 1, 1, 1, 1, 1, 1, 1, 1, 1, 1, 1, 1, 1, 1, 1, 1, 1, 1, 1, 1, 1, 1, 1,
                1, 1, 1, 1,
            ]
            &&& r.of =~= seq![
                6u32, 2, 1, 1, 2, 3, 4, 4, 4, 3, 2, 1, 1, 1, 1, 1, 1, 1, 1, 1, 1, 1, 1, 1, 1, 1, 1, 1, 1, 1, 1, 1,
            ]
            &&& r.ml =~= Seq::new(53, |i: int| 1u32)
            &&& r.ll_sum == 40 && r.of_sum == 53 && r.ml_sum == 53
        }),
{
    reveal(rescaled);
    reveal(scaled);
    lemma2_to64();
    let none = Seq::new(256, |i: int| 0u32);
    lemma_bytes_counted(none, data, start, end, 1, b);
    lemma_times(data, start, end, b);
}

proof fn lemma_times(data: Seq<u8>, from: int, to: int, b: u8)
    ensures
        from <= to ==> times(data, from, to, b) <= to - from,
    decreases to - from,
{
    if from < to {
        lemma_times(data, from + 1, to, b);
    }
}

/// Before a later block, the counts of literals are brought down to 4096 or
/// so, and those of the codes to 2048; the prices of the sums go by them.
pub proof fn law_later_statistics(s: StatsView, data: Seq<u8>, start: int, end: int, costs: EntropyView)
    requires
        s.ll_sum != 0,
    ensures
        ({
            let r = rescaled(s, data, start, end, costs);
            &&& r.lit == brought_down(s.lit, 12)
            &&& r.ll == brought_down(s.ll, 11) && r.ml == brought_down(s.ml, 11) && r.of == brought_down(s.of, 11)
            &&& r.lit_sum == wrapped_sum(r.lit, r.lit.len()) && r.ll_sum == wrapped_sum(r.ll, r.ll.len())
            &&& r.ml_sum == wrapped_sum(r.ml, r.ml.len()) && r.of_sum == wrapped_sum(r.of, r.of.len())
            &&& !r.predef && r.ultra == s.ultra
        }),
{
    reveal(rescaled);
}

/// The prices of the sums are their weights, in every block.
pub proof fn law_sums_are_weighed(s: StatsView, data: Seq<u8>, start: int, end: int, costs: EntropyView)
    ensures
        ({
            let r = rescaled(s, data, start, end, costs);
            &&& r.lit_base == spec_weight(r.lit_sum, r.ultra) as u32
            &&& r.ll_base == spec_weight(r.ll_sum, r.ultra) as u32
            &&& r.ml_base == spec_weight(r.ml_sum, r.ultra) as u32
            &&& r.of_base == spec_weight(r.of_sum, r.ultra) as u32
        }),
{
    reveal(rescaled);
}

/// With a dictionary's tables, a literal with a code of `n` bits counts as
/// often as such a code occurs among 2048, and a code that takes up to `n` bits
/// as often as among 1024; one without a code counts once.
pub proof fn law_statistics_of_a_dictionary(
    s: StatsView,
    data: Seq<u8>,
    start: int,
    end: int,
    costs: EntropyView,
    b: u8,
    n: nat,
)
    requires
        s.ll_sum == 0,
        costs.huf.repeat == HufRepeat::Valid,
        costs.huf.table is Some,
    ensures
        ({
            let r = rescaled(s, data, start, end, costs);
            let code = costs.huf.table->0;
            &&& !r.predef
            &&& b <= code.max_symbol && code.nb_bits[b as int] == n && 1 <= n <= 11 ==> r.lit[b as int] * pow2(n)
                == 2048
            &&& b > code.max_symbol || code.nb_bits[b as int] == 0 ==> r.lit[b as int] == 1
            &&& b < 36 && bits_with(costs.ll, b as int) == n && 1 <= n <= 10 ==> r.ll[b as int] * pow2(n) == 1024
            &&& b < 53 && bits_with(costs.ml, b as int) == n && 1 <= n <= 10 ==> r.ml[b as int] * pow2(n) == 1024
            &&& b < 32 && bits_with(costs.of, b as int) == n && 1 <= n <= 10 ==> r.of[b as int] * pow2(n) == 1024
        }),
{
    reveal(rescaled);
    reveal(freq_of);
    lemma2_to64();
    if 1 <= n <= 11 {
        vstd::arithmetic::power2::lemma_pow2_adds((11 - n) as nat, n);
        lemma_pow2_strictly_increases((11 - n) as nat, 32);
    }
    if 1 <= n <= 10 {
        vstd::arithmetic::power2::lemma_pow2_adds((10 - n) as nat, n);
        lemma_pow2_strictly_increases((10 - n) as nat, 32);
    }
}

/// Counts whose sum is less than twice the wanted one stay as they are; of
/// others all are divided by the same power of two, and one is added to each.
pub proof fn law_counts_are_brought_down(t: Seq<u32>, log: u32, k: nat)
    requires
        log < 32,
        k < 32,
    ensures
        ({
            let times_over = wrapped_sum(t, t.len()) as nat / pow2(log as nat);
            &&& times_over <= 1 ==> brought_down(t, log) == t
            &&& times_over > 1 && pow2(k) <= times_over < 2 * pow2(k) ==> {
                &&& brought_down(t, log).len() == t.len()
                &&& forall|i: int|
                    0 <= i < t.len() ==> #[trigger] brought_down(t, log)[i] == if t[i] / (pow2(k) as u32)
                        < u32::MAX {
                        t[i] / (pow2(k) as u32) + 1
                    } else {
                        u32::MAX as int
                    }
            }
        }),
{
    reveal(brought_down);
    reveal(scaled);
    let times_over = wrapped_sum(t, t.len()) as nat / pow2(log as nat);
    if times_over > 1 && pow2(k) <= times_over < 2 * pow2(k) {
        lemma_between_powers(times_over, k);
        lemma2_to64();
        lemma_pow2_pos(k);
        lemma_pow2_strictly_increases(k, 32);
    }
}

// ---------------------------------------------------------------------------
// Ways.

/// A place is reached the cheapest way: by what led there before, or by one
/// literal from the place before it; at the same price, by the literal.
pub proof fn law_places_are_reached_cheaply(
    s: StatsView,
    data: Seq<u8>,
    end: int,
    t: Seq<Optimal>,
    ip: int,
    cur: u32,
    last: u32,
)
    requires
        t.len() == 4099,
        1 <= cur < 4099,
    ensures
        ({
            let r = settled(s, data, end, t, ip, cur, last).0;
            let by_literal = literal_price(s, data, t[cur - 1], ip + cur - 1);
            let before = t[cur as int];
            let now = r[cur as int];
            &&& by_literal <= before.price ==> now.price == by_literal && now.mlen == t[cur - 1].mlen
                && now.off == t[cur - 1].off
            &&& by_literal > before.price ==> now.price == before.price && now.mlen == before.mlen && now.off
                == before.off && now.litlen == before.litlen
            &&& by_literal <= before.price && t[cur - 1].litlen < u32::MAX ==> now.litlen == t[cur - 1].litlen
                + 1
            &&& forall|i: int| 0 <= i < cur ==> #[trigger] r[i] == t[i]
        }),
{
    reveal(settled);
    reveal(carried_on);
}

/// The price of a literal's place is that of the place before, the literal, and
/// what its number of literals costs more.
pub proof fn law_literals_are_paid_for(s: StatsView, data: Seq<u8>, prev: Optimal, at: int)
    requires
        0 <= prev.price < 0x1000_0000,
        prev.litlen < u32::MAX,
        0 <= s.lit_price(data[at]) < 0x1000_0000,
        -0x1000_0000 < s.ll_incprice((prev.litlen + 1) as u32) < 0x1000_0000,
    ensures
        literal_price(s, data, prev, at) == prev.price + s.lit_price(data[at]) + s.ll_incprice(
            (prev.litlen + 1) as u32,
        ),
{
}

/// Of a match that is priced at a place, the place where it ends costs no more
/// afterwards than by this match; with `ultra`, so does each place that a part
/// of it reaches.
pub proof fn law_lengths_are_priced(
    s: StatsView,
    t: Seq<Optimal>,
    last: u32,
    cur: u32,
    base: i32,
    m: Match,
    len: u32,
    first: u32,
    k: u32,
)
    requires
        t.len() == 4099,
        cur <= last <= 4096,
        1 <= first <= k <= len,
        cur + len < 4096,
        s.ultra || k == len,
    ensures
        ({
            let (r, r_last) = lengths_down(s, t, last, cur, base, m, len, first);
            &&& r[cur + k].price <= base.wrapping_add(s.match_price(m.off, k) as i32)
            &&& r_last >= last && r_last >= cur + len
        }),
    decreases len,
{
    reveal_with_fuel(lengths_down, 1);
    let pos = (cur + len) as u32;
    let price = base.wrapping_add(s.match_price(m.off, len) as i32);
    if pos > last || price < way_to(t, pos as int).price {
        lemma_opened(t, last, pos);
        let t1 = opened(t, last, pos);
        let last1 = if last < pos {
            pos
        } else {
            last
        };
        let t2 = t1.update(
            pos as int,
            Optimal { price, off: m.off, mlen: len, litlen: 0, rep: t1[pos as int].rep },
        );
        lemma_lengths_fall(s, t2, last1, cur, base, m, (len - 1) as u32, first, pos as int);
        if k < len {
            law_lengths_are_priced(s, t2, last1, cur, base, m, (len - 1) as u32, first, k);
        }
    } else {
        if s.ultra {
            lemma_lengths_fall(s, t, last, cur, base, m, (len - 1) as u32, first, pos as int);
        }
        if k < len {
            law_lengths_are_priced(s, t, last, cur, base, m, (len - 1) as u32, first, k);
        }
    }
}

proof fn lemma_opened(t: Seq<Optimal>, last: u32, pos: u32)
    requires
        t.len() == 4099,
        pos < 4099,
    ensures
        opened(t, last, pos).len() == 4099,
        forall|i: int| 0 <= i <= last && i < 4099 ==> #[trigger] opened(t, last, pos)[i] == t[i],
    decreases pos - last,
{
    reveal_with_fuel(opened, 1);
    if last < pos {
        let next = (last + 1) as u32;
        lemma_opened(
            t.update(next as int, Optimal { price: 1073741824, litlen: 1, ..t[next as int] }),
            next,
            pos,
        );
    }
}

/// Pricing shorter lengths makes no place that was reached dearer.
proof fn lemma_lengths_fall(
    s: StatsView,
    t: Seq<Optimal>,
    last: u32,
    cur: u32,
    base: i32,
    m: Match,
    len: u32,
    first: u32,
    i: int,
)
    requires
        t.len() == 4099,
        0 <= i <= last <= 4096,
        cur + len <= last,
    ensures
        ({
            let (r, r_last) = lengths_down(s, t, last, cur, base, m, len, first);
            &&& r.len() == 4099
            &&& r[i].price <= t[i].price
            &&& r_last == last
        }),
    decreases len,
{
    reveal_with_fuel(lengths_down, 1);
    if len >= first && len >= 1 {
        let l1 = (len - 1) as u32;
        if len < 4096 - cur {
            let pos = (cur + len) as u32;
            let price = base.wrapping_add(s.match_price(m.off, len) as i32);
            if price < t[pos as int].price {
                reveal_with_fuel(opened, 1);
                let t2 = t.update(
                    pos as int,
                    Optimal { price, off: m.off, mlen: len, litlen: 0, rep: t[pos as int].rep },
                );
                lemma_lengths_fall(s, t2, last, cur, base, m, l1, first, i);
            } else if s.ultra {
                lemma_lengths_fall(s, t, last, cur, base, m, l1, first, i);
            }
        } else {
            lemma_lengths_fall(s, t, last, cur, base, m, l1, first, i);
        }
    }
}

// ---------------------------------------------------------------------------
// Candidates.

/// A match of three bytes is taken only less than 256 KiB back, and only in the
/// window; there it is as long as it can be.
pub proof fn law_short_matches_are_near(w: OptPlace, idx: u32, ip: int, window_low: u32)
    ensures
        ({
            let back = ip - pos_of(idx, w.bias);
            let run = common_run(w.data, ip, ip - back, w.end);
            let near = idx > 0 && idx >= window_low && 0 < back < 0x4_0000 && run >= 3;
            short_len(w, idx, ip, window_low) == if near {
                run
            } else {
                0
            }
        }),
{
    reveal(short_len);
}

/// A recent offset may be used if its source is in the window, and in the older
/// segment if four bytes at least lie between it and the newer one.
pub proof fn law_recent_offsets_in_reach(w: OptPlace, ip: int, offset: u32, window_low: u32)
    requires
        ip >= 0,
        1 <= offset <= index_of(ip as nat, w.bias),
        1 <= w.dict_limit <= index_of(ip as nat, w.bias),
        window_low <= index_of(ip as nat, w.bias),
    ensures
        ({
            let source = index_of(ip as nat, w.bias) - offset;
            may_repeat(w, ip, offset, window_low) == if source >= w.dict_limit {
                source >= window_low
            } else if w.ext_dict {
                source >= window_low && source + 4 <= w.dict_limit
            } else {
                w.dict is Some && source >= 2 && source + 4 <= w.dict_limit
            }
        }),
{
    reveal(may_repeat);
}

/// The hash of three bytes is that of their number, shifted to the top of 32
/// bits, times a prime of its own.
pub proof fn law_three_byte_hash(data: Seq<u8>, at: nat, log: u32)
    requires
        at + 4 <= data.len(),
        1 <= log <= 32,
    ensures
        spec_hash3(data, at as int, log) == ((data[at as int] + 256 * data[at as int + 1] + 0x1_0000 * data[at as int + 2])
            * 0x100 * 506832829) % 0x1_0000_0000 / (pow2((32 - log) as nat) as int),
{
    reveal(spec_hash3);
    lemma_number_at(data, at, 4);
    assert(is_number_at(crate::math::bits_at(data, 8 * at, 32) as int, data, at as int, 4));
    let v = four(data, at as int);
    assert(crate::math::bits_at(data, 8 * at, 32) == v);
    let low = data[at as int] + 256 * data[at as int + 1] + 0x1_0000 * data[at as int + 2];
    assert(v == low + 0x100_0000 * data[at as int + 3]);
    assert((v * 256) % 0x1_0000_0000 == low * 256);
}

/// Each position is entered under its three bytes, and a later one with the
/// same hash in its place.
pub proof fn law_three_bytes_are_entered(t: Seq<u32>, data: Seq<u8>, idx: u32, goal: u32, log: u32, bias: u32, p: u32)
    requires
        idx <= p < goal,
        forall|i: int| 0 <= i && i + 8 <= data.len() ==> #[trigger] spec_hash3(data, i, log) < t.len(),
        pos_of(p, bias) + 8 <= data.len(),
    ensures
        p <= hash3_entered(t, data, idx, goal, log, bias)[spec_hash3(data, pos_of(p, bias), log) as int] < goal,
    decreases goal - idx,
{
    reveal_with_fuel(hash3_entered, 1);
    let pos = pos_of(idx, bias);
    let t1 = if pos <= data.len() - 8 {
        t.update(spec_hash3(data, pos, log) as int, idx)
    } else {
        t
    };
    if idx < p {
        law_three_bytes_are_entered(t1, data, (idx + 1) as u32, goal, log, bias, p);
    } else {
        lemma_later_entries(t1, data, (idx + 1) as u32, goal, log, bias, spec_hash3(data, pos, log) as int);
    }
}

proof fn lemma_later_entries(t: Seq<u32>, data: Seq<u8>, idx: u32, goal: u32, log: u32, bias: u32, h: int)
    requires
        0 <= h < t.len(),
        t[h] < idx <= goal,
        forall|i: int| 0 <= i && i + 8 <= data.len() ==> #[trigger] spec_hash3(data, i, log) < t.len(),
    ensures
        t[h] <= hash3_entered(t, data, idx, goal, log, bias)[h] < goal,
    decreases goal - idx,
{
    reveal_with_fuel(hash3_entered, 1);
    if idx < goal {
        let pos = pos_of(idx, bias);
        let t1 = if pos <= data.len() - 8 {
            t.update(spec_hash3(data, pos, log) as int, idx)
        } else {
            t
        };
        lemma_later_entries(t1, data, (idx + 1) as u32, goal, log, bias, h);
    }
}

} // verus!
