//! Every histogram has a distribution of every allowed size.

use crate::bits::{highest_bit, lemma_highest_bit_bound};
use crate::error::Error;
use crate::fse::{abs16, sum_abs};
use crate::fse_counts::{absorbed, absorbs, first_counts, largest_share, left_over, lemma_share, represents, share};
use crate::fse_counts_model::{
    line_settled, most_frequent, poor_settled, rest_settled, round_handed, rounds_handed, slowly_scaled,
    small_settled, sole_symbol, spec_normalize, NormView, Settling,
};
use crate::fse_encode::{spec_min_table_log, FseCTable};
use crate::histogram::{lemma_total_bounds, total_count};
use vstd::arithmetic::div_mod::{lemma_div_is_ordered, lemma_fundamental_div_mod, lemma_mod_bound};
use vstd::arithmetic::power2::{
    lemma2_to64, lemma2_to64_rest, lemma_pow2_pos, lemma_pow2_strictly_increases, lemma_pow2_unfold, pow2,
};
use vstd::prelude::*;

verus! {

/// Counts of at most `q` each sum to at most `n * q`.
proof fn lemma_total_capped(count: Seq<u32>, n: nat, q: nat)
    requires
        forall|i: int| 0 <= i < n ==> #[trigger] count[i] <= q,
    ensures
        total_count(count, n) <= n * q,
    decreases n,
{
    if n > 0 {
        lemma_total_capped(count, (n - 1) as nat, q);
        assert(n * q == (n - 1) * q + q) by (nonlinear_arith);
        assert(count[n - 1] <= q);
    } else {
        assert(0 * q == 0);
    }
}

/// A histogram in which `i` does not have the entire count has another symbol.
proof fn lemma_second(count: Seq<u32>, n: nat, i: int) -> (j: int)
    requires
        0 <= i < n,
        count[i] < total_count(count, n),
    ensures
        0 <= j < n,
        j != i,
        count[j] != 0,
    decreases n,
{
    if i == n - 1 {
        lemma_counted_below(count, (n - 1) as nat)
    } else if count[n - 1] != 0 {
        n - 1
    } else {
        lemma_second(count, (n - 1) as nat, i)
    }
}

proof fn lemma_counted_below(count: Seq<u32>, n: nat) -> (j: int)
    requires
        total_count(count, n) > 0,
    ensures
        0 <= j < n,
        count[j] != 0,
    decreases n,
{
    if count[n - 1] != 0 {
        n - 1
    } else {
        lemma_counted_below(count, (n - 1) as nat)
    }
}

proof fn lemma_abs_update(norm: Seq<i16>, at: int, v: i16)
    requires
        0 <= at < norm.len(),
    ensures
        sum_abs(norm.update(at, v)) == sum_abs(norm) - abs16(norm[at]) + abs16(v),
    decreases norm.len(),
{
    let after = norm.update(at, v);
    if at == norm.len() - 1 {
        assert(after.drop_last() =~= norm.drop_last());
    } else {
        assert(after.drop_last() =~= norm.drop_last().update(at, v));
        lemma_abs_update(norm.drop_last(), at, v);
    }
}

proof fn lemma_abs_of_one(norm: Seq<i16>, i: int)
    requires
        0 <= i < norm.len(),
    ensures
        abs16(norm[i]) <= sum_abs(norm),
    decreases norm.len(),
{
    if i < norm.len() - 1 {
        lemma_abs_of_one(norm.drop_last(), i);
    }
}

proof fn lemma_abs_of_two(norm: Seq<i16>, i: int, j: int)
    requires
        0 <= i < norm.len(),
        0 <= j < norm.len(),
        i != j,
    ensures
        abs16(norm[i]) + abs16(norm[j]) <= sum_abs(norm),
    decreases norm.len(),
{
    if i == norm.len() - 1 {
        lemma_abs_of_one(norm.drop_last(), j);
    } else if j == norm.len() - 1 {
        lemma_abs_of_one(norm.drop_last(), i);
    } else {
        lemma_abs_of_two(norm.drop_last(), i, j);
    }
}

// ---------------------------------------------------------------------------
// Room for every symbol.

/// A table with a state for every unit of the total, or with two for every
/// symbol.
spec fn roomy(count: Seq<u32>, total: nat, size: nat) -> bool {
    size > total || size >= 2 * count.len()
}

proof fn lemma_roomy(count: Seq<u32>, total: nat, log: nat)
    requires
        2 <= count.len() <= 256,
        1 <= total <= u32::MAX,
        5 <= log <= 12,
        log >= spec_min_table_log(total, (count.len() - 1) as nat),
    ensures
        roomy(count, total, pow2(log)),
        32 <= pow2(log) <= 4096,
{
    let max = (count.len() - 1) as nat;
    lemma2_to64();
    lemma2_to64_rest();
    if log < 12 {
        lemma_pow2_strictly_increases(log, 12);
    }
    if log > 5 {
        lemma_pow2_strictly_increases(5, log);
    }
    lemma_highest_bit_bound(total, 32);
    lemma_highest_bit_bound(max, 8);
    let a = highest_bit(total) + 1;
    let b = highest_bit(max) + 2;
    lemma_pow2_unfold(a);
    lemma_pow2_unfold(b);
    lemma_pow2_unfold((b - 1) as nat);
    if log >= a {
        if log > a {
            lemma_pow2_strictly_increases(a, log);
        }
    } else {
        if log > b {
            lemma_pow2_strictly_increases(b, log);
        }
    }
}

/// Some symbol is worth more than one state.
proof fn lemma_rich(count: Seq<u32>, total: nat, size: nat) -> (s: int)
    requires
        total == total_count(count, count.len()),
        total >= 1,
        size >= 1,
        roomy(count, total, size),
    ensures
        0 <= s < count.len(),
        count[s] > total / size,
        count[s] > 0,
{
    let q = total / size;
    if forall|i: int| 0 <= i < count.len() ==> #[trigger] count[i] <= q {
        lemma_total_capped(count, count.len(), q);
        lemma_fundamental_div_mod(total as int, size as int);
        lemma_mod_bound(total as int, size as int);
        let n = count.len() as int;
        if size > total {
            assert(q == 0) by (nonlinear_arith)
                requires
                    total == size * q + total as int % size as int,
                    total as int % size as int >= 0,
                    size > total,
                    q >= 0,
            ;
            assert(n * q == 0) by (nonlinear_arith)
                requires
                    q == 0,
            ;
        } else {
            assert(2 * (n * q) <= total) by (nonlinear_arith)
                requires
                    total == size * q + total as int % size as int,
                    total as int % size as int >= 0,
                    size >= 2 * n,
                    q >= 0,
                    n >= 0,
            ;
        }
        assert(false);
    }
    choose|i: int| 0 <= i < count.len() && #[trigger] count[i] > q
}

// ---------------------------------------------------------------------------
// The quick scaling.

proof fn lemma_share_positive(c: nat, total: nat, log: nat)
    requires
        1 <= c <= total,
        total <= u32::MAX,
        5 <= log <= 12,
    ensures
        share(c, total, log) >= 1,
{
    lemma2_to64();
    lemma2_to64_rest();
    let p = pow2(62) as int;
    let step = p / (total as int);
    lemma_fundamental_div_mod(p, total as int);
    lemma_mod_bound(p, total as int);
    assert(step >= 1) by (nonlinear_arith)
        requires
            p == total * step + p % (total as int),
            p % (total as int) < total,
            p >= total,
            total >= 1,
    ;
    let unit = pow2((62 - log) as nat) as int;
    lemma_pow2_pos((62 - log) as nat);
    let x = c * step;
    assert(x >= 1) by (nonlinear_arith)
        requires
            c >= 1,
            step >= 1,
            x == c * step,
    ;
    lemma_fundamental_div_mod(x, unit);
    lemma_mod_bound(x, unit);
    let whole = x / unit;
    assert(whole >= 0) by (nonlinear_arith)
        requires
            x == unit * whole + x % unit,
            x % unit < unit,
            x >= 0,
            unit > 0,
    ;
    if whole == 0 {
        assert(x % unit == x) by (nonlinear_arith)
            requires
                x == unit * whole + x % unit,
                whole == 0,
        ;
        let small = pow2((42 - log) as nat);
        assert(small * 0 == 0);
    }
}

/// The first counts are in range, and name exactly the counted symbols.
proof fn lemma_first(count: Seq<u32>, total: nat, log: nat, low: i16, i: int)
    requires
        0 <= i < count.len(),
        count[i] <= total,
        1 <= total <= u32::MAX,
        5 <= log <= 12,
        low == 1 || low == -1,
    ensures
        -1 <= first_counts(count, total, log, low)[i] <= 4097,
        first_counts(count, total, log, low)[i] != 0 <==> count[i] != 0,
        count[i] > total / pow2(log) && count[i] > 0 ==> first_counts(count, total, log, low)[i]
            == share(count[i] as nat, total, log),
{
    lemma_share(count[i] as nat, total, log);
    lemma2_to64();
    if log < 12 {
        lemma_pow2_strictly_increases(log, 12);
    }
    if count[i] > 0 {
        lemma_share_positive(count[i] as nat, total, log);
    }
}

proof fn lemma_largest(count: Seq<u32>, total: nat, log: nat, n: nat)
    requires
        n <= count.len(),
        1 <= total <= u32::MAX,
        5 <= log <= 12,
        forall|i: int| 0 <= i < count.len() ==> #[trigger] count[i] <= total,
    ensures
        ({
            let (at, best) = largest_share(count, total, log, n);
            &&& best > 0 ==> at < n && count[at as int] > 0 && count[at as int] > total / pow2(log)
                && best == share(count[at as int] as nat, total, log)
            &&& (exists|s: int| 0 <= s < n && count[s] > 0 && #[trigger] count[s] > total / pow2(log)) ==> best > 0
        }),
    decreases n,
{
    if n > 0 {
        lemma_largest(count, total, log, (n - 1) as nat);
        assert(count[n - 1] <= total);
        if count[n - 1] > 0 {
            lemma_share_positive(count[n - 1] as nat, total, log);
        }
    }
}

/// What the most frequent symbol can absorb leaves a distribution.
proof fn lemma_absorbed(count: Seq<u32>, total: nat, log: nat, low: i16)
    requires
        2 <= count.len() <= 256,
        total == total_count(count, count.len()),
        1 <= total <= u32::MAX,
        5 <= log <= 12,
        log >= spec_min_table_log(total, (count.len() - 1) as nat),
        low == 1 || low == -1,
        absorbs(count, total, log, low),
    ensures
        represents(absorbed(count, total, log, low), count, log),
{
    let n = count.len();
    let size = pow2(log);
    lemma_roomy(count, total, log);
    assert forall|i: int| 0 <= i < n implies #[trigger] count[i] <= total by {
        lemma_total_bounds(count, n, i);
    }
    let rich = lemma_rich(count, total, size);
    assert(count[rich] > total / pow2(log));
    lemma_largest(count, total, log, n);
    let first = first_counts(count, total, log, low);
    let at = largest_share(count, total, log, n).0 as int;
    lemma_first(count, total, log, low, at);
    let left = left_over(count, total, log, low);
    lemma_abs_of_one(first, at);
    let v = (first[at] + left) as i16;
    assert(first[at] >= 1);
    assert(1 <= first[at] + left <= 4096);
    lemma_abs_update(first, at, v);
    let norm = absorbed(count, total, log, low);
    assert forall|i: int| 0 <= i < norm.len() implies #[trigger] norm[i] >= -1 && (norm[i] != 0 <==> count[i] != 0) by {
        lemma_first(count, total, log, low, i);
    }
}

// ---------------------------------------------------------------------------
// The slower scaling.

/// The counts of the unsettled ones of the first `n` symbols.
spec fn open_total(count: Seq<u32>, norm: Seq<i16>, n: nat) -> nat
    decreases n,
{
    if n == 0 {
        0
    } else {
        open_total(count, norm, (n - 1) as nat) + if norm[n - 1] == -2i16 {
            count[n - 1] as nat
        } else {
            0
        }
    }
}

/// How many of the first `n` symbols are unsettled.
spec fn opens(norm: Seq<i16>, n: nat) -> nat
    decreases n,
{
    if n == 0 {
        0
    } else {
        opens(norm, (n - 1) as nat) + if norm[n - 1] == -2i16 {
            1nat
        } else {
            0
        }
    }
}

/// How many of the first `n` symbols have a state.
spec fn closeds(norm: Seq<i16>, n: nat) -> nat
    decreases n,
{
    if n == 0 {
        0
    } else {
        closeds(norm, (n - 1) as nat) + if norm[n - 1] == -2i16 || norm[n - 1] == 0 {
            0nat
        } else {
            1
        }
    }
}

proof fn lemma_tallies_same(count: Seq<u32>, a: Seq<i16>, b: Seq<i16>, n: nat)
    requires
        forall|i: int| 0 <= i < n ==> #[trigger] a[i] == b[i],
    ensures
        open_total(count, a, n) == open_total(count, b, n),
        opens(a, n) == opens(b, n),
        closeds(a, n) == closeds(b, n),
    decreases n,
{
    if n > 0 {
        lemma_tallies_same(count, a, b, (n - 1) as nat);
        assert(a[n - 1] == b[n - 1]);
    }
}

/// An unsettled symbol `i` gets `v` states.
proof fn lemma_tallies_update(count: Seq<u32>, norm: Seq<i16>, i: int, v: i16, n: nat)
    requires
        0 <= i < norm.len(),
        norm[i] == -2i16,
        v > 0,
        n <= norm.len(),
    ensures
        i < n ==> {
            &&& open_total(count, norm.update(i, v), n) == open_total(count, norm, n) - count[i]
            &&& opens(norm.update(i, v), n) == opens(norm, n) - 1
            &&& closeds(norm.update(i, v), n) == closeds(norm, n) + 1
        },
        i >= n ==> {
            &&& open_total(count, norm.update(i, v), n) == open_total(count, norm, n)
            &&& opens(norm.update(i, v), n) == opens(norm, n)
            &&& closeds(norm.update(i, v), n) == closeds(norm, n)
        },
    decreases n,
{
    if n > 0 {
        lemma_tallies_update(count, norm, i, v, (n - 1) as nat);
    }
}

/// The counted symbols settle at a state each, or are worth more than `one`.
spec fn settled(count: Seq<u32>, norm: Seq<i16>, threshold: nat, one: nat, low: i16) -> bool {
    forall|i: int|
        0 <= i < norm.len() ==> {
            &&& #[trigger] norm[i] == 0 <==> count[i] == 0
            &&& norm[i] == 0 || norm[i] == 1 || norm[i] == -2 || norm[i] == low
            &&& norm[i] == -2 ==> count[i] > one
            &&& norm[i] == -1 ==> count[i] <= threshold
        }
}

/// The unsettled counts and the states given are at most the total.
proof fn lemma_tallies_bound(count: Seq<u32>, norm: Seq<i16>, n: nat)
    requires
        n <= norm.len(),
        forall|i: int| 0 <= i < n ==> (#[trigger] norm[i] == 0 <==> count[i] == 0),
    ensures
        open_total(count, norm, n) + closeds(norm, n) <= total_count(count, n),
        opens(norm, n) + closeds(norm, n) <= n,
        opens(norm, n) <= open_total(count, norm, n),
    decreases n,
{
    if n > 0 {
        lemma_tallies_bound(count, norm, (n - 1) as nat);
        assert(norm[n - 1] == 0 <==> count[n - 1] == 0);
    }
}

proof fn lemma_open_counted(count: Seq<u32>, norm: Seq<i16>, n: nat, i: int)
    requires
        0 <= i < n <= norm.len(),
        norm[i] == -2i16,
    ensures
        opens(norm, n) >= 1,
        count[i] <= open_total(count, norm, n),
    decreases n,
{
    if i < n - 1 {
        lemma_open_counted(count, norm, (n - 1) as nat, i);
    }
}

/// Settled symbols take a state each, unsettled ones count two.
proof fn lemma_settled_sum(count: Seq<u32>, norm: Seq<i16>, threshold: nat, one: nat, low: i16)
    requires
        settled(count, norm, threshold, one, low),
        low == 1 || low == -1,
    ensures
        sum_abs(norm) == closeds(norm, norm.len()) + 2 * opens(norm, norm.len()),
    decreases norm.len(),
{
    if norm.len() > 0 {
        let before = norm.drop_last();
        assert forall|i: int| 0 <= i < before.len() implies {
            &&& #[trigger] before[i] == 0 <==> count[i] == 0
            &&& before[i] == 0 || before[i] == 1 || before[i] == -2 || before[i] == low
            &&& before[i] == -2 ==> count[i] > one
            &&& before[i] == -1 ==> count[i] <= threshold
        } by {
            assert(before[i] == norm[i]);
        }
        lemma_settled_sum(count, before, threshold, one, low);
        lemma_tallies_same(count, before, norm, before.len());
        assert(norm[norm.len() - 1] == norm.last());
    }
}

/// What is known of the state of the slower scaling once every symbol has been
/// looked at.
spec fn tallied(count: Seq<u32>, s: Settling, threshold: nat, one: nat, low: i16) -> bool {
    &&& s.norm.len() == count.len()
    &&& settled(count, s.norm, threshold, one, low)
    &&& s.total == open_total(count, s.norm, count.len())
    &&& s.given == closeds(s.norm, count.len())
}

#[verifier::rlimit(30)]
proof fn lemma_poor(count: Seq<u32>, threshold: nat, one: nat, low: i16, s: Settling)
    requires
        s.norm.len() <= count.len(),
        low == 1 || low == -1,
        settled(count, s.norm, threshold, one, low),
        s.total + total_count(count, s.norm.len()) == open_total(count, s.norm, s.norm.len()) + total_count(
            count,
            count.len(),
        ),
        s.given == closeds(s.norm, s.norm.len()),
    ensures
        tallied(count, poor_settled(count, threshold, one, low, s), threshold, one, low),
    decreases count.len() - s.norm.len(),
{
    reveal_with_fuel(poor_settled, 1);
    let k = s.norm.len();
    if k < count.len() {
        let c = count[k as int] as nat;
        lemma_total_rises(count, k + 1, count.len());
        let next = if c == 0 {
            Settling { norm: s.norm.push(0), ..s }
        } else if c <= threshold {
            Settling { norm: s.norm.push(low), total: (s.total - c) as nat, given: s.given + 1 }
        } else if c <= one {
            Settling { norm: s.norm.push(1), total: (s.total - c) as nat, given: s.given + 1 }
        } else {
            Settling { norm: s.norm.push(-2i16), ..s }
        };
        assert(s.total >= c);
        lemma_tallies_same(count, s.norm, next.norm, k);
        assert forall|i: int| 0 <= i < next.norm.len() implies {
            &&& #[trigger] next.norm[i] == 0 <==> count[i] == 0
            &&& next.norm[i] == 0 || next.norm[i] == 1 || next.norm[i] == -2 || next.norm[i] == low
            &&& next.norm[i] == -2 ==> count[i] > one
            &&& next.norm[i] == -1 ==> count[i] <= threshold
        } by {
            if i < k {
                assert(next.norm[i] == s.norm[i]);
            }
        }
        lemma_poor(count, threshold, one, low, next);
    }
}

proof fn lemma_total_rises(count: Seq<u32>, a: nat, b: nat)
    requires
        a <= b,
    ensures
        total_count(count, a) <= total_count(count, b),
    decreases b,
{
    if a < b {
        lemma_total_rises(count, a, (b - 1) as nat);
    }
}

/// Where small symbols settle too, the others are worth more than `high`.
proof fn lemma_small(count: Seq<u32>, high: nat, s: Settling, i: nat, threshold: nat, one: nat, low: i16)
    requires
        i <= count.len(),
        tallied(count, s, threshold, one, low),
        low == 1 || low == -1,
        forall|j: int| 0 <= j < i && #[trigger] s.norm[j] == -2 ==> count[j] > high,
    ensures
        tallied(count, small_settled(count, high, s, i), threshold, high, low) || high < one,
        ({
            let r = small_settled(count, high, s, i);
            &&& r.norm.len() == count.len()
            &&& settled(count, r.norm, threshold, one, low)
            &&& settled(count, r.norm, threshold, high, low)
            &&& r.total == open_total(count, r.norm, count.len())
            &&& r.given == closeds(r.norm, count.len())
            &&& r.total <= s.total
            &&& r.given >= s.given
        }),
    decreases count.len() - i,
{
    reveal_with_fuel(small_settled, 1);
    if i < count.len() {
        let c = count[i as int] as nat;
        if s.norm[i as int] == -2i16 && c <= high {
            let next = Settling {
                norm: s.norm.update(i as int, 1),
                total: (s.total - c) as nat,
                given: s.given + 1,
            };
            lemma_open_counted(count, s.norm, count.len(), i as int);
            lemma_tallies_update(count, s.norm, i as int, 1, count.len());
            lemma_small(count, high, next, i + 1, threshold, one, low);
        } else {
            lemma_small(count, high, s, i + 1, threshold, one, low);
        }
    }
}

proof fn lemma_most_frequent(count: Seq<u32>, i: nat, at: nat, best: u32)
    requires
        i <= count.len(),
        1 <= count.len(),
        at < count.len(),
        best <= count[at as int],
        forall|j: int| 0 <= j < i ==> #[trigger] count[j] <= best,
    ensures
        most_frequent(count, i, at, best) < count.len(),
        forall|j: int| 0 <= j < count.len() ==> #[trigger] count[j] <= count[most_frequent(
            count,
            i,
            at,
            best,
        ) as int],
    decreases count.len() - i,
{
    reveal_with_fuel(most_frequent, 1);
    if i < count.len() {
        if count[i as int] > best {
            lemma_most_frequent(count, i + 1, i, count[i as int]);
        } else {
            lemma_most_frequent(count, i + 1, at, best);
        }
    }
}

/// A round hands out what it can.
proof fn lemma_round(norm: Seq<i16>, i: nat, left: nat, size: nat)
    requires
        i <= norm.len(),
        size <= 4096,
        sum_abs(norm) + left == size,
    ensures
        ({
            let (n, l) = round_handed(norm, i, left);
            &&& n.len() == norm.len()
            &&& sum_abs(n) + l == size
            &&& l <= left
            &&& forall|j: int|
                0 <= j < norm.len() ==> if norm[j] > 0 {
                    #[trigger] n[j] >= norm[j]
                } else {
                    n[j] == norm[j]
                }
            &&& (left > 0 && exists|j: int| i <= j < norm.len() && #[trigger] norm[j] > 0) ==> l < left
        }),
    decreases norm.len() - i,
{
    reveal_with_fuel(round_handed, 1);
    if i < norm.len() && left > 0 {
        if norm[i as int] > 0 {
            lemma_abs_of_one(norm, i as int);
            let v = (norm[i as int] + 1) as i16;
            lemma_abs_update(norm, i as int, v);
            let next = norm.update(i as int, v);
            lemma_round(next, i + 1, (left - 1) as nat, size);
            let (n, l) = round_handed(next, i + 1, (left - 1) as nat);
            assert forall|j: int| 0 <= j < norm.len() implies if norm[j] > 0 {
                #[trigger] n[j] >= norm[j]
            } else {
                n[j] == norm[j]
            } by {
                assert(if next[j] > 0 {
                    n[j] >= next[j]
                } else {
                    n[j] == next[j]
                });
            }
        } else {
            lemma_round(norm, i + 1, left, size);
            if exists|j: int| i <= j < norm.len() && #[trigger] norm[j] > 0 {
                let j = choose|j: int| i <= j < norm.len() && #[trigger] norm[j] > 0;
                assert(i + 1 <= j < norm.len() && norm[j] > 0);
            }
        }
    }
}

proof fn lemma_rounds(norm: Seq<i16>, left: nat, size: nat, at: int)
    requires
        size <= 4096,
        sum_abs(norm) + left == size,
        0 <= at < norm.len(),
        norm[at] > 0,
    ensures
        rounds_handed(norm, left) is Some,
        ({
            let n = rounds_handed(norm, left)->0;
            &&& n.len() == norm.len()
            &&& sum_abs(n) == size
            &&& forall|j: int|
                0 <= j < norm.len() ==> if norm[j] > 0 {
                    #[trigger] n[j] >= norm[j]
                } else {
                    n[j] == norm[j]
                }
        }),
    decreases left,
{
    reveal_with_fuel(rounds_handed, 1);
    if left > 0 {
        lemma_round(norm, 0, left, size);
        let (next, l) = round_handed(norm, 0, left);
        assert(next[at] >= norm[at]);
        lemma_rounds(next, l, size, at);
        let n = rounds_handed(next, l)->0;
        assert forall|j: int| 0 <= j < norm.len() implies if norm[j] > 0 {
            #[trigger] n[j] >= norm[j]
        } else {
            n[j] == norm[j]
        } by {
            assert(if norm[j] > 0 {
                next[j] >= norm[j]
            } else {
                next[j] == norm[j]
            });
        }
    }
}

/// The unsettled symbols from `i` on get as many states as lie between the
/// ends of their stretch of the line.
#[verifier::rlimit(40)]
proof fn lemma_line(count: Seq<u32>, norm: Seq<i16>, i: nat, step: nat, unit: nat, from: nat, end: nat)
    requires
        i <= count.len(),
        norm.len() == count.len(),
        unit >= 1,
        forall|j: int| i <= j < count.len() && #[trigger] norm[j] == -2 ==> count[j] * step >= unit,
        end == from + step * (open_total(count, norm, count.len()) - open_total(count, norm, i)),
        end / unit <= 4096,
    ensures
        line_settled(count, norm, i, step, unit, from) is Some,
        ({
            let r = line_settled(count, norm, i, step, unit, from)->0;
            &&& r.len() == norm.len()
            &&& sum_abs(r) == sum_abs(norm) - 2 * (opens(norm, count.len()) - opens(norm, i)) + end / unit - from / unit
            &&& forall|j: int|
                0 <= j < norm.len() ==> if j >= i && norm[j] == -2 {
                    #[trigger] r[j] >= 1
                } else {
                    r[j] == norm[j]
                }
        }),
    decreases count.len() - i,
{
    reveal_with_fuel(line_settled, 1);
    let n = count.len();
    if i < n {
        if norm[i as int] == -2i16 {
            let c = count[i as int] as nat;
            let to = (from + c * step) as nat;
            let states = to / unit - from / unit;
            lemma_open_rises(count, norm, i + 1, n);
            let rest = open_total(count, norm, n) - open_total(count, norm, i + 1);
            assert(step * (open_total(count, norm, n) - open_total(count, norm, i)) == c * step + step * rest)
                by (nonlinear_arith)
                requires
                    open_total(count, norm, n) - open_total(count, norm, i) == c + rest,
            ;
            assert(step * rest >= 0) by (nonlinear_arith)
                requires
                    rest >= 0,
                    step >= 0,
            ;
            assert(end >= to);
            lemma_div_is_ordered(to as int, end as int, unit as int);
            lemma_past_unit(from, to, unit);
            lemma_from_unit(from, unit);
            let v = states as i16;
            lemma_abs_update(norm, i as int, v);
            let next = norm.update(i as int, v);
            lemma_tallies_update(count, norm, i as int, v, n);
            lemma_tallies_update(count, norm, i as int, v, i + 1);
            assert forall|j: int| i + 1 <= j < n && #[trigger] next[j] == -2 implies count[j] * step >= unit by {
                assert(norm[j] == -2);
            }
            lemma_line(count, next, i + 1, step, unit, to, end);
            let r = line_settled(count, next, i + 1, step, unit, to)->0;
            assert forall|j: int| 0 <= j < norm.len() implies if j >= i && norm[j] == -2 {
                #[trigger] r[j] >= 1
            } else {
                r[j] == norm[j]
            } by {
                assert(if j >= i + 1 && next[j] == -2 {
                    r[j] >= 1
                } else {
                    r[j] == next[j]
                });
            }
        } else {
            lemma_line(count, norm, i + 1, step, unit, from, end);
        }
    } else {
        assert(step * 0 == 0) by (nonlinear_arith);
    }
}

proof fn lemma_open_rises(count: Seq<u32>, norm: Seq<i16>, a: nat, b: nat)
    requires
        a <= b,
    ensures
        open_total(count, norm, a) <= open_total(count, norm, b),
    decreases b,
{
    if a < b {
        lemma_open_rises(count, norm, a, (b - 1) as nat);
    }
}

proof fn lemma_past_unit(from: nat, to: nat, unit: nat)
    requires
        unit >= 1,
        to >= from + unit,
    ensures
        to / unit >= from / unit + 1,
{
    lemma_div_is_ordered((from + unit) as int, to as int, unit as int);
    lemma_fundamental_div_mod(from as int, unit as int);
    vstd::arithmetic::div_mod::lemma_div_plus_one(from as int, unit as int);
}

proof fn lemma_from_unit(from: nat, unit: nat)
    requires
        unit >= 1,
    ensures
        from / unit >= 0,
{
    vstd::arithmetic::div_mod::lemma_div_pos_is_pos(from as int, unit as int);
}

/// The line ends exactly `left` units on, and a count worth a state gets one.
proof fn lemma_line_ends(total: nat, left: nat, unit: nat)
    requires
        1 <= total <= u32::MAX,
        1 <= left <= 4096,
        unit >= 0x2_0000_0000,
        unit % 2 == 0,
    ensures
        ({
            let mid = (unit / 2 - 1) as nat;
            let step = (unit * left + mid) / total;
            &&& (mid + step * total) as nat / unit == left
            &&& mid / unit == 0
            &&& forall|c: nat| c >= 1 && c * left >= total ==> #[trigger] (c * step) >= unit
        }),
{
    let mid = (unit / 2 - 1) as nat;
    let whole = (unit * left + mid) as int;
    let step = whole / (total as int);
    lemma_fundamental_div_mod(whole, total as int);
    lemma_mod_bound(whole, total as int);
    let rest = whole % (total as int);
    assert(whole >= 0) by (nonlinear_arith)
        requires
            whole == unit * left + mid,
    ;
    vstd::arithmetic::div_mod::lemma_div_pos_is_pos(whole, total as int);
    let end = mid + step * total;
    assert(step * total == total * step) by (nonlinear_arith);
    assert(end == unit * left + (2 * mid - rest));
    let over = 2 * mid - rest;
    assert(0 <= over < unit);
    assert(unit * left + over == left * unit + over) by (nonlinear_arith);
    vstd::arithmetic::div_mod::lemma_fundamental_div_mod_converse(end, unit as int, left as int, over);
    vstd::arithmetic::div_mod::lemma_fundamental_div_mod_converse(mid as int, unit as int, 0, mid as int);
    assert forall|c: nat| c >= 1 && c * left >= total implies #[trigger] (c * step) >= unit by {
        assert(c * step >= unit) by (nonlinear_arith)
            requires
                c >= 1,
                c * left >= total,
                total >= 1,
                total * step == unit * left + mid - rest,
                rest < total,
                mid >= total,
                unit >= 1,
                step >= 0,
        {
            assert(total * (c * step) == c * (total * step));
            assert(c * (unit * left + mid - rest) >= c * (unit * left)) by {
                assert(mid - rest >= 0);
            }
            assert(c * (unit * left) == unit * (c * left));
            assert(unit * (c * left) >= unit * total);
            assert(total * (c * step) >= total * unit);
        }
    }
}

/// What is left goes to the symbols that are not poor, and fills the table.
#[verifier::rlimit(40)]
proof fn lemma_rest(count: Seq<u32>, log: nat, s: Settling, left: nat, threshold: nat, one: nat, low: i16, rich: int)
    requires
        2 <= count.len() <= 256,
        5 <= log <= 12,
        32 <= pow2(log) <= 4096,
        low == 1 || low == -1,
        tallied(count, s, threshold, one, low),
        s.given + left == pow2(log),
        left >= 1,
        s.total <= u32::MAX,
        0 <= rich < count.len(),
        count[rich] > threshold,
        count[rich] > 0,
        forall|i: int| 0 <= i < count.len() && #[trigger] s.norm[i] == -2 ==> count[i] * left >= s.total,
    ensures
        rest_settled(count, log, s, left) is Some,
        represents(rest_settled(count, log, s, left)->0, count, log),
{
    reveal(rest_settled);
    let n = count.len();
    let norm = s.norm;
    lemma_settled_sum(count, norm, threshold, one, low);
    lemma_tallies_bound(count, norm, n);
    assert(norm[rich] == 1 || norm[rich] == -2);
    if s.given == n {
        assert(opens(norm, n) == 0);
        lemma_most_frequent(count, 0, 0, 0);
        let at = most_frequent(count, 0, 0, 0) as int;
        assert(count[rich] <= count[at]);
        if norm[at] == -2 {
            lemma_open_counted(count, norm, n, at);
        }
        assert(norm[at] == 1);
        let v = (norm[at] + left) as i16;
        lemma_abs_update(norm, at, v);
        let r = norm.update(at, v);
        assert forall|i: int| 0 <= i < r.len() implies #[trigger] r[i] >= -1 && (r[i] != 0 <==> count[i] != 0) by {
            assert(norm[i] == 0 <==> count[i] == 0);
            if norm[i] == -2 {
                lemma_open_counted(count, norm, n, i);
            }
        }
    } else if s.total == 0 {
        assert(opens(norm, n) == 0);
        if norm[rich] == -2 {
            lemma_open_counted(count, norm, n, rich);
        }
        lemma_rounds(norm, left, pow2(log), rich);
        let r = rounds_handed(norm, left)->0;
        assert forall|i: int| 0 <= i < r.len() implies #[trigger] r[i] >= -1 && (r[i] != 0 <==> count[i] != 0) by {
            assert(norm[i] == 0 <==> count[i] == 0);
            if norm[i] == -2 {
                lemma_open_counted(count, norm, n, i);
            }
        }
    } else {
        let unit = pow2((62 - log) as nat);
        lemma2_to64();
        lemma2_to64_rest();
        lemma_pow2_strictly_increases(33, (62 - log) as nat);
        lemma_pow2_unfold((62 - log) as nat);
        let mid = (unit / 2 - 1) as nat;
        let step = (unit * left + mid) / s.total;
        lemma_line_ends(s.total, left, unit);
        assert(mid + step * s.total >= 0) by (nonlinear_arith)
            requires
                step >= 0,
        ;
        let end = (mid + step * s.total) as nat;
        assert forall|j: int| 0 <= j < n && #[trigger] norm[j] == -2 implies count[j] * step >= unit by {
            let c = count[j] as nat;
            assert(count[j] * left >= s.total);
            assert(c * step >= unit);
        }
        lemma_line(count, norm, 0, step, unit, mid, end);
        let r = line_settled(count, norm, 0, step, unit, mid)->0;
        assert forall|i: int| 0 <= i < r.len() implies #[trigger] r[i] >= -1 && (r[i] != 0 <==> count[i] != 0) by {
            assert(norm[i] == 0 <==> count[i] == 0);
        }
    }
}

/// An unsettled symbol is worth a state of what is left.
proof fn lemma_worth(c: nat, total: nat, left: nat, one: nat)
    requires
        left >= 1,
        total / left <= one,
        c > one,
    ensures
        c * left >= total,
{
    lemma_fundamental_div_mod(total as int, left as int);
    lemma_mod_bound(total as int, left as int);
    assert(c * left >= total) by (nonlinear_arith)
        requires
            total == left * (total / left) + total as int % left as int,
            (total as int % left as int) < left,
            c >= total / left + 1,
            left >= 1,
    ;
}

/// Once small symbols have settled too, an unsettled one is still worth a
/// state of what is left.
proof fn lemma_still_worth(c: nat, total: nat, size: nat, n: nat, t0: nat, g: nat, t: nat, h: nat)
    requires
        size >= 1,
        g <= h,
        size >= 2 * n,
        h <= n,
        n >= 1,
        g < size,
        t <= t0 <= total,
        t0 / ((size - g) as nat) > (total * 3) / (size * 2),
        c > (t0 * 3) / (((size - g) as nat) * 2),
    ensures
        c * ((size - h) as nat) >= t,
{
    let l0 = (size - g) as nat;
    let l = (size - h) as nat;
    let one = (total * 3) / (size * 2);
    let high = (t0 * 3) / (l0 * 2);
    lemma_fundamental_div_mod(t0 as int, l0 as int);
    lemma_mod_bound(t0 as int, l0 as int);
    lemma_fundamental_div_mod((total * 3) as int, (size * 2) as int);
    lemma_mod_bound((total * 3) as int, (size * 2) as int);
    lemma_fundamental_div_mod((t0 * 3) as int, (l0 * 2) as int);
    lemma_mod_bound((t0 * 3) as int, (l0 * 2) as int);
    assert(t0 >= (one + 1) * l0) by (nonlinear_arith)
        requires
            t0 == l0 * (t0 / l0) + t0 as int % l0 as int,
            t0 as int % l0 as int >= 0,
            t0 / l0 >= one + 1,
            l0 >= 1,
    ;
    assert((one + 1) * (size * 2) > total * 3) by (nonlinear_arith)
        requires
            total * 3 == (size * 2) * one + (total * 3) as int % (size * 2) as int,
            ((total * 3) as int % (size * 2) as int) < size * 2,
    ;
    // 2 size t0 >= 2 size (one + 1) l0 > 3 total l0 >= 3 t0 l0
    assert(2 * size > 3 * l0) by (nonlinear_arith)
        requires
            t0 >= (one + 1) * l0,
            (one + 1) * (size * 2) > total * 3,
            total >= t0,
            l0 >= 1,
            size >= 1,
    {
        assert((size * 2) * t0 >= (size * 2) * ((one + 1) * l0));
        assert((size * 2) * ((one + 1) * l0) == ((one + 1) * (size * 2)) * l0);
        assert(((one + 1) * (size * 2)) * l0 > (total * 3) * l0);
        assert((total * 3) * l0 >= (t0 * 3) * l0);
        assert((size * 2) * t0 > (3 * l0) * t0);
    }
    assert(3 * l >= 2 * l0);
    assert((high + 1) * (l0 * 2) > t0 * 3) by (nonlinear_arith)
        requires
            t0 * 3 == (l0 * 2) * high + (t0 * 3) as int % (l0 * 2) as int,
            ((t0 * 3) as int % (l0 * 2) as int) < l0 * 2,
    ;
    assert(c * l >= t) by (nonlinear_arith)
        requires
            c >= high + 1,
            (high + 1) * (l0 * 2) > t0 * 3,
            3 * l >= 2 * l0,
            t <= t0,
    {
        assert(c * (l0 * 2) >= (high + 1) * (l0 * 2));
        assert(c * (3 * l) >= c * (2 * l0));
    }
}

/// The slower scaling leaves a distribution.
#[verifier::rlimit(40)]
proof fn lemma_slowly(count: Seq<u32>, total: nat, log: nat, low: i16)
    requires
        2 <= count.len() <= 256,
        total == total_count(count, count.len()),
        1 <= total <= u32::MAX,
        5 <= log <= 12,
        log >= spec_min_table_log(total, (count.len() - 1) as nat),
        low == 1 || low == -1,
    ensures
        slowly_scaled(count, total, log, low) is Some,
        represents(slowly_scaled(count, total, log, low)->0, count, log),
{
    reveal(slowly_scaled);
    let n = count.len();
    let size = pow2(log);
    lemma_roomy(count, total, log);
    let rich = lemma_rich(count, total, size);
    let threshold = total / size;
    let one = (total * 3) / (size * 2);
    let start = Settling { norm: Seq::empty(), total, given: 0 };
    lemma_poor(count, threshold, one, low, start);
    let s = poor_settled(count, threshold, one, low, start);
    lemma_tallies_bound(count, s.norm, n);
    assert(s.given < size);
    let left = (size - s.given) as nat;
    if s.total / left > one {
        if size > total {
            assert(s.total < left);
            vstd::arithmetic::div_mod::lemma_basic_div(s.total as int, left as int);
            assert(false);
        }
        let high = (s.total * 3) / (left * 2);
        lemma_small(count, high, s, 0, threshold, one, low);
        let s1 = small_settled(count, high, s, 0);
        lemma_tallies_bound(count, s1.norm, n);
        assert(s1.given < size);
        let left1 = (size - s1.given) as nat;
        assert forall|i: int| 0 <= i < n && #[trigger] s1.norm[i] == -2 implies count[i] * left1 >= s1.total by {
            assert(count[i] > high);
            lemma_still_worth(count[i] as nat, total, size, n, s.total, s.given, s1.total, s1.given);
        }
        lemma_rest(count, log, s1, left1, threshold, high, low, rich);
    } else {
        assert forall|i: int| 0 <= i < n && #[trigger] s.norm[i] == -2 implies count[i] * left >= s.total by {
            lemma_worth(count[i] as nat, s.total, left, one);
        }
        lemma_rest(count, log, s, left, threshold, one, low, rich);
    }
}

// ---------------------------------------------------------------------------
// Laws.

/// A symbol in a distribution with another one has less than all states.
pub proof fn lemma_less_than_all(norm: Seq<i16>, count: Seq<u32>, log: nat, s: int)
    requires
        represents(norm, count, log),
        0 <= s < norm.len(),
        count[s] < total_count(count, count.len()),
    ensures
        norm[s] < pow2(log),
{
    let t = lemma_second(count, count.len(), s);
    lemma_abs_of_two(norm, s, t);
    assert(norm[t] != 0 <==> count[t] != 0);
}

proof fn lemma_no_sole_symbol(count: Seq<u32>, total: nat, s: nat)
    requires
        forall|i: int| 0 <= i < count.len() ==> #[trigger] count[i] != total,
    ensures
        sole_symbol(count, total, s) is None,
    decreases count.len() - s,
{
    reveal_with_fuel(sole_symbol, 1);
    if s < count.len() {
        lemma_no_sole_symbol(count, total, s + 1);
    }
}

/// Scaling never fails: every histogram of more than one symbol is scaled, to
/// every table log that its alphabet and the format allow, to a distribution
/// of exactly its symbols, none of which has all the states.
pub proof fn law_histograms_scale(count: Seq<u32>, total: nat, log: nat, use_low_prob: bool)
    requires
        2 <= count.len() <= 256,
        total == total_count(count, count.len()),
        1 <= total <= u32::MAX,
        5 <= log <= 12,
        log >= spec_min_table_log(total, (count.len() - 1) as nat),
        forall|i: int| 0 <= i < count.len() ==> #[trigger] count[i] != total,
    ensures
        match spec_normalize(count, total, (count.len() - 1) as nat, log, use_low_prob) {
            Ok(NormView::Table(norm)) => {
                &&& represents(norm, count, log)
                &&& forall|s: int| 0 <= s < norm.len() ==> #[trigger] norm[s] < pow2(log)
            },
            _ => false,
        },
{
    reveal(spec_normalize);
    let low = if use_low_prob {
        -1i16
    } else {
        1i16
    };
    lemma_no_sole_symbol(count, total, 0);
    if absorbs(count, total, log, low) {
        lemma_absorbed(count, total, log, low);
    } else {
        lemma_slowly(count, total, log, low);
    }
    let norm = if absorbs(count, total, log, low) {
        absorbed(count, total, log, low)
    } else {
        slowly_scaled(count, total, log, low)->0
    };
    assert forall|s: int| 0 <= s < norm.len() implies #[trigger] norm[s] < pow2(log) by {
        lemma_total_bounds(count, count.len(), s);
        lemma_less_than_all(norm, count, log, s);
    }
}

/// The table of a scaled histogram drains, so that what it codes is decoded to
/// the last symbol, and it has exactly the counted symbols.
pub proof fn law_scaled_tables_drain(ct: &FseCTable, norm: Seq<i16>, count: Seq<u32>, total: nat, log: nat, use_low_prob: bool)
    requires
        2 <= count.len() <= 256,
        total == total_count(count, count.len()),
        1 <= total <= u32::MAX,
        spec_normalize(count, total, (count.len() - 1) as nat, log, use_low_prob) == Ok::<NormView, Error>(
            NormView::Table(norm),
        ),
        log != 0,
        ct.built_from(norm, log),
    ensures
        ct.drains(),
        forall|s: int| 0 <= s < count.len() ==> (#[trigger] ct.encodable(s) <==> count[s] != 0),
{
    reveal(spec_normalize);
    assert forall|i: int| 0 <= i < count.len() implies #[trigger] count[i] != total by {
        if count[i] == total {
            lemma_sole_symbol(count, total, 0, i);
        }
    }
    law_histograms_scale(count, total, log, use_low_prob);
    assert forall|s: int| 0 <= s < count.len() implies (#[trigger] ct.encodable(s) <==> count[s] != 0) by {
        assert(norm[s] != 0 <==> count[s] != 0);
    }
}

proof fn lemma_sole_symbol(count: Seq<u32>, total: nat, s: nat, i: int)
    requires
        s <= i < count.len(),
        count[i] == total,
    ensures
        sole_symbol(count, total, s) is Some,
    decreases count.len() - s,
{
    reveal_with_fuel(sole_symbol, 1);
    if count[s as int] != total {
        lemma_sole_symbol(count, total, s + 1, i);
    }
}

} // verus!
