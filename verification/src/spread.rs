//! The layout of symbols over the states of an FSE table.
//!
//! Symbols with a probability below one take the highest states; the others
//! are dealt out with a fixed odd stride, skipping the states already taken.
//! Since the stride is odd and the table size a power of two, the walk visits
//! every state exactly once before it returns to state zero.

use crate::fse::{abs16, sum_abs, valid_counts};
use crate::math::pow2_u64;
use vstd::arithmetic::div_mod::{
    lemma_add_mod_noop, lemma_fundamental_div_mod, lemma_fundamental_div_mod_converse, lemma_mod_bound,
    lemma_mod_multiples_basic, lemma_small_mod,
};
use vstd::arithmetic::power2::{lemma2_to64, lemma_pow2_pos, lemma_pow2_strictly_increases, lemma_pow2_unfold, pow2};
use vstd::prelude::*;
use vstd::relations::injective_on;
use vstd::set_lib::{lemma_int_range, lemma_map_size, lemma_subset_equality, set_int_range};

verus! {

/// The stride of the walk over a table of `size` states.
pub open spec fn spread_step(size: nat) -> nat {
    size / 2 + size / 8 + 3
}

/// The state that the walk visits at step `k`.
#[verifier::opaque]
pub open spec fn spread_index(size: nat, k: nat) -> nat {
    (k * spread_step(size)) % size
}

/// The first step from `k` on at which the walk is at a state up to `high`.
pub open spec fn next_good(size: nat, high: int, k: nat) -> nat
    decreases
            (if size > 0 && k % size != 0 {
                (size - k % size) as nat
            } else {
                0
            }),
{
    if size == 0 || high < 0 || k % size == 0 || spread_index(size, k) <= high {
        k
    } else {
        proof {
            lemma_mod_bound(k as int, size as int);
            lemma_next_mod(k, size);
        }
        next_good(size, high, k + 1)
    }
}

pub proof fn lemma_next_mod(k: nat, size: nat)
    requires
        size > 0,
    ensures
        (k + 1) % size == if k % size + 1 == size {
            0
        } else {
            k % size + 1
        },
{
    lemma_fundamental_div_mod(k as int, size as int);
    lemma_mod_bound(k as int, size as int);
    let q = k as int / size as int;
    let r = k as int % size as int;
    assert(size as int * q == q * size as int) by (nonlinear_arith);
    if r + 1 == size {
        assert(size * (q + 1) == size * q + size) by (nonlinear_arith);
        lemma_fundamental_div_mod_converse(k as int + 1, size as int, q + 1, 0);
    } else {
        lemma_fundamental_div_mod_converse(k as int + 1, size as int, q, r + 1);
    }
}

/// The step at which the `m`-th symbol is placed.
pub open spec fn place_step(size: nat, high: int, m: nat) -> nat
    decreases m,
{
    if m == 0 {
        0
    } else {
        next_good(size, high, place_step(size, high, (m - 1) as nat) + 1)
    }
}

/// The state that the `m`-th placed symbol gets.
pub open spec fn place_slot(size: nat, high: int, m: nat) -> nat {
    spread_index(size, place_step(size, high, m))
}

/// Symbols with a probability below one, in order.
pub open spec fn low_symbols(counts: Seq<i16>) -> Seq<u8>
    decreases counts.len(),
{
    if counts.len() == 0 {
        Seq::empty()
    } else if counts.last() == -1 {
        low_symbols(counts.drop_last()).push((counts.len() - 1) as u8)
    } else {
        low_symbols(counts.drop_last())
    }
}

/// Symbols with a count, in order, each as often as its count.
pub open spec fn dealt_symbols(counts: Seq<i16>) -> Seq<u8>
    decreases counts.len(),
{
    if counts.len() == 0 {
        Seq::empty()
    } else {
        dealt_symbols(counts.drop_last()) + copies(
            (counts.len() - 1) as u8,
            if counts.last() > 0 {
                counts.last() as nat
            } else {
                0
            },
        )
    }
}

pub open spec fn copies(symbol: u8, n: nat) -> Seq<u8> {
    Seq::new(n, |i: int| symbol)
}

/// The highest state that is dealt out by the walk.
pub open spec fn high_state(counts: Seq<i16>, size: nat) -> int {
    size - 1 - low_symbols(counts).len()
}

/// The states above `high`, filled from the top.
pub open spec fn low_layout(low: Seq<u8>, size: nat) -> Seq<u8> {
    Seq::new(
        size,
        |u: int|
            if size - 1 - u < low.len() {
                low[size - 1 - u]
            } else {
                0
            },
    )
}

/// `base` with the first `m` of `list` dealt out.
pub open spec fn deal(base: Seq<u8>, high: int, list: Seq<u8>, m: nat) -> Seq<u8>
    decreases m,
{
    if m == 0 {
        base
    } else {
        deal(base, high, list, (m - 1) as nat).update(
            place_slot(base.len(), high, (m - 1) as nat) as int,
            list[m - 1],
        )
    }
}

/// The symbol of every state of the table for `counts`.
pub open spec fn spec_spread(counts: Seq<i16>, log: nat) -> Seq<u8> {
    let size = pow2(log);
    deal(
        low_layout(low_symbols(counts), size),
        high_state(counts, size),
        dealt_symbols(counts),
        dealt_symbols(counts).len(),
    )
}

// ---------------------------------------------------------------------------
// The walk is a permutation.

proof fn lemma_odd_factor(x: int, step: int, l: nat)
    requires
        step % 2 == 1,
        (x * step) % (pow2(l) as int) == 0,
    ensures
        x % (pow2(l) as int) == 0,
    decreases l,
{
    lemma2_to64();
    if l > 0 {
        lemma_pow2_unfold(l);
        let h = pow2((l - 1) as nat) as int;
        lemma_pow2_pos((l - 1) as nat);
        lemma_pow2_pos(l);
        let q = (x * step) / (pow2(l) as int);
        lemma_fundamental_div_mod(x * step, pow2(l) as int);
        assert(x * step == 2 * (h * q)) by (nonlinear_arith)
            requires
                x * step == (2 * h) * q,
        ;
        assert(x % 2 == 0) by {
            if x % 2 != 0 {
                let a = x / 2;
                let b = step / 2;
                assert(x * step == 2 * (2 * a * b + a + b) + 1) by (nonlinear_arith)
                    requires
                        x == 2 * a + 1,
                        step == 2 * b + 1,
                ;
            }
        }
        let y = x / 2;
        assert(y * step == h * q) by (nonlinear_arith)
            requires
                x == 2 * y,
                x * step == 2 * (h * q),
        ;
        assert((h * q) % h == 0) by {
            lemma_mod_multiples_basic(q, h);
            assert(q * h == h * q) by (nonlinear_arith);
        }
        lemma_odd_factor(y, step, (l - 1) as nat);
        let r = y / h;
        lemma_fundamental_div_mod(y, h);
        assert(x == r * (2 * h)) by (nonlinear_arith)
            requires
                x == 2 * y,
                y == h * r,
        ;
        lemma_mod_multiples_basic(r, 2 * h);
    } else {
        assert(x % 1 == 0);
    }
}

proof fn lemma_step_odd(log: nat)
    requires
        5 <= log <= 14,
    ensures
        spread_step(pow2(log)) % 2 == 1,
        spread_step(pow2(log)) <= pow2(log),
        pow2(log) >= 32,
        pow2(log) <= 16384,
{
    lemma2_to64();
    lemma_pow2_unfold(log);
    lemma_pow2_unfold((log - 1) as nat);
    lemma_pow2_unfold((log - 2) as nat);
    lemma_pow2_unfold((log - 3) as nat);
    if log > 5 {
        lemma_pow2_strictly_increases(5, log);
    }
    if log < 14 {
        lemma_pow2_strictly_increases(log, 14);
    }
}

proof fn lemma_walk_injective(log: nat, i: nat, j: nat)
    requires
        5 <= log <= 14,
        i < j < pow2(log),
    ensures
        spread_index(pow2(log), i) != spread_index(pow2(log), j),
{
    reveal(spread_index);
    lemma_step_odd(log);
    let size = pow2(log) as int;
    let step = spread_step(pow2(log)) as int;
    if (i * step) % size == (j * step) % size {
        lemma_fundamental_div_mod(i * step, size);
        lemma_fundamental_div_mod(j * step, size);
        let a = (i * step) / size;
        let b = (j * step) / size;
        assert((j - i) * step == (b - a) * size) by (nonlinear_arith)
            requires
                i * step == size * a + (i * step) % size,
                j * step == size * b + (j * step) % size,
                (i * step) % size == (j * step) % size,
        ;
        lemma_mod_multiples_basic(b - a, size);
        lemma_odd_factor(j - i, step, log);
        lemma_small_mod((j - i) as nat, size as nat);
    }
}

/// Steps below `n` at which the walk is at a state up to `high`.
pub open spec fn good_below(size: nat, high: int, n: nat) -> nat
    decreases n,
{
    if n == 0 {
        0
    } else {
        good_below(size, high, (n - 1) as nat) + if spread_index(size, (n - 1) as nat) <= high {
            1nat
        } else {
            0nat
        }
    }
}

spec fn good_set(size: nat, high: int, n: int) -> Set<int> {
    Set::new(|k: int| 0 <= k < n && spread_index(size, k as nat) <= high)
}

proof fn lemma_good_set(size: nat, high: int, n: nat)
    ensures
        good_set(size, high, n as int).finite(),
        good_set(size, high, n as int).len() == good_below(size, high, n),
    decreases n,
{
    if n == 0 {
        assert(good_set(size, high, 0) =~= Set::empty());
    } else {
        lemma_good_set(size, high, (n - 1) as nat);
        let s = good_set(size, high, n - 1);
        if spread_index(size, (n - 1) as nat) <= high {
            assert(good_set(size, high, n as int) =~= s.insert(n - 1));
            assert(!s.contains(n - 1));
        } else {
            assert(good_set(size, high, n as int) =~= s);
        }
    }
}

spec fn visited(size: nat, u: int) -> bool {
    exists|k: int| 0 <= k < size && #[trigger] spread_index(size, k as nat) == u
}

/// The walk visits each of the states `0 ..= high` once in `2^log` steps.
proof fn lemma_good_total(log: nat, high: int)
    requires
        5 <= log <= 14,
        -1 <= high < pow2(log),
    ensures
        good_below(pow2(log), high, pow2(log)) == high + 1,
        forall|u: int| 0 <= u < pow2(log) ==> #[trigger] visited(pow2(log), u),
{
    let size = pow2(log);
    let n = size as int;
    lemma_pow2_pos(log);
    let f = |k: int| spread_index(size, k as nat) as int;
    let all = set_int_range(0, n);
    lemma_int_range(0, n);
    assert(injective_on(f, all)) by {
        assert forall|x1: int, x2: int|
            all.contains(x1) && all.contains(x2) && #[trigger] f(x1) == #[trigger] f(
                x2,
            ) implies x1 == x2 by {
            if x1 < x2 {
                lemma_walk_injective(log, x1 as nat, x2 as nat);
            } else if x2 < x1 {
                lemma_walk_injective(log, x2 as nat, x1 as nat);
            }
        }
    }
    let image = all.map(f);
    lemma_map_size(all, image, f);
    assert(image.subset_of(all)) by {
        assert forall|y: int| image.contains(y) implies all.contains(y) by {
            let x = choose|x: int| all.contains(x) && y == f(x);
            reveal(spread_index);
            lemma_mod_bound((x as nat * spread_step(size)) as int, n);
        }
    }
    lemma_subset_equality(image, all);
    assert forall|u: int| 0 <= u < n implies #[trigger] visited(size, u) by {
        assert(all.contains(u));
        assert(image.contains(u));
        let x = choose|x: int| all.contains(x) && u == f(x);
        assert(spread_index(size, x as nat) == u);
    }
    let g = good_set(size, high, n);
    lemma_good_set(size, high, size);
    let target = set_int_range(0, high + 1);
    lemma_int_range(0, high + 1);
    assert(g.map(f) =~= target) by {
        assert forall|y: int| g.map(f).contains(y) == target.contains(y) by {
            if target.contains(y) {
                assert(visited(size, y));
                let k = choose|k: int| 0 <= k < n && #[trigger] spread_index(size, k as nat) == y;
                assert(g.contains(k) && f(k) == y);
            }
            if g.map(f).contains(y) {
                let x = choose|x: int| g.contains(x) && y == f(x);
            }
        }
    }
    assert(injective_on(f, g)) by {
        assert forall|x1: int, x2: int|
            g.contains(x1) && g.contains(x2) && #[trigger] f(x1) == #[trigger] f(x2) implies x1
            == x2 by {
            assert(all.contains(x1) && all.contains(x2));
        }
    }
    lemma_map_size(g, target, f);
}

proof fn lemma_good_monotone(size: nat, high: int, a: nat, b: nat)
    requires
        a <= b,
    ensures
        good_below(size, high, a) <= good_below(size, high, b),
    decreases b,
{
    if a < b {
        lemma_good_monotone(size, high, a, (b - 1) as nat);
    }
}

proof fn lemma_next_good(log: nat, high: int, k: nat)
    requires
        5 <= log <= 14,
        0 <= high,
        0 < k <= pow2(log),
    ensures
        k <= next_good(pow2(log), high, k) <= pow2(log),
        good_below(pow2(log), high, next_good(pow2(log), high, k)) == good_below(
            pow2(log),
            high,
            k,
        ),
        spread_index(pow2(log), next_good(pow2(log), high, k)) <= high,
    decreases pow2(log) - k,
{
    let size = pow2(log);
    lemma_pow2_pos(log);
    if k == size {
        vstd::arithmetic::div_mod::lemma_mod_self_0(size as int);
        reveal(spread_index);
        lemma_mod_multiples_basic(spread_step(size) as int, size as int);
        assert(size * spread_step(size) == spread_step(size) * size) by (nonlinear_arith);
    } else {
        lemma_small_mod(k, size);
        if spread_index(size, k) > high {
            lemma_next_good(log, high, k + 1);
        }
    }
}

/// The `m`-th symbol is placed after exactly `m` others.
proof fn lemma_place_step(log: nat, high: int, m: nat)
    requires
        5 <= log <= 14,
        0 <= high < pow2(log),
        m <= high + 1,
    ensures
        good_below(pow2(log), high, place_step(pow2(log), high, m)) == m,
        place_slot(pow2(log), high, m) <= high,
        m <= high ==> place_step(pow2(log), high, m) < pow2(log),
        m == high + 1 ==> place_step(pow2(log), high, m) == pow2(log),
    decreases m,
{
    let size = pow2(log);
    lemma_pow2_pos(log);
    lemma_good_total(log, high);
    if m == 0 {
        reveal(spread_index);
        assert(0 * spread_step(size) == 0);
        lemma_small_mod(0, size);
    } else {
        lemma_place_step(log, high, (m - 1) as nat);
        let k = place_step(size, high, (m - 1) as nat);
        lemma_next_good(log, high, k + 1);
        let j = place_step(size, high, m);
        if j < size {
            lemma_good_monotone(size, high, j + 1, size);
        }
        assert(good_below(size, high, k + 1) == m);
    }
}

/// Different placements get different states.
proof fn lemma_place_distinct(log: nat, high: int, a: nat, b: nat)
    requires
        5 <= log <= 14,
        0 <= high < pow2(log),
        a < b <= high,
    ensures
        place_slot(pow2(log), high, a) != place_slot(pow2(log), high, b),
{
    lemma_place_step(log, high, a);
    lemma_place_step(log, high, b);
    let i = place_step(pow2(log), high, a);
    let j = place_step(pow2(log), high, b);
    if i < j {
        lemma_walk_injective(log, i, j);
    } else if j < i {
        lemma_walk_injective(log, j, i);
    }
}

/// Every state up to `high` is given to some placement.
proof fn lemma_place_covers(log: nat, high: int, u: nat) -> (m: nat)
    requires
        5 <= log <= 14,
        0 <= high < pow2(log),
        u <= high,
    ensures
        m <= high,
        place_slot(pow2(log), high, m) == u,
{
    let size = pow2(log);
    lemma_good_total(log, high);
    assert(visited(size, u as int));
    let k = choose|k: int| 0 <= k < size && #[trigger] spread_index(size, k as nat) == u;
    let m = good_below(size, high, k as nat);
    lemma_good_monotone(size, high, (k + 1) as nat, size);
    assert(good_below(size, high, (k + 1) as nat) == m + 1);
    lemma_place_step(log, high, m);
    let j = place_step(size, high, m);
    if j < k {
        lemma_good_monotone(size, high, j + 1, k as nat);
    } else if k < j {
        lemma_good_monotone(size, high, (k + 1) as nat, j);
    }
    m
}

/// What dealing leaves at a slot.
proof fn lemma_deal_slots(base: Seq<u8>, log: nat, high: int, list: Seq<u8>, m: nat)
    requires
        5 <= log <= 14,
        base.len() == pow2(log),
        0 <= high < pow2(log),
        m <= high + 1,
        m <= list.len(),
    ensures
        deal(base, high, list, m).len() == base.len(),
        forall|i: nat|
            i < m ==> deal(base, high, list, m)[#[trigger] place_slot(base.len(), high, i) as int]
                == list[i as int],
        forall|u: int|
            high < u < base.len() ==> #[trigger] deal(base, high, list, m)[u] == base[u],
    decreases m,
{
    if m > 0 {
        lemma_deal_slots(base, log, high, list, (m - 1) as nat);
        lemma_place_step(log, high, (m - 1) as nat);
        assert forall|i: nat| i < m implies deal(base, high, list, m)[#[trigger] place_slot(
            base.len(),
            high,
            i,
        ) as int] == list[i as int] by {
            lemma_place_step(log, high, i);
            if i < m - 1 {
                lemma_place_distinct(log, high, i, (m - 1) as nat);
            }
        }
    }
}

proof fn lemma_symbol_lists(counts: Seq<i16>)
    requires
        counts.len() <= 256,
        forall|i: int| 0 <= i < counts.len() ==> #[trigger] counts[i] >= -1,
    ensures
        low_symbols(counts).len() + dealt_symbols(counts).len() == sum_abs(counts),
        forall|i: int|
            0 <= i < low_symbols(counts).len() ==> {
                let s = #[trigger] low_symbols(counts)[i];
                s < counts.len() && counts[s as int] == -1
            },
        forall|i: int|
            0 <= i < dealt_symbols(counts).len() ==> {
                let s = #[trigger] dealt_symbols(counts)[i];
                s < counts.len() && counts[s as int] > 0
            },
    decreases counts.len(),
{
    if counts.len() > 0 {
        let front = counts.drop_last();
        lemma_symbol_lists(front);
        assert forall|i: int| 0 <= i < low_symbols(counts).len() implies {
            let s = #[trigger] low_symbols(counts)[i];
            s < counts.len() && counts[s as int] == -1
        } by {
            if i < low_symbols(front).len() {
                assert(low_symbols(counts)[i] == low_symbols(front)[i]);
                assert(counts[low_symbols(front)[i] as int] == front[low_symbols(front)[i] as int]);
            }
        }
        assert forall|i: int| 0 <= i < dealt_symbols(counts).len() implies {
            let s = #[trigger] dealt_symbols(counts)[i];
            s < counts.len() && counts[s as int] > 0
        } by {
            if i < dealt_symbols(front).len() {
                assert(dealt_symbols(counts)[i] == dealt_symbols(front)[i]);
                assert(counts[dealt_symbols(front)[i] as int] == front[dealt_symbols(
                    front,
                )[i] as int]);
            }
        }
    }
}

/// Every state of the table belongs to a symbol that has states to take.
pub proof fn lemma_spread_symbols(counts: Seq<i16>, log: nat)
    requires
        valid_counts(counts, log),
    ensures
        spec_spread(counts, log).len() == pow2(log),
        forall|u: int|
            0 <= u < pow2(log) ==> {
                let s = #[trigger] spec_spread(counts, log)[u];
                s < counts.len() && counts[s as int] != 0
            },
{
    let size = pow2(log);
    let low = low_symbols(counts);
    let list = dealt_symbols(counts);
    let high = high_state(counts, size);
    let base = low_layout(low, size);
    lemma_symbol_lists(counts);
    assert(list.len() == high + 1);
    if high >= 0 {
        lemma_deal_slots(base, log, high, list, list.len());
    }
    assert forall|u: int| 0 <= u < size implies {
        let s = #[trigger] spec_spread(counts, log)[u];
        s < counts.len() && counts[s as int] != 0
    } by {
        if u > high {
            assert(spec_spread(counts, log)[u] == base[u]);
            assert(base[u] == low[size - 1 - u]);
        } else {
            let m = lemma_place_covers(log, high, u as nat);
            assert(spec_spread(counts, log)[place_slot(size, high, m) as int] == list[m as int]);
        }
    }
}

// ---------------------------------------------------------------------------
// Every symbol gets as many states as its count asks for.

/// States below `n` that carry `symbol`.
pub open spec fn rank_before(symbols: Seq<u8>, symbol: u8, n: nat) -> nat
    decreases n,
{
    if n == 0 {
        0
    } else {
        rank_before(symbols, symbol, (n - 1) as nat) + if symbols[n - 1] == symbol {
            1nat
        } else {
            0nat
        }
    }
}

spec fn occurrences(symbols: Seq<u8>, symbol: u8, n: int) -> Set<int> {
    Set::new(|u: int| 0 <= u < n && symbols[u] == symbol)
}

proof fn lemma_occurrences(symbols: Seq<u8>, symbol: u8, n: nat)
    ensures
        occurrences(symbols, symbol, n as int).finite(),
        occurrences(symbols, symbol, n as int).len() == rank_before(symbols, symbol, n),
    decreases n,
{
    if n == 0 {
        assert(occurrences(symbols, symbol, 0) =~= Set::empty());
    } else {
        lemma_occurrences(symbols, symbol, (n - 1) as nat);
        let s = occurrences(symbols, symbol, n - 1);
        if symbols[n - 1] == symbol {
            assert(occurrences(symbols, symbol, n as int) =~= s.insert(n - 1));
        } else {
            assert(occurrences(symbols, symbol, n as int) =~= s);
        }
    }
}

/// Where the copies of a symbol stand in the list of dealt symbols.
proof fn lemma_dealt_interval(counts: Seq<i16>, s: int)
    requires
        counts.len() <= 256,
        0 <= s < counts.len(),
        counts[s] > 0,
    ensures
        ({
            let list = dealt_symbols(counts);
            let a = dealt_symbols(counts.take(s)).len() as int;
            &&& a + counts[s] <= list.len()
            &&& forall|m: int|
                0 <= m < list.len() ==> (#[trigger] list[m] == s as u8 <==> a <= m < a
                    + counts[s])
        }),
    decreases counts.len(),
{
    let front = counts.drop_last();
    let list = dealt_symbols(counts);
    let f = dealt_symbols(front);
    let a = dealt_symbols(counts.take(s)).len() as int;
    if s == counts.len() - 1 {
        assert(counts.take(s) =~= front);
        lemma_dealt_below(front);
        assert forall|m: int| 0 <= m < list.len() implies (#[trigger] list[m] == s as u8 <==> a
            <= m < a + counts[s]) by {
            if m < f.len() {
                assert(list[m] == f[m]);
            }
        }
    } else {
        lemma_dealt_interval(front, s);
        assert(front.take(s) =~= counts.take(s));
        assert forall|m: int| 0 <= m < list.len() implies (#[trigger] list[m] == s as u8 <==> a
            <= m < a + counts[s]) by {
            if m < f.len() {
                assert(list[m] == f[m]);
            } else {
                assert(list[m] == (counts.len() - 1) as u8);
            }
        }
    }
}

proof fn lemma_dealt_below(counts: Seq<i16>)
    requires
        counts.len() <= 256,
    ensures
        forall|i: int|
            0 <= i < dealt_symbols(counts).len() ==> #[trigger] dealt_symbols(counts)[i]
                < counts.len(),
        forall|i: int|
            0 <= i < low_symbols(counts).len() ==> #[trigger] low_symbols(counts)[i]
                < counts.len(),
    decreases counts.len(),
{
    if counts.len() > 0 {
        let front = counts.drop_last();
        lemma_dealt_below(front);
        assert forall|i: int| 0 <= i < dealt_symbols(counts).len() implies #[trigger] dealt_symbols(
            counts,
        )[i] < counts.len() by {
            if i < dealt_symbols(front).len() {
                assert(dealt_symbols(counts)[i] == dealt_symbols(front)[i]);
            }
        }
        assert forall|i: int| 0 <= i < low_symbols(counts).len() implies #[trigger] low_symbols(
            counts,
        )[i] < counts.len() by {
            if i < low_symbols(front).len() {
                assert(low_symbols(counts)[i] == low_symbols(front)[i]);
            }
        }
    }
}

/// Where a symbol with a probability below one stands among those.
proof fn lemma_low_position(counts: Seq<i16>, s: int)
    requires
        counts.len() <= 256,
        0 <= s < counts.len(),
        counts[s] == -1,
    ensures
        ({
            let low = low_symbols(counts);
            let a = low_symbols(counts.take(s)).len() as int;
            &&& a < low.len()
            &&& forall|m: int| 0 <= m < low.len() ==> (#[trigger] low[m] == s as u8 <==> m == a)
        }),
    decreases counts.len(),
{
    let front = counts.drop_last();
    let low = low_symbols(counts);
    let f = low_symbols(front);
    let a = low_symbols(counts.take(s)).len() as int;
    if s == counts.len() - 1 {
        assert(counts.take(s) =~= front);
        lemma_dealt_below(front);
        assert forall|m: int| 0 <= m < low.len() implies (#[trigger] low[m] == s as u8 <==> m
            == a) by {
            if m < f.len() {
                assert(low[m] == f[m]);
            }
        }
    } else {
        lemma_low_position(front, s);
        assert(front.take(s) =~= counts.take(s));
        assert forall|m: int| 0 <= m < low.len() implies (#[trigger] low[m] == s as u8 <==> m
            == a) by {
            if m < f.len() {
                assert(low[m] == f[m]);
            }
        }
    }
}

/// The table gives every symbol exactly as many states as its count says.
#[verifier::rlimit(30)]
pub proof fn lemma_spread_counts(counts: Seq<i16>, log: nat, s: int)
    requires
        valid_counts(counts, log),
        0 <= s < counts.len(),
        counts[s] != 0,
    ensures
        rank_before(spec_spread(counts, log), s as u8, pow2(log)) == abs16(counts[s]),
{
    let size = pow2(log);
    let symbols = spec_spread(counts, log);
    let low = low_symbols(counts);
    let list = dealt_symbols(counts);
    let high = high_state(counts, size);
    let base = low_layout(low, size);
    lemma_symbol_lists(counts);
    lemma_occurrences(symbols, s as u8, size);
    let occ = occurrences(symbols, s as u8, size as int);
    if high >= 0 {
        lemma_deal_slots(base, log, high, list, list.len());
    }
    assert(list.len() == high + 1);
    if counts[s] > 0 {
        lemma_dealt_interval(counts, s);
        let a = dealt_symbols(counts.take(s)).len() as int;
        let c = counts[s] as int;
        let f = |m: int| place_slot(size, high, m as nat) as int;
        let dom = set_int_range(a, a + c);
        lemma_int_range(a, a + c);
        assert(injective_on(f, dom)) by {
            assert forall|x1: int, x2: int|
                dom.contains(x1) && dom.contains(x2) && #[trigger] f(x1) == #[trigger] f(
                    x2,
                ) implies x1 == x2 by {
                if x1 < x2 {
                    lemma_place_distinct(log, high, x1 as nat, x2 as nat);
                } else if x2 < x1 {
                    lemma_place_distinct(log, high, x2 as nat, x1 as nat);
                }
            }
        }
        assert(dom.map(f) =~= occ) by {
            assert forall|u: int| dom.map(f).contains(u) == occ.contains(u) by {
                if dom.map(f).contains(u) {
                    let m = choose|m: int| dom.contains(m) && u == f(m);
                    lemma_place_step(log, high, m as nat);
                    assert(symbols[place_slot(size, high, m as nat) as int] == list[m]);
                }
                if occ.contains(u) {
                    if u > high {
                        assert(symbols[u] == base[u]);
                        assert(low[size - 1 - u] == s as u8);
                        assert(counts[low[size - 1 - u] as int] == -1);
                    } else {
                        let m = lemma_place_covers(log, high, u as nat);
                        assert(symbols[place_slot(size, high, m) as int] == list[m as int]);
                        assert(list[m as int] == s as u8);
                        assert(dom.contains(m as int) && f(m as int) == u);
                    }
                }
            }
        }
        lemma_map_size(dom, occ, f);
    } else {
        lemma_low_position(counts, s);
        let a = low_symbols(counts.take(s)).len() as int;
        let v = size - 1 - a;
        let one = Set::<int>::empty().insert(v);
        assert(occ =~= one) by {
            assert forall|u: int| occ.contains(u) == one.contains(u) by {
                if u == v {
                    assert(symbols[u] == base[u]);
                    assert(base[u] == low[a]);
                }
                if occ.contains(u) {
                    if u > high {
                        assert(symbols[u] == base[u]);
                        assert(low[size - 1 - u] == s as u8);
                    } else {
                        let m = lemma_place_covers(log, high, u as nat);
                        assert(symbols[place_slot(size, high, m) as int] == list[m as int]);
                        assert(counts[list[m as int] as int] > 0);
                    }
                }
            }
        }
        assert(one.len() == 1);
    }
}

/// The `r`-th state of a symbol exists when it has more than `r` states.
pub proof fn lemma_find_rank(symbols: Seq<u8>, symbol: u8, n: nat, r: nat) -> (u: nat)
    requires
        r < rank_before(symbols, symbol, n),
    ensures
        u < n,
        symbols[u as int] == symbol,
        rank_before(symbols, symbol, u) == r,
    decreases n,
{
    if r < rank_before(symbols, symbol, (n - 1) as nat) {
        lemma_find_rank(symbols, symbol, (n - 1) as nat, r)
    } else {
        (n - 1) as nat
    }
}

pub proof fn lemma_rank_monotone(symbols: Seq<u8>, symbol: u8, a: nat, b: nat)
    requires
        a <= b,
    ensures
        rank_before(symbols, symbol, a) <= rank_before(symbols, symbol, b),
        rank_before(symbols, symbol, b) <= rank_before(symbols, symbol, a) + (b - a),
    decreases b,
{
    if a < b {
        lemma_rank_monotone(symbols, symbol, a, (b - 1) as nat);
    }
}

// ---------------------------------------------------------------------------
// Computing the layout.

proof fn lemma_walk_next(log: nat, k: nat)
    requires
        5 <= log <= 14,
    ensures
        spread_index(pow2(log), k + 1) == (spread_index(pow2(log), k) + spread_step(pow2(log)))
            % pow2(log),
        spread_index(pow2(log), k) < pow2(log),
{
    reveal(spread_index);
    let size = pow2(log) as int;
    lemma_pow2_pos(log);
    let step = spread_step(pow2(log)) as int;
    assert((k + 1) * step == k * step + step) by (nonlinear_arith);
    lemma_mod_bound(k * step, size);
    lemma_add_mod_noop(k * step, step, size);
    lemma_add_mod_noop((k * step) % size, step, size);
    vstd::arithmetic::div_mod::lemma_mod_twice(k * step, size);
}

/// Moves the walk at step `k` on to the next state up to `high`.
fn advance_walk(pos: usize, step: usize, size: usize, high: i64, log: Ghost<nat>, k: Ghost<nat>) -> (r:
    usize)
    requires
        5 <= log@ <= 14,
        size == pow2(log@),
        step == spread_step(size as nat),
        0 <= high < size,
        0 <= k@ < size,
        pos == spread_index(size as nat, k@),
    ensures
        r == spread_index(size as nat, next_good(size as nat, high as int, k@ + 1)),
        r <= high,
{
    let ghost mut j: nat = k@ + 1;
    proof {
        lemma_walk_next(log@, k@);
        lemma_step_odd(log@);
        lemma_next_good(log@, high as int, j);
    }
    let mut p: usize = (pos + step) % size;
    while p as i64 > high
        invariant
            5 <= log@ <= 14,
            size == pow2(log@),
            size <= 16384,
            step == spread_step(size as nat),
            step <= size,
            0 <= high < size,
            0 < j <= size,
            p == spread_index(size as nat, j),
            p < size,
            next_good(size as nat, high as int, j) == next_good(size as nat, high as int, k@ + 1),
        decreases size - j,
    {
        proof {
            lemma_next_good(log@, high as int, j);
            if j == size {
                assert(next_good(size as nat, high as int, j) == j);
                assert(false);
            }
            lemma_small_mod(j, size as nat);
            lemma_walk_next(log@, j);
        }
        p = (p + step) % size;
        proof {
            lemma_walk_next(log@, j + 1);
            j = j + 1;
        }
    }
    proof {
        lemma_next_good(log@, high as int, j);
    }
    p
}

proof fn lemma_lists_take(counts: Seq<i16>, s: int)
    requires
        0 <= s < counts.len(),
    ensures
        low_symbols(counts.take(s + 1)) == if counts[s] == -1 {
            low_symbols(counts.take(s)).push(s as u8)
        } else {
            low_symbols(counts.take(s))
        },
        dealt_symbols(counts.take(s + 1)) == dealt_symbols(counts.take(s)) + copies(
            s as u8,
            if counts[s] > 0 {
                counts[s] as nat
            } else {
                0
            },
        ),
        sum_abs(counts.take(s + 1)) == sum_abs(counts.take(s)) + abs16(counts[s]),
{
    assert(counts.take(s + 1).drop_last() =~= counts.take(s));
    assert(counts.take(s + 1).last() == counts[s]);
}

proof fn lemma_sum_abs_take(counts: Seq<i16>, a: int, b: int)
    requires
        0 <= a <= b <= counts.len(),
    ensures
        sum_abs(counts.take(a)) <= sum_abs(counts.take(b)),
    decreases b - a,
{
    if a < b {
        lemma_sum_abs_take(counts, a, b - 1);
        lemma_lists_take(counts, b - 1);
    }
}

/// The symbol of every state of the table for `counts`.
#[verifier::rlimit(30)]
pub fn spread_symbols(counts: &[i16], table_log: u32) -> (r: Vec<u8>)
    requires
        valid_counts(counts@, table_log as nat),
    ensures
        r@ == spec_spread(counts@, table_log as nat),
{
    let ghost log = table_log as nat;
    proof {
        lemma_step_odd(log);
        lemma_symbol_lists(counts@);
        assert(counts@.take(counts@.len() as int) =~= counts@);
        assert(counts@.take(0) =~= Seq::<i16>::empty());
    }
    let size: usize = pow2_u64(table_log) as usize;
    let mut symbols: Vec<u8> = Vec::new();
    let mut i: usize = 0;
    while i < size
        invariant
            i <= size,
            symbols@.len() == i,
            forall|u: int| 0 <= u < i ==> symbols@[u] == 0,
        decreases size - i,
    {
        symbols.push(0);
        i = i + 1;
    }
    // Symbols with a probability below one get the highest states.
    let mut high: i64 = size as i64 - 1;
    let mut s: usize = 0;
    assert(symbols@ =~= low_layout(low_symbols(counts@.take(0)), size as nat));
    while s < counts.len()
        invariant
            s <= counts@.len(),
            valid_counts(counts@, log),
            size == pow2(log),
            size <= 16384,
            symbols@ == low_layout(low_symbols(counts@.take(s as int)), size as nat),
            high == high_state(counts@.take(s as int), size as nat),
            low_symbols(counts@.take(s as int)).len() <= sum_abs(counts@.take(s as int)) <= size,
            counts@.take(counts@.len() as int) == counts@,
        decreases counts@.len() - s,
    {
        proof {
            lemma_lists_take(counts@, s as int);
            lemma_sum_abs_take(counts@, s + 1, counts@.len() as int);
        }
        if counts[s] == -1 {
            symbols.set(high as usize, s as u8);
            high = high - 1;
            assert(symbols@ =~= low_layout(low_symbols(counts@.take(s + 1)), size as nat));
        }
        s = s + 1;
    }
    let ghost base = symbols@;
    let ghost list = dealt_symbols(counts@);
    assert(base == low_layout(low_symbols(counts@), size as nat));
    assert(list.len() == high + 1);

    // The others are dealt out along the walk.
    let step: usize = size / 2 + size / 8 + 3;
    let mut pos: usize = 0;
    let mut s: usize = 0;
    let ghost mut m: nat = 0;
    proof {
        if high >= 0 {
            lemma_place_step(log, high as int, 0);
            reveal(spread_index);
            assert(0 * spread_step(size as nat) == 0);
            lemma_small_mod(0, size as nat);
        }
    }
    while s < counts.len()
        invariant
            s <= counts@.len(),
            valid_counts(counts@, log),
            size == pow2(log),
            log == table_log as nat,
            size <= 16384,
            step == spread_step(size as nat),
            -1 <= high < size,
            base.len() == size,
            list == dealt_symbols(counts@),
            list.len() == high + 1,
            counts@.take(counts@.len() as int) == counts@,
            m == dealt_symbols(counts@.take(s as int)).len(),
            m <= high + 1,
            dealt_symbols(counts@.take(s as int)) == list.take(m as int),
            symbols@ == deal(base, high as int, list, m),
            symbols@.len() == size,
            high >= 0 ==> pos == place_slot(size as nat, high as int, m),
        decreases counts@.len() - s,
    {
        proof {
            lemma_lists_take(counts@, s as int);
            lemma_dealt_prefix(counts@, s + 1);
        }
        let c: i16 = counts[s];
        let mut copy: i16 = 0;
        let ghost m0 = m;
        assert forall|q: int| m0 <= q < m0 + c implies list[q] == s as u8 by {
            let longer = dealt_symbols(counts@.take(s + 1));
            assert(longer[q] == copies(s as u8, c as nat)[q - m0]);
            assert(list.take(longer.len() as int)[q] == list[q]);
        }
        while copy < c
            invariant
                0 <= copy,
                copy <= c || c <= 0 && copy == 0,
                0 <= s < counts@.len() <= 256,
                5 <= log <= 14,
                size == pow2(log),
                size <= 16384,
                step == spread_step(size as nat),
                -1 <= high < size,
                base.len() == size,
                list.len() == high + 1,
                m == m0 + copy,
                c > 0 ==> m0 + c <= high + 1,
                forall|q: int| m0 <= q < m0 + c ==> list[q] == s as u8,
                symbols@ == deal(base, high as int, list, m),
                symbols@.len() == size,
                high >= 0 ==> pos == place_slot(size as nat, high as int, m),
            decreases c - copy,
        {
            proof {
                lemma_place_step(log, high as int, m);
                lemma_place_step(log, high as int, m + 1);
            }
            symbols.set(pos, s as u8);
            assert(list[m as int] == s as u8);
            pos = advance_walk(
                pos,
                step,
                size,
                high,
                Ghost(log),
                Ghost(place_step(size as nat, high as int, m)),
            );
            proof {
                m = m + 1;
            }
            copy = copy + 1;
        }
        assert(dealt_symbols(counts@.take(s + 1)) =~= list.take(m as int));
        s = s + 1;
    }
    assert(list.take(m as int) =~= list) by {
        assert(dealt_symbols(counts@.take(s as int)) == list);
    }
    symbols
}

proof fn lemma_dealt_prefix(counts: Seq<i16>, s: int)
    requires
        0 <= s <= counts.len(),
    ensures
        dealt_symbols(counts.take(s)).len() <= dealt_symbols(counts).len(),
        dealt_symbols(counts.take(s)) == dealt_symbols(counts).take(
            dealt_symbols(counts.take(s)).len() as int,
        ),
    decreases counts.len() - s,
{
    if s == counts.len() {
        assert(counts.take(s) =~= counts);
        assert(dealt_symbols(counts).take(dealt_symbols(counts).len() as int) =~= dealt_symbols(
            counts,
        ));
    } else {
        lemma_dealt_prefix(counts, s + 1);
        lemma_lists_take(counts, s);
        let a = dealt_symbols(counts.take(s));
        assert(a =~= dealt_symbols(counts.take(s + 1)).take(a.len() as int));
        assert(a =~= dealt_symbols(counts).take(a.len() as int));
    }
}

} // verus!
