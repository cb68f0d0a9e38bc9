//! The leaves of a tree are the symbols of the histogram, each once, the more
//! frequent ones first.

use crate::bits::{highest_bit, lemma_highest_bit_bound};
use crate::huffman_tree::{spec_huf_index, NodeElt};
use crate::huffman_tree_model::{
    bucketed, buckets_sorted, inserted_from, leaves_placed, leaves_sorted, moved_up, no_node, node_at, node_set,
    nodes_sorted, partitioned, starts_summed,
};
use crate::seq_tables::lemma_highest_bit_rises;
use vstd::arithmetic::power2::{lemma2_to64, lemma2_to64_rest};
use vstd::prelude::*;

verus! {

// ---------------------------------------------------------------------------
// Buckets.

/// The bucket of symbol `s`.
pub open spec fn bucket(count: Seq<u32>, s: int) -> nat {
    spec_huf_index(count[s] as nat)
}

proof fn lemma_index(a: u32, b: u32)
    requires
        a <= b,
    ensures
        spec_huf_index(a as nat) <= spec_huf_index(b as nat) <= 189,
{
    lemma2_to64();
    lemma2_to64_rest();
    if b >= 165 {
        lemma_highest_bit_bound(b as nat, 32);
        lemma_highest_bit_rises(128, b as nat);
        assert(highest_bit(128) == 7) by {
            reveal_with_fuel(highest_bit, 9);
        }
        if a >= 165 {
            lemma_highest_bit_rises(a as nat, b as nat);
        }
    }
}

proof fn lemma_index_small(c: u32)
    ensures
        spec_huf_index(c as nat) < 165 ==> c == spec_huf_index(c as nat),
{
    if c >= 165 {
        lemma2_to64();
        lemma2_to64_rest();
        lemma_highest_bit_rises(128, c as nat);
        assert(highest_bit(128) == 7) by {
            reveal_with_fuel(highest_bit, 9);
        }
    }
}

/// How many of the symbols from `n` up to `to` are in bucket `k` or above.
pub open spec fn in_or_above(count: Seq<u32>, k: nat, n: nat, to: nat) -> nat
    decreases to - n,
{
    if n < to {
        in_or_above(count, k, n + 1, to) + if bucket(count, n as int) >= k {
            1nat
        } else {
            0
        }
    } else {
        0
    }
}

/// How many of the symbols from `n` up to `to` are in bucket `k`.
spec fn in_bucket(count: Seq<u32>, k: nat, n: nat, to: nat) -> nat
    decreases to - n,
{
    if n < to {
        in_bucket(count, k, n + 1, to) + if bucket(count, n as int) == k {
            1nat
        } else {
            0
        }
    } else {
        0
    }
}

proof fn lemma_above_step(count: Seq<u32>, k: nat, n: nat, to: nat)
    ensures
        in_or_above(count, k, n, to) == in_bucket(count, k, n, to) + in_or_above(count, k + 1, n, to),
    decreases to - n,
{
    if n < to {
        lemma_above_step(count, k, n + 1, to);
    }
}

proof fn lemma_above_all(count: Seq<u32>, n: nat, to: nat)
    requires
        n <= to,
    ensures
        in_or_above(count, 0, n, to) == to - n,
    decreases to - n,
{
    if n < to {
        lemma_above_all(count, n + 1, to);
    }
}

proof fn lemma_above_none(count: Seq<u32>, k: nat, n: nat, to: nat)
    requires
        k >= 190,
    ensures
        in_or_above(count, k, n, to) == 0,
    decreases to - n,
{
    if n < to {
        lemma_index(count[n as int], count[n as int]);
        lemma_above_none(count, k, n + 1, to);
    }
}

pub proof fn lemma_above_falls(count: Seq<u32>, a: nat, b: nat, n: nat, to: nat)
    requires
        a <= b,
    ensures
        in_or_above(count, b, n, to) <= in_or_above(count, a, n, to),
    decreases b - a,
{
    if a < b {
        lemma_above_step(count, a, n, to);
        lemma_above_falls(count, a + 1, b, n, to);
    }
}

proof fn lemma_bucket_parts(count: Seq<u32>, k: nat, n: nat, m: nat, to: nat)
    requires
        n <= m <= to,
    ensures
        in_bucket(count, k, n, to) == in_bucket(count, k, n, m) + in_bucket(count, k, m, to),
        in_bucket(count, k, n, to) <= to - n,
    decreases to - n,
{
    if n < m {
        lemma_bucket_parts(count, k, n + 1, m, to);
    } else if n < to {
        lemma_bucket_parts(count, k, n + 1, n + 1, to);
    }
}

proof fn lemma_bucketed(count: Seq<u32>, n: nat, to: nat, base: Seq<u32>)
    requires
        n <= to,
        base.len() == 192,
        forall|k: int| 0 <= k < 192 ==> #[trigger] base[k] + in_bucket(count, k as nat, n, to) <= 256,
    ensures
        bucketed(count, n, to, base).len() == 192,
        forall|k: int|
            0 <= k < 192 ==> #[trigger] bucketed(count, n, to, base)[k] == base[k] + in_bucket(
                count,
                k as nat,
                n,
                to,
            ),
    decreases to - n,
{
    reveal_with_fuel(bucketed, 1);
    if n < to {
        lemma_index(count[n as int], count[n as int]);
        let b = bucket(count, n as int) as int;
        assert(base[b] + in_bucket(count, b as nat, n, to) <= 256);
        let next = base.update(b, (base[b] + 1) as u32);
        assert forall|k: int| 0 <= k < 192 implies #[trigger] next[k] + in_bucket(count, k as nat, n + 1, to)
            <= 256 && next[k] + in_bucket(count, k as nat, n + 1, to) == base[k] + in_bucket(
            count,
            k as nat,
            n,
            to,
        ) by {
            assert(base[k] + in_bucket(count, k as nat, n, to) <= 256);
        }
        lemma_bucketed(count, n + 1, to, next);
    }
}

proof fn lemma_starts(base: Seq<u32>, curr: Seq<u32>, m: nat, count: Seq<u32>, to: nat)
    requires
        base.len() == 192,
        curr.len() == 192,
        m <= 191,
        to <= 256,
        forall|j: int| m <= j < 192 ==> #[trigger] base[j] == in_or_above(count, j as nat, 0, to),
        forall|j: int| m <= j < 192 ==> #[trigger] curr[j] == in_or_above(count, j as nat, 0, to),
        forall|j: int| 0 <= j < m ==> #[trigger] base[j] == in_bucket(count, j as nat, 0, to),
    ensures
        ({
            let (b, c) = starts_summed(base, curr, m);
            &&& b.len() == 192
            &&& c.len() == 192
            &&& forall|j: int| 0 <= j < 192 ==> #[trigger] b[j] == in_or_above(count, j as nat, 0, to)
            &&& forall|j: int| 0 <= j < 192 ==> #[trigger] c[j] == in_or_above(count, j as nat, 0, to)
        }),
    decreases m,
{
    reveal_with_fuel(starts_summed, 1);
    if m > 0 {
        lemma_above_step(count, (m - 1) as nat, 0, to);
        lemma_above_falls(count, 0, (m - 1) as nat, 0, to);
        lemma_above_all(count, 0, to);
        assert(base[m - 1] == in_bucket(count, (m - 1) as nat, 0, to));
        assert(base[m as int] == in_or_above(count, m, 0, to));
        let b = (base[m - 1] + base[m as int]) as u32;
        lemma_starts(base.update(m - 1, b), curr.update(m - 1, b), (m - 1) as nat, count, to);
    }
}

// ---------------------------------------------------------------------------
// Places.

/// Where symbol `s` is put at first.
spec fn place(count: Seq<u32>, to: nat, s: int) -> int {
    let k = bucket(count, s);
    (in_or_above(count, k + 1, 0, to) + in_bucket(count, k, 0, s as nat)) as int
}

/// A leaf that has just been put into its bucket.
pub open spec fn fresh_leaf(count: Seq<u32>, s: int) -> NodeElt {
    NodeElt { count: count[s], byte: s as u8, parent: 0, nb_bits: 0 }
}

/// Positions of a bucket.
pub open spec fn in_range(count: Seq<u32>, to: nat, k: nat, p: int) -> bool {
    in_or_above(count, k + 1, 0, to) <= p < in_or_above(count, k, 0, to)
}

/// Every symbol has a place among the leaves, in its bucket, and every place a
/// symbol.
pub open spec fn laid(t: Seq<NodeElt>, count: Seq<u32>, to: nat, pos: Seq<int>) -> bool {
    &&& t.len() == 513
    &&& pos.len() == to
    &&& forall|s: int|
        0 <= s < to ==> {
            &&& 0 <= #[trigger] pos[s] < to
            &&& node_at(t, pos[s]) == fresh_leaf(count, s)
            &&& in_range(count, to, bucket(count, s), pos[s])
        }
    &&& forall|p: int|
        0 <= p < to ==> (#[trigger] node_at(t, p)).byte < to && pos[node_at(t, p).byte as int] == p
}

/// The leaves are the symbols, each once and in its bucket.
pub open spec fn in_order(t: Seq<NodeElt>, count: Seq<u32>, to: nat) -> bool {
    exists|pos: Seq<int>| laid(t, count, to, pos)
}

/// Buckets do not overlap.
proof fn lemma_one_range(count: Seq<u32>, to: nat, a: nat, b: nat, p: int)
    requires
        in_range(count, to, a, p),
        in_range(count, to, b, p),
    ensures
        a == b,
{
    if a < b {
        lemma_above_falls(count, a + 1, b, 0, to);
    } else if b < a {
        lemma_above_falls(count, b + 1, a, 0, to);
    }
}

proof fn lemma_place(count: Seq<u32>, to: nat, s: int)
    requires
        0 <= s < to,
    ensures
        in_range(count, to, bucket(count, s), place(count, to, s)),
        0 <= place(count, to, s) < to,
{
    let k = bucket(count, s);
    lemma_above_step(count, k, 0, to);
    lemma_bucket_parts(count, k, 0, s as nat, to);
    lemma_above_falls(count, 0, k, 0, to);
    lemma_above_all(count, 0, to);
}

proof fn lemma_places_differ(count: Seq<u32>, to: nat, a: int, b: int)
    requires
        0 <= a < b < to,
    ensures
        place(count, to, a) != place(count, to, b),
{
    lemma_place(count, to, a);
    lemma_place(count, to, b);
    let k = bucket(count, a);
    if place(count, to, a) == place(count, to, b) {
        lemma_one_range(count, to, k, bucket(count, b), place(count, to, a));
        lemma_bucket_parts(count, k, 0, a as nat, b as nat);
    }
}

/// The `j`-th symbol of bucket `k`.
proof fn lemma_nth(count: Seq<u32>, k: nat, j: nat, to: nat) -> (s: int)
    requires
        j < in_bucket(count, k, 0, to),
    ensures
        0 <= s < to,
        bucket(count, s) == k,
        in_bucket(count, k, 0, s as nat) == j,
    decreases to,
{
    if to == 0 {
        0
    } else {
        let m = (to - 1) as nat;
        lemma_bucket_parts(count, k, 0, m, to);
        assert(in_bucket(count, k, to, to) == 0);
        assert(in_bucket(count, k, m, to) == if bucket(count, m as int) == k {
            1nat
        } else {
            0
        });
        if j < in_bucket(count, k, 0, m) {
            lemma_nth(count, k, j, m)
        } else {
            m as int
        }
    }
}

/// The bucket that a place belongs to.
proof fn lemma_range_of(count: Seq<u32>, to: nat, p: int, k: nat) -> (r: nat)
    requires
        0 <= p < to,
        p >= in_or_above(count, k, 0, to),
    ensures
        in_range(count, to, r, p),
    decreases k,
{
    lemma_above_all(count, 0, to);
    if p < in_or_above(count, (k - 1) as nat, 0, to) {
        (k - 1) as nat
    } else {
        lemma_range_of(count, to, p, (k - 1) as nat)
    }
}

/// Every place is some symbol's.
proof fn lemma_taken(count: Seq<u32>, to: nat, p: int) -> (s: int)
    requires
        0 <= p < to,
    ensures
        0 <= s < to,
        place(count, to, s) == p,
{
    lemma_above_none(count, 191, 0, to);
    let k = lemma_range_of(count, to, p, 191);
    lemma_above_step(count, k, 0, to);
    lemma_nth(count, k, (p - in_or_above(count, k + 1, 0, to)) as nat, to)
}

proof fn lemma_leaves_placed(count: Seq<u32>, n: nat, to: nat, curr: Seq<u32>, t: Seq<NodeElt>)
    requires
        n <= to <= 256,
        curr.len() == 192,
        t.len() == 513,
        forall|r: int|
            1 <= r < 192 ==> #[trigger] curr[r] == in_or_above(count, r as nat, 0, to) + in_bucket(
                count,
                (r - 1) as nat,
                0,
                n,
            ),
        forall|s: int| 0 <= s < n ==> node_at(t, #[trigger] place(count, to, s)) == fresh_leaf(count, s),
    ensures
        ({
            let (c, u) = leaves_placed(count, n, to, curr, t);
            &&& c.len() == 192
            &&& u.len() == 513
            &&& forall|r: int|
                1 <= r < 192 ==> #[trigger] c[r] == in_or_above(count, r as nat, 0, to) + in_bucket(
                    count,
                    (r - 1) as nat,
                    0,
                    to,
                )
            &&& forall|s: int| 0 <= s < to ==> node_at(u, #[trigger] place(count, to, s)) == fresh_leaf(count, s)
        }),
    decreases to - n,
{
    reveal_with_fuel(leaves_placed, 1);
    if n < to {
        let s0 = n as int;
        lemma_index(count[s0], count[s0]);
        let r = bucket(count, s0) as int + 1;
        lemma_place(count, to, s0);
        assert(curr[r] == place(count, to, s0));
        let c1 = curr.update(r, (curr[r] + 1) as u32);
        let t1 = node_set(t, curr[r] as int, fresh_leaf(count, s0));
        assert forall|q: int| 1 <= q < 192 implies #[trigger] c1[q] == in_or_above(count, q as nat, 0, to)
            + in_bucket(count, (q - 1) as nat, 0, n + 1) by {
            let k = (q - 1) as nat;
            lemma_bucket_parts(count, k, 0, n, n + 1);
            assert(in_bucket(count, k, n + 1, n + 1) == 0);
            assert(in_bucket(count, k, n, n + 1) == if bucket(count, s0) == k {
                1nat
            } else {
                0
            });
            assert(curr[q] == in_or_above(count, q as nat, 0, to) + in_bucket(count, k, 0, n));
        }
        assert forall|s: int| 0 <= s < n + 1 implies node_at(t1, #[trigger] place(count, to, s)) == fresh_leaf(
            count,
            s,
        ) by {
            lemma_place(count, to, s);
            if s < n {
                lemma_places_differ(count, to, s, s0);
            }
        }
        lemma_leaves_placed(count, n + 1, to, c1, t1);
    }
}

// ---------------------------------------------------------------------------
// Sorting.

/// Two nodes have changed places.
spec fn swapped(t: Seq<NodeElt>, i: int, j: int) -> Seq<NodeElt> {
    node_set(node_set(t, i, node_at(t, j)), j, node_at(t, i))
}

proof fn lemma_swapped(t: Seq<NodeElt>, count: Seq<u32>, to: nat, i: int, j: int, k: nat)
    requires
        to <= 256,
        in_order(t, count, to),
        in_range(count, to, k, i),
        in_range(count, to, k, j),
    ensures
        in_order(swapped(t, i, j), count, to),
{
    lemma_above_all(count, 0, to);
    lemma_above_falls(count, 0, k, 0, to);
    let pos = choose|pos: Seq<int>| laid(t, count, to, pos);
    let u = swapped(t, i, j);
    assert(node_at(t, i).byte < to && pos[node_at(t, i).byte as int] == i);
    assert(node_at(t, j).byte < to && pos[node_at(t, j).byte as int] == j);
    let a = node_at(t, i).byte as int;
    let b = node_at(t, j).byte as int;
    lemma_one_range(count, to, k, bucket(count, a), pos[a]);
    lemma_one_range(count, to, k, bucket(count, b), pos[b]);
    let after = pos.update(a, j).update(b, i);
    assert forall|s: int| 0 <= s < to implies {
        &&& 0 <= #[trigger] after[s] < to
        &&& node_at(u, after[s]) == fresh_leaf(count, s)
        &&& in_range(count, to, bucket(count, s), after[s])
    } by {
        assert(0 <= pos[s] < to && node_at(t, pos[s]) == fresh_leaf(count, s) && in_range(
            count,
            to,
            bucket(count, s),
            pos[s],
        ));
        assert(node_at(t, pos[s]).byte == s);
    }
    assert forall|p: int| 0 <= p < to implies (#[trigger] node_at(u, p)).byte < to && after[node_at(
        u,
        p,
    ).byte as int] == p by {
        assert(node_at(t, p).byte < to && pos[node_at(t, p).byte as int] == p);
    }
    assert(laid(u, count, to, after));
}

/// The counts of the nodes from `low` to `high` lie between two bounds.
spec fn bounded(t: Seq<NodeElt>, low: int, high: int, least: int, most: int) -> bool {
    forall|p: int| low <= p <= high ==> least <= (#[trigger] node_at(t, p)).count <= most
}

/// Only the nodes from `low` to `high` have changed, and their counts stay
/// within their bounds.
spec fn kept(t: Seq<NodeElt>, u: Seq<NodeElt>, low: int, high: int) -> bool {
    &&& t.len() == 513
    &&& u.len() == 513
    &&& forall|p: int| (p < low || p > high) ==> #[trigger] node_at(u, p) == node_at(t, p)
    &&& forall|least: int, most: int|
        bounded(t, low, high, least, most) ==> #[trigger] bounded(u, low, high, least, most)
}

/// Larger counts come first.
pub open spec fn descending(t: Seq<NodeElt>, low: int, high: int) -> bool {
    forall|p: int, q: int|
        low <= p <= q <= high ==> (#[trigger] node_at(t, p)).count >= (#[trigger] node_at(t, q)).count
}

proof fn lemma_kept_same(t: Seq<NodeElt>, low: int, high: int)
    requires
        t.len() == 513,
    ensures
        kept(t, t, low, high),
{
}

/// A change of a part is one of the whole, and two changes are one.
proof fn lemma_kept_then(t: Seq<NodeElt>, u: Seq<NodeElt>, v: Seq<NodeElt>, low: int, high: int, a: int, b: int)
    requires
        kept(t, u, low, high),
        kept(u, v, a, b),
        low <= a,
        b <= high,
    ensures
        kept(t, v, low, high),
{
    assert forall|p: int| (p < low || p > high) implies #[trigger] node_at(v, p) == node_at(t, p) by {
        assert(node_at(u, p) == node_at(t, p));
    }
    assert forall|least: int, most: int| bounded(t, low, high, least, most) implies #[trigger] bounded(
        v,
        low,
        high,
        least,
        most,
    ) by {
        assert(bounded(u, low, high, least, most));
        assert(bounded(u, a, b, least, most));
        assert(bounded(v, a, b, least, most));
        assert forall|p: int| low <= p <= high implies least <= (#[trigger] node_at(v, p)).count <= most by {
            if p < a || p > b {
                assert(node_at(v, p) == node_at(u, p));
            }
        }
    }
}

proof fn lemma_kept_swap(t: Seq<NodeElt>, low: int, high: int, i: int, j: int)
    requires
        t.len() == 513,
        0 <= low,
        high < 512,
        low <= i <= high,
        low <= j <= high,
    ensures
        kept(t, swapped(t, i, j), low, high),
{
    let u = swapped(t, i, j);
    assert forall|least: int, most: int| bounded(t, low, high, least, most) implies #[trigger] bounded(
        u,
        low,
        high,
        least,
        most,
    ) by {
        assert(least <= node_at(t, i).count <= most);
        assert(least <= node_at(t, j).count <= most);
        assert forall|p: int| low <= p <= high implies least <= (#[trigger] node_at(u, p)).count <= most by {
            assert(least <= node_at(t, p).count <= most);
        }
    }
}

proof fn lemma_moved_up(t: Seq<NodeElt>, low: int, j: int, key: NodeElt, count: Seq<u32>, to: nat, k: nat)
    requires
        t.len() == 513,
        to <= 256,
        0 <= low,
        low - 1 <= j < 511,
        in_range(count, to, k, low),
        in_range(count, to, k, j + 1),
        in_order(node_set(t, j + 1, key), count, to),
    ensures
        ({
            let (u, j1) = moved_up(t, low, j, key);
            &&& u.len() == 513
            &&& low - 1 <= j1 <= j
            &&& forall|p: int|
                j1 + 1 < p <= j + 1 ==> #[trigger] node_at(u, p) == node_at(t, p - 1) && node_at(t, p - 1).count
                    < key.count
            &&& forall|p: int| (p <= j1 + 1 || p > j + 1) ==> #[trigger] node_at(u, p) == node_at(t, p)
            &&& j1 >= low ==> node_at(t, j1).count >= key.count
            &&& in_order(node_set(u, j1 + 1, key), count, to)
        }),
    decreases j - low + 1,
{
    reveal_with_fuel(moved_up, 1);
    if j >= low && node_at(t, j).count < key.count {
        let next = node_set(t, j + 1, node_at(t, j));
        let held = node_set(t, j + 1, key);
        lemma_swapped(held, count, to, j + 1, j, k);
        assert(swapped(held, j + 1, j) =~= node_set(next, j, key));
        lemma_moved_up(next, low, j - 1, key, count, to, k);
        let (u, j1) = moved_up(next, low, j - 1, key);
        assert forall|p: int| j1 + 1 < p <= j + 1 implies #[trigger] node_at(u, p) == node_at(t, p - 1) && node_at(
            t,
            p - 1,
        ).count < key.count by {
            if p <= j {
                assert(node_at(u, p) == node_at(next, p - 1));
                assert(node_at(next, p - 1) == node_at(t, p - 1));
            } else {
                assert(node_at(u, p) == node_at(next, p));
            }
        }
        assert forall|p: int| (p <= j1 + 1 || p > j + 1) implies #[trigger] node_at(u, p) == node_at(t, p) by {
            assert(node_at(u, p) == node_at(next, p));
        }
        assert(moved_up(t, low, j, key) == moved_up(next, low, j - 1, key));
        assert(node_at(next, j1) == node_at(t, j1));
    }
}

proof fn lemma_inserted(t: Seq<NodeElt>, low: int, i: int, high: int, count: Seq<u32>, to: nat, k: nat)
    requires
        t.len() == 513,
        to <= 256,
        0 <= low < i <= high + 1,
        high < 511,
        in_range(count, to, k, low),
        in_range(count, to, k, high),
        in_order(t, count, to),
        descending(t, low, i - 1),
    ensures
        in_order(inserted_from(t, low, i, high), count, to),
        kept(t, inserted_from(t, low, i, high), low, high),
        descending(inserted_from(t, low, i, high), low, high),
    decreases high + 1 - i,
{
    reveal_with_fuel(inserted_from, 1);
    if i <= high {
        let key = node_at(t, i);
        assert(node_set(t, i, key) =~= t);
        lemma_moved_up(t, low, i - 1, key, count, to, k);
        let (u, j) = moved_up(t, low, i - 1, key);
        let next = node_set(u, j + 1, key);
        assert forall|p: int| j + 1 < p <= i implies #[trigger] node_at(next, p) == node_at(t, p - 1) && node_at(
            t,
            p - 1,
        ).count < key.count by {
            assert(node_at(u, p) == node_at(t, p - 1));
        }
        assert forall|p: int| (p < j + 1 || p > i) implies #[trigger] node_at(next, p) == node_at(t, p) by {
            assert(node_at(u, p) == node_at(t, p));
        }
        assert forall|p: int, q: int| low <= p <= q <= i implies (#[trigger] node_at(next, p)).count >= (
        #[trigger] node_at(next, q)).count by {
            if p < j + 1 {
                assert(node_at(t, p).count >= node_at(t, j).count);
                if q < j + 1 {
                    assert(node_at(t, p).count >= node_at(t, q).count);
                } else if q > j + 1 {
                    assert(node_at(t, p).count >= node_at(t, q - 1).count);
                }
            } else if p > j + 1 {
                assert(node_at(t, p - 1).count >= node_at(t, q - 1).count);
            }
        }
        assert forall|least: int, most: int| bounded(t, low, high, least, most) implies #[trigger] bounded(
            next,
            low,
            high,
            least,
            most,
        ) by {
            assert(least <= node_at(t, i).count <= most);
            assert forall|p: int| low <= p <= high implies least <= (#[trigger] node_at(next, p)).count <= most by {
                assert(least <= node_at(t, p).count <= most);
                if j + 1 < p <= i {
                    assert(least <= node_at(t, p - 1).count <= most);
                }
            }
        }
        assert(kept(t, next, low, high));
        lemma_inserted(next, low, i + 1, high, count, to, k);
        lemma_kept_then(t, next, inserted_from(next, low, i + 1, high), low, high, low, high);
    } else {
        lemma_kept_same(t, low, high);
    }
}

proof fn lemma_partitioned(
    t: Seq<NodeElt>,
    low: int,
    i: int,
    j: int,
    high: int,
    pivot: u32,
    count: Seq<u32>,
    to: nat,
    k: nat,
)
    requires
        t.len() == 513,
        to <= 256,
        0 <= low,
        low - 1 <= i < j <= high < 511,
        in_range(count, to, k, low),
        in_range(count, to, k, high),
        in_order(t, count, to),
        forall|p: int| low <= p <= i ==> (#[trigger] node_at(t, p)).count > pivot,
        forall|p: int| i < p < j ==> (#[trigger] node_at(t, p)).count <= pivot,
    ensures
        ({
            let (u, m) = partitioned(t, i, j, high, pivot);
            &&& u.len() == 513
            &&& i <= m < high
            &&& in_order(u, count, to)
            &&& kept(t, u, low, high)
            &&& node_at(u, high) == node_at(t, high)
            &&& forall|p: int| low <= p <= m ==> (#[trigger] node_at(u, p)).count > pivot
            &&& forall|p: int| m < p < high ==> (#[trigger] node_at(u, p)).count <= pivot
        }),
    decreases high - j,
{
    reveal_with_fuel(partitioned, 1);
    if j < high {
        let b = node_at(t, j);
        if b.count > pivot {
            let next = node_set(node_set(t, i + 1, b), j, node_at(t, i + 1));
            assert(next == swapped(t, i + 1, j));
            lemma_swapped(t, count, to, i + 1, j, k);
            lemma_kept_swap(t, low, high, i + 1, j);
            assert forall|p: int| low <= p <= i + 1 implies (#[trigger] node_at(next, p)).count > pivot by {
                if p <= i {
                    assert(node_at(t, p).count > pivot);
                }
            }
            assert forall|p: int| i + 1 < p < j + 1 implies (#[trigger] node_at(next, p)).count <= pivot by {
                assert(node_at(t, i + 1).count <= pivot || i + 1 == j);
                if p < j {
                    assert(node_at(t, p).count <= pivot);
                }
            }
            lemma_partitioned(next, low, i + 1, j + 1, high, pivot, count, to, k);
            lemma_kept_then(
                t,
                next,
                partitioned(next, i + 1, j + 1, high, pivot).0,
                low,
                high,
                low,
                high,
            );
        } else {
            lemma_partitioned(t, low, i, j + 1, high, pivot, count, to, k);
        }
    } else {
        lemma_kept_same(t, low, high);
    }
}

/// Two sorted parts around a pivot are sorted.
proof fn lemma_joined(t: Seq<NodeElt>, low: int, at: int, high: int, pivot: u32)
    requires
        low <= at <= high,
        descending(t, low, at - 1),
        descending(t, at + 1, high),
        bounded(t, low, at - 1, pivot as int, u32::MAX as int),
        node_at(t, at).count == pivot,
        bounded(t, at + 1, high, 0, pivot as int),
    ensures
        descending(t, low, high),
{
    assert forall|p: int, q: int| low <= p <= q <= high implies (#[trigger] node_at(t, p)).count >= (
    #[trigger] node_at(t, q)).count by {
        if p < at {
            assert(pivot <= node_at(t, p).count);
        } else if p > at {
        }
        if q > at {
            assert(node_at(t, q).count <= pivot);
        }
    }
}

#[verifier::rlimit(40)]
proof fn lemma_sorted(t: Seq<NodeElt>, low: int, high: int, count: Seq<u32>, to: nat, k: nat)
    requires
        t.len() == 513,
        to <= 256,
        0 <= low <= high + 1,
        high < 511,
        low <= high ==> in_range(count, to, k, low) && in_range(count, to, k, high),
        in_order(t, count, to),
    ensures
        in_order(nodes_sorted(t, low, high), count, to),
        kept(t, nodes_sorted(t, low, high), low, high),
        descending(nodes_sorted(t, low, high), low, high),
    decreases high - low + 1,
{
    reveal_with_fuel(nodes_sorted, 1);
    if high - low >= 8 {
        let pivot = node_at(t, high).count;
        lemma_partitioned(t, low, low - 1, low, high, pivot, count, to, k);
        let (t1, i) = partitioned(t, low - 1, low, high, pivot);
        let at = i + 1;
        let t2 = node_set(node_set(t1, at, node_at(t1, high)), high, node_at(t1, at));
        assert(t2 == swapped(t1, at, high));
        lemma_swapped(t1, count, to, at, high, k);
        lemma_kept_swap(t1, low, high, at, high);
        lemma_kept_then(t, t1, t2, low, high, low, high);
        assert(bounded(t2, low, at - 1, pivot as int, u32::MAX as int)) by {
            assert forall|p: int| low <= p <= at - 1 implies pivot <= (#[trigger] node_at(t2, p)).count <= u32::MAX by {
                assert(node_at(t1, p).count > pivot);
            }
        }
        assert(bounded(t2, at + 1, high, 0, pivot as int)) by {
            assert forall|p: int| at + 1 <= p <= high implies 0 <= (#[trigger] node_at(t2, p)).count <= pivot by {
                assert(at < high);
                assert(node_at(t1, at).count <= pivot);
                if p < high {
                    assert(node_at(t1, p).count <= pivot);
                }
            }
        }
        assert(node_at(t2, at).count == pivot);
        if at - low < high - at {
            lemma_sorted(t2, low, at - 1, count, to, k);
            let t3 = nodes_sorted(t2, low, at - 1);
            assert(bounded(t3, low, at - 1, pivot as int, u32::MAX as int));
            assert(bounded(t3, at + 1, high, 0, pivot as int)) by {
                assert forall|p: int| at + 1 <= p <= high implies 0 <= (#[trigger] node_at(t3, p)).count
                    <= pivot by {
                    assert(node_at(t3, p) == node_at(t2, p));
                }
            }
            lemma_sorted(t3, at + 1, high, count, to, k);
            let t4 = nodes_sorted(t3, at + 1, high);
            lemma_kept_then(t, t2, t3, low, high, low, at - 1);
            lemma_kept_then(t, t3, t4, low, high, at + 1, high);
            assert(node_at(t4, at) == node_at(t3, at));
            assert(node_at(t3, at) == node_at(t2, at));
            lemma_untouched(t3, t4, low, at - 1, at + 1, high, pivot as int, u32::MAX as int);
            assert(bounded(t4, at + 1, high, 0, pivot as int));
            lemma_joined(t4, low, at, high, pivot);
        } else {
            lemma_sorted(t2, at + 1, high, count, to, k);
            let t3 = nodes_sorted(t2, at + 1, high);
            lemma_sorted(t3, low, at - 1, count, to, k);
            let t4 = nodes_sorted(t3, low, at - 1);
            lemma_kept_then(t, t2, t3, low, high, at + 1, high);
            lemma_kept_then(t, t3, t4, low, high, low, at - 1);
            assert(node_at(t4, at) == node_at(t3, at));
            assert(node_at(t3, at) == node_at(t2, at));
            assert(bounded(t3, at + 1, high, 0, pivot as int));
            lemma_untouched(t3, t4, at + 1, high, low, at - 1, 0, pivot as int);
            assert(bounded(t3, low, at - 1, pivot as int, u32::MAX as int)) by {
                assert forall|p: int| low <= p <= at - 1 implies pivot <= (#[trigger] node_at(t3, p)).count
                    <= u32::MAX by {
                    assert(node_at(t3, p) == node_at(t2, p));
                }
            }
            assert(bounded(t4, low, at - 1, pivot as int, u32::MAX as int));
            lemma_joined(t4, low, at, high, pivot);
        }
    } else if low <= high {
        lemma_inserted(t, low, low + 1, high, count, to, k);
    } else {
        lemma_kept_same(t, low, high);
    }
}

/// What a change of other nodes leaves as it was.
proof fn lemma_untouched(
    t: Seq<NodeElt>,
    u: Seq<NodeElt>,
    low: int,
    high: int,
    a: int,
    b: int,
    least: int,
    most: int,
)
    requires
        kept(t, u, a, b),
        high < a || b < low,
        descending(t, low, high),
        bounded(t, low, high, least, most),
    ensures
        descending(u, low, high),
        bounded(u, low, high, least, most),
{
    assert forall|p: int| low <= p <= high implies node_at(u, p) == node_at(t, p) by {}
    assert forall|p: int| low <= p <= high implies least <= (#[trigger] node_at(u, p)).count <= most by {
        assert(node_at(u, p) == node_at(t, p));
    }
    assert forall|p: int, q: int| low <= p <= q <= high implies (#[trigger] node_at(u, p)).count >= (
    #[trigger] node_at(u, q)).count by {
        assert(node_at(u, p) == node_at(t, p));
        assert(node_at(u, q) == node_at(t, q));
    }
}

/// The positions of bucket `k` are sorted.
spec fn bucket_sorted(t: Seq<NodeElt>, count: Seq<u32>, to: nat, k: nat) -> bool {
    descending(
        t,
        in_or_above(count, k + 1, 0, to) as int,
        in_or_above(count, k, 0, to) - 1,
    )
}

proof fn lemma_buckets_sorted(base: Seq<u32>, curr: Seq<u32>, t: Seq<NodeElt>, n: nat, count: Seq<u32>, to: nat)
    requires
        165 <= n <= 191,
        to <= 256,
        base.len() == 192,
        curr.len() == 192,
        forall|j: int| 0 <= j < 192 ==> #[trigger] base[j] == in_or_above(count, j as nat, 0, to),
        forall|j: int| 1 <= j < 192 ==> #[trigger] curr[j] == in_or_above(count, (j - 1) as nat, 0, to),
        t.len() == 513,
        in_order(t, count, to),
        forall|k: nat| 164 <= k < n - 1 ==> #[trigger] bucket_sorted(t, count, to, k),
    ensures
        in_order(buckets_sorted(base, curr, t, n), count, to),
        forall|k: nat| 164 <= k < 190 ==> #[trigger] bucket_sorted(buckets_sorted(base, curr, t, n), count, to, k),
    decreases 191 - n,
{
    reveal_with_fuel(buckets_sorted, 1);
    if n < 191 {
        let k = (n - 1) as nat;
        let start = base[n as int] as int;
        let size = curr[n as int] - start;
        lemma_above_all(count, 0, to);
        lemma_above_falls(count, 0, k, 0, to);
        lemma_above_falls(count, k, n, 0, to);
        let next = if size > 1 && start + size <= 512 {
            nodes_sorted(t, start, start + size - 1)
        } else {
            t
        };
        if size > 1 {
            lemma_sorted(t, start, start + size - 1, count, to, k);
        }
        assert(bucket_sorted(next, count, to, k));
        assert forall|m: nat| 164 <= m < n implies #[trigger] bucket_sorted(next, count, to, m) by {
            if m < k {
                assert(bucket_sorted(t, count, to, m));
                lemma_above_falls(count, m + 1, k, 0, to);
                if size > 1 {
                    let low = in_or_above(count, m + 1, 0, to) as int;
                    let high = in_or_above(count, m, 0, to) - 1;
                    assert(bounded(t, low, high, 0, u32::MAX as int));
                    lemma_untouched(t, next, low, high, start, start + size - 1, 0, u32::MAX as int);
                }
            }
        }
        lemma_buckets_sorted(base, curr, next, n + 1, count, to);
    }
}

/// The sorted leaves: every symbol once, in its bucket, and larger counts
/// first.
pub proof fn lemma_leaves_sorted(count: Seq<u32>, max_symbol: nat)
    requires
        max_symbol <= 255,
    ensures
        in_order(leaves_sorted(count, max_symbol), count, max_symbol + 1),
        descending(leaves_sorted(count, max_symbol), 0, max_symbol as int),
{
    reveal(leaves_sorted);
    let to = max_symbol + 1;
    let zeros = Seq::new(192, |i: int| 0u32);
    assert forall|k: int| 0 <= k < 192 implies #[trigger] zeros[k] + in_bucket(count, k as nat, 0, to) <= 256 by {
        lemma_bucket_parts(count, k as nat, 0, 0, to);
    }
    lemma_bucketed(count, 0, to, zeros);
    let counted = bucketed(count, 0, to, zeros);
    lemma_above_none(count, 191, 0, to);
    lemma_above_step(count, 191, 0, to);
    assert forall|j: int| 0 <= j < 191 implies #[trigger] counted[j] == in_bucket(count, j as nat, 0, to) by {}
    assert(counted[191] == 0);
    lemma_starts(counted, zeros, 191, count, to);
    let (base, curr) = starts_summed(counted, zeros, 191);
    let blank = Seq::new(513, |i: int| no_node());
    assert forall|r: int| 1 <= r < 192 implies #[trigger] curr[r] == in_or_above(count, r as nat, 0, to) + in_bucket(
        count,
        (r - 1) as nat,
        0,
        0,
    ) by {}
    lemma_leaves_placed(count, 0, to, curr, blank);
    let (curr1, t) = leaves_placed(count, 0, to, curr, blank);
    let pos = Seq::new(to, |s: int| place(count, to, s));
    assert forall|s: int| 0 <= s < to implies {
        &&& 0 <= #[trigger] pos[s] < to
        &&& node_at(t, pos[s]) == fresh_leaf(count, s)
        &&& in_range(count, to, bucket(count, s), pos[s])
    } by {
        lemma_place(count, to, s);
        assert(node_at(t, place(count, to, s)) == fresh_leaf(count, s));
    }
    assert forall|p: int| 0 <= p < to implies (#[trigger] node_at(t, p)).byte < to && pos[node_at(
        t,
        p,
    ).byte as int] == p by {
        let s = lemma_taken(count, to, p);
        assert(node_at(t, place(count, to, s)) == fresh_leaf(count, s));
    }
    assert(laid(t, count, to, pos));
    assert forall|j: int| 1 <= j < 192 implies #[trigger] curr1[j] == in_or_above(
        count,
        (j - 1) as nat,
        0,
        to,
    ) by {
        lemma_above_step(count, (j - 1) as nat, 0, to);
    }
    lemma_buckets_sorted(base, curr1, t, 165, count, to);
    let r = buckets_sorted(base, curr1, t, 165);
    assert forall|p: int, q: int| 0 <= p <= q <= max_symbol implies (#[trigger] node_at(r, p)).count >= (
    #[trigger] node_at(r, q)).count by {
        let at = choose|at: Seq<int>| laid(r, count, to, at);
        let a = node_at(r, p).byte as int;
        let b = node_at(r, q).byte as int;
        assert(at[a] == p && at[b] == q);
        assert(node_at(r, at[a]) == fresh_leaf(count, a));
        assert(node_at(r, at[b]) == fresh_leaf(count, b));
        let k = bucket(count, a);
        let m = bucket(count, b);
        lemma_index(count[a], count[a]);
        if k != m {
            if count[a] < count[b] {
                lemma_index(count[a], count[b]);
                lemma_above_falls(count, k + 1, m, 0, to);
            }
        } else if k < 165 {
            lemma_index_small(count[a]);
            lemma_index_small(count[b]);
        } else {
            assert(bucket_sorted(r, count, to, k));
        }
    }
}

} // verus!
