//! Limiting the height of a tree keeps the code space filled.

use crate::bits::{highest_bit, lemma_highest_bit_bound};
use crate::huffman_depth_laws::{lemma_shares_scaled, tree_ok};
use crate::huffman_made_laws::leaf_shares;
use crate::huffman_shape_laws::depth_at;
use crate::huffman_tree::NodeElt;
use crate::huffman_tree_model::{
    below_target, cheap_rank, clamped, given_back, height_limited, leaf_index, no_leaf, node_at, rank_moved,
    ranks_from, repaid, taken_rank, with_bits,
};
use vstd::arithmetic::power2::{
    lemma2_to64, lemma_pow2_adds, lemma_pow2_pos, lemma_pow2_strictly_increases, lemma_pow2_unfold, pow2,
};
use vstd::prelude::*;

verus! {

/// Deeper leaves come last.
pub open spec fn rising(t: Seq<NodeElt>, last: int) -> bool {
    forall|i: int, j: int| 0 <= i <= j <= last ==> #[trigger] depth_at(t, i) <= #[trigger] depth_at(t, j)
}

/// The leaves have depths from one up to `target`, deeper ones last.
pub open spec fn leaves_fit(t: Seq<NodeElt>, last: int, target: nat) -> bool {
    &&& t.len() == 513
    &&& rising(t, last)
    &&& forall|i: int| 0 <= i <= last ==> 1 <= #[trigger] depth_at(t, i) <= target
}

/// The same leaves but for their depths.
pub open spec fn same_leaves(t: Seq<NodeElt>, u: Seq<NodeElt>) -> bool {
    forall|i: int| (#[trigger] node_at(u, i)).byte == node_at(t, i).byte && node_at(u, i).count == node_at(t, i).count
}

/// How many of the first `k` leaves are as deep as may be.
spec fn deepest(t: Seq<NodeElt>, k: nat, target: nat) -> nat
    decreases k,
{
    if k == 0 {
        0
    } else {
        deepest(t, (k - 1) as nat, target) + if depth_at(t, k - 1) == target {
            1nat
        } else {
            0
        }
    }
}

proof fn lemma_shares_same(t: Seq<NodeElt>, u: Seq<NodeElt>, k: nat, deep: nat)
    requires
        forall|i: int| 0 <= i < k ==> #[trigger] depth_at(u, i) == depth_at(t, i),
    ensures
        leaf_shares(u, k, deep) == leaf_shares(t, k, deep),
        deepest(u, k, deep) == deepest(t, k, deep),
    decreases k,
{
    if k > 0 {
        lemma_shares_same(t, u, (k - 1) as nat, deep);
        assert(depth_at(u, k - 1) == depth_at(t, k - 1));
    }
}

/// One leaf gets the depth `d`.
proof fn lemma_one_changed(t: Seq<NodeElt>, at: int, d: u8, k: nat, deep: nat)
    requires
        t.len() == 513,
        0 <= at < k <= 256,
    ensures
        leaf_shares(with_bits(t, at, d), k, deep) == leaf_shares(t, k, deep) - pow2(
            (deep - depth_at(t, at)) as nat,
        ) + pow2((deep - d) as nat),
        deepest(with_bits(t, at, d), k, deep) == deepest(t, k, deep) - (if depth_at(t, at) == deep {
            1int
        } else {
            0
        }) + (if d == deep {
            1int
        } else {
            0
        }),
    decreases k,
{
    let u = with_bits(t, at, d);
    assert(depth_at(u, at) == d);
    assert forall|i: int| i != at implies #[trigger] depth_at(u, i) == depth_at(t, i) by {}
    if at == k - 1 {
        lemma_shares_same(t, u, (k - 1) as nat, deep);
    } else {
        lemma_one_changed(t, at, d, (k - 1) as nat, deep);
        assert(depth_at(u, k - 1) == depth_at(t, k - 1));
    }
}

proof fn lemma_with_bits(t: Seq<NodeElt>, at: int, d: u8)
    requires
        t.len() == 513,
        0 <= at < 512,
    ensures
        with_bits(t, at, d).len() == 513,
        same_leaves(t, with_bits(t, at, d)),
        depth_at(with_bits(t, at, d), at) == d,
        forall|i: int| i != at ==> #[trigger] depth_at(with_bits(t, at, d), i) == depth_at(t, i),
{
}

proof fn lemma_same_leaves(t: Seq<NodeElt>, u: Seq<NodeElt>, v: Seq<NodeElt>)
    requires
        same_leaves(t, u),
        same_leaves(u, v),
    ensures
        same_leaves(t, v),
{
    assert forall|i: int| #![trigger node_at(v, i)]
        node_at(v, i).byte == node_at(t, i).byte && node_at(v, i).count == node_at(t, i).count by {
        assert(node_at(v, i).byte == node_at(u, i).byte);
        assert(node_at(u, i).byte == node_at(t, i).byte);
    }
}

/// With all leaves as deep as may be, each takes one share.
proof fn lemma_all_deepest(t: Seq<NodeElt>, k: nat, target: nat)
    requires
        forall|i: int| 0 <= i < k ==> #[trigger] depth_at(t, i) == target,
    ensures
        leaf_shares(t, k, target) == k,
    decreases k,
{
    lemma2_to64();
    if k > 0 {
        lemma_all_deepest(t, (k - 1) as nat, target);
        assert(depth_at(t, k - 1) == target);
    }
}

/// Some leaf is as deep as may be only if the last one is.
proof fn lemma_deepest_last(t: Seq<NodeElt>, k: nat, target: nat, last: int)
    requires
        rising(t, last),
        k <= last + 1,
        depth_at(t, last) < target,
    ensures
        deepest(t, k, target) == 0,
    decreases k,
{
    if k > 0 {
        lemma_deepest_last(t, (k - 1) as nat, target, last);
        assert(depth_at(t, k - 1) <= depth_at(t, last));
    }
}

/// Where no leaf has one of the next `k - 1` depths, the other shares are
/// multiples of `2^k`.
proof fn lemma_multiples(t: Seq<NodeElt>, n: nat, target: nat, k: nat) -> (q: nat)
    requires
        forall|i: int| 0 <= i < n ==> #[trigger] depth_at(t, i) == target || depth_at(t, i) + k <= target,
    ensures
        leaf_shares(t, n, target) == deepest(t, n, target) + pow2(k) * q,
    decreases n,
{
    lemma2_to64();
    if n == 0 {
        assert(pow2(k) * 0 == 0) by (nonlinear_arith);
        0
    } else {
        let q = lemma_multiples(t, (n - 1) as nat, target, k);
        let d = depth_at(t, n - 1);
        if d == target {
            q
        } else {
            assert(d + k <= target);
            let more = pow2((target - d - k) as nat);
            lemma_pow2_adds(k, (target - d - k) as nat);
            let p = pow2(k) as int;
            assert(p * (q + more) == p * q + p * more) by (nonlinear_arith);
            (q + more) as nat
        }
    }
}

// ---------------------------------------------------------------------------
// Clamping.

proof fn lemma_clamped(t: Seq<NodeElt>, n: int, target: u32, largest: u32, cost: int)
    requires
        t.len() == 513,
        -1 <= n <= 255,
        1 <= target < largest <= 255,
        forall|i: int| 0 <= i <= n ==> #[trigger] depth_at(t, i) <= largest,
    ensures
        ({
            let (u, m, c) = clamped(t, n, target, largest, cost);
            let unit = pow2((largest - target) as nat);
            &&& u.len() == 513
            &&& same_leaves(t, u)
            &&& -1 <= m <= n
            &&& forall|i: int| m < i <= n ==> #[trigger] depth_at(t, i) > target && depth_at(u, i) == target
            &&& forall|i: int| i <= m || i > n ==> #[trigger] depth_at(u, i) == depth_at(t, i)
            &&& m >= 0 ==> depth_at(t, m) <= target
            &&& leaf_shares(u, (n + 1) as nat, largest as nat) - leaf_shares(t, (n + 1) as nat, largest as nat) == c
                - cost
            &&& m < n ==> c > cost
            &&& c >= cost
            &&& c - cost <= (n - m) * (unit - 1)
        }),
    decreases n + 1,
{
    reveal_with_fuel(clamped, 1);
    let unit = pow2((largest - target) as nat);
    lemma_pow2_pos((largest - target) as nat);
    if n >= 0 && node_at(t, n).nb_bits > target {
        let nb = node_at(t, n).nb_bits as u32;
        assert(depth_at(t, n) <= largest);
        let next = with_bits(t, n, target as u8);
        lemma_with_bits(t, n, target as u8);
        let piece = pow2((largest - nb) as nat);
        lemma_pow2_pos((largest - nb) as nat);
        lemma_pow2_strictly_increases((largest - nb) as nat, (largest - target) as nat);
        let paid = cost + unit - piece;
        assert forall|i: int| 0 <= i <= n - 1 implies #[trigger] depth_at(next, i) <= largest by {
            assert(depth_at(next, i) == depth_at(t, i));
        }
        lemma_clamped(next, n - 1, target, largest, paid);
        let (u, m, c) = clamped(next, n - 1, target, largest, paid);
        assert(forall|i: int|
            m < i <= n - 1 ==> #[trigger] depth_at(next, i) > target && depth_at(u, i) == target);
        lemma_same_leaves(t, next, u);
        lemma_one_changed(t, n, target as u8, (n + 1) as nat, largest as nat);
        assert(depth_at(u, n) == depth_at(next, n));
        assert forall|i: int| m < i <= n implies #[trigger] depth_at(t, i) > target && depth_at(u, i) == target by {
            if i < n {
                assert(depth_at(next, i) == depth_at(t, i));
            }
        }
        assert forall|i: int| i <= m || i > n implies #[trigger] depth_at(u, i) == depth_at(t, i) by {
            assert(depth_at(u, i) == depth_at(next, i));
        }
        assert((n - m) * (unit - 1) == (n - 1 - m) * (unit - 1) + (unit - 1)) by (nonlinear_arith);
        assert(leaf_shares(u, (n + 1) as nat, largest as nat) == leaf_shares(u, n as nat, largest as nat) + pow2(
            (largest - depth_at(u, n)) as nat,
        ));
        assert(leaf_shares(next, (n + 1) as nat, largest as nat) == leaf_shares(next, n as nat, largest as nat) + pow2(
            (largest - depth_at(next, n)) as nat,
        ));
    } else {
        assert(0 * (unit - 1) == 0) by (nonlinear_arith);
    }
}

proof fn lemma_below(t: Seq<NodeElt>, n: int, target: u32)
    requires
        n >= -1,
    ensures
        -1 <= below_target(t, n, target) <= n,
        forall|i: int| below_target(t, n, target) < i <= n ==> #[trigger] depth_at(t, i) == target,
        below_target(t, n, target) >= 0 ==> depth_at(t, below_target(t, n, target)) != target,
    decreases n + 1,
{
    reveal_with_fuel(below_target, 1);
    if n >= 0 && node_at(t, n).nb_bits == target {
        lemma_below(t, n - 1, target);
    }
}

// ---------------------------------------------------------------------------
// Ranks.

/// `r` is the last leaf after `from` that is `k` levels above the target, if
/// there is one.
spec fn rank_ok(t: Seq<NodeElt>, from: int, last: int, target: nat, k: int, r: u32) -> bool {
    if r == no_leaf() {
        forall|i: int| from < i <= last ==> #[trigger] depth_at(t, i) + k != target
    } else {
        &&& from < r <= last
        &&& depth_at(t, r as int) + k == target
        &&& forall|i: int| r < i <= last ==> #[trigger] depth_at(t, i) + k > target
    }
}

spec fn ranks_ok(t: Seq<NodeElt>, from: int, last: int, target: nat, ranks: Seq<u32>) -> bool {
    &&& ranks.len() == 14
    &&& forall|k: int| 1 <= k <= 13 ==> rank_ok(t, from, last, target, k, #[trigger] ranks[k])
}

proof fn lemma_ranks(t: Seq<NodeElt>, pos: int, bits: u32, target: u32, ranks: Seq<u32>, last: int)
    requires
        -1 <= pos <= last <= 255,
        1 <= bits <= target <= 12,
        leaves_fit(t, last, target as nat),
        ranks_ok(t, pos, last, target as nat, ranks),
        forall|i: int| pos < i <= last ==> #[trigger] depth_at(t, i) >= bits,
        bits == target || ranks[target - bits] != no_leaf(),
    ensures
        ranks_ok(t, -1, last, target as nat, ranks_from(t, pos, bits, target, ranks)),
    decreases pos + 1,
{
    reveal_with_fuel(ranks_from, 1);
    if pos >= 0 {
        let nb = node_at(t, pos).nb_bits as u32;
        assert(1 <= depth_at(t, pos) <= target);
        if bits < target {
            let k = target - bits;
            assert(rank_ok(t, pos, last, target as nat, k as int, ranks[k as int]));
            assert(depth_at(t, pos) <= depth_at(t, ranks[k as int] as int));
        }
        assert(nb <= bits);
        let next = if nb < bits {
            ranks.update(target - nb, pos as u32)
        } else {
            ranks
        };
        assert forall|k: int| 1 <= k <= 13 implies rank_ok(t, pos - 1, last, target as nat, k, #[trigger] next[k]) by {
            assert(rank_ok(t, pos, last, target as nat, k, ranks[k]));
            if nb < bits && k == target - nb {
                assert forall|i: int| pos < i <= last implies #[trigger] depth_at(t, i) + k > target by {
                    assert(depth_at(t, i) >= bits);
                }
            } else if nb == bits && k == target - nb {
                assert(ranks[k] != no_leaf());
            }
        }
        assert forall|i: int| pos - 1 < i <= last implies #[trigger] depth_at(t, i) >= nb by {
            if i > pos {
                assert(depth_at(t, i) >= bits);
            }
        }
        lemma_ranks(
            t,
            pos - 1,
            if nb < bits {
                nb
            } else {
                bits
            },
            target,
            next,
            last,
        );
    }
}

proof fn lemma_cheap(t: Seq<NodeElt>, ranks: Seq<u32>, k: nat)
    requires
        1 <= k <= 13,
    ensures
        1 <= cheap_rank(t, ranks, k) <= k,
        ranks[cheap_rank(t, ranks, k) as int] == no_leaf() ==> cheap_rank(t, ranks, k) == 1 && forall|j: int|
            1 <= j <= k ==> #[trigger] ranks[j] == no_leaf(),
    decreases k,
{
    reveal_with_fuel(cheap_rank, 1);
    let high = ranks[k as int];
    let low = ranks[k - 1];
    if k > 1 && (high == no_leaf() || (low != no_leaf() && node_at(t, leaf_index(high)).count > 2 * node_at(
        t,
        leaf_index(low),
    ).count)) {
        lemma_cheap(t, ranks, (k - 1) as nat);
    }
}

proof fn lemma_taken_rank(ranks: Seq<u32>, k: nat, j: int)
    requires
        k <= j <= 12,
        ranks[j] != no_leaf(),
    ensures
        k <= taken_rank(ranks, k) <= j,
        ranks[taken_rank(ranks, k) as int] != no_leaf(),
        forall|i: int| k <= i < taken_rank(ranks, k) ==> #[trigger] ranks[i] == no_leaf(),
    decreases 13 - k,
{
    reveal_with_fuel(taken_rank, 1);
    if ranks[k as int] == no_leaf() {
        lemma_taken_rank(ranks, k + 1, j);
    }
}

// ---------------------------------------------------------------------------
// Repaying.

/// What holds while the cost is repaid.
spec fn owing(t: Seq<NodeElt>, last: int, target: nat, cost: int, from: int) -> bool {
    &&& leaves_fit(t, last, target)
    &&& leaf_shares(t, (last + 1) as nat, target) == pow2(target) + cost
    &&& forall|i: int| from < i <= last ==> #[trigger] depth_at(t, i) == target
}

/// The leaf at `p`, the last one `k` levels above the target, goes one down.
proof fn lemma_rank_moved(t: Seq<NodeElt>, ranks: Seq<u32>, k: nat, target: u32, last: int)
    requires
        0 <= last <= 255,
        1 <= k <= 12,
        2 <= target <= 12,
        leaves_fit(t, last, target as nat),
        ranks_ok(t, -1, last, target as nat, ranks),
        ranks[k as int] != no_leaf(),
    ensures
        ({
            let p = ranks[k as int] as int;
            let u = with_bits(t, p, node_at(t, p).nb_bits.wrapping_add(1));
            &&& 0 <= p <= last
            &&& leaf_index(ranks[k as int]) == p
            &&& depth_at(t, p) + k == target
            &&& depth_at(u, p) == depth_at(t, p) + 1
            &&& leaves_fit(u, last, target as nat)
            &&& ranks_ok(u, -1, last, target as nat, rank_moved(u, ranks, k, target))
        }),
{
    assert(rank_ok(t, -1, last, target as nat, k as int, ranks[k as int]));
    let p = ranks[k as int] as int;
    assert(1 <= depth_at(t, p) <= target);
    let u = with_bits(t, p, node_at(t, p).nb_bits.wrapping_add(1));
    lemma_with_bits(t, p, node_at(t, p).nb_bits.wrapping_add(1));
    assert forall|i: int, j: int| 0 <= i <= j <= last implies #[trigger] depth_at(u, i) <= #[trigger] depth_at(u, j) by {
        assert(depth_at(t, i) <= depth_at(t, j));
        if i == p && j > p {
            assert(depth_at(t, j) + k > target);
        }
    }
    assert forall|i: int| 0 <= i <= last implies 1 <= #[trigger] depth_at(u, i) <= target by {
        assert(1 <= depth_at(t, i) <= target);
    }
    let r = rank_moved(u, ranks, k, target);
    let r1 = if ranks[k - 1] == no_leaf() {
        ranks.update(k - 1, ranks[k as int])
    } else {
        ranks
    };
    assert(r1[k as int] == ranks[k as int]);
    assert forall|j: int| 1 <= j <= 13 implies rank_ok(u, -1, last, target as nat, j, #[trigger] r[j]) by {
        assert(rank_ok(t, -1, last, target as nat, j, ranks[j]));
        if j == k {
            if p == 0 {
                assert(r[j] == no_leaf());
                assert forall|i: int| -1 < i <= last implies #[trigger] depth_at(u, i) + j != target by {
                    if i != p {
                        assert(depth_at(t, i) + k > target);
                    }
                }
            } else {
                let v = p - 1;
                assert(leaf_index((ranks[k as int] - 1) as u32) == v);
                assert(depth_at(t, v) <= depth_at(t, p));
                assert(depth_at(u, v) == depth_at(t, v));
                assert forall|i: int| v < i <= last implies #[trigger] depth_at(u, i) + j > target by {
                    if i != p {
                        assert(depth_at(t, i) + k > target);
                    }
                }
                if depth_at(u, v) + k != target {
                    assert(r[j] == no_leaf());
                    assert forall|i: int| -1 < i <= last implies #[trigger] depth_at(u, i) + j != target by {
                        if i <= v {
                            assert(depth_at(t, i) <= depth_at(t, v));
                        }
                    }
                }
            }
        } else if j == k - 1 {
            if ranks[j] == no_leaf() {
                assert(r[j] == ranks[k as int]);
                assert forall|i: int| p < i <= last implies #[trigger] depth_at(u, i) + j > target by {
                    assert(depth_at(t, i) + k > target);
                    assert(depth_at(t, i) + j != target);
                }
            } else {
                assert(r[j] == ranks[j]);
                let q = ranks[j] as int;
                assert(q > p) by {
                    if q < p {
                        assert(depth_at(t, q) <= depth_at(t, p));
                    }
                }
                assert forall|i: int| q < i <= last implies #[trigger] depth_at(u, i) + j > target by {
                    assert(depth_at(t, i) + j > target);
                }
            }
        } else {
            assert(r[j] == ranks[j]);
            if ranks[j] == no_leaf() {
                assert forall|i: int| -1 < i <= last implies #[trigger] depth_at(u, i) + j != target by {
                    assert(depth_at(t, i) + j != target);
                }
            } else {
                let q = ranks[j] as int;
                assert(q != p);
                assert forall|i: int| q < i <= last implies #[trigger] depth_at(u, i) + j > target by {
                    assert(depth_at(t, i) + j > target);
                }
            }
        }
    }
}

/// While something is owed, there is a leaf to lengthen.
proof fn lemma_some_rank(t: Seq<NodeElt>, ranks: Seq<u32>, cost: int, target: u32, last: int, from: int) -> (k: int)
    requires
        0 <= last <= 255,
        2 <= target <= 12,
        owing(t, last, target as nat, cost, from),
        ranks_ok(t, -1, last, target as nat, ranks),
        cost > 0,
        last + 1 <= pow2(target as nat),
    ensures
        1 <= k <= 11,
        ranks[k] != no_leaf(),
{
    if forall|i: int| 0 <= i < last + 1 ==> #[trigger] depth_at(t, i) == target {
        lemma_all_deepest(t, (last + 1) as nat, target as nat);
        assert(false);
    }
    let i = choose|i: int| 0 <= i < last + 1 && #[trigger] depth_at(t, i) != target;
    assert(1 <= depth_at(t, i) <= target);
    let k = target - depth_at(t, i);
    assert(rank_ok(t, -1, last, target as nat, k, ranks[k]));
    k
}

#[verifier::rlimit(40)]
proof fn lemma_repaid(t: Seq<NodeElt>, ranks: Seq<u32>, cost: int, target: u32, last: int, from: int)
    requires
        0 <= last <= 255,
        2 <= target <= 12,
        cost <= 256,
        owing(t, last, target as nat, cost, from),
        ranks_ok(t, -1, last, target as nat, ranks),
        cost > 0,
        deepest(t, (last + 1) as nat, target as nat) > cost,
        last + 1 <= pow2(target as nat),
    ensures
        ({
            let (u, r, left) = repaid(t, ranks, cost, target);
            &&& left <= 0
            &&& owing(u, last, target as nat, left, from)
            &&& ranks_ok(u, -1, last, target as nat, r)
            &&& deepest(u, (last + 1) as nat, target as nat) >= -left
            &&& same_leaves(t, u)
        }),
    decreases cost,
{
    reveal_with_fuel(repaid, 1);
    let h = highest_bit(cost as nat);
    lemma2_to64();
    lemma_highest_bit_bound(cost as nat, 9);
    let j = lemma_some_rank(t, ranks, cost, target, last, from);
    let k0 = cheap_rank(t, ranks, h + 1);
    lemma_cheap(t, ranks, h + 1);
    if ranks[k0 as int] != no_leaf() {
        lemma_taken_rank(ranks, k0, k0 as int);
    } else {
        lemma_taken_rank(ranks, k0, j);
    }
    let k = taken_rank(ranks, k0);
    lemma_rank_moved(t, ranks, k, target, last);
    let p = ranks[k as int] as int;
    let d = node_at(t, p).nb_bits.wrapping_add(1);
    let u = with_bits(t, p, d);
    lemma_with_bits(t, p, d);
    lemma_one_changed(t, p, d, (last + 1) as nat, target as nat);
    lemma_pow2_unfold(k);
    lemma_pow2_pos((k - 1) as nat);
    let left = cost - pow2((k - 1) as nat);
    assert(leaf_shares(u, (last + 1) as nat, target as nat) == pow2(target as nat) + left);
    assert forall|i: int| from < i <= last implies #[trigger] depth_at(u, i) == target by {
        assert(depth_at(t, i) == target);
    }
    assert(owing(u, last, target as nat, left, from));
    let r1 = rank_moved(u, ranks, k, target);
    let m = deepest(t, (last + 1) as nat, target as nat);
    let m1 = deepest(u, (last + 1) as nat, target as nat);
    assert(m1 >= m);
    if left > 0 {
        lemma_repaid(u, r1, left, target, last, from);
        lemma_same_leaves(t, u, repaid(u, r1, left, target).0);
    } else if left < 0 {
        if k <= h + 1 {
            if k < h + 1 {
                lemma_pow2_strictly_increases((k - 1) as nat, h);
            }
            assert(false);
        }
        assert(ranks[k0 as int] == no_leaf());
        assert forall|i: int| 1 <= i < k implies #[trigger] ranks[i] == no_leaf() by {}
        assert forall|i: int| 0 <= i < last + 1 implies #[trigger] depth_at(t, i) == target || depth_at(t, i) + k
            <= target by {
            let above = target - depth_at(t, i);
            assert(1 <= depth_at(t, i) <= target);
            if 1 <= above < k {
                assert(rank_ok(t, -1, last, target as nat, above, ranks[above]));
                assert(depth_at(t, i) + above != target);
            }
        }
        let q = lemma_multiples(t, (last + 1) as nat, target as nat, k);
        lemma_pow2_adds(k, (target - k) as nat);
        let big = pow2(k) as int;
        let base = pow2((target - k) as nat) as int;
        assert(m - cost >= big) by (nonlinear_arith)
            requires
                big * base + cost == m + big * q,
                m > cost,
                big >= 1,
        {
            let x = base - q;
            assert(m - cost == big * x);
            assert(x >= 1);
        }
    }
}

// ---------------------------------------------------------------------------
// Giving back.

#[verifier::rlimit(40)]
proof fn lemma_given_back(t: Seq<NodeElt>, rank1: u32, n: int, cost: int, target: u32, last: int)
    requires
        0 <= last <= 255,
        2 <= target <= 12,
        -1 <= n <= last,
        cost <= 0,
        leaves_fit(t, last, target as nat),
        leaf_shares(t, (last + 1) as nat, target as nat) == pow2(target as nat) + cost,
        deepest(t, (last + 1) as nat, target as nat) >= -cost,
        rank_ok(t, -1, last, target as nat, 1, rank1),
        rank1 == no_leaf() ==> forall|i: int| n < i <= last ==> #[trigger] depth_at(t, i) == target,
    ensures
        ({
            let u = given_back(t, rank1, n, cost, target);
            &&& leaves_fit(u, last, target as nat)
            &&& leaf_shares(u, (last + 1) as nat, target as nat) == pow2(target as nat)
            &&& same_leaves(t, u)
        }),
    decreases -cost,
{
    reveal_with_fuel(given_back, 1);
    if cost < 0 {
        if depth_at(t, last) < target {
            lemma_deepest_last(t, (last + 1) as nat, target as nat, last);
        }
        assert(1 <= depth_at(t, last) <= target);
        assert(depth_at(t, last) == target);
        lemma2_to64();
        let (at, n1) = if rank1 == no_leaf() {
            lemma_below(t, n, target);
            (below_target(t, n, target) + 1, below_target(t, n, target))
        } else {
            (rank1 + 1, n)
        };
        if rank1 == no_leaf() {
            if n1 >= 0 {
                assert(depth_at(t, n1) != target);
            }
            assert(n1 < last);
        } else {
            assert(rank1 as int != last);
            assert(depth_at(t, at) + 1 > target);
            assert(1 <= depth_at(t, at) <= target);
        }
        assert(0 <= at <= last);
        assert forall|i: int| at <= i <= last implies #[trigger] depth_at(t, i) == target by {
            assert(depth_at(t, at) <= depth_at(t, i));
            assert(1 <= depth_at(t, i) <= target);
            if rank1 == no_leaf() && i > n {
            }
        }
        let d = node_at(t, at).nb_bits.wrapping_sub(1);
        assert(d == target - 1);
        let u = with_bits(t, at, d);
        lemma_with_bits(t, at, d);
        lemma_one_changed(t, at, d, (last + 1) as nat, target as nat);
        assert forall|i: int, j: int| 0 <= i <= j <= last implies #[trigger] depth_at(u, i) <= #[trigger] depth_at(
            u,
            j,
        ) by {
            assert(depth_at(t, i) <= depth_at(t, j));
            if j == at && i < at {
                if rank1 == no_leaf() {
                    assert(depth_at(t, i) <= depth_at(t, n1));
                    assert(depth_at(t, n1) <= target);
                } else {
                    assert(depth_at(t, i) <= depth_at(t, rank1 as int));
                }
            }
        }
        assert forall|i: int| 0 <= i <= last implies 1 <= #[trigger] depth_at(u, i) <= target by {
            assert(1 <= depth_at(t, i) <= target);
        }
        assert(rank_ok(u, -1, last, target as nat, 1, at as u32)) by {
            assert forall|i: int| at < i <= last implies #[trigger] depth_at(u, i) + 1 > target by {
                assert(depth_at(t, i) == target);
            }
        }
        if rank1 != no_leaf() {
            let p = rank1.wrapping_add(1);
            assert(p == at);
            assert(leaf_index(p) == at);
        }
        lemma_given_back(u, at as u32, n1, cost + 1, target, last);
        lemma_same_leaves(t, u, given_back(u, at as u32, n1, cost + 1, target));
    }
}

// ---------------------------------------------------------------------------
// All of it.

/// A tree that is not out of all proportion keeps its code space filled, and
/// its rarer leaves no higher, when its height is limited.
#[verifier::rlimit(40)]
pub proof fn lemma_height_limited(s: Seq<NodeElt>, t: Seq<NodeElt>, last: int, target: u32)
    requires
        1 <= last <= 255,
        1 <= target <= 12,
        tree_ok(s, t, last),
        depth_at(t, last) <= target + 30,
        last + 1 <= pow2(target as nat),
    ensures
        ({
            let (u, log) = height_limited(t, last, target);
            &&& 1 <= log <= target
            &&& leaves_fit(u, last, log as nat)
            &&& leaf_shares(u, (last + 1) as nat, log as nat) == pow2(log as nat)
            &&& same_leaves(t, u)
        }),
{
    reveal(height_limited);
    let largest = node_at(t, last).nb_bits as u32;
    let deep = depth_at(t, last);
    assert(1 <= depth_at(t, last) <= last);
    assert forall|i: int| 0 <= i <= last implies 1 <= #[trigger] depth_at(t, i) <= deep by {
        assert(depth_at(t, i) <= depth_at(t, last));
    }
    if largest > target {
        lemma2_to64();
        if target == 1 {
            assert(last == 1);
            assert(false);
        }
        let diff = (largest - target) as nat;
        lemma_clamped(t, last, target, largest, 0);
        let (t1, n1, cost1) = clamped(t, last, target, largest, 0);
        let unit = pow2(diff);
        lemma_pow2_pos(diff);
        assert(n1 < last) by {
            if n1 == last {
                assert(depth_at(t, n1) <= target);
            }
        }
        assert forall|i: int| 0 <= i <= last implies 1 <= #[trigger] depth_at(t1, i) <= target by {
            if i > n1 {
                assert(depth_at(t, i) > target);
            } else {
                assert(depth_at(t, i) <= depth_at(t, n1));
                assert(depth_at(t1, i) == depth_at(t, i));
            }
        }
        assert forall|i: int, j: int| 0 <= i <= j <= last implies #[trigger] depth_at(t1, i) <= #[trigger] depth_at(
            t1,
            j,
        ) by {
            assert(depth_at(t, i) <= depth_at(t, j));
            if j > n1 {
                assert(depth_at(t, j) > target);
                assert(1 <= depth_at(t1, i) <= target);
            } else {
                assert(depth_at(t1, i) == depth_at(t, i) && depth_at(t1, j) == depth_at(t, j));
            }
        }
        lemma_shares_scaled(t1, (last + 1) as nat, target as nat, diff);
        lemma_pow2_adds(diff, target as nat);
        let shares = leaf_shares(t1, (last + 1) as nat, target as nat) as int;
        let room = pow2(target as nat) as int;
        let u0 = unit as int;
        let owed = shares - room;
        assert(u0 * (shares - room) == u0 * shares - u0 * room) by (nonlinear_arith);
        assert(cost1 == u0 * owed);
        vstd::arithmetic::div_mod::lemma_div_multiples_vanish(owed, u0);
        assert(u0 * owed == owed * u0) by (nonlinear_arith);
        assert(cost1 / (unit as int) == owed) by {
            vstd::arithmetic::div_mod::lemma_div_by_multiple(owed, u0);
        }
        assert(owed >= 1) by (nonlinear_arith)
            requires
                u0 * owed > 0,
                u0 > 0,
        ;
        assert(owed < last - n1) by (nonlinear_arith)
            requires
                u0 * owed <= (last - n1) * (u0 - 1),
                u0 > 0,
                last > n1,
        {
            assert((last - n1) * (u0 - 1) < (last - n1) * u0);
            assert(u0 * owed < u0 * (last - n1));
        }
        lemma_below(t1, n1, target);
        let n2 = below_target(t1, n1, target);
        assert forall|i: int| n2 < i <= last implies #[trigger] depth_at(t1, i) == target by {
            if i > n1 {
                assert(depth_at(t, i) > target);
            }
        }
        lemma_deepest_many(t1, (last + 1) as nat, target as nat, n1);
        let none = Seq::new(14, |i: int| no_leaf());
        assert(ranks_ok(t1, n2, last, target as nat, none));
        lemma_ranks(t1, n2, target, target, none, last);
        let ranks = ranks_from(t1, n2, target, target, none);
        lemma_repaid(t1, ranks, owed, target, last, n2);
        let (t2, ranks2, cost3) = repaid(t1, ranks, owed, target);
        assert(rank_ok(t2, -1, last, target as nat, 1, ranks2[1]));
        lemma_given_back(t2, ranks2[1], n2, cost3, target, last);
        lemma_same_leaves(t, t1, t2);
        lemma_same_leaves(t, t2, given_back(t2, ranks2[1], n2, cost3, target));
    }
}

/// The leaves after `n` are as deep as may be.
proof fn lemma_deepest_many(t: Seq<NodeElt>, k: nat, target: nat, n: int)
    requires
        -1 <= n,
        forall|i: int| n < i < k ==> #[trigger] depth_at(t, i) == target,
    ensures
        deepest(t, k, target) >= k - 1 - n,
    decreases k,
{
    if k > 0 && n < k - 1 {
        lemma_deepest_many(t, (k - 1) as nat, target, n);
        assert(depth_at(t, k - 1) == target);
    }
}

} // verus!
