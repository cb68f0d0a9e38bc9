//! Growing a tree over sorted leaves: every node is used once, and the smallest
//! two are joined next.

use crate::huffman_sort_laws::descending;
use crate::huffman_tree::NodeElt;
use crate::huffman_tree_model::{node_at, smaller_of, with_count, with_parent};
use vstd::prelude::*;

verus! {

pub open spec fn weight_at(t: Seq<NodeElt>, i: int) -> int {
    node_at(t, i).count as int
}

pub open spec fn parent_at(t: Seq<NodeElt>, i: int) -> int {
    node_at(t, i).parent as int
}

pub open spec fn depth_at(t: Seq<NodeElt>, i: int) -> nat {
    node_at(t, i).nb_bits as nat
}

/// The counts of the first `k` leaves.
pub open spec fn leaf_sum(t: Seq<NodeElt>, k: nat) -> int
    decreases k,
{
    if k == 0 {
        0
    } else {
        leaf_sum(t, (k - 1) as nat) + weight_at(t, k - 1)
    }
}

/// The counts of the nodes from `a` up to `n`.
pub open spec fn inner_sum(t: Seq<NodeElt>, a: int, n: int) -> int
    decreases n - a,
{
    if a < n {
        weight_at(t, a) + inner_sum(t, a + 1, n)
    } else {
        0
    }
}

pub proof fn lemma_leaf_sum(t: Seq<NodeElt>, k: nat, i: int)
    requires
        0 <= i < k,
    ensures
        0 <= weight_at(t, i) <= leaf_sum(t, k),
    decreases k,
{
    lemma_leaf_sum_positive(t, (k - 1) as nat);
    if i < k - 1 {
        lemma_leaf_sum(t, (k - 1) as nat, i);
    }
}

pub proof fn lemma_leaf_sum_positive(t: Seq<NodeElt>, k: nat)
    ensures
        0 <= leaf_sum(t, k),
    decreases k,
{
    if k > 0 {
        lemma_leaf_sum_positive(t, (k - 1) as nat);
    }
}

pub proof fn lemma_inner_sum(t: Seq<NodeElt>, a: int, n: int, i: int)
    requires
        a <= i < n,
    ensures
        0 <= weight_at(t, i) <= inner_sum(t, a, n),
    decreases n - a,
{
    lemma_inner_sum_positive(t, a + 1, n);
    if i > a {
        lemma_inner_sum(t, a + 1, n, i);
    }
}

pub proof fn lemma_inner_sum_positive(t: Seq<NodeElt>, a: int, n: int)
    ensures
        0 <= inner_sum(t, a, n),
    decreases n - a,
{
    if a < n {
        lemma_inner_sum_positive(t, a + 1, n);
    }
}

pub proof fn lemma_inner_sum_last(t: Seq<NodeElt>, a: int, n: int)
    requires
        a <= n,
    ensures
        inner_sum(t, a, n + 1) == inner_sum(t, a, n) + weight_at(t, n),
    decreases n - a,
{
    if a < n {
        lemma_inner_sum_last(t, a + 1, n);
    } else {
        assert(inner_sum(t, n + 1, n + 1) == 0);
    }
}

pub proof fn lemma_sums_same(t: Seq<NodeElt>, u: Seq<NodeElt>, k: nat, a: int, n: int)
    requires
        forall|i: int| 0 <= i < k ==> #[trigger] weight_at(u, i) == weight_at(t, i),
        forall|i: int| a <= i < n ==> #[trigger] weight_at(u, i) == weight_at(t, i),
    ensures
        leaf_sum(u, k) == leaf_sum(t, k),
        inner_sum(u, a, n) == inner_sum(t, a, n),
    decreases k, n - a,
{
    if k > 0 {
        lemma_sums_same(t, u, (k - 1) as nat, a, n);
        assert(weight_at(u, k - 1) == weight_at(t, k - 1));
    } else if a < n {
        lemma_sums_same(t, u, 0, a + 1, n);
        assert(weight_at(u, a) == weight_at(t, a));
    }
}

// ---------------------------------------------------------------------------
// Growing the tree.

/// The nodes that are not in a tree yet: leaves up to `leaf`, and inner ones
/// from `inner` up to `n`. None is worth less than `b`.
pub open spec fn at_least(t: Seq<NodeElt>, leaf: int, inner: int, n: int, b: int) -> bool {
    &&& forall|i: int| 0 <= i <= leaf ==> #[trigger] weight_at(t, i) >= b
    &&& forall|i: int| inner <= i < n ==> #[trigger] weight_at(t, i) >= b
}

/// The part of the state that choosing a node depends on.
pub open spec fn ready(t: Seq<NodeElt>, n: int, last: int, leaf: int, inner: int, total: int) -> bool {
    &&& t.len() == 513
    &&& 1 <= last <= 255
    &&& 257 <= n <= 256 + last
    &&& -1 <= leaf <= last
    &&& 256 <= inner <= n
    &&& forall|i: int| 0 <= i <= last ==> #[trigger] weight_at(t, i) >= 1
    &&& descending(t, 0, last)
    &&& weight_at(t, -1) == 0x8000_0000
    &&& forall|i: int| n <= i <= 255 + last ==> #[trigger] weight_at(t, i) == 0x4000_0000
    &&& forall|i: int, j: int|
        inner <= i <= j < n ==> #[trigger] weight_at(t, i) <= #[trigger] weight_at(t, j)
    &&& leaf_sum(t, (leaf + 1) as nat) + inner_sum(t, inner, n) <= total
    &&& total < 0x4000_0000
}

/// Before inner node `n` is made: `a` and `b` are the counts of the last two
/// nodes that were joined.
pub open spec fn growing(t: Seq<NodeElt>, n: int, last: int, leaf: int, inner: int, total: int, a: int, b: int) -> bool {
    &&& ready(t, n, last, leaf, inner, total)
    &&& inner <= n - 1
    &&& leaf + 1 + n - inner == 257 + last - n
    &&& leaf_sum(t, (leaf + 1) as nat) + inner_sum(t, inner, n) == total
    &&& 1 <= a <= b
    &&& a + b == weight_at(t, n - 1)
    &&& at_least(t, leaf, inner, n, b)
}

/// The next node is the smallest, from one side or the other.
pub open spec fn took(leaf: int, inner: int, n: int, x: int, leaf1: int, inner1: int) -> bool {
    ||| x == leaf && leaf >= 0 && leaf1 == leaf - 1 && inner1 == inner
    ||| x == inner && inner < n && leaf1 == leaf && inner1 == inner + 1
}

pub proof fn lemma_take(t: Seq<NodeElt>, n: int, last: int, leaf: int, inner: int, total: int)
    requires
        ready(t, n, last, leaf, inner, total),
        n <= 255 + last,
        leaf + 1 + n - inner >= 1,
    ensures
        ({
            let (x, leaf1, inner1) = smaller_of(t, leaf, inner);
            &&& took(leaf, inner, n, x, leaf1, inner1)
            &&& at_least(t, leaf1, inner1, n, weight_at(t, x))
            &&& leaf_sum(t, (leaf1 + 1) as nat) + inner_sum(t, inner1, n) == leaf_sum(t, (leaf + 1) as nat)
                + inner_sum(t, inner, n) - weight_at(t, x)
            &&& ready(t, n, last, leaf1, inner1, total)
            &&& 0 <= weight_at(t, x) <= total
            &&& forall|b: int| #[trigger] at_least(t, leaf, inner, n, b) ==> weight_at(t, x) >= b && at_least(
                t,
                leaf1,
                inner1,
                n,
                b,
            )
        }),
{
    lemma_leaf_sum_positive(t, (leaf + 1) as nat);
    lemma_inner_sum_positive(t, inner, n);
    if leaf >= 0 {
        lemma_leaf_sum(t, (leaf + 1) as nat, leaf);
        lemma_leaf_sum_positive(t, leaf as nat);
    }
    if inner < n {
        lemma_inner_sum(t, inner, n, inner);
        lemma_inner_sum_positive(t, inner + 1, n);
    } else {
        assert(weight_at(t, n) == 0x4000_0000);
    }
    let (x, leaf1, inner1) = smaller_of(t, leaf, inner);
    assert(weight_at(t, leaf) < weight_at(t, inner) <==> node_at(t, leaf).count < node_at(t, inner).count);
    if leaf == -1 {
        assert(weight_at(t, -1) == 0x8000_0000);
        assert(x == inner);
    }
    if inner == n {
        assert(x == leaf);
    }
    assert forall|i: int| 0 <= i <= leaf1 implies #[trigger] weight_at(t, i) >= weight_at(t, x) by {
        assert(node_at(t, i).count >= node_at(t, leaf).count);
    }
    assert forall|i: int| inner1 <= i < n implies #[trigger] weight_at(t, i) >= weight_at(t, x) by {
        assert(weight_at(t, inner) <= weight_at(t, i));
    }
}

/// The state after inner node `n` has been made.
pub open spec fn grown(t: Seq<NodeElt>, n: int, leaf: int, inner: int) -> Seq<NodeElt> {
    let (n1, leaf1, inner1) = smaller_of(t, leaf, inner);
    let (n2, leaf2, inner2) = smaller_of(t, leaf1, inner1);
    let c = node_at(t, n1).count.wrapping_add(node_at(t, n2).count);
    with_parent(with_parent(with_count(t, n, c), n1, n as u16), n2, n as u16)
}

#[verifier::rlimit(20)]
pub proof fn lemma_step(t: Seq<NodeElt>, n: int, last: int, leaf: int, inner: int, total: int, a: int, b: int)
    requires
        growing(t, n, last, leaf, inner, total, a, b),
        n <= 255 + last,
    ensures
        ({
            let (n1, leaf1, inner1) = smaller_of(t, leaf, inner);
            let (n2, leaf2, inner2) = smaller_of(t, leaf1, inner1);
            let u = grown(t, n, leaf, inner);
            &&& took(leaf, inner, n, n1, leaf1, inner1)
            &&& took(leaf1, inner1, n, n2, leaf2, inner2)
            &&& growing(u, n + 1, last, leaf2, inner2, total, weight_at(t, n1), weight_at(t, n2))
            &&& weight_at(t, n1) >= b
            &&& weight_at(u, n) == weight_at(t, n1) + weight_at(t, n2)
            &&& parent_at(u, n1) == n
            &&& parent_at(u, n2) == n
            &&& forall|i: int| i != n ==> #[trigger] weight_at(u, i) == weight_at(t, i)
            &&& forall|i: int| i != n1 && i != n2 ==> #[trigger] parent_at(u, i) == parent_at(t, i)
            &&& forall|i: int|
                (#[trigger] node_at(u, i)).byte == node_at(t, i).byte && node_at(u, i).nb_bits == node_at(
                    t,
                    i,
                ).nb_bits
        }),
{
    let (n1, leaf1, inner1) = smaller_of(t, leaf, inner);
    lemma_take(t, n, last, leaf, inner, total);
    lemma_take(t, n, last, leaf1, inner1, total);
    let (n2, leaf2, inner2) = smaller_of(t, leaf1, inner1);
    let x = weight_at(t, n1);
    let y = weight_at(t, n2);
    let u = grown(t, n, leaf, inner);
    assert(at_least(t, leaf, inner, n, b));
    assert(x >= b);
    assert(at_least(t, leaf1, inner1, n, x));
    assert(y >= x);
    assert(n1 != n2 && n1 != n && n2 != n);
    assert(0 <= n1 < 512 && 0 <= n2 < 512);
    let c = node_at(t, n1).count.wrapping_add(node_at(t, n2).count);
    assert(c == x + y);
    assert forall|i: int| i != n implies #[trigger] weight_at(u, i) == weight_at(t, i) by {}
    assert(weight_at(u, n) == x + y);
    lemma_sums_same(t, u, (leaf2 + 1) as nat, inner2, n);
    lemma_inner_sum_last(u, inner2, n);
    assert(descending(u, 0, last)) by {
        assert forall|p: int, q: int| 0 <= p <= q <= last implies (#[trigger] node_at(u, p)).count >= (
        #[trigger] node_at(u, q)).count by {
            assert(weight_at(u, p) == weight_at(t, p));
            assert(weight_at(u, q) == weight_at(t, q));
            assert(node_at(t, p).count >= node_at(t, q).count);
        }
    }
    assert forall|i: int, j: int| inner2 <= i <= j < n + 1 implies #[trigger] weight_at(u, i)
        <= #[trigger] weight_at(u, j) by {
        if j < n {
            assert(weight_at(t, i) <= weight_at(t, j));
        } else if i < n {
            assert(weight_at(t, i) <= weight_at(t, n - 1));
            assert(weight_at(t, n - 1) == a + b);
        }
    }
    assert(at_least(u, leaf2, inner2, n + 1, y)) by {
        assert(at_least(t, leaf2, inner2, n, y));
        assert forall|i: int| 0 <= i <= leaf2 implies #[trigger] weight_at(u, i) >= y by {
            assert(weight_at(t, i) >= y);
        }
        assert forall|i: int| inner2 <= i < n + 1 implies #[trigger] weight_at(u, i) >= y by {
            if i < n {
                assert(weight_at(t, i) >= y);
            }
        }
    }
}

} // verus!
