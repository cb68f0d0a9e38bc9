//! The finished tree: how parents and weights relate, and that its leaves fill
//! the code space.

use crate::huffman_shape_laws::{depth_at, growing, grown, inner_sum, leaf_sum, lemma_step, parent_at, weight_at};
use crate::huffman_tree::NodeElt;
use crate::huffman_tree_model::{inner_made, node_at, smaller_of};
use vstd::arithmetic::power2::{lemma_pow2_unfold, pow2};
use vstd::prelude::*;

verus! {

/// A node that has yet to be joined when inner node `n` is made.
pub open spec fn open_node(i: int, leaf: int, inner: int, last: int) -> bool {
    0 <= i <= leaf || inner <= i < 255 + last
}

/// The grandparent of a node weighs at least as much as its parent and itself.
pub open spec fn outweighed(r: Seq<NodeElt>, i: int) -> bool {
    weight_at(r, parent_at(r, parent_at(r, i))) >= weight_at(r, parent_at(r, i)) + weight_at(r, i)
}

/// A node is one deeper than its parent.
pub open spec fn one_deeper(f: Seq<NodeElt>, i: int) -> bool {
    depth_at(f, i) == depth_at(f, parent_at(f, i)) + 1
}

/// What is known of the finished tree.
pub open spec fn made_ok(t: Seq<NodeElt>, r: Seq<NodeElt>, n: int, last: int, leaf: int, inner: int, total: int, b: int) -> bool {
    let root = 255 + last;
    &&& r.len() == 513
    &&& forall|i: int|
        (#[trigger] node_at(r, i)).byte == node_at(t, i).byte && node_at(r, i).nb_bits == node_at(t, i).nb_bits
    &&& forall|i: int| i < n ==> #[trigger] weight_at(r, i) == weight_at(t, i)
    &&& forall|i: int|
        !open_node(i, leaf, inner, last) && i != root ==> #[trigger] parent_at(r, i) == parent_at(t, i)
    &&& forall|i: int| 0 <= i <= leaf ==> n <= #[trigger] parent_at(r, i) <= root
    &&& forall|i: int, j: int|
        0 <= i < j <= leaf ==> #[trigger] parent_at(r, i) >= #[trigger] parent_at(r, j)
    &&& forall|i: int| inner <= i < root ==> n <= #[trigger] parent_at(r, i) <= root && i < parent_at(r, i)
    &&& forall|i: int, j: int|
        inner <= i < j < root ==> #[trigger] parent_at(r, i) <= #[trigger] parent_at(r, j)
    &&& forall|i: int|
        open_node(i, leaf, inner, last) ==> weight_at(r, #[trigger] parent_at(r, i)) >= weight_at(r, i) + b
    &&& forall|i: int|
        open_node(i, leaf, inner, last) && parent_at(r, i) != root ==> #[trigger] outweighed(r, i)
    &&& weight_at(r, root) == total
}

#[verifier::rlimit(20)]
pub proof fn lemma_made(t: Seq<NodeElt>, n: int, last: int, leaf: int, inner: int, total: int, a: int, b: int)
    requires
        growing(t, n, last, leaf, inner, total, a, b),
    ensures
        made_ok(t, inner_made(t, n, 255 + last, leaf, inner), n, last, leaf, inner, total, b),
    decreases 256 + last - n,
{
    reveal_with_fuel(inner_made, 1);
    let root = 255 + last;
    let r = inner_made(t, n, root, leaf, inner);
    if n <= root {
        lemma_step(t, n, last, leaf, inner, total, a, b);
        let (n1, leaf1, inner1) = smaller_of(t, leaf, inner);
        let (n2, leaf2, inner2) = smaller_of(t, leaf1, inner1);
        let u = grown(t, n, leaf, inner);
        let x = weight_at(t, n1);
        let y = weight_at(t, n2);
        lemma_made(u, n + 1, last, leaf2, inner2, total, x, y);
        assert(r == inner_made(u, n + 1, root, leaf2, inner2));
        assert(!open_node(n1, leaf2, inner2, last) && !open_node(n2, leaf2, inner2, last));
        assert(n1 != root && n2 != root);
        assert(parent_at(r, n1) == n && parent_at(r, n2) == n);
        assert forall|i: int| open_node(i, leaf, inner, last) implies i == n1 || i == n2 || open_node(
            i,
            leaf2,
            inner2,
            last,
        ) by {}
        assert forall|i: int| #![trigger node_at(r, i)]
            node_at(r, i).byte == node_at(t, i).byte && node_at(r, i).nb_bits == node_at(t, i).nb_bits by {
            assert(node_at(u, i).byte == node_at(t, i).byte);
        }
        assert forall|i: int| i < n implies #[trigger] weight_at(r, i) == weight_at(t, i) by {
            assert(weight_at(r, i) == weight_at(u, i));
        }
        assert(weight_at(r, n) == x + y);
        assert forall|i: int| !open_node(i, leaf, inner, last) && i != root implies #[trigger] parent_at(r, i)
            == parent_at(t, i) by {
            assert(!open_node(i, leaf2, inner2, last));
            assert(parent_at(r, i) == parent_at(u, i));
        }
        assert forall|i: int| open_node(i, leaf, inner, last) implies weight_at(r, #[trigger] parent_at(r, i))
            >= weight_at(r, i) + b by {
            if i != n1 && i != n2 {
                assert(weight_at(r, parent_at(r, i)) >= weight_at(r, i) + y);
            } else {
                assert(weight_at(r, i) == weight_at(t, i));
            }
        }
        assert forall|i: int| open_node(i, leaf, inner, last) && parent_at(r, i) != root implies #[trigger] outweighed(
            r,
            i,
        ) by {
            if i == n1 || i == n2 {
                assert(open_node(n, leaf2, inner2, last));
                assert(weight_at(r, parent_at(r, n)) >= weight_at(r, n) + y);
                assert(weight_at(r, i) == weight_at(t, i));
            }
        }
    } else {
        assert(leaf == -1 && inner == root);
        assert(inner_sum(t, root, root + 1) == weight_at(t, root) + inner_sum(t, root + 1, root + 1));
        assert(leaf_sum(t, 0) == 0);
    }
}

// ---------------------------------------------------------------------------
// The code space.

/// The share of the code space that the first `k` leaves take.
pub open spec fn leaf_shares(t: Seq<NodeElt>, k: nat, deep: nat) -> nat
    decreases k,
{
    if k == 0 {
        0
    } else {
        leaf_shares(t, (k - 1) as nat, deep) + pow2((deep - depth_at(t, k - 1)) as nat)
    }
}

pub open spec fn inner_shares(t: Seq<NodeElt>, a: int, n: int, deep: nat) -> nat
    decreases n - a,
{
    if a < n {
        pow2((deep - depth_at(t, a)) as nat) + inner_shares(t, a + 1, n, deep)
    } else {
        0
    }
}

pub proof fn lemma_inner_shares_last(t: Seq<NodeElt>, a: int, n: int, deep: nat)
    requires
        a <= n,
    ensures
        inner_shares(t, a, n + 1, deep) == inner_shares(t, a, n, deep) + pow2((deep - depth_at(t, n)) as nat),
    decreases n - a,
{
    if a < n {
        lemma_inner_shares_last(t, a + 1, n, deep);
    } else {
        assert(inner_shares(t, n + 1, n + 1, deep) == 0);
    }
}

/// Every node below the root is one deeper than its parent.
pub open spec fn depths_ok(f: Seq<NodeElt>, last: int, deep: nat) -> bool {
    let root = 255 + last;
    &&& depth_at(f, root) == 0
    &&& forall|i: int|
        0 <= i <= last || 256 <= i < root ==> #[trigger] one_deeper(f, i)
    &&& forall|i: int| 0 <= i <= last || 256 <= i <= root ==> #[trigger] depth_at(f, i) <= deep
}

/// At every stage, the nodes that are not joined yet fill the code space.
#[verifier::rlimit(20)]
pub proof fn lemma_filled(
    t: Seq<NodeElt>,
    n: int,
    last: int,
    leaf: int,
    inner: int,
    total: int,
    a: int,
    b: int,
    f: Seq<NodeElt>,
    deep: nat,
)
    requires
        growing(t, n, last, leaf, inner, total, a, b),
        depths_ok(f, last, deep),
        forall|i: int| #[trigger]
            parent_at(f, i) == parent_at(inner_made(t, n, 255 + last, leaf, inner), i),
    ensures
        leaf_shares(f, (leaf + 1) as nat, deep) + inner_shares(f, inner, n, deep) == pow2(deep),
    decreases 256 + last - n,
{
    reveal_with_fuel(inner_made, 1);
    let root = 255 + last;
    if n <= root {
        lemma_step(t, n, last, leaf, inner, total, a, b);
        let (n1, leaf1, inner1) = smaller_of(t, leaf, inner);
        let (n2, leaf2, inner2) = smaller_of(t, leaf1, inner1);
        let u = grown(t, n, leaf, inner);
        let x = weight_at(t, n1);
        let y = weight_at(t, n2);
        let r = inner_made(u, n + 1, root, leaf2, inner2);
        assert(r == inner_made(t, n, root, leaf, inner));
        lemma_made(u, n + 1, last, leaf2, inner2, total, x, y);
        assert(!open_node(n1, leaf2, inner2, last) && !open_node(n2, leaf2, inner2, last));
        assert(parent_at(r, n1) == n && parent_at(r, n2) == n);
        assert(parent_at(f, n1) == n && parent_at(f, n2) == n);
        lemma_filled(u, n + 1, last, leaf2, inner2, total, x, y, f, deep);
        lemma_inner_shares_last(f, inner2, n, deep);
        let d = depth_at(f, n);
        assert(one_deeper(f, n1) && one_deeper(f, n2));
        assert(depth_at(f, n1) == d + 1 && depth_at(f, n2) == d + 1);
        lemma_pow2_unfold((deep - d) as nat);
        let share = pow2((deep - d - 1) as nat);
        assert(pow2((deep - d) as nat) == 2 * share);
        assert(leaf_shares(f, (leaf + 1) as nat, deep) + inner_shares(f, inner, n, deep) == leaf_shares(
            f,
            (leaf1 + 1) as nat,
            deep,
        ) + inner_shares(f, inner1, n, deep) + share);
        assert(leaf_shares(f, (leaf1 + 1) as nat, deep) + inner_shares(f, inner1, n, deep) == leaf_shares(
            f,
            (leaf2 + 1) as nat,
            deep,
        ) + inner_shares(f, inner2, n, deep) + share);
    } else {
        assert(leaf == -1 && inner == root);
        assert(inner_shares(f, root + 1, root + 1, deep) == 0);
        assert(leaf_shares(f, 0, deep) == 0);
    }
}

} // verus!
