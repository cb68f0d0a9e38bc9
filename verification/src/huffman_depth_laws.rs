//! The depths of a tree: rarer leaves are no higher, and the height is bounded
//! by the sum of the counts.

use crate::huffman_made_laws::{
    depths_ok, inner_shares, leaf_shares, lemma_filled, lemma_made, made_ok, one_deeper, open_node, outweighed,
};
use crate::huffman_shape_laws::{
    depth_at, growing, inner_sum, leaf_sum, lemma_leaf_sum_positive, lemma_sums_same, parent_at, weight_at,
};
use crate::huffman_sort_laws::descending;
use crate::huffman_tree::NodeElt;
use crate::huffman_tree_model::{
    deepened, inner_deepened, inner_made, inner_opened, leaves_deepened, node_at, tree_built, with_bits, with_count,
    with_parent,
};
use vstd::arithmetic::power2::{lemma_pow2_adds, lemma_pow2_pos, lemma_pow2_unfold, pow2};
use vstd::prelude::*;

verus! {

// ---------------------------------------------------------------------------
// Depths.

/// The same nodes but for their depths.
pub open spec fn same_but_depth(t: Seq<NodeElt>, u: Seq<NodeElt>) -> bool {
    &&& u.len() == t.len()
    &&& forall|i: int|
        (#[trigger] node_at(u, i)).count == node_at(t, i).count && node_at(u, i).parent == node_at(t, i).parent
            && node_at(u, i).byte == node_at(t, i).byte
}

pub proof fn lemma_inner_deepened(t: Seq<NodeElt>, n: int, root: int)
    requires
        t.len() == 513,
        255 <= n < root <= 511,
        forall|i: int| 256 <= i < root ==> i < #[trigger] parent_at(t, i) <= root,
        depth_at(t, root) == 0,
        forall|i: int| n < i < root ==> #[trigger] one_deeper(t, i),
        forall|i: int| n < i <= root ==> #[trigger] depth_at(t, i) <= root - i,
    ensures
        ({
            let u = inner_deepened(t, n);
            &&& same_but_depth(t, u)
            &&& depth_at(u, root) == 0
            &&& forall|i: int| 256 <= i < root ==> #[trigger] one_deeper(u, i)
            &&& forall|i: int| 256 <= i <= root ==> #[trigger] depth_at(u, i) <= root - i
        }),
    decreases n - 255,
{
    reveal_with_fuel(inner_deepened, 1);
    if n >= 256 {
        let next = deepened(t, n);
        let p = parent_at(t, n);
        assert(depth_at(t, p) <= root - p);
        assert forall|i: int| i != n implies #[trigger] depth_at(next, i) == depth_at(t, i) by {}
        assert(depth_at(next, n) == depth_at(t, p) + 1);
        assert forall|i: int| n - 1 < i < root implies #[trigger] one_deeper(next, i) by {
            assert(parent_at(next, i) == parent_at(t, i));
            assert(i < parent_at(t, i));
            if i > n {
                assert(one_deeper(t, i));
            }
        }
        assert forall|i: int| 256 <= i < root implies i < #[trigger] parent_at(next, i) <= root by {
            assert(parent_at(next, i) == parent_at(t, i));
        }
        lemma_inner_deepened(next, n - 1, root);
        let u = inner_deepened(next, n - 1);
        assert forall|i: int| #![trigger node_at(u, i)]
            node_at(u, i).count == node_at(t, i).count && node_at(u, i).parent == node_at(t, i).parent && node_at(
                u,
                i,
            ).byte == node_at(t, i).byte by {
            assert(node_at(u, i).count == node_at(next, i).count);
        }
    }
}

pub proof fn lemma_leaves_deepened(t: Seq<NodeElt>, n: int, last: int)
    requires
        t.len() == 513,
        0 <= n <= last + 1,
        1 <= last <= 255,
        forall|i: int| 0 <= i <= last ==> 256 <= #[trigger] parent_at(t, i) <= 255 + last,
        forall|i: int| 256 <= i <= 255 + last ==> #[trigger] depth_at(t, i) <= 255 + last - i,
        forall|i: int| 0 <= i < n ==> #[trigger] one_deeper(t, i),
    ensures
        ({
            let u = leaves_deepened(t, n, last);
            &&& same_but_depth(t, u)
            &&& forall|i: int| i < 0 || i > last ==> #[trigger] depth_at(u, i) == depth_at(t, i)
            &&& forall|i: int| 0 <= i <= last ==> #[trigger] one_deeper(u, i)
        }),
    decreases last + 1 - n,
{
    reveal_with_fuel(leaves_deepened, 1);
    if n <= last {
        let next = deepened(t, n);
        let p = parent_at(t, n);
        assert(depth_at(t, p) <= 255 + last - p);
        assert forall|i: int| i != n implies #[trigger] depth_at(next, i) == depth_at(t, i) by {}
        assert forall|i: int| 0 <= i <= last implies 256 <= #[trigger] parent_at(next, i) <= 255 + last by {
            assert(parent_at(next, i) == parent_at(t, i));
        }
        assert forall|i: int| 0 <= i < n + 1 implies #[trigger] one_deeper(next, i) by {
            assert(parent_at(next, i) == parent_at(t, i));
            assert(256 <= parent_at(t, i) <= 255 + last);
            if i < n {
                assert(one_deeper(t, i));
            }
        }
        lemma_leaves_deepened(next, n + 1, last);
        let u = leaves_deepened(next, n + 1, last);
        assert forall|i: int| #![trigger node_at(u, i)]
            node_at(u, i).count == node_at(t, i).count && node_at(u, i).parent == node_at(t, i).parent && node_at(
                u,
                i,
            ).byte == node_at(t, i).byte by {
            assert(node_at(u, i).count == node_at(next, i).count);
        }
    }
}

pub proof fn lemma_opened(t: Seq<NodeElt>, n: int, root: int)
    requires
        t.len() == 513,
        0 <= n,
        root <= 511,
    ensures
        ({
            let u = inner_opened(t, n, root);
            &&& u.len() == 513
            &&& forall|i: int| n <= i <= root ==> #[trigger] weight_at(u, i) == 0x4000_0000
            &&& forall|i: int| (i < n || i > root) ==> #[trigger] node_at(u, i) == node_at(t, i)
            &&& forall|i: int|
                (#[trigger] node_at(u, i)).parent == node_at(t, i).parent && node_at(u, i).byte == node_at(t, i).byte
        }),
    decreases root + 1 - n,
{
    reveal_with_fuel(inner_opened, 1);
    if n <= root {
        let next = with_count(t, n, 0x4000_0000);
        lemma_opened(next, n + 1, root);
        let u = inner_opened(next, n + 1, root);
        assert forall|i: int| n <= i <= root implies #[trigger] weight_at(u, i) == 0x4000_0000 by {
            if i == n {
                assert(node_at(u, n) == node_at(next, n));
            }
        }
        assert forall|i: int| (i < n || i > root) implies #[trigger] node_at(u, i) == node_at(t, i) by {
            assert(node_at(u, i) == node_at(next, i));
        }
        assert forall|i: int| #![trigger node_at(u, i)]
            node_at(u, i).parent == node_at(t, i).parent && node_at(u, i).byte == node_at(t, i).byte by {
            assert(node_at(u, i).parent == node_at(next, i).parent);
        }
    }
}

/// The height of a tree in which every node outweighs the one two below it by
/// the one between: at least this, where the lowest two weigh `a` and `b`.
pub open spec fn least_weight(height: nat, a: int, b: int) -> int
    decreases height,
{
    if height <= 1 {
        b
    } else {
        least_weight((height - 1) as nat, b, a + b)
    }
}

pub proof fn lemma_least_weight_rises(height: nat, a: int, b: int)
    requires
        1 <= a <= b,
    ensures
        least_weight(height, a, b) <= least_weight(height + 1, a, b),
    decreases height,
{
    reveal_with_fuel(least_weight, 2);
    if height > 1 {
        lemma_least_weight_rises((height - 1) as nat, b, a + b);
    }
}

pub proof fn lemma_least_weight_above(h: nat, height: nat, a: int, b: int)
    requires
        1 <= a <= b,
        h <= height,
    ensures
        least_weight(h, a, b) <= least_weight(height, a, b),
    decreases height - h,
{
    if h < height {
        lemma_least_weight_above(h, (height - 1) as nat, a, b);
        lemma_least_weight_rises((height - 1) as nat, a, b);
    }
}

pub proof fn lemma_least_weight_value()
    ensures
        least_weight(36, 1, 2) > 0x200_0000,
{
    assert(least_weight(36, 1, 2) == least_weight(35, 2, 3));
    assert(least_weight(35, 2, 3) == least_weight(34, 3, 5));
    assert(least_weight(34, 3, 5) == least_weight(33, 5, 8));
    assert(least_weight(33, 5, 8) == least_weight(32, 8, 13));
    assert(least_weight(32, 8, 13) == least_weight(31, 13, 21));
    assert(least_weight(31, 13, 21) == least_weight(30, 21, 34));
    assert(least_weight(30, 21, 34) == least_weight(29, 34, 55));
    assert(least_weight(29, 34, 55) == least_weight(28, 55, 89));
    assert(least_weight(28, 55, 89) == least_weight(27, 89, 144));
    assert(least_weight(27, 89, 144) == least_weight(26, 144, 233));
    assert(least_weight(26, 144, 233) == least_weight(25, 233, 377));
    assert(least_weight(25, 233, 377) == least_weight(24, 377, 610));
    assert(least_weight(24, 377, 610) == least_weight(23, 610, 987));
    assert(least_weight(23, 610, 987) == least_weight(22, 987, 1597));
    assert(least_weight(22, 987, 1597) == least_weight(21, 1597, 2584));
    assert(least_weight(21, 1597, 2584) == least_weight(20, 2584, 4181));
    assert(least_weight(20, 2584, 4181) == least_weight(19, 4181, 6765));
    assert(least_weight(19, 4181, 6765) == least_weight(18, 6765, 10946));
    assert(least_weight(18, 6765, 10946) == least_weight(17, 10946, 17711));
    assert(least_weight(17, 10946, 17711) == least_weight(16, 17711, 28657));
    assert(least_weight(16, 17711, 28657) == least_weight(15, 28657, 46368));
    assert(least_weight(15, 28657, 46368) == least_weight(14, 46368, 75025));
    assert(least_weight(14, 46368, 75025) == least_weight(13, 75025, 121393));
    assert(least_weight(13, 75025, 121393) == least_weight(12, 121393, 196418));
    assert(least_weight(12, 121393, 196418) == least_weight(11, 196418, 317811));
    assert(least_weight(11, 196418, 317811) == least_weight(10, 317811, 514229));
    assert(least_weight(10, 317811, 514229) == least_weight(9, 514229, 832040));
    assert(least_weight(9, 514229, 832040) == least_weight(8, 832040, 1346269));
    assert(least_weight(8, 832040, 1346269) == least_weight(7, 1346269, 2178309));
    assert(least_weight(7, 1346269, 2178309) == least_weight(6, 2178309, 3524578));
    assert(least_weight(6, 2178309, 3524578) == least_weight(5, 3524578, 5702887));
    assert(least_weight(5, 3524578, 5702887) == least_weight(4, 5702887, 9227465));
    assert(least_weight(4, 5702887, 9227465) == least_weight(3, 9227465, 14930352));
    assert(least_weight(3, 9227465, 14930352) == least_weight(2, 14930352, 24157817));
    assert(least_weight(2, 14930352, 24157817) == least_weight(1, 24157817, 39088169));
}

/// The weights on the way from a node to the root.
pub proof fn lemma_weights_up(f: Seq<NodeElt>, last: int, deep: nat, i: int, a: int, b: int)
    requires
        depths_ok(f, last, deep),
        0 <= i <= last || 256 <= i < 255 + last,
        forall|j: int| 256 <= j < 255 + last ==> 256 <= #[trigger] parent_at(f, j) <= 255 + last,
        0 <= i <= last ==> 256 <= parent_at(f, i) <= 255 + last,
        forall|j: int|
            (0 <= j <= last || 256 <= j < 255 + last) && parent_at(f, j) != 255 + last ==> #[trigger] outweighed(f, j),
        weight_at(f, i) >= a,
        weight_at(f, parent_at(f, i)) >= b,
    ensures
        weight_at(f, 255 + last) >= least_weight(depth_at(f, i), a, b),
    decreases depth_at(f, i),
{
    let p = parent_at(f, i);
    assert(one_deeper(f, i));
    if p != 255 + last {
        assert(one_deeper(f, p));
        assert(outweighed(f, i));
        lemma_weights_up(f, last, deep, p, b, a + b);
    }
}

/// Inner nodes that come later are no deeper.
pub proof fn lemma_depth_falls(f: Seq<NodeElt>, last: int, deep: nat, i: int, j: int)
    requires
        depths_ok(f, last, deep),
        256 <= i <= j <= 255 + last,
        forall|k: int| 256 <= k < 255 + last ==> k < #[trigger] parent_at(f, k) <= 255 + last,
        forall|k: int, m: int|
            256 <= k < m < 255 + last ==> #[trigger] parent_at(f, k) <= #[trigger] parent_at(f, m),
    ensures
        depth_at(f, i) >= depth_at(f, j),
    decreases 256 + last - i,
{
    if i < j && j < 255 + last {
        let p = parent_at(f, i);
        let q = parent_at(f, j);
        assert(p <= q);
        lemma_depth_falls(f, last, deep, p, q);
        assert(one_deeper(f, i));
        assert(one_deeper(f, j));
    }
}

/// Shares in finer units are so many times as many.
pub proof fn lemma_shares_scaled(f: Seq<NodeElt>, k: nat, deep: nat, more: nat)
    requires
        forall|i: int| 0 <= i < k ==> #[trigger] depth_at(f, i) <= deep,
    ensures
        leaf_shares(f, k, deep + more) == pow2(more) * leaf_shares(f, k, deep),
    decreases k,
{
    if k > 0 {
        lemma_shares_scaled(f, (k - 1) as nat, deep, more);
        let d = depth_at(f, k - 1);
        lemma_pow2_adds(more, (deep - d) as nat);
        let p = pow2(more) as int;
        let x = leaf_shares(f, (k - 1) as nat, deep) as int;
        let y = pow2((deep - d) as nat) as int;
        assert(p * (x + y) == p * x + p * y) by (nonlinear_arith);
    } else {
        assert(pow2(more) * 0 == 0) by (nonlinear_arith);
    }
}

/// The leaves of a finished tree: the code space is filled, deeper leaves come
/// last, and the height is that of a tree over so many leaves and counts.
pub open spec fn tree_ok(s: Seq<NodeElt>, f: Seq<NodeElt>, last: int) -> bool {
    &&& f.len() == 513
    &&& forall|i: int|
        0 <= i <= last ==> (#[trigger] node_at(f, i)).byte == node_at(s, i).byte && node_at(f, i).count == node_at(
            s,
            i,
        ).count
    &&& forall|i: int| 0 <= i <= last ==> 1 <= #[trigger] depth_at(f, i) <= last
    &&& forall|i: int, j: int| 0 <= i <= j <= last ==> #[trigger] depth_at(f, i) <= #[trigger] depth_at(f, j)
    &&& leaf_shares(f, (last + 1) as nat, depth_at(f, last)) == pow2(depth_at(f, last))
    &&& leaf_sum(s, (last + 1) as nat) <= 0x200_0000 ==> depth_at(f, last) <= 35
}

#[verifier::rlimit(20)]
pub proof fn lemma_tree_built(s: Seq<NodeElt>, last: int)
    requires
        s.len() == 513,
        1 <= last <= 255,
        descending(s, 0, last),
        forall|i: int| 0 <= i <= last ==> #[trigger] weight_at(s, i) >= 1,
        leaf_sum(s, (last + 1) as nat) < 0x4000_0000,
    ensures
        tree_ok(s, tree_built(s, last), last),
{
    reveal(tree_built);
    let root = 255 + last;
    let total = leaf_sum(s, (last + 1) as nat);
    let a = weight_at(s, last);
    let b = weight_at(s, last - 1);
    assert(node_at(s, last - 1).count >= node_at(s, last).count);
    assert(leaf_sum(s, last as nat) == leaf_sum(s, (last - 1) as nat) + b);
    lemma_leaf_sum_positive(s, (last - 1) as nat);
    let first = node_at(s, last).count.wrapping_add(node_at(s, last - 1).count);
    assert(first == a + b);
    let t1 = with_parent(with_parent(with_count(s, 256, first), last, 256), last - 1, 256);
    lemma_opened(t1, 257, root);
    let t2 = with_count(inner_opened(t1, 257, root), -1, 0x8000_0000);
    assert forall|i: int| 0 <= i <= last implies #[trigger] weight_at(t2, i) == weight_at(s, i) && node_at(
        t2,
        i,
    ).byte == node_at(s, i).byte by {
        assert(node_at(inner_opened(t1, 257, root), i) == node_at(t1, i));
    }
    assert(node_at(inner_opened(t1, 257, root), 256) == node_at(t1, 256));
    assert(weight_at(t2, 256) == a + b);
    assert(weight_at(t2, -1) == 0x8000_0000);
    assert forall|i: int| 257 <= i <= root implies #[trigger] weight_at(t2, i) == 0x4000_0000 by {
        assert(weight_at(inner_opened(t1, 257, root), i) == 0x4000_0000);
    }
    assert(node_at(inner_opened(t1, 257, root), last) == node_at(t1, last));
    assert(node_at(inner_opened(t1, 257, root), last - 1) == node_at(t1, last - 1));
    assert(parent_at(t2, last) == 256 && parent_at(t2, last - 1) == 256);
    assert(growing(t2, 257, last, last - 2, 256, total, a, b)) by {
        assert(descending(t2, 0, last)) by {
            assert forall|p: int, q: int| 0 <= p <= q <= last implies (#[trigger] node_at(t2, p)).count >= (
            #[trigger] node_at(t2, q)).count by {
                assert(weight_at(t2, p) == weight_at(s, p));
                assert(weight_at(t2, q) == weight_at(s, q));
                assert(node_at(s, p).count >= node_at(s, q).count);
            }
        }
        lemma_sums_same(s, t2, (last - 1) as nat, 0, 0);
        assert(inner_sum(t2, 257, 257) == 0);
        assert(inner_sum(t2, 256, 257) == a + b);
        assert forall|i: int| 0 <= i <= last - 2 implies #[trigger] weight_at(t2, i) >= b by {
            assert(node_at(s, i).count >= node_at(s, last - 1).count);
        }
    }
    lemma_made(t2, 257, last, last - 2, 256, total, a, b);
    let t3 = inner_made(t2, 257, root, last - 2, 256);
    assert(parent_at(t3, last) == 256 && parent_at(t3, last - 1) == 256);
    let t4 = with_bits(t3, root, 0);
    assert forall|i: int| #![trigger node_at(t4, i)]
        node_at(t4, i).count == node_at(t3, i).count && node_at(t4, i).parent == node_at(t3, i).parent && node_at(
            t4,
            i,
        ).byte == node_at(t3, i).byte by {}
    assert forall|i: int| 256 <= i < root implies i < #[trigger] parent_at(t4, i) <= root by {
        assert(parent_at(t4, i) == parent_at(t3, i));
    }
    assert(depth_at(t4, root) == 0);
    lemma_inner_deepened(t4, root - 1, root);
    let t5 = inner_deepened(t4, root - 1);
    assert forall|i: int| 0 <= i <= last implies 256 <= #[trigger] parent_at(t5, i) <= root by {
        assert(node_at(t5, i).parent == node_at(t4, i).parent);
        assert(parent_at(t5, i) == parent_at(t3, i));
    }
    lemma_leaves_deepened(t5, 0, last);
    let f = leaves_deepened(t5, 0, last);
    assert(f == tree_built(s, last));
    assert forall|i: int| #![trigger parent_at(f, i)]
        parent_at(f, i) == parent_at(t3, i) && weight_at(f, i) == weight_at(t3, i) by {
        assert(node_at(f, i).parent == node_at(t5, i).parent);
        assert(node_at(t5, i).parent == node_at(t4, i).parent);
        assert(node_at(t4, i).parent == node_at(t3, i).parent);
    }
    assert forall|i: int| 256 <= i <= root implies #[trigger] depth_at(f, i) == depth_at(t5, i) by {}
    assert(depths_ok(f, last, 255)) by {
        assert(depth_at(f, root) == 0);
        assert forall|i: int| 0 <= i <= last || 256 <= i < root implies #[trigger] one_deeper(f, i) by {
            if i >= 256 {
                assert(parent_at(f, i) == parent_at(t5, i)) by {
                    assert(node_at(f, i).parent == node_at(t5, i).parent);
                }
                assert(one_deeper(t5, i));
                assert(i < parent_at(t4, i) <= root);
                assert(node_at(t5, i).parent == node_at(t4, i).parent);
            }
        }
    }
    assert forall|i: int| 0 <= i <= last implies 1 <= #[trigger] depth_at(f, i) <= last by {
        let p = parent_at(f, i);
        assert(256 <= p <= root) by {
            assert(256 <= parent_at(t5, i) <= root);
            assert(node_at(f, i).parent == node_at(t5, i).parent);
        }
        assert(one_deeper(f, i));
        assert(depth_at(f, p) == depth_at(t5, p));
        assert(depth_at(t5, p) <= root - p);
    }
    assert forall|k: int| 256 <= k < root implies k < #[trigger] parent_at(f, k) <= root by {
        assert(parent_at(f, k) == parent_at(t3, k));
    }
    assert forall|k: int, m: int| 256 <= k < m < root implies #[trigger] parent_at(f, k) <= #[trigger] parent_at(
        f,
        m,
    ) by {
        assert(parent_at(f, k) == parent_at(t3, k) && parent_at(f, m) == parent_at(t3, m));
    }
    assert forall|i: int, j: int| 0 <= i <= j <= last implies #[trigger] depth_at(f, i) <= #[trigger] depth_at(
        f,
        j,
    ) by {
        let p = parent_at(f, i);
        let q = parent_at(f, j);
        assert(p == parent_at(t3, i) && q == parent_at(t3, j));
        if i < j {
            if j <= last - 2 {
                assert(parent_at(t3, i) >= parent_at(t3, j));
            }
            assert(q <= p);
        }
        assert(256 <= q <= p <= root) by {
            assert(256 <= parent_at(t5, i) <= root);
            assert(256 <= parent_at(t5, j) <= root);
            assert(node_at(f, i).parent == node_at(t5, i).parent);
            assert(node_at(f, j).parent == node_at(t5, j).parent);
        }
        lemma_depth_falls(f, last, 255, q, p);
        assert(one_deeper(f, i) && one_deeper(f, j));
    }
    lemma_filled(t2, 257, last, last - 2, 256, total, a, b, f, 255);
    lemma_whole_filled(f, last);
    lemma_shares_scaled(f, (last + 1) as nat, depth_at(f, last), (255 - depth_at(f, last)) as nat);
    lemma_unscaled(f, last);
    if total <= 0x200_0000 && depth_at(f, last) > 35 {
        assert(weight_at(f, last) == weight_at(t3, last)) by {
            assert(parent_at(f, last) == 256);
        }
        assert(weight_at(f, 256) == weight_at(t3, 256)) by {
            let p = parent_at(f, 256);
        }
        lemma_weights(f, t2, t3, last, total, b);
        lemma_weights_up(f, last, 255, last, 1, 2);
        lemma_least_weight_above(36, depth_at(f, last), 1, 2);
        lemma_least_weight_value();
        assert(weight_at(f, root) == total) by {
            let p = parent_at(f, root);
        }
    }
    assert forall|i: int| 0 <= i <= last implies (#[trigger] node_at(f, i)).byte == node_at(s, i).byte && node_at(
        f,
        i,
    ).count == node_at(s, i).count by {
        assert(node_at(f, i).byte == node_at(t5, i).byte);
        assert(node_at(t5, i).byte == node_at(t4, i).byte);
        assert(node_at(t4, i).byte == node_at(t3, i).byte);
        assert(node_at(t3, i).byte == node_at(t2, i).byte);
        assert(weight_at(t3, i) == weight_at(t2, i));
        assert(weight_at(t2, i) == weight_at(s, i));
    }
}

/// The last two leaves share the first inner node.
pub proof fn lemma_whole_filled(f: Seq<NodeElt>, last: int)
    requires
        1 <= last <= 255,
        depths_ok(f, last, 255),
        parent_at(f, last) == 256,
        parent_at(f, last - 1) == 256,
        leaf_shares(f, (last - 1) as nat, 255) + inner_shares(f, 256, 257, 255) == pow2(255),
    ensures
        leaf_shares(f, (last + 1) as nat, 255) == pow2(255),
{
    let d = depth_at(f, 256);
    assert(one_deeper(f, last) && one_deeper(f, last - 1));
    assert(depth_at(f, last) == d + 1);
    assert(depth_at(f, last - 1) == d + 1);
    assert(inner_shares(f, 257, 257, 255) == 0);
    assert(inner_shares(f, 256, 257, 255) == pow2((255 - d) as nat));
    lemma_pow2_unfold((255 - d) as nat);
    assert(leaf_shares(f, (last + 1) as nat, 255) == leaf_shares(f, last as nat, 255) + pow2(
        (255 - (d + 1)) as nat,
    ));
    assert(leaf_shares(f, last as nat, 255) == leaf_shares(f, (last - 1) as nat, 255) + pow2(
        (255 - (d + 1)) as nat,
    ));
}

pub proof fn lemma_unscaled(f: Seq<NodeElt>, last: int)
    requires
        depth_at(f, last) <= 255,
        leaf_shares(f, (last + 1) as nat, 255) == pow2(255),
        leaf_shares(f, (last + 1) as nat, 255) == pow2((255 - depth_at(f, last)) as nat) * leaf_shares(
            f,
            (last + 1) as nat,
            depth_at(f, last),
        ),
    ensures
        leaf_shares(f, (last + 1) as nat, depth_at(f, last)) == pow2(depth_at(f, last)),
{
    let d = depth_at(f, last);
    let p = pow2((255 - d) as nat) as int;
    let x = leaf_shares(f, (last + 1) as nat, d) as int;
    let y = pow2(d) as int;
    lemma_pow2_adds((255 - d) as nat, d);
    lemma_pow2_pos((255 - d) as nat);
    assert(x == y) by (nonlinear_arith)
        requires
            p * x == p * y,
            p > 0,
    ;
}

/// What is needed to bound the height.
pub proof fn lemma_weights(f: Seq<NodeElt>, t2: Seq<NodeElt>, t3: Seq<NodeElt>, last: int, total: int, b: int)
    requires
        1 <= last <= 255,
        made_ok(t2, t3, 257, last, last - 2, 256, total, b),
        b >= 1,
        forall|i: int| #![trigger parent_at(f, i)]
            parent_at(f, i) == parent_at(t3, i) && weight_at(f, i) == weight_at(t3, i),
        forall|i: int| 0 <= i <= last ==> #[trigger] weight_at(t2, i) >= 1,
        parent_at(t3, last) == 256,
        parent_at(t3, last - 1) == 256,
        weight_at(t2, 256) == weight_at(t2, last) + weight_at(t2, last - 1),
        weight_at(t2, last - 1) == b,
        weight_at(t2, last) <= b,
    ensures
        weight_at(f, last) >= 1,
        weight_at(f, parent_at(f, last)) >= 2,
        forall|j: int| 256 <= j < 255 + last ==> 256 <= #[trigger] parent_at(f, j) <= 255 + last,
        forall|j: int|
            (0 <= j <= last || 256 <= j < 255 + last) && parent_at(f, j) != 255 + last ==> #[trigger] outweighed(f, j),
{
    let root = 255 + last;
    assert(weight_at(t3, 256) == weight_at(t2, 256));
    assert(weight_at(t3, last) == weight_at(t2, last));
    assert(weight_at(t3, last - 1) == weight_at(t2, last - 1));
    assert(parent_at(f, last) == 256);
    assert(weight_at(f, 256) == weight_at(t3, 256)) by {
        let p = parent_at(f, 256);
    }
    assert forall|j: int| 256 <= j < root implies 256 <= #[trigger] parent_at(f, j) <= root by {
        assert(parent_at(f, j) == parent_at(t3, j));
    }
    assert forall|j: int| (0 <= j <= last || 256 <= j < root) && parent_at(f, j) != root implies #[trigger] outweighed(
        f,
        j,
    ) by {
        let p = parent_at(f, j);
        assert(p == parent_at(t3, j));
        let g = parent_at(f, p);
        assert(g == parent_at(t3, p) && weight_at(f, p) == weight_at(t3, p));
        assert(parent_at(f, g) == parent_at(t3, g) && weight_at(f, g) == weight_at(t3, g));
        if j == last || j == last - 1 {
            assert(p == 256);
            assert(open_node(256, last - 2, 256, last));
            assert(weight_at(t3, parent_at(t3, 256)) >= weight_at(t3, 256) + b);
        } else {
            assert(open_node(j, last - 2, 256, last));
            assert(outweighed(t3, j));
        }
    }
}

} // verus!
