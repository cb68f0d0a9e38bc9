//! How code lengths come from a histogram, step by step.

use crate::bits::highest_bit;
use crate::huffman_tree::{spec_huf_index, NodeElt};
use vstd::arithmetic::power2::pow2;
use vstd::prelude::*;

verus! {

/// An empty node.
pub open spec fn no_node() -> NodeElt {
    NodeElt { count: 0, parent: 0, byte: 0, nb_bits: 0 }
}

/// The node `i`; index -1 is the barrier, and there is none outside the tree.
pub open spec fn node_at(t: Seq<NodeElt>, i: int) -> NodeElt {
    if -1 <= i < 512 {
        t[i + 1]
    } else {
        no_node()
    }
}

pub open spec fn node_set(t: Seq<NodeElt>, i: int, v: NodeElt) -> Seq<NodeElt> {
    if -1 <= i < 512 {
        t.update(i + 1, v)
    } else {
        t
    }
}

pub open spec fn with_count(t: Seq<NodeElt>, i: int, count: u32) -> Seq<NodeElt> {
    node_set(t, i, NodeElt { count, ..node_at(t, i) })
}

pub open spec fn with_bits(t: Seq<NodeElt>, i: int, nb_bits: u8) -> Seq<NodeElt> {
    node_set(t, i, NodeElt { nb_bits, ..node_at(t, i) })
}

pub open spec fn with_parent(t: Seq<NodeElt>, i: int, parent: u16) -> Seq<NodeElt> {
    node_set(t, i, NodeElt { parent, ..node_at(t, i) })
}

// ---------------------------------------------------------------------------
// Sorting.

/// The symbols from `n` up to `to` counted in their buckets.
#[verifier::opaque]
pub open spec fn bucketed(count: Seq<u32>, n: nat, to: nat, base: Seq<u32>) -> Seq<u32>
    decreases to - n,
{
    if n < to {
        let b = spec_huf_index(count[n as int] as nat) as int;
        bucketed(count, n + 1, to, base.update(b, (base[b] + 1) as u32))
    } else {
        base
    }
}

/// Where each bucket starts: below it lie those of larger counts.
#[verifier::opaque]
pub open spec fn starts_summed(base: Seq<u32>, curr: Seq<u32>, m: nat) -> (Seq<u32>, Seq<u32>)
    decreases m,
{
    if m > 0 {
        let b = (base[m - 1] + base[m as int]) as u32;
        starts_summed(base.update(m - 1, b), curr.update(m - 1, b), (m - 1) as nat)
    } else {
        (base, curr)
    }
}

/// The symbols from `n` up to `to` put into their buckets.
#[verifier::opaque]
pub open spec fn leaves_placed(count: Seq<u32>, n: nat, to: nat, curr: Seq<u32>, t: Seq<NodeElt>) -> (
    Seq<u32>,
    Seq<NodeElt>,
)
    decreases to - n,
{
    if n < to {
        let c = count[n as int];
        let r = spec_huf_index(c as nat) as int + 1;
        leaves_placed(
            count,
            n + 1,
            to,
            curr.update(r, (curr[r] + 1) as u32),
            node_set(
                t,
                curr[r] as int,
                NodeElt { count: c, byte: n as u8, parent: 0, nb_bits: 0 },
            ),
        )
    } else {
        (curr, t)
    }
}

/// Nodes below `key` moved up by one, from `j` down to `low`: the tree, and
/// where that ends.
#[verifier::opaque]
pub open spec fn moved_up(t: Seq<NodeElt>, low: int, j: int, key: NodeElt) -> (Seq<NodeElt>, int)
    decreases j - low + 1,
{
    if j >= low && node_at(t, j).count < key.count {
        moved_up(node_set(t, j + 1, node_at(t, j)), low, j - 1, key)
    } else {
        (t, j)
    }
}

/// The nodes from `i` to `high` inserted among those from `low` on.
#[verifier::opaque]
pub open spec fn inserted_from(t: Seq<NodeElt>, low: int, i: int, high: int) -> Seq<NodeElt>
    decreases high + 1 - i,
{
    if i <= high {
        let key = node_at(t, i);
        let (t1, j) = moved_up(t, low, i - 1, key);
        inserted_from(node_set(t1, j + 1, key), low, i + 1, high)
    } else {
        t
    }
}

/// The nodes from `j` up to `high` partitioned: those above the pivot go next
/// after `i`.
#[verifier::opaque]
pub open spec fn partitioned(t: Seq<NodeElt>, i: int, j: int, high: int, pivot: u32) -> (Seq<NodeElt>, int)
    decreases high - j,
{
    if j < high {
        let b = node_at(t, j);
        if b.count > pivot {
            partitioned(
                node_set(node_set(t, i + 1, b), j, node_at(t, i + 1)),
                i + 1,
                j + 1,
                high,
                pivot,
            )
        } else {
            partitioned(t, i, j + 1, high, pivot)
        }
    } else {
        (t, i)
    }
}

/// The nodes from `low` to `high` sorted, larger counts first. The shorter part
/// is sorted first.
#[verifier::opaque]
pub open spec fn nodes_sorted(t: Seq<NodeElt>, low: int, high: int) -> Seq<NodeElt>
    decreases high - low + 1,
{
    if high - low >= 8 {
        let (t1, i) = partitioned(t, low - 1, low, high, node_at(t, high).count);
        let at = i + 1;
        let t2 = node_set(node_set(t1, at, node_at(t1, high)), high, node_at(t1, at));
        if !(low <= at <= high) {
            t2
        } else if at - low < high - at {
            nodes_sorted(nodes_sorted(t2, low, at - 1), at + 1, high)
        } else {
            nodes_sorted(nodes_sorted(t2, at + 1, high), low, at - 1)
        }
    } else if low <= high {
        inserted_from(t, low, low + 1, high)
    } else {
        t
    }
}

/// The buckets from `n` on that hold several counts sorted.
#[verifier::opaque]
pub open spec fn buckets_sorted(base: Seq<u32>, curr: Seq<u32>, t: Seq<NodeElt>, n: nat) -> Seq<NodeElt>
    decreases 191 - n,
{
    if n < 191 {
        let start = base[n as int] as int;
        let size = curr[n as int] - start;
        buckets_sorted(
            base,
            curr,
            if size > 1 && start + size <= 512 {
                nodes_sorted(t, start, start + size - 1)
            } else {
                t
            },
            n + 1,
        )
    } else {
        t
    }
}

/// The symbols sorted by count, larger ones first.
#[verifier::opaque]
pub open spec fn leaves_sorted(count: Seq<u32>, max_symbol: nat) -> Seq<NodeElt> {
    let zeros = Seq::new(192, |i: int| 0u32);
    let (base, curr) = starts_summed(bucketed(count, 0, max_symbol + 1, zeros), zeros, 191);
    let (curr1, t) = leaves_placed(
        count,
        0,
        max_symbol + 1,
        curr,
        Seq::new(513, |i: int| no_node()),
    );
    buckets_sorted(base, curr1, t, 165)
}

// ---------------------------------------------------------------------------
// The tree.

/// The last leaf from `n` down that is counted.
#[verifier::opaque]
pub open spec fn last_leaf(t: Seq<NodeElt>, n: int) -> int
    decreases n,
{
    if n > 0 && node_at(t, n).count == 0 {
        last_leaf(t, n - 1)
    } else {
        n
    }
}

/// The inner nodes from `n` to `root` opened.
#[verifier::opaque]
pub open spec fn inner_opened(t: Seq<NodeElt>, n: int, root: int) -> Seq<NodeElt>
    decreases root + 1 - n,
{
    if n <= root {
        inner_opened(with_count(t, n, 0x4000_0000), n + 1, root)
    } else {
        t
    }
}

/// The smaller of the next leaf and the next inner node, and the two that are
/// next after it.
pub open spec fn smaller_of(t: Seq<NodeElt>, leaf: int, inner: int) -> (int, int, int) {
    if node_at(t, leaf).count < node_at(t, inner).count {
        (leaf, leaf - 1, inner)
    } else {
        (inner, leaf, inner + 1)
    }
}

/// The inner nodes from `n` to `root` made, each of the two smallest.
#[verifier::opaque]
pub open spec fn inner_made(t: Seq<NodeElt>, n: int, root: int, leaf: int, inner: int) -> Seq<NodeElt>
    decreases root + 1 - n,
{
    if n <= root {
        let (n1, leaf1, inner1) = smaller_of(t, leaf, inner);
        let (n2, leaf2, inner2) = smaller_of(t, leaf1, inner1);
        let c = node_at(t, n1).count.wrapping_add(node_at(t, n2).count);
        inner_made(
            with_parent(with_parent(with_count(t, n, c), n1, n as u16), n2, n as u16),
            n + 1,
            root,
            leaf2,
            inner2,
        )
    } else {
        t
    }
}

/// One bit more than the parent.
pub open spec fn deepened(t: Seq<NodeElt>, n: int) -> Seq<NodeElt> {
    with_bits(t, n, node_at(t, node_at(t, n).parent as int).nb_bits.wrapping_add(1))
}

/// The depths of the inner nodes, from `n` down.
#[verifier::opaque]
pub open spec fn inner_deepened(t: Seq<NodeElt>, n: int) -> Seq<NodeElt>
    decreases n - 255,
{
    if n >= 256 {
        inner_deepened(deepened(t, n), n - 1)
    } else {
        t
    }
}

/// The depths of the leaves from `n` to `last`.
#[verifier::opaque]
pub open spec fn leaves_deepened(t: Seq<NodeElt>, n: int, last: int) -> Seq<NodeElt>
    decreases last + 1 - n,
{
    if n <= last {
        leaves_deepened(deepened(t, n), n + 1, last)
    } else {
        t
    }
}

/// The tree over the sorted leaves, the last of which is `last`.
#[verifier::opaque]
pub open spec fn tree_built(t: Seq<NodeElt>, last: int) -> Seq<NodeElt> {
    let root = 256 + last - 1;
    let first = node_at(t, last).count.wrapping_add(node_at(t, last - 1).count);
    let t1 = with_parent(with_parent(with_count(t, 256, first), last, 256), last - 1, 256);
    let t2 = with_count(inner_opened(t1, 257, root), -1, 0x8000_0000);
    let t3 = inner_made(t2, 257, root, last - 2, 256);
    leaves_deepened(inner_deepened(with_bits(t3, root, 0), root - 1), 0, last)
}

// ---------------------------------------------------------------------------
// Limiting the height.

/// What stands for no leaf.
pub open spec fn no_leaf() -> u32 {
    0xF0F0_F0F0
}

/// A node position; positions outside the tree give an index outside it.
pub open spec fn leaf_index(p: u32) -> int {
    if p < 512 {
        p as int
    } else {
        1000
    }
}

/// The leaves from `n` down that are too deep clamped: the tree, the next leaf,
/// and what that costs, in units of the deepest leaf.
#[verifier::opaque]
pub open spec fn clamped(t: Seq<NodeElt>, n: int, target: u32, largest: u32, cost: int) -> (
    Seq<NodeElt>,
    int,
    int,
)
    decreases n + 1,
{
    if n >= 0 && node_at(t, n).nb_bits > target {
        let nb = node_at(t, n).nb_bits as u32;
        clamped(
            with_bits(t, n, target as u8),
            n - 1,
            target,
            largest,
            if nb <= largest {
                cost + pow2((largest - target) as nat) - pow2((largest - nb) as nat)
            } else {
                cost
            },
        )
    } else {
        (t, n, cost)
    }
}

/// The first leaf from `n` down that is not at the target.
#[verifier::opaque]
pub open spec fn below_target(t: Seq<NodeElt>, n: int, target: u32) -> int
    decreases n + 1,
{
    if n >= 0 && node_at(t, n).nb_bits == target {
        below_target(t, n - 1, target)
    } else {
        n
    }
}

/// The last leaf of each shorter length, from `pos` down; `bits` is the last
/// length seen.
#[verifier::opaque]
pub open spec fn ranks_from(t: Seq<NodeElt>, pos: int, bits: u32, target: u32, ranks: Seq<u32>) -> Seq<u32>
    decreases pos + 1,
{
    if pos >= 0 {
        let nb = node_at(t, pos).nb_bits as u32;
        if nb < bits {
            ranks_from(
                t,
                pos - 1,
                nb,
                target,
                if target - nb < 14 {
                    ranks.update(target - nb, pos as u32)
                } else {
                    ranks
                },
            )
        } else {
            ranks_from(t, pos - 1, bits, target, ranks)
        }
    } else {
        ranks
    }
}

/// The rank from `k` down where one leaf costs no more than two of the next.
#[verifier::opaque]
pub open spec fn cheap_rank(t: Seq<NodeElt>, ranks: Seq<u32>, k: nat) -> nat
    decreases k,
{
    let high = ranks[k as int];
    let low = ranks[k - 1];
    if k > 1 && (high == no_leaf() || (low != no_leaf() && node_at(t, leaf_index(high)).count > 2
        * node_at(t, leaf_index(low)).count)) {
        cheap_rank(t, ranks, (k - 1) as nat)
    } else {
        k
    }
}

/// The first rank from `k` on that has a leaf.
#[verifier::opaque]
pub open spec fn taken_rank(ranks: Seq<u32>, k: nat) -> nat
    decreases 13 - k,
{
    if k <= 12 && ranks[k as int] == no_leaf() {
        taken_rank(ranks, k + 1)
    } else {
        k
    }
}

/// One leaf of rank `k` lengthened: the ranks after it.
pub open spec fn rank_moved(t: Seq<NodeElt>, ranks: Seq<u32>, k: nat, target: u32) -> Seq<u32> {
    let r1 = if ranks[k - 1] == no_leaf() {
        ranks.update(k - 1, ranks[k as int])
    } else {
        ranks
    };
    if r1[k as int] == 0 {
        r1.update(k as int, no_leaf())
    } else {
        let v = (r1[k as int] - 1) as u32;
        if node_at(t, leaf_index(v)).nb_bits + k != target {
            r1.update(k as int, no_leaf())
        } else {
            r1.update(k as int, v)
        }
    }
}

/// The cost repaid by lengthening leaves. One that is out of all proportion is
/// left.
#[verifier::opaque]
pub open spec fn repaid(t: Seq<NodeElt>, ranks: Seq<u32>, cost: int, target: u32) -> (
    Seq<NodeElt>,
    Seq<u32>,
    int,
)
    decreases cost,
{
    if 0 < cost <= 8191 {
        let k = taken_rank(ranks, cheap_rank(t, ranks, highest_bit(cost as nat) + 1));
        let left = cost - pow2((k - 1) as nat);
        let at = leaf_index(ranks[k as int]);
        let t1 = with_bits(t, at, node_at(t, at).nb_bits.wrapping_add(1));
        let r1 = rank_moved(t1, ranks, k, target);
        if 0 < left < cost {
            repaid(t1, r1, left, target)
        } else {
            (t1, r1, left)
        }
    } else {
        (t, ranks, cost)
    }
}

/// What was repaid too much given back, by shortening leaves.
#[verifier::opaque]
pub open spec fn given_back(t: Seq<NodeElt>, rank1: u32, n: int, cost: int, target: u32) -> Seq<NodeElt>
    decreases -cost,
{
    if cost < 0 {
        if rank1 == no_leaf() {
            let n1 = below_target(t, n, target);
            given_back(
                with_bits(t, n1 + 1, node_at(t, n1 + 1).nb_bits.wrapping_sub(1)),
                (n1 + 1) as u32,
                n1,
                cost + 1,
                target,
            )
        } else {
            let p = rank1.wrapping_add(1);
            let i = leaf_index(p);
            given_back(
                with_bits(t, i, node_at(t, i).nb_bits.wrapping_sub(1)),
                p,
                n,
                cost + 1,
                target,
            )
        }
    } else {
        t
    }
}

/// The tree with no leaf deeper than `target`, and the largest depth.
#[verifier::opaque]
pub open spec fn height_limited(t: Seq<NodeElt>, last: int, target: u32) -> (Seq<NodeElt>, u32) {
    let largest = node_at(t, last).nb_bits as u32;
    if largest <= target {
        (t, largest)
    } else if largest - target > 30 {
        (t, target)
    } else {
        let (t1, n1, cost1) = clamped(t, last, target, largest, 0);
        let n2 = below_target(t1, n1, target);
        let cost2 = if cost1 >= 0 {
            cost1 / pow2((largest - target) as nat) as int
        } else {
            0
        };
        let ranks = ranks_from(t1, n2, target, target, Seq::new(14, |i: int| no_leaf()));
        let (t2, ranks2, cost3) = repaid(t1, ranks, cost2, target);
        (given_back(t2, ranks2[1], n2, cost3, target), target)
    }
}

// ---------------------------------------------------------------------------
// Code lengths.

/// The depths of the leaves from `n` to `last` as code lengths.
#[verifier::opaque]
pub open spec fn lengths_read(t: Seq<NodeElt>, n: int, last: int, max_symbol: nat, lengths: Seq<u8>) -> Seq<u8>
    decreases last + 1 - n,
{
    if n <= last {
        let v = node_at(t, n);
        lengths_read(
            t,
            n + 1,
            last,
            max_symbol,
            if v.byte <= max_symbol {
                lengths.update(v.byte as int, v.nb_bits)
            } else {
                lengths
            },
        )
    } else {
        lengths
    }
}

/// The code lengths of a histogram, at most `target` bits, and the largest;
/// none where a tree stays too high.
#[verifier::opaque]
pub open spec fn spec_huf_lengths(count: Seq<u32>, max_symbol: nat, target: u32) -> Option<(Seq<u8>, u32)> {
    let sorted = leaves_sorted(count, max_symbol);
    let last = last_leaf(sorted, max_symbol as int);
    let (t, log) = height_limited(tree_built(sorted, last), last, target);
    let lengths = lengths_read(t, 0, last, max_symbol, Seq::new(256, |i: int| 0u8));
    if log > 12 || exists|s: int| 0 <= s < 256 && #[trigger] lengths[s] > 12 {
        None
    } else {
        Some((lengths, log))
    }
}

} // verus!
