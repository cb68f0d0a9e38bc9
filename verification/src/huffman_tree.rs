//! Huffman code lengths from a histogram: sorting the symbols, building the
//! tree, and limiting its height.

use crate::bits::{highbit32, highest_bit};
use crate::error::Error;
use crate::histogram::total_count;
use crate::huffman::{lemma_weight_sum_push, valid_weights, weight_span, weight_sum};
use crate::huffman_code_laws::law_lengths_fill_the_code_space;
use crate::huffman_codes::{assign_codes, codes_by_length, weight_of, weights_of, HufCTable};
use crate::huffman_encode_model::{spec_complete_table, spec_huf_table};
use crate::huffman_tree_model::{
    below_target, bucketed, buckets_sorted, cheap_rank, clamped, given_back, height_limited, inner_deepened,
    inner_made, inner_opened, inserted_from, last_leaf, leaf_index, leaves_deepened, leaves_placed, leaves_sorted,
    lengths_read, moved_up, no_leaf, no_node, node_at, node_set, nodes_sorted, partitioned, ranks_from, repaid,
    spec_huf_lengths, starts_summed, taken_rank, tree_built, with_bits, with_count, with_parent,
};
use crate::math::pow2_u64;
use vstd::arithmetic::power2::{lemma2_to64, lemma_pow2_pos, lemma_pow2_strictly_increases, pow2};
use vstd::prelude::*;

verus! {

pub const HUF_TABLELOG_MAX: u32 = 12;

pub const HUF_TABLELOG_DEFAULT: u32 = 11;

/// First index of the internal tree nodes.
pub const STARTNODE: i32 = 256;

const RANK_POSITION_TABLE_SIZE: usize = 192;

const RANK_POSITION_LOG_BUCKETS_BEGIN: u32 = 158;

/// Counts below this have a bucket of their own.
const RANK_DISTINCT_CUTOFF: u32 = 165;

const NO_SYMBOL: u32 = 0xF0F0_F0F0;

/// Bucket index for a symbol count.
pub open spec fn spec_huf_index(count: nat) -> nat {
    if count < 165 {
        count
    } else {
        highest_bit(count) + 158
    }
}

fn huf_get_index(count: u32) -> (r: u32)
    ensures
        r == spec_huf_index(count as nat),
        r <= 190,
{
    if count < RANK_DISTINCT_CUTOFF {
        count
    } else {
        let h: u32 = highbit32(count);
        proof {
            lemma2_to64();
            if h >= 32 {
                if h > 32 {
                    lemma_pow2_strictly_increases(32, h as nat);
                }
            }
        }
        h + RANK_POSITION_LOG_BUCKETS_BEGIN
    }
}

/// One node of the working tree.
#[derive(Clone, Copy)]
pub struct NodeElt {
    pub count: u32,
    pub parent: u16,
    pub byte: u8,
    pub nb_bits: u8,
}

/// The working tree. Index -1 is a barrier in front of the leaves; a node
/// outside the array reads as empty, and writing it has no effect.
struct Nodes {
    items: Vec<NodeElt>,
}

impl Nodes {
    spec fn wf(&self) -> bool {
        self.items@.len() == 513
    }

    fn new() -> (r: Self)
        ensures
            r.wf(),
            r.items@ == Seq::new(513, |i: int| no_node()),
    {
        let mut items: Vec<NodeElt> = Vec::new();
        let mut i: usize = 0;
        while i < 513
            invariant
                i <= 513,
                items@.len() == i,
                forall|j: int| 0 <= j < i ==> #[trigger] items@[j] == no_node(),
            decreases 513 - i,
        {
            items.push(NodeElt { count: 0, parent: 0, byte: 0, nb_bits: 0 });
            i = i + 1;
        }
        assert(items@ =~= Seq::new(513, |i: int| no_node()));
        Nodes { items }
    }

    fn get(&self, i: i32) -> (r: NodeElt)
        requires
            self.wf(),
        ensures
            r == node_at(self.items@, i as int),
    {
        if -1 <= i && i < 512 {
            self.items[(i + 1) as usize]
        } else {
            NodeElt { count: 0, parent: 0, byte: 0, nb_bits: 0 }
        }
    }

    fn set(&mut self, i: i32, v: NodeElt)
        requires
            old(self).wf(),
        ensures
            final(self).wf(),
            final(self).items@ == node_set(old(self).items@, i as int, v),
    {
        if -1 <= i && i < 512 {
            self.items.set((i + 1) as usize, v);
        }
    }

    fn set_count(&mut self, i: i32, c: u32)
        requires
            old(self).wf(),
        ensures
            final(self).wf(),
            final(self).items@ == with_count(old(self).items@, i as int, c),
    {
        let mut v: NodeElt = self.get(i);
        v.count = c;
        self.set(i, v);
    }

    fn set_nb_bits(&mut self, i: i32, b: u8)
        requires
            old(self).wf(),
        ensures
            final(self).wf(),
            final(self).items@ == with_bits(old(self).items@, i as int, b),
    {
        let mut v: NodeElt = self.get(i);
        v.nb_bits = b;
        self.set(i, v);
    }

    fn set_parent(&mut self, i: i32, p: u16)
        requires
            old(self).wf(),
        ensures
            final(self).wf(),
            final(self).items@ == with_parent(old(self).items@, i as int, p),
    {
        let mut v: NodeElt = self.get(i);
        v.parent = p;
        self.set(i, v);
    }
}

fn zeros(n: usize) -> (r: Vec<u32>)
    ensures
        r@ == Seq::new(n as nat, |i: int| 0u32),
{
    let mut v: Vec<u32> = Vec::new();
    let mut i: usize = 0;
    while i < n
        invariant
            i <= n,
            v@.len() == i,
            forall|j: int| 0 <= j < i ==> #[trigger] v@[j] == 0,
        decreases n - i,
    {
        v.push(0);
        i = i + 1;
    }
    assert(v@ =~= Seq::new(n as nat, |i: int| 0u32));
    v
}

/// Sorts the symbols by count, decreasing: by bucket, then within each bucket
/// of several counts.
#[verifier::rlimit(30)]
fn huf_sort(nodes: &mut Nodes, count: &[u32], max_symbol: u32)
    requires
        old(nodes).wf(),
        max_symbol <= 255,
        count@.len() > max_symbol,
        old(nodes).items@ == Seq::new(513, |i: int| no_node()),
    ensures
        final(nodes).wf(),
        final(nodes).items@ == leaves_sorted(count@, max_symbol as nat),
{
    proof {
        reveal(leaves_sorted);
    }
    let alphabet: usize = max_symbol as usize + 1;
    let mut base: Vec<u32> = zeros(RANK_POSITION_TABLE_SIZE);
    let mut curr: Vec<u32> = zeros(RANK_POSITION_TABLE_SIZE);
    let mut n: usize = 0;
    let ghost zero = base@;
    while n < alphabet
        invariant
            bucketed(count@, 0, alphabet as nat, zero) == bucketed(
                count@,
                n as nat,
                alphabet as nat,
                base@,
            ),
            n <= alphabet,
            alphabet <= 256,
            count@.len() >= alphabet,
            base@.len() == 192,
            forall|i: int| 0 <= i < 192 ==> #[trigger] base@[i] <= n,
        decreases alphabet - n,
    {
        proof {
            reveal_with_fuel(bucketed, 1);
        }
        let lower: usize = huf_get_index(count[n]) as usize;
        let b: u32 = base[lower];
        base.set(lower, b + 1);
        n = n + 1;
    }
    proof {
        reveal_with_fuel(bucketed, 1);
    }
    let ghost summed = starts_summed(base@, curr@, 191);
    let mut m: usize = RANK_POSITION_TABLE_SIZE - 1;
    while m > 0
        invariant
            summed == starts_summed(base@, curr@, m as nat),
            m <= 191,
            base@.len() == 192,
            curr@.len() == 192,
            forall|i: int| 0 <= i < m ==> #[trigger] base@[i] <= 256,
            forall|i: int| m <= i < 192 ==> #[trigger] base@[i] <= 256 * (192 - i),
            forall|i: int| 0 <= i < 192 ==> #[trigger] curr@[i] <= 256 * 192,
        decreases m,
    {
        proof {
            reveal_with_fuel(starts_summed, 1);
        }
        let b: u32 = base[m - 1] + base[m];
        base.set(m - 1, b);
        curr.set(m - 1, b);
        m = m - 1;
    }
    proof {
        reveal_with_fuel(starts_summed, 1);
    }
    let ghost placed = leaves_placed(count@, 0, alphabet as nat, curr@, nodes.items@);
    n = 0;
    while n < alphabet
        invariant
            placed == leaves_placed(count@, n as nat, alphabet as nat, curr@, nodes.items@),
            n <= alphabet,
            alphabet <= 256,
            count@.len() >= alphabet,
            curr@.len() == 192,
            forall|i: int| 0 <= i < 192 ==> #[trigger] curr@[i] <= 256 * 192 + n,
            nodes.wf(),
        decreases alphabet - n,
    {
        proof {
            reveal_with_fuel(leaves_placed, 1);
        }
        let c: u32 = count[n];
        let r: usize = huf_get_index(c) as usize + 1;
        let pos: u32 = curr[r];
        curr.set(r, pos + 1);
        nodes.set(pos as i32, NodeElt { count: c, byte: n as u8, parent: 0, nb_bits: 0 });
        n = n + 1;
    }
    proof {
        reveal_with_fuel(leaves_placed, 1);
    }
    let ghost sorted = buckets_sorted(base@, curr@, nodes.items@, 165);
    n = RANK_DISTINCT_CUTOFF as usize;
    while n < RANK_POSITION_TABLE_SIZE - 1
        invariant
            sorted == buckets_sorted(base@, curr@, nodes.items@, n as nat),
            n <= 191,
            base@.len() == 192,
            curr@.len() == 192,
            forall|i: int| 0 <= i < 192 ==> #[trigger] curr@[i] <= 256 * 192 + 256,
            forall|i: int| 0 <= i < 192 ==> #[trigger] base@[i] <= 256 * 192,
            nodes.wf(),
        decreases 191 - n,
    {
        proof {
            reveal_with_fuel(buckets_sorted, 1);
        }
        let start: i32 = base[n] as i32;
        let bucket_size: i32 = curr[n] as i32 - start;
        if bucket_size > 1 && start + bucket_size <= 512 {
            huf_quicksort(nodes, start, start + bucket_size - 1);
        }
        n = n + 1;
    }
    proof {
        reveal_with_fuel(buckets_sorted, 1);
    }
}

/// Descending insertion sort of the nodes `low ..= high`.
#[verifier::rlimit(30)]
fn huf_insertion_sort(nodes: &mut Nodes, low: i32, high: i32)
    requires
        old(nodes).wf(),
        0 <= low,
        high <= 512,
    ensures
        final(nodes).wf(),
        final(nodes).items@ == if low <= high {
            inserted_from(old(nodes).items@, low as int, low + 1, high as int)
        } else {
            old(nodes).items@
        },
{
    if low > high {
        return;
    }
    let mut i: i32 = low + 1;
    while i <= high
        invariant
            inserted_from(old(nodes).items@, low as int, low + 1, high as int) == inserted_from(
                nodes.items@,
                low as int,
                i as int,
                high as int,
            ),
            nodes.wf(),
            0 <= low < i <= high + 1,
            high <= 512,
        decreases high + 1 - i,
    {
        proof {
            reveal_with_fuel(inserted_from, 1);
        }
        let key: NodeElt = nodes.get(i);
        let mut j: i32 = i - 1;
        let mut moving: bool = true;
        let ghost all = moved_up(nodes.items@, low as int, j as int, key);
        while j >= low && moving
            invariant
                all == if moving {
                    moved_up(nodes.items@, low as int, j as int, key)
                } else {
                    (nodes.items@, j as int)
                },
                nodes.wf(),
                0 <= low,
                low - 1 <= j < i,
                i <= 513,
            decreases (j + 1) + (if moving {
                1int
            } else {
                0int
            }),
        {
            proof {
                reveal_with_fuel(moved_up, 1);
            }
            let v: NodeElt = nodes.get(j);
            if v.count < key.count {
                nodes.set(j + 1, v);
                j = j - 1;
            } else {
                moving = false;
            }
        }
        proof {
            reveal_with_fuel(moved_up, 1);
        }
        nodes.set(j + 1, key);
        i = i + 1;
    }
    proof {
        reveal_with_fuel(inserted_from, 1);
    }
}

/// Descending quicksort of the nodes `low ..= high`, by insertion for short
/// ranges.
#[verifier::rlimit(30)]
fn huf_quicksort(nodes: &mut Nodes, low0: i32, high0: i32)
    requires
        old(nodes).wf(),
        0 <= low0,
        -1 <= high0 < 512,
        low0 <= 513,
    ensures
        final(nodes).wf(),
        final(nodes).items@ == nodes_sorted(old(nodes).items@, low0 as int, high0 as int),
    decreases (if high0 >= low0 {
        high0 - low0 + 1
    } else {
        0int
    }),
{
    let mut low: i32 = low0;
    let mut high: i32 = high0;
    while high - low >= 8
        invariant
            nodes_sorted(old(nodes).items@, low0 as int, high0 as int) == nodes_sorted(
                nodes.items@,
                low as int,
                high as int,
            ),
            nodes.wf(),
            0 <= low0 <= low,
            -1 <= high <= high0 < 512,
            low <= 513,
        decreases high - low + 1,
    {
        proof {
            reveal_with_fuel(nodes_sorted, 1);
        }
        let pivot: u32 = nodes.get(high).count;
        let mut i: i32 = low - 1;
        let mut j: i32 = low;
        let ghost parted = partitioned(nodes.items@, i as int, j as int, high as int, pivot);
        while j < high
            invariant
                parted == partitioned(nodes.items@, i as int, j as int, high as int, pivot),
                nodes.wf(),
                0 <= low <= j <= high,
                low - 1 <= i < j,
                high < 512,
            decreases high - j,
        {
            proof {
                reveal_with_fuel(partitioned, 1);
            }
            let b: NodeElt = nodes.get(j);
            if b.count > pivot {
                i = i + 1;
                let a: NodeElt = nodes.get(i);
                nodes.set(i, b);
                nodes.set(j, a);
            }
            j = j + 1;
        }
        proof {
            reveal_with_fuel(partitioned, 1);
        }
        let idx: i32 = i + 1;
        let a: NodeElt = nodes.get(idx);
        let b: NodeElt = nodes.get(high);
        nodes.set(idx, b);
        nodes.set(high, a);
        if idx - low < high - idx {
            huf_quicksort(nodes, low, idx - 1);
            low = idx + 1;
        } else {
            huf_quicksort(nodes, idx + 1, high);
            high = idx - 1;
        }
    }
    proof {
        reveal_with_fuel(nodes_sorted, 1);
    }
    huf_insertion_sort(nodes, low, high);
}

/// Builds the tree of unlimited depth over the sorted leaves; returns the
/// index of the leaf with the smallest count.
#[verifier::rlimit(30)]
fn huf_build_tree(nodes: &mut Nodes, max_symbol: u32) -> (r: i32)
    requires
        old(nodes).wf(),
        max_symbol <= 255,
    ensures
        final(nodes).wf(),
        0 <= r <= 255,
        r == last_leaf(old(nodes).items@, max_symbol as int),
        final(nodes).items@ == tree_built(old(nodes).items@, r as int),
{
    proof {
        reveal(tree_built);
    }
    let mut node_nb: i32 = STARTNODE;
    let mut non_null_rank: i32 = max_symbol as i32;
    while non_null_rank > 0 && nodes.get(non_null_rank).count == 0
        invariant
            nodes.wf(),
            *nodes == *old(nodes),
            0 <= non_null_rank <= 255,
            last_leaf(old(nodes).items@, max_symbol as int) == last_leaf(
                nodes.items@,
                non_null_rank as int,
            ),
        decreases non_null_rank,
    {
        proof {
            reveal_with_fuel(last_leaf, 1);
        }
        non_null_rank = non_null_rank - 1;
    }
    proof {
        reveal_with_fuel(last_leaf, 1);
    }
    let mut low_s: i32 = non_null_rank;
    let node_root: i32 = node_nb + low_s - 1;
    let mut low_n: i32 = node_nb;
    let first: u32 = nodes.get(low_s).count.wrapping_add(nodes.get(low_s - 1).count);
    nodes.set_count(node_nb, first);
    nodes.set_parent(low_s, node_nb as u16);
    nodes.set_parent(low_s - 1, node_nb as u16);
    node_nb = node_nb + 1;
    low_s = low_s - 2;
    let mut n: i32 = node_nb;
    let ghost opened = inner_opened(nodes.items@, 257, node_root as int);
    while n <= node_root
        invariant
            opened == inner_opened(nodes.items@, n as int, node_root as int),
            nodes.wf(),
            257 <= n <= 512,
            node_root <= 510,
        decreases node_root + 1 - n,
    {
        proof {
            reveal_with_fuel(inner_opened, 1);
        }
        nodes.set_count(n, 0x4000_0000);
        n = n + 1;
    }
    proof {
        reveal_with_fuel(inner_opened, 1);
    }
    nodes.set_count(-1, 0x8000_0000);
    let ghost made = inner_made(
        nodes.items@,
        257,
        node_root as int,
        low_s as int,
        low_n as int,
    );
    while node_nb <= node_root
        invariant
            made == inner_made(
                nodes.items@,
                node_nb as int,
                node_root as int,
                low_s as int,
                low_n as int,
            ),
            nodes.wf(),
            257 <= node_nb,
            node_root <= 510,
            256 <= low_n <= 2 * node_nb,
            -2 * node_nb <= low_s <= 255,
            node_nb <= 511,
        decreases node_root + 1 - node_nb,
    {
        proof {
            reveal_with_fuel(inner_made, 1);
        }
        let n1: i32 = if nodes.get(low_s).count < nodes.get(low_n).count {
            low_s = low_s - 1;
            low_s + 1
        } else {
            low_n = low_n + 1;
            low_n - 1
        };
        let n2: i32 = if nodes.get(low_s).count < nodes.get(low_n).count {
            low_s = low_s - 1;
            low_s + 1
        } else {
            low_n = low_n + 1;
            low_n - 1
        };
        let c: u32 = nodes.get(n1).count.wrapping_add(nodes.get(n2).count);
        nodes.set_count(node_nb, c);
        nodes.set_parent(n1, node_nb as u16);
        nodes.set_parent(n2, node_nb as u16);
        node_nb = node_nb + 1;
    }
    proof {
        reveal_with_fuel(inner_made, 1);
    }
    // Code lengths, from the root down.
    nodes.set_nb_bits(node_root, 0);
    n = node_root - 1;
    let ghost deep = inner_deepened(nodes.items@, n as int);
    while n >= STARTNODE
        invariant
            deep == inner_deepened(nodes.items@, n as int),
            nodes.wf(),
            n <= 510,
        decreases n - 255,
    {
        proof {
            reveal_with_fuel(inner_deepened, 1);
        }
        let pb: u8 = nodes.get(nodes.get(n).parent as i32).nb_bits;
        nodes.set_nb_bits(n, pb.wrapping_add(1));
        n = n - 1;
    }
    proof {
        reveal_with_fuel(inner_deepened, 1);
    }
    n = 0;
    let ghost leaves = leaves_deepened(nodes.items@, 0, non_null_rank as int);
    while n <= non_null_rank
        invariant
            leaves == leaves_deepened(nodes.items@, n as int, non_null_rank as int),
            nodes.wf(),
            0 <= n <= non_null_rank + 1,
            non_null_rank <= 255,
        decreases non_null_rank + 1 - n,
    {
        proof {
            reveal_with_fuel(leaves_deepened, 1);
        }
        let pb: u8 = nodes.get(nodes.get(n).parent as i32).nb_bits;
        nodes.set_nb_bits(n, pb.wrapping_add(1));
        n = n + 1;
    }
    proof {
        reveal_with_fuel(leaves_deepened, 1);
    }
    non_null_rank
}

/// `2^n` for small `n`.
fn bit(n: u32) -> (r: i64)
    requires
        n <= 40,
    ensures
        r == pow2(n as nat),
        1 <= r <= 0x100_0000_0000,
{
    proof {
        lemma2_to64();
        vstd::arithmetic::power2::lemma2_to64_rest();
        if n < 40 {
            lemma_pow2_strictly_increases(n as nat, 40);
        }
        lemma_pow2_pos(n as nat);
    }
    pow2_u64(n) as i64
}

/// Clamps the leaves from `from` down that are deeper than `target`; gives the
/// next leaf, and the cost in units of the deepest leaf.
fn clamp(nodes: &mut Nodes, from: i32, target: u32, largest: u32) -> (r: (i32, i64))
    requires
        old(nodes).wf(),
        0 <= from <= 255,
        target < largest <= 255,
        largest - target <= 30,
    ensures
        final(nodes).wf(),
        -1 <= r.0 <= 255,
        -0x101_0000_0000_00 <= r.1 <= 0x101_0000_0000_00,
        (final(nodes).items@, r.0 as int, r.1 as int) == clamped(
            old(nodes).items@,
            from as int,
            target,
            largest,
            0,
        ),
{
    let base_cost: i64 = bit(largest - target);
    let mut cost: i64 = 0;
    let mut n: i32 = from;
    while n >= 0 && nodes.get(n).nb_bits as u32 > target
        invariant
            nodes.wf(),
            -1 <= n <= 255,
            base_cost == pow2((largest - target) as nat),
            1 <= base_cost <= 0x100_0000_0000,
            target < largest <= 255,
            largest - target <= 30,
            -(0x100_0000_0000 * (256 - n)) <= cost <= 0x100_0000_0000 * (256 - n),
            clamped(old(nodes).items@, from as int, target, largest, 0) == clamped(
                nodes.items@,
                n as int,
                target,
                largest,
                cost as int,
            ),
        decreases n + 1,
    {
        proof {
            reveal_with_fuel(clamped, 1);
        }
        let nb: u32 = nodes.get(n).nb_bits as u32;
        if nb <= largest {
            cost = cost + base_cost - bit(largest - nb);
        }
        nodes.set_nb_bits(n, target as u8);
        n = n - 1;
    }
    proof {
        reveal_with_fuel(clamped, 1);
    }
    (n, cost)
}

/// The first leaf from `from` down that is not at the target.
fn skip_target(nodes: &Nodes, from: i32, target: u32) -> (r: i32)
    requires
        nodes.wf(),
        -1 <= from <= 255,
    ensures
        -1 <= r <= from,
        r == below_target(nodes.items@, from as int, target),
{
    let mut n: i32 = from;
    while n >= 0 && nodes.get(n).nb_bits as u32 == target
        invariant
            nodes.wf(),
            -1 <= n <= from <= 255,
            below_target(nodes.items@, from as int, target) == below_target(
                nodes.items@,
                n as int,
                target,
            ),
        decreases n + 1,
    {
        proof {
            reveal_with_fuel(below_target, 1);
        }
        n = n - 1;
    }
    proof {
        reveal_with_fuel(below_target, 1);
    }
    n
}

/// The last leaf of each length shorter than `target`, from `from` down.
fn last_of_ranks(nodes: &Nodes, from: i32, target: u32) -> (r: Vec<u32>)
    requires
        nodes.wf(),
        -1 <= from <= 255,
    ensures
        r@.len() == 14,
        r@ == ranks_from(
            nodes.items@,
            from as int,
            target,
            target,
            Seq::new(14, |i: int| no_leaf()),
        ),
{
    let mut ranks: Vec<u32> = Vec::new();
    let mut k: usize = 0;
    while k < 14
        invariant
            k <= 14,
            ranks@.len() == k,
            forall|i: int| 0 <= i < k ==> #[trigger] ranks@[i] == no_leaf(),
        decreases 14 - k,
    {
        ranks.push(NO_SYMBOL);
        k = k + 1;
    }
    assert(ranks@ =~= Seq::new(14, |i: int| no_leaf()));
    let ghost all = ranks_from(nodes.items@, from as int, target, target, ranks@);
    let mut bits: u32 = target;
    let mut pos: i32 = from;
    while pos >= 0
        invariant
            nodes.wf(),
            ranks@.len() == 14,
            -1 <= pos <= 255,
            bits <= target,
            all == ranks_from(nodes.items@, pos as int, bits, target, ranks@),
        decreases pos + 1,
    {
        proof {
            reveal_with_fuel(ranks_from, 1);
        }
        let nb: u32 = nodes.get(pos).nb_bits as u32;
        if nb < bits {
            bits = nb;
            if target - bits < 14 {
                ranks.set((target - bits) as usize, pos as u32);
            }
        }
        pos = pos - 1;
    }
    proof {
        reveal_with_fuel(ranks_from, 1);
    }
    ranks
}

/// The rank whose leaf is lengthened next, when `cost` is owed.
#[verifier::rlimit(30)]
fn pick_rank(nodes: &Nodes, ranks: &Vec<u32>, cost: u32) -> (r: usize)
    requires
        nodes.wf(),
        ranks@.len() == 14,
        1 <= cost <= 8191,
    ensures
        1 <= r <= 13,
        r == taken_rank(
            ranks@,
            cheap_rank(nodes.items@, ranks@, highest_bit(cost as nat) + 1),
        ),
{
    let top: u32 = highbit32(cost);
    proof {
        lemma2_to64();
        if top > 13 {
            lemma_pow2_strictly_increases(13, top as nat);
        }
    }
    let mut n_bits: usize = top as usize + 1;
    let mut looking: bool = true;
    let ghost cheap = cheap_rank(nodes.items@, ranks@, n_bits as nat);
    while n_bits > 1 && looking
        invariant
            nodes.wf(),
            ranks@.len() == 14,
            1 <= n_bits <= 13,
            cheap == if looking {
                cheap_rank(nodes.items@, ranks@, n_bits as nat)
            } else {
                n_bits as nat
            },
        decreases n_bits + (if looking {
            1int
        } else {
            0int
        }),
    {
        proof {
            reveal_with_fuel(cheap_rank, 1);
        }
        let high_pos: u32 = ranks[n_bits];
        let low_pos: u32 = ranks[n_bits - 1];
        if high_pos == NO_SYMBOL {
            n_bits = n_bits - 1;
        } else if low_pos == NO_SYMBOL {
            looking = false;
        } else {
            let high_total: u64 = nodes.get(low_index(high_pos)).count as u64;
            let low_total: u64 = 2 * nodes.get(low_index(low_pos)).count as u64;
            if high_total <= low_total {
                looking = false;
            } else {
                n_bits = n_bits - 1;
            }
        }
    }
    proof {
        reveal_with_fuel(cheap_rank, 1);
    }
    let ghost taken = taken_rank(ranks@, n_bits as nat);
    while n_bits <= 12 && ranks[n_bits] == NO_SYMBOL
        invariant
            ranks@.len() == 14,
            1 <= n_bits <= 13,
            taken == taken_rank(ranks@, n_bits as nat),
        decreases 13 - n_bits,
    {
        proof {
            reveal_with_fuel(taken_rank, 1);
        }
        n_bits = n_bits + 1;
    }
    proof {
        reveal_with_fuel(taken_rank, 1);
    }
    n_bits
}

/// Lengthens leaves until the cost is repaid; gives what is left of it.
fn repay(nodes: &mut Nodes, ranks: &mut Vec<u32>, owed: i64, target: u32) -> (r: i64)
    requires
        old(nodes).wf(),
        old(ranks)@.len() == 14,
        0 <= owed,
    ensures
        final(nodes).wf(),
        final(ranks)@.len() == 14,
        -4096 <= r,
        (final(nodes).items@, final(ranks)@, r as int) == repaid(
            old(nodes).items@,
            old(ranks)@,
            owed as int,
            target,
        ),
{
    let ghost all = repaid(nodes.items@, ranks@, owed as int, target);
    let mut cost: i64 = owed;
    while cost > 0 && cost <= 8191
        invariant
            nodes.wf(),
            ranks@.len() == 14,
            -4096 <= cost,
            all == repaid(nodes.items@, ranks@, cost as int, target),
        decreases cost + 4096,
    {
        proof {
            reveal_with_fuel(repaid, 1);
        }
        let n_bits: usize = pick_rank(nodes, ranks, cost as u32);
        proof {
            lemma2_to64();
            if n_bits - 1 < 12 {
                lemma_pow2_strictly_increases((n_bits - 1) as nat, 12);
            }
        }
        cost = cost - bit(n_bits as u32 - 1);
        let at: i32 = low_index(ranks[n_bits]);
        let nb: u8 = nodes.get(at).nb_bits;
        nodes.set_nb_bits(at, nb.wrapping_add(1));
        if ranks[n_bits - 1] == NO_SYMBOL {
            let v: u32 = ranks[n_bits];
            ranks.set(n_bits - 1, v);
        }
        if ranks[n_bits] == 0 {
            ranks.set(n_bits, NO_SYMBOL);
        } else {
            let v: u32 = ranks[n_bits] - 1;
            let p: i32 = low_index(v);
            if nodes.get(p).nb_bits as u64 + n_bits as u64 != target as u64 {
                ranks.set(n_bits, NO_SYMBOL);
            } else {
                ranks.set(n_bits, v);
            }
        }
    }
    proof {
        reveal_with_fuel(repaid, 1);
    }
    cost
}

/// Shortens leaves until nothing is overpaid.
fn give_back(nodes: &mut Nodes, rank1: u32, from: i32, overpaid: i64, target: u32)
    requires
        old(nodes).wf(),
        -1 <= from <= 255,
        -4096 <= overpaid,
    ensures
        final(nodes).wf(),
        final(nodes).items@ == given_back(
            old(nodes).items@,
            rank1,
            from as int,
            overpaid as int,
            target,
        ),
{
    let ghost all = given_back(nodes.items@, rank1, from as int, overpaid as int, target);
    let mut first: u32 = rank1;
    let mut n: i32 = from;
    let mut cost: i64 = overpaid;
    while cost < 0
        invariant
            nodes.wf(),
            -1 <= n <= 255,
            cost >= -4096,
            all == given_back(nodes.items@, first, n as int, cost as int, target),
        decreases -cost,
    {
        proof {
            reveal_with_fuel(given_back, 1);
        }
        if first == NO_SYMBOL {
            n = skip_target(nodes, n, target);
            let nb: u8 = nodes.get(n + 1).nb_bits;
            nodes.set_nb_bits(n + 1, nb.wrapping_sub(1));
            first = (n + 1) as u32;
        } else {
            first = first.wrapping_add(1);
            let i: i32 = low_index(first);
            let nb: u8 = nodes.get(i).nb_bits;
            nodes.set_nb_bits(i, nb.wrapping_sub(1));
        }
        cost = cost + 1;
    }
    proof {
        reveal_with_fuel(given_back, 1);
    }
}

/// Clamps the code lengths to `target_nb_bits`, and repays what that costs
/// by lengthening other codes. Returns the largest code length.
fn huf_set_max_height(nodes: &mut Nodes, last_non_null: i32, target_nb_bits: u32) -> (r: u32)
    requires
        old(nodes).wf(),
        0 <= last_non_null <= 255,
        1 <= target_nb_bits,
    ensures
        final(nodes).wf(),
        r <= target_nb_bits,
        (final(nodes).items@, r) == height_limited(
            old(nodes).items@,
            last_non_null as int,
            target_nb_bits,
        ),
{
    proof {
        reveal(height_limited);
    }
    let largest_bits: u32 = nodes.get(last_non_null).nb_bits as u32;
    if largest_bits <= target_nb_bits {
        return largest_bits;
    }
    if largest_bits - target_nb_bits > 30 {
        return target_nb_bits;
    }
    let (after, cost) = clamp(nodes, last_non_null, target_nb_bits, largest_bits);
    let n: i32 = skip_target(nodes, after, target_nb_bits);
    let base_cost: i64 = bit(largest_bits - target_nb_bits);
    let owed: i64 = if cost >= 0 {
        cost / base_cost
    } else {
        0
    };
    proof {
        if cost >= 0 {
            assert(cost as int / base_cost as int >= 0) by (nonlinear_arith)
                requires
                    cost >= 0,
                    base_cost > 0,
            ;
        }
    }
    let mut ranks: Vec<u32> = last_of_ranks(nodes, n, target_nb_bits);
    let left: i64 = repay(nodes, &mut ranks, owed, target_nb_bits);
    give_back(nodes, ranks[1], n, left, target_nb_bits);
    target_nb_bits
}

/// A node position; positions outside the tree give an index outside it.
fn low_index(p: u32) -> (r: i32)
    ensures
        r == leaf_index(p),
{
    if p < 512 {
        p as i32
    } else {
        1000
    }
}

// ---------------------------------------------------------------------------
// Code lengths.

/// Code lengths that give exactly the counted symbols a code and fill the
/// code space.
pub open spec fn lengths_ok(nb_bits: Seq<u8>, count: Seq<u32>, max_symbol: nat, log: nat) -> bool {
    &&& nb_bits.len() == 256
    &&& forall|s: int| 0 <= s < 256 ==> #[trigger] nb_bits[s] <= log
    &&& forall|s: int| max_symbol < s < 256 ==> #[trigger] nb_bits[s] == 0
    &&& forall|s: int| 0 <= s <= max_symbol ==> (#[trigger] nb_bits[s] != 0 <==> count[s] != 0)
    &&& valid_weights(weights_of(nb_bits, max_symbol + 1, log), log)
}

pub proof fn lemma_weights_step(nb_bits: Seq<u8>, k: nat, log: nat)
    ensures
        weights_of(nb_bits, k + 1, log) == weights_of(nb_bits, k, log).push(
            weight_of(nb_bits[k as int], log),
        ),
        weight_sum(weights_of(nb_bits, k + 1, log)) == weight_sum(weights_of(nb_bits, k, log))
            + weight_span(weight_of(nb_bits[k as int], log)),
{
    assert(weights_of(nb_bits, k + 1, log) =~= weights_of(nb_bits, k, log).push(
        weight_of(nb_bits[k as int], log),
    ));
    lemma_weight_sum_push(weights_of(nb_bits, k, log), weight_of(nb_bits[k as int], log));
}

/// Whether the code lengths are as they must be.
fn check_lengths(nb_bits: &Vec<u8>, count: &[u32], max_symbol: u32, table_log: u32) -> (r: bool)
    requires
        nb_bits@.len() == 256,
        max_symbol <= 255,
        count@.len() > max_symbol,
        1 <= table_log <= 12,
        forall|s: int| max_symbol < s < 256 ==> #[trigger] nb_bits@[s] == 0,
    ensures
        r == lengths_ok(nb_bits@, count@, max_symbol as nat, table_log as nat),
{
    let ghost log = table_log as nat;
    let mut sum: u64 = 0;
    let mut s: usize = 0;
    proof {
        assert(weights_of(nb_bits@, 0, log) =~= Seq::<u8>::empty());
        lemma2_to64();
    }
    while s <= max_symbol as usize
        invariant
            s <= max_symbol + 1,
            max_symbol <= 255,
            nb_bits@.len() == 256,
            count@.len() > max_symbol,
            1 <= log <= 12,
            log == table_log as nat,
            sum == weight_sum(weights_of(nb_bits@, s as nat, log)),
            sum <= s * 4096,
            forall|i: int| 0 <= i < s ==> #[trigger] nb_bits@[i] <= log,
            forall|i: int| 0 <= i < s ==> (#[trigger] nb_bits@[i] != 0 <==> count@[i] != 0),
        decreases max_symbol + 1 - s,
    {
        let nb: u32 = nb_bits[s] as u32;
        if nb > table_log || (nb != 0) != (count[s] != 0) {
            return false;
        }
        proof {
            lemma_weights_step(nb_bits@, s as nat, log);
            lemma2_to64();
            if nb > 0 && log - nb < 12 {
                lemma_pow2_strictly_increases((log - nb) as nat, 12);
            }
        }
        if nb > 0 {
            sum = sum + pow2_u64(table_log - nb);
        }
        s = s + 1;
    }
    let r = sum == pow2_u64(table_log);
    proof {
        let w = weights_of(nb_bits@, (max_symbol + 1) as nat, log);
        assert forall|i: int| 0 <= i < w.len() implies #[trigger] w[i] <= 12 by {
            assert(nb_bits@[i] <= log);
        }
        assert(w.len() == max_symbol + 1);
        assert(r == valid_weights(w, log));
        assert forall|s: int| 0 <= s < 256 implies #[trigger] nb_bits@[s] <= log by {}
    }
    r
}

/// The code lengths that the tree assigns.
fn tree_lengths(nodes: &Nodes, non_null_rank: i32, max_symbol: u32) -> (r: Vec<u8>)
    requires
        nodes.wf(),
        0 <= non_null_rank <= 255,
        max_symbol <= 255,
    ensures
        r@.len() == 256,
        forall|s: int| max_symbol < s < 256 ==> #[trigger] r@[s] == 0,
        r@ == lengths_read(
            nodes.items@,
            0,
            non_null_rank as int,
            max_symbol as nat,
            Seq::new(256, |i: int| 0u8),
        ),
{
    let mut nb_bits: Vec<u8> = Vec::new();
    let mut i: usize = 0;
    while i < 256
        invariant
            i <= 256,
            nb_bits@.len() == i,
            forall|s: int| 0 <= s < i ==> #[trigger] nb_bits@[s] == 0,
        decreases 256 - i,
    {
        nb_bits.push(0);
        i = i + 1;
    }
    assert(nb_bits@ =~= Seq::new(256, |i: int| 0u8));
    let ghost all = lengths_read(
        nodes.items@,
        0,
        non_null_rank as int,
        max_symbol as nat,
        nb_bits@,
    );
    let mut n: i32 = 0;
    while n <= non_null_rank
        invariant
            all == lengths_read(
                nodes.items@,
                n as int,
                non_null_rank as int,
                max_symbol as nat,
                nb_bits@,
            ),
            nodes.wf(),
            0 <= n <= non_null_rank + 1,
            non_null_rank <= 255,
            nb_bits@.len() == 256,
            forall|s: int| max_symbol < s < 256 ==> #[trigger] nb_bits@[s] == 0,
        decreases non_null_rank + 1 - n,
    {
        proof {
            reveal_with_fuel(lengths_read, 1);
        }
        let node: NodeElt = nodes.get(n);
        if node.byte as u32 <= max_symbol {
            nb_bits.set(node.byte as usize, node.nb_bits);
        }
        n = n + 1;
    }
    proof {
        reveal_with_fuel(lengths_read, 1);
    }
    nb_bits
}

/// Number of counted symbols below `k`.
pub open spec fn present(count: Seq<u32>, k: nat) -> nat
    decreases k,
{
    if k == 0 {
        0
    } else {
        present(count, (k - 1) as nat) + if count[k - 1] != 0 {
            1nat
        } else {
            0
        }
    }
}

pub proof fn lemma_present_bound(count: Seq<u32>, k: nat)
    ensures
        present(count, k) <= k,
    decreases k,
{
    if k > 0 {
        lemma_present_bound(count, (k - 1) as nat);
    }
}

pub fn count_present(count: &[u32], n: usize) -> (r: u32)
    requires
        n <= count@.len(),
        n <= 256,
    ensures
        r == present(count@, n as nat),
        r <= n,
{
    let mut m: u32 = 0;
    let mut s: usize = 0;
    while s < n
        invariant
            s <= n,
            n <= count@.len(),
            n <= 256,
            m == present(count@, s as nat),
            m <= s,
        decreases n - s,
    {
        if count[s] != 0 {
            m = m + 1;
        }
        s = s + 1;
    }
    m
}

/// The most bits that a code may have; 0 stands for the default.
pub open spec fn length_target(max_nb_bits: u32) -> u32 {
    if max_nb_bits == 0 {
        11
    } else {
        max_nb_bits
    }
}

/// Whether some code would be longer than any table can hold.
fn has_long(lengths: &Vec<u8>) -> (r: bool)
    requires
        lengths@.len() == 256,
    ensures
        r == exists|s: int| 0 <= s < 256 && #[trigger] lengths@[s] > 12,
{
    let mut s: usize = 0;
    while s < 256
        invariant
            s <= 256,
            lengths@.len() == 256,
            forall|k: int| 0 <= k < s ==> #[trigger] lengths@[k] <= 12,
        decreases 256 - s,
    {
        if lengths[s] > 12 {
            assert(lengths@[s as int] > 12);
            return true;
        }
        s = s + 1;
    }
    false
}

/// The code lengths of a histogram fill the code space of so many bits: there
/// are enough codes, and the counts are not out of all proportion.
pub open spec fn histogram_fits(count: Seq<u32>, max_symbol: u32, max_nb_bits: u32) -> bool {
    &&& length_target(max_nb_bits) <= 12
    &&& present(count, (max_symbol + 1) as nat) <= pow2(length_target(max_nb_bits) as nat)
    &&& total_count(count, (max_symbol + 1) as nat) <= 0x200_0000
}

/// Builds the compression table for a histogram with codes of at most
/// `max_nb_bits` bits; 0 stands for the default. Codes whose lengths fill the
/// code space can be read back.
pub fn build_ctable(count: &[u32], max_symbol: u32, max_nb_bits: u32) -> (r: Result<
    HufCTable,
    Error,
>)
    requires
        max_symbol <= 255 ==> count@.len() > max_symbol && present(
            count@,
            (max_symbol + 1) as nat,
        ) >= 2,
    ensures
        match r {
            Ok(ct) => {
                &&& max_symbol <= 255
                &&& ct.max_symbol == max_symbol
                &&& spec_huf_table(count@, max_symbol, max_nb_bits) == Some(ct@)
                &&& lengths_ok(ct.nb_bits@, count@, max_symbol as nat, ct.table_log as nat) ==> ct.wf()
                    && forall|s: int|
                    0 <= s <= max_symbol ==> (ct.encodable(s) <==> #[trigger] count@[s] != 0)
            },
            Err(e) => if max_symbol > 255 {
                e == Error::Encode("huffman max symbol too large")
            } else {
                &&& e == Error::Encode("huffman table log too large")
                &&& spec_huf_table(count@, max_symbol, max_nb_bits) is None
            },
        },
        max_symbol <= 255 && histogram_fits(count@, max_symbol, max_nb_bits) ==> (r matches Ok(ct) && ct.wf()
            && lengths_ok(ct.nb_bits@, count@, max_symbol as nat, ct.table_log as nat)
            && 1 <= ct.table_log <= length_target(max_nb_bits)),
{
    proof {
        reveal(spec_huf_lengths);
    }
    let target: u32 = if max_nb_bits == 0 {
        HUF_TABLELOG_DEFAULT
    } else {
        max_nb_bits
    };
    if max_symbol > 255 {
        return Err(Error::Encode("huffman max symbol too large"));
    }
    proof {
        if histogram_fits(count@, max_symbol, max_nb_bits) {
            law_lengths_fill_the_code_space(count@, max_symbol as nat, target, 0, 0);
        }
    }
    let mut nodes = Nodes::new();
    huf_sort(&mut nodes, count, max_symbol);
    let non_null_rank: i32 = huf_build_tree(&mut nodes, max_symbol);
    let table_log: u32 = huf_set_max_height(&mut nodes, non_null_rank, target);
    if table_log > HUF_TABLELOG_MAX {
        return Err(Error::Encode("huffman table log too large"));
    }
    let lengths: Vec<u8> = tree_lengths(&nodes, non_null_rank, max_symbol);
    if has_long(&lengths) {
        return Err(Error::Encode("huffman table log too large"));
    }
    if table_log >= 1 && check_lengths(&lengths, count, max_symbol, table_log) {
        return Ok(assign_codes(lengths, max_symbol, table_log));
    }
    Ok(codes_by_length(lengths, max_symbol, table_log))
}

/// The table of a histogram, if its codes fill the code space.
pub fn complete_table(count: &[u32], max_symbol: u32, max_nb_bits: u32) -> (r: Option<HufCTable>)
    requires
        max_symbol <= 255,
        count@.len() > max_symbol,
        present(count@, (max_symbol + 1) as nat) >= 2,
    ensures
        match r {
            Some(ct) => {
                &&& ct.wf()
                &&& ct.max_symbol == max_symbol
                &&& spec_complete_table(count@, max_symbol, max_nb_bits) == Some(ct@)
                &&& forall|s: int|
                    0 <= s <= max_symbol ==> (ct.encodable(s) <==> #[trigger] count@[s] != 0)
            },
            None => spec_complete_table(count@, max_symbol, max_nb_bits) is None,
        },
        histogram_fits(count@, max_symbol, max_nb_bits) ==> r is Some,
{
    proof {
        reveal(spec_huf_lengths);
        reveal_with_fuel(lengths_read, 1);
    }
    match build_ctable(count, max_symbol, max_nb_bits) {
        Ok(ct) => {
            proof {
                lemma_read_outside(count@, max_symbol as nat, length_target(max_nb_bits));
            }
            if 1 <= ct.table_log && ct.table_log <= 12 && check_lengths(&ct.nb_bits, count, max_symbol, ct.table_log) {
                Some(ct)
            } else {
                None
            }
        },
        Err(_) => None,
    }
}

/// Symbols that are not counted have no code.
proof fn lemma_read_outside(count: Seq<u32>, max_symbol: nat, target: u32)
    requires
        max_symbol <= 255,
    ensures
        spec_huf_lengths(count, max_symbol, target) matches Some((lengths, log)) ==> lengths.len() == 256 && forall|s: int|
            max_symbol < s < 256 ==> #[trigger] lengths[s] == 0,
{
    reveal(spec_huf_lengths);
    let sorted = leaves_sorted(count, max_symbol);
    let last = last_leaf(sorted, max_symbol as int);
    let (t, log) = height_limited(tree_built(sorted, last), last, target);
    lemma_read_within(t, 0, last, max_symbol, Seq::new(256, |i: int| 0u8));
}

proof fn lemma_read_within(t: Seq<NodeElt>, n: int, last: int, max_symbol: nat, lengths: Seq<u8>)
    requires
        max_symbol <= 255,
        lengths.len() == 256,
        forall|s: int| max_symbol < s < 256 ==> #[trigger] lengths[s] == 0,
    ensures
        lengths_read(t, n, last, max_symbol, lengths).len() == 256,
        forall|s: int|
            max_symbol < s < 256 ==> #[trigger] lengths_read(t, n, last, max_symbol, lengths)[s] == 0,
    decreases last + 1 - n,
{
    reveal_with_fuel(lengths_read, 1);
    if n <= last {
        let v = crate::huffman_tree_model::node_at(t, n);
        lemma_read_within(
            t,
            n + 1,
            last,
            max_symbol,
            if v.byte <= max_symbol {
                lengths.update(v.byte as int, v.nb_bits)
            } else {
                lengths
            },
        );
    }
}

} // verus!
