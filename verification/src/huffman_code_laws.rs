//! The code lengths of a histogram fill the code space, and a more frequent
//! symbol never has a longer code.

use crate::bits::{highest_bit, lemma_highest_bit_bound};
use crate::histogram::total_count;
use crate::huffman::weight_sum;
use crate::huffman_codes::weights_of;
use crate::huffman_depth_laws::lemma_tree_built;
use crate::huffman_encode_model::{
    best_log, estimated, spec_complete_table, spec_describe, spec_huf_log, spec_huf_table,
};
use crate::huffman_height_laws::{leaves_fit, lemma_height_limited};
use crate::huffman_made_laws::leaf_shares;
use crate::huffman_shape_laws::{depth_at, leaf_sum, weight_at};
use crate::huffman_sort_laws::{
    bucket, descending, fresh_leaf, in_or_above, in_range, laid, lemma_above_falls, lemma_leaves_sorted,
};
use crate::huffman_tree::{histogram_fits, lemma_weights_step, length_target, lengths_ok, present, NodeElt};
use crate::huffman_tree_model::{
    height_limited, last_leaf, leaves_sorted, lengths_read, node_at, spec_huf_lengths, tree_built,
};
use vstd::arithmetic::power2::{lemma2_to64, lemma2_to64_rest, lemma_pow2_strictly_increases, lemma_pow2_unfold, pow2};
use vstd::prelude::*;

verus! {

proof fn lemma_last_leaf(t: Seq<NodeElt>, n: int)
    requires
        n >= 0,
    ensures
        0 <= last_leaf(t, n) <= n,
        forall|i: int| last_leaf(t, n) < i <= n ==> (#[trigger] node_at(t, i)).count == 0,
        last_leaf(t, n) > 0 ==> node_at(t, last_leaf(t, n)).count > 0,
    decreases n,
{
    reveal_with_fuel(last_leaf, 1);
    if n > 0 && node_at(t, n).count == 0 {
        lemma_last_leaf(t, n - 1);
    }
}

/// The symbols above the lowest bucket are the counted ones.
proof fn lemma_above_present(count: Seq<u32>, n: nat, to: nat)
    requires
        n <= to,
    ensures
        in_or_above(count, 1, n, to) == present(count, to) - present(count, n),
    decreases to - n,
{
    if n < to {
        lemma_above_present(count, n + 1, to);
    }
}

/// The counted leaves come first.
proof fn lemma_counted_first(count: Seq<u32>, t: Seq<NodeElt>, to: nat, pos: Seq<int>, p: int)
    requires
        laid(t, count, to, pos),
        0 <= p < to,
    ensures
        node_at(t, p).count > 0 <==> p < present(count, to),
{
    lemma_above_present(count, 0, to);
    let s = node_at(t, p).byte as int;
    assert(pos[s] == p);
    assert(node_at(t, pos[s]) == fresh_leaf(count, s));
    assert(in_range(count, to, bucket(count, s), p));
    if count[s] > 0 {
        lemma_above_falls(count, 1, bucket(count, s), 0, to);
    }
}

/// The last counted leaf.
proof fn lemma_last(count: Seq<u32>, max_symbol: nat, pos: Seq<int>)
    requires
        max_symbol <= 255,
        present(count, max_symbol + 1) >= 2,
        laid(leaves_sorted(count, max_symbol), count, max_symbol + 1, pos),
    ensures
        last_leaf(leaves_sorted(count, max_symbol), max_symbol as int) == present(count, max_symbol + 1) - 1,
        present(count, max_symbol + 1) <= max_symbol + 1,
{
    let t = leaves_sorted(count, max_symbol);
    let m = present(count, max_symbol + 1);
    crate::huffman_tree::lemma_present_bound(count, max_symbol + 1);
    lemma_last_leaf(t, max_symbol as int);
    let last = last_leaf(t, max_symbol as int);
    lemma_counted_first(count, t, max_symbol + 1, pos, m - 1);
    lemma_counted_first(count, t, max_symbol + 1, pos, last);
    if last < m - 1 {
        assert(node_at(t, m - 1).count == 0);
    }
}

// ---------------------------------------------------------------------------
// Sums.

proof fn lemma_total_zeroed(c: Seq<u32>, i: int, n: nat)
    requires
        0 <= i < c.len(),
        n <= c.len(),
    ensures
        total_count(c.update(i, 0), n) == total_count(c, n) - if i < n {
            c[i] as int
        } else {
            0
        },
    decreases n,
{
    if n > 0 {
        lemma_total_zeroed(c, i, (n - 1) as nat);
    }
}

/// The counts of the symbols that lie after the first `n` leaves.
spec fn later_counts(count: Seq<u32>, pos: Seq<int>, n: int) -> Seq<u32> {
    Seq::new(
        pos.len(),
        |s: int|
            if pos[s] < n {
                0u32
            } else {
                count[s]
            },
    )
}

proof fn lemma_leaf_total(count: Seq<u32>, t: Seq<NodeElt>, to: nat, pos: Seq<int>, n: nat)
    requires
        laid(t, count, to, pos),
        n <= to <= 256,
    ensures
        leaf_sum(t, n) + total_count(later_counts(count, pos, n as int), to) == total_count(
            later_counts(count, pos, 0),
            to,
        ),
    decreases n,
{
    if n > 0 {
        lemma_leaf_total(count, t, to, pos, (n - 1) as nat);
        let b = node_at(t, n - 1).byte as int;
        assert(pos[b] == n - 1);
        assert(node_at(t, pos[b]) == fresh_leaf(count, b));
        let before = later_counts(count, pos, n - 1);
        let after = later_counts(count, pos, n as int);
        assert forall|s: int| 0 <= s < to implies after[s] == before.update(b, 0)[s] by {
            if s != b {
                assert(node_at(t, pos[s]) == fresh_leaf(count, s));
            }
        }
        assert(after =~= before.update(b, 0));
        lemma_total_zeroed(before, b, to);
    }
}

proof fn lemma_total_prefix(a: Seq<u32>, b: Seq<u32>, n: nat)
    requires
        forall|s: int| 0 <= s < n ==> #[trigger] a[s] == b[s],
    ensures
        total_count(a, n) == total_count(b, n),
    decreases n,
{
    if n > 0 {
        lemma_total_prefix(a, b, (n - 1) as nat);
        assert(a[n - 1] == b[n - 1]);
    }
}

// ---------------------------------------------------------------------------
// Lengths.

proof fn lemma_no_weights(n: nat, log: nat)
    requires
        n <= 256,
    ensures
        weight_sum(weights_of(Seq::new(256, |i: int| 0u8), n, log)) == 0,
    decreases n,
{
    let zeros = Seq::new(256, |i: int| 0u8);
    if n > 0 {
        lemma_no_weights((n - 1) as nat, log);
        lemma_weights_step(zeros, (n - 1) as nat, log);
    } else {
        assert(weights_of(zeros, 0, log) =~= Seq::<u8>::empty());
    }
}

/// A symbol that had no code gets one of `d` bits.
proof fn lemma_code_added(lengths: Seq<u8>, b: int, d: u8, n: nat, log: nat)
    requires
        lengths.len() == 256,
        n <= 256,
        0 <= b < 256,
        lengths[b] == 0,
        1 <= d <= log <= 12,
    ensures
        weight_sum(weights_of(lengths.update(b, d), n, log)) == weight_sum(weights_of(lengths, n, log)) + if b < n {
            pow2((log - d) as nat)
        } else {
            0
        },
    decreases n,
{
    let after = lengths.update(b, d);
    if n > 0 {
        lemma_code_added(lengths, b, d, (n - 1) as nat, log);
        lemma_weights_step(lengths, (n - 1) as nat, log);
        lemma_weights_step(after, (n - 1) as nat, log);
    } else {
        assert(weights_of(after, 0, log) =~= weights_of(lengths, 0, log));
    }
}

/// The code lengths, once the leaves before `n` have been read.
spec fn read_up_to(lengths: Seq<u8>, f: Seq<NodeElt>, pos: Seq<int>, n: int, to: nat) -> bool {
    &&& lengths.len() == 256
    &&& forall|s: int|
        0 <= s < 256 ==> #[trigger] lengths[s] == if s < to && pos[s] < n {
            node_at(f, pos[s]).nb_bits
        } else {
            0
        }
}

proof fn lemma_lengths_read(
    t: Seq<NodeElt>,
    f: Seq<NodeElt>,
    n: int,
    last: int,
    max_symbol: nat,
    lengths: Seq<u8>,
    count: Seq<u32>,
    pos: Seq<int>,
    log: nat,
)
    requires
        max_symbol <= 255,
        laid(t, count, max_symbol + 1, pos),
        0 <= n <= last + 1 <= max_symbol + 1,
        leaves_fit(f, last, log),
        1 <= log <= 12,
        forall|i: int| 0 <= i <= last ==> (#[trigger] node_at(f, i)).byte == node_at(t, i).byte,
        read_up_to(lengths, f, pos, n, max_symbol + 1),
        weight_sum(weights_of(lengths, max_symbol + 1, log)) == leaf_shares(f, n as nat, log),
    ensures
        read_up_to(
            lengths_read(f, n, last, max_symbol, lengths),
            f,
            pos,
            last + 1,
            max_symbol + 1,
        ),
        weight_sum(weights_of(lengths_read(f, n, last, max_symbol, lengths), max_symbol + 1, log)) == leaf_shares(
            f,
            (last + 1) as nat,
            log,
        ),
    decreases last + 1 - n,
{
    reveal_with_fuel(lengths_read, 1);
    let to = max_symbol + 1;
    if n <= last {
        let v = node_at(f, n);
        let b = v.byte as int;
        assert(node_at(t, n).byte < to && pos[node_at(t, n).byte as int] == n);
        assert(pos[b] == n && b < to);
        let next = lengths.update(b, v.nb_bits);
        assert(1 <= depth_at(f, n) <= log);
        lemma_code_added(lengths, b, v.nb_bits, to, log);
        assert forall|s: int| 0 <= s < 256 implies #[trigger] next[s] == if s < to && pos[s] < n + 1 {
            node_at(f, pos[s]).nb_bits
        } else {
            0
        } by {
            if s < to && s != b {
                assert(node_at(t, pos[s]) == fresh_leaf(count, s));
                assert(lengths[s] == if pos[s] < n {
                    node_at(f, pos[s]).nb_bits
                } else {
                    0
                });
            }
        }
        lemma_lengths_read(t, f, n + 1, last, max_symbol, next, count, pos, log);
    }
}

/// The code lengths of a histogram whose counts sum to at most `2^25` give
/// exactly the counted symbols a code, fill the code space, and are within the
/// limit, as long as so many codes can be. A more frequent symbol never has a
/// longer code.
pub proof fn law_lengths_fill_the_code_space(count: Seq<u32>, max_symbol: nat, target: u32, a: int, b: int)
    requires
        max_symbol <= 255,
        count.len() > max_symbol,
        1 <= target <= 12,
        2 <= present(count, max_symbol + 1) <= pow2(target as nat),
        total_count(count, max_symbol + 1) <= 0x200_0000,
    ensures
        match spec_huf_lengths(count, max_symbol, target) {
            Some((lengths, log)) => {
                &&& 1 <= log <= target
                &&& lengths_ok(lengths, count, max_symbol, log as nat)
                &&& 0 <= a <= max_symbol && 0 <= b <= max_symbol && count[a] > count[b] > 0 ==> lengths[a]
                    <= lengths[b]
            },
            None => false,
        },
{
    reveal(spec_huf_lengths);
    let to = max_symbol + 1;
    let s = leaves_sorted(count, max_symbol);
    lemma_leaves_sorted(count, max_symbol);
    let pos = choose|pos: Seq<int>| laid(s, count, to, pos);
    lemma_last(count, max_symbol, pos);
    let last = last_leaf(s, max_symbol as int);
    assert forall|i: int| 0 <= i <= last implies #[trigger] weight_at(s, i) >= 1 by {
        lemma_counted_first(count, s, to, pos, i);
    }
    assert(descending(s, 0, last));
    lemma_leaf_total(count, s, to, pos, (last + 1) as nat);
    assert forall|i: int| 0 <= i < to implies #[trigger] later_counts(count, pos, 0)[i] == count[i] by {
        assert(0 <= pos[i]);
    }
    lemma_total_prefix(later_counts(count, pos, 0), count, to);
    lemma_tree_built(s, last);
    let t = tree_built(s, last);
    lemma2_to64();
    if target < 5 {
        lemma_pow2_strictly_increases(target as nat, 5);
    }
    assert(1 <= depth_at(t, last) <= last);
    lemma_height_limited(s, t, last, target);
    let (f, log) = height_limited(t, last, target);
    let zeros = Seq::new(256, |i: int| 0u8);
    lemma_no_weights(to, log as nat);
    assert forall|i: int| 0 <= i <= last implies (#[trigger] node_at(f, i)).byte == node_at(s, i).byte by {
        assert(node_at(f, i).byte == node_at(t, i).byte);
        assert(node_at(t, i).byte == node_at(s, i).byte);
    }
    lemma_lengths_read(s, f, 0, last, max_symbol, zeros, count, pos, log as nat);
    let lengths = lengths_read(f, 0, last, max_symbol, zeros);
    assert forall|x: int| 0 <= x <= max_symbol implies (#[trigger] lengths[x] != 0 <==> count[x] != 0) && (count[x]
        != 0 ==> pos[x] <= last) by {
        assert(node_at(s, pos[x]) == fresh_leaf(count, x));
        lemma_counted_first(count, s, to, pos, pos[x]);
        if pos[x] <= last {
            assert(1 <= depth_at(f, pos[x]) <= log);
        }
    }
    assert forall|x: int| 0 <= x < 256 implies #[trigger] lengths[x] <= log by {
        if x < to && pos[x] <= last {
            assert(1 <= depth_at(f, pos[x]) <= log);
        }
    }
    let w = weights_of(lengths, to, log as nat);
    assert forall|i: int| 0 <= i < w.len() implies #[trigger] w[i] <= 12 by {
        assert(lengths[i] <= log);
    }
    if 0 <= a <= max_symbol && 0 <= b <= max_symbol && count[a] > count[b] > 0 {
        assert(lengths[a] != 0 <==> count[a] != 0);
        assert(lengths[b] != 0 <==> count[b] != 0);
        assert(node_at(s, pos[a]) == fresh_leaf(count, a));
        assert(node_at(s, pos[b]) == fresh_leaf(count, b));
        if pos[b] <= pos[a] {
            assert(node_at(s, pos[b]).count >= node_at(s, pos[a]).count);
        }
        assert(depth_at(f, pos[a]) <= depth_at(f, pos[b]));
    }
}

// ---------------------------------------------------------------------------
// Tables.

/// A histogram that fits has a table, and it can be read back.
pub proof fn law_fitting_histograms_have_tables(count: Seq<u32>, max_symbol: u32, max_nb_bits: u32)
    requires
        max_symbol <= 255,
        count.len() > max_symbol,
        present(count, (max_symbol + 1) as nat) >= 2,
        histogram_fits(count, max_symbol, max_nb_bits),
    ensures
        spec_complete_table(count, max_symbol, max_nb_bits) is Some,
        spec_complete_table(count, max_symbol, max_nb_bits) == spec_huf_table(count, max_symbol, max_nb_bits),
{
    law_lengths_fill_the_code_space(
        count,
        max_symbol as nat,
        length_target(max_nb_bits),
        0,
        0,
    );
}

proof fn lemma_present_at_most(count: Seq<u32>, k: nat)
    ensures
        present(count, k) <= total_count(count, k),
    decreases k,
{
    if k > 0 {
        lemma_present_at_most(count, (k - 1) as nat);
    }
}

/// The log that a search ends with is the largest one, or one that was tried.
proof fn lemma_best_log(
    count: Seq<u32>,
    max_symbol: u32,
    max_log: u32,
    min_log: u32,
    guess: nat,
    best: u32,
    best_size: int,
)
    requires
        guess >= min_log,
        best == max_log || min_log <= best <= max_log,
    ensures
        ({
            let r = best_log(count, max_symbol, max_log, min_log, guess, best, best_size);
            r == max_log || min_log <= r <= max_log
        }),
    decreases max_log + 1 - guess,
{
    reveal_with_fuel(best_log, 1);
    if guess <= max_log {
        lemma_best_log(count, max_symbol, max_log, min_log, guess + 1, best, best_size);
        if let Some(ct) = spec_complete_table(count, max_symbol, guess as u32) {
            if let Some(d) = spec_describe(ct) {
                let size = estimated(ct, count, max_symbol) + d.len();
                lemma_best_log(count, max_symbol, max_log, min_log, guess + 1, guess as u32, size as int);
            }
        }
    }
}

/// Literals of two symbols or more, and of at most `2^25` bytes, have a table
/// with the log that is picked for them: no block goes without one.
pub proof fn law_literals_have_a_table(count: Seq<u32>, max_symbol: u32, n: nat, optimal_depth: bool)
    requires
        1 <= max_symbol <= 255,
        count.len() > max_symbol,
        present(count, (max_symbol + 1) as nat) >= 2,
        total_count(count, (max_symbol + 1) as nat) == n,
        2 <= n <= 0x200_0000,
    ensures
        spec_complete_table(
            count,
            max_symbol,
            spec_huf_log(11, n, max_symbol, count, optimal_depth),
        ) is Some,
{
    reveal(spec_huf_log);
    let m = present(count, (max_symbol + 1) as nat);
    let log = spec_huf_log(11, n, max_symbol, count, optimal_depth);
    lemma2_to64();
    lemma2_to64_rest();
    crate::huffman_tree::lemma_present_bound(count, (max_symbol + 1) as nat);
    lemma_present_at_most(count, (max_symbol + 1) as nat);
    lemma_highest_bit_bound(m, 9);
    lemma_highest_bit_bound(n, 32);
    lemma_highest_bit_bound(max_symbol as nat, 8);
    if optimal_depth {
        let min_log = (highest_bit(m) + 1) as u32;
        lemma_best_log(count, max_symbol, 11, min_log, min_log as nat, 11, 0xFFFF_FFFF_FFFF_FFFE);
        lemma_pow2_unfold(min_log as nat);
        if log > min_log {
            lemma_pow2_strictly_increases(min_log as nat, log as nat);
        }
    } else {
        let a = highest_bit(n) + 1;
        let b = highest_bit(max_symbol as nat) + 2;
        lemma_pow2_unfold(a);
        lemma_pow2_unfold(b);
        lemma_pow2_unfold((b - 1) as nat);
        if log > a {
            lemma_pow2_strictly_increases(a, log as nat);
        }
        if log > b {
            lemma_pow2_strictly_increases(b, log as nat);
        }
        assert(log >= a || log >= b);
    }
    assert(1 <= log <= 12);
    law_fitting_histograms_have_tables(count, max_symbol, log);
}

} // verus!
