//! Counting symbols.

use vstd::prelude::*;

verus! {

/// How often `s` occurs among the first `k` symbols.
pub open spec fn occurrences(src: Seq<u8>, s: int, k: nat) -> nat
    decreases k,
{
    if k == 0 {
        0
    } else {
        occurrences(src, s, (k - 1) as nat) + if src[k - 1] == s {
            1nat
        } else {
            0
        }
    }
}

/// The histogram of `src` over the symbols below `n`.
pub open spec fn is_histogram(count: Seq<u32>, src: Seq<u8>) -> bool {
    forall|s: int|
        0 <= s < count.len() ==> #[trigger] count[s] == occurrences(src, s, src.len())
}

/// What the first `n` counts sum to.
pub open spec fn total_count(count: Seq<u32>, n: nat) -> nat
    decreases n,
{
    if n == 0 {
        0
    } else {
        total_count(count, (n - 1) as nat) + count[n - 1] as nat
    }
}

pub proof fn lemma_total_bounds(count: Seq<u32>, n: nat, i: int)
    requires
        0 <= i < n,
    ensures
        count[i] <= total_count(count, n),
    decreases n,
{
    if i < n - 1 {
        lemma_total_bounds(count, (n - 1) as nat, i);
    }
}

/// How many of the first `k` symbols are below `n`, symbol by symbol.
spec fn occurrences_below(src: Seq<u8>, n: nat, k: nat) -> nat
    decreases n,
{
    if n == 0 {
        0
    } else {
        occurrences_below(src, (n - 1) as nat, k) + occurrences(src, n - 1, k)
    }
}

proof fn lemma_occurrences_below(src: Seq<u8>, n: nat, k: nat)
    requires
        k > 0,
    ensures
        occurrences_below(src, n, k) == occurrences_below(src, n, (k - 1) as nat) + if src[k - 1] < n {
            1nat
        } else {
            0
        },
    decreases n,
{
    if n > 0 {
        lemma_occurrences_below(src, (n - 1) as nat, k);
    }
}

proof fn lemma_all_below(src: Seq<u8>, n: nat, k: nat)
    requires
        k <= src.len(),
        forall|i: int| 0 <= i < src.len() ==> #[trigger] src[i] < n,
    ensures
        occurrences_below(src, n, k) == k,
    decreases k,
{
    if k > 0 {
        lemma_occurrences_below(src, n, k);
        lemma_all_below(src, n, (k - 1) as nat);
        assert(src[k - 1] < n);
    } else {
        lemma_none_below(src, n);
    }
}

proof fn lemma_none_below(src: Seq<u8>, n: nat)
    ensures
        occurrences_below(src, n, 0) == 0,
    decreases n,
{
    if n > 0 {
        lemma_none_below(src, (n - 1) as nat);
    }
}

proof fn lemma_total_below(count: Seq<u32>, src: Seq<u8>, n: nat)
    requires
        is_histogram(count, src),
        n <= count.len(),
    ensures
        total_count(count, n) == occurrences_below(src, n, src.len()),
    decreases n,
{
    if n > 0 {
        lemma_total_below(count, src, (n - 1) as nat);
        assert(count[n - 1] == occurrences(src, n - 1, src.len()));
    }
}

/// A histogram over all the symbols that occur sums to their number.
pub proof fn lemma_histogram_total(count: Seq<u32>, src: Seq<u8>)
    requires
        is_histogram(count, src),
        forall|i: int| 0 <= i < src.len() ==> #[trigger] src[i] < count.len(),
    ensures
        total_count(count, count.len()) == src.len(),
{
    lemma_total_below(count, src, count.len());
    lemma_all_below(src, count.len(), src.len());
}

/// One of symbol `i` less is one less in all.
pub proof fn lemma_total_less(count: Seq<u32>, i: int, n: nat)
    requires
        0 <= i < count.len(),
        count[i] >= 1,
        n <= count.len(),
    ensures
        total_count(count.update(i, (count[i] - 1) as u32), n) == total_count(count, n) - if i < n {
            1int
        } else {
            0
        },
    decreases n,
{
    if n > 0 {
        lemma_total_less(count, i, (n - 1) as nat);
    }
}

pub proof fn lemma_occurrences_bound(src: Seq<u8>, s: int, k: nat)
    ensures
        occurrences(src, s, k) <= k,
    decreases k,
{
    if k > 0 {
        lemma_occurrences_bound(src, s, (k - 1) as nat);
    }
}

/// A symbol that occurs is counted.
pub proof fn lemma_occurs(src: Seq<u8>, i: int, k: nat)
    requires
        0 <= i < k <= src.len(),
    ensures
        occurrences(src, src[i] as int, k) >= 1,
    decreases k,
{
    if i < k - 1 {
        lemma_occurs(src, i, (k - 1) as nat);
    }
}

/// A counted symbol occurs.
pub proof fn lemma_counted(src: Seq<u8>, s: int, k: nat) -> (i: int)
    requires
        k <= src.len(),
        occurrences(src, s, k) >= 1,
    ensures
        0 <= i < k,
        src[i] == s,
    decreases k,
{
    if src[k - 1] == s {
        k - 1
    } else {
        lemma_counted(src, s, (k - 1) as nat)
    }
}

/// A symbol counted as often as there are symbols is the only one.
pub proof fn lemma_all_equal(src: Seq<u8>, s: int, k: nat)
    requires
        k <= src.len(),
        occurrences(src, s, k) == k,
    ensures
        forall|i: int| 0 <= i < k ==> #[trigger] src[i] == s,
    decreases k,
{
    if k > 0 {
        lemma_occurrences_bound(src, s, (k - 1) as nat);
        lemma_all_equal(src, s, (k - 1) as nat);
    }
}

/// A symbol that is not the only one leaves room for another.
pub proof fn lemma_other(src: Seq<u8>, s: int, k: nat) -> (i: int)
    requires
        k <= src.len(),
        occurrences(src, s, k) < k,
    ensures
        0 <= i < k,
        src[i] != s,
    decreases k,
{
    if src[k - 1] != s {
        k - 1
    } else {
        lemma_other(src, s, (k - 1) as nat)
    }
}

/// The histogram of `src` over the symbols below `n`.
pub open spec fn spec_histogram(src: Seq<u8>, n: nat) -> Seq<u32> {
    Seq::new(n, |s: int| occurrences(src, s, src.len()) as u32)
}

/// The largest of the first `n` counts.
pub open spec fn spec_largest(count: Seq<u32>, n: nat) -> u32
    decreases n,
{
    if n == 0 {
        0
    } else if count[n - 1] > spec_largest(count, (n - 1) as nat) {
        count[n - 1]
    } else {
        spec_largest(count, (n - 1) as nat)
    }
}

/// The largest of the symbols below `n` that is counted, or 0.
pub open spec fn spec_top(count: Seq<u32>, n: nat) -> nat
    decreases n,
{
    if n <= 1 {
        0
    } else if count[n - 1] != 0 {
        (n - 1) as nat
    } else {
        spec_top(count, (n - 1) as nat)
    }
}

/// Counts the symbols of `src`, all below `n`.
pub fn histogram(src: &[u8], n: usize) -> (r: Vec<u32>)
    requires
        src@.len() <= u32::MAX,
        forall|i: int| 0 <= i < src@.len() ==> #[trigger] src@[i] < n,
    ensures
        r@.len() == n,
        is_histogram(r@, src@),
        r@ == spec_histogram(src@, n as nat),
        forall|s: int| 0 <= s < n ==> #[trigger] r@[s] <= src@.len(),
{
    let mut count: Vec<u32> = Vec::new();
    let mut j: usize = 0;
    while j < n
        invariant
            j <= n,
            count@.len() == j,
            forall|s: int| 0 <= s < j ==> #[trigger] count@[s] == 0,
        decreases n - j,
    {
        count.push(0);
        j = j + 1;
    }
    let mut i: usize = 0;
    while i < src.len()
        invariant
            i <= src@.len(),
            src@.len() <= u32::MAX,
            count@.len() == n,
            forall|i: int| 0 <= i < src@.len() ==> #[trigger] src@[i] < n,
            forall|s: int|
                0 <= s < n ==> #[trigger] count@[s] == occurrences(src@, s, i as nat),
        decreases src@.len() - i,
    {
        let s: usize = src[i] as usize;
        proof {
            lemma_occurrences_bound(src@, s as int, i as nat);
        }
        let c: u32 = count[s];
        count.set(s, c + 1);
        i = i + 1;
    }
    proof {
        assert forall|s: int| 0 <= s < n implies #[trigger] count@[s] <= src@.len() by {
            lemma_occurrences_bound(src@, s, src@.len());
        }
        assert(count@ =~= spec_histogram(src@, n as nat));
    }
    count
}

/// The largest count.
pub open spec fn is_largest(count: Seq<u32>, m: u32) -> bool {
    &&& forall|s: int| 0 <= s < count.len() ==> #[trigger] count[s] <= m
    &&& (count.len() == 0 ==> m == 0)
    &&& (count.len() > 0 ==> exists|s: int| 0 <= s < count.len() && #[trigger] count[s] == m)
}

pub fn largest_count(count: &[u32]) -> (r: u32)
    ensures
        is_largest(count@, r),
        r == spec_largest(count@, count@.len()),
{
    let mut m: u32 = 0;
    let mut i: usize = 0;
    while i < count.len()
        invariant
            i <= count@.len(),
            forall|s: int| 0 <= s < i ==> #[trigger] count@[s] <= m,
            i == 0 ==> m == 0,
            i > 0 ==> exists|s: int| 0 <= s < i && #[trigger] count@[s] == m,
            m == spec_largest(count@, i as nat),
        decreases count@.len() - i,
    {
        if count[i] > m || i == 0 {
            m = count[i];
            assert(count@[i as int] == m);
        }
        i = i + 1;
    }
    m
}

/// The largest symbol that is counted, or 0.
pub open spec fn is_top_symbol(count: Seq<u32>, top: nat) -> bool {
    &&& forall|s: int| top < s < count.len() ==> #[trigger] count[s] == 0
    &&& top > 0 ==> top < count.len() && count[top as int] != 0
}

pub fn top_symbol(count: &[u32]) -> (r: usize)
    ensures
        is_top_symbol(count@, r as nat),
        count@.len() > 0 ==> r < count@.len(),
        r == spec_top(count@, count@.len()),
{
    let mut i: usize = count.len();
    while i > 1
        invariant
            i <= count@.len(),
            forall|s: int| i <= s < count@.len() ==> #[trigger] count@[s] == 0,
            spec_top(count@, count@.len()) == spec_top(count@, i as nat),
        decreases i,
    {
        if count[i - 1] != 0 {
            return i - 1;
        }
        i = i - 1;
    }
    0
}

} // verus!
