//! A binary tree of positions, sorted by the bytes that follow them: two slots
//! for each position, in a table whose size is a power of two.

use crate::math::pow2_u64;
use crate::parser::{count_eq, to_index, to_pos};
use crate::tree_model::{inserted, node_below, reach, slot_of, sorted_in, DescentView, Insertion, Sorted, TreePlace};
use vstd::arithmetic::power2::{lemma2_to64, lemma_pow2_strictly_increases, lemma_pow2_unfold, pow2};
use vstd::prelude::*;

verus! {

/// Where a node hangs, or nowhere.
pub type Slot = Option<usize>;

/// A table for the tree, of `2^log` slots.
pub open spec fn is_tree_table(table: Seq<u32>, log: u32) -> bool {
    &&& 6 <= log <= 28
    &&& table.len() == pow2(log as nat)
}

/// Half the table: how many positions the tree holds.
pub fn tree_size(log: u32) -> (r: u32)
    requires
        6 <= log <= 28,
    ensures
        r >= 1,
        r == pow2((log - 1) as nat),
        2 * r == pow2(log as nat),
{
    proof {
        lemma2_to64();
        lemma_pow2_strictly_increases((log - 1) as nat, 31);
        lemma_pow2_unfold(log as nat);
    }
    pow2_u64(log - 1) as u32
}

/// The first of the two slots of index `idx`.
pub fn tree_slot(log: u32, idx: u32) -> (r: usize)
    requires
        6 <= log <= 28,
    ensures
        r == slot_of(log, idx),
        r + 1 < pow2(log as nat),
        r < usize::MAX,
{
    proof {
        reveal(slot_of);
        lemma2_to64();
        lemma_pow2_strictly_increases(log as nat, 31);
    }
    2 * (idx % tree_size(log)) as usize
}

/// Hangs `value` into a slot, if there is one.
pub fn hang(table: &mut Vec<u32>, slot: Slot, value: u32)
    requires
        slot matches Some(s) ==> s < old(table)@.len(),
    ensures
        final(table)@ == match slot {
            Some(s) => old(table)@.update(s as int, value),
            None => old(table)@,
        },
{
    if let Some(s) = slot {
        table.set(s, value);
    }
}

/// A descent of the tree: the slots where smaller and larger nodes go, and how
/// many bytes those have in common with the position.
pub struct Descent {
    pub smaller: Slot,
    pub larger: Slot,
    pub common_smaller: usize,
    pub common_larger: usize,
}

pub open spec fn slot_view(s: Slot) -> Option<int> {
    match s {
        Some(x) => Some(x as int),
        None => None,
    }
}

impl Descent {
    pub open spec fn view(&self) -> DescentView {
        DescentView {
            smaller: slot_view(self.smaller),
            larger: slot_view(self.larger),
            common_smaller: self.common_smaller as nat,
            common_larger: self.common_larger as nat,
        }
    }

    pub open spec fn ok(&self, n: nat, ip: int, end: int) -> bool {
        &&& self.smaller matches Some(s) ==> s < n
        &&& self.larger matches Some(s) ==> s < n
        &&& ip + self.common_smaller <= end
        &&& ip + self.common_larger <= end
    }

    pub fn start(log: u32, idx: u32, Ghost(ip): Ghost<int>, Ghost(end): Ghost<int>) -> (r: Self)
        requires
            6 <= log <= 28,
            ip <= end,
        ensures
            r@ == DescentView::start(log, idx),
            r.ok(pow2(log as nat), ip, end),
    {
        let root: usize = tree_slot(log, idx);
        Descent {
            smaller: Some(root),
            larger: Some(root + 1),
            common_smaller: 0,
            common_larger: 0,
        }
    }

    /// The bytes that the next node has in common with the position at least.
    pub fn common(&self) -> (r: usize)
        ensures
            r == self@.common(),
    {
        if self.common_smaller < self.common_larger {
            self.common_smaller
        } else {
            self.common_larger
        }
    }

    /// Hangs the node `match_index`, which has `len` bytes in common, and goes
    /// on below it: gives the next node, or none where the tree ends.
    pub fn step(
        &mut self,
        table: &mut Vec<u32>,
        log: u32,
        match_index: u32,
        smaller: bool,
        len: usize,
        low: u32,
        Ghost(ip): Ghost<int>,
        Ghost(end): Ghost<int>,
    ) -> (r: Option<u32>)
        requires
            is_tree_table(old(table)@, log),
            old(self).ok(old(table)@.len(), ip, end),
            ip + len <= end,
        ensures
            is_tree_table(final(table)@, log),
            final(self).ok(final(table)@.len(), ip, end),
            final(table)@ == old(self)@.table_after(old(table)@, match_index, smaller),
            final(self)@ == old(self)@.below(log, match_index, smaller, len as nat, low),
            r == node_below(final(table)@, log, match_index, smaller, low),
    {
        let next: usize = tree_slot(log, match_index);
        if smaller {
            hang(table, self.smaller, match_index);
            self.common_smaller = len;
            if match_index <= low {
                self.smaller = None;
                None
            } else {
                self.smaller = Some(next + 1);
                Some(table[next + 1])
            }
        } else {
            hang(table, self.larger, match_index);
            self.common_larger = len;
            if match_index <= low {
                self.larger = None;
                None
            } else {
                self.larger = Some(next);
                Some(table[next])
            }
        }
    }

    /// Closes the two slots.
    pub fn close(&self, table: &mut Vec<u32>, Ghost(ip): Ghost<int>, Ghost(end): Ghost<int>)
        requires
            self.ok(old(table)@.len(), ip, end),
        ensures
            final(table)@ == self@.closed(old(table)@),
            final(table)@.len() == old(table)@.len(),
    {
        hang(table, self.smaller, 0);
        hang(table, self.larger, 0);
    }
}

/// How far a match of `len` bytes with index `idx` reaches, or `match_end` where
/// that is further.
pub fn further(match_end: u32, idx: u32, len: usize) -> (r: u32)
    requires
        len <= u32::MAX,
    ensures
        r == reach(match_end, idx, len as nat),
{
    proof {
        reveal(reach);
    }
    if len > match_end.wrapping_sub(idx) as usize {
        idx.wrapping_add(len as u32)
    } else {
        match_end
    }
}

/// Descends from `node` on, at most `budget` steps, hanging each node; gives how
/// far the longest match reaches, and its length.
#[verifier::rlimit(60)]
pub fn descend(
    table: &mut Vec<u32>,
    d: &mut Descent,
    data: &[u8],
    ip: usize,
    end: usize,
    bias: u32,
    low: u64,
    log: u32,
    bt_low: u32,
    from: u32,
    past: u32,
    budget: u32,
) -> (r: (u32, usize))
    requires
        is_tree_table(old(table)@, log),
        ip <= end <= data@.len() <= u32::MAX,
        old(d).ok(old(table)@.len(), ip as int, end as int),
    ensures
        is_tree_table(final(table)@, log),
        final(d).ok(final(table)@.len(), ip as int, end as int),
        r.1 <= u32::MAX,
        (Insertion { table: final(table)@, d: final(d)@, match_end: r.0, best: r.1 as nat })
            == inserted(
            TreePlace { data: data@, ip: ip as int, end: end as int, bias, log, bt_low },
            low as int,
            Insertion { table: old(table)@, d: old(d)@, match_end: past, best: 8 },
            Some(from),
            budget as nat,
        ),
{
    let ghost w = TreePlace {
        data: data@,
        ip: ip as int,
        end: end as int,
        bias,
        log,
        bt_low,
    };
    let mut match_end: u32 = past;
    let mut best: usize = 8;
    let mut node: Option<u32> = Some(from);
    let mut nb_compares: u32 = budget;
    let ghost whole = inserted(
        w,
        low as int,
        Insertion { table: table@, d: d@, match_end, best: best as nat },
        node,
        nb_compares as nat,
    );
    while node.is_some() && nb_compares > 0
        invariant
            is_tree_table(table@, log),
            ip <= end <= data@.len() <= u32::MAX,
            d.ok(table@.len(), ip as int, end as int),
            best <= u32::MAX,
            w == (TreePlace {
                data: data@,
                ip: ip as int,
                end: end as int,
                bias,
                log,
                bt_low,
            }),
            whole == inserted(
                w,
                low as int,
                Insertion { table: table@, d: d@, match_end, best: best as nat },
                node,
                nb_compares as nat,
            ),
        decreases nb_compares,
    {
        proof {
            reveal_with_fuel(inserted, 1);
        }
        let mut next: Option<u32> = None;
        if let Some(match_index) = node {
            let m: usize = to_pos(match_index, bias);
            if match_index as u64 >= low && m < ip {
                let common: usize = d.common();
                let len: usize = common + count_eq(data, ip + common, m + common, end);
                assert(len == w.len_with(match_index, d@.common()));
                if len > best {
                    best = len;
                    match_end = further(match_end, match_index, len);
                }
                if ip + len < end {
                    next =
                    d.step(
                        table,
                        log,
                        match_index,
                        data[m + len] < data[ip + len],
                        len,
                        bt_low,
                        Ghost(ip as int),
                        Ghost(end as int),
                    );
                }
            }
        }
        node = next;
        nb_compares = nb_compares - 1;
    }
    proof {
        reveal_with_fuel(inserted, 1);
    }
    (match_end, best)
}

/// Sorts the position `ip` into the tree, with nodes from index `low` on, and
/// gives how many positions may be passed over.
#[verifier::rlimit(30)]
pub fn insert_bt1(
    hash_table: &mut Vec<u32>,
    table: &mut Vec<u32>,
    data: &[u8],
    ip: usize,
    end: usize,
    bias: u32,
    low: u32,
    hash: usize,
    log: u32,
    search_log: u32,
) -> (r: u32)
    requires
        is_tree_table(old(table)@, log),
        hash < old(hash_table)@.len(),
        search_log <= 13,
        ip + 8 <= end <= data@.len() <= u32::MAX,
    ensures
        is_tree_table(final(table)@, log),
        final(hash_table)@ == old(hash_table)@.update(
            hash as int,
            crate::parser::index_of(ip as nat, bias),
        ),
        r >= 1,
        (Sorted { hash: final(hash_table)@, table: final(table)@, forward: r as nat })
            == sorted_in(
            old(hash_table)@,
            old(table)@,
            data@,
            ip as int,
            end as int,
            bias,
            low,
            hash as int,
            log,
            search_log,
        ),
{
    proof {
        reveal(sorted_in);
        lemma2_to64();
        lemma_pow2_strictly_increases(search_log as nat, 31);
    }
    let curr: u32 = to_index(ip, bias);
    let size: u32 = tree_size(log);
    let bt_low: u32 = curr.saturating_sub(size - 1);
    let head: u32 = hash_table[hash];
    let mut d = Descent::start(log, curr, Ghost(ip as int), Ghost(end as int));
    hash_table.set(hash, curr);
    let (match_end, best) = descend(
        table,
        &mut d,
        data,
        ip,
        end,
        bias,
        low as u64,
        log,
        bt_low,
        head,
        curr.wrapping_add(9),
        pow2_u64(search_log) as u32,
    );
    d.close(table, Ghost(ip as int), Ghost(end as int));
    let past: u32 = match_end.wrapping_sub(curr.wrapping_add(8));
    let far: u32 = if best <= 384 {
        1
    } else if best - 384 < 192 {
        (best - 384) as u32
    } else {
        192
    };
    if past > far {
        past
    } else {
        far
    }
}

} // verus!
