//! What the binary trees do, step by step.

use crate::lazy_model::less;
use crate::parser::{common_run, index_of, pos_of};
use vstd::arithmetic::power2::pow2;
use vstd::prelude::*;

verus! {

/// The first of the two slots of index `idx`.
#[verifier::opaque]
pub open spec fn slot_of(log: u32, idx: u32) -> int {
    2 * (idx as int % pow2((log - 1) as nat) as int)
}

/// A table with `value` hung into a slot, if there is one.
pub open spec fn hung(table: Seq<u32>, slot: Option<int>, value: u32) -> Seq<u32> {
    match slot {
        Some(s) => table.update(s, value),
        None => table,
    }
}

/// A descent: the slots where smaller and larger nodes go, and how many bytes
/// those have in common with the position.
pub struct DescentView {
    pub smaller: Option<int>,
    pub larger: Option<int>,
    pub common_smaller: nat,
    pub common_larger: nat,
}

impl DescentView {
    pub open spec fn start(log: u32, idx: u32) -> DescentView {
        DescentView {
            smaller: Some(slot_of(log, idx)),
            larger: Some(slot_of(log, idx) + 1),
            common_smaller: 0,
            common_larger: 0,
        }
    }

    /// The bytes that the next node has in common with the position at least.
    pub open spec fn common(self) -> nat {
        if self.common_smaller < self.common_larger {
            self.common_smaller
        } else {
            self.common_larger
        }
    }

    /// The table with the node hung.
    pub open spec fn table_after(self, table: Seq<u32>, idx: u32, smaller: bool) -> Seq<u32> {
        hung(
            table,
            if smaller {
                self.smaller
            } else {
                self.larger
            },
            idx,
        )
    }

    /// The descent below the node.
    pub open spec fn below(self, log: u32, idx: u32, smaller: bool, len: nat, low: u32) -> DescentView {
        if smaller {
            DescentView {
                smaller: if idx <= low {
                    None
                } else {
                    Some(slot_of(log, idx) + 1)
                },
                common_smaller: len,
                ..self
            }
        } else {
            DescentView {
                larger: if idx <= low {
                    None
                } else {
                    Some(slot_of(log, idx))
                },
                common_larger: len,
                ..self
            }
        }
    }

    /// The table with both slots closed.
    pub open spec fn closed(self, table: Seq<u32>) -> Seq<u32> {
        hung(hung(table, self.smaller, 0), self.larger, 0)
    }
}

/// The node below `idx`, in the table with it hung; none where the tree ends.
pub open spec fn node_below(table: Seq<u32>, log: u32, idx: u32, smaller: bool, low: u32) -> Option<u32> {
    if idx <= low {
        None
    } else if smaller {
        Some(table[slot_of(log, idx) + 1])
    } else {
        Some(table[slot_of(log, idx)])
    }
}

/// What does not change during a descent.
pub struct TreePlace {
    pub data: Seq<u8>,
    pub ip: int,
    pub end: int,
    pub bias: u32,
    pub log: u32,
    /// The lowest index that the tree holds.
    pub bt_low: u32,
}

impl TreePlace {
    /// The bytes that the position has in common with the node `idx`, when
    /// `common` are known.
    pub open spec fn len_with(self, idx: u32, common: nat) -> nat {
        common + common_run(
            self.data,
            self.ip + common,
            pos_of(idx, self.bias) + common,
            self.end,
        )
    }

    /// The node sorts before the position.
    pub open spec fn is_smaller(self, idx: u32, len: nat) -> bool {
        self.data[pos_of(idx, self.bias) + len] < self.data[self.ip + len]
    }
}

/// How far a match with the node reaches, as an index.
#[verifier::opaque]
pub open spec fn reach(match_end: u32, idx: u32, len: nat) -> u32 {
    if len > (match_end - idx) % 0x1_0000_0000 {
        ((idx + len) % 0x1_0000_0000) as u32
    } else {
        match_end
    }
}

/// The state of an insertion.
pub struct Insertion {
    pub table: Seq<u32>,
    pub d: DescentView,
    pub match_end: u32,
    pub best: nat,
}

/// Descends from `node` on, at most `left` steps, through nodes from index
/// `low` on, hanging each.
#[verifier::opaque]
pub open spec fn inserted(w: TreePlace, low: int, s: Insertion, node: Option<u32>, left: nat) -> Insertion
    decreases left,
{
    match node {
        Some(idx) => if left > 0 && idx >= low && pos_of(idx, w.bias) < w.ip {
            let len = w.len_with(idx, s.d.common());
            let s1 = Insertion {
                match_end: if len > s.best {
                    reach(s.match_end, idx, len)
                } else {
                    s.match_end
                },
                best: if len > s.best {
                    len
                } else {
                    s.best
                },
                ..s
            };
            if w.ip + len < w.end {
                let smaller = w.is_smaller(idx, len);
                let t = s.d.table_after(s.table, idx, smaller);
                inserted(
                    w,
                    low,
                    Insertion { table: t, d: s.d.below(w.log, idx, smaller, len, w.bt_low), ..s1 },
                    node_below(t, w.log, idx, smaller, w.bt_low),
                    (left - 1) as nat,
                )
            } else {
                s1
            }
        } else {
            s
        },
        None => s,
    }
}

/// The outcome of sorting in one position.
pub struct Sorted {
    pub hash: Seq<u32>,
    pub table: Seq<u32>,
    /// How many positions may be passed over.
    pub forward: nat,
}

/// The position `ip` sorted into the tree.
#[verifier::opaque]
pub open spec fn sorted_in(
    hash: Seq<u32>,
    table: Seq<u32>,
    data: Seq<u8>,
    ip: int,
    end: int,
    bias: u32,
    low: u32,
    h: int,
    log: u32,
    search_log: u32,
) -> Sorted {
    let curr = index_of(ip as nat, bias);
    let bt_low = less(curr, (pow2((log - 1) as nat) - 1) as nat);
    let s = inserted(
        TreePlace { data, ip, end, bias, log, bt_low },
        low as int,
        Insertion {
            table,
            d: DescentView::start(log, curr),
            match_end: ((curr + 9) % 0x1_0000_0000) as u32,
            best: 8,
        },
        Some(hash[h]),
        pow2(search_log as nat),
    );
    let past = (s.match_end - (curr + 8)) % 0x1_0000_0000;
    let far = if s.best <= 384 {
        1
    } else if s.best - 384 < 192 {
        s.best - 384
    } else {
        192
    };
    Sorted {
        hash: hash.update(h, curr),
        table: s.d.closed(s.table),
        forward: (if past > far {
            past
        } else {
            far
        }) as nat,
    }
}

} // verus!
