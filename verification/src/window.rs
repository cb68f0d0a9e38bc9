//! The index window of the match finders.
//!
//! Tables hold 32-bit indices. Position `p` of the current segment has index
//! `p + seg_bias`, and position `p` of the segment before it, the external
//! part, has index `p + dict_bias`; both wrap around. Indices from `low_limit`
//! on are valid, and those from `dict_limit` on belong to the current segment.

use crate::math::pow2_u64;
use crate::parser::{index_of, to_index};
use vstd::arithmetic::power2::{lemma2_to64, lemma_pow2_strictly_increases, pow2};
use vstd::prelude::*;

verus! {

/// Indices 0 and 1 are never used, so that an empty table entry is no match.
pub const WINDOW_START_INDEX: u32 = 2;

/// The running index at which the index space is recycled.
pub const CURRENT_MAX: u32 = 3670016000;

#[derive(Clone, Copy)]
pub struct Window {
    pub seg_bias: u32,
    pub dict_bias: u32,
    pub low_limit: u32,
    pub dict_limit: u32,
    /// Where the next chunk must start to continue the segment, and the index
    /// it then gets.
    pub next_src_pos: usize,
    pub next_src_idx: u32,
}

/// The window once the non-adjoining chunk at `start` begins a new segment:
/// the current segment becomes the external one, unless it is too short.
pub open spec fn spec_flip(w: Window, start: nat) -> Window {
    Window {
        seg_bias: ((w.next_src_idx - start) % 0x1_0000_0000) as u32,
        dict_bias: w.seg_bias,
        low_limit: if (w.next_src_idx - w.dict_limit) % 0x1_0000_0000 < 8 {
            w.next_src_idx
        } else {
            w.dict_limit
        },
        dict_limit: w.next_src_idx,
        next_src_pos: w.next_src_pos,
        next_src_idx: w.next_src_idx,
    }
}

/// The window after the chunk `start .. end` of the buffer. The part of the
/// external segment that the chunk overwrites is given up.
pub open spec fn spec_update(w: Window, start: nat, end: nat) -> Window {
    if start == end {
        w
    } else {
        let f = if start != w.next_src_pos {
            spec_flip(w, start)
        } else {
            w
        };
        let overlaps = end > f.low_limit - f.dict_bias && start < f.dict_limit - f.dict_bias;
        Window {
            low_limit: if !overlaps {
                f.low_limit
            } else if end + f.dict_bias > f.dict_limit {
                f.dict_limit
            } else {
                (end + f.dict_bias) as u32
            },
            next_src_pos: end as usize,
            next_src_idx: index_of(end, f.seg_bias),
            ..f
        }
    }
}

/// An index after `correction` has been taken off, with those that fall below
/// the first usable index squashed to it.
pub open spec fn reduced(x: u32, correction: u32) -> u32 {
    if x < correction + 2 {
        2
    } else {
        (x - correction) as u32
    }
}

/// The window without what is more than `max_dist` below `idx`.
pub open spec fn spec_enforced(w: Window, idx: u32, max_dist: u32) -> Window {
    let new_low = idx - max_dist;
    let low = if idx > max_dist && w.low_limit < new_low {
        new_low as u32
    } else {
        w.low_limit
    };
    Window {
        low_limit: low,
        dict_limit: if idx > max_dist && w.dict_limit < low {
            low
        } else {
            w.dict_limit
        },
        ..w
    }
}

/// What is taken off every index so that the one at `block_start` comes down
/// to about `max_dist`, keeping its low `cycle_log` bits.
pub open spec fn spec_correction(w: Window, cycle_log: u32, max_dist: u32, block_start: nat) -> u32 {
    let cycle = pow2(cycle_log as nat) as int;
    let curr = index_of(block_start, w.seg_bias) as int;
    let low = curr % cycle;
    let keep = low + (if low < 2 {
        cycle
    } else {
        0
    }) + (if max_dist > cycle {
        max_dist as int
    } else {
        cycle
    });
    if curr >= keep {
        (curr - keep) as u32
    } else {
        0
    }
}

/// The window with `correction` taken off every index.
pub open spec fn spec_corrected(w: Window, correction: u32) -> Window {
    Window {
        seg_bias: ((w.seg_bias - correction) % 0x1_0000_0000) as u32,
        dict_bias: ((w.dict_bias - correction) % 0x1_0000_0000) as u32,
        next_src_idx: ((w.next_src_idx - correction) % 0x1_0000_0000) as u32,
        low_limit: reduced(w.low_limit, correction),
        dict_limit: reduced(w.dict_limit, correction),
        next_src_pos: w.next_src_pos,
    }
}

impl Window {
    /// The window of an empty frame.
    pub fn new() -> (r: Self)
        ensures
            r == (Window {
                seg_bias: 2,
                dict_bias: 2,
                low_limit: 2,
                dict_limit: 2,
                next_src_pos: 0,
                next_src_idx: 2,
            }),
    {
        Window {
            seg_bias: WINDOW_START_INDEX,
            dict_bias: WINDOW_START_INDEX,
            low_limit: WINDOW_START_INDEX,
            dict_limit: WINDOW_START_INDEX,
            next_src_pos: 0,
            next_src_idx: WINDOW_START_INDEX,
        }
    }

    /// The window over a dictionary followed by the source, the dictionary as
    /// the external segment.
    pub fn preloaded_ext_dict(dict_len: usize, src_len: usize) -> (r: Self)
        requires
            dict_len + src_len <= u32::MAX - 2,
        ensures
            r == (Window {
                seg_bias: 2,
                dict_bias: 2,
                low_limit: 2,
                dict_limit: (2 + dict_len) as u32,
                next_src_pos: (dict_len + src_len) as usize,
                next_src_idx: (2 + dict_len + src_len) as u32,
            }),
    {
        Window {
            seg_bias: WINDOW_START_INDEX,
            dict_bias: WINDOW_START_INDEX,
            low_limit: WINDOW_START_INDEX,
            dict_limit: WINDOW_START_INDEX + dict_len as u32,
            next_src_pos: dict_len + src_len,
            next_src_idx: WINDOW_START_INDEX + (dict_len + src_len) as u32,
        }
    }

    /// The window over a prefix followed by a segment, all of it current.
    pub fn preloaded_contiguous_prefix(total_len: usize) -> (r: Self)
        requires
            total_len <= u32::MAX - 2,
        ensures
            r == (Window {
                seg_bias: 2,
                dict_bias: 2,
                low_limit: 2,
                dict_limit: 2,
                next_src_pos: total_len,
                next_src_idx: (2 + total_len) as u32,
            }),
    {
        Window {
            seg_bias: WINDOW_START_INDEX,
            dict_bias: WINDOW_START_INDEX,
            low_limit: WINDOW_START_INDEX,
            dict_limit: WINDOW_START_INDEX,
            next_src_pos: total_len,
            next_src_idx: WINDOW_START_INDEX + total_len as u32,
        }
    }

    /// The window over an attached dictionary followed by the source: only the
    /// source is in it.
    pub fn preloaded_attached_dict(content_len: usize, src_len: usize) -> (r: Self)
        requires
            content_len + src_len <= u32::MAX - 2,
        ensures
            r == (Window {
                seg_bias: 2,
                dict_bias: 2,
                low_limit: (2 + content_len) as u32,
                dict_limit: (2 + content_len) as u32,
                next_src_pos: (content_len + src_len) as usize,
                next_src_idx: (2 + content_len + src_len) as u32,
            }),
    {
        let src_start: u32 = WINDOW_START_INDEX + content_len as u32;
        Window {
            seg_bias: WINDOW_START_INDEX,
            dict_bias: WINDOW_START_INDEX,
            low_limit: src_start,
            dict_limit: src_start,
            next_src_pos: content_len + src_len,
            next_src_idx: WINDOW_START_INDEX + (content_len + src_len) as u32,
        }
    }

    /// The window over an attached dictionary before a source whose length is
    /// not known: the source's chunks follow the dictionary.
    pub fn streaming_attached_dict(content_len: usize) -> (r: Self)
        requires
            content_len <= u32::MAX - 2,
        ensures
            r == (Window {
                seg_bias: 2,
                dict_bias: 2,
                low_limit: (2 + content_len) as u32,
                dict_limit: (2 + content_len) as u32,
                next_src_pos: content_len,
                next_src_idx: (2 + content_len) as u32,
            }),
    {
        let src_start: u32 = WINDOW_START_INDEX + content_len as u32;
        Window {
            seg_bias: WINDOW_START_INDEX,
            dict_bias: WINDOW_START_INDEX,
            low_limit: src_start,
            dict_limit: src_start,
            next_src_pos: content_len,
            next_src_idx: src_start,
        }
    }

    /// Registers `start .. end` of the buffer as the next chunk. Returns
    /// whether it continues the current segment.
    #[verifier::spinoff_prover]
    #[verifier::rlimit(40)]
    pub fn update(&mut self, start: usize, end: usize) -> (r: bool)
        requires
            start <= end <= u32::MAX,
        ensures
            *final(self) == spec_update(*old(self), start as nat, end as nat),
            r == (start == end || start == old(self).next_src_pos),
    {
        if start == end {
            return true;
        }
        let mut contiguous: bool = true;
        if start != self.next_src_pos {
            self.low_limit = self.dict_limit;
            self.dict_limit = self.next_src_idx;
            self.dict_bias = self.seg_bias;
            self.seg_bias = self.next_src_idx.wrapping_sub(start as u32);
            if self.dict_limit.wrapping_sub(self.low_limit) < 8 {
                self.low_limit = self.dict_limit;
            }
            contiguous = false;
        }
        self.next_src_pos = end;
        self.next_src_idx = to_index(end, self.seg_bias);
        let dict_bias: i64 = self.dict_bias as i64;
        if end as i64 > self.low_limit as i64 - dict_bias && (start as i64) < self.dict_limit as i64
            - dict_bias {
            let high: i64 = end as i64 + dict_bias;
            self.low_limit = if high > self.dict_limit as i64 {
                self.dict_limit
            } else {
                high as u32
            };
        }
        contiguous
    }

    /// Gives up what is more than `max_dist` below `idx`.
    pub fn enforce_max_dist(&mut self, idx: u32, max_dist: u32)
        ensures
            *final(self) == spec_enforced(*old(self), idx, max_dist),
    {
        if idx > max_dist {
            let new_low_limit: u32 = idx - max_dist;
            if self.low_limit < new_low_limit {
                self.low_limit = new_low_limit;
            }
            if self.dict_limit < self.low_limit {
                self.dict_limit = self.low_limit;
            }
        }
    }

    /// Whether there is an external segment.
    pub fn has_ext_dict(&self) -> (r: bool)
        ensures
            r == (self.low_limit < self.dict_limit),
    {
        self.low_limit < self.dict_limit
    }

    /// Whether the index at buffer position `block_end` is too high.
    pub fn needs_overflow_correction(&self, block_end: usize) -> (r: bool)
        requires
            block_end <= u32::MAX,
        ensures
            r == (index_of(block_end as nat, self.seg_bias) > CURRENT_MAX),
    {
        to_index(block_end, self.seg_bias) > CURRENT_MAX
    }

    /// Lowers every index so that the one at `block_start` comes down to about
    /// `max_dist`, keeping its low `cycle_log` bits. Returns what was taken
    /// off; the tables must be reduced by the same.
    pub fn correct_overflow(&mut self, cycle_log: u32, max_dist: u32, block_start: usize) -> (r: u32)
        requires
            1 <= cycle_log <= 29,
            max_dist <= 0x8000_0000,
            block_start <= u32::MAX,
        ensures
            r == spec_correction(*old(self), cycle_log, max_dist, block_start as nat),
            *final(self) == spec_corrected(*old(self), r),
    {
        proof {
            lemma2_to64();
            lemma_pow2_strictly_increases(0, cycle_log as nat);
            if cycle_log < 29 {
                lemma_pow2_strictly_increases(cycle_log as nat, 29);
            }
        }
        let cycle_size: u32 = pow2_u64(cycle_log) as u32;
        let curr: u32 = to_index(block_start, self.seg_bias);
        let current_cycle: u32 = curr % cycle_size;
        let cycle_correction: u32 = if current_cycle < WINDOW_START_INDEX {
            cycle_size
        } else {
            0
        };
        let reach: u32 = if max_dist > cycle_size {
            max_dist
        } else {
            cycle_size
        };
        let new_current: u32 = current_cycle + cycle_correction + reach;
        let correction: u32 = if curr >= new_current {
            curr - new_current
        } else {
            0
        };
        self.seg_bias = self.seg_bias.wrapping_sub(correction);
        self.dict_bias = self.dict_bias.wrapping_sub(correction);
        self.next_src_idx = self.next_src_idx.wrapping_sub(correction);
        self.low_limit = reduce_index(self.low_limit, correction);
        self.dict_limit = reduce_index(self.dict_limit, correction);
        correction
    }
}

fn reduce_index(x: u32, correction: u32) -> (r: u32)
    ensures
        r == reduced(x, correction),
{
    if (x as u64) < correction as u64 + 2 {
        WINDOW_START_INDEX
    } else {
        x - correction
    }
}

/// A table entry after `correction` has been taken off: entries that fall
/// below the first usable index are emptied, and the mark of an unsorted tree
/// node may be kept.
pub open spec fn reduced_entry(x: u32, correction: u32, preserve_mark: bool) -> u32 {
    if preserve_mark && x == 1 {
        1
    } else if x < correction + 2 {
        0
    } else {
        (x - correction) as u32
    }
}

/// A table with `correction` taken off every entry.
pub open spec fn reduced_table(table: Seq<u32>, correction: u32, preserve_mark: bool) -> Seq<u32> {
    Seq::new(table.len(), |i: int| reduced_entry(table[i], correction, preserve_mark))
}

/// Takes `correction` off every entry of a table.
pub fn reduce_table(table: &mut Vec<u32>, correction: u32, preserve_mark: bool)
    ensures
        final(table)@ == reduced_table(old(table)@, correction, preserve_mark),
{
    let ghost before = table@;
    let mut i: usize = 0;
    while i < table.len()
        invariant
            i <= table@.len(),
            table@.len() == before.len(),
            forall|k: int|
                0 <= k < i ==> #[trigger] table@[k] == reduced_entry(
                    before[k],
                    correction,
                    preserve_mark,
                ),
            forall|k: int| i <= k < before.len() ==> #[trigger] table@[k] == before[k],
        decreases table@.len() - i,
    {
        let v: u32 = table[i];
        let w: u32 = if preserve_mark && v == 1 {
            1
        } else if (v as u64) < correction as u64 + 2 {
            0
        } else {
            v - correction
        };
        table.set(i, w);
        i = i + 1;
    }
    assert(table@ =~= reduced_table(before, correction, preserve_mark));
}

} // verus!
