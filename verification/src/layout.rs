//! The history that a window shows, laid out in one buffer.
//!
//! The two segments of a window may lie anywhere in the caller's buffer: after
//! a ring buffer has wrapped around, the older one lies behind the newer. The
//! match finders search a buffer in which the segments adjoin, in the order of
//! their indices, with the block behind them.

use crate::parser::{common_run, ends_with, index_of, to_index, to_pos, two_part_run};
use crate::window::{spec_corrected, spec_correction, spec_enforced, spec_update, Window, CURRENT_MAX};
use vstd::arithmetic::power2::{lemma2_to64, lemma_pow2_strictly_increases, pow2};
use vstd::prelude::*;
use vstd::slice::slice_subrange;

verus! {

/// A window over one buffer: position `p` has index `p + bias`. Indices from
/// `low_limit` on are valid, and those from `dict_limit` on belong to the
/// newer segment.
#[derive(Clone, Copy)]
pub struct Layout {
    pub bias: u32,
    pub low_limit: u32,
    pub dict_limit: u32,
}

impl Layout {
    /// Whether there is an external segment.
    pub fn has_ext_dict(&self) -> (r: bool)
        ensures
            r == (self.low_limit < self.dict_limit),
    {
        self.low_limit < self.dict_limit
    }

    /// Moves all indices up by `n` and gives up everything before the newer
    /// segment.
    pub fn slide_for_init_stats(&mut self, n: usize)
        requires
            n <= 131072,
        ensures
            *final(self) == slid_layout(*old(self), n as nat),
    {
        self.bias = to_index(n, self.bias);
        self.dict_limit = to_index(n, self.dict_limit);
        self.low_limit = self.dict_limit;
    }
}

/// The layout with all indices moved up by `n`, and nothing before the newer
/// segment.
pub open spec fn slid_layout(win: Layout, n: nat) -> Layout {
    Layout {
        bias: index_of(n, win.bias),
        dict_limit: index_of(n, win.dict_limit),
        low_limit: index_of(n, win.dict_limit),
    }
}

impl Window {
    /// The position of index `i` in the caller's buffer.
    pub open spec fn place(self, i: int) -> int {
        if i < self.dict_limit {
            (i - self.dict_bias) % 0x1_0000_0000
        } else {
            (i - self.seg_bias) % 0x1_0000_0000
        }
    }

    /// The bytes of the valid indices before position `pos`.
    pub open spec fn shown(self, data: Seq<u8>, pos: nat) -> Seq<u8> {
        Seq::new(
            (index_of(pos, self.seg_bias) - self.low_limit) as nat,
            |k: int| data[self.place(self.low_limit + k)],
        )
    }

    /// Both segments lie within a buffer of `len` bytes, the newer up to `pos`.
    pub open spec fn fits(self, len: nat, pos: nat) -> bool {
        let curr = index_of(pos, self.seg_bias);
        &&& self.low_limit <= self.dict_limit <= curr
        &&& curr - self.dict_limit <= pos
        &&& self.low_limit < self.dict_limit ==> (self.low_limit - self.dict_bias) % 0x1_0000_0000
            + (self.dict_limit - self.low_limit) <= len
    }

    /// The window after the match finder went from the layout `before` to the
    /// layout `after`.
    pub open spec fn spec_followed(self, before: Layout, after: Layout) -> Window {
        let shift = after.bias - before.bias;
        Window {
            seg_bias: ((self.seg_bias + shift) % 0x1_0000_0000) as u32,
            next_src_idx: ((self.next_src_idx + shift) % 0x1_0000_0000) as u32,
            low_limit: after.low_limit,
            dict_limit: after.dict_limit,
            ..self
        }
    }

    pub fn follow(&mut self, before: Layout, after: Layout)
        ensures
            *final(self) == old(self).spec_followed(before, after),
    {
        let shift: u32 = after.bias.wrapping_sub(before.bias);
        self.seg_bias = self.seg_bias.wrapping_add(shift);
        self.next_src_idx = self.next_src_idx.wrapping_add(shift);
        self.low_limit = after.low_limit;
        self.dict_limit = after.dict_limit;
    }

    /// The layout of the history shown before a block, in a buffer that begins
    /// with the lowest valid index.
    pub open spec fn spec_layout(self) -> Layout {
        Layout { bias: self.low_limit, low_limit: self.low_limit, dict_limit: self.dict_limit }
    }

    /// Both segments lie within the buffer, and the indices of the block
    /// `pos .. end` do not wrap around.
    pub open spec fn holds_block(self, len: nat, pos: nat, end: nat) -> bool {
        self.fits(len, pos) && index_of(pos, self.seg_bias) + (end - pos) <= u32::MAX
    }

    pub fn can_hold(&self, len: usize, pos: usize, end: usize) -> (r: bool)
        requires
            pos <= end <= len <= u32::MAX,
        ensures
            r == self.holds_block(len as nat, pos as nat, end as nat),
    {
        let curr: u32 = to_index(pos, self.seg_bias);
        self.low_limit <= self.dict_limit && self.dict_limit <= curr && (curr - self.dict_limit) as usize
            <= pos && (self.low_limit == self.dict_limit || to_pos(self.low_limit, self.dict_bias) as u64
            + (self.dict_limit - self.low_limit) as u64 <= len as u64) && curr as u64 + (end - pos) as u64
            <= u32::MAX as u64
    }

    /// Whether the history shown is one run of the caller's buffer.
    pub fn is_one_run(&self) -> (r: bool)
        ensures
            r == (self.low_limit >= self.dict_limit || self.dict_bias == self.seg_bias),
    {
        self.low_limit >= self.dict_limit || self.dict_bias == self.seg_bias
    }

    /// Where the history shown before `pos` begins, if it is one run.
    pub fn run_start(&self, data: &[u8], pos: usize) -> (r: usize)
        requires
            pos <= data@.len() <= u32::MAX,
            self.fits(data@.len(), pos as nat),
            self.low_limit >= self.dict_limit || self.dict_bias == self.seg_bias,
        ensures
            r <= pos,
            self.shown(data@, pos as nat) == data@.subrange(r as int, pos as int),
    {
        let curr: u32 = to_index(pos, self.seg_bias);
        proof {
            lemma_shown_parts(*self, data@, pos as nat);
        }
        let r: usize = pos - (curr - self.low_limit) as usize;
        assert(self.shown(data@, pos as nat) =~= data@.subrange(r as int, pos as int));
        r
    }

    /// The history shown before `pos`, followed by the block up to `end`.
    pub fn join(&self, data: &[u8], pos: usize, end: usize) -> (r: Vec<u8>)
        requires
            pos <= end <= data@.len() <= u32::MAX,
            self.fits(data@.len(), pos as nat),
        ensures
            r@ == self.shown(data@, pos as nat) + data@.subrange(pos as int, end as int),
    {
        let curr: u32 = to_index(pos, self.seg_bias);
        proof {
            lemma_shown_parts(*self, data@, pos as nat);
        }
        let newer: usize = pos - (curr - self.dict_limit) as usize;
        let mut r: Vec<u8> = Vec::new();
        if self.low_limit < self.dict_limit {
            let older: usize = to_pos(self.low_limit, self.dict_bias);
            let n: usize = (self.dict_limit - self.low_limit) as usize;
            r.extend_from_slice(slice_subrange(data, older, older + n));
        }
        r.extend_from_slice(slice_subrange(data, newer, end));
        assert(r@ =~= self.shown(data@, pos as nat) + data@.subrange(pos as int, end as int));
        r
    }
}

/// An index of the newer segment lies as far before `pos` as it is below the
/// index there.
#[verifier::spinoff_prover]
#[verifier::rlimit(40)]
proof fn lemma_newer_place(w: Window, i: int, pos: nat)
    requires
        w.dict_limit <= i <= index_of(pos, w.seg_bias),
        index_of(pos, w.seg_bias) - w.dict_limit <= pos <= u32::MAX,
    ensures
        w.place(i) == pos - (index_of(pos, w.seg_bias) - i),
{
}

#[verifier::spinoff_prover]
#[verifier::rlimit(40)]
proof fn lemma_one_bias(w: Window, len: nat, pos: nat)
    requires
        pos <= len <= u32::MAX,
        w.fits(len, pos),
        w.low_limit < w.dict_limit,
        w.dict_bias == w.seg_bias,
    ensures
        (w.low_limit - w.dict_bias) % 0x1_0000_0000 + (w.dict_limit - w.low_limit) == pos - (index_of(
            pos,
            w.seg_bias,
        ) - w.dict_limit),
{
    lemma_newer_place(w, w.dict_limit as int, pos);
}

/// The history shown, as the two parts of the buffer that it is in.
#[verifier::spinoff_prover]
#[verifier::rlimit(60)]
pub proof fn lemma_shown_parts(w: Window, data: Seq<u8>, pos: nat)
    requires
        pos <= data.len() <= u32::MAX,
        w.fits(data.len(), pos),
    ensures
        ({
            let curr = index_of(pos, w.seg_bias);
            let older = (w.low_limit - w.dict_bias) % 0x1_0000_0000;
            let newer = pos - (curr - w.dict_limit);
            &&& w.shown(data, pos).len() == curr - w.low_limit
            &&& 0 <= newer <= pos
            &&& w.low_limit == w.dict_limit ==> w.shown(data, pos) == data.subrange(newer, pos as int)
            &&& w.low_limit < w.dict_limit ==> w.shown(data, pos) == data.subrange(
                older,
                older + (w.dict_limit - w.low_limit),
            ) + data.subrange(newer, pos as int)
            &&& w.low_limit < w.dict_limit && w.dict_bias == w.seg_bias ==> older + (w.dict_limit
                - w.low_limit) == newer
        }),
{
    let curr = index_of(pos, w.seg_bias);
    let older = (w.low_limit - w.dict_bias) % 0x1_0000_0000;
    let newer = pos - (curr - w.dict_limit);
    let s = w.shown(data, pos);
    assert forall|i: int| w.dict_limit <= i < curr implies #[trigger] w.place(i) == pos - (curr - i) by {
        lemma_newer_place(w, i, pos);
    }
    if w.low_limit == w.dict_limit {
        assert forall|k: int| 0 <= k < s.len() implies s[k] == data.subrange(newer, pos as int)[k] by {
            assert(w.place(w.low_limit + k) == pos - (curr - (w.low_limit + k)));
        }
        assert(s =~= data.subrange(newer, pos as int));
    } else {
        let n = w.dict_limit - w.low_limit;
        assert forall|i: int| w.low_limit <= i < w.dict_limit implies #[trigger] w.place(i) == older + (i
            - w.low_limit) by {
            lemma_older_place(w, i, data.len());
        }
        let t = data.subrange(older, older + n) + data.subrange(newer, pos as int);
        assert forall|k: int| 0 <= k < s.len() implies s[k] == t[k] by {
            if k < n {
                assert(w.place(w.low_limit + k) == older + k);
            } else {
                assert(w.place(w.low_limit + k) == pos - (curr - (w.low_limit + k)));
            }
        }
        assert(s =~= t);
        if w.dict_bias == w.seg_bias {
            lemma_one_bias(w, data.len(), pos);
        }
    }
}

// ---------------------------------------------------------------------------
// What a history still ends with.

pub proof fn lemma_ends_shorter(h: Seq<u8>, s: Seq<u8>, k: int)
    requires
        ends_with(h, s),
        0 <= k <= s.len(),
    ensures
        ends_with(h, s.skip(k)),
{
    assert(h.skip(h.len() - (s.len() - k)) =~= h.skip(h.len() - s.len()).skip(k));
}

pub proof fn lemma_ends_longer(h: Seq<u8>, s: Seq<u8>, b: Seq<u8>)
    requires
        ends_with(h, s),
    ensures
        ends_with(h + b, s + b),
{
    assert((h + b).skip((h + b).len() - (s + b).len()) =~= h.skip(h.len() - s.len()) + b);
}

/// A window over the same bytes, with every index `c` lower and perhaps less
/// of it valid.
proof fn lemma_shows_less(w: Window, v: Window, c: int, data: Seq<u8>, pos: nat)
    requires
        w.low_limit <= v.low_limit + c,
        index_of(pos, v.seg_bias) + c == index_of(pos, w.seg_bias),
        v.low_limit <= index_of(pos, v.seg_bias),
        forall|i: int|
            v.low_limit <= i < index_of(pos, v.seg_bias) ==> #[trigger] v.place(i) == w.place(i + c),
    ensures
        v.shown(data, pos) == w.shown(data, pos).skip(v.low_limit + c - w.low_limit),
{
    let a = v.shown(data, pos);
    let d = v.low_limit + c - w.low_limit;
    let b = w.shown(data, pos).skip(d);
    assert forall|k: int| 0 <= k < a.len() implies a[k] == b[k] by {
        assert(v.place(v.low_limit + k) == w.place(w.low_limit + (d + k)));
    }
    assert(a =~= b);
}

/// Giving up what is out of reach.
#[verifier::spinoff_prover]
#[verifier::rlimit(40)]
pub proof fn lemma_enforced(w: Window, max_dist: u32, data: Seq<u8>, pos: nat, h: Seq<u8>)
    requires
        pos <= data.len() <= u32::MAX,
        w.fits(data.len(), pos),
        ends_with(h, w.shown(data, pos)),
    ensures
        ({
            let v = spec_enforced(w, index_of(pos, w.seg_bias), max_dist);
            &&& v.fits(data.len(), pos)
            &&& ends_with(h, v.shown(data, pos))
        }),
{
    let v = spec_enforced(w, index_of(pos, w.seg_bias), max_dist);
    let curr = index_of(pos, w.seg_bias);
    lemma_shown_parts(w, data, pos);
    lemma_shows_less(w, v, 0, data, pos);
    lemma_ends_shorter(h, w.shown(data, pos), v.low_limit - w.low_limit);
}

/// What is taken off leaves room for a block.
proof fn lemma_correction(w: Window, cycle_log: u32, max_dist: u32, pos: nat)
    requires
        1 <= cycle_log <= 29,
        max_dist <= 0x8000_0000,
        index_of(pos, w.seg_bias) > CURRENT_MAX - 131072,
    ensures
        ({
            let c = spec_correction(w, cycle_log, max_dist, pos);
            c + 2 <= index_of(pos, w.seg_bias) <= c + 0xC100_0000
        }),
{
    let curr = index_of(pos, w.seg_bias) as int;
    let cycle = pow2(cycle_log as nat) as int;
    lemma2_to64();
    lemma_pow2_strictly_increases(0, cycle_log as nat);
    if cycle_log < 29 {
        lemma_pow2_strictly_increases(cycle_log as nat, 29);
    }
    assert(0 <= curr % cycle < cycle) by (nonlinear_arith)
        requires
            cycle > 0,
    ;
}

/// Recycling indices.
pub proof fn lemma_corrected(
    w: Window,
    cycle_log: u32,
    max_dist: u32,
    data: Seq<u8>,
    pos: nat,
    h: Seq<u8>,
)
    requires
        pos <= data.len() <= u32::MAX,
        w.fits(data.len(), pos),
        ends_with(h, w.shown(data, pos)),
        1 <= cycle_log <= 29,
        max_dist <= 0x8000_0000,
        index_of(pos, w.seg_bias) > CURRENT_MAX - 131072,
    ensures
        ({
            let v = spec_corrected(w, spec_correction(w, cycle_log, max_dist, pos));
            &&& v.fits(data.len(), pos)
            &&& ends_with(h, v.shown(data, pos))
            &&& index_of(pos, v.seg_bias) <= 0xC100_0000
        }),
{
    lemma_correction(w, cycle_log, max_dist, pos);
    lemma_lowered(w, spec_correction(w, cycle_log, max_dist, pos), data, pos, h);
}

/// A window with `c` taken off every index.
proof fn lemma_lowered(w: Window, c: u32, data: Seq<u8>, pos: nat, h: Seq<u8>)
    requires
        pos <= data.len() <= u32::MAX,
        w.fits(data.len(), pos),
        ends_with(h, w.shown(data, pos)),
        c + 2 <= index_of(pos, w.seg_bias),
    ensures
        spec_corrected(w, c).fits(data.len(), pos),
        ends_with(h, spec_corrected(w, c).shown(data, pos)),
        index_of(pos, spec_corrected(w, c).seg_bias) == index_of(pos, w.seg_bias) - c,
{
    let v = spec_corrected(w, c);
    lemma_lowered_index(w, c, pos);
    lemma_lowered_fits(w, c, data.len(), pos);
    assert forall|i: int|
        v.low_limit <= i < index_of(pos, v.seg_bias) implies #[trigger] v.place(i) == w.place(i + c) by {
        lemma_lowered_place(w, c, i);
    }
    lemma_shows_less(w, v, c as int, data, pos);
    lemma_ends_shorter(h, w.shown(data, pos), v.low_limit + c - w.low_limit);
}

#[verifier::spinoff_prover]
#[verifier::rlimit(40)]
proof fn lemma_lowered_index(w: Window, c: u32, pos: nat)
    requires
        c <= index_of(pos, w.seg_bias),
        pos <= u32::MAX,
    ensures
        index_of(pos, spec_corrected(w, c).seg_bias) == index_of(pos, w.seg_bias) - c,
{
}

#[verifier::spinoff_prover]
#[verifier::rlimit(40)]
proof fn lemma_lowered_fits(w: Window, c: u32, len: nat, pos: nat)
    requires
        pos <= len <= u32::MAX,
        w.fits(len, pos),
        c + 2 <= index_of(pos, w.seg_bias),
    ensures
        spec_corrected(w, c).fits(len, pos),
        w.low_limit <= spec_corrected(w, c).low_limit + c,
{
    let v = spec_corrected(w, c);
    lemma_lowered_index(w, c, pos);
    if v.low_limit < v.dict_limit {
        assert(v.dict_limit == w.dict_limit - c);
        lemma_lowered_place(w, c, v.low_limit as int);
        lemma_older_place(w, v.low_limit + c, len);
        assert(v.place(v.low_limit as int) == (v.low_limit - v.dict_bias) % 0x1_0000_0000);
    }
}

/// An index of the older segment lies as far into it as it is above the
/// lowest.
#[verifier::spinoff_prover]
#[verifier::rlimit(40)]
proof fn lemma_older_place(w: Window, i: int, len: nat)
    requires
        w.low_limit <= i < w.dict_limit,
        (w.low_limit - w.dict_bias) % 0x1_0000_0000 + (w.dict_limit - w.low_limit) <= len <= u32::MAX,
    ensures
        w.place(i) == (w.low_limit - w.dict_bias) % 0x1_0000_0000 + (i - w.low_limit),
{
}

#[verifier::spinoff_prover]
#[verifier::rlimit(40)]
proof fn lemma_lowered_place(w: Window, c: u32, i: int)
    requires
        spec_corrected(w, c).low_limit <= i,
    ensures
        spec_corrected(w, c).place(i) == w.place(i + c),
{
    let v = spec_corrected(w, c);
    assert((i - v.dict_bias) % 0x1_0000_0000 == (i + c - w.dict_bias) % 0x1_0000_0000);
    assert((i - v.seg_bias) % 0x1_0000_0000 == (i + c - w.seg_bias) % 0x1_0000_0000);
}

/// Going on by `n` bytes of the newer segment.
#[verifier::spinoff_prover]
#[verifier::rlimit(40)]
pub proof fn lemma_advanced(w: Window, data: Seq<u8>, pos: nat, n: nat, h: Seq<u8>)
    requires
        pos + n <= data.len() <= u32::MAX,
        w.fits(data.len(), pos),
        index_of(pos, w.seg_bias) + n <= u32::MAX,
        ends_with(h, w.shown(data, pos)),
    ensures
        w.fits(data.len(), pos + n),
        ends_with(
            h + data.subrange(pos as int, (pos + n) as int),
            w.shown(data, pos + n),
        ),
        index_of(pos + n, w.seg_bias) == index_of(pos, w.seg_bias) + n,
{
    let b = data.subrange(pos as int, (pos + n) as int);
    lemma_shown_parts(w, data, pos);
    assert(index_of(pos + n, w.seg_bias) == index_of(pos, w.seg_bias) + n);
    lemma_shown_parts(w, data, pos + n);
    assert(w.shown(data, pos + n) =~= w.shown(data, pos) + b);
    lemma_ends_longer(h, w.shown(data, pos), b);
}

/// A chunk that continues the newer segment.
#[verifier::spinoff_prover]
#[verifier::rlimit(40)]
pub proof fn lemma_continued(w: Window, data: Seq<u8>, start: nat, end: nat, h: Seq<u8>)
    requires
        start <= end <= data.len() <= u32::MAX,
        start == w.next_src_pos,
        w.fits(data.len(), start),
        ends_with(h, w.shown(data, start)),
    ensures
        spec_update(w, start, end).fits(data.len(), start),
        ends_with(h, spec_update(w, start, end).shown(data, start)),
        spec_update(w, start, end).seg_bias == w.seg_bias,
{
    let v = spec_update(w, start, end);
    lemma_shown_parts(w, data, start);
    lemma_shows_less(w, v, 0, data, start);
    lemma_ends_shorter(h, w.shown(data, start), v.low_limit - w.low_limit);
}

#[verifier::spinoff_prover]
#[verifier::rlimit(40)]
proof fn lemma_shifted_index(a: u32, b: u32, pos: nat, n: nat)
    requires
        b == (a + n) % 0x1_0000_0000,
        index_of(pos, a) + n <= u32::MAX,
    ensures
        index_of(pos, b) == index_of(pos, a) + n,
{
}

/// A pass for statistics, over the block at the start of a segment.
#[verifier::spinoff_prover]
#[verifier::rlimit(40)]
pub proof fn lemma_followed(w: Window, n: nat, data: Seq<u8>, pos: nat, h: Seq<u8>)
    requires
        pos <= data.len() <= u32::MAX,
        w.fits(data.len(), pos),
        w.low_limit == w.dict_limit == index_of(pos, w.seg_bias),
        index_of(pos, w.seg_bias) + n <= u32::MAX,
    ensures
        ({
            let v = w.spec_followed(w.spec_layout(), slid_layout(w.spec_layout(), n));
            &&& v.fits(data.len(), pos)
            &&& ends_with(h, v.shown(data, pos))
            &&& index_of(pos, v.seg_bias) == index_of(pos, w.seg_bias) + n
        }),
{
    let before = w.spec_layout();
    let after = slid_layout(before, n);
    let v = w.spec_followed(before, after);
    assert(after.bias == w.low_limit + n);
    assert(after.dict_limit == w.dict_limit + n);
    assert(after.low_limit == w.dict_limit + n);
    lemma_shifted_index(w.seg_bias, v.seg_bias, pos, n);
    assert(v.shown(data, pos) =~= Seq::<u8>::empty());
    assert(h.skip(h.len() as int) =~= Seq::<u8>::empty());
}

// ---------------------------------------------------------------------------
// Runs.

/// A common run is the same wherever the bytes lie.
proof fn lemma_same_run(a: Seq<u8>, ai: int, aj: int, b: Seq<u8>, bi: int, bj: int, n: int)
    requires
        n >= 0,
        forall|k: int| 0 <= k < n ==> #[trigger] a[ai + k] == b[bi + k],
        forall|k: int| 0 <= k < n ==> #[trigger] a[aj + k] == b[bj + k],
    ensures
        common_run(a, ai, aj, ai + n) == common_run(b, bi, bj, bi + n),
    decreases n,
{
    if n > 0 {
        assert(a[ai + 0] == b[bi + 0]);
        assert(a[aj + 0] == b[bj + 0]);
        assert forall|k: int| 0 <= k < n - 1 implies #[trigger] a[ai + 1 + k] == b[bi + 1 + k] by {
            assert(a[ai + (1 + k)] == b[bi + (1 + k)]);
        }
        assert forall|k: int| 0 <= k < n - 1 implies #[trigger] a[aj + 1 + k] == b[bj + 1 + k] by {
            assert(a[aj + (1 + k)] == b[bj + (1 + k)]);
        }
        lemma_same_run(a, ai + 1, aj + 1, b, bi + 1, bj + 1, n - 1);
    }
}

/// A common run in two parts, the first of them `room` long.
proof fn lemma_run_in_parts(s: Seq<u8>, i: int, j: int, limit: int, room: int)
    requires
        room >= 0,
        i <= limit,
    ensures
        common_run(s, i, j, limit) == two_part_run(s, i, j, limit, j + room, j + room),
    decreases room,
{
    if room > 0 && i < limit && s[i] == s[j] {
        lemma_run_in_parts(s, i + 1, j + 1, limit, room - 1);
    }
}

/// A run across the seam of a buffer that holds `n` bytes from `older` on and
/// then those from `newer` up to `end`.
proof fn lemma_seam(laid: Seq<u8>, data: Seq<u8>, older: int, newer: int, n: int, ip: int, from: int, end: int)
    requires
        0 <= from < n,
        newer <= ip <= end,
        laid.len() == n + (end - newer),
        forall|k: int| 0 <= k < n ==> #[trigger] laid[k] == data[older + k],
        forall|k: int| n <= k < laid.len() ==> #[trigger] laid[k] == data[newer + (k - n)],
    ensures
        common_run(laid, ip - newer + n, from, laid.len() as int) == two_part_run(
            data,
            ip,
            older + from,
            end,
            older + n,
            newer,
        ),
{
    let at = ip - newer + n;
    let room = n - from;
    let left = end - ip;
    let first = if room < left {
        room
    } else {
        left
    };
    lemma_run_in_parts(laid, at, from, laid.len() as int, room);
    assert forall|k: int| 0 <= k < first implies #[trigger] laid[at + k] == data[ip + k] by {
        assert(laid[at + k] == data[newer + (at + k - n)]);
    }
    assert forall|k: int| 0 <= k < first implies #[trigger] laid[from + k] == data[older + from + k] by {
        assert(laid[from + k] == data[older + (from + k)]);
    }
    lemma_same_run(laid, at, from, data, ip, older + from, first);
    if room <= left {
        assert forall|k: int| 0 <= k < left - room implies #[trigger] laid[at + room + k] == data[ip
            + room + k] by {
            assert(laid[at + room + k] == data[newer + (at + room + k - n)]);
        }
        assert forall|k: int| 0 <= k < left - room implies #[trigger] laid[n + k] == data[newer + k] by {
            assert(laid[n + k] == data[newer + (n + k - n)]);
        }
        lemma_same_run(laid, at + room, n, data, ip + room, newer, left - room);
    }
}

/// In the buffer that is searched, a run whose source starts in the older
/// segment goes on at the start of the newer one: it is as long as counting it
/// in the two parts of the caller's buffer says. Position `ip` of the caller's
/// buffer is in the newer segment or the block, and index `m` in the older.
#[verifier::spinoff_prover]
#[verifier::rlimit(40)]
pub proof fn law_runs_go_on_at_the_seam(
    w: Window,
    data: Seq<u8>,
    pos: nat,
    end: nat,
    ip: nat,
    m: u32,
)
    requires
        pos <= end <= data.len() <= u32::MAX,
        w.fits(data.len(), pos),
        w.low_limit <= m < w.dict_limit,
        pos - (index_of(pos, w.seg_bias) - w.dict_limit) <= ip <= end,
    ensures
        ({
            let laid = w.shown(data, pos) + data.subrange(pos as int, end as int);
            let newer = pos - (index_of(pos, w.seg_bias) - w.dict_limit);
            let older = (w.low_limit - w.dict_bias) % 0x1_0000_0000;
            let n = w.dict_limit - w.low_limit;
            common_run(laid, ip - newer + n, m - w.low_limit, laid.len() as int) == two_part_run(
                data,
                ip as int,
                older + (m - w.low_limit),
                end as int,
                older + n,
                newer,
            )
        }),
{
    lemma_shown_parts(w, data, pos);
    let laid = w.shown(data, pos) + data.subrange(pos as int, end as int);
    let newer = pos - (index_of(pos, w.seg_bias) - w.dict_limit);
    let older = (w.low_limit - w.dict_bias) % 0x1_0000_0000;
    let n = w.dict_limit - w.low_limit;
    assert(laid =~= data.subrange(older, older + n) + data.subrange(newer, end as int));
    lemma_seam(laid, data, older, newer, n, ip as int, m - w.low_limit, end as int);
}

} // verus!
