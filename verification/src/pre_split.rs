//! Deciding where to end a block before it is compressed: earlier than the
//! full size, if its content changes on the way.

use crate::math::pow2_u64;
use crate::parser::top_bits32;
use vstd::arithmetic::power2::{lemma2_to64, pow2};
use vstd::prelude::*;
use vstd::slice::slice_subrange;

verus! {

/// The size of a full block.
pub const FULL_BLOCK: usize = 131072;

/// The pieces that are compared.
pub const CHUNK_SIZE: usize = 8192;

pub const SEGMENT_SIZE: usize = 512;

/// A fingerprint: how often each event occurs, and how many there are.
pub struct Fingerprint {
    pub events: Vec<u32>,
    pub nb_events: u64,
}

/// The event of two bytes: the first alone, or a hash of both.
pub open spec fn event_of(a: u8, b: u8, hash_log: u32) -> int {
    if hash_log == 8 {
        a as int
    } else {
        (((a + 256 * b) * 0x9E37_79B9) % 0x1_0000_0000) / (pow2((32 - hash_log) as nat) as int)
    }
}

/// How often event `v` occurs among the first `k` samples of `src`, taken
/// every `rate` bytes.
pub open spec fn samples(src: Seq<u8>, rate: int, hash_log: u32, v: int, k: nat) -> nat
    decreases k,
{
    if k == 0 {
        0
    } else {
        samples(src, rate, hash_log, v, (k - 1) as nat) + if event_of(
            src[(k - 1) * rate],
            src[(k - 1) * rate + 1],
            hash_log,
        ) == v {
            1nat
        } else {
            0nat
        }
    }
}

/// How many samples `len` bytes give.
pub open spec fn sample_count(len: int, rate: int) -> nat {
    ((len - 2) / rate + 1) as nat
}

/// The events of the samples of `src`.
pub open spec fn recorded(src: Seq<u8>, rate: int, hash_log: u32) -> Seq<u32> {
    Seq::new(
        1024,
        |v: int| samples(src, rate, hash_log, v, sample_count(src.len() as int, rate)) as u32,
    )
}

pub open spec fn abs_diff(a: int, b: int) -> int {
    if a >= b {
        a - b
    } else {
        b - a
    }
}

/// The distance of two fingerprints over the first `k` events, each brought
/// to the other's number of events.
pub open spec fn distance(e1: Seq<u32>, n1: int, e2: Seq<u32>, n2: int, k: nat) -> int
    decreases k,
{
    if k == 0 {
        0
    } else {
        distance(e1, n1, e2, n2, (k - 1) as nat) + abs_diff(e1[k - 1] * n2, e2[k - 1] * n1)
    }
}

/// The fingerprints are too different.
pub open spec fn differ(e1: Seq<u32>, n1: int, e2: Seq<u32>, n2: int, penalty: int, hash_log: u32) -> bool {
    distance(e1, n1, e2, n2, pow2(hash_log as nat)) >= (n1 * n2 * (14 + penalty)) / 16
}

/// The sum of two tables of events.
pub open spec fn added(a: Seq<u32>, b: Seq<u32>) -> Seq<u32> {
    Seq::new(a.len(), |i: int| (a[i] + b[i]) as u32)
}

/// The first chunk from `pos` on that differs from all before it.
pub open spec fn chunk_cut(
    block: Seq<u8>,
    rate: int,
    hash_log: u32,
    pos: int,
    past: Seq<u32>,
    past_n: int,
    penalty: int,
) -> int
    decreases block.len() - pos,
{
    if pos + CHUNK_SIZE > block.len() {
        block.len() as int
    } else {
        let e = recorded(block.subrange(pos, pos + CHUNK_SIZE), rate, hash_log);
        let n: int = (CHUNK_SIZE - 1) / rate;
        if differ(past, past_n, e, n, penalty, hash_log) {
            pos
        } else {
            chunk_cut(
                block,
                rate,
                hash_log,
                pos + CHUNK_SIZE,
                added(past, e),
                past_n + n,
                if penalty > 0 {
                    penalty - 1
                } else {
                    0
                },
            )
        }
    }
}

pub open spec fn sampling_rate(level: int) -> int {
    if level == 1 {
        43
    } else if level == 2 {
        11
    } else if level == 3 {
        5
    } else {
        1
    }
}

pub open spec fn sampling_log(level: int) -> u32 {
    if level == 1 {
        8
    } else if level == 2 {
        9
    } else {
        10
    }
}

/// The events of 512 bytes at `at`: plain byte counts.
pub open spec fn segment(block: Seq<u8>, at: int) -> Seq<u32> {
    Seq::new(
        1024,
        |v: int| byte_count(block.subrange(at, at + SEGMENT_SIZE), v, SEGMENT_SIZE as nat) as u32,
    )
}

/// How often `v` occurs in the first `k` bytes.
pub open spec fn byte_count(s: Seq<u8>, v: int, k: nat) -> nat
    decreases k,
{
    if k == 0 {
        0
    } else {
        byte_count(s, v, (k - 1) as nat) + if s[k - 1] == v {
            1nat
        } else {
            0nat
        }
    }
}

/// The cut from a look at the borders and the middle alone.
pub open spec fn border_cut(block: Seq<u8>) -> int {
    let n = SEGMENT_SIZE as int;
    let b = segment(block, 0);
    let e = segment(block, block.len() - SEGMENT_SIZE);
    let m = segment(block, block.len() as int / 2 - 256);
    let from_begin = distance(b, n, m, n, 256);
    let from_end = distance(e, n, m, n, 256);
    if !differ(b, n, e, n, 0, 8) {
        block.len() as int
    } else if abs_diff(from_begin, from_end) < 87381 {
        65536
    } else if from_begin > from_end {
        32768
    } else {
        98304
    }
}

/// Where a full block is cut, for a level of effort from 0 to 4.
pub open spec fn spec_split(block: Seq<u8>, level: int) -> int {
    if level == 0 {
        border_cut(block)
    } else {
        let rate = sampling_rate(level);
        let log = sampling_log(level);
        chunk_cut(
            block,
            rate,
            log,
            CHUNK_SIZE as int,
            recorded(block.subrange(0, CHUNK_SIZE as int), rate, log),
            (CHUNK_SIZE - 1) / rate,
            3,
        )
    }
}

proof fn lemma_samples_bound(src: Seq<u8>, rate: int, hash_log: u32, v: int, k: nat)
    ensures
        samples(src, rate, hash_log, v, k) <= k,
    decreases k,
{
    if k > 0 {
        lemma_samples_bound(src, rate, hash_log, v, (k - 1) as nat);
    }
}

proof fn lemma_byte_count_bound(s: Seq<u8>, v: int, k: nat)
    ensures
        byte_count(s, v, k) <= k,
    decreases k,
{
    if k > 0 {
        lemma_byte_count_bound(s, v, (k - 1) as nat);
    }
}

/// The event of the two bytes at `n`.
fn hash2(src: &[u8], n: usize, hash_log: u32) -> (r: usize)
    requires
        n + 2 <= src@.len(),
        8 <= hash_log <= 10,
    ensures
        r == event_of(src@[n as int], src@[n + 1], hash_log),
        r < 1024,
{
    proof {
        lemma2_to64();
    }
    if hash_log == 8 {
        return src[n] as usize;
    }
    let v: u32 = src[n] as u32 + 256 * src[n + 1] as u32;
    top_bits32(v.wrapping_mul(0x9E37_79B9), hash_log) as usize
}

impl Fingerprint {
    pub open spec fn wf(&self) -> bool {
        &&& self.events@.len() == 1024
        &&& self.nb_events <= 131072
        &&& forall|i: int| 0 <= i < 1024 ==> #[trigger] self.events@[i] <= 131072
    }

    /// Nothing counted.
    fn new() -> (r: Self)
        ensures
            r.wf(),
            r.nb_events == 0,
            forall|i: int| 0 <= i < 1024 ==> #[trigger] r.events@[i] == 0,
    {
        let mut events: Vec<u32> = Vec::new();
        events.resize(1024, 0);
        Fingerprint { events, nb_events: 0 }
    }

    /// The fingerprint of the samples of a chunk.
    #[verifier::rlimit(30)]
    fn record(src: &[u8], rate: usize, hash_log: u32) -> (r: Self)
        requires
            src@.len() == CHUNK_SIZE,
            8 <= hash_log <= 10,
            1 <= rate <= 43,
        ensures
            r.wf(),
            r.events@ == recorded(src@, rate as int, hash_log),
            r.nb_events == (CHUNK_SIZE - 1) / rate as int,
            forall|i: int| 0 <= i < 1024 ==> #[trigger] r.events@[i] <= 8192,
    {
        let mut fp = Fingerprint::new();
        let limit: usize = CHUNK_SIZE - 1;
        let mut n: usize = 0;
        let ghost mut k: nat = 0;
        while n < limit
            invariant
                src@.len() == CHUNK_SIZE,
                limit == CHUNK_SIZE - 1,
                8 <= hash_log <= 10,
                1 <= rate <= 43,
                n == k * rate,
                n < limit + rate,
                k <= 8192,
                fp.events@.len() == 1024,
                fp.nb_events == 0,
                forall|v: int|
                    0 <= v < 1024 ==> #[trigger] fp.events@[v] == samples(
                        src@,
                        rate as int,
                        hash_log,
                        v,
                        k,
                    ),
                k >= 1 ==> (k - 1) * rate < limit,
            decreases limit + rate - n,
        {
            let h: usize = hash2(src, n, hash_log);
            proof {
                assert forall|v: int| 0 <= v < 1024 implies #[trigger] samples(
                    src@,
                    rate as int,
                    hash_log,
                    v,
                    k,
                ) <= k by {
                    lemma_samples_bound(src@, rate as int, hash_log, v, k);
                }
                assert(fp.events@[h as int] <= k);
                assert(k <= n) by (nonlinear_arith)
                    requires
                        n == k * rate,
                        rate >= 1,
                ;
                assert((k + 1) * rate == k * rate + rate) by (nonlinear_arith);
            }
            let c: u32 = fp.events[h];
            fp.events.set(h, c + 1);
            n = n + rate;
            proof {
                k = k + 1;
                assert forall|v: int| 0 <= v < 1024 implies #[trigger] fp.events@[v] == samples(
                    src@,
                    rate as int,
                    hash_log,
                    v,
                    k,
                ) by {}
            }
        }
        fp.nb_events = (limit / rate) as u64;
        proof {
            let r = rate as int;
            // k is the number of samples.
            assert(k == sample_count(CHUNK_SIZE as int, r)) by {
                let q = (CHUNK_SIZE - 2) / r;
                vstd::arithmetic::div_mod::lemma_fundamental_div_mod(CHUNK_SIZE - 2, r);
                vstd::arithmetic::div_mod::lemma_mod_bound(CHUNK_SIZE - 2, r);
                let rem = (CHUNK_SIZE - 2) % r;
                assert(r * q + rem == CHUNK_SIZE - 2);
                assert(k == q + 1) by (nonlinear_arith)
                    requires
                        k * r >= 8191,
                        (k - 1) * r < 8191,
                        r * q + rem == 8190,
                        0 <= rem < r,
                        r >= 1,
                ;
            }
            assert(fp.events@ =~= recorded(src@, r, hash_log));
            assert forall|i: int| 0 <= i < 1024 implies #[trigger] fp.events@[i] <= 8192 by {
                lemma_samples_bound(src@, r, hash_log, i, k);
            }
            assert((8191int) / r <= 8191) by (nonlinear_arith)
                requires
                    r >= 1,
            ;
        }
        fp
    }

    /// The fingerprint of the plain bytes of a segment.
    fn of_segment(block: &[u8], at: usize) -> (r: Self)
        requires
            at + SEGMENT_SIZE <= block@.len(),
        ensures
            r.wf(),
            r.events@ == segment(block@, at as int),
            r.nb_events == SEGMENT_SIZE,
            forall|i: int| 0 <= i < 1024 ==> #[trigger] r.events@[i] <= 512,
    {
        let total: usize = block.len();
        let mut fp = Fingerprint::new();
        let ghost s = block@.subrange(at as int, at + SEGMENT_SIZE);
        let mut k: usize = 0;
        while k < SEGMENT_SIZE
            invariant
                k <= SEGMENT_SIZE,
                at + SEGMENT_SIZE <= total,
                total == block@.len(),
                s == block@.subrange(at as int, at + SEGMENT_SIZE),
                fp.events@.len() == 1024,
                forall|v: int|
                    0 <= v < 1024 ==> #[trigger] fp.events@[v] == byte_count(s, v, k as nat),
            decreases SEGMENT_SIZE - k,
        {
            let b: usize = block[at + k] as usize;
            proof {
                lemma_byte_count_bound(s, b as int, k as nat);
            }
            let c: u32 = fp.events[b];
            fp.events.set(b, c + 1);
            k = k + 1;
        }
        fp.nb_events = SEGMENT_SIZE as u64;
        proof {
            assert(fp.events@ =~= segment(block@, at as int));
            assert forall|i: int| 0 <= i < 1024 implies #[trigger] fp.events@[i] <= 512 by {
                lemma_byte_count_bound(s, i, 512);
            }
        }
        fp
    }

    fn distance_to(&self, other: &Self, hash_log: u32) -> (r: u64)
        requires
            self.wf(),
            other.wf(),
            8 <= hash_log <= 10,
        ensures
            r == distance(
                self.events@,
                self.nb_events as int,
                other.events@,
                other.nb_events as int,
                pow2(hash_log as nat),
            ),
            r <= 0x1000_0000_0000,
    {
        proof {
            lemma2_to64();
        }
        let size: usize = pow2_u64(hash_log) as usize;
        let mut d: u64 = 0;
        let mut n: usize = 0;
        while n < size
            invariant
                n <= size <= 1024,
                self.wf(),
                other.wf(),
                d == distance(
                    self.events@,
                    self.nb_events as int,
                    other.events@,
                    other.nb_events as int,
                    n as nat,
                ),
                d <= n * 0x4_0000_0000,
            decreases size - n,
        {
            let a: u64 = self.events[n] as u64;
            let b: u64 = other.events[n] as u64;
            let n1: u64 = self.nb_events;
            let n2: u64 = other.nb_events;
            proof {
                assert(0 <= a * n2 <= 0x4_0000_0000) by (nonlinear_arith)
                    requires
                        0 <= a <= 131072,
                        0 <= n2 <= 131072,
                ;
                assert(0 <= b * n1 <= 0x4_0000_0000) by (nonlinear_arith)
                    requires
                        0 <= b <= 131072,
                        0 <= n1 <= 131072,
                ;
            }
            let x: u64 = a * n2;
            let y: u64 = b * n1;
            d = d + if x >= y {
                x - y
            } else {
                y - x
            };
            n = n + 1;
        }
        d
    }

    fn differs_from(&self, other: &Self, penalty: u64, hash_log: u32) -> (r: bool)
        requires
            self.wf(),
            other.wf(),
            penalty <= 3,
            8 <= hash_log <= 10,
        ensures
            r == differ(
                self.events@,
                self.nb_events as int,
                other.events@,
                other.nb_events as int,
                penalty as int,
                hash_log,
            ),
    {
        let n1: u64 = self.nb_events;
        let n2: u64 = other.nb_events;
        proof {
            assert(0 <= n1 * n2 <= 0x4_0000_0000) by (nonlinear_arith)
                requires
                    0 <= n1 <= 131072,
                    0 <= n2 <= 131072,
            ;
        }
        let p50: u64 = n1 * n2;
        proof {
            assert(0 <= p50 * (14 + penalty) <= 17 * p50) by (nonlinear_arith)
                requires
                    0 <= p50,
                    penalty <= 3,
            ;
        }
        let threshold: u64 = p50 * (14 + penalty) / 16;
        self.distance_to(other, hash_log) >= threshold
    }

    /// Adds the events of a later chunk.
    fn merge(&mut self, other: &Self, Ghost(chunks): Ghost<int>)
        requires
            old(self).wf(),
            other.wf(),
            1 <= chunks <= 15,
            old(self).nb_events <= chunks * 8192,
            other.nb_events <= 8192,
            forall|i: int| 0 <= i < 1024 ==> #[trigger] old(self).events@[i] <= chunks * 8192,
            forall|i: int| 0 <= i < 1024 ==> #[trigger] other.events@[i] <= 8192,
        ensures
            final(self).wf(),
            final(self).events@ == added(old(self).events@, other.events@),
            final(self).nb_events == old(self).nb_events + other.nb_events,
            forall|i: int|
                0 <= i < 1024 ==> #[trigger] final(self).events@[i] <= (chunks + 1) * 8192,
    {
        let mut n: usize = 0;
        while n < 1024
            invariant
                n <= 1024,
                1 <= chunks <= 15,
                self.events@.len() == 1024,
                other.wf(),
                old(self).wf(),
                self.nb_events == old(self).nb_events,
                forall|i: int|
                    0 <= i < 1024 ==> #[trigger] old(self).events@[i] <= chunks * 8192,
                forall|i: int| 0 <= i < 1024 ==> #[trigger] other.events@[i] <= 8192,
                forall|i: int|
                    0 <= i < n ==> #[trigger] self.events@[i] == old(self).events@[i]
                        + other.events@[i],
                forall|i: int|
                    n <= i < 1024 ==> #[trigger] self.events@[i] == old(self).events@[i],
            decreases 1024 - n,
        {
            let s: u32 = self.events[n] + other.events[n];
            self.events.set(n, s);
            n = n + 1;
        }
        self.nb_events = self.nb_events + other.nb_events;
        assert(self.events@ =~= added(old(self).events@, other.events@));
    }
}

/// Compares chunk after chunk with what came before.
#[verifier::rlimit(30)]
fn split_by_chunks(block: &[u8], level: usize) -> (r: usize)
    requires
        block@.len() == FULL_BLOCK,
        1 <= level <= 4,
    ensures
        r == spec_split(block@, level as int),
        0 < r <= FULL_BLOCK,
{
    let rate: usize = if level == 1 {
        43
    } else if level == 2 {
        11
    } else if level == 3 {
        5
    } else {
        1
    };
    let hash_log: u32 = if level == 1 {
        8
    } else if level == 2 {
        9
    } else {
        10
    };
    let mut past = Fingerprint::record(slice_subrange(block, 0, CHUNK_SIZE), rate, hash_log);
    let mut penalty: u64 = 3;
    let mut pos: usize = CHUNK_SIZE;
    let ghost mut chunks: int = 1;
    proof {
        assert((8191int) / (rate as int) <= 8191) by (nonlinear_arith)
            requires
                rate >= 1,
        ;
    }
    while pos <= FULL_BLOCK - CHUNK_SIZE
        invariant
            block@.len() == FULL_BLOCK,
            pos == chunks * CHUNK_SIZE,
            1 <= chunks <= 16,
            rate == sampling_rate(level as int),
            hash_log == sampling_log(level as int),
            1 <= level <= 4,
            past.wf(),
            past.nb_events <= chunks * 8192,
            forall|i: int| 0 <= i < 1024 ==> #[trigger] past.events@[i] <= chunks * 8192,
            penalty <= 3,
            (8191int) / (rate as int) <= 8191,
            spec_split(block@, level as int) == chunk_cut(
                block@,
                rate as int,
                hash_log,
                pos as int,
                past.events@,
                past.nb_events as int,
                penalty as int,
            ),
        decreases FULL_BLOCK - pos,
    {
        let next = Fingerprint::record(
            slice_subrange(block, pos, pos + CHUNK_SIZE),
            rate,
            hash_log,
        );
        if past.differs_from(&next, penalty, hash_log) {
            return pos;
        }
        past.merge(&next, Ghost(chunks));
        if penalty > 0 {
            penalty = penalty - 1;
        }
        pos = pos + CHUNK_SIZE;
        proof {
            chunks = chunks + 1;
        }
    }
    FULL_BLOCK
}

/// Compares the borders of the block, and each with the middle.
fn split_from_borders(block: &[u8]) -> (r: usize)
    requires
        block@.len() == FULL_BLOCK,
    ensures
        r == spec_split(block@, 0),
        0 < r <= FULL_BLOCK,
{
    proof {
        lemma2_to64();
    }
    let begin = Fingerprint::of_segment(block, 0);
    let end = Fingerprint::of_segment(block, FULL_BLOCK - SEGMENT_SIZE);
    if !begin.differs_from(&end, 0, 8) {
        return FULL_BLOCK;
    }
    let middle = Fingerprint::of_segment(block, FULL_BLOCK / 2 - SEGMENT_SIZE / 2);
    let from_begin: u64 = begin.distance_to(&middle, 8);
    let from_end: u64 = end.distance_to(&middle, 8);
    let gap: u64 = if from_begin >= from_end {
        from_begin - from_end
    } else {
        from_end - from_begin
    };
    if gap < 87381 {
        65536
    } else if from_begin > from_end {
        32768
    } else {
        98304
    }
}

/// Where to cut a full block.
pub fn split_block(block: &[u8], level: usize) -> (r: usize)
    requires
        block@.len() == FULL_BLOCK,
        level <= 4,
    ensures
        r == spec_split(block@, level as int),
        0 < r <= FULL_BLOCK,
{
    if level == 0 {
        split_from_borders(block)
    } else {
        split_by_chunks(block, level)
    }
}

} // verus!
