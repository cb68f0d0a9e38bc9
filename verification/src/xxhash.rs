//! The XXH64 content checksum, in one call and incrementally.

use crate::math::{bits_at, byte_or_zero, load4, load8};
use vstd::prelude::*;

verus! {

pub const PRIME1: u64 = 0x9E37_79B1_85EB_CA87;

pub const PRIME2: u64 = 0xC2B2_AE3D_27D4_EB4F;

pub const PRIME3: u64 = 0x1656_67B1_9E37_79F9;

pub const PRIME4: u64 = 0x85EB_CA77_C2B2_AE63;

pub const PRIME5: u64 = 0x27D4_EB2F_1656_67C5;

pub open spec fn spec_rotl(x: u64, r: u64) -> u64 {
    (x << r) | (x >> ((64 - r) as u64))
}

#[verifier::when_used_as_spec(spec_rotl)]
pub fn rotl(x: u64, r: u64) -> (y: u64)
    requires
        0 < r < 64,
    ensures
        y == spec_rotl(x, r),
{
    (x << r) | (x >> (64 - r))
}

#[verifier::opaque]
pub open spec fn spec_round(acc: u64, input: u64) -> u64 {
    spec_rotl(acc.wrapping_add(input.wrapping_mul(PRIME2)), 31).wrapping_mul(PRIME1)
}

fn round(acc: u64, input: u64) -> (r: u64)
    ensures
        r == spec_round(acc, input),
{
    proof {
        reveal(spec_round);
    }
    rotl(acc.wrapping_add(input.wrapping_mul(PRIME2)), 31).wrapping_mul(PRIME1)
}

#[verifier::opaque]
pub open spec fn spec_merge_round(acc: u64, v: u64) -> u64 {
    (acc ^ spec_round(0, v)).wrapping_mul(PRIME1).wrapping_add(PRIME4)
}

fn merge_round(acc: u64, v: u64) -> (r: u64)
    ensures
        r == spec_merge_round(acc, v),
{
    proof {
        reveal(spec_merge_round);
    }
    (acc ^ round(0, v)).wrapping_mul(PRIME1).wrapping_add(PRIME4)
}

/// The four accumulators of the 32-byte stripe loop.
#[derive(Clone, Copy)]
pub struct Lanes {
    pub v1: u64,
    pub v2: u64,
    pub v3: u64,
    pub v4: u64,
}

pub open spec fn initial_lanes(seed: u64) -> Lanes {
    Lanes {
        v1: seed.wrapping_add(PRIME1).wrapping_add(PRIME2),
        v2: seed.wrapping_add(PRIME2),
        v3: seed,
        v4: seed.wrapping_sub(PRIME1),
    }
}

fn start_lanes(seed: u64) -> (r: Lanes)
    ensures
        r == initial_lanes(seed),
{
    Lanes {
        v1: seed.wrapping_add(PRIME1).wrapping_add(PRIME2),
        v2: seed.wrapping_add(PRIME2),
        v3: seed,
        v4: seed.wrapping_sub(PRIME1),
    }
}

/// The eight bytes at `at`, little-endian.
pub open spec fn word64(data: Seq<u8>, at: int) -> u64 {
    bits_at(data, (8 * at) as nat, 64) as u64
}

/// The accumulators after one more stripe, the one at `at`.
pub open spec fn stripe(l: Lanes, data: Seq<u8>, at: int) -> Lanes {
    Lanes {
        v1: spec_round(l.v1, word64(data, at)),
        v2: spec_round(l.v2, word64(data, at + 8)),
        v3: spec_round(l.v3, word64(data, at + 16)),
        v4: spec_round(l.v4, word64(data, at + 24)),
    }
}

/// The accumulators after the first `k` stripes of `data`.
pub open spec fn lanes_after(data: Seq<u8>, seed: u64, k: nat) -> Lanes
    decreases k,
{
    if k == 0 {
        initial_lanes(seed)
    } else {
        stripe(lanes_after(data, seed, (k - 1) as nat), data, 32 * (k - 1))
    }
}

#[verifier::opaque]
pub open spec fn merge_lanes(l: Lanes) -> u64 {
    let h = spec_rotl(l.v1, 1).wrapping_add(spec_rotl(l.v2, 7)).wrapping_add(
        spec_rotl(l.v3, 12),
    ).wrapping_add(spec_rotl(l.v4, 18));
    spec_merge_round(
        spec_merge_round(spec_merge_round(spec_merge_round(h, l.v1), l.v2), l.v3),
        l.v4,
    )
}

/// One step of the tail over eight bytes.
#[verifier::opaque]
pub open spec fn tail8(h: u64, w: u64) -> u64 {
    spec_rotl(h ^ spec_round(0, w), 27).wrapping_mul(PRIME1).wrapping_add(PRIME4)
}

/// One step of the tail over four bytes.
#[verifier::opaque]
pub open spec fn tail4(h: u64, w: u64) -> u64 {
    spec_rotl(h ^ w.wrapping_mul(PRIME1), 23).wrapping_mul(PRIME2).wrapping_add(PRIME3)
}

/// One step of the tail over one byte.
#[verifier::opaque]
pub open spec fn tail1(h: u64, b: u8) -> u64 {
    spec_rotl(h ^ (b as u64).wrapping_mul(PRIME5), 11).wrapping_mul(PRIME1)
}

/// The hash `h` carried over the bytes from `at` to the end, fewer than 32.
pub open spec fn finish_tail(h: u64, data: Seq<u8>, at: int) -> u64
    decreases data.len() - at,
{
    if at + 8 <= data.len() {
        finish_tail(
            tail8(h, word64(data, at)),
            data,
            at + 8,
        )
    } else if at + 4 <= data.len() {
        finish_tail(
            tail4(h, bits_at(data, (8 * at) as nat, 32) as u64),
            data,
            at + 4,
        )
    } else if at < data.len() {
        finish_tail(
            tail1(h, data[at]),
            data,
            at + 1,
        )
    } else {
        avalanche(h)
    }
}

#[verifier::opaque]
pub open spec fn avalanche(h: u64) -> u64 {
    let a = (h ^ (h >> 33)).wrapping_mul(PRIME2);
    let b = (a ^ (a >> 29)).wrapping_mul(PRIME3);
    b ^ (b >> 32)
}

/// The XXH64 hash of `data` under `seed`.
pub open spec fn spec_xxh64(data: Seq<u8>, seed: u64) -> u64 {
    let k = data.len() / 32;
    let h = if data.len() >= 32 {
        merge_lanes(lanes_after(data, seed, k))
    } else {
        seed.wrapping_add(PRIME5)
    };
    finish_tail(h.wrapping_add(data.len() as u64), data, 32 * k as int)
}

fn add_stripe(l: Lanes, data: &[u8], at: usize) -> (r: Lanes)
    requires
        at + 32 <= data@.len(),
    ensures
        r == stripe(l, data@, at as int),
{
    let len: usize = data.len();
    assert(at + 32 <= len);
    Lanes {
        v1: round(l.v1, load8(data, at)),
        v2: round(l.v2, load8(data, at + 8)),
        v3: round(l.v3, load8(data, at + 16)),
        v4: round(l.v4, load8(data, at + 24)),
    }
}

fn join_lanes(l: Lanes) -> (r: u64)
    ensures
        r == merge_lanes(l),
{
    proof {
        reveal(merge_lanes);
    }
    let h: u64 = rotl(l.v1, 1).wrapping_add(rotl(l.v2, 7)).wrapping_add(rotl(l.v3, 12)).wrapping_add(
        rotl(l.v4, 18),
    );
    merge_round(merge_round(merge_round(merge_round(h, l.v1), l.v2), l.v3), l.v4)
}

fn step8(h: u64, w: u64) -> (r: u64)
    ensures
        r == tail8(h, w),
{
    proof {
        reveal(tail8);
    }
    rotl(h ^ round(0, w), 27).wrapping_mul(PRIME1).wrapping_add(PRIME4)
}

fn step4(h: u64, w: u64) -> (r: u64)
    ensures
        r == tail4(h, w),
{
    proof {
        reveal(tail4);
    }
    rotl(h ^ w.wrapping_mul(PRIME1), 23).wrapping_mul(PRIME2).wrapping_add(PRIME3)
}

fn step1(h: u64, b: u8) -> (r: u64)
    ensures
        r == tail1(h, b),
{
    proof {
        reveal(tail1);
    }
    rotl(h ^ (b as u64).wrapping_mul(PRIME5), 11).wrapping_mul(PRIME1)
}

fn mix_final(h: u64) -> (r: u64)
    ensures
        r == avalanche(h),
{
    proof {
        reveal(avalanche);
    }
    let a: u64 = (h ^ (h >> 33)).wrapping_mul(PRIME2);
    let b: u64 = (a ^ (a >> 29)).wrapping_mul(PRIME3);
    b ^ (b >> 32)
}

fn finish(h0: u64, data: &[u8], from: usize) -> (r: u64)
    requires
        from <= data@.len(),
    ensures
        r == finish_tail(h0, data@, from as int),
{
    let mut h: u64 = h0;
    let mut at: usize = from;
    while data.len() - at >= 8
        invariant
            at <= data@.len(),
            finish_tail(h, data@, at as int) == finish_tail(h0, data@, from as int),
        decreases data.len() - at,
    {
        h = step8(h, load8(data, at));
        at = at + 8;
    }
    if data.len() - at >= 4 {
        h = step4(h, load4(data, at) as u64);
        at = at + 4;
    }
    while at < data.len()
        invariant
            at <= data@.len(),
            data@.len() - at < 4,
            finish_tail(h, data@, at as int) == finish_tail(h0, data@, from as int),
        decreases data.len() - at,
    {
        h = step1(h, data[at]);
        at = at + 1;
    }
    mix_final(h)
}

/// XXH64 of `data`.
pub fn xxh64(data: &[u8], seed: u64) -> (r: u64)
    ensures
        r == spec_xxh64(data@, seed),
{
    let mut l: Lanes = start_lanes(seed);
    let mut at: usize = 0;
    let len: usize = data.len();
    let n: usize = len / 32;
    let mut k: usize = 0;
    while k < n
        invariant
            k <= n,
            n == len / 32,
            len == data@.len(),
            at == 32 * k,
            l == lanes_after(data@, seed, k as nat),
        decreases n - k,
    {
        l = add_stripe(l, data, at);
        at = at + 32;
        k = k + 1;
    }
    let h: u64 = if data.len() >= 32 {
        join_lanes(l)
    } else {
        seed.wrapping_add(PRIME5)
    };
    finish(h.wrapping_add(data.len() as u64), data, at)
}

/// Incremental XXH64: any sequence of [`update`](Xxh64::update) calls gives
/// the digest of the concatenated bytes.
pub struct Xxh64 {
    seed: u64,
    lanes: Lanes,
    /// Bytes of the stripe in progress, fewer than 32.
    pending: Vec<u8>,
    total: u64,
    seen: Ghost<Seq<u8>>,
}

impl Xxh64 {
    /// All bytes hashed so far.
    pub closed spec fn bytes(&self) -> Seq<u8> {
        self.seen@
    }

    pub closed spec fn spec_seed(&self) -> u64 {
        self.seed
    }

    pub closed spec fn wf(&self) -> bool {
        let k = self.seen@.len() / 32;
        &&& self.total == self.seen@.len()
        &&& self.lanes == lanes_after(self.seen@, self.seed, k)
        &&& self.pending@ == self.seen@.skip(32 * k as int)
    }

    pub fn new(seed: u64) -> (r: Self)
        ensures
            r.wf(),
            r.bytes() == Seq::<u8>::empty(),
            r.spec_seed() == seed,
    {
        let r = Xxh64 {
            seed,
            lanes: start_lanes(seed),
            pending: Vec::new(),
            total: 0,
            seen: Ghost(Seq::empty()),
        };
        assert(r.pending@ =~= r.seen@.skip(0));
        r
    }

    /// Appends `data` to what has been hashed.
    pub fn update(&mut self, data: &[u8])
        requires
            old(self).wf(),
            old(self).bytes().len() + data@.len() <= u64::MAX,
        ensures
            final(self).wf(),
            final(self).bytes() == old(self).bytes() + data@,
            final(self).spec_seed() == old(self).spec_seed(),
    {
        let mut i: usize = 0;
        let ghost start = self.seen@;
        assert(start + data@.take(0) =~= start);
        while i < data.len()
            invariant
                i <= data@.len(),
                self.wf(),
                self.seed == old(self).seed,
                self.seen@ == start + data@.take(i as int),
                start.len() + data@.len() <= u64::MAX,
            decreases data.len() - i,
        {
            let ghost before = self.seen@;
            let ghost k = before.len() / 32;
            let ghost after = before.push(data[i as int]);
            self.pending.push(data[i]);
            self.total = self.total + 1;
            proof {
                self.seen@ = after;
                assert(after =~= start + data@.take(i + 1));
                lemma_lanes_prefix(before, after, self.seed, k);
                assert(self.pending@ =~= after.skip(32 * k as int));
            }
            if self.pending.len() == 32 {
                self.lanes = add_stripe(self.lanes, &self.pending, 0);
                proof {
                    lemma_word_skip(after, 32 * k as int, 0);
                    lemma_word_skip(after, 32 * k as int, 8);
                    lemma_word_skip(after, 32 * k as int, 16);
                    lemma_word_skip(after, 32 * k as int, 24);
                    assert(after.len() / 32 == k + 1);
                }
                self.pending = Vec::new();
                assert(self.pending@ =~= after.skip(32 * (k + 1) as int));
            } else {
                assert(after.len() / 32 == k);
            }
            i = i + 1;
        }
        assert(data@.take(data@.len() as int) =~= data@);
    }

    /// The hash of everything appended so far.
    pub fn digest(&self) -> (r: u64)
        requires
            self.wf(),
        ensures
            r == spec_xxh64(self.bytes(), self.spec_seed()),
    {
        let h: u64 = if self.total >= 32 {
            join_lanes(self.lanes)
        } else {
            self.seed.wrapping_add(PRIME5)
        };
        let h0: u64 = h.wrapping_add(self.total);
        proof {
            lemma_finish_skip(h0, self.seen@, 32 * (self.seen@.len() / 32) as int, 0);
        }
        finish(h0, &self.pending, 0)
    }
}

proof fn lemma_word_skip(s: Seq<u8>, off: int, at: int)
    requires
        0 <= off,
        0 <= at,
        off <= s.len(),
    ensures
        word64(s.skip(off), at) == word64(s, off + at),
        bits_at(s.skip(off), (8 * at) as nat, 32) == bits_at(s, (8 * (off + at)) as nat, 32),
{
    reveal(bits_at);
    crate::math::lemma_le_nat_skip(s, off as nat);
    vstd::arithmetic::power2::lemma_pow2_adds((8 * off) as nat, (8 * at) as nat);
    vstd::arithmetic::power2::lemma_pow2_pos((8 * off) as nat);
    vstd::arithmetic::power2::lemma_pow2_pos((8 * at) as nat);
    vstd::arithmetic::div_mod::lemma_div_denominator(
        crate::math::le_nat(s) as int,
        vstd::arithmetic::power2::pow2((8 * off) as nat) as int,
        vstd::arithmetic::power2::pow2((8 * at) as nat) as int,
    );
}

/// Whole stripes depend on the bytes they cover only.
proof fn lemma_lanes_prefix(a: Seq<u8>, b: Seq<u8>, seed: u64, k: nat)
    requires
        32 * k <= a.len(),
        a.is_prefix_of(b),
    ensures
        lanes_after(a, seed, k) == lanes_after(b, seed, k),
    decreases k,
{
    if k > 0 {
        lemma_lanes_prefix(a, b, seed, (k - 1) as nat);
        let at = 32 * (k - 1);
        lemma_word_prefix(a, b, at);
        lemma_word_prefix(a, b, at + 8);
        lemma_word_prefix(a, b, at + 16);
        lemma_word_prefix(a, b, at + 24);
    }
}

proof fn lemma_word_prefix(a: Seq<u8>, b: Seq<u8>, at: int)
    requires
        0 <= at,
        at + 8 <= a.len(),
        a.is_prefix_of(b),
    ensures
        word64(a, at) == word64(b, at),
{
    lemma_bits_at_window(a, b, at as nat, 8);
}

/// Fields made of the same bytes are equal.
pub proof fn lemma_bits_at_window(a: Seq<u8>, b: Seq<u8>, at: nat, k: nat)
    requires
        forall|i: int| at <= i < at + k ==> byte_or_zero(a, i) == byte_or_zero(b, i),
    ensures
        bits_at(a, 8 * at, 8 * k) == bits_at(b, 8 * at, 8 * k),
    decreases k,
{
    if k == 0 {
        reveal(bits_at);
        vstd::arithmetic::power2::lemma2_to64();
        assert(8 * k == 0);
    } else {
        crate::math::lemma_bits_at_byte(a, at, (k - 1) as nat);
        crate::math::lemma_bits_at_byte(b, at, (k - 1) as nat);
        lemma_bits_at_window(a, b, at + 1, (k - 1) as nat);
    }
}

proof fn lemma_finish_skip(h: u64, s: Seq<u8>, off: int, at: int)
    requires
        0 <= off <= s.len(),
        0 <= at <= s.len() - off,
    ensures
        finish_tail(h, s.skip(off), at) == finish_tail(h, s, off + at),
    decreases s.len() - off - at,
{
    let t = s.skip(off);
    lemma_word_skip(s, off, at);
    if at + 8 <= t.len() {
        lemma_finish_skip(
            tail8(h, word64(t, at)),
            s,
            off,
            at + 8,
        );
    } else if at + 4 <= t.len() {
        lemma_finish_skip(
            tail4(h, bits_at(t, (8 * at) as nat, 32) as u64),
            s,
            off,
            at + 4,
        );
    } else if at < t.len() {
        lemma_finish_skip(
            tail1(h, t[at]),
            s,
            off,
            at + 1,
        );
    }
}

} // verus!
