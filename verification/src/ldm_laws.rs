//! Long-distance matching: when there is any, where the content is split, and
//! which match is taken.

use crate::cparams::CParams;
use crate::frame_model::{auto_ldm, fresh_frame};
use crate::ldm::{RawSeq, GEAR_TAB};
use crate::ldm_model::{bucket_best, gear_fed, gear_next, split_handled, GearRun, LdmHit, LdmProgress, LdmTables};
use crate::opt_match_model::{brought_to, next_looked_up, with_candidate, LdmView};
use crate::opt_matches::Match;
use crate::parser::{back_run, common_run, index_of, pos_of};
use crate::xxhash::spec_xxh64;
use vstd::arithmetic::power2::{lemma2_to64, lemma_pow2_adds, lemma_pow2_pos, pow2};
use vstd::prelude::*;

verus! {

/// Far matches are looked for with the three strongest strategies and a window
/// of at least 128 MiB, and otherwise not: in a table with an entry for each
/// 128 bytes of the window, in buckets of eight, at one place in 128.
pub proof fn law_far_matches_go_with_large_windows(cp: CParams, pledged: Option<u64>, checksum: bool, rep: Seq<u32>)
    requires
        cp.wf(),
    ensures
        ({
            let strong = cp.strategy is Btopt || cp.strategy is Btultra || cp.strategy is Btultra2;
            let f = fresh_frame(cp, pledged, checksum, rep);
            &&& auto_ldm(cp) is Some <==> strong && pow2(cp.window_log as nat) >= 0x800_0000
            &&& f.ldm is Some <==> auto_ldm(cp) is Some
            &&& crate::compress::needs_ldm(cp.strategy, cp.window_log) <==> auto_ldm(cp) is Some
            &&& f.ldm is Some ==> {
                let t = f.ldm->0;
                &&& 128 * t.offsets.len() == pow2(cp.window_log as nat)
                &&& 8 * t.nexts.len() == t.offsets.len()
                &&& t.checksums.len() == t.offsets.len()
                &&& t.params.hash_rate_log == 7
                &&& t.params.window_log == cp.window_log
                &&& t.bucket_size() == 8
            }
        }),
{
    reveal(fresh_frame);
    lemma2_to64();
    if cp.window_log < 27 {
        vstd::arithmetic::power2::lemma_pow2_strictly_increases(cp.window_log as nat, 27);
    } else {
        lemma_pow2_adds(7, (cp.window_log - 7) as nat);
        lemma_pow2_adds(3, (cp.window_log - 10) as nat);
    }
}

/// The rolling hash over `n` bytes from `at` on, starting with `start`: each
/// byte doubles it and adds the byte's number, modulo 2^64.
pub open spec fn rolled(data: Seq<u8>, at: int, start: int, n: nat) -> int
    decreases n,
{
    if n == 0 {
        start % 0x1_0000_0000_0000_0000
    } else {
        (2 * rolled(data, at, start, (n - 1) as nat) + GEAR_TAB[data[at + n - 1] as int])
            % 0x1_0000_0000_0000_0000
    }
}

/// How far apart two starting values are after `n` bytes.
proof fn lemma_rolled_apart(data: Seq<u8>, at: int, a: int, b: int, n: nat)
    ensures
        (rolled(data, at, a, n) - rolled(data, at, b, n) - pow2(n) * (a - b))
            % 0x1_0000_0000_0000_0000 == 0,
    decreases n,
{
    let m = 0x1_0000_0000_0000_0000int;
    lemma2_to64();
    if n == 0 {
        assert(pow2(n) * (a - b) == a - b) by (nonlinear_arith)
            requires
                pow2(n) == 1,
        ;
        assert((a % m - b % m - (a - b)) % m == 0);
    } else {
        let k = (n - 1) as nat;
        lemma_rolled_apart(data, at, a, b, k);
        let x = rolled(data, at, a, k);
        let y = rolled(data, at, b, k);
        let d = pow2(k) * (a - b);
        lemma_pow2_adds(1, k);
        assert(pow2(n) * (a - b) == 2 * d) by (nonlinear_arith)
            requires
                pow2(n) == 2 * pow2(k),
                d == pow2(k) * (a - b),
        ;
        let g = GEAR_TAB[data[at + n - 1] as int] as int;
        assert(((2 * x + g) % m - (2 * y + g) % m - 2 * d) % m == 0) by {
            assert((x - y - d) % m == 0);
        }
    }
}

/// After 64 bytes the rolling hash depends on those bytes alone: where it
/// started makes no difference.
pub proof fn law_rolling_hash_forgets(data: Seq<u8>, at: int, a: int, b: int)
    ensures
        rolled(data, at, a, 64) == rolled(data, at, b, 64),
{
    let m = 0x1_0000_0000_0000_0000int;
    lemma_rolled_apart(data, at, a, b, 64);
    lemma2_to64();
    reveal_with_fuel(rolled, 2);
    let x = rolled(data, at, a, 64);
    let y = rolled(data, at, b, 64);
    assert((x - y - m * (a - b)) % m == 0);
    assert(0 <= x < m && 0 <= y < m);
}

/// A run of the rolling hash ends at the end of its stretch, or with the 64th
/// split; and it has split exactly after those bytes where the top bits of the
/// hash are clear.
pub open spec fn splits_where_clear(data: Seq<u8>, at: int, start: u64, rate: u32, g: GearRun) -> bool {
    &&& g.hash == rolled(data, at, start as int, g.taken)
    &&& forall|i: int| 0 <= i < g.splits.len() ==> 1 <= #[trigger] g.splits[i] <= g.taken
    &&& forall|i: int, j: int|
        0 <= i < j < g.splits.len() ==> #[trigger] g.splits[i] < #[trigger] g.splits[j]
    &&& forall|n: nat|
        1 <= n <= g.taken ==> (g.splits.contains(n as usize) <==> #[trigger] rolled(
            data,
            at,
            start as int,
            n,
        ) < pow2((64 - rate) as nat))
}

proof fn lemma_gear_step(data: Seq<u8>, at: int, start: u64, rate: u32, g: GearRun, g1: GearRun)
    requires
        1 <= rate <= 63,
        g.taken < usize::MAX,
        splits_where_clear(data, at, start, rate, g),
        g1.hash == gear_next(g.hash, data[at + g.taken]),
        g1.taken == g.taken + 1,
        g1.splits == if crate::ldm_model::splits_at(g1.hash, rate) {
            g.splits.push(g1.taken as usize)
        } else {
            g.splits
        },
    ensures
        splits_where_clear(data, at, start, rate, g1),
{
    let n1 = g1.taken;
    let h = g.hash;
    assert(g1.hash == rolled(data, at, start as int, n1)) by {
        let v = GEAR_TAB[data[at + g.taken] as int];
        assert(gear_next(h, data[at + g.taken]) == (2 * h + v) % 0x1_0000_0000_0000_0000);
    }
    lemma_pow2_pos((64 - rate) as nat);
    let p = pow2((64 - rate) as nat) as int;
    assert(g1.hash as int / p == 0 <==> g1.hash < p) by (nonlinear_arith)
        requires
            p > 0,
            g1.hash >= 0,
    ;
    assert forall|n: nat| 1 <= n <= n1 implies (g1.splits.contains(n as usize) <==> #[trigger] rolled(
        data,
        at,
        start as int,
        n,
    ) < pow2((64 - rate) as nat)) by {
        if n <= g.taken {
            if g.splits.contains(n as usize) {
                let i = choose|i: int| 0 <= i < g.splits.len() && g.splits[i] == n as usize;
                assert(g1.splits[i] == n as usize);
            }
            if g1.splits.contains(n as usize) {
                let i = choose|i: int| 0 <= i < g1.splits.len() && g1.splits[i] == n as usize;
                assert(i < g.splits.len());
                assert(g.splits[i] == n as usize);
            }
        } else if g1.splits.len() > g.splits.len() {
            assert(g1.splits[g.splits.len() as int] == n1 as usize);
        } else if g1.splits.contains(n as usize) {
            let i = choose|i: int| 0 <= i < g1.splits.len() && g1.splits[i] == n as usize;
            assert(g.splits[i] <= g.taken);
        }
    }
}

proof fn lemma_gear(data: Seq<u8>, at: int, end: int, start: u64, rate: u32, g: GearRun)
    requires
        1 <= rate <= 63,
        0 <= end - at < usize::MAX,
        g.taken <= end - at,
        g.splits.len() <= 64,
        splits_where_clear(data, at, start, rate, g),
    ensures
        ({
            let r = gear_fed(data, at, end, rate, g);
            &&& splits_where_clear(data, at, start, rate, r)
            &&& r.taken == end - at || r.splits.len() == 64
        }),
    decreases end - at - g.taken,
{
    reveal_with_fuel(gear_fed, 1);
    if g.taken < end - at && g.splits.len() < 64 {
        let hash = gear_next(g.hash, data[at + g.taken]);
        let taken = g.taken + 1;
        let g1 = GearRun {
            hash,
            taken,
            splits: if crate::ldm_model::splits_at(hash, rate) {
                g.splits.push(taken as usize)
            } else {
                g.splits
            },
        };
        lemma_gear_step(data, at, start, rate, g, g1);
        lemma_gear(data, at, end, start, rate, g1);
    }
}

pub proof fn law_content_is_split_where_the_hash_is_clear(
    data: Seq<u8>,
    at: int,
    end: int,
    start: u64,
    rate: u32,
)
    requires
        1 <= rate <= 63,
        0 <= end - at < usize::MAX,
    ensures
        ({
            let g = gear_fed(
                data,
                at,
                end,
                rate,
                GearRun { hash: start, taken: 0, splits: Seq::empty() },
            );
            &&& splits_where_clear(data, at, start, rate, g)
            &&& g.taken == end - at || g.splits.len() == 64
        }),
{
    lemma_gear(data, at, end, start, rate, GearRun { hash: start, taken: 0, splits: Seq::empty() });
}

/// What the `i`-th entry of a bucket gives at a split: the bytes that agree
/// before it and after it, and where they come from. Nothing, unless the
/// fingerprint is the same, the place is still valid, and 64 bytes agree.
pub open spec fn entry_hit(
    t: LdmTables,
    data: Seq<u8>,
    split: int,
    end: int,
    anchor: int,
    base: int,
    checksum: u32,
    i: int,
) -> Option<LdmHit> {
    let lowest = if t.window.low_limit <= t.window.dict_limit {
        t.window.low_limit
    } else {
        t.window.dict_limit
    };
    let source = pos_of(t.offsets[base + i], t.window.seg_bias);
    let forward = common_run(data, split, source, end);
    if t.checksums[base + i] == checksum && t.offsets[base + i] > lowest && source < split && forward
        >= 64 {
        Some(
            LdmHit {
                back: back_run(data, split, source, anchor, pos_of(lowest, t.window.seg_bias)),
                forward,
                source,
            },
        )
    } else {
        None
    }
}

pub open spec fn hit_len(h: Option<LdmHit>) -> nat {
    match h {
        Some(x) => x.back + x.forward,
        None => 0,
    }
}

proof fn lemma_bucket(
    t: LdmTables,
    data: Seq<u8>,
    split: int,
    end: int,
    anchor: int,
    base: int,
    checksum: u32,
    i: int,
    best: Option<LdmHit>,
)
    requires
        0 <= i <= t.bucket_size(),
    ensures
        ({
            let r = bucket_best(t, data, split, end, anchor, base, checksum, i, best);
            &&& r == best || exists|j: int|
                i <= j < t.bucket_size() && r is Some && #[trigger] entry_hit(
                    t,
                    data,
                    split,
                    end,
                    anchor,
                    base,
                    checksum,
                    j,
                ) == r
            &&& hit_len(r) >= hit_len(best)
            &&& forall|j: int|
                i <= j < t.bucket_size() ==> hit_len(r) >= hit_len(
                    #[trigger] entry_hit(t, data, split, end, anchor, base, checksum, j),
                )
        }),
    decreases t.bucket_size() - i,
{
    reveal_with_fuel(bucket_best, 1);
    if i < t.bucket_size() {
        let e = entry_hit(t, data, split, end, anchor, base, checksum, i);
        let next = if hit_len(e) > hit_len(best) {
            e
        } else {
            best
        };
        lemma_bucket(t, data, split, end, anchor, base, checksum, i + 1, next);
        assert(bucket_best(t, data, split, end, anchor, base, checksum, i, best) == bucket_best(
            t,
            data,
            split,
            end,
            anchor,
            base,
            checksum,
            i + 1,
            next,
        ));
    }
}

/// At a split the entry of its bucket with the longest match is taken, if any
/// matches at all.
pub proof fn law_the_longest_far_match_is_taken(
    t: LdmTables,
    data: Seq<u8>,
    split: int,
    end: int,
    anchor: int,
    base: int,
    checksum: u32,
)
    ensures
        ({
            let r = bucket_best(t, data, split, end, anchor, base, checksum, 0, None);
            &&& r is None <==> forall|j: int|
                0 <= j < t.bucket_size() ==> #[trigger] entry_hit(
                    t,
                    data,
                    split,
                    end,
                    anchor,
                    base,
                    checksum,
                    j,
                ) is None
            &&& r is Some ==> exists|j: int|
                0 <= j < t.bucket_size() && #[trigger] entry_hit(
                    t,
                    data,
                    split,
                    end,
                    anchor,
                    base,
                    checksum,
                    j,
                ) == r
            &&& forall|j: int|
                0 <= j < t.bucket_size() ==> hit_len(r) >= hit_len(
                    #[trigger] entry_hit(t, data, split, end, anchor, base, checksum, j),
                )
        }),
{
    lemma_pow2_pos(t.params.bucket_size_log as nat);
    lemma_bucket(t, data, split, end, anchor, base, checksum, 0, None);
    let r = bucket_best(t, data, split, end, anchor, base, checksum, 0, None);
    if r is None {
        assert forall|j: int| 0 <= j < t.bucket_size() implies #[trigger] entry_hit(
            t,
            data,
            split,
            end,
            anchor,
            base,
            checksum,
            j,
        ) is None by {
            assert(hit_len(r) >= hit_len(
                entry_hit(t, data, split, end, anchor, base, checksum, j),
            ));
        }
    }
}

/// Each split is entered under the hash of the 64 bytes at it, in place of the
/// oldest entry of its bucket: the low bits of the hash choose the bucket, its
/// upper half is kept. A match there is stored with the literals before it;
/// within the last match none is looked for.
pub proof fn law_splits_are_entered(data: Seq<u8>, split: int, end: int, capacity: nat, p: LdmProgress)
    requires
        p.fits,
        ({
            let t = p.tables;
            &&& t.params.bucket_size_log <= 8
            &&& t.params.bucket_size_log <= t.params.hash_log
            &&& t.offsets.len() == pow2(t.params.hash_log as nat)
            &&& t.checksums.len() == pow2(t.params.hash_log as nat)
            &&& t.nexts.len() == pow2((t.params.hash_log - t.params.bucket_size_log) as nat)
            &&& forall|i: int| 0 <= i < t.nexts.len() ==> (#[trigger] t.nexts[i]) < t.bucket_size()
        }),
    ensures
        ({
            let t = p.tables;
            let q = split_handled(data, split, end, capacity, p);
            let x = spec_xxh64(data.subrange(split, split + 64), 0) as int;
            let bucket = x % pow2((t.params.hash_log - t.params.bucket_size_log) as nat) as int;
            let at = bucket * t.bucket_size() + t.nexts[bucket];
            &&& q.fits ==> {
                &&& q.tables.offsets == t.offsets.update(at, index_of(split as nat, t.window.seg_bias))
                &&& q.tables.checksums == t.checksums.update(at, (x / 0x1_0000_0000) as u32)
                &&& q.tables.offsets[at] == index_of(split as nat, t.window.seg_bias)
                &&& q.tables.nexts[bucket] == if t.nexts[bucket] + 1 < t.bucket_size() {
                    t.nexts[bucket] + 1
                } else {
                    0
                }
            }
            &&& split < p.anchor ==> q.fits && q.seqs == p.seqs
            &&& split >= p.anchor ==> {
                let hit = bucket_best(
                    t,
                    data,
                    split,
                    end,
                    p.anchor,
                    bucket * t.bucket_size(),
                    (x / 0x1_0000_0000) as u32,
                    0,
                    None,
                );
                &&& hit is None ==> q.fits && q.seqs == p.seqs && q.anchor == p.anchor
                &&& hit is Some && p.seqs.len() == capacity ==> !q.fits
                &&& hit is Some && p.seqs.len() != capacity ==> {
                    let h = hit->0;
                    &&& q.fits
                    &&& q.anchor == split + h.forward
                    &&& q.lits == split + h.forward
                    &&& q.seqs == p.seqs.push(
                        RawSeq {
                            lit_length: (split - h.back - p.lits) as u32,
                            match_length: (h.back + h.forward) as u32,
                            offset: (split - h.source) as u32,
                        },
                    )
                }
            }
        }),
{
    reveal(split_handled);
    let t = p.tables;
    let x = spec_xxh64(data.subrange(split, split + 64), 0) as int;
    let n = pow2((t.params.hash_log - t.params.bucket_size_log) as nat) as int;
    let b = t.bucket_size();
    lemma_pow2_pos((t.params.hash_log - t.params.bucket_size_log) as nat);
    lemma_pow2_pos(t.params.bucket_size_log as nat);
    lemma_pow2_adds(
        (t.params.hash_log - t.params.bucket_size_log) as nat,
        t.params.bucket_size_log as nat,
    );
    vstd::arithmetic::div_mod::lemma_mod_bound(x, n);
    let bucket = x % n;
    let slot = t.nexts[bucket] as int;
    assert(bucket * b + slot < n * b) by (nonlinear_arith)
        requires
            0 <= bucket < n,
            0 <= slot < b,
    ;
    assert(0 <= bucket * b) by (nonlinear_arith)
        requires
            0 <= bucket,
            0 <= b,
    ;
    lemma2_to64();
    if t.params.bucket_size_log < 8 {
        vstd::arithmetic::power2::lemma_pow2_strictly_increases(t.params.bucket_size_log as nat, 8);
    }
    let q = split_handled(data, split, end, capacity, p);
    assert(bucket == (x as nat % n as nat) as int);
    if slot + 1 < b {
        vstd::arithmetic::div_mod::lemma_small_mod((slot + 1) as nat, b as nat);
    } else {
        vstd::arithmetic::div_mod::lemma_mod_self_0(b);
    }
}

/// Where a far match covers the place `at` of a block, the optimal parser is
/// offered what is left of it, if that is longer than all that it has found.
pub proof fn law_far_matches_are_offered(
    had: LdmView,
    seqs: Seq<RawSeq>,
    found: Seq<Match>,
    at: u32,
    remaining: u32,
    min_match: u32,
)
    requires
        had.cursor.pos < seqs.len(),
        had.start <= at < had.end,
        had.offset <= u32::MAX - 3,
        min_match <= had.end - at <= remaining,
    ensures
        ({
            let r = with_candidate(had, seqs, found, at, remaining, min_match).1;
            let m = Match { off: (had.offset + 3) as u32, len: (had.end - at) as u32 };
            &&& found.len() == 0 ==> r == seq![m]
            &&& 0 < found.len() < 4096 && found.last().len < m.len ==> r == found.push(m)
            &&& found.len() > 0 && found.last().len >= m.len ==> r == found
        }),
{
    reveal(with_candidate);
    reveal(brought_to);
    assert(Seq::<Match>::empty().push(
        Match { off: (had.offset + 3) as u32, len: (had.end - at) as u32 },
    ) =~= seq![Match { off: (had.offset + 3) as u32, len: (had.end - at) as u32 }]);
    if found.len() == 0 {
        assert(found =~= Seq::<Match>::empty());
    }
}

/// The next far match starts after its literals, and ends with its length or
/// with the block. One that starts after the block is not for it.
pub proof fn law_far_matches_start_after_their_literals(v: LdmView, seqs: Seq<RawSeq>, at: u32, remaining: u32)
    requires
        v.cursor.pos < seqs.len(),
        v.cursor.pos_in_sequence == 0,
        at + remaining <= u32::MAX,
        at + seqs[v.cursor.pos as int].lit_length + seqs[v.cursor.pos as int].match_length <= u32::MAX,
        seqs[v.cursor.pos as int].lit_length > 0,
    ensures
        ({
            let q = seqs[v.cursor.pos as int];
            let r = next_looked_up(v, seqs, at, remaining);
            &&& q.lit_length < remaining ==> {
                &&& r.start == at + q.lit_length
                &&& r.offset == q.offset
                &&& q.lit_length + q.match_length <= remaining ==> r.end == at + q.lit_length + q.match_length
                &&& q.lit_length + q.match_length > remaining ==> r.end == at + remaining
            }
            &&& q.lit_length >= remaining ==> r.start == u32::MAX && r.end == u32::MAX
        }),
{
    reveal(next_looked_up);
}

} // verus!
