//! Which long-distance matches are found.

use crate::ldm::{LdmParams, RawSeq, GEAR_TAB};
use crate::parser::{back_run, common_run, index_of, pos_of};
use crate::window::{spec_enforced, Window};
use crate::xxhash::spec_xxh64;
use vstd::arithmetic::power2::pow2;
use vstd::prelude::*;

verus! {

/// The fingerprint table in buckets, where each bucket takes its next entry,
/// and the window.
pub struct LdmTables {
    pub params: LdmParams,
    pub offsets: Seq<u32>,
    pub checksums: Seq<u32>,
    pub nexts: Seq<u32>,
    pub window: Window,
}

/// The state before the first block.
pub open spec fn fresh_ldm(params: LdmParams) -> LdmTables {
    LdmTables {
        params,
        offsets: Seq::new(pow2(params.hash_log as nat), |i: int| 0u32),
        checksums: Seq::new(pow2(params.hash_log as nat), |i: int| 0u32),
        nexts: Seq::new(
            pow2((params.hash_log - params.bucket_size_log) as nat),
            |i: int| 0u32,
        ),
        window: Window {
            seg_bias: 2,
            dict_bias: 2,
            low_limit: 2,
            dict_limit: 2,
            next_src_pos: 0,
            next_src_idx: 2,
        },
    }
}

impl LdmTables {
    pub open spec fn bucket_size(self) -> int {
        pow2(self.params.bucket_size_log as nat) as int
    }

    /// With an entry in place of the oldest of its bucket.
    pub open spec fn inserted(self, hash: int, offset: u32, checksum: u32) -> LdmTables {
        let slot = self.nexts[hash] as int;
        let at = hash * self.bucket_size() + slot;
        LdmTables {
            offsets: self.offsets.update(at, offset),
            checksums: self.checksums.update(at, checksum),
            nexts: self.nexts.update(hash, ((slot + 1) % self.bucket_size()) as u32),
            ..self
        }
    }

    /// The lowest index that is valid.
    pub open spec fn lowest(self) -> u32 {
        if self.window.low_limit < self.window.dict_limit {
            self.window.low_limit
        } else {
            self.window.dict_limit
        }
    }
}

/// The rolling hash after one more byte.
pub open spec fn gear_next(hash: u64, byte: u8) -> u64 {
    hash.wrapping_mul(2).wrapping_add(GEAR_TAB[byte as int])
}

/// Whether the content says to split: the top bits of the hash are clear.
pub open spec fn splits_at(hash: u64, hash_rate_log: u32) -> bool {
    hash_rate_log == 0 || hash as nat / pow2((64 - hash_rate_log) as nat) == 0
}

/// The rolling hash over a stretch, and where the content says to split.
pub struct GearRun {
    pub hash: u64,
    pub taken: nat,
    pub splits: Seq<usize>,
}

/// The run `g` over `data[at .. end]` carried on, up to a batch of splits.
#[verifier::opaque]
pub open spec fn gear_fed(data: Seq<u8>, at: int, end: int, hash_rate_log: u32, g: GearRun) -> GearRun
    decreases end - at - g.taken,
{
    if g.taken < end - at && g.splits.len() < 64 {
        let hash = gear_next(g.hash, data[at + g.taken]);
        let taken = g.taken + 1;
        gear_fed(
            data,
            at,
            end,
            hash_rate_log,
            GearRun {
                hash,
                taken,
                splits: if splits_at(hash, hash_rate_log) {
                    g.splits.push(taken as usize)
                } else {
                    g.splits
                },
            },
        )
    } else {
        g
    }
}

/// A match at a split: its length before and after the split, and its source.
pub struct LdmHit {
    pub back: nat,
    pub forward: nat,
    pub source: int,
}

/// The longest match that the entries from the `i`-th of a bucket on give, or
/// `best`.
#[verifier::opaque]
pub open spec fn bucket_best(
    t: LdmTables,
    data: Seq<u8>,
    split: int,
    end: int,
    anchor: int,
    base: int,
    checksum: u32,
    i: int,
    best: Option<LdmHit>,
) -> Option<LdmHit>
    decreases t.bucket_size() - i,
{
    if i < t.bucket_size() {
        let offset = t.offsets[base + i];
        let m = pos_of(offset, t.window.seg_bias);
        let best_len = match best {
            Some(b) => b.back + b.forward,
            None => 0,
        };
        let forward = common_run(data, split, m, end);
        let back = back_run(data, split, m, anchor, pos_of(t.lowest(), t.window.seg_bias));
        let better = t.checksums[base + i] == checksum && offset > t.lowest() && m < split
            && forward >= 64 && back + forward > best_len;
        bucket_best(
            t,
            data,
            split,
            end,
            anchor,
            base,
            checksum,
            i + 1,
            if better {
                Some(LdmHit { back, forward, source: m })
            } else {
                best
            },
        )
    } else {
        best
    }
}

/// How far a chunk has been searched: the sequences, where the literals of the
/// next one start, and where the last match ended. At the end, whether there
/// was room for all sequences.
pub struct LdmProgress {
    pub tables: LdmTables,
    pub seqs: Seq<RawSeq>,
    pub lits: int,
    pub anchor: int,
    pub fits: bool,
}

/// One split handled: a match is looked for and stored, and the split entered.
#[verifier::opaque]
pub open spec fn split_handled(data: Seq<u8>, split: int, end: int, capacity: nat, p: LdmProgress) -> LdmProgress {
    let t = p.tables;
    let x = spec_xxh64(data.subrange(split, split + 64), 0);
    let hash = x as nat % pow2((t.params.hash_log - t.params.bucket_size_log) as nat);
    let checksum = (x / 0x1_0000_0000) as u32;
    let hit = if split >= p.anchor {
        bucket_best(
            t,
            data,
            split,
            end,
            p.anchor,
            hash * t.bucket_size(),
            checksum,
            0,
            None,
        )
    } else {
        None
    };
    if hit is Some && p.seqs.len() == capacity {
        LdmProgress { fits: false, ..p }
    } else {
        let tables = t.inserted(
            hash as int,
            index_of(split as nat, t.window.seg_bias),
            checksum,
        );
        match hit {
            Some(h) => LdmProgress {
                tables,
                seqs: p.seqs.push(
                    RawSeq {
                        lit_length: (split - h.back - p.lits) as u32,
                        match_length: (h.back + h.forward) as u32,
                        offset: (split - h.source) as u32,
                    },
                ),
                lits: split + h.forward,
                anchor: split + h.forward,
                fits: true,
            },
            None => LdmProgress { tables, ..p },
        }
    }
}

/// The splits from the `k`-th on handled, until a match reaches beyond `upto`.
#[verifier::opaque]
pub open spec fn splits_handled(
    data: Seq<u8>,
    ip: int,
    upto: int,
    end: int,
    splits: Seq<usize>,
    k: nat,
    capacity: nat,
    p: LdmProgress,
) -> LdmProgress
    decreases splits.len() - k,
{
    if k < splits.len() {
        let p1 = split_handled(data, ip + splits[k as int] - 64, end, capacity, p);
        if !p1.fits || p1.anchor > upto {
            p1
        } else {
            splits_handled(data, ip, upto, end, splits, k + 1, capacity, p1)
        }
    } else {
        p
    }
}

/// The rest of a chunk, from `ip` on, searched.
#[verifier::opaque]
pub open spec fn chunk_searched(data: Seq<u8>, ip: int, end: int, rolling: u64, capacity: nat, p: LdmProgress) -> LdmProgress
    decreases end - 8 - ip,
{
    if ip < end - 8 {
        let g = gear_fed(
            data,
            ip,
            end - 8,
            p.tables.params.hash_rate_log,
            GearRun { hash: rolling, taken: 0, splits: Seq::empty() },
        );
        let upto = ip + g.taken;
        let p1 = splits_handled(data, ip, upto, end, g.splits, 0, capacity, p);
        let next = if p1.anchor > upto {
            p1.anchor
        } else {
            upto
        };
        if p1.fits && ip < next < end - 8 {
            chunk_searched(data, next, end, g.hash, capacity, p1)
        } else {
            p1
        }
    } else {
        p
    }
}

/// The chunk `data[start .. end]` searched.
pub open spec fn ldm_chunk(data: Seq<u8>, start: int, end: int, capacity: nat, p: LdmProgress) -> LdmProgress {
    if end - start < 64 {
        p
    } else {
        LdmProgress {
            anchor: p.anchor,
            ..chunk_searched(
                data,
                start + 64,
                end,
                0xFFFF_FFFF,
                capacity,
                LdmProgress { anchor: start, ..p },
            )
        }
    }
}

/// The block from `at` to `end` searched, chunk by chunk.
#[verifier::opaque]
pub open spec fn ldm_chunks(data: Seq<u8>, at: int, end: int, capacity: nat, p: LdmProgress) -> LdmProgress
    decreases end - at,
{
    if at < end && p.seqs.len() < capacity {
        let sub_end = if end - at < 1_048_576 {
            end
        } else {
            at + 1_048_576
        };
        let w = p.tables.window;
        let tables = LdmTables {
            window: spec_enforced(
                w,
                index_of(sub_end as nat, w.seg_bias),
                pow2(p.tables.params.window_log as nat) as u32,
            ),
            ..p.tables
        };
        let p1 = ldm_chunk(data, at, sub_end, capacity, LdmProgress { tables, ..p });
        if p1.fits {
            ldm_chunks(data, sub_end, end, capacity, p1)
        } else {
            p1
        }
    } else {
        p
    }
}

/// The sequences of the block `data[start .. end]`, unless they are too many,
/// and the state after it. The window's segments adjoin in `data`.
#[verifier::opaque]
pub open spec fn ldm_generated_in(t: LdmTables, capacity: nat, data: Seq<u8>, start: int, end: int) -> (
    LdmTables,
    Option<Seq<RawSeq>>,
) {
    let p = ldm_chunks(
        data,
        start,
        end,
        capacity,
        LdmProgress {
            tables: t,
            seqs: Seq::empty(),
            lits: start,
            anchor: start,
            fits: true,
        },
    );
    (
        p.tables,
        if p.fits {
            Some(p.seqs)
        } else {
            None
        },
    )
}

/// The sequences of the block `data[start .. end]`, unless they are too many,
/// and the state after it: they are looked for in the history that the window
/// shows, wherever in `data` it lies.
#[verifier::opaque]
pub open spec fn ldm_generated(t: LdmTables, capacity: nat, data: Seq<u8>, start: int, end: int) -> (
    LdmTables,
    Option<Seq<RawSeq>>,
) {
    let w = t.window;
    if w.holds_block(data.len(), start as nat, end as nat) {
        let laid = w.shown(data, start as nat) + data.subrange(start, end);
        let (t1, seqs) = ldm_generated_in(
            LdmTables { window: Window { seg_bias: w.low_limit, dict_bias: w.low_limit, ..w }, ..t },
            capacity,
            laid,
            laid.len() - (end - start),
            laid.len() as int,
        );
        (
            LdmTables {
                window: Window { seg_bias: w.seg_bias, dict_bias: w.dict_bias, ..t1.window },
                ..t1
            },
            seqs,
        )
    } else {
        ldm_generated_in(t, capacity, data, start, end)
    }
}

} // verus!
