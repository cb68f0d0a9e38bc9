//! The fast match finder: one hash table, one candidate per position.

use crate::cparams::{CParams, SHORT_CACHE_TAG_BITS};
use crate::fast_model::{
    all_entered, all_tagged, block_outcome, dict_block_outcome, dict_hits, dict_match_stored, dict_parsed, dict_scan,
    dict_search, entered, ext_block_outcome, filled_in, is_whole, match_ended, match_stored, parsed, repeats_stored,
    scan, search, spec_lowest_index, tag_entered, tag_filled_in, tagged, tagged_at, thirds_entered, DictHitView,
    FastDict, FastOutcome, FastPlace, FastSetup, FastState, HitView, Probe,
};
use crate::layout::Layout;
use crate::math::pow2_u64;
use crate::parser::{
    count_eq, eq4, eq_run, extend_back, hash_ptr, index_of, lemma_join_runs, new_table, spec_hash, to_index, to_pos,
    Parse, Parser, HASH_READ_SIZE,
};
use crate::recent::{in_sync, Recent};
use crate::window::{reduce_table, reduced_table, WINDOW_START_INDEX};
use vstd::arithmetic::power2::{lemma2_to64, lemma_pow2_adds, lemma_pow2_strictly_increases, pow2};
use vstd::prelude::*;

verus! {

/// The state of the fast match finder.
pub struct FastCtx {
    pub hash_table: Vec<u32>,
    pub hlog: u32,
    pub mls: u32,
    pub step_size: usize,
    pub window_log: u32,
}

impl FastCtx {
    pub open spec fn wf(&self) -> bool {
        &&& 6 <= self.hlog <= 28
        &&& self.hash_table@.len() == pow2(self.hlog as nat)
        &&& 2 <= self.step_size <= 131074
        &&& self.window_log <= 31
    }

    pub fn new(cparams: &CParams) -> (r: Self)
        requires
            cparams.wf(),
        ensures
            r.wf(),
            r.hash_table@ == Seq::new(pow2(cparams.hash_log as nat), |i: int| 0u32),
            r.hlog == cparams.hash_log,
            r.window_log == cparams.window_log,
            r.step_size == cparams.target_length + 1 + if cparams.target_length == 0 {
                1int
            } else {
                0
            },
            r.mls == if cparams.min_match < 4 {
                4
            } else {
                cparams.min_match
            },
    {
        FastCtx {
            hash_table: new_table(cparams.hash_log),
            hlog: cparams.hash_log,
            step_size: cparams.target_length as usize + (if cparams.target_length == 0 {
                2usize
            } else {
                1usize
            }),
            mls: if cparams.min_match < 4 {
                4
            } else {
                cparams.min_match
            },
            window_log: cparams.window_log,
        }
    }

    /// Takes `correction` off every index.
    pub fn reduce_indices(&mut self, correction: u32)
        requires
            old(self).wf(),
        ensures
            final(self).wf(),
            final(self).same_params(old(self)),
            final(self).hash_table@ == reduced_table(old(self).hash_table@, correction, false),
    {
        reduce_table(&mut self.hash_table, correction, false);
    }

    /// Enters position `pos` under its hash.
    fn enter(&mut self, data: &[u8], pos: usize, bias: u32)
        requires
            old(self).wf(),
            pos + 8 <= data@.len(),
            data@.len() <= u32::MAX,
        ensures
            final(self).wf(),
            final(self).same_params(old(self)),
            final(self).hash_table@ == entered(
                old(self).hash_table@,
                data@,
                pos as int,
                old(self).hlog,
                old(self).mls,
                bias,
            ),
    {
        let h: usize = hash_ptr(data, pos, self.hlog, self.mls);
        self.hash_table.set(h, to_index(pos, bias));
    }

    pub open spec fn same_params(&self, other: &Self) -> bool {
        &&& self.hlog == other.hlog
        &&& self.mls == other.mls
        &&& self.step_size == other.step_size
        &&& self.window_log == other.window_log
    }
}

/// Enters every third position of a dictionary at the start of `data`.
pub fn fill_fast_hash_table_for_cctx(ctx: &mut FastCtx, data: &[u8], dict_len: usize)
    requires
        old(ctx).wf(),
        dict_len <= data@.len() <= u32::MAX,
    ensures
        final(ctx).wf(),
        final(ctx).same_params(old(ctx)),
        final(ctx).hash_table@ == thirds_entered(
            old(ctx).hash_table@,
            data@,
            0,
            dict_len as int,
            old(ctx).hlog,
            old(ctx).mls,
            WINDOW_START_INDEX,
        ),
{
    let ghost start = *ctx;
    let mut ip: usize = 0;
    while dict_len > 9 && ip < dict_len - 9
        invariant
            ctx.wf(),
            ctx.same_params(&start),
            ip <= dict_len <= data@.len() <= u32::MAX,
            thirds_entered(
                start.hash_table@,
                data@,
                0,
                dict_len as int,
                start.hlog,
                start.mls,
                WINDOW_START_INDEX,
            ) == thirds_entered(
                ctx.hash_table@,
                data@,
                ip as int,
                dict_len as int,
                start.hlog,
                start.mls,
                WINDOW_START_INDEX,
            ),
        decreases dict_len - ip,
    {
        ctx.enter(data, ip, WINDOW_START_INDEX);
        ip = ip + 3;
    }
}

/// Stores an index with the tag of its hash.
pub fn write_tagged_index(table: &mut Vec<u32>, hash_and_tag: usize, index: u32)
    requires
        hash_and_tag / 256 < old(table)@.len(),
    ensures
        final(table)@ == tag_entered(old(table)@, hash_and_tag as nat, index),
{
    let hash: usize = hash_and_tag / 256;
    let tag: u32 = (hash_and_tag % 256) as u32;
    table.set(hash, index.wrapping_mul(256).wrapping_add(tag));
}

/// A hash of `hlog + 8` bits leaves a bucket of `hlog` bits.
pub proof fn lemma_bucket(h: nat, hlog: nat)
    requires
        h < pow2(hlog + 8),
    ensures
        h / 256 < pow2(hlog),
{
    lemma2_to64();
    lemma_pow2_adds(hlog, 8);
    assert(h / 256 < pow2(hlog)) by (nonlinear_arith)
        requires
            h < pow2(hlog) * 256,
    ;
}

/// Enters a dictionary into a tagged table: every third position, and those
/// between where their bucket is empty.
#[verifier::rlimit(30)]
pub fn fill_fast_hash_table_for_cdict(
    table: &mut Vec<u32>,
    data: &[u8],
    dict_len: usize,
    hlog: u32,
    mls: u32,
)
    requires
        6 <= hlog <= 24,
        old(table)@.len() == pow2(hlog as nat),
        dict_len <= data@.len() <= u32::MAX,
    ensures
        final(table)@ == all_tagged(
            old(table)@,
            data@,
            0,
            dict_len as int,
            hlog,
            mls,
            WINDOW_START_INDEX,
        ),
        final(table)@.len() == old(table)@.len(),
{
    let h_bits: u32 = hlog + SHORT_CACHE_TAG_BITS;
    let ghost n = table@.len();
    let ghost start = table@;
    let mut ip: usize = 0;
    while dict_len > 9 && ip < dict_len - 9
        invariant
            6 <= hlog <= 24,
            h_bits == hlog + 8,
            table@.len() == n,
            n == pow2(hlog as nat),
            ip <= dict_len <= data@.len() <= u32::MAX,
            all_tagged(start, data@, 0, dict_len as int, hlog, mls, WINDOW_START_INDEX)
                == all_tagged(
                table@,
                data@,
                ip as int,
                dict_len as int,
                hlog,
                mls,
                WINDOW_START_INDEX,
            ),
        decreases dict_len - ip,
    {
        let ghost t = table@;
        let ghost t0 = tagged_at(t, data@, ip as int, hlog, mls, WINDOW_START_INDEX);
        let ghost t1 = tag_filled_in(t0, data@, ip + 1, hlog, mls, WINDOW_START_INDEX);
        let ghost t2 = tag_filled_in(t1, data@, ip + 2, hlog, mls, WINDOW_START_INDEX);
        let mut p: usize = 0;
        while p < 3
            invariant
                p <= 3,
                6 <= hlog <= 24,
                h_bits == hlog + 8,
                table@.len() == n,
                n == pow2(hlog as nat),
                ip + 10 <= dict_len <= data@.len() <= u32::MAX,
                t0 == tagged_at(t, data@, ip as int, hlog, mls, WINDOW_START_INDEX),
                t1 == tag_filled_in(t0, data@, ip + 1, hlog, mls, WINDOW_START_INDEX),
                t2 == tag_filled_in(t1, data@, ip + 2, hlog, mls, WINDOW_START_INDEX),
                table@ == if p == 0 {
                    t
                } else if p == 1 {
                    t0
                } else if p == 2 {
                    t1
                } else {
                    t2
                },
            decreases 3 - p,
        {
            let hat: usize = hash_ptr(data, ip + p, h_bits, mls);
            proof {
                lemma_bucket(hat as nat, hlog as nat);
            }
            if p == 0 || table[hat / 256] == 0 {
                write_tagged_index(table, hat, to_index(ip + p, WINDOW_START_INDEX));
            }
            p = p + 1;
        }
        ip = ip + 3;
    }
}

/// Enters a dictionary as a copied dictionary's table holds it: every third
/// position, and those between where their bucket is empty.
#[verifier::rlimit(30)]
pub fn fill_fast_hash_table_for_cctx_full(ctx: &mut FastCtx, data: &[u8], dict_len: usize)
    requires
        old(ctx).wf(),
        dict_len <= data@.len() <= u32::MAX,
    ensures
        final(ctx).wf(),
        final(ctx).same_params(old(ctx)),
        final(ctx).hash_table@ == all_entered(
            old(ctx).hash_table@,
            data@,
            0,
            dict_len as int,
            old(ctx).hlog,
            old(ctx).mls,
            WINDOW_START_INDEX,
        ),
{
    let ghost start = *ctx;
    let ghost hlog = ctx.hlog;
    let ghost mls = ctx.mls;
    let mut ip: usize = 0;
    while dict_len > 9 && ip < dict_len - 9
        invariant
            ctx.wf(),
            ctx.same_params(&start),
            hlog == start.hlog,
            mls == start.mls,
            ip <= dict_len <= data@.len() <= u32::MAX,
            all_entered(
                start.hash_table@,
                data@,
                0,
                dict_len as int,
                hlog,
                mls,
                WINDOW_START_INDEX,
            ) == all_entered(
                ctx.hash_table@,
                data@,
                ip as int,
                dict_len as int,
                hlog,
                mls,
                WINDOW_START_INDEX,
            ),
        decreases dict_len - ip,
    {
        let ghost t = ctx.hash_table@;
        let ghost t0 = entered(t, data@, ip as int, hlog, mls, WINDOW_START_INDEX);
        let ghost t1 = filled_in(t0, data@, ip + 1, hlog, mls, WINDOW_START_INDEX);
        let ghost t2 = filled_in(t1, data@, ip + 2, hlog, mls, WINDOW_START_INDEX);
        let mut p: usize = 0;
        while p < 3
            invariant
                p <= 3,
                ctx.wf(),
                ctx.same_params(&start),
                hlog == start.hlog,
                mls == start.mls,
                ip + 10 <= dict_len <= data@.len() <= u32::MAX,
                t0 == entered(t, data@, ip as int, hlog, mls, WINDOW_START_INDEX),
                t1 == filled_in(t0, data@, ip + 1, hlog, mls, WINDOW_START_INDEX),
                t2 == filled_in(t1, data@, ip + 2, hlog, mls, WINDOW_START_INDEX),
                ctx.hash_table@ == if p == 0 {
                    t
                } else if p == 1 {
                    t0
                } else if p == 2 {
                    t1
                } else {
                    t2
                },
            decreases 3 - p,
        {
            let h: usize = hash_ptr(data, ip + p, ctx.hlog, ctx.mls);
            if p == 0 || ctx.hash_table[h] == 0 {
                ctx.hash_table.set(h, to_index(ip + p, WINDOW_START_INDEX));
            }
            p = p + 1;
        }
        ip = ip + 3;
    }
}

/// What a search found.
pub struct FastHit {
    /// Where the match is, and where its source.
    pub ip: usize,
    pub source: usize,
    /// Whether it was found with the newest offset.
    pub repeat: bool,
    /// The position that was last entered.
    pub current: usize,
    /// The next position, not entered yet, with its hash; `enter_next` says
    /// whether to enter it in any case.
    pub next: usize,
    pub next_hash: usize,
    pub enter_next: bool,
}

impl FastHit {
    pub open spec fn view(&self) -> HitView {
        HitView {
            ip: self.ip as int,
            source: self.source as int,
            repeat: self.repeat,
            current: self.current as int,
            next: self.next as int,
            next_hash: self.next_hash as int,
            enter_next: self.enter_next,
        }
    }
}

pub open spec fn opt_view(h: Option<FastHit>) -> Option<HitView> {
    match h {
        Some(x) => Some(x.view()),
        None => None,
    }
}

impl FastCtx {
    /// The place of a search.
    pub open spec fn place(
        &self,
        p: &Parser,
        low: usize,
        seam: usize,
        bias: u32,
        late: bool,
    ) -> FastPlace {
        FastPlace {
            data: p.data@,
            end: p.end as int,
            low: low as int,
            seam: seam as int,
            bias,
            hlog: self.hlog,
            mls: self.mls,
            step_size: self.step_size as nat,
            late,
        }
    }

    pub open spec fn setup(&self) -> FastSetup {
        FastSetup {
            hlog: self.hlog,
            mls: self.mls,
            step_size: self.step_size as nat,
            window_log: self.window_log,
        }
    }
}

/// What holds of a hit: at least four equal bytes.
pub open spec fn hit_ok(h: &FastHit, p: &Parser, from: int, first: u32, len: nat) -> bool {
    &&& from <= h.ip
    &&& h.source < h.ip
    &&& h.ip + 8 < p.end
    &&& h.current + 2 + 8 <= p.end
    &&& h.next_hash < len
    &&& h.next <= p.end
    &&& eq_run(p.data@, h.ip as int, h.ip - h.source, 4)
    &&& h.repeat ==> from + 2 <= h.ip && h.ip - h.source == first
}

/// Searches from `from` on for a match with the newest offset or in the
/// table, taking larger steps the longer it finds nothing. Sources lie at
/// `low` or above; a repeated source does not straddle `seam`.
#[verifier::rlimit(60)]
fn fast_search(
    ctx: &mut FastCtx,
    p: &Parser,
    from: usize,
    first: u32,
    low: usize,
    seam: usize,
    bias: u32,
    Ghost(w): Ghost<FastPlace>,
) -> (r: Option<FastHit>)
    requires
        old(ctx).wf(),
        p.wf(),
        p.end - p.start >= 8,
        p.start <= from,
        from <= p.end,
        w == old(ctx).place(p, low, seam, bias, w.late),
    ensures
        final(ctx).wf(),
        final(ctx).same_params(old(ctx)),
        (final(ctx).hash_table@, opt_view(r)) == search(
            w,
            first,
            old(ctx).hash_table@,
            from as int,
        ),
        r matches Some(h) ==> hit_ok(&h, p, from as int, first, final(ctx).hash_table@.len()) && (
        h.repeat ==> first > 0),
{
    proof {
        reveal(search);
    }
    let ghost entry = *ctx;
    let data = p.data;
    let ilimit: usize = p.end - HASH_READ_SIZE;
    let mut step: usize = ctx.step_size;
    let mut next_step: u64 = from as u64 + 128;
    let mut ip0: usize = from;
    if from >= ilimit || step + 1 >= ilimit - from {
        return None;
    }
    let mut ip1: usize = from + 1;
    let mut ip2: usize = from + step;
    let mut ip3: usize = ip2 + 1;
    let mut hash0: usize = hash_ptr(data, ip0, ctx.hlog, ctx.mls);
    let mut hash1: usize = hash_ptr(data, ip1, ctx.hlog, ctx.mls);
    let mut idx: u32 = ctx.hash_table[hash0];
    while ip3 < ilimit
        invariant
            ctx.wf(),
            ctx.same_params(&entry), entry == *old(ctx),
            p.wf(),
            p.end - p.start >= 8,
            data@ == p.data@,
            ilimit == p.end - 8,
            from <= ip0,
            ip1 == ip0 + 1,
            ip0 + 2 <= ip2,
            ip3 == ip2 + 1,
            step >= 2,
            hash0 < ctx.hash_table@.len(),
            hash1 < ctx.hash_table@.len(),
            w == entry.place(p, low, seam, bias, w.late),
            128 * (step - entry.step_size) == next_step - from - 128,
            search(w, first, entry.hash_table@, from as int) == scan(
                w,
                first,
                ctx.hash_table@,
                Probe {
                    ip0: ip0 as int,
                    ip2: ip2 as int,
                    hash0: hash0 as nat,
                    hash1: hash1 as nat,
                    idx,
                    step: step as nat,
                    next_step: next_step as int,
                },
            ),
        decreases ilimit - ip0,
    {
        proof {
            reveal_with_fuel(scan, 1);
        }
        ctx.hash_table.set(hash0, to_index(ip0, bias));
        // The newest offset, two or more positions ahead.
        if first > 0 && first as usize <= ip2 {
            let r: usize = ip2 - first as usize;
            if (seam == 0 || r > seam || (seam >= 4 && r <= seam - 4)) && eq4(data, ip2, r) {
                return Some(
                    FastHit {
                        ip: ip2,
                        source: r,
                        repeat: true,
                        current: ip0,
                        next: ip1,
                        next_hash: hash1,
                        enter_next: true,
                    },
                );
            }
        }
        let m: usize = to_pos(idx, bias);
        if low <= m && m < ip0 && eq4(data, ip0, m) {
            return Some(
                FastHit {
                    ip: ip0,
                    source: m,
                    repeat: false,
                    current: ip0,
                    next: ip1,
                    next_hash: hash1,
                    enter_next: true,
                },
            );
        }
        idx = ctx.hash_table[hash1];
        hash0 = hash1;
        hash1 = hash_ptr(data, ip2, ctx.hlog, ctx.mls);
        ip0 = ip1;
        ip1 = ip2;
        ip2 = ip3;
        ctx.hash_table.set(hash0, to_index(ip0, bias));
        let m2: usize = to_pos(idx, bias);
        if low <= m2 && m2 < ip0 && eq4(data, ip0, m2) {
            return Some(
                FastHit {
                    ip: ip0,
                    source: m2,
                    repeat: false,
                    current: ip0,
                    next: ip1,
                    next_hash: hash1,
                    enter_next: step <= 4,
                },
            );
        }
        idx = ctx.hash_table[hash1];
        hash0 = hash1;
        hash1 = hash_ptr(data, ip2, ctx.hlog, ctx.mls);
        ip0 = ip1;
        ip1 = ip2;
        let ghost far = ip0 + step;
        let ghost longer = far >= next_step;
        let ghost c2 = Probe {
            ip0: ip0 as int,
            ip2: far,
            hash0: hash0 as nat,
            hash1: hash1 as nat,
            idx,
            step: if longer {
                step as nat + 1
            } else {
                step as nat
            },
            next_step: if longer {
                next_step + 128
            } else {
                next_step as int
            },
        };
        assert(search(w, first, entry.hash_table@, from as int) == scan(
            w,
            first,
            ctx.hash_table@,
            c2,
        ));
        if step >= ilimit - ip1 {
            return None;
        }
        ip2 = ip0 + step;
        ip3 = ip1 + step;
        if ip2 as u64 >= next_step {
            step = step + 1;
            next_step = next_step + 128;
        }
    }
    proof {
        reveal_with_fuel(scan, 1);
    }
    None
}

/// Where a repeated source at `r` may be read as one piece.
pub(crate) fn whole(r: usize, seam: usize) -> (b: bool)
    ensures
        b == is_whole(r as int, seam as int),
{
    seam == 0 || r >= seam || (seam >= 4 && r <= seam - 4)
}

/// Stores what a search found, extended both ways, and then any matches that
/// follow at once with the second newest offset. Backward, the source stays
/// in its own segment; `late` says that the next position is entered only if
/// the match reaches past it.
#[verifier::rlimit(30)]
fn fast_match(
    ctx: &mut FastCtx,
    p: &mut Parser,
    recent: &mut Recent,
    hit: &FastHit,
    low: usize,
    seam: usize,
    bias: u32,
    late: bool,
    Ghost(w): Ghost<FastPlace>,
)
    requires
        old(ctx).wf(),
        old(p).wf(),
        old(p).end - old(p).start >= 8,
        old(recent).tracks(old(p).rep@),
        w == old(ctx).place(old(p), low, seam, bias, late),
        hit_ok(hit, old(p), old(p).anchor as int, old(recent).first, old(ctx).hash_table@.len()),
        hit.repeat ==> old(recent).first > 0,
    ensures
        final(ctx).wf(),
        final(ctx).same_params(old(ctx)),
        final(p).wf(),
        final(p).same_block(old(p)),
        final(p).anchor > old(p).anchor,
        final(recent).tracks(final(p).rep@),
        (FastState {
            table: final(ctx).hash_table@,
            parse: final(p).parse(),
            recent: *final(recent),
        }) == match_stored(
            w,
            FastState {
                table: old(ctx).hash_table@,
                parse: old(p).parse(),
                recent: *old(recent),
            },
            hit.view(),
        ),
{
    proof {
        reveal(match_stored);
        reveal(match_ended);
    }
    let data = p.data;
    let end: usize = p.end;
    let anchor: usize = p.anchor;
    let ip: usize = hit.ip;
    let m: usize = hit.source;
    if !late && hit.enter_next {
        ctx.hash_table.set(hit.next_hash, to_index(hit.next, bias));
    }
    let forward: usize = count_eq(data, ip + 4, m + 4, end);
    let back: usize = if hit.repeat {
        if m > 0 && data[ip - 1] == data[m - 1] {
            1
        } else {
            0
        }
    } else if m < seam {
        extend_back(data, ip, m, anchor, low)
    } else {
        extend_back(data, ip, m, anchor, if seam > low {
            seam
        } else {
            low
        })
    };
    let from: usize = ip - back;
    let len: usize = back + 4 + forward;
    proof {
        lemma_join_runs(data@, from as int, ip - m, back as int, 4);
        lemma_join_runs(data@, from as int, ip - m, back + 4, forward as int);
    }
    if hit.repeat {
        p.emit_rep0(from, len);
    } else {
        let offset: u32 = (ip - m) as u32;
        p.emit_match(from, offset, len);
        recent.push(offset);
    }
    if late && hit.next < p.anchor {
        ctx.hash_table.set(hit.next_hash, to_index(hit.next, bias));
    }
    if p.anchor <= end - HASH_READ_SIZE {
        ctx.enter(data, hit.current + 2, bias);
        ctx.enter(data, p.anchor - 2, bias);
        fast_repeats(ctx, p, recent, seam, bias, Ghost(w));
    }
}

/// Stores the matches at the anchor with the second newest offset.
#[verifier::rlimit(30)]
fn fast_repeats(
    ctx: &mut FastCtx,
    p: &mut Parser,
    recent: &mut Recent,
    seam: usize,
    bias: u32,
    Ghost(w): Ghost<FastPlace>,
)
    requires
        old(ctx).wf(),
        old(p).wf(),
        old(p).end - old(p).start >= 8,
        old(recent).tracks(old(p).rep@),
        w.data == old(p).data@,
        w.end == old(p).end,
        w.seam == seam,
        w.bias == bias,
        w.hlog == old(ctx).hlog,
        w.mls == old(ctx).mls,
    ensures
        (FastState {
            table: final(ctx).hash_table@,
            parse: final(p).parse(),
            recent: *final(recent),
        }) == repeats_stored(
            w,
            FastState {
                table: old(ctx).hash_table@,
                parse: old(p).parse(),
                recent: *old(recent),
            },
        ),
        final(ctx).wf(),
        final(ctx).same_params(old(ctx)),
        final(p).wf(),
        final(p).same_block(old(p)),
        final(p).anchor >= old(p).anchor,
        final(recent).tracks(final(p).rep@),
{
    let ghost entry = *ctx;
    let ghost block = *p;
    let data = p.data;
    let end: usize = p.end;
    let mut more: bool = true;
    while more
        invariant
            ctx.wf(),
            ctx.same_params(&entry),
            p.wf(),
            p.same_block(&block),
            p.anchor >= block.anchor,
            recent.tracks(p.rep@),
            data@ == p.data@,
            end == p.end,
            end - p.start >= 8,
            w.data == data@,
            w.end == end,
            w.seam == seam,
            w.bias == bias,
            w.hlog == ctx.hlog,
            w.mls == ctx.mls,
            repeats_stored(
                w,
                FastState {
                    table: entry.hash_table@,
                    parse: block.parse(),
                    recent: *old(recent),
                },
            ) == if more {
                repeats_stored(
                    w,
                    FastState { table: ctx.hash_table@, parse: p.parse(), recent: *recent },
                )
            } else {
                FastState { table: ctx.hash_table@, parse: p.parse(), recent: *recent }
            },
        decreases (end - p.anchor) + if more {
            1int
        } else {
            0
        },
    {
        proof {
            reveal_with_fuel(repeats_stored, 1);
        }
        let ip: usize = p.anchor;
        let second: usize = recent.second as usize;
        more = ip <= end - HASH_READ_SIZE && second > 0 && second <= ip && whole(ip - second, seam)
            && eq4(data, ip, ip - second);
        if more {
            let rest: usize = count_eq(data, ip + 4, ip - second + 4, end);
            proof {
                lemma_join_runs(data@, ip as int, second as int, 4, rest as int);
            }
            ctx.enter(data, ip, bias);
            p.emit_rep1(rest + 4);
            recent.swap();
        }
    }
}

/// The lowest index a match at `curr` may start from.
pub fn lowest_index(curr: u32, valid: u32, window_log: u32) -> (r: u32)
    requires
        window_log <= 31,
    ensures
        r == spec_lowest_index(curr, valid, window_log),
{
    proof {
        reveal(spec_lowest_index);
        lemma2_to64();
        if window_log < 31 {
            lemma_pow2_strictly_increases(window_log as nat, 31);
        }
    }
    let d: u32 = pow2_u64(window_log) as u32;
    if curr.wrapping_sub(valid) > d {
        curr.wrapping_sub(d)
    } else {
        valid
    }
}

/// Parses a block with its history in one segment: matches start at the index
/// `lowest_valid` or above.
#[verifier::rlimit(60)]
pub fn compress_block_fast(
    ctx: &mut FastCtx,
    p: &mut Parser,
    rep: &mut [u32; 3],
    bias: u32,
    lowest_valid: u32,
)
    requires
        old(ctx).wf(),
        old(p).wf(),
        old(p).anchor == old(p).start,
        in_sync(old(rep)@, old(p).rep@),
    ensures
        final(ctx).wf(),
        final(ctx).same_params(old(ctx)),
        final(p).wf(),
        final(p).same_block(old(p)),
        in_sync(final(rep)@, final(p).rep@),
        (FastOutcome {
            table: final(ctx).hash_table@,
            parse: final(p).parse(),
            rep: final(rep)@,
        }) == block_outcome(
            old(ctx).setup(),
            old(p).data@,
            old(p).start as int,
            old(p).end as int,
            old(ctx).hash_table@,
            old(rep)@,
            bias,
            lowest_valid,
        ),
{
    proof {
        reveal(block_outcome);
        lemma_nothing_parsed(p);
    }
    if p.end - p.start < HASH_READ_SIZE {
        return ;
    }
    let prefix_start: u32 = lowest_index(to_index(p.end, bias), lowest_valid, ctx.window_log);
    let low: usize = to_pos(prefix_start, bias);
    let start: usize = p.start;
    let skip: usize = if start == low {
        1
    } else {
        0
    };
    let curr: u32 = to_index(start + skip, bias);
    let window_low: u32 = lowest_index(curr, lowest_valid, ctx.window_log);
    let mut recent = Recent::start(rep, curr.wrapping_sub(window_low) as usize, false);
    let ghost w = ctx.place(p, low, 0, bias, false);
    fast_loop(ctx, p, &mut recent, start + skip, low, 0, bias, false, Ghost(w));
    recent.finish(rep);
}

/// Searches and stores until the block has been parsed.
#[verifier::rlimit(30)]
fn fast_loop(
    ctx: &mut FastCtx,
    p: &mut Parser,
    recent: &mut Recent,
    from: usize,
    low: usize,
    seam: usize,
    bias: u32,
    late: bool,
    Ghost(w): Ghost<FastPlace>,
)
    requires
        old(ctx).wf(),
        old(p).wf(),
        old(p).end - old(p).start >= 8,
        old(p).anchor <= from <= old(p).end,
        old(recent).tracks(old(p).rep@),
        w == old(ctx).place(old(p), low, seam, bias, late),
    ensures
        (FastState {
            table: final(ctx).hash_table@,
            parse: final(p).parse(),
            recent: *final(recent),
        }) == parsed(
            w,
            FastState {
                table: old(ctx).hash_table@,
                parse: old(p).parse(),
                recent: *old(recent),
            },
            from as int,
        ),
        final(ctx).wf(),
        final(ctx).same_params(old(ctx)),
        final(p).wf(),
        final(p).same_block(old(p)),
        final(recent).tracks(final(p).rep@),
{
    let ghost entry = *ctx;
    let ghost block = *p;
    let end: usize = p.end;
    let mut at: usize = from;
    let ghost whole_parse = parsed(
        w,
        FastState { table: ctx.hash_table@, parse: p.parse(), recent: *recent },
        from as int,
    );
    let ghost mut before = ctx.hash_table@;
    let mut found: Option<FastHit> = fast_search(
        ctx,
        p,
        at,
        recent.first,
        low,
        seam,
        bias,
        Ghost(w),
    );
    while found.is_some()
        invariant
            ctx.wf(),
            ctx.same_params(&entry),
            p.wf(),
            p.same_block(&block),
            end == p.end,
            end - p.start >= 8,
            p.anchor <= at,
            recent.tracks(p.rep@),
            w == entry.place(&block, low, seam, bias, late),
            (ctx.hash_table@, opt_view(found)) == search(w, recent.first, before, at as int),
            whole_parse == parsed(
                w,
                FastState { table: before, parse: p.parse(), recent: *recent },
                at as int,
            ),
            found matches Some(h) ==> hit_ok(
                &h,
                p,
                at as int,
                recent.first,
                ctx.hash_table@.len(),
            ) && (h.repeat ==> recent.first > 0),
        decreases end - p.anchor,
    {
        proof {
            reveal_with_fuel(parsed, 1);
        }
        if let Some(hit) = found {
            fast_match(ctx, p, recent, &hit, low, seam, bias, late, Ghost(w));
        }
        at = p.anchor;
        proof {
            before = ctx.hash_table@;
        }
        found = fast_search(ctx, p, at, recent.first, low, seam, bias, Ghost(w));
    }
    proof {
        reveal_with_fuel(parsed, 1);
    }
}

/// Parses a block whose history is in two segments, laid out one after the
/// other: matches may start in the older one and run across the seam.
#[verifier::rlimit(60)]
pub fn compress_block_fast_extdict(
    ctx: &mut FastCtx,
    p: &mut Parser,
    rep: &mut [u32; 3],
    win: &Layout,
)
    requires
        old(ctx).wf(),
        old(p).wf(),
        old(p).anchor == old(p).start,
        in_sync(old(rep)@, old(p).rep@),
    ensures
        final(ctx).wf(),
        final(ctx).same_params(old(ctx)),
        final(p).wf(),
        final(p).same_block(old(p)),
        in_sync(final(rep)@, final(p).rep@),
        (FastOutcome {
            table: final(ctx).hash_table@,
            parse: final(p).parse(),
            rep: final(rep)@,
        }) == ext_block_outcome(
            old(ctx).setup(),
            old(p).data@,
            old(p).start as int,
            old(p).end as int,
            old(ctx).hash_table@,
            old(rep)@,
            *win,
        ),
{
    proof {
        reveal(ext_block_outcome);
        lemma_nothing_parsed(p);
    }
    let bias: u32 = win.bias;
    let dict_start: u32 = lowest_index(to_index(p.end, bias), win.low_limit, ctx.window_log);
    if dict_start >= win.dict_limit {
        compress_block_fast(ctx, p, rep, bias, win.dict_limit);
        return ;
    }
    if p.end - p.start < HASH_READ_SIZE {
        return ;
    }
    let start: usize = p.start;
    let low: usize = to_pos(dict_start, bias);
    let seam: usize = to_pos(win.dict_limit, bias);
    let max_rep: u32 = to_index(start, bias).wrapping_sub(dict_start);
    let mut recent = Recent::start(rep, max_rep as usize, true);
    let ghost w = ctx.place(p, low, seam, bias, true);
    fast_loop(ctx, p, &mut recent, start, low, seam, bias, true, Ghost(w));
    recent.finish(rep);
}

/// Before the first match nothing is stored.
pub proof fn lemma_nothing_parsed(p: &Parser)
    requires
        p.wf(),
        p.anchor == p.start,
    ensures
        p.parse() == (Parse { triples: Seq::empty(), anchor: p.start as int }),
{
    assert(p.store.triples() =~= Seq::empty());
}

/// Which source a search with a dictionary found.
#[derive(Clone, Copy, PartialEq, Eq, Structural)]
pub enum SourceKind {
    Repeat,
    Dictionary,
    Window,
}

/// What a search with a dictionary found.
pub struct DictHit {
    pub ip: usize,
    pub source: usize,
    pub kind: SourceKind,
    pub current: usize,
}

impl DictHit {
    pub open spec fn view(&self, content_len: int) -> DictHitView {
        DictHitView {
            ip: self.ip as int,
            source: self.source as int,
            repeat: self.kind is Repeat,
            low: if self.kind is Window {
                content_len
            } else {
                0
            },
            current: self.current as int,
        }
    }
}

pub open spec fn opt_dict_view(h: Option<DictHit>, content_len: int) -> Option<DictHitView> {
    match h {
        Some(x) => Some(x.view(content_len)),
        None => None,
    }
}

/// What holds of such a hit.
pub open spec fn dict_hit_ok(h: &DictHit, p: &Parser, from: int, first: u32) -> bool {
    &&& from <= h.ip
    &&& h.source < h.ip
    &&& h.ip + 4 <= p.end
    &&& h.current <= h.ip
    &&& eq_run(p.data@, h.ip as int, h.ip - h.source, 4)
    &&& h.kind is Repeat ==> from < h.ip && h.ip - h.source == first && first >= 1
}

/// Searches from `from` on, with the dictionary's own table beside the
/// window's. The dictionary's content is `data[.. content_len]`; a match in it
/// is taken only where the window's table has nothing.
#[verifier::rlimit(30)]
fn fast_dict_search(
    ctx: &mut FastCtx,
    p: &Parser,
    from: usize,
    first: u32,
    content_len: usize,
    dict_table: &Vec<u32>,
    dict_hlog: u32,
    Ghost(w): Ghost<FastPlace>,
) -> (r: Option<DictHit>)
    requires
        old(ctx).wf(),
        p.wf(),
        p.end - p.start >= 8,
        p.start <= from <= p.end,
        6 <= dict_hlog <= 24,
        dict_table@.len() == pow2(dict_hlog as nat),
        content_len <= p.start,
        w == old(ctx).place(p, 0, content_len, WINDOW_START_INDEX, false),
    ensures
        (final(ctx).hash_table@, opt_dict_view(r, content_len as int)) == dict_search(
            w,
            FastDict { table: dict_table@, hlog: dict_hlog, content_len: content_len as int },
            first,
            old(ctx).hash_table@,
            from as int,
        ),
        final(ctx).wf(),
        final(ctx).same_params(old(ctx)),
        r matches Some(h) ==> dict_hit_ok(&h, p, from as int, first),
{
    proof {
        reveal(dict_search);
        reveal_with_fuel(dict_scan, 1);
    }
    let ghost entry = *ctx;
    let data = p.data;
    let bias: u32 = WINDOW_START_INDEX;
    let ilimit: usize = p.end - HASH_READ_SIZE;
    let prefix_start: u32 = to_index(content_len, bias);
    let dict_bits: u32 = dict_hlog + SHORT_CACHE_TAG_BITS;
    let ghost d = FastDict { table: dict_table@, hlog: dict_hlog, content_len: content_len as int };
    let mut step: usize = ctx.step_size - 1;
    let mut next_step: u64 = from as u64 + 256;
    let mut ip0: usize = from;
    if from > ilimit || step > ilimit - from {
        return None;
    }
    let mut ip1: usize = from + step;
    let mut hash0: usize = hash_ptr(data, ip0, ctx.hlog, ctx.mls);
    let mut dict_hash: usize = hash_ptr(data, ip0, dict_bits, ctx.mls);
    let mut match_index: u32 = ctx.hash_table[hash0];
    while ip1 <= ilimit
        invariant
            ctx.wf(),
            ctx.same_params(&entry),
            entry == *old(ctx),
            p.wf(),
            p.end - p.start >= 8,
            data@ == p.data@,
            ilimit == p.end - 8,
            from <= ip0 < ip1,
            p.start <= from,
            content_len <= p.start,
            step >= 1,
            bias == 2,
            6 <= dict_hlog <= 24,
            dict_bits == dict_hlog + 8,
            dict_table@.len() == pow2(dict_hlog as nat),
            dict_hash < pow2((dict_hlog + 8) as nat),
            hash0 < ctx.hash_table@.len(),
            w == entry.place(p, 0, content_len, WINDOW_START_INDEX, false),
            d == (FastDict {
                table: dict_table@,
                hlog: dict_hlog,
                content_len: content_len as int,
            }),
            hash0 == w.hash(ip0 as int),
            dict_hash == spec_hash(data@, ip0 as int, dict_bits, ctx.mls),
            match_index == ctx.hash_table@[hash0 as int],
            prefix_start == index_of(content_len as nat, bias),
            256 * (step - (entry.step_size - 1)) == next_step - from - 256,
            dict_search(w, d, first, entry.hash_table@, from as int) == dict_scan(
                w,
                d,
                first,
                ctx.hash_table@,
                ip0 as int,
                ip1 as int,
                step as nat,
                next_step as int,
            ),
        decreases ilimit - ip0,
    {
        proof {
            reveal_with_fuel(dict_scan, 1);
        }
        let hash1: usize = hash_ptr(data, ip1, ctx.hlog, ctx.mls);
        let dict_hash1: usize = hash_ptr(data, ip1, dict_bits, ctx.mls);
        ctx.hash_table.set(hash0, to_index(ip0, bias));
        if first > 0 && first as usize <= ip0 + 1 {
            let r: usize = ip0 + 1 - first as usize;
            if whole(r, content_len) && eq4(data, ip0 + 1, r) {
                return Some(
                    DictHit { ip: ip0 + 1, source: r, kind: SourceKind::Repeat, current: ip0 },
                );
            }
        }
        proof {
            lemma_bucket(dict_hash as nat, dict_hlog as nat);
        }
        let entry0: u32 = dict_table[dict_hash / 256];
        if entry0 % 256 == (dict_hash % 256) as u32 {
            let dict_index: u32 = entry0 / 256;
            if dict_index > bias {
                let dm: usize = (dict_index - bias) as usize;
                if dm < ip0 && eq4(data, ip0, dm) && match_index <= prefix_start {
                    return Some(
                        DictHit { ip: ip0, source: dm, kind: SourceKind::Dictionary, current: ip0 },
                    );
                }
            }
        }
        if match_index >= prefix_start {
            let m: usize = to_pos(match_index, bias);
            if m < ip0 && eq4(data, ip0, m) {
                return Some(
                    DictHit { ip: ip0, source: m, kind: SourceKind::Window, current: ip0 },
                );
            }
        }
        assert(!(dict_hits(w, d, ip0 as int) && match_index <= prefix_start));
        dict_hash = dict_hash1;
        match_index = ctx.hash_table[hash1];
        if ip1 as u64 >= next_step {
            step = step + 1;
            next_step = next_step + 256;
        }
        ip0 = ip1;
        hash0 = hash1;
        assert(dict_search(w, d, first, entry.hash_table@, from as int) == dict_scan(
            w,
            d,
            first,
            ctx.hash_table@,
            ip0 as int,
            ip0 + step,
            step as nat,
            next_step as int,
        ));
        if step > ilimit - ip0 {
            return None;
        }
        ip1 = ip0 + step;
    }
    None
}

/// Parses a block with an attached dictionary, whose tagged table is
/// `dict_table` and whose content stands at the start of the data.
#[verifier::rlimit(30)]
pub fn compress_block_fast_dict_match_state(
    ctx: &mut FastCtx,
    p: &mut Parser,
    rep: &mut [u32; 3],
    content_len: usize,
    dict_table: &Vec<u32>,
    dict_hlog: u32,
)
    requires
        old(ctx).wf(),
        old(p).wf(),
        old(p).anchor == old(p).start,
        in_sync(old(rep)@, old(p).rep@),
        6 <= dict_hlog <= 24,
        dict_table@.len() == pow2(dict_hlog as nat),
        content_len <= old(p).start,
    ensures
        final(ctx).wf(),
        final(ctx).same_params(old(ctx)),
        final(p).wf(),
        final(p).same_block(old(p)),
        in_sync(final(rep)@, final(p).rep@),
        (FastOutcome {
            table: final(ctx).hash_table@,
            parse: final(p).parse(),
            rep: final(rep)@,
        }) == dict_block_outcome(
            old(ctx).setup(),
            old(p).data@,
            old(p).start as int,
            old(p).end as int,
            old(ctx).hash_table@,
            old(rep)@,
            FastDict { table: dict_table@, hlog: dict_hlog, content_len: content_len as int },
        ),
{
    proof {
        reveal(dict_block_outcome);
        lemma_nothing_parsed(p);
    }
    if p.end - p.start < HASH_READ_SIZE {
        return ;
    }
    let ghost w = ctx.place(p, 0, content_len, WINDOW_START_INDEX, false);
    let ghost d = FastDict { table: dict_table@, hlog: dict_hlog, content_len: content_len as int };
    let ghost entry = *ctx;
    let ghost block = *p;
    let data = p.data;
    let end: usize = p.end;
    let bias: u32 = WINDOW_START_INDEX;
    let mut recent = Recent::all(rep);
    let mut at: usize = if p.start == 0 {
        1
    } else {
        p.start
    };
    let ghost whole_parse = dict_parsed(
        w,
        d,
        FastState { table: ctx.hash_table@, parse: p.parse(), recent },
        at as int,
    );
    let ghost mut before = ctx.hash_table@;
    let mut found: Option<DictHit> = fast_dict_search(
        ctx,
        p,
        at,
        recent.first,
        content_len,
        dict_table,
        dict_hlog,
        Ghost(w),
    );
    while found.is_some()
        invariant
            ctx.wf(),
            ctx.same_params(&entry),
            p.wf(),
            p.same_block(&block),
            data@ == p.data@,
            end == p.end,
            end - p.start >= 8,
            p.anchor <= at,
            content_len <= p.start,
            6 <= dict_hlog <= 24,
            dict_table@.len() == pow2(dict_hlog as nat),
            recent.tracks(p.rep@),
            found matches Some(h) ==> dict_hit_ok(&h, p, at as int, recent.first),
            bias == WINDOW_START_INDEX,
            w == entry.place(&block, 0, content_len, WINDOW_START_INDEX, false),
            d == (FastDict {
                table: dict_table@,
                hlog: dict_hlog,
                content_len: content_len as int,
            }),
            (ctx.hash_table@, opt_dict_view(found, content_len as int)) == dict_search(
                w,
                d,
                recent.first,
                before,
                at as int,
            ),
            whole_parse == dict_parsed(
                w,
                d,
                FastState { table: before, parse: p.parse(), recent },
                at as int,
            ),
        decreases end - p.anchor,
    {
        proof {
            reveal_with_fuel(dict_parsed, 1);
            reveal(dict_match_stored);
            reveal(match_ended);
        }
        if let Some(hit) = found {
            let ip: usize = hit.ip;
            let m: usize = hit.source;
            let forward: usize = count_eq(data, ip + 4, m + 4, end);
            let back: usize = match hit.kind {
                SourceKind::Repeat => 0,
                SourceKind::Dictionary => extend_back(data, ip, m, p.anchor, 0),
                SourceKind::Window => extend_back(data, ip, m, p.anchor, content_len),
            };
            let len: usize = back + 4 + forward;
            proof {
                lemma_join_runs(data@, ip - back, ip - m, back as int, 4);
                lemma_join_runs(data@, ip - back, ip - m, back + 4, forward as int);
            }
            if hit.kind == SourceKind::Repeat {
                p.emit_rep0(ip, len);
            } else {
                let offset: u32 = (ip - m) as u32;
                p.emit_match(ip - back, offset, len);
                recent.push(offset);
            }
            if p.anchor <= end - HASH_READ_SIZE {
                ctx.enter(data, hit.current + 2, bias);
                ctx.enter(data, p.anchor - 2, bias);
                fast_repeats(ctx, p, &mut recent, content_len, bias, Ghost(w));
            }
        }
        at = p.anchor;
        proof {
            before = ctx.hash_table@;
        }
        found = fast_dict_search(
            ctx,
            p,
            at,
            recent.first,
            content_len,
            dict_table,
            dict_hlog,
            Ghost(w),
        );
    }
    proof {
        reveal_with_fuel(dict_parsed, 1);
    }
    recent.finish(rep);
}

} // verus!
