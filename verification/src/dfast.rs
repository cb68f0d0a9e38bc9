//! The double-fast match finder: one table of eight-byte hashes beside one of
//! short hashes.

use crate::cparams::{CParams, SHORT_CACHE_TAG_BITS};
use crate::dfast_model::{
    all_entered, all_tagged, block_outcome, dict_block_outcome, ext_block_outcome, match_stored, parsed,
    repeats_stored, scan_attached, scan_one, scan_two, search, thirds_entered, untagged, DfastOutcome, DfastPlace,
    DfastState, DictTablesView, History, HitView, Logs, Tables,
};
use crate::fast::{lemma_bucket, lemma_nothing_parsed, lowest_index, whole, write_tagged_index};
use crate::fast_model::{entered, filled_in, tag_filled_in, tagged_at};
use crate::layout::Layout;
use crate::parser::{
    count_eq, eq4, eq8, eq_run, extend_back, hash_ptr, lemma_join_runs, new_table, to_index, to_pos, Parser,
    HASH_READ_SIZE,
};
use crate::recent::{in_sync, Recent};
use crate::window::{reduce_table, reduced_table, WINDOW_START_INDEX};
use vstd::arithmetic::power2::pow2;
use vstd::prelude::*;

verus! {

/// The state of the double-fast match finder.
pub struct DfastCtx {
    pub hash_long: Vec<u32>,
    pub hash_small: Vec<u32>,
    pub hlog_l: u32,
    pub hlog_s: u32,
    pub mls: u32,
    pub window_log: u32,
}

impl DfastCtx {
    pub open spec fn wf(&self) -> bool {
        &&& 6 <= self.hlog_l <= 28
        &&& 6 <= self.hlog_s <= 28
        &&& self.hash_long@.len() == pow2(self.hlog_l as nat)
        &&& self.hash_small@.len() == pow2(self.hlog_s as nat)
        &&& self.window_log <= 31
    }

    pub open spec fn tables(&self) -> Tables {
        Tables { long: self.hash_long@, small: self.hash_small@ }
    }

    pub open spec fn logs(&self) -> Logs {
        Logs { long: self.hlog_l, small: self.hlog_s, mls: self.mls }
    }

    pub open spec fn same_params(&self, other: &Self) -> bool {
        &&& self.hlog_l == other.hlog_l
        &&& self.hlog_s == other.hlog_s
        &&& self.mls == other.mls
        &&& self.window_log == other.window_log
    }

    pub fn new(cparams: &CParams) -> (r: Self)
        requires
            cparams.wf(),
        ensures
            r.wf(),
            r.hash_long@ == Seq::new(pow2(cparams.hash_log as nat), |i: int| 0u32),
            r.hash_small@ == Seq::new(pow2(cparams.chain_log as nat), |i: int| 0u32),
            r.hlog_l == cparams.hash_log,
            r.hlog_s == cparams.chain_log,
            r.window_log == cparams.window_log,
            r.mls == if cparams.min_match < 4 {
                4
            } else {
                cparams.min_match
            },
    {
        DfastCtx {
            hash_long: new_table(cparams.hash_log),
            hash_small: new_table(cparams.chain_log),
            hlog_l: cparams.hash_log,
            hlog_s: cparams.chain_log,
            mls: if cparams.min_match < 4 {
                4
            } else {
                cparams.min_match
            },
            window_log: cparams.window_log,
        }
    }

    /// Takes `correction` off every index.
    pub fn reduce_indices(&mut self, correction: u32)
        requires
            old(self).wf(),
        ensures
            final(self).wf(),
            final(self).same_params(old(self)),
            final(self).hash_long@ == reduced_table(old(self).hash_long@, correction, false),
            final(self).hash_small@ == reduced_table(old(self).hash_small@, correction, false),
    {
        reduce_table(&mut self.hash_long, correction, false);
        reduce_table(&mut self.hash_small, correction, false);
    }

    fn enter_long(&mut self, data: &[u8], pos: usize, bias: u32)
        requires
            old(self).wf(),
            pos + 8 <= data@.len() <= u32::MAX,
        ensures
            final(self).wf(),
            final(self).same_params(old(self)),
            final(self).hash_small@ == old(self).hash_small@,
            final(self).hash_long@ == entered(
                old(self).hash_long@,
                data@,
                pos as int,
                old(self).hlog_l,
                8,
                bias,
            ),
    {
        let h: usize = hash_ptr(data, pos, self.hlog_l, 8);
        self.hash_long.set(h, to_index(pos, bias));
    }

    fn enter_small(&mut self, data: &[u8], pos: usize, bias: u32)
        requires
            old(self).wf(),
            pos + 8 <= data@.len() <= u32::MAX,
        ensures
            final(self).wf(),
            final(self).same_params(old(self)),
            final(self).hash_long@ == old(self).hash_long@,
            final(self).hash_small@ == entered(
                old(self).hash_small@,
                data@,
                pos as int,
                old(self).hlog_s,
                old(self).mls,
                bias,
            ),
    {
        let h: usize = hash_ptr(data, pos, self.hlog_s, self.mls);
        self.hash_small.set(h, to_index(pos, bias));
    }
}

/// Enters every third position of a dictionary at the start of `data`.
pub fn fill_dfast_hash_tables_for_cctx(ctx: &mut DfastCtx, data: &[u8], dict_len: usize)
    requires
        old(ctx).wf(),
        dict_len <= data@.len() <= u32::MAX,
    ensures
        final(ctx).wf(),
        final(ctx).same_params(old(ctx)),
        final(ctx).tables() == thirds_entered(
            old(ctx).tables(),
            data@,
            0,
            dict_len as int,
            old(ctx).logs(),
            WINDOW_START_INDEX,
        ),
{
    let ghost entry = *ctx;
    let mut ip: usize = 0;
    while dict_len > 9 && ip < dict_len - 9
        invariant
            ctx.wf(),
            ctx.same_params(&entry),
            ip <= dict_len <= data@.len() <= u32::MAX,
            thirds_entered(
                entry.tables(),
                data@,
                0,
                dict_len as int,
                entry.logs(),
                WINDOW_START_INDEX,
            ) == thirds_entered(
                ctx.tables(),
                data@,
                ip as int,
                dict_len as int,
                entry.logs(),
                WINDOW_START_INDEX,
            ),
        decreases dict_len - ip,
    {
        ctx.enter_small(data, ip, WINDOW_START_INDEX);
        ctx.enter_long(data, ip, WINDOW_START_INDEX);
        ip = ip + 3;
    }
}

/// Enters a dictionary into tagged tables: every third position into both,
/// and those between into the long one where their bucket is empty.
#[verifier::rlimit(30)]
pub fn fill_dfast_hash_tables_for_cdict(
    hash_long: &mut Vec<u32>,
    hash_small: &mut Vec<u32>,
    data: &[u8],
    dict_len: usize,
    hlog_l: u32,
    hlog_s: u32,
    mls: u32,
)
    requires
        6 <= hlog_l <= 24,
        6 <= hlog_s <= 24,
        old(hash_long)@.len() == pow2(hlog_l as nat),
        old(hash_small)@.len() == pow2(hlog_s as nat),
        dict_len <= data@.len() <= u32::MAX,
    ensures
        (Tables { long: final(hash_long)@, small: final(hash_small)@ }) == all_tagged(
            Tables { long: old(hash_long)@, small: old(hash_small)@ },
            data@,
            0,
            dict_len as int,
            Logs { long: hlog_l, small: hlog_s, mls },
            WINDOW_START_INDEX,
        ),
        final(hash_long)@.len() == old(hash_long)@.len(),
        final(hash_small)@.len() == old(hash_small)@.len(),
{
    let ghost k = Logs { long: hlog_l, small: hlog_s, mls };
    let ghost start = Tables { long: hash_long@, small: hash_small@ };
    let bits_l: u32 = hlog_l + SHORT_CACHE_TAG_BITS;
    let bits_s: u32 = hlog_s + SHORT_CACHE_TAG_BITS;
    let mut ip: usize = 0;
    while dict_len > 9 && ip < dict_len - 9
        invariant
            6 <= hlog_l <= 24,
            6 <= hlog_s <= 24,
            bits_l == hlog_l + 8,
            bits_s == hlog_s + 8,
            hash_long@.len() == pow2(hlog_l as nat),
            hash_small@.len() == pow2(hlog_s as nat),
            ip <= dict_len <= data@.len() <= u32::MAX,
            k == (Logs { long: hlog_l, small: hlog_s, mls }),
            all_tagged(start, data@, 0, dict_len as int, k, WINDOW_START_INDEX) == all_tagged(
                Tables { long: hash_long@, small: hash_small@ },
                data@,
                ip as int,
                dict_len as int,
                k,
                WINDOW_START_INDEX,
            ),
        decreases dict_len - ip,
    {
        let ghost l = hash_long@;
        let ghost s = hash_small@;
        let ghost l0 = tagged_at(l, data@, ip as int, hlog_l, 8, WINDOW_START_INDEX);
        let ghost l1 = tag_filled_in(l0, data@, ip + 1, hlog_l, 8, WINDOW_START_INDEX);
        let ghost l2 = tag_filled_in(l1, data@, ip + 2, hlog_l, 8, WINDOW_START_INDEX);
        let ghost s0 = tagged_at(s, data@, ip as int, hlog_s, mls, WINDOW_START_INDEX);
        let mut i: usize = 0;
        while i < 3
            invariant
                i <= 3,
                6 <= hlog_l <= 24,
                6 <= hlog_s <= 24,
                bits_l == hlog_l + 8,
                bits_s == hlog_s + 8,
                hash_long@.len() == pow2(hlog_l as nat),
                hash_small@.len() == pow2(hlog_s as nat),
                ip + 10 <= dict_len <= data@.len() <= u32::MAX,
                l0 == tagged_at(l, data@, ip as int, hlog_l, 8, WINDOW_START_INDEX),
                l1 == tag_filled_in(l0, data@, ip + 1, hlog_l, 8, WINDOW_START_INDEX),
                l2 == tag_filled_in(l1, data@, ip + 2, hlog_l, 8, WINDOW_START_INDEX),
                s0 == tagged_at(s, data@, ip as int, hlog_s, mls, WINDOW_START_INDEX),
                hash_small@ == if i == 0 {
                    s
                } else {
                    s0
                },
                hash_long@ == if i == 0 {
                    l
                } else if i == 1 {
                    l0
                } else if i == 2 {
                    l1
                } else {
                    l2
                },
            decreases 3 - i,
        {
            let sm: usize = hash_ptr(data, ip + i, bits_s, mls);
            let lg: usize = hash_ptr(data, ip + i, bits_l, 8);
            proof {
                lemma_bucket(sm as nat, hlog_s as nat);
                lemma_bucket(lg as nat, hlog_l as nat);
            }
            let index: u32 = to_index(ip + i, WINDOW_START_INDEX);
            if i == 0 {
                write_tagged_index(hash_small, sm, index);
            }
            if i == 0 || hash_long[lg / 256] == 0 {
                write_tagged_index(hash_long, lg, index);
            }
            i = i + 1;
        }
        ip = ip + 3;
    }
}

/// Enters a dictionary as a copied dictionary's tables hold it.
#[verifier::rlimit(30)]
pub fn fill_dfast_hash_tables_for_cctx_full(ctx: &mut DfastCtx, data: &[u8], dict_len: usize)
    requires
        old(ctx).wf(),
        dict_len <= data@.len() <= u32::MAX,
    ensures
        final(ctx).wf(),
        final(ctx).same_params(old(ctx)),
        final(ctx).tables() == all_entered(
            old(ctx).tables(),
            data@,
            0,
            dict_len as int,
            old(ctx).logs(),
            WINDOW_START_INDEX,
        ),
{
    let ghost entry = *ctx;
    let ghost hlog = ctx.hlog_l;
    let mut ip: usize = 0;
    while dict_len > 9 && ip < dict_len - 9
        invariant
            ctx.wf(),
            ctx.same_params(&entry),
            hlog == entry.hlog_l,
            ip <= dict_len <= data@.len() <= u32::MAX,
            all_entered(
                entry.tables(),
                data@,
                0,
                dict_len as int,
                entry.logs(),
                WINDOW_START_INDEX,
            ) == all_entered(
                ctx.tables(),
                data@,
                ip as int,
                dict_len as int,
                entry.logs(),
                WINDOW_START_INDEX,
            ),
        decreases dict_len - ip,
    {
        let ghost l = ctx.hash_long@;
        let ghost l0 = entered(l, data@, ip as int, hlog, 8, WINDOW_START_INDEX);
        let ghost l1 = filled_in(l0, data@, ip + 1, hlog, 8, WINDOW_START_INDEX);
        let ghost l2 = filled_in(l1, data@, ip + 2, hlog, 8, WINDOW_START_INDEX);
        ctx.enter_small(data, ip, WINDOW_START_INDEX);
        let ghost small = ctx.hash_small@;
        let mut i: usize = 0;
        while i < 3
            invariant
                i <= 3,
                ctx.wf(),
                ctx.same_params(&entry),
                hlog == entry.hlog_l,
                ctx.hash_small@ == small,
                ip + 10 <= dict_len <= data@.len() <= u32::MAX,
                l0 == entered(l, data@, ip as int, hlog, 8, WINDOW_START_INDEX),
                l1 == filled_in(l0, data@, ip + 1, hlog, 8, WINDOW_START_INDEX),
                l2 == filled_in(l1, data@, ip + 2, hlog, 8, WINDOW_START_INDEX),
                ctx.hash_long@ == if i == 0 {
                    l
                } else if i == 1 {
                    l0
                } else if i == 2 {
                    l1
                } else {
                    l2
                },
            decreases 3 - i,
        {
            let lg: usize = hash_ptr(data, ip + i, ctx.hlog_l, 8);
            if i == 0 || ctx.hash_long[lg] == 0 {
                ctx.hash_long.set(lg, to_index(ip + i, WINDOW_START_INDEX));
            }
            i = i + 1;
        }
        ip = ip + 3;
    }
}

/// What a search found: `run` equal bytes at `ip` and `source`, with the
/// lowest place to which the source may be extended.
pub struct DfastHit {
    pub ip: usize,
    pub source: usize,
    pub run: usize,
    pub low: usize,
    pub repeat: bool,
    pub current: usize,
}

impl DfastHit {
    pub open spec fn view(&self) -> HitView {
        HitView {
            ip: self.ip as int,
            source: self.source as int,
            run: self.run as int,
            low: self.low as int,
            repeat: self.repeat,
            current: self.current as int,
        }
    }
}

pub open spec fn opt_view(h: Option<DfastHit>) -> Option<HitView> {
    match h {
        Some(x) => Some(x.view()),
        None => None,
    }
}

/// What does not change while a block is parsed is as `w` says.
pub open spec fn at_place(ctx: &DfastCtx, p: &Parser, seam: usize, bias: u32, w: DfastPlace) -> bool {
    &&& w.data == p.data@
    &&& w.end == p.end
    &&& w.seam == seam
    &&& w.bias == bias
    &&& w.logs == ctx.logs()
}

pub open spec fn hit_ok(h: &DfastHit, p: &Parser, from: int, first: u32) -> bool {
    &&& from <= h.ip
    &&& h.source < h.ip
    &&& 4 <= h.run
    &&& h.ip + h.run <= p.end
    &&& h.current <= h.ip
    &&& eq_run(p.data@, h.ip as int, h.ip - h.source, h.run as int)
    &&& h.repeat ==> from < h.ip && h.ip - h.source == first && first >= 1
}

/// Searches from `from` on, with the history in one segment from `low` on.
#[verifier::rlimit(40)]
fn dfast_search(
    ctx: &mut DfastCtx,
    p: &Parser,
    from: usize,
    first: u32,
    low: usize,
    bias: u32,
    Ghost(w): Ghost<DfastPlace>,
) -> (r: Option<DfastHit>)
    requires
        old(ctx).wf(),
        p.wf(),
        p.end - p.start >= 8,
        p.start <= from <= p.end,
        at_place(old(ctx), p, 0, bias, w),
        w.low == low,
        w.history is One,
    ensures
        (final(ctx).tables(), opt_view(r)) == search(
            w,
            first,
            old(ctx).tables(),
            p.anchor as int,
            from as int,
        ),
        final(ctx).wf(),
        final(ctx).same_params(old(ctx)),
        r matches Some(h) ==> hit_ok(&h, p, from as int, first),
{
    let ghost entry = *ctx;
    let data = p.data;
    let end: usize = p.end;
    let ilimit: usize = end - HASH_READ_SIZE;
    proof {
        reveal_with_fuel(scan_one, 1);
    }
    let ghost whole_search = search(w, first, ctx.tables(), p.anchor as int, from as int);
    let mut step: usize = 1;
    let mut next_step: u64 = from as u64 + 256;
    let mut ip: usize = from;
    if from >= ilimit {
        return None;
    }
    let mut ip1: usize = from + 1;
    let mut hl0: usize = hash_ptr(data, ip, ctx.hlog_l, 8);
    let mut idxl0: u32 = ctx.hash_long[hl0];
    while ip1 <= ilimit
        invariant
            ctx.wf(),
            ctx.same_params(&entry),
            entry == *old(ctx),
            p.wf(),
            p.end - p.start >= 8,
            data@ == p.data@,
            end == p.end,
            ilimit == end - 8,
            from <= ip < ip1,
            p.start <= from,
            step >= 1,
            hl0 < ctx.hash_long@.len(),
            at_place(&entry, p, 0, bias, w),
            w.low == low,
            hl0 == w.hash_long(ip as int),
            idxl0 == ctx.hash_long@[hl0 as int],
            256 * (step - 1) == next_step - from - 256,
            whole_search == search(w, first, entry.tables(), p.anchor as int, from as int),
            whole_search == scan_one(
                w,
                first,
                ctx.tables(),
                ip as int,
                ip1 as int,
                step as nat,
                next_step as int,
            ),
        decreases ilimit - ip,
    {
        proof {
            reveal_with_fuel(scan_one, 1);
        }
        let hs0: usize = hash_ptr(data, ip, ctx.hlog_s, ctx.mls);
        let idxs0: u32 = ctx.hash_small[hs0];
        ctx.hash_long.set(hl0, to_index(ip, bias));
        ctx.hash_small.set(hs0, to_index(ip, bias));
        if first > 0 && first as usize <= ip + 1 && eq4(data, ip + 1, ip + 1 - first as usize) {
            return Some(
                DfastHit {
                    ip: ip + 1,
                    source: ip + 1 - first as usize,
                    run: 4,
                    low: 0,
                    repeat: true,
                    current: ip,
                },
            );
        }
        let hl1: usize = hash_ptr(data, ip1, ctx.hlog_l, 8);
        let ml: usize = to_pos(idxl0, bias);
        if low <= ml && ml < ip && eq8(data, ip, ml) {
            if step < 4 {
                ctx.hash_long.set(hl1, to_index(ip1, bias));
            }
            return Some(
                DfastHit { ip, source: ml, run: 8, low, repeat: false, current: ip },
            );
        }
        let idxl1: u32 = ctx.hash_long[hl1];
        let ms: usize = to_pos(idxs0, bias);
        if low <= ms && ms < ip && eq4(data, ip, ms) {
            let rest: usize = count_eq(data, ip + 4, ms + 4, end);
            proof {
                lemma_join_runs(data@, ip as int, ip - ms, 4, rest as int);
            }
            let mut hit = DfastHit {
                ip,
                source: ms,
                run: rest + 4,
                low,
                repeat: false,
                current: ip,
            };
            let ml1: usize = to_pos(idxl1, bias);
            if low < ml1 && ml1 < ip1 && eq8(data, ip1, ml1) {
                let rest1: usize = count_eq(data, ip1 + 8, ml1 + 8, end);
                proof {
                    lemma_join_runs(data@, ip1 as int, ip1 - ml1, 8, rest1 as int);
                }
                if rest1 + 8 > hit.run {
                    hit = DfastHit {
                        ip: ip1,
                        source: ml1,
                        run: rest1 + 8,
                        low,
                        repeat: false,
                        current: ip,
                    };
                }
            }
            if step < 4 {
                ctx.hash_long.set(hl1, to_index(ip1, bias));
            }
            return Some(hit);
        }
        if ip1 as u64 >= next_step {
            step = step + 1;
            next_step = next_step + 256;
        }
        ip = ip1;
        hl0 = hl1;
        idxl0 = idxl1;
        assert(whole_search == scan_one(
            w,
            first,
            ctx.tables(),
            ip as int,
            ip + step,
            step as nat,
            next_step as int,
        ));
        if step > ilimit - ip {
            return None;
        }
        ip1 = ip + step;
    }
    proof {
        reveal_with_fuel(scan_one, 1);
    }
    None
}

/// Stores what a search found, extended both ways, and then any matches that
/// follow at once with the second newest offset; those have their source at
/// `rep_low` or above and do not straddle `seam`.
fn dfast_match(
    ctx: &mut DfastCtx,
    p: &mut Parser,
    recent: &mut Recent,
    hit: &DfastHit,
    rep_low: usize,
    seam: usize,
    bias: u32,
    Ghost(w): Ghost<DfastPlace>,
)
    requires
        old(ctx).wf(),
        old(p).wf(),
        old(p).end - old(p).start >= 8,
        old(recent).tracks(old(p).rep@),
        hit_ok(hit, old(p), old(p).anchor as int, old(recent).first),
        at_place(old(ctx), old(p), seam, bias, w),
        w.rep_low == rep_low,
    ensures
        (DfastState {
            tables: final(ctx).tables(),
            parse: final(p).parse(),
            recent: *final(recent),
        }) == match_stored(
            w,
            DfastState {
                tables: old(ctx).tables(),
                parse: old(p).parse(),
                recent: *old(recent),
            },
            hit.view(),
        ),
        final(ctx).wf(),
        final(ctx).same_params(old(ctx)),
        final(p).wf(),
        final(p).same_block(old(p)),
        final(p).anchor > old(p).anchor,
        final(recent).tracks(final(p).rep@),
{
    proof {
        reveal(match_stored);
    }
    let data = p.data;
    let end: usize = p.end;
    let ip: usize = hit.ip;
    let m: usize = hit.source;
    let forward: usize = count_eq(data, ip + hit.run, m + hit.run, end);
    let back: usize = if hit.repeat {
        0
    } else {
        extend_back(data, ip, m, p.anchor, hit.low)
    };
    let len: usize = back + hit.run + forward;
    proof {
        lemma_join_runs(data@, ip - back, ip - m, back as int, hit.run as int);
        lemma_join_runs(data@, ip - back, ip - m, back + hit.run, forward as int);
    }
    if hit.repeat {
        p.emit_rep0(ip, len);
    } else {
        let offset: u32 = (ip - m) as u32;
        p.emit_match(ip - back, offset, len);
        recent.push(offset);
    }
    if p.anchor <= end - HASH_READ_SIZE {
        ctx.enter_long(data, hit.current + 2, bias);
        ctx.enter_long(data, p.anchor - 2, bias);
        ctx.enter_small(data, hit.current + 2, bias);
        ctx.enter_small(data, p.anchor - 1, bias);
        dfast_repeats(ctx, p, recent, rep_low, seam, bias, Ghost(w));
    }
}

/// Stores the matches at the anchor with the second newest offset.
#[verifier::rlimit(30)]
fn dfast_repeats(
    ctx: &mut DfastCtx,
    p: &mut Parser,
    recent: &mut Recent,
    rep_low: usize,
    seam: usize,
    bias: u32,
    Ghost(w): Ghost<DfastPlace>,
)
    requires
        old(ctx).wf(),
        old(p).wf(),
        old(p).end - old(p).start >= 8,
        old(recent).tracks(old(p).rep@),
        at_place(old(ctx), old(p), seam, bias, w),
        w.rep_low == rep_low,
    ensures
        (DfastState {
            tables: final(ctx).tables(),
            parse: final(p).parse(),
            recent: *final(recent),
        }) == repeats_stored(
            w,
            DfastState {
                tables: old(ctx).tables(),
                parse: old(p).parse(),
                recent: *old(recent),
            },
        ),
        final(ctx).wf(),
        final(ctx).same_params(old(ctx)),
        final(p).wf(),
        final(p).same_block(old(p)),
        final(p).anchor >= old(p).anchor,
        final(recent).tracks(final(p).rep@),
{
    let ghost entry = *ctx;
    let ghost block = *p;
    let data = p.data;
    let end: usize = p.end;
    let mut more: bool = true;
    while more
        invariant
            ctx.wf(),
            ctx.same_params(&entry),
            p.wf(),
            p.same_block(&block),
            p.anchor >= block.anchor,
            recent.tracks(p.rep@),
            data@ == p.data@,
            end == p.end,
            end - p.start >= 8,
            at_place(&entry, &block, seam, bias, w),
            w.rep_low == rep_low,
            repeats_stored(
                w,
                DfastState { tables: entry.tables(), parse: block.parse(), recent: *old(recent) },
            ) == if more {
                repeats_stored(
                    w,
                    DfastState { tables: ctx.tables(), parse: p.parse(), recent: *recent },
                )
            } else {
                DfastState { tables: ctx.tables(), parse: p.parse(), recent: *recent }
            },
        decreases
                (end - p.anchor) + if more {
                    1int
                } else {
                    0
                },
    {
        proof {
            reveal_with_fuel(repeats_stored, 1);
        }
        let ip: usize = p.anchor;
        let second: usize = recent.second as usize;
        more = ip <= end - HASH_READ_SIZE && second > 0 && second <= ip && ip - second >= rep_low
            && whole(ip - second, seam) && eq4(data, ip, ip - second);
        if more {
            let rest: usize = count_eq(data, ip + 4, ip - second + 4, end);
            proof {
                lemma_join_runs(data@, ip as int, second as int, 4, rest as int);
            }
            ctx.enter_small(data, ip, bias);
            ctx.enter_long(data, ip, bias);
            p.emit_rep1(rest + 4);
            recent.swap();
        }
    }
}

/// Parses the rest of a block from `from` on, with its history in one segment.
#[verifier::rlimit(60)]
fn dfast_parse(
    ctx: &mut DfastCtx,
    p: &mut Parser,
    recent: &mut Recent,
    from: usize,
    low: usize,
    bias: u32,
    Ghost(w): Ghost<DfastPlace>,
)
    requires
        old(ctx).wf(),
        old(p).wf(),
        old(p).end - old(p).start >= 8,
        old(p).anchor <= from <= old(p).end,
        old(recent).tracks(old(p).rep@),
        at_place(old(ctx), old(p), 0, bias, w),
        w.low == low,
        w.rep_low == 0,
        w.history is One,
    ensures
        final(ctx).wf(),
        final(ctx).same_params(old(ctx)),
        final(p).wf(),
        final(p).same_block(old(p)),
        final(recent).tracks(final(p).rep@),
        (DfastState { tables: final(ctx).tables(), parse: final(p).parse(), recent: *final(recent) })
            == parsed(
            w,
            DfastState { tables: old(ctx).tables(), parse: old(p).parse(), recent: *old(recent) },
            from as int,
        ),
{
    let ghost entry = *ctx;
    let ghost block = *p;
    let end: usize = p.end;
    let mut at: usize = from;
    let ghost whole_parse = parsed(
        w,
        DfastState { tables: ctx.tables(), parse: p.parse(), recent: *recent },
        at as int,
    );
    let ghost mut before = ctx.tables();
    let mut found: Option<DfastHit> = dfast_search(
        ctx,
        p,
        at,
        recent.first,
        low,
        bias,
        Ghost(w),
    );
    while found.is_some()
        invariant
            ctx.wf(),
            ctx.same_params(&entry),
            p.wf(),
            p.same_block(&block),
            end == p.end,
            end - p.start >= 8,
            p.anchor <= at,
            recent.tracks(p.rep@),
            found matches Some(h) ==> hit_ok(&h, p, at as int, recent.first),
            at_place(&entry, &block, 0, bias, w),
            w.low == low,
            w.rep_low == 0,
            w.history is One,
            (ctx.tables(), opt_view(found)) == search(
                w,
                recent.first,
                before,
                p.anchor as int,
                at as int,
            ),
            whole_parse == parsed(
                w,
                DfastState { tables: before, parse: p.parse(), recent: *recent },
                at as int,
            ),
        decreases end - p.anchor,
    {
        proof {
            reveal_with_fuel(parsed, 1);
        }
        if let Some(hit) = found {
            dfast_match(ctx, p, recent, &hit, 0, 0, bias, Ghost(w));
        }
        at = p.anchor;
        proof {
            before = ctx.tables();
        }
        found = dfast_search(ctx, p, at, recent.first, low, bias, Ghost(w));
    }
    proof {
        reveal_with_fuel(parsed, 1);
    }
}

/// Parses a block with its history in one segment: matches start at the index
/// `lowest_valid` or above.
#[verifier::rlimit(30)]
pub fn compress_block_dfast(
    ctx: &mut DfastCtx,
    p: &mut Parser,
    rep: &mut [u32; 3],
    bias: u32,
    lowest_valid: u32,
)
    requires
        old(ctx).wf(),
        old(p).wf(),
        old(p).anchor == old(p).start,
        in_sync(old(rep)@, old(p).rep@),
    ensures
        final(ctx).wf(),
        final(ctx).same_params(old(ctx)),
        final(p).wf(),
        final(p).same_block(old(p)),
        in_sync(final(rep)@, final(p).rep@),
        (DfastOutcome {
            tables: final(ctx).tables(),
            parse: final(p).parse(),
            rep: final(rep)@,
        }) == block_outcome(
            old(ctx).logs(),
            old(ctx).window_log,
            old(p).data@,
            old(p).start as int,
            old(p).end as int,
            old(ctx).tables(),
            old(rep)@,
            bias,
            lowest_valid,
        ),
{
    proof {
        reveal(block_outcome);
        lemma_nothing_parsed(p);
    }
    if p.end - p.start < HASH_READ_SIZE {
        return ;
    }
    let end: usize = p.end;
    let prefix_start: u32 = lowest_index(to_index(p.end, bias), lowest_valid, ctx.window_log);
    let low: usize = to_pos(prefix_start, bias);
    let at: usize = if p.start == low {
        p.start + 1
    } else {
        p.start
    };
    let curr: u32 = to_index(at, bias);
    let window_low: u32 = lowest_index(curr, lowest_valid, ctx.window_log);
    let mut recent = Recent::start(rep, curr.wrapping_sub(window_low) as usize, false);
    let ghost w = DfastPlace {
        data: p.data@,
        end: end as int,
        low: low as int,
        seam: 0,
        rep_low: 0,
        bias,
        logs: ctx.logs(),
        history: History::One,
    };
    dfast_parse(ctx, p, &mut recent, at, low, bias, Ghost(w));
    recent.finish(rep);
}

/// The lowest place to which a source at `m` may be extended within its
/// segment.
fn segment_low(m: usize, low: usize, seam: usize) -> (r: usize)
    ensures
        r == if m < seam {
            low
        } else {
            seam
        },
{
    if m < seam {
        low
    } else {
        seam
    }
}

/// Searches from `from` on, with the history in two segments that adjoin at
/// `seam`.
#[verifier::rlimit(30)]
fn dfast_ext_search(
    ctx: &mut DfastCtx,
    p: &Parser,
    from: usize,
    first: u32,
    low: usize,
    seam: usize,
    bias: u32,
    Ghost(w): Ghost<DfastPlace>,
) -> (r: Option<DfastHit>)
    requires
        old(ctx).wf(),
        p.wf(),
        p.end - p.start >= 8,
        p.anchor <= from,
        at_place(old(ctx), p, seam, bias, w),
        w.low == low,
        w.history is Two,
    ensures
        (final(ctx).tables(), opt_view(r)) == search(
            w,
            first,
            old(ctx).tables(),
            p.anchor as int,
            from as int,
        ),
        final(ctx).wf(),
        final(ctx).same_params(old(ctx)),
        r matches Some(h) ==> hit_ok(&h, p, from as int, first),
{
    let ghost entry = *ctx;
    let data = p.data;
    let end: usize = p.end;
    let ilimit: usize = end - HASH_READ_SIZE;
    let mut ip: usize = from;
    while ip < ilimit
        invariant
            ctx.wf(),
            ctx.same_params(&entry),
            entry == *old(ctx),
            p.wf(),
            data@ == p.data@,
            end == p.end,
            end - p.start >= 8,
            ilimit == end - 8,
            p.anchor <= from <= ip,
            at_place(&entry, p, seam, bias, w),
            w.low == low,
            w.history is Two,
            search(w, first, entry.tables(), p.anchor as int, from as int) == scan_two(
                w,
                first,
                ctx.tables(),
                p.anchor as int,
                ip as int,
            ),
        decreases end - ip,
    {
        proof {
            reveal_with_fuel(scan_two, 1);
        }
        let h_small: usize = hash_ptr(data, ip, ctx.hlog_s, ctx.mls);
        let ms: usize = to_pos(ctx.hash_small[h_small], bias);
        let h_long: usize = hash_ptr(data, ip, ctx.hlog_l, 8);
        let ml: usize = to_pos(ctx.hash_long[h_long], bias);
        ctx.hash_small.set(h_small, to_index(ip, bias));
        ctx.hash_long.set(h_long, to_index(ip, bias));
        if first > 0 && first as usize <= ip + 1 {
            let r: usize = ip + 1 - first as usize;
            if whole(r, seam) && r >= low && eq4(data, ip + 1, r) {
                return Some(
                    DfastHit { ip: ip + 1, source: r, run: 4, low: 0, repeat: true, current: ip },
                );
            }
        }
        if low < ml && ml < ip && eq8(data, ip, ml) {
            return Some(
                DfastHit {
                    ip,
                    source: ml,
                    run: 8,
                    low: segment_low(ml, low, seam),
                    repeat: false,
                    current: ip,
                },
            );
        }
        if low < ms && ms < ip && eq4(data, ip, ms) {
            let h3: usize = hash_ptr(data, ip + 1, ctx.hlog_l, 8);
            let m3: usize = to_pos(ctx.hash_long[h3], bias);
            ctx.hash_long.set(h3, to_index(ip + 1, bias));
            if low < m3 && m3 < ip + 1 && eq8(data, ip + 1, m3) {
                return Some(
                    DfastHit {
                        ip: ip + 1,
                        source: m3,
                        run: 8,
                        low: segment_low(m3, low, seam),
                        repeat: false,
                        current: ip,
                    },
                );
            }
            return Some(
                DfastHit {
                    ip,
                    source: ms,
                    run: 4,
                    low: segment_low(ms, low, seam),
                    repeat: false,
                    current: ip,
                },
            );
        }
        let step: usize = (ip - p.anchor) / 256 + 1;
        assert(search(w, first, entry.tables(), p.anchor as int, from as int) == scan_two(
            w,
            first,
            ctx.tables(),
            p.anchor as int,
            ip + step,
        ));
        if step >= ilimit - ip {
            return None;
        }
        ip = ip + step;
    }
    proof {
        reveal_with_fuel(scan_two, 1);
    }
    None
}

/// Parses a block whose history is in two segments, laid out one after the
/// other.
#[verifier::rlimit(30)]
pub fn compress_block_dfast_extdict(
    ctx: &mut DfastCtx,
    p: &mut Parser,
    rep: &mut [u32; 3],
    win: &Layout,
)
    requires
        old(ctx).wf(),
        old(p).wf(),
        old(p).anchor == old(p).start,
        in_sync(old(rep)@, old(p).rep@),
    ensures
        final(ctx).wf(),
        final(ctx).same_params(old(ctx)),
        final(p).wf(),
        final(p).same_block(old(p)),
        in_sync(final(rep)@, final(p).rep@),
        (DfastOutcome {
            tables: final(ctx).tables(),
            parse: final(p).parse(),
            rep: final(rep)@,
        }) == ext_block_outcome(
            old(ctx).logs(),
            old(ctx).window_log,
            old(p).data@,
            old(p).start as int,
            old(p).end as int,
            old(ctx).tables(),
            old(rep)@,
            *win,
        ),
{
    proof {
        reveal(ext_block_outcome);
        lemma_nothing_parsed(p);
    }
    let bias: u32 = win.bias;
    let dict_start: u32 = lowest_index(to_index(p.end, bias), win.low_limit, ctx.window_log);
    if dict_start >= win.dict_limit {
        compress_block_dfast(ctx, p, rep, bias, win.dict_limit);
        return ;
    }
    if p.end - p.start < HASH_READ_SIZE {
        return ;
    }
    let ghost entry = *ctx;
    let ghost block = *p;
    let end: usize = p.end;
    let low: usize = to_pos(dict_start, bias);
    let seam: usize = to_pos(win.dict_limit, bias);
    let mut recent = Recent::all(rep);
    let mut at: usize = p.start;
    let ghost w = DfastPlace {
        data: p.data@,
        end: end as int,
        low: low as int,
        seam: seam as int,
        rep_low: low as int,
        bias,
        logs: ctx.logs(),
        history: History::Two,
    };
    let ghost whole_parse = parsed(
        w,
        DfastState { tables: ctx.tables(), parse: p.parse(), recent },
        at as int,
    );
    let ghost mut before = ctx.tables();
    let mut found: Option<DfastHit> = dfast_ext_search(
        ctx,
        p,
        at,
        recent.first,
        low,
        seam,
        bias,
        Ghost(w),
    );
    while found.is_some()
        invariant
            ctx.wf(),
            ctx.same_params(&entry),
            p.wf(),
            p.same_block(&block),
            end == p.end,
            end - p.start >= 8,
            p.anchor == at,
            recent.tracks(p.rep@),
            found matches Some(h) ==> hit_ok(&h, p, at as int, recent.first),
            at_place(&entry, &block, seam, bias, w),
            w.low == low,
            w.rep_low == low,
            w.history is Two,
            (ctx.tables(), opt_view(found)) == search(
                w,
                recent.first,
                before,
                p.anchor as int,
                at as int,
            ),
            whole_parse == parsed(
                w,
                DfastState { tables: before, parse: p.parse(), recent },
                at as int,
            ),
        decreases end - p.anchor,
    {
        proof {
            reveal_with_fuel(parsed, 1);
        }
        if let Some(hit) = found {
            dfast_match(ctx, p, &mut recent, &hit, low, seam, bias, Ghost(w));
        }
        at = p.anchor;
        proof {
            before = ctx.tables();
        }
        found = dfast_ext_search(ctx, p, at, recent.first, low, seam, bias, Ghost(w));
    }
    proof {
        reveal_with_fuel(parsed, 1);
    }
    recent.finish(rep);
}

/// The tagged tables of a dictionary.
pub struct DfastDict<'a> {
    pub hash_long: &'a Vec<u32>,
    pub hash_small: &'a Vec<u32>,
    pub hlog_l: u32,
    pub hlog_s: u32,
}

impl<'a> DfastDict<'a> {
    pub open spec fn wf(&self) -> bool {
        &&& 6 <= self.hlog_l <= 24
        &&& 6 <= self.hlog_s <= 24
        &&& self.hash_long@.len() == pow2(self.hlog_l as nat)
        &&& self.hash_small@.len() == pow2(self.hlog_s as nat)
    }

    pub open spec fn view(&self, content_len: int) -> DictTablesView {
        DictTablesView {
            tables: Tables { long: self.hash_long@, small: self.hash_small@ },
            logs: Logs { long: self.hlog_l, small: self.hlog_s, mls: 0 },
            content_len,
        }
    }

    /// The long-table candidate at `at`: a position, or none where the tag
    /// differs.
    fn long_at(&self, data: &[u8], at: usize) -> (r: Option<usize>)
        requires
            self.wf(),
            at + 8 <= data@.len(),
        ensures
            opt_int(r) == self.view(0).long_at(data@, at as int),
            r matches Some(m) ==> m >= 1,
    {
        let h: usize = hash_ptr(data, at, self.hlog_l + SHORT_CACHE_TAG_BITS, 8);
        proof {
            lemma_bucket(h as nat, self.hlog_l as nat);
        }
        untag(self.hash_long[h / 256], h)
    }

    fn small_at(&self, data: &[u8], at: usize, mls: u32) -> (r: Option<usize>)
        requires
            self.wf(),
            at + 8 <= data@.len(),
        ensures
            opt_int(r) == self.view(0).small_at(data@, at as int, mls),
            r matches Some(m) ==> m >= 1,
    {
        let h: usize = hash_ptr(data, at, self.hlog_s + SHORT_CACHE_TAG_BITS, mls);
        proof {
            lemma_bucket(h as nat, self.hlog_s as nat);
        }
        untag(self.hash_small[h / 256], h)
    }
}

pub open spec fn opt_int(r: Option<usize>) -> Option<int> {
    match r {
        Some(m) => Some(m as int),
        None => None,
    }
}

pub open spec fn opt_ints(r: Option<(usize, usize)>) -> Option<(int, int)> {
    match r {
        Some((m, low)) => Some((m as int, low as int)),
        None => None,
    }
}

/// The position in a tagged bucket, where the tag is that of the hash and the
/// position is not the very first.
pub fn untag(entry: u32, hash_and_tag: usize) -> (r: Option<usize>)
    ensures
        opt_int(r) == untagged(entry, hash_and_tag as nat),
{
    if entry % 256 == (hash_and_tag % 256) as u32 && entry / 256 > WINDOW_START_INDEX {
        Some((entry / 256 - WINDOW_START_INDEX) as usize)
    } else {
        None
    }
}

/// Searches from `from` on, with the dictionary's own tables beside the
/// window's.
#[verifier::rlimit(40)]
fn dfast_dict_search(
    ctx: &mut DfastCtx,
    p: &Parser,
    from: usize,
    first: u32,
    content_len: usize,
    dict: &DfastDict,
    Ghost(w): Ghost<DfastPlace>,
) -> (r: Option<DfastHit>)
    requires
        old(ctx).wf(),
        p.wf(),
        p.end - p.start >= 8,
        p.anchor <= from,
        dict.wf(),
        content_len <= p.start,
        at_place(old(ctx), p, content_len, WINDOW_START_INDEX, w),
        w.history == History::Attached(dict.view(content_len as int)),
    ensures
        (final(ctx).tables(), opt_view(r)) == search(
            w,
            first,
            old(ctx).tables(),
            p.anchor as int,
            from as int,
        ),
        final(ctx).wf(),
        final(ctx).same_params(old(ctx)),
        r matches Some(h) ==> hit_ok(&h, p, from as int, first),
{
    let ghost entry = *ctx;
    let data = p.data;
    let end: usize = p.end;
    let ilimit: usize = end - HASH_READ_SIZE;
    let bias: u32 = WINDOW_START_INDEX;
    let mls: u32 = ctx.mls;
    let mut ip: usize = from;
    while ip < ilimit
        invariant
            ctx.wf(),
            ctx.same_params(&entry),
            entry == *old(ctx),
            p.wf(),
            data@ == p.data@,
            end == p.end,
            end - p.start >= 8,
            ilimit == end - 8,
            p.anchor <= from <= ip,
            dict.wf(),
            content_len <= p.start,
            mls == ctx.mls,
            bias == WINDOW_START_INDEX,
            at_place(&entry, p, content_len, WINDOW_START_INDEX, w),
            w.history == History::Attached(dict.view(content_len as int)),
            search(w, first, entry.tables(), p.anchor as int, from as int) == scan_attached(
                w,
                dict.view(content_len as int),
                first,
                ctx.tables(),
                p.anchor as int,
                ip as int,
            ),
        decreases end - ip,
    {
        proof {
            reveal_with_fuel(scan_attached, 1);
        }
        let h_long: usize = hash_ptr(data, ip, ctx.hlog_l, 8);
        let h_small: usize = hash_ptr(data, ip, ctx.hlog_s, ctx.mls);
        let ml: usize = to_pos(ctx.hash_long[h_long], bias);
        let ms: usize = to_pos(ctx.hash_small[h_small], bias);
        ctx.hash_long.set(h_long, to_index(ip, bias));
        ctx.hash_small.set(h_small, to_index(ip, bias));
        if first > 0 && first as usize <= ip + 1 {
            let r: usize = ip + 1 - first as usize;
            if whole(r, content_len) && eq4(data, ip + 1, r) {
                return Some(
                    DfastHit { ip: ip + 1, source: r, run: 4, low: 0, repeat: true, current: ip },
                );
            }
        }
        let long = long_source(data, ip, ml, content_len, dict);
        if let Some((m, low)) = long {
            return Some(DfastHit { ip, source: m, run: 8, low, repeat: false, current: ip });
        }
        let short = short_source(data, ip, ms, content_len, dict, mls);
        if let Some((s, s_low)) = short {
            let h3: usize = hash_ptr(data, ip + 1, ctx.hlog_l, 8);
            let m3: usize = to_pos(ctx.hash_long[h3], bias);
            ctx.hash_long.set(h3, to_index(ip + 1, bias));
            let long1 = long_source(data, ip + 1, m3, content_len, dict);
            if let Some((m, low)) = long1 {
                return Some(
                    DfastHit { ip: ip + 1, source: m, run: 8, low, repeat: false, current: ip },
                );
            }
            return Some(
                DfastHit { ip, source: s, run: 4, low: s_low, repeat: false, current: ip },
            );
        }
        let step: usize = (ip - p.anchor) / 256 + 1;
        assert(search(w, first, entry.tables(), p.anchor as int, from as int) == scan_attached(
            w,
            dict.view(content_len as int),
            first,
            ctx.tables(),
            p.anchor as int,
            ip + step,
        ));
        if step >= ilimit - ip {
            return None;
        }
        ip = ip + step;
    }
    proof {
        reveal_with_fuel(scan_attached, 1);
    }
    None
}

/// A four-byte source for `ip`: the window's candidate `ms`, or where it has
/// none, the dictionary's.
fn short_source(
    data: &[u8],
    ip: usize,
    ms: usize,
    content_len: usize,
    dict: &DfastDict,
    mls: u32,
) -> (r: Option<(usize, usize)>)
    requires
        dict.wf(),
        ip + 8 <= data@.len(),
    ensures
        opt_ints(r) == dict.view(content_len as int).short_source(
            data@,
            ip as int,
            ms as int,
            mls,
        ),
        r matches Some((m, low)) ==> m < ip && eq_run(data@, ip as int, ip - m, 4),
{
    if content_len < ms && ms < ip {
        if eq4(data, ip, ms) {
            return Some((ms, content_len));
        }
        return None;
    }
    if let Some(dm) = dict.small_at(data, ip, mls) {
        if dm < ip && eq4(data, ip, dm) {
            let low: usize = if dm < content_len {
                0
            } else {
                content_len
            };
            return Some((dm, low));
        }
    }
    None
}

/// An eight-byte source for `ip`: the window's candidate `ml`, or else the
/// dictionary's.
fn long_source(data: &[u8], ip: usize, ml: usize, content_len: usize, dict: &DfastDict) -> (r: Option<
    (usize, usize),
>)
    requires
        dict.wf(),
        ip + 8 <= data@.len(),
    ensures
        opt_ints(r) == dict.view(content_len as int).long_source(data@, ip as int, ml as int),
        r matches Some((m, low)) ==> m < ip && eq_run(data@, ip as int, ip - m, 8),
{
    if content_len <= ml && ml < ip && eq8(data, ip, ml) {
        return Some((ml, content_len));
    }
    if let Some(dm) = dict.long_at(data, ip) {
        if dm < ip && eq8(data, ip, dm) {
            return Some((dm, 0));
        }
    }
    None
}

/// Parses a block with an attached dictionary, whose content stands at the
/// start of the data.
#[verifier::rlimit(30)]
pub fn compress_block_dfast_dict_match_state(
    ctx: &mut DfastCtx,
    p: &mut Parser,
    rep: &mut [u32; 3],
    content_len: usize,
    dict: &DfastDict,
)
    requires
        old(ctx).wf(),
        old(p).wf(),
        old(p).anchor == old(p).start,
        in_sync(old(rep)@, old(p).rep@),
        dict.wf(),
        content_len <= old(p).start,
    ensures
        final(ctx).wf(),
        final(ctx).same_params(old(ctx)),
        final(p).wf(),
        final(p).same_block(old(p)),
        in_sync(final(rep)@, final(p).rep@),
        (DfastOutcome {
            tables: final(ctx).tables(),
            parse: final(p).parse(),
            rep: final(rep)@,
        }) == dict_block_outcome(
            old(ctx).logs(),
            old(p).data@,
            old(p).start as int,
            old(p).end as int,
            old(ctx).tables(),
            old(rep)@,
            dict.view(content_len as int),
        ),
{
    proof {
        reveal(dict_block_outcome);
        lemma_nothing_parsed(p);
    }
    if p.end - p.start < HASH_READ_SIZE {
        return ;
    }
    let ghost entry = *ctx;
    let ghost block = *p;
    let end: usize = p.end;
    let mut recent = Recent::all(rep);
    let mut at: usize = if p.start == 0 {
        1
    } else {
        p.start
    };
    let ghost w = DfastPlace {
        data: p.data@,
        end: end as int,
        low: 0,
        seam: content_len as int,
        rep_low: 0,
        bias: WINDOW_START_INDEX,
        logs: ctx.logs(),
        history: History::Attached(dict.view(content_len as int)),
    };
    let ghost whole_parse = parsed(
        w,
        DfastState { tables: ctx.tables(), parse: p.parse(), recent },
        at as int,
    );
    let ghost mut before = ctx.tables();
    let mut found: Option<DfastHit> = dfast_dict_search(
        ctx,
        p,
        at,
        recent.first,
        content_len,
        dict,
        Ghost(w),
    );
    while found.is_some()
        invariant
            ctx.wf(),
            ctx.same_params(&entry),
            p.wf(),
            p.same_block(&block),
            end == p.end,
            end - p.start >= 8,
            p.anchor <= at,
            dict.wf(),
            content_len <= p.start,
            recent.tracks(p.rep@),
            found matches Some(h) ==> hit_ok(&h, p, at as int, recent.first),
            at_place(&entry, &block, content_len, WINDOW_START_INDEX, w),
            w.rep_low == 0,
            w.history == History::Attached(dict.view(content_len as int)),
            (ctx.tables(), opt_view(found)) == search(
                w,
                recent.first,
                before,
                p.anchor as int,
                at as int,
            ),
            whole_parse == parsed(
                w,
                DfastState { tables: before, parse: p.parse(), recent },
                at as int,
            ),
        decreases end - p.anchor,
    {
        proof {
            reveal_with_fuel(parsed, 1);
        }
        if let Some(hit) = found {
            dfast_match(
                ctx,
                p,
                &mut recent,
                &hit,
                0,
                content_len,
                WINDOW_START_INDEX,
                Ghost(w),
            );
        }
        at = p.anchor;
        proof {
            before = ctx.tables();
        }
        found = dfast_dict_search(ctx, p, at, recent.first, content_len, dict, Ghost(w));
    }
    proof {
        reveal_with_fuel(parsed, 1);
    }
    recent.finish(rep);
}

} // verus!
