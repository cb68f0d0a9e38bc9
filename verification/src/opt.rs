//! The optimal parser: prices every place of a stretch, takes the cheapest
//! chain of literals and matches that leads through it, and stores that.

use crate::fast::lemma_nothing_parsed;
use crate::layout::Layout;
use crate::ldm::RawSeq;
use crate::opt_match_model::OptState;
use crate::opt_matches::{
    fits, get_all_matches, matches_fit, LdmCursor, Match, OptCtx, OptDms, OptLdm, OptView, OPT_NUM,
};
use crate::opt_model::{
    candidates, carried_on, chain_parts, chain_stored, first_priced, lengths_down, lengths_priced, literals_only,
    matches_priced, more_matches, more_priced, no_way_yet, opened, opt_block_outcome, opt_pass, parts_stored, path_of,
    path_to, places_priced, recents_after, settled, stretch_parsed, stretch_priced, stretches_parsed, way_barred,
    way_set, way_to, OptOutcome, OptProgress, OptScene, OptSearch, OptStored,
};
use crate::opt_prices::{rescale_freqs, PREDEF_THRESHOLD};
use crate::parser::{borne_out, known, new_rep, to_index, to_pos, Parser};
use crate::sequences_encode::FseEntropyState;
use vstd::prelude::*;

verus! {

/// The places of a stretch.
pub const OPT_SIZE: usize = 4099;

/// Above any price.
pub const MAX_PRICE: i32 = 1073741824;

/// Three recent offsets.
#[derive(Clone, Copy)]
pub struct Recents {
    pub r0: u32,
    pub r1: u32,
    pub r2: u32,
}

impl Recents {
    pub open spec fn view(&self) -> Seq<u32> {
        seq![self.r0, self.r1, self.r2]
    }

    pub open spec fn of(rep: Seq<u32>) -> Recents {
        Recents { r0: rep[0], r1: rep[1], r2: rep[2] }
    }

    fn from_array(rep: &[u32; 3]) -> (r: Self)
        ensures
            r == Self::of(rep@),
            r@ == rep@,
    {
        let r = Recents { r0: rep[0], r1: rep[1], r2: rep[2] };
        assert(r@ =~= rep@);
        r
    }

    fn to_array(&self) -> (r: [u32; 3])
        ensures
            r@ == self@,
    {
        let r: [u32; 3] = [self.r0, self.r1, self.r2];
        assert(r@ =~= self@);
        r
    }

    fn none() -> (r: Self)
        ensures
            r == (Recents { r0: 0, r1: 0, r2: 0 }),
    {
        Recents { r0: 0, r1: 0, r2: 0 }
    }
}

/// The cheapest way to a place: a match of `mlen` bytes and then `litlen`
/// literals, and the recent offsets after it.
#[derive(Clone, Copy)]
pub struct Optimal {
    pub price: i32,
    pub off: u32,
    pub mlen: u32,
    pub litlen: u32,
    pub rep: Recents,
}

/// The cheapest ways to all places of a stretch.
pub struct OptTable {
    pub cells: Vec<Optimal>,
}

impl OptTable {
    pub open spec fn wf(&self) -> bool {
        self.cells@.len() == OPT_SIZE
    }

    pub fn new() -> (r: Self)
        ensures
            r.wf(),
            r.cells@ == Seq::new(4099, |i: int| no_way_yet()),
    {
        let mut cells: Vec<Optimal> = Vec::new();
        while cells.len() < OPT_SIZE
            invariant
                cells@.len() <= OPT_SIZE,
                forall|i: int| 0 <= i < cells@.len() ==> #[trigger] cells@[i] == no_way_yet(),
            decreases OPT_SIZE - cells@.len(),
        {
            cells.push(no_way());
        }
        assert(cells@ =~= Seq::new(4099, |i: int| no_way_yet()));
        OptTable { cells }
    }

    /// The way to place `i`; there is none beyond the table.
    fn get(&self, i: u32) -> (r: Optimal)
        requires
            self.wf(),
        ensures
            r == way_to(self.cells@, i as int),
    {
        if (i as usize) < OPT_SIZE {
            self.cells[i as usize]
        } else {
            no_way()
        }
    }

    fn put(&mut self, i: u32, o: Optimal)
        requires
            old(self).wf(),
        ensures
            final(self).wf(),
            final(self).cells@ == way_set(old(self).cells@, i as int, o),
    {
        if (i as usize) < OPT_SIZE {
            self.cells.set(i as usize, o);
        }
    }

    /// Marks place `i` as not reached yet.
    fn put_unreached(&mut self, i: u32)
        requires
            old(self).wf(),
        ensures
            final(self).wf(),
            final(self).cells@ == way_barred(old(self).cells@, i as int),
    {
        let o = self.get(i);
        self.put(i, Optimal { price: MAX_PRICE, ..o });
    }
}

fn no_way() -> (r: Optimal)
    ensures
        r == no_way_yet(),
{
    Optimal { price: MAX_PRICE, off: 0, mlen: 0, litlen: 0, rep: Recents::none() }
}

/// The recent offsets after the match that `o` ends with, which started from
/// `before`.
fn rep_after(before: &Optimal, o: &Optimal) -> (r: Recents)
    ensures
        r == recents_after(*before, *o),
{
    if o.off >= 1 {
        let before_rep = before.rep.to_array();
        Recents::from_array(&new_rep(before_rep, o.off, before.litlen == 0))
    } else {
        before.rep
    }
}

/// A chain that leads to the end of a stretch: its last part, which starts at
/// place `cur`, and the place it ends at.
pub struct Path {
    pub last: Optimal,
    pub cur: u32,
    pub last_pos: u32,
}

/// Enters the matches at the first place; gives the last place reached.
#[verifier::rlimit(30)]
fn price_first(ctx: &OptCtx, tab: &mut OptTable, matches: &Vec<Match>, min_match: u32, litlen: u32) -> (r:
    u32)
    requires
        ctx.wf(),
        old(tab).wf(),
        3 <= min_match <= 4,
        forall|i: int| 0 <= i < matches@.len() ==> (#[trigger] matches@[i]).off >= 1,
    ensures
        final(tab).wf(),
        2 <= r <= OPT_NUM,
        (final(tab).cells@, r) == first_priced(
            ctx.stats@,
            old(tab).cells@,
            matches@,
            min_match,
            litlen,
        ),
{
    proof {
        reveal(first_priced);
    }
    let ghost t1 = literals_only(tab.cells@, 1, min_match, litlen);
    let mut pos: u32 = 1;
    while pos < min_match
        invariant
            1 <= pos <= min_match,
            min_match <= 4,
            tab.wf(),
            t1 == literals_only(tab.cells@, pos, min_match, litlen),
        decreases min_match - pos,
    {
        proof {
            reveal_with_fuel(literals_only, 1);
        }
        let o = tab.get(pos);
        tab.put(
            pos,
            Optimal { price: MAX_PRICE, mlen: 0, litlen: litlen.wrapping_add(pos), ..o },
        );
        pos = pos + 1;
    }
    proof {
        reveal_with_fuel(literals_only, 1);
    }
    let start = tab.get(0);
    let ghost all = matches_priced(ctx.stats@, tab.cells@, start.price, matches@, 0, pos);
    let mut k: usize = 0;
    while k < matches.len()
        invariant
            ctx.wf(),
            tab.wf(),
            k <= matches@.len(),
            all == matches_priced(
                ctx.stats@,
                tab.cells@,
                start.price,
                matches@,
                k as nat,
                pos,
            ),
            3 <= pos <= OPT_NUM + 1,
            forall|i: int| 0 <= i < matches@.len() ==> (#[trigger] matches@[i]).off >= 1,
        decreases matches@.len() - k,
    {
        proof {
            reveal_with_fuel(matches_priced, 1);
        }
        let m = matches[k];
        let ghost one = lengths_priced(ctx.stats@, tab.cells@, start.price, m, pos);
        while pos <= m.len && pos as usize <= OPT_NUM
            invariant
                ctx.wf(),
                tab.wf(),
                3 <= pos <= OPT_NUM + 1,
                m.off >= 1,
                one == lengths_priced(ctx.stats@, tab.cells@, start.price, m, pos),
            decreases OPT_NUM + 1 - pos,
        {
            proof {
                reveal_with_fuel(lengths_priced, 1);
            }
            let price: i32 = start.price.wrapping_add(
                ctx.stats.get_match_price(m.off, pos),
            ).wrapping_add(ctx.stats.ll_price(0));
            let o = tab.get(pos);
            tab.put(pos, Optimal { price, off: m.off, mlen: pos, litlen: 0, rep: o.rep });
            pos = pos + 1;
        }
        proof {
            reveal_with_fuel(lengths_priced, 1);
        }
        k = k + 1;
    }
    proof {
        reveal_with_fuel(matches_priced, 1);
    }
    tab.put_unreached(pos);
    pos - 1
}

/// Settles place `cur`: one literal more than the place before, if that is
/// cheaper. A match that ended here may still be better with one literal after
/// it, which then goes to the next place. Gives the last place reached.
fn settle(ctx: &OptCtx, tab: &mut OptTable, p: &Parser, ip: usize, cur: u32, last: u32) -> (r: u32)
    requires
        ctx.wf(),
        old(tab).wf(),
        p.wf(),
        1 <= cur <= OPT_NUM + 2,
        ip + cur <= p.end,
        last <= OPT_NUM + 2,
    ensures
        final(tab).wf(),
        last <= r <= OPT_NUM + 2,
        r <= last || r <= cur + 1,
        (final(tab).cells@, r) == settled(
            ctx.stats@,
            p.data@,
            p.end as int,
            old(tab).cells@,
            ip as int,
            cur,
            last,
        ),
{
    proof {
        reveal(settled);
        reveal(carried_on);
    }
    let end: usize = p.end;
    let mut last_pos: u32 = last;
    let prev = tab.get(cur - 1);
    let litlen: u32 = prev.litlen.saturating_add(1);
    let price: i32 = prev.price.wrapping_add(
        ctx.stats.lit_price(p.data[ip + cur as usize - 1]),
    ).wrapping_add(ctx.stats.ll_incprice(litlen));
    let here = tab.get(cur);
    if price <= here.price {
        tab.put(cur, Optimal { litlen, price, ..prev });
        if ctx.stats.ultra && here.litlen == 0 && ctx.stats.ll_incprice(1) < 0 && ip + (cur as usize)
            < end {
            let lit: i32 = ctx.stats.lit_price(p.data[ip + cur as usize]);
            let with1: i32 = here.price.wrapping_add(lit).wrapping_add(ctx.stats.ll_incprice(1));
            let more: i32 = price.wrapping_add(lit).wrapping_add(
                ctx.stats.ll_incprice(litlen.saturating_add(1)),
            );
            let next = tab.get(cur + 1);
            if with1 < more && with1 < next.price && here.mlen <= cur {
                let from = tab.get(cur - here.mlen);
                let rep = rep_after(&from, &here);
                tab.put(cur + 1, Optimal { rep, litlen: 1, price: with1, ..here });
                if last_pos < cur + 1 && (cur as usize) < OPT_NUM + 2 {
                    last_pos = cur + 1;
                }
            }
        }
    }
    let now = tab.get(cur);
    if now.litlen == 0 && now.mlen <= cur {
        let from = tab.get(cur - now.mlen);
        let rep = rep_after(&from, &now);
        tab.put(cur, Optimal { rep, ..now });
    }
    last_pos
}

/// Enters the matches at place `cur`; gives the last place reached.
#[verifier::rlimit(30)]
fn price_more(ctx: &OptCtx, tab: &mut OptTable, matches: &Vec<Match>, min_match: u32, cur: u32, last: u32) -> (r:
    u32)
    requires
        ctx.wf(),
        old(tab).wf(),
        3 <= min_match <= 4,
        cur < OPT_NUM,
        last <= OPT_NUM + 2,
        forall|i: int|
            0 <= i < matches@.len() ==> (#[trigger] matches@[i]).off >= 1,
    ensures
        final(tab).wf(),
        last <= r <= OPT_NUM + 2,
        r <= last || r < OPT_NUM,
        (final(tab).cells@, r) == more_priced(
            ctx.stats@,
            old(tab).cells@,
            matches@,
            min_match,
            cur,
            last,
        ),
{
    proof {
        reveal(more_priced);
    }
    let mut last_pos: u32 = last;
    let base: i32 = tab.get(cur).price.wrapping_add(ctx.stats.ll_price(0));
    let ghost all = more_matches(
        ctx.stats@,
        tab.cells@,
        last,
        cur,
        base,
        matches@,
        0,
        min_match,
    );
    let mut k: usize = 0;
    while k < matches.len()
        invariant
            ctx.wf(),
            tab.wf(),
            k <= matches@.len(),
            cur < OPT_NUM,
            3 <= min_match <= 4,
            last <= last_pos <= OPT_NUM + 2,
            last_pos <= last || last_pos < OPT_NUM,
            forall|i: int|
                0 <= i < matches@.len() ==> (#[trigger] matches@[i]).off >= 1,
            all == more_matches(
                ctx.stats@,
                tab.cells@,
                last_pos,
                cur,
                base,
                matches@,
                k as nat,
                min_match,
            ),
        decreases matches@.len() - k,
    {
        proof {
            reveal_with_fuel(more_matches, 1);
        }
        let m = matches[k];
        let first: u32 = if k > 0 {
            matches[k - 1].len.saturating_add(1)
        } else {
            min_match
        };
        last_pos = price_lengths(ctx, tab, m, first, base, cur, last_pos);
        k = k + 1;
    }
    proof {
        reveal_with_fuel(more_matches, 1);
    }
    tab.put_unreached(last_pos + 1);
    last_pos
}

/// Prices the lengths of the match `m` at place `cur`, from the longest down to
/// `first`; gives the last place reached.
fn price_lengths(ctx: &OptCtx, tab: &mut OptTable, m: Match, first: u32, base: i32, cur: u32, last: u32) -> (r:
    u32)
    requires
        ctx.wf(),
        old(tab).wf(),
        m.off >= 1,
        cur < OPT_NUM,
        last <= OPT_NUM + 2,
    ensures
        final(tab).wf(),
        last <= r <= OPT_NUM + 2,
        r <= last || r < OPT_NUM,
        (final(tab).cells@, r) == lengths_down(
            ctx.stats@,
            old(tab).cells@,
            last,
            cur,
            base,
            m,
            m.len,
            first,
        ),
{
    let ghost all = lengths_down(ctx.stats@, tab.cells@, last, cur, base, m, m.len, first);
    let mut last_pos: u32 = last;
    let mut mlen: u32 = m.len;
    let mut go: bool = true;
    while go && mlen >= first && mlen >= 1
        invariant
            ctx.wf(),
            tab.wf(),
            cur < OPT_NUM,
            m.off >= 1,
            last <= last_pos <= OPT_NUM + 2,
            last_pos <= last || last_pos < OPT_NUM,
            all == if go {
                lengths_down(ctx.stats@, tab.cells@, last_pos, cur, base, m, mlen, first)
            } else {
                (tab.cells@, last_pos)
            },
        decreases mlen,
    {
        proof {
            reveal_with_fuel(lengths_down, 1);
        }
        if (mlen as usize) < OPT_NUM - cur as usize {
            let pos: u32 = cur + mlen;
            let price: i32 = base.wrapping_add(ctx.stats.get_match_price(m.off, mlen));
            if pos > last_pos || price < tab.get(pos).price {
                last_pos = open_places(tab, last_pos, pos);
                let o = tab.get(pos);
                tab.put(pos, Optimal { price, off: m.off, mlen, litlen: 0, rep: o.rep });
            } else if !ctx.stats.ultra {
                go = false;
            }
        }
        mlen = mlen - 1;
    }
    proof {
        reveal_with_fuel(lengths_down, 1);
    }
    last_pos
}

/// Opens the places after `last` up to `pos`; gives the last one.
fn open_places(tab: &mut OptTable, last: u32, pos: u32) -> (r: u32)
    requires
        old(tab).wf(),
        pos < OPT_NUM,
        last <= OPT_NUM + 2,
    ensures
        final(tab).wf(),
        final(tab).cells@ == opened(old(tab).cells@, last, pos),
        r == if last < pos {
            pos
        } else {
            last
        },
{
    let ghost all = opened(tab.cells@, last, pos);
    let mut last_pos: u32 = last;
    while last_pos < pos
        invariant
            tab.wf(),
            pos < OPT_NUM,
            last <= last_pos,
            last_pos <= last || last_pos <= pos,
            all == opened(tab.cells@, last_pos, pos),
        decreases pos - last_pos,
    {
        proof {
            reveal_with_fuel(opened, 1);
        }
        last_pos = last_pos + 1;
        let o = tab.get(last_pos);
        tab.put(last_pos, Optimal { price: MAX_PRICE, litlen: 1, ..o });
    }
    proof {
        reveal_with_fuel(opened, 1);
    }
    last_pos
}

/// The matches at `ip`, with the long-distance one.
fn collect(
    ctx: &mut OptCtx,
    p: &Parser,
    ip: usize,
    rep: &[u32; 3],
    ll0: bool,
    view: &OptView,
    ldm: &mut OptLdm,
    next3: &mut u32,
    Ghost(table): Ghost<Seq<Optimal>>,
) -> (r: Vec<Match>)
    requires
        old(ctx).wf(),
        p.wf(),
        view.wf(),
        p.start <= ip,
        ip + 8 <= p.end,
    ensures
        final(ctx).wf(),
        final(ctx).same_params(old(ctx)),
        final(ctx).stats == old(ctx).stats,
        final(ldm).seqs == old(ldm).seqs,
        matches_fit(r@, ip as int, p.end as int),
        (
            OptSearch { state: final(ctx)@, next3: *final(next3), ldm: final(ldm)@, table },
            r@,
        ) == candidates(
            OptScene {
                w: view.place(p.data, p.end),
                seqs: old(ldm).seqs@,
                start: p.start as int,
            },
            OptSearch { state: old(ctx)@, next3: *old(next3), ldm: old(ldm)@, table },
            ip as int,
            rep@,
            ll0,
        ),
{
    proof {
        reveal(candidates);
    }
    let min_match: u32 = ctx.min_match();
    let mut matches: Vec<Match> = Vec::new();
    get_all_matches(
        ctx,
        p.data,
        next3,
        ip,
        p.end,
        rep,
        ll0,
        min_match,
        view,
        &mut matches,
    );
    ldm.process_match_candidate(
        &mut matches,
        (ip - p.start) as u32,
        (p.end - ip) as u32,
        min_match,
        Ghost(ip as int),
        Ghost(p.end as int),
    );
    proof {
        assert forall|i: int| 0 <= i < matches@.len() implies (#[trigger] matches@[i]).off >= 1 by {
            assert(fits(matches@[i], ip as int, p.end as int));
        }
    }
    matches
}

/// A chain that ends with the match `m`, taken at once.
fn take(m: Match, cur: u32) -> (r: Path)
    ensures
        r == path_of(m, cur),
{
    Path {
        last: Optimal { price: 0, off: m.off, mlen: m.len, litlen: 0, rep: Recents::none() },
        cur,
        last_pos: cur.saturating_add(m.len),
    }
}

/// Finds the cheapest chain from `ip` on; none where there is no match.
#[verifier::rlimit(30)]
fn forward_pass(
    ctx: &mut OptCtx,
    tab: &mut OptTable,
    p: &Parser,
    ip: usize,
    rep: &[u32; 3],
    view: &OptView,
    ldm: &mut OptLdm,
    next3: &mut u32,
) -> (r: Option<Path>)
    requires
        old(ctx).wf(),
        old(tab).wf(),
        p.wf(),
        view.wf(),
        p.anchor <= ip,
        ip + 8 <= p.end,
    ensures
        final(ctx).wf(),
        final(ctx).same_params(old(ctx)),
        final(ctx).stats == old(ctx).stats,
        final(tab).wf(),
        final(ldm).seqs == old(ldm).seqs,
        (search_of(final(ctx), *final(next3), final(ldm), final(tab)), r) == stretch_priced(
            OptScene {
                w: view.place(p.data, p.end),
                seqs: old(ldm).seqs@,
                start: p.start as int,
            },
            search_of(old(ctx), *old(next3), old(ldm), old(tab)),
            ip as int,
            p.anchor as int,
            rep@,
        ),
{
    proof {
        reveal(stretch_priced);
    }
    let litlen: u32 = (ip - p.anchor) as u32;
    let matches = collect(
        ctx,
        p,
        ip,
        rep,
        litlen == 0,
        view,
        ldm,
        next3,
        Ghost(tab.cells@),
    );
    if matches.len() == 0 {
        return None;
    }
    let o0 = tab.get(0);
    tab.put(
        0,
        Optimal {
            mlen: 0,
            litlen,
            price: ctx.stats.ll_price(litlen),
            rep: Recents::from_array(rep),
            off: o0.off,
        },
    );
    let longest = matches[matches.len() - 1];
    if longest.len > ctx.sufficient_len {
        return Some(take(longest, 0));
    }
    let min_match: u32 = ctx.min_match();
    proof {
        assert forall|i: int| 0 <= i < matches@.len() implies (#[trigger] matches@[i]).off >= 1 by {
            assert(fits(matches@[i], ip as int, p.end as int));
        }
    }
    let last_pos: u32 = price_first(ctx, tab, &matches, min_match, litlen);
    Some(price_places(ctx, tab, p, ip, last_pos, view, ldm, next3))
}

/// Settles and prices the places of a stretch up to the last one reached; gives
/// the chain.
#[verifier::rlimit(60)]
fn price_places(
    ctx: &mut OptCtx,
    tab: &mut OptTable,
    p: &Parser,
    ip: usize,
    last: u32,
    view: &OptView,
    ldm: &mut OptLdm,
    next3: &mut u32,
) -> (r: Path)
    requires
        old(ctx).wf(),
        old(tab).wf(),
        p.wf(),
        view.wf(),
        p.start <= ip,
        ip + 8 <= p.end,
        last <= OPT_NUM + 2,
    ensures
        final(ctx).wf(),
        final(ctx).same_params(old(ctx)),
        final(ctx).stats == old(ctx).stats,
        final(tab).wf(),
        final(ldm).seqs == old(ldm).seqs,
        (search_of(final(ctx), *final(next3), final(ldm), final(tab)), r) == places_priced(
            OptScene {
                w: view.place(p.data, p.end),
                seqs: old(ldm).seqs@,
                start: p.start as int,
            },
            search_of(old(ctx), *old(next3), old(ldm), old(tab)),
            ip as int,
            1,
            last,
        ),
{
    let ghost entry = *ctx;
    let ghost v = OptScene {
        w: view.place(p.data, p.end),
        seqs: ldm.seqs@,
        start: p.start as int,
    };
    let ghost whole = places_priced(v, search_of(ctx, *next3, ldm, tab), ip as int, 1, last);
    let end: usize = p.end;
    let ilimit: usize = end - 8;
    let min_match: u32 = ctx.min_match();
    let mut last_pos: u32 = last;
    let mut cur: u32 = 1;
    let mut go: bool = true;
    while go && cur <= last_pos
        invariant
            ctx.wf(),
            ctx.same_params(&entry),
            ctx.stats == entry.stats,
            entry == *old(ctx),
            ldm.seqs == old(ldm).seqs,
            tab.wf(),
            p.wf(),
            view.wf(),
            end == p.end,
            p.start <= ip,
            ip + 8 <= end,
            ilimit == end - 8,
            min_match == ctx@.min_match(),
            1 <= cur <= OPT_NUM + 3,
            last_pos <= OPT_NUM + 2,
            v == (OptScene {
                w: view.place(p.data, p.end),
                seqs: old(ldm).seqs@,
                start: p.start as int,
            }),
            whole == places_priced(
                v,
                search_of(old(ctx), *old(next3), old(ldm), old(tab)),
                ip as int,
                1,
                last,
            ),
            whole == if go {
                places_priced(v, search_of(ctx, *next3, ldm, tab), ip as int, cur, last_pos)
            } else {
                (search_of(ctx, *next3, ldm, tab), path_to(tab.cells@, last_pos))
            },
        decreases
                OPT_NUM + 4 - cur + if go {
                    1int
                } else {
                    0
                },
    {
        proof {
            reveal_with_fuel(places_priced, 1);
        }
        if cur as usize > end - ip {
            go = false;
        } else {
            let inr: usize = ip + cur as usize;
            last_pos = settle(ctx, tab, p, ip, cur, last_pos);
            let here = tab.get(cur);
            let skip: bool = inr > ilimit || (!ctx.stats.ultra && cur != last_pos && tab.get(
                cur + 1,
            ).price <= here.price.wrapping_add(128));
            if inr <= ilimit && cur == last_pos {
                go = false;
            } else if !skip {
                let here_rep = here.rep.to_array();
                let matches = collect(
                    ctx,
                    p,
                    inr,
                    &here_rep,
                    here.litlen == 0,
                    view,
                    ldm,
                    next3,
                    Ghost(tab.cells@),
                );
                let n: usize = matches.len();
                if n > 0 {
                    let far = matches[n - 1];
                    if far.len > ctx.sufficient_len || cur as usize + far.len as usize >= OPT_NUM || inr
                        + far.len as usize >= end {
                        return take(far, cur);
                    }
                    proof {
                        assert forall|i: int| 0 <= i < matches@.len() implies (
                        #[trigger] matches@[i]).off >= 1 by {
                            assert(fits(matches@[i], inr as int, end as int));
                        }
                    }
                    last_pos = price_more(ctx, tab, &matches, min_match, cur, last_pos);
                }
            }
            if go {
                cur = cur + 1;
            }
        }
    }
    proof {
        reveal_with_fuel(places_priced, 1);
    }
    let o = tab.get(last_pos);
    Path { last: o, cur: last_pos.saturating_sub(o.mlen), last_pos }
}

/// The state of a search as it stands.
pub open spec fn search_of(ctx: &OptCtx, next3: u32, ldm: &OptLdm, tab: &OptTable) -> OptSearch {
    OptSearch { state: ctx@, next3, ldm: ldm@, table: tab.cells@ }
}

/// Stores a chain, from the anchor on; gives where to go on.
#[verifier::rlimit(30)]
fn store_path(ctx: &mut OptCtx, tab: &OptTable, p: &mut Parser, rep: &mut [u32; 3], path: &Path) -> (r: usize)
    requires
        old(ctx).wf(),
        tab.wf(),
        old(p).wf(),
        known(old(rep)@, old(p).rep@),
    ensures
        final(ctx).wf(),
        final(ctx).same_params(old(ctx)),
        final(p).wf(),
        final(p).same_block(old(p)),
        final(p).anchor >= old(p).anchor,
        final(p).anchor <= r <= old(p).end,
        known(final(rep)@, final(p).rep@),
        forall|rep0: Seq<u32>|
            old(p).bears(rep0, old(rep)@) ==> #[trigger] final(p).bears(rep0, final(rep)@),
        ({
            let s = chain_stored(
                old(p).data@,
                old(p).end as int,
                tab.cells@,
                *path,
                old(ctx)@.stats,
                old(p).parse(),
                old(rep)@,
            );
            &&& final(ctx)@ == (OptState { stats: s.stats, ..old(ctx)@ })
            &&& final(p).parse() == s.parse
            &&& final(rep)@ == s.rep
            &&& r == s.ip
        }),
{
    proof {
        reveal(chain_stored);
    }
    let ghost entry = *ctx;
    let ghost block = *p;
    let ghost rep_in = rep@;
    let parts = list_parts(tab, path.cur.saturating_sub(path.last.litlen), path.last);
    let mut ip: usize = p.anchor;
    let mut k: usize = parts.len();
    let mut fine: bool = true;
    let ghost whole = parts_stored(
        p.data@,
        p.end as int,
        parts@,
        k as nat,
        OptStored { stats: ctx@.stats, parse: p.parse(), rep: rep@, ip: ip as int },
    );
    while k > 0 && fine
        invariant
            ctx@ == (OptState { stats: ctx@.stats, ..entry@ }),
            whole == if fine {
                parts_stored(
                    p.data@,
                    p.end as int,
                    parts@,
                    k as nat,
                    OptStored { stats: ctx@.stats, parse: p.parse(), rep: rep@, ip: ip as int },
                )
            } else {
                OptStored { stats: ctx@.stats, parse: p.parse(), rep: rep@, ip: ip as int }
            },
            ctx.wf(),
            ctx.same_params(&entry),
            p.wf(),
            p.same_block(&block),
            p.anchor >= block.anchor,
            p.anchor <= ip <= p.end,
            known(rep@, p.rep@),
            forall|rep0: Seq<u32>|
                block.bears(rep0, rep_in) ==> #[trigger] p.bears(rep0, rep@),
            k <= parts@.len(),
        decreases k,
    {
        proof {
            reveal_with_fuel(parts_stored, 1);
        }
        k = k - 1;
        let o = parts[k];
        let from: usize = p.anchor;
        let end: usize = p.end;
        fine = false;
        if o.litlen as usize <= end - from {
            let start: usize = from + o.litlen as usize;
            if o.mlen == 0 {
                ip = start;
                fine = true;
            } else if o.off >= 1 {
                let data = p.data;
                if p.emit_checked(start, o.off, o.mlen as usize, rep) {
                    ctx.stats.update_stats(data, from, start, o.off, o.mlen);
                    fine = true;
                }
                ip = p.anchor;
            }
        }
    }
    proof {
        reveal_with_fuel(parts_stored, 1);
    }
    ctx.stats.set_base_prices();
    ip
}

/// The parts of the chain that leads to `last`, which starts at place `from`,
/// the last one first. Each takes the number of its literals from the part
/// before.
fn list_parts(tab: &OptTable, from: u32, last: Optimal) -> (r: Vec<Optimal>)
    requires
        tab.wf(),
    ensures
        r@ == chain_parts(tab.cells@, from, last),
{
    let ghost whole = chain_parts(tab.cells@, from, last);
    let mut at: u32 = from;
    let mut parts: Vec<Optimal> = Vec::new();
    let mut part = last;
    let mut go: bool = true;
    while go
        invariant
            tab.wf(),
            whole == if go {
                parts@ + chain_parts(tab.cells@, at, part)
            } else {
                parts@
            },
        decreases
                at + if go {
                    1int
                } else {
                    0
                },
    {
        proof {
            reveal_with_fuel(chain_parts, 1);
        }
        let ghost had = parts@;
        let before = tab.get(at);
        part = Optimal { litlen: before.litlen, ..part };
        parts.push(part);
        assert(parts@ =~= had + seq![part]);
        let size: u32 = before.litlen.saturating_add(before.mlen);
        if before.mlen == 0 || size > at {
            go = false;
        } else {
            part = before;
            at = at - size;
            assert(parts@ + chain_parts(tab.cells@, at, part) =~= had + (seq![parts@.last()]
                + chain_parts(tab.cells@, at, part)));
        }
    }
    parts
}

/// Parses a block with the given view of the history.
#[verifier::rlimit(30)]
fn compress_block_opt_generic(
    ctx: &mut OptCtx,
    p: &mut Parser,
    rep: &mut [u32; 3],
    view: &OptView,
    ldm_seqs: &Vec<RawSeq>,
    ldm_cursor: LdmCursor,
    symbol_costs: &FseEntropyState,
)
    requires
        old(ctx).wf(),
        old(p).wf(),
        view.wf(),
        symbol_costs.wf(),
        known(old(rep)@, old(p).rep@),
    ensures
        final(ctx).wf(),
        final(ctx).same_params(old(ctx)),
        final(p).wf(),
        final(p).same_block(old(p)),
        known(final(rep)@, final(p).rep@),
        forall|rep0: Seq<u32>|
            old(p).bears(rep0, old(rep)@) ==> #[trigger] final(p).bears(rep0, final(rep)@),
        (OptOutcome { state: final(ctx)@, parse: final(p).parse(), rep: final(rep)@ }) == opt_pass(
            OptScene {
                w: view.place(old(p).data, old(p).end),
                seqs: ldm_seqs@,
                start: old(p).start as int,
            },
            old(ctx)@,
            old(p).parse(),
            old(rep)@,
            ldm_cursor,
            symbol_costs@,
        ),
{
    proof {
        reveal(opt_pass);
    }
    let ghost entry = *ctx;
    let ghost block = *p;
    let ghost rep_in = rep@;
    let mut tab = OptTable::new();
    let start: usize = p.start;
    let end: usize = p.end;
    let mut next3: u32 = ctx.next_to_update;
    let mut ldm = OptLdm::new(ldm_seqs, ldm_cursor, (end - start) as u32);
    rescale_freqs(&mut ctx.stats, p.data, start, end, symbol_costs);
    if end - start < 8 {
        return ;
    }
    let ilimit: usize = end - 8;
    let mut ip: usize = if start == to_pos(view.dict_limit, view.bias) {
        start + 1
    } else {
        start
    };
    if p.anchor > ip {
        ip = p.anchor;
    }
    let ghost v = OptScene {
        w: view.place(p.data, p.end),
        seqs: ldm_seqs@,
        start: p.start as int,
    };
    let ghost whole = stretches_parsed(
        v,
        OptProgress {
            search: search_of(ctx, next3, &ldm, &tab),
            parse: p.parse(),
            rep: rep@,
        },
        ip as int,
        ilimit as int,
    );
    while ip < ilimit
        invariant
            ldm.seqs == ldm_seqs,
            v == (OptScene {
                w: view.place(p.data, p.end),
                seqs: ldm_seqs@,
                start: p.start as int,
            }),
            whole == stretches_parsed(
                v,
                OptProgress {
                    search: search_of(ctx, next3, &ldm, &tab),
                    parse: p.parse(),
                    rep: rep@,
                },
                ip as int,
                ilimit as int,
            ),
            ctx.wf(),
            ctx.same_params(&entry),
            tab.wf(),
            p.wf(),
            p.same_block(&block),
            view.wf(),
            p.anchor <= ip <= end,
            end == p.end,
            ilimit + 8 == end,
            known(rep@, p.rep@),
            forall|rep0: Seq<u32>|
                block.bears(rep0, rep_in) ==> #[trigger] p.bears(rep0, rep@),
        decreases end - ip,
    {
        proof {
            reveal_with_fuel(stretches_parsed, 1);
            reveal(stretch_parsed);
        }
        let mut next: usize = ip + 1;
        match forward_pass(ctx, &mut tab, p, ip, rep, view, &mut ldm, &mut next3) {
            None => {},
            Some(path) => {
                if path.last.mlen == 0 {
                    if path.last_pos >= 1 && path.last_pos as usize <= end - ip {
                        next = ip + path.last_pos as usize;
                    }
                } else {
                    let to: usize = store_path(ctx, &tab, p, rep, &path);
                    if to > next {
                        next = to;
                    }
                }
            },
        }
        ip = next;
    }
    proof {
        reveal_with_fuel(stretches_parsed, 1);
    }
}

/// An attached dictionary, and the length of its content.
pub open spec fn opt_dict(dms: Option<&OptDms>) -> Option<(OptState, int)> {
    match dms {
        Some(d) => Some((d.ms@, d.content_len as int)),
        None => None,
    }
}

/// Parses a block. Before the first block of a frame, the strongest strategy
/// makes one pass only for its statistics, and then forgets the matches.
#[verifier::rlimit(30)]
pub fn compress_block_opt(
    ctx: &mut OptCtx,
    p: &mut Parser,
    rep: &mut [u32; 3],
    win: &mut Layout,
    ext_dict: bool,
    ldm_seqs: &Vec<RawSeq>,
    ldm_cursor: LdmCursor,
    symbol_costs: &FseEntropyState,
    dms: Option<&OptDms>,
)
    requires
        old(ctx).wf(),
        old(p).wf(),
        old(p).anchor == old(p).start,
        symbol_costs.wf(),
        dms matches Some(d) ==> d.ms.wf(),
        known(old(rep)@, old(p).rep@),
    ensures
        final(ctx).wf(),
        final(ctx).same_params(old(ctx)),
        final(p).wf(),
        final(p).same_block(old(p)),
        known(final(rep)@, final(p).rep@),
        final(p).bears(old(rep)@, final(rep)@),
        (
            OptOutcome { state: final(ctx)@, parse: final(p).parse(), rep: final(rep)@ },
            *final(win),
        ) == opt_block_outcome(
            old(p).data@,
            ldm_seqs@,
            old(p).start as int,
            old(p).end as int,
            old(ctx)@,
            old(rep)@,
            *old(win),
            ext_dict,
            opt_dict(dms),
            ldm_cursor,
            symbol_costs@,
        ),
{
    proof {
        reveal(opt_block_outcome);
        lemma_nothing_parsed(p);
        reveal(borne_out);
        assert(p.bears(rep@, rep@));
    }
    let start: usize = p.start;
    let end: usize = p.end;
    let first: bool = !ext_dict && dms.is_none() && ctx.is_ultra2 && ctx.stats.ll_sum == 0
        && win.dict_limit == win.low_limit && to_index(start, win.bias) == win.dict_limit && end
        - start > PREDEF_THRESHOLD;
    if first {
        let view = OptView {
            bias: win.bias,
            dict_limit: win.dict_limit,
            low_limit: win.low_limit,
            ext_dict: false,
            dms: None,
        };
        let mut trial = Parser::new(p.data, start, end, Ghost(p.rep@));
        let mut trial_rep: [u32; 3] = *rep;
        compress_block_opt_generic(
            ctx,
            &mut trial,
            &mut trial_rep,
            &view,
            ldm_seqs,
            ldm_cursor,
            symbol_costs,
        );
        win.slide_for_init_stats(end - start);
        ctx.next_to_update = win.dict_limit;
    }
    let view = OptView {
        bias: win.bias,
        dict_limit: win.dict_limit,
        low_limit: win.low_limit,
        ext_dict,
        dms,
    };
    compress_block_opt_generic(ctx, p, rep, &view, ldm_seqs, ldm_cursor, symbol_costs);
}

} // verus!
