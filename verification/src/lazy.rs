//! The greedy and lazy match finders: a match is taken only when the next
//! positions do not offer a better one.

use crate::bits::highbit32;
use crate::fast::{lemma_nothing_parsed, lowest_index, whole};
use crate::layout::Layout;
use crate::lazy_model::{chains_at, rows_at, LazyState};
use crate::lazy_parse_model::{
    best_at, first_solution, improved, lazily_parsed, lazy_block_outcome, lazy_block_parsed, lazy_dict_block_outcome,
    lazy_ext_block_outcome, lazy_repeated, refined, repeat_len, solution_stored, worth, BestView, LazyOutcome,
    LazyProgress, LazyScene,
};
use crate::lazy_search::{
    found_ok, hc_find_best_match, insert_and_find_first_index, place_of, row_find_best_match, AttachedDict, Found,
    LazyCtx, SearchMethod,
};
use crate::lazy_tree::{bt_find_best_match, update_tree_nodict};
use crate::lazy_tree_model::all_sorted;
use crate::parser::{
    count_eq, eq4, eq_run, extend_back, index_of, lemma_join_runs, to_index, to_pos, Parser, HASH_READ_SIZE,
};
use crate::recent::{in_sync, Recent};
use crate::window::WINDOW_START_INDEX;
use vstd::prelude::*;

verus! {

/// The state once the dictionary `data[.. dict_len]` has been entered, all but
/// its last positions.
pub open spec fn loaded_state(s: LazyState, data: Seq<u8>, dict_len: int) -> LazyState {
    let bias = WINDOW_START_INDEX;
    let last = index_of((dict_len - 8) as nat, bias);
    let s1 = match s.method {
        SearchMethod::RowHash => rows_at(s, data, last, false, bias),
        SearchMethod::HashChain => chains_at(s, data, dict_len - 8, bias),
        SearchMethod::BinaryTree => all_sorted(s, data, s.next, last, dict_len, bias, bias),
    };
    LazyState { next: index_of(dict_len as nat, bias), ..s1 }
}

impl LazyCtx {
    /// Enters the dictionary `data[.. dict_len]`, all but its last positions.
    pub fn load_dictionary(&mut self, data: &[u8], dict_len: usize)
        requires
            old(self).wf(),
            8 < dict_len <= data@.len() <= u32::MAX,
        ensures
            final(self).wf(),
            final(self).same_params(old(self)),
            final(self)@ == loaded_state(old(self)@, data@, dict_len as int),
    {
        let bias: u32 = WINDOW_START_INDEX;
        let last: usize = dict_len - HASH_READ_SIZE;
        match self.method {
            SearchMethod::RowHash => {
                self.row_update_internal(data, to_index(last, bias), false, bias);
            },
            SearchMethod::HashChain => {
                let _head: u32 = insert_and_find_first_index(self, data, last, bias);
            },
            SearchMethod::BinaryTree => {
                update_tree_nodict(self, data, to_index(last, bias), dict_len, bias, bias);
            },
        }
        self.next_to_update = to_index(dict_len, bias);
    }
}

/// Where matches may have their source, for one block.
pub struct LazyView<'a> {
    pub win: &'a Layout,
    /// The history has an older segment, before `seam`, that is searched with
    /// the window.
    pub ext_dict: bool,
    /// Where the newer segment starts, if there are two; else zero.
    pub seam: usize,
    /// How far a source may be extended back in the older and in the newer
    /// segment.
    pub older_low: usize,
    pub newer_low: usize,
    pub dict: Option<&'a AttachedDict<'a>>,
}

impl<'a> LazyView<'a> {
    pub open spec fn wf(&self) -> bool {
        self.dict matches Some(d) ==> d.ms.wf()
    }

    pub open spec fn scene(&self, data: &[u8], end: usize) -> LazyScene {
        LazyScene {
            w: place_of(data, end, self.win, self.ext_dict, self.dict),
            seam: self.seam as int,
            older_low: self.older_low as int,
            newer_low: self.newer_low as int,
        }
    }

    /// The length of the match at `ip` with the offset `offset`, or zero.
    fn repeat_at(&self, data: &[u8], ip: usize, end: usize, offset: u32, window_log: u32) -> (r: usize)
        requires
            ip + 4 <= end <= data@.len() <= u32::MAX,
            window_log <= 31,
        ensures
            r == 0 || r >= 4,
            r >= 4 ==> 1 <= offset <= ip && ip + r <= end && eq_run(
                data@,
                ip as int,
                offset as int,
                r as int,
            ),
            r == repeat_len(self.scene(data, end), ip as int, offset, window_log),
    {
        proof {
            reveal(repeat_len);
        }
        if offset == 0 || offset as usize > ip {
            return 0;
        }
        let r: usize = ip - offset as usize;
        if !whole(r, self.seam) {
            return 0;
        }
        if self.ext_dict {
            let curr: u32 = to_index(ip, self.win.bias);
            let low: u32 = lowest_index(curr, self.win.low_limit, window_log);
            if offset > curr.wrapping_sub(low) {
                return 0;
            }
        }
        if !eq4(data, ip, r) {
            return 0;
        }
        let rest: usize = count_eq(data, ip + 4, r + 4, end);
        proof {
            lemma_join_runs(data@, ip as int, offset as int, 4, rest as int);
        }
        rest + 4
    }
}

/// The best match at `ip`, by the method in use.
fn search_max(ctx: &mut LazyCtx, data: &[u8], ip: usize, end: usize, view: &LazyView) -> (r: Found)
    requires
        old(ctx).wf(),
        view.wf(),
        ip + 8 <= end <= data@.len() <= u32::MAX,
    ensures
        final(ctx).wf(),
        final(ctx).same_params(old(ctx)),
        found_ok(r, data@, ip as int, end as int),
        (final(ctx)@, r@) == best_at(view.scene(data, end).w, old(ctx)@, ip as int),
{
    match ctx.method {
        SearchMethod::HashChain => hc_find_best_match(
            ctx,
            data,
            ip,
            end,
            view.win,
            view.ext_dict,
            view.dict,
        ),
        SearchMethod::RowHash => row_find_best_match(
            ctx,
            data,
            ip,
            end,
            view.win,
            view.ext_dict,
            view.dict,
        ),
        SearchMethod::BinaryTree => bt_find_best_match(
            ctx,
            data,
            ip,
            end,
            view.win,
            view.dict,
        ),
    }
}

/// The best solution so far. The offset value 1 stands for the newest offset.
#[derive(Clone, Copy)]
pub struct Best {
    pub start: usize,
    pub len: usize,
    pub off_base: u32,
}

impl Best {
    pub open spec fn view(&self) -> BestView {
        BestView { start: self.start as int, len: self.len as nat, off_base: self.off_base as nat }
    }
}

/// A solution of at least four bytes is a run of equal bytes.
pub open spec fn best_ok(b: Best, p: &Parser, from: int, first: u32) -> bool {
    &&& b.off_base >= 1
    &&& from <= b.start
    &&& b.len <= p.end
    &&& b.len >= 4 ==> {
        &&& b.start + b.len <= p.end
        &&& b.off_base == 1 || b.off_base > 3
        &&& b.off_base == 1 ==> from < b.start && 1 <= first <= b.start && eq_run(
            p.data@,
            b.start as int,
            first as int,
            b.len as int,
        )
        &&& b.off_base > 3 ==> b.off_base - 3 <= b.start && eq_run(
            p.data@,
            b.start as int,
            b.off_base - 3,
            b.len as int,
        )
    }
}

/// A length weighed against the cost of its offset.
fn gain(len: usize, weight: i64, off_base: u32) -> (r: i64)
    requires
        off_base >= 1,
        len <= u32::MAX,
        0 <= weight <= 4,
    ensures
        r == worth(len as nat, weight as int, off_base as nat),
        -31 <= r <= 0x4_0000_0000,
{
    proof {
        reveal(worth);
        assert(0 <= len * weight <= 4 * u32::MAX) by (nonlinear_arith)
            requires
                0 <= len <= u32::MAX,
                0 <= weight <= 4,
        ;
    }
    len as i64 * weight - highbit32(off_base) as i64
}

/// Looks at `ip` for something better than `best`: with the newest offset, and
/// by a search. The second result says whether the search found it.
fn improve(
    ctx: &mut LazyCtx,
    p: &Parser,
    ip: usize,
    best: Best,
    first: u32,
    view: &LazyView,
    weight: i64,
    margin: i64,
    Ghost(from): Ghost<int>,
) -> (r: (Best, bool))
    requires
        old(ctx).wf(),
        view.wf(),
        p.wf(),
        p.start <= from < ip,
        ip + 8 <= p.end,
        best_ok(best, p, from, first),
        best.len >= 4,
        3 <= weight <= 4,
        0 <= margin <= 7,
    ensures
        final(ctx).wf(),
        final(ctx).same_params(old(ctx)),
        best_ok(r.0, p, from, first),
        r.0.len >= 4,
        (final(ctx)@, r.0@, r.1) == improved(
            view.scene(p.data, p.end),
            old(ctx)@,
            ip as int,
            best@,
            first,
            weight as int,
            margin as int,
        ),
{
    proof {
        reveal(improved);
    }
    let mut b = best;
    let rep: usize = view.repeat_at(p.data, ip, p.end, first, ctx.window_log);
    if rep >= 4 && gain(rep, weight, 1) > gain(b.len, weight, b.off_base) + 1 {
        b = Best { start: ip, len: rep, off_base: 1 };
    }
    let f: Found = search_max(ctx, p.data, ip, p.end, view);
    if f.len >= 4 && gain(f.len, 4, f.off_base) > gain(b.len, 4, b.off_base) + margin {
        return (Best { start: ip, len: f.len, off_base: f.off_base }, true);
    }
    (b, false)
}

/// Stores a solution, extended backward, and then any matches that follow at
/// once with the second newest offset.
fn lazy_store(
    ctx: &mut LazyCtx,
    p: &mut Parser,
    recent: &mut Recent,
    best: Best,
    view: &LazyView,
    ilimit: usize,
    Ghost(from): Ghost<int>,
)
    requires
        old(ctx).wf(),
        old(p).wf(),
        view.wf(),
        old(p).anchor <= from,
        old(recent).tracks(old(p).rep@),
        best_ok(best, old(p), from, old(recent).first),
        best.len >= 4,
        ilimit + 8 <= old(p).end,
    ensures
        final(ctx).wf(),
        final(ctx).same_params(old(ctx)),
        final(p).wf(),
        final(p).same_block(old(p)),
        final(p).anchor >= from + 4,
        final(recent).tracks(final(p).rep@),
        (LazyProgress {
            state: final(ctx)@,
            parse: final(p).parse(),
            recent: *final(recent),
        }) == solution_stored(
            view.scene(old(p).data, old(p).end),
            LazyProgress { state: old(ctx)@, parse: old(p).parse(), recent: *old(recent) },
            best@,
            ilimit as int,
        ),
{
    proof {
        reveal(solution_stored);
    }
    let data = p.data;
    let end: usize = p.end;
    if best.off_base > 3 {
        let offset: u32 = best.off_base - 3;
        let m: usize = best.start - offset as usize;
        let low: usize = if m < view.seam {
            view.older_low
        } else {
            view.newer_low
        };
        let back: usize = extend_back(data, best.start, m, p.anchor, low);
        proof {
            lemma_join_runs(
                data@,
                best.start - back,
                offset as int,
                back as int,
                best.len as int,
            );
        }
        p.emit_match(best.start - back, offset, back + best.len);
        recent.push(offset);
    } else {
        p.emit_rep0(best.start, best.len);
    }
    if ctx.lazy_skipping {
        if ctx.method == SearchMethod::RowHash {
            let next: u32 = ctx.next_to_update;
            let limit: i64 = row_limit(end, view.win.bias);
            ctx.row_fill_hash_cache(data, next, limit, view.win.bias);
        }
        ctx.lazy_skipping = false;
    }
    lazy_repeats(ctx, p, recent, view, ilimit);
}

/// The index up to which hashes are kept ready.
fn row_limit(end: usize, bias: u32) -> (r: i64)
    requires
        end <= u32::MAX,
    ensures
        r == index_of(end as nat, bias) - 16,
{
    to_index(end, bias) as i64 - 16
}

/// Stores the matches at the anchor with the second newest offset.
fn lazy_repeats(ctx: &LazyCtx, p: &mut Parser, recent: &mut Recent, view: &LazyView, ilimit: usize)
    requires
        ctx.wf(),
        old(p).wf(),
        old(recent).tracks(old(p).rep@),
        ilimit + 8 <= old(p).end,
    ensures
        final(p).wf(),
        final(p).same_block(old(p)),
        final(p).anchor >= old(p).anchor,
        final(recent).tracks(final(p).rep@),
        (final(p).parse(), *final(recent)) == lazy_repeated(
            view.scene(old(p).data, old(p).end),
            old(p).parse(),
            *old(recent),
            ctx.window_log,
            ilimit as int,
        ),
{
    let ghost block = *p;
    let ghost v = view.scene(p.data, p.end);
    let ghost whole = lazy_repeated(v, p.parse(), *recent, ctx.window_log, ilimit as int);
    let data = p.data;
    let end: usize = p.end;
    let mut more: bool = true;
    while more
        invariant
            ctx.wf(),
            p.wf(),
            p.same_block(&block),
            p.anchor >= block.anchor,
            recent.tracks(p.rep@),
            data@ == p.data@,
            end == p.end,
            ilimit + 8 <= end,
            v == view.scene(data, end),
            whole == if more {
                lazy_repeated(v, p.parse(), *recent, ctx.window_log, ilimit as int)
            } else {
                (p.parse(), *recent)
            },
        decreases
                (end - p.anchor) + if more {
                    1int
                } else {
                    0
                },
    {
        proof {
            reveal_with_fuel(lazy_repeated, 1);
        }
        let ip: usize = p.anchor;
        more = false;
        if ip <= ilimit {
            let len: usize = view.repeat_at(data, ip, end, recent.second, ctx.window_log);
            if len >= 4 {
                p.emit_rep1(len);
                recent.swap();
                more = true;
            }
        }
    }
}

/// Parses the block from `at` on.
#[verifier::rlimit(60)]
fn lazy_loop(ctx: &mut LazyCtx, p: &mut Parser, recent: &mut Recent, view: &LazyView, at: usize)
    requires
        old(ctx).wf(),
        old(p).wf(),
        view.wf(),
        old(p).anchor <= at,
        old(p).anchor == old(p).start,
        old(recent).tracks(old(p).rep@),
    ensures
        final(ctx).wf(),
        final(ctx).same_params(old(ctx)),
        final(p).wf(),
        final(p).same_block(old(p)),
        final(recent).tracks(final(p).rep@),
        (LazyProgress {
            state: final(ctx)@,
            parse: final(p).parse(),
            recent: *final(recent),
        }) == lazy_block_parsed(
            view.scene(old(p).data, old(p).end),
            LazyProgress { state: old(ctx)@, parse: old(p).parse(), recent: *old(recent) },
            at as int,
        ),
{
    proof {
        reveal(lazy_block_parsed);
    }
    let ghost v = view.scene(p.data, p.end);
    let ghost entry = *ctx;
    let ghost block = *p;
    let data = p.data;
    let end: usize = p.end;
    let depth: u32 = ctx.depth;
    let margin: usize = if ctx.method == SearchMethod::RowHash {
        16
    } else {
        8
    };
    ctx.lazy_skipping = false;
    if ctx.method == SearchMethod::RowHash {
        let next: u32 = ctx.next_to_update;
        let limit: i64 = row_limit(end, view.win.bias);
        ctx.row_fill_hash_cache(data, next, limit, view.win.bias);
    }
    if end < margin {
        return ;
    }
    let ilimit: usize = end - margin;
    let mut ip: usize = at;
    let ghost result = lazily_parsed(
        v,
        LazyProgress { state: ctx@, parse: p.parse(), recent: *recent },
        ip as int,
        ilimit as int,
    );
    let ghost expected = lazy_block_parsed(
        v,
        LazyProgress { state: entry@, parse: block.parse(), recent: *old(recent) },
        at as int,
    );
    while ip < ilimit
        invariant
            ctx.wf(),
            ctx.same_params(&entry),
            entry == *old(ctx),
            p.wf(),
            p.same_block(&block),
            block == *old(p),
            view.wf(),
            data@ == p.data@,
            end == p.end,
            ilimit + 8 <= end,
            p.start <= p.anchor <= ip,
            recent.tracks(p.rep@),
            depth == ctx.depth,
            v == view.scene(data, end),
            v == view.scene(old(p).data, old(p).end),
            expected == lazy_block_parsed(
                v,
                LazyProgress { state: old(ctx)@, parse: old(p).parse(), recent: *old(recent) },
                at as int,
            ),
            expected == result,
            result == lazily_parsed(
                v,
                LazyProgress { state: ctx@, parse: p.parse(), recent: *recent },
                ip as int,
                ilimit as int,
            ),
        decreases end - ip,
    {
        proof {
            reveal_with_fuel(lazily_parsed, 1);
        }
        let first: u32 = recent.first;
        let ghost from = ip as int;
        let (first_best, searched) = start_solution(ctx, p, ip, first, view);
        let mut best = first_best;
        if best.len < 4 {
            let step: usize = (ip - p.anchor) / 256;
            let skipping: usize = if view.ext_dict {
                step
            } else {
                step + 1
            };
            ctx.lazy_skipping = skipping > 8;
            if step >= ilimit - ip {
                return ;
            }
            ip = ip + step + 1;
        } else {
            if searched && depth >= 1 {
                best = refine(ctx, p, ip, best, first, view, ilimit, depth, Ghost(from));
            }
            lazy_store(ctx, p, recent, best, view, ilimit, Ghost(from));
            ip = p.anchor;
        }
    }
    proof {
        reveal_with_fuel(lazily_parsed, 1);
    }
}

/// The first solution at `ip`. The second result says whether there was a
/// search.
fn start_solution(ctx: &mut LazyCtx, p: &Parser, ip: usize, first: u32, view: &LazyView) -> (r: (Best, bool))
    requires
        old(ctx).wf(),
        view.wf(),
        p.wf(),
        ip + 8 < p.end,
    ensures
        final(ctx).wf(),
        final(ctx).same_params(old(ctx)),
        best_ok(r.0, p, ip as int, first),
        (final(ctx)@, r.0@, r.1) == first_solution(
            view.scene(p.data, p.end),
            old(ctx)@,
            first,
            ip as int,
        ),
{
    proof {
        reveal(first_solution);
    }
    let rep: usize = view.repeat_at(p.data, ip + 1, p.end, first, ctx.window_log);
    let best = Best { start: ip + 1, len: rep, off_base: 1 };
    if ctx.depth == 0 && rep >= 4 {
        return (best, false);
    }
    let f: Found = search_max(ctx, p.data, ip, p.end, view);
    if f.len > rep && f.len >= 4 {
        (Best { start: ip, len: f.len, off_base: f.off_base }, true)
    } else {
        (best, true)
    }
}

/// Looks at the positions after `at` for as long as they offer something
/// better.
#[verifier::rlimit(30)]
fn refine(
    ctx: &mut LazyCtx,
    p: &Parser,
    at: usize,
    best: Best,
    first: u32,
    view: &LazyView,
    ilimit: usize,
    depth: u32,
    Ghost(from): Ghost<int>,
) -> (r: Best)
    requires
        old(ctx).wf(),
        view.wf(),
        p.wf(),
        depth == old(ctx).depth,
        from == at,
        p.start <= at,
        best_ok(best, p, from, first),
        best.len >= 4,
        ilimit + 8 <= p.end,
    ensures
        final(ctx).wf(),
        final(ctx).same_params(old(ctx)),
        best_ok(r, p, from, first),
        r.len >= 4,
        (final(ctx)@, r@) == refined(
            view.scene(p.data, p.end),
            old(ctx)@,
            at as int,
            best@,
            first,
            ilimit as int,
        ),
{
    let ghost v = view.scene(p.data, p.end);
    let ghost whole = refined(v, ctx@, at as int, best@, first, ilimit as int);
    let mut b = best;
    let mut ip: usize = at;
    let mut go: bool = true;
    while go && ip < ilimit
        invariant
            ctx.wf(),
            ctx.same_params(old(ctx)),
            view.wf(),
            p.wf(),
            p.start <= from <= ip,
            best_ok(b, p, from, first),
            b.len >= 4,
            ilimit + 8 <= p.end,
            v == view.scene(p.data, p.end),
            depth == old(ctx).depth,
            whole == if go {
                refined(v, ctx@, ip as int, b@, first, ilimit as int)
            } else {
                (ctx@, b@)
            },
        decreases p.end - ip,
    {
        proof {
            reveal_with_fuel(refined, 1);
        }
        ip = ip + 1;
        let (b1, found1) = improve(ctx, p, ip, b, first, view, 3, 4, Ghost(from));
        b = b1;
        go = found1;
        if !found1 && depth == 2 && ip < ilimit {
            ip = ip + 1;
            let (b2, found2) = improve(ctx, p, ip, b, first, view, 4, 7, Ghost(from));
            b = b2;
            go = found2;
        }
    }
    proof {
        reveal_with_fuel(refined, 1);
    }
    b
}

/// Parses a block with its history in one segment.
pub fn compress_block_lazy(ctx: &mut LazyCtx, p: &mut Parser, rep: &mut [u32; 3], win: &Layout)
    requires
        old(ctx).wf(),
        old(p).wf(),
        old(p).anchor == old(p).start,
        in_sync(old(rep)@, old(p).rep@),
    ensures
        final(ctx).wf(),
        final(ctx).same_params(old(ctx)),
        final(p).wf(),
        final(p).same_block(old(p)),
        in_sync(final(rep)@, final(p).rep@),
        (LazyOutcome { state: final(ctx)@, parse: final(p).parse(), rep: final(rep)@ }) == lazy_block_outcome(
            old(ctx)@,
            old(p).data@,
            old(p).start as int,
            old(p).end as int,
            old(rep)@,
            *win,
        ),
{
    proof {
        lemma_nothing_parsed(p);
    }
    let bias: u32 = win.bias;
    let low: usize = to_pos(win.dict_limit, bias);
    if p.start >= p.end {
        return ;
    }
    let at: usize = if p.start == low {
        p.start + 1
    } else {
        p.start
    };
    let curr: u32 = to_index(at, bias);
    let window_low: u32 = lowest_index(curr, win.dict_limit, ctx.window_log);
    let mut recent = Recent::start(rep, curr.wrapping_sub(window_low) as usize, false);
    let view = LazyView {
        win,
        ext_dict: false,
        seam: 0,
        older_low: low,
        newer_low: low,
        dict: None,
    };
    lazy_loop(ctx, p, &mut recent, &view, at);
    recent.finish(rep);
}

/// Parses a block with an attached dictionary, whose content stands at the
/// start of the data.
pub fn compress_block_lazy_dict_match_state(
    ctx: &mut LazyCtx,
    p: &mut Parser,
    rep: &mut [u32; 3],
    win: &Layout,
    dms: &LazyCtx,
    content_len: usize,
)
    requires
        old(ctx).wf(),
        old(p).wf(),
        old(p).anchor == old(p).start,
        in_sync(old(rep)@, old(p).rep@),
        dms.wf(),
    ensures
        final(ctx).wf(),
        final(ctx).same_params(old(ctx)),
        final(p).wf(),
        final(p).same_block(old(p)),
        in_sync(final(rep)@, final(p).rep@),
        (LazyOutcome { state: final(ctx)@, parse: final(p).parse(), rep: final(rep)@ }) == lazy_dict_block_outcome(
            old(ctx)@,
            old(p).data@,
            old(p).start as int,
            old(p).end as int,
            old(rep)@,
            *win,
            dms@,
            content_len as int,
        ),
{
    proof {
        lemma_nothing_parsed(p);
    }
    let attached = AttachedDict { ms: dms, content_len };
    let mut recent = Recent::all(rep);
    let view = LazyView {
        win,
        ext_dict: false,
        seam: content_len,
        older_low: 0,
        newer_low: content_len,
        dict: Some(&attached),
    };
    let at: usize = if p.start == 0 {
        1
    } else {
        p.start
    };
    lazy_loop(ctx, p, &mut recent, &view, at);
    recent.finish(rep);
}

/// Parses a block whose history is in two segments, laid out one after the
/// other.
pub fn compress_block_lazy_extdict(ctx: &mut LazyCtx, p: &mut Parser, rep: &mut [u32; 3], win: &Layout)
    requires
        old(ctx).wf(),
        old(p).wf(),
        old(p).anchor == old(p).start,
        in_sync(old(rep)@, old(p).rep@),
    ensures
        final(ctx).wf(),
        final(ctx).same_params(old(ctx)),
        final(p).wf(),
        final(p).same_block(old(p)),
        in_sync(final(rep)@, final(p).rep@),
        (LazyOutcome { state: final(ctx)@, parse: final(p).parse(), rep: final(rep)@ }) == lazy_ext_block_outcome(
            old(ctx)@,
            old(p).data@,
            old(p).start as int,
            old(p).end as int,
            old(rep)@,
            *win,
        ),
{
    proof {
        lemma_nothing_parsed(p);
    }
    let bias: u32 = win.bias;
    let seam: usize = to_pos(win.dict_limit, bias);
    if p.start >= p.end {
        return ;
    }
    let mut recent = Recent::all(rep);
    let view = LazyView {
        win,
        ext_dict: true,
        seam,
        older_low: to_pos(win.low_limit, win.bias),
        newer_low: seam,
        dict: None,
    };
    let at: usize = if p.start == seam {
        p.start + 1
    } else {
        p.start
    };
    lazy_loop(ctx, p, &mut recent, &view, at);
    recent.finish(rep);
}

} // verus!
