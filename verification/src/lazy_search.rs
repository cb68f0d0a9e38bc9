//! Searching for the best match at a position: hash chains and tagged rows.

use crate::cparams::{CParams, Strategy};
use crate::fast::lowest_index;
use crate::layout::Layout;
use crate::lazy_model::{
    better_of, cache_filled, chain_best, chain_head, chain_walked, chained, chains_at, chains_entered,
    dict_chain_best, dict_chain_walked, dict_picks_best, dict_row_best, fresh_lazy, nothing_found, picks_best,
    reduced_state, row_best, row_next, row_picks, rows_at, rows_entered, source_len, spec_bitmix, spec_salted_hash,
    spec_use_rows, FoundView, LazyPlace, LazyState,
};
use crate::math::{load4, load8, low_bits, pow2_u64};
use crate::parser::{
    count_eq, eq4, eq_run, hash_ptr, lemma_join_runs, new_table, to_index, to_pos, top_bits32, top_bits64,
};
use crate::window::{reduce_table, WINDOW_START_INDEX};
use crate::xxhash::rotl;
use vstd::arithmetic::power2::{lemma2_to64, lemma_pow2_adds, lemma_pow2_pos, lemma_pow2_strictly_increases, pow2};
use vstd::prelude::*;

verus! {

/// How matches are searched for.
#[derive(Clone, Copy, PartialEq, Eq, Structural)]
pub enum SearchMethod {
    HashChain,
    RowHash,
    BinaryTree,
}

/// Hashes of the next positions that are kept ready.
pub const ROW_HASH_CACHE_SIZE: usize = 8;

/// What a search that has found nothing yet holds in place of an offset.
pub const NO_OFFSET: u32 = 999_999_999;

/// Whether rows are used: for the middle strategies, once the window is large.
pub fn use_row_match_finder(cparams: &CParams) -> (r: bool)
    ensures
        r == spec_use_rows(*cparams),
{
    cparams.window_log > 14 && match cparams.strategy {
        Strategy::Greedy | Strategy::Lazy | Strategy::Lazy2 => true,
        _ => false,
    }
}

/// Mixes `val` and `len`.
fn bitmix(val: u64, len: u64) -> (r: u64)
    ensures
        r == spec_bitmix(val, len),
{
    let a: u64 = val ^ rotl(val, 15) ^ rotl(val, 40);
    let b: u64 = a.wrapping_mul(0x9FB2_1C65_1E98_DF25);
    let c: u64 = b ^ (b / 0x8_0000_0000).wrapping_add(len);
    let d: u64 = c.wrapping_mul(0x9FB2_1C65_1E98_DF25);
    d ^ (d / 0x1000_0000)
}

/// A hash of the `mls` bytes at `at`, of `hbits` bits, mixed with a salt.
pub fn hash_ptr_salted(data: &[u8], at: usize, hbits: u32, mls: u32, salt: u64) -> (r: u32)
    requires
        at + 8 <= data@.len(),
        1 <= hbits <= 32,
    ensures
        r == spec_salted_hash(data@, at as int, hbits, mls, salt),
        r < pow2(hbits as nat),
{
    proof {
        reveal(spec_salted_hash);
    }
    if mls == 5 {
        let v: u64 = low_bits(load8(data, at), 40).wrapping_mul(0x100_0000).wrapping_mul(
            889523592379,
        );
        top_bits64(v ^ salt, hbits) as u32
    } else if mls == 6 {
        let v: u64 = low_bits(load8(data, at), 48).wrapping_mul(0x1_0000).wrapping_mul(
            227718039650203,
        );
        top_bits64(v ^ salt, hbits) as u32
    } else {
        let v: u32 = load4(data, at).wrapping_mul(2654435761);
        top_bits32(v ^ low_bits(salt, 32) as u32, hbits)
    }
}

/// The state of the greedy and lazy match finders.
pub struct LazyCtx {
    pub method: SearchMethod,
    pub depth: u32,
    pub hash_table: Vec<u32>,
    /// Chains, or the tree with two slots for each position; not for rows.
    pub chain_table: Vec<u32>,
    /// Rows only: one tag for each entry; the first of a row is its head.
    pub tag_table: Vec<u8>,
    pub hash_cache: [u32; 8],
    /// The index of the next position to enter.
    pub next_to_update: u32,
    pub lazy_skipping: bool,
    pub hash_salt: u64,
    pub row_hash_log: u32,
    pub row_log: u32,
    pub mls: u32,
    pub hash_log: u32,
    pub chain_log: u32,
    pub search_log: u32,
    pub window_log: u32,
}

impl LazyCtx {
    pub open spec fn view(&self) -> LazyState {
        LazyState {
            method: self.method,
            depth: self.depth,
            hash: self.hash_table@,
            chain: self.chain_table@,
            tags: self.tag_table@,
            cache: self.hash_cache@,
            next: self.next_to_update,
            skipping: self.lazy_skipping,
            salt: self.hash_salt,
            row_hash_log: self.row_hash_log,
            row_log: self.row_log,
            mls: self.mls,
            hash_log: self.hash_log,
            chain_log: self.chain_log,
            search_log: self.search_log,
            window_log: self.window_log,
        }
    }

    pub open spec fn wf(&self) -> bool {
        &&& 6 <= self.hash_log <= 28
        &&& 6 <= self.chain_log <= 28
        &&& 4 <= self.row_log <= 6
        &&& self.row_hash_log == self.hash_log - self.row_log
        &&& self.search_log <= 13
        &&& self.window_log <= 31
        &&& self.hash_table@.len() == pow2(self.hash_log as nat)
        &&& self.method != SearchMethod::RowHash ==> self.chain_table@.len() == pow2(
            self.chain_log as nat,
        )
        &&& self.method == SearchMethod::RowHash ==> self.tag_table@.len() == pow2(
            self.hash_log as nat,
        )
        &&& forall|i: int|
            0 <= i < 8 ==> #[trigger] self.hash_cache@[i] < pow2((self.row_hash_log + 8) as nat)
    }

    pub open spec fn same_params(&self, other: &Self) -> bool {
        &&& self.method == other.method
        &&& self.depth == other.depth
        &&& self.hash_salt == other.hash_salt
        &&& self.row_log == other.row_log
        &&& self.mls == other.mls
        &&& self.hash_log == other.hash_log
        &&& self.chain_log == other.chain_log
        &&& self.search_log == other.search_log
        &&& self.window_log == other.window_log
    }

    pub fn new(cparams: &CParams) -> (r: Self)
        requires
            cparams.wf(),
        ensures
            r.wf(),
            r@ == fresh_lazy(*cparams, spec_use_rows(*cparams)),
    {
        LazyCtx::with_row_match_finder(cparams, use_row_match_finder(cparams))
    }

    /// Whether rows are used is given, rather than derived from the
    /// parameters.
    pub fn with_row_match_finder(cparams: &CParams, use_row: bool) -> (r: Self)
        requires
            cparams.wf(),
        ensures
            r.wf(),
            r@ == fresh_lazy(*cparams, use_row),
    {
        let method = match cparams.strategy {
            Strategy::Btlazy2 => SearchMethod::BinaryTree,
            _ => if use_row {
                SearchMethod::RowHash
            } else {
                SearchMethod::HashChain
            },
        };
        let depth: u32 = match cparams.strategy {
            Strategy::Lazy => 1,
            Strategy::Lazy2 => 2,
            Strategy::Btlazy2 => 2,
            _ => 0,
        };
        let row_log: u32 = if cparams.search_log < 4 {
            4
        } else if cparams.search_log > 6 {
            6
        } else {
            cparams.search_log
        };
        let row_hash_log: u32 = cparams.hash_log - row_log;
        let mut tags: Vec<u8> = Vec::new();
        proof {
            reveal(fresh_lazy);
            lemma_pow2_pos((row_hash_log + 8) as nat);
            lemma2_to64();
            lemma_pow2_strictly_increases(cparams.hash_log as nat, 31);
        }
        if method == SearchMethod::RowHash {
            tags.resize(pow2_u64(cparams.hash_log) as usize, 0);
        }
        assert(Seq::<u32>::empty() =~= Seq::new(0, |i: int| 0u32));
        assert(tags@ =~= fresh_lazy(*cparams, use_row).tags);
        let hash_cache: [u32; 8] = [0u32;8];
        assert(hash_cache@ =~= Seq::new(8, |i: int| 0u32));
        LazyCtx {
            method,
            depth,
            hash_table: new_table(cparams.hash_log),
            chain_table: if method == SearchMethod::RowHash {
                Vec::new()
            } else {
                new_table(cparams.chain_log)
            },
            tag_table: tags,
            hash_cache,
            next_to_update: WINDOW_START_INDEX,
            lazy_skipping: false,
            hash_salt: bitmix(0, 8) ^ bitmix(0, 4),
            row_hash_log,
            row_log,
            mls: if cparams.min_match < 4 {
                4
            } else if cparams.min_match > 6 {
                6
            } else {
                cparams.min_match
            },
            hash_log: cparams.hash_log,
            chain_log: cparams.chain_log,
            search_log: cparams.search_log,
            window_log: cparams.window_log,
        }
    }

    /// After a very long match, enters only the last positions before `curr`.
    pub fn limit_update(&mut self, curr: u32)
        requires
            old(self).wf(),
        ensures
            final(self).wf(),
            final(self).same_params(old(self)),
            final(self)@ == (LazyState { next: limited(old(self).next_to_update, curr), ..old(self)@ }),
    {
        if curr > self.next_to_update && curr - self.next_to_update > 384 {
            let gap: u32 = curr - self.next_to_update - 384;
            self.next_to_update = if gap < 192 {
                curr - gap
            } else {
                curr - 192
            };
        }
    }

    /// Takes `correction` off every index.
    pub fn reduce_indices(&mut self, correction: u32)
        requires
            old(self).wf(),
        ensures
            final(self).wf(),
            final(self).same_params(old(self)),
            final(self)@ == reduced_state(old(self)@, correction),
    {
        reduce_table(&mut self.hash_table, correction, false);
        if self.method != SearchMethod::RowHash {
            reduce_table(
                &mut self.chain_table,
                correction,
                self.method == SearchMethod::BinaryTree,
            );
        }
        self.next_to_update = self.next_to_update.saturating_sub(correction);
    }

    /// Hashes rows without a salt, as a dictionary's own state does.
    pub fn use_cdict_hash_salt(&mut self)
        requires
            old(self).wf(),
        ensures
            *final(self) == (LazyCtx { hash_salt: 0, ..*old(self) }),
            final(self).wf(),
    {
        self.hash_salt = 0;
    }
}

/// Where entering goes on at `curr`, when `next` is the next index to enter:
/// after a very long match, only with the last positions.
pub open spec fn limited(next: u32, curr: u32) -> u32 {
    if curr > next + 384 {
        if curr - next - 384 < 192 {
            (curr - (curr - next - 384)) as u32
        } else {
            (curr - 192) as u32
        }
    } else {
        next
    }
}

/// What a search found: a length, and an offset value above 3.
#[derive(Clone, Copy)]
pub struct Found {
    pub len: usize,
    pub off_base: u32,
}

impl Found {
    pub open spec fn view(&self) -> FoundView {
        FoundView { len: self.len as nat, off_base: self.off_base as nat }
    }
}

/// From length 4 on, what was found is a run of equal bytes.
pub open spec fn found_ok(f: Found, data: Seq<u8>, ip: int, end: int) -> bool {
    &&& f.off_base >= 1
    &&& f.len >= 4 ==> f.off_base > 3 && f.off_base - 3 <= ip && ip + f.len <= end && eq_run(
        data,
        ip,
        f.off_base - 3,
        f.len as int,
    )
}

/// The match with the source `m`, where it can beat `best`: zero, or its full
/// length. Within the segment, the four bytes that end at `best` are compared
/// first.
fn try_source(data: &[u8], ip: usize, end: usize, m: usize, best: usize, within: bool) -> (r: usize)
    requires
        m < ip,
        3 <= best,
        ip + best < end <= data@.len(),
    ensures
        r == source_len(data@, ip as int, end as int, m as int, best as nat, within),
        ip + r <= end,
        eq_run(data@, ip as int, ip - m, r as int),
{
    if within {
        if eq4(data, m + (best - 3), ip + (best - 3)) {
            count_eq(data, ip, m, end)
        } else {
            0
        }
    } else if eq4(data, ip, m) {
        let rest: usize = count_eq(data, ip + 4, m + 4, end);
        proof {
            lemma_join_runs(data@, ip as int, ip - m, 4, rest as int);
        }
        rest + 4
    } else {
        0
    }
}

/// A dictionary's state beside the window's.
pub struct AttachedDict<'a> {
    pub ms: &'a LazyCtx,
    pub content_len: usize,
}

pub open spec fn dict_view(d: Option<&AttachedDict>) -> Option<(LazyState, int)> {
    match d {
        Some(x) => Some((x.ms@, x.content_len as int)),
        None => None,
    }
}

/// The place of a search.
pub open spec fn place_of(
    data: &[u8],
    end: usize,
    win: &Layout,
    ext_dict: bool,
    dms: Option<&AttachedDict>,
) -> LazyPlace {
    LazyPlace { data: data@, end: end as int, win: *win, ext_dict, dict: dict_view(dms) }
}

/// Enters the positions before `target` into the chains (only one while
/// skipping), and gives the head of the chain of `target`.
pub fn insert_and_find_first_index(ctx: &mut LazyCtx, data: &[u8], target: usize, bias: u32) -> (r: u32)
    requires
        old(ctx).wf(),
        old(ctx).method == SearchMethod::HashChain,
        target + 8 <= data@.len() <= u32::MAX,
    ensures
        final(ctx).wf(),
        final(ctx).same_params(old(ctx)),
        final(ctx)@ == chains_at(old(ctx)@, data@, target as int, bias),
        r == chain_head(final(ctx)@, data@, target as int),
        final(ctx).next_to_update == crate::parser::index_of(target as nat, bias),
{
    proof {
        reveal_with_fuel(chains_entered, 1);
    }
    let ghost entry = *ctx;
    let n: usize = data.len();
    let goal: u32 = to_index(target, bias);
    proof {
        lemma2_to64();
        lemma_pow2_strictly_increases(ctx.chain_log as nat, 31);
        lemma_pow2_pos(ctx.chain_log as nat);
    }
    let chain_size: u32 = pow2_u64(ctx.chain_log) as u32;
    let mut idx: u32 = ctx.next_to_update;
    let mut go: bool = true;
    while idx < goal && go
        invariant
            ctx.wf(),
            ctx.same_params(&entry),
            ctx.method == SearchMethod::HashChain,
            n == data@.len(),
            n >= 8,
            chain_size == pow2(ctx.chain_log as nat),
            chain_size > 0,
            ctx.lazy_skipping == entry.lazy_skipping,
            chains_entered(entry@, data@, entry.next_to_update, goal, bias) == if go {
                chains_entered(ctx@, data@, idx, goal, bias)
            } else {
                ctx@
            },
        decreases goal - idx,
    {
        proof {
            reveal_with_fuel(chains_entered, 1);
        }
        let ghost before = ctx@;
        let pos: usize = to_pos(idx, bias);
        if pos <= n - 8 {
            let h: usize = hash_ptr(data, pos, ctx.hash_log, ctx.mls);
            let head: u32 = ctx.hash_table[h];
            ctx.chain_table.set((idx % chain_size) as usize, head);
            ctx.hash_table.set(h, idx);
        }
        assert(ctx@ == chained(before, data@, idx, bias));
        idx = idx + 1;
        if ctx.lazy_skipping {
            go = false;
        }
    }
    proof {
        reveal_with_fuel(chains_entered, 1);
    }
    ctx.next_to_update = goal;
    let h: usize = hash_ptr(data, target, ctx.hash_log, ctx.mls);
    ctx.hash_table[h]
}

/// Walks the chain of the position for the longest match, and then the
/// dictionary's own.
#[verifier::rlimit(30)]
pub fn hc_find_best_match(
    ctx: &mut LazyCtx,
    data: &[u8],
    ip: usize,
    end: usize,
    win: &Layout,
    ext_dict: bool,
    dms: Option<&AttachedDict>,
) -> (r: Found)
    requires
        old(ctx).wf(),
        old(ctx).method == SearchMethod::HashChain,
        ip + 8 <= end <= data@.len() <= u32::MAX,
        dms matches Some(d) ==> d.ms.wf(),
    ensures
        final(ctx).wf(),
        final(ctx).same_params(old(ctx)),
        found_ok(r, data@, ip as int, end as int),
        (final(ctx)@, r@) == chain_best(
            place_of(data, end, win, ext_dict, dms),
            old(ctx)@,
            ip as int,
        ),
{
    let ghost w = place_of(data, end, win, ext_dict, dms);
    let bias: u32 = win.bias;
    let curr: u32 = to_index(ip, bias);
    proof {
        reveal(chain_best);
        lemma2_to64();
        lemma_pow2_strictly_increases(ctx.chain_log as nat, 31);
        lemma_pow2_strictly_increases(ctx.search_log as nat, 31);
        lemma_pow2_pos(ctx.chain_log as nat);
    }
    let chain_size: u32 = pow2_u64(ctx.chain_log) as u32;
    let low_limit: u32 = lowest_index(curr, win.low_limit, ctx.window_log);
    let min_chain: u32 = curr.saturating_sub(chain_size);
    let mut nb_attempts: u32 = pow2_u64(ctx.search_log) as u32;
    let mut best = Found { len: 3, off_base: NO_OFFSET };
    let mut match_index: u32 = insert_and_find_first_index(ctx, data, ip, bias);
    let mut go: bool = true;
    let ghost whole = chain_walked(
        w,
        ctx.chain_table@,
        ctx.chain_log,
        ip as int,
        low_limit,
        min_chain,
        match_index,
        nb_attempts as nat,
        best@,
    );
    let ghost after = *ctx;
    while go && match_index >= low_limit && nb_attempts > 0
        invariant
            ctx.wf(),
            ctx.same_params(old(ctx)),
            ctx.method == SearchMethod::HashChain,
            ip + 8 <= end <= data@.len() <= u32::MAX,
            found_ok(best, data@, ip as int, end as int),
            best.len >= 3,
            ip + best.len <= end,
            go ==> ip + best.len < end,
            chain_size == pow2(ctx.chain_log as nat),
            chain_size > 0,
            *ctx == after,
            w == place_of(data, end, win, ext_dict, dms),
            bias == win.bias,
            whole == if go {
                chain_walked(
                    w,
                    ctx.chain_table@,
                    ctx.chain_log,
                    ip as int,
                    low_limit,
                    min_chain,
                    match_index,
                    nb_attempts as nat,
                    best@,
                )
            } else {
                (best@, nb_attempts as nat)
            },
        decreases
                nb_attempts + if go {
                    1int
                } else {
                    0
                },
    {
        proof {
            reveal_with_fuel(chain_walked, 1);
        }
        let ghost was = best@;
        let m: usize = to_pos(match_index, bias);
        if m < ip {
            let len: usize = try_source(
                data,
                ip,
                end,
                m,
                best.len,
                !ext_dict || match_index >= win.dict_limit,
            );
            if len > best.len {
                best = Found { len, off_base: (ip - m) as u32 + 3 };
                if ip + len == end {
                    go = false;
                }
            }
        }
        assert(best@ == better_of(
            data@,
            ip as int,
            end as int,
            m as int,
            was,
            w.within(match_index),
        ));
        if match_index <= min_chain {
            go = false;
        }
        if go {
            match_index = ctx.chain_table[(match_index % chain_size) as usize];
            nb_attempts = nb_attempts - 1;
        }
    }
    proof {
        reveal_with_fuel(chain_walked, 1);
    }
    match dms {
        Some(d) => if nb_attempts > 0 && ip + best.len < end {
            hc_dict_match(ctx, data, ip, end, d, nb_attempts, best)
        } else {
            best
        },
        None => best,
    }
}

/// Walks the dictionary's chain with the budget that is left.
#[verifier::rlimit(30)]
fn hc_dict_match(
    ctx: &LazyCtx,
    data: &[u8],
    ip: usize,
    end: usize,
    dict: &AttachedDict,
    budget: u32,
    found: Found,
) -> (r: Found)
    requires
        ctx.wf(),
        dict.ms.wf(),
        ip + 8 <= end <= data@.len() <= u32::MAX,
        found_ok(found, data@, ip as int, end as int),
        found.len >= 3,
        ip + found.len < end,
    ensures
        found_ok(r, data@, ip as int, end as int),
        r.len >= found.len,
        r@ == dict_chain_best(
            dict.ms@,
            dict.content_len as int,
            ctx.mls,
            data@,
            ip as int,
            end as int,
            budget as nat,
            found@,
        ),
{
    let d = dict.ms;
    if d.method == SearchMethod::RowHash {
        return found;
    }
    proof {
        lemma2_to64();
        lemma_pow2_strictly_increases(d.chain_log as nat, 31);
        lemma_pow2_pos(d.chain_log as nat);
    }
    let chain_size: u32 = pow2_u64(d.chain_log) as u32;
    let size: u32 = ((dict.content_len as u64 % 0x1_0000_0000 + 2) % 0x1_0000_0000) as u32;
    let min_chain: u32 = size.saturating_sub(chain_size);
    let mut nb_attempts: u32 = budget;
    let mut best = found;
    let h: usize = hash_ptr(data, ip, d.hash_log, ctx.mls);
    let mut mi: u32 = d.hash_table[h];
    let mut go: bool = true;
    let ghost whole = dict_chain_walked(
        data@,
        end as int,
        d.chain_table@,
        d.chain_log,
        ip as int,
        min_chain,
        mi,
        nb_attempts as nat,
        best@,
    );
    while go && mi >= WINDOW_START_INDEX && nb_attempts > 0
        invariant
            d.wf(),
            d.method != SearchMethod::RowHash,
            ip + 8 <= end <= data@.len() <= u32::MAX,
            found_ok(best, data@, ip as int, end as int),
            best.len >= 3,
            best.len >= found.len,
            go ==> ip + best.len < end,
            chain_size == pow2(d.chain_log as nat),
            chain_size > 0,
            whole == if go {
                dict_chain_walked(
                    data@,
                    end as int,
                    d.chain_table@,
                    d.chain_log,
                    ip as int,
                    min_chain,
                    mi,
                    nb_attempts as nat,
                    best@,
                )
            } else {
                best@
            },
        decreases nb_attempts,
    {
        proof {
            reveal_with_fuel(dict_chain_walked, 1);
        }
        let ghost was = best@;
        let m: usize = to_pos(mi, WINDOW_START_INDEX);
        if m < ip {
            let len: usize = try_source(data, ip, end, m, best.len, false);
            if len > best.len {
                best = Found { len, off_base: (ip - m) as u32 + 3 };
                if ip + len == end {
                    go = false;
                }
            }
        }
        assert(best@ == better_of(data@, ip as int, end as int, m as int, was, false));
        if mi <= min_chain {
            go = false;
        }
        mi = d.chain_table[(mi % chain_size) as usize];
        nb_attempts = nb_attempts - 1;
    }
    proof {
        reveal_with_fuel(dict_chain_walked, 1);
    }
    best
}

// ---------------------------------------------------------------------------
// Rows.

/// A hash gives a row that lies within the tables.
proof fn lemma_row(hash: nat, row_hash_log: nat, row_log: nat)
    requires
        hash < pow2(row_hash_log + 8),
    ensures
        (hash / 256) * pow2(row_log) + pow2(row_log) <= pow2(row_hash_log + row_log),
{
    crate::fast::lemma_bucket(hash, row_hash_log);
    lemma_pow2_adds(row_hash_log, row_log);
    let q = hash / 256;
    let p = pow2(row_hash_log);
    let w = pow2(row_log);
    assert(q * w + w <= p * w) by (nonlinear_arith)
        requires
            q + 1 <= p,
            w >= 0,
    ;
}

/// The slot before `head` in a row, leaving out the first.
fn row_next_index(head: u8, entries: usize) -> (r: usize)
    requires
        16 <= entries <= 64,
    ensures
        r == row_next(head as nat, entries as nat),
        1 <= r < entries,
{
    let h: usize = head as usize % entries;
    if h <= 1 {
        entries - 1
    } else {
        h - 1
    }
}

impl LazyCtx {
    /// The number of entries of a row.
    fn row_entries(&self) -> (r: usize)
        requires
            self.wf(),
        ensures
            r == pow2(self.row_log as nat),
            16 <= r <= 64,
    {
        proof {
            lemma2_to64();
            if self.row_log > 4 {
                lemma_pow2_strictly_increases(4, self.row_log as nat);
            }
            if self.row_log < 6 {
                lemma_pow2_strictly_increases(self.row_log as nat, 6);
            }
        }
        pow2_u64(self.row_log) as usize
    }

    /// The start of the row of a hash.
    fn row_of(&self, hash: u32) -> (r: usize)
        requires
            self.wf(),
            hash < pow2((self.row_hash_log + 8) as nat),
        ensures
            r == self@.row_of(hash as nat),
            r + pow2(self.row_log as nat) <= self.hash_table@.len(),
    {
        let n: usize = self.hash_table.len();
        let w: usize = self.row_entries();
        proof {
            lemma_row(hash as nat, self.row_hash_log as nat, self.row_log as nat);
        }
        (hash / 256) as usize * w
    }

    fn row_hash(&self, data: &[u8], pos: usize) -> (r: u32)
        requires
            self.wf(),
            pos + 8 <= data@.len(),
        ensures
            r == self@.row_hash(data@, pos as int),
            r < pow2((self.row_hash_log + 8) as nat),
    {
        hash_ptr_salted(data, pos, self.row_hash_log + 8, self.mls, self.hash_salt)
    }

    /// Enters index `idx` into the row of `hash`.
    fn row_enter(&mut self, hash: u32, idx: u32)
        requires
            old(self).wf(),
            old(self).method == SearchMethod::RowHash,
            hash < pow2((old(self).row_hash_log + 8) as nat),
        ensures
            final(self).wf(),
            final(self).same_params(old(self)),
            final(self).next_to_update == old(self).next_to_update,
            final(self).lazy_skipping == old(self).lazy_skipping,
            final(self)@ == old(self)@.row_entered(hash as nat, idx),
    {
        let n: usize = self.hash_table.len();
        let row: usize = self.row_of(hash);
        let w: usize = self.row_entries();
        let head: u8 = self.tag_table[row];
        let pos: usize = row_next_index(head, w);
        self.tag_table.set(row, pos as u8);
        self.tag_table.set(row + pos, (hash % 256) as u8);
        self.hash_table.set(row + pos, idx);
    }

    /// The hash kept for `idx`, which is replaced by that of the position
    /// eight places on.
    fn row_next_cached_hash(&mut self, data: &[u8], idx: u32, bias: u32) -> (r: u32)
        requires
            old(self).wf(),
            data@.len() <= u32::MAX,
        ensures
            final(self).wf(),
            final(self).same_params(old(self)),
            final(self).next_to_update == old(self).next_to_update,
            final(self).lazy_skipping == old(self).lazy_skipping,
            final(self)@ == old(self)@.cache_moved(data@, idx, bias),
            r == old(self).hash_cache@[idx as int % 8],
            r < pow2((old(self).row_hash_log + 8) as nat),
    {
        let n: usize = data.len();
        let slot: usize = (idx % 8) as usize;
        let hash: u32 = self.hash_cache[slot];
        let pos: usize = to_pos(idx, bias);
        if n >= 16 && pos <= n - 16 {
            let next: u32 = self.row_hash(data, pos + ROW_HASH_CACHE_SIZE);
            self.hash_cache[slot] = next;
        }
        assert(self@.cache =~= old(self)@.cache_moved(data@, idx, bias).cache);
        hash
    }

    /// Keeps the hashes of up to eight positions from `from` on, up to index
    /// `limit`.
    #[verifier::rlimit(40)]
    pub fn row_fill_hash_cache(&mut self, data: &[u8], from: u32, limit: i64, bias: u32)
        requires
            old(self).wf(),
            data@.len() <= u32::MAX,
        ensures
            final(self).wf(),
            final(self).same_params(old(self)),
            final(self).next_to_update == old(self).next_to_update,
            final(self).lazy_skipping == old(self).lazy_skipping,
            final(self)@ == cache_filled(old(self)@, data@, from, limit as int, bias, 0),
    {
        let ghost entry = *self;
        let n: usize = data.len();
        let mut k: u32 = 0;
        while k < 8 && (from as i64 + k as i64) <= limit
            invariant
                k <= 8,
                self.wf(),
                self.same_params(&entry),
                self.next_to_update == entry.next_to_update,
                self.lazy_skipping == entry.lazy_skipping,
                n == data@.len(),
                n <= u32::MAX,
                cache_filled(entry@, data@, from, limit as int, bias, 0) == cache_filled(
                    self@,
                    data@,
                    from,
                    limit as int,
                    bias,
                    k as nat,
                ),
            decreases 8 - k,
        {
            proof {
                reveal_with_fuel(cache_filled, 1);
            }
            let ghost before = self@;
            let idx: u32 = from.wrapping_add(k);
            assert(idx as int == (from + k) % 0x1_0000_0000);
            let pos: usize = to_pos(idx, bias);
            if n >= 8 && pos <= n - 8 {
                let hash: u32 = self.row_hash(data, pos);
                let slot: usize = (idx % 8) as usize;
                self.hash_cache[slot] = hash;
                assert(self@.cache =~= before.cache.update(slot as int, hash));
                assert(self@ == (LazyState { cache: before.cache.update(slot as int, hash), ..before }));
            }
            k = k + 1;
        }
        proof {
            reveal_with_fuel(cache_filled, 1);
        }
    }

    /// Enters the indices `from .. to`.
    fn row_update_range(&mut self, data: &[u8], from: u32, to: u32, use_cache: bool, bias: u32)
        requires
            old(self).wf(),
            old(self).method == SearchMethod::RowHash,
            data@.len() <= u32::MAX,
        ensures
            final(self).wf(),
            final(self).same_params(old(self)),
            final(self).lazy_skipping == old(self).lazy_skipping,
            final(self)@ == rows_entered(old(self)@, data@, from, to, use_cache, bias),
    {
        let ghost entry = *self;
        let n: usize = data.len();
        let mut idx: u32 = from;
        while idx < to
            invariant
                self.wf(),
                self.same_params(&entry),
                self.lazy_skipping == entry.lazy_skipping,
                self.method == SearchMethod::RowHash,
                n == data@.len(),
                n <= u32::MAX,
                rows_entered(entry@, data@, from, to, use_cache, bias) == rows_entered(
                    self@,
                    data@,
                    idx,
                    to,
                    use_cache,
                    bias,
                ),
            decreases to - idx,
        {
            proof {
                reveal_with_fuel(rows_entered, 1);
            }
            if use_cache {
                let hash: u32 = self.row_next_cached_hash(data, idx, bias);
                self.row_enter(hash, idx);
            } else {
                let pos: usize = to_pos(idx, bias);
                if n >= 8 && pos <= n - 8 {
                    let hash: u32 = self.row_hash(data, pos);
                    self.row_enter(hash, idx);
                }
            }
            idx = idx + 1;
        }
        proof {
            reveal_with_fuel(rows_entered, 1);
        }
    }

    /// Enters the positions before index `target`; of a long gap only its
    /// first and last part, where the kept hashes are used.
    pub fn row_update_internal(&mut self, data: &[u8], target: u32, use_cache: bool, bias: u32)
        requires
            old(self).wf(),
            old(self).method == SearchMethod::RowHash,
            data@.len() <= u32::MAX,
        ensures
            final(self).wf(),
            final(self).same_params(old(self)),
            final(self).lazy_skipping == old(self).lazy_skipping,
            final(self).next_to_update == target,
            final(self)@ == rows_at(old(self)@, data@, target, use_cache, bias),
    {
        proof {
            reveal(rows_at);
        }
        let mut idx: u32 = self.next_to_update;
        if use_cache && target > idx && target - idx > 384 {
            self.row_update_range(data, idx, idx + 96, use_cache, bias);
            idx = target - 32;
            self.row_fill_hash_cache(data, idx, target as i64 + 1, bias);
        }
        self.row_update_range(data, idx, target, use_cache, bias);
        self.next_to_update = target;
    }
}

/// The entries of a row whose tag is `tag`, from the head on: at most
/// `budget`, and none below the index `lowest`.
#[verifier::rlimit(30)]
fn row_candidates(
    ctx: &LazyCtx,
    row: usize,
    entries: usize,
    tag: u8,
    lowest: u32,
    budget: u32,
) -> (r: Vec<u32>)
    requires
        ctx.wf(),
        ctx.method == SearchMethod::RowHash,
        16 <= entries <= 64,
        row + entries <= ctx.hash_table@.len(),
        entries == pow2(ctx.row_log as nat),
    ensures
        r@ == row_picks(ctx@, row as int, tag, lowest, 0, budget as nat),
        r@.len() <= budget,
        r@.len() <= 64,
        forall|i: int| 0 <= i < r@.len() ==> #[trigger] r@[i] >= lowest,
{
    let n: usize = ctx.hash_table.len();
    let head: usize = ctx.tag_table[row] as usize % entries;
    let mut r: Vec<u32> = Vec::new();
    let mut i: usize = 0;
    let mut go: bool = true;
    while i < entries && go && (r.len() as u32) < budget
        invariant
            ctx.wf(),
            ctx.method == SearchMethod::RowHash,
            16 <= entries <= 64,
            row + entries <= n,
            n == ctx.hash_table@.len(),
            head < entries,
            i <= entries,
            r@.len() <= i,
            r@.len() <= budget,
            forall|k: int| 0 <= k < r@.len() ==> #[trigger] r@[k] >= lowest,
            entries == pow2(ctx.row_log as nat),
            head == ctx.tag_table@[row as int] as nat % entries as nat,
            row_picks(ctx@, row as int, tag, lowest, 0, budget as nat) == r@ + if go {
                row_picks(ctx@, row as int, tag, lowest, i as nat, (budget - r@.len()) as nat)
            } else {
                Seq::empty()
            },
        decreases entries - i,
    {
        proof {
            reveal_with_fuel(row_picks, 1);
        }
        let ghost was = r@;
        let pos: usize = (head + i) % entries;
        i = i + 1;
        if pos != 0 && ctx.tag_table[row + pos] == tag {
            let match_index: u32 = ctx.hash_table[row + pos];
            if match_index < lowest {
                go = false;
            } else {
                r.push(match_index);
                assert(was + (seq![match_index] + row_picks(
                    ctx@,
                    row as int,
                    tag,
                    lowest,
                    i as nat,
                    (budget - r@.len()) as nat,
                )) =~= r@ + row_picks(
                    ctx@,
                    row as int,
                    tag,
                    lowest,
                    i as nat,
                    (budget - r@.len()) as nat,
                ));
            }
        }
    }
    proof {
        reveal_with_fuel(row_picks, 1);
        assert(r@ + Seq::<u32>::empty() =~= r@);
    }
    r
}

/// The best match of the row of the position, and then of the dictionary's.
#[verifier::rlimit(30)]
pub fn row_find_best_match(
    ctx: &mut LazyCtx,
    data: &[u8],
    ip: usize,
    end: usize,
    win: &Layout,
    ext_dict: bool,
    dms: Option<&AttachedDict>,
) -> (r: Found)
    requires
        old(ctx).wf(),
        old(ctx).method == SearchMethod::RowHash,
        ip + 8 <= end <= data@.len() <= u32::MAX,
        dms matches Some(d) ==> d.ms.wf(),
    ensures
        final(ctx).wf(),
        final(ctx).same_params(old(ctx)),
        found_ok(r, data@, ip as int, end as int),
        (final(ctx)@, r@) == row_best(
            place_of(data, end, win, ext_dict, dms),
            old(ctx)@,
            ip as int,
        ),
{
    proof {
        reveal(row_best);
    }
    let ghost w = place_of(data, end, win, ext_dict, dms);
    let ghost entry = *ctx;
    let bias: u32 = win.bias;
    let curr: u32 = to_index(ip, bias);
    let low_limit: u32 = lowest_index(curr, win.low_limit, ctx.window_log);
    let entries: usize = ctx.row_entries();
    let capped: u32 = if ctx.search_log < ctx.row_log {
        ctx.search_log
    } else {
        ctx.row_log
    };
    proof {
        lemma2_to64();
        lemma_pow2_strictly_increases(capped as nat, 31);
    }
    let budget: u32 = pow2_u64(capped) as u32;
    let hash: u32;
    if !ctx.lazy_skipping {
        ctx.row_update_internal(data, curr, true, bias);
        hash = ctx.row_next_cached_hash(data, curr, bias);
    } else {
        hash = ctx.row_hash(data, ip);
        ctx.next_to_update = curr;
    }
    let row: usize = ctx.row_of(hash);
    let tag: u8 = (hash % 256) as u8;
    let candidates = row_candidates(ctx, row, entries, tag, low_limit, budget);
    ctx.row_enter(hash, ctx.next_to_update);
    ctx.next_to_update = ctx.next_to_update.wrapping_add(1);
    let mut best = Found { len: 3, off_base: NO_OFFSET };
    let mut i: usize = 0;
    while i < candidates.len() && ip + best.len < end
        invariant
            ip + 8 <= end <= data@.len() <= u32::MAX,
            found_ok(best, data@, ip as int, end as int),
            best.len >= 3,
            ip + best.len <= end,
            i <= candidates@.len(),
            w == place_of(data, end, win, ext_dict, dms),
            bias == win.bias,
            picks_best(w, candidates@, ip as int, 0, nothing_found()) == picks_best(
                w,
                candidates@,
                ip as int,
                i as nat,
                best@,
            ),
        decreases candidates@.len() - i,
    {
        proof {
            reveal_with_fuel(picks_best, 1);
        }
        let match_index: u32 = candidates[i];
        let m: usize = to_pos(match_index, bias);
        if m < ip {
            let len: usize = try_source(
                data,
                ip,
                end,
                m,
                best.len,
                !ext_dict || match_index >= win.dict_limit,
            );
            if len > best.len {
                best = Found { len, off_base: (ip - m) as u32 + 3 };
            }
        }
        i = i + 1;
    }
    proof {
        reveal_with_fuel(picks_best, 1);
    }
    match dms {
        Some(d) => row_dict_match(
            ctx,
            data,
            ip,
            end,
            d,
            budget - candidates.len() as u32,
            best,
        ),
        None => best,
    }
}

/// The best match of the dictionary's row, with the budget that is left.
#[verifier::rlimit(30)]
fn row_dict_match(
    ctx: &LazyCtx,
    data: &[u8],
    ip: usize,
    end: usize,
    dict: &AttachedDict,
    budget: u32,
    found: Found,
) -> (r: Found)
    requires
        ctx.wf(),
        dict.ms.wf(),
        ip + 8 <= end <= data@.len() <= u32::MAX,
        found_ok(found, data@, ip as int, end as int),
        found.len >= 3,
        ip + found.len <= end,
    ensures
        found_ok(r, data@, ip as int, end as int),
        r.len >= found.len,
        r@ == dict_row_best(
            dict.ms@,
            ctx.mls,
            data@,
            ip as int,
            end as int,
            budget as nat,
            found@,
        ),
{
    let d = dict.ms;
    if d.method != SearchMethod::RowHash {
        return found;
    }
    let entries: usize = d.row_entries();
    let hash: u32 = hash_ptr_salted(data, ip, d.row_hash_log + 8, ctx.mls, d.hash_salt);
    let row: usize = d.row_of(hash);
    let candidates = row_candidates(
        d,
        row,
        entries,
        (hash % 256) as u8,
        WINDOW_START_INDEX,
        budget,
    );
    let mut best = found;
    let mut i: usize = 0;
    while i < candidates.len() && ip + best.len < end
        invariant
            ip + 8 <= end <= data@.len() <= u32::MAX,
            found_ok(best, data@, ip as int, end as int),
            best.len >= found.len,
            best.len >= 3,
            ip + best.len <= end,
            i <= candidates@.len(),
            dict_picks_best(data@, end as int, candidates@, ip as int, 0, found@)
                == dict_picks_best(
                data@,
                end as int,
                candidates@,
                ip as int,
                i as nat,
                best@,
            ),
        decreases candidates@.len() - i,
    {
        proof {
            reveal_with_fuel(dict_picks_best, 1);
        }
        let m: usize = to_pos(candidates[i], WINDOW_START_INDEX);
        if m < ip {
            let len: usize = try_source(data, ip, end, m, best.len, false);
            if len > best.len {
                best = Found { len, off_base: (ip - m) as u32 + 3 };
            }
        }
        i = i + 1;
    }
    proof {
        reveal_with_fuel(dict_picks_best, 1);
    }
    best
}

} // verus!
