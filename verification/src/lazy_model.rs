//! What the searches of the greedy and lazy match finders do, step by step.

use crate::cparams::{CParams, Strategy};
use crate::fast_model::{same4, spec_lowest_index};
use crate::layout::Layout;
use crate::lazy_search::SearchMethod;
use crate::math::bits_at;
use crate::parser::{common_run, index_of, pos_of, spec_hash};
use crate::window::reduced_table;
use crate::xxhash::spec_rotl;
use vstd::arithmetic::power2::pow2;
use vstd::prelude::*;

verus! {

/// The state of a match finder.
pub struct LazyState {
    pub method: SearchMethod,
    pub depth: u32,
    pub hash: Seq<u32>,
    pub chain: Seq<u32>,
    pub tags: Seq<u8>,
    pub cache: Seq<u32>,
    pub next: u32,
    pub skipping: bool,
    pub salt: u64,
    pub row_hash_log: u32,
    pub row_log: u32,
    pub mls: u32,
    pub hash_log: u32,
    pub chain_log: u32,
    pub search_log: u32,
    pub window_log: u32,
}

/// Rows are used by the middle strategies, once the window is not small.
pub open spec fn spec_use_rows(cparams: CParams) -> bool {
    cparams.window_log > 14 && (cparams.strategy is Greedy || cparams.strategy is Lazy
        || cparams.strategy is Lazy2)
}

/// `val` and `len` mixed.
pub open spec fn spec_bitmix(val: u64, len: u64) -> u64 {
    let a = val ^ spec_rotl(val, 15) ^ spec_rotl(val, 40);
    let b = a.wrapping_mul(0x9FB2_1C65_1E98_DF25);
    let c = b ^ (b / 0x8_0000_0000).wrapping_add(len);
    let d = c.wrapping_mul(0x9FB2_1C65_1E98_DF25);
    d ^ (d / 0x1000_0000)
}

/// The state before the first block.
#[verifier::opaque]
pub open spec fn fresh_lazy(cparams: CParams, use_row: bool) -> LazyState {
    let method = if cparams.strategy is Btlazy2 {
        SearchMethod::BinaryTree
    } else if use_row {
        SearchMethod::RowHash
    } else {
        SearchMethod::HashChain
    };
    let row_log = if cparams.search_log < 4 {
        4
    } else if cparams.search_log > 6 {
        6
    } else {
        cparams.search_log
    };
    let rows = method == SearchMethod::RowHash;
    LazyState {
        method,
        depth: match cparams.strategy {
            Strategy::Lazy => 1,
            Strategy::Lazy2 => 2,
            Strategy::Btlazy2 => 2,
            _ => 0,
        },
        hash: Seq::new(pow2(cparams.hash_log as nat), |i: int| 0u32),
        chain: Seq::new(
            if rows {
                0
            } else {
                pow2(cparams.chain_log as nat)
            },
            |i: int| 0u32,
        ),
        tags: Seq::new(
            if rows {
                pow2(cparams.hash_log as nat)
            } else {
                0
            },
            |i: int| 0u8,
        ),
        cache: Seq::new(8, |i: int| 0u32),
        next: 2,
        skipping: false,
        salt: spec_bitmix(0, 8) ^ spec_bitmix(0, 4),
        row_hash_log: (cparams.hash_log - row_log) as u32,
        row_log,
        mls: if cparams.min_match < 4 {
            4
        } else if cparams.min_match > 6 {
            6
        } else {
            cparams.min_match
        },
        hash_log: cparams.hash_log,
        chain_log: cparams.chain_log,
        search_log: cparams.search_log,
        window_log: cparams.window_log,
    }
}

/// What a search found: a length and an offset value.
pub struct FoundView {
    pub len: nat,
    pub off_base: nat,
}

/// Nothing yet: matches must be longer than three bytes.
pub open spec fn nothing_found() -> FoundView {
    FoundView { len: 3, off_base: 999_999_999 }
}

/// The length of the match with the source `m`, where it can beat `best`. Within
/// the segment, the four bytes that end at `best` are compared first.
pub open spec fn source_len(data: Seq<u8>, ip: int, end: int, m: int, best: nat, within: bool) -> nat {
    if within {
        if same4(data, m + best - 3, ip + best - 3) {
            common_run(data, ip, m, end)
        } else {
            0
        }
    } else if same4(data, ip, m) {
        common_run(data, ip + 4, m + 4, end) + 4
    } else {
        0
    }
}

/// The better of `best` and the match with the source `m`.
pub open spec fn better_of(data: Seq<u8>, ip: int, end: int, m: int, best: FoundView, within: bool) -> FoundView {
    let len = source_len(data, ip, end, m, best.len, within);
    if m < ip && len > best.len {
        FoundView { len, off_base: (ip - m + 3) as nat }
    } else {
        best
    }
}

/// Where a search takes place.
pub struct LazyPlace {
    pub data: Seq<u8>,
    pub end: int,
    pub win: Layout,
    /// The window has an older segment.
    pub ext_dict: bool,
    /// An attached dictionary, and the length of its content.
    pub dict: Option<(LazyState, int)>,
}

impl LazyPlace {
    /// Index `idx` lies in the newer segment.
    pub open spec fn within(self, idx: u32) -> bool {
        !self.ext_dict || idx >= self.win.dict_limit
    }
}

// ---------------------------------------------------------------------------
// Hash chains.

/// Index `idx` put before the chain of its hash.
pub open spec fn chained(s: LazyState, data: Seq<u8>, idx: u32, bias: u32) -> LazyState {
    let pos = pos_of(idx, bias);
    if pos <= data.len() - 8 {
        let h = spec_hash(data, pos, s.hash_log, s.mls) as int;
        LazyState {
            chain: s.chain.update(idx as int % pow2(s.chain_log as nat) as int, s.hash[h]),
            hash: s.hash.update(h, idx),
            ..s
        }
    } else {
        s
    }
}

/// The indices from `idx` up to `goal`, or only the first of them while
/// skipping.
#[verifier::opaque]
pub open spec fn chains_entered(s: LazyState, data: Seq<u8>, idx: u32, goal: u32, bias: u32) -> LazyState
    decreases goal - idx,
{
    if idx < goal {
        let s1 = chained(s, data, idx, bias);
        if s.skipping {
            s1
        } else {
            chains_entered(s1, data, (idx + 1) as u32, goal, bias)
        }
    } else {
        s
    }
}

/// The state once the positions before `target` have been entered.
pub open spec fn chains_at(s: LazyState, data: Seq<u8>, target: int, bias: u32) -> LazyState {
    let goal = index_of(target as nat, bias);
    LazyState { next: goal, ..chains_entered(s, data, s.next, goal, bias) }
}

/// The first of the chain of `target`.
pub open spec fn chain_head(s: LazyState, data: Seq<u8>, target: int) -> u32 {
    s.hash[spec_hash(data, target, s.hash_log, s.mls) as int]
}

/// Walks a chain down to the index `low`, at most `left` steps, and none
/// beyond `min_chain`: the best match, and the steps that are left.
#[verifier::opaque]
pub open spec fn chain_walked(
    w: LazyPlace,
    chain: Seq<u32>,
    chain_log: u32,
    ip: int,
    low: u32,
    min_chain: u32,
    idx: u32,
    left: nat,
    best: FoundView,
) -> (FoundView, nat)
    decreases left,
{
    if idx >= low && left > 0 {
        let b = better_of(w.data, ip, w.end, pos_of(idx, w.win.bias), best, w.within(idx));
        if (b != best && ip + b.len == w.end) || idx <= min_chain {
            (b, left)
        } else {
            chain_walked(
                w,
                chain,
                chain_log,
                ip,
                low,
                min_chain,
                chain[idx as int % pow2(chain_log as nat) as int],
                (left - 1) as nat,
                b,
            )
        }
    } else {
        (best, left)
    }
}

/// The same with a dictionary's chain, whose sources are compared from their
/// start.
#[verifier::opaque]
pub open spec fn dict_chain_walked(
    data: Seq<u8>,
    end: int,
    chain: Seq<u32>,
    chain_log: u32,
    ip: int,
    min_chain: u32,
    idx: u32,
    left: nat,
    best: FoundView,
) -> FoundView
    decreases left,
{
    if idx >= 2 && left > 0 {
        let b = better_of(data, ip, end, pos_of(idx, 2), best, false);
        if (b != best && ip + b.len == end) || idx <= min_chain {
            b
        } else {
            dict_chain_walked(
                data,
                end,
                chain,
                chain_log,
                ip,
                min_chain,
                chain[idx as int % pow2(chain_log as nat) as int],
                (left - 1) as nat,
                b,
            )
        }
    } else {
        best
    }
}

/// `a - b`, but not below zero.
pub open spec fn less(a: u32, b: nat) -> u32 {
    if a >= b {
        (a - b) as u32
    } else {
        0
    }
}

/// The best match of the dictionary's chain.
pub open spec fn dict_chain_best(d: LazyState, content_len: int, mls: u32, data: Seq<u8>, ip: int, end: int, left: nat, best: FoundView) -> FoundView {
    if d.method == SearchMethod::RowHash {
        best
    } else {
        let size = ((content_len + 2) % 0x1_0000_0000) as u32;
        dict_chain_walked(
            data,
            end,
            d.chain,
            d.chain_log,
            ip,
            less(size, pow2(d.chain_log as nat)),
            d.hash[spec_hash(data, ip, d.hash_log, mls) as int],
            left,
            best,
        )
    }
}

/// The best match of the position's chain, and then of the dictionary's.
#[verifier::opaque]
pub open spec fn chain_best(w: LazyPlace, s: LazyState, ip: int) -> (LazyState, FoundView) {
    let bias = w.win.bias;
    let curr = index_of(ip as nat, bias);
    let s1 = chains_at(s, w.data, ip, bias);
    let (best, left) = chain_walked(
        w,
        s1.chain,
        s.chain_log,
        ip,
        spec_lowest_index(curr, w.win.low_limit, s.window_log),
        less(curr, pow2(s.chain_log as nat)),
        chain_head(s1, w.data, ip),
        pow2(s.search_log as nat),
        nothing_found(),
    );
    match w.dict {
        Some((d, content_len)) => if left > 0 && ip + best.len < w.end {
            (s1, dict_chain_best(d, content_len, s.mls, w.data, ip, w.end, left, best))
        } else {
            (s1, best)
        },
        None => (s1, best),
    }
}

// ---------------------------------------------------------------------------
// Rows.

/// A hash of the `mls` bytes at `at`, of `hbits` bits, mixed with a salt.
#[verifier::opaque]
pub open spec fn spec_salted_hash(data: Seq<u8>, at: int, hbits: u32, mls: u32, salt: u64) -> nat {
    let x = bits_at(data, (8 * at) as nat, 64);
    if mls == 5 {
        let v = ((x % pow2(40)) as u64).wrapping_mul(0x100_0000).wrapping_mul(889523592379);
        (v ^ salt) as nat / pow2((64 - hbits) as nat)
    } else if mls == 6 {
        let v = ((x % pow2(48)) as u64).wrapping_mul(0x1_0000).wrapping_mul(227718039650203);
        (v ^ salt) as nat / pow2((64 - hbits) as nat)
    } else {
        let v = (bits_at(data, (8 * at) as nat, 32) as u32).wrapping_mul(2654435761);
        (v ^ ((salt as nat % pow2(32)) as u32)) as nat / pow2((32 - hbits) as nat)
    }
}

/// The slot before `head` in a row of `entries`, leaving out the first, which
/// holds the head itself.
pub open spec fn row_next(head: nat, entries: nat) -> nat {
    let h = head % entries;
    if h <= 1 {
        (entries - 1) as nat
    } else {
        (h - 1) as nat
    }
}

impl LazyState {
    pub open spec fn row_hash(self, data: Seq<u8>, pos: int) -> nat {
        spec_salted_hash(data, pos, (self.row_hash_log + 8) as u32, self.mls, self.salt)
    }

    /// The number of entries of a row.
    pub open spec fn entries(self) -> nat {
        pow2(self.row_log as nat)
    }

    /// Where the row of a hash starts.
    pub open spec fn row_of(self, hash: nat) -> nat {
        (hash / 256) * self.entries()
    }

    /// Index `idx` entered into the row of `hash`.
    pub open spec fn row_entered(self, hash: nat, idx: u32) -> LazyState {
        let row = self.row_of(hash) as int;
        let pos = row_next(self.tags[row] as nat, self.entries()) as int;
        LazyState {
            tags: self.tags.update(row, pos as u8).update(row + pos, (hash % 256) as u8),
            hash: self.hash.update(row + pos, idx),
            ..self
        }
    }

    /// The hash kept for `idx` replaced by that of the position eight places
    /// on.
    pub open spec fn cache_moved(self, data: Seq<u8>, idx: u32, bias: u32) -> LazyState {
        let pos = pos_of(idx, bias);
        if pos <= data.len() - 16 {
            LazyState {
                cache: self.cache.update(idx as int % 8, self.row_hash(data, pos + 8) as u32),
                ..self
            }
        } else {
            self
        }
    }
}

/// The hashes of up to eight positions from `from` on kept, up to the index
/// `limit`.
#[verifier::opaque]
pub open spec fn cache_filled(s: LazyState, data: Seq<u8>, from: u32, limit: int, bias: u32, k: nat) -> LazyState
    decreases 8 - k,
{
    if k < 8 && from + k <= limit {
        let idx = ((from + k) % 0x1_0000_0000) as u32;
        let pos = pos_of(idx, bias);
        let s1 = if pos <= data.len() - 8 {
            LazyState { cache: s.cache.update(idx as int % 8, s.row_hash(data, pos) as u32), ..s }
        } else {
            s
        };
        cache_filled(s1, data, from, limit, bias, k + 1)
    } else {
        s
    }
}

/// The indices from `idx` up to `goal` entered into their rows.
#[verifier::opaque]
pub open spec fn rows_entered(s: LazyState, data: Seq<u8>, idx: u32, goal: u32, use_cache: bool, bias: u32) -> LazyState
    decreases goal - idx,
{
    if idx < goal {
        let pos = pos_of(idx, bias);
        let s1 = if use_cache {
            s.cache_moved(data, idx, bias).row_entered(s.cache[idx as int % 8] as nat, idx)
        } else if pos <= data.len() - 8 {
            s.row_entered(s.row_hash(data, pos), idx)
        } else {
            s
        };
        rows_entered(s1, data, (idx + 1) as u32, goal, use_cache, bias)
    } else {
        s
    }
}

/// The positions before index `target` entered; of a long gap only its first
/// and last part, where the kept hashes are used.
#[verifier::opaque]
pub open spec fn rows_at(s: LazyState, data: Seq<u8>, target: u32, use_cache: bool, bias: u32) -> LazyState {
    let far = use_cache && target - s.next > 384;
    let s1 = if far {
        cache_filled(
            rows_entered(s, data, s.next, (s.next + 96) as u32, use_cache, bias),
            data,
            (target - 32) as u32,
            target + 1,
            bias,
            0,
        )
    } else {
        s
    };
    let from = if far {
        (target - 32) as u32
    } else {
        s.next
    };
    LazyState { next: target, ..rows_entered(s1, data, from, target, use_cache, bias) }
}

/// The entries of a row whose tag is `tag`, from the `i`-th after the head on:
/// at most `left`, and none from the first below the index `lowest` on.
#[verifier::opaque]
pub open spec fn row_picks(s: LazyState, row: int, tag: u8, lowest: u32, i: nat, left: nat) -> Seq<u32>
    decreases s.entries() - i,
{
    let entries = s.entries();
    if i < entries && left > 0 {
        let pos = ((s.tags[row] as nat % entries + i) % entries) as int;
        if pos != 0 && s.tags[row + pos] == tag {
            if s.hash[row + pos] < lowest {
                Seq::empty()
            } else {
                seq![s.hash[row + pos]] + row_picks(s, row, tag, lowest, i + 1, (left - 1) as nat)
            }
        } else {
            row_picks(s, row, tag, lowest, i + 1, left)
        }
    } else {
        Seq::empty()
    }
}

/// The best of `best` and the candidates from the `i`-th on, until one reaches
/// the end.
#[verifier::opaque]
pub open spec fn picks_best(w: LazyPlace, picks: Seq<u32>, ip: int, i: nat, best: FoundView) -> FoundView
    decreases picks.len() - i,
{
    if i < picks.len() && ip + best.len < w.end {
        let idx = picks[i as int];
        picks_best(
            w,
            picks,
            ip,
            i + 1,
            better_of(w.data, ip, w.end, pos_of(idx, w.win.bias), best, w.within(idx)),
        )
    } else {
        best
    }
}

/// The same with a dictionary's candidates.
#[verifier::opaque]
pub open spec fn dict_picks_best(data: Seq<u8>, end: int, picks: Seq<u32>, ip: int, i: nat, best: FoundView) -> FoundView
    decreases picks.len() - i,
{
    if i < picks.len() && ip + best.len < end {
        dict_picks_best(
            data,
            end,
            picks,
            ip,
            i + 1,
            better_of(data, ip, end, pos_of(picks[i as int], 2), best, false),
        )
    } else {
        best
    }
}

/// The best match of the dictionary's row.
pub open spec fn dict_row_best(d: LazyState, mls: u32, data: Seq<u8>, ip: int, end: int, left: nat, best: FoundView) -> FoundView {
    if d.method != SearchMethod::RowHash {
        best
    } else {
        let hash = spec_salted_hash(data, ip, (d.row_hash_log + 8) as u32, mls, d.salt);
        let picks = row_picks(d, d.row_of(hash) as int, (hash % 256) as u8, 2, 0, left);
        dict_picks_best(data, end, picks, ip, 0, best)
    }
}

/// The best match of the position's row, and then of the dictionary's. The
/// position is entered.
#[verifier::opaque]
pub open spec fn row_best(w: LazyPlace, s: LazyState, ip: int) -> (LazyState, FoundView) {
    let bias = w.win.bias;
    let curr = index_of(ip as nat, bias);
    let budget = pow2(
        (if s.search_log < s.row_log {
            s.search_log
        } else {
            s.row_log
        }) as nat,
    );
    let s0 = rows_at(s, w.data, curr, true, bias);
    let s1 = if s.skipping {
        LazyState { next: curr, ..s }
    } else {
        s0.cache_moved(w.data, curr, bias)
    };
    let hash = if s.skipping {
        s.row_hash(w.data, ip)
    } else {
        s0.cache[curr as int % 8] as nat
    };
    let picks = row_picks(
        s1,
        s1.row_of(hash) as int,
        (hash % 256) as u8,
        spec_lowest_index(curr, w.win.low_limit, s.window_log),
        0,
        budget,
    );
    let s2 = LazyState {
        next: ((s1.next + 1) % 0x1_0000_0000) as u32,
        ..s1.row_entered(hash, s1.next)
    };
    let best = picks_best(w, picks, ip, 0, nothing_found());
    match w.dict {
        Some((d, _)) => (
            s2,
            dict_row_best(d, s.mls, w.data, ip, w.end, (budget - picks.len()) as nat, best),
        ),
        None => (s2, best),
    }
}

/// Every index with `correction` taken off.
pub open spec fn reduced_state(s: LazyState, correction: u32) -> LazyState {
    LazyState {
        hash: reduced_table(s.hash, correction, false),
        chain: if s.method == SearchMethod::RowHash {
            s.chain
        } else {
            reduced_table(s.chain, correction, s.method == SearchMethod::BinaryTree)
        },
        next: less(s.next, correction as nat),
        ..s
    }
}

} // verus!
