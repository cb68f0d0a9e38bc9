//! Which positions the match finders look at, and what a dictionary's tables
//! are taken for.

use crate::block::SeqKind;
use crate::dfast_model::{same8, scan_two, DfastPlace, Tables};
use crate::dict_encode::{dict_counts, trained_entropy};
use crate::fast_model::{same4, spec_lowest_index};
use crate::huffman_encode::HufRepeat;
use crate::lazy_model::{
    cache_filled, chain_best, chain_head, chained, chains_at, chains_entered, nothing_found, rows_at, rows_entered,
    source_len, LazyPlace, LazyState,
};
use crate::parser::{index_of, pos_of, spec_hash};
use crate::pre_split::{chunk_cut, differ, distance, event_of, recorded, sample_count, spec_split};
use crate::search_laws::law_chains_take_the_longest;
use crate::seq_tables::FseRepeat;
use vstd::arithmetic::power2::{lemma_pow2_pos, pow2};
use vstd::prelude::*;

verus! {

/// The double-fast search over two segments looks at its position: first one
/// place on for the newest offset, unless the source straddles the seam; then
/// for eight bytes, then for four. What is found goes back no further than its
/// segment.
pub proof fn law_two_segment_search(w: DfastPlace, first: u32, t: Tables, anchor: int, ip: int)
    requires
        anchor <= ip < w.end - 8,
    ensures
        ({
            let found = scan_two(w, first, t, anchor, ip).1;
            let r = ip + 1 - first;
            let whole = w.seam == 0 || r >= w.seam || r + 4 <= w.seam;
            let repeat = 0 < first <= ip + 1 && r >= w.low && whole && same4(w.data, ip + 1, r);
            let ml = pos_of(t.long[w.hash_long(ip)], w.bias);
            let ms = pos_of(t.small[w.hash_small(ip)], w.bias);
            let long = w.low < ml < ip && same8(w.data, ip, ml);
            let short = w.low < ms < ip && same4(w.data, ip, ms);
            &&& repeat ==> found is Some && found->0.repeat && found->0.ip == ip + 1 && found->0.source == r
            &&& !repeat && long ==> found is Some && !found->0.repeat && found->0.ip == ip && found->0.source == ml
                && found->0.run == 8
            &&& !repeat && !long && short ==> found is Some && !found->0.repeat && (found->0.ip == ip
                && found->0.source == ms && found->0.run == 4 || found->0.ip == ip + 1 && found->0.run == 8)
            &&& (repeat || long || short) && !found->0.repeat ==> found->0.low == if found->0.source < w.seam {
                w.low
            } else {
                w.seam
            }
        }),
{
    reveal_with_fuel(scan_two, 1);
}

/// The search along the chains looks, in the window, at the newest position
/// whose hash is that of `ip`: at `q`, or one after it.
pub proof fn law_chains_start_at_the_newest(w: LazyPlace, s: LazyState, ip: int, q: int)
    requires
        0 <= q < ip,
        ip + 8 <= w.data.len(),
        ip + w.win.bias <= u32::MAX,
        s.next <= q + w.win.bias,
        !s.skipping,
        s.search_log < 32,
        spec_hash(w.data, q, s.hash_log, s.mls) == spec_hash(w.data, ip, s.hash_log, s.mls),
        forall|p: int| #[trigger] spec_hash(w.data, p, s.hash_log, s.mls) < s.hash.len(),
    ensures
        ({
            let (after, r) = chain_best(w, s, ip);
            let newest = after.hash[spec_hash(w.data, ip, s.hash_log, s.mls) as int];
            let low = spec_lowest_index((ip + w.win.bias) as u32, w.win.low_limit, s.window_log);
            let m = newest - w.win.bias;
            &&& q <= m < ip
            &&& spec_hash(w.data, m, s.hash_log, s.mls) == spec_hash(w.data, ip, s.hash_log, s.mls)
            &&& newest >= low ==> r.len >= source_len(w.data, ip, w.end, m, 3, w.within(newest))
            &&& r.len >= 3
        }),
{
    reveal(chain_best);
    let bias = w.win.bias;
    let curr = index_of(ip as nat, bias);
    assert(curr == ip + bias);
    lemma_entered_in_turn(s, w.data, s.next, curr, bias, q, ip);
    let s1 = chains_at(s, w.data, ip, bias);
    lemma_pow2_pos(s.search_log as nat);
    law_chains_take_the_longest(
        w,
        s1.chain,
        s.chain_log,
        ip,
        spec_lowest_index(curr, w.win.low_limit, s.window_log),
        crate::lazy_model::less(curr, pow2(s.chain_log as nat)),
        chain_head(s1, w.data, ip),
        pow2(s.search_log as nat),
        nothing_found(),
    );
    if w.dict is Some {
        assert forall|
            d: LazyState,
            n: int,
            left: nat,
            best: crate::lazy_model::FoundView,
        |
            (#[trigger] crate::lazy_model::dict_chain_best(d, n, s.mls, w.data, ip, w.end, left, best)).len
                >= best.len by {
            let size = ((n + 2) % 0x1_0000_0000) as u32;
            crate::attached_laws::law_attached_chains_take_the_longest(
                w.data,
                w.end,
                d.chain,
                d.chain_log,
                ip,
                crate::lazy_model::less(size, pow2(d.chain_log as nat)),
                d.hash[spec_hash(w.data, ip, d.hash_log, s.mls) as int],
                left,
                best,
            );
        }
    }
}

proof fn lemma_entered_in_turn(s: LazyState, data: Seq<u8>, idx: u32, goal: u32, bias: u32, q: int, ip: int)
    requires
        0 <= q < ip,
        ip + 8 <= data.len(),
        bias <= u32::MAX - ip,
        goal == ip + bias,
        idx <= goal,
        !s.skipping,
        spec_hash(data, q, s.hash_log, s.mls) == spec_hash(data, ip, s.hash_log, s.mls),
        forall|p: int| #[trigger] spec_hash(data, p, s.hash_log, s.mls) < s.hash.len(),
        idx <= q + bias || ({
            let head = s.hash[spec_hash(data, ip, s.hash_log, s.mls) as int];
            &&& q + bias <= head < idx
            &&& spec_hash(data, head - bias, s.hash_log, s.mls) == spec_hash(data, ip, s.hash_log, s.mls)
        }),
    ensures
        ({
            let r = chains_entered(s, data, idx, goal, bias);
            let head = r.hash[spec_hash(data, ip, s.hash_log, s.mls) as int];
            &&& q + bias <= head < goal
            &&& spec_hash(data, head - bias, s.hash_log, s.mls) == spec_hash(data, ip, s.hash_log, s.mls)
            &&& r.hash_log == s.hash_log && r.mls == s.mls
        }),
    decreases goal - idx,
{
    reveal_with_fuel(chains_entered, 1);
    if idx < goal {
        let s1 = chained(s, data, idx, bias);
        reveal(chained);
        if idx >= bias {
            assert(pos_of(idx, bias) == idx - bias);
        }
        lemma_entered_in_turn(s1, data, (idx + 1) as u32, goal, bias, q, ip);
    }
}

// ---------------------------------------------------------------------------
// Cuts.

/// The strategies sample a block ever more densely: every 43rd byte, by the
/// byte alone; every eleventh and every fifth pair of bytes, and every pair, by
/// hashes of nine, ten and ten bits. What comes first is the first 8 KiB.
pub proof fn law_samples(block: Seq<u8>)
    ensures
        spec_split(block, 1) == chunk_cut(block, 43, 8, 0x2000, recorded(block.subrange(0, 0x2000), 43, 8), 190, 3),
        spec_split(block, 2) == chunk_cut(block, 11, 9, 0x2000, recorded(block.subrange(0, 0x2000), 11, 9), 744, 3),
        spec_split(block, 3) == chunk_cut(
            block,
            5,
            10,
            0x2000,
            recorded(block.subrange(0, 0x2000), 5, 10),
            1638,
            3,
        ),
        spec_split(block, 4) == chunk_cut(
            block,
            1,
            10,
            0x2000,
            recorded(block.subrange(0, 0x2000), 1, 10),
            8191,
            3,
        ),
{
}

/// The last sample is the last whose two bytes are there.
pub proof fn law_samples_reach_the_end(len: int, rate: int)
    requires
        len >= 2,
        rate > 0,
    ensures
        ({
            let last = (sample_count(len, rate) - 1) * rate;
            last + 2 <= len < last + rate + 2
        }),
{
    vstd::arithmetic::div_mod::lemma_fundamental_div_mod(len - 2, rate);
    vstd::arithmetic::div_mod::lemma_div_pos_is_pos(len - 2, rate);
    let q = (len - 2) / rate;
    assert(rate * q == q * rate) by (nonlinear_arith);
}

/// What is sampled is the byte, or the top bits of the two bytes times a prime.
pub proof fn law_events(a: u8, b: u8)
    ensures
        event_of(a, b, 8) == a,
        event_of(a, b, 9) == ((a + 256 * b) * 2654435769) % 0x1_0000_0000 / 0x80_0000,
        event_of(a, b, 10) == ((a + 256 * b) * 2654435769) % 0x1_0000_0000 / 0x40_0000,
{
    vstd::arithmetic::power2::lemma2_to64();
}

/// A chunk differs from what came before if the distance is fourteen sixteenths
/// of the product of their numbers of samples, and one more for each of the
/// penalty.
pub proof fn law_chunks_differ(e1: Seq<u32>, n1: int, e2: Seq<u32>, n2: int, penalty: int, hash_log: u32)
    ensures
        ({
            let d = distance(e1, n1, e2, n2, pow2(hash_log as nat));
            differ(e1, n1, e2, n2, penalty, hash_log) <==> 16 * d > n1 * n2 * (14 + penalty) - 16
        }),
{
}

/// A cut is made before the first chunk that differs from all before it; the
/// chunks before it are taken together.
pub proof fn law_cuts_are_made_where_chunks_differ(
    block: Seq<u8>,
    rate: int,
    log: u32,
    pos: int,
    past: Seq<u32>,
    past_n: int,
    penalty: int,
    all: Seq<u32>,
)
    requires
        pos >= 0,
        pos + 0x2000 <= block.len(),
        0 <= penalty,
        past.len() == 1024,
        all.len() == 1024,
        forall|v: int|
            0 <= v < 1024 ==> #[trigger] all[v] == (past[v] + recorded(
                block.subrange(pos, pos + 0x2000),
                rate,
                log,
            )[v]) as u32,
    ensures
        ({
            let e = recorded(block.subrange(pos, pos + 0x2000), rate, log);
            let n = 0x1FFFint / rate;
            let cut = chunk_cut(block, rate, log, pos, past, past_n, penalty);
            let milder = if penalty > 0 {
                penalty - 1
            } else {
                0
            };
            &&& differ(past, past_n, e, n, penalty, log) ==> cut == pos
            &&& !differ(past, past_n, e, n, penalty, log) ==> cut == chunk_cut(
                block,
                rate,
                log,
                pos + 0x2000,
                all,
                past_n + n,
                milder,
            )
        }),
{
    reveal_with_fuel(chunk_cut, 1);
    let e = recorded(block.subrange(pos, pos + 0x2000), rate, log);
    assert(all =~= crate::pre_split::added(past, e));
}

// ---------------------------------------------------------------------------
// Dictionaries.

/// The prefix code of a dictionary is used unseen only if it has a code for
/// every byte. The distributions of offsets, match lengths and literals lengths
/// follow it in this order, and the last two are used unseen only if they have
/// all their codes.
pub proof fn law_tables_of_a_dictionary(dict: Seq<u8>)
    ensures
        ({
            let e = trained_entropy(dict);
            let (weights, log, used) = crate::huffman::spec_read_weights(dict.skip(8))->Ok_0;
            let of = dict_counts(dict, 8 + used, SeqKind::Offset);
            let ml = dict_counts(dict, 8 + used + of.bytes, SeqKind::MatchLength);
            let ll = dict_counts(dict, 8 + used + of.bytes + ml.bytes, SeqKind::LiteralLength);
            &&& e.huf.repeat == HufRepeat::Valid || e.huf.repeat == HufRepeat::Check
            &&& weights.len() != 256 ==> e.huf.repeat == HufRepeat::Check
            &&& 0 < ml.counts.len() <= 256 ==> (e.ml_repeat == FseRepeat::Valid <==> ml.counts.len() >= 53
                && forall|c: int| 0 <= c <= 52 ==> #[trigger] ml.counts[c] != 0)
            &&& 0 < ll.counts.len() <= 256 ==> (e.ll_repeat == FseRepeat::Valid <==> ll.counts.len() >= 36 && forall|
                c: int,
            |
                0 <= c <= 35 ==> #[trigger] ll.counts[c] != 0)
        }),
{
    reveal(trained_entropy);
}

// ---------------------------------------------------------------------------
// Rows.

/// Of a gap of up to 384 positions all are entered; of a longer one the first
/// 96 and the last 32, as if the gap had been two.
pub proof fn law_long_gaps(s: LazyState, data: Seq<u8>, target: u32, bias: u32)
    requires
        s.next <= target,
    ensures
        target - s.next <= 384 ==> rows_at(s, data, target, true, bias) == (LazyState {
            next: target,
            ..rows_entered(s, data, s.next, target, true, bias)
        }),
        target - s.next > 384 ==> {
            let first = rows_at(s, data, (s.next + 96) as u32, true, bias);
            let kept = cache_filled(first, data, (target - 32) as u32, target + 1, bias, 0);
            rows_at(s, data, target, true, bias) == rows_at(
                LazyState { next: (target - 32) as u32, ..kept },
                data,
                target,
                true,
                bias,
            )
        },
{
    reveal(rows_at);
    if target - s.next > 384 {
        let a = rows_entered(s, data, s.next, (s.next + 96) as u32, true, bias);
        lemma_kept_apart(a, data, (target - 32) as u32, target + 1, bias, 0, (s.next + 96) as u32);
        let b = cache_filled(a, data, (target - 32) as u32, target + 1, bias, 0);
        lemma_entered_apart(b, data, (target - 32) as u32, target, bias, (target - 32) as u32);
    }
}

proof fn lemma_kept_apart(s: LazyState, data: Seq<u8>, from: u32, limit: int, bias: u32, k: nat, n: u32)
    ensures
        cache_filled(LazyState { next: n, ..s }, data, from, limit, bias, k) == (LazyState {
            next: n,
            ..cache_filled(s, data, from, limit, bias, k)
        }),
    decreases 8 - k,
{
    reveal_with_fuel(cache_filled, 1);
    if k < 8 && from + k <= limit {
        let idx = ((from + k) % 0x1_0000_0000) as u32;
        let pos = pos_of(idx, bias);
        let s1 = if pos <= data.len() - 8 {
            LazyState { cache: s.cache.update(idx as int % 8, s.row_hash(data, pos) as u32), ..s }
        } else {
            s
        };
        lemma_kept_apart(s1, data, from, limit, bias, k + 1, n);
    }
}

proof fn lemma_entered_apart(s: LazyState, data: Seq<u8>, idx: u32, goal: u32, bias: u32, n: u32)
    ensures
        rows_entered(LazyState { next: n, ..s }, data, idx, goal, true, bias) == (LazyState {
            next: n,
            ..rows_entered(s, data, idx, goal, true, bias)
        }),
    decreases goal - idx,
{
    reveal_with_fuel(rows_entered, 1);
    if idx < goal {
        let s1 = s.cache_moved(data, idx, bias).row_entered(s.cache[idx as int % 8] as nat, idx);
        lemma_entered_apart(s1, data, (idx + 1) as u32, goal, bias, n);
    }
}

/// The newest entry of a row stands before the others, at the slot that the
/// row's head names; the head goes round, leaving out its own slot.
pub proof fn law_rows_turn(s: LazyState, hash: nat, idx: u32)
    requires
        4 <= s.row_log <= 6,
        s.row_of(hash) + s.entries() <= s.tags.len(),
        s.tags.len() == s.hash.len(),
        s.tags[s.row_of(hash) as int] < s.entries(),
    ensures
        ({
            let r = s.row_entered(hash, idx);
            let row = s.row_of(hash) as int;
            let before = s.tags[row] as int;
            let now = r.tags[row] as int;
            &&& now == if before >= 2 {
                before - 1
            } else {
                pow2(s.row_log as nat) - 1
            }
            &&& r.hash[row + now] == idx
            &&& r.tags[row + now] == hash % 256
            &&& forall|i: int| 0 <= i < s.hash.len() && i != row + now ==> #[trigger] r.hash[i] == s.hash[i]
        }),
{
    vstd::arithmetic::power2::lemma2_to64();
    assert(s.entries() == 16 || s.entries() == 32 || s.entries() == 64);
    vstd::arithmetic::div_mod::lemma_small_mod(s.tags[s.row_of(hash) as int] as nat, s.entries());
}

} // verus!
