//! What the match finders know of a prefix or a dictionary that they start
//! with: for each hash, where in it that hash occurs last.

use crate::compress_model::{bytes_with_dict, copied_frame, dict_frame_bytes, dict_tables, first_offsets};
use crate::cparams::{CParams, Strategy};
use crate::dfast_model::{Logs, Tables};
use crate::dictionary::DictView;
use crate::fast_model::{all_entered, all_tagged, entered, filled_in, tag_filled_in, tagged_at, thirds_entered};
use crate::frame_model::{fresh_frame, AttachedTables, MatcherView};
use crate::lazy::loaded_state;
use crate::lazy_model::{
    chained, chains_entered, fresh_lazy, rows_at, rows_entered, spec_salted_hash, spec_use_rows, LazyState,
};
use crate::lazy_search::SearchMethod;
use crate::lazy_tree_model::all_sorted;
use crate::opt_match_model::{opt_loaded, opt_sorted, OptState};
use crate::opt_matches::fresh_opt;
use crate::parser::{index_of, pos_of, spec_hash};
use crate::tree_model::sorted_in;
use vstd::arithmetic::power2::{
    lemma2_to64, lemma2_to64_rest, lemma_pow2_adds, lemma_pow2_pos, lemma_pow2_strictly_increases, pow2,
};
use vstd::prelude::*;

verus! {

/// Which positions are entered: each of them, every third, or every third and
/// of those between the ones whose hash is new.
pub enum Entered {
    All,
    Thirds,
    ThirdsAndNew,
}

/// A hash of the bytes at a position of `data`.
pub open spec fn hash_of(data: Seq<u8>, log: u32, mls: u32) -> spec_fn(int) -> int {
    |p: int| spec_hash(data, p, log, mls) as int
}

/// The bucket of a hash; the lowest eight bits of one with a tag are the tag.
pub open spec fn bucket(hash: int, tagged: bool) -> int {
    if tagged {
        hash / 256
    } else {
        hash
    }
}

/// The index that an entry holds beside its tag.
pub open spec fn index_in(entry: u32, tagged: bool) -> int {
    if tagged {
        entry as int / 256
    } else {
        entry as int
    }
}

/// The table knows the positions before `upto`. The entry of a hash names a
/// position, before `stop`, that has this hash (and its tag), and for each of
/// the positions that are always entered this one or a later one; positions
/// count from 2, and 0 stands for none.
pub open spec fn knows(
    t: Seq<u32>,
    hash: spec_fn(int) -> int,
    which: Entered,
    tagged: bool,
    upto: int,
    stop: int,
) -> bool {
    &&& forall|p: int|
        0 <= p < upto && (p % 3 == 0 || which is All) ==> index_in(
            t[bucket(#[trigger] hash(p), tagged)],
            tagged,
        ) >= p + 2
    &&& which is ThirdsAndNew ==> forall|p: int|
        0 <= p < upto ==> t[bucket(#[trigger] hash(p), tagged)] != 0
    &&& forall|i: int|
        0 <= i < t.len() && #[trigger] t[i] != 0 ==> {
            let q = index_in(t[i], tagged) - 2;
            &&& 0 <= q < stop
            &&& which is Thirds ==> q % 3 == 0
            &&& bucket(hash(q), tagged) == i
            &&& tagged ==> hash(q) % 256 == t[i] % 256
        }
}

/// A hash of `log` bits is less than two to that power.
proof fn lemma_hash_bound(data: Seq<u8>, p: int, log: u32, mls: u32)
    requires
        1 <= log <= 32,
    ensures
        spec_hash(data, p, log, mls) < pow2(log as nat),
{
    reveal(spec_hash);
    if mls < 5 || mls > 8 {
        let v = (crate::math::bits_at(data, (8 * p) as nat, 32) as u32).wrapping_mul(2654435761);
        lemma_top_bits(v as nat, 32, log as nat);
    } else {
        let x = crate::math::bits_at(data, (8 * p) as nat, 64);
        let v = if mls == 5 {
            ((x % pow2(40)) as u64).wrapping_mul(0x100_0000).wrapping_mul(889523592379)
        } else if mls == 6 {
            ((x % pow2(48)) as u64).wrapping_mul(0x1_0000).wrapping_mul(227718039650203)
        } else if mls == 7 {
            ((x % pow2(56)) as u64).wrapping_mul(0x100).wrapping_mul(58295818150454627)
        } else {
            (x as u64).wrapping_mul(0xCF1B_BCDC_B7A5_6463)
        };
        lemma_top_bits(v as nat, 64, log as nat);
    }
}

/// The top bits of a number.
proof fn lemma_top_bits(v: nat, width: nat, log: nat)
    requires
        width == 32 || width == 64,
        1 <= log <= 32,
        width == 32 ==> v <= u32::MAX,
        width == 64 ==> v <= u64::MAX,
    ensures
        v / pow2((width - log) as nat) < pow2(log),
{
    lemma2_to64();
    lemma2_to64_rest();
    let p = pow2((width - log) as nat) as int;
    let q = pow2(log) as int;
    lemma_pow2_adds(log, (width - log) as nat);
    lemma_pow2_pos((width - log) as nat);
    assert(v as int / p < q) by (nonlinear_arith)
        requires
            (v as int) < q * p,
            p > 0,
            v >= 0,
    ;
}

/// The bucket of a tagged hash.
proof fn lemma_tagged_bound(data: Seq<u8>, p: int, log: u32, mls: u32)
    requires
        1 <= log <= 24,
    ensures
        0 <= spec_hash(data, p, (log + 8) as u32, mls) as int / 256 < pow2(log as nat),
{
    lemma_hash_bound(data, p, (log + 8) as u32, mls);
    lemma2_to64();
    lemma_pow2_adds(8, log as nat);
    let x = spec_hash(data, p, (log + 8) as u32, mls) as int;
    let q = pow2(log as nat) as int;
    assert(x / 256 < q) by (nonlinear_arith)
        requires
            0 <= x < 256 * q,
    ;
}

/// An empty table knows nothing, and needs nothing.
proof fn lemma_empty(n: nat, hash: spec_fn(int) -> int, which: Entered, tagged: bool, stop: int)
    ensures
        knows(Seq::new(n, |i: int| 0u32), hash, which, tagged, 0, stop),
{
}

// ---------------------------------------------------------------------------
// The fast finders.

proof fn lemma_thirds(t: Seq<u32>, data: Seq<u8>, ip: int, len: int, log: u32, mls: u32)
    requires
        1 <= log <= 32,
        t.len() == pow2(log as nat),
        0 <= ip,
        ip % 3 == 0,
        len + 2 <= u32::MAX,
        knows(t, hash_of(data, log, mls), Entered::Thirds, false, ip, len - 9),
    ensures
        thirds_entered(t, data, ip, len, log, mls, 2).len() == t.len(),
        knows(
            thirds_entered(t, data, ip, len, log, mls, 2),
            hash_of(data, log, mls),
            Entered::Thirds,
            false,
            len - 9,
            len - 9,
        ),
    decreases len - ip,
{
    if ip < len - 9 {
        let h = hash_of(data, log, mls);
        lemma_hash_bound(data, ip, log, mls);
        let t1 = entered(t, data, ip, log, mls, 2);
        assert(t1 == t.update(h(ip), (ip + 2) as u32));
        assert(knows(t1, h, Entered::Thirds, false, ip + 3, len - 9)) by {
            assert forall|p: int| 0 <= p < ip + 3 && p % 3 == 0 implies t1[bucket(
                #[trigger] h(p),
                false,
            )] >= p + 2 by {
                lemma_hash_bound(data, p, log, mls);
            }
        }
        lemma_thirds(t1, data, ip + 3, len, log, mls);
    }
}

proof fn lemma_filled(t: Seq<u32>, data: Seq<u8>, p: int, from: int, len: int, log: u32, mls: u32)
    requires
        1 <= log <= 32,
        t.len() == pow2(log as nat),
        from % 3 == 0,
        0 <= from < p <= from + 2,
        from < len - 9,
        len + 2 <= u32::MAX,
        knows(t, hash_of(data, log, mls), Entered::ThirdsAndNew, false, p, len - 7),
    ensures
        filled_in(t, data, p, log, mls, 2).len() == t.len(),
        knows(
            filled_in(t, data, p, log, mls, 2),
            hash_of(data, log, mls),
            Entered::ThirdsAndNew,
            false,
            p + 1,
            len - 7,
        ),
{
    let h = hash_of(data, log, mls);
    lemma_hash_bound(data, p, log, mls);
    let t1 = filled_in(t, data, p, log, mls, 2);
    assert(t1 == t || t1 == t.update(h(p), (p + 2) as u32) && t[h(p)] == 0);
    assert forall|q: int| 0 <= q < p + 1 && q % 3 == 0 implies t1[bucket(#[trigger] h(q), false)] >= q
        + 2 by {
        lemma_hash_bound(data, q, log, mls);
    }
    assert forall|q: int| 0 <= q < p + 1 implies t1[bucket(#[trigger] h(q), false)] != 0 by {
        lemma_hash_bound(data, q, log, mls);
    }
}

#[verifier::rlimit(30)]
proof fn lemma_all(t: Seq<u32>, data: Seq<u8>, ip: int, len: int, log: u32, mls: u32)
    requires
        1 <= log <= 32,
        t.len() == pow2(log as nat),
        0 <= ip,
        ip % 3 == 0,
        len + 2 <= u32::MAX,
        knows(t, hash_of(data, log, mls), Entered::ThirdsAndNew, false, ip, len - 7),
    ensures
        all_entered(t, data, ip, len, log, mls, 2).len() == t.len(),
        knows(
            all_entered(t, data, ip, len, log, mls, 2),
            hash_of(data, log, mls),
            Entered::ThirdsAndNew,
            false,
            len - 9,
            len - 7,
        ),
    decreases len - ip,
{
    if ip < len - 9 {
        let h = hash_of(data, log, mls);
        lemma_hash_bound(data, ip, log, mls);
        let t0 = entered(t, data, ip, log, mls, 2);
        assert(t0 == t.update(h(ip), (ip + 2) as u32));
        assert(knows(t0, h, Entered::ThirdsAndNew, false, ip + 1, len - 7)) by {
            assert forall|p: int| 0 <= p < ip + 1 && p % 3 == 0 implies t0[bucket(
                #[trigger] h(p),
                false,
            )] >= p + 2 by {
                lemma_hash_bound(data, p, log, mls);
            }
            assert forall|p: int| 0 <= p < ip + 1 implies t0[bucket(#[trigger] h(p), false)] != 0 by {
                lemma_hash_bound(data, p, log, mls);
            }
        }
        lemma_filled(t0, data, ip + 1, ip, len, log, mls);
        let t1 = filled_in(t0, data, ip + 1, log, mls, 2);
        lemma_filled(t1, data, ip + 2, ip, len, log, mls);
        let t2 = filled_in(t1, data, ip + 2, log, mls, 2);
        lemma_all(t2, data, ip + 3, len, log, mls);
    }
}

/// A tagged entry is put together from its index and tag, and comes apart.
proof fn lemma_tagged_entry(p: int, tag: nat)
    requires
        0 <= p,
        p + 2 < 0x100_0000,
        tag < 256,
    ensures
        ({
            let v = crate::fast_model::tagged(index_of(p as nat, 2), tag) as u32;
            &&& v == (p + 2) * 256 + tag
            &&& v as int / 256 == p + 2
            &&& v % 256 == tag
        }),
{
}

#[verifier::rlimit(30)]
proof fn lemma_tag_put(
    t: Seq<u32>,
    data: Seq<u8>,
    p: int,
    len: int,
    log: u32,
    mls: u32,
    which: Entered,
)
    requires
        1 <= log <= 24,
        t.len() == pow2(log as nat),
        0 <= p < len - 7,
        len + 2 < 0x100_0000,
        which is Thirds || which is ThirdsAndNew,
        which is Thirds ==> p % 3 == 0 && p < len - 9,
        knows(
            t,
            hash_of(data, (log + 8) as u32, mls),
            which,
            true,
            p,
            if which is Thirds {
                len - 9
            } else {
                len - 7
            },
        ),
        p % 3 == 0 || t[spec_hash(data, p, (log + 8) as u32, mls) as int / 256] == 0,
    ensures
        tagged_at(t, data, p, log, mls, 2).len() == t.len(),
        knows(
            tagged_at(t, data, p, log, mls, 2),
            hash_of(data, (log + 8) as u32, mls),
            which,
            true,
            p + 1,
            if which is Thirds {
                len - 9
            } else {
                len - 7
            },
        ),
{
    let h = hash_of(data, (log + 8) as u32, mls);
    lemma_tagged_bound(data, p, log, mls);
    lemma_tagged_entry(p, (h(p) % 256) as nat);
    let t1 = tagged_at(t, data, p, log, mls, 2);
    let v = crate::fast_model::tagged(index_of(p as nat, 2), (h(p) % 256) as nat) as u32;
    assert(t1 == t.update(h(p) / 256, v));
    assert forall|q: int| 0 <= q < p + 1 && q % 3 == 0 implies index_in(
        t1[bucket(#[trigger] h(q), true)],
        true,
    ) >= q + 2 by {
        lemma_tagged_bound(data, q, log, mls);
    }
    if which is ThirdsAndNew {
        assert forall|q: int| 0 <= q < p + 1 implies t1[bucket(#[trigger] h(q), true)] != 0 by {
            lemma_tagged_bound(data, q, log, mls);
        }
    }
}

proof fn lemma_tag_filled(t: Seq<u32>, data: Seq<u8>, p: int, from: int, len: int, log: u32, mls: u32)
    requires
        1 <= log <= 24,
        t.len() == pow2(log as nat),
        from % 3 == 0,
        0 <= from < p <= from + 2,
        from < len - 9,
        len + 2 < 0x100_0000,
        knows(t, hash_of(data, (log + 8) as u32, mls), Entered::ThirdsAndNew, true, p, len - 7),
    ensures
        tag_filled_in(t, data, p, log, mls, 2).len() == t.len(),
        knows(
            tag_filled_in(t, data, p, log, mls, 2),
            hash_of(data, (log + 8) as u32, mls),
            Entered::ThirdsAndNew,
            true,
            p + 1,
            len - 7,
        ),
{
    let h = hash_of(data, (log + 8) as u32, mls);
    lemma_tagged_bound(data, p, log, mls);
    if t[spec_hash(data, p, (log + 8) as u32, mls) as int / 256] == 0 {
        lemma_tag_put(t, data, p, len, log, mls, Entered::ThirdsAndNew);
    } else {
        assert(t[bucket(h(p), true)] != 0);
    }
}

proof fn lemma_all_tagged(t: Seq<u32>, data: Seq<u8>, ip: int, len: int, log: u32, mls: u32)
    requires
        1 <= log <= 24,
        t.len() == pow2(log as nat),
        0 <= ip,
        ip % 3 == 0,
        len + 2 < 0x100_0000,
        knows(t, hash_of(data, (log + 8) as u32, mls), Entered::ThirdsAndNew, true, ip, len - 7),
    ensures
        all_tagged(t, data, ip, len, log, mls, 2).len() == t.len(),
        knows(
            all_tagged(t, data, ip, len, log, mls, 2),
            hash_of(data, (log + 8) as u32, mls),
            Entered::ThirdsAndNew,
            true,
            len - 9,
            len - 7,
        ),
    decreases len - ip,
{
    if ip < len - 9 {
        lemma_tag_put(t, data, ip, len, log, mls, Entered::ThirdsAndNew);
        let t0 = tagged_at(t, data, ip, log, mls, 2);
        lemma_tag_filled(t0, data, ip + 1, ip, len, log, mls);
        let t1 = tag_filled_in(t0, data, ip + 1, log, mls, 2);
        lemma_tag_filled(t1, data, ip + 2, ip, len, log, mls);
        let t2 = tag_filled_in(t1, data, ip + 2, log, mls, 2);
        lemma_all_tagged(t2, data, ip + 3, len, log, mls);
    }
}

/// The two tables of the double-fast finder are filled each for itself.
proof fn lemma_dfast_thirds(t: Tables, data: Seq<u8>, ip: int, len: int, k: Logs)
    ensures
        crate::dfast_model::thirds_entered(t, data, ip, len, k, 2).long == thirds_entered(
            t.long,
            data,
            ip,
            len,
            k.long,
            8,
            2,
        ),
        crate::dfast_model::thirds_entered(t, data, ip, len, k, 2).small == thirds_entered(
            t.small,
            data,
            ip,
            len,
            k.small,
            k.mls,
            2,
        ),
    decreases len - ip,
{
    if ip < len - 9 {
        lemma_dfast_thirds(t.with(data, ip, k, 2), data, ip + 3, len, k);
    }
}

proof fn lemma_dfast_all(t: Tables, data: Seq<u8>, ip: int, len: int, k: Logs)
    ensures
        crate::dfast_model::all_entered(t, data, ip, len, k, 2).long == all_entered(
            t.long,
            data,
            ip,
            len,
            k.long,
            8,
            2,
        ),
        crate::dfast_model::all_entered(t, data, ip, len, k, 2).small == thirds_entered(
            t.small,
            data,
            ip,
            len,
            k.small,
            k.mls,
            2,
        ),
    decreases len - ip,
{
    if ip < len - 9 {
        let t0 = t.with(data, ip, k, 2);
        let l1 = filled_in(t0.long, data, ip + 1, k.long, 8, 2);
        let l2 = filled_in(l1, data, ip + 2, k.long, 8, 2);
        lemma_dfast_all(Tables { long: l2, ..t0 }, data, ip + 3, len, k);
    }
}

proof fn lemma_dfast_all_tagged(t: Tables, data: Seq<u8>, ip: int, len: int, k: Logs)
    requires
        1 <= k.small <= 24,
        t.small.len() == pow2(k.small as nat),
        0 <= ip,
        ip % 3 == 0,
        len + 2 < 0x100_0000,
        knows(
            t.small,
            hash_of(data, (k.small + 8) as u32, k.mls),
            Entered::Thirds,
            true,
            ip,
            len - 9,
        ),
    ensures
        crate::dfast_model::all_tagged(t, data, ip, len, k, 2).long == all_tagged(
            t.long,
            data,
            ip,
            len,
            k.long,
            8,
            2,
        ),
        knows(
            crate::dfast_model::all_tagged(t, data, ip, len, k, 2).small,
            hash_of(data, (k.small + 8) as u32, k.mls),
            Entered::Thirds,
            true,
            len - 9,
            len - 9,
        ),
    decreases len - ip,
{
    if ip < len - 9 {
        let h = hash_of(data, (k.small + 8) as u32, k.mls);
        let l0 = tagged_at(t.long, data, ip, k.long, 8, 2);
        let l1 = tag_filled_in(l0, data, ip + 1, k.long, 8, 2);
        let l2 = tag_filled_in(l1, data, ip + 2, k.long, 8, 2);
        lemma_tag_put(t.small, data, ip, len, k.small, k.mls, Entered::Thirds);
        let s0 = tagged_at(t.small, data, ip, k.small, k.mls, 2);
        assert(knows(s0, h, Entered::Thirds, true, ip + 3, len - 9));
        lemma_dfast_all_tagged(Tables { long: l2, small: s0 }, data, ip + 3, len, k);
    }
}

// ---------------------------------------------------------------------------
// Chains, rows and trees.

/// Position `p` is followed in its chain by the last position before it that
/// has the same hash.
pub open spec fn link_is_previous(s: LazyState, data: Seq<u8>, p: int) -> bool {
    let hash = hash_of(data, s.hash_log, s.mls);
    let link = s.chain[(p + 2) % pow2(s.chain_log as nat) as int];
    &&& link != 0 ==> 2 <= link < p + 2 && hash(link - 2) == hash(p)
    &&& forall|q: int| 0 <= q < p && #[trigger] hash(q) == hash(p) ==> link >= q + 2
}

/// So are all positions before `upto` that the chain table still has room for.
pub open spec fn linked(s: LazyState, data: Seq<u8>, upto: int) -> bool {
    forall|p: int|
        0 <= p < upto && p >= upto - pow2(s.chain_log as nat) ==> #[trigger] link_is_previous(s, data, p)
}

/// Different numbers less than `n` apart have different remainders.
proof fn lemma_apart(a: int, b: int, n: int)
    requires
        n > 0,
        0 < b - a < n,
    ensures
        a % n != b % n,
{
    vstd::arithmetic::div_mod::lemma_fundamental_div_mod(a, n);
    vstd::arithmetic::div_mod::lemma_fundamental_div_mod(b, n);
    if a % n == b % n {
        let x = a / n;
        let y = b / n;
        assert(false) by (nonlinear_arith)
            requires
                n > 0,
                0 < b - a < n,
                a == n * x + a % n,
                b == n * y + b % n,
                a % n == b % n,
        ;
    }
}

#[verifier::rlimit(40)]
proof fn lemma_chain_step(s: LazyState, data: Seq<u8>, p: int)
    requires
        1 <= s.hash_log <= 32,
        s.hash.len() == pow2(s.hash_log as nat),
        s.chain.len() == pow2(s.chain_log as nat),
        0 <= p <= data.len() - 8,
        p + 2 < u32::MAX,
        knows(s.hash, hash_of(data, s.hash_log, s.mls), Entered::All, false, p, p),
        linked(s, data, p),
    ensures
        ({
            let s1 = chained(s, data, (p + 2) as u32, 2);
            &&& s1 == (LazyState { hash: s1.hash, chain: s1.chain, ..s })
            &&& s1.hash.len() == s.hash.len()
            &&& s1.chain.len() == s.chain.len()
            &&& knows(s1.hash, hash_of(data, s.hash_log, s.mls), Entered::All, false, p + 1, p + 1)
            &&& linked(s1, data, p + 1)
        }),
{
    let idx = (p + 2) as u32;
    assert(pos_of(idx, 2) == p);
    let h = hash_of(data, s.hash_log, s.mls);
    lemma_hash_bound(data, p, s.hash_log, s.mls);
    lemma_pow2_pos(s.chain_log as nat);
    let n = pow2(s.chain_log as nat) as int;
    let s1 = chained(s, data, idx, 2);
    let head = s.hash[h(p)];
    vstd::arithmetic::div_mod::lemma_mod_bound(p + 2, n);
    assert(s1.hash == s.hash.update(h(p), idx));
    assert(s1.chain == s.chain.update((p + 2) % n, head));
    assert(knows(s1.hash, h, Entered::All, false, p + 1, p + 1)) by {
        assert forall|q: int| 0 <= q < p + 1 implies s1.hash[bucket(#[trigger] h(q), false)] >= q + 2 by {
            lemma_hash_bound(data, q, s.hash_log, s.mls);
        }
    }
    assert forall|q: int| 0 <= q < p + 1 && q >= p + 1 - n implies #[trigger] link_is_previous(
        s1,
        data,
        q,
    ) by {
        if q < p {
            lemma_apart(q + 2, p + 2, n);
            vstd::arithmetic::div_mod::lemma_mod_bound(q + 2, n);
            assert(link_is_previous(s, data, q));
            assert(s1.chain[(q + 2) % n] == s.chain[(q + 2) % n]);
        } else {
            assert(s1.chain[(p + 2) % n] == head);
            assert(head != 0 ==> 2 <= head < p + 2 && h(head - 2) == h(p));
            assert forall|r: int| 0 <= r < p && #[trigger] h(r) == h(p) implies head >= r + 2 by {
                assert(s.hash[bucket(h(r), false)] >= r + 2);
            }
        }
    }
}

proof fn lemma_chains(s: LazyState, data: Seq<u8>, idx: u32, goal: u32)
    requires
        !s.skipping,
        1 <= s.hash_log <= 32,
        s.hash.len() == pow2(s.hash_log as nat),
        s.chain.len() == pow2(s.chain_log as nat),
        2 <= idx <= goal,
        goal - 2 <= data.len() - 8,
        knows(s.hash, hash_of(data, s.hash_log, s.mls), Entered::All, false, idx - 2, idx - 2),
        linked(s, data, idx - 2),
    ensures
        ({
            let s1 = chains_entered(s, data, idx, goal, 2);
            &&& s1 == (LazyState { hash: s1.hash, chain: s1.chain, ..s })
            &&& knows(
                s1.hash,
                hash_of(data, s.hash_log, s.mls),
                Entered::All,
                false,
                goal - 2,
                goal - 2,
            )
            &&& linked(s1, data, goal - 2)
        }),
    decreases goal - idx,
{
    reveal_with_fuel(chains_entered, 1);
    if idx < goal {
        lemma_chain_step(s, data, idx - 2);
        let s1 = chained(s, data, idx, 2);
        lemma_chains(s1, data, (idx + 1) as u32, goal);
    }
}

/// The newest entry of the row of position `p` names a position of that row,
/// before `stop`, this one or a later one, and has its tag.
pub open spec fn row_knows(s: LazyState, data: Seq<u8>, p: int, stop: int) -> bool {
    let row = s.row_of(s.row_hash(data, p)) as int;
    let newest = s.tags[row];
    let idx = s.hash[row + newest];
    &&& 1 <= newest < s.entries()
    &&& p + 2 <= idx < stop + 2
    &&& s.row_of(s.row_hash(data, idx - 2)) == row
    &&& s.row_hash(data, idx - 2) % 256 == s.tags[row + newest]
}

pub open spec fn rows_know(s: LazyState, data: Seq<u8>, upto: int) -> bool {
    forall|p: int| 0 <= p < upto ==> #[trigger] row_knows(s, data, p, upto)
}

pub open spec fn rows_fit(s: LazyState) -> bool {
    &&& s.row_hash_log <= 24
    &&& 1 <= s.row_log <= 6
    &&& s.row_hash_log + s.row_log == s.hash_log
    &&& s.hash.len() == pow2(s.hash_log as nat)
    &&& s.tags.len() == pow2(s.hash_log as nat)
}

/// A row lies within the table.
proof fn lemma_row_bound(s: LazyState, data: Seq<u8>, p: int)
    requires
        rows_fit(s),
    ensures
        s.row_of(s.row_hash(data, p)) + s.entries() <= s.hash.len(),
        2 <= s.entries() <= 64,
{
    let bits = (s.row_hash_log + 8) as u32;
    let hash = s.row_hash(data, p);
    reveal(spec_salted_hash);
    lemma2_to64();
    lemma2_to64_rest();
    let x = crate::math::bits_at(data, (8 * p) as nat, 64);
    if s.mls == 5 {
        let v = ((x % pow2(40)) as u64).wrapping_mul(0x100_0000).wrapping_mul(889523592379);
        lemma_top_bits((v ^ s.salt) as nat, 64, bits as nat);
    } else if s.mls == 6 {
        let v = ((x % pow2(48)) as u64).wrapping_mul(0x1_0000).wrapping_mul(227718039650203);
        lemma_top_bits((v ^ s.salt) as nat, 64, bits as nat);
    } else {
        let v = (crate::math::bits_at(data, (8 * p) as nat, 32) as u32).wrapping_mul(2654435761);
        lemma_top_bits((v ^ ((s.salt as nat % pow2(32)) as u32)) as nat, 32, bits as nat);
    }
    lemma_pow2_adds(8, s.row_hash_log as nat);
    lemma_pow2_adds(s.row_hash_log as nat, s.row_log as nat);
    if s.row_log > 1 {
        lemma_pow2_strictly_increases(1, s.row_log as nat);
    }
    if s.row_log < 6 {
        lemma_pow2_strictly_increases(s.row_log as nat, 6);
    }
    let q = pow2(s.row_hash_log as nat) as int;
    let e = s.entries() as int;
    let r = hash as int / 256;
    assert(r + 1 <= q) by (nonlinear_arith)
        requires
            0 <= hash < 256 * q,
            r == hash as int / 256,
    ;
    assert(r * e + e <= q * e) by (nonlinear_arith)
        requires
            r + 1 <= q,
            e > 0,
    ;
}

/// Rows do not overlap.
proof fn lemma_rows_apart(a: int, b: int, e: int)
    requires
        e > 0,
        a * e != b * e,
    ensures
        a * e + e <= b * e || b * e + e <= a * e,
{
    assert(a * e + e <= b * e || b * e + e <= a * e) by (nonlinear_arith)
        requires
            e > 0,
            a * e != b * e,
    ;
}

#[verifier::rlimit(40)]
proof fn lemma_row_step(s: LazyState, data: Seq<u8>, p: int)
    requires
        rows_fit(s),
        0 <= p,
        p + 2 <= u32::MAX,
        rows_know(s, data, p),
    ensures
        ({
            let s1 = s.row_entered(s.row_hash(data, p), (p + 2) as u32);
            &&& rows_fit(s1)
            &&& rows_know(s1, data, p + 1)
        }),
{
    let hash = s.row_hash(data, p);
    let s1 = s.row_entered(hash, (p + 2) as u32);
    lemma_row_bound(s, data, p);
    let e = s.entries() as int;
    let r0 = s.row_of(hash) as int;
    let k0 = crate::lazy_model::row_next(s.tags[r0] as nat, s.entries()) as int;
    vstd::arithmetic::div_mod::lemma_mod_bound(s.tags[r0] as int, e);
    assert(1 <= k0 < e);
    assert forall|q: int| 0 <= q < p + 1 implies #[trigger] row_knows(s1, data, q, p + 1) by {
        lemma_row_bound(s, data, q);
        assert(s1.row_hash(data, q) == s.row_hash(data, q));
        let r = s.row_of(s.row_hash(data, q)) as int;
        assert(s1.row_of(s.row_hash(data, q)) == r);
        assert(s1.entries() == e);
        if r == r0 {
            assert(s1.tags[r0] == k0);
            assert(s1.hash[r0 + k0] == p + 2);
            assert(s1.tags[r0 + k0] == hash % 256);
            assert(s1.row_hash(data, p) == hash);
        } else {
            assert(q < p);
            assert(row_knows(s, data, q, p));
            let k = s.tags[r] as int;
            let idx = s.hash[r + k];
            lemma_rows_apart(s.row_hash(data, q) as int / 256, hash as int / 256, e);
            assert(s1.tags[r] == s.tags[r]);
            assert(s1.tags[r + k] == s.tags[r + k]);
            assert(s1.hash[r + k] == s.hash[r + k]);
            assert(s1.row_hash(data, idx - 2) == s.row_hash(data, idx - 2));
        }
    }
}

proof fn lemma_rows(s: LazyState, data: Seq<u8>, idx: u32, goal: u32)
    requires
        rows_fit(s),
        2 <= idx <= goal,
        goal - 2 <= data.len() - 8,
        rows_know(s, data, idx - 2),
    ensures
        rows_fit(rows_entered(s, data, idx, goal, false, 2)),
        rows_know(rows_entered(s, data, idx, goal, false, 2), data, goal - 2),
        ({
            let s1 = rows_entered(s, data, idx, goal, false, 2);
            s1 == (LazyState { hash: s1.hash, tags: s1.tags, ..s })
        }),
    decreases goal - idx,
{
    reveal_with_fuel(rows_entered, 1);
    if idx < goal {
        assert(pos_of(idx, 2) == idx - 2);
        lemma_row_step(s, data, idx - 2);
        let s1 = s.row_entered(s.row_hash(data, idx - 2), idx);
        lemma_rows(s1, data, (idx + 1) as u32, goal);
    }
}

/// Sorting a position in makes it the root of the tree of its hash.
proof fn lemma_root(
    hash: Seq<u32>,
    table: Seq<u32>,
    data: Seq<u8>,
    p: int,
    end: int,
    low: u32,
    hash_log: u32,
    mls: u32,
    chain_log: u32,
    search_log: u32,
    upto: int,
    stop: int,
)
    requires
        1 <= hash_log <= 32,
        hash.len() == pow2(hash_log as nat),
        0 <= p < stop,
        p + 2 <= u32::MAX,
        upto == 1 || p == 0,
        0 <= upto <= 1,
        knows(hash, hash_of(data, hash_log, mls), Entered::All, false, upto, stop),
    ensures
        ({
            let r = sorted_in(
                hash,
                table,
                data,
                p,
                end,
                2,
                low,
                spec_hash(data, p, hash_log, mls) as int,
                chain_log,
                search_log,
            );
            &&& r.hash.len() == hash.len()
            &&& r.hash[spec_hash(data, p, hash_log, mls) as int] == p + 2
            &&& knows(r.hash, hash_of(data, hash_log, mls), Entered::All, false, 1, stop)
        }),
{
    reveal(sorted_in);
    let h = hash_of(data, hash_log, mls);
    lemma_hash_bound(data, p, hash_log, mls);
    let t1 = hash.update(h(p), (p + 2) as u32);
    assert forall|q: int| 0 <= q < 1 implies t1[bucket(#[trigger] h(q), false)] >= q + 2 by {
        lemma_hash_bound(data, q, hash_log, mls);
    }
}

proof fn lemma_lazy_trees(s: LazyState, data: Seq<u8>, idx: u32, goal: u32, end: int, low: u32, upto: int)
    requires
        1 <= s.hash_log <= 32,
        s.hash.len() == pow2(s.hash_log as nat),
        2 <= idx <= goal,
        goal - 2 <= end - 8,
        upto == 1 || upto == 0 && idx == 2 && idx < goal,
        knows(s.hash, hash_of(data, s.hash_log, s.mls), Entered::All, false, upto, goal - 2),
    ensures
        ({
            let s1 = all_sorted(s, data, idx, goal, end, 2, low);
            &&& s1 == (LazyState { hash: s1.hash, chain: s1.chain, ..s })
            &&& knows(s1.hash, hash_of(data, s.hash_log, s.mls), Entered::All, false, 1, goal - 2)
        }),
    decreases goal - idx,
{
    reveal_with_fuel(all_sorted, 1);
    if idx < goal {
        let p = idx - 2;
        assert(pos_of(idx, 2) == p);
        lemma_root(
            s.hash,
            s.chain,
            data,
            p,
            end,
            low,
            s.hash_log,
            s.mls,
            s.chain_log,
            s.search_log,
            upto,
            goal - 2,
        );
        let r = sorted_in(
            s.hash,
            s.chain,
            data,
            p,
            end,
            2,
            low,
            spec_hash(data, p, s.hash_log, s.mls) as int,
            s.chain_log,
            s.search_log,
        );
        let s1 = LazyState { hash: r.hash, chain: r.table, ..s };
        let forward = if r.forward > 1 {
            r.forward
        } else {
            1
        };
        let next = if forward < goal - idx {
            (idx + forward) as u32
        } else {
            goal
        };
        lemma_lazy_trees(s1, data, next, goal, end, low, 1);
    }
}

proof fn lemma_opt_trees(s: OptState, data: Seq<u8>, idx: u32, goal: u32, end: int, low: u32, upto: int)
    requires
        1 <= s.hash_log <= 32,
        s.hash.len() == pow2(s.hash_log as nat),
        2 <= idx <= goal,
        goal - 2 <= end - 8,
        upto == 1 || upto == 0 && idx == 2 && idx < goal,
        knows(s.hash, hash_of(data, s.hash_log, s.mls), Entered::All, false, upto, goal - 2),
    ensures
        ({
            let s1 = opt_sorted(s, data, idx, goal, end, 2, low);
            &&& s1 == (OptState { hash: s1.hash, tree: s1.tree, ..s })
            &&& knows(s1.hash, hash_of(data, s.hash_log, s.mls), Entered::All, false, 1, goal - 2)
        }),
    decreases goal - idx,
{
    reveal_with_fuel(opt_sorted, 1);
    if idx < goal {
        let p = idx - 2;
        assert(pos_of(idx, 2) == p);
        lemma_root(
            s.hash,
            s.tree,
            data,
            p,
            end,
            low,
            s.hash_log,
            s.mls,
            s.chain_log,
            s.search_log,
            upto,
            goal - 2,
        );
        let r = sorted_in(
            s.hash,
            s.tree,
            data,
            p,
            end,
            2,
            low,
            spec_hash(data, p, s.hash_log, s.mls) as int,
            s.chain_log,
            s.search_log,
        );
        let s1 = OptState { hash: r.hash, tree: r.table, ..s };
        let forward = if r.forward > 1 {
            r.forward
        } else {
            1
        };
        let next = if forward < goal - idx {
            (idx + forward) as u32
        } else {
            goal
        };
        lemma_opt_trees(s1, data, next, goal, end, low, 1);
    }
}

/// The positions that are sorted in, from index `idx` on up to `goal`: after
/// each one those that a long match covers are passed over, and no others.
pub open spec fn stops(
    hash: Seq<u32>,
    table: Seq<u32>,
    data: Seq<u8>,
    idx: u32,
    goal: u32,
    end: int,
    low: u32,
    k: TreeLogs,
) -> Seq<int>
    decreases goal - idx,
{
    if 2 <= idx < goal {
        let p = idx - 2;
        let r = sorted_in(
            hash,
            table,
            data,
            p,
            end,
            2,
            low,
            spec_hash(data, p, k.hash_log, k.mls) as int,
            k.chain_log,
            k.search_log,
        );
        let next = if r.forward <= 1 {
            (idx + 1) as u32
        } else if r.forward < goal - idx {
            (idx + r.forward) as u32
        } else {
            goal
        };
        seq![p] + stops(r.hash, r.table, data, next, goal, end, low, k)
    } else {
        Seq::empty()
    }
}

/// The numbers that trees are kept with.
pub struct TreeLogs {
    pub hash_log: u32,
    pub mls: u32,
    pub chain_log: u32,
    pub search_log: u32,
}

/// The root of the tree of each stop's hash is that stop or a later one.
pub open spec fn roots_know(hash: Seq<u32>, data: Seq<u8>, k: TreeLogs, at: Seq<int>) -> bool {
    forall|i: int|
        0 <= i < at.len() ==> hash[spec_hash(data, #[trigger] at[i], k.hash_log, k.mls) as int] >= at[i]
            + 2
}

/// No root comes down.
pub open spec fn roots_rise(before: Seq<u32>, after: Seq<u32>) -> bool {
    &&& before.len() == after.len()
    &&& forall|i: int| 0 <= i < after.len() ==> #[trigger] after[i] >= before[i]
}

/// Entries below `limit`.
pub open spec fn all_below(hash: Seq<u32>, limit: int) -> bool {
    forall|i: int| 0 <= i < hash.len() ==> #[trigger] hash[i] < limit
}

proof fn lemma_root_rises(
    hash: Seq<u32>,
    table: Seq<u32>,
    data: Seq<u8>,
    p: int,
    end: int,
    low: u32,
    k: TreeLogs,
)
    requires
        1 <= k.hash_log <= 32,
        hash.len() == pow2(k.hash_log as nat),
        0 <= p,
        p + 2 <= u32::MAX,
        all_below(hash, p + 2),
    ensures
        ({
            let h = spec_hash(data, p, k.hash_log, k.mls) as int;
            let r = sorted_in(hash, table, data, p, end, 2, low, h, k.chain_log, k.search_log);
            &&& 0 <= h < hash.len()
            &&& r.hash[h] == p + 2
            &&& roots_rise(hash, r.hash)
            &&& all_below(r.hash, p + 3)
        }),
{
    reveal(sorted_in);
    lemma_hash_bound(data, p, k.hash_log, k.mls);
}

proof fn lemma_stops_step(
    hash: Seq<u32>,
    table: Seq<u32>,
    after: Seq<u32>,
    data: Seq<u8>,
    idx: u32,
    goal: u32,
    end: int,
    low: u32,
    k: TreeLogs,
    next: u32,
)
    requires
        1 <= k.hash_log <= 32,
        hash.len() == pow2(k.hash_log as nat),
        2 <= idx < goal,
        all_below(hash, idx as int),
        ({
            let r = sorted_in(
                hash,
                table,
                data,
                idx - 2,
                end,
                2,
                low,
                spec_hash(data, idx - 2, k.hash_log, k.mls) as int,
                k.chain_log,
                k.search_log,
            );
            &&& next == if r.forward <= 1 {
                (idx + 1) as u32
            } else if r.forward < goal - idx {
                (idx + r.forward) as u32
            } else {
                goal
            }
            &&& roots_rise(r.hash, after)
            &&& roots_know(after, data, k, stops(r.hash, r.table, data, next, goal, end, low, k))
        }),
    ensures
        roots_rise(hash, after),
        roots_know(after, data, k, stops(hash, table, data, idx, goal, end, low, k)),
{
    let p = idx - 2;
    lemma_root_rises(hash, table, data, p, end, low, k);
    let h = spec_hash(data, p, k.hash_log, k.mls) as int;
    let r = sorted_in(hash, table, data, p, end, 2, low, h, k.chain_log, k.search_log);
    let rest = stops(r.hash, r.table, data, next, goal, end, low, k);
    let all = stops(hash, table, data, idx, goal, end, low, k);
    assert(all == seq![p] + rest);
    assert forall|i: int| 0 <= i < all.len() implies after[spec_hash(
        data,
        #[trigger] all[i],
        k.hash_log,
        k.mls,
    ) as int] >= all[i] + 2 by {
        if i == 0 {
            assert(after[h] >= r.hash[h]);
        } else {
            assert(all[i] == rest[i - 1]);
        }
    }
    assert forall|i: int| 0 <= i < after.len() implies #[trigger] after[i] >= hash[i] by {
        assert(r.hash[i] >= hash[i]);
    }
}

proof fn lemma_lazy_stops(s: LazyState, data: Seq<u8>, idx: u32, goal: u32, end: int, low: u32)
    requires
        1 <= s.hash_log <= 32,
        s.hash.len() == pow2(s.hash_log as nat),
        2 <= idx <= goal,
        goal - 2 <= end - 8,
        all_below(s.hash, idx as int),
    ensures
        ({
            let k = TreeLogs {
                hash_log: s.hash_log,
                mls: s.mls,
                chain_log: s.chain_log,
                search_log: s.search_log,
            };
            let s1 = all_sorted(s, data, idx, goal, end, 2, low);
            &&& roots_rise(s.hash, s1.hash)
            &&& roots_know(s1.hash, data, k, stops(s.hash, s.chain, data, idx, goal, end, low, k))
        }),
    decreases goal - idx,
{
    reveal_with_fuel(all_sorted, 1);
    if idx < goal {
        let k = TreeLogs {
            hash_log: s.hash_log,
            mls: s.mls,
            chain_log: s.chain_log,
            search_log: s.search_log,
        };
        let p = idx - 2;
        assert(pos_of(idx, 2) == p);
        lemma_root_rises(s.hash, s.chain, data, p, end, low, k);
        let r = sorted_in(
            s.hash,
            s.chain,
            data,
            p,
            end,
            2,
            low,
            spec_hash(data, p, s.hash_log, s.mls) as int,
            s.chain_log,
            s.search_log,
        );
        let s1 = LazyState { hash: r.hash, chain: r.table, ..s };
        let next = if r.forward <= 1 {
            (idx + 1) as u32
        } else if r.forward < goal - idx {
            (idx + r.forward) as u32
        } else {
            goal
        };
        assert(all_sorted(s, data, idx, goal, end, 2, low) == all_sorted(
            s1,
            data,
            next,
            goal,
            end,
            2,
            low,
        ));
        lemma_lazy_stops(s1, data, next, goal, end, low);
        lemma_stops_step(
            s.hash,
            s.chain,
            all_sorted(s, data, idx, goal, end, 2, low).hash,
            data,
            idx,
            goal,
            end,
            low,
            k,
            next,
        );
    }
}

proof fn lemma_opt_stops(s: OptState, data: Seq<u8>, idx: u32, goal: u32, end: int, low: u32)
    requires
        1 <= s.hash_log <= 32,
        s.hash.len() == pow2(s.hash_log as nat),
        2 <= idx <= goal,
        goal - 2 <= end - 8,
        all_below(s.hash, idx as int),
    ensures
        ({
            let k = TreeLogs {
                hash_log: s.hash_log,
                mls: s.mls,
                chain_log: s.chain_log,
                search_log: s.search_log,
            };
            let s1 = opt_sorted(s, data, idx, goal, end, 2, low);
            &&& roots_rise(s.hash, s1.hash)
            &&& roots_know(s1.hash, data, k, stops(s.hash, s.tree, data, idx, goal, end, low, k))
        }),
    decreases goal - idx,
{
    reveal_with_fuel(opt_sorted, 1);
    if idx < goal {
        let k = TreeLogs {
            hash_log: s.hash_log,
            mls: s.mls,
            chain_log: s.chain_log,
            search_log: s.search_log,
        };
        let p = idx - 2;
        assert(pos_of(idx, 2) == p);
        lemma_root_rises(s.hash, s.tree, data, p, end, low, k);
        let r = sorted_in(
            s.hash,
            s.tree,
            data,
            p,
            end,
            2,
            low,
            spec_hash(data, p, s.hash_log, s.mls) as int,
            s.chain_log,
            s.search_log,
        );
        let s1 = OptState { hash: r.hash, tree: r.table, ..s };
        let next = if r.forward <= 1 {
            (idx + 1) as u32
        } else if r.forward < goal - idx {
            (idx + r.forward) as u32
        } else {
            goal
        };
        assert(opt_sorted(s, data, idx, goal, end, 2, low) == opt_sorted(
            s1,
            data,
            next,
            goal,
            end,
            2,
            low,
        ));
        lemma_opt_stops(s1, data, next, goal, end, low);
        lemma_stops_step(
            s.hash,
            s.tree,
            opt_sorted(s, data, idx, goal, end, 2, low).hash,
            data,
            idx,
            goal,
            end,
            low,
            k,
            next,
        );
    }
}

/// A table of `2^log` entries that name nothing.
pub open spec fn empty_table(log: u32) -> Seq<u32> {
    Seq::new(pow2(log as nat), |i: int| 0u32)
}

/// Trees over the content `data[.. len]`, from an empty table: the roots are
/// positions of their hash, and none of the stops is missing.
pub open spec fn trees_know(hash: Seq<u32>, data: Seq<u8>, len: int, low: u32, k: TreeLogs) -> bool {
    &&& knows(hash, hash_of(data, k.hash_log, k.mls), Entered::All, false, 1, len - 8)
    &&& roots_know(
        hash,
        data,
        k,
        stops(
            empty_table(k.hash_log),
            empty_table(k.chain_log),
            data,
            2,
            (len - 6) as u32,
            len,
            low,
            k,
        ),
    )
}

// ---------------------------------------------------------------------------
// Prefixes and dictionaries.

/// A lazy finder knows the content `data[.. len]`: with chains the last
/// position of each hash and before each position the last one like it, with
/// rows the last position of each row; with trees the root of each hash, and no
/// position is missing but those that long matches cover.
pub open spec fn lazy_knows(s: LazyState, data: Seq<u8>, len: int) -> bool {
    match s.method {
        SearchMethod::HashChain => {
            &&& knows(
                s.hash,
                hash_of(data, s.hash_log, s.mls),
                Entered::All,
                false,
                len - 8,
                len - 8,
            )
            &&& linked(s, data, len - 8)
        },
        SearchMethod::RowHash => rows_know(s, data, len - 8),
        SearchMethod::BinaryTree => trees_know(
            s.hash,
            data,
            len,
            2,
            TreeLogs {
                hash_log: s.hash_log,
                mls: s.mls,
                chain_log: s.chain_log,
                search_log: s.search_log,
            },
        ),
    }
}

/// The optimal parser knows the content `data[.. len]`.
pub open spec fn opt_knows(s: OptState, data: Seq<u8>, len: int) -> bool {
    trees_know(
        s.hash,
        data,
        len,
        crate::fast_model::spec_lowest_index((len - 6) as u32, 2, s.window_log),
        TreeLogs {
            hash_log: s.hash_log,
            mls: s.mls,
            chain_log: s.chain_log,
            search_log: s.search_log,
        },
    )
}

#[verifier::spinoff_prover]
#[verifier::rlimit(40)]
proof fn lemma_lazy_loaded(cparams: CParams, rows: bool, s: LazyState, data: Seq<u8>, len: int)
    requires
        cparams.wf(),
        s == (LazyState { salt: s.salt, ..fresh_lazy(cparams, rows) }),
        8 < len <= data.len(),
        len + 2 <= u32::MAX,
        cparams.strategy.spec_num() >= 3,
    ensures
        ({
            let s1 = loaded_state(s, data, len);
            &&& lazy_knows(s1, data, len)
            &&& s1.method == s.method
            &&& s1.hash_log == cparams.hash_log
            &&& s1.mls == s.mls
            &&& s1.salt == s.salt
            &&& s1.next == len + 2
        }),
{
    reveal(fresh_lazy);
    let goal = index_of((len - 8) as nat, 2);
    assert(goal == len - 6);
    let h = hash_of(data, s.hash_log, s.mls);
    let s1 = loaded_state(s, data, len);
    match s.method {
        SearchMethod::HashChain => {
            lemma_chains(s, data, 2, goal);
            let c = chains_entered(s, data, 2, goal, 2);
            assert forall|p: int|
                0 <= p < len - 8 && p >= len - 8 - pow2(s1.chain_log as nat) implies #[trigger] link_is_previous(
                s1,
                data,
                p,
            ) by {
                assert(link_is_previous(c, data, p));
            }
        },
        SearchMethod::RowHash => {
            reveal(rows_at);
            lemma_rows(s, data, 2, goal);
            let c = rows_entered(s, data, 2, goal, false, 2);
            assert forall|p: int| 0 <= p < len - 8 implies #[trigger] row_knows(s1, data, p, len - 8) by {
                assert(row_knows(c, data, p, len - 8));
                assert(s1.row_hash(data, p) == c.row_hash(data, p));
                let row = s1.row_of(s1.row_hash(data, p)) as int;
                let idx = s1.hash[row + s1.tags[row]];
                assert(s1.row_hash(data, idx - 2) == c.row_hash(data, idx - 2));
            }
        },
        SearchMethod::BinaryTree => {
            lemma_lazy_trees(s, data, 2, goal, len, 2, 0);
            lemma_lazy_stops(s, data, 2, goal, len, 2);
            assert(s.hash =~= empty_table(s.hash_log));
            assert(s.chain =~= empty_table(s.chain_log));
        },
    }
}

proof fn lemma_opt_loaded(cparams: CParams, data: Seq<u8>, len: int)
    requires
        cparams.wf(),
        8 < len <= data.len(),
        len + 2 <= u32::MAX,
    ensures
        ({
            let s = opt_loaded(fresh_opt(cparams), data, len);
            &&& opt_knows(s, data, len)
            &&& s.hash_log == cparams.hash_log
            &&& s.next == len + 2
        }),
{
    let s = fresh_opt(cparams);
    let goal = index_of((len - 8) as nat, 2);
    assert(goal == len - 6);
    lemma_opt_trees(
        s,
        data,
        2,
        goal,
        len,
        crate::fast_model::spec_lowest_index(goal, 2, s.window_log),
        0,
    );
    lemma_opt_stops(
        s,
        data,
        2,
        goal,
        len,
        crate::fast_model::spec_lowest_index(goal, 2, s.window_log),
    );
    assert(s.hash =~= empty_table(s.hash_log));
    assert(s.tree =~= empty_table(s.chain_log));
}

/// How many bytes the hashes of the fast finders take.
pub open spec fn hashed_bytes(cparams: CParams) -> u32 {
    if cparams.min_match < 4 {
        4
    } else {
        cparams.min_match
    }
}

/// The finder of a strategy knows the prefix `data[.. len]`, whatever its
/// length: the fast finders every third position of it, the others as
/// [`lazy_knows`] says; and the next position to enter is the one after it.
pub open spec fn prefix_known(m: MatcherView, cparams: CParams, data: Seq<u8>, len: int) -> bool {
    match cparams.strategy {
        Strategy::Fast => {
            &&& m matches MatcherView::Fast { setup, table }
            &&& knows(
                table,
                hash_of(data, cparams.hash_log, hashed_bytes(cparams)),
                Entered::Thirds,
                false,
                len - 9,
                len - 9,
            )
        },
        Strategy::Dfast => {
            &&& m matches MatcherView::Dfast { logs, window_log, tables }
            &&& knows(
                tables.long,
                hash_of(data, cparams.hash_log, 8),
                Entered::Thirds,
                false,
                len - 9,
                len - 9,
            )
            &&& knows(
                tables.small,
                hash_of(data, cparams.chain_log, hashed_bytes(cparams)),
                Entered::Thirds,
                false,
                len - 9,
                len - 9,
            )
        },
        Strategy::Greedy | Strategy::Lazy | Strategy::Lazy2 | Strategy::Btlazy2 => {
            &&& m matches MatcherView::Lazy(s)
            &&& s.method == SearchMethod::BinaryTree <==> cparams.strategy is Btlazy2
            &&& s.hash_log == cparams.hash_log
            &&& lazy_knows(s, data, len)
            &&& s.next == len + 2
        },
        _ => {
            &&& m matches MatcherView::Opt(s)
            &&& opt_knows(s, data, len)
            &&& s.next == len + 2
        },
    }
}

/// A prefix of more than eight bytes is entered before the first block,
/// whatever its length, be it an external segment or the start of the current
/// one.
#[verifier::rlimit(40)]
pub proof fn law_prefixes_are_entered(
    cparams: CParams,
    pledged: Option<u64>,
    checksum: bool,
    rep: Seq<u32>,
    buf: Seq<u8>,
    len: int,
    chunk_end: int,
)
    requires
        cparams.wf(),
        8 < len <= buf.len() <= u32::MAX - 2,
        len <= chunk_end <= buf.len(),
    ensures
        ({
            let f = fresh_frame(cparams, pledged, checksum, rep);
            let a = f.raw_prefix_primed(buf, len);
            let b = f.contiguous_prefix_primed(buf, len, chunk_end);
            &&& prefix_known(a.matcher, cparams, buf, len)
            &&& a.window.low_limit == 2 && a.window.dict_limit == len + 2
            &&& prefix_known(b.matcher, cparams, buf, len)
            &&& b.window.low_limit == 2 && b.window.dict_limit == 2
        }),
{
    reveal(fresh_frame);
    let f = fresh_frame(cparams, pledged, checksum, rep);
    lemma_primed(cparams, buf, len);
    assert(f.matcher == crate::frame_model::fresh_matcher(cparams));
}

/// The finder of a fresh frame with a prefix entered.
#[verifier::rlimit(40)]
proof fn lemma_primed(cparams: CParams, buf: Seq<u8>, len: int)
    requires
        cparams.wf(),
        8 < len <= buf.len() <= u32::MAX - 2,
    ensures
        prefix_known(
            crate::frame_model::fresh_matcher(cparams).prefix_entered(buf, len).resumed(
                (len + 2) as u32,
            ),
            cparams,
            buf,
            len,
        ),
{
    let mls = hashed_bytes(cparams);
    let none = |log: u32| Seq::new(pow2(log as nat), |i: int| 0u32);
    if cparams.strategy.spec_num() == 1 {
        let h = hash_of(buf, cparams.hash_log, mls);
        lemma_empty(pow2(cparams.hash_log as nat), h, Entered::Thirds, false, len - 9);
        lemma_thirds(none(cparams.hash_log), buf, 0, len, cparams.hash_log, mls);
    } else if cparams.strategy.spec_num() == 2 {
        let t = Tables { long: none(cparams.hash_log), small: none(cparams.chain_log) };
        let k = Logs { long: cparams.hash_log, small: cparams.chain_log, mls };
        lemma_dfast_thirds(t, buf, 0, len, k);
        lemma_empty(
            pow2(cparams.hash_log as nat),
            hash_of(buf, cparams.hash_log, 8),
            Entered::Thirds,
            false,
            len - 9,
        );
        lemma_thirds(t.long, buf, 0, len, k.long, 8);
        lemma_empty(
            pow2(cparams.chain_log as nat),
            hash_of(buf, cparams.chain_log, mls),
            Entered::Thirds,
            false,
            len - 9,
        );
        lemma_thirds(t.small, buf, 0, len, k.small, mls);
    } else if cparams.strategy.spec_num() <= 6 {
        let s = fresh_lazy(cparams, spec_use_rows(cparams));
        reveal(fresh_lazy);
        lemma_lazy_loaded(cparams, spec_use_rows(cparams), s, buf, len);
        lemma_resumed(loaded_state(s, buf, len), buf, len);
    } else {
        lemma_opt_loaded(cparams, buf, len);
    }
}

/// Where entering goes on makes no difference to what is known.
proof fn lemma_resumed(s: LazyState, data: Seq<u8>, len: int)
    requires
        lazy_knows(s, data, len),
        s.next == len + 2,
        8 < len,
        len + 2 <= u32::MAX,
    ensures
        (LazyState { next: (len + 2) as u32, ..s }) == s,
{
}

/// A frame with a raw or formatted dictionary in front of it starts from a
/// finder that knows the dictionary's content, whatever its length.
pub proof fn law_dictionaries_are_entered(src: Seq<u8>, dict: Seq<u8>, d: DictView, cparams: CParams)
    requires
        cparams.wf(),
        dict.len() >= 8,
        d.content.len() > 8,
        d.content.len() + src.len() <= u32::MAX - 2,
    ensures
        ({
            let f = fresh_frame(cparams, Some(src.len() as u64), false, first_offsets());
            let g = f.raw_prefix_primed(d.content + src, d.content.len() as int);
            &&& bytes_with_dict(src, dict, d, cparams) == dict_frame_bytes(g, dict, d, src)
            &&& prefix_known(g.matcher, cparams, d.content + src, d.content.len() as int)
        }),
{
    let buf = d.content + src;
    law_prefixes_are_entered(
        cparams,
        Some(src.len() as u64),
        false,
        first_offsets(),
        buf,
        d.content.len() as int,
        buf.len() as int,
    );
}

/// The tables of a digested dictionary know its content, whatever its length
/// (as long as a tagged entry can hold the positions).
#[verifier::rlimit(40)]
pub proof fn law_digested_dictionaries_are_entered(content: Seq<u8>, cdict: CParams)
    requires
        cdict.wf(),
        8 < content.len() <= u32::MAX - 2,
        cdict.strategy.spec_num() <= 2 ==> cdict.hash_log <= 24 && cdict.chain_log <= 24,
        cdict.strategy.spec_num() <= 2 ==> content.len() + 2 < 0x100_0000,
    ensures
        ({
            let t = dict_tables(content, cdict);
            let len = content.len() as int;
            match cdict.strategy {
                Strategy::Fast => {
                    &&& t matches AttachedTables::Fast { table, hlog }
                    &&& hlog == cdict.hash_log
                    &&& knows(
                        table,
                        hash_of(content, (cdict.hash_log + 8) as u32, hashed_bytes(cdict)),
                        Entered::ThirdsAndNew,
                        true,
                        len - 9,
                        len - 7,
                    )
                },
                Strategy::Dfast => {
                    &&& t matches AttachedTables::Dfast { tables, logs }
                    &&& logs.long == cdict.hash_log
                    &&& logs.small == cdict.chain_log
                    &&& knows(
                        tables.long,
                        hash_of(content, (cdict.hash_log + 8) as u32, 8),
                        Entered::ThirdsAndNew,
                        true,
                        len - 9,
                        len - 7,
                    )
                    &&& knows(
                        tables.small,
                        hash_of(content, (cdict.chain_log + 8) as u32, hashed_bytes(cdict)),
                        Entered::Thirds,
                        true,
                        len - 9,
                        len - 9,
                    )
                },
                Strategy::Greedy | Strategy::Lazy | Strategy::Lazy2 | Strategy::Btlazy2 => {
                    &&& t matches AttachedTables::Lazy(s)
                    &&& s.salt == 0
                    &&& s.hash_log == cdict.hash_log
                    &&& lazy_knows(s, content, len)
                },
                _ => {
                    &&& t matches AttachedTables::Opt(s)
                    &&& opt_knows(s, content, len)
                },
            }
        }),
{
    reveal(dict_tables);
    let len = content.len() as int;
    let mls = hashed_bytes(cdict);
    let none = |log: u32| Seq::new(pow2(log as nat), |i: int| 0u32);
    if cdict.strategy.spec_num() == 1 {
        lemma_empty(
            pow2(cdict.hash_log as nat),
            hash_of(content, (cdict.hash_log + 8) as u32, mls),
            Entered::ThirdsAndNew,
            true,
            len - 7,
        );
        lemma_all_tagged(none(cdict.hash_log), content, 0, len, cdict.hash_log, mls);
    } else if cdict.strategy.spec_num() == 2 {
        let t = Tables { long: none(cdict.hash_log), small: none(cdict.chain_log) };
        let k = Logs { long: cdict.hash_log, small: cdict.chain_log, mls };
        lemma_empty(
            pow2(cdict.hash_log as nat),
            hash_of(content, (cdict.hash_log + 8) as u32, 8),
            Entered::ThirdsAndNew,
            true,
            len - 7,
        );
        lemma_empty(
            pow2(cdict.chain_log as nat),
            hash_of(content, (cdict.chain_log + 8) as u32, mls),
            Entered::Thirds,
            true,
            len - 9,
        );
        lemma_all_tagged(t.long, content, 0, len, k.long, 8);
        lemma_dfast_all_tagged(t, content, 0, len, k);
    } else if cdict.strategy.spec_num() <= 6 {
        let rows = spec_use_rows(cdict);
        lemma_lazy_loaded(
            cdict,
            rows,
            LazyState { salt: 0, ..fresh_lazy(cdict, rows) },
            content,
            len,
        );
    } else {
        lemma_opt_loaded(cdict, content, len);
    }
}

/// So does the finder of a frame over a copy of a dictionary's tables.
#[verifier::rlimit(40)]
pub proof fn law_copied_dictionaries_are_entered(
    data: Seq<u8>,
    len: int,
    cdict: CParams,
    source: CParams,
    pledged: Option<u64>,
)
    requires
        cdict.wf(),
        source.wf(),
        8 < len <= data.len() <= u32::MAX - 2,
    ensures
        ({
            let f = copied_frame(data, len, cdict, source, pledged);
            &&& f.window.low_limit == 2 && f.window.dict_limit == len + 2
            &&& match cdict.strategy {
                Strategy::Fast => {
                    &&& f.matcher matches MatcherView::Fast { setup, table }
                    &&& knows(
                        table,
                        hash_of(data, cdict.hash_log, hashed_bytes(cdict)),
                        Entered::ThirdsAndNew,
                        false,
                        len - 9,
                        len - 7,
                    )
                },
                Strategy::Dfast => {
                    &&& f.matcher matches MatcherView::Dfast { logs, window_log, tables }
                    &&& knows(
                        tables.long,
                        hash_of(data, cdict.hash_log, 8),
                        Entered::ThirdsAndNew,
                        false,
                        len - 9,
                        len - 7,
                    )
                    &&& knows(
                        tables.small,
                        hash_of(data, cdict.chain_log, hashed_bytes(cdict)),
                        Entered::Thirds,
                        false,
                        len - 9,
                        len - 9,
                    )
                },
                Strategy::Greedy | Strategy::Lazy | Strategy::Lazy2 | Strategy::Btlazy2 => {
                    &&& f.matcher matches MatcherView::Lazy(s)
                    &&& s.salt == 0
                    &&& s.hash_log == cdict.hash_log
                    &&& s.next == len + 2
                    &&& lazy_knows(s, data, len)
                },
                _ => {
                    &&& f.matcher matches MatcherView::Opt(s)
                    &&& s.next == len + 2
                    &&& opt_knows(s, data, len)
                },
            }
        }),
{
    reveal(copied_frame);
    reveal(fresh_frame);
    let mls = hashed_bytes(cdict);
    let working = CParams { window_log: source.window_log, ..cdict };
    let none = |log: u32| Seq::new(pow2(log as nat), |i: int| 0u32);
    if cdict.strategy.spec_num() == 1 {
        lemma_empty(
            pow2(cdict.hash_log as nat),
            hash_of(data, cdict.hash_log, mls),
            Entered::ThirdsAndNew,
            false,
            len - 7,
        );
        lemma_all(none(cdict.hash_log), data, 0, len, cdict.hash_log, mls);
    } else if cdict.strategy.spec_num() == 2 {
        let t = Tables { long: none(cdict.hash_log), small: none(cdict.chain_log) };
        let k = Logs { long: cdict.hash_log, small: cdict.chain_log, mls };
        lemma_dfast_all(t, data, 0, len, k);
        lemma_empty(
            pow2(cdict.hash_log as nat),
            hash_of(data, cdict.hash_log, 8),
            Entered::ThirdsAndNew,
            false,
            len - 7,
        );
        lemma_all(t.long, data, 0, len, k.long, 8);
        lemma_empty(
            pow2(cdict.chain_log as nat),
            hash_of(data, cdict.chain_log, mls),
            Entered::Thirds,
            false,
            len - 9,
        );
        lemma_thirds(t.small, data, 0, len, k.small, mls);
    } else if cdict.strategy.spec_num() <= 6 {
        let rows = spec_use_rows(cdict);
        let s = LazyState { salt: 0, ..fresh_lazy(working, rows) };
        reveal(fresh_lazy);
        lemma_lazy_loaded(working, rows, s, data, len);
        lemma_resumed(loaded_state(s, data, len), data, len);
    } else {
        lemma_opt_loaded(working, data, len);
    }
}

} // verus!
