//! Parsing a block into sequences: what every match finder shares. A match is
//! stored only where the bytes it stands for are equal, so that executing
//! what was stored gives the block back.

use crate::block::{spec_copy, spec_resolve, RepView};
use crate::math::{bits_at, load4, load8, low_bits, pow2_u64, shr};
use crate::seq_store::{lemma_replay_more_literals, lit_total, replay, triple_total, ReplayState, SeqStore, Triple};
use crate::sequences_encode::{store_end, store_replay};
use vstd::arithmetic::power2::{
    lemma2_to64, lemma2_to64_rest, lemma_pow2_adds, lemma_pow2_pos, lemma_pow2_strictly_increases, pow2,
};
use vstd::prelude::*;
use vstd::slice::slice_subrange;

verus! {

/// Bytes that a hash may read.
pub const HASH_READ_SIZE: usize = 8;

// ---------------------------------------------------------------------------
// Equal runs.

/// The `len` bytes at `ip` each equal the one `off` places before.
pub open spec fn eq_run(data: Seq<u8>, ip: int, off: int, len: int) -> bool {
    forall|k: int| ip <= k < ip + len ==> #[trigger] data[k] == data[k - off]
}

/// Whether the four bytes at `a` and at `b` are equal.
pub fn eq4(data: &[u8], a: usize, b: usize) -> (r: bool)
    requires
        a + 4 <= data@.len(),
        b + 4 <= data@.len(),
    ensures
        r <==> data@.subrange(a as int, a + 4) == data@.subrange(b as int, b + 4),
        r && b < a ==> eq_run(data@, a as int, a - b, 4),
{
    let r = data[a] == data[b] && data[a + 1] == data[b + 1] && data[a + 2] == data[b + 2] && data[a
        + 3] == data[b + 3];
    proof {
        let x = data@.subrange(a as int, a + 4);
        let y = data@.subrange(b as int, b + 4);
        if r {
            assert(x =~= y);
        } else {
            assert(x[0] == data@[a as int] && x[1] == data@[a + 1] && x[2] == data@[a + 2] && x[3]
                == data@[a + 3]);
            assert(y[0] == data@[b as int] && y[1] == data@[b + 1] && y[2] == data@[b + 2] && y[3]
                == data@[b + 3]);
        }
    }
    r
}

/// Whether the eight bytes at `a` and at `b` are equal.
pub fn eq8(data: &[u8], a: usize, b: usize) -> (r: bool)
    requires
        a + 8 <= data@.len(),
        b + 8 <= data@.len(),
    ensures
        r && b < a ==> eq_run(data@, a as int, a - b, 8),
        r <==> forall|k: int| 0 <= k < 8 ==> #[trigger] data@[a + k] == data@[b + k],
{
    let total: usize = data.len();
    let mut i: usize = 0;
    while i < 8
        invariant
            i <= 8,
            a + 8 <= total,
            b + 8 <= total,
            total == data@.len(),
            forall|k: int| 0 <= k < i ==> #[trigger] data@[a + k] == data@[b + k],
        decreases 8 - i,
    {
        if data[a + i] != data[b + i] {
            assert(data@[a + i] != data@[b + i]);
            return false;
        }
        i = i + 1;
    }
    proof {
        if b < a {
            assert forall|k: int| a <= k < a + 8 implies #[trigger] data@[k] == data@[k - (a - b)] by {
                assert(data@[a + (k - a)] == data@[b + (k - a)]);
            }
        }
    }
    true
}

/// `n` is the length of the common run of the bytes at `a` and at `b`, where
/// the run at `a` ends at `limit`.
pub open spec fn is_common_run(data: Seq<u8>, a: int, b: int, limit: int, n: int) -> bool {
    &&& 0 <= n
    &&& n == 0 || a + n <= limit
    &&& forall|k: int| 0 <= k < n ==> #[trigger] data[a + k] == data[b + k]
    &&& a + n < limit ==> data[a + n] != data[b + n]
}

/// The length of the common run of the bytes from `a` and from `b` on, with the
/// run at `a` ending at `limit`.
pub open spec fn common_run(data: Seq<u8>, a: int, b: int, limit: int) -> nat
    decreases limit - a,
{
    if a < limit && data[a] == data[b] {
        common_run(data, a + 1, b + 1, limit) + 1
    } else {
        0
    }
}

/// The length of the common run of `data[a..]` and `data[b..]`, with the run
/// at `a` ending at `limit`.
pub fn count_eq(data: &[u8], a: usize, b: usize, limit: usize) -> (r: usize)
    requires
        limit <= data@.len(),
        b <= a,
    ensures
        r == common_run(data@, a as int, b as int, limit as int),
        is_common_run(data@, a as int, b as int, limit as int, r as int),
        b < a ==> eq_run(data@, a as int, a - b, r as int),
        a <= limit ==> a + r <= limit,
        r <= limit,
{
    let mut n: usize = 0;
    while a < limit && n < limit - a && data[a + n] == data[b + n]
        invariant
            limit <= data@.len(),
            b <= a,
            n == 0 || a + n <= limit,
            forall|k: int| 0 <= k < n ==> #[trigger] data@[a + k] == data@[b + k],
            common_run(data@, a as int, b as int, limit as int) == n + common_run(
                data@,
                a + n,
                b + n,
                limit as int,
            ),
        decreases limit - n,
    {
        n = n + 1;
    }
    proof {
        if b < a {
            assert forall|k: int| a <= k < a + n implies #[trigger] data@[k] == data@[k - (a - b)] by {
                assert(data@[a + (k - a)] == data@[b + (k - a)]);
            }
        }
    }
    n
}

/// The length of a match whose source is in two parts: the run with the bytes
/// from `matched` up to `mend`, and, if it takes in all of them, the run with
/// those from `istart` on.
pub open spec fn two_part_run(
    data: Seq<u8>,
    ip: int,
    matched: int,
    iend: int,
    mend: int,
    istart: int,
) -> nat {
    let room = mend - matched;
    let first = common_run(
        data,
        ip,
        matched,
        if ip + room < iend {
            ip + room
        } else {
            iend
        },
    );
    if first == room {
        first + common_run(data, ip + first, istart, iend)
    } else {
        first
    }
}

/// The length of a match whose source is in two parts: up to `mend`, then on
/// from `istart`. Where the parts adjoin, it is one run.
pub fn count_2segments(
    data: &[u8],
    ip: usize,
    matched: usize,
    iend: usize,
    mend: usize,
    istart: usize,
) -> (r: usize)
    requires
        ip <= iend <= data@.len(),
        matched <= mend <= data@.len(),
        matched < ip,
        istart <= ip,
    ensures
        r == two_part_run(
            data@,
            ip as int,
            matched as int,
            iend as int,
            mend as int,
            istart as int,
        ),
        ip + r <= iend,
        mend == istart ==> is_common_run(data@, ip as int, matched as int, iend as int, r as int),
        mend == istart ==> eq_run(data@, ip as int, ip - matched, r as int),
{
    let room: usize = mend - matched;
    let v_end: usize = if room < iend - ip {
        ip + room
    } else {
        iend
    };
    let n: usize = count_eq(data, ip, matched, v_end);
    if n != room {
        proof {
            if mend == istart {
                assert forall|k: int| ip <= k < ip + n implies #[trigger] data@[k] == data@[k - (ip
                    - matched)] by {}
            }
        }
        return n;
    }
    let m: usize = count_eq(data, ip + n, istart, iend);
    proof {
        if mend == istart {
            assert(istart == matched + n);
            assert forall|k: int| 0 <= k < n + m implies #[trigger] data@[ip + k] == data@[matched
                + k] by {
                if k >= n {
                    assert(data@[(ip + n) + (k - n)] == data@[istart + (k - n)]);
                }
            }
            assert forall|k: int| ip <= k < ip + (n + m) implies #[trigger] data@[k] == data@[k - (ip
                - matched)] by {
                assert(data@[ip + (k - ip)] == data@[matched + (k - ip)]);
            }
            if ip + n + m < iend {
                assert(data@[(ip + n) + m] != data@[istart + m]);
            }
        }
    }
    n + m
}

/// Two runs at the same distance join.
pub proof fn lemma_join_runs(data: Seq<u8>, ip: int, off: int, a: int, b: int)
    requires
        eq_run(data, ip, off, a),
        eq_run(data, ip + a, off, b),
        a >= 0,
    ensures
        eq_run(data, ip, off, a + b),
{
}

/// How far the run that ends at `ip` and at `m` reaches backward: not below
/// `anchor`, and its source not below `low`.
pub open spec fn back_run(data: Seq<u8>, ip: int, m: int, anchor: int, low: int) -> nat
    decreases m,
{
    if ip > anchor && m > 0 && m > low && data[ip - 1] == data[m - 1] {
        back_run(data, ip - 1, m - 1, anchor, low) + 1
    } else {
        0
    }
}

/// How far a match reaches backward: not below `anchor`, and its source not
/// below `low`.
pub fn extend_back(data: &[u8], ip: usize, m: usize, anchor: usize, low: usize) -> (r: usize)
    requires
        m < ip <= data@.len(),
        anchor <= ip,
    ensures
        r == back_run(data@, ip as int, m as int, anchor as int, low as int),
        r <= ip - anchor,
        r <= m,
        low <= m ==> m - r >= low,
        eq_run(data@, ip - r, ip - m, r as int),
        r < ip - anchor && m - r > low && r < m ==> data@[ip - r - 1] != data@[m - r - 1],
{
    let mut r: usize = 0;
    while r < ip - anchor && r < m && m - r > low && data[ip - r - 1] == data[m - r - 1]
        invariant
            r <= ip - anchor,
            r <= m,
            low <= m ==> m - r >= low,
            m < ip <= data@.len(),
            anchor <= ip,
            eq_run(data@, ip - r, ip - m, r as int),
            back_run(data@, ip as int, m as int, anchor as int, low as int) == r + back_run(
                data@,
                ip - r,
                m - r,
                anchor as int,
                low as int,
            ),
        decreases m - r,
    {
        r = r + 1;
    }
    r
}

// ---------------------------------------------------------------------------
// Hashing.

/// A hash of the `mls` bytes at `at`, of `hlog` bits: the bytes as a number,
/// multiplied with a large prime, and of that the top bits.
#[verifier::opaque]
pub open spec fn spec_hash(data: Seq<u8>, at: int, hlog: u32, mls: u32) -> nat {
    if mls < 5 || mls > 8 {
        let v = (bits_at(data, (8 * at) as nat, 32) as u32).wrapping_mul(2654435761);
        v as nat / pow2((32 - hlog) as nat)
    } else {
        let x = bits_at(data, (8 * at) as nat, 64);
        let v = if mls == 5 {
            ((x % pow2(40)) as u64).wrapping_mul(0x100_0000).wrapping_mul(889523592379)
        } else if mls == 6 {
            ((x % pow2(48)) as u64).wrapping_mul(0x1_0000).wrapping_mul(227718039650203)
        } else if mls == 7 {
            ((x % pow2(56)) as u64).wrapping_mul(0x100).wrapping_mul(58295818150454627)
        } else {
            (x as u64).wrapping_mul(0xCF1B_BCDC_B7A5_6463)
        };
        v as nat / pow2((64 - hlog) as nat)
    }
}

/// A hash of the `mls` bytes at `at`, of `hlog` bits.
pub fn hash_ptr(data: &[u8], at: usize, hlog: u32, mls: u32) -> (r: usize)
    requires
        at + 8 <= data@.len(),
        1 <= hlog <= 32,
    ensures
        r == spec_hash(data@, at as int, hlog, mls),
        r < pow2(hlog as nat),
{
    proof {
        reveal(spec_hash);
    }
    if mls < 5 || mls > 8 {
        let v: u32 = load4(data, at).wrapping_mul(2654435761);
        return top_bits32(v, hlog) as usize;
    }
    let x: u64 = load8(data, at);
    let v: u64 = if mls == 5 {
        low_bits(x, 40).wrapping_mul(0x100_0000).wrapping_mul(889523592379)
    } else if mls == 6 {
        low_bits(x, 48).wrapping_mul(0x1_0000).wrapping_mul(227718039650203)
    } else if mls == 7 {
        low_bits(x, 56).wrapping_mul(0x100).wrapping_mul(58295818150454627)
    } else {
        x.wrapping_mul(0xCF1B_BCDC_B7A5_6463)
    };
    top_bits64(v, hlog) as usize
}

/// The top `n` bits of a 64-bit number.
pub fn top_bits64(x: u64, n: u32) -> (r: u64)
    requires
        1 <= n <= 32,
    ensures
        r == x as nat / pow2((64 - n) as nat),
        r < pow2(n as nat),
        r <= u32::MAX,
{
    proof {
        lemma2_to64();
        lemma2_to64_rest();
        lemma_pow2_adds(n as nat, (64 - n) as nat);
        lemma_pow2_pos((64 - n) as nat);
        let p = pow2((64 - n) as nat) as int;
        let q = pow2(n as nat) as int;
        assert(pow2(64) == q * p);
        assert(pow2(64) == 0x1_0000_0000_0000_0000);
        assert((x as int) / p < q) by (nonlinear_arith)
            requires
                (x as int) < q * p,
                p > 0,
                x >= 0,
        ;
        if n < 32 {
            lemma_pow2_strictly_increases(n as nat, 32);
        }
    }
    shr(x, 64 - n)
}

/// The top `n` bits of a 32-bit number.
pub fn top_bits32(x: u32, n: u32) -> (r: u32)
    requires
        1 <= n <= 32,
    ensures
        r == x as nat / pow2((32 - n) as nat),
        r < pow2(n as nat),
{
    proof {
        lemma2_to64();
        lemma_pow2_adds(n as nat, (32 - n) as nat);
        lemma_pow2_pos((32 - n) as nat);
        let p = pow2((32 - n) as nat) as int;
        let q = pow2(n as nat) as int;
        assert(pow2(32) == q * p);
        assert((x as int) / p < q) by (nonlinear_arith)
            requires
                (x as int) < q * p,
                p > 0,
                x >= 0,
        ;
        assert((x as int) / p <= x) by (nonlinear_arith)
            requires
                p > 0,
                x >= 0,
        ;
    }
    shr(x as u64, 32 - n) as u32
}

/// A table of `2^log` empty entries.
pub fn new_table(log: u32) -> (r: Vec<u32>)
    requires
        log <= 31,
    ensures
        r@ == Seq::new(pow2(log as nat), |i: int| 0u32),
{
    let n: u64 = pow2_u64(log);
    proof {
        lemma2_to64();
        if log < 31 {
            lemma_pow2_strictly_increases(log as nat, 31);
        }
    }
    let mut v: Vec<u32> = Vec::new();
    v.resize(n as usize, 0);
    assert(v@ =~= Seq::new(pow2(log as nat), |i: int| 0u32));
    v
}

// ---------------------------------------------------------------------------
// Positions and indices.

/// The table index of position `pos`.
pub open spec fn index_of(pos: nat, bias: u32) -> u32 {
    ((pos + bias) % 0x1_0000_0000) as u32
}

pub fn to_index(pos: usize, bias: u32) -> (r: u32)
    requires
        pos <= u32::MAX,
    ensures
        r == index_of(pos as nat, bias),
{
    let p: u32 = pos as u32;
    p.wrapping_add(bias)
}

/// The position of a table index; an index outside the buffer gives a
/// position at or beyond any that has been reached.
pub open spec fn pos_of(idx: u32, bias: u32) -> int {
    (idx - bias) % 0x1_0000_0000
}

pub fn to_pos(idx: u32, bias: u32) -> (r: usize)
    ensures
        r <= u32::MAX,
        r == pos_of(idx, bias),
{
    idx.wrapping_sub(bias) as usize
}

// ---------------------------------------------------------------------------
// The parser.

/// `h` ends with `d`.
pub open spec fn ends_with(h: Seq<u8>, d: Seq<u8>) -> bool {
    &&& h.len() >= d.len()
    &&& h.skip(h.len() - d.len()) == d
}

/// Copying an equal run from a history that ends with the data before it
/// gives the run.
pub proof fn lemma_copy_run(h: Seq<u8>, data: Seq<u8>, ip: int, off: nat, len: nat)
    requires
        0 <= ip,
        ip + len <= data.len(),
        1 <= off <= ip,
        ends_with(h, data.take(ip)),
        eq_run(data, ip, off as int, len as int),
    ensures
        spec_copy(h, off, len) == h + data.subrange(ip, ip + len),
    decreases len,
{
    if len == 0 {
        assert(h + data.subrange(ip, ip) =~= h);
    } else {
        let t = data.take(ip);
        assert(h[h.len() - off] == h.skip(h.len() - ip)[ip - off]);
        assert(t[ip - off] == data[ip - off]);
        assert(data[ip] == data[ip - off]);
        let g = h.push(data[ip]);
        let tail = g.skip(g.len() - (ip + 1));
        assert(tail =~= data.take(ip + 1)) by {
            assert(h.skip(h.len() - ip) == t);
            assert forall|k: int| 0 <= k < ip + 1 implies #[trigger] tail[k] == data[k] by {
                if k < ip {
                    assert(g[h.len() - ip + k] == h.skip(h.len() - ip)[k]);
                    assert(t[k] == data[k]);
                }
            }
        }
        assert(eq_run(data, ip + 1, off as int, len - 1));
        lemma_copy_run(g, data, ip + 1, off, (len - 1) as nat);
        assert(g + data.subrange(ip + 1, ip + len) =~= h + data.subrange(ip, ip + len));
    }
}

/// Each of the recent offsets that is known (is not zero) is the decoder's.
pub open spec fn known(rep: Seq<u32>, v: RepView) -> bool {
    &&& rep.len() == 3
    &&& rep[0] != 0 ==> rep[0] == v.r0
    &&& rep[1] != 0 ==> rep[1] == v.r1
    &&& rep[2] != 0 ==> rep[2] == v.r2
}

/// The offset that an offset value stands for, or zero where it is not known.
pub open spec fn spec_rep_offset(rep: Seq<u32>, off_base: u32, ll0: bool) -> u32 {
    if off_base > 3 {
        (off_base - 3) as u32
    } else {
        let code = off_base - 1 + if ll0 {
            1int
        } else {
            0
        };
        if code == 3 {
            if rep[0] >= 1 {
                (rep[0] - 1) as u32
            } else {
                0
            }
        } else {
            rep[code]
        }
    }
}

pub fn rep_offset(rep: [u32; 3], off_base: u32, ll0: bool) -> (r: u32)
    requires
        off_base >= 1,
    ensures
        r == spec_rep_offset(rep@, off_base, ll0),
{
    if off_base > 3 {
        return off_base - 3;
    }
    let code: usize = (off_base - 1) as usize + if ll0 {
        1usize
    } else {
        0
    };
    if code == 3 {
        rep[0].saturating_sub(1)
    } else {
        rep[code]
    }
}

/// The recent offsets after a match.
pub open spec fn spec_new_rep(rep: Seq<u32>, off_base: u32, ll0: bool) -> Seq<u32> {
    let offset = spec_rep_offset(rep, off_base, ll0);
    let code = off_base - 1 + if ll0 {
        1int
    } else {
        0
    };
    if off_base > 3 || code >= 2 {
        seq![offset, rep[0], rep[1]]
    } else if code == 1 {
        seq![offset, rep[0], rep[2]]
    } else {
        rep
    }
}

pub fn new_rep(rep: [u32; 3], off_base: u32, ll0: bool) -> (r: [u32; 3])
    requires
        off_base >= 1,
    ensures
        r@ == spec_new_rep(rep@, off_base, ll0),
{
    let offset: u32 = rep_offset(rep, off_base, ll0);
    let r: [u32; 3] = if off_base > 3 {
        [offset, rep[0], rep[1]]
    } else if off_base == 1 && !ll0 {
        rep
    } else if (off_base == 1 && ll0) || (off_base == 2 && !ll0) {
        [offset, rep[0], rep[2]]
    } else {
        [offset, rep[0], rep[1]]
    };
    assert(r@ =~= spec_new_rep(rep@, off_base, ll0));
    r
}

/// The bytes at `ip` are a match of `len` bytes, at least three and within the
/// block, at the distance `offset`.
pub open spec fn bears_out(data: Seq<u8>, ip: int, end: int, offset: int, len: int) -> bool {
    1 <= offset <= ip && 3 <= len <= end - ip && eq_run(data, ip, offset, len)
}

/// The recent offsets after the sequences `q`, when they were `rep` before.
pub open spec fn reps_after(q: Seq<Triple>, rep: Seq<u32>) -> Seq<u32>
    decreases q.len(),
{
    if q.len() == 0 {
        rep
    } else {
        spec_new_rep(
            reps_after(q.drop_last(), rep),
            q.last().of_value as u32,
            q.last().lit_len == 0,
        )
    }
}

/// The offset that the `i`-th of the sequences `q` stands for.
pub open spec fn offset_at(q: Seq<Triple>, rep: Seq<u32>, i: int) -> u32 {
    spec_rep_offset(reps_after(q.take(i), rep), q[i].of_value as u32, q[i].lit_len == 0)
}

/// Each of the sequences `q`, from `start` on, is a match that the bytes bear
/// out.
#[verifier::opaque]
pub open spec fn borne_out(data: Seq<u8>, start: int, end: int, q: Seq<Triple>, rep: Seq<u32>) -> bool {
    forall|i: int|
        0 <= i < q.len() ==> bears_out(
            data,
            start + triple_total(q.take(i)) + q[i].lit_len,
            end,
            #[trigger] offset_at(q, rep, i) as int,
            q[i].match_len as int,
        )
}

/// One more sequence that the bytes bear out.
proof fn lemma_borne_out_step(data: Seq<u8>, start: int, end: int, q: Seq<Triple>, t: Triple, rep: Seq<u32>)
    requires
        borne_out(data, start, end, q, rep),
        bears_out(
            data,
            start + triple_total(q) + t.lit_len,
            end,
            spec_rep_offset(reps_after(q, rep), t.of_value as u32, t.lit_len == 0) as int,
            t.match_len as int,
        ),
    ensures
        borne_out(data, start, end, q.push(t), rep),
        reps_after(q.push(t), rep) == spec_new_rep(
            reps_after(q, rep),
            t.of_value as u32,
            t.lit_len == 0,
        ),
{
    reveal(borne_out);
    let more = q.push(t);
    assert(more.drop_last() =~= q);
    assert forall|i: int| 0 <= i < more.len() implies bears_out(
        data,
        start + triple_total(more.take(i)) + more[i].lit_len,
        end,
        #[trigger] offset_at(more, rep, i) as int,
        more[i].match_len as int,
    ) by {
        if i < q.len() {
            assert(more.take(i) =~= q.take(i));
            assert(offset_at(q, rep, i) == offset_at(more, rep, i));
        } else {
            assert(more.take(i) =~= q);
        }
    }
}

/// A block being parsed: the data with the block at `start .. end`, how far it
/// has been parsed, and what has been stored. The ghost fields hold the recent
/// offsets of a decoder at the start of the block and after what is stored.
pub struct Parser<'a> {
    pub data: &'a [u8],
    pub start: usize,
    pub end: usize,
    pub anchor: usize,
    pub store: SeqStore,
    pub rep0: Ghost<RepView>,
    pub rep: Ghost<RepView>,
}

/// What has been stored reproduces `data[start .. upto]` after any history
/// that ends with `data[.. start]`.
#[verifier::opaque]
pub open spec fn reproduces(
    store: &SeqStore,
    data: Seq<u8>,
    start: int,
    upto: int,
    rep0: RepView,
    rep: RepView,
) -> bool {
    forall|hist: Seq<u8>|
        ends_with(hist, data.take(start)) ==> #[trigger] replay(
            store.triples(),
            store.literals@,
            ReplayState { hist, rep: rep0, lit_pos: 0 },
        ) == Some(
            ReplayState {
                hist: hist + data.subrange(start, upto),
                rep,
                lit_pos: store.literals@.len(),
            },
        )
}

/// The literals of the sequences `q`, which cover `data` from `start` on.
#[verifier::opaque]
pub open spec fn literals_of(data: Seq<u8>, start: int, q: Seq<Triple>) -> Seq<u8>
    decreases q.len(),
{
    if q.len() == 0 {
        Seq::empty()
    } else {
        let at = start + triple_total(q.drop_last());
        literals_of(data, start, q.drop_last()) + data.subrange(at, at + q.last().lit_len)
    }
}

/// All literals of the block `data[start .. end]`: those of its sequences, and
/// the rest.
pub open spec fn block_literals(data: Seq<u8>, start: int, end: int, q: Seq<Triple>) -> Seq<u8> {
    literals_of(data, start, q) + data.subrange(start + triple_total(q), end)
}

/// How far a block has been parsed: the sequences so far, and where the next
/// literals start.
pub struct Parse {
    pub triples: Seq<Triple>,
    pub anchor: int,
}

impl Parse {
    /// One more sequence: the literals up to `ip`, and a match of `len` bytes
    /// there.
    pub open spec fn with_match(self, ip: int, of_value: nat, len: nat) -> Parse {
        Parse {
            triples: self.triples.push(
                Triple { of_value, lit_len: (ip - self.anchor) as nat, match_len: len },
            ),
            anchor: ip + len,
        }
    }
}

impl<'a> Parser<'a> {
    pub open spec fn parse(&self) -> Parse {
        Parse { triples: self.store.triples(), anchor: self.anchor as int }
    }

    pub open spec fn wf(&self) -> bool {
        &&& self.start <= self.anchor <= self.end <= self.data@.len()
        &&& self.end - self.start <= 131072
        &&& self.data@.len() <= u32::MAX
        &&& self.store.wf()
        &&& lit_total(self.store.triples()) == self.store.literals@.len()
        &&& triple_total(self.store.triples()) == self.anchor - self.start
        &&& self.store.literals@ == literals_of(
            self.data@,
            self.start as int,
            self.store.triples(),
        )
        &&& reproduces(
            &self.store,
            self.data@,
            self.start as int,
            self.anchor as int,
            self.rep0@,
            self.rep@,
        )
    }

    /// What is stored is borne out by the bytes where the recent offsets were
    /// `rep0` at the start, and leaves them at `rep`.
    pub open spec fn bears(&self, rep0: Seq<u32>, rep: Seq<u32>) -> bool {
        &&& borne_out(self.data@, self.start as int, self.end as int, self.store.triples(), rep0)
        &&& rep == reps_after(self.store.triples(), rep0)
    }

    /// The same block, possibly parsed further.
    pub open spec fn same_block(&self, other: &Self) -> bool {
        &&& self.data@ == other.data@
        &&& self.start == other.start
        &&& self.end == other.end
        &&& self.rep0@ == other.rep0@
    }

    /// Starts on the block `data[start .. end]`.
    pub fn new(data: &'a [u8], start: usize, end: usize, rep: Ghost<RepView>) -> (r: Self)
        requires
            start <= end <= data@.len(),
            end - start <= 131072,
            data@.len() <= u32::MAX,
        ensures
            r.wf(),
            r.data@ == data@,
            r.start == start,
            r.end == end,
            r.anchor == start,
            r.parse() == (Parse { triples: Seq::empty(), anchor: start as int }),
            r.rep0@ == rep@,
            r.rep@ == rep@,
    {
        let store = SeqStore::new();
        proof {
            reveal(reproduces);
            reveal_with_fuel(literals_of, 1);
            assert(store.literals@ =~= Seq::<u8>::empty());
            assert forall|hist: Seq<u8>|
                ends_with(hist, data@.take(start as int)) implies #[trigger] replay(
                store.triples(),
                store.literals@,
                ReplayState { hist, rep: rep@, lit_pos: 0 },
            ) == Some(
                ReplayState {
                    hist: hist + data@.subrange(start as int, start as int),
                    rep: rep@,
                    lit_pos: store.literals@.len(),
                },
            ) by {
                assert(hist + data@.subrange(start as int, start as int) =~= hist);
            }
        }
        Parser { data, start, end, anchor: start, store, rep0: Ghost(rep@), rep: Ghost(rep@) }
    }

    /// Stores the literals up to `ip` and a match of `len` bytes there with
    /// the offset value `of_value`.
    #[verifier::rlimit(30)]
    fn emit(&mut self, ip: usize, of_value: u32, len: usize)
        requires
            old(self).wf(),
            old(self).anchor <= ip,
            ip + len <= old(self).end,
            len >= 3,
            of_value >= 1,
            spec_resolve(
                of_value as nat,
                (ip - old(self).anchor) as nat,
                old(self).rep@,
            ) matches Ok((off, _)) && 1 <= off <= ip && eq_run(
                old(self).data@,
                ip as int,
                off as int,
                len as int,
            ),
        ensures
            final(self).wf(),
            final(self).same_block(old(self)),
            final(self).anchor == ip + len,
            final(self).parse() == old(self).parse().with_match(
                ip as int,
                of_value as nat,
                len as nat,
            ),
            spec_resolve(
                of_value as nat,
                (ip - old(self).anchor) as nat,
                old(self).rep@,
            )->Ok_0.1 == final(self).rep@,
    {
        let ghost before = *self;
        let ghost resolved = spec_resolve(
            of_value as nat,
            (ip - self.anchor) as nat,
            self.rep@,
        )->Ok_0;
        let literals = slice_subrange(self.data, self.anchor, ip);
        self.store.store_seq(literals, of_value, len as u32);
        self.anchor = ip + len;
        self.rep = Ghost(resolved.1);
        proof {
            let d = self.data@;
            let (off, rep) = resolved;
            let t = Triple {
                of_value: of_value as nat,
                lit_len: literals@.len(),
                match_len: len as nat,
            };
            let q = before.store.triples();
            let lits = before.store.literals@;
            let all = self.store.literals@;
            let s = self.start as int;
            assert(self.store.triples() == q.push(t));
            assert(q.push(t).drop_last() =~= q);
            reveal(reproduces);
            reveal_with_fuel(literals_of, 1);
            assert(all =~= lits + literals@);
            assert forall|hist: Seq<u8>|
                ends_with(hist, d.take(s)) implies #[trigger] replay(
                self.store.triples(),
                all,
                ReplayState { hist, rep: self.rep0@, lit_pos: 0 },
            ) == Some(
                ReplayState {
                    hist: hist + d.subrange(s, self.anchor as int),
                    rep: self.rep@,
                    lit_pos: all.len(),
                },
            ) by {
                let st0 = ReplayState { hist, rep: self.rep0@, lit_pos: 0 };
                assert(replay(q, lits, st0) is Some);
                lemma_replay_more_literals(q, lits, literals@, st0);
                assert(all =~= lits + literals@);
                let st = replay(q, lits, st0)->0;
                assert(all.subrange(lits.len() as int, all.len() as int) =~= literals@);
                let h1 = st.hist + literals@;
                assert(h1 =~= hist + d.subrange(s, ip as int));
                let tail = h1.skip(h1.len() - ip);
                assert(tail =~= d.take(ip as int)) by {
                    assert forall|k: int| 0 <= k < ip implies #[trigger] tail[k] == d[k] by {
                        if k < s {
                            assert(hist.skip(hist.len() - s)[k] == d.take(s)[k]);
                        }
                    }
                }
                lemma_copy_run(h1, d, ip as int, off, len as nat);
                assert(h1 + d.subrange(ip as int, ip + len) =~= hist + d.subrange(
                    s,
                    self.anchor as int,
                ));
            }
        }
    }

    /// Stores a match with the offset `offset`.
    pub fn emit_match(&mut self, ip: usize, offset: u32, len: usize)
        requires
            old(self).wf(),
            old(self).anchor <= ip,
            ip + len <= old(self).end,
            len >= 3,
            1 <= offset <= ip,
            offset <= u32::MAX - 3,
            eq_run(old(self).data@, ip as int, offset as int, len as int),
        ensures
            final(self).wf(),
            final(self).same_block(old(self)),
            final(self).anchor == ip + len,
            final(self).parse() == old(self).parse().with_match(
                ip as int,
                (offset + 3) as nat,
                len as nat,
            ),
            final(self).rep@ == (RepView {
                r0: offset as nat,
                r1: old(self).rep@.r0,
                r2: old(self).rep@.r1,
            }),
    {
        self.emit(ip, offset + 3, len);
    }

    /// Stores a match with the newest offset, after at least one literal.
    pub fn emit_rep0(&mut self, ip: usize, len: usize)
        requires
            old(self).wf(),
            old(self).anchor < ip,
            ip + len <= old(self).end,
            len >= 3,
            1 <= old(self).rep@.r0 <= ip,
            eq_run(old(self).data@, ip as int, old(self).rep@.r0 as int, len as int),
        ensures
            final(self).wf(),
            final(self).same_block(old(self)),
            final(self).anchor == ip + len,
            final(self).parse() == old(self).parse().with_match(ip as int, 1, len as nat),
            final(self).rep@ == old(self).rep@,
    {
        self.emit(ip, 1, len);
    }

    /// Stores a match with the second newest offset right at the anchor; the
    /// two newest offsets change places.
    pub fn emit_rep1(&mut self, len: usize)
        requires
            old(self).wf(),
            old(self).anchor + len <= old(self).end,
            len >= 3,
            1 <= old(self).rep@.r1 <= old(self).anchor,
            eq_run(old(self).data@, old(self).anchor as int, old(self).rep@.r1 as int, len as int),
        ensures
            final(self).wf(),
            final(self).same_block(old(self)),
            final(self).anchor == old(self).anchor + len,
            final(self).parse() == old(self).parse().with_match(
                old(self).anchor as int,
                1,
                len as nat,
            ),
            final(self).rep@ == (RepView {
                r0: old(self).rep@.r1,
                r1: old(self).rep@.r0,
                r2: old(self).rep@.r2,
            }),
    {
        let ip: usize = self.anchor;
        self.emit(ip, 1, len);
    }

    /// Stores a match with the offset value `off_base`, if the bytes bear it
    /// out, and tells whether it did. `rep` holds what is known of the recent
    /// offsets, before and after.
    pub fn emit_checked(&mut self, ip: usize, off_base: u32, len: usize, rep: &mut [u32; 3]) -> (r: bool)
        requires
            old(self).wf(),
            known(old(rep)@, old(self).rep@),
            old(self).anchor <= ip <= old(self).end,
            off_base >= 1,
        ensures
            final(self).wf(),
            final(self).same_block(old(self)),
            known(final(rep)@, final(self).rep@),
            r == bears_out(
                old(self).data@,
                ip as int,
                old(self).end as int,
                spec_rep_offset(old(rep)@, off_base, ip == old(self).anchor) as int,
                len as int,
            ),
            r ==> final(self).parse() == old(self).parse().with_match(
                ip as int,
                off_base as nat,
                len as nat,
            ) && final(rep)@ == spec_new_rep(old(rep)@, off_base, ip == old(self).anchor),
            r ==> final(self).anchor == ip + len && len >= 3,
            !r ==> *final(self) == *old(self) && final(rep)@ == old(rep)@,
            forall|rep0: Seq<u32>|
                old(self).bears(rep0, old(rep)@) ==> #[trigger] final(self).bears(rep0, final(rep)@),
    {
        let ll0: bool = ip == self.anchor;
        let offset: u32 = rep_offset(*rep, off_base, ll0);
        if offset == 0 || offset as usize > ip || len < 3 || len > self.end - ip {
            return false;
        }
        let n: usize = count_eq(self.data, ip, ip - offset as usize, ip + len);
        if n < len {
            assert(self.data@[ip + n] != self.data@[ip + n - offset]);
            return false;
        }
        self.emit_known(ip, off_base, len, rep);
        true
    }

    /// Stores a match with the offset value `off_base`, which the bytes bear
    /// out. `rep` holds what is known of the recent offsets, before and after.
    pub fn emit_known(&mut self, ip: usize, off_base: u32, len: usize, rep: &mut [u32; 3])
        requires
            old(self).wf(),
            known(old(rep)@, old(self).rep@),
            old(self).anchor <= ip <= old(self).end,
            off_base >= 1,
            bears_out(
                old(self).data@,
                ip as int,
                old(self).end as int,
                spec_rep_offset(old(rep)@, off_base, ip == old(self).anchor) as int,
                len as int,
            ),
        ensures
            final(self).wf(),
            final(self).same_block(old(self)),
            known(final(rep)@, final(self).rep@),
            final(self).parse() == old(self).parse().with_match(
                ip as int,
                off_base as nat,
                len as nat,
            ),
            final(rep)@ == spec_new_rep(old(rep)@, off_base, ip == old(self).anchor),
            final(self).anchor == ip + len,
            forall|rep0: Seq<u32>|
                old(self).bears(rep0, old(rep)@) ==> #[trigger] final(self).bears(rep0, final(rep)@),
    {
        let ghost before = *self;
        let ghost rep_before = rep@;
        let ll0: bool = ip == self.anchor;
        self.emit(ip, off_base, len);
        let next = new_rep(*rep, off_base, ll0);
        *rep = next;
        proof {
            let q = before.store.triples();
            let t = Triple {
                of_value: off_base as nat,
                lit_len: (ip - before.anchor) as nat,
                match_len: len as nat,
            };
            assert(self.store.triples() == q.push(t));
            assert forall|rep0: Seq<u32>| before.bears(rep0, rep_before) implies #[trigger] self.bears(
                rep0,
                rep@,
            ) by {
                lemma_borne_out_step(
                    before.data@,
                    before.start as int,
                    before.end as int,
                    q,
                    t,
                    rep0,
                );
            }
        }
    }

    /// Stores the bytes after the last match as literals, and gives the whole
    /// store.
    pub fn finish(self) -> (r: SeqStore)
        requires
            self.wf(),
        ensures
            r.wf(),
            stands_for(&r, self.data@, self.start as int, self.end as int, self.rep0@, self.rep@),
            triple_total(r.triples()) + r.literals@.len() - lit_total(r.triples()) == self.end
                - self.start,
            r.triples() == self.parse().triples,
            r.literals@ == block_literals(
                self.data@,
                self.start as int,
                self.end as int,
                self.parse().triples,
            ),
    {
        let ghost q = self.store.triples();
        let ghost lits = self.store.literals@;
        let mut store = self.store;
        let last = slice_subrange(self.data, self.anchor, self.end);
        store.store_last_literals(last);
        proof {
            reveal(reproduces);
            let d = self.data@;
            let s = self.start as int;
            assert forall|hist: Seq<u8>|
                ends_with(hist, d.take(s)) implies #[trigger] stands_at(
                &store,
                hist,
                d.subrange(s, self.end as int),
                self.rep0@,
                self.rep@,
            ) by {
                let st0 = ReplayState { hist, rep: self.rep0@, lit_pos: 0 };
                assert(replay(q, lits, st0) is Some);
                lemma_replay_more_literals(q, lits, last@, st0);
                assert(store.literals@ =~= lits + last@);
                assert(store.literals@.skip(lits.len() as int) =~= last@);
                assert(hist + d.subrange(s, self.anchor as int) + last@ =~= hist + d.subrange(
                    s,
                    self.end as int,
                ));
            }
        }
        store
    }
}

/// From the history `hist`, executing `store` gives `block` and the recent
/// offsets `rep`.
pub open spec fn stands_at(
    store: &SeqStore,
    hist: Seq<u8>,
    block: Seq<u8>,
    rep0: RepView,
    rep: RepView,
) -> bool {
    &&& store_replay(store, hist, rep0) is Some
    &&& store_replay(store, hist, rep0)->0.rep == rep
    &&& store_end(store, hist, rep0) == hist + block
}

/// `store` stands for the block `data[start .. end]`, after any history that
/// ends with the data before it.
pub open spec fn stands_for(
    store: &SeqStore,
    data: Seq<u8>,
    start: int,
    end: int,
    rep0: RepView,
    rep: RepView,
) -> bool {
    forall|hist: Seq<u8>|
        ends_with(hist, data.take(start)) ==> #[trigger] stands_at(
            store,
            hist,
            data.subrange(start, end),
            rep0,
            rep,
        )
}

} // verus!
