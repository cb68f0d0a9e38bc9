//! The bitstream writer, and what a backward reader finds in its output.
//!
//! Bits are appended least-significant first. A closed stream carries one more
//! set bit, so that a backward reader knows where to start; it then takes the
//! written fields off again, last one first.

use crate::bits::{highest_bit, lemma_highest_bit_bound, payload_bits, rev_open_error, rev_peek};
use crate::math::{bits_at, le_nat, lemma_le_nat_bound, lemma_le_nat_concat, low_bits, pow2_u64};
use vstd::arithmetic::div_mod::{lemma_fundamental_div_mod_converse, lemma_mod_bound, lemma_small_mod};
use vstd::arithmetic::power2::{
    lemma2_to64, lemma2_to64_rest, lemma_pow2_adds, lemma_pow2_pos, lemma_pow2_strictly_increases, lemma_pow2_unfold,
    pow2,
};
use vstd::prelude::*;

verus! {

/// The bits written so far: a number below `2^len`.
pub struct Bits {
    pub num: nat,
    pub len: nat,
}

/// `b` with the `n` low bits of `value` appended.
pub open spec fn append_field(b: Bits, value: nat, n: nat) -> Bits {
    Bits { num: b.num + (value % pow2(n)) * pow2(b.len), len: b.len + n }
}

/// The number `x` in `n` bytes, the lowest first.
pub open spec fn bytes_le(x: nat, n: nat) -> Seq<u8>
    decreases n,
{
    if n == 0 {
        Seq::empty()
    } else {
        seq![(x % 256) as u8] + bytes_le(x / 256, (n - 1) as nat)
    }
}

/// Bytes are what their number and their length say.
pub proof fn lemma_bytes_le(data: Seq<u8>)
    ensures
        data == bytes_le(le_nat(data), data.len()),
    decreases data.len(),
{
    if data.len() == 0 {
        assert(data =~= bytes_le(le_nat(data), 0));
    } else {
        let rest = data.skip(1);
        lemma_bytes_le(rest);
        assert(le_nat(data) / 256 == le_nat(rest));
        assert(le_nat(data) % 256 == data[0]);
        assert(data =~= seq![data[0]] + rest);
    }
}

/// The bytes that hold `b`.
#[verifier::opaque]
pub open spec fn open_bytes(b: Bits) -> Seq<u8> {
    bytes_le(b.num, (b.len + 7) / 8)
}

/// The bytes that hold `b` and the end mark.
#[verifier::opaque]
pub open spec fn closed_bytes(b: Bits) -> Seq<u8> {
    bytes_le(b.num + pow2(b.len), b.len / 8 + 1)
}

/// The bytes of a closed stream that holds `b`.
pub open spec fn closed_stream(b: Bits, data: Seq<u8>) -> bool {
    &&& le_nat(data) == b.num + pow2(b.len)
    &&& data.len() == b.len / 8 + 1
    &&& b.num < pow2(b.len)
}

/// A backward reader of `data` with `b.len` bits left has exactly `b` before
/// it.
pub open spec fn stream_holds(data: Seq<u8>, b: Bits) -> bool {
    le_nat(data) % pow2(b.len) == b.num
}

proof fn lemma_le_nat_push(s: Seq<u8>, b: u8)
    ensures
        le_nat(s.push(b)) == le_nat(s) + b * pow2(8 * s.len()),
    decreases s.len(),
{
    if s.len() == 0 {
        lemma2_to64();
        let t = s.push(b);
        assert(t.skip(1) =~= Seq::<u8>::empty());
        reveal_with_fuel(le_nat, 2);
        assert(le_nat(t) == b as nat);
        assert(le_nat(s) == 0);
        assert(8 * s.len() == 0);
        assert(b * pow2(8 * s.len()) == b) by (nonlinear_arith)
            requires
                pow2(8 * s.len()) == 1,
        ;
    } else {
        let t = s.push(b);
        assert(t.skip(1) =~= s.skip(1).push(b));
        lemma_le_nat_push(s.skip(1), b);
        let k = (8 * (s.len() - 1)) as nat;
        lemma_pow2_adds(8, k);
        lemma2_to64();
        assert(8 + k == 8 * s.len());
        assert(256 * (b * pow2(k)) == b * (256 * pow2(k))) by (nonlinear_arith);
    }
}

/// Appending keeps the number below its bound.
pub proof fn lemma_append_bound(b: Bits, value: nat, n: nat)
    requires
        b.num < pow2(b.len),
    ensures
        append_field(b, value, n).num < pow2(append_field(b, value, n).len),
        append_field(b, value, n).num % pow2(b.len) == b.num,
        append_field(b, value, n).num / pow2(b.len) == value % pow2(n),
{
    let v = value % pow2(n);
    let p = pow2(b.len);
    let q = pow2(n);
    lemma_pow2_pos(n);
    lemma_pow2_pos(b.len);
    lemma_mod_bound(value as int, q as int);
    lemma_pow2_adds(b.len, n);
    assert(b.num + v * p < p * q) by (nonlinear_arith)
        requires
            b.num < p,
            v + 1 <= q,
            p > 0,
    ;
    lemma_fundamental_div_mod_converse((b.num + v * p) as int, p as int, v as int, b.num as int);
}

/// What was appended last is what a backward reader takes first.
pub proof fn lemma_take_field(data: Seq<u8>, b: Bits, value: nat, n: nat)
    requires
        b.num < pow2(b.len),
        stream_holds(data, append_field(b, value, n)),
    ensures
        rev_peek(data, (b.len + n) as int, n) == value % pow2(n),
        stream_holds(data, b),
{
    lemma_append_bound(b, value, n);
    let whole = append_field(b, value, n);
    let x = le_nat(data);
    lemma_pow2_pos(b.len);
    lemma_pow2_pos(n);
    lemma_pow2_adds(b.len, n);
    // x mod 2^len from x mod 2^(len+n)
    vstd::arithmetic::div_mod::lemma_mod_mod(x as int, pow2(b.len) as int, pow2(n) as int);
    assert(x % pow2(b.len) == (x % pow2(whole.len)) % pow2(b.len));
    reveal(bits_at);
    crate::math::lemma_mod_div_mod(x, whole.len, b.len, n);
    assert(bits_at(data, b.len, n) == (whole.num / pow2(b.len)) % pow2(n));
    vstd::arithmetic::div_mod::lemma_mod_twice(value as int, pow2(n) as int);
    if b.len + n <= 0 {
        lemma2_to64();
        lemma_mod_bound(value as int, pow2(n) as int);
    }
}

/// A closed stream opens, and holds what was written.
pub proof fn lemma_open_closed(b: Bits, data: Seq<u8>)
    requires
        closed_stream(b, data),
    ensures
        rev_open_error(data) is None,
        payload_bits(data) == b.len,
        stream_holds(data, b),
{
    let p = pow2(b.len);
    lemma_pow2_pos(b.len);
    lemma_fundamental_div_mod_converse(le_nat(data) as int, p as int, 1, b.num as int);
    // The last byte holds the top bit.
    let n = (data.len() - 1) as nat;
    let r = (b.len % 8) as nat;
    let front = data.drop_last();
    assert(front.push(data.last()) =~= data);
    lemma_le_nat_push(front, data.last());
    lemma_le_nat_bound(front);
    let q = pow2(8 * n);
    lemma_pow2_pos(8 * n);
    lemma_pow2_adds(8 * n, r);
    assert(b.len == 8 * n + r);
    let last = data.last() as int;
    let t = pow2(r) as int;
    // q * t <= front + last * q < 2 * q * t
    assert(last >= t) by (nonlinear_arith)
        requires
            q * t <= le_nat(front) + last * q,
            0 <= le_nat(front) < q,
    ;
    assert(last < 2 * t) by (nonlinear_arith)
        requires
            le_nat(front) + last * q < 2 * (q * t),
            0 <= le_nat(front),
            q > 0,
    ;
    lemma2_to64();
    lemma_pow2_pos(r);
    lemma_highest_bit_bound(last as nat, 8);
    let h = highest_bit(last as nat);
    if h < r {
        lemma_pow2_unfold(r);
        if h < r - 1 {
            lemma_pow2_strictly_increases(h, (r - 1) as nat);
        }
    } else if r < h {
        lemma_pow2_unfold(h);
        if r < h - 1 {
            lemma_pow2_strictly_increases(r, (h - 1) as nat);
        }
    }
}

/// Bytes that start with what was written hold it, whatever follows.
pub proof fn lemma_prefix_holds(b: Bits, head: Seq<u8>, rest: Seq<u8>)
    requires
        b.num < pow2(b.len),
        le_nat(head) == b.num,
        8 * head.len() >= b.len,
    ensures
        stream_holds(head + rest, b),
{
    lemma_le_nat_concat(head, rest);
    let d = (8 * head.len() - b.len) as nat;
    lemma_pow2_adds(b.len, d);
    lemma_pow2_pos(b.len);
    let p = pow2(b.len) as int;
    let q = le_nat(rest) * pow2(d);
    assert(le_nat(rest) * (p * pow2(d)) == q * p) by (nonlinear_arith)
        requires
            q == le_nat(rest) * pow2(d),
    ;
    lemma_fundamental_div_mod_converse(le_nat(head + rest) as int, p, q as int, b.num as int);
}

/// What was appended last is what a forward reader finds at the old end.
pub proof fn lemma_field_at(data: Seq<u8>, b: Bits, value: nat, n: nat)
    requires
        b.num < pow2(b.len),
        stream_holds(data, append_field(b, value, n)),
    ensures
        bits_at(data, b.len, n) == value % pow2(n),
        stream_holds(data, b),
{
    lemma_take_field(data, b, value, n);
    if b.len + n <= 0 {
        reveal(bits_at);
        lemma2_to64();
        lemma_mod_bound(value as int, pow2(n) as int);
        lemma_mod_bound((le_nat(data) / pow2(b.len)) as int, pow2(n) as int);
    }
}

/// Forward bit writer.
pub struct BitCStream {
    /// Bits not yet emitted, fewer than eight between calls.
    container: u64,
    bit_pos: u32,
    out: Vec<u8>,
}

impl BitCStream {
    pub closed spec fn bits(&self) -> Bits {
        Bits {
            num: le_nat(self.out@) + self.container as nat * pow2(8 * self.out@.len()),
            len: 8 * self.out@.len() + self.bit_pos as nat,
        }
    }

    pub closed spec fn wf(&self) -> bool {
        &&& self.bit_pos < 8
        &&& self.container < pow2(self.bit_pos as nat)
    }

    pub fn new() -> (r: Self)
        ensures
            r.wf(),
            r.bits() == (Bits { num: 0, len: 0 }),
    {
        proof {
            lemma2_to64();
        }
        BitCStream { container: 0, bit_pos: 0, out: Vec::new() }
    }

    /// What has been written is below its bound.
    pub proof fn lemma_bits_bound(&self)
        requires
            self.wf(),
        ensures
            self.bits().num < pow2(self.bits().len),
    {
        lemma_le_nat_bound(self.out@);
        let p = pow2(8 * self.out@.len());
        let q = pow2(self.bit_pos as nat);
        lemma_pow2_adds(8 * self.out@.len(), self.bit_pos as nat);
        assert(le_nat(self.out@) + self.container * p < p * q) by (nonlinear_arith)
            requires
                le_nat(self.out@) < p,
                self.container + 1 <= q,
        ;
    }

    /// Appends the low `nb_bits` bits of `value`.
    pub fn add_bits(&mut self, value: u64, nb_bits: u32)
        requires
            old(self).wf(),
            nb_bits <= 56,
        ensures
            final(self).wf(),
            final(self).bits() == append_field(old(self).bits(), value as nat, nb_bits as nat),
    {
        let v: u64 = low_bits(value, nb_bits);
        let m: u64 = pow2_u64(self.bit_pos);
        let ghost c0 = self.container as nat;
        let ghost k = self.bit_pos as nat;
        let ghost n = nb_bits as nat;
        let ghost len0 = 8 * self.out@.len();
        proof {
            lemma_pow2_pos(n);
            lemma_mod_bound(value as int, pow2(n) as int);
            lemma_pow2_adds(n, k);
            lemma2_to64();
            lemma2_to64_rest();
            if n + k < 63 {
                lemma_pow2_strictly_increases(n + k, 63);
            }
            assert(v * m + c0 < pow2(n + k)) by (nonlinear_arith)
                requires
                    v + 1 <= pow2(n),
                    c0 < pow2(k),
                    m == pow2(k),
                    pow2(n + k) == pow2(n) * pow2(k),
            ;
            assert(v * m >= 0) by (nonlinear_arith);
        }
        self.container = self.container + v * m;
        self.bit_pos = self.bit_pos + nb_bits;
        proof {
            // The number as a whole.
            lemma_pow2_adds(len0, k);
            let p = pow2(len0);
            assert((c0 + v * m) * p == c0 * p + v * (p * m)) by (nonlinear_arith);
        }
        self.flush();
    }

    /// Emits the whole bytes held back.
    fn flush(&mut self)
        requires
            old(self).bit_pos <= 63,
            old(self).container < pow2(old(self).bit_pos as nat),
        ensures
            final(self).wf(),
            final(self).bits() == old(self).bits(),
    {
        let ghost goal = self.bits();
        while self.bit_pos >= 8
            invariant
                self.bit_pos <= 63,
                self.container < pow2(self.bit_pos as nat),
                self.bits() == goal,
            decreases self.bit_pos,
        {
            let ghost before = self.out@;
            let ghost c = self.container as nat;
            let b: u8 = (self.container % 256) as u8;
            proof {
                lemma2_to64();
                let k = (self.bit_pos - 8) as nat;
                lemma_pow2_adds(8, k);
                lemma_le_nat_push(before, b);
                lemma_pow2_adds(8 * before.len(), 8);
                let p = pow2(8 * before.len());
                assert(c == b + 256 * (c / 256));
                assert(c * p == b * p + (c / 256) * (p * 256)) by (nonlinear_arith)
                    requires
                        c == b + 256 * (c / 256),
                ;
                assert(8 * before.len() + 8 == 8 * before.push(b).len());
            }
            self.out.push(b);
            self.container = self.container / 256;
            self.bit_pos = self.bit_pos - 8;
        }
    }

    /// The bytes written, without an end mark.
    pub fn finish(self) -> (r: Vec<u8>)
        requires
            self.wf(),
        ensures
            le_nat(r@) == self.bits().num,
            r@.len() == (self.bits().len + 7) / 8,
            r@ == open_bytes(self.bits()),
    {
        let mut out: Vec<u8> = self.out;
        if self.bit_pos > 0 {
            proof {
                lemma2_to64();
                lemma_pow2_strictly_increases(self.bit_pos as nat, 8);
                lemma_le_nat_push(out@, self.container as u8);
            }
            out.push(self.container as u8);
        } else {
            proof {
                lemma2_to64();
                assert(self.container == 0);
                assert(0 * pow2(8 * out@.len()) == 0) by (nonlinear_arith);
            }
        }
        proof {
            reveal(open_bytes);
            lemma_bytes_le(out@);
        }
        out
    }

    /// The bytes written, with the end mark.
    pub fn close(self) -> (r: Vec<u8>)
        requires
            self.wf(),
        ensures
            closed_stream(self.bits(), r@),
            r@ == closed_bytes(self.bits()),
    {
        let ghost b = self.bits();
        proof {
            self.lemma_bits_bound();
        }
        let mut s = self;
        s.add_bits(1, 1);
        proof {
            lemma2_to64();
            lemma_small_mod(1, 2);
            assert((1nat % pow2(1)) * pow2(b.len) == pow2(b.len)) by (nonlinear_arith)
                requires
                    1nat % pow2(1) == 1,
            ;
        }
        let mut out: Vec<u8> = s.out;
        if s.bit_pos > 0 {
            proof {
                if s.bit_pos < 8 {
                    lemma_pow2_strictly_increases(s.bit_pos as nat, 8);
                }
                lemma_le_nat_push(out@, s.container as u8);
            }
            out.push(s.container as u8);
        } else {
            proof {
                assert(s.container == 0);
                assert(0 * pow2(8 * out@.len()) == 0) by (nonlinear_arith);
            }
        }
        proof {
            reveal(closed_bytes);
            lemma_bytes_le(out@);
        }
        out
    }
}

} // verus!
