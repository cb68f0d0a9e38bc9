//! Powers of two, little-endian numbers and bit fields.

use vstd::arithmetic::div_mod::{
    lemma_div_denominator, lemma_fundamental_div_mod_converse, lemma_mod_breakdown, lemma_small_mod,
};
use vstd::arithmetic::power2::{lemma2_to64, lemma_pow2_adds, lemma_pow2_pos, lemma_pow2_strictly_increases, pow2};
use vstd::bits::{lemma_u64_pow2_no_overflow, lemma_u64_shl_is_mul, lemma_u64_shr_is_div};
use vstd::prelude::*;

verus! {

/// The number whose little-endian base-256 digits are `s`.
pub open spec fn le_nat(s: Seq<u8>) -> nat
    decreases s.len(),
{
    if s.len() == 0 {
        0
    } else {
        s[0] as nat + 256 * le_nat(s.skip(1))
    }
}

/// Bits `lo .. lo + n` of the bit string `s`, where bit `i` is bit `i % 8` of
/// byte `i / 8`; the string continues with zeros past its end.
#[verifier::opaque]
pub open spec fn bits_at(s: Seq<u8>, lo: nat, n: nat) -> nat {
    (le_nat(s) / pow2(lo)) % pow2(n)
}

/// The byte at `i`, zero past the end.
pub open spec fn byte_or_zero(s: Seq<u8>, i: int) -> u8 {
    if 0 <= i < s.len() {
        s[i]
    } else {
        0
    }
}

pub proof fn lemma_le_nat_skip(s: Seq<u8>, k: nat)
    requires
        k <= s.len(),
    ensures
        le_nat(s) / pow2(8 * k) == le_nat(s.skip(k as int)),
    decreases k,
{
    if k == 0 {
        lemma2_to64();
        assert(8 * k == 0);
        assert(pow2(8 * k) == 1);
        assert(s.skip(0) =~= s);
    } else {
        let t = s.skip(1);
        lemma_le_nat_skip(t, (k - 1) as nat);
        assert(t.skip(k - 1) =~= s.skip(k as int));
        lemma_pow2_adds(8, (8 * (k - 1)) as nat);
        lemma2_to64();
        lemma_pow2_pos((8 * (k - 1)) as nat);
        lemma_div_denominator(le_nat(s) as int, 256, pow2((8 * (k - 1)) as nat) as int);
        assert(le_nat(s) / 256 == le_nat(t));
        assert(8 + (8 * (k - 1)) as nat == 8 * k);
        assert(pow2(8 * k) == 256 * pow2((8 * (k - 1)) as nat));
        assert(le_nat(s) / pow2(8 * k) == le_nat(t) / pow2((8 * (k - 1)) as nat));
    }
}

/// The number of a concatenation.
pub proof fn lemma_le_nat_concat(a: Seq<u8>, b: Seq<u8>)
    ensures
        le_nat(a + b) == le_nat(a) + le_nat(b) * pow2(8 * a.len()),
    decreases a.len(),
{
    lemma2_to64();
    if a.len() == 0 {
        assert(a + b =~= b);
        assert(8 * a.len() == 0);
        assert(le_nat(b) * pow2(8 * a.len()) == le_nat(b)) by (nonlinear_arith)
            requires
                pow2(8 * a.len()) == 1,
        ;
    } else {
        let s = a + b;
        assert(s.skip(1) =~= a.skip(1) + b);
        lemma_le_nat_concat(a.skip(1), b);
        let k = (8 * (a.len() - 1)) as nat;
        lemma_pow2_adds(8, k);
        assert(8 + k == 8 * a.len());
        assert(256 * (le_nat(b) * pow2(k)) == le_nat(b) * (256 * pow2(k))) by (nonlinear_arith);
    }
}

pub proof fn lemma_le_nat_bound(s: Seq<u8>)
    ensures
        le_nat(s) < pow2(8 * s.len()),
    decreases s.len(),
{
    lemma2_to64();
    if s.len() > 0 {
        lemma_le_nat_bound(s.skip(1));
        lemma_pow2_adds(8, (8 * (s.len() - 1)) as nat);
    }
}

pub proof fn lemma_le_nat_zero_past_end(s: Seq<u8>, k: nat)
    requires
        k >= s.len(),
    ensures
        le_nat(s) / pow2(8 * k) == 0,
{
    lemma_le_nat_bound(s);
    if 8 * s.len() < 8 * k {
        lemma_pow2_strictly_increases(8 * s.len(), 8 * k);
    }
    vstd::arithmetic::div_mod::lemma_basic_div(le_nat(s) as int, pow2(8 * k) as int);
}

/// One byte down: the bits from byte `at` on are that byte and 256 times the
/// bits from byte `at + 1` on.
pub proof fn lemma_bits_at_byte(s: Seq<u8>, at: nat, k: nat)
    ensures
        bits_at(s, 8 * at, 8 * (k + 1)) == byte_or_zero(s, at as int) as nat + 256 * bits_at(
            s,
            8 * (at + 1),
            8 * k,
        ),
{
    reveal(bits_at);
    let x = le_nat(s) / pow2(8 * at);
    let y = le_nat(s) / pow2(8 * (at + 1));
    lemma2_to64();
    lemma_pow2_adds(8 * at, 8);
    lemma_pow2_pos(8 * at);
    lemma_div_denominator(le_nat(s) as int, pow2(8 * at) as int, 256);
    assert(y == x / 256);
    let b = byte_or_zero(s, at as int) as nat;
    if at < s.len() {
        lemma_le_nat_skip(s, at);
        assert(s.skip(at as int)[0] == s[at as int]);
    } else {
        lemma_le_nat_zero_past_end(s, at);
    }
    assert(x % 256 == b);
    lemma_pow2_adds(8, 8 * k);
    lemma_pow2_pos(8 * k);
    lemma_mod_breakdown(x as int, 256, pow2(8 * k) as int);
}

pub proof fn lemma_bits_at_bound(s: Seq<u8>, lo: nat, n: nat)
    ensures
        bits_at(s, lo, n) < pow2(n),
{
    reveal(bits_at);
    lemma_pow2_pos(n);
    vstd::arithmetic::div_mod::lemma_mod_bound((le_nat(s) / pow2(lo)) as int, pow2(n) as int);
}

/// A field inside a wider field.
pub proof fn lemma_bits_at_sub(s: Seq<u8>, lo: nat, w: nat, shift: nat, n: nat)
    requires
        shift + n <= w,
    ensures
        (bits_at(s, lo, w) / pow2(shift)) % pow2(n) == bits_at(s, lo + shift, n),
{
    reveal(bits_at);
    let x = le_nat(s) / pow2(lo);
    lemma_pow2_adds(lo, shift);
    lemma_pow2_pos(lo);
    lemma_pow2_pos(shift);
    lemma_pow2_pos(n);
    lemma_pow2_pos(w);
    lemma_div_denominator(le_nat(s) as int, pow2(lo) as int, pow2(shift) as int);
    lemma_mod_div_mod(x, w, shift, n);
}

/// `((x mod 2^w) / 2^a) mod 2^n == (x / 2^a) mod 2^n` when `a + n <= w`.
pub proof fn lemma_mod_div_mod(x: nat, w: nat, a: nat, n: nat)
    requires
        a + n <= w,
    ensures
        ((x % pow2(w)) / pow2(a)) % pow2(n) == (x / pow2(a)) % pow2(n),
{
    let pa = pow2(a) as int;
    let pn = pow2(n) as int;
    let r = (w - a - n) as nat;
    let pr = pow2(r) as int;
    lemma_pow2_pos(a);
    lemma_pow2_pos(n);
    lemma_pow2_pos(r);
    lemma_pow2_adds(a, (w - a) as nat);
    lemma_pow2_adds(n, r);
    lemma_pow2_pos((w - a) as nat);
    // x % 2^w == x % 2^a + 2^a * ((x / 2^a) % 2^(w-a))
    let q = x as int / pa;
    let m = pow2((w - a) as nat) as int;
    lemma_mod_breakdown(x as int, pa, m);
    let lowpart = x as int % pa;
    let highpart = q % m;
    assert((x % pow2(w)) as int == pa * highpart + lowpart);
    vstd::arithmetic::div_mod::lemma_mod_bound(x as int, pa);
    lemma_fundamental_div_mod_converse(pa * highpart + lowpart, pa, highpart, lowpart);
    assert((x % pow2(w)) as int / pa == highpart);
    // (q % (2^n * 2^r)) % 2^n == q % 2^n
    vstd::arithmetic::div_mod::lemma_mod_mod(q, pn, pr);
}

/// `2^n` as a machine word.
pub fn pow2_u64(n: u32) -> (r: u64)
    requires
        n < 64,
    ensures
        r == pow2(n as nat),
        r >= 1,
{
    proof {
        lemma_u64_pow2_no_overflow(n as nat);
        lemma_u64_shl_is_mul(1u64, n as u64);
        lemma_pow2_pos(n as nat);
    }
    1u64 << (n as u64)
}

/// `x mod 2^n`.
pub fn low_bits(x: u64, n: u32) -> (r: u64)
    requires
        n <= 64,
    ensures
        r == x as nat % pow2(n as nat),
{
    if n == 64 {
        proof {
            vstd::arithmetic::power2::lemma2_to64_rest();
            lemma_small_mod(x as nat, pow2(64));
        }
        x
    } else {
        x % pow2_u64(n)
    }
}

/// `x / 2^n`.
pub fn shr(x: u64, n: u32) -> (r: u64)
    requires
        n < 64,
    ensures
        r == x as nat / pow2(n as nat),
{
    proof {
        lemma_u64_shr_is_div(x, n as u64);
    }
    x >> (n as u64)
}

/// The eight bytes at `byte` as a little-endian number, zeros past the end.
pub fn load8(data: &[u8], byte: usize) -> (r: u64)
    ensures
        r == bits_at(data@, 8 * byte as nat, 64),
{
    let mut i: usize = 8;
    let mut v: u64 = 0;
    proof {
        reveal(bits_at);
        lemma2_to64();
        assert(pow2(8 * 0) == 1);
        vstd::arithmetic::div_mod::lemma_mod_bound((le_nat(data@) / pow2(8 * (byte + 8) as nat)) as int, 1);
    }
    while i > 0
        invariant
            i <= 8,
            v == bits_at(data@, 8 * (byte + i) as nat, (8 * (8 - i)) as nat),
        decreases i,
    {
        i = i - 1;
        let b: u8 = if byte < data.len() && i < data.len() - byte {
            data[byte + i]
        } else {
            0
        };
        proof {
            lemma_bits_at_byte(data@, (byte + i) as nat, (7 - i) as nat);
            lemma_bits_at_bound(data@, 8 * (byte + i + 1) as nat, (8 * (7 - i)) as nat);
            if i > 0 {
                lemma_pow2_strictly_increases((8 * (7 - i)) as nat, 56);
            }
            lemma2_to64();
            vstd::arithmetic::power2::lemma2_to64_rest();
        }
        v = v * 256 + b as u64;
    }
    v
}

/// The four bytes at `at` as a little-endian number, zeros past the end.
pub fn load4(data: &[u8], at: usize) -> (r: u32)
    ensures
        r == bits_at(data@, 8 * at as nat, 32),
{
    let w: u64 = low_bits(load8(data, at), 32);
    proof {
        lemma_bits_at_sub(data@, 8 * at as nat, 64, 0, 32);
        lemma2_to64();
        assert(bits_at(data@, 8 * at as nat, 64) / 1 == bits_at(data@, 8 * at as nat, 64));
    }
    w as u32
}

} // verus!
