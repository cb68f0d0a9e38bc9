//! XXH64 in the arithmetic of whole numbers modulo 2^64.

use crate::decompress::spec_frame_end;
use crate::error::Error;
use crate::frame::FrameHeader;
use crate::frame_laws::{is_number_at, lemma_number_at};
use crate::xxhash::{
    avalanche, finish_tail, lanes_after, merge_lanes, spec_merge_round, spec_rotl, spec_round, spec_xxh64, tail1,
    tail4, tail8, word64, PRIME1, PRIME2, PRIME3, PRIME4, PRIME5,
};
use vstd::arithmetic::div_mod::{lemma_fundamental_div_mod, lemma_mod_bound};
use vstd::arithmetic::power2::{lemma2_to64, lemma2_to64_rest, lemma_pow2_adds, lemma_pow2_pos, pow2};
use vstd::bits::{lemma_u64_shl_is_mul, lemma_u64_shr_is_div};
use vstd::prelude::*;

verus! {

/// A number modulo 2^64.
#[verifier::opaque]
pub open spec fn modulo(x: int) -> u64 {
    (x % 0x1_0000_0000_0000_0000) as u64
}

/// `x` with its top `r` bits moved to the bottom.
#[verifier::opaque]
pub open spec fn turned(x: u64, r: nat) -> u64 {
    modulo((x * pow2(r)) % 0x1_0000_0000_0000_0000 + x as nat / pow2((64 - r) as nat))
}

/// `x` without its lowest `r` bits.
pub open spec fn without(x: u64, r: nat) -> u64 {
    modulo((x as nat / pow2(r)) as int)
}

/// The eight bytes at `at`, the lowest first.
pub open spec fn eight(s: Seq<u8>, at: int) -> int {
    four(s, at) + 0x1_0000_0000 * four(s, at + 4)
}

/// The four bytes at `at`, the lowest first.
pub open spec fn four(s: Seq<u8>, at: int) -> int {
    s[at] + 256 * s[at + 1] + 65536 * s[at + 2] + 16777216 * s[at + 3]
}

proof fn lemma_bits_apart(x: u64, r: u64, s: u64)
    requires
        0 < r < 64,
        s == 64 - r,
    ensures
        ((x << r) | (x >> s)) == (x << r) + (x >> s),
{
    assert(((x << r) | (x >> s)) == (x << r) + (x >> s)) by (bit_vector)
        requires
            0 < r,
            r < 64,
            s < 64,
            r + s == 64,
    ;
}

/// Wrapping arithmetic is arithmetic modulo 2^64.
proof fn lemma_modulo(a: u64, k: u64, c: u64)
    ensures
        a.wrapping_add(c) == modulo(a + c),
        a.wrapping_sub(c) == modulo(a - c),
        a.wrapping_mul(k) == modulo(a * k),
        a.wrapping_mul(k).wrapping_add(c) == modulo(a * k + c),
        c.wrapping_add(a.wrapping_mul(k)) == modulo(c + a * k),
{
    reveal(modulo);
    let p = a as int * k as int;
    assert(p >= 0) by (nonlinear_arith)
        requires
            p == a as int * k as int,
            a >= 0,
            k >= 0,
    ;
    lemma_modulo_sum(p, c as int);
}

proof fn lemma_modulo_sum(p: int, c: int)
    requires
        p >= 0,
        0 <= c < 0x1_0000_0000_0000_0000,
    ensures
        ({
            let m = p % 0x1_0000_0000_0000_0000;
            (p + c) % 0x1_0000_0000_0000_0000 == if m + c >= 0x1_0000_0000_0000_0000 {
                m + c - 0x1_0000_0000_0000_0000
            } else {
                m + c
            }
        }),
{
}

/// A shift to the left is multiplication modulo 2^64.
proof fn lemma_shifted(x: u64, r: u64, s: u64)
    requires
        0 < r < 64,
        s == 64 - r,
    ensures
        (x << r) == (x * pow2(r as nat)) % 0x1_0000_0000_0000_0000,
{
    let low = (x << r) >> r;
    let high = x >> s;
    assert((low << r) == (x << r) && x == (high << s) + low) by (bit_vector)
        requires
            0 < r,
            r < 64,
            s < 64,
            r + s == 64,
            low == (x << r) >> r,
            high == x >> s,
    ;
    lemma_u64_shr_is_div(x, s);
    lemma_pow2_pos(s as nat);
    lemma_pow2_pos(r as nat);
    lemma_fundamental_div_mod(x as int, pow2(s as nat) as int);
    lemma_pow2_adds(r as nat, s as nat);
    lemma2_to64();
    let p = pow2(s as nat) as int;
    let q = pow2(r as nat) as int;
    let h = high as int;
    let l = low as int;
    assert(h * p <= x) by (nonlinear_arith)
        requires
            x == p * h + x as int % p,
            x as int % p >= 0,
    ;
    lemma_u64_shl_is_mul(high, s);
    assert(l == x as int % p) by (nonlinear_arith)
        requires
            x == h * p + l,
            x == p * h + x as int % p,
    ;
    lemma_mod_bound(x as int, p);
    assert(0 <= l * q <= (p - 1) * q && (p - 1) * q < 0x1_0000_0000_0000_0000) by (nonlinear_arith)
        requires
            0 <= l <= p - 1,
            q > 0,
            q * p == 0x1_0000_0000_0000_0000,
    ;
    lemma_u64_shl_is_mul(low, r);
    assert(x * q == h * 0x1_0000_0000_0000_0000 + l * q) by (nonlinear_arith)
        requires
            x == h * p + l,
            q * p == 0x1_0000_0000_0000_0000,
    ;
}

/// A rotation is multiplication by a power of two, with what runs over put in
/// at the bottom.
pub proof fn law_rotation(x: u64, r: u64)
    requires
        0 < r < 64,
    ensures
        spec_rotl(x, r) == turned(x, r as nat),
{
    reveal(turned);
    reveal(modulo);
    let s = (64 - r) as u64;
    lemma_bits_apart(x, r, s);
    lemma_shifted(x, r, s);
    lemma_u64_shr_is_div(x, s);
}

/// The accumulator `acc` with the word `w` taken in.
#[verifier::opaque]
pub open spec fn taken_in(acc: u64, w: int) -> u64 {
    modulo(
        turned(modulo(acc + w * 0xC2B2_AE3D_27D4_EB4F), 31) * 0x9E37_79B1_85EB_CA87,
    )
}

/// A round: the word times the second prime is added, the sum is rotated by
/// 31, and multiplied by the first prime.
pub proof fn law_round(acc: u64, w: u64)
    ensures
        spec_round(acc, w) == taken_in(acc, w as int),
{
    reveal(spec_round);
    reveal(taken_in);
    lemma_modulo(w, PRIME2, acc);
    let s = modulo(acc + w * PRIME2);
    law_rotation(s, 31);
    lemma_modulo(turned(s, 31), PRIME1, 0);
}

/// The tail, eight bytes at a time: the word goes through a round of its own
/// and is xored in; the hash is rotated by 27, multiplied by the first prime,
/// and the fourth is added.
pub proof fn law_eight_byte_step(h: u64, w: u64)
    ensures
        tail8(h, w) == modulo(
            turned(h ^ taken_in(0, w as int), 27) * 0x9E37_79B1_85EB_CA87 + 0x85EB_CA77_C2B2_AE63,
        ),
{
    reveal(tail8);
    law_round(0, w);
    let x = h ^ taken_in(0, w as int);
    law_rotation(x, 27);
    lemma_modulo(turned(x, 27), PRIME1, PRIME4);
}

/// Four bytes: the word times the first prime is xored in; the hash is rotated
/// by 23, multiplied by the second prime, and the third is added.
pub proof fn law_four_byte_step(h: u64, w: u64)
    ensures
        tail4(h, w) == modulo(
            turned(h ^ modulo(w * 0x9E37_79B1_85EB_CA87), 23) * 0xC2B2_AE3D_27D4_EB4F
                + 0x1656_67B1_9E37_79F9,
        ),
{
    reveal(tail4);
    lemma_modulo(w, PRIME1, 0);
    let x = h ^ modulo(w * PRIME1);
    law_rotation(x, 23);
    lemma_modulo(turned(x, 23), PRIME2, PRIME3);
}

/// One byte: the byte times the fifth prime is xored in; the hash is rotated by
/// 11 and multiplied by the first prime.
pub proof fn law_one_byte_step(h: u64, b: u8)
    ensures
        tail1(h, b) == modulo(
            turned(h ^ modulo(b * 0x27D4_EB2F_1656_67C5), 11) * 0x9E37_79B1_85EB_CA87,
        ),
{
    reveal(tail1);
    lemma_modulo(b as u64, PRIME5, 0);
    let x = h ^ modulo(b * PRIME5);
    law_rotation(x, 11);
    lemma_modulo(turned(x, 11), PRIME1, 0);
}

/// At the end the bits are spread: three xors with the upper bits, and between
/// them the second and the third prime.
pub open spec fn spread_out(h: u64) -> u64 {
    let a = modulo((h ^ without(h, 33)) * 0xC2B2_AE3D_27D4_EB4F);
    let b = modulo((a ^ without(a, 29)) * 0x1656_67B1_9E37_79F9);
    b ^ without(b, 32)
}

pub proof fn law_final_mix(h: u64)
    ensures
        avalanche(h) == spread_out(h),
{
    reveal(avalanche);
    reveal(modulo);
    lemma2_to64();
    lemma2_to64_rest();
    lemma_u64_shr_is_div(h, 33);
    lemma_modulo(h ^ (h >> 33), PRIME2, 0);
    let a = (h ^ (h >> 33)).wrapping_mul(PRIME2);
    lemma_u64_shr_is_div(a, 29);
    lemma_modulo(a ^ (a >> 29), PRIME3, 0);
    let b = (a ^ (a >> 29)).wrapping_mul(PRIME3);
    lemma_u64_shr_is_div(b, 32);
}

/// The accumulator that starts as `start` and takes in, of each of the first
/// `k` stripes of 32 bytes, the word at `off`.
pub open spec fn lane(data: Seq<u8>, start: u64, off: int, k: nat) -> u64
    decreases k,
{
    if k == 0 {
        start
    } else {
        taken_in(lane(data, start, off, (k - 1) as nat), eight(data, 32 * (k - 1) + off))
    }
}

/// The hash with an accumulator merged in.
pub open spec fn merged(h: u64, v: u64) -> u64 {
    modulo((h ^ taken_in(0, v as int)) * 0x9E37_79B1_85EB_CA87 + 0x85EB_CA77_C2B2_AE63)
}

/// What the stripes of 32 bytes give: four accumulators, one for each word of a
/// stripe, which are rotated, added up, and merged in one after the other.
pub open spec fn of_stripes(data: Seq<u8>, seed: u64, k: nat) -> u64 {
    let v1 = lane(data, modulo(seed + 0x9E37_79B1_85EB_CA87 + 0xC2B2_AE3D_27D4_EB4F), 0, k);
    let v2 = lane(data, modulo(seed + 0xC2B2_AE3D_27D4_EB4F), 8, k);
    let v3 = lane(data, seed, 16, k);
    let v4 = lane(data, modulo(seed - 0x9E37_79B1_85EB_CA87), 24, k);
    let h = modulo(turned(v1, 1) + turned(v2, 7) + turned(v3, 12) + turned(v4, 18));
    merged(merged(merged(merged(h, v1), v2), v3), v4)
}

/// What `n` words of eight bytes from `at` on make of the hash `h`.
pub open spec fn over_eights(h: u64, data: Seq<u8>, at: int, n: nat) -> u64
    decreases n,
{
    if n == 0 {
        h
    } else {
        over_eights(
            modulo(
                turned(h ^ taken_in(0, eight(data, at)), 27) * 0x9E37_79B1_85EB_CA87
                    + 0x85EB_CA77_C2B2_AE63,
            ),
            data,
            at + 8,
            (n - 1) as nat,
        )
    }
}

/// What `n` single bytes from `at` on make of it.
pub open spec fn over_ones(h: u64, data: Seq<u8>, at: int, n: nat) -> u64
    decreases n,
{
    if n == 0 {
        h
    } else {
        over_ones(
            modulo(
                turned(h ^ modulo(data[at] * 0x27D4_EB2F_1656_67C5), 11) * 0x9E37_79B1_85EB_CA87,
            ),
            data,
            at + 1,
            (n - 1) as nat,
        )
    }
}

/// A word of four bytes, where one is left.
pub open spec fn over_four(h: u64, data: Seq<u8>, at: int, n: nat) -> u64 {
    if n == 0 {
        h
    } else {
        modulo(
            turned(h ^ modulo(four(data, at) * 0x9E37_79B1_85EB_CA87), 23) * 0xC2B2_AE3D_27D4_EB4F
                + 0x1656_67B1_9E37_79F9,
        )
    }
}

proof fn lemma_eight(s: Seq<u8>, at: nat)
    requires
        at + 8 <= s.len(),
    ensures
        word64(s, at as int) == eight(s, at as int),
{
    lemma_number_at(s, at, 8);
    assert(is_number_at(
        crate::math::bits_at(s, 8 * at, 64) as int,
        s,
        at as int,
        8,
    ));
}

proof fn lemma_lanes(data: Seq<u8>, seed: u64, k: nat)
    requires
        32 * k <= data.len(),
    ensures
        ({
            let l = lanes_after(data, seed, k);
            &&& l.v1 == lane(
                data,
                modulo(seed + 0x9E37_79B1_85EB_CA87 + 0xC2B2_AE3D_27D4_EB4F),
                0,
                k,
            )
            &&& l.v2 == lane(data, modulo(seed + 0xC2B2_AE3D_27D4_EB4F), 8, k)
            &&& l.v3 == lane(data, seed, 16, k)
            &&& l.v4 == lane(data, modulo(seed - 0x9E37_79B1_85EB_CA87), 24, k)
        }),
    decreases k,
{
    lemma_sum(seed, PRIME1, PRIME2, 0);
    lemma_modulo(seed, 0, PRIME2);
    lemma_modulo(seed, 0, PRIME1);
    if k > 0 {
        let j = (k - 1) as nat;
        lemma_lanes(data, seed, j);
        let l = lanes_after(data, seed, j);
        let at = 32 * j;
        lemma_eight(data, at);
        lemma_eight(data, at + 8);
        lemma_eight(data, at + 16);
        lemma_eight(data, at + 24);
        law_round(l.v1, word64(data, at as int));
        law_round(l.v2, word64(data, (at + 8) as int));
        law_round(l.v3, word64(data, (at + 16) as int));
        law_round(l.v4, word64(data, (at + 24) as int));
    }
}

proof fn lemma_merged(h: u64, v: u64)
    ensures
        spec_merge_round(h, v) == merged(h, v),
{
    reveal(spec_merge_round);
    law_round(0, v);
    lemma_modulo(h ^ taken_in(0, v as int), PRIME1, PRIME4);
}

/// Sums modulo 2^64.
proof fn lemma_sum(a: u64, b: u64, c: u64, d: u64)
    ensures
        a.wrapping_add(b).wrapping_add(c).wrapping_add(d) == modulo(a + b + c + d),
        a.wrapping_add(b).wrapping_add(c) == modulo(a + b + c),
{
    reveal(modulo);
}

proof fn lemma_stripes(data: Seq<u8>, seed: u64, k: nat)
    requires
        32 * k <= data.len(),
    ensures
        merge_lanes(lanes_after(data, seed, k)) == of_stripes(data, seed, k),
{
    reveal(merge_lanes);
    lemma_lanes(data, seed, k);
    let l = lanes_after(data, seed, k);
    law_rotation(l.v1, 1);
    law_rotation(l.v2, 7);
    law_rotation(l.v3, 12);
    law_rotation(l.v4, 18);
    lemma_sum(turned(l.v1, 1), turned(l.v2, 7), turned(l.v3, 12), turned(l.v4, 18));
    let h = modulo(turned(l.v1, 1) + turned(l.v2, 7) + turned(l.v3, 12) + turned(l.v4, 18));
    lemma_merged(h, l.v1);
    let h1 = merged(h, l.v1);
    lemma_merged(h1, l.v2);
    let h2 = merged(h1, l.v2);
    lemma_merged(h2, l.v3);
    let h3 = merged(h2, l.v3);
    lemma_merged(h3, l.v4);
}

proof fn lemma_eights(h: u64, data: Seq<u8>, at: nat)
    requires
        at <= data.len(),
    ensures
        ({
            let n = (data.len() - at) as nat / 8;
            finish_tail(h, data, at as int) == finish_tail(
                over_eights(h, data, at as int, n),
                data,
                (at + 8 * n) as int,
            )
        }),
    decreases data.len() - at,
{
    let n = (data.len() - at) as nat / 8;
    if at + 8 <= data.len() {
        lemma_eight(data, at);
        law_eight_byte_step(h, word64(data, at as int));
        let h1 = tail8(h, word64(data, at as int));
        lemma_eights(h1, data, at + 8);
        assert((data.len() - (at + 8)) as nat / 8 == n - 1);
    }
}

proof fn lemma_ones(h: u64, data: Seq<u8>, at: nat)
    requires
        at <= data.len() < at + 4,
    ensures
        finish_tail(h, data, at as int) == spread_out(
            over_ones(h, data, at as int, (data.len() - at) as nat),
        ),
    decreases data.len() - at,
{
    if at < data.len() {
        law_one_byte_step(h, data[at as int]);
        lemma_ones(tail1(h, data[at as int]), data, at + 1);
    } else {
        law_final_mix(h);
    }
}

/// XXH64: the whole stripes of 32 bytes, or without any the seed and the fifth
/// prime; the length is added; then what is left, in words of eight bytes, a
/// word of four, and single bytes; and at the end the bits are spread.
pub proof fn law_xxh64(data: Seq<u8>, seed: u64)
    requires
        data.len() < 0x1_0000_0000_0000_0000,
    ensures
        ({
            let n = data.len();
            let start = if n < 32 {
                modulo(seed + 0x27D4_EB2F_1656_67C5)
            } else {
                of_stripes(data, seed, n / 32)
            };
            let h8 = over_eights(modulo(start + n), data, n - n % 32, n % 32 / 8);
            let h4 = over_four(h8, data, n - n % 8, n % 8 / 4);
            let h1 = over_ones(h4, data, n - n % 4, n % 4);
            spec_xxh64(data, seed) == spread_out(h1)
        }),
{
    let n = data.len();
    let k = n / 32;
    let start = if n < 32 {
        modulo(seed + 0x27D4_EB2F_1656_67C5)
    } else {
        of_stripes(data, seed, k)
    };
    if n >= 32 {
        lemma_stripes(data, seed, k);
    }
    lemma_modulo(seed, 0, PRIME5);
    lemma_modulo(start, 0, n as u64);
    let h = modulo(start + n);
    let at8 = 32 * k;
    lemma_eights(h, data, at8);
    let m = (n - at8) as nat / 8;
    let h8 = over_eights(h, data, at8 as int, m);
    let at4 = at8 + 8 * m;
    assert(at4 == n - n % 8);
    if at4 + 4 <= n {
        lemma_number_at(data, at4, 4);
        let w = crate::math::bits_at(data, 8 * at4, 32);
        assert(is_number_at(w as int, data, at4 as int, 4));
        law_four_byte_step(h8, w as u64);
        lemma_ones(tail4(h8, w as u64), data, at4 + 4);
    } else {
        lemma_ones(h8, data, at4);
    }
}

/// A frame that has a checksum, and whose content has the declared size, is
/// accepted if and only if the four bytes after its last block are the low half
/// of the hash of its content under the seed 0; input goes on after them.
pub proof fn law_checksums_are_checked(h: FrameHeader, content: Seq<u8>, rest: Seq<u8>)
    requires
        h.has_checksum,
        h.content_size is None || h.content_size->0 == content.len(),
        rest.len() >= 4,
    ensures
        ({
            let given = four(rest, 0);
            let found = spec_xxh64(content, 0) as int % 0x1_0000_0000;
            &&& given == found ==> spec_frame_end(h, content, rest) == Ok::<Seq<u8>, Error>(
                rest.skip(4),
            )
            &&& given != found ==> spec_frame_end(h, content, rest) == Err::<Seq<u8>, Error>(
                Error::ChecksumMismatch { expected: given as u32, actual: found as u32 },
            )
        }),
{
    lemma_number_at(rest, 0, 4);
    assert(is_number_at(crate::math::bits_at(rest, 0, 32) as int, rest, 0, 4));
}

} // verus!
