//! Bitstream readers.
//!
//! The format uses two kinds of bitstreams: a forward little-endian one for
//! entropy-table descriptions, consumed least-significant bit first, and a
//! backward one for entropy-coded payloads, whose last byte carries a final
//! `1` bit marking the end and which is consumed from just below that bit
//! towards the start of the buffer.

use crate::error::Error;
use crate::math::{bits_at, lemma_bits_at_bound, lemma_bits_at_sub, load8, low_bits, pow2_u64, shr};
use vstd::arithmetic::power2::{lemma2_to64, lemma_pow2_pos, lemma_pow2_strictly_increases, pow2};
use vstd::prelude::*;

verus! {

/// Forward little-endian bit reader.
///
/// Reads past the end of the buffer yield zero bits; callers compare
/// [`bits_consumed`](ForwardBitReader::bits_consumed) with the real length.
pub struct ForwardBitReader<'a> {
    pub data: &'a [u8],
    pub bit_pos: usize,
}

impl<'a> ForwardBitReader<'a> {
    pub fn new(data: &'a [u8]) -> (r: Self)
        ensures
            r.data@ == data@,
            r.bit_pos == 0,
    {
        ForwardBitReader { data, bit_pos: 0 }
    }

    /// The next `n` bits, without consuming them.
    pub fn peek(&self, n: u32) -> (r: u32)
        requires
            n <= 32,
        ensures
            r == bits_at(self.data@, self.bit_pos as nat, n as nat),
    {
        let byte: usize = self.bit_pos / 8;
        let shift: u32 = (self.bit_pos % 8) as u32;
        let word: u64 = load8(self.data, byte);
        let v: u64 = low_bits(shr(word, shift), n);
        proof {
            lemma_bits_at_sub(self.data@, 8 * byte as nat, 64, shift as nat, n as nat);
            lemma_bits_at_bound(self.data@, self.bit_pos as nat, n as nat);
            if n < 32 {
                lemma_pow2_strictly_increases(n as nat, 32);
            }
            lemma2_to64();
        }
        v as u32
    }

    pub fn consume(&mut self, n: u32)
        requires
            old(self).bit_pos + n <= usize::MAX,
        ensures
            final(self).data@ == old(self).data@,
            final(self).bit_pos == old(self).bit_pos + n,
    {
        self.bit_pos = self.bit_pos + n as usize;
    }

    /// Takes the next `n` bits.
    pub fn read(&mut self, n: u32) -> (r: u32)
        requires
            n <= 32,
            old(self).bit_pos + n <= usize::MAX,
        ensures
            r == bits_at(old(self).data@, old(self).bit_pos as nat, n as nat),
            final(self).data@ == old(self).data@,
            final(self).bit_pos == old(self).bit_pos + n,
    {
        let v: u32 = self.peek(n);
        self.consume(n);
        v
    }

    pub fn bits_consumed(&self) -> (r: usize)
        ensures
            r == self.bit_pos,
    {
        self.bit_pos
    }
}

/// The number of payload bits of a backward stream: all bits below the
/// highest set bit of its last byte.
pub open spec fn payload_bits(data: Seq<u8>) -> int {
    data.len() * 8 - 8 + highest_bit(data.last() as nat)
}

/// The position of the highest set bit of a positive number.
pub open spec fn highest_bit(x: nat) -> nat
    decreases x,
{
    if x <= 1 {
        0
    } else {
        1 + highest_bit(x / 2)
    }
}

/// The value of the next `n` bits of a backward stream with `remaining` bits
/// left: the top `n` of the remaining bits. Where fewer are left, they form
/// the high bits of the value and the missing low bits read as zero.
pub open spec fn rev_peek(data: Seq<u8>, remaining: int, n: nat) -> nat {
    if remaining <= 0 {
        0
    } else if remaining < n {
        bits_at(data, 0, remaining as nat) * pow2((n - remaining) as nat)
    } else {
        bits_at(data, (remaining - n) as nat, n)
    }
}

/// The error that opening `data` as a backward stream gives, if any.
pub open spec fn rev_open_error(data: Seq<u8>) -> Option<Error> {
    if data.len() == 0 {
        Some(Error::Corrupted("empty bitstream"))
    } else if data.last() == 0 {
        Some(Error::Corrupted("bitstream has no initialization bit"))
    } else {
        None
    }
}

/// Backward bit reader.
///
/// `bits_remaining` may go negative: more bits were taken than the stream
/// holds. The eight bytes at `cache_byte` are kept in `cache` so that most
/// peeks touch no memory.
pub struct ReverseBitReader<'a> {
    pub data: &'a [u8],
    pub bits_remaining: i64,
    pub cache: u64,
    pub cache_byte: usize,
    pub has_cache: bool,
}

impl<'a> ReverseBitReader<'a> {
    /// The cached word is what the buffer holds, and the position lies within
    /// the buffer.
    pub open spec fn wf(&self) -> bool {
        &&& self.bits_remaining <= self.data@.len() * 8
        &&& self.data@.len() * 8 + 64 <= i64::MAX
        &&& self.has_cache ==> self.cache == bits_at(self.data@, 8 * self.cache_byte as nat, 64)
        &&& self.has_cache ==> 8 * self.cache_byte + 64 <= i64::MAX
    }

    pub fn new(data: &'a [u8]) -> (r: Result<Self, Error>)
        requires
            data@.len() * 8 + 64 <= i64::MAX,
        ensures
            match r {
                Ok(br) => {
                    &&& rev_open_error(data@) is None
                    &&& br.wf()
                    &&& br.data@ == data@
                    &&& br.bits_remaining == payload_bits(data@)
                },
                Err(e) => rev_open_error(data@) == Some(e),
            },
    {
        if data.len() == 0 {
            return Err(Error::Corrupted("empty bitstream"));
        }
        let last: u8 = data[data.len() - 1];
        if last == 0 {
            return Err(Error::Corrupted("bitstream has no initialization bit"));
        }
        let top: u32 = highbit32(last as u32);
        proof {
            lemma2_to64();
            lemma_highest_bit_bound(last as nat, 8);
        }
        Ok(
            ReverseBitReader {
                data,
                bits_remaining: (data.len() as i64 - 1) * 8 + top as i64,
                cache: 0,
                cache_byte: 0,
                has_cache: false,
            },
        )
    }

    pub fn bits_remaining(&self) -> (r: i64)
        ensures
            r == self.bits_remaining,
    {
        self.bits_remaining
    }

    /// Whether every payload bit has been consumed, exactly.
    pub fn finished_exactly(&self) -> (r: bool)
        ensures
            r == (self.bits_remaining == 0),
    {
        self.bits_remaining == 0
    }

    /// The next `n` bits, without consuming them.
    pub fn peek(&mut self, n: u32) -> (r: u64)
        requires
            n <= 56,
            old(self).wf(),
        ensures
            r == rev_peek(old(self).data@, old(self).bits_remaining as int, n as nat),
            final(self).wf(),
            final(self).data@ == old(self).data@,
            final(self).bits_remaining == old(self).bits_remaining,
            r < pow2(n as nat),
    {
        proof {
            lemma_rev_peek_bound(self.data@, self.bits_remaining as int, n as nat);
        }
        if n == 0 || self.bits_remaining <= 0 {
            proof {
                lemma2_to64();
            }
            return 0;
        }
        if self.bits_remaining < n as i64 {
            let avail: u32 = self.bits_remaining as u32;
            let v: u64 = self.extract(0, avail);
            let m: u64 = pow2_u64(n - avail);
            proof {
                if n < 64 {
                    lemma_pow2_strictly_increases(n as nat, 64);
                }
                vstd::arithmetic::power2::lemma2_to64_rest();
            }
            return v * m;
        }
        let hi: u64 = self.bits_remaining as u64;
        let lo: u64 = hi - n as u64;
        if !self.has_cache || lo < 8 * self.cache_byte as u64 || hi > 8 * self.cache_byte as u64 + 64 {
            self.reload_cache(hi);
        }
        let shift: u32 = (lo - 8 * self.cache_byte as u64) as u32;
        proof {
            lemma_bits_at_sub(
                self.data@,
                8 * self.cache_byte as nat,
                64,
                shift as nat,
                n as nat,
            );
        }
        low_bits(shr(self.cache, shift), n)
    }

    pub fn consume(&mut self, n: u32)
        requires
            old(self).bits_remaining - n >= i64::MIN,
            old(self).wf(),
        ensures
            final(self).wf(),
            final(self).data@ == old(self).data@,
            final(self).bits_remaining == old(self).bits_remaining - n,
    {
        self.bits_remaining = self.bits_remaining - n as i64;
    }

    /// Takes the next `n` bits.
    pub fn read(&mut self, n: u32) -> (r: u64)
        requires
            n <= 56,
            old(self).bits_remaining - n >= i64::MIN,
            old(self).wf(),
        ensures
            r == rev_peek(old(self).data@, old(self).bits_remaining as int, n as nat),
            final(self).wf(),
            final(self).data@ == old(self).data@,
            final(self).bits_remaining == old(self).bits_remaining - n,
            r < pow2(n as nat),
    {
        let v: u64 = self.peek(n);
        self.consume(n);
        v
    }

    /// Moves the cached word so that it covers bit `hi - 1` and as many lower
    /// bits as possible.
    fn reload_cache(&mut self, hi: u64)
        requires
            old(self).wf(),
            hi <= old(self).data@.len() * 8,
        ensures
            final(self).wf(),
            final(self).has_cache,
            final(self).data@ == old(self).data@,
            final(self).bits_remaining == old(self).bits_remaining,
            8 * final(self).cache_byte + 64 >= hi,
            hi >= 64 ==> 8 * final(self).cache_byte < hi - 64 + 8,
            hi < 64 ==> final(self).cache_byte == 0,
    {
        let len: usize = self.data.len();
        assert(hi >= 64 ==> (hi - 64 + 7) / 8 <= len);
        let byte: usize = if hi >= 64 {
            ((hi - 64 + 7) / 8) as usize
        } else {
            0
        };
        self.cache = load8(self.data, byte);
        self.cache_byte = byte;
        self.has_cache = true;
    }

    /// Bits `from_bit .. from_bit + n` of the buffer.
    fn extract(&self, from_bit: usize, n: u32) -> (r: u64)
        requires
            n <= 56,
        ensures
            r == bits_at(self.data@, from_bit as nat, n as nat),
    {
        let byte: usize = from_bit / 8;
        let shift: u32 = (from_bit % 8) as u32;
        proof {
            lemma_bits_at_sub(self.data@, 8 * byte as nat, 64, shift as nat, n as nat);
        }
        low_bits(shr(load8(self.data, byte), shift), n)
    }
}

pub proof fn lemma_rev_peek_bound(data: Seq<u8>, remaining: int, n: nat)
    ensures
        rev_peek(data, remaining, n) < pow2(n),
{
    lemma_pow2_pos(n);
    if remaining <= 0 {
    } else if remaining < n {
        lemma_bits_at_bound(data, 0, remaining as nat);
        let a = bits_at(data, 0, remaining as nat);
        let d = pow2((n - remaining) as nat);
        vstd::arithmetic::power2::lemma_pow2_adds(remaining as nat, (n - remaining) as nat);
        lemma_pow2_pos((n - remaining) as nat);
        assert(a * d < pow2(remaining as nat) * d) by (nonlinear_arith)
            requires
                a < pow2(remaining as nat),
                d > 0,
        ;
    } else {
        lemma_bits_at_bound(data, (remaining - n) as nat, n);
    }
}

pub proof fn lemma_highest_bit_bound(x: nat, n: nat)
    requires
        0 < x < pow2(n),
    ensures
        highest_bit(x) < n,
        pow2(highest_bit(x)) <= x < 2 * pow2(highest_bit(x)),
    decreases x,
{
    lemma2_to64();
    if x <= 1 {
        if n == 0 {
            assert(false);
        }
    } else {
        if n > 0 {
            vstd::arithmetic::power2::lemma_pow2_unfold(n);
        }
        lemma_highest_bit_bound(x / 2, (n - 1) as nat);
        vstd::arithmetic::power2::lemma_pow2_unfold(highest_bit(x));
    }
}

/// The position of the highest set bit.
pub fn highbit32(x: u32) -> (r: u32)
    requires
        x >= 1,
    ensures
        r == highest_bit(x as nat),
        r <= 31,
        pow2(r as nat) <= x < 2 * pow2(r as nat),
{
    proof {
        vstd::std_specs::bits::axiom_u32_leading_zeros(x);
        lemma_leading_zeros(x);
        vstd::arithmetic::power2::lemma2_to64();
        lemma_highest_bit_bound(x as nat, 32);
    }
    31 - x.leading_zeros()
}

proof fn lemma_leading_zeros(x: u32)
    requires
        x >= 1,
    ensures
        vstd::std_specs::bits::u32_leading_zeros(x) == 31 - highest_bit(x as nat),
{
    vstd::std_specs::bits::axiom_u32_leading_zeros(x);
    let z = vstd::std_specs::bits::u32_leading_zeros(x);
    let h = (31 - z) as u32;
    let g = (32 - z) as u32;
    assert(x >> h == 1u32) by (bit_vector)
        requires
            h <= 31,
            g == h + 1,
            (x >> h) & 1u32 != 0u32,
            x >> g == 0,
    ;
    vstd::bits::lemma_u32_shr_is_div(x, h);
    lemma2_to64();
    lemma_highest_bit_bound(x as nat, 32);
    let p = pow2(h as nat);
    lemma_pow2_pos(h as nat);
    vstd::arithmetic::div_mod::lemma_fundamental_div_mod(x as int, p as int);
    vstd::arithmetic::div_mod::lemma_mod_bound(x as int, p as int);
    assert(p <= x < 2 * p);
    let k = highest_bit(x as nat);
    if k < h {
        lemma_pow2_strictly_increases(k, h as nat);
        vstd::arithmetic::power2::lemma_pow2_unfold(h as nat);
        if k < h - 1 {
            lemma_pow2_strictly_increases(k, (h - 1) as nat);
        }
    } else if h < k {
        vstd::arithmetic::power2::lemma_pow2_unfold(k);
        if h < k - 1 {
            lemma_pow2_strictly_increases(h as nat, (k - 1) as nat);
        }
    }
}

} // verus!
