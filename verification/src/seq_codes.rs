//! The codes of stored sequences: each length and offset as a code and extra
//! bits.

use crate::bits::{highbit32, highest_bit, lemma_highest_bit_bound};
use crate::bits_encode::{append_field, Bits};
use crate::block::{LL_BASE, LL_BITS, ML_BASE, ML_BITS};
use crate::block_encode_model::{extras_appended, ll_codes_of, ml_codes_of, of_codes_of};
use crate::seq_store::{full_triple, LongLengthType, SeqDef, SeqStore, Triple};
use vstd::arithmetic::div_mod::lemma_small_mod;
use vstd::arithmetic::power2::{lemma2_to64, lemma_pow2_strictly_increases, pow2};
use vstd::prelude::*;

verus! {

pub const MAX_LL: u32 = 35;

pub const MAX_ML: u32 = 52;

pub const MAX_OFF: u32 = 31;

/// Code `c` with its extra bits stands for the literals length `v`.
pub open spec fn is_ll_code(c: int, v: int) -> bool {
    &&& 0 <= c <= 35
    &&& LL_BASE[c] <= v < LL_BASE[c] + pow2(LL_BITS[c] as nat)
}

/// Code `c` with its extra bits stands for the match length `v`.
pub open spec fn is_ml_code(c: int, v: int) -> bool {
    &&& 0 <= c <= 52
    &&& ML_BASE[c] <= v < ML_BASE[c] + pow2(ML_BITS[c] as nat)
}

/// The codes above 24 start at powers of two, with as many extra bits.
proof fn lemma_ll_large(c: int)
    requires
        25 <= c <= 35,
    ensures
        LL_BITS[c] == c - 19,
        LL_BASE[c] == pow2((c - 19) as nat),
{
    lemma2_to64();
    if c == 25 {
        assert(LL_BITS[25] == 6 && LL_BASE[25] == 64);
    } else if c == 26 {
        assert(LL_BITS[26] == 7 && LL_BASE[26] == 128);
    } else if c == 27 {
        assert(LL_BITS[27] == 8 && LL_BASE[27] == 256);
    } else if c == 28 {
        assert(LL_BITS[28] == 9 && LL_BASE[28] == 512);
    } else if c == 29 {
        assert(LL_BITS[29] == 10 && LL_BASE[29] == 1024);
    } else if c == 30 {
        assert(LL_BITS[30] == 11 && LL_BASE[30] == 2048);
    } else if c == 31 {
        assert(LL_BITS[31] == 12 && LL_BASE[31] == 4096);
    } else if c == 32 {
        assert(LL_BITS[32] == 13 && LL_BASE[32] == 8192);
    } else if c == 33 {
        assert(LL_BITS[33] == 14 && LL_BASE[33] == 16384);
    } else if c == 34 {
        assert(LL_BITS[34] == 15 && LL_BASE[34] == 32768);
    } else {
        assert(LL_BITS[35] == 16 && LL_BASE[35] == 65536);
    }
}

proof fn lemma_ll_small(c: int)
    requires
        0 <= c <= 24,
    ensures
        c < 16 ==> LL_BITS[c] == 0 && LL_BASE[c] == c,
        16 <= c < 20 ==> LL_BITS[c] == 1 && LL_BASE[c] == 16 + 2 * (c - 16),
        20 <= c < 22 ==> LL_BITS[c] == 2 && LL_BASE[c] == 24 + 4 * (c - 20),
        22 <= c < 24 ==> LL_BITS[c] == 3 && LL_BASE[c] == 32 + 8 * (c - 22),
        c == 24 ==> LL_BITS[c] == 4 && LL_BASE[c] == 48,
{
    assert(LL_BITS[0] == 0 && LL_BASE[0] == 0 && LL_BITS[1] == 0 && LL_BASE[1] == 1);
    assert(LL_BITS[2] == 0 && LL_BASE[2] == 2 && LL_BITS[3] == 0 && LL_BASE[3] == 3);
    assert(LL_BITS[4] == 0 && LL_BASE[4] == 4 && LL_BITS[5] == 0 && LL_BASE[5] == 5);
    assert(LL_BITS[6] == 0 && LL_BASE[6] == 6 && LL_BITS[7] == 0 && LL_BASE[7] == 7);
    assert(LL_BITS[8] == 0 && LL_BASE[8] == 8 && LL_BITS[9] == 0 && LL_BASE[9] == 9);
    assert(LL_BITS[10] == 0 && LL_BASE[10] == 10 && LL_BITS[11] == 0 && LL_BASE[11] == 11);
    assert(LL_BITS[12] == 0 && LL_BASE[12] == 12 && LL_BITS[13] == 0 && LL_BASE[13] == 13);
    assert(LL_BITS[14] == 0 && LL_BASE[14] == 14 && LL_BITS[15] == 0 && LL_BASE[15] == 15);
    assert(LL_BITS[16] == 1 && LL_BASE[16] == 16 && LL_BITS[17] == 1 && LL_BASE[17] == 18);
    assert(LL_BITS[18] == 1 && LL_BASE[18] == 20 && LL_BITS[19] == 1 && LL_BASE[19] == 22);
    assert(LL_BITS[20] == 2 && LL_BASE[20] == 24 && LL_BITS[21] == 2 && LL_BASE[21] == 28);
    assert(LL_BITS[22] == 3 && LL_BASE[22] == 32 && LL_BITS[23] == 3 && LL_BASE[23] == 40);
    assert(LL_BITS[24] == 4 && LL_BASE[24] == 48);
}

/// The code of a literals length: itself, then in steps of two to sixteen, and
/// by powers of two from 64 on.
#[verifier::opaque]
pub open spec fn spec_ll_code(v: nat) -> nat {
    if v < 16 {
        v
    } else if v < 24 {
        16 + (v - 16) as nat / 2
    } else if v < 32 {
        20 + (v - 24) as nat / 4
    } else if v < 48 {
        22 + (v - 32) as nat / 8
    } else if v < 64 {
        24
    } else {
        highest_bit(v) + 19
    }
}

/// The code of a match length less 3: itself, then in steps of two to 32, and
/// by powers of two from 128 on.
#[verifier::opaque]
pub open spec fn spec_ml_code(v: nat) -> nat {
    if v < 32 {
        v
    } else if v < 40 {
        32 + (v - 32) as nat / 2
    } else if v < 48 {
        36 + (v - 40) as nat / 4
    } else if v < 64 {
        38 + (v - 48) as nat / 8
    } else if v < 96 {
        40 + (v - 64) as nat / 16
    } else if v < 128 {
        42
    } else {
        highest_bit(v) + 36
    }
}

/// The code of a literals length.
pub fn ll_code(lit_length: u32) -> (r: u8)
    requires
        lit_length < 131072,
    ensures
        r == spec_ll_code(lit_length as nat),
        is_ll_code(r as int, lit_length as int),
        r >= 25 <==> lit_length >= 64,
{
    proof {
        reveal(spec_ll_code);
        lemma2_to64();
    }
    if lit_length < 64 {
        let r: u32 = if lit_length < 16 {
            lit_length
        } else if lit_length < 24 {
            16 + (lit_length - 16) / 2
        } else if lit_length < 32 {
            20 + (lit_length - 24) / 4
        } else if lit_length < 48 {
            22 + (lit_length - 32) / 8
        } else {
            24
        };
        proof {
            lemma_ll_small(r as int);
        }
        r as u8
    } else {
        let h: u32 = highbit32(lit_length);
        proof {
            if h < 6 {
                lemma_pow2_strictly_increases(h as nat, 6);
            }
            if h > 16 {
                lemma_pow2_strictly_increases(16, h as nat);
                if h > 17 {
                    lemma_pow2_strictly_increases(17, h as nat);
                }
            }
            lemma_ll_large(h + 19);
        }
        (h + 19) as u8
    }
}

proof fn lemma_ml_large(c: int)
    requires
        43 <= c <= 52,
    ensures
        ML_BITS[c] == c - 36,
        ML_BASE[c] == 3 + pow2((c - 36) as nat),
{
    lemma2_to64();
    if c == 43 {
        assert(ML_BITS[43] == 7 && ML_BASE[43] == 131);
    } else if c == 44 {
        assert(ML_BITS[44] == 8 && ML_BASE[44] == 259);
    } else if c == 45 {
        assert(ML_BITS[45] == 9 && ML_BASE[45] == 515);
    } else if c == 46 {
        assert(ML_BITS[46] == 10 && ML_BASE[46] == 1027);
    } else if c == 47 {
        assert(ML_BITS[47] == 11 && ML_BASE[47] == 2051);
    } else if c == 48 {
        assert(ML_BITS[48] == 12 && ML_BASE[48] == 4099);
    } else if c == 49 {
        assert(ML_BITS[49] == 13 && ML_BASE[49] == 8195);
    } else if c == 50 {
        assert(ML_BITS[50] == 14 && ML_BASE[50] == 16387);
    } else if c == 51 {
        assert(ML_BITS[51] == 15 && ML_BASE[51] == 32771);
    } else {
        assert(ML_BITS[52] == 16 && ML_BASE[52] == 65539);
    }
}

proof fn lemma_ml_tiny(c: int)
    requires
        0 <= c < 32,
    ensures
        ML_BITS[c] == 0 && ML_BASE[c] == 3 + c,
{
    assert(ML_BITS[0] == 0 && ML_BASE[0] == 3 && ML_BITS[1] == 0 && ML_BASE[1] == 4);
    assert(ML_BITS[2] == 0 && ML_BASE[2] == 5 && ML_BITS[3] == 0 && ML_BASE[3] == 6);
    assert(ML_BITS[4] == 0 && ML_BASE[4] == 7 && ML_BITS[5] == 0 && ML_BASE[5] == 8);
    assert(ML_BITS[6] == 0 && ML_BASE[6] == 9 && ML_BITS[7] == 0 && ML_BASE[7] == 10);
    assert(ML_BITS[8] == 0 && ML_BASE[8] == 11 && ML_BITS[9] == 0 && ML_BASE[9] == 12);
    assert(ML_BITS[10] == 0 && ML_BASE[10] == 13 && ML_BITS[11] == 0 && ML_BASE[11] == 14);
    assert(ML_BITS[12] == 0 && ML_BASE[12] == 15 && ML_BITS[13] == 0 && ML_BASE[13] == 16);
    assert(ML_BITS[14] == 0 && ML_BASE[14] == 17 && ML_BITS[15] == 0 && ML_BASE[15] == 18);
    assert(ML_BITS[16] == 0 && ML_BASE[16] == 19 && ML_BITS[17] == 0 && ML_BASE[17] == 20);
    assert(ML_BITS[18] == 0 && ML_BASE[18] == 21 && ML_BITS[19] == 0 && ML_BASE[19] == 22);
    assert(ML_BITS[20] == 0 && ML_BASE[20] == 23 && ML_BITS[21] == 0 && ML_BASE[21] == 24);
    assert(ML_BITS[22] == 0 && ML_BASE[22] == 25 && ML_BITS[23] == 0 && ML_BASE[23] == 26);
    assert(ML_BITS[24] == 0 && ML_BASE[24] == 27 && ML_BITS[25] == 0 && ML_BASE[25] == 28);
    assert(ML_BITS[26] == 0 && ML_BASE[26] == 29 && ML_BITS[27] == 0 && ML_BASE[27] == 30);
    assert(ML_BITS[28] == 0 && ML_BASE[28] == 31 && ML_BITS[29] == 0 && ML_BASE[29] == 32);
    assert(ML_BITS[30] == 0 && ML_BASE[30] == 33 && ML_BITS[31] == 0 && ML_BASE[31] == 34);
}

proof fn lemma_ml_small(c: int)
    requires
        32 <= c <= 42,
    ensures
        32 <= c < 36 ==> ML_BITS[c] == 1 && ML_BASE[c] == 35 + 2 * (c - 32),
        36 <= c < 38 ==> ML_BITS[c] == 2 && ML_BASE[c] == 43 + 4 * (c - 36),
        38 <= c < 40 ==> ML_BITS[c] == 3 && ML_BASE[c] == 51 + 8 * (c - 38),
        40 <= c < 42 ==> ML_BITS[c] == 4 && ML_BASE[c] == 67 + 16 * (c - 40),
        c == 42 ==> ML_BITS[c] == 5 && ML_BASE[c] == 99,
{
    assert(ML_BITS[32] == 1 && ML_BASE[32] == 35 && ML_BITS[33] == 1 && ML_BASE[33] == 37);
    assert(ML_BITS[34] == 1 && ML_BASE[34] == 39 && ML_BITS[35] == 1 && ML_BASE[35] == 41);
    assert(ML_BITS[36] == 2 && ML_BASE[36] == 43 && ML_BITS[37] == 2 && ML_BASE[37] == 47);
    assert(ML_BITS[38] == 3 && ML_BASE[38] == 51 && ML_BITS[39] == 3 && ML_BASE[39] == 59);
    assert(ML_BITS[40] == 4 && ML_BASE[40] == 67 && ML_BITS[41] == 4 && ML_BASE[41] == 83);
    assert(ML_BITS[42] == 5 && ML_BASE[42] == 99);
}

/// The code of a match length less 3.
pub fn ml_code(ml_base: u32) -> (r: u8)
    requires
        ml_base < 131072,
    ensures
        r == spec_ml_code(ml_base as nat),
        is_ml_code(r as int, ml_base + 3),
        r >= 43 <==> ml_base >= 128,
{
    proof {
        reveal(spec_ml_code);
        lemma2_to64();
    }
    if ml_base < 32 {
        proof {
            lemma_ml_tiny(ml_base as int);
        }
        ml_base as u8
    } else if ml_base < 128 {
        let r: u32 = if ml_base < 40 {
            32 + (ml_base - 32) / 2
        } else if ml_base < 48 {
            36 + (ml_base - 40) / 4
        } else if ml_base < 64 {
            38 + (ml_base - 48) / 8
        } else if ml_base < 96 {
            40 + (ml_base - 64) / 16
        } else {
            42
        };
        proof {
            lemma_ml_small(r as int);
        }
        r as u8
    } else {
        let h: u32 = highbit32(ml_base);
        proof {
            if h < 7 {
                lemma_pow2_strictly_increases(h as nat, 7);
            }
            if h > 16 {
                lemma_pow2_strictly_increases(16, h as nat);
                if h > 17 {
                    lemma_pow2_strictly_increases(17, h as nat);
                }
            }
            lemma_ml_large(h + 36);
        }
        (h + 36) as u8
    }
}

/// The codes and the stored fields give the sequence back: each value is its
/// code's base plus the low bits of the stored field.
pub open spec fn codes_hold(t: Triple, d: SeqDef, lc: int, oc: int, mc: int) -> bool {
    &&& 0 <= lc <= 35
    &&& 0 <= oc <= 31
    &&& 0 <= mc <= 52
    &&& t.of_value == d.off_base
    &&& pow2(oc as nat) <= d.off_base < 2 * pow2(oc as nat)
    &&& t.lit_len == LL_BASE[lc] + d.lit_length as nat % pow2(LL_BITS[lc] as nat)
    &&& t.match_len == ML_BASE[mc] + d.ml_base as nat % pow2(ML_BITS[mc] as nat)
    &&& t.match_len >= 3
    &&& t.lit_len % pow2(LL_BITS[lc] as nat) == d.lit_length as nat % pow2(LL_BITS[lc] as nat)
    &&& ((t.match_len - 3) as nat) % pow2(ML_BITS[mc] as nat) == d.ml_base as nat % pow2(
        ML_BITS[mc] as nat,
    )
    &&& lc == spec_ll_code(t.lit_len)
    &&& oc == highest_bit(t.of_value)
    &&& mc == spec_ml_code((t.match_len - 3) as nat)
}

/// The extra bits of the stored fields are those of the sequence.
pub proof fn lemma_extras(b: Bits, t: Triple, d: SeqDef, lc: int, oc: int, mc: int)
    requires
        codes_hold(t, d, lc, oc, mc),
    ensures
        extras_appended(b, t) == append_field(
            append_field(
                append_field(b, d.lit_length as nat, LL_BITS[lc] as nat),
                d.ml_base as nat,
                ML_BITS[mc] as nat,
            ),
            d.off_base as nat,
            oc as nat,
        ),
{
    reveal(extras_appended);
}

/// A length of 65536 or more takes the last code.
proof fn lemma_long_codes(v: nat)
    requires
        65536 <= v < 131072,
    ensures
        spec_ll_code(v) == 35,
        spec_ml_code(v) == 52,
{
    reveal(spec_ll_code);
    reveal(spec_ml_code);
    lemma2_to64();
    lemma_highest_bit_bound(v, 17);
    let h = highest_bit(v);
    if h < 16 {
        lemma_pow2_strictly_increases(h, 16);
        vstd::arithmetic::power2::lemma_pow2_unfold(h + 1);
        if h + 1 < 16 {
            lemma_pow2_strictly_increases(h + 1, 16);
        }
    }
}

/// A length is its code's base plus its low bits.
proof fn lemma_ll_low_bits(c: int, v: nat)
    requires
        is_ll_code(c, v as int),
        v < 65536,
    ensures
        v == LL_BASE[c] + v % pow2(LL_BITS[c] as nat),
{
    lemma2_to64();
    if c >= 25 {
        lemma_ll_large(c);
        let p = pow2((c - 19) as nat);
        vstd::arithmetic::div_mod::lemma_fundamental_div_mod_converse(
            v as int,
            p as int,
            1,
            v - p,
        );
    } else {
        lemma_ll_small(c);
        if c < 16 {
            assert(v % 1 == 0);
        } else if c < 20 {
            assert(v % 2 == v - LL_BASE[c]);
        } else if c < 22 {
            assert(v % 4 == v - LL_BASE[c]);
        } else if c < 24 {
            assert(v % 8 == v - LL_BASE[c]);
        } else {
            assert(v % 16 == v - LL_BASE[c]);
        }
    }
}

proof fn lemma_ml_low_bits(c: int, v: nat)
    requires
        is_ml_code(c, (v + 3) as int),
        v < 65536,
    ensures
        v + 3 == ML_BASE[c] + v % pow2(ML_BITS[c] as nat),
{
    lemma2_to64();
    if c >= 43 {
        lemma_ml_large(c);
        let p = pow2((c - 36) as nat);
        vstd::arithmetic::div_mod::lemma_fundamental_div_mod_converse(
            v as int,
            p as int,
            1,
            v - p,
        );
    } else if c < 32 {
        lemma_ml_tiny(c);
        assert(v % 1 == 0);
    } else {
        lemma_ml_small(c);
        if c < 36 {
            assert(v % 2 == v + 3 - ML_BASE[c]);
        } else if c < 38 {
            assert(v % 4 == v + 3 - ML_BASE[c]);
        } else if c < 40 {
            assert(v % 8 == v + 3 - ML_BASE[c]);
        } else if c < 42 {
            assert(v % 16 == v + 3 - ML_BASE[c]);
        } else {
            assert(v % 32 == v + 3 - ML_BASE[c]);
        }
    }
}

/// The codes of all sequences of `store`.
pub open spec fn all_codes_hold(store: &SeqStore, ll: Seq<u8>, of: Seq<u8>, ml: Seq<u8>) -> bool {
    let n = store.sequences@.len();
    &&& ll.len() == n
    &&& of.len() == n
    &&& ml.len() == n
    &&& forall|i: int|
        0 <= i < n ==> codes_hold(
            #[trigger] store.triples()[i],
            store.sequences@[i],
            ll[i] as int,
            of[i] as int,
            ml[i] as int,
        )
}

/// The literals-length, offset and match-length codes of the stored
/// sequences.
#[verifier::rlimit(30)]
pub fn seq_to_codes(store: &SeqStore) -> (r: (Vec<u8>, Vec<u8>, Vec<u8>))
    requires
        store.wf(),
    ensures
        all_codes_hold(store, r.0@, r.1@, r.2@),
        r.0@ == ll_codes_of(store.triples()),
        r.1@ == of_codes_of(store.triples()),
        r.2@ == ml_codes_of(store.triples()),
{
    let n: usize = store.sequences.len();
    let mut ll: Vec<u8> = Vec::new();
    let mut of: Vec<u8> = Vec::new();
    let mut ml: Vec<u8> = Vec::new();
    let mut i: usize = 0;
    while i < n
        invariant
            i <= n,
            n == store.sequences@.len(),
            store.wf(),
            ll@.len() == i,
            of@.len() == i,
            ml@.len() == i,
            forall|k: int|
                0 <= k < i ==> codes_hold(
                    #[trigger] store.triples()[k],
                    store.sequences@[k],
                    ll@[k] as int,
                    of@[k] as int,
                    ml@[k] as int,
                ),
        decreases n - i,
    {
        let d: SeqDef = store.sequences[i];
        let long_lit: bool = store.long_length_type == LongLengthType::LiteralLength
            && store.long_length_pos as usize == i;
        let long_match: bool = store.long_length_type == LongLengthType::MatchLength
            && store.long_length_pos as usize == i;
        assert(store.sequences@[i as int].off_base >= 1);
        let lc: u8 = if long_lit {
            MAX_LL as u8
        } else {
            ll_code(d.lit_length as u32)
        };
        let oc: u32 = highbit32(d.off_base);
        let mc: u8 = if long_match {
            MAX_ML as u8
        } else {
            ml_code(d.ml_base as u32)
        };
        proof {
            lemma2_to64();
            if long_lit {
                lemma_ll_large(35);
                lemma_long_codes(d.lit_length as nat + 65536);
                lemma_small_mod(d.lit_length as nat, 65536);
            } else {
                lemma_ll_low_bits(lc as int, d.lit_length as nat);
            }
            if long_match {
                lemma_ml_large(52);
                lemma_long_codes(d.ml_base as nat + 65536);
                lemma_small_mod(d.ml_base as nat, 65536);
            } else {
                lemma_ml_low_bits(mc as int, d.ml_base as nat);
            }
            if oc > 31 {
                if oc > 32 {
                    lemma_pow2_strictly_increases(32, oc as nat);
                }
            }
            assert(store.triples()[i as int] == full_triple(d, long_lit, long_match));
        }
        ll.push(lc);
        of.push(oc as u8);
        ml.push(mc);
        i = i + 1;
    }
    proof {
        let q = store.triples();
        assert forall|k: int| 0 <= k < n implies ll@[k] == #[trigger] ll_codes_of(q)[k] && of@[k]
            == of_codes_of(q)[k] && ml@[k] == ml_codes_of(q)[k] by {
            assert(codes_hold(
                q[k],
                store.sequences@[k],
                ll@[k] as int,
                of@[k] as int,
                ml@[k] as int,
            ));
        }
        assert(ll@ =~= ll_codes_of(q));
        assert forall|k: int| 0 <= k < n implies of@[k] == #[trigger] of_codes_of(q)[k] && ml@[k]
            == ml_codes_of(q)[k] by {
            assert(ll_codes_of(q)[k] == ll@[k]);
        }
        assert(of@ =~= of_codes_of(q));
        assert(ml@ =~= ml_codes_of(q));
    }
    (ll, of, ml)
}

} // verus!
