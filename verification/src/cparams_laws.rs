//! What the levels stand for: which parameters each gives, how they change from
//! level to level, and how they are fitted to the sizes of source and dictionary.

use crate::bits::{highest_bit, lemma_highest_bit_bound};
use crate::cparams::{
    size_log, spec_adjust, spec_cparams, spec_dict_and_window_log, CParamMode, CParams, Strategy, MIN_MATCHES,
    SEARCH_LOGS, STRATEGIES, TARGET_LENGTHS,
};
use vstd::arithmetic::power2::{lemma2_to64, lemma_pow2_strictly_increases, pow2};
use vstd::prelude::*;

verus! {

/// The parameters are these seven: window, chain, hash and search logs, minimum
/// match, target length and strategy.
pub open spec fn are(p: CParams, w: u32, c: u32, h: u32, s: u32, l: u32, t: u32, strategy: Strategy) -> bool {
    &&& p.window_log == w
    &&& p.chain_log == c
    &&& p.hash_log == h
    &&& p.search_log == s
    &&& p.min_match == l
    &&& p.target_length == t
    &&& p.strategy == strategy
}

/// A source that fills the largest window, above 128 MiB, has the parameters of
/// its level as they are.
#[verifier::spinoff_prover]
#[verifier::rlimit(60)]
pub proof fn law_levels_of_large_sources(src: nat, level: int)
    requires
        0x800_0000 < src < 0xFFFF_FFFF_FFFF_FFFF,
    ensures
        ({
            let p = |k: int| spec_cparams(k, src, 0, CParamMode::NoAttachDict);
            &&& are(p(1), 19, 13, 14, 1, 7, 0, Strategy::Fast)
            &&& are(p(2), 20, 15, 16, 1, 6, 0, Strategy::Fast)
            &&& are(p(3), 21, 16, 17, 1, 5, 0, Strategy::Dfast)
            &&& are(p(4), 21, 18, 18, 1, 5, 0, Strategy::Dfast)
            &&& are(p(5), 21, 18, 19, 3, 5, 2, Strategy::Greedy)
            &&& are(p(6), 21, 18, 19, 3, 5, 4, Strategy::Lazy)
            &&& are(p(7), 21, 19, 20, 4, 5, 8, Strategy::Lazy)
            &&& are(p(8), 21, 19, 20, 4, 5, 16, Strategy::Lazy2)
            &&& are(p(9), 22, 20, 21, 4, 5, 16, Strategy::Lazy2)
            &&& are(p(10), 22, 21, 22, 5, 5, 16, Strategy::Lazy2)
            &&& are(p(11), 22, 21, 22, 6, 5, 16, Strategy::Lazy2)
            &&& are(p(12), 22, 22, 23, 6, 5, 32, Strategy::Lazy2)
            &&& are(p(13), 22, 22, 22, 4, 5, 32, Strategy::Btlazy2)
            &&& are(p(14), 22, 22, 23, 5, 5, 32, Strategy::Btlazy2)
            &&& are(p(15), 22, 23, 23, 6, 5, 32, Strategy::Btlazy2)
            &&& are(p(16), 22, 22, 22, 5, 5, 48, Strategy::Btopt)
            &&& are(p(17), 23, 23, 22, 5, 4, 64, Strategy::Btopt)
            &&& are(p(18), 23, 23, 22, 6, 3, 64, Strategy::Btultra)
            &&& are(p(19), 23, 24, 22, 7, 3, 256, Strategy::Btultra2)
            &&& are(p(20), 25, 25, 23, 7, 3, 256, Strategy::Btultra2)
            &&& are(p(21), 26, 26, 24, 7, 3, 512, Strategy::Btultra2)
            &&& are(p(22), 27, 27, 25, 9, 3, 999, Strategy::Btultra2)
            &&& level < 0 ==> are(p(level), 19, 12, 13, 1, 6, if level < -131072 {
                131072
            } else {
                (-level) as u32
            }, Strategy::Fast)
        }),
{
    lemma_sizes(src);
}

/// So has a source above 128 KiB, up to 256 KiB.
#[verifier::spinoff_prover]
#[verifier::rlimit(60)]
pub proof fn law_levels_of_medium_sources(src: nat, level: int)
    requires
        131072 < src <= 262144,
    ensures
        ({
            let p = |k: int| spec_cparams(k, src, 0, CParamMode::NoAttachDict);
            &&& are(p(1), 18, 13, 14, 1, 6, 0, Strategy::Fast)
            &&& are(p(2), 18, 14, 14, 1, 5, 0, Strategy::Dfast)
            &&& are(p(3), 18, 16, 16, 1, 4, 0, Strategy::Dfast)
            &&& are(p(4), 18, 16, 17, 3, 5, 2, Strategy::Greedy)
            &&& are(p(5), 18, 17, 18, 5, 5, 2, Strategy::Greedy)
            &&& are(p(6), 18, 18, 19, 3, 5, 4, Strategy::Lazy)
            &&& are(p(7), 18, 18, 19, 4, 4, 4, Strategy::Lazy)
            &&& are(p(8), 18, 18, 19, 4, 4, 8, Strategy::Lazy2)
            &&& are(p(9), 18, 18, 19, 5, 4, 8, Strategy::Lazy2)
            &&& are(p(10), 18, 18, 19, 6, 4, 8, Strategy::Lazy2)
            &&& are(p(11), 18, 18, 19, 5, 4, 12, Strategy::Btlazy2)
            &&& are(p(12), 18, 19, 19, 7, 4, 12, Strategy::Btlazy2)
            &&& are(p(13), 18, 18, 19, 4, 4, 16, Strategy::Btopt)
            &&& are(p(14), 18, 18, 19, 4, 3, 32, Strategy::Btopt)
            &&& are(p(15), 18, 18, 19, 6, 3, 128, Strategy::Btopt)
            &&& are(p(16), 18, 19, 19, 6, 3, 128, Strategy::Btultra)
            &&& are(p(17), 18, 19, 19, 8, 3, 256, Strategy::Btultra)
            &&& are(p(18), 18, 19, 19, 6, 3, 128, Strategy::Btultra2)
            &&& are(p(19), 18, 19, 19, 8, 3, 256, Strategy::Btultra2)
            &&& are(p(20), 18, 19, 19, 10, 3, 512, Strategy::Btultra2)
            &&& are(p(21), 18, 19, 19, 12, 3, 512, Strategy::Btultra2)
            &&& are(p(22), 18, 19, 19, 13, 3, 999, Strategy::Btultra2)
            &&& level < 0 ==> are(p(level), 18, 12, 13, 1, 5, if level < -131072 {
                131072
            } else {
                (-level) as u32
            }, Strategy::Fast)
        }),
{
    lemma_sizes(src);
}

/// So has a source above 64 KiB, up to 128 KiB.
#[verifier::spinoff_prover]
#[verifier::rlimit(60)]
pub proof fn law_levels_of_small_sources(src: nat, level: int)
    requires
        65536 < src <= 131072,
    ensures
        ({
            let p = |k: int| spec_cparams(k, src, 0, CParamMode::NoAttachDict);
            &&& are(p(1), 17, 12, 13, 1, 6, 0, Strategy::Fast)
            &&& are(p(2), 17, 13, 15, 1, 5, 0, Strategy::Fast)
            &&& are(p(3), 17, 15, 16, 2, 5, 0, Strategy::Dfast)
            &&& are(p(4), 17, 17, 17, 2, 4, 0, Strategy::Dfast)
            &&& are(p(5), 17, 16, 17, 3, 4, 2, Strategy::Greedy)
            &&& are(p(6), 17, 16, 17, 3, 4, 4, Strategy::Lazy)
            &&& are(p(7), 17, 16, 17, 3, 4, 8, Strategy::Lazy2)
            &&& are(p(8), 17, 16, 17, 4, 4, 8, Strategy::Lazy2)
            &&& are(p(9), 17, 16, 17, 5, 4, 8, Strategy::Lazy2)
            &&& are(p(10), 17, 16, 17, 6, 4, 8, Strategy::Lazy2)
            &&& are(p(11), 17, 17, 17, 5, 4, 8, Strategy::Btlazy2)
            &&& are(p(12), 17, 18, 17, 7, 4, 12, Strategy::Btlazy2)
            &&& are(p(13), 17, 18, 17, 3, 4, 12, Strategy::Btopt)
            &&& are(p(14), 17, 18, 17, 4, 3, 32, Strategy::Btopt)
            &&& are(p(15), 17, 18, 17, 6, 3, 256, Strategy::Btopt)
            &&& are(p(16), 17, 18, 17, 6, 3, 128, Strategy::Btultra)
            &&& are(p(17), 17, 18, 17, 8, 3, 256, Strategy::Btultra)
            &&& are(p(18), 17, 18, 17, 10, 3, 512, Strategy::Btultra)
            &&& are(p(19), 17, 18, 17, 5, 3, 256, Strategy::Btultra2)
            &&& are(p(20), 17, 18, 17, 7, 3, 512, Strategy::Btultra2)
            &&& are(p(21), 17, 18, 17, 9, 3, 512, Strategy::Btultra2)
            &&& are(p(22), 17, 18, 17, 11, 3, 999, Strategy::Btultra2)
            &&& level < 0 ==> are(p(level), 17, 12, 12, 1, 5, if level < -131072 {
                131072
            } else {
                (-level) as u32
            }, Strategy::Fast)
        }),
{
    lemma_sizes(src);
}

/// So has a source above 8 KiB, up to 16 KiB.
#[verifier::spinoff_prover]
#[verifier::rlimit(60)]
pub proof fn law_levels_of_tiny_sources(src: nat, level: int)
    requires
        8192 < src <= 16384,
    ensures
        ({
            let p = |k: int| spec_cparams(k, src, 0, CParamMode::NoAttachDict);
            &&& are(p(1), 14, 14, 15, 1, 5, 0, Strategy::Fast)
            &&& are(p(2), 14, 14, 15, 1, 4, 0, Strategy::Fast)
            &&& are(p(3), 14, 14, 15, 2, 4, 0, Strategy::Dfast)
            &&& are(p(4), 14, 14, 14, 4, 4, 2, Strategy::Greedy)
            &&& are(p(5), 14, 14, 14, 3, 4, 4, Strategy::Lazy)
            &&& are(p(6), 14, 14, 14, 4, 4, 8, Strategy::Lazy2)
            &&& are(p(7), 14, 14, 14, 6, 4, 8, Strategy::Lazy2)
            &&& are(p(8), 14, 14, 14, 8, 4, 8, Strategy::Lazy2)
            &&& are(p(9), 14, 15, 14, 5, 4, 8, Strategy::Btlazy2)
            &&& are(p(10), 14, 15, 14, 9, 4, 8, Strategy::Btlazy2)
            &&& are(p(11), 14, 15, 14, 3, 4, 12, Strategy::Btopt)
            &&& are(p(12), 14, 15, 14, 4, 3, 24, Strategy::Btopt)
            &&& are(p(13), 14, 15, 14, 5, 3, 32, Strategy::Btultra)
            &&& are(p(14), 14, 15, 15, 6, 3, 64, Strategy::Btultra)
            &&& are(p(15), 14, 15, 15, 7, 3, 256, Strategy::Btultra)
            &&& are(p(16), 14, 15, 15, 5, 3, 48, Strategy::Btultra2)
            &&& are(p(17), 14, 15, 15, 6, 3, 128, Strategy::Btultra2)
            &&& are(p(18), 14, 15, 15, 7, 3, 256, Strategy::Btultra2)
            &&& are(p(19), 14, 15, 15, 8, 3, 256, Strategy::Btultra2)
            &&& are(p(20), 14, 15, 15, 8, 3, 512, Strategy::Btultra2)
            &&& are(p(21), 14, 15, 15, 9, 3, 512, Strategy::Btultra2)
            &&& are(p(22), 14, 15, 15, 10, 3, 999, Strategy::Btultra2)
            &&& level < 0 ==> are(p(level), 14, 12, 13, 1, 5, if level < -131072 {
                131072
            } else {
                (-level) as u32
            }, Strategy::Fast)
        }),
{
    lemma_sizes(src);
}

/// A size above a power of two, up to the next, has the next one's logarithm.
proof fn lemma_log_between(n: nat, k: nat)
    requires
        k >= 6,
        pow2((k - 1) as nat) < n <= pow2(k),
    ensures
        size_log(n) == k,
{
    lemma2_to64();
    if k == 6 {
        if n == 64 {
            lemma_highest_bit_bound(63, 6);
            if highest_bit(63) < 5 {
                lemma_pow2_strictly_increases(highest_bit(63), 5);
            }
        }
    } else {
        if 6 < k - 1 {
            lemma_pow2_strictly_increases(6, (k - 1) as nat);
        }
        let x = (n - 1) as nat;
        lemma_highest_bit_bound(x, k);
        if highest_bit(x) < k - 1 {
            vstd::arithmetic::power2::lemma_pow2_unfold(highest_bit(x) + 1);
            if highest_bit(x) + 1 < k - 1 {
                lemma_pow2_strictly_increases(highest_bit(x) + 1, (k - 1) as nat);
            }
        }
    }
}

/// The logarithm of a size holds it, and the next lower one does not.
proof fn lemma_size_log(n: nat)
    ensures
        pow2(size_log(n)) >= n,
        size_log(n) >= 6,
        size_log(n) > 6 ==> pow2((size_log(n) - 1) as nat) < n,
        n <= 0x8000_0000 ==> size_log(n) <= 31,
{
    lemma2_to64();
    if n >= 64 {
        let x = (n - 1) as nat;
        vstd::arithmetic::power2::lemma_pow2_unfold(highest_bit(x) + 1);
        lemma_fits(x);
        lemma_highest_bit_bound(x, x);
        if highest_bit(x) < 5 {
            lemma_pow2_strictly_increases(highest_bit(x) + 1, 6);
        }
        if n <= 0x8000_0000 {
            lemma_highest_bit_bound(x, 31);
        }
    }
}

/// A number is less than two to that power.
proof fn lemma_fits(x: nat)
    ensures
        x < pow2(x),
    decreases x,
{
    lemma2_to64();
    if x > 0 {
        lemma_fits((x - 1) as nat);
        vstd::arithmetic::power2::lemma_pow2_unfold(x);
    }
}

/// The logarithms of the sizes at which nothing has to be fitted.
proof fn lemma_sizes(src: nat)
    ensures
        0x800_0000 < src <= 0x4000_0000 ==> size_log(src) >= 28,
        131072 < src <= 262144 ==> size_log(src) == 18,
        65536 < src <= 131072 ==> size_log(src) == 17,
        8192 < src <= 16384 ==> size_log(src) == 14,
{
    lemma2_to64();
    if 0x800_0000 < src {
        lemma_size_log(src);
        if size_log(src) < 27 {
            lemma_pow2_strictly_increases(size_log(src), 27);
        }
    }
    if 131072 < src <= 262144 {
        lemma_log_between(src, 18);
    }
    if 65536 < src <= 131072 {
        lemma_log_between(src, 17);
    }
    if 8192 < src <= 16384 {
        lemma_log_between(src, 14);
    }
}

/// Whatever the sizes are, a level from 1 to 22 has the strategy, search log,
/// minimum match and target length that the tables hold for it, in the part for
/// totals above 256 KiB, above 128 KiB, above 16 KiB or below: fitting does not
/// touch them. A source of unknown size with a dictionary counts as 499 bytes.
pub proof fn law_levels_choose_from_the_tables(level: int, src: nat, dict: nat, mode: CParamMode)
    requires
        1 <= level <= 22,
        src <= 0xFFFF_FFFF_FFFF_FFFF,
        src + dict < 0xFFFF_FFFF_FFFF_FFFF || src == 0xFFFF_FFFF_FFFF_FFFF,
        dict < 0x8000_0000_0000_0000,
    ensures
        ({
            let total = if src < 0xFFFF_FFFF_FFFF_FFFF {
                src + dict
            } else if dict == 0 {
                src
            } else {
                dict + 499
            };
            let class: int = if total > 0x4_0000 {
                0
            } else if total > 0x2_0000 {
                1
            } else if total > 0x4000 {
                2
            } else {
                3
            };
            let p = spec_cparams(level, src, dict, mode);
            &&& p.strategy.spec_num() == STRATEGIES[23 * class + level]
            &&& p.search_log == SEARCH_LOGS[23 * class + level]
            &&& p.min_match == MIN_MATCHES[23 * class + level]
            &&& p.target_length == TARGET_LENGTHS[23 * class + level]
        }),
{
    lemma_strategies();
    if src == 0xFFFF_FFFF_FFFF_FFFF && dict > 0 {
        assert((src + dict + 500) % 0x1_0000_0000_0000_0000 == dict + 499);
    }
}

/// The strategies of the tables are numbers from 1 to 9.
proof fn lemma_strategies()
    ensures
        forall|i: int| 0 <= i < 92 ==> 1 <= #[trigger] STRATEGIES[i] <= 9,
{
}

/// Whether a strategy and a window belong to a level in the tables does not
/// fall with the level, within each part.
#[verifier::spinoff_prover]
#[verifier::rlimit(60)]
proof fn lemma_tables_rise(class: int, a: int)
    requires
        0 <= class <= 3,
        1 <= a < 22,
    ensures
        STRATEGIES[23 * class + a] <= STRATEGIES[23 * class + a + 1],
        crate::cparams::WINDOW_LOGS[23 * class + a] <= crate::cparams::WINDOW_LOGS[23 * class + a + 1],
{
}

proof fn lemma_tables_rise_from(class: int, a: int, b: int)
    requires
        0 <= class <= 3,
        1 <= a <= b <= 22,
    ensures
        STRATEGIES[23 * class + a] <= STRATEGIES[23 * class + b],
        crate::cparams::WINDOW_LOGS[23 * class + a] <= crate::cparams::WINDOW_LOGS[23 * class + b],
    decreases b - a,
{
    if a < b {
        lemma_tables_rise_from(class, a, b - 1);
        lemma_tables_rise(class, b - 1);
    }
}

/// For the same sizes, a higher level never has a weaker strategy or a smaller
/// window.
pub proof fn law_higher_levels_search_no_less(a: int, b: int, src: nat, dict: nat, mode: CParamMode)
    requires
        1 <= a <= b,
    ensures
        spec_cparams(a, src, dict, mode).strategy.spec_num() <= spec_cparams(
            b,
            src,
            dict,
            mode,
        ).strategy.spec_num(),
        spec_cparams(a, src, dict, mode).window_log <= spec_cparams(b, src, dict, mode).window_log,
{
    let a1 = if a > 22 {
        22
    } else {
        a
    };
    let b1 = if b > 22 {
        22
    } else {
        b
    };
    lemma_strategies();
    lemma_tables_rise_from(crate::cparams::size_class(src, dict), a1, b1);
}

/// A window is never made larger and never smaller than 1 KiB; it is as small
/// as it can be so that it holds all of source and dictionary, unless even the
/// level's own window does not.
pub proof fn law_windows_fit(cp: CParams, src: nat, dict: nat, mode: CParamMode)
    requires
        cp.wf(),
        src <= 0x4000_0000,
        dict <= 0x4000_0000,
    ensures
        ({
            let w = spec_adjust(cp, src, dict, mode).window_log;
            &&& 10 <= w <= cp.window_log
            &&& w == cp.window_log || pow2(w as nat) >= src + dict
            &&& w > 10 ==> pow2((w - 1) as nat) < src + dict
        }),
{
    lemma2_to64();
    lemma_size_log(src + dict);
    let w = spec_adjust(cp, src, dict, mode).window_log;
    let s = size_log(src + dict);
    if s < w {
        lemma_pow2_strictly_increases(s, w as nat);
    }
    if 10 < w && w < s {
        lemma_pow2_strictly_increases((w - 1) as nat, (s - 1) as nat);
    }
}

/// A source that is longer than 1 GiB, or unknown, leaves the window as it is.
pub proof fn law_long_sources_keep_the_window(cp: CParams, src: nat, dict: nat)
    requires
        cp.wf(),
        src > 0x4000_0000,
    ensures
        spec_adjust(cp, src, dict, CParamMode::NoAttachDict).window_log == cp.window_log,
{
}

/// What the tables of a frame have to tell apart: the window, and with it the
/// dictionary where the window does not hold all there is.
pub open spec fn to_index(window_log: nat, src: nat, dict: nat) -> nat {
    if pow2(window_log) >= src + dict {
        pow2(window_log)
    } else {
        pow2(window_log) + dict
    }
}

/// The log of dictionary and window is the least one that holds them.
proof fn lemma_both_log(w: nat, src: nat, dict: nat)
    requires
        6 <= w <= 27,
        src <= 0x8000_0000_0000,
        dict <= 0x4000_0000,
    ensures
        ({
            let d = spec_dict_and_window_log(w, src, dict);
            &&& w <= d <= 31
            &&& pow2(d) >= to_index(w, src, dict)
            &&& pow2((d - 1) as nat) < to_index(w, src, dict)
        }),
{
    lemma2_to64();
    lemma_pow2_strictly_increases((w - 1) as nat, w);
    lemma_pow2_strictly_increases(w, 31);
    if w < 27 {
        lemma_pow2_strictly_increases(w, 27);
    }
    lemma_pow2_strictly_increases(5, w);
    let both = dict + pow2(w);
    assert(both % 0x1_0000_0000_0000_0000 == both);
    assert((dict + src) % 0x1_0000_0000_0000_0000 == dict + src);
    if dict > 0 && pow2(w) < dict + src {
        assert(both < pow2(31));
        lemma_size_log(both);
        let s = size_log(both);
        if s < w {
            lemma_pow2_strictly_increases(s, w);
        }
        if s == 6 {
            assert(w == 6);
            assert(false);
        }
    }
}

/// The hash table is cut to twice what it has to tell apart, the chain table to
/// just that (and its double where it holds trees), each as little as can be;
/// the other parameters stay.
#[verifier::rlimit(30)]
pub proof fn law_tables_fit(cp: CParams, src: nat, dict: nat)
    requires
        cp.wf(),
        512 < src <= 0x8000_0000_0000,
        dict <= 0x4000_0000,
    ensures
        ({
            let p = spec_adjust(cp, src, dict, CParamMode::NoAttachDict);
            let n = to_index(p.window_log as nat, src, dict);
            let trees: int = if cp.strategy.spec_num() >= 6 {
                1
            } else {
                0
            };
            let c = p.chain_log - trees;
            &&& p.hash_log == cp.hash_log || p.hash_log < cp.hash_log && pow2(
                (p.hash_log - 1) as nat,
            ) >= n
            &&& pow2((p.hash_log - 2) as nat) < n
            &&& p.chain_log == cp.chain_log || p.chain_log < cp.chain_log && pow2(c as nat) >= n
            &&& pow2((c - 1) as nat) < n
            &&& p.search_log == cp.search_log
            &&& p.min_match == cp.min_match
            &&& p.target_length == cp.target_length
            &&& p.strategy == cp.strategy
        }),
{
    lemma2_to64();
    let p = spec_adjust(cp, src, dict, CParamMode::NoAttachDict);
    let w = p.window_log as nat;
    if src <= 0x4000_0000 {
        law_windows_fit(cp, src, dict, CParamMode::NoAttachDict);
        lemma_size_log(src + dict);
        let s = size_log(src + dict);
        if s < 10 {
            if s < 9 {
                lemma_pow2_strictly_increases(s, 9);
            }
            assert(false);
        }
    }
    lemma_both_log(w, src, dict);
    let d = spec_dict_and_window_log(w, src, dict);
    if p.hash_log - 2 < d - 1 {
        lemma_pow2_strictly_increases((p.hash_log - 2) as nat, (d - 1) as nat);
    }
    let trees: int = if cp.strategy.spec_num() >= 6 {
        1
    } else {
        0
    };
    let c = p.chain_log - trees;
    if c < d {
        lemma_pow2_strictly_increases((c - 1) as nat, (d - 1) as nat);
    }
}

/// A dictionary's own tables are made for a source of 513 bytes to come, and
/// where their entries hold tags beside the positions, they have no more than
/// 2^24 of them.
pub proof fn law_dictionary_tables_leave_room_for_tags(cp: CParams, dict: nat)
    requires
        cp.wf(),
        0 < dict <= 0x4000_0000,
    ensures
        ({
            let p = spec_adjust(cp, 0xFFFF_FFFF_FFFF_FFFF, dict, CParamMode::CreateCDict);
            let q = spec_adjust(cp, 513, dict, CParamMode::NoAttachDict);
            &&& p.window_log == q.window_log
            &&& p.strategy is Fast || p.strategy is Dfast ==> {
                &&& p.hash_log <= 24 && (p.hash_log == q.hash_log || p.hash_log == 24)
                &&& p.chain_log <= 24 && (p.chain_log == q.chain_log || p.chain_log == 24)
            }
            &&& !(p.strategy is Fast || p.strategy is Dfast) ==> p == q
        }),
{
}

} // verus!
