//! Compression parameters: the defaults for each level, fitted to the sizes of
//! the source and the dictionary.

use crate::bits::{highbit32, highest_bit, lemma_highest_bit_bound};
use crate::math::pow2_u64;
use vstd::arithmetic::power2::{lemma2_to64, lemma_pow2_strictly_increases, pow2};
use vstd::prelude::*;

verus! {

pub const WINDOWLOG_ABSOLUTEMIN: u32 = 10;

pub const HASHLOG_MIN: u32 = 6;

/// The low bits of an entry in an attached dictionary's table hold a hash tag.
pub const SHORT_CACHE_TAG_BITS: u32 = 8;

pub const WINDOWLOG_MAX: u32 = 31;

/// The source size is not known in advance.
pub const CONTENTSIZE_UNKNOWN: u64 = 0xFFFF_FFFF_FFFF_FFFF;

pub const ZSTD_MAX_CLEVEL: i32 = 22;

pub const ZSTD_CLEVEL_DEFAULT: i32 = 3;

pub const ZSTD_MIN_CLEVEL: i32 = -131072;

/// How matches are searched, from the fastest to the strongest.
#[derive(Clone, Copy, PartialEq, Eq, Debug, Structural)]
pub enum Strategy {
    Fast,
    Dfast,
    Greedy,
    Lazy,
    Lazy2,
    Btlazy2,
    Btopt,
    Btultra,
    Btultra2,
}

impl Strategy {
    pub open spec fn spec_num(self) -> nat {
        match self {
            Strategy::Fast => 1,
            Strategy::Dfast => 2,
            Strategy::Greedy => 3,
            Strategy::Lazy => 4,
            Strategy::Lazy2 => 5,
            Strategy::Btlazy2 => 6,
            Strategy::Btopt => 7,
            Strategy::Btultra => 8,
            Strategy::Btultra2 => 9,
        }
    }

    /// The strategy's number, from 1.
    pub fn num(self) -> (r: i32)
        ensures
            r == self.spec_num(),
            1 <= r <= 9,
    {
        match self {
            Strategy::Fast => 1,
            Strategy::Dfast => 2,
            Strategy::Greedy => 3,
            Strategy::Lazy => 4,
            Strategy::Lazy2 => 5,
            Strategy::Btlazy2 => 6,
            Strategy::Btopt => 7,
            Strategy::Btultra => 8,
            Strategy::Btultra2 => 9,
        }
    }

    pub open spec fn spec_from_num(n: nat) -> Self {
        if n <= 1 {
            Strategy::Fast
        } else if n == 2 {
            Strategy::Dfast
        } else if n == 3 {
            Strategy::Greedy
        } else if n == 4 {
            Strategy::Lazy
        } else if n == 5 {
            Strategy::Lazy2
        } else if n == 6 {
            Strategy::Btlazy2
        } else if n == 7 {
            Strategy::Btopt
        } else if n == 8 {
            Strategy::Btultra
        } else {
            Strategy::Btultra2
        }
    }

    /// The strategy with the number `n`.
    pub fn from_num(n: u32) -> (r: Self)
        ensures
            r == Self::spec_from_num(n as nat),
    {
        if n <= 1 {
            Strategy::Fast
        } else if n == 2 {
            Strategy::Dfast
        } else if n == 3 {
            Strategy::Greedy
        } else if n == 4 {
            Strategy::Lazy
        } else if n == 5 {
            Strategy::Lazy2
        } else if n == 6 {
            Strategy::Btlazy2
        } else if n == 7 {
            Strategy::Btopt
        } else if n == 8 {
            Strategy::Btultra
        } else {
            Strategy::Btultra2
        }
    }
}

/// The parameters of one compression.
#[derive(Clone, Copy)]
pub struct CParams {
    pub window_log: u32,
    pub chain_log: u32,
    pub hash_log: u32,
    pub search_log: u32,
    pub min_match: u32,
    pub target_length: u32,
    pub strategy: Strategy,
}

impl CParams {
    /// Parameters as the derivation below gives them.
    pub open spec fn wf(self) -> bool {
        &&& 10 <= self.window_log <= 27
        &&& 6 <= self.chain_log <= 28
        &&& 6 <= self.hash_log <= 28
        &&& 1 <= self.search_log <= 13
        &&& 3 <= self.min_match <= 7
        &&& self.target_length <= 131072
    }

    /// The parameters as seven numbers.
    pub open spec fn numbers(self) -> Seq<u32> {
        seq![
            self.window_log,
            self.chain_log,
            self.hash_log,
            self.search_log,
            self.min_match,
            self.target_length,
            self.strategy.spec_num() as u32,
        ]
    }
}

/// Window logs, for each of the four source-size classes a row per level.
pub const WINDOW_LOGS: [u32; 92] = [
    19, 19, 20, 21, 21, 21, 21, 21, 21, 22, 22, 22, 22, 22, 22, 22, 22, 23, 23, 23, 25, 26, 27,
    18, 18, 18, 18, 18, 18, 18, 18, 18, 18, 18, 18, 18, 18, 18, 18, 18, 18, 18, 18, 18, 18, 18,
    17, 17, 17, 17, 17, 17, 17, 17, 17, 17, 17, 17, 17, 17, 17, 17, 17, 17, 17, 17, 17, 17, 17,
    14, 14, 14, 14, 14, 14, 14, 14, 14, 14, 14, 14, 14, 14, 14, 14, 14, 14, 14, 14, 14, 14, 14,
];

/// Chain logs, for each of the four source-size classes a row per level.
pub const CHAIN_LOGS: [u32; 92] = [
    12, 13, 15, 16, 18, 18, 18, 19, 19, 20, 21, 21, 22, 22, 22, 23, 22, 23, 23, 24, 25, 26, 27,
    12, 13, 14, 16, 16, 17, 18, 18, 18, 18, 18, 18, 19, 18, 18, 18, 19, 19, 19, 19, 19, 19, 19,
    12, 12, 13, 15, 17, 16, 16, 16, 16, 16, 16, 17, 18, 18, 18, 18, 18, 18, 18, 18, 18, 18, 18,
    12, 14, 14, 14, 14, 14, 14, 14, 14, 15, 15, 15, 15, 15, 15, 15, 15, 15, 15, 15, 15, 15, 15,
];

/// Hash logs, for each of the four source-size classes a row per level.
pub const HASH_LOGS: [u32; 92] = [
    13, 14, 16, 17, 18, 19, 19, 20, 20, 21, 22, 22, 23, 22, 23, 23, 22, 22, 22, 22, 23, 24, 25,
    13, 14, 14, 16, 17, 18, 19, 19, 19, 19, 19, 19, 19, 19, 19, 19, 19, 19, 19, 19, 19, 19, 19,
    12, 13, 15, 16, 17, 17, 17, 17, 17, 17, 17, 17, 17, 17, 17, 17, 17, 17, 17, 17, 17, 17, 17,
    13, 15, 15, 15, 14, 14, 14, 14, 14, 14, 14, 14, 14, 14, 15, 15, 15, 15, 15, 15, 15, 15, 15,
];

/// Search logs, for each of the four source-size classes a row per level.
pub const SEARCH_LOGS: [u32; 92] = [
    1, 1, 1, 1, 1, 3, 3, 4, 4, 4, 5, 6, 6, 4, 5, 6, 5, 5, 6, 7, 7, 7, 9,
    1, 1, 1, 1, 3, 5, 3, 4, 4, 5, 6, 5, 7, 4, 4, 6, 6, 8, 6, 8, 10, 12, 13,
    1, 1, 1, 2, 2, 3, 3, 3, 4, 5, 6, 5, 7, 3, 4, 6, 6, 8, 10, 5, 7, 9, 11,
    1, 1, 1, 2, 4, 3, 4, 6, 8, 5, 9, 3, 4, 5, 6, 7, 5, 6, 7, 8, 8, 9, 10,
];

/// Minimum match lengths, for each of the four source-size classes a row per level.
pub const MIN_MATCHES: [u32; 92] = [
    6, 7, 6, 5, 5, 5, 5, 5, 5, 5, 5, 5, 5, 5, 5, 5, 5, 4, 3, 3, 3, 3, 3,
    5, 6, 5, 4, 5, 5, 5, 4, 4, 4, 4, 4, 4, 4, 3, 3, 3, 3, 3, 3, 3, 3, 3,
    5, 6, 5, 5, 4, 4, 4, 4, 4, 4, 4, 4, 4, 4, 3, 3, 3, 3, 3, 3, 3, 3, 3,
    5, 5, 4, 4, 4, 4, 4, 4, 4, 4, 4, 4, 3, 3, 3, 3, 3, 3, 3, 3, 3, 3, 3,
];

/// Target lengths, for each of the four source-size classes a row per level.
pub const TARGET_LENGTHS: [u32; 92] = [
    1, 0, 0, 0, 0, 2, 4, 8, 16, 16, 16, 16, 32, 32, 32, 32, 48, 64, 64, 256, 256, 512, 999,
    1, 0, 0, 0, 2, 2, 4, 4, 8, 8, 8, 12, 12, 16, 32, 128, 128, 256, 128, 256, 512, 512, 999,
    1, 0, 0, 0, 0, 2, 4, 8, 8, 8, 8, 8, 12, 12, 32, 256, 128, 256, 512, 256, 512, 512, 999,
    1, 0, 0, 0, 2, 4, 8, 8, 8, 8, 8, 12, 24, 32, 64, 256, 48, 128, 256, 256, 512, 512, 999,
];

/// Strategies, by number, for each of the four source-size classes a row per level.
pub const STRATEGIES: [u32; 92] = [
    1, 1, 1, 2, 2, 3, 4, 4, 5, 5, 5, 5, 5, 6, 6, 6, 7, 7, 8, 9, 9, 9, 9,
    1, 1, 2, 2, 3, 3, 4, 4, 5, 5, 5, 6, 6, 7, 7, 7, 8, 8, 9, 9, 9, 9, 9,
    1, 1, 1, 2, 2, 3, 4, 5, 5, 5, 5, 6, 6, 7, 7, 7, 8, 8, 8, 9, 9, 9, 9,
    1, 1, 1, 2, 3, 4, 5, 5, 5, 6, 6, 7, 7, 8, 8, 8, 9, 9, 9, 9, 9, 9, 9,
];

proof fn lemma_tables()
    ensures
        forall|i: int| 0 <= i < 92 ==> 14 <= #[trigger] WINDOW_LOGS[i] <= 27,
        forall|i: int| 0 <= i < 92 ==> 12 <= #[trigger] CHAIN_LOGS[i] <= 27,
        forall|i: int| 0 <= i < 92 ==> 12 <= #[trigger] HASH_LOGS[i] <= 25,
        forall|i: int| 0 <= i < 92 ==> 1 <= #[trigger] SEARCH_LOGS[i] <= 13,
        forall|i: int| 0 <= i < 92 ==> 3 <= #[trigger] MIN_MATCHES[i] <= 7,
        forall|i: int| 0 <= i < 92 ==> #[trigger] TARGET_LENGTHS[i] <= 999,
        forall|i: int| 0 <= i < 92 ==> 1 <= #[trigger] STRATEGIES[i] <= 9,
{
}

/// What the parameters are derived for.
#[derive(Clone, Copy, PartialEq, Eq, Structural)]
pub enum CParamMode {
    /// Compressing, with or without a dictionary in front of the source.
    NoAttachDict,
    /// A dictionary's own tables, for a small source to come.
    CreateCDict,
}

/// The logarithm of a chain's period.
pub open spec fn spec_cycle_log(chain_log: int, strategy: Strategy) -> int {
    if strategy.spec_num() >= 6 {
        chain_log - 1
    } else {
        chain_log
    }
}

pub fn cycle_log(chain_log: u32, strategy: Strategy) -> (r: u32)
    requires
        chain_log >= 1,
    ensures
        r == spec_cycle_log(chain_log as int, strategy),
{
    if strategy.num() >= 6 {
        chain_log - 1
    } else {
        chain_log
    }
}

/// The sizes of dictionary and window together, in 64 bits.
pub open spec fn both_sizes(window_log: nat, dict_size: nat) -> nat {
    (dict_size + pow2(window_log)) % 0x1_0000_0000_0000_0000
}

/// The window log enlarged so that the tables can refer to the dictionary as
/// well as to the window. Where the two sizes together wrap around to zero, it
/// is one more than 31.
pub open spec fn spec_dict_and_window_log(window_log: nat, src_size: nat, dict_size: nat) -> nat {
    let both = both_sizes(window_log, dict_size);
    if dict_size == 0 || pow2(window_log) >= (dict_size + src_size) % 0x1_0000_0000_0000_0000 {
        window_log
    } else if both >= pow2(31) {
        31
    } else if both == 0 {
        32
    } else {
        highest_bit((both - 1) as nat) + 1
    }
}

pub fn dict_and_window_log(window_log: u32, src_size: u64, dict_size: u64) -> (r: u32)
    requires
        6 <= window_log <= 31,
        both_sizes(window_log as nat, dict_size as nat) != 1,
    ensures
        r == spec_dict_and_window_log(window_log as nat, src_size as nat, dict_size as nat),
        dict_size <= i64::MAX ==> window_log <= r <= 31,
        1 <= r <= 32,
{
    if dict_size == 0 {
        return window_log;
    }
    proof {
        lemma2_to64();
        if window_log < 31 {
            lemma_pow2_strictly_increases(window_log as nat, 31);
        }
    }
    let max_window_size: u64 = pow2_u64(WINDOWLOG_MAX);
    let window_size: u64 = pow2_u64(window_log);
    let both: u64 = dict_size.wrapping_add(window_size);
    if window_size >= dict_size.wrapping_add(src_size) {
        window_log
    } else if both >= max_window_size {
        WINDOWLOG_MAX
    } else if both == 0 {
        WINDOWLOG_MAX + 1
    } else {
        proof {
            let x = (both - 1) as nat;
            lemma_pow2_strictly_increases(0, window_log as nat);
            lemma_highest_bit_bound(x, 31);
            if dict_size <= i64::MAX && highest_bit(x) + 1 < window_log {
                lemma_pow2_strictly_increases(highest_bit(x) + 1, window_log as nat);
                vstd::arithmetic::power2::lemma_pow2_unfold(highest_bit(x) + 1);
            }
        }
        highbit32((both - 1) as u32) + 1
    }
}

/// The source-size class: 0 above 256 KiB, then down to 128 KiB and 16 KiB. A
/// dictionary counts to the size; an unknown source with a dictionary counts
/// as 500 bytes less one.
pub open spec fn size_class(src_size: nat, dict_size: nat) -> int {
    let unknown = src_size == 0xFFFF_FFFF_FFFF_FFFF;
    let n = if unknown && dict_size == 0 {
        src_size
    } else {
        (src_size + dict_size + if unknown {
            500nat
        } else {
            0
        }) % 0x1_0000_0000_0000_0000
    };
    (if n <= 262144 {
        1int
    } else {
        0
    }) + (if n <= 131072 {
        1int
    } else {
        0
    }) + (if n <= 16384 {
        1int
    } else {
        0
    })
}

/// The table row of a level: 0 stands for the default level, and negative
/// levels start from the row for 0.
pub open spec fn level_row(level: int) -> int {
    if level == 0 {
        3
    } else if level < 0 {
        0
    } else if level > 22 {
        22
    } else {
        level
    }
}

/// The defaults of a level and a size class. Negative levels are an
/// acceleration factor.
pub open spec fn base_cparams(level: int, class: int) -> CParams {
    let i = 23 * class + level_row(level);
    CParams {
        window_log: WINDOW_LOGS[i],
        chain_log: CHAIN_LOGS[i],
        hash_log: HASH_LOGS[i],
        search_log: SEARCH_LOGS[i],
        min_match: MIN_MATCHES[i],
        target_length: if level >= 0 {
            TARGET_LENGTHS[i]
        } else if level < -131072 {
            131072
        } else {
            (-level) as u32
        },
        strategy: Strategy::spec_from_num(STRATEGIES[i] as nat),
    }
}

/// The window log that a known total size needs.
pub open spec fn size_log(total: nat) -> nat {
    if total < 64 {
        6
    } else {
        highest_bit((total - 1) as nat) + 1
    }
}

pub open spec fn min_u32(a: u32, b: int) -> u32 {
    if a > b {
        b as u32
    } else {
        a
    }
}

/// `cp` fitted to the sizes of the source and the dictionary: the window to
/// what there is, the tables to window and dictionary, and the table logs to
/// what their entries can hold.
pub open spec fn spec_adjust(cp: CParams, src_size: nat, dict_size: nat, mode: CParamMode) -> CParams {
    let unknown = 0xFFFF_FFFF_FFFF_FFFFnat;
    let src = if mode == CParamMode::CreateCDict && dict_size != 0 && src_size == unknown {
        513
    } else {
        src_size
    };
    let window1 = if src <= 0x4000_0000 && dict_size <= 0x4000_0000 {
        min_u32(cp.window_log, size_log(src + dict_size) as int)
    } else {
        cp.window_log
    };
    let daw = spec_dict_and_window_log(window1 as nat, src, dict_size) as int;
    let cyc = spec_cycle_log(cp.chain_log as int, cp.strategy);
    let hash1 = if src != unknown {
        min_u32(cp.hash_log, daw + 1)
    } else {
        cp.hash_log
    };
    let chain1 = if src != unknown && cyc > daw {
        (cp.chain_log - (cyc - daw)) as u32
    } else {
        cp.chain_log
    };
    let window2 = if window1 < 10 {
        10u32
    } else {
        window1
    };
    let tagged = mode == CParamMode::CreateCDict && cp.strategy.spec_num() <= 2;
    let hash2 = if tagged {
        min_u32(hash1, 24)
    } else {
        hash1
    };
    let chain2 = if tagged {
        min_u32(chain1, 24)
    } else {
        chain1
    };
    let rows = 3 <= cp.strategy.spec_num() <= 5;
    let row_log = if cp.search_log < 4 {
        4int
    } else if cp.search_log > 6 {
        6
    } else {
        cp.search_log as int
    };
    let hash3 = if rows {
        min_u32(hash2, 24 + row_log)
    } else {
        hash2
    };
    CParams { window_log: window2, chain_log: chain2, hash_log: hash3, ..cp }
}

/// Fits a parameter set to the sizes of the source and the dictionary.
pub fn adjust_cparams_internal(cp: CParams, src_size: u64, dict_size: u64, mode: CParamMode) -> (r:
    CParams)
    requires
        cp.wf(),
        dict_size <= i64::MAX || both_sizes(cp.window_log as nat, dict_size as nat) != 1,
    ensures
        r == spec_adjust(cp, src_size as nat, dict_size as nat, mode),
        dict_size <= i64::MAX ==> r.wf(),
{
    let src: u64 = if mode == CParamMode::CreateCDict && dict_size != 0 && src_size
        == CONTENTSIZE_UNKNOWN {
        513
    } else {
        src_size
    };
    let mut window_log: u32 = cp.window_log;
    if src <= 0x4000_0000 && dict_size <= 0x4000_0000 {
        let total: u32 = (src + dict_size) as u32;
        let src_log: u32 = if total < 64 {
            HASHLOG_MIN
        } else {
            proof {
                lemma2_to64();
                lemma_highest_bit_bound((total - 1) as nat, 32);
                if highest_bit((total - 1) as nat) < 5 {
                    lemma_pow2_strictly_increases(highest_bit((total - 1) as nat), 5);
                }
            }
            highbit32(total - 1) + 1
        };
        if window_log > src_log {
            window_log = src_log;
        }
    }
    let mut hash_log: u32 = cp.hash_log;
    let mut chain_log: u32 = cp.chain_log;
    if src != CONTENTSIZE_UNKNOWN {
        proof {
            if dict_size <= i64::MAX {
                lemma2_to64();
                lemma_pow2_strictly_increases(0, window_log as nat);
                if window_log < 31 {
                    lemma_pow2_strictly_increases(window_log as nat, 31);
                }
            }
        }
        let daw_log: u32 = dict_and_window_log(window_log, src, dict_size);
        let cyc_log: u32 = cycle_log(chain_log, cp.strategy);
        if hash_log > daw_log + 1 {
            hash_log = daw_log + 1;
        }
        if cyc_log > daw_log {
            chain_log = chain_log - (cyc_log - daw_log);
        }
    }
    if window_log < WINDOWLOG_ABSOLUTEMIN {
        window_log = WINDOWLOG_ABSOLUTEMIN;
    }
    if mode == CParamMode::CreateCDict && cp.strategy.num() <= 2 {
        if hash_log > 32 - SHORT_CACHE_TAG_BITS {
            hash_log = 32 - SHORT_CACHE_TAG_BITS;
        }
        if chain_log > 32 - SHORT_CACHE_TAG_BITS {
            chain_log = 32 - SHORT_CACHE_TAG_BITS;
        }
    }
    if 3 <= cp.strategy.num() && cp.strategy.num() <= 5 {
        let row_log: u32 = if cp.search_log < 4 {
            4
        } else if cp.search_log > 6 {
            6
        } else {
            cp.search_log
        };
        if hash_log > 24 + row_log {
            hash_log = 24 + row_log;
        }
    }
    CParams { window_log, chain_log, hash_log, ..cp }
}

/// The parameters of a level for given sizes.
pub open spec fn spec_cparams(level: int, src_size: nat, dict_size: nat, mode: CParamMode) -> CParams {
    spec_adjust(
        base_cparams(level, size_class(src_size, dict_size)),
        src_size,
        dict_size,
        mode,
    )
}

/// The sizes together do not come to one byte in 64 bits, which has no log.
pub open spec fn sizes_have_log(level: int, src_size: nat, dict_size: nat) -> bool {
    dict_size <= i64::MAX || both_sizes(
        base_cparams(level, size_class(src_size, dict_size)).window_log as nat,
        dict_size,
    ) != 1
}

pub fn get_cparams_mode(level: i32, src_size: u64, dict_size: u64, mode: CParamMode) -> (r: CParams)
    requires
        sizes_have_log(level as int, src_size as nat, dict_size as nat),
    ensures
        r == spec_cparams(level as int, src_size as nat, dict_size as nat, mode),
        dict_size <= i64::MAX ==> r.wf(),
{
    let unknown: bool = src_size == CONTENTSIZE_UNKNOWN;
    let r_size: u64 = if unknown && dict_size == 0 {
        CONTENTSIZE_UNKNOWN
    } else {
        let added: u64 = if unknown {
            500
        } else {
            0
        };
        src_size.wrapping_add(dict_size).wrapping_add(added)
    };
    let class: usize = (if r_size <= 262144 {
        1usize
    } else {
        0usize
    }) + (if r_size <= 131072 {
        1usize
    } else {
        0usize
    }) + (if r_size <= 16384 {
        1usize
    } else {
        0usize
    });
    let row: usize = if level == 0 {
        ZSTD_CLEVEL_DEFAULT as usize
    } else if level < 0 {
        0
    } else if level > ZSTD_MAX_CLEVEL {
        ZSTD_MAX_CLEVEL as usize
    } else {
        level as usize
    };
    proof {
        lemma_tables();
        assert(class == size_class(src_size as nat, dict_size as nat));
    }
    let i: usize = 23 * class + row;
    let target_length: u32 = if level >= 0 {
        TARGET_LENGTHS[i]
    } else if level < ZSTD_MIN_CLEVEL {
        131072
    } else {
        (-level) as u32
    };
    let cp = CParams {
        window_log: WINDOW_LOGS[i],
        chain_log: CHAIN_LOGS[i],
        hash_log: HASH_LOGS[i],
        search_log: SEARCH_LOGS[i],
        min_match: MIN_MATCHES[i],
        target_length,
        strategy: Strategy::from_num(STRATEGIES[i]),
    };
    adjust_cparams_internal(cp, src_size, dict_size, mode)
}

/// The parameters for compressing `src_size` bytes after `dict_size` bytes of
/// dictionary.
pub fn get_cparams(level: i32, src_size: u64, dict_size: u64) -> (r: CParams)
    requires
        sizes_have_log(level as int, src_size as nat, dict_size as nat),
    ensures
        r == spec_cparams(
            level as int,
            src_size as nat,
            dict_size as nat,
            CParamMode::NoAttachDict,
        ),
        dict_size <= i64::MAX ==> r.wf(),
{
    get_cparams_mode(level, src_size, dict_size, CParamMode::NoAttachDict)
}

/// The parameters of a dictionary's own tables.
pub fn get_cparams_create_cdict(level: i32, dict_size: u64) -> (r: CParams)
    requires
        sizes_have_log(level as int, 0xFFFF_FFFF_FFFF_FFFF, dict_size as nat),
    ensures
        r == spec_cparams(
            level as int,
            0xFFFF_FFFF_FFFF_FFFF,
            dict_size as nat,
            CParamMode::CreateCDict,
        ),
        dict_size <= i64::MAX ==> r.wf(),
{
    get_cparams_mode(level, CONTENTSIZE_UNKNOWN, dict_size, CParamMode::CreateCDict)
}

fn as_numbers(cp: CParams) -> (r: [u32; 7])
    ensures
        r@ == cp.numbers(),
{
    let r: [u32; 7] = [
        cp.window_log,
        cp.chain_log,
        cp.hash_log,
        cp.search_log,
        cp.min_match,
        cp.target_length,
        cp.strategy.num() as u32,
    ];
    assert(r@ =~= cp.numbers());
    r
}

/// The parameters for given sizes as numbers: window, chain, hash and search
/// logs, minimum match, target length, strategy.
pub fn cparams_for_testing(level: i32, src_size: u64, dict_size: u64) -> (r: [u32; 7])
    requires
        sizes_have_log(level as int, src_size as nat, dict_size as nat),
    ensures
        r@ == spec_cparams(
            level as int,
            src_size as nat,
            dict_size as nat,
            CParamMode::NoAttachDict,
        ).numbers(),
{
    as_numbers(get_cparams(level, src_size, dict_size))
}

/// The parameters of a dictionary's own tables as numbers.
pub fn cparams_create_cdict_for_testing(level: i32, dict_size: u64) -> (r: [u32; 7])
    requires
        sizes_have_log(level as int, 0xFFFF_FFFF_FFFF_FFFF, dict_size as nat),
    ensures
        r@ == spec_cparams(
            level as int,
            0xFFFF_FFFF_FFFF_FFFF,
            dict_size as nat,
            CParamMode::CreateCDict,
        ).numbers(),
{
    as_numbers(get_cparams_create_cdict(level, dict_size))
}

} // verus!
