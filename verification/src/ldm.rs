//! Long-distance matching: a rolling hash splits the input where its content
//! says so, a fingerprint of the bytes before each split goes into a bucketed
//! table, and an earlier place with the same fingerprint gives a long match.

use crate::cparams::CParams;
use crate::error::Error;
use crate::layout::lemma_shown_parts;
use crate::ldm_model::{
    bucket_best, chunk_searched, fresh_ldm, gear_fed, ldm_chunk, ldm_chunks, ldm_generated, ldm_generated_in,
    split_handled, splits_handled, GearRun, LdmHit, LdmProgress, LdmTables,
};
use crate::math::{low_bits, pow2_u64, shr};
use crate::parser::{count_eq, eq_run, extend_back, lemma_join_runs, new_table, to_index, to_pos, HASH_READ_SIZE};
use crate::window::Window;
use crate::xxhash::xxh64;
use vstd::arithmetic::power2::{lemma2_to64, lemma_pow2_adds, lemma_pow2_pos, lemma_pow2_strictly_increases, pow2};
use vstd::prelude::*;
use vstd::slice::slice_subrange;

verus! {

/// How many splits are handled at a time.
pub const LDM_BATCH_SIZE: usize = 64;

/// The length that is fingerprinted, and that a match has at least.
pub const LDM_MIN_MATCH_LENGTH: usize = 64;

/// Blocks are searched in chunks of this size.
pub const K_MAX_CHUNK_SIZE: usize = 1_048_576;

/// What each byte adds to the rolling hash.
pub const GEAR_TAB: [u64; 256] = [
    0xf5b8f72c5f77775c, 0x84935f266b7ac412, 0xb647ada9ca730ccc, 0xb065bb4b114fb1de,
    0x34584e7e8c3a9fd0, 0x4e97e17c6ae26b05, 0x3a03d743bc99a604, 0xcecd042422c4044f,
    0x76de76c58524259e, 0x9c8528f65badeaca, 0x86563706e2097529, 0x2902475fa375d889,
    0xafb32a9739a5ebe6, 0xce2714da3883e639, 0x021eaf821722e69e, 0x00037b628620b628,
    0x049a8d455d88caf5, 0x8556d711e6958140, 0x04f7ae74fc605c1f, 0x829f0c3468bd3a20,
    0x4ffdc885c625179e, 0x8473de048a3daf1b, 0x51008822b05646b2, 0x69d75d12b2d1cc5f,
    0x8c9d4a19159154bc, 0xc3cc10f4abbd4003, 0xd06ddc1cecb97391, 0xbe48e6e7ed80302e,
    0x3481db31cee03547, 0xacc3f67cdaa1d210, 0x65cb771d8c7f96cc, 0x8eb27177055723dd,
    0xc789950d44cd94be, 0x934feadc3700b12b, 0x5e485f11edbdf182, 0x1e2e2a46fd64767a,
    0x2969ca71d82efa7c, 0x9d46e9935ebbba2e, 0xe056b67e05e6822b, 0x94d73f55739d03a0,
    0xcd7010bdb69b5a03, 0x455ef9fcd79b82f4, 0x869cb54a8749c161, 0x38d1a4fa6185d225,
    0xb475166f94bbe9bb, 0xa4143548720959f1, 0x7aed4780ba6b26ba, 0xd0ce264439e02312,
    0x84366d746078d508, 0xa8ce973c72ed17be, 0x21c323a29a430b01, 0x9962d617e3af80ee,
    0xab0ce91d9c8cf75b, 0x530e8ee6d19a4dbc, 0x2ef68c0cf53f5d72, 0xc03a681640a85506,
    0x496e4e9f9c310967, 0x78580472b59b14a0, 0x273824c23b388577, 0x66bf923ad45cb553,
    0x47ae1a5a2492ba86, 0x35e304569e229659, 0x4765182a46870b6f, 0x6cbab625e9099412,
    0xddac9a2e598522c1, 0x7172086e666624f2, 0xdf5003ca503b7837, 0x88c0c1db78563d09,
    0x58d51865acfc289d, 0x177671aec65224f1, 0xfb79d8a241e967d7, 0x2be1e101cad9a49a,
    0x6625682f6e29186b, 0x399553457ac06e50, 0x035dffb4c23abb74, 0x429db2591f54aade,
    0xc52802a8037d1009, 0x6acb27381f0b25f3, 0xf45e2551ee4f823b, 0x8b0ea2d99580c2f7,
    0x3bed519cbcb4e1e1, 0x0ff452823dbb010a, 0x9d42ed614f3dd267, 0x5b9313c06257c57b,
    0xa114b8008b5e1442, 0xc1fe311c11c13d4b, 0x66e8763ea34c5568, 0x8b982af1c262f05d,
    0xee8876faaa75fbb7, 0x8a62a4d0d172bb2a, 0xc13d94a3b7449a97, 0x6dbbba9dc15d037c,
    0xc786101f1d92e0f1, 0xd78681a907a0b79b, 0xf61aaf2962c9abb9, 0x2cfd16fcd3cb7ad9,
    0x868c5b6744624d21, 0x25e650899c74ddd7, 0xba042af4a7c37463, 0x4eb1a539465a3eca,
    0xbe09dbf03b05d5ca, 0x774e5a362b5472ba, 0x47a1221229d183cd, 0x504b0ca18ef5a2df,
    0xdffbdfbde2456eb9, 0x46cd2b2fbee34634, 0xf2aef8fe819d98c3, 0x357f5276d4599d61,
    0x24a5483879c453e3, 0x088026889192b4b9, 0x28da96671782dbec, 0x4ef37c40588e9aaa,
    0x8837b90651bc9fb3, 0xc164f741d3f0e5d6, 0xbc135a0a704b70ba, 0x069cd868f7622ada,
    0xbc37ba89e0b9c0ab, 0x47c14a01323552f6, 0x4f00794bacee98bb, 0x7107de7d637a69d5,
    0x88af793bb6f2255e, 0xf3c6466b8799b598, 0xc288c616aa7f3b59, 0x81ca63cf42fca3fd,
    0x88d85ace36a2674b, 0x0d056bd3792389e7, 0xe55c396c4e9dd32d, 0xbefb504571e6c0a6,
    0x96ab32115e91e8cc, 0xbf8acb18de8f38d1, 0x66dae58801672606, 0x833b6017872317fb,
    0xb87c16f2d1c92864, 0xdb766a74e58b669c, 0x89659f85c61417be, 0xc8daad856011ea0c,
    0x76a4b565b6fe7eae, 0xa469d085f6237312, 0xaaf0365683a3e96c, 0x4dbb746f8424f7b8,
    0x0638755af4e4acc1, 0x3d7807f5bde64486, 0x17be6d8f5bbb7639, 0x0903f0cd44dc35dc,
    0x67b672eafdf1196c, 0xa676ff93ed4c82f1, 0x521d1004c5053d9d, 0x37ba9ad09ccc9202,
    0x84e54d297aacfb51, 0x0a0b4b776a143445, 0x0820d471e20b348e, 0x1874383cb83d46dc,
    0x97edeec7a1efe11c, 0xb330e50b1bdc42aa, 0x1dd91955ce70e032, 0xa514cdb88f2939d5,
    0x2791233fd90db9d3, 0x7b670a4cc50f7a9b, 0x77c07d2a05c6dfa5, 0xe3778b6646d0a6fa,
    0xb39c8eda47b56749, 0x933ed448addbef28, 0xaf846af6ab7d0bf4, 0x0e5af208eb666e49,
    0x5e6622f73534cd6a, 0x297daeca42ef5b6e, 0x862daef3d35539a6, 0xe68722498f8e1ea9,
    0x981c53093dc0d572, 0xfa09b0bfbf86fbf5, 0x30b1e96166219f15, 0x70e7d466bdc4fb83,
    0x5a66736e35f2a8e9, 0xcddb59d2b7c1baef, 0xd6c7d247d26d8996, 0xea4e39eac8de1ba3,
    0x539c8bb19fa3aff2, 0x09f90e4c5fd508d8, 0xa34e5956fbaf3385, 0x2e2f8e151d3ef375,
    0x173691e9b83faec1, 0xb85a8d56bf016379, 0x8382381267408ae3, 0xb90f901bbdc0096d,
    0x7c6ad32933bcec65, 0x76bb5e2f2c8ad595, 0x390f851a6cf46d28, 0xc3e6064da1c2da72,
    0xc52a0c101cfa5389, 0xd78eaf84a3fbc530, 0x3781b9e2288b997e, 0x73c2f6dea83d05c4,
    0x04228e364c5b5ed7, 0x9d7a3edf0da43911, 0x8edcfeda24686756, 0x5e7667a7b7a9b3a1,
    0x4c4f389fa143791d, 0xb08bc1023da7cddc, 0x7ab4be3ae529b1cc, 0x754e6132dbe74ff9,
    0x71635442a839df45, 0x2f6fb1643fbe52de, 0x961e0a42cf7a8177, 0xf3b45d83d89ef2ea,
    0xee3de4cf4a6e3e9b, 0xcd6848542c3295e7, 0xe4cee1664c78662f, 0x9947548b474c68c4,
    0x25d73777a5ed8b0b, 0x00c915b1d636b7fc, 0x21c2ba75d9b0d2da, 0x5f6b5dcf608a64a1,
    0xdcf333255ff9570c, 0x633b922418ced4ee, 0xc136dde0b004b34a, 0x58cc83b05d4b2f5a,
    0x5eb424dda28e42d2, 0x62df47369739cd98, 0xb4e0b42485e4ce17, 0x16e1f0c1f9a8d1e7,
    0x8ec3916707560ebf, 0x62ba6e2df2cc9db3, 0xcbf9f4ff77d83a16, 0x78d9d7d07d2bbcc4,
    0xef554ce1e02c41f4, 0x8d7581127eccf94d, 0xa9b53336cb3c8a05, 0x38c42c0bf45c4f91,
    0x640893cdf4488863, 0x80ec34bc575ea568, 0x39f324f5b48eaa40, 0xe9d9ed1f8eff527f,
    0x9224fc058cc5a214, 0xbaba00b04cfe7741, 0x309a9f120fcf52af, 0xa558f3ec65626212,
    0x424bec8b7adabe2f, 0x41622513a6aea433, 0xb88da2d5324ca798, 0xd287733b245528a4,
    0x9a44697e6d68aec3, 0x7b1093be2f49bb28, 0x50bbec632e3d8aad, 0x6cd90723e1ea8283,
    0x897b9e7431b02bf3, 0x219efdcb338a7047, 0x3b0311f0a27c0656, 0xdb17bf91c0db96e7,
    0x8cd4fd6b4e85a5b2, 0xfab071054ba6409d, 0x40d6fe831fa9dfd9, 0xaf358debad7d791e,
    0xeb8d0e25a65e3e58, 0xbbcbd3df14e08580, 0x0cf751f27ecdab2b, 0x2b4da14f2613d8f4,
];

/// The parameters of long-distance matching.
#[derive(Clone, Copy)]
pub struct LdmParams {
    pub hash_log: u32,
    pub bucket_size_log: u32,
    pub hash_rate_log: u32,
    pub window_log: u32,
}

impl LdmParams {
    pub open spec fn wf(&self) -> bool {
        &&& 6 <= self.hash_log <= 30
        &&& 1 <= self.bucket_size_log <= 5
        &&& self.hash_rate_log <= 31
        &&& self.window_log <= 31
    }

    /// Used with the strongest strategies, once the window is very large.
    pub fn auto(cparams: &CParams) -> (r: Option<LdmParams>)
        requires
            cparams.wf(),
        ensures
            r == if cparams.strategy.spec_num() >= 7 && cparams.window_log >= 27 {
                Some(
                    LdmParams {
                        hash_log: (cparams.window_log - 7) as u32,
                        bucket_size_log: 3,
                        hash_rate_log: 7,
                        window_log: cparams.window_log,
                    },
                )
            } else {
                None
            },
            r matches Some(p) ==> p.wf(),
    {
        if cparams.strategy.num() >= 7 && cparams.window_log >= 27 {
            let hash_log: u32 = cparams.window_log - 7;
            Some(
                LdmParams {
                    hash_log,
                    bucket_size_log: 3,
                    hash_rate_log: cparams.window_log - hash_log,
                    window_log: cparams.window_log,
                },
            )
        } else {
            None
        }
    }
}

/// A run of literals and then a match, in terms of distances alone.
#[derive(Clone, Copy)]
pub struct RawSeq {
    pub lit_length: u32,
    pub match_length: u32,
    pub offset: u32,
}

/// How many bytes these sequences cover.
pub open spec fn raws_total(seqs: Seq<RawSeq>) -> nat
    decreases seqs.len(),
{
    if seqs.len() == 0 {
        0
    } else {
        raws_total(seqs.drop_last()) + seqs.last().lit_length as nat + seqs.last().match_length as nat
    }
}

/// From position `at` on, these sequences are true of `data`: each match is a
/// run of bytes equal to those `offset` places before.
pub open spec fn raws_hold(seqs: Seq<RawSeq>, data: Seq<u8>, at: int) -> bool
    decreases seqs.len(),
{
    seqs.len() == 0 || {
        let q = seqs.last();
        let a = at + raws_total(seqs.drop_last()) + q.lit_length;
        &&& raws_hold(seqs.drop_last(), data, at)
        &&& 1 <= q.offset <= a
        &&& LDM_MIN_MATCH_LENGTH <= q.match_length
        &&& a + q.match_length <= data.len()
        &&& eq_run(data, a, q.offset as int, q.match_length as int)
    }
}

/// The fingerprint table, in buckets, and the window that goes with it.
pub struct LdmState {
    pub params: LdmParams,
    pub offsets: Vec<u32>,
    pub checksums: Vec<u32>,
    /// Where each bucket takes its next entry.
    pub bucket_offsets: Vec<u32>,
    pub window: Window,
}

impl LdmState {
    pub open spec fn view(&self) -> LdmTables {
        LdmTables {
            params: self.params,
            offsets: self.offsets@,
            checksums: self.checksums@,
            nexts: self.bucket_offsets@,
            window: self.window,
        }
    }

    pub open spec fn wf(&self) -> bool {
        &&& self.params.wf()
        &&& self.offsets@.len() == pow2(self.params.hash_log as nat)
        &&& self.checksums@.len() == self.offsets@.len()
        &&& self.bucket_offsets@.len() == pow2(
            (self.params.hash_log - self.params.bucket_size_log) as nat,
        )
        &&& forall|i: int|
            0 <= i < self.bucket_offsets@.len() ==> #[trigger] self.bucket_offsets@[i] < pow2(
                self.params.bucket_size_log as nat,
            )
    }

    pub fn new(params: LdmParams) -> (r: Self)
        requires
            params.wf(),
        ensures
            r.wf(),
            r@ == fresh_ldm(params),
    {
        proof {
            lemma_pow2_pos(params.bucket_size_log as nat);
        }
        LdmState {
            params,
            offsets: new_table(params.hash_log),
            checksums: new_table(params.hash_log),
            bucket_offsets: zero_table(params.hash_log - params.bucket_size_log),
            window: Window::new(),
        }
    }

    /// The number of entries of a bucket.
    fn bucket_entries(&self) -> (r: usize)
        requires
            self.wf(),
        ensures
            r == pow2(self.params.bucket_size_log as nat),
            1 <= r <= 32,
    {
        proof {
            lemma2_to64();
            if self.params.bucket_size_log < 5 {
                lemma_pow2_strictly_increases(self.params.bucket_size_log as nat, 5);
            }
            lemma_pow2_pos(self.params.bucket_size_log as nat);
        }
        pow2_u64(self.params.bucket_size_log) as usize
    }

    /// The first entry of the bucket of `hash`.
    fn bucket_of(&self, hash: u32) -> (r: usize)
        requires
            self.wf(),
            hash < self.bucket_offsets@.len(),
        ensures
            r + pow2(self.params.bucket_size_log as nat) <= self.offsets@.len(),
            r == hash * self@.bucket_size(),
    {
        let n: usize = self.offsets.len();
        let w: usize = self.bucket_entries();
        proof {
            let q = self.bucket_offsets@.len() as int;
            lemma_pow2_adds(
                (self.params.hash_log - self.params.bucket_size_log) as nat,
                self.params.bucket_size_log as nat,
            );
            assert(hash * w + w <= q * w) by (nonlinear_arith)
                requires
                    hash + 1 <= q,
                    w >= 0,
            ;
        }
        hash as usize * w
    }

    /// Puts an entry into its bucket, in place of the oldest.
    fn insert_entry(&mut self, hash: u32, offset: u32, checksum: u32)
        requires
            old(self).wf(),
            hash < old(self).bucket_offsets@.len(),
        ensures
            final(self).wf(),
            final(self)@ == old(self)@.inserted(hash as int, offset, checksum),
            final(self).params == old(self).params,
            final(self).window == old(self).window,
    {
        let n: usize = self.offsets.len();
        let base: usize = self.bucket_of(hash);
        let w: usize = self.bucket_entries();
        let slot: u32 = self.bucket_offsets[hash as usize];
        self.offsets.set(base + slot as usize, offset);
        self.checksums.set(base + slot as usize, checksum);
        self.bucket_offsets.set(hash as usize, (slot + 1) % (w as u32));
    }
}

/// A table of `2^log` zeros.
fn zero_table(log: u32) -> (r: Vec<u32>)
    requires
        log <= 31,
    ensures
        r@ == Seq::new(pow2(log as nat), |i: int| 0u32),
{
    proof {
        lemma2_to64();
        if log < 31 {
            lemma_pow2_strictly_increases(log as nat, 31);
        }
    }
    let n: usize = pow2_u64(log) as usize;
    let mut v: Vec<u32> = Vec::new();
    v.resize(n, 0);
    assert(v@ =~= Seq::new(pow2(log as nat), |i: int| 0u32));
    v
}

/// Feeds the bytes of `data[at .. end]` to the rolling hash, up to a batch of
/// splits. Gives the hash, how many bytes were taken, and after how many of
/// them each split comes.
fn gear_feed(rolling: u64, hash_rate_log: u32, data: &[u8], at: usize, end: usize) -> (r: (
    u64,
    usize,
    Vec<usize>,
))
    requires
        at < end <= data@.len(),
        hash_rate_log <= 31,
    ensures
        1 <= r.1 <= end - at,
        r.2@.len() <= LDM_BATCH_SIZE,
        forall|i: int| 0 <= i < r.2@.len() ==> 1 <= #[trigger] r.2@[i] <= r.1,
        (GearRun { hash: r.0, taken: r.1 as nat, splits: r.2@ }) == gear_fed(
            data@,
            at as int,
            end as int,
            hash_rate_log,
            GearRun { hash: rolling, taken: 0, splits: Seq::empty() },
        ),
{
    let mut hash: u64 = rolling;
    let mut n: usize = 0;
    let mut splits: Vec<usize> = Vec::new();
    let ghost all = gear_fed(
        data@,
        at as int,
        end as int,
        hash_rate_log,
        GearRun { hash, taken: 0, splits: splits@ },
    );
    while n < end - at && splits.len() < LDM_BATCH_SIZE
        invariant
            at < end <= data@.len(),
            hash_rate_log <= 31,
            n <= end - at,
            n == 0 ==> splits@.len() == 0,
            splits@.len() <= LDM_BATCH_SIZE,
            forall|i: int| 0 <= i < splits@.len() ==> 1 <= #[trigger] splits@[i] <= n,
            all == gear_fed(
                data@,
                at as int,
                end as int,
                hash_rate_log,
                GearRun { hash, taken: n as nat, splits: splits@ },
            ),
        decreases end - at - n,
    {
        proof {
            reveal_with_fuel(gear_fed, 1);
        }
        hash = hash.wrapping_mul(2).wrapping_add(GEAR_TAB[data[at + n] as usize]);
        n = n + 1;
        // The top bits decide.
        if hash_rate_log == 0 || shr(hash, 64 - hash_rate_log) == 0 {
            splits.push(n);
        }
    }
    proof {
        reveal_with_fuel(gear_fed, 1);
    }
    (hash, n, splits)
}

/// The longest match of a split: its length before and after the split, and
/// its source.
pub struct LdmMatch {
    pub back: usize,
    pub forward: usize,
    pub source: usize,
}

impl LdmMatch {
    pub open spec fn view(&self) -> LdmHit {
        LdmHit { back: self.back as nat, forward: self.forward as nat, source: self.source as int }
    }
}

pub open spec fn hit_view(m: Option<LdmMatch>) -> Option<LdmHit> {
    match m {
        Some(x) => Some(x@),
        None => None,
    }
}

/// The best entry of the bucket for the bytes at `split`.
#[verifier::rlimit(30)]
fn best_entry(
    state: &LdmState,
    data: &[u8],
    split: usize,
    end: usize,
    anchor: usize,
    hash: u32,
    checksum: u32,
) -> (r: Option<LdmMatch>)
    requires
        state.wf(),
        hash < state.bucket_offsets@.len(),
        anchor <= split <= end <= data@.len(),
    ensures
        r matches Some(m) ==> {
            &&& m.source < split
            &&& m.back <= split - anchor
            &&& m.back <= m.source
            &&& LDM_MIN_MATCH_LENGTH <= m.forward <= end - split
            &&& eq_run(data@, split - m.back, split - m.source, m.back + m.forward)
        },
        hit_view(r) == bucket_best(
            state@,
            data@,
            split as int,
            end as int,
            anchor as int,
            hash * state@.bucket_size(),
            checksum,
            0,
            None,
        ),
{
    let bias: u32 = state.window.seg_bias;
    let lowest: u32 = if state.window.has_ext_dict() {
        state.window.low_limit
    } else {
        state.window.dict_limit
    };
    let low: usize = to_pos(lowest, bias);
    let n: usize = state.offsets.len();
    let base: usize = state.bucket_of(hash);
    let w: usize = state.bucket_entries();
    let mut best: Option<LdmMatch> = None;
    let mut best_len: usize = 0;
    let ghost all = bucket_best(
        state@,
        data@,
        split as int,
        end as int,
        anchor as int,
        base as int,
        checksum,
        0,
        None,
    );
    let mut i: usize = 0;
    while i < w
        invariant
            state.wf(),
            anchor <= split <= end <= data@.len(),
            base + w <= n,
            n == state.offsets@.len(),
            best matches Some(m) ==> {
                &&& m.source < split
                &&& m.back <= split - anchor
                &&& m.back <= m.source
                &&& LDM_MIN_MATCH_LENGTH <= m.forward <= end - split
                &&& eq_run(data@, split - m.back, split - m.source, m.back + m.forward)
                &&& best_len == m.back + m.forward
            },
            best is None ==> best_len == 0,
            i <= w,
            w == state@.bucket_size(),
            bias == state.window.seg_bias,
            lowest == state@.lowest(),
            low == crate::parser::pos_of(lowest, bias),
            all == bucket_best(
                state@,
                data@,
                split as int,
                end as int,
                anchor as int,
                base as int,
                checksum,
                i as int,
                hit_view(best),
            ),
        decreases w - i,
    {
        proof {
            reveal_with_fuel(bucket_best, 1);
        }
        let offset: u32 = state.offsets[base + i];
        let m: usize = to_pos(offset, bias);
        if state.checksums[base + i] == checksum && offset > lowest && m < split {
            let forward: usize = count_eq(data, split, m, end);
            if forward >= LDM_MIN_MATCH_LENGTH {
                let back: usize = extend_back(data, split, m, anchor, low);
                if back + forward > best_len {
                    proof {
                        lemma_join_runs(
                            data@,
                            split - back,
                            split - m,
                            back as int,
                            forward as int,
                        );
                    }
                    best_len = back + forward;
                    best = Some(LdmMatch { back, forward, source: m });
                }
            }
        }
        i = i + 1;
    }
    proof {
        reveal_with_fuel(bucket_best, 1);
    }
    best
}

/// The sequences so far, and where the literals of the next one start.
pub open spec fn covered(seqs: Seq<RawSeq>, data: Seq<u8>, start: int, upto: int) -> bool {
    &&& raws_hold(seqs, data, start)
    &&& start + raws_total(seqs) == upto
    &&& LDM_MIN_MATCH_LENGTH * seqs.len() <= upto - start
}

/// How far a chunk has been searched.
pub open spec fn progress(state: &LdmState, seqs: &Vec<RawSeq>, lits: usize, anchor: usize, fits: bool) -> LdmProgress {
    LdmProgress { tables: state@, seqs: seqs@, lits: lits as int, anchor: anchor as int, fits }
}

/// Where searching a chunk leads.
pub open spec fn ldm_whole(
    state: &LdmState,
    seqs: &Vec<RawSeq>,
    lits: usize,
    data: Seq<u8>,
    chunk_start: usize,
    end: usize,
    capacity: usize,
) -> LdmProgress {
    chunk_searched(
        data,
        chunk_start + 64,
        end as int,
        0xFFFF_FFFF,
        capacity as nat,
        progress(state, seqs, lits, chunk_start, true),
    )
}

/// Looks for a match at `split`, stores it, and enters the split. Fails if
/// there is no room for the match.
fn handle_split(
    state: &mut LdmState,
    seqs: &mut Vec<RawSeq>,
    capacity: usize,
    data: &[u8],
    start: usize,
    split: usize,
    end: usize,
    lit_from: &mut usize,
    anchor: &mut usize,
) -> (r: bool)
    requires
        old(state).wf(),
        covered(old(seqs)@, data@, start as int, *old(lit_from) as int),
        start <= *old(lit_from) <= *old(anchor) <= end <= data@.len() <= u32::MAX,
        split + LDM_MIN_MATCH_LENGTH <= end,
    ensures
        final(state).wf(),
        final(state).params == old(state).params,
        final(state).window == old(state).window,
        progress(final(state), final(seqs), *final(lit_from), *final(anchor), r) == split_handled(
            data@,
            split as int,
            end as int,
            capacity as nat,
            progress(old(state), old(seqs), *old(lit_from), *old(anchor), true),
        ),
        covered(final(seqs)@, data@, start as int, *final(lit_from) as int),
        *old(lit_from) <= *final(lit_from) <= *final(anchor) <= end,
        *old(anchor) <= *final(anchor),
        old(seqs)@.len() <= capacity ==> final(seqs)@.len() <= capacity,
        !r ==> old(seqs)@.len() == capacity && end - start >= LDM_MIN_MATCH_LENGTH * (capacity + 1),
{
    let h_bits: u32 = state.params.hash_log - state.params.bucket_size_log;
    let x: u64 = xxh64(slice_subrange(data, split, split + LDM_MIN_MATCH_LENGTH), 0);
    proof {
        reveal(split_handled);
        lemma2_to64();
        if h_bits < 32 {
            lemma_pow2_strictly_increases(h_bits as nat, 32);
        }
    }
    let hash: u32 = low_bits(x, h_bits) as u32;
    let checksum: u32 = (x / 0x1_0000_0000) as u32;
    let index: u32 = to_index(split, state.window.seg_bias);
    if split >= *anchor {
        if let Some(m) = best_entry(state, data, split, end, *anchor, hash, checksum) {
            if seqs.len() == capacity {
                return false;
            }
            let from: usize = split - m.back;
            let q = RawSeq {
                lit_length: (from - *lit_from) as u32,
                match_length: (m.back + m.forward) as u32,
                offset: (split - m.source) as u32,
            };
            let ghost before = seqs@;
            seqs.push(q);
            proof {
                assert(seqs@.drop_last() =~= before);
            }
            *anchor = split + m.forward;
            *lit_from = *anchor;
        }
    }
    state.insert_entry(hash, index, checksum);
    true
}

/// Appends the sequences of the chunk `data[chunk_start .. end]` to those from
/// `start` on. Gives where the literals of the next sequence start.
#[verifier::rlimit(30)]
fn generate_sequences_internal(
    state: &mut LdmState,
    seqs: &mut Vec<RawSeq>,
    capacity: usize,
    data: &[u8],
    start: usize,
    chunk_start: usize,
    end: usize,
    lits: usize,
) -> (r: Result<usize, Error>)
    requires
        old(state).wf(),
        covered(old(seqs)@, data@, start as int, lits as int),
        start <= lits <= chunk_start <= end <= data@.len() <= u32::MAX,
    ensures
        final(state).wf(),
        final(state).params == old(state).params,
        final(state).window == old(state).window,
        match r {
            Ok(upto) => covered(final(seqs)@, data@, start as int, upto as int) && upto <= end,
            Err(e) => (end - start >= LDM_MIN_MATCH_LENGTH * (capacity + 1) || old(seqs)@.len()
                > capacity) && e == Error::Encode("LDM sequence storage exhausted"),
        },
        old(seqs)@.len() <= capacity ==> final(seqs)@.len() <= capacity,
        ({
            let p = ldm_chunk(
                data@,
                chunk_start as int,
                end as int,
                capacity as nat,
                LdmProgress {
                    tables: old(state)@,
                    seqs: old(seqs)@,
                    lits: lits as int,
                    anchor: start as int,
                    fits: true,
                },
            );
            &&& p.tables == final(state)@
            &&& p.seqs == final(seqs)@
            &&& p.fits <==> r is Ok
            &&& r matches Ok(upto) ==> p.lits == upto
            &&& p.anchor == start
        }),
{
    let mut lit_from: usize = lits;
    if end - chunk_start < LDM_MIN_MATCH_LENGTH {
        return Ok(lit_from);
    }
    let ghost entry = *state;
    let ilimit: usize = end - HASH_READ_SIZE;
    let mut anchor: usize = chunk_start;
    let mut rolling: u64 = 0xFFFF_FFFF;
    let mut ip: usize = chunk_start + LDM_MIN_MATCH_LENGTH;
    let ghost all = chunk_searched(
        data@,
        ip as int,
        end as int,
        rolling,
        capacity as nat,
        progress(state, seqs, lit_from, anchor, true),
    );
    while ip < ilimit
        invariant
            state.wf(),
            state.params == entry.params,
            state.window == entry.window,
            entry == *old(state),
            covered(seqs@, data@, start as int, lit_from as int),
            old(seqs)@.len() <= capacity ==> seqs@.len() <= capacity,
            start <= lit_from <= anchor <= end,
            start <= chunk_start <= anchor,
            chunk_start + LDM_MIN_MATCH_LENGTH <= ip,
            ilimit == end - 8,
            end <= data@.len() <= u32::MAX,
            all == chunk_searched(
                data@,
                ip as int,
                end as int,
                rolling,
                capacity as nat,
                progress(state, seqs, lit_from, anchor, true),
            ),
            all == ldm_whole(old(state), old(seqs), lits, data@, chunk_start, end, capacity),
        decreases end - ip,
    {
        proof {
            reveal_with_fuel(chunk_searched, 2);
        }
        let (hash_after, hashed, splits) = gear_feed(
            rolling,
            state.params.hash_rate_log,
            data,
            ip,
            ilimit,
        );
        rolling = hash_after;
        let mut k: usize = 0;
        let mut go: bool = true;
        let ghost part = splits_handled(
            data@,
            ip as int,
            ip + hashed,
            end as int,
            splits@,
            0,
            capacity as nat,
            progress(state, seqs, lit_from, anchor, true),
        );
        while k < splits.len() && go
            invariant
                state.wf(),
                state.params == entry.params,
                state.window == entry.window,
                entry == *old(state),
                covered(seqs@, data@, start as int, lit_from as int),
                old(seqs)@.len() <= capacity ==> seqs@.len() <= capacity,
                start <= lit_from <= anchor <= end,
                start <= chunk_start <= anchor,
                chunk_start + LDM_MIN_MATCH_LENGTH <= ip,
                ip + hashed <= ilimit,
                ilimit == end - 8,
                end <= data@.len() <= u32::MAX,
                k <= splits@.len(),
                forall|i: int| 0 <= i < splits@.len() ==> 1 <= #[trigger] splits@[i] <= hashed,
                go ==> part == splits_handled(
                    data@,
                    ip as int,
                    ip + hashed,
                    end as int,
                    splits@,
                    k as nat,
                    capacity as nat,
                    progress(state, seqs, lit_from, anchor, true),
                ),
                !go ==> part == progress(state, seqs, lit_from, anchor, true),
                !part.fits ==> all == part,
                all == ldm_whole(old(state), old(seqs), lits, data@, chunk_start, end, capacity),
            decreases splits@.len() - k,
        {
            proof {
                reveal_with_fuel(splits_handled, 1);
            }
            let split: usize = ip + splits[k] - LDM_MIN_MATCH_LENGTH;
            if !handle_split(
                state,
                seqs,
                capacity,
                data,
                start,
                split,
                end,
                &mut lit_from,
                &mut anchor,
            ) {
                return Err(Error::Encode("LDM sequence storage exhausted"));
            }
            if anchor > ip + hashed {
                go = false;
            }
            k = k + 1;
        }
        proof {
            reveal_with_fuel(splits_handled, 1);
        }
        ip = if anchor > ip + hashed {
            anchor
        } else {
            ip + hashed
        };
    }
    proof {
        reveal_with_fuel(chunk_searched, 1);
    }
    Ok(lit_from)
}

/// The sequences of the block `data[start .. end]`.
#[verifier::rlimit(30)]
fn generate_in(
    state: &mut LdmState,
    capacity: usize,
    data: &[u8],
    start: usize,
    end: usize,
) -> (r: Result<Vec<RawSeq>, Error>)
    requires
        old(state).wf(),
        start <= end <= data@.len() <= u32::MAX,
    ensures
        final(state).wf(),
        final(state).params == old(state).params,
        match r {
            Ok(seqs) => {
                &&& raws_hold(seqs@, data@, start as int)
                &&& start + raws_total(seqs@) <= end
                &&& seqs@.len() <= capacity
            },
            Err(_) => end - start >= LDM_MIN_MATCH_LENGTH * (capacity + 1),
        },
        ({
            let (tables, seqs) = ldm_generated_in(
                old(state)@,
                capacity as nat,
                data@,
                start as int,
                end as int,
            );
            &&& final(state)@ == tables
            &&& match r {
                Ok(q) => seqs == Some(q@),
                Err(e) => seqs is None && e == Error::Encode("LDM sequence storage exhausted"),
            }
        }),
{
    proof {
        lemma2_to64();
        if state.params.window_log < 31 {
            lemma_pow2_strictly_increases(state.params.window_log as nat, 31);
        }
    }
    let max_dist: u32 = pow2_u64(state.params.window_log) as u32;
    let mut seqs: Vec<RawSeq> = Vec::new();
    let mut at: usize = start;
    let mut lits: usize = start;
    proof {
        reveal(ldm_generated_in);
    }
    let ghost all = ldm_chunks(
        data@,
        start as int,
        end as int,
        capacity as nat,
        progress(state, &seqs, lits, start, true),
    );
    while at < end && seqs.len() < capacity
        invariant
            state.wf(),
            state.params == old(state).params,
            covered(seqs@, data@, start as int, lits as int),
            seqs@.len() <= capacity,
            start <= lits <= at <= end <= data@.len() <= u32::MAX,
            max_dist == pow2(state.params.window_log as nat),
            all == ldm_chunks(
                data@,
                at as int,
                end as int,
                capacity as nat,
                progress(state, &seqs, lits, start, true),
            ),
            (all.tables, if all.fits {
                Some(all.seqs)
            } else {
                None
            }) == ldm_generated_in(
                old(state)@,
                capacity as nat,
                data@,
                start as int,
                end as int,
            ),
        decreases end - at,
    {
        proof {
            reveal_with_fuel(ldm_chunks, 1);
        }
        let sub_end: usize = if end - at < K_MAX_CHUNK_SIZE {
            end
        } else {
            at + K_MAX_CHUNK_SIZE
        };
        let idx: u32 = to_index(sub_end, state.window.seg_bias);
        state.window.enforce_max_dist(idx, max_dist);
        match generate_sequences_internal(
            state,
            &mut seqs,
            capacity,
            data,
            start,
            at,
            sub_end,
            lits,
        ) {
            Ok(upto) => {
                lits = upto;
            },
            Err(e) => {
                return Err(e);
            },
        }
        at = sub_end;
    }
    proof {
        reveal_with_fuel(ldm_chunks, 1);
    }
    Ok(seqs)
}

/// Looks for the long-distance matches of the block `data[start .. end]`, at
/// most `capacity` of them, in the history that the window shows. More of them
/// are an error.
pub fn generate_sequences(
    state: &mut LdmState,
    capacity: usize,
    data: &[u8],
    start: usize,
    end: usize,
) -> (r: Result<Vec<RawSeq>, Error>)
    requires
        old(state).wf(),
        start <= end <= data@.len() <= u32::MAX,
    ensures
        final(state).wf(),
        final(state).params == old(state).params,
        match r {
            Ok(seqs) => {
                &&& raws_total(seqs@) <= end - start
                &&& seqs@.len() <= capacity
            },
            Err(_) => end - start >= LDM_MIN_MATCH_LENGTH * (capacity + 1),
        },
        ({
            let (tables, seqs) = ldm_generated(
                old(state)@,
                capacity as nat,
                data@,
                start as int,
                end as int,
            );
            &&& final(state)@ == tables
            &&& match r {
                Ok(q) => seqs == Some(q@),
                Err(e) => seqs is None && e == Error::Encode("LDM sequence storage exhausted"),
            }
        }),
{
    proof {
        reveal(ldm_generated);
    }
    let before: Window = state.window;
    if !before.can_hold(data.len(), start, end) {
        return generate_in(state, capacity, data, start, end);
    }
    let ghost laid = before.shown(data@, start as nat) + data@.subrange(start as int, end as int);
    state.window = Window { seg_bias: before.low_limit, dict_bias: before.low_limit, ..before };
    proof {
        lemma_shown_parts(before, data@, start as nat);
    }
    let r = if before.is_one_run() {
        let base: usize = before.run_start(data, start);
        let run = slice_subrange(data, base, end);
        assert(run@ =~= laid);
        generate_in(state, capacity, run, start - base, end - base)
    } else {
        let joined: Vec<u8> = before.join(data, start, end);
        let len: usize = joined.len();
        generate_in(state, capacity, joined.as_slice(), len - (end - start), len)
    };
    state.window.seg_bias = before.seg_bias;
    state.window.dict_bias = before.dict_bias;
    r
}

} // verus!
