//! Compressed-block decoding: the literals section, the sequences section,
//! and sequence execution.

use crate::{fse, huffman};
use crate::bits::{payload_bits, rev_open_error, rev_peek, ReverseBitReader};
use crate::error::Error;
use crate::fse::{
    abs16, rle_view, spec_dtable, spec_read_ncount, sum_abs, valid_counts, FseState, FseTable, FseTableView,
};
use crate::huffman::{spec_decode_four, spec_decode_stream, spec_read_table, HuffmanTable, HuffmanTableView};
use crate::math::pow2_u64;
use vstd::arithmetic::power2::{lemma2_to64, lemma_pow2_pos, lemma_pow2_strictly_increases, pow2};
use vstd::prelude::*;
use vstd::slice::slice_subrange;

verus! {

/// The largest number of bytes that one block regenerates.
pub const BLOCK_SIZE_MAX: usize = 131072;

// ---------------------------------------------------------------------------
// Sequence codes: each code stands for a base value plus extra bits.

pub const LL_BITS: [u32; 36] = [
    0, 0, 0, 0, 0, 0, 0, 0, 0, 0, 0, 0, 0, 0, 0, 0, 1, 1, 1, 1, 2, 2, 3, 3, 4, 6, 7, 8, 9, 10, 11, 12, 13,
    14, 15, 16,
];

pub const LL_BASE: [u32; 36] = [
    0, 1, 2, 3, 4, 5, 6, 7, 8, 9, 10, 11, 12, 13, 14, 15, 16, 18, 20, 22, 24, 28, 32, 40, 48, 64, 0x80,
    0x100, 0x200, 0x400, 0x800, 0x1000, 0x2000, 0x4000, 0x8000, 0x10000,
];

pub const ML_BITS: [u32; 53] = [
    0, 0, 0, 0, 0, 0, 0, 0, 0, 0, 0, 0, 0, 0, 0, 0, 0, 0, 0, 0, 0, 0, 0, 0, 0, 0, 0, 0, 0, 0, 0, 0, 1, 1,
    1, 1, 2, 2, 3, 3, 4, 4, 5, 7, 8, 9, 10, 11, 12, 13, 14, 15, 16,
];

pub const ML_BASE: [u32; 53] = [
    3, 4, 5, 6, 7, 8, 9, 10, 11, 12, 13, 14, 15, 16, 17, 18, 19, 20, 21, 22, 23, 24, 25, 26, 27, 28, 29,
    30, 31, 32, 33, 34, 35, 37, 39, 41, 43, 47, 51, 59, 67, 83, 99, 0x83, 0x103, 0x203, 0x403, 0x803,
    0x1003, 0x2003, 0x4003, 0x8003, 0x10003,
];

pub const LL_DEFAULT_NORM: [i16; 36] = [
    4, 3, 2, 2, 2, 2, 2, 2, 2, 2, 2, 2, 2, 1, 1, 1, 2, 2, 2, 2, 2, 2, 2, 2, 2, 3, 2, 1, 1, 1, 1, 1, -1,
    -1, -1, -1,
];

pub const LL_DEFAULT_LOG: u32 = 6;

pub const ML_DEFAULT_NORM: [i16; 53] = [
    1, 4, 3, 2, 2, 2, 2, 2, 2, 1, 1, 1, 1, 1, 1, 1, 1, 1, 1, 1, 1, 1, 1, 1, 1, 1, 1, 1, 1, 1, 1, 1, 1, 1,
    1, 1, 1, 1, 1, 1, 1, 1, 1, 1, 1, 1, -1, -1, -1, -1, -1, -1, -1,
];

pub const ML_DEFAULT_LOG: u32 = 6;

pub const OF_DEFAULT_NORM: [i16; 29] = [
    1, 1, 1, 1, 1, 1, 2, 2, 2, 1, 1, 1, 1, 1, 1, 1, 1, 1, 1, 1, 1, 1, 1, 1, -1, -1, -1, -1, -1,
];

pub const OF_DEFAULT_LOG: u32 = 5;

/// The three components of a sequence.
#[derive(Clone, Copy)]
pub enum SeqKind {
    LiteralLength,
    Offset,
    MatchLength,
}

impl SeqKind {
    /// Largest valid code.
    pub open spec fn spec_max_symbol(self) -> nat {
        match self {
            SeqKind::LiteralLength => 35,
            SeqKind::Offset => 31,
            SeqKind::MatchLength => 52,
        }
    }

    /// Largest valid table log.
    pub open spec fn spec_max_log(self) -> nat {
        match self {
            SeqKind::LiteralLength => 9,
            SeqKind::Offset => 8,
            SeqKind::MatchLength => 9,
        }
    }

    /// Counts of the predefined table.
    pub open spec fn default_counts(self) -> Seq<i16> {
        match self {
            SeqKind::LiteralLength => LL_DEFAULT_NORM@,
            SeqKind::Offset => OF_DEFAULT_NORM@,
            SeqKind::MatchLength => ML_DEFAULT_NORM@,
        }
    }

    /// Log of the predefined table.
    pub open spec fn default_log(self) -> nat {
        match self {
            SeqKind::LiteralLength => 6,
            SeqKind::Offset => 5,
            SeqKind::MatchLength => 6,
        }
    }

    pub fn max_symbol(self) -> (r: u32)
        ensures
            r == self.spec_max_symbol(),
    {
        match self {
            SeqKind::LiteralLength => 35,
            SeqKind::Offset => 31,
            SeqKind::MatchLength => 52,
        }
    }

    pub fn max_log(self) -> (r: u32)
        ensures
            r == self.spec_max_log(),
    {
        match self {
            SeqKind::LiteralLength => 9,
            SeqKind::Offset => 8,
            SeqKind::MatchLength => 9,
        }
    }

    /// Builds the predefined decoding table.
    pub fn default_table(self) -> (r: FseTable)
        ensures
            r@ == spec_dtable(self.default_counts(), self.default_log()),
            r@.wf(),
            r@.bounded(self.spec_max_symbol()),
    {
        proof {
            lemma_default_counts(self);
            fse::lemma_dtable_wf(self.default_counts(), self.default_log(), self.spec_max_symbol());
        }
        let built = match self {
            SeqKind::LiteralLength => fse::build_dtable(&LL_DEFAULT_NORM, LL_DEFAULT_LOG),
            SeqKind::Offset => fse::build_dtable(&OF_DEFAULT_NORM, OF_DEFAULT_LOG),
            SeqKind::MatchLength => fse::build_dtable(&ML_DEFAULT_NORM, ML_DEFAULT_LOG),
        };
        match built {
            Ok(t) => t,
            Err(_) => FseTable::rle(0),
        }
    }
}

/// States taken by the first `k` counts.
pub open spec fn prefix_abs(counts: Seq<i16>, k: nat) -> nat
    decreases k,
{
    if k == 0 {
        0
    } else {
        prefix_abs(counts, (k - 1) as nat) + abs16(counts[k - 1])
    }
}

pub proof fn lemma_prefix_abs(counts: Seq<i16>, k: nat)
    requires
        k <= counts.len(),
    ensures
        prefix_abs(counts, k) == sum_abs(counts.take(k as int)),
    decreases k,
{
    if k == 0 {
        assert(counts.take(0) =~= Seq::<i16>::empty());
    } else {
        lemma_prefix_abs(counts, (k - 1) as nat);
        assert(counts.take(k as int).drop_last() =~= counts.take(k - 1));
    }
}

proof fn lemma_ll_default()
    ensures
        valid_counts(LL_DEFAULT_NORM@, 6),
{
    let c = LL_DEFAULT_NORM@;
    lemma2_to64();
    lemma_prefix_abs(c, 36);
    assert(c.take(36) =~= c);
    assert(prefix_abs(c, 36) == 64) by {
        reveal_with_fuel(prefix_abs, 37);
    }
}

proof fn lemma_of_default()
    ensures
        valid_counts(OF_DEFAULT_NORM@, 5),
{
    let c = OF_DEFAULT_NORM@;
    lemma2_to64();
    lemma_prefix_abs(c, 29);
    assert(c.take(29) =~= c);
    assert(prefix_abs(c, 29) == 32) by {
        reveal_with_fuel(prefix_abs, 30);
    }
}

proof fn lemma_ml_default()
    ensures
        valid_counts(ML_DEFAULT_NORM@, 6),
{
    let c = ML_DEFAULT_NORM@;
    lemma2_to64();
    lemma_prefix_abs(c, 53);
    assert(c.take(53) =~= c);
    assert(prefix_abs(c, 53) == 64) by {
        reveal_with_fuel(prefix_abs, 54);
    }
}

/// The predefined counts fill their tables.
pub proof fn lemma_default_counts(k: SeqKind)
    ensures
        valid_counts(k.default_counts(), k.default_log()),
        k.default_counts().len() <= k.spec_max_symbol() + 1,
{
    lemma_ll_default();
    lemma_of_default();
    lemma_ml_default();
}

// ---------------------------------------------------------------------------
// Frame context.

/// The three most recent offsets, newest first.
pub struct RepView {
    pub r0: nat,
    pub r1: nat,
    pub r2: nat,
}

impl RepView {
    /// Offsets are positive and fit in 32 bits.
    pub open spec fn wf(self) -> bool {
        &&& 1 <= self.r0 <= u32::MAX
        &&& 1 <= self.r1 <= u32::MAX
        &&& 1 <= self.r2 <= u32::MAX
    }
}

pub open spec fn rep_view(rep: [u64; 3]) -> RepView {
    RepView { r0: rep[0] as nat, r1: rep[1] as nat, r2: rep[2] as nat }
}

/// Entropy state that persists across the blocks of one frame.
pub struct FrameContext {
    pub huffman: Option<HuffmanTable>,
    pub ll: Option<FseTable>,
    pub of: Option<FseTable>,
    pub ml: Option<FseTable>,
    pub rep: [u64; 3],
}

/// The mathematical content of a [`FrameContext`].
pub struct CtxView {
    pub huffman: Option<HuffmanTableView>,
    pub ll: Option<FseTableView>,
    pub of: Option<FseTableView>,
    pub ml: Option<FseTableView>,
    pub rep: RepView,
}

pub open spec fn seq_table_wf(t: Option<FseTableView>, kind: SeqKind) -> bool {
    t matches Some(x) ==> x.wf() && x.bounded(kind.spec_max_symbol())
}

impl CtxView {
    pub open spec fn wf(self) -> bool {
        &&& self.huffman matches Some(h) ==> h.wf()
        &&& seq_table_wf(self.ll, SeqKind::LiteralLength)
        &&& seq_table_wf(self.of, SeqKind::Offset)
        &&& seq_table_wf(self.ml, SeqKind::MatchLength)
        &&& self.rep.wf()
    }
}

impl View for FrameContext {
    type V = CtxView;

    open spec fn view(&self) -> CtxView {
        CtxView {
            huffman: huffman::opt_view(self.huffman),
            ll: fse::opt_view(self.ll),
            of: fse::opt_view(self.of),
            ml: fse::opt_view(self.ml),
            rep: rep_view(self.rep),
        }
    }
}

/// The context at the start of a frame without a dictionary.
pub open spec fn fresh_ctx() -> CtxView {
    CtxView {
        huffman: None,
        ll: None,
        of: None,
        ml: None,
        rep: RepView { r0: 1, r1: 4, r2: 8 },
    }
}

impl FrameContext {
    pub fn new() -> (r: Self)
        ensures
            r@ == fresh_ctx(),
            r@.wf(),
    {
        FrameContext { huffman: None, ll: None, of: None, ml: None, rep: [1, 4, 8] }
    }

    /// A copy of the context.
    pub fn duplicate(&self) -> (r: Self)
        ensures
            r@ == self@,
    {
        FrameContext {
            huffman: match &self.huffman {
                Some(t) => Some(t.duplicate()),
                None => None,
            },
            ll: copy_table(&self.ll),
            of: copy_table(&self.of),
            ml: copy_table(&self.ml),
            rep: self.rep,
        }
    }
}

pub fn copy_table(t: &Option<FseTable>) -> (r: Option<FseTable>)
    ensures
        fse::opt_view(r) == fse::opt_view(*t),
{
    match t {
        Some(x) => Some(x.duplicate()),
        None => None,
    }
}

// ---------------------------------------------------------------------------
// Literals.

/// The fields of a literals-section header.
pub struct LitHeader {
    /// 0 raw, 1 one repeated byte, 2 Huffman-coded, 3 Huffman-coded with the
    /// previous table.
    pub lit_type: nat,
    pub four_streams: bool,
    pub regenerated: nat,
    pub compressed: nat,
    pub len: nat,
}

/// The literals header at the start of a block.
pub open spec fn lit_header(src: Seq<u8>) -> Result<LitHeader, Error> {
    let trunc = Error::Corrupted("literals section truncated");
    if src.len() == 0 {
        Err(Error::Corrupted("missing literals header"))
    } else {
        let b0 = src[0] as nat;
        let ty = b0 % 4;
        let format = (b0 / 4) % 4;
        if ty <= 1 {
            if format == 0 || format == 2 {
                Ok(
                    LitHeader {
                        lit_type: ty,
                        four_streams: false,
                        regenerated: b0 / 8,
                        compressed: 0,
                        len: 1,
                    },
                )
            } else if format == 1 {
                if src.len() < 2 {
                    Err(trunc)
                } else {
                    Ok(
                        LitHeader {
                            lit_type: ty,
                            four_streams: false,
                            regenerated: b0 / 16 + 16 * (src[1] as nat),
                            compressed: 0,
                            len: 2,
                        },
                    )
                }
            } else if src.len() < 3 {
                Err(trunc)
            } else {
                Ok(
                    LitHeader {
                        lit_type: ty,
                        four_streams: false,
                        regenerated: b0 / 16 + 16 * (src[1] as nat) + 4096 * (src[2] as nat),
                        compressed: 0,
                        len: 3,
                    },
                )
            }
        } else if format <= 1 {
            if src.len() < 3 {
                Err(trunc)
            } else {
                Ok(
                    LitHeader {
                        lit_type: ty,
                        four_streams: format == 1,
                        regenerated: b0 / 16 + 16 * (src[1] as nat % 64),
                        compressed: src[1] as nat / 64 + 4 * (src[2] as nat),
                        len: 3,
                    },
                )
            }
        } else if format == 2 {
            if src.len() < 4 {
                Err(trunc)
            } else {
                Ok(
                    LitHeader {
                        lit_type: ty,
                        four_streams: true,
                        regenerated: b0 / 16 + 16 * (src[1] as nat) + 4096 * (src[2] as nat % 4),
                        compressed: src[2] as nat / 4 + 64 * (src[3] as nat),
                        len: 4,
                    },
                )
            }
        } else if src.len() < 5 {
            Err(trunc)
        } else {
            Ok(
                LitHeader {
                    lit_type: ty,
                    four_streams: true,
                    regenerated: b0 / 16 + 16 * (src[1] as nat) + 4096 * (src[2] as nat % 64),
                    compressed: src[2] as nat / 64 + 4 * (src[3] as nat) + 1024 * (src[4] as nat),
                    len: 5,
                },
            )
        }
    }
}

/// A decoded literals section: the literals, the bytes the section occupies,
/// and the Huffman table in force after it.
pub struct LitView {
    pub literals: Seq<u8>,
    pub used: nat,
    pub huffman: Option<HuffmanTableView>,
}

pub open spec fn repeat_byte(b: u8, n: nat) -> Seq<u8> {
    Seq::new(n, |i: int| b)
}

/// The literals section at the start of `src`, decoded with the previous
/// table `huf`.
pub open spec fn spec_literals(huf: Option<HuffmanTableView>, src: Seq<u8>, block_max: nat) -> Result<
    LitView,
    Error,
> {
    let trunc = Error::Corrupted("literals section truncated");
    match lit_header(src) {
        Err(e) => Err(e),
        Ok(h) => {
            if h.regenerated > block_max {
                Err(Error::Corrupted("literals exceed block size limit"))
            } else if h.lit_type == 0 {
                if src.len() < h.len + h.regenerated {
                    Err(trunc)
                } else {
                    Ok(
                        LitView {
                            literals: src.subrange(h.len as int, (h.len + h.regenerated) as int),
                            used: h.len + h.regenerated,
                            huffman: huf,
                        },
                    )
                }
            } else if h.lit_type == 1 {
                if src.len() < h.len + 1 {
                    Err(trunc)
                } else {
                    Ok(
                        LitView {
                            literals: repeat_byte(src[h.len as int], h.regenerated),
                            used: h.len + 1,
                            huffman: huf,
                        },
                    )
                }
            } else if src.len() < h.len + h.compressed {
                Err(trunc)
            } else {
                let payload = src.subrange(h.len as int, (h.len + h.compressed) as int);
                let table: Result<(Option<HuffmanTableView>, nat), Error> = if h.lit_type == 2 {
                    match spec_read_table(payload) {
                        Err(e) => Err(e),
                        Ok((t, used)) => Ok((Some(t), used)),
                    }
                } else {
                    Ok((huf, 0))
                };
                match table {
                    Err(e) => Err(e),
                    Ok((None, _)) => Err(
                        Error::Corrupted("treeless literals without a previous table"),
                    ),
                    Ok((Some(t), used)) => {
                        let streams = payload.skip(used as int);
                        let decoded = if h.four_streams {
                            spec_decode_four(t, streams, h.regenerated)
                        } else {
                            spec_decode_stream(t, streams, h.regenerated)
                        };
                        match decoded {
                            Err(e) => Err(e),
                            Ok(literals) => Ok(
                                LitView {
                                    literals,
                                    used: h.len + h.compressed,
                                    huffman: Some(t),
                                },
                            ),
                        }
                    },
                }
            }
        },
    }
}

/// Parses the literals header.
#[verifier::rlimit(30)]
fn read_lit_header(src: &[u8]) -> (r: Result<(u8, bool, usize, usize, usize), Error>)
    ensures
        match r {
            Ok((ty, four, regen, comp, len)) => {
                &&& lit_header(src@) == Ok::<LitHeader, Error>(
                    LitHeader {
                        lit_type: ty as nat,
                        four_streams: four,
                        regenerated: regen as nat,
                        compressed: comp as nat,
                        len: len as nat,
                    },
                )
                &&& ty <= 3
                &&& len <= 5
                &&& len <= src@.len()
                &&& regen < 0x40_0000
                &&& comp < 0x40_0000
            },
            Err(e) => lit_header(src@) == Err::<LitHeader, Error>(e),
        },
{
    let trunc = Error::Corrupted("literals section truncated");
    if src.len() == 0 {
        return Err(Error::Corrupted("missing literals header"));
    }
    let b0: usize = src[0] as usize;
    let ty: u8 = src[0] % 4;
    let format: usize = (b0 / 4) % 4;
    if ty <= 1 {
        if format == 0 || format == 2 {
            Ok((ty, false, b0 / 8, 0, 1))
        } else if format == 1 {
            if src.len() < 2 {
                return Err(trunc);
            }
            Ok((ty, false, b0 / 16 + 16 * src[1] as usize, 0, 2))
        } else {
            if src.len() < 3 {
                return Err(trunc);
            }
            Ok((ty, false, b0 / 16 + 16 * src[1] as usize + 4096 * src[2] as usize, 0, 3))
        }
    } else if format <= 1 {
        if src.len() < 3 {
            return Err(trunc);
        }
        let b1: usize = src[1] as usize;
        Ok((ty, format == 1, b0 / 16 + 16 * (b1 % 64), b1 / 64 + 4 * src[2] as usize, 3))
    } else if format == 2 {
        if src.len() < 4 {
            return Err(trunc);
        }
        let b2: usize = src[2] as usize;
        Ok(
            (
                ty,
                true,
                b0 / 16 + 16 * src[1] as usize + 4096 * (b2 % 4),
                b2 / 4 + 64 * src[3] as usize,
                4,
            ),
        )
    } else {
        if src.len() < 5 {
            return Err(trunc);
        }
        let b2: usize = src[2] as usize;
        Ok(
            (
                ty,
                true,
                b0 / 16 + 16 * src[1] as usize + 4096 * (b2 % 64),
                b2 / 64 + 4 * src[3] as usize + 1024 * src[4] as usize,
                5,
            ),
        )
    }
}

/// `n` copies of `b`.
pub fn repeated(b: u8, n: usize) -> (r: Vec<u8>)
    ensures
        r@ == repeat_byte(b, n as nat),
{
    let mut v: Vec<u8> = Vec::new();
    let mut i: usize = 0;
    while i < n
        invariant
            i <= n,
            v@.len() == i,
            forall|j: int| 0 <= j < i ==> v@[j] == b,
        decreases n - i,
    {
        v.push(b);
        i = i + 1;
    }
    assert(v@ =~= repeat_byte(b, n as nat));
    v
}

/// The bytes of a slice.
pub fn to_vec(s: &[u8]) -> (r: Vec<u8>)
    ensures
        r@ == s@,
{
    vstd::slice::slice_to_vec(s)
}

/// Decodes the literals section. Returns the literals and the number of bytes
/// consumed from `src`.
#[verifier::rlimit(30)]
pub fn decode_literals(ctx: &mut FrameContext, src: &[u8], block_size_max: usize) -> (r: Result<
    (Vec<u8>, usize),
    Error,
>)
    requires
        old(ctx)@.wf(),
        src@.len() * 8 + 64 <= i64::MAX,
    ensures
        final(ctx)@.wf(),
        match r {
            Ok((literals, used)) => {
                &&& spec_literals(old(ctx)@.huffman, src@, block_size_max as nat) == Ok::<
                    LitView,
                    Error,
                >(
                    LitView {
                        literals: literals@,
                        used: used as nat,
                        huffman: final(ctx)@.huffman,
                    },
                )
                &&& final(ctx)@ == (CtxView { huffman: final(ctx)@.huffman, ..old(ctx)@ })
                &&& used <= src@.len()
                &&& literals@.len() <= block_size_max
            },
            Err(e) => {
                &&& spec_literals(old(ctx)@.huffman, src@, block_size_max as nat) == Err::<
                    LitView,
                    Error,
                >(e)
                &&& final(ctx)@ == (CtxView { huffman: final(ctx)@.huffman, ..old(ctx)@ })
            },
        },
{
    let trunc = Error::Corrupted("literals section truncated");
    let (lit_type, four_streams, regen, compressed, header) = match read_lit_header(src) {
        Ok(h) => h,
        Err(e) => {
            return Err(e);
        },
    };
    if regen > block_size_max {
        return Err(Error::Corrupted("literals exceed block size limit"));
    }
    if lit_type == 0 {
        if src.len() < header + regen {
            return Err(trunc);
        }
        return Ok((to_vec(slice_subrange(src, header, header + regen)), header + regen));
    }
    if lit_type == 1 {
        if src.len() < header + 1 {
            return Err(trunc);
        }
        return Ok((repeated(src[header], regen), header + 1));
    }
    if src.len() < header + compressed {
        return Err(trunc);
    }
    let payload = slice_subrange(src, header, header + compressed);
    let mut used: usize = 0;
    if lit_type == 2 {
        match huffman::read_table(payload) {
            Ok((table, n)) => {
                ctx.huffman = Some(table);
                used = n;
            },
            Err(e) => {
                return Err(e);
            },
        }
    }
    let streams = slice_subrange(payload, used, payload.len());
    assert(streams@ =~= payload@.skip(used as int));
    let table: &HuffmanTable = match &ctx.huffman {
        Some(t) => t,
        None => {
            return Err(Error::Corrupted("treeless literals without a previous table"));
        },
    };
    let decoded = if four_streams {
        huffman::decode_four_streams(table, streams, regen)
    } else {
        huffman::decode_single_stream(table, streams, regen)
    };
    match decoded {
        Ok(literals) => Ok((literals, header + compressed)),
        Err(e) => Err(e),
    }
}

// ---------------------------------------------------------------------------
// Sequence tables.

/// The table that one sequence component uses in a block, given its mode
/// field, and the bytes its description occupies at the start of `input`.
pub open spec fn spec_sequence_table(
    previous: Option<FseTableView>,
    mode: nat,
    input: Seq<u8>,
    kind: SeqKind,
) -> Result<(FseTableView, nat), Error> {
    if mode == 0 {
        Ok((spec_dtable(kind.default_counts(), kind.default_log()), 0))
    } else if mode == 1 {
        if input.len() == 0 {
            Err(Error::Corrupted("missing RLE sequence symbol"))
        } else if input[0] > kind.spec_max_symbol() {
            Err(Error::Corrupted("RLE sequence symbol out of range"))
        } else {
            Ok((rle_view(input[0]), 1))
        }
    } else if mode == 2 {
        match spec_read_ncount(input, kind.spec_max_symbol(), kind.spec_max_log()) {
            Err(e) => Err(e),
            Ok(nc) => Ok((spec_dtable(nc.counts, nc.log), nc.bytes)),
        }
    } else {
        match previous {
            None => Err(Error::Corrupted("repeat mode without a previous table")),
            Some(t) => Ok((t, 0)),
        }
    }
}

/// Installs the table for one sequence component; returns the bytes used.
fn build_sequence_table(slot: &mut Option<FseTable>, mode: u8, input: &[u8], kind: SeqKind) -> (r: Result<
    usize,
    Error,
>)
    requires
        seq_table_wf(fse::opt_view(*old(slot)), kind),
        mode <= 3,
    ensures
        seq_table_wf(fse::opt_view(*final(slot)), kind),
        match r {
            Ok(used) => {
                &&& *final(slot) is Some
                &&& spec_sequence_table(fse::opt_view(*old(slot)), mode as nat, input@, kind)
                    == Ok::<(FseTableView, nat), Error>(
                    (fse::opt_view(*final(slot))->Some_0, used as nat),
                )
                &&& used <= input@.len()
            },
            Err(e) => spec_sequence_table(fse::opt_view(*old(slot)), mode as nat, input@, kind)
                == Err::<(FseTableView, nat), Error>(e),
        },
{
    if mode == 0 {
        *slot = Some(kind.default_table());
        Ok(0)
    } else if mode == 1 {
        if input.len() == 0 {
            return Err(Error::Corrupted("missing RLE sequence symbol"));
        }
        let symbol: u8 = input[0];
        if symbol as u32 > kind.max_symbol() {
            return Err(Error::Corrupted("RLE sequence symbol out of range"));
        }
        let t = FseTable::rle(symbol);
        assert(t@.bounded(kind.spec_max_symbol()));
        *slot = Some(t);
        Ok(1)
    } else if mode == 2 {
        match fse::read_ncount(input, kind.max_symbol(), kind.max_log()) {
            Ok(nc) => {
                proof {
                    fse::lemma_dtable_wf(nc.counts@, nc.table_log as nat, kind.spec_max_symbol());
                }
                match fse::build_dtable(&nc.counts, nc.table_log) {
                    Ok(t) => {
                        *slot = Some(t);
                        Ok(nc.bytes_consumed)
                    },
                    Err(e) => Err(e),
                }
            },
            Err(e) => Err(e),
        }
    } else {
        if slot.is_none() {
            return Err(Error::Corrupted("repeat mode without a previous table"));
        }
        Ok(0)
    }
}

// ---------------------------------------------------------------------------
// Offsets.

/// The offset that an offset value stands for, and the history after it.
/// Values above 3 are offsets (`value - 3`); 1, 2 and 3 select recent offsets,
/// one further when the sequence has no literals, where the last choice means
/// the newest offset less one.
pub open spec fn spec_resolve(of_value: nat, lit_len: nat, rep: RepView) -> Result<
    (nat, RepView),
    Error,
> {
    if of_value > 3 {
        let o = (of_value - 3) as nat;
        Ok((o, RepView { r0: o, r1: rep.r0, r2: rep.r1 }))
    } else {
        let index = of_value + if lit_len == 0 {
            1nat
        } else {
            0nat
        };
        if index == 1 {
            Ok((rep.r0, rep))
        } else if index == 2 {
            Ok((rep.r1, RepView { r0: rep.r1, r1: rep.r0, r2: rep.r2 }))
        } else if index == 3 {
            Ok((rep.r2, RepView { r0: rep.r2, r1: rep.r0, r2: rep.r1 }))
        } else if rep.r0 == 1 {
            Err(Error::Corrupted("repeat offset underflow"))
        } else {
            let o = (rep.r0 - 1) as nat;
            Ok((o, RepView { r0: o, r1: rep.r0, r2: rep.r1 }))
        }
    }
}

/// Resolves an offset value against the repeat-offset history, updating it.
pub fn resolve_offset(of_value: u64, lit_len: u64, rep: &mut [u64; 3]) -> (r: Result<u64, Error>)
    requires
        1 <= of_value,
        old(rep)[0] >= 1,
    ensures
        match r {
            Ok(o) => spec_resolve(of_value as nat, lit_len as nat, rep_view(*old(rep))) == Ok::<
                (nat, RepView),
                Error,
            >((o as nat, rep_view(*final(rep)))),
            Err(e) => {
                &&& spec_resolve(of_value as nat, lit_len as nat, rep_view(*old(rep))) == Err::<
                    (nat, RepView),
                    Error,
                >(e)
                &&& *final(rep) == *old(rep)
            },
        },
{
    let r0: u64 = rep[0];
    let r1: u64 = rep[1];
    let r2: u64 = rep[2];
    if of_value > 3 {
        let offset: u64 = of_value - 3;
        *rep = [offset, r0, r1];
        return Ok(offset);
    }
    let index: u64 = of_value + (if lit_len == 0 {
        1u64
    } else {
        0u64
    });
    if index == 1 {
        Ok(r0)
    } else if index == 2 {
        *rep = [r1, r0, r2];
        Ok(r1)
    } else if index == 3 {
        *rep = [r2, r0, r1];
        Ok(r2)
    } else {
        if r0 == 1 {
            return Err(Error::Corrupted("repeat offset underflow"));
        }
        let offset: u64 = r0 - 1;
        *rep = [offset, r0, r1];
        Ok(offset)
    }
}

// ---------------------------------------------------------------------------
// Decoding sequences.

/// One sequence: copy `lit_len` literals, then `match_len` bytes from
/// `offset` back.
pub struct SequenceView {
    pub lit_len: nat,
    pub offset: nat,
    pub match_len: nat,
}

/// A decoded sequence.
#[derive(Clone, Copy)]
pub struct DecodedSequence {
    pub lit_len: u32,
    pub offset: u32,
    pub match_len: u32,
}

impl View for DecodedSequence {
    type V = SequenceView;

    open spec fn view(&self) -> SequenceView {
        SequenceView {
            lit_len: self.lit_len as nat,
            offset: self.offset as nat,
            match_len: self.match_len as nat,
        }
    }
}

pub open spec fn sequence_views(s: Seq<DecodedSequence>) -> Seq<SequenceView> {
    Seq::new(s.len(), |i: int| s[i]@)
}

/// The tables of the three sequence components.
pub struct SeqTables {
    pub ll: FseTableView,
    pub of: FseTableView,
    pub ml: FseTableView,
}

/// A point in the sequence bitstream: the bits left, the three states, and
/// the offset history.
pub struct SeqCursor {
    pub rem: int,
    pub ll: nat,
    pub of: nat,
    pub ml: nat,
    pub rep: RepView,
}

/// The extra bits of one sequence: offset first, then match length, then
/// literals length. Gives the offset value, the two lengths, and the bits
/// left.
pub open spec fn sequence_fields(t: SeqTables, data: Seq<u8>, c: SeqCursor) -> (nat, nat, nat, int) {
    let oc = t.of.symbol(c.of) as nat;
    let mc = t.ml.symbol(c.ml) as int;
    let lc = t.ll.symbol(c.ll) as int;
    let rem1 = c.rem - oc;
    let rem2 = rem1 - ML_BITS[mc];
    let rem3 = rem2 - LL_BITS[lc];
    (
        pow2(oc) + rev_peek(data, c.rem, oc),
        ML_BASE[mc] as nat + rev_peek(data, rem1, ML_BITS[mc] as nat),
        LL_BASE[lc] as nat + rev_peek(data, rem2, LL_BITS[lc] as nat),
        rem3,
    )
}

/// The cursor after the three states moved on, in the order literals length,
/// match length, offset, from `rem` bits left.
pub open spec fn advance_states(
    t: SeqTables,
    data: Seq<u8>,
    c: SeqCursor,
    rem: int,
    rep: RepView,
) -> SeqCursor {
    let rem1 = rem - t.ll.nb(c.ll);
    let rem2 = rem1 - t.ml.nb(c.ml);
    SeqCursor {
        rem: rem2 - t.of.nb(c.of),
        ll: t.ll.next(c.ll, data, rem),
        ml: t.ml.next(c.ml, data, rem1),
        of: t.of.next(c.of, data, rem2),
        rep,
    }
}

/// `done` with `left` more sequences decoded, and the cursor after them. The
/// states do not move after the last one.
pub open spec fn decode_sequences(
    t: SeqTables,
    data: Seq<u8>,
    c: SeqCursor,
    left: nat,
    done: Seq<SequenceView>,
) -> Result<(Seq<SequenceView>, SeqCursor), Error>
    decreases left,
{
    if left == 0 {
        Ok((done, c))
    } else {
        let (of_value, match_len, lit_len, rem) = sequence_fields(t, data, c);
        match spec_resolve(of_value, lit_len, c.rep) {
            Err(e) => Err(e),
            Ok((offset, rep)) => {
                let c1 = if left > 1 {
                    advance_states(t, data, c, rem, rep)
                } else {
                    SeqCursor { rem, rep, ..c }
                };
                if c1.rem < 0 {
                    Err(Error::Corrupted("sequence bitstream overdrawn"))
                } else {
                    decode_sequences(
                        t,
                        data,
                        c1,
                        (left - 1) as nat,
                        done.push(SequenceView { lit_len, offset, match_len }),
                    )
                }
            },
        }
    }
}

/// The cursor at the start of the sequence bitstream `data`.
pub open spec fn start_cursor(t: SeqTables, data: Seq<u8>, rep: RepView) -> SeqCursor {
    let n = payload_bits(data);
    SeqCursor {
        rem: n - t.ll.log - t.of.log - t.ml.log,
        ll: rev_peek(data, n, t.ll.log),
        of: rev_peek(data, n - t.ll.log, t.of.log),
        ml: rev_peek(data, n - t.ll.log - t.of.log, t.ml.log),
        rep,
    }
}

/// The sequences in the bitstream `data`: the sequences, the offset history
/// after them, and the bits left over.
pub open spec fn spec_decode_sequences(t: SeqTables, data: Seq<u8>, rep: RepView, count: nat) -> Result<
    (Seq<SequenceView>, SeqCursor),
    Error,
> {
    match rev_open_error(data) {
        Some(e) => Err(e),
        None => decode_sequences(t, data, start_cursor(t, data, rep), count, Seq::empty()),
    }
}

proof fn lemma_code_tables()
    ensures
        forall|i: int| 0 <= i < 36 ==> #[trigger] LL_BITS[i] <= 16,
        forall|i: int| 0 <= i < 36 ==> #[trigger] LL_BASE[i] <= 65536,
        forall|i: int| 0 <= i < 53 ==> #[trigger] ML_BITS[i] <= 16,
        forall|i: int| 0 <= i < 53 ==> 3 <= #[trigger] ML_BASE[i] <= 65539,
{
}

/// Decodes `nb_seq` sequences from the bitstream `input`. On success `rep` is
/// the history after them; the result carries the number of bits left over.
#[verifier::rlimit(30)]
fn decode_all_sequences(
    ll_table: &FseTable,
    of_table: &FseTable,
    ml_table: &FseTable,
    rep: &mut [u64; 3],
    input: &[u8],
    nb_seq: usize,
) -> (r: Result<(Vec<DecodedSequence>, bool), Error>)
    requires
        ll_table@.wf() && ll_table@.bounded(35),
        of_table@.wf() && of_table@.bounded(31),
        ml_table@.wf() && ml_table@.bounded(52),
        rep_view(*old(rep)).wf(),
        input@.len() * 8 + 64 <= i64::MAX,
    ensures
        ({
            let t = SeqTables { ll: ll_table@, of: of_table@, ml: ml_table@ };
            let goal = spec_decode_sequences(t, input@, rep_view(*old(rep)), nb_seq as nat);
            match r {
                Ok((seqs, exact)) => {
                    &&& goal matches Ok((views, c)) && views == sequence_views(seqs@) && c.rep
                        == rep_view(*final(rep)) && exact == (c.rem == 0)
                    &&& rep_view(*final(rep)).wf()
                    &&& seqs@.len() == nb_seq
                    &&& forall|i: int|
                        0 <= i < seqs@.len() ==> {
                            let q = #[trigger] seqs@[i];
                            q.offset >= 1 && q.lit_len <= 131071 && 3 <= q.match_len <= 131074
                        }
                },
                Err(e) => goal == Err::<(Seq<SequenceView>, SeqCursor), Error>(e),
            }
        }),
{
    let ghost t = SeqTables { ll: ll_table@, of: of_table@, ml: ml_table@ };
    let ghost goal = spec_decode_sequences(t, input@, rep_view(*rep), nb_seq as nat);
    let mut br = match ReverseBitReader::new(input) {
        Ok(b) => b,
        Err(e) => {
            return Err(e);
        },
    };
    proof {
        lemma2_to64();
        crate::bits::lemma_highest_bit_bound(input@.last() as nat, 8);
        lemma_code_tables();
    }
    let mut ll_state = FseState::new(ll_table, &mut br);
    let mut of_state = FseState::new(of_table, &mut br);
    let mut ml_state = FseState::new(ml_table, &mut br);
    let mut decoded: Vec<DecodedSequence> = Vec::new();
    let mut i: usize = 0;
    assert(sequence_views(decoded@) =~= Seq::<SequenceView>::empty());
    while i < nb_seq
        invariant
            i <= nb_seq,
            ll_table@.wf() && ll_table@.bounded(35),
            of_table@.wf() && of_table@.bounded(31),
            ml_table@.wf() && ml_table@.bounded(52),
            t == (SeqTables { ll: ll_table@, of: of_table@, ml: ml_table@ }),
            ll_state.wf() && ll_state.table@ == ll_table@,
            of_state.wf() && of_state.table@ == of_table@,
            ml_state.wf() && ml_state.table@ == ml_table@,
            br.wf(),
            br.data@ == input@,
            br.bits_remaining >= -42,
            rep_view(*rep).wf(),
            decoded@.len() == i,
            goal == spec_decode_sequences(t, input@, rep_view(*old(rep)), nb_seq as nat),
            goal == decode_sequences(
                t,
                input@,
                SeqCursor {
                    rem: br.bits_remaining as int,
                    ll: ll_state.state as nat,
                    of: of_state.state as nat,
                    ml: ml_state.state as nat,
                    rep: rep_view(*rep),
                },
                (nb_seq - i) as nat,
                sequence_views(decoded@),
            ),
            forall|i: int|
                0 <= i < decoded@.len() ==> {
                    let q = #[trigger] decoded@[i];
                    q.offset >= 1 && q.lit_len <= 131071 && 3 <= q.match_len <= 131074
                },
        decreases nb_seq - i,
    {
        let ghost c = SeqCursor {
            rem: br.bits_remaining as int,
            ll: ll_state.state as nat,
            of: of_state.state as nat,
            ml: ml_state.state as nat,
            rep: rep_view(*rep),
        };
        let ghost before = decoded@;
        let ll_code: usize = ll_state.symbol() as usize;
        let of_code: u32 = of_state.symbol() as u32;
        let ml_code: usize = ml_state.symbol() as usize;
        proof {
            lemma2_to64();
            lemma_code_tables();
            assert(of_code <= 31);
            if of_code < 31 {
                lemma_pow2_strictly_increases(of_code as nat, 31);
            }
            lemma_pow2_pos(of_code as nat);
            if ML_BITS[ml_code as int] < 16 {
                lemma_pow2_strictly_increases(ML_BITS[ml_code as int] as nat, 16);
            }
            if LL_BITS[ll_code as int] < 16 {
                lemma_pow2_strictly_increases(LL_BITS[ll_code as int] as nat, 16);
            }
        }
        let of_value: u64 = pow2_u64(of_code) + br.read(of_code);
        let match_len: u64 = ML_BASE[ml_code] as u64 + br.read(ML_BITS[ml_code]);
        let lit_len: u64 = LL_BASE[ll_code] as u64 + br.read(LL_BITS[ll_code]);
        let offset: u64 = match resolve_offset(of_value, lit_len, rep) {
            Ok(o) => o,
            Err(e) => {
                return Err(e);
            },
        };
        if i + 1 < nb_seq {
            ll_state.advance(&mut br);
            ml_state.advance(&mut br);
            of_state.advance(&mut br);
        }
        if br.bits_remaining() < 0 {
            return Err(Error::Corrupted("sequence bitstream overdrawn"));
        }
        decoded.push(
            DecodedSequence {
                lit_len: lit_len as u32,
                offset: offset as u32,
                match_len: match_len as u32,
            },
        );
        assert(sequence_views(decoded@) =~= sequence_views(before).push(
            SequenceView {
                lit_len: lit_len as nat,
                offset: offset as nat,
                match_len: match_len as nat,
            },
        ));
        i = i + 1;
    }
    Ok((decoded, br.finished_exactly()))
}

// ---------------------------------------------------------------------------
// Executing sequences.

/// `h` followed by `len` bytes, each a copy of the one `offset` places before
/// it.
pub open spec fn spec_copy(h: Seq<u8>, offset: nat, len: nat) -> Seq<u8>
    decreases len,
{
    if len == 0 {
        h
    } else {
        spec_copy(h.push(h[h.len() - offset]), offset, (len - 1) as nat)
    }
}

pub proof fn lemma_copy_extends(h: Seq<u8>, offset: nat, len: nat)
    ensures
        spec_copy(h, offset, len).len() == h.len() + len,
        spec_copy(h, offset, len).take(h.len() as int) == h,
    decreases len,
{
    if len == 0 {
        assert(h.take(h.len() as int) =~= h);
    } else {
        let g = h.push(h[h.len() - offset]);
        lemma_copy_extends(g, offset, (len - 1) as nat);
        let r = spec_copy(h, offset, len);
        assert(r.take(h.len() as int) =~= r.take(g.len() as int).take(h.len() as int));
        assert(g.take(h.len() as int) =~= h);
    }
}

/// Appends `len` bytes of a match to `out`. The history is `dict_content`
/// followed by `out[frame_base..]`, and the match starts `offset` bytes back
/// in it.
pub fn copy_match(
    out: &mut Vec<u8>,
    frame_base: usize,
    dict_content: &[u8],
    offset: usize,
    len: usize,
)
    requires
        frame_base <= old(out)@.len(),
        1 <= offset <= old(out)@.len() - frame_base + dict_content@.len(),
    ensures
        final(out)@.len() == old(out)@.len() + len,
        final(out)@.take(old(out)@.len() as int) == old(out)@,
        dict_content@ + final(out)@.skip(frame_base as int) == spec_copy(
            dict_content@ + old(out)@.skip(frame_base as int),
            offset as nat,
            len as nat,
        ),
{
    let ghost start = out@;
    let ghost h0 = dict_content@ + start.skip(frame_base as int);
    let ghost goal = spec_copy(h0, offset as nat, len as nat);
    let dlen: usize = dict_content.len();
    let mut i: usize = 0;
    assert(out@.take(start.len() as int) =~= start);
    while i < len
        invariant
            i <= len,
            dlen == dict_content@.len(),
            frame_base <= start.len(),
            1 <= offset <= start.len() - frame_base + dlen,
            out@.len() == start.len() + i,
            out@.take(start.len() as int) == start,
            goal == spec_copy(h0, offset as nat, len as nat),
            goal == spec_copy(
                dict_content@ + out@.skip(frame_base as int),
                offset as nat,
                (len - i) as nat,
            ),
        decreases len - i,
    {
        let ghost before = out@;
        let cur: usize = out.len() - frame_base;
        let b: u8 = if offset <= cur {
            out[out.len() - offset]
        } else {
            dict_content[dlen - (offset - cur)]
        };
        out.push(b);
        proof {
            let h = dict_content@ + before.skip(frame_base as int);
            assert(h[h.len() - offset] == b);
            assert(dict_content@ + out@.skip(frame_base as int) =~= h.push(b));
            assert(out@.take(start.len() as int) =~= before.take(start.len() as int));
        }
        i = i + 1;
    }
}

/// The history `h` with the sequences from `i` on executed, and the literals
/// used by then. A block starts at `h0` and may regenerate `block_max` bytes;
/// `room` is what the output limit leaves.
pub open spec fn exec_sequences(
    seqs: Seq<SequenceView>,
    i: nat,
    literals: Seq<u8>,
    lit_pos: nat,
    h: Seq<u8>,
    h0: nat,
    block_max: nat,
    room: int,
) -> Result<(Seq<u8>, nat), Error>
    decreases seqs.len() - i,
{
    if i >= seqs.len() {
        Ok((h, lit_pos))
    } else {
        let q = seqs[i as int];
        let h1 = h + literals.subrange(lit_pos as int, (lit_pos + q.lit_len) as int);
        let h2 = spec_copy(h1, q.offset, q.match_len);
        if lit_pos + q.lit_len > literals.len() {
            Err(Error::Corrupted("sequence consumes more literals than available"))
        } else if q.offset > h1.len() {
            Err(Error::Corrupted("match offset beyond frame history"))
        } else if h2.len() - h0 > block_max {
            Err(Error::Corrupted("block output exceeds block size limit"))
        } else if h2.len() - h0 > room {
            Err(Error::OutputTooLarge)
        } else {
            exec_sequences(
                seqs,
                i + 1,
                literals,
                lit_pos + q.lit_len,
                h2,
                h0,
                block_max,
                room,
            )
        }
    }
}

/// Appends `src` to `out`.
pub fn append_bytes(out: &mut Vec<u8>, src: &[u8])
    ensures
        final(out)@ == old(out)@ + src@,
{
    let ghost start = out@;
    let mut i: usize = 0;
    assert(start + src@.take(0) =~= start);
    while i < src.len()
        invariant
            i <= src@.len(),
            out@ == start + src@.take(i as int),
        decreases src@.len() - i,
    {
        out.push(src[i]);
        assert(out@ =~= start + src@.take(i + 1));
        i = i + 1;
    }
    assert(src@.take(src@.len() as int) =~= src@);
}

/// Executes decoded sequences onto `out`; returns the literals used.
#[verifier::rlimit(30)]
fn execute_sequences(
    seqs: &Vec<DecodedSequence>,
    literals: &[u8],
    out: &mut Vec<u8>,
    frame_base: usize,
    dict_content: &[u8],
    block_size_max: usize,
    limit: usize,
) -> (r: Result<usize, Error>)
    requires
        frame_base <= old(out)@.len(),
        forall|i: int| 0 <= i < seqs@.len() ==> (#[trigger] seqs@[i]).offset >= 1,
    ensures
        ({
            let h = dict_content@ + old(out)@.skip(frame_base as int);
            let goal = exec_sequences(
                sequence_views(seqs@),
                0,
                literals@,
                0,
                h,
                h.len(),
                block_size_max as nat,
                limit - old(out)@.len(),
            );
            match r {
                Ok(lit_pos) => {
                    &&& goal == Ok::<(Seq<u8>, nat), Error>(
                        (dict_content@ + final(out)@.skip(frame_base as int), lit_pos as nat),
                    )
                    &&& lit_pos <= literals@.len()
                    &&& final(out)@.len() >= old(out)@.len()
                    &&& final(out)@.take(old(out)@.len() as int) == old(out)@
                },
                Err(e) => {
                    &&& goal == Err::<(Seq<u8>, nat), Error>(e)
                    &&& final(out)@.len() >= old(out)@.len()
                    &&& final(out)@.take(old(out)@.len() as int) == old(out)@
                },
            }
        }),
{
    let block_start: usize = out.len();
    let ghost start = out@;
    let ghost h0 = dict_content@ + start.skip(frame_base as int);
    let ghost views = sequence_views(seqs@);
    let ghost room = limit - start.len();
    let ghost goal = exec_sequences(
        views,
        0,
        literals@,
        0,
        h0,
        h0.len(),
        block_size_max as nat,
        room,
    );
    let mut lit_pos: usize = 0;
    let mut i: usize = 0;
    let dlen: usize = dict_content.len();
    assert(start.take(start.len() as int) =~= start);
    while i < seqs.len()
        invariant
            i <= seqs@.len(),
            dlen == dict_content@.len(),
            block_start == start.len(),
            start == old(out)@,
            frame_base <= start.len() <= out@.len(),
            out@.take(start.len() as int) == start,
            lit_pos <= literals@.len(),
            views == sequence_views(seqs@),
            h0 == dict_content@ + start.skip(frame_base as int),
            room == limit - start.len(),
            forall|i: int| 0 <= i < seqs@.len() ==> (#[trigger] seqs@[i]).offset >= 1,
            goal == exec_sequences(
                views,
                0,
                literals@,
                0,
                h0,
                h0.len(),
                block_size_max as nat,
                room,
            ),
            goal == exec_sequences(
                views,
                i as nat,
                literals@,
                lit_pos as nat,
                dict_content@ + out@.skip(frame_base as int),
                h0.len(),
                block_size_max as nat,
                room,
            ),
        decreases seqs@.len() - i,
    {
        let q: DecodedSequence = seqs[i];
        assert(views[i as int] == q@);
        let ghost o0 = out@;
        let lit_len: usize = q.lit_len as usize;
        if lit_len > literals.len() - lit_pos {
            return Err(Error::Corrupted("sequence consumes more literals than available"));
        }
        append_bytes(out, slice_subrange(literals, lit_pos, lit_pos + lit_len));
        lit_pos = lit_pos + lit_len;
        let ghost o1 = out@;
        assert(dict_content@ + o1.skip(frame_base as int) =~= dict_content@ + o0.skip(
            frame_base as int,
        ) + literals@.subrange(lit_pos - lit_len, lit_pos as int));
        assert(o1.take(start.len() as int) =~= o0.take(start.len() as int));
        let cur: usize = out.len() - frame_base;
        let offset: usize = q.offset as usize;
        if offset > cur && offset - cur > dlen {
            return Err(Error::Corrupted("match offset beyond frame history"));
        }
        copy_match(out, frame_base, dict_content, offset, q.match_len as usize);
        proof {
            assert(out@.take(start.len() as int) =~= out@.take(o1.len() as int).take(
                start.len() as int,
            ));
            lemma_copy_extends(
                dict_content@ + o1.skip(frame_base as int),
                offset as nat,
                q.match_len as nat,
            );
        }
        if out.len() - block_start > block_size_max {
            return Err(Error::Corrupted("block output exceeds block size limit"));
        }
        if out.len() > limit {
            return Err(Error::OutputTooLarge);
        }
        i = i + 1;
    }
    Ok(lit_pos)
}

// ---------------------------------------------------------------------------
// The sequences section and whole blocks.

/// The number of sequences, and the bytes of its field.
pub open spec fn sequence_count(src: Seq<u8>) -> Result<(nat, nat), Error> {
    let missing = Error::Corrupted("missing sequence count");
    if src.len() == 0 {
        Err(missing)
    } else {
        let b0 = src[0] as nat;
        if b0 < 128 {
            Ok((b0, 1))
        } else if b0 < 255 {
            if src.len() < 2 {
                Err(missing)
            } else {
                Ok((((b0 - 128) * 256 + src[1]) as nat, 2))
            }
        } else if src.len() < 3 {
            Err(missing)
        } else {
            Ok(((src[1] + 256 * src[2] + 0x7F00) as nat, 3))
        }
    }
}

/// The tables that a sequences section selects or describes, and the bytes
/// their descriptions occupy at the start of `input`.
pub open spec fn section_tables(ctx: CtxView, modes: u8, input: Seq<u8>) -> Result<
    (SeqTables, nat),
    Error,
> {
    match spec_sequence_table(ctx.ll, (modes / 64) as nat, input, SeqKind::LiteralLength) {
        Err(e) => Err(e),
        Ok((ll, n1)) => match spec_sequence_table(
            ctx.of,
            ((modes / 16) % 4) as nat,
            input.skip(n1 as int),
            SeqKind::Offset,
        ) {
            Err(e) => Err(e),
            Ok((of, n2)) => match spec_sequence_table(
                ctx.ml,
                ((modes / 4) % 4) as nat,
                input.skip((n1 + n2) as int),
                SeqKind::MatchLength,
            ) {
                Err(e) => Err(e),
                Ok((ml, n3)) => Ok((SeqTables { ll, of, ml }, n1 + n2 + n3)),
            },
        },
    }
}

/// The sequences section `src` applied to `literals` and the history `hist`:
/// the context and the history after the block.
#[verifier::opaque]
pub open spec fn spec_sequences_section(
    ctx: CtxView,
    src: Seq<u8>,
    literals: Seq<u8>,
    hist: Seq<u8>,
    block_max: nat,
    room: int,
) -> Result<(CtxView, Seq<u8>), Error> {
    match sequence_count(src) {
        Err(e) => Err(e),
        Ok((count, pos)) => {
            if count == 0 {
                if src.len() != pos {
                    Err(Error::Corrupted("trailing bytes after empty sequence section"))
                } else if literals.len() > room {
                    Err(Error::OutputTooLarge)
                } else {
                    Ok((ctx, hist + literals))
                }
            } else if src.len() <= pos {
                Err(Error::Corrupted("missing sequence modes"))
            } else if src[pos as int] % 4 != 0 {
                Err(Error::Corrupted("reserved sequence mode bits set"))
            } else {
                let input = src.skip(pos as int + 1);
                match section_tables(ctx, src[pos as int], input) {
                    Err(e) => Err(e),
                    Ok((t, used)) => match spec_decode_sequences(
                        t,
                        input.skip(used as int),
                        ctx.rep,
                        count,
                    ) {
                        Err(e) => Err(e),
                        Ok((seqs, c)) => match exec_sequences(
                            seqs,
                            0,
                            literals,
                            0,
                            hist,
                            hist.len(),
                            block_max,
                            room,
                        ) {
                            Err(e) => Err(e),
                            Ok((h, lit_pos)) => {
                                let end = h + literals.skip(lit_pos as int);
                                if c.rem != 0 {
                                    Err(Error::Corrupted("sequence bitstream not fully consumed"))
                                } else if end.len() - hist.len() > block_max {
                                    Err(Error::Corrupted("block output exceeds block size limit"))
                                } else if end.len() - hist.len() > room {
                                    Err(Error::OutputTooLarge)
                                } else {
                                    Ok(
                                        (
                                            CtxView {
                                                ll: Some(t.ll),
                                                of: Some(t.of),
                                                ml: Some(t.ml),
                                                rep: c.rep,
                                                huffman: ctx.huffman,
                                            },
                                            end,
                                        ),
                                    )
                                }
                            },
                        },
                    },
                }
            }
        },
    }
}

fn read_sequence_count(src: &[u8]) -> (r: Result<(usize, usize), Error>)
    ensures
        match r {
            Ok((count, pos)) => {
                &&& sequence_count(src@) == Ok::<(nat, nat), Error>((count as nat, pos as nat))
                &&& pos <= src@.len()
                &&& pos <= 3
            },
            Err(e) => sequence_count(src@) == Err::<(nat, nat), Error>(e),
        },
{
    let missing = Error::Corrupted("missing sequence count");
    if src.len() == 0 {
        return Err(missing);
    }
    let b0: usize = src[0] as usize;
    if b0 < 128 {
        Ok((b0, 1))
    } else if b0 < 255 {
        if src.len() < 2 {
            return Err(missing);
        }
        Ok(((b0 - 128) * 256 + src[1] as usize, 2))
    } else {
        if src.len() < 3 {
            return Err(missing);
        }
        Ok((src[1] as usize + 256 * src[2] as usize + 0x7F00, 3))
    }
}

/// What a block decoder leaves behind: the output grown by what the block
/// regenerates, and the context after it. If it fails, what was there before
/// is still in front, and the recent offsets are as they were.
pub open spec fn block_outcome(
    goal: Result<(CtxView, Seq<u8>), Error>,
    r: Result<(), Error>,
    out0: Seq<u8>,
    out1: Seq<u8>,
    ctx1: CtxView,
    frame_base: int,
    dict_content: Seq<u8>,
    limit: nat,
    rep0: RepView,
) -> bool {
    match r {
        Ok(_) => {
            &&& goal == Ok::<(CtxView, Seq<u8>), Error>(
                (ctx1, dict_content + out1.skip(frame_base)),
            )
            &&& out1.len() >= out0.len()
            &&& out1.take(out0.len() as int) == out0
            &&& out1.len() <= limit
        },
        Err(e) => {
            &&& goal == Err::<(CtxView, Seq<u8>), Error>(e)
            &&& out1.len() >= out0.len()
            &&& out1.take(out0.len() as int) == out0
            &&& ctx1.rep == rep0
        },
    }
}

/// Decodes the sequences section `src` and executes it onto `out`.
#[verifier::rlimit(30)]
pub fn decode_and_execute_sequences(
    ctx: &mut FrameContext,
    src: &[u8],
    literals: &[u8],
    out: &mut Vec<u8>,
    frame_base: usize,
    dict_content: &[u8],
    block_size_max: usize,
    limit: usize,
) -> (r: Result<(), Error>)
    requires
        old(ctx)@.wf(),
        src@.len() * 8 + 64 <= i64::MAX,
        frame_base <= old(out)@.len(),
    ensures
        final(ctx)@.wf(),
        block_outcome(
            spec_sequences_section(
                old(ctx)@,
                src@,
                literals@,
                dict_content@ + old(out)@.skip(frame_base as int),
                block_size_max as nat,
                limit - old(out)@.len(),
            ),
            r,
            old(out)@,
            final(out)@,
            final(ctx)@,
            frame_base as int,
            dict_content@,
            limit as nat,
            old(ctx)@.rep,
        ),
        r is Ok ==> final(out)@.len() - old(out)@.len() <= block_size_max || literals@.len()
            > block_size_max,
{
    proof {
        reveal(spec_sequences_section);
    }
    let block_start: usize = out.len();
    let ghost start = out@;
    assert(start.take(start.len() as int) =~= start);
    let ghost hist = dict_content@ + start.skip(frame_base as int);
    let (nb_seq, pos) = match read_sequence_count(src) {
        Ok(p) => p,
        Err(e) => {
            return Err(e);
        },
    };
    if nb_seq == 0 {
        if src.len() != pos {
            return Err(Error::Corrupted("trailing bytes after empty sequence section"));
        }
        if out.len() > limit || literals.len() > limit - out.len() {
            return Err(Error::OutputTooLarge);
        }
        append_bytes(out, literals);
        assert(dict_content@ + out@.skip(frame_base as int) =~= hist + literals@);
        assert(out@.take(start.len() as int) =~= start);
        return Ok(());
    }
    if src.len() <= pos {
        return Err(Error::Corrupted("missing sequence modes"));
    }
    let modes: u8 = src[pos];
    if modes % 4 != 0 {
        return Err(Error::Corrupted("reserved sequence mode bits set"));
    }
    let input = slice_subrange(src, pos + 1, src.len());
    assert(input@ =~= src@.skip(pos + 1));
    let n1: usize = match build_sequence_table(
        &mut ctx.ll,
        modes / 64,
        input,
        SeqKind::LiteralLength,
    ) {
        Ok(n) => n,
        Err(e) => {
            return Err(e);
        },
    };
    let rest1 = slice_subrange(input, n1, input.len());
    assert(rest1@ =~= input@.skip(n1 as int));
    let n2: usize = match build_sequence_table(
        &mut ctx.of,
        (modes / 16) % 4,
        rest1,
        SeqKind::Offset,
    ) {
        Ok(n) => n,
        Err(e) => {
            return Err(e);
        },
    };
    let rest2 = slice_subrange(rest1, n2, rest1.len());
    assert(rest2@ =~= input@.skip(n1 + n2));
    let n3: usize = match build_sequence_table(
        &mut ctx.ml,
        (modes / 4) % 4,
        rest2,
        SeqKind::MatchLength,
    ) {
        Ok(n) => n,
        Err(e) => {
            return Err(e);
        },
    };
    let bitstream = slice_subrange(rest2, n3, rest2.len());
    assert(bitstream@ =~= input@.skip(n1 + n2 + n3));
    let mut rep: [u64; 3] = ctx.rep;
    let result = match (&ctx.ll, &ctx.of, &ctx.ml) {
        (Some(ll), Some(of), Some(ml)) => decode_all_sequences(
            ll,
            of,
            ml,
            &mut rep,
            bitstream,
            nb_seq,
        ),
        _ => Err(Error::Corrupted("missing sequence modes")),
    };
    let (decoded, exact) = match result {
        Ok(p) => p,
        Err(e) => {
            return Err(e);
        },
    };
    let lit_pos: usize = match execute_sequences(
        &decoded,
        literals,
        out,
        frame_base,
        dict_content,
        block_size_max,
        limit,
    ) {
        Ok(p) => p,
        Err(e) => {
            return Err(e);
        },
    };
    if !exact {
        return Err(Error::Corrupted("sequence bitstream not fully consumed"));
    }
    let ghost o1 = out@;
    append_bytes(out, slice_subrange(literals, lit_pos, literals.len()));
    proof {
        assert(literals@.subrange(lit_pos as int, literals@.len() as int) =~= literals@.skip(
            lit_pos as int,
        ));
        assert(dict_content@ + out@.skip(frame_base as int) =~= dict_content@ + o1.skip(
            frame_base as int,
        ) + literals@.skip(lit_pos as int));
        assert(out@.take(start.len() as int) =~= o1.take(start.len() as int));
    }
    if out.len() - block_start > block_size_max {
        return Err(Error::Corrupted("block output exceeds block size limit"));
    }
    if out.len() > limit {
        return Err(Error::OutputTooLarge);
    }
    ctx.rep = rep;
    Ok(())
}

/// The compressed block `src` applied to the history `hist`: the context and
/// the history after it.
#[verifier::opaque]
pub open spec fn spec_compressed_block(
    ctx: CtxView,
    src: Seq<u8>,
    hist: Seq<u8>,
    block_max: nat,
    room: int,
) -> Result<(CtxView, Seq<u8>), Error> {
    match spec_literals(ctx.huffman, src, block_max) {
        Err(e) => Err(e),
        Ok(l) => spec_sequences_section(
            CtxView { huffman: l.huffman, ..ctx },
            src.skip(l.used as int),
            l.literals,
            hist,
            block_max,
            room,
        ),
    }
}

/// Decodes one compressed block into `out`.
///
/// `frame_base` is where the current frame started in `out`: matches reaching
/// past it draw from `dict_content`, the window preceding the frame.
/// `block_size_max` bounds the block's output and `limit` all of `out`.
pub fn decode_compressed_block(
    ctx: &mut FrameContext,
    src: &[u8],
    out: &mut Vec<u8>,
    frame_base: usize,
    dict_content: &[u8],
    block_size_max: usize,
    limit: usize,
) -> (r: Result<(), Error>)
    requires
        old(ctx)@.wf(),
        src@.len() * 8 + 64 <= i64::MAX,
        frame_base <= old(out)@.len(),
    ensures
        final(ctx)@.wf(),
        block_outcome(
            spec_compressed_block(
                old(ctx)@,
                src@,
                dict_content@ + old(out)@.skip(frame_base as int),
                block_size_max as nat,
                limit - old(out)@.len(),
            ),
            r,
            old(out)@,
            final(out)@,
            final(ctx)@,
            frame_base as int,
            dict_content@,
            limit as nat,
            old(ctx)@.rep,
        ),
        r is Ok ==> final(out)@.len() - old(out)@.len() <= block_size_max,
{
    proof {
        reveal(spec_compressed_block);
    }
    assert(out@.take(out@.len() as int) =~= out@);
    let (literals, consumed) = match decode_literals(ctx, src, block_size_max) {
        Ok(p) => p,
        Err(e) => {
            return Err(e);
        },
    };
    let rest = slice_subrange(src, consumed, src.len());
    assert(rest@ =~= src@.skip(consumed as int));
    decode_and_execute_sequences(
        ctx,
        rest,
        &literals,
        out,
        frame_base,
        dict_content,
        block_size_max,
        limit,
    )
}

} // verus!
