//! Writing frame and block headers, and how a decoder reads them back.

use crate::block::{repeat_byte, spec_compressed_block, CtxView};
use crate::decompress::{block_header, spec_block, spec_blocks, BlockStep, OptionsView, ZSTD_MAGIC};
use crate::error::Error;
use crate::frame::{dict_id_len, fcs_len, spec_parse, window_of_descriptor, FrameHeader};
use crate::math::{bits_at, le_nat, lemma_le_nat_bound, lemma_le_nat_concat, lemma_le_nat_skip, pow2_u64};
use crate::stream::{law_step_at_end, prepend, run_stream, step_block, trim, FrameStateView, PhaseView, StreamView};
use vstd::arithmetic::div_mod::{lemma_mod_multiples_vanish, lemma_small_mod};
use vstd::arithmetic::power2::{
    lemma2_to64, lemma2_to64_rest, lemma_pow2_adds, lemma_pow2_pos, lemma_pow2_strictly_increases, pow2,
};
use vstd::prelude::*;

verus! {

// ---------------------------------------------------------------------------
// Numbers.

/// The low `n` bytes of `v`, the lowest first.
pub open spec fn le_bytes(v: nat, n: nat) -> Seq<u8>
    decreases n,
{
    if n == 0 {
        Seq::empty()
    } else {
        seq![(v % 256) as u8] + le_bytes(v / 256, (n - 1) as nat)
    }
}

/// Reading back the bytes of a number that fits gives the number.
pub proof fn lemma_le_bytes(v: nat, n: nat)
    requires
        v < pow2(8 * n),
    ensures
        le_bytes(v, n).len() == n,
        le_nat(le_bytes(v, n)) == v,
    decreases n,
{
    lemma2_to64();
    if n == 0 {
        assert(8 * n == 0);
    } else {
        let k = (8 * (n - 1)) as nat;
        lemma_pow2_adds(8, k);
        assert(8 + k == 8 * n);
        assert(v / 256 < pow2(k)) by (nonlinear_arith)
            requires
                v < 256 * pow2(k),
        ;
        lemma_le_bytes(v / 256, (n - 1) as nat);
        let s = le_bytes(v, n);
        assert(s.skip(1) =~= le_bytes(v / 256, (n - 1) as nat));
    }
}

proof fn lemma_le_bytes_len(v: nat, n: nat)
    ensures
        le_bytes(v, n).len() == n,
    decreases n,
{
    if n > 0 {
        lemma_le_bytes_len(v / 256, (n - 1) as nat);
    }
}

/// Appends the low `n` bytes of `v`.
pub fn push_le(out: &mut Vec<u8>, v: u64, n: usize)
    ensures
        final(out)@ == old(out)@ + le_bytes(v as nat, n as nat),
{
    let ghost start = out@;
    let mut x: u64 = v;
    let mut k: usize = 0;
    proof {
        assert(start + le_bytes(v as nat, n as nat) =~= out@ + le_bytes(x as nat, n as nat));
    }
    while k < n
        invariant
            k <= n,
            start + le_bytes(v as nat, n as nat) == out@ + le_bytes(x as nat, (n - k) as nat),
        decreases n - k,
    {
        let ghost rest = le_bytes(x as nat, (n - k) as nat);
        let ghost before = out@;
        out.push((x % 256) as u8);
        x = x / 256;
        k = k + 1;
        proof {
            assert(out@ + le_bytes(x as nat, (n - k) as nat) =~= before + rest);
        }
    }
    proof {
        assert(out@ =~= start + le_bytes(v as nat, n as nat));
    }
}

/// A field in the middle of a byte string.
pub proof fn lemma_field(a: Seq<u8>, b: Seq<u8>, c: Seq<u8>)
    ensures
        bits_at(a + b + c, 8 * a.len(), 8 * b.len()) == le_nat(b),
{
    reveal(bits_at);
    let s = a + b + c;
    assert(s =~= a + (b + c));
    lemma_le_nat_skip(a + (b + c), a.len());
    assert((a + (b + c)).skip(a.len() as int) =~= b + c);
    lemma_le_nat_concat(b, c);
    lemma_le_nat_bound(b);
    let p = pow2(8 * b.len()) as int;
    lemma_pow2_pos(8 * b.len());
    lemma_mod_multiples_vanish(le_nat(c) as int, le_nat(b) as int, p);
    assert(le_nat(b) + le_nat(c) * p == p * le_nat(c) + le_nat(b)) by (nonlinear_arith);
    lemma_small_mod(le_nat(b), p as nat);
}

// ---------------------------------------------------------------------------
// Frame headers.

/// The flag for the size of the content-size field.
pub open spec fn fcs_code(pledged: Option<u64>) -> nat {
    match pledged {
        None => 0,
        Some(n) => if n >= 0xFFFF_FFFF {
            3
        } else if n >= 65792 {
            2
        } else if n >= 256 {
            1
        } else {
            0
        },
    }
}

/// The flag for the size of the dictionary-ID field.
pub open spec fn did_code(dict_id: u32) -> nat {
    if dict_id >= 65536 {
        3
    } else if dict_id >= 256 {
        2
    } else if dict_id > 0 {
        1
    } else {
        0
    }
}

/// The whole content fits the window.
pub open spec fn is_single_segment(window_log: u32, pledged: Option<u64>) -> bool {
    pledged matches Some(n) && n <= pow2(window_log as nat)
}

pub open spec fn bool_num(b: bool) -> nat {
    if b {
        1
    } else {
        0
    }
}

/// The header without the magic number: descriptor, window, dictionary ID and
/// content size.
pub open spec fn header_fields(window_log: u32, pledged: Option<u64>, checksum: bool, dict_id: u32) -> Seq<u8> {
    let single = is_single_segment(window_log, pledged);
    let code = fcs_code(pledged);
    let d = 64 * code + 32 * bool_num(single) + 4 * bool_num(checksum) + did_code(dict_id);
    let w = if single {
        Seq::empty()
    } else {
        seq![(8 * (window_log - 10)) as u8]
    };
    let n: nat = match pledged {
        Some(x) => x as nat,
        None => 0,
    };
    let f = if code == 1 {
        le_bytes((n - 256) as nat, 2)
    } else {
        le_bytes(n, fcs_len(single, code as int))
    };
    seq![d as u8] + w + le_bytes(dict_id as nat, dict_id_len(did_code(dict_id) as int)) + f
}

/// What the header says.
pub open spec fn header_says(window_log: u32, pledged: Option<u64>, checksum: bool, dict_id: u32) -> FrameHeader {
    FrameHeader {
        content_size: pledged,
        window_size: if is_single_segment(window_log, pledged) {
            pledged->0
        } else {
            pow2(window_log as nat) as u64
        },
        dict_id,
        has_checksum: checksum,
        header_len: header_fields(window_log, pledged, checksum, dict_id).len() as usize,
    }
}

/// Appends the magic number and the header of a frame.
#[verifier::rlimit(30)]
pub fn write_frame_header(
    out: &mut Vec<u8>,
    window_log: u32,
    pledged: Option<u64>,
    checksum: bool,
    dict_id: u32,
)
    requires
        10 <= window_log <= 31,
    ensures
        final(out)@ == old(out)@ + le_bytes(ZSTD_MAGIC as nat, 4) + header_fields(
            window_log,
            pledged,
            checksum,
            dict_id,
        ),
{
    let ghost start = out@;
    let window_size: u64 = pow2_u64(window_log);
    let size: u64 = match pledged {
        Some(n) => n,
        None => 0,
    };
    let single: bool = pledged.is_some() && window_size >= size;
    let code: u8 = if pledged.is_none() {
        0
    } else if size >= 0xFFFF_FFFF {
        3
    } else if size >= 65792 {
        2
    } else if size >= 256 {
        1
    } else {
        0
    };
    let did: u8 = if dict_id >= 65536 {
        3
    } else if dict_id >= 256 {
        2
    } else if dict_id > 0 {
        1
    } else {
        0
    };
    push_le(out, ZSTD_MAGIC as u64, 4);
    let ghost m = out@;
    let single_bit: u8 = if single {
        32
    } else {
        0
    };
    let sum_bit: u8 = if checksum {
        4
    } else {
        0
    };
    out.push(64 * code + single_bit + sum_bit + did);
    let ghost a = out@;
    if !single {
        out.push((8 * (window_log - 10)) as u8);
    }
    let ghost b = out@;
    proof {
        assert(a =~= m + seq![(64 * code + single_bit + sum_bit + did) as u8]);
        assert(b =~= a + if single {
            Seq::<u8>::empty()
        } else {
            seq![(8 * (window_log - 10)) as u8]
        });
    }
    let did_len: usize = if did == 3 {
        4
    } else {
        did as usize
    };
    push_le(out, dict_id as u64, did_len);
    let ghost c = out@;
    let (field, flen): (u64, usize) = if code == 0 {
        (
            size,
            if single {
                1
            } else {
                0
            },
        )
    } else if code == 1 {
        (size - 256, 2)
    } else if code == 2 {
        (size, 4)
    } else {
        (size, 8)
    };
    push_le(out, field, flen);
    proof {
        let w = if single {
            Seq::<u8>::empty()
        } else {
            seq![(8 * (window_log - 10)) as u8]
        };
        let d = (64 * code + single_bit + sum_bit + did) as u8;
        let magic = le_bytes(ZSTD_MAGIC as nat, 4);
        let idb = le_bytes(dict_id as nat, did_len as nat);
        let fb = le_bytes(field as nat, flen as nat);
        lemma_concat(start, magic, seq![d], w, idb, fb, a, b, c, out@);
        assert(header_fields(window_log, pledged, checksum, dict_id) == seq![d] + w + idb + fb);
    }
}

proof fn lemma_concat(
    start: Seq<u8>,
    magic: Seq<u8>,
    d: Seq<u8>,
    w: Seq<u8>,
    idb: Seq<u8>,
    fb: Seq<u8>,
    a: Seq<u8>,
    b: Seq<u8>,
    c: Seq<u8>,
    out: Seq<u8>,
)
    requires
        a == start + magic + d,
        b == a + w,
        c == b + idb,
        out == c + fb,
    ensures
        out == start + magic + (d + w + idb + fb),
{
    assert(out =~= start + magic + (d + w + idb + fb));
}

/// The flags of a descriptor are read back.
proof fn lemma_descriptor(code: nat, single: bool, checksum: bool, did: nat)
    requires
        code <= 3,
        did <= 3,
    ensures
        ({
            let d = 64 * code + 32 * bool_num(single) + 4 * bool_num(checksum) + did;
            &&& d < 256
            &&& ((d as u8) as int / 32) % 2 == bool_num(single)
            &&& ((d as u8) as int / 8) % 2 == 0
            &&& (d as u8) as int % 4 == did
            &&& (d as u8) as int / 64 == code
            &&& ((d as u8) as int / 4) % 2 == bool_num(checksum)
        }),
{
}

/// The window descriptor is read back.
proof fn lemma_window_byte(window_log: u32)
    requires
        10 <= window_log <= 31,
    ensures
        ({
            let wd = (8 * (window_log - 10)) as u8;
            &&& wd as nat / 8 == window_log - 10
            &&& window_of_descriptor(wd as nat) == pow2(window_log as nat)
        }),
{
    reveal(window_of_descriptor);
    let wd = (8 * (window_log - 10)) as u8 as nat;
    assert(wd % 8 == 0);
    assert(wd / 8 == window_log - 10);
    let p = pow2(window_log as nat);
    assert(p / 8 * (wd % 8) == 0) by (nonlinear_arith)
        requires
            wd % 8 == 0,
    ;
}

/// The content size that the header holds.
spec fn fcs_raw(pledged: Option<u64>) -> nat {
    let n: nat = match pledged {
        Some(x) => x as nat,
        None => 0,
    };
    if fcs_code(pledged) == 1 {
        (n - 256) as nat
    } else {
        n
    }
}

/// The two fields of a header are read back.
#[verifier::rlimit(30)]
proof fn lemma_header_fields(
    window_log: u32,
    pledged: Option<u64>,
    checksum: bool,
    dict_id: u32,
    rest: Seq<u8>,
)
    requires
        10 <= window_log <= 31,
        pledged is None || is_single_segment(window_log, pledged) || fcs_code(pledged) > 0,
    ensures
        ({
            let h = header_fields(window_log, pledged, checksum, dict_id);
            let single = is_single_segment(window_log, pledged);
            let wpos: nat = if single {
                1
            } else {
                2
            };
            let did_len = dict_id_len(did_code(dict_id) as int);
            let flen = fcs_len(single, fcs_code(pledged) as int);
            &&& h.len() == wpos + did_len + flen
            &&& h[0] == (64 * fcs_code(pledged) + 32 * bool_num(single) + 4 * bool_num(checksum)
                + did_code(dict_id)) as u8
            &&& !single ==> h[1] == (8 * (window_log - 10)) as u8
            &&& bits_at(h + rest, 8 * wpos, 8 * did_len) == dict_id
            &&& bits_at(h + rest, 8 * (wpos + did_len), 8 * flen) == fcs_raw(pledged)
        }),
{
    lemma2_to64();
    lemma2_to64_rest();
    let single = is_single_segment(window_log, pledged);
    let h = header_fields(window_log, pledged, checksum, dict_id);
    let src = h + rest;
    let d = (64 * fcs_code(pledged) + 32 * bool_num(single) + 4 * bool_num(checksum) + did_code(
        dict_id,
    )) as u8;
    let w = if single {
        Seq::<u8>::empty()
    } else {
        seq![(8 * (window_log - 10)) as u8]
    };
    let did_len = dict_id_len(did_code(dict_id) as int);
    let flen = fcs_len(single, fcs_code(pledged) as int);
    let raw = fcs_raw(pledged);
    let idb = le_bytes(dict_id as nat, did_len);
    let fb = le_bytes(raw, flen);
    assert(h =~= seq![d] + w + idb + fb);
    lemma_le_bytes_len(dict_id as nat, did_len);
    lemma_le_bytes_len(raw, flen);
    let a1 = seq![d] + w;
    assert(src =~= a1 + idb + (fb + rest));
    lemma_field(a1, idb, fb + rest);
    assert((dict_id as nat) < pow2(8 * did_len)) by {
        if did_code(dict_id) == 0 {
            assert(8 * did_len == 0);
        } else if did_code(dict_id) == 1 {
            assert(8 * did_len == 8);
        } else if did_code(dict_id) == 2 {
            assert(8 * did_len == 16);
        } else {
            assert(8 * did_len == 32);
        }
    }
    lemma_le_bytes(dict_id as nat, did_len);
    let a2 = a1 + idb;
    assert(src =~= a2 + fb + rest);
    lemma_field(a2, fb, rest);
    assert(raw < pow2(8 * flen)) by {
        if pledged is None {
            assert(8 * flen == 0);
        } else if fcs_code(pledged) == 0 {
            assert(8 * flen == 8);
        } else if fcs_code(pledged) == 1 {
            assert(8 * flen == 16);
        } else if fcs_code(pledged) == 2 {
            assert(8 * flen == 32);
        } else {
            assert(8 * flen == 64);
        }
    }
    lemma_le_bytes(raw, flen);
}

/// A header is read back as what it says, whatever follows it.
#[verifier::rlimit(40)]
pub proof fn lemma_header_parses(
    window_log: u32,
    pledged: Option<u64>,
    checksum: bool,
    dict_id: u32,
    rest: Seq<u8>,
    window_log_max: nat,
)
    requires
        10 <= window_log <= 31,
        window_log <= window_log_max,
        pledged is None || is_single_segment(window_log, pledged) || fcs_code(pledged) > 0,
    ensures
        spec_parse(
            header_fields(window_log, pledged, checksum, dict_id) + rest,
            window_log_max,
        ) == Ok::<FrameHeader, Error>(header_says(window_log, pledged, checksum, dict_id)),
        2 <= header_fields(window_log, pledged, checksum, dict_id).len() <= 14,
{
    reveal(spec_parse);
    let single = is_single_segment(window_log, pledged);
    let h = header_fields(window_log, pledged, checksum, dict_id);
    let src = h + rest;
    lemma_header_fields(window_log, pledged, checksum, dict_id, rest);
    lemma_descriptor(fcs_code(pledged), single, checksum, did_code(dict_id));
    lemma_window_byte(window_log);
    assert(src[0] == h[0]);
    if !single {
        assert(src[1] == h[1]);
    }
    lemma2_to64();
    if window_log < 31 {
        lemma_pow2_strictly_increases(window_log as nat, 31);
    }
    let m: nat = if window_log_max < 31 {
        window_log_max
    } else {
        31
    };
    if window_log < m {
        lemma_pow2_strictly_increases(window_log as nat, m);
    }
}

// ---------------------------------------------------------------------------
// Blocks.

/// The three bytes of a block header.
pub open spec fn block_header_bytes(last: bool, kind: nat, size: nat) -> Seq<u8> {
    le_bytes(bool_num(last) + 2 * kind + 8 * size, 3)
}

/// A block header has three bytes.
pub proof fn lemma_block_header_len(last: bool, kind: nat, size: nat)
    ensures
        block_header_bytes(last, kind, size).len() == 3,
{
    lemma_le_bytes_len(bool_num(last) + 2 * kind + 8 * size, 3);
}

/// Appends a block header.
pub fn push_block_header(out: &mut Vec<u8>, last: bool, kind: u32, size: usize)
    requires
        kind <= 3,
        size < 0x20_0000,
    ensures
        final(out)@ == old(out)@ + block_header_bytes(last, kind as nat, size as nat),
{
    let flag: u64 = if last {
        1
    } else {
        0
    };
    push_le(out, flag + 2 * kind as u64 + 8 * size as u64, 3);
}

/// A block header is read back.
proof fn lemma_block_header(last: bool, kind: nat, size: nat, rest: Seq<u8>)
    requires
        kind <= 3,
        size < 0x20_0000,
    ensures
        ({
            let b = block_header_bytes(last, kind, size);
            let raw = block_header(b + rest);
            &&& b.len() == 3
            &&& (raw % 2 == 1) == last
            &&& (raw / 2) % 4 == kind
            &&& raw / 8 == size
        }),
{
    lemma2_to64();
    let v = bool_num(last) + 2 * kind + 8 * size;
    reveal_with_fuel(le_bytes, 4);
    let b = le_bytes(v, 3);
    assert(b[0] == (v % 256) as u8);
    assert(b[1] == ((v / 256) % 256) as u8);
    assert(b[2] == ((v / 256 / 256) % 256) as u8);
    let s = b + rest;
    assert(s[0] == b[0] && s[1] == b[1] && s[2] == b[2]);
    assert(block_header(s) == v);
}

/// The bytes of one block take a decoder from the context `ctx` and history
/// `hist` to `ctx1` and `hist1`, whatever follows them.
pub open spec fn is_block(
    bytes: Seq<u8>,
    last: bool,
    ctx: CtxView,
    hist: Seq<u8>,
    ctx1: CtxView,
    hist1: Seq<u8>,
    block_max: nat,
) -> bool {
    &&& bytes.len() >= 1
    &&& hist.len() <= hist1.len()
    &&& forall|rest: Seq<u8>, room: int|
        room >= hist1.len() - hist.len() ==> #[trigger] spec_block(
            ctx,
            bytes + rest,
            hist,
            block_max,
            room,
        ) == Ok::<BlockStep, Error>(
            BlockStep { ctx: ctx1, hist: hist1, used: bytes.len(), last },
        )
}

/// `t` is what is left of the history `hist` where at least the last `reach`
/// bytes are kept.
pub open spec fn keeps(t: Seq<u8>, hist: Seq<u8>, reach: nat) -> bool {
    &&& t.len() <= hist.len()
    &&& t == hist.skip(hist.len() - t.len())
    &&& reach <= t.len() || t.len() == hist.len()
}

/// One block that adds `block` to the history and reaches no further back than
/// `reach`.
pub open spec fn is_near_block(
    bytes: Seq<u8>,
    last: bool,
    ctx: CtxView,
    hist: Seq<u8>,
    ctx1: CtxView,
    block: Seq<u8>,
    block_max: nat,
    reach: nat,
) -> bool {
    &&& block.len() <= 131072
    &&& forall|t: Seq<u8>|
        keeps(t, hist, reach) ==> #[trigger] is_block(
            bytes,
            last,
            ctx,
            t,
            ctx1,
            t + block,
            block_max,
        )
}

/// The state of a stream inside a frame with the history `hist`, after `more`
/// has been produced.
pub open spec fn gone_on(f: FrameStateView, ctx: CtxView, hist: Seq<u8>, more: Seq<u8>) -> FrameStateView {
    FrameStateView { ctx, win: trim(hist, f.window), content: f.content + more, ..f }
}

/// A stream that keeps `window` bytes of history goes through these blocks to
/// the same history.
#[verifier::opaque]
pub open spec fn runs_on(
    bytes: Seq<u8>,
    last: bool,
    ctx: CtxView,
    hist: Seq<u8>,
    ctx1: CtxView,
    hist1: Seq<u8>,
    block_max: nat,
    window: nat,
) -> bool {
    let more = hist1.skip(hist.len() as int);
    forall|opts: OptionsView, f: FrameStateView, total: nat, rest: Seq<u8>|
        f.ctx == ctx && f.win == trim(hist, window) && f.window == window && f.block_max == block_max
            && total + more.len() <= opts.limit ==> #[trigger] run_stream(
            opts,
            StreamView { phase: PhaseView::Blocks(f), total },
            bytes + rest,
        ) == prepend(
            more,
            run_stream(
                opts,
                StreamView {
                    phase: if last {
                        PhaseView::Footer(gone_on(f, ctx1, hist1, more))
                    } else {
                        PhaseView::Blocks(gone_on(f, ctx1, hist1, more))
                    },
                    total: total + more.len(),
                },
                rest,
            ),
        )
}

/// Windows that hold all of the history, or all that the blocks reach.
pub open spec fn window_serves(window: nat, hist1: Seq<u8>, reach: nat) -> bool {
    window <= usize::MAX && (hist1.len() <= window || reach <= window <= 0x8000_0000)
}

/// The bytes of any number of blocks, of which only the last may be (and is,
/// if `last`) the last of its frame. They reach no further back than `reach`.
#[verifier::opaque]
pub open spec fn are_blocks(
    bytes: Seq<u8>,
    last: bool,
    ctx: CtxView,
    hist: Seq<u8>,
    ctx1: CtxView,
    hist1: Seq<u8>,
    block_max: nat,
    reach: nat,
) -> bool {
    &&& hist.len() <= hist1.len()
    &&& hist1.take(hist.len() as int) == hist
    &&& forall|rest: Seq<u8>, base: nat, room: int|
        room >= hist1.len() - base && base <= hist.len() ==> #[trigger] spec_blocks(
            ctx,
            bytes + rest,
            hist,
            block_max,
            base,
            room,
        ) == if last {
            Ok::<(Seq<u8>, Seq<u8>), Error>((hist1, rest))
        } else {
            spec_blocks(ctx1, rest, hist1, block_max, base, room)
        }
    &&& forall|window: nat|
        window_serves(window, hist1, reach) ==> #[trigger] runs_on(
            bytes,
            last,
            ctx,
            hist,
            ctx1,
            hist1,
            block_max,
            window,
        )
}

/// No blocks.
pub proof fn lemma_no_blocks(ctx: CtxView, hist: Seq<u8>, block_max: nat, reach: nat)
    ensures
        are_blocks(Seq::empty(), false, ctx, hist, ctx, hist, block_max, reach),
{
    reveal(are_blocks);
    reveal(runs_on);
    assert(hist.take(hist.len() as int) =~= hist);
    let none = hist.skip(hist.len() as int);
    assert(none =~= Seq::<u8>::empty());
    assert forall|rest: Seq<u8>| #[trigger] (Seq::<u8>::empty() + rest) == rest by {
        assert(Seq::<u8>::empty() + rest =~= rest);
    }
    assert forall|f: FrameStateView|
        f.ctx == ctx && f.win == trim(hist, f.window) implies #[trigger] gone_on(
        f,
        ctx,
        hist,
        none,
    ) == f by {
        assert(f.content + none =~= f.content);
    }
    assert forall|r: Result<Seq<u8>, Error>| #[trigger] prepend(none, r) == r by {
        if r is Ok {
            assert(none + r->Ok_0 =~= r->Ok_0);
        }
    }
}

/// A stream goes through one block.
proof fn lemma_block_runs(
    bytes: Seq<u8>,
    last: bool,
    ctx: CtxView,
    hist: Seq<u8>,
    ctx1: CtxView,
    block: Seq<u8>,
    block_max: nat,
    reach: nat,
    window: nat,
)
    requires
        is_near_block(bytes, last, ctx, hist, ctx1, block, block_max, reach),
        window_serves(window, hist + block, reach),
    ensures
        runs_on(bytes, last, ctx, hist, ctx1, hist + block, block_max, window),
{
    reveal(runs_on);
    let hist1 = hist + block;
    let more = hist1.skip(hist.len() as int);
    assert(more =~= block);
    let t = trim(hist, window);
    assert(hist.skip(0) =~= hist);
    assert(keeps(t, hist, reach));
    assert(is_block(bytes, last, ctx, t, ctx1, t + block, block_max));
    assert(trim(t + block, window) =~= trim(hist1, window));
    assert((t + block).skip(t.len() as int) =~= block);
    assert forall|opts: OptionsView, f: FrameStateView, total: nat, rest: Seq<u8>|
        f.ctx == ctx && f.win == t && f.window == window && f.block_max == block_max && total
            + more.len() <= opts.limit implies #[trigger] run_stream(
        opts,
        StreamView { phase: PhaseView::Blocks(f), total },
        bytes + rest,
    ) == prepend(
        more,
        run_stream(
            opts,
            StreamView {
                phase: if last {
                    PhaseView::Footer(gone_on(f, ctx1, hist1, more))
                } else {
                    PhaseView::Blocks(gone_on(f, ctx1, hist1, more))
                },
                total: total + more.len(),
            },
            rest,
        ),
    ) by {
        let s = StreamView { phase: PhaseView::Blocks(f), total };
        let input = bytes + rest;
        let room = usize::MAX - t.len();
        assert(spec_block(ctx, input, t, block_max, room) == Ok::<BlockStep, Error>(
            BlockStep { ctx: ctx1, hist: t + block, used: bytes.len(), last },
        ));
        assert(input.skip(bytes.len() as int) =~= rest);
        reveal(spec_block);
        reveal(step_block);
        law_step_at_end(opts, s, input);
    }
}

/// One block is a run of blocks.
pub proof fn lemma_one_block(
    bytes: Seq<u8>,
    last: bool,
    ctx: CtxView,
    hist: Seq<u8>,
    ctx1: CtxView,
    block: Seq<u8>,
    block_max: nat,
    reach: nat,
)
    requires
        is_near_block(bytes, last, ctx, hist, ctx1, block, block_max, reach),
    ensures
        are_blocks(bytes, last, ctx, hist, ctx1, hist + block, block_max, reach),
{
    reveal(are_blocks);
    let hist1 = hist + block;
    assert(hist1.take(hist.len() as int) =~= hist);
    assert(hist.skip(0) =~= hist);
    assert(keeps(hist, hist, reach));
    assert(is_block(bytes, last, ctx, hist, ctx1, hist1, block_max));
    assert forall|rest: Seq<u8>, base: nat, room: int|
        room >= hist1.len() - base && base <= hist.len() implies #[trigger] spec_blocks(
        ctx,
        bytes + rest,
        hist,
        block_max,
        base,
        room,
    ) == if last {
        Ok::<(Seq<u8>, Seq<u8>), Error>((hist1, rest))
    } else {
        spec_blocks(ctx1, rest, hist1, block_max, base, room)
    } by {
        let r = room - (hist.len() - base);
        assert(spec_block(ctx, bytes + rest, hist, block_max, r) is Ok);
        assert((bytes + rest).skip(bytes.len() as int) =~= rest);
    }
    assert forall|window: nat| window_serves(window, hist1, reach) implies #[trigger] runs_on(
        bytes,
        last,
        ctx,
        hist,
        ctx1,
        hist1,
        block_max,
        window,
    ) by {
        lemma_block_runs(bytes, last, ctx, hist, ctx1, block, block_max, reach, window);
    }
}

/// A stream goes through two runs of blocks.
proof fn lemma_more_runs(
    a: Seq<u8>,
    b: Seq<u8>,
    last: bool,
    ctx: CtxView,
    hist: Seq<u8>,
    ctx1: CtxView,
    hist1: Seq<u8>,
    ctx2: CtxView,
    hist2: Seq<u8>,
    block_max: nat,
    window: nat,
)
    requires
        hist.len() <= hist1.len() <= hist2.len(),
        hist1.take(hist.len() as int) == hist,
        hist2.take(hist1.len() as int) == hist1,
        runs_on(a, false, ctx, hist, ctx1, hist1, block_max, window),
        runs_on(b, last, ctx1, hist1, ctx2, hist2, block_max, window),
    ensures
        runs_on(a + b, last, ctx, hist, ctx2, hist2, block_max, window),
{
    reveal(runs_on);
    let m1 = hist1.skip(hist.len() as int);
    let m2 = hist2.skip(hist1.len() as int);
    let more = hist2.skip(hist.len() as int);
    assert(more =~= m1 + m2) by {
        assert forall|i: int| 0 <= i < more.len() implies #[trigger] more[i] == (m1 + m2)[i] by {
            if i < m1.len() {
                assert(hist2.take(hist1.len() as int)[hist.len() + i] == hist1[hist.len() + i]);
            }
        }
    }
    assert forall|opts: OptionsView, f: FrameStateView, total: nat, rest: Seq<u8>|
        f.ctx == ctx && f.win == trim(hist, window) && f.window == window && f.block_max == block_max
            && total + more.len() <= opts.limit implies #[trigger] run_stream(
        opts,
        StreamView { phase: PhaseView::Blocks(f), total },
        a + b + rest,
    ) == prepend(
        more,
        run_stream(
            opts,
            StreamView {
                phase: if last {
                    PhaseView::Footer(gone_on(f, ctx2, hist2, more))
                } else {
                    PhaseView::Blocks(gone_on(f, ctx2, hist2, more))
                },
                total: total + more.len(),
            },
            rest,
        ),
    ) by {
        assert(a + b + rest =~= a + (b + rest));
        let g = gone_on(f, ctx1, hist1, m1);
        let s1 = StreamView { phase: PhaseView::Blocks(g), total: total + m1.len() };
        assert(run_stream(
            opts,
            StreamView { phase: PhaseView::Blocks(f), total },
            a + (b + rest),
        ) == prepend(m1, run_stream(opts, s1, b + rest)));
        let g2 = gone_on(g, ctx2, hist2, m2);
        assert(f.content + m1 + m2 =~= f.content + more);
        assert(g2 == gone_on(f, ctx2, hist2, more));
        let s2 = StreamView {
            phase: if last {
                PhaseView::Footer(g2)
            } else {
                PhaseView::Blocks(g2)
            },
            total: total + m1.len() + m2.len(),
        };
        let r = run_stream(opts, s2, rest);
        assert(run_stream(opts, s1, b + rest) == prepend(m2, r));
        if r is Ok {
            assert(m1 + (m2 + r->Ok_0) =~= more + r->Ok_0);
        }
    }
}

/// Runs of blocks follow each other.
pub proof fn lemma_more_blocks(
    a: Seq<u8>,
    b: Seq<u8>,
    last: bool,
    ctx: CtxView,
    hist: Seq<u8>,
    ctx1: CtxView,
    hist1: Seq<u8>,
    ctx2: CtxView,
    hist2: Seq<u8>,
    block_max: nat,
    reach: nat,
)
    requires
        are_blocks(a, false, ctx, hist, ctx1, hist1, block_max, reach),
        are_blocks(b, last, ctx1, hist1, ctx2, hist2, block_max, reach),
    ensures
        are_blocks(a + b, last, ctx, hist, ctx2, hist2, block_max, reach),
{
    reveal(are_blocks);
    assert(hist2.take(hist.len() as int) =~= hist) by {
        assert forall|i: int| 0 <= i < hist.len() implies hist2[i] == #[trigger] hist[i] by {
            assert(hist1.take(hist.len() as int)[i] == hist1[i]);
            assert(hist2.take(hist1.len() as int)[i] == hist2[i]);
        }
    }
    assert forall|rest: Seq<u8>, base: nat, room: int|
        room >= hist2.len() - base && base <= hist.len() implies #[trigger] spec_blocks(
        ctx,
        a + b + rest,
        hist,
        block_max,
        base,
        room,
    ) == if last {
        Ok::<(Seq<u8>, Seq<u8>), Error>((hist2, rest))
    } else {
        spec_blocks(ctx2, rest, hist2, block_max, base, room)
    } by {
        assert(a + b + rest =~= a + (b + rest));
        assert(spec_blocks(ctx, a + (b + rest), hist, block_max, base, room) == spec_blocks(
            ctx1,
            b + rest,
            hist1,
            block_max,
            base,
            room,
        ));
    }
    assert forall|window: nat| window_serves(window, hist2, reach) implies #[trigger] runs_on(
        a + b,
        last,
        ctx,
        hist,
        ctx2,
        hist2,
        block_max,
        window,
    ) by {
        assert(window_serves(window, hist1, reach));
        assert(runs_on(a, false, ctx, hist, ctx1, hist1, block_max, window));
        assert(runs_on(b, last, ctx1, hist1, ctx2, hist2, block_max, window));
        lemma_more_runs(a, b, last, ctx, hist, ctx1, hist1, ctx2, hist2, block_max, window);
    }
}

/// A raw block: the decoder appends its bytes and keeps its context.
pub proof fn lemma_raw_block(bytes: Seq<u8>, last: bool, ctx: CtxView, hist: Seq<u8>, block_max: nat)
    requires
        bytes.len() <= block_max,
        bytes.len() < 0x20_0000,
    ensures
        is_block(
            block_header_bytes(last, 0, bytes.len()) + bytes,
            last,
            ctx,
            hist,
            ctx,
            hist + bytes,
            block_max,
        ),
{
    let head = block_header_bytes(last, 0, bytes.len());
    let all = head + bytes;
    lemma_block_header(last, 0, bytes.len(), Seq::empty());
    assert forall|rest: Seq<u8>, room: int| room >= bytes.len() implies #[trigger] spec_block(
        ctx,
        all + rest,
        hist,
        block_max,
        room,
    ) == Ok::<BlockStep, Error>(
        BlockStep { ctx, hist: hist + bytes, used: all.len(), last },
    ) by {
        reveal(spec_block);
        lemma_block_header(last, 0, bytes.len(), bytes + rest);
        assert(all + rest =~= head + (bytes + rest));
        assert((all + rest).subrange(3, 3 + bytes.len() as int) =~= bytes);
    }
}

/// An RLE block: the decoder appends one byte many times.
pub proof fn lemma_rle_block(
    byte: u8,
    size: nat,
    last: bool,
    ctx: CtxView,
    hist: Seq<u8>,
    block_max: nat,
)
    requires
        size <= block_max,
        size < 0x20_0000,
    ensures
        is_block(
            block_header_bytes(last, 1, size) + seq![byte],
            last,
            ctx,
            hist,
            ctx,
            hist + repeat_byte(byte, size),
            block_max,
        ),
{
    let head = block_header_bytes(last, 1, size);
    let all = head + seq![byte];
    lemma_block_header(last, 1, size, Seq::empty());
    assert forall|rest: Seq<u8>, room: int| room >= size implies #[trigger] spec_block(
        ctx,
        all + rest,
        hist,
        block_max,
        room,
    ) == Ok::<BlockStep, Error>(
        BlockStep { ctx, hist: hist + repeat_byte(byte, size), used: all.len(), last },
    ) by {
        reveal(spec_block);
        lemma_block_header(last, 1, size, seq![byte] + rest);
        assert(all + rest =~= head + (seq![byte] + rest));
        assert((all + rest)[3] == byte);
    }
}

/// A compressed block: the decoder does what its body says.
pub proof fn lemma_coded_block(
    body: Seq<u8>,
    last: bool,
    ctx: CtxView,
    hist: Seq<u8>,
    ctx1: CtxView,
    hist1: Seq<u8>,
    block_max: nat,
)
    requires
        body.len() <= block_max,
        body.len() < 0x20_0000,
        hist.len() <= hist1.len(),
        forall|room: int|
            room >= hist1.len() - hist.len() ==> #[trigger] spec_compressed_block(
                ctx,
                body,
                hist,
                block_max,
                room,
            ) == Ok::<(CtxView, Seq<u8>), Error>((ctx1, hist1)),
    ensures
        is_block(
            block_header_bytes(last, 2, body.len()) + body,
            last,
            ctx,
            hist,
            ctx1,
            hist1,
            block_max,
        ),
{
    let head = block_header_bytes(last, 2, body.len());
    let all = head + body;
    lemma_block_header(last, 2, body.len(), Seq::empty());
    assert forall|rest: Seq<u8>, room: int|
        room >= hist1.len() - hist.len() implies #[trigger] spec_block(
        ctx,
        all + rest,
        hist,
        block_max,
        room,
    ) == Ok::<BlockStep, Error>(
        BlockStep { ctx: ctx1, hist: hist1, used: all.len(), last },
    ) by {
        reveal(spec_block);
        lemma_block_header(last, 2, body.len(), body + rest);
        assert(all + rest =~= head + (body + rest));
        assert((all + rest).subrange(3, 3 + body.len() as int) =~= body);
    }
}

} // verus!
