//! The literals section of a block: raw, one repeated byte, or Huffman-coded
//! with a fresh or an earlier table.

use crate::block::{lit_header, repeat_byte, spec_literals, LitHeader, LitView};
use crate::block_encode_model::{
    basic_header_bytes, coded_header_bytes, coded_section, fresh_entropy, literals_section, raw_section, HufStateView,
};
use crate::error::Error;
use crate::huffman::HuffmanTableView;
use crate::huffman_codes::HufCTable;
use crate::huffman_encode::{huf_compress, spec_streams, table_and_streams, HufOutput, HufRepeat};
use vstd::prelude::*;

verus! {

/// The Huffman state that carries over from block to block.
pub struct HufState {
    pub table: Option<HufCTable>,
    pub repeat: HufRepeat,
}

impl HufState {
    pub open spec fn view(&self) -> HufStateView {
        HufStateView {
            table: match self.table {
                Some(t) => Some(t@),
                None => None,
            },
            repeat: self.repeat,
        }
    }

    pub open spec fn wf(&self) -> bool {
        &&& self.table matches Some(t) ==> t.wf()
        &&& self.repeat == HufRepeat::Valid ==> (self.table matches Some(t) ==> t.covers_all())
    }

    /// The decoder's table, where the state may refer to it.
    pub open spec fn in_step(&self, huf: Option<HuffmanTableView>) -> bool {
        self.repeat != HufRepeat::Never ==> (self.table matches Some(t) ==> huf == Some(t.decoder()))
    }

    /// No earlier table.
    pub fn new() -> (r: Self)
        ensures
            r.wf(),
            r.repeat == HufRepeat::Never,
            r@ == fresh_entropy().huf,
            forall|huf: Option<HuffmanTableView>| r.in_step(huf),
    {
        HufState { table: None, repeat: HufRepeat::Never }
    }

    /// A copy of the state.
    pub fn duplicate(&self) -> (r: Self)
        requires
            self.wf(),
        ensures
            r.wf(),
            r.repeat == self.repeat,
            r@ == self@,
            r.table is Some == self.table is Some,
            r.table matches Some(t) ==> t.nb_bits@ == self.table->0.nb_bits@ && t.max_symbol
                == self.table->0.max_symbol,
            forall|huf: Option<HuffmanTableView>| self.in_step(huf) ==> r.in_step(huf),
    {
        let table: Option<HufCTable> = match &self.table {
            Some(t) => {
                let d = t.duplicate();
                proof {
                    if t.covers_all() {
                        assert forall|s: int| 0 <= s < 256 implies #[trigger] d.encodable(s) by {
                            assert(t.encodable(s));
                        }
                    }
                }
                Some(d)
            },
            None => None,
        };
        HufState { table, repeat: self.repeat }
    }
}

/// Bytes of the raw or repeated-byte header for `n` literals.
pub open spec fn basic_header_len(n: nat) -> nat {
    1 + (if n > 31 {
        1nat
    } else {
        0
    }) + (if n > 4095 {
        1nat
    } else {
        0
    })
}

/// `h` starts a section of type `ty` with `n` literals, whatever follows.
pub open spec fn is_lit_header(
    h: Seq<u8>,
    ty: nat,
    four: bool,
    n: nat,
    compressed: nat,
) -> bool {
    forall|rest: Seq<u8>| #[trigger]
        lit_header(h + rest) == Ok::<LitHeader, Error>(
            LitHeader {
                lit_type: ty,
                four_streams: four,
                regenerated: n,
                compressed,
                len: h.len(),
            },
        )
}

/// The fields of a first header byte.
proof fn lemma_first_byte(b: nat, t: nat, f: nat, m: nat)
    requires
        t < 4,
        f < 4,
        m < 16,
        b == t + 4 * f + 16 * m,
    ensures
        b % 4 == t,
        (b / 4) % 4 == f,
        b / 16 == m,
{
}

proof fn lemma_split_20(n: nat)
    requires
        n < 1048576,
    ensures
        n == n % 16 + 16 * (n / 16 % 256) + 4096 * (n / 4096),
        n / 4096 < 256,
{
}

/// Two-byte and three-byte headers of sections that are not coded.
proof fn lemma_basic_long(h: Seq<u8>, t: nat, n: nat)
    requires
        t <= 1,
        n < 1048576,
        h.len() == 2 || h.len() == 3,
        h.len() == 2 ==> n < 4096 && h[0] == t + 4 + 16 * (n % 16) && h[1] == n / 16,
        h.len() == 3 ==> h[0] == t + 12 + 16 * (n % 16) && h[1] == n / 16 % 256 && h[2] == n / 4096,
    ensures
        is_lit_header(h, t, false, n, 0),
{
    lemma_first_byte(
        h[0] as nat,
        t,
        if h.len() == 2 {
            1
        } else {
            3
        },
        n % 16,
    );
    lemma_split_20(n);
    assert forall|rest: Seq<u8>| #[trigger] lit_header(h + rest) == Ok::<LitHeader, Error>(
        LitHeader {
            lit_type: t,
            four_streams: false,
            regenerated: n,
            compressed: 0,
            len: h.len(),
        },
    ) by {
        let src = h + rest;
        assert(src[0] == h[0] && src[1] == h[1]);
        if h.len() == 3 {
            assert(src[2] == h[2]);
        }
    }
}

/// Writes the header of the raw (0) and repeated-byte (1) sections.
fn basic_header(set_type: u8, n: usize) -> (r: Vec<u8>)
    requires
        set_type <= 1,
        n <= 1048575,
    ensures
        r@.len() == basic_header_len(n as nat),
        is_lit_header(r@, set_type as nat, false, n as nat, 0),
        r@ == basic_header_bytes(set_type as nat, n as nat),
{
    let mut out: Vec<u8> = Vec::new();
    if n <= 31 {
        out.push(set_type + (n as u8) * 8);
        proof {
            assert forall|rest: Seq<u8>| #[trigger] lit_header(out@ + rest) == Ok::<
                LitHeader,
                Error,
            >(
                LitHeader {
                    lit_type: set_type as nat,
                    four_streams: false,
                    regenerated: n as nat,
                    compressed: 0,
                    len: out@.len(),
                },
            ) by {
                let src = out@ + rest;
                assert(src[0] == out@[0]);
            }
            assert(out@ =~= basic_header_bytes(set_type as nat, n as nat));
        }
        return out;
    }
    let low: u8 = ((n % 16) as u8) * 16;
    if n <= 4095 {
        out.push(set_type + 4 + low);
        out.push((n / 16) as u8);
    } else {
        out.push(set_type + 12 + low);
        out.push((n / 16 % 256) as u8);
        out.push((n / 4096) as u8);
    }
    proof {
        lemma_basic_long(out@, set_type as nat, n as nat);
        assert(out@ =~= basic_header_bytes(set_type as nat, n as nat));
    }
    out
}

/// `out` is a literals section that decodes to `src` and leaves the table
/// `next` in force, whatever follows it.
pub open spec fn section_ok(
    out: Seq<u8>,
    src: Seq<u8>,
    huf: Option<HuffmanTableView>,
    next: Option<HuffmanTableView>,
) -> bool {
    forall|rest: Seq<u8>, block_max: nat|
        block_max >= src.len() ==> #[trigger] spec_literals(huf, out + rest, block_max) == Ok::<
            LitView,
            Error,
        >(LitView { literals: src, used: out.len(), huffman: next })
}

/// `out` is a literals section that decodes to `src`.
pub open spec fn decodes_to(out: Seq<u8>, src: Seq<u8>, huf: Option<HuffmanTableView>) -> bool {
    exists|next: Option<HuffmanTableView>| #[trigger] section_ok(out, src, huf, next)
}

/// A raw literals section.
pub fn raw_literals(src: &[u8]) -> (r: Vec<u8>)
    requires
        src@.len() <= 1048575,
    ensures
        forall|huf: Option<HuffmanTableView>| #[trigger] section_ok(r@, src@, huf, huf),
        r@.len() == basic_header_len(src@.len()) + src@.len(),
        r@ == raw_section(src@),
{
    let mut out: Vec<u8> = basic_header(0, src.len());
    let ghost h = out@;
    out.extend_from_slice(src);
    proof {
        assert(out@ =~= h + src@);
        assert forall|huf: Option<HuffmanTableView>| #[trigger] section_ok(out@, src@, huf, huf) by {
            assert forall|rest: Seq<u8>, block_max: nat|
                block_max >= src@.len() implies #[trigger] spec_literals(
                huf,
                out@ + rest,
                block_max,
            ) == Ok::<LitView, Error>(
                LitView { literals: src@, used: out@.len(), huffman: huf },
            ) by {
                assert(out@ + rest =~= h + (src@ + rest));
                assert((out@ + rest).subrange(h.len() as int, (h.len() + src@.len()) as int)
                    =~= src@);
                assert(lit_header(h + (src@ + rest)) is Ok);
            }
        }
    }
    out
}

/// A literals section of one repeated byte.
pub fn rle_literals(src: &[u8]) -> (r: Vec<u8>)
    requires
        1 <= src@.len() <= 1048575,
    ensures
        r@.len() == basic_header_len(src@.len()) + 1,
        (forall|i: int| 0 <= i < src@.len() ==> #[trigger] src@[i] == src@[0]) ==> forall|
            huf: Option<HuffmanTableView>,
        | #[trigger] section_ok(r@, src@, huf, huf),
        r@ == basic_header_bytes(1, src@.len()) + seq![src@[0]],
{
    let mut out: Vec<u8> = basic_header(1, src.len());
    let ghost h = out@;
    out.push(src[0]);
    proof {
        assert(out@ =~= h + seq![src@[0]]);
        if forall|i: int| 0 <= i < src@.len() ==> #[trigger] src@[i] == src@[0] {
            assert(repeat_byte(src@[0], src@.len()) =~= src@);
            assert forall|huf: Option<HuffmanTableView>| #[trigger] section_ok(
                out@,
                src@,
                huf,
                huf,
            ) by {
                assert forall|rest: Seq<u8>, block_max: nat|
                    block_max >= src@.len() implies #[trigger] spec_literals(
                    huf,
                    out@ + rest,
                    block_max,
                ) == Ok::<LitView, Error>(
                    LitView { literals: src@, used: out@.len(), huffman: huf },
                ) by {
                    assert(out@ + rest =~= h + (seq![src@[0]] + rest));
                    assert(lit_header(h + (seq![src@[0]] + rest)) is Ok);
                    assert((out@ + rest)[h.len() as int] == src@[0]);
                }
            }
        }
    }
    out
}

/// The fewest literals worth compressing.
pub open spec fn spec_min_literals(strategy: int, valid: bool) -> nat {
    if valid {
        6
    } else if strategy <= 6 {
        64
    } else if strategy == 7 {
        32
    } else if strategy == 8 {
        16
    } else {
        8
    }
}

pub fn min_literals_to_compress(strategy: i32, repeat: HufRepeat) -> (r: usize)
    ensures
        r == spec_min_literals(strategy as int, repeat == HufRepeat::Valid),
{
    if repeat == HufRepeat::Valid {
        6
    } else if strategy <= 6 {
        64
    } else if strategy == 7 {
        32
    } else if strategy == 8 {
        16
    } else {
        8
    }
}

/// The savings below which a compressed section or block is not kept.
pub open spec fn spec_min_gain(src_size: nat, strategy: int) -> nat {
    if strategy >= 9 {
        src_size / 256 + 2
    } else if strategy == 8 {
        src_size / 128 + 2
    } else {
        src_size / 64 + 2
    }
}

pub fn min_gain(src_size: usize, strategy: i32) -> (r: usize)
    requires
        strategy <= 9,
    ensures
        r == spec_min_gain(src_size as nat, strategy as int),
{
    if strategy >= 9 {
        src_size / 256 + 2
    } else if strategy == 8 {
        src_size / 128 + 2
    } else {
        src_size / 64 + 2
    }
}

/// Headers of coded sections, by their length.
proof fn lemma_coded_header(h: Seq<u8>, t: nat, single: bool, n: nat, c: nat)
    requires
        2 <= t <= 3,
        3 <= h.len() <= 5,
        h.len() == 3 ==> {
            &&& n < 1024
            &&& c < 1024
            &&& h[0] == t + 4 * (if single {
                0nat
            } else {
                1nat
            }) + 16 * (n % 16)
            &&& h[1] == n / 16 + 64 * (c % 4)
            &&& h[2] == c / 4
        },
        h.len() == 4 ==> {
            &&& !single
            &&& n < 16384
            &&& c < 16384
            &&& h[0] == t + 8 + 16 * (n % 16)
            &&& h[1] == n / 16 % 256
            &&& h[2] == n / 4096 + 4 * (c % 64)
            &&& h[3] == c / 64
        },
        h.len() == 5 ==> {
            &&& !single
            &&& n < 262144
            &&& c < 262144
            &&& h[0] == t + 12 + 16 * (n % 16)
            &&& h[1] == n / 16 % 256
            &&& h[2] == n / 4096 + 64 * (c % 4)
            &&& h[3] == c / 4 % 256
            &&& h[4] == c / 1024
        },
    ensures
        is_lit_header(h, t, !single, n, c),
{
    let f = if h.len() == 3 {
        if single {
            0nat
        } else {
            1nat
        }
    } else if h.len() == 4 {
        2
    } else {
        3
    };
    lemma_first_byte(h[0] as nat, t, f, n % 16);
    lemma_split_20(n);
    assert forall|rest: Seq<u8>| #[trigger] lit_header(h + rest) == Ok::<LitHeader, Error>(
        LitHeader {
            lit_type: t,
            four_streams: !single,
            regenerated: n,
            compressed: c,
            len: h.len(),
        },
    ) by {
        let src = h + rest;
        assert(src[0] == h[0] && src[1] == h[1] && src[2] == h[2]);
        if h.len() == 3 {
            assert(h[1] as nat % 64 == n / 16 && h[1] as nat / 64 == c % 4);
        } else if h.len() == 4 {
            assert(src[3] == h[3]);
            assert(h[2] as nat % 4 == n / 4096 && h[2] as nat / 4 == c % 64);
        } else {
            assert(src[3] == h[3] && src[4] == h[4]);
            assert(h[2] as nat % 64 == n / 4096 && h[2] as nat / 64 == c % 4);
            assert(c == c % 4 + 4 * (c / 4 % 256) + 1024 * (c / 1024));
        }
    }
}

/// Writes the header of a Huffman-coded section of type `set_type`.
fn compressed_header(set_type: u8, n: usize, c: usize, single_stream: bool) -> (r: Vec<u8>)
    requires
        2 <= set_type <= 3,
        n <= 262143,
        c < n,
        n >= 1024 ==> !single_stream,
    ensures
        is_lit_header(r@, set_type as nat, !single_stream, n as nat, c as nat),
        3 <= r@.len() <= 5,
        r@ == coded_header_bytes(set_type as nat, n as nat, c as nat, single_stream),
{
    let mut out: Vec<u8> = Vec::new();
    let low: u8 = ((n % 16) as u8) * 16;
    if n < 1024 {
        let four: u8 = if single_stream {
            0
        } else {
            4
        };
        out.push(set_type + four + low);
        out.push((n / 16) as u8 + ((c % 4) as u8) * 64);
        out.push((c / 4) as u8);
    } else if n < 16384 {
        out.push(set_type + 8 + low);
        out.push((n / 16 % 256) as u8);
        out.push((n / 4096) as u8 + ((c % 64) as u8) * 4);
        out.push((c / 64) as u8);
    } else {
        out.push(set_type + 12 + low);
        out.push((n / 16 % 256) as u8);
        out.push((n / 4096) as u8 + ((c % 4) as u8) * 64);
        out.push((c / 4 % 256) as u8);
        out.push((c / 1024) as u8);
    }
    proof {
        lemma_coded_header(out@, set_type as nat, single_stream, n as nat, c as nat);
        assert(out@ =~= coded_header_bytes(set_type as nat, n as nat, c as nat, single_stream));
    }
    out
}

/// A Huffman-coded section with header `h`.
#[verifier::spinoff_prover]
#[verifier::rlimit(60)]
proof fn lemma_coded_section(
    h: Seq<u8>,
    payload: Seq<u8>,
    src: Seq<u8>,
    single: bool,
    huf: Option<HuffmanTableView>,
    t: HuffmanTableView,
    fresh: bool,
)
    requires
        is_lit_header(
            h,
            if fresh {
                2
            } else {
                3
            },
            !single,
            src.len(),
            payload.len(),
        ),
        if fresh {
            table_and_streams(payload, t, src, single)
        } else {
            &&& huf == Some(t)
            &&& spec_streams(t, payload, src.len(), single) == Ok::<Seq<u8>, Error>(src)
        },
    ensures
        section_ok(h + payload, src, huf, Some(t)),
{
    let out = h + payload;
    assert forall|rest: Seq<u8>, block_max: nat|
        block_max >= src.len() implies #[trigger] spec_literals(huf, out + rest, block_max) == Ok::<
        LitView,
        Error,
    >(LitView { literals: src, used: out.len(), huffman: Some(t) }) by {
        assert(out + rest =~= h + (payload + rest));
        assert(lit_header(h + (payload + rest)) is Ok);
        assert((out + rest).subrange(h.len() as int, (h.len() + payload.len()) as int) =~= payload);
        assert(payload.skip(0) =~= payload);
        if fresh {
            assert(table_and_streams(payload, t, src, single));
        }
    }
}

/// A coded section, unless it saves too little.
fn coded_literals(
    src: &[u8],
    set_type: u8,
    payload: &Vec<u8>,
    single_stream: bool,
    strategy: i32,
) -> (r: Option<Vec<u8>>)
    requires
        2 <= set_type <= 3,
        1 <= src@.len() <= 131072,
        payload@.len() <= 200000,
        strategy <= 9,
        src@.len() >= 1024 ==> !single_stream,
    ensures
        match r {
            Some(out) => coded_section(
                src@,
                set_type as nat,
                payload@,
                single_stream,
                strategy as int,
            ) == Some(out@),
            None => coded_section(
                src@,
                set_type as nat,
                payload@,
                single_stream,
                strategy as int,
            ) is None,
        },
        r matches Some(out) ==> {
            let h = coded_header_bytes(
                set_type as nat,
                src@.len(),
                payload@.len(),
                single_stream,
            );
            &&& out@ == h + payload@
            &&& is_lit_header(h, set_type as nat, !single_stream, src@.len(), payload@.len())
            &&& out@.len() <= src@.len() + 3
        },
{
    let n: usize = src.len();
    let c: usize = payload.len();
    let gain: usize = min_gain(n, strategy);
    if c + gain >= n {
        return None;
    }
    let mut out: Vec<u8> = compressed_header(set_type, n, c, single_stream);
    let ghost h = out@;
    out.extend_from_slice(payload);
    assert(out@ =~= h + payload@);
    Some(out)
}

pub open spec fn state_view(s: Option<HufState>) -> Option<HufStateView> {
    match s {
        Some(x) => Some(x@),
        None => None,
    }
}

/// The best literals section for `src` at the given strategy (1 to 9), with
/// the state of the block before; and the new state, where a fresh table was
/// written. `disable` forces raw literals.
#[verifier::rlimit(40)]
pub fn compress_literals_with(
    src: &[u8],
    strategy: i32,
    suspect_uncompressible: bool,
    disable: bool,
    prev: &HufState,
) -> (r: (Vec<u8>, Option<HufState>))
    requires
        src@.len() <= 131072,
        strategy <= 9,
        prev.wf(),
    ensures
        r.1 matches Some(next) ==> next.wf() && next.repeat == HufRepeat::Check && next.table is Some
            && forall|huf: Option<HuffmanTableView>|
            prev.in_step(huf) ==> #[trigger] section_ok(
                r.0@,
                src@,
                huf,
                Some(next.table->0.decoder()),
            ),
        r.1 is None ==> forall|huf: Option<HuffmanTableView>|
            prev.in_step(huf) ==> #[trigger] section_ok(r.0@, src@, huf, huf),
        r.0@.len() <= src@.len() + 3,
        disable || src@.len() < spec_min_literals(
            strategy as int,
            prev.repeat == HufRepeat::Valid,
        ) ==> r.1 is None && r.0@.len() == basic_header_len(src@.len()) + src@.len(),
        (r.0@, state_view(r.1)) == literals_section(
            src@,
            strategy as int,
            suspect_uncompressible,
            disable,
            prev@,
        ),
{
    proof {
        reveal(literals_section);
    }
    let n: usize = src.len();
    if disable || n < min_literals_to_compress(strategy, prev.repeat) {
        return (raw_literals(src), None);
    }
    let mut single_stream: bool = n < 256;
    if prev.repeat == HufRepeat::Valid && n < 1024 {
        single_stream = true;
    }
    let prefer_repeat: bool = strategy < 4 && n <= 1024;
    let optimal_depth: bool = strategy >= 8;
    let table: Option<&HufCTable> = match &prev.table {
        Some(t) => Some(t),
        None => None,
    };
    let outcome = huf_compress(
        src,
        single_stream,
        suspect_uncompressible,
        prefer_repeat,
        optimal_depth,
        table,
        prev.repeat,
    );
    match outcome {
        HufOutput::Raw => (raw_literals(src), None),
        HufOutput::Rle => (rle_literals(src), None),
        HufOutput::Compressed(payload, ct) => {
            match coded_literals(src, 2, &payload, single_stream, strategy) {
                None => (raw_literals(src), None),
                Some(out) => {
                    proof {
                        let h = coded_header_bytes(2, src@.len(), payload@.len(), single_stream);
                        assert forall|huf: Option<HuffmanTableView>|
                            prev.in_step(huf) implies #[trigger] section_ok(
                            out@,
                            src@,
                            huf,
                            Some(ct.decoder()),
                        ) by {
                            lemma_coded_section(
                                h,
                                payload@,
                                src@,
                                single_stream,
                                huf,
                                ct.decoder(),
                                true,
                            );
                        }
                    }
                    (out, Some(HufState { table: Some(ct), repeat: HufRepeat::Check }))
                },
            }
        },
        HufOutput::Repeat(payload) => {
            match coded_literals(src, 3, &payload, single_stream, strategy) {
                None => (raw_literals(src), None),
                Some(out) => {
                    proof {
                        let h = coded_header_bytes(3, src@.len(), payload@.len(), single_stream);
                        assert forall|huf: Option<HuffmanTableView>|
                            prev.in_step(huf) implies #[trigger] section_ok(
                            out@,
                            src@,
                            huf,
                            huf,
                        ) by {
                            lemma_coded_section(
                                h,
                                payload@,
                                src@,
                                single_stream,
                                huf,
                                prev.table->0.decoder(),
                                false,
                            );
                        }
                    }
                    (out, None)
                },
            }
        },
    }
}

/// The best literals section for `src` without an earlier table.
pub fn compress_literals(
    src: &[u8],
    strategy: i32,
    suspect_uncompressible: bool,
    disable_literal_compression: bool,
) -> (r: Vec<u8>)
    requires
        src@.len() <= 131072,
        strategy <= 9,
    ensures
        forall|huf: Option<HuffmanTableView>| #[trigger] decodes_to(r@, src@, huf),
        r@.len() <= src@.len() + 3,
        r@ == literals_section(
            src@,
            strategy as int,
            suspect_uncompressible,
            disable_literal_compression,
            fresh_entropy().huf,
        ).0,
{
    let prev = HufState::new();
    let (out, next) = compress_literals_with(
        src,
        strategy,
        suspect_uncompressible,
        disable_literal_compression,
        &prev,
    );
    proof {
        assert forall|huf: Option<HuffmanTableView>| #[trigger] decodes_to(out@, src@, huf) by {
            assert(prev.in_step(huf));
            match next {
                Some(st) => {
                    assert(section_ok(out@, src@, huf, Some(st.table->0.decoder())));
                },
                None => {
                    assert(section_ok(out@, src@, huf, huf));
                },
            }
        }
    }
    out
}

} // verus!
