//! What is written with a Huffman table is read back with its description.

use crate::bits_encode::{append_field, bytes_le, closed_bytes, lemma_append_bound, lemma_open_closed, Bits};
use crate::error::Error;
use crate::huffman::{huf_symbols, spec_decode_four, spec_decode_stream, spec_read_table};
use crate::huffman_codes::{huf_yields, lemma_four, lemma_huf_yields_step, HufCTable};
use crate::huffman_encode_model::{codes_appended, spec_compress1x, spec_compress4x, two_bytes};
use crate::huffman_header::describes_weights;
use crate::math::le_nat;
use vstd::arithmetic::power2::{lemma2_to64, lemma_pow2_adds, lemma_pow2_pos, lemma_pow2_unfold, pow2};
use vstd::prelude::*;

verus! {

/// A number that fits in `n` bytes is the number of those bytes.
proof fn lemma_number_of_bytes(x: nat, n: nat)
    requires
        x < pow2(8 * n),
    ensures
        le_nat(bytes_le(x, n)) == x,
        bytes_le(x, n).len() == n,
    decreases n,
{
    lemma2_to64();
    if n > 0 {
        lemma_pow2_adds(8, (8 * (n - 1)) as nat);
        assert(8 + 8 * (n - 1) == 8 * n);
        lemma_number_of_bytes(x / 256, (n - 1) as nat);
        let rest = bytes_le(x / 256, (n - 1) as nat);
        assert(bytes_le(x, n).skip(1) =~= rest);
    }
}

/// From `b` on, the codes of the first `i` bytes of `src` put the decoder
/// before them.
proof fn lemma_codes(ct: HufCTable, src: Seq<u8>, i: nat, b: Bits)
    requires
        ct.wf(),
        i <= src.len(),
        forall|k: int| 0 <= k < src.len() ==> ct.encodable(#[trigger] src[k] as int),
        b.num < pow2(b.len),
        huf_yields(ct.decoder(), b, src.skip(i as int)),
    ensures
        ({
            let c = codes_appended(ct@, src, i, b);
            &&& c.num < pow2(c.len)
            &&& huf_yields(ct.decoder(), c, src)
        }),
    decreases i,
{
    reveal_with_fuel(codes_appended, 1);
    if i > 0 {
        let s = src[i - 1];
        let rest = src.skip(i as int);
        assert(ct.encodable(s as int));
        lemma_huf_yields_step(&ct, b, s, rest);
        assert(seq![s] + rest =~= src.skip(i - 1));
        let nb = ct.nb_bits@[s as int] as nat;
        let code = ct.code@[s as int] as nat;
        lemma_append_bound(b, code, nb);
        lemma_codes(ct, src, (i - 1) as nat, append_field(b, code, nb));
    } else {
        assert(src.skip(0) =~= src);
    }
}

/// One stream reads back.
pub proof fn law_one_stream_decodes(ct: HufCTable, src: Seq<u8>)
    requires
        ct.wf(),
        forall|k: int| 0 <= k < src.len() ==> ct.encodable(#[trigger] src[k] as int),
    ensures
        spec_compress1x(ct@, src).len() >= 1,
        spec_decode_stream(ct.decoder(), spec_compress1x(ct@, src), src.len()) == Ok::<Seq<u8>, Error>(
            src,
        ),
{
    let none = Seq::<u8>::empty();
    let b0 = Bits { num: 0, len: 0 };
    let t = ct.decoder();
    lemma2_to64();
    assert(src.skip(src.len() as int) =~= none);
    assert forall|data: Seq<u8>, out: Seq<u8>|
        crate::bits_encode::stream_holds(data, b0) implies #[trigger] huf_symbols(t, data, 0, 0, out) == (
        out + none,
        0int,
    ) by {
        assert(out + none =~= out);
    }
    lemma_codes(ct, src, src.len(), b0);
    let b = codes_appended(ct@, src, src.len(), b0);
    let out = closed_bytes(b);
    reveal(closed_bytes);
    reveal(spec_compress1x);
    let n = b.len / 8 + 1;
    lemma_pow2_unfold(b.len + 1);
    lemma_pow2_adds(b.len + 1, (8 * n - (b.len + 1)) as nat);
    lemma_pow2_pos((8 * n - (b.len + 1)) as nat);
    let p = pow2(b.len + 1);
    let q = pow2((8 * n - (b.len + 1)) as nat);
    assert(p <= p * q) by (nonlinear_arith)
        requires
            q >= 1,
    ;
    lemma_number_of_bytes(b.num + pow2(b.len), n);
    lemma_open_closed(b, out);
    reveal(spec_decode_stream);
    assert(none + src =~= src);
}

/// Four streams read back.
pub proof fn law_four_streams_decode(ct: HufCTable, src: Seq<u8>)
    requires
        ct.wf(),
        forall|k: int| 0 <= k < src.len() ==> ct.encodable(#[trigger] src[k] as int),
        spec_compress4x(ct@, src).len() > 0,
    ensures
        spec_decode_four(ct.decoder(), spec_compress4x(ct@, src), src.len()) == Ok::<Seq<u8>, Error>(src),
{
    reveal(spec_compress4x);
    let n = src.len();
    let part = ((n + 3) / 4) as int;
    let (p1, p2, p3, p4) = (
        src.subrange(0, part),
        src.subrange(part, 2 * part),
        src.subrange(2 * part, 3 * part),
        src.subrange(3 * part, n as int),
    );
    law_one_stream_decodes(ct, p1);
    law_one_stream_decodes(ct, p2);
    law_one_stream_decodes(ct, p3);
    law_one_stream_decodes(ct, p4);
    let c1 = spec_compress1x(ct@, p1);
    let c2 = spec_compress1x(ct@, p2);
    let c3 = spec_compress1x(ct@, p3);
    let c4 = spec_compress1x(ct@, p4);
    let head = two_bytes(c1.len()) + two_bytes(c2.len()) + two_bytes(c3.len());
    assert(src =~= p1 + p2 + p3 + p4);
    lemma_four(ct.decoder(), head, c1, c2, c3, c4, p1, p2, p3, p4);
}

/// `desc` describes the table, and what is written with it is read back by the
/// table that is read from `desc`.
pub open spec fn table_round_trips(ct: HufCTable, desc: Seq<u8>, data: Seq<u8>) -> bool {
    spec_read_table(desc) matches Ok((t, used)) && {
        &&& used == desc.len()
        &&& spec_decode_stream(t, spec_compress1x(ct@, data), data.len()) == Ok::<Seq<u8>, Error>(data)
        &&& spec_compress4x(ct@, data).len() > 0 ==> spec_decode_four(
            t,
            spec_compress4x(ct@, data),
            data.len(),
        ) == Ok::<Seq<u8>, Error>(data)
    }
}

/// Data whose bytes all have codes is read back, from one stream or from four,
/// with the table that the description of the code's table gives.
pub proof fn law_huffman_round_trip(ct: HufCTable, desc: Seq<u8>, data: Seq<u8>)
    requires
        ct.wf(),
        describes_weights(desc, ct.weights(), ct.table_log as nat),
        forall|k: int| 0 <= k < data.len() ==> ct.encodable(#[trigger] data[k] as int),
    ensures
        table_round_trips(ct, desc, data),
{
    let none = Seq::<u8>::empty();
    assert(desc + none =~= desc);
    assert(crate::huffman::spec_read_weights(desc + none) == Ok::<(Seq<u8>, nat, nat), Error>(
        (ct.weights(), ct.table_log as nat, desc.len()),
    ));
    law_one_stream_decodes(ct, data);
    if spec_compress4x(ct@, data).len() > 0 {
        law_four_streams_decode(ct, data);
    }
}

} // verus!
