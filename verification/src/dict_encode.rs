//! The tables that a trained dictionary gives to an encoder.

use crate::bits::{highbit32, highest_bit};
use crate::block::SeqKind;
use crate::block_encode_model::{covers, fresh_entropy, offsets_ready, EntropyView, HufStateView};
use crate::dictionary::{dict_table, formatted_dict, le32, DICT_MAGIC};
use crate::error::Error;
use crate::fse::{read_ncount, spec_dtable, spec_read_ncount, sum_abs, valid_counts, NCountView};
use crate::fse_encode::{build_ctable, FseCTable};
use crate::fse_encode_model::spec_ctable;
use crate::huffman::spec_read_weights;
use crate::huffman_encode::HufRepeat;
use crate::huffman_header::{read_ctable, read_table_view};
use crate::literals_encode::HufState;
use crate::math::load4;
use crate::seq_tables::FseRepeat;
use crate::sequences_encode::FseEntropyState;
use crate::spread::{dealt_symbols, lemma_spread_symbols, low_symbols, spec_spread};
use vstd::prelude::*;
use vstd::slice::slice_subrange;

verus! {

/// What a trained dictionary sets up: the entropy state and recent offsets for
/// the first block, the ID for the frame header, and where the content starts.
pub struct DictCEntropy {
    pub entropy: FseEntropyState,
    pub rep: [u32; 3],
    pub dict_id: u32,
    pub entropy_size: usize,
}

/// A symbol that does not occur can be left out of a distribution.
proof fn lemma_pad(counts: Seq<i16>, log: nat)
    requires
        valid_counts(counts, log),
        counts.len() < 256,
    ensures
        valid_counts(counts.push(0), log),
        spec_dtable(counts.push(0), log) == spec_dtable(counts, log),
{
    let p = counts.push(0);
    assert(p.drop_last() =~= counts);
    assert(p.last() == 0);
    assert(low_symbols(p) == low_symbols(counts));
    assert(dealt_symbols(p) =~= dealt_symbols(counts));
    assert(sum_abs(p) == sum_abs(counts));
    let symbols = spec_spread(counts, log);
    assert(spec_spread(p, log) == symbols);
    lemma_spread_symbols(counts, log);
    let a = spec_dtable(p, log);
    let b = spec_dtable(counts, log);
    assert forall|u: int| 0 <= u < a.entries.len() implies a.entries[u] == b.entries[u] by {
        let s = symbols[u];
        assert(s < counts.len());
        assert(p[s as int] == counts[s as int]);
    }
    assert(a.entries =~= b.entries);
}

/// A table can be used without looking at the symbols only if it has all of
/// them up to `max_symbol`.
pub open spec fn spec_ncount_repeat(norm: Seq<i16>, dict_max_symbol: u32, max_symbol: u32) -> FseRepeat {
    if dict_max_symbol < max_symbol || exists|s: int|
        0 <= s <= max_symbol && #[trigger] norm[s] == 0 {
        FseRepeat::Check
    } else {
        FseRepeat::Valid
    }
}

fn dict_ncount_repeat(norm: &Vec<i16>, dict_max_symbol: u32, max_symbol: u32) -> (r: FseRepeat)
    requires
        dict_max_symbol < norm@.len(),
        max_symbol <= 255,
    ensures
        r == spec_ncount_repeat(norm@, dict_max_symbol, max_symbol),
{
    if dict_max_symbol < max_symbol {
        return FseRepeat::Check;
    }
    let mut s: u32 = 0;
    while s <= max_symbol
        invariant
            s <= max_symbol + 1,
            max_symbol <= dict_max_symbol,
            max_symbol <= 255,
            dict_max_symbol < norm@.len(),
            forall|k: int| 0 <= k < s ==> #[trigger] norm@[k] != 0,
        decreases max_symbol + 1 - s,
    {
        if norm[s as usize] == 0 {
            return FseRepeat::Check;
        }
        s = s + 1;
    }
    FseRepeat::Valid
}

/// The counts with zeros up to `n` of them.
pub open spec fn padded(counts: Seq<i16>, n: nat) -> Seq<i16> {
    Seq::new(
        if counts.len() < n {
            n
        } else {
            counts.len()
        },
        |i: int|
            if i < counts.len() {
                counts[i]
            } else {
                0
            },
    )
}

/// The distribution at `pos` of a dictionary.
pub open spec fn dict_counts(dict: Seq<u8>, pos: nat, kind: SeqKind) -> NCountView {
    spec_read_ncount(
        dict.skip(pos as int),
        kind.spec_max_symbol(),
        kind.spec_max_log(),
    )->Ok_0
}

/// The highest offset code that matches into `size` bytes of content and a
/// block need.
pub open spec fn top_offset_code(size: nat) -> u32 {
    if size <= 4294836223 {
        highest_bit(size + 131072) as u32
    } else {
        31
    }
}

/// The entropy state that a well-formed trained dictionary gives.
#[verifier::opaque]
pub open spec fn trained_entropy(dict: Seq<u8>) -> EntropyView {
    let (weights, log, used) = spec_read_weights(dict.skip(8))->Ok_0;
    let huf = read_table_view(weights, log as u32);
    let gaps = exists|s: int| 0 <= s < weights.len() && #[trigger] huf.nb_bits[s] == 0;
    let of = dict_counts(dict, 8 + used, SeqKind::Offset);
    let p1 = 8 + used + of.bytes;
    let ml = dict_counts(dict, p1, SeqKind::MatchLength);
    let p2 = p1 + ml.bytes;
    let ll = dict_counts(dict, p2, SeqKind::LiteralLength);
    let p3 = p2 + ll.bytes;
    let of_counts = padded(of.counts, 32);
    EntropyView {
        huf: HufStateView {
            table: Some(huf),
            repeat: if !gaps && weights.len() == 256 {
                HufRepeat::Valid
            } else {
                HufRepeat::Check
            },
        },
        ll: Some(spec_ctable(ll.counts, ll.log)),
        ll_repeat: spec_ncount_repeat(ll.counts, (ll.counts.len() - 1) as u32, 35),
        of: Some(spec_ctable(of_counts, of.log)),
        of_repeat: spec_ncount_repeat(
            of_counts,
            (of.counts.len() - 1) as u32,
            top_offset_code((dict.len() - p3 - 12) as nat),
        ),
        ml: Some(spec_ctable(ml.counts, ml.log)),
        ml_repeat: spec_ncount_repeat(ml.counts, (ml.counts.len() - 1) as u32, 52),
    }
}

/// The entropy state that a well-formed dictionary gives to the first block.
pub open spec fn dict_entropy(dict: Seq<u8>) -> EntropyView {
    if dict.len() >= 8 && le32(dict, 0) == DICT_MAGIC {
        trained_entropy(dict)
    } else {
        fresh_entropy()
    }
}

/// Reads one table at `pos`, laid out for all symbols up to `pad`; gives the
/// table, its counts, how many of them were read, and the position after it.
fn read_dict_ctable(dict: &[u8], pos: usize, kind: SeqKind, pad: usize) -> (r: Option<
    (FseCTable, Vec<i16>, usize, usize),
>)
    requires
        pos <= dict@.len(),
        pad <= 54,
    ensures
        match r {
            Some((ct, norm, n, after)) => {
                &&& ct.wf()
                &&& dict_table(dict@, pos as nat, kind) == Some((ct.decoder(), after as nat))
                &&& pos <= after <= dict@.len()
                &&& 1 <= n <= norm@.len()
                &&& n <= kind.spec_max_symbol() + 1
                &&& norm@.len() <= 54
                &&& norm@.len() >= pad
                &&& forall|c: int| 0 <= c < norm@.len() ==> (ct.encodable(c) <==> #[trigger] norm@[c] != 0)
                &&& ({
                    let nc = dict_counts(dict@, pos as nat, kind);
                    &&& norm@ == padded(nc.counts, pad as nat)
                    &&& n == nc.counts.len()
                    &&& after == pos + nc.bytes
                    &&& ct@ == spec_ctable(norm@, nc.log)
                })
            },
            None => dict_table(dict@, pos as nat, kind) is None,
        },
{
    let tail = slice_subrange(dict, pos, dict.len());
    assert(tail@ =~= dict@.skip(pos as int));
    let nc = match read_ncount(tail, kind.max_symbol(), kind.max_log()) {
        Ok(nc) => nc,
        Err(_) => {
            return None;
        },
    };
    let n: usize = nc.counts.len();
    let log: u32 = nc.table_log;
    let used: usize = nc.bytes_consumed;
    let ghost counts = nc.counts@;
    let mut norm: Vec<i16> = nc.counts;
    let ghost table = spec_dtable(norm@, log as nat);
    assert(norm@ =~= padded(counts, norm@.len()));
    while norm.len() < pad
        invariant
            valid_counts(norm@, log as nat),
            spec_dtable(norm@, log as nat) == table,
            n <= norm@.len() <= 54,
            pad <= 54,
            n == counts.len(),
            norm@ == padded(counts, norm@.len()),
            n < norm@.len() ==> norm@.len() <= pad,
        decreases pad - norm@.len(),
    {
        proof {
            lemma_pad(norm@, log as nat);
        }
        norm.push(0);
        assert(norm@ =~= padded(counts, norm@.len()));
    }
    assert(norm@ =~= padded(counts, pad as nat));
    let ct = build_ctable(&norm, (norm.len() - 1) as u32, log);
    Some((ct, norm, n, pos + used))
}

/// A table that can be used without looking at the symbols covers them.
proof fn lemma_valid_covers(ct: FseCTable, norm: Seq<i16>, dict_max: u32, max: u32)
    requires
        dict_max < norm.len(),
        forall|c: int| 0 <= c < norm.len() ==> (ct.encodable(c) <==> #[trigger] norm[c] != 0),
        spec_ncount_repeat(norm, dict_max, max) == FseRepeat::Valid,
    ensures
        covers(Some(ct@), max as nat),
{
    let t = Some(ct@);
    assert forall|c: int| 0 <= c <= max implies #[trigger] t->0.encodable(c) by {
        assert(norm[c] != 0);
        assert(ct.encodable(c));
    }
}

/// Reads the tables of a trained dictionary for encoding with them. What is
/// read agrees with what a decoder makes of the dictionary.
#[verifier::rlimit(30)]
pub fn load_c_entropy(dict: &[u8]) -> (r: Result<DictCEntropy, Error>)
    requires
        dict@.len() >= 8,
    ensures
        match r {
            Ok(s) => {
                &&& formatted_dict(dict@) matches Some(d)
                &&& s.entropy.wf()
                &&& s.entropy.in_step(d.ctx)
                &&& s.entropy@ == trained_entropy(dict@)
                &&& forall|strategy: int| #[trigger] offsets_ready(s.entropy@, d.content.len(), strategy)
                &&& d.id == s.dict_id
                &&& s.entropy_size <= dict@.len()
                &&& d.content == dict@.skip(s.entropy_size as int)
                &&& s.rep@[0] == d.ctx.rep.r0
                &&& s.rep@[1] == d.ctx.rep.r1
                &&& s.rep@[2] == d.ctx.rep.r2
                &&& forall|i: int| 0 <= i < 3 ==> 1 <= #[trigger] s.rep@[i] <= d.content.len()
            },
            Err(e) => e == Error::DictionaryCorrupted && formatted_dict(dict@) is None,
        },
{
    proof {
        reveal(trained_entropy);
    }
    let corrupt = Error::DictionaryCorrupted;
    let dict_id: u32 = load4(dict, 4);
    let tail = slice_subrange(dict, 8, dict.len());
    assert(tail@ =~= dict@.skip(8));
    let (huf_ct, has_zero, used) = match read_ctable(tail) {
        Ok(p) => p,
        Err(_) => {
            return Err(corrupt);
        },
    };
    let huf_repeat = if !has_zero && huf_ct.max_symbol == 255 {
        HufRepeat::Valid
    } else {
        HufRepeat::Check
    };
    proof {
        if huf_repeat == HufRepeat::Valid {
            assert forall|s: int| 0 <= s < 256 implies #[trigger] huf_ct.encodable(s) by {
                assert(huf_ct.nb_bits@[s] != 0);
            }
        }
    }
    let (of, of_norm, of_n, p1) = match read_dict_ctable(dict, 8 + used, SeqKind::Offset, 32) {
        Some(t) => t,
        None => {
            return Err(corrupt);
        },
    };
    let (ml, ml_norm, ml_n, p2) = match read_dict_ctable(dict, p1, SeqKind::MatchLength, 0) {
        Some(t) => t,
        None => {
            return Err(corrupt);
        },
    };
    let (ll, ll_norm, ll_n, p3) = match read_dict_ctable(dict, p2, SeqKind::LiteralLength, 0) {
        Some(t) => t,
        None => {
            return Err(corrupt);
        },
    };
    if dict.len() - p3 < 12 {
        return Err(corrupt);
    }
    proof {
        assert(ml_norm@ =~= dict_counts(dict@, p1 as nat, SeqKind::MatchLength).counts);
        assert(ll_norm@ =~= dict_counts(dict@, p2 as nat, SeqKind::LiteralLength).counts);
    }
    let ml_repeat = dict_ncount_repeat(&ml_norm, (ml_n - 1) as u32, 52);
    let ll_repeat = dict_ncount_repeat(&ll_norm, (ll_n - 1) as u32, 35);
    let size: usize = dict.len() - p3 - 12;
    let mut offcode_max: u32 = 31;
    if size as u64 <= 4294836223 {
        offcode_max = highbit32(size as u32 + 131072);
    }
    let of_repeat = dict_ncount_repeat(&of_norm, (of_n - 1) as u32, offcode_max);
    let r0: u32 = load4(dict, p3);
    let r1: u32 = load4(dict, p3 + 4);
    let r2: u32 = load4(dict, p3 + 8);
    if r0 == 0 || r0 as usize > size || r1 == 0 || r1 as usize > size || r2 == 0 || r2 as usize
        > size {
        return Err(corrupt);
    }
    let ghost huf_view = huf_ct@;
    proof {
        if ll_repeat == FseRepeat::Valid {
            lemma_valid_covers(ll, ll_norm@, (ll_n - 1) as u32, 35);
        }
        if ml_repeat == FseRepeat::Valid {
            lemma_valid_covers(ml, ml_norm@, (ml_n - 1) as u32, 52);
        }
        if of_repeat == FseRepeat::Valid {
            lemma_valid_covers(of, of_norm@, (of_n - 1) as u32, offcode_max);
        }
        assert(offcode_max == top_offset_code(size as nat));
    }
    let entropy = FseEntropyState {
        huf: HufState { table: Some(huf_ct), repeat: huf_repeat },
        ll: Some(ll),
        ll_repeat,
        of: Some(of),
        of_repeat,
        ml: Some(ml),
        ml_repeat,
    };
    proof {
        let t = trained_entropy(dict@);
        assert(t.huf.table == Some(huf_view));
        assert(huf_view.nb_bits == huf_ct.nb_bits@);
        if has_zero {
            let z = choose|z: int| 0 <= z <= huf_ct.max_symbol && #[trigger] huf_ct.nb_bits@[z] == 0;
            assert(huf_view.nb_bits[z] == 0);
        }
        assert(t.huf.repeat == huf_repeat);
        assert(t.of == entropy@.of);
        assert(t.ml == entropy@.ml);
        assert(t.ll == entropy@.ll);
        assert(t.of_repeat == of_repeat);
        assert(t.ml_repeat == ml_repeat);
        assert(t.ll_repeat == ll_repeat);
        assert(formatted_dict(dict@)->0.content.len() == size);
    }
    Ok(DictCEntropy { entropy, rep: [r0, r1, r2], dict_id, entropy_size: p3 + 12 })
}

} // verus!
