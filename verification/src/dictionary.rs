//! Dictionary parsing.
//!
//! A dictionary is either formatted (the magic number, a 4-byte ID, one
//! Huffman table, the offset, match-length and literal-length FSE tables,
//! three 32-bit repeat offsets, and the content) or raw content: any other
//! buffer, used as window history with no tables and the default offsets.

use crate::{fse, huffman};
use crate::block::{copy_table, fresh_ctx, rep_view, to_vec, CtxView, FrameContext, RepView, SeqKind};
use crate::error::Error;
use crate::fse::{spec_dtable, spec_read_ncount, FseTable, FseTableView};
use crate::huffman::{spec_read_table, HuffmanTable};
use crate::math::{bits_at, load4};
use vstd::prelude::*;
use vstd::slice::slice_subrange;

verus! {

/// The number that a formatted dictionary starts with.
pub const DICT_MAGIC: u32 = 0xEC30_A437;

/// A parsed dictionary, ready to seed decompression.
pub struct Dictionary {
    id: u32,
    content: Vec<u8>,
    huffman: Option<HuffmanTable>,
    ll: Option<FseTable>,
    of: Option<FseTable>,
    ml: Option<FseTable>,
    rep: [u64; 3],
}

/// What a dictionary holds: its ID, the window history, and the context that
/// a frame starts from.
pub struct DictView {
    pub id: u32,
    pub content: Seq<u8>,
    pub ctx: CtxView,
}

impl View for Dictionary {
    type V = DictView;

    closed spec fn view(&self) -> DictView {
        DictView {
            id: self.id,
            content: self.content@,
            ctx: CtxView {
                huffman: huffman::opt_view(self.huffman),
                ll: fse::opt_view(self.ll),
                of: fse::opt_view(self.of),
                ml: fse::opt_view(self.ml),
                rep: rep_view(self.rep),
            },
        }
    }
}

/// A raw-content dictionary.
pub open spec fn raw_dict(content: Seq<u8>) -> DictView {
    DictView { id: 0, content, ctx: fresh_ctx() }
}

/// The 32-bit little-endian number at `at`.
pub open spec fn le32(s: Seq<u8>, at: nat) -> nat {
    bits_at(s, 8 * at, 32)
}

/// The table described at `pos`, and the position after it.
pub open spec fn dict_table(bytes: Seq<u8>, pos: nat, kind: SeqKind) -> Option<(FseTableView, nat)> {
    match spec_read_ncount(
        bytes.skip(pos as int),
        kind.spec_max_symbol(),
        kind.spec_max_log(),
    ) {
        Err(_) => None,
        Ok(nc) => Some((spec_dtable(nc.counts, nc.log), pos + nc.bytes)),
    }
}

/// A formatted dictionary, where `bytes` is well formed.
pub open spec fn formatted_dict(bytes: Seq<u8>) -> Option<DictView> {
    match spec_read_table(bytes.skip(8)) {
        Err(_) => None,
        Ok((huf, used)) => match dict_table(bytes, 8 + used, SeqKind::Offset) {
            None => None,
            Some((of, p1)) => match dict_table(bytes, p1, SeqKind::MatchLength) {
                None => None,
                Some((ml, p2)) => match dict_table(bytes, p2, SeqKind::LiteralLength) {
                    None => None,
                    Some((ll, p3)) => {
                        let content = bytes.skip(p3 as int + 12);
                        let rep = RepView {
                            r0: le32(bytes, p3),
                            r1: le32(bytes, p3 + 4),
                            r2: le32(bytes, p3 + 8),
                        };
                        if bytes.len() < p3 + 12 {
                            None
                        } else if rep.r0 == 0 || rep.r0 > content.len() || rep.r1 == 0 || rep.r1
                            > content.len() || rep.r2 == 0 || rep.r2 > content.len() {
                            None
                        } else {
                            Some(
                                DictView {
                                    id: le32(bytes, 4) as u32,
                                    content,
                                    ctx: CtxView {
                                        huffman: Some(huf),
                                        ll: Some(ll),
                                        of: Some(of),
                                        ml: Some(ml),
                                        rep,
                                    },
                                },
                            )
                        }
                    },
                },
            },
        },
    }
}

/// What a dictionary buffer stands for.
pub open spec fn spec_dictionary(bytes: Seq<u8>) -> Result<DictView, Error> {
    if bytes.len() >= 8 && le32(bytes, 0) == DICT_MAGIC {
        match formatted_dict(bytes) {
            None => Err(Error::DictionaryCorrupted),
            Some(d) => Ok(d),
        }
    } else {
        Ok(raw_dict(bytes))
    }
}

pub open spec fn dict_result(r: Result<Dictionary, Error>) -> Result<DictView, Error> {
    match r {
        Ok(d) => Ok(d@),
        Err(e) => Err(e),
    }
}

impl Dictionary {
    #[verifier::type_invariant]
    spec fn inv(self) -> bool {
        self@.ctx.wf()
    }

    /// Parses a dictionary buffer.
    ///
    /// A buffer of at least 8 bytes that begins with the dictionary magic is
    /// parsed as a formatted dictionary, and refused where it is malformed;
    /// anything else, shorter buffers with the magic too, is raw content.
    pub fn new(bytes: &[u8]) -> (r: Result<Self, Error>)
        ensures
            dict_result(r) == spec_dictionary(bytes@),
    {
        if bytes.len() >= 8 && load4(bytes, 0) == DICT_MAGIC {
            Self::parse_formatted(bytes)
        } else {
            Ok(Self::raw_content(bytes))
        }
    }

    /// Treats `content` as a raw-content dictionary: window history with the
    /// default repeat offsets and no tables. The dictionary ID is zero.
    pub fn raw_content(content: &[u8]) -> (r: Self)
        ensures
            r@ == raw_dict(content@),
    {
        Dictionary {
            id: 0,
            content: to_vec(content),
            huffman: None,
            ll: None,
            of: None,
            ml: None,
            rep: [1, 4, 8],
        }
    }

    /// The dictionary ID, or zero for a raw-content dictionary.
    pub fn id(&self) -> (r: u32)
        ensures
            r == self@.id,
    {
        self.id
    }

    fn parse_formatted(bytes: &[u8]) -> (r: Result<Self, Error>)
        requires
            bytes@.len() >= 8,
        ensures
            dict_result(r) == match formatted_dict(bytes@) {
                None => Err::<DictView, Error>(Error::DictionaryCorrupted),
                Some(d) => Ok(d),
            },
    {
        let corrupt = Error::DictionaryCorrupted;
        let id: u32 = load4(bytes, 4);
        let tail = slice_subrange(bytes, 8, bytes.len());
        assert(tail@ =~= bytes@.skip(8));
        let (huffman, used) = match huffman::read_table(tail) {
            Ok(p) => p,
            Err(_) => {
                return Err(corrupt);
            },
        };
        let (of, p1) = match read_dict_fse(bytes, 8 + used, SeqKind::Offset) {
            Some(p) => p,
            None => {
                return Err(corrupt);
            },
        };
        let (ml, p2) = match read_dict_fse(bytes, p1, SeqKind::MatchLength) {
            Some(p) => p,
            None => {
                return Err(corrupt);
            },
        };
        let (ll, p3) = match read_dict_fse(bytes, p2, SeqKind::LiteralLength) {
            Some(p) => p,
            None => {
                return Err(corrupt);
            },
        };
        if bytes.len() - p3 < 12 {
            return Err(corrupt);
        }
        let content = slice_subrange(bytes, p3 + 12, bytes.len());
        assert(content@ =~= bytes@.skip(p3 + 12));
        let r0: u32 = load4(bytes, p3);
        let r1: u32 = load4(bytes, p3 + 4);
        let r2: u32 = load4(bytes, p3 + 8);
        if r0 == 0 || r0 as usize > content.len() || r1 == 0 || r1 as usize > content.len() || r2
            == 0 || r2 as usize > content.len() {
            return Err(corrupt);
        }
        Ok(
            Dictionary {
                id,
                content: to_vec(content),
                huffman: Some(huffman),
                ll: Some(ll),
                of: Some(of),
                ml: Some(ml),
                rep: [r0 as u64, r1 as u64, r2 as u64],
            },
        )
    }

    /// The window history that the dictionary supplies.
    pub fn content(&self) -> (r: &[u8])
        ensures
            r@ == self@.content,
    {
        self.content.as_slice()
    }

    /// The context that a frame decoded with this dictionary starts from.
    pub fn context(&self) -> (r: FrameContext)
        ensures
            r@ == self@.ctx,
            r@.wf(),
    {
        proof {
            use_type_invariant(self);
        }
        FrameContext {
            huffman: match &self.huffman {
                Some(t) => Some(t.duplicate()),
                None => None,
            },
            ll: copy_table(&self.ll),
            of: copy_table(&self.of),
            ml: copy_table(&self.ml),
            rep: self.rep,
        }
    }
}

/// Reads one FSE table of a formatted dictionary; gives the position after it.
fn read_dict_fse(bytes: &[u8], pos: usize, kind: SeqKind) -> (r: Option<(FseTable, usize)>)
    requires
        pos <= bytes@.len(),
    ensures
        match r {
            Some((t, p)) => {
                &&& dict_table(bytes@, pos as nat, kind) == Some((t@, p as nat))
                &&& p <= bytes@.len()
                &&& t@.wf()
                &&& t@.bounded(kind.spec_max_symbol())
            },
            None => dict_table(bytes@, pos as nat, kind) is None,
        },
{
    let tail = slice_subrange(bytes, pos, bytes.len());
    assert(tail@ =~= bytes@.skip(pos as int));
    match fse::read_ncount(tail, kind.max_symbol(), kind.max_log()) {
        Ok(nc) => {
            proof {
                fse::lemma_dtable_wf(nc.counts@, nc.table_log as nat, kind.spec_max_symbol());
            }
            match fse::build_dtable(&nc.counts, nc.table_log) {
                Ok(t) => Some((t, pos + nc.bytes_consumed)),
                Err(_) => None,
            }
        },
        Err(_) => None,
    }
}

} // verus!
