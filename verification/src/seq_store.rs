//! The sequences that a block is made of, as the match finders store them,
//! and what executing them gives.

use crate::block::{exec_sequences, lemma_copy_extends, spec_copy, spec_resolve, RepView, SequenceView};
use crate::error::Error;
use vstd::prelude::*;

verus! {

pub const MIN_MATCH: u32 = 3;

/// One stored sequence. `off_base` is the offset plus 3, or 1 to 3 for a
/// recent offset; the lengths are cut to 16 bits (`ml_base` is the match
/// length less 3), with one long-length marker per store for the rare longer
/// ones.
#[derive(Clone, Copy)]
pub struct SeqDef {
    pub off_base: u32,
    pub lit_length: u16,
    pub ml_base: u16,
}

/// Which length of the marked sequence is 65536 more than stored.
#[derive(Clone, Copy, PartialEq, Eq, Debug, Structural)]
pub enum LongLengthType {
    Neither,
    LiteralLength,
    MatchLength,
}

/// What a stored sequence says: an offset value, a number of literals, and a
/// match length.
pub struct Triple {
    pub of_value: nat,
    pub lit_len: nat,
    pub match_len: nat,
}

/// The literals of a block in one buffer, and the sequences that refer to
/// them.
pub struct SeqStore {
    pub literals: Vec<u8>,
    pub sequences: Vec<SeqDef>,
    pub long_length_type: LongLengthType,
    pub long_length_pos: u32,
}

/// The full meaning of a stored sequence.
pub open spec fn full_triple(d: SeqDef, long_lit: bool, long_match: bool) -> Triple {
    Triple {
        of_value: d.off_base as nat,
        lit_len: d.lit_length as nat + if long_lit {
            65536nat
        } else {
            0
        },
        match_len: d.ml_base as nat + 3 + if long_match {
            65536nat
        } else {
            0
        },
    }
}

/// Literals that the sequences take.
pub open spec fn lit_total(q: Seq<Triple>) -> nat
    decreases q.len(),
{
    if q.len() == 0 {
        0
    } else {
        lit_total(q.drop_last()) + q.last().lit_len
    }
}

/// Bytes that the sequences regenerate.
pub open spec fn triple_total(q: Seq<Triple>) -> nat
    decreases q.len(),
{
    if q.len() == 0 {
        0
    } else {
        triple_total(q.drop_last()) + q.last().lit_len + q.last().match_len
    }
}

pub proof fn lemma_lit_total(q: Seq<Triple>)
    ensures
        lit_total(q) <= triple_total(q),
    decreases q.len(),
{
    if q.len() > 0 {
        lemma_lit_total(q.drop_last());
    }
}

impl SeqStore {
    /// The stored sequences.
    pub open spec fn triples(&self) -> Seq<Triple> {
        Seq::new(
            self.sequences@.len(),
            |i: int|
                full_triple(
                    self.sequences@[i],
                    self.long_length_type == LongLengthType::LiteralLength && self.long_length_pos
                        == i,
                    self.long_length_type == LongLengthType::MatchLength && self.long_length_pos
                        == i,
                ),
        )
    }

    pub open spec fn wf(&self) -> bool {
        &&& triple_total(self.triples()) <= 131072
        &&& lit_total(self.triples()) <= self.literals@.len()
        &&& self.literals@.len() + triple_total(self.triples()) - lit_total(self.triples()) <= 131072
        &&& self.long_length_type != LongLengthType::Neither ==> self.long_length_pos
            < self.sequences@.len() && triple_total(self.triples()) >= 65539
        &&& forall|i: int|
            0 <= i < self.sequences@.len() ==> (#[trigger] self.sequences@[i]).off_base >= 1
        &&& 3 * self.sequences@.len() <= triple_total(self.triples())
    }

    pub fn new() -> (r: Self)
        ensures
            r.wf(),
            r.triples() == Seq::<Triple>::empty(),
            r.literals@ == Seq::<u8>::empty(),
    {
        let r = SeqStore {
            literals: Vec::new(),
            sequences: Vec::new(),
            long_length_type: LongLengthType::Neither,
            long_length_pos: 0,
        };
        assert(r.triples() =~= Seq::<Triple>::empty());
        r
    }

    /// Appends `literals` and one sequence with a match of `match_len` bytes.
    pub fn store_seq(&mut self, literals: &[u8], off_base: u32, match_len: u32)
        requires
            old(self).wf(),
            lit_total(old(self).triples()) == old(self).literals@.len(),
            off_base >= 1,
            match_len >= 3,
            triple_total(old(self).triples()) + literals@.len() + match_len <= 131072,
        ensures
            final(self).wf(),
            final(self).literals@ == old(self).literals@ + literals@,
            final(self).triples() == old(self).triples().push(
                Triple {
                    of_value: off_base as nat,
                    lit_len: literals@.len(),
                    match_len: match_len as nat,
                },
            ),
            lit_total(final(self).triples()) == final(self).literals@.len(),
    {
        let ghost q = self.triples();
        let lit_length: usize = literals.len();
        self.literals.extend_from_slice(literals);
        let n: usize = self.sequences.len();
        if lit_length > 0xFFFF {
            self.long_length_type = LongLengthType::LiteralLength;
            self.long_length_pos = n as u32;
        }
        let ml_base: u32 = match_len - MIN_MATCH;
        if ml_base > 0xFFFF {
            self.long_length_type = LongLengthType::MatchLength;
            self.long_length_pos = n as u32;
        }
        let ll16: u16 = (lit_length % 65536) as u16;
        let ml16: u16 = (ml_base % 65536) as u16;
        self.sequences.push(SeqDef { off_base, lit_length: ll16, ml_base: ml16 });
        proof {
            let t = Triple {
                of_value: off_base as nat,
                lit_len: literals@.len(),
                match_len: match_len as nat,
            };
            let q1 = self.triples();
            assert forall|i: int| 0 <= i < n implies q1[i] == q[i] by {
                assert(self.sequences@[i] == old(self).sequences@[i]);
            }
            assert(q1 =~= q.push(t));
            assert(q.push(t).drop_last() =~= q);
        }
    }

    /// Whether no offset that a sequence gives is larger than `reach`.
    pub fn is_near(&self, reach: u64) -> (r: bool)
        requires
            self.wf(),
            reach <= 0x1_0000_0000,
        ensures
            r == near_values(self.triples(), reach as nat),
    {
        let mut i: usize = 0;
        while i < self.sequences.len()
            invariant
                i <= self.sequences@.len(),
                reach <= 0x1_0000_0000,
                self.wf(),
                forall|k: int|
                    0 <= k < i ==> (#[trigger] self.triples()[k]).of_value <= reach + 3,
            decreases self.sequences@.len() - i,
        {
            if self.sequences[i].off_base as u64 > reach + 3 {
                assert(self.triples()[i as int].of_value > reach + 3);
                return false;
            }
            i = i + 1;
        }
        true
    }

    /// Appends the literals after the last sequence.
    pub fn store_last_literals(&mut self, literals: &[u8])
        requires
            old(self).wf(),
            old(self).literals@.len() + triple_total(old(self).triples()) - lit_total(
                old(self).triples(),
            ) + literals@.len() <= 131072,
        ensures
            final(self).wf(),
            final(self).triples() == old(self).triples(),
            final(self).literals@ == old(self).literals@ + literals@,
    {
        self.literals.extend_from_slice(literals);
        assert(self.triples() =~= old(self).triples());
    }
}

// ---------------------------------------------------------------------------
// Executing stored sequences.

/// The point that executing sequences has reached: the history, the recent
/// offsets, and the literals used.
pub struct ReplayState {
    pub hist: Seq<u8>,
    pub rep: RepView,
    pub lit_pos: nat,
}

/// One more sequence executed.
pub open spec fn apply_triple(st: ReplayState, t: Triple, lits: Seq<u8>) -> Option<ReplayState> {
    match spec_resolve(t.of_value, t.lit_len, st.rep) {
        Err(_) => None,
        Ok((offset, rep)) => {
            let h1 = st.hist + lits.subrange(st.lit_pos as int, (st.lit_pos + t.lit_len) as int);
            if st.lit_pos + t.lit_len > lits.len() || offset > h1.len() {
                None
            } else {
                Some(
                    ReplayState {
                        hist: spec_copy(h1, offset, t.match_len),
                        rep,
                        lit_pos: st.lit_pos + t.lit_len,
                    },
                )
            }
        },
    }
}

/// All of `q` executed.
pub open spec fn replay(q: Seq<Triple>, lits: Seq<u8>, st: ReplayState) -> Option<ReplayState>
    decreases q.len(),
{
    if q.len() == 0 {
        Some(st)
    } else {
        match replay(q.drop_last(), lits, st) {
            None => None,
            Some(s) => apply_triple(s, q.last(), lits),
        }
    }
}

/// Executing from the front gives the same.
pub proof fn lemma_replay_front(q: Seq<Triple>, lits: Seq<u8>, st: ReplayState)
    requires
        q.len() > 0,
    ensures
        replay(q, lits, st) == match apply_triple(st, q[0], lits) {
            None => None,
            Some(s) => replay(q.skip(1), lits, s),
        },
    decreases q.len(),
{
    if q.len() == 1 {
        assert(q.drop_last() =~= Seq::<Triple>::empty());
        assert(q.skip(1) =~= Seq::<Triple>::empty());
        reveal_with_fuel(replay, 2);
    } else {
        lemma_replay_front(q.drop_last(), lits, st);
        assert(q.drop_last().skip(1) =~= q.skip(1).drop_last());
        assert(q.skip(1).last() == q.last());
        match apply_triple(st, q[0], lits) {
            None => {},
            Some(s) => {
                assert(replay(q.skip(1), lits, s) == match replay(
                    q.skip(1).drop_last(),
                    lits,
                    s,
                ) {
                    None => None,
                    Some(x) => apply_triple(x, q.skip(1).last(), lits),
                });
            },
        }
    }
}

/// More literals at the end change nothing.
pub proof fn lemma_replay_more_literals(q: Seq<Triple>, lits: Seq<u8>, more: Seq<u8>, st: ReplayState)
    requires
        replay(q, lits, st) is Some,
    ensures
        replay(q, lits + more, st) == replay(q, lits, st),
    decreases q.len(),
{
    if q.len() > 0 {
        lemma_replay_more_literals(q.drop_last(), lits, more, st);
        let s = replay(q.drop_last(), lits, st)->0;
        let t = q.last();
        assert((lits + more).subrange(s.lit_pos as int, (s.lit_pos + t.lit_len) as int)
            =~= lits.subrange(s.lit_pos as int, (s.lit_pos + t.lit_len) as int));
    }
}

/// What is used and regenerated.
pub proof fn lemma_replay_counts(q: Seq<Triple>, lits: Seq<u8>, st: ReplayState)
    requires
        replay(q, lits, st) is Some,
    ensures
        replay(q, lits, st)->0.lit_pos == st.lit_pos + lit_total(q),
        replay(q, lits, st)->0.hist.len() == st.hist.len() + triple_total(q),
        lit_total(q) <= triple_total(q),
    decreases q.len(),
{
    if q.len() > 0 {
        lemma_replay_counts(q.drop_last(), lits, st);
        let s = replay(q.drop_last(), lits, st)->0;
        let t = q.last();
        let (offset, rep) = spec_resolve(t.of_value, t.lit_len, s.rep)->Ok_0;
        let h1 = s.hist + lits.subrange(s.lit_pos as int, (s.lit_pos + t.lit_len) as int);
        lemma_copy_extends(h1, offset, t.match_len);
    }
}

/// No offset that a sequence gives is larger than `reach`.
pub open spec fn near_values(q: Seq<Triple>, reach: nat) -> bool {
    forall|i: int| 0 <= i < q.len() ==> (#[trigger] q[i]).of_value <= reach + 3
}

/// The recent offsets are at least 1 and at most `reach`.
pub open spec fn near_offsets(rep: RepView, reach: nat) -> bool {
    1 <= rep.r0 <= reach && 1 <= rep.r1 <= reach && 1 <= rep.r2 <= reach
}

/// Sequences that reach no further than `reach` execute alike where only so
/// much of the history is left.
pub proof fn lemma_replay_near(
    q: Seq<Triple>,
    lits: Seq<u8>,
    p: Seq<u8>,
    h: Seq<u8>,
    rep: RepView,
    reach: nat,
)
    requires
        replay(q, lits, ReplayState { hist: p + h, rep, lit_pos: 0 }) is Some,
        near_values(q, reach),
        near_offsets(rep, reach),
        p.len() == 0 || reach <= h.len(),
        forall|i: int| 0 <= i < q.len() ==> (#[trigger] q[i]).of_value >= 1,
    ensures
        ({
            let a = replay(q, lits, ReplayState { hist: p + h, rep, lit_pos: 0 })->0;
            &&& replay(q, lits, ReplayState { hist: h, rep, lit_pos: 0 }) matches Some(b)
            &&& a.hist == p + b.hist
            &&& a.rep == b.rep
            &&& a.lit_pos == b.lit_pos
            &&& near_offsets(a.rep, reach)
            &&& b.hist.len() >= h.len()
        }),
    decreases q.len(),
{
    if q.len() > 0 {
        let q0 = q.drop_last();
        assert forall|i: int| 0 <= i < q0.len() implies (#[trigger] q0[i]).of_value <= reach + 3
            && q0[i].of_value >= 1 by {
            assert(q0[i] == q[i]);
        }
        lemma_replay_near(q0, lits, p, h, rep, reach);
        let a = replay(q0, lits, ReplayState { hist: p + h, rep, lit_pos: 0 })->0;
        let b = replay(q0, lits, ReplayState { hist: h, rep, lit_pos: 0 })->0;
        let t = q.last();
        assert(t == q[q.len() - 1]);
        let (offset, rep1) = spec_resolve(t.of_value, t.lit_len, a.rep)->Ok_0;
        let piece = lits.subrange(a.lit_pos as int, (a.lit_pos + t.lit_len) as int);
        let h1 = b.hist + piece;
        assert(a.hist + piece =~= p + h1);
        if p.len() == 0 {
            assert(p + h1 =~= h1);
        }
        assert(1 <= offset <= h1.len());
        crate::stream_laws::lemma_copy_prefix(p, h1, offset, t.match_len);
        lemma_copy_extends(h1, offset, t.match_len);
    }
}

/// The sequences with their offsets resolved, and the recent offsets after
/// them.
pub open spec fn resolve_seq(q: Seq<Triple>, rep: RepView) -> Result<
    (Seq<SequenceView>, RepView),
    Error,
>
    decreases q.len(),
{
    if q.len() == 0 {
        Ok((Seq::empty(), rep))
    } else {
        match spec_resolve(q[0].of_value, q[0].lit_len, rep) {
            Err(e) => Err(e),
            Ok((offset, r1)) => match resolve_seq(q.skip(1), r1) {
                Err(e) => Err(e),
                Ok((vs, r2)) => Ok(
                    (
                        seq![
                            SequenceView {
                                lit_len: q[0].lit_len,
                                offset,
                                match_len: q[0].match_len,
                            },
                        ] + vs,
                        r2,
                    ),
                ),
            },
        }
    }
}

/// What executes also resolves, and the decoder executes it the same way.
pub proof fn lemma_replay_exec(
    q: Seq<Triple>,
    lits: Seq<u8>,
    st: ReplayState,
    before: Seq<SequenceView>,
    h0: nat,
    block_max: nat,
    room: int,
)
    requires
        replay(q, lits, st) is Some,
        replay(q, lits, st)->0.hist.len() - h0 <= block_max,
        replay(q, lits, st)->0.hist.len() - h0 <= room,
    ensures
        resolve_seq(q, st.rep) is Ok,
        resolve_seq(q, st.rep)->Ok_0.1 == replay(q, lits, st)->0.rep,
        resolve_seq(q, st.rep)->Ok_0.0.len() == q.len(),
        exec_sequences(
            before + resolve_seq(q, st.rep)->Ok_0.0,
            before.len(),
            lits,
            st.lit_pos,
            st.hist,
            h0,
            block_max,
            room,
        ) == Ok::<(Seq<u8>, nat), Error>(
            (replay(q, lits, st)->0.hist, replay(q, lits, st)->0.lit_pos),
        ),
    decreases q.len(),
{
    if q.len() == 0 {
        assert(before + Seq::<SequenceView>::empty() =~= before);
    } else {
        lemma_replay_front(q, lits, st);
        let t = q[0];
        let s = apply_triple(st, t, lits)->0;
        let (offset, r1) = spec_resolve(t.of_value, t.lit_len, st.rep)->Ok_0;
        let v = SequenceView { lit_len: t.lit_len, offset, match_len: t.match_len };
        lemma_replay_exec(q.skip(1), lits, s, before.push(v), h0, block_max, room);
        lemma_replay_counts(q.skip(1), lits, s);
        let vs = resolve_seq(q.skip(1), r1)->Ok_0.0;
        assert(before.push(v) + vs =~= before + (seq![v] + vs));
        assert((before + (seq![v] + vs))[before.len() as int] == v);
    }
}

} // verus!
