//! The sequence bitstream, and whole compressed blocks: the literals section
//! followed by the sequences section.

use crate::bits_encode::{
    append_field, lemma_append_bound, lemma_open_closed, lemma_take_field, stream_holds, BitCStream, Bits,
};
use crate::block::{
    advance_states, decode_sequences, section_tables, sequence_count, sequence_fields, spec_compressed_block,
    spec_decode_sequences, spec_literals, spec_resolve, spec_sequence_table, spec_sequences_section, start_cursor,
    CtxView, LitView, RepView, SeqCursor, SeqKind, SeqTables, SequenceView, LL_BITS, ML_BITS,
};
use crate::block_encode_model::{
    count_bytes, covers, fresh_entropy, last_described, ll_codes_of, ml_codes_of, modes_moved, of_codes_of,
    offsets_served, sequences_appended, sequences_section, sequences_stream, spec_body, spec_components,
    ComponentView, ComponentsView, EntropyView, SeqTablesView,
};
use crate::error::Error;
use crate::fse::FseTableView;
use crate::fse_encode::{encode_symbol, flush_cstate, init_cstate2, lemma_decode_state, lemma_decode_step, FseCTable};
use crate::fse_encode_model::FseCView;
use crate::huffman::HuffmanTableView;
use crate::literals_encode::{compress_literals_with, min_gain, section_ok, spec_min_gain, HufState};
use crate::seq_codes::{all_codes_hold, codes_hold, lemma_extras, seq_to_codes};
use crate::seq_store::{
    lemma_lit_total, lemma_replay_counts, lemma_replay_exec, replay, resolve_seq, ReplayState, SeqDef, SeqStore,
    Triple,
};
use crate::seq_tables::{build_component, encodes_all, gives_table, FseRepeat, SymbolEncodingType};
use vstd::arithmetic::div_mod::lemma_fundamental_div_mod_converse;
use vstd::arithmetic::power2::{lemma2_to64, pow2};
use vstd::prelude::*;

verus! {

/// `LONG_NB_SEQ` and above, the number of sequences takes three bytes.
pub const LONG_NB_SEQ: usize = 0x7F00;

/// The decoding tables of three encoding tables.
pub open spec fn tables_of(ll: &FseCTable, of: &FseCTable, ml: &FseCTable) -> SeqTables {
    SeqTables { ll: ll.decoder(), of: of.decoder(), ml: ml.decoder() }
}

/// The encoder's states, as the decoder counts them.
pub open spec fn cursor_at(
    ll: &FseCTable,
    of: &FseCTable,
    ml: &FseCTable,
    rem: int,
    x_ll: u32,
    x_of: u32,
    x_ml: u32,
    rep: RepView,
) -> SeqCursor {
    SeqCursor {
        rem,
        ll: (x_ll - ll.size()) as nat,
        of: (x_of - of.size()) as nat,
        ml: (x_ml - ml.size()) as nat,
        rep,
    }
}

/// What decoding `q` must give: the sequences of `q` after `done`, every bit
/// used, and the recent offsets after `q`.
pub open spec fn decoded_as(
    r: Result<(Seq<SequenceView>, SeqCursor), Error>,
    q: Seq<Triple>,
    rep: RepView,
    done: Seq<SequenceView>,
) -> bool {
    resolve_seq(q, rep) is Ok ==> {
        &&& r is Ok
        &&& r->Ok_0.0 == done + resolve_seq(q, rep)->Ok_0.0
        &&& r->Ok_0.1.rem == 0
        &&& r->Ok_0.1.rep == resolve_seq(q, rep)->Ok_0.1
    }
}

/// From the three states on, the decoder yields `q`.
pub open spec fn seq_yields(
    ll: &FseCTable,
    of: &FseCTable,
    ml: &FseCTable,
    b: Bits,
    x_ll: u32,
    x_of: u32,
    x_ml: u32,
    q: Seq<Triple>,
) -> bool {
    forall|data: Seq<u8>, rep: RepView, done: Seq<SequenceView>|
        stream_holds(data, b) ==> decoded_as(
            #[trigger] decode_sequences(
                tables_of(ll, of, ml),
                data,
                cursor_at(ll, of, ml, b.len as int, x_ll, x_of, x_ml, rep),
                q.len(),
                done,
            ),
            q,
            rep,
            done,
        )
}

/// The extra bits of one sequence, in the order they are written.
pub open spec fn extra_bits(b: Bits, d: SeqDef, lc: int, oc: int, mc: int) -> Bits {
    append_field(
        append_field(
            append_field(b, d.lit_length as nat, LL_BITS[lc] as nat),
            d.ml_base as nat,
            ML_BITS[mc] as nat,
        ),
        d.off_base as nat,
        oc as nat,
    )
}

/// The decoder takes the extra bits off again and has the sequence.
proof fn lemma_fields(
    t: SeqTables,
    data: Seq<u8>,
    c: SeqCursor,
    b: Bits,
    q: Triple,
    d: SeqDef,
    lc: int,
    oc: int,
    mc: int,
)
    requires
        codes_hold(q, d, lc, oc, mc),
        b.num < pow2(b.len),
        stream_holds(data, extra_bits(b, d, lc, oc, mc)),
        c.rem == extra_bits(b, d, lc, oc, mc).len,
        t.ll.symbol(c.ll) == lc,
        t.of.symbol(c.of) == oc,
        t.ml.symbol(c.ml) == mc,
    ensures
        sequence_fields(t, data, c) == (q.of_value, q.match_len, q.lit_len, b.len as int),
        stream_holds(data, b),
{
    let b1 = append_field(b, d.lit_length as nat, LL_BITS[lc] as nat);
    let b2 = append_field(b1, d.ml_base as nat, ML_BITS[mc] as nat);
    lemma_append_bound(b, d.lit_length as nat, LL_BITS[lc] as nat);
    lemma_append_bound(b1, d.ml_base as nat, ML_BITS[mc] as nat);
    lemma_take_field(data, b2, d.off_base as nat, oc as nat);
    lemma_take_field(data, b1, d.ml_base as nat, ML_BITS[mc] as nat);
    lemma_take_field(data, b, d.lit_length as nat, LL_BITS[lc] as nat);
    let p = pow2(oc as nat) as int;
    lemma_fundamental_div_mod_converse(d.off_base as int, p, 1, d.off_base - p);
}

/// One sequence in front of those already encoded.
#[verifier::rlimit(30)]
proof fn lemma_seq_step(
    ll: &FseCTable,
    of: &FseCTable,
    ml: &FseCTable,
    b: Bits,
    x: (u32, u32, u32),
    y: (u32, u32, u32),
    q: Seq<Triple>,
    t: Triple,
    d: SeqDef,
    lc: int,
    oc: int,
    mc: int,
)
    requires
        ll.wf(),
        of.wf(),
        ml.wf(),
        codes_hold(t, d, lc, oc, mc),
        ll.encodable(lc),
        of.encodable(oc),
        ml.encodable(mc),
        ll.size() <= x.0 < 2 * ll.size(),
        of.size() <= x.1 < 2 * of.size(),
        ml.size() <= x.2 < 2 * ml.size(),
        y.0 == ll.next(lc, x.0 as nat),
        y.1 == of.next(oc, x.1 as nat),
        y.2 == ml.next(mc, x.2 as nat),
        b.num < pow2(b.len),
        q.len() >= 1,
        seq_yields(ll, of, ml, b, x.0, x.1, x.2, q),
    ensures
        ({
            let b1 = append_field(b, x.1 as nat, of.nb_out(oc, x.1 as nat));
            let b2 = append_field(b1, x.2 as nat, ml.nb_out(mc, x.2 as nat));
            let b3 = append_field(b2, x.0 as nat, ll.nb_out(lc, x.0 as nat));
            seq_yields(
                ll,
                of,
                ml,
                extra_bits(b3, d, lc, oc, mc),
                y.0,
                y.1,
                y.2,
                seq![t] + q,
            )
        }),
{
    let b1 = append_field(b, x.1 as nat, of.nb_out(oc, x.1 as nat));
    let b2 = append_field(b1, x.2 as nat, ml.nb_out(mc, x.2 as nat));
    let b3 = append_field(b2, x.0 as nat, ll.nb_out(lc, x.0 as nat));
    let b4 = extra_bits(b3, d, lc, oc, mc);
    lemma_append_bound(b, x.1 as nat, of.nb_out(oc, x.1 as nat));
    lemma_append_bound(b1, x.2 as nat, ml.nb_out(mc, x.2 as nat));
    lemma_append_bound(b2, x.0 as nat, ll.nb_out(lc, x.0 as nat));
    let tt = tables_of(ll, of, ml);
    let all = seq![t] + q;
    assert(all.skip(1) =~= q);
    assert(ll.step_ok(lc, x.0 as nat));
    assert(of.step_ok(oc, x.1 as nat));
    assert(ml.step_ok(mc, x.2 as nat));
    assert forall|data: Seq<u8>, rep: RepView, done: Seq<SequenceView>|
        stream_holds(data, b4) implies decoded_as(
        #[trigger] decode_sequences(
            tt,
            data,
            cursor_at(ll, of, ml, b4.len as int, y.0, y.1, y.2, rep),
            all.len(),
            done,
        ),
        all,
        rep,
        done,
    ) by {
        if resolve_seq(all, rep) is Ok {
            let c = cursor_at(ll, of, ml, b4.len as int, y.0, y.1, y.2, rep);
            lemma_fields(tt, data, c, b3, t, d, lc, oc, mc);
            lemma_decode_step(ll, lc, x.0 as nat, data, b2);
            lemma_decode_step(ml, mc, x.2 as nat, data, b1);
            lemma_decode_step(of, oc, x.1 as nat, data, b);
            let (offset, r1) = spec_resolve(t.of_value, t.lit_len, rep)->Ok_0;
            let v = SequenceView { lit_len: t.lit_len, offset, match_len: t.match_len };
            let c1 = advance_states(tt, data, c, b3.len as int, r1);
            assert(c1 == cursor_at(ll, of, ml, b.len as int, x.0, x.1, x.2, r1));
            let vs = resolve_seq(q, r1)->Ok_0.0;
            assert(done.push(v) + vs =~= done + (seq![v] + vs));
            assert(decoded_as(
                decode_sequences(tt, data, c1, q.len(), done.push(v)),
                q,
                r1,
                done.push(v),
            ));
        }
    }
}

/// The last sequence alone.
proof fn lemma_seq_last(
    ll: &FseCTable,
    of: &FseCTable,
    ml: &FseCTable,
    x: (u32, u32, u32),
    t: Triple,
    d: SeqDef,
    lc: int,
    oc: int,
    mc: int,
)
    requires
        codes_hold(t, d, lc, oc, mc),
        ll.decoder().symbol((x.0 - ll.size()) as nat) == lc,
        of.decoder().symbol((x.1 - of.size()) as nat) == oc,
        ml.decoder().symbol((x.2 - ml.size()) as nat) == mc,
    ensures
        seq_yields(
            ll,
            of,
            ml,
            extra_bits(Bits { num: 0, len: 0 }, d, lc, oc, mc),
            x.0,
            x.1,
            x.2,
            seq![t],
        ),
{
    let b = Bits { num: 0, len: 0 };
    let b4 = extra_bits(b, d, lc, oc, mc);
    let tt = tables_of(ll, of, ml);
    let all = seq![t];
    lemma2_to64();
    assert(all.skip(1) =~= Seq::<Triple>::empty());
    reveal_with_fuel(resolve_seq, 2);
    reveal_with_fuel(decode_sequences, 2);
    assert forall|data: Seq<u8>, rep: RepView, done: Seq<SequenceView>|
        stream_holds(data, b4) implies decoded_as(
        #[trigger] decode_sequences(
            tt,
            data,
            cursor_at(ll, of, ml, b4.len as int, x.0, x.1, x.2, rep),
            all.len(),
            done,
        ),
        all,
        rep,
        done,
    ) by {
        if resolve_seq(all, rep) is Ok {
            let c = cursor_at(ll, of, ml, b4.len as int, x.0, x.1, x.2, rep);
            lemma_fields(tt, data, c, b, t, d, lc, oc, mc);
            let (offset, r1) = spec_resolve(t.of_value, t.lit_len, rep)->Ok_0;
            let v = SequenceView { lit_len: t.lit_len, offset, match_len: t.match_len };
            assert(done.push(v) =~= done + (seq![v] + Seq::<SequenceView>::empty()));
        }
    }
}

proof fn lemma_bit_counts()
    ensures
        forall|i: int| 0 <= i < 36 ==> #[trigger] LL_BITS[i] <= 16,
        forall|i: int| 0 <= i < 53 ==> #[trigger] ML_BITS[i] <= 16,
{
}

/// Writes the extra bits of one sequence.
fn write_extra(bitc: &mut BitCStream, d: SeqDef, lc: u8, oc: u8, mc: u8)
    requires
        old(bitc).wf(),
        lc <= 35,
        oc <= 31,
        mc <= 52,
    ensures
        final(bitc).wf(),
        final(bitc).bits() == extra_bits(old(bitc).bits(), d, lc as int, oc as int, mc as int),
{
    proof {
        lemma_bit_counts();
    }
    bitc.add_bits(d.lit_length as u64, LL_BITS[lc as usize]);
    bitc.add_bits(d.ml_base as u64, ML_BITS[mc as usize]);
    bitc.add_bits(d.off_base as u64, oc as u32);
}

/// Encodes the sequences of `store` backward, interleaving the three states
/// with the extra bits.
#[verifier::rlimit(30)]
pub fn encode_sequences(
    ml_ct: &FseCTable,
    ml_codes: &[u8],
    of_ct: &FseCTable,
    of_codes: &[u8],
    ll_ct: &FseCTable,
    ll_codes: &[u8],
    store: &SeqStore,
) -> (r: Vec<u8>)
    requires
        store.wf(),
        store.sequences@.len() >= 1,
        all_codes_hold(store, ll_codes@, of_codes@, ml_codes@),
        ll_ct.wf(),
        of_ct.wf(),
        ml_ct.wf(),
        encodes_all(ll_ct, ll_codes@),
        encodes_all(of_ct, of_codes@),
        encodes_all(ml_ct, ml_codes@),
    ensures
        r@.len() >= 1,
        forall|rep: RepView|
            decoded_as(
                #[trigger] spec_decode_sequences(
                    tables_of(ll_ct, of_ct, ml_ct),
                    r@,
                    rep,
                    store.sequences@.len(),
                ),
                store.triples(),
                rep,
                Seq::empty(),
            ),
        r@ == sequences_stream(
            SeqTablesView { ll: ll_ct@, of: of_ct@, ml: ml_ct@ },
            store.triples(),
        ),
{
    let nb_seq: usize = store.sequences.len();
    let ghost q = store.triples();
    let ghost t = SeqTablesView { ll: ll_ct@, of: of_ct@, ml: ml_ct@ };
    proof {
        assert forall|k: int| 0 <= k < nb_seq implies ll_codes@[k] == #[trigger] ll_codes_of(q)[k]
            && of_codes@[k] == of_codes_of(q)[k] && ml_codes@[k] == ml_codes_of(q)[k] by {
            assert(codes_hold(
                q[k],
                store.sequences@[k],
                ll_codes@[k] as int,
                of_codes@[k] as int,
                ml_codes@[k] as int,
            ));
        }
    }
    let mut bitc = BitCStream::new();
    let last: usize = nb_seq - 1;
    assert(codes_hold(
        q[last as int],
        store.sequences@[last as int],
        ll_codes@[last as int] as int,
        of_codes@[last as int] as int,
        ml_codes@[last as int] as int,
    ));
    let mut x_ml: u32 = init_cstate2(ml_ct, ml_codes[last] as usize);
    let mut x_of: u32 = init_cstate2(of_ct, of_codes[last] as usize);
    let mut x_ll: u32 = init_cstate2(ll_ct, ll_codes[last] as usize);
    write_extra(&mut bitc, store.sequences[last], ll_codes[last], of_codes[last], ml_codes[last]);
    proof {
        lemma_seq_last(
            ll_ct,
            of_ct,
            ml_ct,
            (x_ll, x_of, x_ml),
            q[last as int],
            store.sequences@[last as int],
            ll_codes@[last as int] as int,
            of_codes@[last as int] as int,
            ml_codes@[last as int] as int,
        );
        assert(q.skip(last as int) =~= seq![q[last as int]]);
        lemma_extras(
            Bits { num: 0, len: 0 },
            q[last as int],
            store.sequences@[last as int],
            ll_codes@[last as int] as int,
            of_codes@[last as int] as int,
            ml_codes@[last as int] as int,
        );
        assert(ll_codes@[last as int] == ll_codes_of(q)[last as int]);
    }
    let ghost whole = sequences_appended(
        t,
        q,
        last as nat,
        bitc.bits(),
        x_ll as nat,
        x_of as nat,
        x_ml as nat,
    );
    let mut n: usize = last;
    while n > 0
        invariant
            n < nb_seq,
            nb_seq == store.sequences@.len(),
            q == store.triples(),
            store.wf(),
            all_codes_hold(store, ll_codes@, of_codes@, ml_codes@),
            ll_ct.wf(),
            of_ct.wf(),
            ml_ct.wf(),
            encodes_all(ll_ct, ll_codes@),
            encodes_all(of_ct, of_codes@),
            encodes_all(ml_ct, ml_codes@),
            bitc.wf(),
            ll_ct.size() <= x_ll < 2 * ll_ct.size(),
            of_ct.size() <= x_of < 2 * of_ct.size(),
            ml_ct.size() <= x_ml < 2 * ml_ct.size(),
            seq_yields(
                ll_ct,
                of_ct,
                ml_ct,
                bitc.bits(),
                x_ll,
                x_of,
                x_ml,
                q.skip(n as int),
            ),
            t == (SeqTablesView { ll: ll_ct@, of: of_ct@, ml: ml_ct@ }),
            forall|k: int|
                0 <= k < nb_seq ==> ll_codes@[k] == #[trigger] ll_codes_of(q)[k] && of_codes@[k]
                    == of_codes_of(q)[k] && ml_codes@[k] == ml_codes_of(q)[k],
            whole == sequences_appended(
                t,
                q,
                n as nat,
                bitc.bits(),
                x_ll as nat,
                x_of as nat,
                x_ml as nat,
            ),
        decreases n,
    {
        proof {
            reveal_with_fuel(sequences_appended, 1);
            assert(ll_codes@[n - 1] == ll_codes_of(q)[n - 1]);
        }
        let ghost b = bitc.bits();
        let ghost x = (x_ll, x_of, x_ml);
        let ghost rest = q.skip(n as int);
        proof {
            bitc.lemma_bits_bound();
        }
        n = n - 1;
        let lc: u8 = ll_codes[n];
        let oc: u8 = of_codes[n];
        let mc: u8 = ml_codes[n];
        assert(codes_hold(q[n as int], store.sequences@[n as int], lc as int, oc as int, mc as int));
        encode_symbol(&mut bitc, of_ct, &mut x_of, oc as usize);
        encode_symbol(&mut bitc, ml_ct, &mut x_ml, mc as usize);
        encode_symbol(&mut bitc, ll_ct, &mut x_ll, lc as usize);
        let ghost before = bitc.bits();
        write_extra(&mut bitc, store.sequences[n], lc, oc, mc);
        proof {
            lemma_seq_step(
                ll_ct,
                of_ct,
                ml_ct,
                b,
                x,
                (x_ll, x_of, x_ml),
                rest,
                q[n as int],
                store.sequences@[n as int],
                lc as int,
                oc as int,
                mc as int,
            );
            assert(seq![q[n as int]] + rest =~= q.skip(n as int));
            lemma_extras(
                before,
                q[n as int],
                store.sequences@[n as int],
                lc as int,
                oc as int,
                mc as int,
            );
        }
    }
    let ghost b0 = bitc.bits();
    proof {
        bitc.lemma_bits_bound();
    }
    flush_cstate(&mut bitc, ml_ct, x_ml);
    let ghost b1 = bitc.bits();
    proof {
        bitc.lemma_bits_bound();
    }
    flush_cstate(&mut bitc, of_ct, x_of);
    let ghost b2 = bitc.bits();
    proof {
        bitc.lemma_bits_bound();
    }
    flush_cstate(&mut bitc, ll_ct, x_ll);
    let ghost b3 = bitc.bits();
    let out: Vec<u8> = bitc.close();
    proof {
        reveal(sequences_stream);
        reveal_with_fuel(sequences_appended, 1);
        lemma_open_closed(b3, out@);
        lemma_decode_state(ll_ct, x_ll as nat, out@, b2);
        lemma_decode_state(of_ct, x_of as nat, out@, b1);
        lemma_decode_state(ml_ct, x_ml as nat, out@, b0);
        assert(q.skip(0) =~= q);
        assert forall|rep: RepView|
            decoded_as(
                #[trigger] spec_decode_sequences(
                    tables_of(ll_ct, of_ct, ml_ct),
                    out@,
                    rep,
                    store.sequences@.len(),
                ),
                store.triples(),
                rep,
                Seq::empty(),
            ) by {
            let c = cursor_at(ll_ct, of_ct, ml_ct, b0.len as int, x_ll, x_of, x_ml, rep);
            assert(start_cursor(tables_of(ll_ct, of_ct, ml_ct), out@, rep) == c);
            assert(decoded_as(
                decode_sequences(
                    tables_of(ll_ct, of_ct, ml_ct),
                    out@,
                    c,
                    q.len(),
                    Seq::empty(),
                ),
                q,
                rep,
                Seq::empty(),
            ));
        }
    }
    out
}

// ---------------------------------------------------------------------------
// Whole blocks.

/// The entropy state that carries over from block to block: the Huffman
/// state, and a table with its repeat mode for each sequence component.
pub struct FseEntropyState {
    pub huf: HufState,
    pub ll: Option<FseCTable>,
    pub ll_repeat: FseRepeat,
    pub of: Option<FseCTable>,
    pub of_repeat: FseRepeat,
    pub ml: Option<FseCTable>,
    pub ml_repeat: FseRepeat,
}

pub open spec fn component_wf(t: Option<FseCTable>) -> bool {
    t matches Some(x) ==> x.wf()
}

/// Where a table may be repeated, the decoder has it.
pub open spec fn component_in_step(
    t: Option<FseCTable>,
    repeat: FseRepeat,
    v: Option<FseTableView>,
) -> bool {
    repeat != FseRepeat::Never ==> (t matches Some(x) ==> v == Some(x.decoder()))
}

pub open spec fn component_view(t: Option<FseCTable>) -> Option<FseCView> {
    match t {
        Some(x) => Some(x@),
        None => None,
    }
}

fn copy_component(t: &Option<FseCTable>) -> (r: Option<FseCTable>)
    requires
        component_wf(*t),
    ensures
        component_wf(r),
        r is Some == t is Some,
        r matches Some(x) ==> x.decoder() == t->0.decoder(),
        component_view(r) == component_view(*t),
{
    match t {
        Some(x) => Some(x.duplicate()),
        None => None,
    }
}

impl FseEntropyState {
    pub open spec fn view(&self) -> EntropyView {
        EntropyView {
            huf: self.huf@,
            ll: component_view(self.ll),
            ll_repeat: self.ll_repeat,
            of: component_view(self.of),
            of_repeat: self.of_repeat,
            ml: component_view(self.ml),
            ml_repeat: self.ml_repeat,
        }
    }

    pub open spec fn wf(&self) -> bool {
        &&& self.huf.wf()
        &&& component_wf(self.ll)
        &&& component_wf(self.of)
        &&& component_wf(self.ml)
        &&& self.ll_repeat == FseRepeat::Valid ==> covers(component_view(self.ll), 35)
        &&& self.ml_repeat == FseRepeat::Valid ==> covers(component_view(self.ml), 52)
    }

    /// The decoder's context agrees with this state wherever a later block
    /// may refer to it.
    pub open spec fn in_step(&self, ctx: CtxView) -> bool {
        &&& self.huf.in_step(ctx.huffman)
        &&& component_in_step(self.ll, self.ll_repeat, ctx.ll)
        &&& component_in_step(self.of, self.of_repeat, ctx.of)
        &&& component_in_step(self.ml, self.ml_repeat, ctx.ml)
    }

    /// The state at the start of a frame.
    pub fn new() -> (r: Self)
        ensures
            r.wf(),
            r@ == fresh_entropy(),
            forall|ctx: CtxView| #[trigger] r.in_step(ctx),
    {
        FseEntropyState {
            huf: HufState::new(),
            ll: None,
            ll_repeat: FseRepeat::Never,
            of: None,
            of_repeat: FseRepeat::Never,
            ml: None,
            ml_repeat: FseRepeat::Never,
        }
    }

    /// A copy of the state.
    pub fn duplicate(&self) -> (r: Self)
        requires
            self.wf(),
        ensures
            r.wf(),
            r@ == self@,
            forall|ctx: CtxView| self.in_step(ctx) ==> #[trigger] r.in_step(ctx),
    {
        FseEntropyState {
            huf: self.huf.duplicate(),
            ll: copy_component(&self.ll),
            ll_repeat: self.ll_repeat,
            of: copy_component(&self.of),
            of_repeat: self.of_repeat,
            ml: copy_component(&self.ml),
            ml_repeat: self.ml_repeat,
        }
    }
}

/// Where executing all of `store` leads, from the history `hist`.
pub open spec fn store_replay(store: &SeqStore, hist: Seq<u8>, rep: RepView) -> Option<ReplayState> {
    replay(store.triples(), store.literals@, ReplayState { hist, rep, lit_pos: 0 })
}

/// The history after a block: what the sequences regenerate, and the
/// literals they leave.
pub open spec fn store_end(store: &SeqStore, hist: Seq<u8>, rep: RepView) -> Seq<u8> {
    let st = store_replay(store, hist, rep)->0;
    st.hist + store.literals@.skip(st.lit_pos as int)
}

/// The decoded block leaves the history and the state that `store` stands
/// for.
pub open spec fn block_decodes(
    r: Result<(CtxView, Seq<u8>), Error>,
    end: Seq<u8>,
    rep: RepView,
    next: &FseEntropyState,
) -> bool {
    &&& r is Ok
    &&& r->Ok_0.1 == end
    &&& r->Ok_0.0.rep == rep
    &&& next.in_step(r->Ok_0.0)
}

/// The block body `body` decodes to what `store` stands for, in any context
/// that agrees with `prev` and from any history in which `store` executes.
pub open spec fn body_ok(
    body: Seq<u8>,
    store: &SeqStore,
    prev: &FseEntropyState,
    next: &FseEntropyState,
) -> bool {
    forall|ctx: CtxView, hist: Seq<u8>, block_max: nat, room: int|
        prev.in_step(ctx) && store_replay(store, hist, ctx.rep) is Some && store_end(
            store,
            hist,
            ctx.rep,
        ).len() - hist.len() <= block_max && store_end(store, hist, ctx.rep).len() - hist.len()
            <= room ==> block_decodes(
            #[trigger] spec_compressed_block(ctx, body, hist, block_max, room),
            store_end(store, hist, ctx.rep),
            store_replay(store, hist, ctx.rep)->0.rep,
            next,
        )
}

/// `h` says that `n` sequences follow.
pub open spec fn is_count_header(h: Seq<u8>, n: nat) -> bool {
    forall|rest: Seq<u8>| #[trigger]
        sequence_count(h + rest) == Ok::<(nat, nat), Error>((n, h.len()))
}

/// Writes the number of sequences.
fn write_seq_count(n: usize) -> (r: Vec<u8>)
    requires
        n < 0x7F00 + 65536,
    ensures
        is_count_header(r@, n as nat),
        1 <= r@.len() <= 3,
        r@ == count_bytes(n as nat),
{
    let mut out: Vec<u8> = Vec::new();
    if n < 128 {
        out.push(n as u8);
    } else if n < LONG_NB_SEQ {
        out.push((n / 256 + 128) as u8);
        out.push((n % 256) as u8);
    } else {
        out.push(255);
        out.push(((n - LONG_NB_SEQ) % 256) as u8);
        out.push(((n - LONG_NB_SEQ) / 256) as u8);
    }
    proof {
        assert(out@ =~= count_bytes(n as nat));
        assert forall|rest: Seq<u8>| #[trigger] sequence_count(out@ + rest) == Ok::<
            (nat, nat),
            Error,
        >((n as nat, out@.len())) by {
            let src = out@ + rest;
            assert(src[0] == out@[0]);
            if n >= 128 {
                assert(src[1] == out@[1]);
            }
            if n >= LONG_NB_SEQ {
                assert(src[2] == out@[2]);
            }
        }
    }
    out
}

/// The three components of a block, with the bytes that give them.
pub struct Components {
    pub ll_type: SymbolEncodingType,
    pub ll: FseCTable,
    pub ll_header: Vec<u8>,
    pub of_type: SymbolEncodingType,
    pub of: FseCTable,
    pub of_header: Vec<u8>,
    pub ml_type: SymbolEncodingType,
    pub ml: FseCTable,
    pub ml_header: Vec<u8>,
}

impl Components {
    pub open spec fn view(&self) -> ComponentsView {
        ComponentsView {
            ll: ComponentView { choice: self.ll_type, table: self.ll@, header: self.ll_header@ },
            of: ComponentView { choice: self.of_type, table: self.of@, header: self.of_header@ },
            ml: ComponentView { choice: self.ml_type, table: self.ml@, header: self.ml_header@ },
        }
    }

    pub open spec fn modes(&self) -> nat {
        64 * self.ll_type.spec_wire() + 16 * self.of_type.spec_wire() + 4
            * self.ml_type.spec_wire()
    }

    pub open spec fn headers(&self) -> Seq<u8> {
        self.ll_header@ + self.of_header@ + self.ml_header@
    }

    pub open spec fn wf(&self) -> bool {
        &&& self.ll.wf()
        &&& self.of.wf()
        &&& self.ml.wf()
        &&& gives_table(self.ll_type, self.ll_header@, &self.ll, SeqKind::LiteralLength)
        &&& gives_table(self.of_type, self.of_header@, &self.of, SeqKind::Offset)
        &&& gives_table(self.ml_type, self.ml_header@, &self.ml, SeqKind::MatchLength)
    }

    /// Repeated tables are the decoder's previous ones.
    pub open spec fn repeats_from(&self, ctx: CtxView) -> bool {
        &&& self.ll_type == SymbolEncodingType::Repeat ==> ctx.ll == Some(self.ll.decoder())
        &&& self.of_type == SymbolEncodingType::Repeat ==> ctx.of == Some(self.of.decoder())
        &&& self.ml_type == SymbolEncodingType::Repeat ==> ctx.ml == Some(self.ml.decoder())
    }
}

proof fn lemma_mode_fields(m: u8, a: nat, b: nat, c: nat)
    requires
        a <= 3,
        b <= 3,
        c <= 3,
        m == 64 * a + 16 * b + 4 * c,
    ensures
        m / 64 == a,
        (m / 16) % 4 == b,
        (m / 4) % 4 == c,
        m % 4 == 0,
{
}

/// The decoder finds one table.
proof fn lemma_component(
    choice: SymbolEncodingType,
    header: Seq<u8>,
    rest: Seq<u8>,
    ct: &FseCTable,
    kind: SeqKind,
    previous: Option<FseTableView>,
)
    requires
        gives_table(choice, header, ct, kind),
        choice == SymbolEncodingType::Repeat ==> previous == Some(ct.decoder()),
    ensures
        spec_sequence_table(previous, choice.spec_wire(), header + rest, kind) == Ok::<
            (FseTableView, nat),
            Error,
        >((ct.decoder(), header.len())),
{
    reveal(gives_table);
}

proof fn lemma_tables_found(
    ctx: CtxView,
    modes: u8,
    input: Seq<u8>,
    a: (FseTableView, nat),
    b: (FseTableView, nat),
    c: (FseTableView, nat),
)
    requires
        spec_sequence_table(ctx.ll, (modes / 64) as nat, input, SeqKind::LiteralLength) == Ok::<
            (FseTableView, nat),
            Error,
        >(a),
        spec_sequence_table(
            ctx.of,
            ((modes / 16) % 4) as nat,
            input.skip(a.1 as int),
            SeqKind::Offset,
        ) == Ok::<(FseTableView, nat), Error>(b),
        spec_sequence_table(
            ctx.ml,
            ((modes / 4) % 4) as nat,
            input.skip((a.1 + b.1) as int),
            SeqKind::MatchLength,
        ) == Ok::<(FseTableView, nat), Error>(c),
    ensures
        section_tables(ctx, modes, input) == Ok::<(SeqTables, nat), Error>(
            (SeqTables { ll: a.0, of: b.0, ml: c.0 }, a.1 + b.1 + c.1),
        ),
{
}

/// The decoder finds the three tables.
proof fn lemma_section_tables(c: &Components, ctx: CtxView, modes: u8, stream: Seq<u8>)
    requires
        c.wf(),
        c.repeats_from(ctx),
        modes == c.modes(),
    ensures
        section_tables(ctx, modes, c.headers() + stream) == Ok::<(SeqTables, nat), Error>(
            (tables_of(&c.ll, &c.of, &c.ml), c.headers().len()),
        ),
        modes % 4 == 0,
{
    let h1 = c.ll_header@;
    let h2 = c.of_header@;
    let h3 = c.ml_header@;
    let input = c.headers() + stream;
    assert(input =~= h1 + (h2 + h3 + stream));
    assert(input.skip(h1.len() as int) =~= h2 + (h3 + stream));
    assert(input.skip((h1.len() + h2.len()) as int) =~= h3 + stream);
    lemma_mode_fields(
        modes,
        c.ll_type.spec_wire(),
        c.of_type.spec_wire(),
        c.ml_type.spec_wire(),
    );
    lemma_component(c.ll_type, h1, h2 + h3 + stream, &c.ll, SeqKind::LiteralLength, ctx.ll);
    lemma_component(c.of_type, h2, h3 + stream, &c.of, SeqKind::Offset, ctx.of);
    lemma_component(c.ml_type, h3, stream, &c.ml, SeqKind::MatchLength, ctx.ml);
    lemma_tables_found(
        ctx,
        modes,
        input,
        (c.ll.decoder(), h1.len()),
        (c.of.decoder(), h2.len()),
        (c.ml.decoder(), h3.len()),
    );
}

/// The sequences section decodes.
proof fn lemma_sequences_section(
    store: &SeqStore,
    c: &Components,
    ctx: CtxView,
    count: Seq<u8>,
    modes: u8,
    stream: Seq<u8>,
    hist: Seq<u8>,
    block_max: nat,
    room: int,
)
    requires
        store.sequences@.len() >= 1,
        c.wf(),
        c.repeats_from(ctx),
        modes == c.modes(),
        is_count_header(count, store.sequences@.len()),
        decoded_as(
            spec_decode_sequences(
                tables_of(&c.ll, &c.of, &c.ml),
                stream,
                ctx.rep,
                store.sequences@.len(),
            ),
            store.triples(),
            ctx.rep,
            Seq::empty(),
        ),
        store_replay(store, hist, ctx.rep) is Some,
        store_end(store, hist, ctx.rep).len() - hist.len() <= block_max,
        store_end(store, hist, ctx.rep).len() - hist.len() <= room,
        store.wf(),
    ensures
        spec_sequences_section(
            ctx,
            count + seq![modes] + c.headers() + stream,
            store.literals@,
            hist,
            block_max,
            room,
        ) == Ok::<(CtxView, Seq<u8>), Error>(
            (
                CtxView {
                    ll: Some(c.ll.decoder()),
                    of: Some(c.of.decoder()),
                    ml: Some(c.ml.decoder()),
                    rep: store_replay(store, hist, ctx.rep)->0.rep,
                    huffman: ctx.huffman,
                },
                store_end(store, hist, ctx.rep),
            ),
        ),
{
    reveal(spec_sequences_section);
    let q = store.triples();
    let lits = store.literals@;
    let st = ReplayState { hist, rep: ctx.rep, lit_pos: 0 };
    let end = store_replay(store, hist, ctx.rep)->0;
    let src = count + seq![modes] + c.headers() + stream;
    assert(src =~= count + (seq![modes] + c.headers() + stream));
    assert(sequence_count(count + (seq![modes] + c.headers() + stream)) is Ok);
    assert(src[count.len() as int] == modes);
    let input = src.skip(count.len() as int + 1);
    assert(input =~= c.headers() + stream);
    lemma_section_tables(c, ctx, modes, stream);
    assert(input.skip(c.headers().len() as int) =~= stream);
    lemma_replay_counts(q, lits, st);
    lemma_replay_exec(q, lits, st, Seq::empty(), hist.len(), block_max, room);
    let vs = resolve_seq(q, ctx.rep)->Ok_0.0;
    assert(Seq::<SequenceView>::empty() + vs =~= vs);
}

/// A table that covers all codes encodes these.
proof fn lemma_covered(t: Option<FseCTable>, codes: Seq<u8>, top: nat)
    requires
        covers(component_view(t), top),
        forall|i: int| 0 <= i < codes.len() ==> #[trigger] codes[i] <= top,
    ensures
        t matches Some(x) && encodes_all(&x, codes),
{
    let x = t->0;
    assert forall|i: int| 0 <= i < codes.len() implies x.encodable(#[trigger] codes[i] as int) by {
        assert(component_view(t)->0.encodable(codes[i] as int));
    }
}

pub proof fn lemma_offsets_served(entropy: &FseEntropyState, q: Seq<Triple>, strategy: int)
    requires
        offsets_served(entropy@, q, strategy),
    ensures
        strategy < 4 && entropy.of_repeat == FseRepeat::Valid ==> (entropy.of matches Some(t) && encodes_all(
            &t,
            of_codes_of(q),
        )),
{
    if strategy < 4 && entropy.of_repeat == FseRepeat::Valid {
        let x = entropy.of->0;
        let codes = of_codes_of(q);
        assert forall|i: int| 0 <= i < codes.len() implies x.encodable(#[trigger] codes[i] as int) by {
            assert(entropy@.of->0.encodable(codes[i] as int));
        }
    }
}

/// Builds the three components from the codes, and moves `entropy` on to
/// them.
#[verifier::rlimit(30)]
pub fn build_components(
    entropy: &mut FseEntropyState,
    ll_codes: &[u8],
    of_codes: &[u8],
    ml_codes: &[u8],
    strategy: i32,
) -> (r: Result<Components, Error>)
    requires
        old(entropy).wf(),
        0 <= strategy <= 9,
        1 <= ll_codes@.len() <= u32::MAX,
        1 <= of_codes@.len() <= u32::MAX,
        1 <= ml_codes@.len() <= u32::MAX,
        forall|i: int| 0 <= i < ll_codes@.len() ==> #[trigger] ll_codes@[i] <= 35,
        forall|i: int| 0 <= i < of_codes@.len() ==> #[trigger] of_codes@[i] <= 31,
        forall|i: int| 0 <= i < ml_codes@.len() ==> #[trigger] ml_codes@[i] <= 52,
        strategy < 4 && old(entropy).of_repeat == FseRepeat::Valid ==> (old(entropy).of matches Some(t) && encodes_all(
            &t,
            of_codes@,
        )),
    ensures
        final(entropy).wf(),
        final(entropy).huf == old(entropy).huf,
        r matches Ok(c) && {
            &&& c.wf()
            &&& final(entropy).ll_repeat == FseRepeat::Valid ==> covers(Some(c.ll@), 35)
            &&& final(entropy).ml_repeat == FseRepeat::Valid ==> covers(Some(c.ml@), 52)
            &&& encodes_all(&c.ll, ll_codes@)
            &&& encodes_all(&c.of, of_codes@)
            &&& encodes_all(&c.ml, ml_codes@)
            &&& forall|ctx: CtxView|
                #![trigger c.repeats_from(ctx)]
                component_in_step(old(entropy).ll, old(entropy).ll_repeat, ctx.ll)
                    && component_in_step(old(entropy).of, old(entropy).of_repeat, ctx.of)
                    && component_in_step(old(entropy).ml, old(entropy).ml_repeat, ctx.ml)
                    ==> c.repeats_from(ctx)
        },
        match r {
            Ok(c) => {
                &&& spec_components(
                    old(entropy)@,
                    ll_codes@,
                    of_codes@,
                    ml_codes@,
                    strategy as int,
                ) == Ok::<ComponentsView, Error>(c@)
                &&& final(entropy)@ == modes_moved(old(entropy)@, c@)
            },
            Err(e) => {
                &&& spec_components(
                    old(entropy)@,
                    ll_codes@,
                    of_codes@,
                    ml_codes@,
                    strategy as int,
                ) == Err::<ComponentsView, Error>(e)
                &&& *final(entropy) == *old(entropy)
            },
        },
{
    proof {
        reveal(spec_components);
    }
    let ll_prev: Option<&FseCTable> = match &entropy.ll {
        Some(t) => Some(t),
        None => None,
    };
    let mut ll_repeat: FseRepeat = entropy.ll_repeat;
    proof {
        if ll_repeat == FseRepeat::Valid {
            lemma_covered(entropy.ll, ll_codes@, 35);
        }
    }
    let (ll_type, ll, ll_header) = match build_component(
        ll_codes,
        SeqKind::LiteralLength,
        ll_prev,
        &mut ll_repeat,
        strategy,
    ) {
        Ok(p) => p,
        Err(e) => {
            return Err(e);
        },
    };
    let of_prev: Option<&FseCTable> = match &entropy.of {
        Some(t) => Some(t),
        None => None,
    };
    let mut of_repeat: FseRepeat = entropy.of_repeat;
    let (of_type, of, of_header) = match build_component(
        of_codes,
        SeqKind::Offset,
        of_prev,
        &mut of_repeat,
        strategy,
    ) {
        Ok(p) => p,
        Err(e) => {
            return Err(e);
        },
    };
    let ml_prev: Option<&FseCTable> = match &entropy.ml {
        Some(t) => Some(t),
        None => None,
    };
    let mut ml_repeat: FseRepeat = entropy.ml_repeat;
    proof {
        if ml_repeat == FseRepeat::Valid {
            lemma_covered(entropy.ml, ml_codes@, 52);
        }
    }
    let (ml_type, ml, ml_header) = match build_component(
        ml_codes,
        SeqKind::MatchLength,
        ml_prev,
        &mut ml_repeat,
        strategy,
    ) {
        Ok(p) => p,
        Err(e) => {
            return Err(e);
        },
    };
    entropy.ll_repeat = ll_repeat;
    entropy.of_repeat = of_repeat;
    entropy.ml_repeat = ml_repeat;
    Ok(Components { ll_type, ll, ll_header, of_type, of, of_header, ml_type, ml, ml_header })
}

/// Keeps a block body only if it saves enough of `block_size`.
pub open spec fn worth_keeping(len: nat, strategy: int, block_size: nat) -> bool {
    len + spec_min_gain(block_size, strategy) < block_size
}

fn finish_block(out: Vec<u8>, strategy: i32, block_size: usize) -> (r: Option<Vec<u8>>)
    requires
        strategy <= 9,
    ensures
        r is Some <==> worth_keeping(out@.len(), strategy as int, block_size as nat),
        r matches Some(v) ==> v@ == out@,
{
    let gain: usize = min_gain(block_size, strategy);
    if block_size <= gain || out.len() >= block_size - gain {
        return None;
    }
    Some(out)
}

pub open spec fn tables_view(c: &Components) -> SeqTablesView {
    SeqTablesView { ll: c.ll@, of: c.of@, ml: c.ml@ }
}

/// Appends the modes, the descriptions and the bitstream of the sequences.
/// Says whether the block may be used: two bytes of the last description in
/// front of the bitstream and one of the stream are more than some decoders
/// can take.
fn append_sequences(
    out: &mut Vec<u8>,
    c: &Components,
    ll_codes: &Vec<u8>,
    of_codes: &Vec<u8>,
    ml_codes: &Vec<u8>,
    store: &SeqStore,
) -> (r: bool)
    requires
        store.wf(),
        store.sequences@.len() >= 1,
        c.wf(),
        all_codes_hold(store, ll_codes@, of_codes@, ml_codes@),
        encodes_all(&c.ll, ll_codes@),
        encodes_all(&c.of, of_codes@),
        encodes_all(&c.ml, ml_codes@),
    ensures
        c.modes() <= 255,
        final(out)@ == old(out)@ + seq![c.modes() as u8] + c.headers() + sequences_stream(
            tables_view(c),
            store.triples(),
        ),
        forall|rep: RepView|
            decoded_as(
                #[trigger] spec_decode_sequences(
                    tables_of(&c.ll, &c.of, &c.ml),
                    sequences_stream(tables_view(c), store.triples()),
                    rep,
                    store.sequences@.len(),
                ),
                store.triples(),
                rep,
                Seq::empty(),
            ),
        r == !(0 < last_described(c@) && last_described(c@) + sequences_stream(
            tables_view(c),
            store.triples(),
        ).len() < 4),
{
    let ghost o = out@;
    let modes: u8 = c.ll_type.wire() * 64 + c.of_type.wire() * 16 + c.ml_type.wire() * 4;
    out.push(modes);
    out.extend_from_slice(&c.ll_header);
    out.extend_from_slice(&c.of_header);
    out.extend_from_slice(&c.ml_header);
    let bitstream: Vec<u8> = encode_sequences(
        &c.ml,
        ml_codes,
        &c.of,
        of_codes,
        &c.ll,
        ll_codes,
        store,
    );
    out.extend_from_slice(&bitstream);
    assert(out@ =~= o + seq![modes] + c.headers() + bitstream@);
    let last_count: usize = if c.ml_type == SymbolEncodingType::Compressed {
        c.ml_header.len()
    } else if c.of_type == SymbolEncodingType::Compressed {
        c.of_header.len()
    } else if c.ll_type == SymbolEncodingType::Compressed {
        c.ll_header.len()
    } else {
        0
    };
    !(last_count > 0 && last_count < 4 && bitstream.len() < 4 && last_count + bitstream.len() < 4)
}

/// A body with the state after it.
pub open spec fn body_view(r: Result<Option<Vec<u8>>, Error>, e: EntropyView) -> Result<
    Option<(Seq<u8>, EntropyView)>,
    Error,
> {
    match r {
        Ok(Some(body)) => Ok(Some((body@, e))),
        Ok(None) => Ok(None),
        Err(x) => Err(x),
    }
}

/// Builds the body of a compressed block for `store` and moves `entropy` on
/// to the state after it. There is no body when the block is better stored
/// as it is.
#[verifier::rlimit(40)]
pub fn entropy_compress_seq_store_internal(
    store: &SeqStore,
    entropy: &mut FseEntropyState,
    strategy: i32,
    disable_literal_compression: bool,
    block_size: usize,
) -> (r: Result<Option<Vec<u8>>, Error>)
    requires
        store.wf(),
        old(entropy).wf(),
        0 <= strategy <= 9,
        offsets_served(old(entropy)@, store.triples(), strategy as int),
    ensures
        final(entropy).wf(),
        r is Ok,
        r matches Ok(Some(body)) ==> {
            &&& body_ok(body@, store, old(entropy), final(entropy))
            &&& worth_keeping(body@.len(), strategy as int, block_size as nat)
        },
        body_view(r, final(entropy)@) == spec_body(
            store.triples(),
            store.literals@,
            old(entropy)@,
            strategy as int,
            disable_literal_compression,
            block_size as nat,
        ),
{
    proof {
        lemma_lit_total(store.triples());
        reveal(spec_body);
    }
    let nb_seq: usize = store.sequences.len();
    let lit_size: usize = store.literals.len();
    let suspect: bool = nb_seq == 0 || lit_size / nb_seq >= 20;
    let ghost before = *entropy;
    let (section, next_huf) = compress_literals_with(
        &store.literals,
        strategy,
        suspect,
        disable_literal_compression,
        &entropy.huf,
    );
    let ghost lit_bytes = section@;
    let ghost lits = store.literals@;
    let mut out: Vec<u8> = section;
    match next_huf {
        Some(h) => {
            entropy.huf = h;
        },
        None => {},
    }
    proof {
        assert forall|huf: Option<HuffmanTableView>|
            before.huf.in_step(huf) implies literals_then(lit_bytes, lits, huf, &entropy.huf) by {
            match next_huf {
                Some(h) => {
                    assert(section_ok(lit_bytes, lits, huf, Some(h.table->0.decoder())));
                },
                None => {
                    assert(section_ok(lit_bytes, lits, huf, huf));
                },
            }
        }
    }
    let count: Vec<u8> = write_seq_count(nb_seq);
    out.extend_from_slice(&count);
    if nb_seq == 0 {
        let r = finish_block(out, strategy, block_size);
        proof {
            if r is Some {
                lemma_no_sequences(lit_bytes, count@, store, &before, entropy);
                assert(r->0@ =~= lit_bytes + count@);
            }
        }
        return Ok(r);
    }
    let (ll_codes, of_codes, ml_codes) = seq_to_codes(store);
    proof {
        assert forall|i: int| 0 <= i < nb_seq implies #[trigger] ll_codes@[i] <= 35 by {
            let t = store.triples()[i];
        }
        assert forall|i: int| 0 <= i < nb_seq implies #[trigger] of_codes@[i] <= 31 by {
            let t = store.triples()[i];
        }
        assert forall|i: int| 0 <= i < nb_seq implies #[trigger] ml_codes@[i] <= 52 by {
            let t = store.triples()[i];
        }
    }
    proof {
        lemma_offsets_served(entropy, store.triples(), strategy as int);
    }
    let c = match build_components(entropy, &ll_codes, &of_codes, &ml_codes, strategy) {
        Ok(c) => c,
        Err(e) => {
            return Err(e);
        },
    };
    if !append_sequences(&mut out, &c, &ll_codes, &of_codes, &ml_codes, store) {
        return Ok(None);
    }
    let ghost modes = c.modes() as u8;
    let ghost stream = sequences_stream(tables_view(&c), store.triples());
    let ghost tail = count@ + seq![modes] + c.headers() + stream;
    let ghost huf_after = entropy.huf;
    proof {
        assert(out@ =~= lit_bytes + tail);
        assert(tail =~= sequences_section(store.triples(), c@));
        assert forall|ctx: CtxView, hist: Seq<u8>, block_max: nat, room: int|
            before.in_step(ctx) && store_replay(store, hist, ctx.rep) is Some && store_end(
                store,
                hist,
                ctx.rep,
            ).len() - hist.len() <= block_max && store_end(store, hist, ctx.rep).len() - hist.len()
                <= room implies body_step(
            #[trigger] spec_compressed_block(ctx, out@, hist, block_max, room),
            store,
            hist,
            ctx.rep,
            &c,
            &huf_after,
        ) by {
            assert(c.repeats_from(ctx));
            lemma_with_sequences(
                lit_bytes,
                count@,
                modes,
                stream,
                store,
                &c,
                ctx,
                &huf_after,
                hist,
                block_max,
                room,
            );
        }
    }
    entropy.ll = Some(c.ll);
    entropy.of = Some(c.of);
    entropy.ml = Some(c.ml);
    let ghost body = out@;
    let r = finish_block(out, strategy, block_size);
    proof {
        assert(body_ok(body, store, &before, entropy)) by {
            assert forall|ctx: CtxView, hist: Seq<u8>, block_max: nat, room: int|
                before.in_step(ctx) && store_replay(store, hist, ctx.rep) is Some && store_end(
                    store,
                    hist,
                    ctx.rep,
                ).len() - hist.len() <= block_max && store_end(store, hist, ctx.rep).len()
                    - hist.len() <= room implies block_decodes(
                #[trigger] spec_compressed_block(ctx, body, hist, block_max, room),
                store_end(store, hist, ctx.rep),
                store_replay(store, hist, ctx.rep)->0.rep,
                entropy,
            ) by {
                assert(body_step(
                    spec_compressed_block(ctx, body, hist, block_max, room),
                    store,
                    hist,
                    ctx.rep,
                    &c,
                    &huf_after,
                ));
            }
        }
    }
    Ok(r)
}

/// The literals section leaves a table that agrees with `next`.
spec fn literals_then(
    section: Seq<u8>,
    lits: Seq<u8>,
    huf: Option<HuffmanTableView>,
    next: &HufState,
) -> bool {
    exists|after: Option<HuffmanTableView>| #[trigger]
        section_ok(section, lits, huf, after) && next.in_step(after)
}

/// What the decoded block has in common with the three components.
spec fn body_step(
    r: Result<(CtxView, Seq<u8>), Error>,
    store: &SeqStore,
    hist: Seq<u8>,
    rep: RepView,
    c: &Components,
    huf: &HufState,
) -> bool {
    &&& r is Ok
    &&& r->Ok_0.1 == store_end(store, hist, rep)
    &&& r->Ok_0.0.rep == store_replay(store, hist, rep)->0.rep
    &&& r->Ok_0.0.ll == Some(c.ll.decoder())
    &&& r->Ok_0.0.of == Some(c.of.decoder())
    &&& r->Ok_0.0.ml == Some(c.ml.decoder())
    &&& huf.in_step(r->Ok_0.0.huffman)
}

proof fn lemma_with_sequences(
    section: Seq<u8>,
    count: Seq<u8>,
    modes: u8,
    stream: Seq<u8>,
    store: &SeqStore,
    c: &Components,
    ctx: CtxView,
    huf: &HufState,
    hist: Seq<u8>,
    block_max: nat,
    room: int,
)
    requires
        store.wf(),
        store.sequences@.len() >= 1,
        literals_then(section, store.literals@, ctx.huffman, huf),
        is_count_header(count, store.sequences@.len()),
        c.wf(),
        c.repeats_from(ctx),
        modes == c.modes(),
        decoded_as(
            spec_decode_sequences(
                tables_of(&c.ll, &c.of, &c.ml),
                stream,
                ctx.rep,
                store.sequences@.len(),
            ),
            store.triples(),
            ctx.rep,
            Seq::empty(),
        ),
        store_replay(store, hist, ctx.rep) is Some,
        store_end(store, hist, ctx.rep).len() - hist.len() <= block_max,
        store_end(store, hist, ctx.rep).len() - hist.len() <= room,
    ensures
        body_step(
            spec_compressed_block(
                ctx,
                section + (count + seq![modes] + c.headers() + stream),
                hist,
                block_max,
                room,
            ),
            store,
            hist,
            ctx.rep,
            c,
            huf,
        ),
{
    reveal(spec_compressed_block);
    let tail = count + seq![modes] + c.headers() + stream;
    let after = choose|after: Option<HuffmanTableView>| #[trigger]
        section_ok(section, store.literals@, ctx.huffman, after) && huf.in_step(after);
    let q = store.triples();
    let st = ReplayState { hist, rep: ctx.rep, lit_pos: 0 };
    lemma_replay_counts(q, store.literals@, st);
    assert(store.literals@.len() <= block_max);
    assert(spec_literals(ctx.huffman, section + tail, block_max) == Ok::<LitView, Error>(
        LitView { literals: store.literals@, used: section.len(), huffman: after },
    ));
    assert((section + tail).skip(section.len() as int) =~= tail);
    let ctx1 = CtxView { huffman: after, ..ctx };
    lemma_sequences_section(store, c, ctx1, count, modes, stream, hist, block_max, room);
}

/// A block of literals alone.
proof fn lemma_no_sequences(
    section: Seq<u8>,
    count: Seq<u8>,
    store: &SeqStore,
    prev: &FseEntropyState,
    next: &FseEntropyState,
)
    requires
        store.wf(),
        store.sequences@.len() == 0,
        is_count_header(count, 0),
        forall|huf: Option<HuffmanTableView>|
            prev.huf.in_step(huf) ==> #[trigger] literals_then(
                section,
                store.literals@,
                huf,
                &next.huf,
            ),
        next.ll == prev.ll,
        next.of == prev.of,
        next.ml == prev.ml,
        next.ll_repeat == prev.ll_repeat,
        next.of_repeat == prev.of_repeat,
        next.ml_repeat == prev.ml_repeat,
    ensures
        body_ok(section + count, store, prev, next),
{
    let body = section + count;
    let lits = store.literals@;
    assert(store.triples() =~= Seq::<Triple>::empty());
    assert forall|ctx: CtxView, hist: Seq<u8>, block_max: nat, room: int|
        prev.in_step(ctx) && store_replay(store, hist, ctx.rep) is Some && store_end(
            store,
            hist,
            ctx.rep,
        ).len() - hist.len() <= block_max && store_end(store, hist, ctx.rep).len() - hist.len()
            <= room implies block_decodes(
        #[trigger] spec_compressed_block(ctx, body, hist, block_max, room),
        store_end(store, hist, ctx.rep),
        store_replay(store, hist, ctx.rep)->0.rep,
        next,
    ) by {
        reveal(spec_compressed_block);
        reveal(spec_sequences_section);
        assert(literals_then(section, lits, ctx.huffman, &next.huf));
        let after = choose|after: Option<HuffmanTableView>| #[trigger]
            section_ok(section, lits, ctx.huffman, after) && next.huf.in_step(after);
        assert(lits.skip(0) =~= lits);
        assert(spec_literals(ctx.huffman, section + count, block_max) == Ok::<LitView, Error>(
            LitView { literals: lits, used: section.len(), huffman: after },
        ));
        assert(body.skip(section.len() as int) =~= count);
        assert(count + Seq::<u8>::empty() =~= count);
        assert(sequence_count(count + Seq::<u8>::empty()) == Ok::<(nat, nat), Error>(
            (0, count.len()),
        ));
    }
}

pub open spec fn coded_view(r: Result<Option<(Vec<u8>, FseEntropyState)>, Error>) -> Result<
    Option<(Seq<u8>, EntropyView)>,
    Error,
> {
    match r {
        Ok(Some((body, next))) => Ok(Some((body@, next@))),
        Ok(None) => Ok(None),
        Err(x) => Err(x),
    }
}

/// The body of a compressed block for `store` and the entropy state after it,
/// or nothing when the block is better stored as it is. The state before is
/// left as it was: it is the caller's to keep or to replace.
pub fn entropy_compress_seq_store(
    store: &SeqStore,
    entropy: &FseEntropyState,
    strategy: i32,
    disable_literal_compression: bool,
    block_size: usize,
) -> (r: Result<Option<(Vec<u8>, FseEntropyState)>, Error>)
    requires
        store.wf(),
        entropy.wf(),
        0 <= strategy <= 9,
        offsets_served(entropy@, store.triples(), strategy as int),
    ensures
        r is Ok,
        r matches Ok(Some((body, next))) ==> {
            &&& next.wf()
            &&& body_ok(body@, store, entropy, &next)
            &&& worth_keeping(body@.len(), strategy as int, block_size as nat)
        },
        coded_view(r) == spec_body(
            store.triples(),
            store.literals@,
            entropy@,
            strategy as int,
            disable_literal_compression,
            block_size as nat,
        ),
{
    let mut next = entropy.duplicate();
    let ghost start = next;
    match entropy_compress_seq_store_internal(
        store,
        &mut next,
        strategy,
        disable_literal_compression,
        block_size,
    ) {
        Ok(Some(body)) => {
            proof {
                assert forall|ctx: CtxView, hist: Seq<u8>, block_max: nat, room: int|
                    entropy.in_step(ctx) && store_replay(store, hist, ctx.rep) is Some
                        && store_end(store, hist, ctx.rep).len() - hist.len() <= block_max
                        && store_end(store, hist, ctx.rep).len() - hist.len()
                        <= room implies block_decodes(
                    #[trigger] spec_compressed_block(ctx, body@, hist, block_max, room),
                    store_end(store, hist, ctx.rep),
                    store_replay(store, hist, ctx.rep)->0.rep,
                    &next,
                ) by {
                    assert(start.in_step(ctx));
                }
            }
            Ok(Some((body, next)))
        },
        Ok(None) => Ok(None),
        Err(e) => Err(e),
    }
}

} // verus!
