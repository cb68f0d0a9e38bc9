//! Streaming decompression.
//!
//! [`StreamDecoder`] is fed compressed bytes in pieces of any size and yields
//! the decompressed bytes. It buffers just enough input to decode the next
//! block and keeps a sliding window of recent output, so that memory use is
//! bounded by the frame's window. What it yields depends on the concatenated
//! input only, never on how the input was cut.

use crate::frame;
use crate::block::{append_bytes, CtxView, FrameContext, BLOCK_SIZE_MAX};
use crate::decompress::{
    block_header, block_max_of, checksum32, choose_dictionary, content_of, decode_block, default_options,
    dict_content, dict_ctx, opt_dict_view, resolve_dictionary, spec_block, start_context, DecodeOptions, OptionsView,
    SKIPPABLE_MAGIC, ZSTD_MAGIC,
};
use crate::dictionary::{le32, Dictionary};
use crate::error::Error;
use crate::frame::{spec_parse, FrameHeader};
use crate::math::load4;
use crate::xxhash::Xxh64;
use vstd::prelude::*;
use vstd::slice::slice_subrange;

verus! {

/// The most bytes a frame header can occupy after the magic number.
pub const MAX_FRAME_HEADER: usize = 14;

// ---------------------------------------------------------------------------
// The machine.

/// Decoding state inside a frame.
pub struct FrameStateView {
    pub ctx: CtxView,
    /// Recent output, preceded by the dictionary's history.
    pub win: Seq<u8>,
    /// How much of it is kept after each block.
    pub window: nat,
    pub block_max: nat,
    pub has_checksum: bool,
    pub content_size: Option<u64>,
    /// Everything the frame has produced so far.
    pub content: Seq<u8>,
}

/// Where the decoder stands in the input.
pub enum PhaseView {
    /// Between frames.
    FrameStart,
    /// Inside a skippable frame, with this many bytes left to drop.
    Skippable(nat),
    /// Before a block of the current frame.
    Blocks(FrameStateView),
    /// After the last block of the current frame.
    Footer(FrameStateView),
    /// The whole input has been consumed.
    Done,
    /// The input was refused.
    Failed(Error),
}

/// The state of a stream: its phase, and the bytes produced so far.
pub struct StreamView {
    pub phase: PhaseView,
    pub total: nat,
}

/// What one step does with the bytes at hand.
pub enum Step {
    /// More input is needed.
    NeedMore,
    /// The input ended where a stream may end.
    Done,
    Fail(Error),
    /// `used` bytes are consumed and `out` is produced.
    Go { state: StreamView, used: nat, out: Seq<u8> },
}

/// Too few bytes: wait, or fail when no more will come.
pub open spec fn short(eof: bool) -> Step {
    if eof {
        Step::Fail(Error::SrcSizeWrong)
    } else {
        Step::NeedMore
    }
}

/// The last `window` bytes of `win`.
pub open spec fn trim(win: Seq<u8>, window: nat) -> Seq<u8> {
    if win.len() > window {
        win.skip(win.len() - window)
    } else {
        win
    }
}

/// The state after the header `h` of a frame.
pub open spec fn opened_frame(opts: OptionsView, h: FrameHeader) -> Result<FrameStateView, Error> {
    match resolve_dictionary(opts.dictionary, h.dict_id) {
        Err(e) => Err(e),
        Ok(d) => Ok(
            FrameStateView {
                ctx: dict_ctx(d),
                win: dict_content(d),
                window: if h.window_size < usize::MAX {
                    h.window_size as nat
                } else {
                    usize::MAX as nat
                },
                block_max: block_max_of(h.window_size),
                has_checksum: h.has_checksum,
                content_size: h.content_size,
                content: Seq::empty(),
            },
        ),
    }
}

#[verifier::opaque]
pub open spec fn step_frame_start(opts: OptionsView, total: nat, avail: Seq<u8>, eof: bool) -> Step {
    if avail.len() < 4 {
        if eof && avail.len() == 0 {
            Step::Done
        } else {
            short(eof)
        }
    } else {
        let magic = le32(avail, 0);
        if magic == ZSTD_MAGIC {
            if avail.len() < 4 + MAX_FRAME_HEADER && !eof {
                Step::NeedMore
            } else {
                match spec_parse(avail.skip(4), opts.window_log_max) {
                    Err(e) => Step::Fail(e),
                    Ok(h) => match opened_frame(opts, h) {
                        Err(e) => Step::Fail(e),
                        Ok(f) => Step::Go {
                            state: StreamView { phase: PhaseView::Blocks(f), total },
                            used: 4 + h.header_len as nat,
                            out: Seq::empty(),
                        },
                    },
                }
            }
        } else if magic / 16 == SKIPPABLE_MAGIC / 16 {
            if avail.len() < 8 {
                short(eof)
            } else {
                Step::Go {
                    state: StreamView { phase: PhaseView::Skippable(le32(avail, 4)), total },
                    used: 8,
                    out: Seq::empty(),
                }
            }
        } else {
            Step::Fail(Error::UnknownMagic(magic as u32))
        }
    }
}

/// The bytes that the body of the block with header `raw` occupies.
pub open spec fn body_len(raw: nat) -> nat {
    if (raw / 2) % 4 == 1 {
        1
    } else {
        raw / 8
    }
}

#[verifier::opaque]
pub open spec fn step_block(
    opts: OptionsView,
    f: FrameStateView,
    total: nat,
    avail: Seq<u8>,
    eof: bool,
) -> Step {
    if avail.len() < 3 {
        short(eof)
    } else {
        let raw = block_header(avail);
        if (raw / 2) % 4 == 3 {
            Step::Fail(Error::BlockTypeInvalid)
        } else if avail.len() < 3 + body_len(raw) {
            short(eof)
        } else {
            match spec_block(f.ctx, avail, f.win, f.block_max, usize::MAX - f.win.len()) {
                Err(e) => Step::Fail(e),
                Ok(b) => {
                    let fresh = b.hist.skip(f.win.len() as int);
                    let g = FrameStateView {
                        ctx: b.ctx,
                        win: trim(b.hist, f.window),
                        content: f.content + fresh,
                        ..f
                    };
                    if total + fresh.len() > opts.limit {
                        Step::Fail(Error::OutputTooLarge)
                    } else {
                        Step::Go {
                            state: StreamView {
                                phase: if b.last {
                                    PhaseView::Footer(g)
                                } else {
                                    PhaseView::Blocks(g)
                                },
                                total: total + fresh.len(),
                            },
                            used: b.used,
                            out: fresh,
                        }
                    }
                },
            }
        }
    }
}

#[verifier::opaque]
pub open spec fn step_footer(f: FrameStateView, total: nat, avail: Seq<u8>, eof: bool) -> Step {
    let next = StreamView { phase: PhaseView::FrameStart, total };
    if f.content_size matches Some(n) && f.content.len() != n {
        Step::Fail(Error::FrameContentSizeMismatch)
    } else if !f.has_checksum {
        Step::Go { state: next, used: 0, out: Seq::empty() }
    } else if avail.len() < 4 {
        short(eof)
    } else {
        let expected = le32(avail, 0) as u32;
        let actual = checksum32(f.content);
        if expected != actual {
            Step::Fail(Error::ChecksumMismatch { expected, actual })
        } else {
            Step::Go { state: next, used: 4, out: Seq::empty() }
        }
    }
}

/// One step from state `s` with the bytes `avail` at hand; `eof` says that no
/// more will come.
pub open spec fn stream_step(opts: OptionsView, s: StreamView, avail: Seq<u8>, eof: bool) -> Step {
    match s.phase {
        PhaseView::Done => Step::Done,
        PhaseView::Failed(e) => Step::Fail(e),
        PhaseView::FrameStart => step_frame_start(opts, s.total, avail, eof),
        PhaseView::Skippable(left) => if left == 0 {
            Step::Go {
                state: StreamView { phase: PhaseView::FrameStart, total: s.total },
                used: 0,
                out: Seq::empty(),
            }
        } else if avail.len() == 0 {
            short(eof)
        } else {
            let take: nat = if left < avail.len() {
                left
            } else {
                avail.len()
            };
            Step::Go {
                state: StreamView {
                    phase: PhaseView::Skippable((left - take) as nat),
                    total: s.total,
                },
                used: take,
                out: Seq::empty(),
            }
        },
        PhaseView::Blocks(f) => step_block(opts, f, s.total, avail, eof),
        PhaseView::Footer(f) => step_footer(f, s.total, avail, eof),
    }
}

/// The state before any input.
pub open spec fn initial_stream() -> StreamView {
    StreamView { phase: PhaseView::FrameStart, total: 0 }
}

pub open spec fn prepend(out: Seq<u8>, r: Result<Seq<u8>, Error>) -> Result<Seq<u8>, Error> {
    match r {
        Ok(rest) => Ok(out + rest),
        Err(e) => Err(e),
    }
}

/// Phases that a step may leave without consuming input rank higher.
pub open spec fn phase_rank(p: PhaseView) -> nat {
    match p {
        PhaseView::Skippable(_) => 1,
        PhaseView::Footer(_) => 1,
        _ => 0,
    }
}

/// What reading a stream to its end gives: the bytes that come out, and the
/// error that ends it, if one does.
pub struct Reading {
    pub out: Seq<u8>,
    pub error: Option<Error>,
}

/// A reading with `out` before it.
pub open spec fn after(out: Seq<u8>, r: Reading) -> Reading {
    Reading { out: out + r.out, error: r.error }
}

/// A reading that an error ends at once.
pub open spec fn failed(e: Error) -> Reading {
    Reading { out: Seq::empty(), error: Some(e) }
}

/// A reading that is at its end.
pub open spec fn finished() -> Reading {
    Reading { out: Seq::empty(), error: None }
}

/// What is read from state `s` on when `input` is all that is left.
#[verifier::opaque]
pub open spec fn reading(opts: OptionsView, s: StreamView, input: Seq<u8>) -> Reading
    decreases input.len(), phase_rank(s.phase),
{
    match stream_step(opts, s, input, true) {
        Step::NeedMore => failed(Error::SrcSizeWrong),
        Step::Done => finished(),
        Step::Fail(e) => failed(e),
        Step::Go { state, used, out } => {
            if used <= input.len() && (used > 0 || phase_rank(state.phase) < phase_rank(s.phase)) {
                after(out, reading(opts, state, input.skip(used as int)))
            } else {
                Reading { out, error: None }
            }
        },
    }
}

/// What the stream yields as a whole from state `s` on when `input` is all
/// that is left.
#[verifier::opaque]
pub open spec fn run_stream(opts: OptionsView, s: StreamView, input: Seq<u8>) -> Result<Seq<u8>, Error> {
    let r = reading(opts, s, input);
    match r.error {
        None => Ok(r.out),
        Some(e) => Err(e),
    }
}

// ---------------------------------------------------------------------------
// Laws.

proof fn lemma_le32_prefix(a: Seq<u8>, b: Seq<u8>, at: nat)
    requires
        at + 4 <= a.len(),
    ensures
        le32(a + b, at) == le32(a, at),
{
    crate::xxhash::lemma_bits_at_window(a, a + b, at, 4);
}

proof fn lemma_parse_prefix(a: Seq<u8>, b: Seq<u8>, w: nat)
    requires
        a.len() >= MAX_FRAME_HEADER,
    ensures
        spec_parse(a + b, w) == spec_parse(a, w),
{
    reveal(spec_parse);
    let c = a + b;
    let d = a[0] as int;
    let single = (d / 32) % 2 == 1;
    let wpos: nat = if single {
        1
    } else {
        2
    };
    let dlen = frame::dict_id_len(d % 4);
    let fcs = frame::fcs_len(single, d / 64);
    assert(c[0] == a[0] && c[1] == a[1]);
    crate::xxhash::lemma_bits_at_window(a, c, wpos, dlen);
    crate::xxhash::lemma_bits_at_window(a, c, wpos + dlen, fcs);
}

/// A step makes progress and stays within the bytes at hand.
proof fn lemma_step_progress(opts: OptionsView, s: StreamView, avail: Seq<u8>, eof: bool)
    ensures
        stream_step(opts, s, avail, eof) matches Step::Go { state, used, out } ==> used
            <= avail.len() && (used > 0 || phase_rank(state.phase) < phase_rank(s.phase)),
        eof ==> stream_step(opts, s, avail, eof) !is NeedMore,
{
    if s.phase is FrameStart {
        reveal(step_frame_start);
        if avail.len() >= 4 {
            frame::lemma_header_len(avail.skip(4), opts.window_log_max);
        }
    } else if s.phase is Blocks {
        reveal(step_block);
        reveal(spec_block);
    } else if s.phase is Footer {
        reveal(step_footer);
    }
}

/// When no more input will come, a step on what is buffered is a step of the
/// run.
pub proof fn law_step_at_end(opts: OptionsView, s: StreamView, avail: Seq<u8>)
    ensures
        match stream_step(opts, s, avail, true) {
            Step::Go { state, used, out } => {
                &&& reading(opts, s, avail) == after(
                    out,
                    reading(opts, state, avail.skip(used as int)),
                )
                &&& run_stream(opts, s, avail) == prepend(
                    out,
                    run_stream(opts, state, avail.skip(used as int)),
                )
            },
            Step::Fail(e) => {
                &&& reading(opts, s, avail) == failed(e)
                &&& run_stream(opts, s, avail) == Err::<Seq<u8>, Error>(e)
            },
            Step::Done => {
                &&& reading(opts, s, avail) == finished()
                &&& run_stream(opts, s, avail) == Ok::<Seq<u8>, Error>(Seq::empty())
            },
            Step::NeedMore => false,
        },
{
    reveal_with_fuel(reading, 1);
    reveal(run_stream);
    lemma_step_progress(opts, s, avail, true);
}

proof fn lemma_after_empty(out: Seq<u8>, r: Reading)
    requires
        out.len() == 0,
    ensures
        after(out, r) == r,
{
    assert(out + r.out =~= r.out);
}

proof fn lemma_skippable_split(opts: OptionsView, total: nat, left: nat, k: nat, input: Seq<u8>)
    requires
        k <= left,
        k <= input.len(),
    ensures
        reading(
            opts,
            StreamView { phase: PhaseView::Skippable(left), total },
            input,
        ) == reading(
            opts,
            StreamView { phase: PhaseView::Skippable((left - k) as nat), total },
            input.skip(k as int),
        ),
{
    if k == 0 {
        assert(input.skip(0) =~= input);
    } else {
        let t: nat = if left < input.len() {
            left
        } else {
            input.len()
        };
        let first = StreamView { phase: PhaseView::Skippable(left), total };
        let end = StreamView { phase: PhaseView::Skippable((left - t) as nat), total };
        let rest = input.skip(t as int);
        law_step_at_end(opts, first, input);
        lemma_after_empty(Seq::empty(), reading(opts, end, rest));
        let mid = StreamView { phase: PhaseView::Skippable((left - k) as nat), total };
        assert(input.skip(k as int).skip(t - k) =~= rest);
        if k == t {
            assert(mid == end);
        } else {
            law_step_at_end(opts, mid, input.skip(k as int));
        }
    }
}

proof fn lemma_start_prefix(opts: OptionsView, total: nat, avail: Seq<u8>, later: Seq<u8>)
    ensures
        step_frame_start(opts, total, avail, false) is NeedMore || step_frame_start(
            opts,
            total,
            avail + later,
            true,
        ) == step_frame_start(opts, total, avail, false),
{
    reveal(step_frame_start);
    let whole = avail + later;
    if avail.len() >= 4 {
        lemma_le32_prefix(avail, later, 0);
        if avail.len() >= 8 {
            lemma_le32_prefix(avail, later, 4);
        }
        if avail.len() >= 4 + MAX_FRAME_HEADER {
            assert(whole.skip(4) =~= avail.skip(4) + later);
            lemma_parse_prefix(avail.skip(4), later, opts.window_log_max);
        }
    }
}

proof fn lemma_block_prefix(
    opts: OptionsView,
    f: FrameStateView,
    total: nat,
    avail: Seq<u8>,
    later: Seq<u8>,
)
    ensures
        step_block(opts, f, total, avail, false) is NeedMore || step_block(
            opts,
            f,
            total,
            avail + later,
            true,
        ) == step_block(opts, f, total, avail, false),
{
    reveal(spec_block);
    reveal(step_block);
    let whole = avail + later;
    if avail.len() >= 3 {
        assert(whole[0] == avail[0] && whole[1] == avail[1] && whole[2] == avail[2]);
        let raw = block_header(avail);
        if avail.len() >= 3 + body_len(raw) {
            let size = (raw / 8) as int;
            if (raw / 2) % 4 != 1 {
                assert(whole.subrange(3, 3 + size) =~= avail.subrange(3, 3 + size));
            } else {
                assert(whole[3] == avail[3]);
            }
            assert(spec_block(f.ctx, whole, f.win, f.block_max, usize::MAX - f.win.len())
                == spec_block(f.ctx, avail, f.win, f.block_max, usize::MAX - f.win.len()));
        }
    }
}

proof fn lemma_footer_prefix(f: FrameStateView, total: nat, avail: Seq<u8>, later: Seq<u8>)
    ensures
        step_footer(f, total, avail, false) is NeedMore || step_footer(
            f,
            total,
            avail + later,
            true,
        ) == step_footer(f, total, avail, false),
{
    reveal(step_footer);
    if avail.len() >= 4 {
        lemma_le32_prefix(avail, later, 0);
    }
}

/// A step taken on the bytes at hand is right however the input goes on: what
/// the whole input yields is what the step yields, followed by what the rest
/// yields from the state after it.
pub proof fn law_step_ignores_later_input(
    opts: OptionsView,
    s: StreamView,
    avail: Seq<u8>,
    later: Seq<u8>,
)
    ensures
        match stream_step(opts, s, avail, false) {
            Step::Go { state, used, out } => reading(opts, s, avail + later) == after(
                out,
                reading(opts, state, (avail + later).skip(used as int)),
            ),
            Step::Fail(e) => reading(opts, s, avail + later) == failed(e),
            Step::Done => reading(opts, s, avail + later) == finished(),
            Step::NeedMore => true,
        },
{
    let whole = avail + later;
    law_step_at_end(opts, s, whole);
    match s.phase {
        PhaseView::Done => {},
        PhaseView::Failed(_) => {},
        PhaseView::FrameStart => {
            lemma_start_prefix(opts, s.total, avail, later);
        },
        PhaseView::Skippable(left) => {
            if left > 0 && avail.len() > 0 {
                let k: nat = if left < avail.len() {
                    left
                } else {
                    avail.len()
                };
                lemma_skippable_split(opts, s.total, left, k, whole);
                lemma_after_empty(
                    Seq::empty(),
                    reading(
                        opts,
                        StreamView {
                            phase: PhaseView::Skippable((left - k) as nat),
                            total: s.total,
                        },
                        whole.skip(k as int),
                    ),
                );
            }
        },
        PhaseView::Blocks(f) => {
            lemma_block_prefix(opts, f, s.total, avail, later);
        },
        PhaseView::Footer(f) => {
            lemma_footer_prefix(f, s.total, avail, later);
        },
    }
}

// ---------------------------------------------------------------------------
// The decoder.

/// Decoding state inside a frame.
pub struct FrameState {
    pub ctx: FrameContext,
    pub win: Vec<u8>,
    pub window: usize,
    pub block_size_max: usize,
    pub has_checksum: bool,
    pub content_size: Option<u64>,
    pub xxh: Xxh64,
    pub produced: u64,
}

impl View for FrameState {
    type V = FrameStateView;

    open spec fn view(&self) -> FrameStateView {
        FrameStateView {
            ctx: self.ctx@,
            win: self.win@,
            window: self.window as nat,
            block_max: self.block_size_max as nat,
            has_checksum: self.has_checksum,
            content_size: self.content_size,
            content: self.xxh.bytes(),
        }
    }
}

impl FrameState {
    pub open spec fn wf(&self) -> bool {
        &&& self.ctx@.wf()
        &&& self.block_size_max <= 131072
        &&& self.xxh.wf()
        &&& self.xxh.spec_seed() == 0
        &&& self.produced == self.xxh.bytes().len()
    }
}

/// Where the decoder stands in the input.
#[derive(Clone, Copy)]
enum Phase {
    FrameStart,
    Skippable(u32),
    Blocks,
    Footer,
    Done,
    Failed(Error),
}

/// What [`StreamDecoder::decode_more`] came to.
#[derive(Clone, Copy, Debug, PartialEq, Eq)]
pub enum Progress {
    /// Fresh output is ready.
    Output,
    /// More input has to be fed, or the end of the input announced.
    NeedInput,
    /// The whole input has been decoded.
    Finished,
}

/// An incremental decoder: bytes are fed in and decompressed bytes come out.
pub struct StreamDecoder<'d> {
    options: DecodeOptions<'d>,
    /// Input that has been fed and not consumed yet.
    in_buf: Vec<u8>,
    eof: bool,
    phase: Phase,
    frame: Option<FrameState>,
    /// Output that has not been handed out yet.
    out_ready: Vec<u8>,
    total: u64,
}

impl<'d> StreamDecoder<'d> {
    pub closed spec fn opts(&self) -> OptionsView {
        self.options@
    }

    /// Input fed and not consumed yet.
    pub closed spec fn buffered(&self) -> Seq<u8> {
        self.in_buf@
    }

    /// Whether the end of the input was announced.
    pub closed spec fn ended(&self) -> bool {
        self.eof
    }

    /// Output not handed out yet.
    pub closed spec fn ready(&self) -> Seq<u8> {
        self.out_ready@
    }

    pub closed spec fn state(&self) -> StreamView {
        StreamView {
            phase: match self.phase {
                Phase::FrameStart => PhaseView::FrameStart,
                Phase::Skippable(n) => PhaseView::Skippable(n as nat),
                Phase::Blocks => PhaseView::Blocks(self.frame->Some_0@),
                Phase::Footer => PhaseView::Footer(self.frame->Some_0@),
                Phase::Done => PhaseView::Done,
                Phase::Failed(e) => PhaseView::Failed(e),
            },
            total: self.total as nat,
        }
    }

    pub closed spec fn wf(&self) -> bool {
        &&& self.total <= self.options@.limit
        &&& self.options@.limit <= usize::MAX
        &&& (self.phase is Blocks || self.phase is Footer) ==> self.frame is Some
        &&& self.frame matches Some(f) ==> f.wf() && f.produced <= self.total
    }

    /// A decoder with default options.
    pub fn new() -> (r: Self)
        ensures
            r.wf(),
            r.opts() == default_options(),
            r.state() == initial_stream(),
            r.buffered() == Seq::<u8>::empty(),
            r.ready() == Seq::<u8>::empty(),
            !r.ended(),
    {
        Self::with_options(DecodeOptions::new())
    }

    /// A decoder that takes the output limit, maximum window log and
    /// dictionary from `options`.
    pub fn with_options(options: DecodeOptions<'d>) -> (r: Self)
        ensures
            r.wf(),
            r.opts() == options@,
            r.state() == initial_stream(),
            r.buffered() == Seq::<u8>::empty(),
            r.ready() == Seq::<u8>::empty(),
            !r.ended(),
    {
        let limit: usize = options.limit_value();
        StreamDecoder {
            options,
            in_buf: Vec::new(),
            eof: false,
            phase: Phase::FrameStart,
            frame: None,
            out_ready: Vec::new(),
            total: 0,
        }
    }

    /// Appends `data` to the input.
    pub fn feed(&mut self, data: &[u8])
        requires
            old(self).wf(),
            !old(self).ended(),
        ensures
            final(self).wf(),
            final(self).opts() == old(self).opts(),
            final(self).state() == old(self).state(),
            final(self).buffered() == old(self).buffered() + data@,
            final(self).ready() == old(self).ready(),
            !final(self).ended(),
    {
        append_bytes(&mut self.in_buf, data);
    }

    /// Announces the end of the input.
    pub fn finish_input(&mut self)
        requires
            old(self).wf(),
        ensures
            final(self).wf(),
            final(self).opts() == old(self).opts(),
            final(self).state() == old(self).state(),
            final(self).buffered() == old(self).buffered(),
            final(self).ready() == old(self).ready(),
            final(self).ended(),
    {
        self.eof = true;
    }

    /// Hands out up to `max` bytes of ready output.
    pub fn take_ready(&mut self, max: usize) -> (r: Vec<u8>)
        requires
            old(self).wf(),
        ensures
            final(self).wf(),
            final(self).opts() == old(self).opts(),
            final(self).state() == old(self).state(),
            final(self).buffered() == old(self).buffered(),
            final(self).ended() == old(self).ended(),
            r@ + final(self).ready() == old(self).ready(),
            r@.len() == if max < old(self).ready().len() {
                max as nat
            } else {
                old(self).ready().len()
            },
    {
        let n: usize = if max < self.out_ready.len() {
            max
        } else {
            self.out_ready.len()
        };
        let mut head: Vec<u8> = Vec::new();
        append_bytes(&mut head, slice_subrange(self.out_ready.as_slice(), 0, n));
        let mut tail: Vec<u8> = Vec::new();
        append_bytes(&mut tail, slice_subrange(self.out_ready.as_slice(), n, self.out_ready.len()));
        assert(head@ + tail@ =~= self.out_ready@);
        self.out_ready = tail;
        head
    }

    /// Drops the first `n` bytes of the input.
    fn consume(&mut self, n: usize)
        requires
            old(self).wf(),
            n <= old(self).in_buf@.len(),
        ensures
            final(self).wf(),
            final(self).in_buf@ == old(self).in_buf@.skip(n as int),
            final(self).options == old(self).options,
            final(self).eof == old(self).eof,
            final(self).phase == old(self).phase,
            final(self).frame == old(self).frame,
            final(self).out_ready == old(self).out_ready,
            final(self).total == old(self).total,
    {
        if n > 0 {
            let mut rest: Vec<u8> = Vec::new();
            append_bytes(&mut rest, slice_subrange(self.in_buf.as_slice(), n, self.in_buf.len()));
            assert(rest@ =~= self.in_buf@.skip(n as int));
            self.in_buf = rest;
        } else {
            assert(self.in_buf@.skip(0) =~= self.in_buf@);
        }
    }

    /// One step of the machine; whether it could be taken.
    fn step(&mut self) -> (r: Result<Progress, Error>)
        requires
            old(self).wf(),
        ensures
            final(self).opts() == old(self).opts(),
            final(self).ended() == old(self).ended(),
            match stream_step(
                old(self).opts(),
                old(self).state(),
                old(self).buffered(),
                old(self).ended(),
            ) {
                Step::NeedMore => {
                    &&& r == Ok::<Progress, Error>(Progress::NeedInput)
                    &&& final(self).wf()
                    &&& final(self).state() == old(self).state()
                    &&& final(self).buffered() == old(self).buffered()
                    &&& final(self).ready() == old(self).ready()
                },
                Step::Done => {
                    &&& r == Ok::<Progress, Error>(Progress::Finished)
                    &&& final(self).wf()
                    &&& final(self).ready() == old(self).ready()
                    &&& final(self).state().phase is Done
                },
                Step::Fail(e) => {
                    &&& r == Err::<Progress, Error>(e)
                    &&& final(self).ready() == old(self).ready()
                    &&& final(self).total == old(self).total
                },
                Step::Go { state, used, out } => {
                    &&& r == Ok::<Progress, Error>(Progress::Output)
                    &&& final(self).wf()
                    &&& final(self).state() == state
                    &&& final(self).buffered() == old(self).buffered().skip(used as int)
                    &&& final(self).ready() == old(self).ready() + out
                },
            },
    {
        match self.phase {
            Phase::Done => Ok(Progress::Finished),
            Phase::Failed(e) => Err(e),
            Phase::FrameStart => self.step_start(),
            Phase::Skippable(left) => {
                if left == 0 {
                    self.phase = Phase::FrameStart;
                    assert(self.in_buf@.skip(0) =~= self.in_buf@);
                    assert(self.out_ready@ + Seq::<u8>::empty() =~= self.out_ready@);
                    return Ok(Progress::Output);
                }
                if self.in_buf.len() == 0 {
                    if self.eof {
                        return Err(Error::SrcSizeWrong);
                    }
                    return Ok(Progress::NeedInput);
                }
                let take: usize = if (left as usize) < self.in_buf.len() {
                    left as usize
                } else {
                    self.in_buf.len()
                };
                self.consume(take);
                self.phase = Phase::Skippable(left - take as u32);
                assert(self.out_ready@ + Seq::<u8>::empty() =~= self.out_ready@);
                Ok(Progress::Output)
            },
            Phase::Blocks => self.step_blocks(),
            Phase::Footer => self.step_foot(),
        }
    }

    /// The step between frames.
    #[verifier::rlimit(30)]
    fn step_start(&mut self) -> (r: Result<Progress, Error>)
        requires
            old(self).wf(),
            old(self).phase is FrameStart,
        ensures
            final(self).options == old(self).options,
            final(self).eof == old(self).eof,
            match step_frame_start(
                old(self).options@,
                old(self).total as nat,
                old(self).in_buf@,
                old(self).eof,
            ) {
                Step::NeedMore => {
                    &&& r == Ok::<Progress, Error>(Progress::NeedInput)
                    &&& *final(self) == *old(self)
                },
                Step::Done => {
                    &&& r == Ok::<Progress, Error>(Progress::Finished)
                    &&& final(self).wf()
                    &&& final(self).out_ready == old(self).out_ready
                    &&& final(self).phase is Done
                },
                Step::Fail(e) => {
                    &&& r == Err::<Progress, Error>(e)
                    &&& final(self).out_ready == old(self).out_ready
                    &&& final(self).total == old(self).total
                },
                Step::Go { state, used, out } => {
                    &&& r == Ok::<Progress, Error>(Progress::Output)
                    &&& final(self).wf()
                    &&& final(self).state() == state
                    &&& final(self).in_buf@ == old(self).in_buf@.skip(used as int)
                    &&& final(self).out_ready@ == old(self).out_ready@ + out
                },
            },
    {
        proof {
            reveal(step_frame_start);
        }
        if self.in_buf.len() < 4 {
            if !self.eof {
                return Ok(Progress::NeedInput);
            }
            if self.in_buf.len() == 0 {
                self.phase = Phase::Done;
                return Ok(Progress::Finished);
            }
            return Err(Error::SrcSizeWrong);
        }
        let magic: u32 = load4(self.in_buf.as_slice(), 0);
        assert(self.out_ready@ + Seq::<u8>::empty() =~= self.out_ready@);
        if magic == ZSTD_MAGIC {
            if self.in_buf.len() < 4 + MAX_FRAME_HEADER && !self.eof {
                return Ok(Progress::NeedInput);
            }
            let after = slice_subrange(self.in_buf.as_slice(), 4, self.in_buf.len());
            assert(after@ =~= self.in_buf@.skip(4));
            proof {
                frame::lemma_header_len(after@, self.options@.window_log_max);
            }
            let header: FrameHeader = match frame::parse(
                after,
                self.options.window_log_max_value(),
            ) {
                Ok(h) => h,
                Err(e) => {
                    return Err(e);
                },
            };
            let dict: Option<&Dictionary> = match choose_dictionary(
                self.options.dictionary_value(),
                header.dict_id,
            ) {
                Ok(d) => d,
                Err(e) => {
                    return Err(e);
                },
            };
            let mut win: Vec<u8> = Vec::new();
            append_bytes(&mut win, content_of(dict));
            assert(win@ =~= dict_content(opt_dict_view(dict)));
            let window: usize = if header.window_size < usize::MAX as u64 {
                header.window_size as usize
            } else {
                usize::MAX
            };
            let block_size_max: usize = if header.window_size < BLOCK_SIZE_MAX as u64 {
                header.window_size as usize
            } else {
                BLOCK_SIZE_MAX
            };
            let f = FrameState {
                ctx: start_context(dict),
                win,
                window,
                block_size_max,
                has_checksum: header.has_checksum,
                content_size: header.content_size,
                xxh: Xxh64::new(0),
                produced: 0,
            };
            self.consume(4 + header.header_len);
            self.frame = Some(f);
            self.phase = Phase::Blocks;
            return Ok(Progress::Output);
        }
        if magic / 16 == SKIPPABLE_MAGIC / 16 {
            if self.in_buf.len() < 8 {
                if self.eof {
                    return Err(Error::SrcSizeWrong);
                }
                return Ok(Progress::NeedInput);
            }
            let size: u32 = load4(self.in_buf.as_slice(), 4);
            self.consume(8);
            self.phase = Phase::Skippable(size);
            return Ok(Progress::Output);
        }
        Err(Error::UnknownMagic(magic))
    }

    /// The step over one block.
    #[verifier::rlimit(30)]
    fn step_blocks(&mut self) -> (r: Result<Progress, Error>)
        requires
            old(self).wf(),
            old(self).phase is Blocks,
        ensures
            final(self).options == old(self).options,
            final(self).eof == old(self).eof,
            match step_block(
                old(self).options@,
                old(self).frame->Some_0@,
                old(self).total as nat,
                old(self).in_buf@,
                old(self).eof,
            ) {
                Step::NeedMore => {
                    &&& r == Ok::<Progress, Error>(Progress::NeedInput)
                    &&& final(self).wf()
                    &&& final(self).state() == old(self).state()
                    &&& final(self).in_buf@ == old(self).in_buf@
                    &&& final(self).out_ready@ == old(self).out_ready@
                },
                Step::Done => false,
                Step::Fail(e) => {
                    &&& r == Err::<Progress, Error>(e)
                    &&& final(self).out_ready == old(self).out_ready
                    &&& final(self).total == old(self).total
                },
                Step::Go { state, used, out } => {
                    &&& r == Ok::<Progress, Error>(Progress::Output)
                    &&& final(self).wf()
                    &&& final(self).state() == state
                    &&& final(self).in_buf@ == old(self).in_buf@.skip(used as int)
                    &&& final(self).out_ready@ == old(self).out_ready@ + out
                },
            },
    {
        proof {
            reveal(step_block);
        }
        if self.in_buf.len() < 3 {
            if self.eof {
                return Err(Error::SrcSizeWrong);
            }
            return Ok(Progress::NeedInput);
        }
        let raw: u32 = self.in_buf[0] as u32 + 256 * self.in_buf[1] as u32 + 65536
            * self.in_buf[2] as u32;
        let block_type: u32 = (raw / 2) % 4;
        if block_type == 3 {
            return Err(Error::BlockTypeInvalid);
        }
        let body: usize = if block_type == 1 {
            1
        } else {
            (raw / 8) as usize
        };
        if self.in_buf.len() < 3 + body {
            if self.eof {
                return Err(Error::SrcSizeWrong);
            }
            return Ok(Progress::NeedInput);
        }
        let mut f: FrameState = match self.frame.take() {
            Some(f) => f,
            None => {
                return Err(Error::SrcSizeWrong);
            },
        };
        let before: usize = f.win.len();
        let empty: [u8; 0] = [];
        let ghost none: Seq<u8> = empty@;
        assert(none + f.win@.skip(0) =~= f.win@);
        let (used, last) = match decode_block(
            &mut f.ctx,
            self.in_buf.as_slice(),
            &mut f.win,
            0,
            &empty,
            f.block_size_max,
            usize::MAX,
        ) {
            Ok(p) => p,
            Err(e) => {
                return Err(e);
            },
        };
        assert(none + f.win@.skip(0) =~= f.win@);
        let fresh_len: usize = f.win.len() - before;
        let limit: usize = self.options.limit_value();
        let ghost fresh = f.win@.skip(before as int);
        if fresh_len as u64 > limit as u64 - self.total {
            return Err(Error::OutputTooLarge);
        }
        let new = slice_subrange(f.win.as_slice(), before, f.win.len());
        assert(new@ =~= fresh);
        append_bytes(&mut self.out_ready, new);
        f.xxh.update(new);
        f.produced = f.produced + fresh_len as u64;
        self.total = self.total + fresh_len as u64;
        if f.win.len() > f.window {
            let mut kept: Vec<u8> = Vec::new();
            append_bytes(
                &mut kept,
                slice_subrange(f.win.as_slice(), f.win.len() - f.window, f.win.len()),
            );
            assert(kept@ =~= f.win@.skip(f.win@.len() - f.window));
            f.win = kept;
        }
        self.frame = Some(f);
        self.consume(used);
        if last {
            self.phase = Phase::Footer;
        }
        Ok(Progress::Output)
    }

    /// The step after a frame's last block.
    fn step_foot(&mut self) -> (r: Result<Progress, Error>)
        requires
            old(self).wf(),
            old(self).phase is Footer,
        ensures
            final(self).options == old(self).options,
            final(self).eof == old(self).eof,
            match step_footer(
                old(self).frame->Some_0@,
                old(self).total as nat,
                old(self).in_buf@,
                old(self).eof,
            ) {
                Step::NeedMore => {
                    &&& r == Ok::<Progress, Error>(Progress::NeedInput)
                    &&& final(self).wf()
                    &&& final(self).state() == old(self).state()
                    &&& final(self).in_buf@ == old(self).in_buf@
                    &&& final(self).out_ready@ == old(self).out_ready@
                },
                Step::Done => false,
                Step::Fail(e) => {
                    &&& r == Err::<Progress, Error>(e)
                    &&& final(self).out_ready == old(self).out_ready
                    &&& final(self).total == old(self).total
                },
                Step::Go { state, used, out } => {
                    &&& r == Ok::<Progress, Error>(Progress::Output)
                    &&& final(self).wf()
                    &&& final(self).state() == state
                    &&& final(self).in_buf@ == old(self).in_buf@.skip(used as int)
                    &&& final(self).out_ready@ == old(self).out_ready@ + out
                },
            },
    {
        proof {
            reveal(step_footer);
        }
        assert(self.out_ready@ + Seq::<u8>::empty() =~= self.out_ready@);
        let f: FrameState = match self.frame.take() {
            Some(f) => f,
            None => {
                return Err(Error::SrcSizeWrong);
            },
        };
        if let Some(fcs) = f.content_size {
            if f.produced != fcs {
                return Err(Error::FrameContentSizeMismatch);
            }
        }
        if f.has_checksum {
            if self.in_buf.len() < 4 {
                self.frame = Some(f);
                if self.eof {
                    return Err(Error::SrcSizeWrong);
                }
                return Ok(Progress::NeedInput);
            }
            let expected: u32 = load4(self.in_buf.as_slice(), 0);
            let actual: u32 = (f.xxh.digest() % 0x1_0000_0000) as u32;
            if expected != actual {
                return Err(Error::ChecksumMismatch { expected, actual });
            }
            self.phase = Phase::FrameStart;
            self.consume(4);
        } else {
            assert(self.in_buf@.skip(0) =~= self.in_buf@);
            self.phase = Phase::FrameStart;
        }
        Ok(Progress::Output)
    }

    /// The decoder as its callers see it.
    pub open spec fn seen(&self) -> DecoderView {
        DecoderView {
            state: self.state(),
            buffered: self.buffered(),
            ended: self.ended(),
            ready: self.ready(),
        }
    }

    /// Decodes until output is ready, more input is needed, or the input is
    /// finished.
    ///
    /// However the input goes on, what is read from the whole input is what is
    /// ready now followed by what is read from the rest. After an error, every
    /// further call gives the same error.
    #[verifier::rlimit(30)]
    pub fn decode_more(&mut self) -> (r: Result<Progress, Error>)
        requires
            old(self).wf(),
            old(self).ready().len() == 0,
        ensures
            final(self).opts() == old(self).opts(),
            final(self).wf(),
            decoded(old(self).opts(), old(self).seen(), r, final(self).seen()),
    {
        let ghost opts = self.opts();
        let ghost d0 = self.seen();
        let ghost s0 = self.state();
        let ghost b0 = self.buffered();
        let ghost eof = self.ended();
        proof {
            assert forall|later: Seq<u8>| #![trigger b0 + later] reading(opts, s0, b0 + later) == after(
                self.ready(),
                reading(opts, s0, b0 + later),
            ) by {
                lemma_after_empty(self.ready(), reading(opts, s0, b0 + later));
            }
        }
        loop
            invariant
                self.wf(),
                self.opts() == opts,
                opts == old(self).opts(),
                d0 == old(self).seen(),
                s0 == d0.state,
                b0 == d0.buffered,
                eof == d0.ended,
                self.ended() == eof,
                self.ready().len() == 0,
                s0.phase is Failed ==> self.state().phase == s0.phase,
                forall|later: Seq<u8>|
                    #![trigger b0 + later]
                    eof && later.len() > 0 || reading(opts, s0, b0 + later) == after(
                        self.ready(),
                        reading(opts, self.state(), self.buffered() + later),
                    ),
            decreases self.buffered().len(), phase_rank(self.state().phase),
        {
            let ghost s1 = self.state();
            let ghost b1 = self.buffered();
            let ghost ready1 = self.ready();
            let ghost st = stream_step(opts, s1, b1, eof);
            proof {
                lemma_step_progress(opts, s1, b1, eof);
                assert forall|later: Seq<u8>| #![trigger b0 + later] !(eof && later.len()
                    > 0) implies match st {
                    Step::Go { state, used, out } => reading(opts, s1, b1 + later) == after(
                        out,
                        reading(opts, state, b1.skip(used as int) + later),
                    ),
                    Step::Fail(e) => reading(opts, s1, b1 + later) == failed(e),
                    Step::Done => reading(opts, s1, b1 + later) == finished(),
                    Step::NeedMore => true,
                } by {
                    if eof {
                        assert(b1 + later =~= b1);
                        law_step_at_end(opts, s1, b1);
                        if st is Go {
                            let used = st->used;
                            assert(b1.skip(used as int) + later =~= b1.skip(used as int));
                        }
                    } else {
                        law_step_ignores_later_input(opts, s1, b1, later);
                        if st is Go {
                            let used = st->used;
                            assert((b1 + later).skip(used as int) =~= b1.skip(used as int) + later);
                        }
                    }
                }
                assert forall|later: Seq<u8>| #![trigger b0 + later] !(eof && later.len()
                    > 0) implies reading(opts, s0, b0 + later) == reading(opts, s1, b1 + later) by {
                    lemma_after_empty(ready1, reading(opts, s1, b1 + later));
                }
                assert(ready1 =~= Seq::<u8>::empty());
            }
            match self.step() {
                Err(e) => {
                    self.frame = None;
                    self.phase = Phase::Failed(e);
                    return Err(e);
                },
                Ok(Progress::NeedInput) => {
                    return Ok(Progress::NeedInput);
                },
                Ok(Progress::Finished) => {
                    return Ok(Progress::Finished);
                },
                Ok(Progress::Output) => {
                    proof {
                        assert(st is Go);
                        let out = st->out;
                        assert(self.ready() =~= out);
                    }
                    if self.out_ready.len() > 0 {
                        return Ok(Progress::Output);
                    }
                },
            }
        }
    }
}

/// A decoder as its callers see it.
pub struct DecoderView {
    pub state: StreamView,
    /// Input fed and not consumed yet.
    pub buffered: Seq<u8>,
    /// The end of the input was announced.
    pub ended: bool,
    /// Output not handed out yet.
    pub ready: Seq<u8>,
}

/// What [`StreamDecoder::decode_more`] comes to: `r` from `d`, which becomes
/// `d1`. However the input goes on, what is read from the whole input is what
/// is ready in `d1` followed by what is read from the rest. An error stays.
pub open spec fn decoded(opts: OptionsView, d: DecoderView, r: Result<Progress, Error>, d1: DecoderView) -> bool {
    &&& d1.ended == d.ended
    &&& r matches Err(e) ==> d1.state.phase == PhaseView::Failed(e)
    &&& d.state.phase matches PhaseView::Failed(e) ==> r == Err::<Progress, Error>(e)
    &&& d1.ready.len() > 0 <==> r == Ok::<Progress, Error>(Progress::Output)
    &&& r == Ok::<Progress, Error>(Progress::NeedInput) ==> {
        &&& !d1.ended
        &&& stream_step(opts, d1.state, d1.buffered, false) is NeedMore
    }
    &&& forall|later: Seq<u8>|
        #![trigger d.buffered + later]
        d.ended && later.len() > 0 || {
            let whole = reading(opts, d.state, d.buffered + later);
            match r {
                Ok(Progress::Finished) => whole == finished(),
                Ok(_) => whole == after(d1.ready, reading(opts, d1.state, d1.buffered + later)),
                Err(e) => whole == failed(e),
            }
        }
}

} // verus!
