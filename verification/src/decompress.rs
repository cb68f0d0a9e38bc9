//! Whole-buffer decompression: the sequence of frames and the block loop.

use crate::{block, frame};
use crate::block::{
    append_bytes, fresh_ctx, repeat_byte, repeated, spec_compressed_block, CtxView, FrameContext, BLOCK_SIZE_MAX,
};
use crate::dictionary::{le32, DictView, Dictionary};
use crate::error::Error;
use crate::frame::{spec_parse, FrameHeader, WINDOW_LOG_MAX};
use crate::fse::bytes_result;
use crate::math::load4;
use crate::xxhash::{spec_xxh64, xxh64};
use vstd::prelude::*;
use vstd::slice::slice_subrange;

verus! {

/// The number that a frame starts with.
pub const ZSTD_MAGIC: u32 = 0xFD2F_B528;

/// The smallest of the sixteen numbers that a skippable frame starts with.
pub const SKIPPABLE_MAGIC: u32 = 0x184D_2A50;

/// Cap on preallocation from the declared content size.
const MAX_PREALLOC: u64 = 33554432;

/// Decompression options: an output-size limit, a maximum accepted window
/// log, and an optional dictionary.
#[derive(Clone)]
pub struct DecodeOptions<'d> {
    limit: usize,
    window_log_max: u32,
    dictionary: Option<&'d Dictionary>,
}

/// What the options say.
pub struct OptionsView {
    pub limit: nat,
    pub window_log_max: nat,
    pub dictionary: Option<DictView>,
}

impl<'d> View for DecodeOptions<'d> {
    type V = OptionsView;

    closed spec fn view(&self) -> OptionsView {
        OptionsView {
            limit: self.limit as nat,
            window_log_max: self.window_log_max as nat,
            dictionary: match self.dictionary {
                Some(d) => Some(d@),
                None => None,
            },
        }
    }
}

/// No output limit, window logs up to [`WINDOW_LOG_MAX`], no dictionary.
pub open spec fn default_options() -> OptionsView {
    OptionsView { limit: usize::MAX as nat, window_log_max: 31, dictionary: None }
}

// ---------------------------------------------------------------------------
// Blocks.

/// The 24-bit block header at the start of `input`.
pub open spec fn block_header(input: Seq<u8>) -> nat {
    (input[0] + 256 * input[1] + 65536 * input[2]) as nat
}

/// The outcome of one block: the context and history after it, the bytes it
/// occupies, and whether it is the last of its frame.
pub struct BlockStep {
    pub ctx: CtxView,
    pub hist: Seq<u8>,
    pub used: nat,
    pub last: bool,
}

/// The block at the start of `input`, applied to the history `hist`.
#[verifier::opaque]
pub open spec fn spec_block(ctx: CtxView, input: Seq<u8>, hist: Seq<u8>, block_max: nat, room: int) -> Result<
    BlockStep,
    Error,
> {
    if input.len() < 3 {
        Err(Error::SrcSizeWrong)
    } else {
        let raw = block_header(input);
        let last = raw % 2 == 1;
        let ty = (raw / 2) % 4;
        let size = raw / 8;
        if ty == 3 {
            Err(Error::BlockTypeInvalid)
        } else if size > block_max {
            Err(Error::Corrupted("block size exceeds block size limit"))
        } else if ty == 1 {
            if input.len() < 4 {
                Err(Error::SrcSizeWrong)
            } else if size > room {
                Err(Error::OutputTooLarge)
            } else {
                Ok(BlockStep { ctx, hist: hist + repeat_byte(input[3], size), used: 4, last })
            }
        } else if input.len() < 3 + size {
            Err(Error::SrcSizeWrong)
        } else if ty == 0 {
            if size > room {
                Err(Error::OutputTooLarge)
            } else {
                Ok(
                    BlockStep {
                        ctx,
                        hist: hist + input.subrange(3, 3 + size as int),
                        used: 3 + size,
                        last,
                    },
                )
            }
        } else {
            match spec_compressed_block(
                ctx,
                input.subrange(3, 3 + size as int),
                hist,
                block_max,
                room,
            ) {
                Err(e) => Err(e),
                Ok((ctx1, hist1)) => Ok(BlockStep { ctx: ctx1, hist: hist1, used: 3 + size, last }),
            }
        }
    }
}

/// The blocks at the start of `input`, up to the last of the frame: the
/// history after them and the rest of the input. `room` is what the output
/// limit leaves when the history is `base` long.
pub open spec fn spec_blocks(
    ctx: CtxView,
    input: Seq<u8>,
    hist: Seq<u8>,
    block_max: nat,
    base: nat,
    room: int,
) -> Result<(Seq<u8>, Seq<u8>), Error>
    decreases input.len(),
{
    match spec_block(ctx, input, hist, block_max, room - (hist.len() - base)) {
        Err(e) => Err(e),
        Ok(b) => {
            let rest = input.skip(b.used as int);
            if b.last {
                Ok((b.hist, rest))
            } else if rest.len() >= input.len() {
                Ok((b.hist, rest))
            } else {
                spec_blocks(b.ctx, rest, b.hist, block_max, base, room)
            }
        },
    }
}

// ---------------------------------------------------------------------------
// Frames.

/// The dictionary that a frame asking for ID `id` is decoded with. ID zero
/// accepts whatever was supplied.
pub open spec fn resolve_dictionary(supplied: Option<DictView>, id: u32) -> Result<
    Option<DictView>,
    Error,
> {
    if id == 0 {
        Ok(supplied)
    } else {
        match supplied {
            None => Err(Error::DictionaryRequired(id)),
            Some(d) => if d.id == id {
                Ok(Some(d))
            } else {
                Err(Error::DictionaryWrong { expected: id, actual: d.id })
            },
        }
    }
}

pub open spec fn dict_content(d: Option<DictView>) -> Seq<u8> {
    match d {
        None => Seq::empty(),
        Some(x) => x.content,
    }
}

pub open spec fn dict_ctx(d: Option<DictView>) -> CtxView {
    match d {
        None => fresh_ctx(),
        Some(x) => x.ctx,
    }
}

pub open spec fn block_max_of(window_size: u64) -> nat {
    if window_size < 131072 {
        window_size as nat
    } else {
        131072
    }
}

/// The checks after a frame's last block: the declared content size, then the
/// checksum. Gives the input after the frame.
pub open spec fn spec_frame_end(h: FrameHeader, content: Seq<u8>, rest: Seq<u8>) -> Result<
    Seq<u8>,
    Error,
> {
    if h.content_size matches Some(n) && content.len() != n {
        Err(Error::FrameContentSizeMismatch)
    } else if !h.has_checksum {
        Ok(rest)
    } else if rest.len() < 4 {
        Err(Error::SrcSizeWrong)
    } else {
        let expected = le32(rest, 0) as u32;
        let actual = checksum32(content);
        if expected != actual {
            Err(Error::ChecksumMismatch { expected, actual })
        } else {
            Ok(rest.skip(4))
        }
    }
}

/// The content checksum: the low half of the XXH64 hash.
pub open spec fn checksum32(content: Seq<u8>) -> u32 {
    (spec_xxh64(content, 0) % 0x1_0000_0000) as u32
}

/// The frame whose bytes after the magic are at the start of `src`, decoded
/// when `before` bytes have been produced: its content and the input after it.
#[verifier::opaque]
pub open spec fn spec_frame(opts: OptionsView, src: Seq<u8>, before: nat) -> Result<
    (Seq<u8>, Seq<u8>),
    Error,
> {
    match spec_parse(src, opts.window_log_max) {
        Err(e) => Err(e),
        Ok(h) => match resolve_dictionary(opts.dictionary, h.dict_id) {
            Err(e) => Err(e),
            Ok(d) => if h.content_size matches Some(n) && n + before > opts.limit {
                Err(Error::OutputTooLarge)
            } else {
                let prefix = dict_content(d);
                match spec_blocks(
                    dict_ctx(d),
                    src.skip(h.header_len as int),
                    prefix,
                    block_max_of(h.window_size),
                    prefix.len(),
                    opts.limit - before,
                ) {
                    Err(e) => Err(e),
                    Ok((hist, rest)) => {
                        let content = hist.skip(prefix.len() as int);
                        match spec_frame_end(h, content, rest) {
                            Err(e) => Err(e),
                            Ok(rest1) => Ok((content, rest1)),
                        }
                    },
                }
            },
        },
    }
}

/// `out` followed by the contents of all frames of `src`.
pub open spec fn spec_frames(opts: OptionsView, src: Seq<u8>, out: Seq<u8>) -> Result<Seq<u8>, Error>
    decreases src.len(),
{
    if src.len() == 0 {
        Ok(out)
    } else if src.len() < 4 {
        Err(Error::SrcSizeWrong)
    } else {
        let magic = le32(src, 0);
        if magic == ZSTD_MAGIC {
            match spec_frame(opts, src.skip(4), out.len()) {
                Err(e) => Err(e),
                Ok((content, rest)) => if rest.len() >= src.len() {
                    Ok(out + content)
                } else {
                    spec_frames(opts, rest, out + content)
                },
            }
        } else if magic / 16 == SKIPPABLE_MAGIC / 16 {
            if src.len() < 8 {
                Err(Error::SrcSizeWrong)
            } else {
                let size = le32(src, 4);
                if src.len() < 8 + size {
                    Err(Error::SrcSizeWrong)
                } else {
                    spec_frames(opts, src.skip(8 + size as int), out)
                }
            }
        } else {
            Err(Error::UnknownMagic(magic as u32))
        }
    }
}

/// What decompressing `src` gives.
pub open spec fn spec_decompress(opts: OptionsView, src: Seq<u8>) -> Result<Seq<u8>, Error> {
    spec_frames(opts, src, Seq::empty())
}

impl Default for DecodeOptions<'_> {
    fn default() -> (r: Self)
        ensures
            r@ == default_options(),
    {
        DecodeOptions { limit: usize::MAX, window_log_max: WINDOW_LOG_MAX, dictionary: None }
    }
}

impl<'d> DecodeOptions<'d> {
    /// Default options: no output limit, window log up to [`WINDOW_LOG_MAX`],
    /// no dictionary.
    pub fn new() -> (r: Self)
        ensures
            r@ == default_options(),
    {
        DecodeOptions { limit: usize::MAX, window_log_max: WINDOW_LOG_MAX, dictionary: None }
    }

    /// Fail with [`Error::OutputTooLarge`] once the output would exceed
    /// `limit` bytes.
    pub fn limit(self, limit: usize) -> (r: Self)
        ensures
            r@ == (OptionsView { limit: limit as nat, ..self@ }),
    {
        DecodeOptions { limit, window_log_max: self.window_log_max, dictionary: self.dictionary }
    }

    /// Reject frames whose declared window log exceeds `window_log_max`.
    /// Values above [`WINDOW_LOG_MAX`] are treated as [`WINDOW_LOG_MAX`].
    pub fn window_log_max(self, window_log_max: u32) -> (r: Self)
        ensures
            r@ == (OptionsView { window_log_max: window_log_max as nat, ..self@ }),
    {
        DecodeOptions { limit: self.limit, window_log_max, dictionary: self.dictionary }
    }

    /// Decode using `dictionary` as window history and table seed, for every
    /// frame in the input.
    pub fn dictionary(self, dictionary: &'d Dictionary) -> (r: Self)
        ensures
            r@ == (OptionsView { dictionary: Some(dictionary@), ..self@ }),
    {
        DecodeOptions {
            limit: self.limit,
            window_log_max: self.window_log_max,
            dictionary: Some(dictionary),
        }
    }

    pub fn limit_value(&self) -> (r: usize)
        ensures
            r == self@.limit,
    {
        self.limit
    }

    pub fn window_log_max_value(&self) -> (r: u32)
        ensures
            r == self@.window_log_max,
    {
        self.window_log_max
    }

    pub fn dictionary_value(&self) -> (r: Option<&'d Dictionary>)
        ensures
            opt_dict_view(r) == self@.dictionary,
    {
        self.dictionary
    }

    /// Decompresses a sequence of frames with these options.
    pub fn decompress(&self, src: &[u8]) -> (r: Result<Vec<u8>, Error>)
        ensures
            bytes_result(r) == spec_decompress(self@, src@),
            r matches Ok(v) ==> v@.len() <= self@.limit,
    {
        let mut out: Vec<u8> = Vec::new();
        let mut input: &[u8] = src;
        assert(out@ =~= Seq::<u8>::empty());
        let ghost goal = spec_decompress(self@, src@);
        while input.len() > 0
            invariant
                out@.len() <= self@.limit,
                self@.limit <= usize::MAX,
                goal == spec_decompress(self@, src@),
                goal == spec_frames(self@, input@, out@),
            decreases input@.len(),
        {
            if input.len() < 4 {
                return Err(Error::SrcSizeWrong);
            }
            let magic: u32 = load4(input, 0);
            if magic == ZSTD_MAGIC {
                let after = slice_subrange(input, 4, input.len());
                assert(after@ =~= input@.skip(4));
                match self.decode_frame(after, &mut out) {
                    Ok(rest) => {
                        input = rest;
                    },
                    Err(e) => {
                        return Err(e);
                    },
                }
            } else if magic / 16 == SKIPPABLE_MAGIC / 16 {
                if input.len() < 8 {
                    return Err(Error::SrcSizeWrong);
                }
                let size: u32 = load4(input, 4);
                if input.len() - 8 < size as usize {
                    return Err(Error::SrcSizeWrong);
                }
                let after = slice_subrange(input, 8 + size as usize, input.len());
                assert(after@ =~= input@.skip(8 + size));
                input = after;
            } else {
                return Err(Error::UnknownMagic(magic));
            }
        }
        Ok(out)
    }

    /// Decodes one frame (after its magic) onto `out`; returns the rest of the
    /// input following the frame.
    #[verifier::rlimit(30)]
    fn decode_frame<'a>(&self, src: &'a [u8], out: &mut Vec<u8>) -> (r: Result<&'a [u8], Error>)
        requires
            old(out)@.len() <= self@.limit,
        ensures
            match r {
                Ok(rest) => {
                    &&& spec_frame(self@, src@, old(out)@.len()) is Ok
                    &&& spec_frame(self@, src@, old(out)@.len())->Ok_0.1 == rest@
                    &&& final(out)@ == old(out)@ + spec_frame(
                        self@,
                        src@,
                        old(out)@.len(),
                    )->Ok_0.0
                    &&& rest@.len() <= src@.len()
                    &&& final(out)@.len() <= self@.limit
                },
                Err(e) => spec_frame(self@, src@, old(out)@.len()) == Err::<
                    (Seq<u8>, Seq<u8>),
                    Error,
                >(e),
            },
    {
        proof {
            reveal(spec_frame);
        }
        let header: FrameHeader = match frame::parse(src, self.window_log_max) {
            Ok(h) => h,
            Err(e) => {
                return Err(e);
            },
        };
        let dict: Option<&Dictionary> = match choose_dictionary(self.dictionary, header.dict_id) {
            Ok(d) => d,
            Err(e) => {
                return Err(e);
            },
        };
        let prefix: &[u8] = content_of(dict);
        let frame_base: usize = out.len();
        let ghost start = out@;
        if let Some(fcs) = header.content_size {
            if fcs > (self.limit - frame_base) as u64 {
                return Err(Error::OutputTooLarge);
            }
            out.reserve(
                if fcs < MAX_PREALLOC {
                    fcs as usize
                } else {
                    MAX_PREALLOC as usize
                },
            );
        }
        let block_size_max: usize = if header.window_size < BLOCK_SIZE_MAX as u64 {
            header.window_size as usize
        } else {
            BLOCK_SIZE_MAX
        };
        let mut ctx: FrameContext = start_context(dict);
        proof {
            frame::lemma_header_len(src@, self@.window_log_max);
        }
        let mut input: &[u8] = slice_subrange(src, header.header_len, src.len());
        assert(input@ =~= src@.skip(header.header_len as int));
        let ghost room = self@.limit - start.len();
        let ghost goal = spec_blocks(
            ctx@,
            input@,
            prefix@,
            block_size_max as nat,
            prefix@.len(),
            room,
        );
        let ghost input0 = input@;
        let ghost ctx0 = ctx@;
        assert(prefix@ + out@.skip(frame_base as int) =~= prefix@);
        let mut last: bool = false;
        while !last
            invariant
                ctx@.wf(),
                frame_base == start.len(),
                start.len() <= out@.len() <= self.limit,
                self.limit == self@.limit,
                out@.take(start.len() as int) == start,
                start == old(out)@,
                room == self@.limit - start.len(),
                input@.len() <= src@.len(),
                block_size_max <= 131072,
                spec_parse(src@, self@.window_log_max) == Ok::<FrameHeader, Error>(header),
                resolve_dictionary(self@.dictionary, header.dict_id) == Ok::<
                    Option<DictView>,
                    Error,
                >(opt_dict_view(dict)),
                !(header.content_size matches Some(n) && n + start.len() > self@.limit),
                prefix@ == dict_content(opt_dict_view(dict)),
                ctx0 == dict_ctx(opt_dict_view(dict)),
                input0 == src@.skip(header.header_len as int),
                block_size_max == block_max_of(header.window_size),
                goal == spec_blocks(
                    ctx0,
                    input0,
                    prefix@,
                    block_size_max as nat,
                    prefix@.len(),
                    room,
                ),
                !last ==> goal == spec_blocks(
                    ctx@,
                    input@,
                    prefix@ + out@.skip(frame_base as int),
                    block_size_max as nat,
                    prefix@.len(),
                    room,
                ),
                last ==> goal == Ok::<(Seq<u8>, Seq<u8>), Error>(
                    (prefix@ + out@.skip(frame_base as int), input@),
                ),
            decreases input@.len() + (if last {
                0nat
            } else {
                1nat
            }),
        {
            proof {
                reveal(spec_frame);
            }
            let ghost before = out@;
            let ghost hist = prefix@ + before.skip(frame_base as int);
            assert(hist.len() - prefix@.len() == before.len() - start.len());
            match decode_block(
                &mut ctx,
                input,
                out,
                frame_base,
                prefix,
                block_size_max,
                self.limit,
            ) {
                Ok((used, is_last)) => {
                    let rest = slice_subrange(input, used, input.len());
                    assert(rest@ =~= input@.skip(used as int));
                    assert(out@.take(start.len() as int) =~= out@.take(before.len() as int).take(
                        start.len() as int,
                    ));
                    input = rest;
                    last = is_last;
                },
                Err(e) => {
                    return Err(e);
                },
            }
        }
        let ghost content = (prefix@ + out@.skip(frame_base as int)).skip(prefix@.len() as int);
        assert(content =~= out@.skip(frame_base as int));
        assert(out@ =~= start + content);
        if let Some(fcs) = header.content_size {
            if (out.len() - frame_base) as u64 != fcs {
                return Err(Error::FrameContentSizeMismatch);
            }
        }
        if header.has_checksum {
            if input.len() < 4 {
                return Err(Error::SrcSizeWrong);
            }
            let expected: u32 = load4(input, 0);
            let body = slice_subrange(out.as_slice(), frame_base, out.len());
            assert(body@ =~= content);
            let actual: u32 = (xxh64(body, 0) % 0x1_0000_0000) as u32;
            if expected != actual {
                return Err(Error::ChecksumMismatch { expected, actual });
            }
            let rest = slice_subrange(input, 4, input.len());
            assert(rest@ =~= input@.skip(4));
            return Ok(rest);
        }
        Ok(input)
    }
}

pub open spec fn opt_dict_view(d: Option<&Dictionary>) -> Option<DictView> {
    match d {
        Some(x) => Some(x@),
        None => None,
    }
}

/// Resolves the supplied dictionary against the ID that a frame declares.
pub fn choose_dictionary<'d>(supplied: Option<&'d Dictionary>, id: u32) -> (r: Result<
    Option<&'d Dictionary>,
    Error,
>)
    ensures
        match r {
            Ok(d) => resolve_dictionary(opt_dict_view(supplied), id) == Ok::<
                Option<DictView>,
                Error,
            >(opt_dict_view(d)),
            Err(e) => resolve_dictionary(opt_dict_view(supplied), id) == Err::<
                Option<DictView>,
                Error,
            >(e),
        },
{
    if id == 0 {
        return Ok(supplied);
    }
    match supplied {
        None => Err(Error::DictionaryRequired(id)),
        Some(d) => {
            if d.id() == id {
                Ok(Some(d))
            } else {
                Err(Error::DictionaryWrong { expected: id, actual: d.id() })
            }
        },
    }
}

/// The window history that precedes a frame.
pub fn content_of<'d>(d: Option<&'d Dictionary>) -> (r: &'d [u8])
    ensures
        r@ == dict_content(opt_dict_view(d)),
{
    match d {
        Some(x) => x.content(),
        None => {
            let empty: &'d [u8] = &[];
            assert(empty@ =~= Seq::<u8>::empty());
            empty
        },
    }
}

/// The context that a frame starts from.
pub fn start_context(d: Option<&Dictionary>) -> (r: FrameContext)
    ensures
        r@ == dict_ctx(opt_dict_view(d)),
        r@.wf(),
{
    match d {
        Some(x) => x.context(),
        None => FrameContext::new(),
    }
}

/// Decodes the block at the start of `input` onto `out`; returns the bytes it
/// occupies and whether it is the last of its frame.
#[verifier::rlimit(30)]
pub fn decode_block(
    ctx: &mut FrameContext,
    input: &[u8],
    out: &mut Vec<u8>,
    frame_base: usize,
    prefix: &[u8],
    block_size_max: usize,
    limit: usize,
) -> (r: Result<(usize, bool), Error>)
    requires
        old(ctx)@.wf(),
        frame_base <= old(out)@.len(),
        block_size_max <= 131072,
    ensures
        final(ctx)@.wf(),
        ({
            let goal = spec_block(
                old(ctx)@,
                input@,
                prefix@ + old(out)@.skip(frame_base as int),
                block_size_max as nat,
                limit - old(out)@.len(),
            );
            match r {
                Ok((used, last)) => {
                    &&& goal == Ok::<BlockStep, Error>(
                        BlockStep {
                            ctx: final(ctx)@,
                            hist: prefix@ + final(out)@.skip(frame_base as int),
                            used: used as nat,
                            last,
                        },
                    )
                    &&& 3 <= used <= input@.len()
                    &&& old(out)@.len() <= final(out)@.len() <= limit
                    &&& final(out)@.take(old(out)@.len() as int) == old(out)@
                },
                Err(e) => {
                    &&& goal == Err::<BlockStep, Error>(e)
                    &&& old(out)@.len() <= final(out)@.len()
                    &&& final(out)@.take(old(out)@.len() as int) == old(out)@
                    &&& final(ctx)@.rep == old(ctx)@.rep
                },
            }
        }),
{
    proof {
        reveal(spec_block);
        assert(out@.take(out@.len() as int) =~= out@);
    }
    if input.len() < 3 {
        return Err(Error::SrcSizeWrong);
    }
    let raw: u32 = input[0] as u32 + 256 * input[1] as u32 + 65536 * input[2] as u32;
    let last: bool = raw % 2 == 1;
    let block_type: u32 = (raw / 2) % 4;
    let size: usize = (raw / 8) as usize;
    let ghost start = out@;
    if block_type == 3 {
        return Err(Error::BlockTypeInvalid);
    }
    if size > block_size_max {
        return Err(Error::Corrupted("block size exceeds block size limit"));
    }
    if block_type == 1 {
        if input.len() < 4 {
            return Err(Error::SrcSizeWrong);
        }
        if out.len() > limit || size > limit - out.len() {
            return Err(Error::OutputTooLarge);
        }
        let run: Vec<u8> = repeated(input[3], size);
        append_bytes(out, &run);
        assert(prefix@ + out@.skip(frame_base as int) =~= prefix@ + start.skip(frame_base as int)
            + run@);
        assert(out@.take(start.len() as int) =~= start);
        return Ok((4, last));
    }
    if input.len() < 3 + size {
        return Err(Error::SrcSizeWrong);
    }
    let data = slice_subrange(input, 3, 3 + size);
    if block_type == 0 {
        if out.len() > limit || size > limit - out.len() {
            return Err(Error::OutputTooLarge);
        }
        append_bytes(out, data);
        assert(prefix@ + out@.skip(frame_base as int) =~= prefix@ + start.skip(frame_base as int)
            + data@);
        assert(out@.take(start.len() as int) =~= start);
        return Ok((3 + size, last));
    }
    match block::decode_compressed_block(
        ctx,
        data,
        out,
        frame_base,
        prefix,
        block_size_max,
        limit,
    ) {
        Ok(_) => Ok((3 + size, last)),
        Err(e) => Err(e),
    }
}

/// Decompresses a sequence of frames (and skippable frames).
///
/// All frames in `src` are decoded back to back and their contents
/// concatenated. Trailing bytes that do not form a complete frame are an
/// error. Empty input yields empty output.
pub fn decompress(src: &[u8]) -> (r: Result<Vec<u8>, Error>)
    ensures
        bytes_result(r) == spec_decompress(default_options(), src@),
{
    DecodeOptions::new().decompress(src)
}

/// Like [`decompress`], but fails with [`Error::OutputTooLarge`] once the
/// output would exceed `limit` bytes.
pub fn decompress_with_limit(src: &[u8], limit: usize) -> (r: Result<Vec<u8>, Error>)
    ensures
        bytes_result(r) == spec_decompress(
            OptionsView { limit: limit as nat, ..default_options() },
            src@,
        ),
        r matches Ok(v) ==> v@.len() <= limit,
{
    DecodeOptions::new().limit(limit).decompress(src)
}

} // verus!
