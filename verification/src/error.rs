//! Errors reported by the decoder, the dictionary loader and the encoder.

use vstd::prelude::*;
use vstd::string::StringExecFns;

verus! {

/// Why an input was refused.
#[derive(Debug, Clone, Copy, PartialEq, Eq)]
#[non_exhaustive]
pub enum Error {
    /// The input ended before a complete frame could be decoded.
    SrcSizeWrong,
    /// The first four bytes of a frame are neither the Zstandard magic
    /// number nor a skippable-frame magic.
    UnknownMagic(u32),
    /// The frame header violates the format.
    FrameHeaderInvalid(&'static str),
    /// The declared window size exceeds what the decoder accepts.
    WindowTooLarge,
    /// A block used the reserved block type.
    BlockTypeInvalid,
    /// The compressed data is malformed.
    Corrupted(&'static str),
    /// The frame's XXH64 content checksum did not match.
    ChecksumMismatch { expected: u32, actual: u32 },
    /// The frame was compressed with a dictionary, but none was supplied. The
    /// payload is the dictionary ID the frame asks for.
    DictionaryRequired(u32),
    /// A dictionary was supplied, but its ID is not the one the frame asks for.
    DictionaryWrong { expected: u32, actual: u32 },
    /// A dictionary buffer began with the dictionary magic but could not be
    /// parsed.
    DictionaryCorrupted,
    /// The frame declared a content size other than the number of bytes it
    /// regenerates.
    FrameContentSizeMismatch,
    /// Decoding would exceed the output limit.
    OutputTooLarge,
    /// The encoder cannot represent the request.
    Encode(&'static str),
}

/// The digit of value `d`.
pub open spec fn digit(d: nat) -> char {
    if d < 10 {
        (48 + d) as char
    } else {
        (87 + d) as char
    }
}

/// `v` in decimal.
pub open spec fn decimal(v: nat) -> Seq<char>
    decreases v,
{
    if v < 10 {
        seq![digit(v)]
    } else {
        decimal(v / 10).push(digit(v % 10))
    }
}

/// The low `n` hexadecimal digits of `v`.
pub open spec fn hexadecimal(v: nat, n: nat) -> Seq<char>
    decreases n,
{
    if n == 0 {
        Seq::empty()
    } else {
        hexadecimal(v / 16, (n - 1) as nat).push(digit(v % 16))
    }
}

fn digit_text(d: u32) -> (r: &'static str)
    requires
        d < 16,
    ensures
        r@ == seq![digit(d as nat)],
{
    proof {
        reveal_strlit("0");
        reveal_strlit("1");
        reveal_strlit("2");
        reveal_strlit("3");
        reveal_strlit("4");
        reveal_strlit("5");
        reveal_strlit("6");
        reveal_strlit("7");
        reveal_strlit("8");
        reveal_strlit("9");
        reveal_strlit("a");
        reveal_strlit("b");
        reveal_strlit("c");
        reveal_strlit("d");
        reveal_strlit("e");
        reveal_strlit("f");
    }
    match d {
        0 => "0",
        1 => "1",
        2 => "2",
        3 => "3",
        4 => "4",
        5 => "5",
        6 => "6",
        7 => "7",
        8 => "8",
        9 => "9",
        10 => "a",
        11 => "b",
        12 => "c",
        13 => "d",
        14 => "e",
        _ => "f",
    }
}

fn push_decimal(s: &mut String, v: u32)
    ensures
        final(s)@ == old(s)@ + decimal(v as nat),
    decreases v,
{
    let ghost start = s@;
    if v >= 10 {
        push_decimal(s, v / 10);
    }
    s.append(digit_text(v % 10));
    assert(s@ =~= start + decimal(v as nat));
}

fn push_hexadecimal(s: &mut String, v: u32, n: u32)
    ensures
        final(s)@ == old(s)@ + hexadecimal(v as nat, n as nat),
    decreases n,
{
    let ghost start = s@;
    if n > 0 {
        push_hexadecimal(s, v / 16, n - 1);
        s.append(digit_text(v % 16));
    }
    assert(s@ =~= start + hexadecimal(v as nat, n as nat));
}

impl Error {
    /// What the message says.
    pub open spec fn spec_message(self) -> Seq<char> {
        match self {
            Error::SrcSizeWrong => "input is truncated or has trailing garbage"@,
            Error::UnknownMagic(m) => "unknown frame magic number 0x"@ + hexadecimal(m as nat, 8),
            Error::FrameHeaderInvalid(why) => "invalid frame header: "@ + why@,
            Error::WindowTooLarge => "frame window size is too large"@,
            Error::BlockTypeInvalid => "reserved block type"@,
            Error::Corrupted(why) => "corrupted compressed data: "@ + why@,
            Error::ChecksumMismatch { expected, actual } => "content checksum mismatch: stored 0x"@
                + hexadecimal(expected as nat, 8) + ", computed 0x"@ + hexadecimal(
                actual as nat,
                8,
            ),
            Error::DictionaryRequired(id) => "frame requires dictionary "@ + decimal(id as nat)
                + ", but none was supplied"@,
            Error::DictionaryWrong { expected, actual } => "wrong dictionary: frame requires ID "@
                + decimal(expected as nat) + ", supplied dictionary has ID "@ + decimal(
                actual as nat,
            ),
            Error::DictionaryCorrupted => "supplied dictionary is malformed"@,
            Error::FrameContentSizeMismatch =>
                "regenerated size does not match the declared frame content size"@,
            Error::OutputTooLarge => "decompressed output exceeds the configured limit"@,
            Error::Encode(why) => "cannot compress: "@ + why@,
        }
    }

    /// A message for a reader.
    pub fn message(&self) -> (r: String)
        ensures
            r@ == self.spec_message(),
    {
        match self {
            Error::SrcSizeWrong => String::from_str("input is truncated or has trailing garbage"),
            Error::UnknownMagic(m) => {
                let mut s = String::from_str("unknown frame magic number 0x");
                push_hexadecimal(&mut s, *m, 8);
                s
            },
            Error::FrameHeaderInvalid(why) => String::from_str("invalid frame header: ").concat(why),
            Error::WindowTooLarge => String::from_str("frame window size is too large"),
            Error::BlockTypeInvalid => String::from_str("reserved block type"),
            Error::Corrupted(why) => String::from_str("corrupted compressed data: ").concat(why),
            Error::ChecksumMismatch { expected, actual } => {
                let mut s = String::from_str("content checksum mismatch: stored 0x");
                push_hexadecimal(&mut s, *expected, 8);
                s.append(", computed 0x");
                push_hexadecimal(&mut s, *actual, 8);
                s
            },
            Error::DictionaryRequired(id) => {
                let mut s = String::from_str("frame requires dictionary ");
                push_decimal(&mut s, *id);
                s.append(", but none was supplied");
                s
            },
            Error::DictionaryWrong { expected, actual } => {
                let mut s = String::from_str("wrong dictionary: frame requires ID ");
                push_decimal(&mut s, *expected);
                s.append(", supplied dictionary has ID ");
                push_decimal(&mut s, *actual);
                s
            },
            Error::DictionaryCorrupted => String::from_str("supplied dictionary is malformed"),
            Error::FrameContentSizeMismatch => String::from_str(
                "regenerated size does not match the declared frame content size",
            ),
            Error::OutputTooLarge => String::from_str(
                "decompressed output exceeds the configured limit",
            ),
            Error::Encode(why) => String::from_str("cannot compress: ").concat(why),
        }
    }
}

} // verus!
