//! What can be wrong with the bytes of a record batch, or of a message.
use crate::text;
use vstd::prelude::*;
use vstd::string::StringExecFns;

verus! {

/// The part of a record batch, or of a consumer-protocol message, that could not be read or
/// written. Where a codec or a parser refused, it carries what that said.
#[derive(Debug, Clone, PartialEq, Eq)]
pub enum CodecFault {
    /// The checksum in the header is not that of the bytes it covers.
    Crc { expected: u32, actual: u32 },
    RecordLength,
    /// A record says that it ends past the end of its batch.
    RecordOverrun,
    TimestampDelta,
    OffsetDelta,
    KeyLength,
    ValueLength,
    HeaderCount,
    HeaderBlock,
    HeaderKeyLength,
    HeaderValueLength,
    Gzip(String),
    Snappy(String),
    SnappyBlockLength,
    SnappyBlockOverrun,
    Lz4(String),
    Zstd(String),
    UnknownCodec(u8),
    /// A batch announces a negative length.
    BatchLength(i32),
    /// The general-purpose decoder refused the batch.
    Batch(String),
    /// An offset or a timestamp of a batch does not fit 64 bits.
    OutOfRange,
    /// A control batch is larger than a marker's place in it can be told.
    ControlBatchLength,
    /// The batch cannot be encoded: its timestamps are too far apart, or it is too large.
    Encode(String),
    /// A consumer-protocol message is too short for its version.
    Version,
    /// A subscription does not parse, or cannot be written.
    Subscription(String),
    /// An assignment does not parse, or cannot be written.
    Assignment(String),
}

/// What a [`CodecFault`] stands for.
pub ghost enum Flaw {
    Crc { expected: u32, actual: u32 },
    RecordLength,
    RecordOverrun,
    TimestampDelta,
    OffsetDelta,
    KeyLength,
    ValueLength,
    HeaderCount,
    HeaderBlock,
    HeaderKeyLength,
    HeaderValueLength,
    Gzip(Seq<char>),
    Snappy(Seq<char>),
    SnappyBlockLength,
    SnappyBlockOverrun,
    Lz4(Seq<char>),
    Zstd(Seq<char>),
    UnknownCodec(u8),
    BatchLength(i32),
    Batch(Seq<char>),
    OutOfRange,
    ControlBatchLength,
    Encode(Seq<char>),
    Version,
    Subscription(Seq<char>),
    Assignment(Seq<char>),
}

impl View for CodecFault {
    type V = Flaw;

    open spec fn view(&self) -> Flaw {
        match self {
            CodecFault::Crc { expected, actual } => Flaw::Crc {
                expected: *expected,
                actual: *actual,
            },
            CodecFault::RecordLength => Flaw::RecordLength,
            CodecFault::RecordOverrun => Flaw::RecordOverrun,
            CodecFault::TimestampDelta => Flaw::TimestampDelta,
            CodecFault::OffsetDelta => Flaw::OffsetDelta,
            CodecFault::KeyLength => Flaw::KeyLength,
            CodecFault::ValueLength => Flaw::ValueLength,
            CodecFault::HeaderCount => Flaw::HeaderCount,
            CodecFault::HeaderBlock => Flaw::HeaderBlock,
            CodecFault::HeaderKeyLength => Flaw::HeaderKeyLength,
            CodecFault::HeaderValueLength => Flaw::HeaderValueLength,
            CodecFault::Gzip(said) => Flaw::Gzip(said@),
            CodecFault::Snappy(said) => Flaw::Snappy(said@),
            CodecFault::SnappyBlockLength => Flaw::SnappyBlockLength,
            CodecFault::SnappyBlockOverrun => Flaw::SnappyBlockOverrun,
            CodecFault::Lz4(said) => Flaw::Lz4(said@),
            CodecFault::Zstd(said) => Flaw::Zstd(said@),
            CodecFault::UnknownCodec(codec) => Flaw::UnknownCodec(*codec),
            CodecFault::BatchLength(length) => Flaw::BatchLength(*length),
            CodecFault::Batch(said) => Flaw::Batch(said@),
            CodecFault::OutOfRange => Flaw::OutOfRange,
            CodecFault::ControlBatchLength => Flaw::ControlBatchLength,
            CodecFault::Encode(said) => Flaw::Encode(said@),
            CodecFault::Version => Flaw::Version,
            CodecFault::Subscription(said) => Flaw::Subscription(said@),
            CodecFault::Assignment(said) => Flaw::Assignment(said@),
        }
    }
}

impl Flaw {
    /// The fault in words.
    pub open spec fn words(self) -> Seq<char> {
        match self {
            Flaw::Crc { expected, actual } => "record batch crc: expected 0x"@ + text::hex(
                expected as nat,
            ) + ", got 0x"@ + text::hex(actual as nat),
            Flaw::RecordLength => "record length"@,
            Flaw::RecordOverrun => "record overruns its batch"@,
            Flaw::TimestampDelta => "timestamp delta"@,
            Flaw::OffsetDelta => "offset delta"@,
            Flaw::KeyLength => "key length"@,
            Flaw::ValueLength => "value length"@,
            Flaw::HeaderCount => "header count"@,
            Flaw::HeaderBlock => "header block"@,
            Flaw::HeaderKeyLength => "header key length"@,
            Flaw::HeaderValueLength => "header value length"@,
            Flaw::Gzip(said) => "gzip: "@ + said,
            Flaw::Snappy(said) => "snappy: "@ + said,
            Flaw::SnappyBlockLength => "snappy block length"@,
            Flaw::SnappyBlockOverrun => "snappy block overruns"@,
            Flaw::Lz4(said) => "lz4: "@ + said,
            Flaw::Zstd(said) => "zstd: "@ + said,
            Flaw::UnknownCodec(codec) => "unknown compression codec "@ + text::decimal(
                codec as int,
            ),
            Flaw::BatchLength(length) => "record batch declares a negative length: "@
                + text::decimal(length as int),
            Flaw::Batch(said) => "decode record batch: "@ + said,
            Flaw::OutOfRange => "decode record batch: an offset or a timestamp leaves 64 bits"@,
            Flaw::ControlBatchLength => "decode record batch: a control batch is too large"@,
            Flaw::Encode(said) => "encode record batch: "@ + said,
            Flaw::Version => "consumer protocol blob is too short for its version"@,
            Flaw::Subscription(said) => "subscription: "@ + said,
            Flaw::Assignment(said) => "assignment: "@ + said,
        }
    }
}

impl CodecFault {
    /// The fault in words, with what a codec or a parser said.
    pub fn message(&self) -> (message: String)
        ensures
            message@ == self@.words(),
    {
        match self {
            CodecFault::Crc { expected, actual } => {
                let mut out: String = "record batch crc: expected 0x".to_owned();
                text::push_hex(&mut out, *expected as u64);
                out.append(", got 0x");
                text::push_hex(&mut out, *actual as u64);
                out
            },
            CodecFault::RecordLength => "record length".to_owned(),
            CodecFault::RecordOverrun => "record overruns its batch".to_owned(),
            CodecFault::TimestampDelta => "timestamp delta".to_owned(),
            CodecFault::OffsetDelta => "offset delta".to_owned(),
            CodecFault::KeyLength => "key length".to_owned(),
            CodecFault::ValueLength => "value length".to_owned(),
            CodecFault::HeaderCount => "header count".to_owned(),
            CodecFault::HeaderBlock => "header block".to_owned(),
            CodecFault::HeaderKeyLength => "header key length".to_owned(),
            CodecFault::HeaderValueLength => "header value length".to_owned(),
            CodecFault::Gzip(said) => text::joined("gzip: ", said.as_str()),
            CodecFault::Snappy(said) => text::joined("snappy: ", said.as_str()),
            CodecFault::SnappyBlockLength => "snappy block length".to_owned(),
            CodecFault::SnappyBlockOverrun => "snappy block overruns".to_owned(),
            CodecFault::Lz4(said) => text::joined("lz4: ", said.as_str()),
            CodecFault::Zstd(said) => text::joined("zstd: ", said.as_str()),
            CodecFault::UnknownCodec(codec) => {
                let mut out: String = "unknown compression codec ".to_owned();
                text::push_decimal(&mut out, *codec as i64);
                out
            },
            CodecFault::BatchLength(length) => {
                let mut out: String = "record batch declares a negative length: ".to_owned();
                text::push_decimal(&mut out, *length as i64);
                out
            },
            CodecFault::Batch(said) => text::joined("decode record batch: ", said.as_str()),
            CodecFault::OutOfRange =>
                "decode record batch: an offset or a timestamp leaves 64 bits".to_owned(),
            CodecFault::ControlBatchLength =>
                "decode record batch: a control batch is too large".to_owned(),
            CodecFault::Encode(said) => text::joined("encode record batch: ", said.as_str()),
            CodecFault::Version =>
                "consumer protocol blob is too short for its version".to_owned(),
            CodecFault::Subscription(said) => text::joined("subscription: ", said.as_str()),
            CodecFault::Assignment(said) => text::joined("assignment: ", said.as_str()),
        }
    }
}

/// A failure of the codec layer.
#[derive(Debug, Clone, PartialEq, Eq)]
pub enum Error {
    /// The bytes are wrong, as opposed to merely incomplete.
    Codec(CodecFault),
}

impl View for Error {
    type V = Flaw;

    open spec fn view(&self) -> Flaw {
        match self {
            Error::Codec(fault) => fault@,
        }
    }
}

impl Error {
    /// The failure in words.
    pub fn message(&self) -> (message: String)
        ensures
            message@ == self@.words(),
    {
        match self {
            Error::Codec(fault) => fault.message(),
        }
    }
}

/// What a reader has, `done`, and what it still reads, `rest`, put together.
pub open spec fn followed_by<T, E>(done: Seq<T>, rest: Result<Seq<T>, E>) -> Result<Seq<T>, E> {
    match rest {
        Ok(rest) => Ok(done + rest),
        Err(e) => Err(e),
    }
}

pub proof fn lemma_followed_by<T, E>(done: Seq<T>, first: T, rest: Result<Seq<T>, E>)
    ensures
        followed_by(done, followed_by(seq![first], rest)) == followed_by(done.push(first), rest),
{
    if let Ok(rest) = rest {
        assert(done + (seq![first] + rest) =~= done.push(first) + rest);
    }
}

pub proof fn lemma_followed_by_nothing<T, E>(done: Seq<T>, rest: Result<Seq<T>, E>)
    ensures
        followed_by(Seq::empty(), rest) == rest,
        followed_by(done, Ok::<Seq<T>, E>(Seq::empty())) == Ok::<Seq<T>, E>(done),
{
    if let Ok(rest) = rest {
        assert(Seq::empty() + rest =~= rest);
    }
    assert(done + Seq::empty() =~= done);
}

} // verus!
