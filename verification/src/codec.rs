//! The four compression codecs of the records section.
use crate::error::{CodecFault, Flaw};
use crate::wire;
use vstd::prelude::*;
use vstd::slice::slice_subrange;

verus! {

/// What `flate2::read::GzDecoder` reads out of a gzip member, or what it says is wrong
/// with it.
pub uninterp spec fn gunzipped(compressed: Seq<u8>) -> Result<Seq<u8>, Seq<char>>;

/// What `snap::raw::Decoder` decompresses, or what it says is wrong.
pub uninterp spec fn unsnapped(compressed: Seq<u8>) -> Result<Seq<u8>, Seq<char>>;

/// What `lz4::Decoder` reads out of an LZ4 frame, or what it says is wrong with it.
pub uninterp spec fn unlz4ed(compressed: Seq<u8>) -> Result<Seq<u8>, Seq<char>>;

/// What `zstd::stream::copy_decode` writes for a zstd stream, or what it says is wrong
/// with it.
pub uninterp spec fn unzstded(compressed: Seq<u8>) -> Result<Seq<u8>, Seq<char>>;

/// What some bytes, or the text of why there are none, stand for.
pub open spec fn bytes_or_text(bytes: Result<Vec<u8>, String>) -> Result<Seq<u8>, Seq<char>> {
    match bytes {
        Ok(v) => Ok(v@),
        Err(said) => Err(said@),
    }
}

/// `flate2::read::GzDecoder`, read to its end. The result is named, not described:
/// it is the gzip format's, and what is said of bytes that are not.
#[verifier::external_body]
fn gunzip(compressed: &[u8]) -> (out: Result<Vec<u8>, String>)
    ensures
        bytes_or_text(out) == gunzipped(compressed@),
{
    let mut out: Vec<u8> = Vec::new();
    let mut decoder = flate2::read::GzDecoder::new(compressed);
    match std::io::Read::read_to_end(&mut decoder, &mut out) {
        Ok(_) => Ok(out),
        Err(e) => Err(e.to_string()),
    }
}

/// `snap::raw::Decoder::decompress_vec` of a fresh decoder. The result is named, not
/// described: it is the raw snappy format's, and what is said of bytes that are not.
#[verifier::external_body]
fn unsnap(compressed: &[u8]) -> (out: Result<Vec<u8>, String>)
    ensures
        bytes_or_text(out) == unsnapped(compressed@),
{
    match snap::raw::Decoder::new().decompress_vec(compressed) {
        Ok(out) => Ok(out),
        Err(e) => Err(e.to_string()),
    }
}

/// `lz4::Decoder`, read to its end. The result is named, not described: it is the
/// LZ4 frame format's, and what is said of bytes that are not.
#[verifier::external_body]
fn unlz4(compressed: &[u8]) -> (out: Result<Vec<u8>, String>)
    ensures
        bytes_or_text(out) == unlz4ed(compressed@),
{
    let mut out: Vec<u8> = Vec::new();
    let mut decoder = match lz4::Decoder::new(compressed) {
        Ok(decoder) => decoder,
        Err(e) => return Err(e.to_string()),
    };
    match std::io::Read::read_to_end(&mut decoder, &mut out) {
        Ok(_) => Ok(out),
        Err(e) => Err(e.to_string()),
    }
}

/// `zstd::stream::copy_decode` into an empty vector. The result is named, not
/// described: it is the zstd format's, and what is said of bytes that are not.
#[verifier::external_body]
fn unzstd(compressed: &[u8]) -> (out: Result<Vec<u8>, String>)
    ensures
        bytes_or_text(out) == unzstded(compressed@),
{
    let mut out: Vec<u8> = Vec::new();
    match zstd::stream::copy_decode(compressed, &mut out) {
        Ok(()) => Ok(out),
        Err(e) => Err(e.to_string()),
    }
}

/// The frame header that Kafka's snappy starts with.
pub open spec fn snappy_magic() -> Seq<u8> {
    seq![0x82u8, 83, 78, 65, 80, 80, 89, 0, 0, 0, 0, 1, 0, 0, 0, 1]
}

/// Whether `s` starts with the frame header.
pub open spec fn snappy_framed(s: Seq<u8>) -> bool {
    s.len() >= 16 && s.subrange(0, 16) == snappy_magic()
}

/// Whether the compressed bytes carry the frame header, as opposed to being one raw
/// snappy block.
pub fn is_snappy_framed(compressed: &[u8]) -> (framed: bool)
    ensures
        framed == snappy_framed(compressed@),
{
    let magic: [u8; 16] = [0x82u8, 83, 78, 65, 80, 80, 89, 0, 0, 0, 0, 1, 0, 0, 0, 1];
    assert(magic@ =~= snappy_magic());
    if compressed.len() < 16 {
        return false;
    }
    let ghost head = compressed@.subrange(0, 16);
    let mut i: usize = 0;
    while i < 16
        invariant
            i <= 16,
            compressed@.len() >= 16,
            head == compressed@.subrange(0, 16),
            magic@ == snappy_magic(),
            forall|j: int| 0 <= j < i ==> compressed@[j] == magic@[j],
        decreases 16 - i,
    {
        if compressed[i] != magic[i] {
            assert(head[i as int] != snappy_magic()[i as int]);
            return false;
        }
        i = i + 1;
    }
    assert(head =~= snappy_magic());
    true
}

/// The block that a frame holds at `at`: the byte positions where it begins and
/// ends.
pub open spec fn snappy_block(s: Seq<u8>, at: int) -> Result<(int, int), Flaw> {
    if at + 4 > s.len() {
        Err(Flaw::SnappyBlockLength)
    } else if at + 4 + wire::u32_of(s, at) > s.len() {
        Err(Flaw::SnappyBlockOverrun)
    } else {
        Ok((at + 4, at + 4 + wire::u32_of(s, at)))
    }
}

/// Where a frame's block at `at` begins and ends: four bytes of big-endian length,
/// then that many bytes.
pub fn next_snappy_block(compressed: &[u8], at: usize) -> (block: Result<
    (usize, usize),
    CodecFault,
>)
    ensures
        match block {
            Ok((from, to)) => snappy_block(compressed@, at as int) == Ok::<(int, int), Flaw>(
                (from as int, to as int),
            ),
            Err(e) => snappy_block(compressed@, at as int) == Err::<(int, int), Flaw>(e@),
        },
{
    let size: usize = compressed.len();
    let len: u32 = match wire::u32_at(compressed, at) {
        None => return Err(CodecFault::SnappyBlockLength),
        Some(len) => len,
    };
    let from: usize = at + 4;
    if len as usize > size - from {
        return Err(CodecFault::SnappyBlockOverrun);
    }
    Ok((from, from + len as usize))
}

/// The decompressed blocks of a frame from `at` on, one after another.
pub open spec fn snappy_blocks(s: Seq<u8>, at: int) -> Result<Seq<u8>, Flaw>
    decreases s.len() - at,
{
    if at >= s.len() {
        Ok(Seq::empty())
    } else {
        match snappy_block(s, at) {
            Err(e) => Err(e),
            Ok((from, to)) => match unsnapped(s.subrange(from, to)) {
                Err(said) => Err(Flaw::Snappy(said)),
                Ok(first) => if at < to {
                    match snappy_blocks(s, to) {
                        Err(e) => Err(e),
                        Ok(rest) => Ok(first + rest),
                    }
                } else {
                    Ok(first)
                },
            },
        }
    }
}

/// The bytes that snappy data stands for, framed or raw.
pub open spec fn snappy_of(s: Seq<u8>) -> Result<Seq<u8>, Flaw> {
    if snappy_framed(s) {
        snappy_blocks(s, 16)
    } else {
        match unsnapped(s) {
            Err(said) => Err(Flaw::Snappy(said)),
            Ok(out) => Ok(out),
        }
    }
}

/// The sequence inside a result.
pub open spec fn bytes_of(bytes: Result<Vec<u8>, CodecFault>) -> Result<Seq<u8>, Flaw> {
    match bytes {
        Ok(v) => Ok(v@),
        Err(e) => Err(e@),
    }
}

/// Decompress Kafka's snappy, which is **framed**: a 16-byte header, then
/// `[u32 length][block]` repeated. Some producers write one raw block instead, and
/// data without the header is read that way.
pub fn snappy(compressed: &[u8]) -> (out: Result<Vec<u8>, CodecFault>)
    ensures
        bytes_of(out) == snappy_of(compressed@),
{
    if !is_snappy_framed(compressed) {
        return match unsnap(compressed) {
            Err(said) => Err(CodecFault::Snappy(said)),
            Ok(out) => Ok(out),
        };
    }
    let mut out: Vec<u8> = Vec::new();
    let mut at: usize = 16;
    while at < compressed.len()
        invariant
            at <= compressed@.len(),
            snappy_framed(compressed@),
            snappy_of(compressed@) == match snappy_blocks(compressed@, at as int) {
                Ok(rest) => Ok::<Seq<u8>, Flaw>(out@ + rest),
                Err(e) => Err(e),
            },
        decreases compressed@.len() - at,
    {
        match next_snappy_block(compressed, at) {
            Err(e) => return Err(e),
            Ok((from, to)) => {
                let block = slice_subrange(compressed, from, to);
                match unsnap(block) {
                    Err(said) => return Err(CodecFault::Snappy(said)),
                    Ok(mut bytes) => {
                        let ghost before = out@;
                        let ghost first = bytes@;
                        out.append(&mut bytes);
                        proof {
                            if let Ok(rest) = snappy_blocks(compressed@, to as int) {
                                assert(before + (first + rest) =~= (before + first) + rest);
                            }
                        }
                        at = to;
                    },
                }
            },
        }
    }
    assert(out@ + Seq::<u8>::empty() =~= out@);
    Ok(out)
}

/// The bytes that a compressed records section stands for.
pub open spec fn decompressed(codec: u8, s: Seq<u8>) -> Result<Seq<u8>, Flaw> {
    if codec == 1 {
        match gunzipped(s) {
            Err(said) => Err(Flaw::Gzip(said)),
            Ok(out) => Ok(out),
        }
    } else if codec == 2 {
        snappy_of(s)
    } else if codec == 3 {
        match unlz4ed(s) {
            Err(said) => Err(Flaw::Lz4(said)),
            Ok(out) => Ok(out),
        }
    } else if codec == 4 {
        match unzstded(s) {
            Err(said) => Err(Flaw::Zstd(said)),
            Ok(out) => Ok(out),
        }
    } else {
        Err(Flaw::UnknownCodec(codec))
    }
}

/// Decompress a batch's records section.
pub fn decompress(codec: u8, compressed: &[u8]) -> (out: Result<Vec<u8>, CodecFault>)
    ensures
        bytes_of(out) == decompressed(codec, compressed@),
{
    match codec {
        1 => match gunzip(compressed) {
            Err(said) => Err(CodecFault::Gzip(said)),
            Ok(out) => Ok(out),
        },
        2 => snappy(compressed),
        3 => match unlz4(compressed) {
            Err(said) => Err(CodecFault::Lz4(said)),
            Ok(out) => Ok(out),
        },
        4 => match unzstd(compressed) {
            Err(said) => Err(CodecFault::Zstd(said)),
            Ok(out) => Ok(out),
        },
        other => Err(CodecFault::UnknownCodec(other)),
    }
}

/// Which codec a number stands for: 1 is gzip, 2 snappy, 3 LZ4 and 4 zstd, and there is no
/// other. What a codec says is wrong is told as that codec's.
pub proof fn law_each_codec_has_its_number(codec: u8, s: Seq<u8>)
    ensures
        gunzipped(s) matches Ok(out) ==> decompressed(1, s) == Ok::<Seq<u8>, Flaw>(out),
        gunzipped(s) matches Err(said) ==> decompressed(1, s) == Err::<Seq<u8>, Flaw>(
            Flaw::Gzip(said),
        ),
        decompressed(2, s) == snappy_of(s),
        unlz4ed(s) matches Ok(out) ==> decompressed(3, s) == Ok::<Seq<u8>, Flaw>(out),
        unlz4ed(s) matches Err(said) ==> decompressed(3, s) == Err::<Seq<u8>, Flaw>(
            Flaw::Lz4(said),
        ),
        unzstded(s) matches Ok(out) ==> decompressed(4, s) == Ok::<Seq<u8>, Flaw>(out),
        unzstded(s) matches Err(said) ==> decompressed(4, s) == Err::<Seq<u8>, Flaw>(
            Flaw::Zstd(said),
        ),
        codec == 0 || codec > 4 ==> decompressed(codec, s) == Err::<Seq<u8>, Flaw>(
            Flaw::UnknownCodec(codec),
        ),
{
}

/// Whether blocks stand where `ats` says, each behind its length, and decompress to `outs`.
pub open spec fn in_blocks(s: Seq<u8>, ats: Seq<int>, outs: Seq<Seq<u8>>) -> bool {
    forall|i: int|
        #![trigger outs[i]]
        0 <= i < outs.len() ==> {
            &&& ats[i] + 4 <= s.len()
            &&& ats[i + 1] == ats[i] + 4 + wire::u32_of(s, ats[i])
            &&& ats[i + 1] <= s.len()
            &&& unsnapped(s.subrange(ats[i] + 4, ats[i + 1])) == Ok::<Seq<u8>, Seq<char>>(outs[i])
        }
}

/// A snappy frame stands for what its blocks stand for, one after the other. `ats` says where
/// each block's length stands, and `outs` what each block decompresses to.
pub proof fn law_a_snappy_frame_is_its_blocks(
    s: Seq<u8>,
    ats: Seq<int>,
    outs: Seq<Seq<u8>>,
)
    requires
        snappy_framed(s),
        ats.len() == outs.len() + 1,
        ats[0] == 16,
        ats.last() == s.len(),
        in_blocks(s, ats, outs),
    ensures
        snappy_of(s) == Ok::<Seq<u8>, Flaw>(outs.flatten()),
{
    lemma_snappy_blocks(s, ats, outs, 0);
    assert(outs.skip(0) =~= outs);
}

proof fn lemma_snappy_blocks(s: Seq<u8>, ats: Seq<int>, outs: Seq<Seq<u8>>, k: nat)
    requires
        k <= outs.len(),
        ats.len() == outs.len() + 1,
        ats.last() == s.len(),
        in_blocks(s, ats, outs),
    ensures
        snappy_blocks(s, ats[k as int]) == Ok::<Seq<u8>, Flaw>(outs.skip(k as int).flatten()),
    decreases outs.len() - k,
{
    let rest = outs.skip(k as int);
    if k < outs.len() {
        lemma_snappy_blocks(s, ats, outs, k + 1);
        assert(outs[k as int] == rest.first());
        assert(ats[k as int + 1] > ats[k as int]);
        assert(rest.drop_first() =~= outs.skip(k as int + 1));
    } else {
        assert(rest.flatten() =~= Seq::empty());
    }
}

/// Snappy without the frame's header is one raw block.
pub proof fn law_snappy_without_a_frame_is_one_block(s: Seq<u8>)
    requires
        s.len() < 16 || s[0] != 0x82,
    ensures
        unsnapped(s) matches Ok(out) ==> snappy_of(s) == Ok::<Seq<u8>, Flaw>(out),
        unsnapped(s) matches Err(said) ==> snappy_of(s) == Err::<Seq<u8>, Flaw>(
            Flaw::Snappy(said),
        ),
{
    if s.len() >= 16 {
        assert(s.subrange(0, 16)[0] == s[0]);
        assert(snappy_magic()[0] == 0x82);
    }
}

} // verus!
