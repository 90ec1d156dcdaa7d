//! The two pipelines: bytes to a compressed stream, and back.

use crate::bwtstring::{with_sentinel, BWTStr};
use crate::error::BwtError;
use crate::inverse::inverse;
use crate::rle::{rle_decoding, rle_encoding};
use crate::rotation::is_bwt_of;
use crate::round_trip::lemma_decompress_compress;
use vstd::prelude::*;

verus! {

/// `stream` is the binary form of the transform of `data` followed by the
/// marker.
pub open spec fn is_compressed_form(stream: Seq<u8>, data: Seq<u8>) -> bool {
    exists|t: Seq<u8>, at: int|
        0 <= at <= t.len() && #[trigger] is_bwt_of(
            with_sentinel(t, at),
            with_sentinel(data, data.len() as int),
        ) && stream == rle_encoding(t, at)
}

/// What a stream decompresses to: it is decoded, and the inverse transform
/// of what it holds is taken.
pub open spec fn decompressed(stream: Seq<u8>) -> Result<Seq<u8>, BwtError> {
    match rle_decoding(stream) {
        None => Err(BwtError::MalformedStream),
        Some((t, at)) => match inverse(with_sentinel(t, at)) {
            None => Err(BwtError::Validation),
            Some(data) => Ok(data),
        },
    }
}

/// Compresses `data`: appends the marker, transforms, and encodes the runs.
/// The stream decompresses to `data` again.
pub fn compress(data: Vec<u8>) -> (stream: Vec<u8>)
    requires
        data.len() < usize::MAX,
    ensures
        is_compressed_form(stream@, data@),
        decompressed(stream@) == Ok::<Seq<u8>, BwtError>(data@),
{
    let ghost bytes = data@;
    let source = BWTStr::new(data);
    let transformed = source.forward_transform();
    let mut stream: Vec<u8> = Vec::new();
    transformed.rle_write(&mut stream);
    assert(stream@ =~= rle_encoding(transformed.payload(), transformed.marker()));
    proof {
        assert(is_bwt_of(
            with_sentinel(transformed.payload(), transformed.marker()),
            with_sentinel(bytes, bytes.len() as int),
        ));
        lemma_decompress_compress(bytes, stream@);
    }
    stream
}

/// Decompresses `stream`: decodes the runs, puts the marker back, and inverts
/// the transform.
pub fn decompress(stream: &[u8]) -> (out: Result<Vec<u8>, BwtError>)
    ensures
        match out {
            Ok(data) => decompressed(stream@) == Ok::<Seq<u8>, BwtError>(data@),
            Err(e) => decompressed(stream@) == Err::<Seq<u8>, BwtError>(e),
        },
{
    match BWTStr::rle_read(stream) {
        Err(e) => Err(e),
        Ok(transformed) => match transformed.reverse_transform() {
            Err(e) => Err(e),
            Ok(restored) => Ok(restored.to_bytes()),
        },
    }
}

/// A stream of fewer than eight bytes is malformed: it does not hold the
/// header.
pub proof fn lemma_short_stream_is_malformed(stream: Seq<u8>)
    requires
        stream.len() < 8,
    ensures
        rle_decoding(stream).is_none(),
        decompressed(stream) == Err::<Seq<u8>, BwtError>(BwtError::MalformedStream),
{
}

} // verus!
