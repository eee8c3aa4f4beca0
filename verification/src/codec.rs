//! Zstandard compression.

use vstd::prelude::*;

verus! {

/// The frame that compression of `data` at `level` gives.
pub uninterp spec fn zstd_frame(data: Seq<u8>, level: int) -> Seq<u8>;

/// The bytes that a frame stands for.
pub uninterp spec fn zstd_content(frame: Seq<u8>) -> Seq<u8>;

/// The frame that compression of `data` at `level` with a dictionary gives.
pub uninterp spec fn zstd_frame_with(dictionary: Seq<u8>, data: Seq<u8>, level: int) -> Seq<u8>;

/// The bytes that a frame stands for, read with a dictionary.
pub uninterp spec fn zstd_content_with(dictionary: Seq<u8>, frame: Seq<u8>) -> Seq<u8>;

/// `zstd::bulk::compress`: a frame, where it succeeds, is a function of the data
/// and the level, stands for the data, and is never empty: it starts with a frame
/// header. Nothing is said of when it succeeds: it fails where the library cannot
/// allocate.
#[verifier::external_body]
pub(crate) fn compress(data: &[u8], level: i32) -> (frame: Result<Vec<u8>, String>)
    ensures
        frame matches Ok(f) ==> f@ == zstd_frame(data@, level as int) && zstd_content(f@)
            == data@ && f@.len() > 0,
{
    zstd::bulk::compress(data, level).map_err(|error| error.to_string())
}

/// `zstd::bulk::decompress`: where it succeeds, the bytes that the frame stands
/// for. It fails on bytes that are no frame, on content longer than the
/// capacity, and where the library cannot allocate; nothing is said of when.
#[verifier::external_body]
pub(crate) fn decompress(frame: &[u8], capacity: usize) -> (data: Result<Vec<u8>, String>)
    requires
        capacity <= isize::MAX,
    ensures
        data matches Ok(d) ==> d@ == zstd_content(frame@),
{
    zstd::bulk::decompress(frame, capacity).map_err(|error| error.to_string())
}

/// `zstd::bulk::Compressor::with_dictionary`, then `compress`: as `compress`,
/// and the frame stands for the data when it is read with the same dictionary.
#[verifier::external_body]
pub(crate) fn compress_with(dictionary: &[u8], data: &[u8], level: i32) -> (frame: Result<
    Vec<u8>,
    String,
>)
    ensures
        frame matches Ok(f) ==> f@ == zstd_frame_with(dictionary@, data@, level as int)
            && zstd_content_with(dictionary@, f@) == data@ && f@.len() > 0,
{
    zstd::bulk::Compressor::with_dictionary(level, dictionary)
        .and_then(|mut compressor| compressor.compress(data))
        .map_err(|error| error.to_string())
}

/// A dictionary is one that frames can be read with: it is plain content, or the
/// tables that it starts with are sound.
pub uninterp spec fn zstd_loads(dictionary: Seq<u8>) -> bool;

/// `zstd::bulk::Decompressor::with_dictionary`: it succeeds only on a dictionary
/// that frames can be read with. It fails on a dictionary with damaged tables, and
/// where the library cannot allocate; nothing is said of when.
#[verifier::external_body]
pub(crate) fn load_dictionary(dictionary: &[u8]) -> (done: Result<(), String>)
    ensures
        done is Ok ==> zstd_loads(dictionary@),
{
    zstd::bulk::Decompressor::with_dictionary(dictionary)
        .map(|_| ())
        .map_err(|error| error.to_string())
}

/// `zstd::bulk::Decompressor::with_dictionary`, then `decompress`: as
/// `decompress`, with the dictionary.
#[verifier::external_body]
pub(crate) fn decompress_with(dictionary: &[u8], frame: &[u8], capacity: usize) -> (data: Result<
    Vec<u8>,
    String,
>)
    requires
        capacity <= isize::MAX,
    ensures
        data matches Ok(d) ==> d@ == zstd_content_with(dictionary@, frame@),
{
    zstd::bulk::Decompressor::with_dictionary(dictionary)
        .and_then(|mut decompressor| decompressor.decompress(frame, capacity))
        .map_err(|error| error.to_string())
}

/// Some samples as bytes.
pub open spec fn samples_view(samples: Seq<Vec<u8>>) -> Seq<Seq<u8>> {
    Seq::new(samples.len(), |i: int| samples[i]@)
}

/// The dictionaries that training on some samples with a capacity can give. There
/// may be several: the trainer goes by the room that the allocator gave it, and
/// passes by the settings for which it got no memory.
pub uninterp spec fn zstd_trainings(samples: Seq<Seq<u8>>, capacity: int) -> Set<Seq<u8>>;

/// `zstd::dict::from_samples`: where it succeeds, the dictionary is one of those
/// that the samples, in their order, and the capacity allow for. It fails where
/// the samples are too few for the trainer, and where the library cannot
/// allocate. Nothing is said of when, nor of which dictionary comes out.
#[verifier::external_body]
pub(crate) fn train(samples: &[Vec<u8>], capacity: usize) -> (dictionary: Result<Vec<u8>, String>)
    requires
        capacity <= isize::MAX,
    ensures
        dictionary matches Ok(d) ==> zstd_trainings(
            samples_view(samples@),
            capacity as int,
        ).contains(d@),
{
    zstd::dict::from_samples(samples, capacity).map_err(|error| error.to_string())
}

} // verus!
