//! Bounded decoding of stored bytes, and compressed envelopes.

use crate::bytes;
use crate::bytes::{append, array32, push_le, read_le, same_bytes};
use crate::codec;
use crate::codec::{compress, decompress};
use crate::digest;
use crate::digest::hash;
use crate::error::StoreError;
use vstd::prelude::*;
use vstd::slice::slice_subrange;

verus! {

/// Taking `count` bytes of `bytes` from `position` on: the bytes and the place
/// after them, or why they cannot be had.
pub open spec fn take_at(bytes: Seq<u8>, position: int, count: int) -> Result<
    (Seq<u8>, int),
    StoreError,
> {
    if position + count > usize::MAX {
        Err(StoreError::Range)
    } else if position + count > bytes.len() {
        Err(StoreError::Corrupt(position as u64))
    } else {
        Ok((bytes.subrange(position, position + count), position + count))
    }
}

/// Reading a little-endian number of `width` bytes from `position` on.
pub open spec fn number_at(bytes: Seq<u8>, position: int, width: int) -> Result<
    (nat, int),
    StoreError,
> {
    match take_at(bytes, position, width) {
        Ok((taken, next)) => Ok((bytes::le_value(taken), next)),
        Err(error) => Err(error),
    }
}

/// The end of a decoding: every byte was taken.
pub open spec fn finish_at(bytes: Seq<u8>, position: int) -> Result<(), StoreError> {
    if position == bytes.len() {
        Ok(())
    } else {
        Err(StoreError::Corrupt(position as u64))
    }
}

/// What is taken out of the front part of some bytes is what is taken out of all
/// of them.
pub proof fn lemma_take_of_part(part: Seq<u8>, whole: Seq<u8>, position: int, count: int)
    requires
        part.len() <= whole.len(),
        part == whole.subrange(0, part.len() as int),
        0 <= position,
        0 <= count,
    ensures
        take_at(part, position, count) is Ok ==> take_at(whole, position, count)
            == take_at(part, position, count),
{
    if position + count <= part.len() {
        assert(part.subrange(position, position + count) =~= whole.subrange(
            position,
            position + count,
        ));
    }
}

/// A reader of bytes that never reads past their end.
pub struct Decoder<'a> {
    pub bytes: &'a [u8],
    pub position: usize,
}

impl<'a> Decoder<'a> {
    pub open spec fn wf(&self) -> bool {
        self.position <= self.bytes@.len()
    }

    pub fn new(bytes: &'a [u8]) -> (decoder: Self)
        ensures
            decoder.wf(),
            decoder.bytes@ == bytes@,
            decoder.position == 0,
    {
        Decoder { bytes, position: 0 }
    }

    /// The next `count` bytes.
    pub fn take(&mut self, count: usize) -> (taken: Result<&'a [u8], StoreError>)
        requires
            old(self).wf(),
        ensures
            final(self).wf(),
            final(self).bytes@ == old(self).bytes@,
            match taken {
                Ok(t) => take_at(old(self).bytes@, old(self).position as int, count as int) == Ok::<
                    (Seq<u8>, int),
                    StoreError,
                >((t@, final(self).position as int)),
                Err(e) => take_at(old(self).bytes@, old(self).position as int, count as int)
                    == Err::<(Seq<u8>, int), StoreError>(e),
            },
    {
        let end: usize = match self.position.checked_add(count) {
            Some(end) => end,
            None => {
                return Err(StoreError::Range);
            },
        };
        if end > self.bytes.len() {
            return Err(StoreError::Corrupt(self.position as u64));
        }
        let taken: &'a [u8] = slice_subrange(self.bytes, self.position, end);
        self.position = end;
        Ok(taken)
    }

    /// The next 32 bytes.
    pub fn array(&mut self) -> (taken: Result<[u8; 32], StoreError>)
        requires
            old(self).wf(),
        ensures
            final(self).wf(),
            final(self).bytes@ == old(self).bytes@,
            match taken {
                Ok(t) => take_at(old(self).bytes@, old(self).position as int, 32) == Ok::<
                    (Seq<u8>, int),
                    StoreError,
                >((t@, final(self).position as int)),
                Err(e) => take_at(old(self).bytes@, old(self).position as int, 32) == Err::<
                    (Seq<u8>, int),
                    StoreError,
                >(e),
            },
    {
        let taken: &[u8] = self.take(32)?;
        Ok(array32(taken))
    }

    /// The next byte.
    pub fn u8(&mut self) -> (value: Result<u8, StoreError>)
        requires
            old(self).wf(),
        ensures
            final(self).wf(),
            final(self).bytes@ == old(self).bytes@,
            match value {
                Ok(v) => number_at(old(self).bytes@, old(self).position as int, 1) == Ok::<
                    (nat, int),
                    StoreError,
                >((v as nat, final(self).position as int)),
                Err(e) => number_at(old(self).bytes@, old(self).position as int, 1) == Err::<
                    (nat, int),
                    StoreError,
                >(e),
            },
    {
        let taken: &[u8] = self.take(1)?;
        proof {
            assert(taken@.skip(1).len() == 0);
            assert(bytes::le_value(taken@.skip(1)) == 0);
            assert(bytes::le_value(taken@) == taken@[0] as nat);
        }
        Ok(taken[0])
    }

    /// The next little-endian number of four bytes.
    pub fn u32(&mut self) -> (value: Result<u32, StoreError>)
        requires
            old(self).wf(),
        ensures
            final(self).wf(),
            final(self).bytes@ == old(self).bytes@,
            match value {
                Ok(v) => number_at(old(self).bytes@, old(self).position as int, 4) == Ok::<
                    (nat, int),
                    StoreError,
                >((v as nat, final(self).position as int)),
                Err(e) => number_at(old(self).bytes@, old(self).position as int, 4) == Err::<
                    (nat, int),
                    StoreError,
                >(e),
            },
    {
        let taken: &[u8] = self.take(4)?;
        proof {
            crate::bytes::law_le_canonical(taken@);
            crate::bytes::lemma_le_bounds();
        }
        let value: u64 = read_le(taken);
        Ok(value as u32)
    }

    /// The next little-endian number of eight bytes.
    pub fn u64(&mut self) -> (value: Result<u64, StoreError>)
        requires
            old(self).wf(),
        ensures
            final(self).wf(),
            final(self).bytes@ == old(self).bytes@,
            match value {
                Ok(v) => number_at(old(self).bytes@, old(self).position as int, 8) == Ok::<
                    (nat, int),
                    StoreError,
                >((v as nat, final(self).position as int)),
                Err(e) => number_at(old(self).bytes@, old(self).position as int, 8) == Err::<
                    (nat, int),
                    StoreError,
                >(e),
            },
    {
        let taken: &[u8] = self.take(8)?;
        Ok(read_le(taken))
    }

    /// Ends the decoding: every byte must have been taken.
    pub fn finish(self) -> (done: Result<(), StoreError>)
        requires
            self.wf(),
        ensures
            done == finish_at(self.bytes@, self.position as int),
    {
        if self.position == self.bytes.len() {
            Ok(())
        } else {
            Err(StoreError::Corrupt(self.position as u64))
        }
    }
}

/// What stands at `at` is `piece`, and taking as many bytes there gives it.
pub proof fn lemma_take_piece(before: Seq<u8>, piece: Seq<u8>, after: Seq<u8>)
    requires
        (before + piece + after).len() <= usize::MAX,
    ensures
        take_at(before + piece + after, before.len() as int, piece.len() as int) == Ok::<
            (Seq<u8>, int),
            StoreError,
        >((piece, (before.len() + piece.len()) as int)),
{
    assert((before + piece + after).subrange(
        before.len() as int,
        (before.len() + piece.len()) as int,
    ) =~= piece);
}

/// Reading a number where it was written gives it back.
pub proof fn lemma_number_piece(before: Seq<u8>, value: nat, width: nat, after: Seq<u8>)
    requires
        (before + bytes::le(value, width) + after).len() <= usize::MAX,
        value < crate::bytes::le_bound(width),
    ensures
        number_at(before + bytes::le(value, width) + after, before.len() as int, width as int) == Ok::<
            (nat, int),
            StoreError,
        >((value, (before.len() + width) as int)),
{
    crate::bytes::lemma_le_len(value, width);
    crate::bytes::law_le_round_trip(value, width);
    lemma_take_piece(before, bytes::le(value, width), after);
}

/// Appends a little-endian number of four bytes.
pub fn u32_bytes(output: &mut Vec<u8>, value: u32)
    ensures
        final(output)@ == old(output)@ + bytes::le(value as nat, 4),
{
    push_le(output, value as u64, 4);
}

/// Appends a little-endian number of eight bytes.
pub fn u64_bytes(output: &mut Vec<u8>, value: u64)
    ensures
        final(output)@ == old(output)@ + bytes::le(value as nat, 8),
{
    push_le(output, value, 8);
}

/// An envelope: magic, length and digest of the content, and the content
/// compressed.
pub open spec fn envelope_bytes(magic: Seq<u8>, raw: Seq<u8>, frame: Seq<u8>) -> Seq<u8> {
    magic + bytes::le(raw.len(), 8) + digest::content_hash(raw) + frame
}

/// What the fixed part of an envelope promises of its content.
pub struct EnvelopeParts {
    pub length: nat,
    pub hash: Seq<u8>,
    pub frame: Seq<u8>,
}

/// The parts of an envelope with this magic and at most `limit` bytes of
/// content, or why it has none.
pub open spec fn envelope_parts(magic: Seq<u8>, encoded: Seq<u8>, limit: int) -> Result<
    EnvelopeParts,
    StoreError,
> {
    match take_at(encoded, 0, 8) {
        Err(error) => Err(error),
        Ok((found, p)) => if found != magic {
            Err(StoreError::Corrupt(0))
        } else {
            match number_at(encoded, p, 8) {
                Err(error) => Err(error),
                Ok((length, p)) => if length > limit {
                    Err(StoreError::Range)
                } else {
                    match take_at(encoded, p, 32) {
                        Err(error) => Err(error),
                        Ok((hash, p)) => Ok(
                            EnvelopeParts {
                                length,
                                hash,
                                frame: encoded.subrange(p, encoded.len() as int),
                            },
                        ),
                    }
                },
            }
        },
    }
}

/// The content of an envelope, or why it has none, where the decompressor works.
pub open spec fn envelope_content(magic: Seq<u8>, encoded: Seq<u8>, limit: int) -> Result<
    Seq<u8>,
    StoreError,
> {
    match envelope_parts(magic, encoded, limit) {
        Err(error) => Err(error),
        Ok(parts) => {
            let content = codec::zstd_content(parts.frame);
            if content.len() == parts.length && digest::content_hash(content) == parts.hash {
                Ok(content)
            } else {
                Err(StoreError::Corrupt(0))
            }
        },
    }
}

/// Wraps content in an envelope.
pub fn envelope(magic: &[u8; 8], raw: &[u8]) -> (encoded: Result<Vec<u8>, StoreError>)
    ensures
        match encoded {
            Ok(e) => e@ == envelope_bytes(magic@, raw@, codec::zstd_frame(raw@, 3)) && codec::zstd_content(
                codec::zstd_frame(raw@, 3),
            ) == raw@,
            Err(e) => e is Zstd,
        },
{
    let compressed: Vec<u8> = match compress(raw, 3) {
        Ok(frame) => frame,
        Err(message) => {
            return Err(StoreError::Zstd(message));
        },
    };
    let mut output: Vec<u8> = Vec::new();
    append(&mut output, magic.as_slice());
    u64_bytes(&mut output, raw.len() as u64);
    append(&mut output, hash(raw).as_slice());
    append(&mut output, compressed.as_slice());
    assert(output@ =~= envelope_bytes(magic@, raw@, codec::zstd_frame(raw@, 3)));
    Ok(output)
}

/// Admits content only if it is what the envelope promised.
pub fn admit_content(length: usize, expected: &[u8; 32], raw: Vec<u8>) -> (content: Result<
    Vec<u8>,
    StoreError,
>)
    ensures
        match content {
            Ok(c) => c@ == raw@ && raw@.len() == length && digest::content_hash(raw@) == expected@,
            Err(e) => e == StoreError::Corrupt(0) && !(raw@.len() == length && digest::content_hash(raw@)
                == expected@),
        },
{
    if raw.len() != length || !same_bytes(hash(raw.as_slice()).as_slice(), expected.as_slice()) {
        return Err(StoreError::Corrupt(0));
    }
    Ok(raw)
}

/// The content of an envelope with this magic and at most `limit` bytes of
/// content. The decompressor may fail on any frame; where it succeeds the
/// content is admitted if and only if it has the promised length and digest.
pub fn open_envelope(magic: &[u8; 8], encoded: &[u8], limit: usize) -> (content: Result<
    Vec<u8>,
    StoreError,
>)
    requires
        limit <= isize::MAX,
    ensures
        match envelope_parts(magic@, encoded@, limit as int) {
            Err(error) => content == Err::<Vec<u8>, StoreError>(error),
            Ok(parts) => match content {
                Ok(c) => c@ == codec::zstd_content(parts.frame) && c@.len() == parts.length
                    && digest::content_hash(c@) == parts.hash,
                Err(e) => e is Zstd || (e == StoreError::Corrupt(0) && !(codec::zstd_content(
                    parts.frame,
                ).len() == parts.length && digest::content_hash(codec::zstd_content(parts.frame))
                    == parts.hash)),
            },
        },
        match content {
            Ok(c) => envelope_content(magic@, encoded@, limit as int) == Ok::<Seq<u8>, StoreError>(
                c@,
            ) && c@.len() <= limit,
            Err(e) => e is Zstd || envelope_content(magic@, encoded@, limit as int) == Err::<
                Seq<u8>,
                StoreError,
            >(e),
        },
{
    let mut wire: Decoder = Decoder::new(encoded);
    if !same_bytes(wire.take(8)?, magic.as_slice()) {
        return Err(StoreError::Corrupt(0));
    }
    let length: u64 = wire.u64()?;
    if length > limit as u64 {
        return Err(StoreError::Range);
    }
    let expected: [u8; 32] = wire.array()?;
    assert(wire.position == 48);
    let compressed: &[u8] = wire.take(encoded.len() - 48)?;
    let raw: Vec<u8> = match decompress(compressed, length as usize) {
        Ok(raw) => raw,
        Err(message) => {
            return Err(StoreError::Zstd(message));
        },
    };
    admit_content(length as usize, &expected, raw)
}

/// Opening what was wrapped finds the content's length, its digest and the
/// frame: so wherever the frame stands for the content, opening an envelope
/// gives back what was put in.
pub proof fn law_envelope_round_trip(magic: Seq<u8>, raw: Seq<u8>, frame: Seq<u8>, limit: int)
    requires
        magic.len() == 8,
        raw.len() <= limit <= usize::MAX,
        48 + frame.len() <= usize::MAX,
    ensures
        codec::zstd_content(frame) == raw ==> envelope_content(
            magic,
            envelope_bytes(magic, raw, frame),
            limit,
        ) == Ok::<Seq<u8>, StoreError>(raw),
        envelope_parts(magic, envelope_bytes(magic, raw, frame), limit) == Ok::<
            EnvelopeParts,
            StoreError,
        >(EnvelopeParts { length: raw.len(), hash: digest::content_hash(raw), frame }),
{
    let whole = envelope_bytes(magic, raw, frame);
    let length = bytes::le(raw.len(), 8);
    let sum = digest::content_hash(raw);
    crate::bytes::lemma_le_len(raw.len(), 8);
    crate::bytes::lemma_le_bounds();
    assert(whole =~= Seq::<u8>::empty() + magic + (length + sum + frame));
    lemma_take_piece(Seq::<u8>::empty(), magic, length + sum + frame);
    assert(whole =~= magic + length + (sum + frame));
    lemma_number_piece(magic, raw.len(), 8, sum + frame);
    assert(whole =~= (magic + length) + sum + frame);
    lemma_take_piece(magic + length, sum, frame);
    assert(whole.subrange(48, whole.len() as int) =~= frame);
}


} // verus!
