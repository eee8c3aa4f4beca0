//! Packs: frames one after the other. The identity of a pack commits to the
//! identities of its frames and to their places.

use crate::bytes;
use crate::bytes::{append, append_zeros, read_le, same_bytes};
use crate::digest;
use crate::digest::{hash, identify};
use crate::domain::{FrameId, Id, PackId};
use crate::error::StoreError;
use crate::format::FRAME_HEADER_SIZE;
use crate::frame;
use crate::frame::{FrameMetadata, FrameModel};
use crate::wire::u64_bytes;
use vstd::prelude::*;
use vstd::slice::slice_subrange;

verus! {

/// The bytes of a pack header.
pub const PACK_HEADER_SIZE: usize = 128;

/// The most bytes of the metadata of one frame.
pub const MAX_METADATA_BYTES: usize = 1048576;

/// `ZPACK001`.
pub const PACK_MAGIC: [u8; 8] = [90, 80, 65, 67, 75, 48, 48, 49];

/// `zsqlite/pack/v1\0`.
pub const PACK_DOMAIN: [u8; 16] = [122, 115, 113, 108, 105, 116, 101, 47, 112, 97, 99, 107, 47, 118, 49, 0];

/// The header of every pack.
pub open spec fn pack_header() -> Seq<u8> {
    PACK_MAGIC@ + bytes::zeros(120)
}

/// The header of every pack.
pub fn header() -> (bytes: Vec<u8>)
    ensures
        bytes@ == pack_header(),
        bytes@.len() == PACK_HEADER_SIZE,
{
    let mut bytes: Vec<u8> = Vec::new();
    append(&mut bytes, PACK_MAGIC.as_slice());
    append_zeros(&mut bytes, 120);
    assert(bytes@ =~= pack_header());
    bytes
}

/// The length of the record of a frame.
pub open spec fn record_size(frame: FrameModel) -> int {
    36 + frame.record().len() + FRAME_HEADER_SIZE + frame.payload_bytes
}

/// What the identity of a pack covers so far, and where the next frame goes.
#[verifier::ext_equal]
pub struct IdentityModel {
    pub input: Seq<u8>,
    pub offset: int,
    pub frames: int,
}

impl IdentityModel {
    /// Before the first frame.
    pub open spec fn first() -> IdentityModel {
        IdentityModel {
            input: PACK_DOMAIN@ + pack_header(),
            offset: PACK_HEADER_SIZE as int,
            frames: 0,
        }
    }

    /// After one more frame.
    pub open spec fn with(self, frame: FrameModel) -> IdentityModel {
        IdentityModel {
            input: self.input + frame.id.bytes@ + bytes::le(self.offset as nat, 8) + bytes::le(
                record_size(frame) as nat,
                8,
            ),
            offset: self.offset + record_size(frame),
            frames: self.frames + 1,
        }
    }

    /// What the identity of the whole pack covers.
    pub open spec fn last(self) -> Seq<u8> {
        self.input + bytes::le(self.frames as nat, 8) + bytes::le(self.offset as nat, 8)
    }
}

/// The identity of a pack under way.
#[derive(Debug, PartialEq, Eq)]
pub struct Identity {
    input: Vec<u8>,
    offset: u64,
    frames: u64,
}

impl View for Identity {
    type V = IdentityModel;

    closed spec fn view(&self) -> IdentityModel {
        IdentityModel {
            input: self.input@,
            offset: self.offset as int,
            frames: self.frames as int,
        }
    }
}

impl Identity {
    pub fn new() -> (identity: Self)
        ensures
            identity@ == IdentityModel::first(),
    {
        let mut input: Vec<u8> = Vec::new();
        append(&mut input, PACK_DOMAIN.as_slice());
        append(&mut input, header().as_slice());
        Identity { input, offset: PACK_HEADER_SIZE as u64, frames: 0 }
    }

    /// Takes in the next frame. It fails where the pack would be too long.
    pub fn frame(&mut self, metadata: &FrameMetadata) -> (done: Result<(), StoreError>)
        ensures
            match done {
                Ok(_) => final(self)@ == old(self)@.with(metadata@) && final(self)@.offset
                    <= u64::MAX,
                Err(e) => e == StoreError::Range && final(self)@ == old(self)@ && (old(self)@.offset + record_size(metadata@) > u64::MAX || old(self)@.frames == u64::MAX),
            },
    {
        let payload: u64 = metadata.payload_bytes().value;
        let encoded: usize = metadata.encoded_len();
        proof {
            crate::frame::lemma_frame_small(metadata@);
        }
        let length: u64 = 36 + encoded as u64 + FRAME_HEADER_SIZE as u64 + payload;
        let offset: u64 = match self.offset.checked_add(length) {
            Some(offset) => offset,
            None => {
                return Err(StoreError::Range);
            },
        };
        let frames: u64 = match self.frames.checked_add(1) {
            Some(frames) => frames,
            None => {
                return Err(StoreError::Range);
            },
        };
        append(&mut self.input, metadata.id().bytes.as_slice());
        u64_bytes(&mut self.input, self.offset);
        u64_bytes(&mut self.input, length);
        self.offset = offset;
        self.frames = frames;
        assert(self@ =~= old(self)@.with(metadata@));
        Ok(())
    }

    /// The identity of a pack of this length.
    pub fn finish(self, length: u64) -> (pack: Result<PackId, StoreError>)
        ensures
            match pack {
                Ok(p) => length == self@.offset && self@.frames != 0 && digest::names(p, self@.last()),
                Err(e) => (length != self@.offset || self@.frames == 0) && e
                    == StoreError::Corrupt(length),
            },
    {
        if length != self.offset || self.frames == 0 {
            return Err(StoreError::Corrupt(length));
        }
        let mut input: Vec<u8> = self.input;
        u64_bytes(&mut input, self.frames);
        u64_bytes(&mut input, length);
        assert(input@ =~= self@.last());
        Ok(identify(input.as_slice()))
    }
}

/// The record of a frame in a pack.
pub open spec fn frame_record(frame: FrameModel, payload: Seq<u8>) -> Seq<u8> {
    bytes::le(frame.record().len(), 4) + frame.id.bytes@ + frame.record() + frame.header().record()
        + payload
}

/// Reading the frame whose record starts at `offset`: the metadata, where its
/// payload starts and where it ends, once all of it is authentic.
pub open spec fn record_at(bytes: Seq<u8>, offset: int) -> Result<
    (FrameModel, int, int),
    StoreError,
> {
    let length = bytes.len() as int;
    if length - offset < 36 {
        Err(StoreError::Corrupt(offset as u64))
    } else {
        let count = le_count(bytes, offset);
        if count > MAX_METADATA_BYTES {
            Err(StoreError::Range)
        } else if 36 + count + FRAME_HEADER_SIZE > length - offset {
            Err(StoreError::Corrupt(offset as u64))
        } else {
            match frame::frame_parse(
                bytes.subrange(offset + 36, offset + 36 + count),
                frame::id_of(bytes.subrange(offset + 4, offset + 36)),
            ) {
                Err(error) => Err(error),
                Ok(frame) => {
                    let start = offset + 36 + count + FRAME_HEADER_SIZE;
                    let end = start + frame.payload_bytes;
                    if bytes.subrange(offset + 36 + count, start) != frame.header().record() {
                        Err(StoreError::Corrupt(offset as u64))
                    } else if end > length {
                        Err(StoreError::Corrupt(start as u64))
                    } else if digest::content_hash(bytes.subrange(start, end)) != frame.payload_hash {
                        Err(StoreError::Corrupt(end as u64))
                    } else {
                        Ok((frame, start, end))
                    }
                },
            }
        }
    }
}

/// The length of the metadata in the record at `offset`.
pub open spec fn le_count(bytes: Seq<u8>, offset: int) -> int {
    crate::bytes::le_value(bytes.subrange(offset, offset + 4)) as int
}

/// Reading the records from `offset` to the end.
pub open spec fn records_from(bytes: Seq<u8>, offset: int, state: IdentityModel) -> Result<
    IdentityModel,
    StoreError,
>
    decreases bytes.len() - offset,
{
    if offset >= bytes.len() {
        Ok(state)
    } else {
        match record_at(bytes, offset) {
            Err(error) => Err(error),
            Ok((frame, start, end)) => if end <= offset {
                Err(StoreError::Range)
            } else {
                records_from(bytes, end, state.with(frame))
            },
        }
    }
}

/// What the identity of an authentic pack covers, or why the bytes are none.
pub open spec fn pack_parse(bytes: Seq<u8>) -> Result<Seq<u8>, StoreError> {
    if bytes.len() < PACK_HEADER_SIZE || bytes.take(PACK_HEADER_SIZE as int) != pack_header() {
        Err(StoreError::Corrupt(0))
    } else {
        match records_from(bytes, PACK_HEADER_SIZE as int, IdentityModel::first()) {
            Err(error) => Err(error),
            Ok(state) => if state.frames == 0 {
                Err(StoreError::Corrupt(bytes.len() as u64))
            } else {
                Ok(state.last())
            },
        }
    }
}

/// Reads the record at `offset`.
fn read_record(bytes: &[u8], offset: usize) -> (record: Result<
    (FrameMetadata, usize),
    StoreError,
>)
    requires
        offset < bytes@.len(),
    ensures
        match record {
            Ok((m, end)) => record_at(bytes@, offset as int) == Ok::<
                (FrameModel, int, int),
                StoreError,
            >((m@, end - m@.payload_bytes, end as int)) && m@.wf() && end - offset == record_size(
                m@,
            ) && offset < end <= bytes@.len(),
            Err(e) => record_at(bytes@, offset as int) == Err::<
                (FrameModel, int, int),
                StoreError,
            >(e),
        },
{
    let length: usize = bytes.len();
    if length - offset < 36 {
        return Err(StoreError::Corrupt(offset as u64));
    }
    let field: &[u8] = slice_subrange(bytes, offset, offset + 4);
    proof {
        crate::bytes::law_le_canonical(field@);
        crate::bytes::lemma_le_bounds();
    }
    let count: u64 = read_le(field);
    if count > MAX_METADATA_BYTES as u64 {
        return Err(StoreError::Range);
    }
    let count: usize = count as usize;
    if 36 + count + FRAME_HEADER_SIZE > length - offset {
        return Err(StoreError::Corrupt(offset as u64));
    }
    let id: FrameId = Id::read(slice_subrange(bytes, offset + 4, offset + 36));
    proof {
        frame::lemma_id_of(id);
    }
    let encoded: &[u8] = slice_subrange(bytes, offset + 36, offset + 36 + count);
    let metadata: FrameMetadata = FrameMetadata::decode(encoded, id)?;
    let start: usize = offset + 36 + count + FRAME_HEADER_SIZE;
    let expected: Vec<u8> = metadata.record_header().encode();
    if !same_bytes(slice_subrange(bytes, offset + 36 + count, start), expected.as_slice()) {
        return Err(StoreError::Corrupt(offset as u64));
    }
    let payload: u64 = metadata.payload_bytes().value;
    if payload > (length - start) as u64 {
        return Err(StoreError::Corrupt(start as u64));
    }
    let end: usize = start + payload as usize;
    if !same_bytes(
        hash(slice_subrange(bytes, start, end)).as_slice(),
        metadata.payload_hash().as_slice(),
    ) {
        return Err(StoreError::Corrupt(end as u64));
    }
    proof {
        crate::frame::law_frame_canonical(encoded@, id, metadata@);
    }
    Ok((metadata, end))
}

/// Authenticates a whole pack: every frame's metadata, record header and
/// payload. The identity follows from the frames.
pub fn authenticate(bytes: &[u8]) -> (pack: Result<PackId, StoreError>)
    ensures
        match pack {
            Ok(p) => (pack_parse(bytes@) matches Ok(input) && digest::names(p, input)),
            Err(e) => pack_parse(bytes@) == Err::<Seq<u8>, StoreError>(e),
        },
{
    if bytes.len() < PACK_HEADER_SIZE {
        return Err(StoreError::Corrupt(0));
    }
    let magic: &[u8] = slice_subrange(bytes, 0, PACK_HEADER_SIZE);
    assert(magic@ =~= bytes@.take(PACK_HEADER_SIZE as int));
    if !same_bytes(magic, header().as_slice()) {
        return Err(StoreError::Corrupt(0));
    }
    let mut identity: Identity = Identity::new();
    let mut offset: usize = PACK_HEADER_SIZE;
    let ghost goal = records_from(bytes@, PACK_HEADER_SIZE as int, IdentityModel::first());
    while offset < bytes.len()
        invariant
            offset <= bytes@.len(),
            PACK_HEADER_SIZE <= bytes@.len(),
            bytes@.take(PACK_HEADER_SIZE as int) == pack_header(),
            goal == records_from(bytes@, PACK_HEADER_SIZE as int, IdentityModel::first()),
            goal == records_from(bytes@, offset as int, identity@),
            identity@.offset == offset,
            0 <= identity@.frames <= offset,
        decreases bytes.len() - offset,
    {
        let (metadata, end) = read_record(bytes, offset)?;
        let step: Result<(), StoreError> = identity.frame(&metadata);
        match step {
            Ok(_) => {},
            Err(error) => {
                assert(false);
                return Err(error);
            },
        }
        offset = end;
    }
    identity.finish(bytes.len() as u64)
}

/// The records of the frames from place `i` on.
pub open spec fn records_bytes(frames: Seq<(FrameModel, Seq<u8>)>, i: int) -> Seq<u8>
    decreases frames.len() - i,
{
    if i >= frames.len() {
        Seq::empty()
    } else {
        frame_record(frames[i].0, frames[i].1) + records_bytes(frames, i + 1)
    }
}

/// What the identity covers after the frames from place `i` on.
pub open spec fn identity_from(
    frames: Seq<(FrameModel, Seq<u8>)>,
    i: int,
    state: IdentityModel,
) -> IdentityModel
    decreases frames.len() - i,
{
    if i >= frames.len() {
        state
    } else {
        identity_from(frames, i + 1, state.with(frames[i].0))
    }
}

/// The bytes of a pack of these frames.
pub open spec fn pack_bytes(frames: Seq<(FrameModel, Seq<u8>)>) -> Seq<u8> {
    pack_header() + records_bytes(frames, 0)
}

/// Every frame is valid, named by its encoding, and describes its payload.
pub open spec fn packable(frames: Seq<(FrameModel, Seq<u8>)>) -> bool {
    forall|i: int|
        0 <= i < frames.len() ==> (#[trigger] frames[i]).0.wf() && frames[i].0.authentic()
            && frames[i].0.describes(frames[i].1)
}

pub proof fn lemma_frame_record(frame: FrameModel, payload: Seq<u8>)
    requires
        frame.sound(),
        frame.describes(payload),
    ensures
        frame_record(frame, payload).len() == record_size(frame),
{
    crate::bytes::lemma_le_len(frame.record().len(), 4);
    frame.header().lemma_record();
}

proof fn lemma_record_parse(before: Seq<u8>, frame: FrameModel, payload: Seq<u8>, after: Seq<u8>)
    requires
        frame.wf(),
        frame.authentic(),
        frame.describes(payload),
        (before + frame_record(frame, payload) + after).len() <= usize::MAX,
    ensures
        record_at(before + frame_record(frame, payload) + after, before.len() as int) == Ok::<
            (FrameModel, int, int),
            StoreError,
        >(
            (
                frame,
                before.len() + record_size(frame) - frame.payload_bytes,
                before.len() + record_size(frame),
            ),
        ),
{
    let record = frame_record(frame, payload);
    let whole = before + record + after;
    let offset = before.len() as int;
    let count = frame.record().len() as int;
    lemma_frame_record(frame, payload);
    crate::frame::lemma_frame_small(frame);
    crate::frame::lemma_frame_size(frame);
    frame.header().lemma_record();
    crate::bytes::lemma_le_len(frame.record().len(), 4);
    crate::bytes::lemma_le_bounds();
    assert(le_count(whole, offset) == count) by {
        crate::bytes::law_le_round_trip(frame.record().len(), 4);
        assert(whole.subrange(offset, offset + 4) =~= bytes::le(frame.record().len(), 4));
    }
    assert(whole.subrange(offset + 4, offset + 36) =~= frame.id.bytes@);
    frame::lemma_id_of(frame.id);
    assert(whole.subrange(offset + 36, offset + 36 + count) =~= frame.record());
    crate::frame::law_frame_round_trip(frame);
    let start = offset + 36 + count + FRAME_HEADER_SIZE;
    assert(whole.subrange(offset + 36 + count, start) =~= frame.header().record());
    assert(whole.subrange(start, start + frame.payload_bytes) =~= payload);
}

proof fn lemma_records_parse(
    before: Seq<u8>,
    frames: Seq<(FrameModel, Seq<u8>)>,
    i: int,
    state: IdentityModel,
)
    requires
        0 <= i <= frames.len(),
        packable(frames),
        (before + records_bytes(frames, i)).len() <= usize::MAX,
    ensures
        records_from(before + records_bytes(frames, i), before.len() as int, state) == Ok::<
            IdentityModel,
            StoreError,
        >(identity_from(frames, i, state)),
    decreases frames.len() - i,
{
    let whole = before + records_bytes(frames, i);
    if i < frames.len() {
        let (frame, payload) = frames[i];
        let record = frame_record(frame, payload);
        let rest = records_bytes(frames, i + 1);
        assert(whole =~= before + record + rest);
        lemma_record_parse(before, frame, payload, rest);
        lemma_frame_record(frame, payload);
        assert(whole =~= (before + record) + rest);
        lemma_records_parse(before + record, frames, i + 1, state.with(frame));
    }
}

proof fn lemma_identity_counts(
    frames: Seq<(FrameModel, Seq<u8>)>,
    i: int,
    state: IdentityModel,
)
    requires
        0 <= i <= frames.len(),
    ensures
        identity_from(frames, i, state).frames == state.frames + frames.len() - i,
    decreases frames.len() - i,
{
    if i < frames.len() {
        lemma_identity_counts(frames, i + 1, state.with(frames[i].0));
    }
}

/// A pack that was written authenticates, under the identity that its frames
/// give.
pub proof fn law_pack_authenticates(frames: Seq<(FrameModel, Seq<u8>)>)
    requires
        frames.len() > 0,
        packable(frames),
        pack_bytes(frames).len() <= usize::MAX,
    ensures
        pack_parse(pack_bytes(frames)) == Ok::<Seq<u8>, StoreError>(
            identity_from(frames, 0, IdentityModel::first()).last(),
        ),
{
    let whole = pack_bytes(frames);
    assert(whole.take(PACK_HEADER_SIZE as int) =~= pack_header());
    lemma_records_parse(pack_header(), frames, 0, IdentityModel::first());
    lemma_identity_counts(frames, 0, IdentityModel::first());
}

} // verus!
