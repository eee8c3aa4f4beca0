//! Physical placement of packs in blobs, independent of what the packs hold.

use crate::bytes;
use crate::bytes::{append, same_bytes};
use crate::digest;
use crate::digest::identify;
use crate::domain::{
    BlobBytes, BlobId, BlobOffset, Count, Id, PackId, PackOffset, RepresentationId, StoredBytes,
    StoredRange, ValueError,
};
use crate::error::{StoreError, valued};
use crate::frame;
use crate::order::OrderedSet;
use crate::wire;
use crate::wire::{Decoder, u32_bytes, u64_bytes};
use vstd::prelude::*;

verus! {

/// Where the first pack of a blob starts.
pub const BLOB_HEADER: u64 = 32;

/// The most representations of one pack.
pub const MAX_REPRESENTATIONS: usize = 64;

/// `zsqlite/representation/v1`.
pub const REPRESENTATION_DOMAIN: [u8; 25] = [122, 115, 113, 108, 105, 116, 101, 47, 114, 101, 112, 114, 101, 115, 101, 110, 116, 97, 116, 105, 111, 110, 47, 118, 49];

/// `ZPLACE01`.
pub const PLACEMENT_MAGIC: [u8; 8] = [90, 80, 76, 65, 67, 69, 48, 49];

/// Bytes of a pack.
#[derive(Clone, Copy, Debug, PartialEq, Eq)]
pub struct PackRange {
    pub offset: PackOffset,
    pub length: StoredBytes,
}

impl PackRange {
    /// Not empty, and within the range of offsets.
    pub open spec fn wf(self) -> bool {
        self.length.value != 0 && self.offset.value + self.length.value <= u64::MAX
    }

    pub fn new(offset: PackOffset, length: StoredBytes) -> (range: Result<Self, ValueError>)
        ensures
            match range {
                Ok(r) => r.wf() && r.offset == offset && r.length == length,
                Err(_) => !(PackRange { offset, length }).wf(),
            },
    {
        if length.value == 0 {
            return Err(ValueError);
        }
        match offset.value.checked_add(length.value) {
            Some(_) => Ok(PackRange { offset, length }),
            None => Err(ValueError),
        }
    }

    pub fn offset(self) -> (offset: PackOffset)
        ensures
            offset == self.offset,
    {
        self.offset
    }

    pub fn length(self) -> (length: StoredBytes)
        ensures
            length == self.length,
    {
        self.length
    }

    /// The range, if it lies within the first `size` bytes.
    pub fn within(self, size: StoredBytes) -> (range: Result<Self, ValueError>)
        ensures
            match range {
                Ok(r) => r == self && self.offset.value + self.length.value <= size.value,
                Err(_) => self.offset.value + self.length.value > size.value,
            },
    {
        match self.offset.value.checked_add(self.length.value) {
            Some(end) => if end > size.value {
                Err(ValueError)
            } else {
                Ok(self)
            },
            None => Err(ValueError),
        }
    }

    /// The place after the last byte.
    pub fn end(self) -> (end: PackOffset)
        requires
            self.wf(),
        ensures
            end.value == self.offset.value + self.length.value,
    {
        Count { value: self.offset.value + self.length.value }
    }

    /// The range of a pack at these bytes of a file.
    pub fn stored(range: StoredRange) -> (stored: Result<Self, StoreError>)
        ensures
            match stored {
                Ok(r) => r.wf() && r.offset.value == range.offset.value && r.length == range.length,
                Err(e) => e == StoreError::Value(ValueError) && (range.length.value == 0
                    || range.offset.value + range.length.value > u64::MAX),
            },
    {
        valued(PackRange::new(Count { value: range.offset.value }, range.length))
    }

    /// Whether two ranges are the same.
    pub fn same(&self, other: &PackRange) -> (same: bool)
        ensures
            same == (*self == *other),
    {
        self.offset.value == other.offset.value && self.length.value == other.length.value
    }
}

/// Where a whole pack stands in a blob.
#[derive(Clone, Copy, Debug, PartialEq, Eq)]
pub struct BlobExtent {
    pub blob: BlobId,
    pub offset: BlobOffset,
    pub length: BlobBytes,
    pub blob_length: BlobBytes,
}

impl View for BlobExtent {
    type V = BlobExtent;

    open spec fn view(&self) -> BlobExtent {
        *self
    }
}

impl BlobExtent {
    /// Not empty, and within the blob.
    pub open spec fn wf(self) -> bool {
        self.length.value != 0 && self.offset.value + self.length.value <= self.blob_length.value
    }

    pub fn new(
        blob: BlobId,
        offset: BlobOffset,
        length: BlobBytes,
        blob_length: BlobBytes,
        pack_length: StoredBytes,
    ) -> (extent: Result<Self, ValueError>)
        ensures
            match extent {
                Ok(e) => e == (BlobExtent { blob, offset, length, blob_length }) && e.wf()
                    && length.value == pack_length.value,
                Err(_) => !(BlobExtent { blob, offset, length, blob_length }).wf() || length.value
                    != pack_length.value,
            },
    {
        if length.value == 0 || length.value != pack_length.value {
            return Err(ValueError);
        }
        match offset.value.checked_add(length.value) {
            Some(end) => if end > blob_length.value {
                Err(ValueError)
            } else {
                Ok(BlobExtent { blob, offset, length, blob_length })
            },
            None => Err(ValueError),
        }
    }

    pub fn blob(self) -> (blob: BlobId)
        ensures
            blob == self.blob,
    {
        self.blob
    }

    pub fn offset(self) -> (offset: BlobOffset)
        ensures
            offset == self.offset,
    {
        self.offset
    }

    pub fn length(self) -> (length: BlobBytes)
        ensures
            length == self.length,
    {
        self.length
    }

    pub fn blob_length(self) -> (length: BlobBytes)
        ensures
            length == self.blob_length,
    {
        self.blob_length
    }

    /// Where a range of the pack stands in the blob.
    pub open spec fn located(self, range: PackRange) -> StoredRange {
        StoredRange {
            offset: Count { value: (self.offset.value + range.offset.value) as u64 },
            length: range.length,
        }
    }

    /// Where a range of the pack stands in the blob.
    pub fn locate(self, range: PackRange) -> (stored: Result<StoredRange, StoreError>)
        requires
            self.wf(),
        ensures
            match stored {
                Ok(s) => range.offset.value + range.length.value <= self.length.value && s
                    == self.located(range) && s.wf() && s.offset.value + s.length.value
                    <= self.offset.value + self.length.value,
                Err(e) => range.offset.value + range.length.value > self.length.value && e
                    == StoreError::Range,
            },
    {
        match range.offset.value.checked_add(range.length.value) {
            Some(end) => if end > self.length.value {
                return Err(StoreError::Range);
            },
            None => {
                return Err(StoreError::Range);
            },
        }
        let start: u64 = self.offset.value + range.offset.value;
        valued(StoredRange::new(Count { value: start }, range.length))
    }

    /// Whether two extents are the same.
    pub fn same(&self, other: &BlobExtent) -> (same: bool)
        ensures
            same == (*self == *other),
    {
        self.blob.same(&other.blob) && self.offset.value == other.offset.value && self.length.value
            == other.length.value && self.blob_length.value == other.blob_length.value
    }
}

/// One place of a pack, and its identity.
#[derive(Clone, Copy, Debug, PartialEq, Eq)]
pub struct Representation {
    pub id: RepresentationId,
    pub extent: BlobExtent,
}

/// What the identity of a representation covers.
pub open spec fn representation_input(pack: PackId, extent: BlobExtent) -> Seq<u8> {
    REPRESENTATION_DOMAIN@ + pack.bytes@ + extent.blob.bytes@ + bytes::le(extent.offset.value as nat, 8)
        + bytes::le(extent.length.value as nat, 8)
}

impl Representation {
    pub fn new(pack: PackId, extent: BlobExtent) -> (representation: Self)
        ensures
            representation.extent == extent,
            digest::names(representation.id, representation_input(pack, extent)),
    {
        let mut input: Vec<u8> = Vec::new();
        append(&mut input, REPRESENTATION_DOMAIN.as_slice());
        append(&mut input, pack.bytes.as_slice());
        append(&mut input, extent.blob.bytes.as_slice());
        u64_bytes(&mut input, extent.offset.value);
        u64_bytes(&mut input, extent.length.value);
        assert(input@ =~= representation_input(pack, extent));
        Representation { id: identify(input.as_slice()), extent }
    }

    /// The record of a representation.
    pub open spec fn record(self) -> Seq<u8> {
        self.id.bytes@ + self.extent.blob.bytes@ + bytes::le(self.extent.offset.value as nat, 8) + bytes::le(
            self.extent.length.value as nat,
            8,
        ) + bytes::le(self.extent.blob_length.value as nat, 8)
    }
}

/// Where a pack stands: each place, the preferred one first.
#[verifier::ext_equal]
pub struct PlacementsModel {
    pub pack: PackId,
    pub length: u64,
    pub cohort: Seq<u8>,
    pub representations: Seq<Representation>,
}

/// Some representation in the list has this identity.
pub open spec fn represented(list: Seq<Representation>, id: RepresentationId) -> bool {
    exists|i: int| 0 <= i < list.len() && (#[trigger] list[i]).id == id
}

/// A representation of a pack of this length that a placement may hold.
pub open spec fn placeable(pack: PackId, length: u64, representation: Representation) -> bool {
    &&& representation.extent.wf()
    &&& representation.extent.length.value == length
    &&& representation.extent.offset.value >= BLOB_HEADER
    &&& digest::names(representation.id, representation_input(pack, representation.extent))
}

/// The records of the representations from place `i` on.
pub open spec fn representations_bytes(list: Seq<Representation>, i: int) -> Seq<u8>
    decreases list.len() - i,
{
    if i >= list.len() {
        Seq::empty()
    } else {
        list[i].record() + representations_bytes(list, i + 1)
    }
}

impl PlacementsModel {
    /// From 1 to 64 different places, each of them sound.
    pub open spec fn wf(self) -> bool {
        &&& self.cohort.len() == 32
        &&& 1 <= self.representations.len() <= MAX_REPRESENTATIONS
        &&& forall|i: int|
            0 <= i < self.representations.len() ==> placeable(
                self.pack,
                self.length,
                #[trigger] self.representations[i],
            )
        &&& forall|i: int, j: int|
            0 <= i < j < self.representations.len() ==> (#[trigger] self.representations[i]).id != (
            #[trigger] self.representations[j]).id
    }

    /// The encoding of a placement.
    pub open spec fn record(self) -> Seq<u8> {
        PLACEMENT_MAGIC@ + self.pack.bytes@ + bytes::le(self.length as nat, 8) + self.cohort + bytes::le(
            self.representations.len(),
            4,
        ) + representations_bytes(self.representations, 0)
    }

    /// A new place comes first, and a place that is already there is not kept
    /// twice.
    pub open spec fn with(self, representation: Representation) -> PlacementsModel {
        PlacementsModel {
            representations: seq![representation] + without(
                self.representations,
                representation.id,
                0,
            ),
            ..self
        }
    }
}

/// The representations from place `i` on, but for those with this identity.
pub open spec fn without(list: Seq<Representation>, id: RepresentationId, i: int) -> Seq<
    Representation,
>
    decreases list.len() - i,
{
    if i >= list.len() {
        Seq::empty()
    } else if list[i].id == id {
        without(list, id, i + 1)
    } else {
        seq![list[i]] + without(list, id, i + 1)
    }
}

/// Reading a representation of a pack of this length.
pub open spec fn representation_at(
    pack: PackId,
    length: u64,
    bytes: Seq<u8>,
    position: int,
) -> Result<(Representation, int), StoreError> {
    match wire::take_at(bytes, position, 32) {
        Err(error) => Err(error),
        Ok((id, p)) => match wire::take_at(bytes, p, 32) {
            Err(error) => Err(error),
            Ok((blob, p)) => match wire::number_at(bytes, p, 8) {
                Err(error) => Err(error),
                Ok((offset, p)) => match wire::number_at(bytes, p, 8) {
                    Err(error) => Err(error),
                    Ok((count, p)) => match wire::number_at(bytes, p, 8) {
                        Err(error) => Err(error),
                        Ok((total, p)) => {
                            let extent = BlobExtent {
                                blob: frame::id_of(blob),
                                offset: Count { value: offset as u64 },
                                length: Count { value: count as u64 },
                                blob_length: Count { value: total as u64 },
                            };
                            let representation = Representation { id: frame::id_of(id), extent };
                            if !extent.wf() || count != length {
                                Err(StoreError::Value(ValueError))
                            } else if !placeable(pack, length, representation) {
                                Err(StoreError::Corrupt(0))
                            } else {
                                Ok((representation, p))
                            }
                        },
                    },
                },
            },
        },
    }
}

/// Reading `count` different representations after those in `seen`.
pub open spec fn representations_from(
    pack: PackId,
    length: u64,
    bytes: Seq<u8>,
    position: int,
    count: nat,
    seen: Seq<Representation>,
) -> Result<(Seq<Representation>, int), StoreError>
    decreases count,
{
    if count == 0 {
        Ok((seen, position))
    } else {
        match representation_at(pack, length, bytes, position) {
            Err(error) => Err(error),
            Ok((representation, p)) => if represented(seen, representation.id) {
                Err(StoreError::Corrupt(0))
            } else {
                representations_from(
                    pack,
                    length,
                    bytes,
                    p,
                    (count - 1) as nat,
                    seen.push(representation),
                )
            },
        }
    }
}

/// The placement of a pack that an encoding holds, or why it holds none.
pub open spec fn placements_parse(pack: PackId, bytes: Seq<u8>) -> Result<
    PlacementsModel,
    StoreError,
> {
    match wire::take_at(bytes, 0, 8) {
        Err(error) => Err(error),
        Ok((magic, p)) => if magic != PLACEMENT_MAGIC@ {
            Err(StoreError::Corrupt(0))
        } else {
            match wire::take_at(bytes, p, 32) {
                Err(error) => Err(error),
                Ok((named, p)) => if named != pack.bytes@ {
                    Err(StoreError::Corrupt(0))
                } else {
                    match wire::number_at(bytes, p, 8) {
                        Err(error) => Err(error),
                        Ok((length, p)) => match wire::take_at(bytes, p, 32) {
                            Err(error) => Err(error),
                            Ok((cohort, p)) => placements_parse_list(
                                pack,
                                length as u64,
                                cohort,
                                bytes,
                                p,
                            ),
                        },
                    }
                },
            }
        },
    }
}

pub open spec fn placements_parse_list(
    pack: PackId,
    length: u64,
    cohort: Seq<u8>,
    bytes: Seq<u8>,
    position: int,
) -> Result<PlacementsModel, StoreError> {
    match wire::number_at(bytes, position, 4) {
        Err(error) => Err(error),
        Ok((count, p)) => if count == 0 || count > MAX_REPRESENTATIONS {
            Err(StoreError::Range)
        } else {
            match representations_from(pack, length, bytes, p, count, Seq::empty()) {
                Err(error) => Err(error),
                Ok((representations, p)) => match wire::finish_at(bytes, p) {
                    Err(error) => Err(error),
                    Ok(_) => Ok(PlacementsModel { pack, length, cohort, representations }),
                },
            }
        },
    }
}

/// Where a pack stands, and the cohort of packs that it changes with.
#[derive(Debug, PartialEq, Eq)]
pub struct Placements {
    pub pack: PackId,
    pub length: StoredBytes,
    pub cohort: [u8; 32],
    pub representations: Vec<Representation>,
}

impl View for Placements {
    type V = PlacementsModel;

    open spec fn view(&self) -> PlacementsModel {
        PlacementsModel {
            pack: self.pack,
            length: self.length.value,
            cohort: self.cohort@,
            representations: self.representations@,
        }
    }
}

impl Placements {
    /// The place that reads use.
    pub fn preferred(&self) -> (representation: &Representation)
        requires
            self@.representations.len() > 0,
        ensures
            *representation == self@.representations[0],
    {
        &self.representations[0]
    }

    /// Adds a place and prefers it. A place of another length is refused; one
    /// place too many is an error, with the place added.
    pub fn add(&mut self, extent: BlobExtent) -> (done: Result<(), StoreError>)
        ensures
            if extent.length.value != old(self)@.length {
                done == Err::<(), StoreError>(StoreError::IdentityMismatch) && final(self)@
                    == old(self)@
            } else {
                exists|r: Representation|
                    #![trigger digest::names(r.id, representation_input(old(self)@.pack, extent))]
                    digest::names(r.id, representation_input(old(self)@.pack, extent)) && r.extent == extent
                        && final(self)@ == old(self)@.with(r) && done == if final(
                        self)@.representations.len() > MAX_REPRESENTATIONS {
                        Err::<(), StoreError>(StoreError::Range)
                    } else {
                        Ok::<(), StoreError>(())
                    }
            },
    {
        if extent.length.value != self.length.value {
            return Err(StoreError::IdentityMismatch);
        }
        let representation: Representation = Representation::new(self.pack, extent);
        let mut kept: Vec<Representation> = Vec::new();
        kept.push(representation);
        let ghost goal = seq![representation] + without(
            self.representations@,
            representation.id,
            0,
        );
        let mut i: usize = 0;
        proof {
            assert(kept@ =~= seq![representation]);
        }
        while i < self.representations.len()
            invariant
                i <= self.representations@.len(),
                goal == kept@ + without(self.representations@, representation.id, i as int),
                self.representations@ == old(self)@.representations,
                self@ == old(self)@,
            decreases self.representations.len() - i,
        {
            let old_one: Representation = self.representations[i];
            let ghost now = kept@;
            if !old_one.id.same(&representation.id) {
                kept.push(old_one);
                proof {
                    let rest = without(self.representations@, representation.id, i as int + 1);
                    assert(now + (seq![old_one] + rest) =~= kept@ + rest);
                }
            }
            i += 1;
        }
        proof {
            assert(kept@ + without(self.representations@, representation.id, i as int) =~= kept@);
            assert(digest::names(representation.id, representation_input(old(self)@.pack, extent)));
        }
        self.representations = kept;
        assert(self@ =~= old(self)@.with(representation));
        if self.representations.len() > MAX_REPRESENTATIONS {
            return Err(StoreError::Range);
        }
        Ok(())
    }

    /// Encodes the placement.
    pub fn encode(&self) -> (bytes: Vec<u8>)
        requires
            self@.representations.len() <= u32::MAX,
        ensures
            bytes@ == self@.record(),
    {
        let mut bytes: Vec<u8> = Vec::new();
        append(&mut bytes, PLACEMENT_MAGIC.as_slice());
        append(&mut bytes, self.pack.bytes.as_slice());
        u64_bytes(&mut bytes, self.length.value);
        append(&mut bytes, self.cohort.as_slice());
        u32_bytes(&mut bytes, self.representations.len() as u32);
        let ghost fixed = bytes@;
        let mut i: usize = 0;
        while i < self.representations.len()
            invariant
                i <= self.representations@.len(),
                fixed + representations_bytes(self.representations@, 0) == bytes@
                    + representations_bytes(self.representations@, i as int),
            decreases self.representations.len() - i,
        {
            let ghost now = bytes@;
            let representation: Representation = self.representations[i];
            append(&mut bytes, representation.id.bytes.as_slice());
            append(&mut bytes, representation.extent.blob.bytes.as_slice());
            u64_bytes(&mut bytes, representation.extent.offset.value);
            u64_bytes(&mut bytes, representation.extent.length.value);
            u64_bytes(&mut bytes, representation.extent.blob_length.value);
            proof {
                let rest = representations_bytes(self.representations@, i as int + 1);
                assert(bytes@ =~= now + representation.record());
                assert(now + (representation.record() + rest) =~= bytes@ + rest);
            }
            i += 1;
        }
        assert(bytes@ + representations_bytes(self.representations@, i as int) =~= bytes@);
        bytes
    }

    /// The placement of a pack that these bytes hold.
    pub fn decode(pack: PackId, bytes: &[u8]) -> (placements: Result<Self, StoreError>)
        ensures
            match placements {
                Ok(p) => placements_parse(pack, bytes@) == Ok::<PlacementsModel, StoreError>(p@)
                    && p@.wf() && p@.pack == pack,
                Err(e) => placements_parse(pack, bytes@) == Err::<PlacementsModel, StoreError>(e),
            },
    {
        let mut wire: Decoder = Decoder::new(bytes);
        if !same_bytes(wire.take(8)?, PLACEMENT_MAGIC.as_slice()) {
            return Err(StoreError::Corrupt(0));
        }
        let named: [u8; 32] = wire.array()?;
        if !same_bytes(named.as_slice(), pack.bytes.as_slice()) {
            return Err(StoreError::Corrupt(0));
        }
        let length: u64 = wire.u64()?;
        let cohort: [u8; 32] = wire.array()?;
        let count: u32 = wire.u32()?;
        if count == 0 || count > MAX_REPRESENTATIONS as u32 {
            return Err(StoreError::Range);
        }
        let representations: Vec<Representation> = decode_representations(
            pack,
            length,
            count,
            &mut wire,
        )?;
        wire.finish()?;
        Ok(Placements { pack, length: Count { value: length }, cohort, representations })
    }

    /// Another copy of the placement.
    pub fn duplicate(&self) -> (copy: Placements)
        ensures
            copy@ == self@,
    {
        let mut representations: Vec<Representation> = Vec::new();
        let mut i: usize = 0;
        while i < self.representations.len()
            invariant
                i <= self.representations@.len(),
                representations@ == self.representations@.take(i as int),
            decreases self.representations.len() - i,
        {
            representations.push(self.representations[i]);
            i += 1;
            assert(representations@ =~= self.representations@.take(i as int));
        }
        assert(representations@ =~= self.representations@);
        Placements { pack: self.pack, length: self.length, cohort: self.cohort, representations }
    }
}

fn decode_representation(pack: PackId, length: u64, wire: &mut Decoder) -> (representation: Result<
    Representation,
    StoreError,
>)
    requires
        old(wire).wf(),
    ensures
        final(wire).wf(),
        final(wire).bytes@ == old(wire).bytes@,
        match representation {
            Ok(r) => representation_at(pack, length, old(wire).bytes@, old(wire).position as int)
                == Ok::<(Representation, int), StoreError>((r, final(wire).position as int))
                && placeable(pack, length, r),
            Err(e) => representation_at(pack, length, old(wire).bytes@, old(wire).position as int)
                == Err::<(Representation, int), StoreError>(e),
        },
{
    let id: RepresentationId = Id { bytes: wire.array()? };
    let blob: BlobId = Id { bytes: wire.array()? };
    let offset: u64 = wire.u64()?;
    let count: u64 = wire.u64()?;
    let total: u64 = wire.u64()?;
    proof {
        frame::lemma_id_of(id);
        frame::lemma_id_of(blob);
    }
    let extent: BlobExtent = valued(
        BlobExtent::new(
            blob,
            Count { value: offset },
            Count { value: count },
            Count { value: total },
            Count { value: length },
        ),
    )?;
    let derived: Representation = Representation::new(pack, extent);
    let same: bool = derived.id.same(&id);
    proof {
        if digest::names(id, representation_input(pack, extent)) {
            crate::domain::lemma_id_extensional(id, derived.id);
        }
    }
    if offset < BLOB_HEADER || !same {
        return Err(StoreError::Corrupt(0));
    }
    Ok(Representation { id, extent })
}

fn decode_representations(pack: PackId, length: u64, count: u32, wire: &mut Decoder) -> (list:
    Result<Vec<Representation>, StoreError>)
    requires
        old(wire).wf(),
    ensures
        final(wire).wf(),
        final(wire).bytes@ == old(wire).bytes@,
        match list {
            Ok(l) => representations_from(
                pack,
                length,
                old(wire).bytes@,
                old(wire).position as int,
                count as nat,
                Seq::empty(),
            ) == Ok::<(Seq<Representation>, int), StoreError>((l@, final(wire).position as int))
                && l@.len() == count && (forall|i: int|
                0 <= i < l@.len() ==> placeable(pack, length, #[trigger] l@[i])) && (forall|
                i: int,
                j: int,
            |
                0 <= i < j < l@.len() ==> (#[trigger] l@[i]).id != (#[trigger] l@[j]).id),
            Err(e) => representations_from(
                pack,
                length,
                old(wire).bytes@,
                old(wire).position as int,
                count as nat,
                Seq::empty(),
            ) == Err::<(Seq<Representation>, int), StoreError>(e),
        },
{
    let mut list: Vec<Representation> = Vec::new();
    let mut ids: OrderedSet<RepresentationId> = OrderedSet::new();
    let mut i: u32 = 0;
    let ghost goal = representations_from(
        pack,
        length,
        wire.bytes@,
        wire.position as int,
        count as nat,
        Seq::<Representation>::empty(),
    );
    assert(list@ =~= Seq::<Representation>::empty());
    while i < count
        invariant
            i <= count,
            wire.wf(),
            wire.bytes@ == old(wire).bytes@,
            list@.len() == i,
            goal == representations_from(
                pack,
                length,
                old(wire).bytes@,
                old(wire).position as int,
                count as nat,
                Seq::<Representation>::empty(),
            ),
            goal == representations_from(
                pack,
                length,
                wire.bytes@,
                wire.position as int,
                (count - i) as nat,
                list@,
            ),
            forall|j: int| 0 <= j < i ==> placeable(pack, length, #[trigger] list@[j]),
            forall|a: int, b: int|
                0 <= a < b < i ==> (#[trigger] list@[a]).id != (#[trigger] list@[b]).id,
            forall|id: RepresentationId|
                #[trigger] ids@.contains(id) <==> represented(list@, id),
        decreases count - i,
    {
        let representation: Representation = decode_representation(pack, length, wire)?;
        let ghost before = list@;
        if !ids.insert(representation.id) {
            return Err(StoreError::Corrupt(0));
        }
        list.push(representation);
        i += 1;
        proof {
            assert forall|id: RepresentationId|
                #[trigger] ids@.contains(id) <==> represented(list@, id) by {
                if represented(before, id) {
                    let j = choose|j: int| 0 <= j < before.len() && (#[trigger] before[j]).id
                        == id;
                    assert(list@[j].id == id);
                }
                if represented(list@, id) {
                    let j = choose|j: int| 0 <= j < list@.len() && (#[trigger] list@[j]).id == id;
                    if j < before.len() {
                        assert(before[j].id == id);
                    }
                }
                if id == representation.id {
                    assert(list@[before.len() as int].id == id);
                }
            }
            assert forall|a: int, b: int| 0 <= a < b < i implies (#[trigger] list@[a]).id != (
            #[trigger] list@[b]).id by {
                if b == i - 1 && list@[a].id == list@[b].id {
                    assert(before[a].id == representation.id);
                    assert(represented(before, representation.id));
                }
            }
        }
    }
    Ok(list)
}

proof fn lemma_representation_parse(
    pack: PackId,
    length: u64,
    before: Seq<u8>,
    representation: Representation,
    after: Seq<u8>,
)
    requires
        placeable(pack, length, representation),
        (before + representation.record() + after).len() <= usize::MAX,
    ensures
        representation.record().len() == 88,
        representation_at(
            pack,
            length,
            before + representation.record() + after,
            before.len() as int,
        ) == Ok::<(Representation, int), StoreError>((representation, before.len() as int + 88)),
{
    let whole = before + representation.record() + after;
    let p = before.len() as int;
    let extent = representation.extent;
    crate::bytes::lemma_le_len(extent.offset.value as nat, 8);
    crate::bytes::lemma_le_len(extent.length.value as nat, 8);
    crate::bytes::lemma_le_len(extent.blob_length.value as nat, 8);
    crate::bytes::lemma_le_bounds();
    crate::bytes::law_le_round_trip(extent.offset.value as nat, 8);
    crate::bytes::law_le_round_trip(extent.length.value as nat, 8);
    crate::bytes::law_le_round_trip(extent.blob_length.value as nat, 8);
    frame::lemma_id_of(representation.id);
    frame::lemma_id_of(extent.blob);
    assert(whole.subrange(p, p + 32) =~= representation.id.bytes@);
    assert(whole.subrange(p + 32, p + 64) =~= extent.blob.bytes@);
    assert(whole.subrange(p + 64, p + 72) =~= bytes::le(extent.offset.value as nat, 8));
    assert(whole.subrange(p + 72, p + 80) =~= bytes::le(extent.length.value as nat, 8));
    assert(whole.subrange(p + 80, p + 88) =~= bytes::le(extent.blob_length.value as nat, 8));
}

proof fn lemma_representations_parse(
    pack: PackId,
    length: u64,
    before: Seq<u8>,
    list: Seq<Representation>,
    i: int,
)
    requires
        0 <= i <= list.len(),
        forall|j: int| 0 <= j < list.len() ==> placeable(pack, length, #[trigger] list[j]),
        forall|a: int, b: int|
            0 <= a < b < list.len() ==> (#[trigger] list[a]).id != (#[trigger] list[b]).id,
        (before + representations_bytes(list, i)).len() <= usize::MAX,
    ensures
        representations_from(
            pack,
            length,
            before + representations_bytes(list, i),
            before.len() as int,
            (list.len() - i) as nat,
            list.take(i),
        ) == Ok::<(Seq<Representation>, int), StoreError>(
            (list, (before + representations_bytes(list, i)).len() as int),
        ),
    decreases list.len() - i,
{
    let whole = before + representations_bytes(list, i);
    if i == list.len() {
        assert(list.take(i) =~= list);
    } else {
        let one = list[i];
        let rest = representations_bytes(list, i + 1);
        assert(whole =~= before + one.record() + rest);
        lemma_representation_parse(pack, length, before, one, rest);
        assert(whole =~= (before + one.record()) + rest);
        lemma_representations_parse(pack, length, before + one.record(), list, i + 1);
        assert(list.take(i).push(one) =~= list.take(i + 1));
        if represented(list.take(i), one.id) {
            let j = choose|j: int| 0 <= j < i && (#[trigger] list.take(i)[j]).id == one.id;
            assert(list[j].id == list[i].id);
        }
    }
}

/// Decoding the encoding of a valid placement gives the placement back.
pub proof fn law_placements_round_trip(model: PlacementsModel)
    requires
        model.wf(),
        model.record().len() <= usize::MAX,
    ensures
        placements_parse(model.pack, model.record()) == Ok::<PlacementsModel, StoreError>(model),
{
    let whole = model.record();
    let count = model.representations.len();
    crate::bytes::lemma_le_len(model.length as nat, 8);
    crate::bytes::lemma_le_len(count, 4);
    crate::bytes::lemma_le_bounds();
    crate::bytes::law_le_round_trip(model.length as nat, 8);
    crate::bytes::law_le_round_trip(count, 4);
    let list = representations_bytes(model.representations, 0);
    let fixed = PLACEMENT_MAGIC@ + model.pack.bytes@ + bytes::le(model.length as nat, 8) + model.cohort
        + bytes::le(count, 4);
    assert(whole == fixed + list);
    assert(whole.subrange(0, 8) =~= PLACEMENT_MAGIC@);
    assert(whole.subrange(8, 40) =~= model.pack.bytes@);
    assert(whole.subrange(40, 48) =~= bytes::le(model.length as nat, 8));
    assert(whole.subrange(48, 80) =~= model.cohort);
    assert(whole.subrange(80, 84) =~= bytes::le(count, 4));
    lemma_representations_parse(model.pack, model.length, fixed, model.representations, 0);
    assert(model.representations.take(0) =~= Seq::<Representation>::empty());
}

proof fn lemma_representations_of_part(
    pack: PackId,
    length: u64,
    part: Seq<u8>,
    whole: Seq<u8>,
    position: int,
    count: nat,
    seen: Seq<Representation>,
)
    requires
        part.len() <= whole.len(),
        part == whole.subrange(0, part.len() as int),
        0 <= position,
    ensures
        representations_from(pack, length, part, position, count, seen) is Ok
            ==> representations_from(pack, length, whole, position, count, seen)
            == representations_from(pack, length, part, position, count, seen),
    decreases count,
{
    if count > 0 {
        crate::wire::lemma_take_of_part(part, whole, position, 32);
        crate::wire::lemma_take_of_part(part, whole, position + 32, 32);
        crate::wire::lemma_take_of_part(part, whole, position + 64, 8);
        crate::wire::lemma_take_of_part(part, whole, position + 72, 8);
        crate::wire::lemma_take_of_part(part, whole, position + 80, 8);
        match representation_at(pack, length, part, position) {
            Ok((representation, p)) => {
                lemma_representations_of_part(
                    pack,
                    length,
                    part,
                    whole,
                    p,
                    (count - 1) as nat,
                    seen.push(representation),
                );
            },
            Err(_) => {},
        }
    }
}

proof fn lemma_one_length(pack: PackId, part: Seq<u8>, whole: Seq<u8>)
    requires
        part.len() < whole.len(),
        part == whole.subrange(0, part.len() as int),
        placements_parse(pack, part) is Ok,
    ensures
        placements_parse(pack, whole) is Err,
{
    crate::wire::lemma_take_of_part(part, whole, 0, 8);
    crate::wire::lemma_take_of_part(part, whole, 8, 32);
    crate::wire::lemma_take_of_part(part, whole, 40, 8);
    crate::wire::lemma_take_of_part(part, whole, 48, 32);
    crate::wire::lemma_take_of_part(part, whole, 80, 4);
    let length = wire::number_at(part, 40, 8)->Ok_0.0 as u64;
    let count = wire::number_at(part, 80, 4)->Ok_0.0;
    lemma_representations_of_part(pack, length, part, whole, 84, count, Seq::empty());
}

/// An encoding of a placement that lost bytes at its end is refused, and so is one
/// with bytes after its end.
pub proof fn law_placements_take_their_whole_record(model: PlacementsModel, bytes: Seq<u8>)
    requires
        model.wf(),
        model.record().len() <= usize::MAX,
        bytes.is_prefix_of(model.record()) || model.record().is_prefix_of(bytes),
        bytes != model.record(),
    ensures
        placements_parse(model.pack, bytes) is Err,
{
    let record = model.record();
    law_placements_round_trip(model);
    assert(bytes.len() != record.len()) by {
        if bytes.len() == record.len() {
            assert(bytes =~= record);
        }
    }
    if record.is_prefix_of(bytes) {
        lemma_one_length(model.pack, record, bytes);
    } else if placements_parse(model.pack, bytes) is Ok {
        lemma_one_length(model.pack, bytes, record);
    }
}

} // verus!
