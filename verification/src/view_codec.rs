//! Decoding of views.

use crate::bytes;
use crate::bytes::same_bytes;
use crate::codec;
use crate::digest;
use crate::domain::{
    ContentRoot, Count, DICTIONARY, DatabaseId, DictionaryId, FRAME, FrameId, FrameSlot,
    HistoryHash, Id, LineageId, LogicalBytes, PACK, PackId, PageNumber, PageSize, StoredRange,
    TransactionId, ValueError, ViewHash,
};
use crate::error::{StoreError, valued};
use crate::frame;
use crate::frame::FrameMetadata;
use crate::order;
use crate::order::{Key, OrderedMap};
use crate::placement::PackRange;
use crate::validation;
use crate::validation::ValidatedMetadata;
use crate::view;
use crate::view::{
    FrameLocation, LocationModel, MAX_PREFERRED, StoredPage, VIEW_LIMIT, ViewMetadata, ViewModel,
};
use crate::wire;
use crate::wire::{Decoder, envelope, open_envelope};
use vstd::prelude::*;

verus! {

/// `ZVIEW001`.
pub const VIEW_MAGIC: [u8; 8] = [90, 86, 73, 69, 87, 48, 48, 49];

/// The identity in the next 32 bytes.
pub open spec fn id_at<const KIND: u8>(bytes: Seq<u8>, position: int) -> Result<
    (Id<KIND>, int),
    StoreError,
> {
    match wire::take_at(bytes, position, 32) {
        Err(error) => Err(error),
        Ok((taken, p)) => Ok((frame::id_of(taken), p)),
    }
}

/// Reads an identity.
pub fn read_id<const KIND: u8>(wire: &mut Decoder) -> (id: Result<Id<KIND>, StoreError>)
    requires
        old(wire).wf(),
    ensures
        final(wire).wf(),
        final(wire).bytes@ == old(wire).bytes@,
        match id {
            Ok(i) => id_at::<KIND>(old(wire).bytes@, old(wire).position as int) == Ok::<
                (Id<KIND>, int),
                StoreError,
            >((i, final(wire).position as int)),
            Err(e) => id_at::<KIND>(old(wire).bytes@, old(wire).position as int) == Err::<
                (Id<KIND>, int),
                StoreError,
            >(e),
        },
{
    let id: Id<KIND> = Id { bytes: wire.array()? };
    proof {
        frame::lemma_id_of(id);
    }
    Ok(id)
}

/// Reading the size of a database: its page size, then its bytes.
pub open spec fn size_at(bytes: Seq<u8>, position: int) -> Result<(LogicalBytes, int), StoreError> {
    match wire::number_at(bytes, position, 4) {
        Err(error) => Err(error),
        Ok((page_size, p)) => if !PageSize::valid(page_size as u32) {
            Err(StoreError::Value(ValueError))
        } else {
            match wire::number_at(bytes, p, 8) {
                Err(error) => Err(error),
                Ok((total, p)) => {
                    let size = LogicalBytes {
                        bytes: total as u64,
                        page_size: PageSize { value: page_size as u32 },
                    };
                    if !size.wf() {
                        Err(StoreError::Value(ValueError))
                    } else {
                        Ok((size, p))
                    }
                },
            }
        },
    }
}

fn read_size(wire: &mut Decoder) -> (size: Result<LogicalBytes, StoreError>)
    requires
        old(wire).wf(),
    ensures
        final(wire).wf(),
        final(wire).bytes@ == old(wire).bytes@,
        match size {
            Ok(s) => size_at(old(wire).bytes@, old(wire).position as int) == Ok::<
                (LogicalBytes, int),
                StoreError,
            >((s, final(wire).position as int)) && s.wf(),
            Err(e) => size_at(old(wire).bytes@, old(wire).position as int) == Err::<
                (LogicalBytes, int),
                StoreError,
            >(e),
        },
{
    let page_size: PageSize = valued(PageSize::new(wire.u32()?))?;
    let total: u64 = wire.u64()?;
    valued(LogicalBytes::new(total, page_size))
}

/// Reading a transaction.
pub open spec fn txid_at(bytes: Seq<u8>, position: int) -> Result<(TransactionId, int), StoreError> {
    match wire::number_at(bytes, position, 8) {
        Err(error) => Err(error),
        Ok((txid, p)) => if txid == 0 {
            Err(StoreError::Value(ValueError))
        } else {
            Ok((TransactionId { value: txid as u64 }, p))
        },
    }
}

/// Reads a transaction.
pub fn read_txid(wire: &mut Decoder) -> (txid: Result<TransactionId, StoreError>)
    requires
        old(wire).wf(),
    ensures
        final(wire).wf(),
        final(wire).bytes@ == old(wire).bytes@,
        match txid {
            Ok(t) => txid_at(old(wire).bytes@, old(wire).position as int) == Ok::<
                (TransactionId, int),
                StoreError,
            >((t, final(wire).position as int)) && t.wf(),
            Err(e) => txid_at(old(wire).bytes@, old(wire).position as int) == Err::<
                (TransactionId, int),
                StoreError,
            >(e),
        },
{
    let value: u64 = wire.u64()?;
    valued(TransactionId::new(value))
}

/// The hash that 32 bytes stand for; all zeros stand for none.
pub open spec fn seal_of(bytes: Seq<u8>) -> Option<ViewHash> {
    if bytes == bytes::zeros(32) {
        None
    } else {
        Some(frame::id_of(bytes))
    }
}

/// The fixed part of a view: the view without frames, pages and dictionaries, and
/// its content root.
pub open spec fn head_at(raw: Seq<u8>) -> Result<(ViewModel, Seq<u8>, int), StoreError> {
    match id_at(raw, 0) {
        Err(error) => Err(error),
        Ok((database, p)) => match id_at(raw, p) {
            Err(error) => Err(error),
            Ok((lineage, p)) => match size_at(raw, p) {
                Err(error) => Err(error),
                Ok((size, p)) => match txid_at(raw, p) {
                    Err(error) => Err(error),
                    Ok((txid, p)) => match id_at(raw, p) {
                        Err(error) => Err(error),
                        Ok((history, p)) => match wire::take_at(raw, p, 32) {
                            Err(error) => Err(error),
                            Ok((seal, p)) => match wire::take_at(raw, p, 32) {
                                Err(error) => Err(error),
                                Ok((root, p)) => Ok(
                                    (
                                        ViewModel {
                                            database,
                                            lineage,
                                            size,
                                            txid,
                                            history,
                                            parent_seal: seal_of(seal),
                                            frames: Map::empty(),
                                            pages: Map::empty(),
                                            preferred: Seq::empty(),
                                        },
                                        root,
                                        p,
                                    ),
                                ),
                            },
                        },
                    },
                },
            },
        },
    }
}

fn read_head(wire: &mut Decoder) -> (head: Result<(ViewMetadata, ContentRoot), StoreError>)
    requires
        old(wire).wf(),
        old(wire).position == 0,
    ensures
        final(wire).wf(),
        final(wire).bytes@ == old(wire).bytes@,
        match head {
            Ok((view, root)) => head_at(old(wire).bytes@) == Ok::<
                (ViewModel, Seq<u8>, int),
                StoreError,
            >((view@, root.bytes@, final(wire).position as int)) && view@.size.wf(),
            Err(e) => head_at(old(wire).bytes@) == Err::<(ViewModel, Seq<u8>, int), StoreError>(e),
        },
{
    let database: DatabaseId = read_id(wire)?;
    let lineage: LineageId = read_id(wire)?;
    let size: LogicalBytes = read_size(wire)?;
    let txid: TransactionId = read_txid(wire)?;
    let history: HistoryHash = read_id(wire)?;
    let seal: [u8; 32] = wire.array()?;
    let root: ContentRoot = Id { bytes: wire.array()? };
    let mut view: ViewMetadata = ViewMetadata::empty(database, lineage, size, txid, history);
    let none: [u8; 32] = [0u8; 32];
    assert(none@ =~= bytes::zeros(32));
    if !same_bytes(seal.as_slice(), none.as_slice()) {
        let hash: ViewHash = Id { bytes: seal };
        proof {
            frame::lemma_id_of(hash);
        }
        view.parent_seal = Some(hash);
    }
    Ok((view, root))
}

/// Reading `count` different dictionaries after those in `seen`.
pub open spec fn preferred_from(raw: Seq<u8>, position: int, count: nat, seen: Seq<DictionaryId>) ->
    Result<(Seq<DictionaryId>, int), StoreError>
    decreases count,
{
    if count == 0 {
        Ok((seen, position))
    } else {
        match id_at::<DICTIONARY>(raw, position) {
            Err(error) => Err(error),
            Ok((id, p)) => if seen.contains(id) {
                Err(StoreError::Corrupt(0))
            } else {
                preferred_from(raw, p, (count - 1) as nat, seen.push(id))
            },
        }
    }
}

/// Reading a frame and where it stands.
pub open spec fn location_at(raw: Seq<u8>, position: int) -> Result<
    (FrameId, LocationModel, int),
    StoreError,
> {
    match id_at::<FRAME>(raw, position) {
        Err(error) => Err(error),
        Ok((id, p)) => match id_at::<PACK>(raw, p) {
            Err(error) => Err(error),
            Ok((pack, p)) => match wire::number_at(raw, p, 8) {
                Err(error) => Err(error),
                Ok((offset, p)) => match wire::number_at(raw, p, 4) {
                    Err(error) => Err(error),
                    Ok((length, p)) => match wire::take_at(raw, p, length as int) {
                        Err(error) => Err(error),
                        Ok((encoded, p)) => match frame::frame_parse(encoded, id) {
                            Err(error) => Err(error),
                            Ok(frame) => if offset + frame.payload_bytes > u64::MAX {
                                Err(StoreError::Value(ValueError))
                            } else {
                                Ok(
                                    (
                                        id,
                                        LocationModel {
                                            pack,
                                            payload: PackRange {
                                                offset: Count { value: offset as u64 },
                                                length: Count { value: frame.payload_bytes },
                                            },
                                            frame,
                                        },
                                        p,
                                    ),
                                )
                            },
                        },
                    },
                },
            },
        },
    }
}

/// Reading `count` different frames after those in `seen`.
pub open spec fn frames_from(
    raw: Seq<u8>,
    position: int,
    count: nat,
    seen: Map<FrameId, LocationModel>,
) -> Result<(Map<FrameId, LocationModel>, int), StoreError>
    decreases count,
{
    if count == 0 {
        Ok((seen, position))
    } else {
        match location_at(raw, position) {
            Err(error) => Err(error),
            Ok((id, location, p)) => if seen.dom().contains(id) {
                Err(StoreError::Corrupt(0))
            } else {
                frames_from(raw, p, (count - 1) as nat, seen.insert(id, location))
            },
        }
    }
}

/// Reading a page and its slot, which one of the frames must have.
pub open spec fn page_at(raw: Seq<u8>, position: int, frames: Map<FrameId, LocationModel>) -> Result<
    (PageNumber, StoredPage, int),
    StoreError,
> {
    match wire::number_at(raw, position, 4) {
        Err(error) => Err(error),
        Ok((page, p)) => if page == 0 {
            Err(StoreError::Value(ValueError))
        } else {
            match id_at::<FRAME>(raw, p) {
                Err(error) => Err(error),
                Ok((frame, p)) => if !frames.dom().contains(frame) {
                    Err(StoreError::Corrupt(0))
                } else {
                    match wire::number_at(raw, p, 4) {
                        Err(error) => Err(error),
                        Ok((slot, p)) => if slot >= frames[frame].frame.shape.pages {
                            Err(StoreError::Value(ValueError))
                        } else {
                            Ok(
                                (
                                    PageNumber { value: page as u32 },
                                    StoredPage { frame, slot: FrameSlot { index: slot as u32 } },
                                    p,
                                ),
                            )
                        },
                    }
                },
            }
        },
    }
}

/// Reading `count` different pages after those in `seen`.
pub open spec fn pages_from(
    raw: Seq<u8>,
    position: int,
    count: nat,
    frames: Map<FrameId, LocationModel>,
    seen: Map<PageNumber, StoredPage>,
) -> Result<(Map<PageNumber, StoredPage>, int), StoreError>
    decreases count,
{
    if count == 0 {
        Ok((seen, position))
    } else {
        match page_at(raw, position, frames) {
            Err(error) => Err(error),
            Ok((page, stored, p)) => if seen.dom().contains(page) {
                Err(StoreError::Corrupt(0))
            } else {
                pages_from(raw, p, (count - 1) as nat, frames, seen.insert(page, stored))
            },
        }
    }
}

/// The view that an encoding holds, before it is validated.
pub open spec fn draft_parse(raw: Seq<u8>) -> Result<(ViewModel, Seq<u8>), StoreError> {
    match head_at(raw) {
        Err(error) => Err(error),
        Ok((head, root, p)) => match wire::number_at(raw, p, 4) {
            Err(error) => Err(error),
            Ok((preferred, p)) => if preferred > MAX_PREFERRED {
                Err(StoreError::Corrupt(0))
            } else {
                match preferred_from(raw, p, preferred, Seq::empty()) {
                    Err(error) => Err(error),
                    Ok((preferred, p)) => draft_parse_frames(
                        raw,
                        ViewModel { preferred, ..head },
                        root,
                        p,
                    ),
                }
            },
        },
    }
}

pub open spec fn draft_parse_frames(
    raw: Seq<u8>,
    head: ViewModel,
    root: Seq<u8>,
    position: int,
) -> Result<(ViewModel, Seq<u8>), StoreError> {
    match wire::number_at(raw, position, 4) {
        Err(error) => Err(error),
        Ok((count, p)) => if count > raw.len() / 64 {
            Err(StoreError::Range)
        } else {
            match frames_from(raw, p, count, Map::empty()) {
                Err(error) => Err(error),
                Ok((frames, p)) => match wire::number_at(raw, p, 4) {
                    Err(error) => Err(error),
                    Ok((count, p)) => if count > head.size.count() || count > raw.len() / 40 {
                        Err(StoreError::Range)
                    } else {
                        match pages_from(raw, p, count, frames, Map::empty()) {
                            Err(error) => Err(error),
                            Ok((pages, p)) => match wire::finish_at(raw, p) {
                                Err(error) => Err(error),
                                Ok(_) => Ok((ViewModel { frames, pages, ..head }, root)),
                            },
                        }
                    },
                },
            }
        },
    }
}

/// The view that an encoding holds, or why it holds none. The encoding must be as
/// long as the view's own, and name its content root.
pub open spec fn raw_parse(raw: Seq<u8>) -> Result<ViewModel, StoreError> {
    match draft_parse(raw) {
        Err(error) => Err(error),
        Ok((view, root)) => match validation::view_check(view) {
            Err(error) => Err(error),
            Ok(length) => if length != raw.len() || root != digest::content_hash(view.content_input()) {
                Err(StoreError::Corrupt(0))
            } else {
                Ok(view)
            },
        },
    }
}

fn read_preferred(wire: &mut Decoder, count: u32) -> (preferred: Result<
    Vec<DictionaryId>,
    StoreError,
>)
    requires
        old(wire).wf(),
    ensures
        final(wire).wf(),
        final(wire).bytes@ == old(wire).bytes@,
        match preferred {
            Ok(v) => preferred_from(
                old(wire).bytes@,
                old(wire).position as int,
                count as nat,
                Seq::empty(),
            ) == Ok::<(Seq<DictionaryId>, int), StoreError>((v@, final(wire).position as int)),
            Err(e) => preferred_from(
                old(wire).bytes@,
                old(wire).position as int,
                count as nat,
                Seq::empty(),
            ) == Err::<(Seq<DictionaryId>, int), StoreError>(e),
        },
{
    let mut list: Vec<DictionaryId> = Vec::new();
    let mut i: u32 = 0;
    let ghost goal = preferred_from(
        wire.bytes@,
        wire.position as int,
        count as nat,
        Seq::<DictionaryId>::empty(),
    );
    assert(list@ =~= Seq::<DictionaryId>::empty());
    while i < count
        invariant
            i <= count,
            wire.wf(),
            wire.bytes@ == old(wire).bytes@,
            list@.len() == i,
            goal == preferred_from(
                old(wire).bytes@,
                old(wire).position as int,
                count as nat,
                Seq::<DictionaryId>::empty(),
            ),
            goal == preferred_from(
                wire.bytes@,
                wire.position as int,
                (count - i) as nat,
                list@,
            ),
        decreases count - i,
    {
        let id: DictionaryId = read_id(wire)?;
        let mut j: usize = 0;
        while j < list.len()
            invariant
                j <= list@.len(),
                wire.wf(),
                forall|k: int| 0 <= k < j ==> list@[k] != id,
                i < count,
                goal == preferred_from(
                    old(wire).bytes@,
                    old(wire).position as int,
                    count as nat,
                    Seq::<DictionaryId>::empty(),
                ),
                goal == if list@.contains(id) {
                    Err(StoreError::Corrupt(0))
                } else {
                    preferred_from(
                        wire.bytes@,
                        wire.position as int,
                        (count - i - 1) as nat,
                        list@.push(id),
                    )
                },
                wire.bytes@ == old(wire).bytes@,
            decreases list.len() - j,
        {
            if list[j].same(&id) {
                assert(list@[j as int] == id);
                return Err(StoreError::Corrupt(0));
            }
            j += 1;
        }
        list.push(id);
        i += 1;
    }
    Ok(list)
}

fn read_location(wire: &mut Decoder) -> (location: Result<(FrameId, FrameLocation), StoreError>)
    requires
        old(wire).wf(),
    ensures
        final(wire).wf(),
        final(wire).bytes@ == old(wire).bytes@,
        match location {
            Ok((id, l)) => location_at(old(wire).bytes@, old(wire).position as int) == Ok::<
                (FrameId, LocationModel, int),
                StoreError,
            >((id, l@, final(wire).position as int)) && l@.frame.wf(),
            Err(e) => location_at(old(wire).bytes@, old(wire).position as int) == Err::<
                (FrameId, LocationModel, int),
                StoreError,
            >(e),
        },
{
    let id: FrameId = read_id(wire)?;
    let pack: PackId = read_id(wire)?;
    let offset: u64 = wire.u64()?;
    let length: u32 = wire.u32()?;
    let metadata: FrameMetadata = FrameMetadata::decode(wire.take(length as usize)?, id)?;
    let range: StoredRange = valued(
        StoredRange::new(Count { value: offset }, metadata.payload_bytes()),
    )?;
    let payload: PackRange = PackRange::stored(range)?;
    let location: FrameLocation = FrameLocation::new(pack, payload, metadata);
    assert(location@.payload == (PackRange {
        offset: Count { value: offset },
        length: Count { value: location@.frame.payload_bytes },
    }));
    Ok((id, location))
}

fn read_frames(wire: &mut Decoder, count: u32) -> (frames: Result<
    OrderedMap<FrameId, FrameLocation>,
    StoreError,
>)
    requires
        old(wire).wf(),
    ensures
        final(wire).wf(),
        final(wire).bytes@ == old(wire).bytes@,
        match frames {
            Ok(f) => frames_from(
                old(wire).bytes@,
                old(wire).position as int,
                count as nat,
                Map::empty(),
            ) == Ok::<(Map<FrameId, LocationModel>, int), StoreError>(
                (f@, final(wire).position as int),
            ),
            Err(e) => frames_from(
                old(wire).bytes@,
                old(wire).position as int,
                count as nat,
                Map::empty(),
            ) == Err::<(Map<FrameId, LocationModel>, int), StoreError>(e),
        },
{
    let mut frames: OrderedMap<FrameId, FrameLocation> = OrderedMap::new();
    let mut i: u32 = 0;
    let ghost goal = frames_from(
        wire.bytes@,
        wire.position as int,
        count as nat,
        Map::<FrameId, LocationModel>::empty(),
    );
    while i < count
        invariant
            i <= count,
            wire.wf(),
            wire.bytes@ == old(wire).bytes@,
            goal == frames_from(
                old(wire).bytes@,
                old(wire).position as int,
                count as nat,
                Map::<FrameId, LocationModel>::empty(),
            ),
            goal == frames_from(wire.bytes@, wire.position as int, (count - i) as nat, frames@),
        decreases count - i,
    {
        let (id, location) = read_location(wire)?;
        if !frames.insert(id, location) {
            return Err(StoreError::Corrupt(0));
        }
        i += 1;
    }
    Ok(frames)
}

fn read_page(wire: &mut Decoder, frames: &OrderedMap<FrameId, FrameLocation>) -> (page: Result<
    (PageNumber, StoredPage),
    StoreError,
>)
    requires
        old(wire).wf(),
    ensures
        final(wire).wf(),
        final(wire).bytes@ == old(wire).bytes@,
        match page {
            Ok((n, s)) => page_at(old(wire).bytes@, old(wire).position as int, frames@) == Ok::<
                (PageNumber, StoredPage, int),
                StoreError,
            >((n, s, final(wire).position as int)),
            Err(e) => page_at(old(wire).bytes@, old(wire).position as int, frames@) == Err::<
                (PageNumber, StoredPage, int),
                StoreError,
            >(e),
        },
{
    let page: PageNumber = valued(PageNumber::new(wire.u32()?))?;
    let frame: FrameId = read_id(wire)?;
    match frames.get(&frame) {
        None => Err(StoreError::Corrupt(0)),
        Some(location) => {
            let slot: FrameSlot = valued(location.metadata().shape().slot(wire.u32()?))?;
            Ok((page, StoredPage { frame, slot }))
        },
    }
}

fn read_pages(wire: &mut Decoder, count: u32, frames: &OrderedMap<FrameId, FrameLocation>) -> (pages:
    Result<OrderedMap<PageNumber, StoredPage>, StoreError>)
    requires
        old(wire).wf(),
    ensures
        final(wire).wf(),
        final(wire).bytes@ == old(wire).bytes@,
        match pages {
            Ok(f) => pages_from(
                old(wire).bytes@,
                old(wire).position as int,
                count as nat,
                frames@,
                Map::empty(),
            ) == Ok::<(Map<PageNumber, StoredPage>, int), StoreError>(
                (f@, final(wire).position as int),
            ),
            Err(e) => pages_from(
                old(wire).bytes@,
                old(wire).position as int,
                count as nat,
                frames@,
                Map::empty(),
            ) == Err::<(Map<PageNumber, StoredPage>, int), StoreError>(e),
        },
{
    let mut pages: OrderedMap<PageNumber, StoredPage> = OrderedMap::new();
    let mut i: u32 = 0;
    let ghost goal = pages_from(
        wire.bytes@,
        wire.position as int,
        count as nat,
        frames@,
        Map::<PageNumber, StoredPage>::empty(),
    );
    while i < count
        invariant
            i <= count,
            wire.wf(),
            wire.bytes@ == old(wire).bytes@,
            goal == pages_from(
                old(wire).bytes@,
                old(wire).position as int,
                count as nat,
                frames@,
                Map::<PageNumber, StoredPage>::empty(),
            ),
            goal == pages_from(
                wire.bytes@,
                wire.position as int,
                (count - i) as nat,
                frames@,
                pages@,
            ),
        decreases count - i,
    {
        let (page, stored) = read_page(wire, frames)?;
        if !pages.insert(page, stored) {
            return Err(StoreError::Corrupt(0));
        }
        i += 1;
    }
    Ok(pages)
}

impl ViewMetadata {
    fn decode_draft(raw: &[u8]) -> (draft: Result<(ViewMetadata, ContentRoot), StoreError>)
        ensures
            match draft {
                Ok((view, root)) => draft_parse(raw@) == Ok::<(ViewModel, Seq<u8>), StoreError>(
                    (view@, root.bytes@),
                ) && view@.size.wf(),
                Err(e) => draft_parse(raw@) == Err::<(ViewModel, Seq<u8>), StoreError>(e),
            },
    {
        let mut wire: Decoder = Decoder::new(raw);
        let (mut view, root) = read_head(&mut wire)?;
        let preferred: u32 = wire.u32()?;
        if preferred > MAX_PREFERRED as u32 {
            return Err(StoreError::Corrupt(0));
        }
        view.preferred = read_preferred(&mut wire, preferred)?;
        let frames: u32 = wire.u32()?;
        if frames as usize > raw.len() / 64 {
            return Err(StoreError::Range);
        }
        view.frames = read_frames(&mut wire, frames)?;
        let pages: u32 = wire.u32()?;
        if pages > view.size.pages() || pages as usize > raw.len() / 40 {
            return Err(StoreError::Range);
        }
        view.pages = read_pages(&mut wire, pages, &view.frames)?;
        wire.finish()?;
        Ok((view, root))
    }

    /// The view that an encoding holds.
    pub fn decode_raw(raw: &[u8]) -> (validated: Result<ValidatedMetadata, StoreError>)
        ensures
            match validated {
                Ok(v) => raw_parse(raw@) == Ok::<ViewModel, StoreError>(v@.view) && v@.standalone()
                    && v@.decoded == raw@.len(),
                Err(e) => raw_parse(raw@) == Err::<ViewModel, StoreError>(e),
            },
    {
        let (view, root) = ViewMetadata::decode_draft(raw)?;
        let validated: ValidatedMetadata = view.validate()?;
        let derived: ContentRoot = validated.content_root();
        if validated.decoded_bytes().value != raw.len() as u64 || !root.same(&derived) {
            proof {
                if root.bytes@ == derived.bytes@ {
                    crate::domain::lemma_id_extensional(root, derived);
                }
            }
            return Err(StoreError::Corrupt(0));
        }
        Ok(validated)
    }

    /// Encodes the view in an envelope.
    pub fn encode(&self) -> (encoded: Result<Vec<u8>, StoreError>)
        requires
            self@.resolvable(),
        ensures
            match encoded {
                Ok(e) => {
                    let raw = self@.encoding();
                    &&& raw.len() <= VIEW_LIMIT
                    &&& e@ == wire::envelope_bytes(VIEW_MAGIC@, raw, codec::zstd_frame(raw, 3))
                    &&& codec::zstd_content(codec::zstd_frame(raw, 3)) == raw
                },
                Err(e) => if self@.encoding().len() > VIEW_LIMIT {
                    e == StoreError::Range
                } else {
                    e is Zstd
                },
            },
    {
        let raw: Vec<u8> = self.encode_raw()?;
        envelope(&VIEW_MAGIC, raw.as_slice())
    }

    /// The view that an envelope holds. The decompressor may fail on any frame.
    pub fn decode(encoded: &[u8]) -> (validated: Result<ValidatedMetadata, StoreError>)
        ensures
            match wire::envelope_parts(VIEW_MAGIC@, encoded@, VIEW_LIMIT as int) {
                Err(error) => validated == Err::<ValidatedMetadata, StoreError>(error),
                Ok(parts) => {
                    let raw = codec::zstd_content(parts.frame);
                    if raw.len() != parts.length || digest::content_hash(raw) != parts.hash {
                        validated matches Err(e) && (e is Zstd || e == StoreError::Corrupt(0))
                    } else {
                        match validated {
                            Ok(v) => raw_parse(raw) == Ok::<ViewModel, StoreError>(v@.view)
                                && v@.standalone() && v@.decoded == raw.len(),
                            Err(e) => e is Zstd || raw_parse(raw) == Err::<ViewModel, StoreError>(
                                e,
                            ),
                        }
                    }
                },
            },
    {
        let raw: Vec<u8> = open_envelope(&VIEW_MAGIC, encoded, VIEW_LIMIT)?;
        ViewMetadata::decode_raw(raw.as_slice())
    }
}

/// What an encoder can be handed: sizes and transactions as they must be, frames
/// whose identities name them, and maps that can be listed.
pub open spec fn encodable(view: ViewModel) -> bool {
    &&& view.size.wf()
    &&& view.txid.wf()
    &&& (view.parent_seal matches Some(seal) ==> seal.bytes@ != bytes::zeros(32))
    &&& order::ascending::<FrameId, LocationModel>(view.frame_list())
    &&& order::mapped::<FrameId, LocationModel>(view.frame_list()) == view.frames
    &&& order::ascending::<PageNumber, StoredPage>(view.page_list())
    &&& order::mapped::<PageNumber, StoredPage>(view.page_list()) == view.pages
    &&& forall|frame: FrameId| #[trigger]
        view.frames.dom().contains(frame) ==> view.frames[frame].frame.wf()
            && view.frames[frame].frame.authentic() && view.frames[frame].payload.wf()
}

pub proof fn lemma_id_piece<const KIND: u8>(before: Seq<u8>, id: Id<KIND>, after: Seq<u8>)
    requires
        (before + id.bytes@ + after).len() <= usize::MAX,
    ensures
        id_at::<KIND>(before + id.bytes@ + after, before.len() as int) == Ok::<
            (Id<KIND>, int),
            StoreError,
        >((id, before.len() as int + 32)),
{
    wire::lemma_take_piece(before, id.bytes@, after);
    frame::lemma_id_of(id);
}

proof fn lemma_preferred_parse(before: Seq<u8>, ids: Seq<DictionaryId>, i: int, after: Seq<u8>)
    requires
        0 <= i <= ids.len(),
        ids.no_duplicates(),
        (before + view::ids_bytes(ids, i) + after).len() <= usize::MAX,
    ensures
        preferred_from(
            before + view::ids_bytes(ids, i) + after,
            before.len() as int,
            (ids.len() - i) as nat,
            ids.take(i),
        ) == Ok::<(Seq<DictionaryId>, int), StoreError>(
            (ids, (before.len() + view::ids_bytes(ids, i).len()) as int),
        ),
    decreases ids.len() - i,
{
    let whole = before + view::ids_bytes(ids, i) + after;
    if i == ids.len() {
        assert(ids.take(i) =~= ids);
    } else {
        let id = ids[i];
        let rest = view::ids_bytes(ids, i + 1);
        assert(whole =~= before + id.bytes@ + (rest + after));
        lemma_id_piece(before, id, rest + after);
        assert(whole =~= (before + id.bytes@) + rest + after);
        lemma_preferred_parse(before + id.bytes@, ids, i + 1, after);
        assert(ids.take(i).push(id) =~= ids.take(i + 1));
        if ids.take(i).contains(id) {
            let j = choose|j: int| 0 <= j < i && ids.take(i)[j] == id;
            assert(ids[j] == ids[i]);
        }
    }
}

/// Four pieces and a body, each found where it was put.
proof fn lemma_location_pieces(
    before: Seq<u8>,
    id: FrameId,
    pack: PackId,
    offset: u64,
    record: Seq<u8>,
    after: Seq<u8>,
)
    requires
        record.len() <= u32::MAX,
        (before + (id.bytes@ + pack.bytes@ + bytes::le(offset as nat, 8) + bytes::le(record.len(), 4) + record)
            + after).len() <= usize::MAX,
    ensures
        ({
            let at = before.len() as int;
            let whole = before + (id.bytes@ + pack.bytes@ + bytes::le(offset as nat, 8) + bytes::le(
                record.len(),
                4,
            ) + record) + after;
            &&& id_at::<FRAME>(whole, at) == Ok::<(FrameId, int), StoreError>((id, at + 32))
            &&& id_at::<PACK>(whole, at + 32) == Ok::<(PackId, int), StoreError>((pack, at + 64))
            &&& wire::number_at(whole, at + 64, 8) == Ok::<(nat, int), StoreError>(
                (offset as nat, at + 72),
            )
            &&& wire::number_at(whole, at + 72, 4) == Ok::<(nat, int), StoreError>(
                (record.len(), at + 76),
            )
            &&& wire::take_at(whole, at + 76, record.len() as int) == Ok::<(Seq<u8>, int), StoreError>(
                (record, at + 76 + record.len()),
            )
            &&& whole.len() == at + 76 + record.len() + after.len()
        }),
{
    let at = before.len() as int;
    let whole = before + (id.bytes@ + pack.bytes@ + bytes::le(offset as nat, 8) + bytes::le(record.len(), 4)
        + record) + after;
    crate::bytes::lemma_le_len(offset as nat, 8);
    crate::bytes::lemma_le_len(record.len(), 4);
    crate::bytes::lemma_le_bounds();
    assert(whole.subrange(at, at + 32) =~= id.bytes@);
    frame::lemma_id_of(id);
    assert(whole.subrange(at + 32, at + 64) =~= pack.bytes@);
    frame::lemma_id_of(pack);
    assert(whole.subrange(at + 64, at + 72) =~= bytes::le(offset as nat, 8));
    crate::bytes::law_le_round_trip(offset as nat, 8);
    assert(whole.subrange(at + 72, at + 76) =~= bytes::le(record.len(), 4));
    crate::bytes::law_le_round_trip(record.len(), 4);
    assert(whole.subrange(at + 76, at + 76 + record.len()) =~= record);
}

proof fn lemma_location_parse(
    before: Seq<u8>,
    id: FrameId,
    location: LocationModel,
    after: Seq<u8>,
)
    requires
        location.frame.wf(),
        location.frame.authentic(),
        location.payload.wf(),
        location.frame.id == id,
        location.payload.length.value == location.frame.payload_bytes,
        (before + view::location_record(id, location) + after).len() <= usize::MAX,
    ensures
        location_at(before + view::location_record(id, location) + after, before.len() as int) == Ok::<
            (FrameId, LocationModel, int),
            StoreError,
        >((id, location, (before.len() + view::location_record(id, location).len()) as int)),
{
    assert(location.frame.record().len() <= u32::MAX) by {
        crate::frame::lemma_frame_size(location.frame);
        crate::frame::lemma_frame_small(location.frame);
    }
    lemma_location_pieces(
        before,
        id,
        location.pack,
        location.payload.offset.value,
        location.frame.record(),
        after,
    );
    crate::frame::law_frame_round_trip(location.frame);
    assert(location.payload == (PackRange {
        offset: Count { value: location.payload.offset.value },
        length: Count { value: location.frame.payload_bytes },
    }));
}

pub proof fn lemma_joined(before: Seq<u8>, record: Seq<u8>, rest: Seq<u8>, after: Seq<u8>)
    ensures
        before + (record + rest) + after == before + record + (rest + after),
        before + (record + rest) + after == (before + record) + rest + after,
        (before + record).len() + rest.len() == before.len() + (record + rest).len(),
{
    assert(before + (record + rest) + after =~= before + record + (rest + after));
    assert(before + (record + rest) + after =~= (before + record) + rest + after);
}

proof fn lemma_frames_parse(
    before: Seq<u8>,
    list: Seq<(FrameId, LocationModel)>,
    i: int,
    after: Seq<u8>,
)
    requires
        0 <= i <= list.len(),
        order::ascending::<FrameId, LocationModel>(list),
        forall|j: int|
            0 <= j < list.len() ==> {
                let location = (#[trigger] list[j]).1;
                &&& location.frame.wf()
                &&& location.frame.authentic()
                &&& location.payload.wf()
                &&& location.frame.id == list[j].0
                &&& location.payload.length.value == location.frame.payload_bytes
            },
        (before + view::frames_bytes(list, i) + after).len() <= usize::MAX,
    ensures
        frames_from(
            before + view::frames_bytes(list, i) + after,
            before.len() as int,
            (list.len() - i) as nat,
            order::mapped::<FrameId, LocationModel>(list.take(i)),
        ) == Ok::<(Map<FrameId, LocationModel>, int), StoreError>(
            (
                order::mapped::<FrameId, LocationModel>(list),
                (before.len() + view::frames_bytes(list, i).len()) as int,
            ),
        ),
    decreases list.len() - i,
{
    let whole = before + view::frames_bytes(list, i) + after;
    if i == list.len() {
        assert(list.take(i) =~= list);
    } else {
        let record = view::location_record(list[i].0, list[i].1);
        let rest = view::frames_bytes(list, i + 1);
        lemma_joined(before, record, rest, after);
        lemma_location_parse(before, list[i].0, list[i].1, rest + after);
        lemma_frames_parse(before + record, list, i + 1, after);
        crate::order::lemma_mapped_step::<FrameId, LocationModel>(list, i);
    }
}

proof fn lemma_pages_parse(
    before: Seq<u8>,
    list: Seq<(PageNumber, StoredPage)>,
    i: int,
    after: Seq<u8>,
    frames: Map<FrameId, LocationModel>,
)
    requires
        0 <= i <= list.len(),
        order::ascending::<PageNumber, StoredPage>(list),
        forall|j: int|
            0 <= j < list.len() ==> {
                let stored = (#[trigger] list[j]).1;
                &&& list[j].0.wf()
                &&& frames.dom().contains(stored.frame)
                &&& stored.slot.index < frames[stored.frame].frame.shape.pages
            },
        (before + view::pages_bytes(list, i) + after).len() <= usize::MAX,
    ensures
        pages_from(
            before + view::pages_bytes(list, i) + after,
            before.len() as int,
            (list.len() - i) as nat,
            frames,
            order::mapped::<PageNumber, StoredPage>(list.take(i)),
        ) == Ok::<(Map<PageNumber, StoredPage>, int), StoreError>(
            (
                order::mapped::<PageNumber, StoredPage>(list),
                (before.len() + view::pages_bytes(list, i).len()) as int,
            ),
        ),
    decreases list.len() - i,
{
    let whole = before + view::pages_bytes(list, i) + after;
    if i == list.len() {
        assert(list.take(i) =~= list);
    } else {
        let (page, stored) = list[i];
        let number = bytes::le(page.value as nat, 4);
        let slot = bytes::le(stored.slot.index as nat, 4);
        let rest = view::pages_bytes(list, i + 1);
        crate::bytes::lemma_le_len(page.value as nat, 4);
        crate::bytes::lemma_le_len(stored.slot.index as nat, 4);
        crate::bytes::lemma_le_bounds();
        let b = before + number;
        let c = b + stored.frame.bytes@;
        let record = view::page_record(page, stored);
        assert(whole =~= before + number + (stored.frame.bytes@ + slot + rest + after));
        wire::lemma_number_piece(
            before,
            page.value as nat,
            4,
            stored.frame.bytes@ + slot + rest + after,
        );
        assert(whole =~= b + stored.frame.bytes@ + (slot + rest + after));
        lemma_id_piece(b, stored.frame, slot + rest + after);
        assert(whole =~= c + slot + (rest + after));
        wire::lemma_number_piece(c, stored.slot.index as nat, 4, rest + after);
        assert(page_at(whole, before.len() as int, frames) == Ok::<
            (PageNumber, StoredPage, int),
            StoreError,
        >((page, stored, (before.len() + record.len()) as int)));
        assert(whole =~= (before + record) + rest + after);
        lemma_pages_parse(before + record, list, i + 1, after, frames);
        crate::order::lemma_mapped_step::<PageNumber, StoredPage>(list, i);
    }
}

proof fn lemma_head_parse(view: ViewModel, root: Seq<u8>, after: Seq<u8>)
    requires
        encodable(view),
        root.len() == 32,
        (view.head(root) + after).len() <= usize::MAX,
    ensures
        head_at(view.head(root) + after) == Ok::<(ViewModel, Seq<u8>, int), StoreError>(
            (
                ViewModel {
                    frames: Map::empty(),
                    pages: Map::empty(),
                    preferred: Seq::empty(),
                    ..view
                },
                root,
                180,
            ),
        ),
{
    let whole = view.head(root) + after;
    let db = view.database.bytes@;
    let li = view.lineage.bytes@;
    let ps = bytes::le(view.size.page_size.value as nat, 4);
    let by = bytes::le(view.size.bytes as nat, 8);
    let tx = bytes::le(view.txid.value as nat, 8);
    let hi = view.history.bytes@;
    let se = view::seal_bytes(view.parent_seal);
    crate::bytes::lemma_le_len(view.size.page_size.value as nat, 4);
    crate::bytes::lemma_le_len(view.size.bytes as nat, 8);
    crate::bytes::lemma_le_len(view.txid.value as nat, 8);
    crate::bytes::lemma_le_bounds();
    let none = Seq::<u8>::empty();
    assert(whole =~= none + db + (li + ps + by + tx + hi + se + root + after));
    lemma_id_piece(none, view.database, li + ps + by + tx + hi + se + root + after);
    assert(whole =~= db + li + (ps + by + tx + hi + se + root + after));
    lemma_id_piece(db, view.lineage, ps + by + tx + hi + se + root + after);
    let c = db + li;
    assert(whole =~= c + ps + (by + tx + hi + se + root + after));
    wire::lemma_number_piece(
        c,
        view.size.page_size.value as nat,
        4,
        by + tx + hi + se + root + after,
    );
    let d = c + ps;
    assert(whole =~= d + by + (tx + hi + se + root + after));
    wire::lemma_number_piece(d, view.size.bytes as nat, 8, tx + hi + se + root + after);
    let e = d + by;
    assert(whole =~= e + tx + (hi + se + root + after));
    wire::lemma_number_piece(e, view.txid.value as nat, 8, hi + se + root + after);
    let f = e + tx;
    assert(whole =~= f + hi + (se + root + after));
    lemma_id_piece(f, view.history, se + root + after);
    let g = f + hi;
    assert(whole =~= g + se + (root + after));
    wire::lemma_take_piece(g, se, root + after);
    let h = g + se;
    assert(whole =~= h + root + after);
    wire::lemma_take_piece(h, root, after);
    assert(seal_of(se) == view.parent_seal) by {
        match view.parent_seal {
            Some(seal) => frame::lemma_id_of(seal),
            None => {},
        }
    }
    assert(size_at(whole, 64) == Ok::<(LogicalBytes, int), StoreError>((view.size, 76)));
    assert(txid_at(whole, 76) == Ok::<(TransactionId, int), StoreError>((view.txid, 84)));
}

/// Along ascending pages, place `i` holds a page above `i`.
proof fn lemma_pages_climb(list: Seq<(PageNumber, StoredPage)>, i: int)
    requires
        order::ascending::<PageNumber, StoredPage>(list),
        forall|j: int| 0 <= j < list.len() ==> (#[trigger] list[j]).0.wf(),
        0 <= i < list.len(),
    ensures
        list[i].0.value > i,
    decreases i,
{
    if i > 0 {
        lemma_pages_climb(list, i - 1);
        assert(PageNumber::precedes(list[i - 1].0, list[i].0));
    }
}

proof fn lemma_length(view: ViewModel, list: Seq<(FrameId, LocationModel)>, i: int, length: int)
    requires
        0 <= i <= list.len(),
        validation::length_from(view, list, i, length) is Ok,
    ensures
        validation::length_from(view, list, i, length)->Ok_0 == length + view::frames_size(list, i),
        forall|j: int|
            i <= j < list.len() ==> validation::location_sound(
                view,
                (#[trigger] list[j]).0,
                list[j].1,
            ),
    decreases list.len() - i,
{
    if i < list.len() {
        lemma_length(view, list, i + 1, length + 76 + list[i].1.frame.record().len());
    }
}

/// The parts of a view's encoding, each read where it stands.
proof fn lemma_raw_pieces(view: ViewModel, root: Seq<u8>)
    requires
        encodable(view),
        root.len() == 32,
        view.raw(root).len() <= VIEW_LIMIT,
        view.preferred.no_duplicates(),
        forall|j: int|
            0 <= j < view.frame_list().len() ==> {
                let location = (#[trigger] view.frame_list()[j]).1;
                &&& location.frame.wf()
                &&& location.frame.authentic()
                &&& location.payload.wf()
                &&& location.frame.id == view.frame_list()[j].0
                &&& location.payload.length.value == location.frame.payload_bytes
            },
        forall|j: int|
            0 <= j < view.page_list().len() ==> {
                let stored = (#[trigger] view.page_list()[j]).1;
                &&& view.page_list()[j].0.wf()
                &&& view.frames.dom().contains(stored.frame)
                &&& stored.slot.index < view.frames[stored.frame].frame.shape.pages
            },
    ensures
        ({
            let whole = view.raw(root);
            let frames = view.frame_list();
            let pages = view.page_list();
            let a = 180int;
            let b = a + 4 + 32 * view.preferred.len();
            let c = b + 4 + view::frames_size(frames, 0);
            &&& head_at(whole) == Ok::<(ViewModel, Seq<u8>, int), StoreError>(
                (
                    ViewModel {
                        frames: Map::empty(),
                        pages: Map::empty(),
                        preferred: Seq::empty(),
                        ..view
                    },
                    root,
                    a,
                ),
            )
            &&& wire::number_at(whole, a, 4) == Ok::<(nat, int), StoreError>(
                (view.preferred.len(), a + 4),
            )
            &&& preferred_from(whole, a + 4, view.preferred.len(), Seq::empty()) == Ok::<
                (Seq<DictionaryId>, int),
                StoreError,
            >((view.preferred, b))
            &&& wire::number_at(whole, b, 4) == Ok::<(nat, int), StoreError>((frames.len(), b + 4))
            &&& frames_from(whole, b + 4, frames.len(), Map::empty()) == Ok::<
                (Map<FrameId, LocationModel>, int),
                StoreError,
            >((view.frames, c))
            &&& wire::number_at(whole, c, 4) == Ok::<(nat, int), StoreError>((pages.len(), c + 4))
            &&& pages_from(whole, c + 4, pages.len(), view.frames, Map::empty()) == Ok::<
                (Map<PageNumber, StoredPage>, int),
                StoreError,
            >((view.pages, whole.len() as int))
        }),
{
    let frames = view.frame_list();
    let pages = view.page_list();
    let whole = view.raw(root);
    let p = bytes::le(view.preferred.len(), 4);
    let ids = view::ids_bytes(view.preferred, 0);
    let f = bytes::le(frames.len(), 4);
    let locations = view::frames_bytes(frames, 0);
    let g = bytes::le(pages.len(), 4);
    let slots = view::pages_bytes(pages, 0);
    let head = view.head(root);
    crate::view::lemma_frames_size(frames, 0);
    crate::view::lemma_pages_size(pages, 0);
    crate::view::lemma_ids_size(view.preferred, 0);
    crate::view::lemma_raw_size(view, root);
    crate::bytes::lemma_le_bounds();
    crate::bytes::lemma_le_len(view.preferred.len(), 4);
    crate::bytes::lemma_le_len(frames.len(), 4);
    crate::bytes::lemma_le_len(pages.len(), 4);
    assert(head.len() == 180) by {
        crate::bytes::lemma_le_len(view.size.page_size.value as nat, 4);
        crate::bytes::lemma_le_len(view.size.bytes as nat, 8);
        crate::bytes::lemma_le_len(view.txid.value as nat, 8);
    }
    lemma_seven(head, p, ids, f, locations, g, slots);
    lemma_head_parse(view, root, p + ids + f + locations + g + slots);
    wire::lemma_number_piece(head, view.preferred.len(), 4, ids + f + locations + g + slots);
    lemma_preferred_parse(head + p, view.preferred, 0, f + locations + g + slots);
    assert(view.preferred.take(0) =~= Seq::<DictionaryId>::empty());
    wire::lemma_number_piece(head + p + ids, frames.len(), 4, locations + g + slots);
    lemma_frames_parse(head + p + ids + f, frames, 0, g + slots);
    assert(order::mapped::<FrameId, LocationModel>(frames.take(0)) =~= Map::empty());
    wire::lemma_number_piece(head + p + ids + f + locations, pages.len(), 4, slots);
    lemma_pages_parse(
        head + p + ids + f + locations + g,
        pages,
        0,
        Seq::empty(),
        view.frames,
    );
    assert(order::mapped::<PageNumber, StoredPage>(pages.take(0)) =~= Map::empty());
}

proof fn lemma_seven(
    a: Seq<u8>,
    b: Seq<u8>,
    c: Seq<u8>,
    d: Seq<u8>,
    e: Seq<u8>,
    f: Seq<u8>,
    g: Seq<u8>,
)
    ensures
        ({
            let whole = a + b + c + d + e + f + g;
            &&& whole == a + (b + c + d + e + f + g)
            &&& whole == a + b + (c + d + e + f + g)
            &&& whole == (a + b) + c + (d + e + f + g)
            &&& whole == (a + b + c) + d + (e + f + g)
            &&& whole == (a + b + c + d) + e + (f + g)
            &&& whole == (a + b + c + d + e) + f + g
            &&& whole == (a + b + c + d + e + f) + g + Seq::<u8>::empty()
        }),
{
    let whole = a + b + c + d + e + f + g;
    assert(whole =~= a + (b + c + d + e + f + g));
    assert(whole =~= a + b + (c + d + e + f + g));
    assert(whole =~= (a + b) + c + (d + e + f + g));
    assert(whole =~= (a + b + c) + d + (e + f + g));
    assert(whole =~= (a + b + c + d) + e + (f + g));
    assert(whole =~= (a + b + c + d + e + f) + g + Seq::<u8>::empty());
}

/// What validation counts is the length of the encoding.
pub proof fn lemma_valid_length(view: ViewModel)
    requires
        validation::view_check(view) is Ok,
    ensures
        validation::view_check(view) == Ok::<int, StoreError>(view.encoding().len() as int),
{
    let root = digest::content_hash(view.content_input());
    let base = 192 + 32 * view.preferred.len() + 40 * view.page_list().len();
    lemma_length(view, view.frame_list(), 0, base as int);
    crate::view::lemma_raw_size(view, root);
}

/// Decoding the encoding of a valid view gives the view back.
#[verifier::rlimit(40)]
pub proof fn law_view_round_trip(view: ViewModel)
    requires
        encodable(view),
        validation::view_check(view) is Ok,
    ensures
        raw_parse(view.encoding()) == Ok::<ViewModel, StoreError>(view),
{
    let root = digest::content_hash(view.content_input());
    let frames = view.frame_list();
    let pages = view.page_list();
    let whole = view.raw(root);
    let base = 192 + 32 * view.preferred.len() + 40 * view.page_list().len();
    crate::order::lemma_walk::<FrameId, LocationModel>(frames, view.frames);
    crate::order::lemma_walk::<PageNumber, StoredPage>(pages, view.pages);
    lemma_length(view, frames, 0, base as int);
    crate::view::lemma_raw_size(view, root);
    assert(validation::view_check(view) == Ok::<int, StoreError>(whole.len() as int));
    crate::view::lemma_frames_size(frames, 0);
    crate::view::lemma_pages_size(pages, 0);
    crate::view::lemma_ids_size(view.preferred, 0);
    crate::bytes::lemma_le_bounds();
    crate::bytes::lemma_le_len(view.preferred.len(), 4);
    crate::bytes::lemma_le_len(frames.len(), 4);
    crate::bytes::lemma_le_len(pages.len(), 4);
    crate::bytes::lemma_le_len(view.size.page_size.value as nat, 4);
    crate::bytes::lemma_le_len(view.size.bytes as nat, 8);
    crate::bytes::lemma_le_len(view.txid.value as nat, 8);
    assert forall|j: int| 0 <= j < pages.len() implies {
        let stored = (#[trigger] pages[j]).1;
        &&& pages[j].0.wf()
        &&& view.frames.dom().contains(stored.frame)
        &&& stored.slot.index < view.frames[stored.frame].frame.shape.pages
        &&& pages[j].0.value <= view.size.count()
    } by {
        assert(view.pages.dom().contains(pages[j].0));
        assert(validation::page_sound(view, pages[j].0, pages[j].1));
        let frame = view.frames[pages[j].1.frame].frame;
        assert(frame.pages[pages[j].1.slot.index as int].wf());
    }
    assert(pages.len() <= view.size.count()) by {
        if pages.len() > 0 {
            lemma_pages_climb(pages, pages.len() - 1);
        }
    }
    lemma_raw_pieces(view, root);
    let a = 180int;
    let b = a + 4 + 32 * view.preferred.len();
    let c = b + 4 + view::frames_size(frames, 0);
    assert(head_at(whole)->Ok_0.2 == a);
    assert(draft_parse(whole) == Ok::<(ViewModel, Seq<u8>), StoreError>((view, root)));
}

/// What the envelope of a valid view holds is the view: the length and digest in
/// the envelope are those of its content, which parses as the view.
pub proof fn law_view_envelope(view: ViewModel, frame: Seq<u8>)
    requires
        encodable(view),
        validation::view_check(view) is Ok,
        codec::zstd_content(frame) == view.encoding(),
        48 + frame.len() <= usize::MAX,
    ensures
        ({
            let encoded = wire::envelope_bytes(VIEW_MAGIC@, view.encoding(), frame);
            &&& wire::envelope_parts(VIEW_MAGIC@, encoded, VIEW_LIMIT as int) matches Ok(parts)
            &&& codec::zstd_content(parts.frame).len() == parts.length
            &&& digest::content_hash(codec::zstd_content(parts.frame)) == parts.hash
            &&& raw_parse(codec::zstd_content(parts.frame)) == Ok::<ViewModel, StoreError>(view)
        }),
{
    lemma_valid_length(view);
    crate::wire::law_envelope_round_trip(VIEW_MAGIC@, view.encoding(), frame, VIEW_LIMIT as int);
    law_view_round_trip(view);
}

} // verus!
