//! Repacking: what packs hold that is still read, which pack to rewrite, and the
//! view that no longer needs it.

use crate::adapter;
use crate::adapter::{Event, StorageBackend};
use crate::bytes;
use crate::bytes::{copied, less_bytes, read_le};
use crate::domain::{
    BackendId, Count, DecodedBytes, DictionaryId, FrameId, Id, ManifestId, PackId, PageNumber,
    StoredBytes, StoredRange,
};
use crate::error::StoreError;
use crate::estimate;
use crate::estimate::unread_of;
use crate::fetch::Replay;
use crate::format::{FRAME_HEADER_SIZE, FrameHeader};
use crate::frame;
use crate::frame::{EncodedFrame, FrameMetadata, FrameModel, PageVersion, VerifiedFrame};
use crate::maintenance_read;
use crate::maintenance_read::{FetchedWindows, MaintenanceReads, ReadsModel, WindowsModel};
use crate::opening;
use crate::order;
use crate::order::{OrderedMap, OrderedSet};
use crate::pack::{MAX_METADATA_BYTES, PACK_HEADER_SIZE};
use crate::pack_writer::Content;
use crate::page;
use crate::page::{ResolvedPage, StoredPageRef};
use crate::pin;
use crate::pin::PlacementPin;
use crate::pinned::{PinModel, PinnedView};
use crate::placement::PlacementsModel;
use crate::publication::DurableView;
use crate::seal;
use crate::seal::{LayoutPolicy, ManifestMode, PageChange, SealEndpoint, seal_with_copies};
use crate::state::{State, StateModel};
use crate::trace;
use crate::trace::{Lease, retained_packs_except};
use crate::validation;
use crate::validation::ValidatedModel;
use crate::view::{FrameLocation, LocationModel, ViewMetadata, ViewModel};
use vstd::prelude::*;
use vstd::slice::slice_subrange;

verus! {

/// How much of a pack is still read.
#[derive(Clone, Copy, Debug)]
pub struct PackOccupancy {
    pub pack: PackId,
    pub stored_bytes: StoredBytes,
    pub decoded_bytes: DecodedBytes,
    pub total_pages: u64,
    pub live_pages: u64,
    pub frames: usize,
    pub fully_live_frames: usize,
    pub partially_obsolete_frames: usize,
    pub fully_obsolete_frames: usize,
    pub fully_live_frame_bytes: StoredBytes,
    pub partially_obsolete_frame_bytes: StoredBytes,
    pub fully_obsolete_frame_bytes: StoredBytes,
}

/// A sum that stops at the greatest value.
pub open spec fn capped(a: int, b: int) -> u64 {
    if a + b > u64::MAX {
        u64::MAX
    } else {
        (a + b) as u64
    }
}

/// One more, unless that is too many.
pub open spec fn more(count: usize) -> usize {
    if count == usize::MAX {
        count
    } else {
        (count + 1) as usize
    }
}

impl PackOccupancy {
    /// The share of the stored bytes that obsolete pages have.
    pub open spec fn reclaimable(self) -> u64 {
        let dead = if self.total_pages > self.live_pages {
            self.total_pages - self.live_pages
        } else {
            0
        };
        let product = self.stored_bytes.value * dead;
        if self.total_pages == 0 {
            self.stored_bytes.value
        } else {
            ((if product > u64::MAX {
                u64::MAX as int
            } else {
                product
            }) / self.total_pages as int) as u64
        }
    }

    /// The share of the stored bytes that obsolete pages have.
    #[must_use]
    pub fn reclaimable_bytes(&self) -> (bytes: u64)
        ensures
            bytes == self.reclaimable(),
    {
        if self.total_pages == 0 {
            return self.stored_bytes.value;
        }
        let dead: u64 = self.obsolete_pages();
        proof {
            assert(0 <= self.stored_bytes.value * dead <= u64::MAX * u64::MAX) by (nonlinear_arith)
                requires
                    0 <= self.stored_bytes.value <= u64::MAX,
                    0 <= dead <= u64::MAX,
            ;
        }
        let product: u128 = self.stored_bytes.value as u128 * dead as u128;
        let bounded: u64 = if product > u64::MAX as u128 {
            u64::MAX
        } else {
            product as u64
        };
        bounded / self.total_pages
    }

    /// The pages that are no longer read.
    #[must_use]
    pub fn obsolete_pages(&self) -> (pages: u64)
        ensures
            pages == if self.total_pages > self.live_pages {
                self.total_pages - self.live_pages
            } else {
                0
            },
    {
        if self.total_pages > self.live_pages {
            self.total_pages - self.live_pages
        } else {
            0
        }
    }

    /// The bytes of complete frame records that no page stands in. The pack header
    /// and frames with some live page are left out.
    #[must_use]
    pub fn whole_frame_reclaimable_bytes(&self) -> (bytes: StoredBytes)
        ensures
            bytes == self.fully_obsolete_frame_bytes,
    {
        self.fully_obsolete_frame_bytes
    }

    /// A pack before any of its frames was counted.
    pub open spec fn none(pack: PackId, length: u64) -> PackOccupancy {
        PackOccupancy {
            pack,
            stored_bytes: Count { value: length },
            decoded_bytes: Count { value: 0 },
            total_pages: 0,
            live_pages: 0,
            frames: 0,
            fully_live_frames: 0,
            partially_obsolete_frames: 0,
            fully_obsolete_frames: 0,
            fully_live_frame_bytes: Count { value: 0 },
            partially_obsolete_frame_bytes: Count { value: 0 },
            fully_obsolete_frame_bytes: Count { value: 0 },
        }
    }

    /// With one more frame of this length in the pack.
    pub open spec fn with_frame(self, view: ViewModel, frame: FrameModel, length: int) -> PackOccupancy {
        let live = live_count(view, frame, frame.pages.len() as int);
        let base = PackOccupancy {
            decoded_bytes: Count { value: (self.decoded_bytes.value + frame.shape.size()) as u64 },
            total_pages: (self.total_pages + frame.shape.pages) as u64,
            frames: more(self.frames),
            ..self
        };
        if live == frame.shape.pages {
            PackOccupancy {
                fully_live_frames: more(self.fully_live_frames),
                fully_live_frame_bytes: Count {
                    value: capped(self.fully_live_frame_bytes.value as int, length),
                },
                ..base
            }
        } else if live == 0 {
            PackOccupancy {
                fully_obsolete_frames: more(self.fully_obsolete_frames),
                fully_obsolete_frame_bytes: Count {
                    value: capped(self.fully_obsolete_frame_bytes.value as int, length),
                },
                ..base
            }
        } else {
            PackOccupancy {
                partially_obsolete_frames: more(self.partially_obsolete_frames),
                partially_obsolete_frame_bytes: Count {
                    value: capped(self.partially_obsolete_frame_bytes.value as int, length),
                },
                ..base
            }
        }
    }
}

/// A page of a frame is current in a view.
pub open spec fn is_live(view: ViewModel, frame: FrameModel, slot: int) -> bool {
    view.pages.dom().contains(frame.pages[slot].page) && view.pages[frame.pages[slot].page].frame
        == frame.id
}

/// The current pages among the first `count` of a frame.
pub open spec fn live_count(view: ViewModel, frame: FrameModel, count: int) -> int
    decreases count,
{
    if count <= 0 {
        0
    } else {
        live_count(view, frame, count - 1) + if is_live(view, frame, count - 1) {
            1int
        } else {
            0int
        }
    }
}

/// Counts the current pages of a frame.
pub fn count_live(view: &ViewMetadata, metadata: &FrameMetadata) -> (live: u64)
    ensures
        live == live_count(view@, metadata@, metadata@.pages.len() as int),
        live <= metadata@.pages.len(),
{
    let pages: &[PageVersion] = metadata.pages();
    let mut live: u64 = 0;
    let mut i: usize = 0;
    while i < pages.len()
        invariant
            i <= pages@.len(),
            pages@ == metadata@.pages,
            live == live_count(view@, metadata@, i as int),
            live <= i,
        decreases pages.len() - i,
    {
        if view.is_live(pages[i].page, metadata.id()) {
            live += 1;
        }
        i += 1;
    }
    live
}

/// A range of a pack.
pub open spec fn span(offset: int, length: int) -> StoredRange {
    StoredRange { offset: Count { value: offset as u64 }, length: Count { value: length as u64 } }
}

/// A record header stands in these bytes.
pub open spec fn is_header(record: Seq<u8>) -> bool {
    exists|header: FrameHeader| record == #[trigger] header.record()
}

/// What reading the frame at `offset` came to: its metadata and where it ends.
/// The payload is not read.
pub open spec fn record_replay(
    history: Seq<Event>,
    at: int,
    chosen: Map<PackId, PlacementsModel>,
    pack: PackId,
    offset: int,
    end: int,
) -> Replay<(FrameModel, int)> {
    match pin::pin_replay(history, at, chosen, pack, span(offset, 36)) {
        Replay::Astray => Replay::Astray,
        Replay::Done(Err(error), next) => Replay::Done(Err(error), next),
        Replay::Done(Ok(prefix), next) => {
            let count = bytes::le_value(prefix.take(4)) as int;
            if count > MAX_METADATA_BYTES {
                Replay::Done(Err(StoreError::Range), next)
            } else {
                described_replay(
                    history,
                    next,
                    chosen,
                    pack,
                    offset,
                    end,
                    count,
                    frame::id_of(prefix.skip(4)),
                )
            }
        },
    }
}

/// What reading the rest of the frame at `offset` came to.
pub open spec fn described_replay(
    history: Seq<Event>,
    at: int,
    chosen: Map<PackId, PlacementsModel>,
    pack: PackId,
    offset: int,
    end: int,
    count: int,
    id: FrameId,
) -> Replay<(FrameModel, int)> {
    match pin::pin_replay(history, at, chosen, pack, span(offset + 36, count)) {
        Replay::Astray => Replay::Astray,
        Replay::Done(Err(error), next) => Replay::Done(Err(error), next),
        Replay::Done(Ok(encoded), next) => match frame::frame_parse(encoded, id) {
            Err(error) => Replay::Done(Err(error), next),
            Ok(frame) => match pin::pin_replay(
                history,
                next,
                chosen,
                pack,
                span(offset + 36 + count, FRAME_HEADER_SIZE as int),
            ) {
                Replay::Astray => Replay::Astray,
                Replay::Done(Err(error), next) => Replay::Done(Err(error), next),
                Replay::Done(Ok(record), next) => {
                    let after = offset + 36 + count + FRAME_HEADER_SIZE + frame.payload_bytes;
                    if !is_header(record) {
                        Replay::Done(Err(StoreError::Corrupt(0)), next)
                    } else if record != frame.header().record() {
                        Replay::Done(Err(StoreError::Corrupt(offset as u64)), next)
                    } else if after > u64::MAX {
                        Replay::Done(Err(StoreError::Range), next)
                    } else if after > end {
                        Replay::Done(Err(StoreError::Corrupt(after as u64)), next)
                    } else {
                        Replay::Done(Ok((frame, after)), next)
                    }
                },
            },
        },
    }
}

proof fn lemma_described_settled(
    before: Seq<Event>,
    after: Seq<Event>,
    at: int,
    chosen: Map<PackId, PlacementsModel>,
    pack: PackId,
    offset: int,
    end: int,
    count: int,
    id: FrameId,
)
    requires
        adapter::extends(before, after),
        described_replay(before, at, chosen, pack, offset, end, count, id) is Done,
    ensures
        described_replay(after, at, chosen, pack, offset, end, count, id) == described_replay(
            before,
            at,
            chosen,
            pack,
            offset,
            end,
            count,
            id,
        ),
{
}

proof fn lemma_record_settled(
    before: Seq<Event>,
    after: Seq<Event>,
    at: int,
    chosen: Map<PackId, PlacementsModel>,
    pack: PackId,
    offset: int,
    end: int,
)
    requires
        adapter::extends(before, after),
        record_replay(before, at, chosen, pack, offset, end) is Done,
    ensures
        record_replay(after, at, chosen, pack, offset, end) == record_replay(
            before,
            at,
            chosen,
            pack,
            offset,
            end,
        ),
{
    match pin::pin_replay(before, at, chosen, pack, span(offset, 36)) {
        Replay::Done(Ok(prefix), next) => {
            let count = bytes::le_value(prefix.take(4)) as int;
            if count <= MAX_METADATA_BYTES {
                lemma_described_settled(
                    before,
                    after,
                    next,
                    chosen,
                    pack,
                    offset,
                    end,
                    count,
                    frame::id_of(prefix.skip(4)),
                );
            }
        },
        _ => {},
    }
}

/// A frame, by what it says.
spec fn record_seen(record: Result<(FrameMetadata, u64), StoreError>) -> Result<
    (FrameModel, int),
    StoreError,
> {
    match record {
        Ok((metadata, next)) => Ok((metadata@, next as int)),
        Err(error) => Err(error),
    }
}

/// Reads the metadata of the frame at `offset`.
fn read_record<B: StorageBackend>(
    backend: &mut B,
    placement: &PlacementPin,
    pack: PackId,
    offset: u64,
    end: u64,
) -> (record: Result<(FrameMetadata, u64), StoreError>)
    ensures
        final(backend).namespace() == old(backend).namespace(),
        adapter::extends(old(backend).history(), final(backend).history()),
        adapter::quiet(old(backend).history(), final(backend).history()),
        record_replay(
            final(backend).history(),
            old(backend).history().len() as int,
            placement.chosen(),
            pack,
            offset as int,
            end as int,
        ) == Replay::Done(record_seen(record), final(backend).history().len() as int),
        record matches Ok((metadata, next)) ==> offset < next <= end && metadata@.sound(),
{
    let ghost start = backend.history().len() as int;
    let ghost chosen = placement.chosen();
    let prefix: Result<Vec<u8>, StoreError> = placement.read(
        backend,
        pack,
        StoredRange { offset: Count { value: offset }, length: Count { value: 36 } },
    );
    let ghost first = backend.history();
    let prefix: Vec<u8> = match prefix {
        Ok(prefix) => prefix,
        Err(error) => {
            return Err(error);
        },
    };
    let field: &[u8] = slice_subrange(prefix.as_slice(), 0, 4);
    proof {
        bytes::law_le_canonical(field@);
        bytes::lemma_le_bounds();
        assert(field@ =~= prefix@.take(4));
        // The first read succeeded, so the range is one of offsets.
        assert(offset + 36 <= u64::MAX);
    }
    let count: u64 = read_le(field);
    if count > MAX_METADATA_BYTES as u64 {
        return Err(StoreError::Range);
    }
    let id: FrameId = Id::read(slice_subrange(prefix.as_slice(), 4, 36));
    proof {
        frame::lemma_id_of(id);
        assert(id.bytes@ =~= prefix@.skip(4));
    }
    let encoded: Result<Vec<u8>, StoreError> = placement.read(
        backend,
        pack,
        StoredRange { offset: Count { value: offset + 36 }, length: Count { value: count } },
    );
    let ghost second = backend.history();
    proof {
        assert(pin::pin_replay(second, start, chosen, pack, span(offset as int, 36))
            == pin::pin_replay(first, start, chosen, pack, span(offset as int, 36)));
    }
    let encoded: Vec<u8> = match encoded {
        Ok(encoded) => encoded,
        Err(error) => {
            return Err(error);
        },
    };
    let metadata: FrameMetadata = match FrameMetadata::decode(encoded.as_slice(), id) {
        Ok(metadata) => metadata,
        Err(error) => {
            return Err(error);
        },
    };
    let at: u64 = match (offset + 36).checked_add(count) {
        Some(at) => at,
        None => {
            // The second read succeeded, or was of nothing.
            assert(false);
            return Err(StoreError::Range);
        },
    };
    let record: Result<Vec<u8>, StoreError> = placement.read(
        backend,
        pack,
        StoredRange {
            offset: Count { value: at },
            length: Count { value: FRAME_HEADER_SIZE as u64 },
        },
    );
    let ghost third = backend.history();
    proof {
        assert(pin::pin_replay(third, start, chosen, pack, span(offset as int, 36))
            == pin::pin_replay(first, start, chosen, pack, span(offset as int, 36)));
        assert(pin::pin_replay(
            third,
            first.len() as int,
            chosen,
            pack,
            span(offset + 36, count as int),
        ) == pin::pin_replay(
            second,
            first.len() as int,
            chosen,
            pack,
            span(offset + 36, count as int),
        ));
    }
    let record: Vec<u8> = match record {
        Ok(record) => record,
        Err(error) => {
            return Err(error);
        },
    };
    let found: FrameHeader = match FrameHeader::decode(record.as_slice()) {
        Ok(found) => found,
        Err(error) => {
            return Err(error);
        },
    };
    let expected: FrameHeader = metadata.record_header();
    assert(is_header(record@));
    if found != expected {
        proof {
            if found.record() == expected.record() {
                FrameHeader::law_record_determines_header(found, expected);
            }
        }
        return Err(StoreError::Corrupt(offset));
    }
    let payload: u64 = metadata.payload_bytes().value;
    let next: u64 = match at.checked_add(FRAME_HEADER_SIZE as u64) {
        Some(at) => match at.checked_add(payload) {
            Some(next) => next,
            None => {
                return Err(StoreError::Range);
            },
        },
        None => {
            assert(false);
            return Err(StoreError::Range);
        },
    };
    if next > end {
        return Err(StoreError::Corrupt(next));
    }
    Ok((metadata, next))
}

/// What counting the frames of a pack from `offset` on came to.
pub open spec fn scan_replay(
    history: Seq<Event>,
    at: int,
    chosen: Map<PackId, PlacementsModel>,
    pack: PackId,
    view: ViewModel,
    offset: int,
    end: int,
    so_far: PackOccupancy,
) -> Replay<PackOccupancy>
    decreases end - offset,
{
    if offset >= end {
        Replay::Done(Ok(so_far), at)
    } else {
        match record_replay(history, at, chosen, pack, offset, end) {
            Replay::Astray => Replay::Astray,
            Replay::Done(Err(error), next) => Replay::Done(Err(error), next),
            Replay::Done(Ok((frame, after)), next) => if after <= offset {
                Replay::Astray
            } else if so_far.decoded_bytes.value + frame.shape.size() > u64::MAX {
                Replay::Done(Err(StoreError::Range), next)
            } else {
                scan_replay(
                    history,
                    next,
                    chosen,
                    pack,
                    view,
                    after,
                    end,
                    so_far.with_frame(view, frame, after - offset),
                )
            },
        }
    }
}

proof fn lemma_scan_settled(
    before: Seq<Event>,
    after: Seq<Event>,
    at: int,
    chosen: Map<PackId, PlacementsModel>,
    pack: PackId,
    view: ViewModel,
    offset: int,
    end: int,
    so_far: PackOccupancy,
)
    requires
        adapter::extends(before, after),
        scan_replay(before, at, chosen, pack, view, offset, end, so_far) is Done,
    ensures
        scan_replay(after, at, chosen, pack, view, offset, end, so_far) == scan_replay(
            before,
            at,
            chosen,
            pack,
            view,
            offset,
            end,
            so_far,
        ),
    decreases end - offset,
{
    if offset < end {
        lemma_record_settled(before, after, at, chosen, pack, offset, end);
        match record_replay(before, at, chosen, pack, offset, end) {
            Replay::Done(Ok((frame, next_offset)), next) => if next_offset > offset
                && so_far.decoded_bytes.value + frame.shape.size() <= u64::MAX {
                lemma_scan_settled(
                    before,
                    after,
                    next,
                    chosen,
                    pack,
                    view,
                    next_offset,
                    end,
                    so_far.with_frame(view, frame, next_offset - offset),
                );
            },
            _ => {},
        }
    }
}

/// Counts one more frame.
fn count_frame(occupancy: &mut PackOccupancy, view: &ViewMetadata, metadata: &FrameMetadata, length: u64) -> (done:
    bool)
    requires
        old(occupancy).decoded_bytes.value >= 512 * old(occupancy).total_pages,
        metadata@.sound(),
    ensures
        if old(occupancy).decoded_bytes.value + metadata@.shape.size() > u64::MAX {
            !done && *final(occupancy) == *old(occupancy)
        } else {
            done && *final(occupancy) == old(occupancy).with_frame(
                view@,
                metadata@,
                length as int,
            ) && final(occupancy).decoded_bytes.value >= 512 * final(occupancy).total_pages
        },
{
    let shape = metadata.shape();
    let size: u64 = shape.decoded().value;
    let pages: u64 = shape.pages as u64;
    proof {
        assert(size >= 512 * pages) by (nonlinear_arith)
            requires
                size == shape.page_size.value * shape.pages,
                pages == shape.pages,
                shape.page_size.value >= 512,
        ;
    }
    let decoded: u64 = match occupancy.decoded_bytes.value.checked_add(size) {
        Some(decoded) => decoded,
        None => {
            return false;
        },
    };
    let live: u64 = count_live(view, metadata);
    occupancy.decoded_bytes = Count { value: decoded };
    occupancy.total_pages = occupancy.total_pages + pages;
    occupancy.frames = occupancy.frames.saturating_add(1);
    if live == pages {
        occupancy.fully_live_frames = occupancy.fully_live_frames.saturating_add(1);
        occupancy.fully_live_frame_bytes = Count {
            value: occupancy.fully_live_frame_bytes.value.saturating_add(length),
        };
    } else if live == 0 {
        occupancy.fully_obsolete_frames = occupancy.fully_obsolete_frames.saturating_add(1);
        occupancy.fully_obsolete_frame_bytes = Count {
            value: occupancy.fully_obsolete_frame_bytes.value.saturating_add(length),
        };
    } else {
        occupancy.partially_obsolete_frames = occupancy.partially_obsolete_frames.saturating_add(1);
        occupancy.partially_obsolete_frame_bytes = Count {
            value: occupancy.partially_obsolete_frame_bytes.value.saturating_add(length),
        };
    }
    true
}

/// Counts the frames of a pack.
fn scan<B: StorageBackend>(
    backend: &mut B,
    placement: &PlacementPin,
    view: &ViewMetadata,
    pack: PackId,
    length: u64,
) -> (occupancy: Result<PackOccupancy, StoreError>)
    ensures
        final(backend).namespace() == old(backend).namespace(),
        adapter::extends(old(backend).history(), final(backend).history()),
        adapter::quiet(old(backend).history(), final(backend).history()),
        scan_replay(
            final(backend).history(),
            old(backend).history().len() as int,
            placement.chosen(),
            pack,
            view@,
            PACK_HEADER_SIZE as int,
            length as int,
            PackOccupancy::none(pack, length),
        ) == Replay::Done(occupancy, final(backend).history().len() as int),
{
    let ghost start = backend.history().len() as int;
    let ghost chosen = placement.chosen();
    let ghost none = PackOccupancy::none(pack, length);
    let mut occupancy: PackOccupancy = PackOccupancy {
        pack,
        stored_bytes: Count { value: length },
        decoded_bytes: Count { value: 0 },
        total_pages: 0,
        live_pages: 0,
        frames: 0,
        fully_live_frames: 0,
        partially_obsolete_frames: 0,
        fully_obsolete_frames: 0,
        fully_live_frame_bytes: Count { value: 0 },
        partially_obsolete_frame_bytes: Count { value: 0 },
        fully_obsolete_frame_bytes: Count { value: 0 },
    };
    let mut offset: u64 = PACK_HEADER_SIZE as u64;
    let ghost first = PACK_HEADER_SIZE as int;
    while offset < length
        invariant
            start == old(backend).history().len(),
            chosen == placement.chosen(),
            none == PackOccupancy::none(pack, length),
            first == PACK_HEADER_SIZE,
            occupancy.decoded_bytes.value >= 512 * occupancy.total_pages,
            backend.namespace() == old(backend).namespace(),
            adapter::extends(old(backend).history(), backend.history()),
            adapter::quiet(old(backend).history(), backend.history()),
            forall|later: Seq<Event>|
                #![trigger scan_replay(later, start, chosen, pack, view@, first, length as int, none)]
                adapter::extends(backend.history(), later) ==> scan_replay(
                    later,
                    start,
                    chosen,
                    pack,
                    view@,
                    first,
                    length as int,
                    none,
                ) == scan_replay(
                    later,
                    backend.history().len() as int,
                    chosen,
                    pack,
                    view@,
                    offset as int,
                    length as int,
                    occupancy,
                ),
        decreases length - offset,
    {
        let ghost known = backend.history();
        let ghost before = occupancy;
        let record: Result<(FrameMetadata, u64), StoreError> = read_record(
            backend,
            placement,
            pack,
            offset,
            length,
        );
        let ghost seen = backend.history();
        proof {
            assert(scan_replay(seen, start, chosen, pack, view@, first, length as int, none)
                == scan_replay(
                seen,
                known.len() as int,
                chosen,
                pack,
                view@,
                offset as int,
                length as int,
                before,
            ));
        }
        let (metadata, next) = match record {
            Ok(record) => record,
            Err(error) => {
                return Err(error);
            },
        };
        if !count_frame(&mut occupancy, view, &metadata, next - offset) {
            return Err(StoreError::Range);
        }
        proof {
            assert forall|later: Seq<Event>|
                #![trigger scan_replay(later, start, chosen, pack, view@, first, length as int, none)]
                adapter::extends(seen, later) implies scan_replay(
                later,
                start,
                chosen,
                pack,
                view@,
                first,
                length as int,
                none,
            ) == scan_replay(
                later,
                seen.len() as int,
                chosen,
                pack,
                view@,
                next as int,
                length as int,
                occupancy,
            ) by {
                assert(adapter::extends(known, later));
                lemma_record_settled(
                    seen,
                    later,
                    known.len() as int,
                    chosen,
                    pack,
                    offset as int,
                    length as int,
                );
            }
        }
        offset = next;
    }
    proof {
        let h = backend.history();
        assert(adapter::extends(h, h));
        assert(scan_replay(h, start, chosen, pack, view@, first, length as int, none)
            == scan_replay(
            h,
            h.len() as int,
            chosen,
            pack,
            view@,
            offset as int,
            length as int,
            occupancy,
        ));
    }
    Ok(occupancy)
}

/// A pack once its current pages are known. It cannot have more of them than
/// pages.
pub open spec fn with_live(occupancy: PackOccupancy, view: ViewModel) -> Result<
    PackOccupancy,
    StoreError,
> {
    let counts = view.live_pages();
    let live = if counts.dom().contains(occupancy.pack) {
        counts[occupancy.pack]
    } else {
        0
    };
    if live > occupancy.total_pages {
        Err(StoreError::Corrupt(0))
    } else {
        Ok(PackOccupancy { live_pages: live, ..occupancy })
    }
}

/// What counting a pack came to.
pub open spec fn occupancy_replay(
    history: Seq<Event>,
    at: int,
    chosen: Map<PackId, PlacementsModel>,
    view: ViewModel,
    pack: PackId,
) -> Replay<PackOccupancy> {
    if !chosen.dom().contains(pack) {
        Replay::Done(Err(StoreError::Corrupt(0)), at)
    } else {
        match scan_replay(
            history,
            at,
            chosen,
            pack,
            view,
            PACK_HEADER_SIZE as int,
            chosen[pack].length as int,
            PackOccupancy::none(pack, chosen[pack].length),
        ) {
            Replay::Astray => Replay::Astray,
            Replay::Done(Err(error), next) => Replay::Done(Err(error), next),
            Replay::Done(Ok(occupancy), next) => Replay::Done(with_live(occupancy, view), next),
        }
    }
}

/// What counting the packs from place `i` on came to.
pub open spec fn inventory_replay(
    history: Seq<Event>,
    at: int,
    chosen: Map<PackId, PlacementsModel>,
    view: ViewModel,
    packs: Seq<PackId>,
    i: int,
    so_far: Seq<PackOccupancy>,
) -> Replay<Seq<PackOccupancy>>
    decreases packs.len() - i,
{
    if i >= packs.len() {
        Replay::Done(Ok(so_far), at)
    } else {
        match occupancy_replay(history, at, chosen, view, packs[i]) {
            Replay::Astray => Replay::Astray,
            Replay::Done(Err(error), next) => Replay::Done(Err(error), next),
            Replay::Done(Ok(occupancy), next) => inventory_replay(
                history,
                next,
                chosen,
                view,
                packs,
                i + 1,
                so_far.push(occupancy),
            ),
        }
    }
}

proof fn lemma_occupancy_settled(
    before: Seq<Event>,
    after: Seq<Event>,
    at: int,
    chosen: Map<PackId, PlacementsModel>,
    view: ViewModel,
    pack: PackId,
)
    requires
        adapter::extends(before, after),
        occupancy_replay(before, at, chosen, view, pack) is Done,
    ensures
        occupancy_replay(after, at, chosen, view, pack) == occupancy_replay(
            before,
            at,
            chosen,
            view,
            pack,
        ),
{
    if chosen.dom().contains(pack) {
        lemma_scan_settled(
            before,
            after,
            at,
            chosen,
            pack,
            view,
            PACK_HEADER_SIZE as int,
            chosen[pack].length as int,
            PackOccupancy::none(pack, chosen[pack].length),
        );
    }
}

/// Lists, by what they say.
pub open spec fn listed(list: Result<Vec<PackOccupancy>, StoreError>) -> Result<
    Seq<PackOccupancy>,
    StoreError,
> {
    match list {
        Ok(list) => Ok(list@),
        Err(error) => Err(error),
    }
}

fn occupancy_of<B: StorageBackend>(
    backend: &mut B,
    pin: &PinnedView,
    live: &OrderedMap<PackId, u64>,
    pack: PackId,
) -> (occupancy: Result<PackOccupancy, StoreError>)
    requires
        live@ == pin@.metadata.view.live_pages(),
    ensures
        final(backend).namespace() == old(backend).namespace(),
        adapter::extends(old(backend).history(), final(backend).history()),
        adapter::quiet(old(backend).history(), final(backend).history()),
        occupancy_replay(
            final(backend).history(),
            old(backend).history().len() as int,
            pin.chosen(),
            pin@.metadata.view,
            pack,
        ) == Replay::Done(occupancy, final(backend).history().len() as int),
{
    let view: &ViewMetadata = pin.metadata().resolved();
    let length: u64 = pin.placement().length(pack)?.value;
    let scanned: Result<PackOccupancy, StoreError> = scan(
        backend,
        pin.placement(),
        view,
        pack,
        length,
    );
    let mut occupancy: PackOccupancy = match scanned {
        Ok(occupancy) => occupancy,
        Err(error) => {
            return Err(error);
        },
    };
    proof {
        lemma_scan_names(
            backend.history(),
            old(backend).history().len() as int,
            pin.chosen(),
            pack,
            view@,
            PACK_HEADER_SIZE as int,
            length as int,
            PackOccupancy::none(pack, length),
        );
    }
    let count: u64 = match live.get(&pack) {
        Some(count) => *count,
        None => 0,
    };
    if count > occupancy.total_pages {
        return Err(StoreError::Corrupt(0));
    }
    occupancy.live_pages = count;
    Ok(occupancy)
}

proof fn lemma_scan_names(
    history: Seq<Event>,
    at: int,
    chosen: Map<PackId, PlacementsModel>,
    pack: PackId,
    view: ViewModel,
    offset: int,
    end: int,
    so_far: PackOccupancy,
)
    ensures
        scan_replay(history, at, chosen, pack, view, offset, end, so_far) matches Replay::Done(
            Ok(occupancy),
            _,
        ) ==> occupancy.pack == so_far.pack && occupancy.stored_bytes == so_far.stored_bytes,
    decreases end - offset,
{
    if offset < end {
        match record_replay(history, at, chosen, pack, offset, end) {
            Replay::Done(Ok((frame, after)), next) => if after > offset
                && so_far.decoded_bytes.value + frame.shape.size() <= u64::MAX {
                lemma_scan_names(
                    history,
                    next,
                    chosen,
                    pack,
                    view,
                    after,
                    end,
                    so_far.with_frame(view, frame, after - offset),
                );
            },
            _ => {},
        }
    }
}

/// Counts the packs of a view, by their identities.
pub fn inventory<B: StorageBackend>(backend: &mut B, pin: &PinnedView) -> (list: Result<
    Vec<PackOccupancy>,
    StoreError,
>)
    ensures
        final(backend).namespace() == old(backend).namespace(),
        adapter::extends(old(backend).history(), final(backend).history()),
        adapter::quiet(old(backend).history(), final(backend).history()),
        inventory_replay(
            final(backend).history(),
            old(backend).history().len() as int,
            pin.chosen(),
            pin@.metadata.view,
            order::roll::<PackId>(pin@.metadata.view.packs()),
            0,
            Seq::empty(),
        ) == Replay::Done(listed(list), final(backend).history().len() as int),
{
    let view: &ViewMetadata = pin.metadata().resolved();
    let live: OrderedMap<PackId, u64> = view.live_pages_by_pack();
    let packs: OrderedSet<PackId> = view.packs();
    let ghost start = backend.history().len() as int;
    let ghost walk = packs.walk();
    let ghost chosen = pin.chosen();
    let ghost model = pin@.metadata.view;
    let ghost none = Seq::<PackOccupancy>::empty();
    let count: usize = packs.len();
    let mut list: Vec<PackOccupancy> = Vec::new();
    let mut i: usize = 0;
    assert(list@ =~= none);
    while i < count
        invariant
            i <= count,
            walk == packs.walk(),
            count == walk.len(),
            walk == order::roll::<PackId>(model.packs()),
            chosen == pin.chosen(),
            model == pin@.metadata.view,
            live@ == model.live_pages(),
            none == Seq::<PackOccupancy>::empty(),
            start == old(backend).history().len(),
            backend.namespace() == old(backend).namespace(),
            adapter::extends(old(backend).history(), backend.history()),
            adapter::quiet(old(backend).history(), backend.history()),
            forall|later: Seq<Event>|
                #![trigger inventory_replay(later, start, chosen, model, walk, 0, none)]
                adapter::extends(backend.history(), later) ==> inventory_replay(
                    later,
                    start,
                    chosen,
                    model,
                    walk,
                    0,
                    none,
                ) == inventory_replay(
                    later,
                    backend.history().len() as int,
                    chosen,
                    model,
                    walk,
                    i as int,
                    list@,
                ),
        decreases count - i,
    {
        let pack: PackId = *packs.at(i);
        let ghost known = backend.history();
        let ghost before = list@;
        let found: Result<PackOccupancy, StoreError> = occupancy_of(backend, pin, &live, pack);
        let ghost seen = backend.history();
        proof {
            assert(inventory_replay(seen, start, chosen, model, walk, 0, none) == inventory_replay(
                seen,
                known.len() as int,
                chosen,
                model,
                walk,
                i as int,
                before,
            ));
        }
        let occupancy: PackOccupancy = match found {
            Ok(occupancy) => occupancy,
            Err(error) => {
                return Err(error);
            },
        };
        list.push(occupancy);
        proof {
            assert forall|later: Seq<Event>|
                #![trigger inventory_replay(later, start, chosen, model, walk, 0, none)]
                adapter::extends(seen, later) implies inventory_replay(
                later,
                start,
                chosen,
                model,
                walk,
                0,
                none,
            ) == inventory_replay(
                later,
                seen.len() as int,
                chosen,
                model,
                walk,
                i as int + 1,
                list@,
            ) by {
                assert(adapter::extends(known, later));
                lemma_occupancy_settled(seen, later, known.len() as int, chosen, model, pack);
            }
        }
        i += 1;
    }
    proof {
        let h = backend.history();
        assert(adapter::extends(h, h));
        assert(inventory_replay(h, start, chosen, model, walk, 0, none) == inventory_replay(
            h,
            h.len() as int,
            chosen,
            model,
            walk,
            i as int,
            list@,
        ));
    }
    Ok(list)
}

/// The counts of a pack whose frames up to `offset` were counted.
spec fn adds_up(occupancy: PackOccupancy, offset: int) -> bool {
    &&& occupancy.frames == occupancy.fully_live_frames + occupancy.partially_obsolete_frames
        + occupancy.fully_obsolete_frames
    &&& occupancy.fully_live_frame_bytes.value + occupancy.partially_obsolete_frame_bytes.value
        + occupancy.fully_obsolete_frame_bytes.value == offset - PACK_HEADER_SIZE
    &&& occupancy.frames <= offset - PACK_HEADER_SIZE
}

proof fn lemma_scan_adds_up(
    history: Seq<Event>,
    at: int,
    chosen: Map<PackId, PlacementsModel>,
    pack: PackId,
    view: ViewModel,
    offset: int,
    end: int,
    so_far: PackOccupancy,
)
    requires
        adds_up(so_far, offset),
        PACK_HEADER_SIZE <= offset <= end <= usize::MAX,
    ensures
        scan_replay(history, at, chosen, pack, view, offset, end, so_far) matches Replay::Done(
            Ok(occupancy),
            _,
        ) ==> adds_up(occupancy, end),
    decreases end - offset,
{
    if offset < end {
        match record_replay(history, at, chosen, pack, offset, end) {
            Replay::Done(Ok((frame, after)), next) => if after > offset
                && so_far.decoded_bytes.value + frame.shape.size() <= u64::MAX {
                assert(after <= end);
                let grown = so_far.with_frame(view, frame, after - offset);
                assert(adds_up(grown, after));
                lemma_scan_adds_up(history, next, chosen, pack, view, after, end, grown);
            },
            _ => {},
        }
    }
}

/// The frames of a pack that was counted are fully live, partly obsolete or fully
/// obsolete, and so are the bytes behind its header.
pub proof fn law_occupancy_adds_up(
    history: Seq<Event>,
    at: int,
    chosen: Map<PackId, PlacementsModel>,
    view: ViewModel,
    pack: PackId,
    occupancy: PackOccupancy,
    next: int,
)
    requires
        occupancy_replay(history, at, chosen, view, pack) == Replay::Done(
            Ok::<PackOccupancy, StoreError>(occupancy),
            next,
        ),
        PACK_HEADER_SIZE <= chosen[pack].length <= usize::MAX,
    ensures
        occupancy.pack == pack,
        occupancy.stored_bytes.value == chosen[pack].length,
        occupancy.frames == occupancy.fully_live_frames + occupancy.partially_obsolete_frames
            + occupancy.fully_obsolete_frames,
        occupancy.fully_live_frame_bytes.value + occupancy.partially_obsolete_frame_bytes.value
            + occupancy.fully_obsolete_frame_bytes.value == occupancy.stored_bytes.value
            - PACK_HEADER_SIZE,
        occupancy.live_pages <= occupancy.total_pages,
{
    let none = PackOccupancy::none(pack, chosen[pack].length);
    let end = chosen[pack].length as int;
    lemma_scan_adds_up(history, at, chosen, pack, view, PACK_HEADER_SIZE as int, end, none);
    lemma_scan_names(history, at, chosen, pack, view, PACK_HEADER_SIZE as int, end, none);
}

/// What rewriting a pack would free, and what it would take.
#[derive(Clone, Copy, Debug, PartialEq, Eq)]
pub struct PackPlan {
    pub pack: PackId,
    /// The length of the pack.
    pub stored: u64,
    /// The bytes that no current page needs.
    pub obsolete: u64,
    /// The bytes of the pages in the frames that are still read.
    pub work: u64,
}

/// The bytes of the pages in the first `count` frames that stand in a pack and
/// hold a current page.
pub open spec fn live_work(
    view: ViewModel,
    list: Seq<(FrameId, LocationModel)>,
    pack: PackId,
    count: int,
) -> u64
    decreases count,
{
    if count <= 0 {
        0
    } else {
        let before = live_work(view, list, pack, count - 1);
        let location = list[count - 1].1;
        if location.pack == pack && live_count(view, location.frame, location.frame.pages.len() as int)
            > 0 {
            capped(before as int, location.frame.shape.size() as int)
        } else {
            before
        }
    }
}

/// What rewriting a pack of this length would free and take.
pub open spec fn plan_of(view: ViewModel, pack: PackId, length: u64) -> PackPlan {
    let list = view.frame_list();
    PackPlan {
        pack,
        stored: length,
        obsolete: estimate::unread(view, list, pack, length as int, list.len() as int) as u64,
        work: live_work(view, list, pack, list.len() as int),
    }
}

/// The plans of the first `count` packs. They need nothing of a payload.
pub open spec fn plans(
    view: ViewModel,
    chosen: Map<PackId, PlacementsModel>,
    packs: Seq<PackId>,
    count: int,
) -> Result<Seq<PackPlan>, StoreError>
    decreases count,
{
    if count <= 0 {
        Ok(Seq::empty())
    } else {
        match plans(view, chosen, packs, count - 1) {
            Err(error) => Err(error),
            Ok(list) => if chosen.dom().contains(packs[count - 1]) {
                Ok(list.push(plan_of(view, packs[count - 1], chosen[packs[count - 1]].length as u64)))
            } else {
                Err(StoreError::Corrupt(0))
            },
        }
    }
}

proof fn lemma_plans_end(
    view: ViewModel,
    chosen: Map<PackId, PlacementsModel>,
    packs: Seq<PackId>,
    count: int,
    more: int,
)
    requires
        plans(view, chosen, packs, count) is Err,
        count <= more,
    ensures
        plans(view, chosen, packs, more) == plans(view, chosen, packs, count),
    decreases more - count,
{
    if count < more {
        lemma_plans_end(view, chosen, packs, count, more - 1);
    }
}

/// At least one byte of work, for the comparison.
pub open spec fn weight(plan: PackPlan) -> int {
    if plan.work == 0 {
        1
    } else {
        plan.work as int
    }
}

/// A pack frees at least as many bytes for the work as another, or as many and its
/// name is not the lesser one.
pub open spec fn at_least(a: PackPlan, b: PackPlan) -> bool {
    let left = a.obsolete * weight(b);
    let right = b.obsolete * weight(a);
    left > right || (left == right && !bytes::bytes_less(a.pack.bytes@, b.pack.bytes@))
}

/// A pack is worth rewriting: current pages need less than half of its bytes, the
/// limit has room for the work, and nothing else retains it.
pub open spec fn eligible(plan: PackPlan, limit: u64, retained: Set<PackId>) -> bool {
    &&& plan.obsolete * 2 > plan.stored
    &&& plan.work <= limit
    &&& !retained.contains(plan.pack)
}

/// The best of the first `count` packs that are worth rewriting.
pub open spec fn best(list: Seq<PackPlan>, limit: u64, retained: Set<PackId>, count: int) -> Option<
    PackPlan,
>
    decreases count,
{
    if count <= 0 {
        None
    } else {
        let before = best(list, limit, retained, count - 1);
        let one = list[count - 1];
        if !eligible(one, limit, retained) {
            before
        } else {
            match before {
                Some(other) => if at_least(one, other) {
                    Some(one)
                } else {
                    before
                },
                None => Some(one),
            }
        }
    }
}

/// The packs to rewrite together, at most `steps`: the best one, then the best of
/// the others that what is left of the limit has room for.
pub open spec fn batch(list: Seq<PackPlan>, limit: u64, retained: Set<PackId>, steps: int) -> Seq<
    PackPlan,
>
    decreases steps,
{
    if steps <= 0 {
        Seq::empty()
    } else {
        match best(list, limit, retained, list.len() as int) {
            None => Seq::empty(),
            Some(one) => seq![one] + batch(
                list,
                (limit - one.work) as u64,
                retained.insert(one.pack),
                steps - 1,
            ),
        }
    }
}

/// The work of some packs.
pub open spec fn total_work(list: Seq<PackPlan>) -> int
    decreases list.len(),
{
    if list.len() == 0 {
        0
    } else {
        list[0].work + total_work(list.skip(1))
    }
}

proof fn lemma_best_eligible(list: Seq<PackPlan>, limit: u64, retained: Set<PackId>, count: int)
    requires
        0 <= count <= list.len(),
    ensures
        best(list, limit, retained, count) matches Some(one) ==> eligible(one, limit, retained)
            && list.contains(one),
    decreases count,
{
    if count > 0 {
        lemma_best_eligible(list, limit, retained, count - 1);
        assert(list.contains(list[count - 1]));
    }
}

/// The packs to rewrite together are worth it, none of them is retained, and
/// together they do not exceed the limit.
pub proof fn law_batch_fits(list: Seq<PackPlan>, limit: u64, retained: Set<PackId>, steps: int)
    ensures
        total_work(batch(list, limit, retained, steps)) <= limit,
        forall|i: int|
            0 <= i < batch(list, limit, retained, steps).len() ==> eligible(
                #[trigger] batch(list, limit, retained, steps)[i],
                limit,
                retained,
            ),
    decreases steps,
{
    if steps > 0 {
        lemma_best_eligible(list, limit, retained, list.len() as int);
        match best(list, limit, retained, list.len() as int) {
            None => {},
            Some(one) => {
                let left = (limit - one.work) as u64;
                let more = retained.insert(one.pack);
                let rest = batch(list, left, more, steps - 1);
                law_batch_fits(list, left, more, steps - 1);
                let all = batch(list, limit, retained, steps);
                assert(all.skip(1) =~= rest);
                assert forall|i: int| 0 <= i < all.len() implies eligible(
                    #[trigger] all[i],
                    limit,
                    retained,
                ) by {
                    if i > 0 {
                        assert(all[i] == rest[i - 1]);
                    }
                }
            },
        }
    }
}

/// Nothing is rewritten where no pack is worth it.
pub proof fn law_idle_batch(list: Seq<PackPlan>, limit: u64, retained: Set<PackId>, steps: int)
    requires
        forall|i: int| 0 <= i < list.len() ==> !eligible(#[trigger] list[i], limit, retained),
    ensures
        batch(list, limit, retained, steps) == Seq::<PackPlan>::empty(),
{
    lemma_best_eligible(list, limit, retained, list.len() as int);
}

/// The bytes of the pages in the frames of a pack that are still read.
fn work_of(view: &ViewMetadata, pack: PackId) -> (work: u64)
    ensures
        work == live_work(view@, view@.frame_list(), pack, view@.frame_list().len() as int),
{
    let count: usize = view.frames.len();
    let ghost list = view.frames.pairs();
    proof {
        order::lemma_walk::<FrameId, LocationModel>(list, view.frames@);
    }
    let mut work: u64 = 0;
    let mut i: usize = 0;
    while i < count
        invariant
            i <= count,
            count == list.len(),
            list == view.frames.pairs(),
            list == view@.frame_list(),
            work == live_work(view@, list, pack, i as int),
        decreases count - i,
    {
        let location: &FrameLocation = view.frames.value_at(i);
        if location.pack().same(&pack) && count_live(view, location.metadata()) > 0 {
            work = work.saturating_add(location.metadata().shape().decoded().value);
        }
        i += 1;
    }
    work
}

/// The plans of the packs of a view.
fn make_plans(pin: &PinnedView) -> (list: Result<Vec<PackPlan>, StoreError>)
    ensures
        ({
            let packs = order::roll::<PackId>(pin@.metadata.view.packs());
            plan_models(list) == plans(pin@.metadata.view, pin.chosen(), packs, packs.len() as int)
        }),
{
    let view: &ViewMetadata = pin.metadata().resolved();
    let packs: OrderedSet<PackId> = view.packs();
    let ghost walk = packs.walk();
    let ghost model = view@;
    let ghost chosen = pin.chosen();
    let count: usize = packs.len();
    let mut list: Vec<PackPlan> = Vec::new();
    let mut i: usize = 0;
    assert(list@ =~= Seq::<PackPlan>::empty());
    while i < count
        invariant
            i <= count,
            count == walk.len(),
            walk == packs.walk(),
            walk == order::roll::<PackId>(model.packs()),
            model == view@,
            model == pin@.metadata.view,
            chosen == pin.chosen(),
            plans(model, chosen, walk, i as int) == Ok::<Seq<PackPlan>, StoreError>(list@),
        decreases count - i,
    {
        let pack: PackId = *packs.at(i);
        match pin.placement().length(pack) {
            Err(error) => {
                proof {
                    assert(plans(model, chosen, walk, i as int + 1) == Err::<
                        Seq<PackPlan>,
                        StoreError,
                    >(error));
                    lemma_plans_end(model, chosen, walk, i as int + 1, walk.len() as int);
                }
                return Err(error);
            },
            Ok(length) => {
                let plan: PackPlan = PackPlan {
                    pack,
                    stored: length.value,
                    obsolete: unread_of(view, pack, length.value),
                    work: work_of(view, pack),
                };
                assert(plan == plan_of(model, pack, length.value));
                list.push(plan);
            },
        }
        i += 1;
    }
    Ok(list)
}

/// Plans, or why there are none.
pub open spec fn plan_models(list: Result<Vec<PackPlan>, StoreError>) -> Result<
    Seq<PackPlan>,
    StoreError,
> {
    match list {
        Ok(l) => Ok(l@),
        Err(e) => Err(e),
    }
}

fn wins(one: &PackPlan, other: &PackPlan) -> (better: bool)
    ensures
        better == at_least(*one, *other),
{
    let mine: u128 = if one.work == 0 {
        1
    } else {
        one.work as u128
    };
    let theirs: u128 = if other.work == 0 {
        1
    } else {
        other.work as u128
    };
    let a: u128 = one.obsolete as u128;
    let b: u128 = other.obsolete as u128;
    proof {
        assert(0 <= a * theirs <= u64::MAX * u64::MAX) by (nonlinear_arith)
            requires
                0 <= a <= u64::MAX,
                0 <= theirs <= u64::MAX,
        ;
        assert(0 <= b * mine <= u64::MAX * u64::MAX) by (nonlinear_arith)
            requires
                0 <= b <= u64::MAX,
                0 <= mine <= u64::MAX,
        ;
    }
    let left: u128 = a * theirs;
    let right: u128 = b * mine;
    left > right || (left == right && !less_bytes(
        one.pack.bytes.as_slice(),
        other.pack.bytes.as_slice(),
    ))
}

/// The pack that is most worth rewriting, if any is worth it.
pub fn choose_pack(list: &Vec<PackPlan>, limit: u64, retained: &OrderedSet<PackId>) -> (chosen:
    Option<PackPlan>)
    ensures
        chosen == best(list@, limit, retained@, list@.len() as int),
{
    let mut chosen: Option<PackPlan> = None;
    let mut i: usize = 0;
    while i < list.len()
        invariant
            i <= list@.len(),
            chosen == best(list@, limit, retained@, i as int),
        decreases list.len() - i,
    {
        let one: PackPlan = list[i];
        let doubled: u128 = one.obsolete as u128 * 2;
        if doubled > one.stored as u128 && one.work <= limit && !retained.contains(&one.pack) {
            assert(eligible(list@[i as int], limit, retained@));
            match chosen {
                Some(other) => {
                    if wins(&one, &other) {
                        chosen = Some(one);
                    }
                },
                None => {
                    chosen = Some(one);
                },
            }
        }
        i += 1;
    }
    chosen
}

/// The packs to rewrite together.
pub fn choose_packs(list: &Vec<PackPlan>, limit: u64, retained: OrderedSet<PackId>) -> (chosen: Vec<
    PackPlan,
>)
    ensures
        chosen@ == batch(list@, limit, retained@, list@.len() as int),
{
    let ghost goal = batch(list@, limit, retained@, list@.len() as int);
    let mut excluded: OrderedSet<PackId> = retained;
    let mut left: u64 = limit;
    let mut chosen: Vec<PackPlan> = Vec::new();
    let mut i: usize = 0;
    assert(chosen@ + goal =~= goal);
    while i < list.len()
        invariant
            i <= list@.len(),
            goal == batch(list@, limit, retained@, list@.len() as int),
            goal == chosen@ + batch(list@, left, excluded@, list@.len() - i),
        decreases list.len() - i,
    {
        match choose_pack(list, left, &excluded) {
            None => {
                assert(chosen@ =~= goal);
                return chosen;
            },
            Some(one) => {
                proof {
                    lemma_best_eligible(list@, left, excluded@, list@.len() as int);
                }
                let ghost before = chosen@;
                let ghost rest = batch(
                    list@,
                    (left - one.work) as u64,
                    excluded@.insert(one.pack),
                    list@.len() - i - 1,
                );
                excluded.insert(one.pack);
                left = left - one.work;
                chosen.push(one);
                assert(before + (seq![one] + rest) =~= chosen@ + rest);
            },
        }
        i += 1;
    }
    assert(chosen@ =~= goal);
    chosen
}

proof fn lemma_at_least_transitive(a: PackPlan, b: PackPlan, c: PackPlan)
    requires
        at_least(a, b),
        at_least(b, c),
    ensures
        at_least(a, c),
{
    let ra = a.obsolete as int;
    let rb = b.obsolete as int;
    let rc = c.obsolete as int;
    let wa = weight(a);
    let wb = weight(b);
    let wc = weight(c);
    assert(ra * wc >= rc * wa && (ra * wb > rb * wa || rb * wc > rc * wb ==> ra * wc > rc * wa))
        by (nonlinear_arith)
        requires
            ra * wb >= rb * wa,
            rb * wc >= rc * wb,
            wa >= 1,
            wb >= 1,
            wc >= 1,
    ;
    if ra * wc == rc * wa {
        if bytes::bytes_less(a.pack.bytes@, c.pack.bytes@) {
            bytes::lemma_bytes_less_total(a.pack.bytes@, b.pack.bytes@);
            bytes::lemma_bytes_less_total(b.pack.bytes@, c.pack.bytes@);
            if a.pack.bytes@ != b.pack.bytes@ && b.pack.bytes@ != c.pack.bytes@ {
                bytes::lemma_bytes_less_transitive(c.pack.bytes@, b.pack.bytes@, a.pack.bytes@);
                bytes::lemma_bytes_less_transitive(a.pack.bytes@, c.pack.bytes@, a.pack.bytes@);
                bytes::lemma_bytes_less_irreflexive(a.pack.bytes@);
            }
        }
    }
}

proof fn lemma_at_least_total(a: PackPlan, b: PackPlan)
    ensures
        at_least(a, b) || at_least(b, a),
{
    if bytes::bytes_less(a.pack.bytes@, b.pack.bytes@) && bytes::bytes_less(
        b.pack.bytes@,
        a.pack.bytes@,
    ) {
        bytes::lemma_bytes_less_transitive(a.pack.bytes@, b.pack.bytes@, a.pack.bytes@);
        bytes::lemma_bytes_less_irreflexive(a.pack.bytes@);
    }
}

/// The pack to rewrite is worth it, and none that is worth it is better; there is
/// none only where no pack is worth it.
pub proof fn law_best_is_greatest(
    list: Seq<PackPlan>,
    limit: u64,
    retained: Set<PackId>,
    count: int,
    i: int,
)
    requires
        0 <= i < count <= list.len(),
    ensures
        match best(list, limit, retained, count) {
            Some(one) => eligible(one, limit, retained) && (eligible(list[i], limit, retained)
                ==> at_least(one, list[i])),
            None => !eligible(list[i], limit, retained),
        },
    decreases count,
{
    let one = list[count - 1];
    if count > 1 {
        law_best_is_greatest(list, limit, retained, count - 1, if i < count - 1 {
            i
        } else {
            0
        });
    }
    lemma_at_least_total(one, one);
    match best(list, limit, retained, count - 1) {
        Some(other) => {
            lemma_at_least_total(one, other);
            if eligible(one, limit, retained) && at_least(one, other) && i < count - 1 && eligible(
                list[i],
                limit,
                retained,
            ) {
                lemma_at_least_transitive(one, other, list[i]);
            }
        },
        None => {},
    }
}

/// What choosing the packs to rewrite came to: nothing is asked where no step may
/// do anything, and no pack is read.
pub open spec fn packs_chosen(
    earlier: Seq<Event>,
    later: Seq<Event>,
    state: StateModel,
    readers: Seq<Lease>,
    pin: PinModel,
    chosen: Map<PackId, PlacementsModel>,
    limit: u64,
    done: Result<Seq<PackPlan>, StoreError>,
) -> bool {
    let packs = order::roll::<PackId>(pin.metadata.view.packs());
    if limit == 0 {
        done == Ok::<Seq<PackPlan>, StoreError>(Seq::empty()) && later == earlier
    } else {
        ||| done matches Err(e) && opening::unopened(e, earlier, later)
        ||| match trace::others_replay(later, earlier.len() as int, state, readers, pin.id) {
            Replay::Astray => false,
            Replay::Done(Err(e), next) => next == later.len() && done == Err::<
                Seq<PackPlan>,
                StoreError,
            >(e),
            Replay::Done(Ok(trace), next) => next == later.len() && match plans(
                pin.metadata.view,
                chosen,
                packs,
                packs.len() as int,
            ) {
                Err(e) => done == Err::<Seq<PackPlan>, StoreError>(e),
                Ok(list) => done == Ok::<Seq<PackPlan>, StoreError>(
                    batch(list, limit, trace::packs_among(trace.live), list.len() as int),
                ),
            },
        }
    }
}

/// Chooses the packs to rewrite together. This only looks: nothing may be removed
/// or published on its account.
pub fn eligible_packs<B: StorageBackend>(
    backend: &mut B,
    state: &State,
    readers: &Vec<Lease>,
    pin: &PinnedView,
    layout: &LayoutPolicy,
) -> (found: Result<Vec<PackPlan>, StoreError>)
    ensures
        final(backend).namespace() == old(backend).namespace(),
        adapter::extends(old(backend).history(), final(backend).history()),
        adapter::quiet(old(backend).history(), final(backend).history()),
        packs_chosen(
            old(backend).history(),
            final(backend).history(),
            state@,
            readers@,
            pin@,
            pin.chosen(),
            layout.maintenance_input,
            plan_models(found),
        ),
{
    if layout.maintenance_input == 0 {
        let none: Vec<PackPlan> = Vec::new();
        assert(none@ =~= Seq::<PackPlan>::empty());
        return Ok(none);
    }
    let retained: OrderedSet<PackId> = retained_packs_except(backend, state, readers, pin.id())?;
    let list: Vec<PackPlan> = make_plans(pin)?;
    Ok(choose_packs(&list, layout.maintenance_input, retained))
}

/// The first of some packs.
pub open spec fn first_plan(list: Seq<PackPlan>) -> Option<PackPlan> {
    if list.len() == 0 {
        None
    } else {
        Some(list[0])
    }
}

/// Chooses the pack that is most worth rewriting, if any is. This only looks.
pub fn eligible_pack<B: StorageBackend>(
    backend: &mut B,
    state: &State,
    readers: &Vec<Lease>,
    pin: &PinnedView,
    layout: &LayoutPolicy,
) -> (found: Result<Option<PackPlan>, StoreError>)
    ensures
        final(backend).namespace() == old(backend).namespace(),
        adapter::extends(old(backend).history(), final(backend).history()),
        adapter::quiet(old(backend).history(), final(backend).history()),
        exists|done: Result<Seq<PackPlan>, StoreError>|
            (match done {
                Ok(list) => found == Ok::<Option<PackPlan>, StoreError>(first_plan(list)),
                Err(e) => found == Err::<Option<PackPlan>, StoreError>(e),
            }) && #[trigger] packs_chosen(
                old(backend).history(),
                final(backend).history(),
                state@,
                readers@,
                pin@,
                pin.chosen(),
                layout.maintenance_input,
                done,
            ),
{
    let list: Result<Vec<PackPlan>, StoreError> = eligible_packs(
        backend,
        state,
        readers,
        pin,
        layout,
    );
    assert(packs_chosen(
        old(backend).history(),
        backend.history(),
        state@,
        readers@,
        pin@,
        pin.chosen(),
        layout.maintenance_input,
        plan_models(list),
    ));
    match list {
        Ok(list) => if list.len() == 0 {
            Ok(None)
        } else {
            Ok(Some(list[0]))
        },
        Err(error) => Err(error),
    }
}

/// What the current pages of a pack come to: frames to copy as they are, and pages
/// to write anew.
#[verifier::ext_equal]
pub struct HarvestModel {
    pub contents: Map<PageNumber, Seq<u8>>,
    pub changes: Seq<PageChange>,
    pub copies: Content,
    pub decoded: u64,
}

impl HarvestModel {
    pub open spec fn none() -> HarvestModel {
        HarvestModel {
            contents: Map::empty(),
            changes: Seq::empty(),
            copies: Seq::empty(),
            decoded: 0,
        }
    }

    /// With the first `count` of some pages to write anew.
    pub open spec fn with_pages(self, slots: Seq<(PageVersion, Seq<u8>)>, count: int) -> HarvestModel
        decreases count,
    {
        if count <= 0 {
            self
        } else {
            let before = self.with_pages(slots, count - 1);
            let (version, bytes) = slots[count - 1];
            HarvestModel {
                contents: before.contents.insert(version.page, bytes),
                changes: before.changes.push((version.page, version.txid)),
                ..before
            }
        }
    }

    /// With a frame: copied where all of its pages are current, decoded and taken
    /// apart else.
    pub open spec fn with_frame(
        self,
        view: ViewModel,
        frame: FrameModel,
        payload: Seq<u8>,
        raw: Seq<u8>,
    ) -> HarvestModel {
        if live_count(view, frame, frame.pages.len() as int) == frame.pages.len() {
            HarvestModel { copies: self.copies.push((frame, payload)), ..self }
        } else {
            let more = HarvestModel {
                decoded: capped(self.decoded as int, raw.len() as int),
                ..self
            };
            let slots = page::live_slots(view, frame, raw, 0);
            more.with_pages(slots, slots.len() as int)
        }
    }
}

/// What fetching a frame came to: its payload, and what that decodes to.
pub open spec fn frame_replay(
    history: Seq<Event>,
    at: int,
    chosen: Map<PackId, PlacementsModel>,
    dictionaries: Map<DictionaryId, Seq<u8>>,
    location: LocationModel,
) -> Replay<(Seq<u8>, Seq<u8>)> {
    if location.payload.offset.value < FRAME_HEADER_SIZE {
        Replay::Done(Err(StoreError::Range), at)
    } else {
        match pin::pin_replay(history, at, chosen, location.pack, page::record_range(location)) {
            Replay::Astray => Replay::Astray,
            Replay::Done(Err(error), next) => Replay::Done(Err(error), next),
            Replay::Done(Ok(record), next) => match frame::decoded_payload(
                location.frame.encoding,
                page::record_payload(record),
                dictionaries,
            ) {
                Some(raw) if page::record_holds(location, record, dictionaries, raw) => Replay::Done(
                    Ok((page::record_payload(record), raw)),
                    next,
                ),
                _ => Replay::Astray,
            },
        }
    }
}

/// Fetching a frame failed.
pub open spec fn frame_refused(
    history: Seq<Event>,
    at: int,
    chosen: Map<PackId, PlacementsModel>,
    dictionaries: Map<DictionaryId, Seq<u8>>,
    location: LocationModel,
    error: StoreError,
) -> bool {
    if location.payload.offset.value < FRAME_HEADER_SIZE {
        error == StoreError::Range
    } else {
        match pin::pin_replay(history, at, chosen, location.pack, page::record_range(location)) {
            Replay::Astray => false,
            Replay::Done(Err(e), _) => error == e,
            Replay::Done(Ok(record), _) => page::record_refused(location, record, dictionaries, error),
        }
    }
}

/// The first current page of a frame from slot `i` on.
pub open spec fn first_page(view: ViewModel, frame: FrameModel, i: int) -> Option<PageNumber>
    decreases frame.pages.len() - i,
{
    if i >= frame.pages.len() {
        None
    } else if is_live(view, frame, i) {
        Some(frame.pages[i].page)
    } else {
        first_page(view, frame, i + 1)
    }
}

/// The first current page of a frame is beyond the size of the view.
pub open spec fn beyond(view: ViewModel, frame: FrameModel) -> bool {
    first_page(view, frame, 0) matches Some(page) && page.value > view.size.count()
}

/// A frame of one of the packs holds a current page.
pub open spec fn wanted(view: ViewModel, location: LocationModel, packs: Set<PackId>) -> bool {
    packs.contains(location.pack) && live_count(
        view,
        location.frame,
        location.frame.pages.len() as int,
    ) > 0
}

/// The frames among the first `count` of a list that are wanted.
pub open spec fn wanted_frames(
    view: ViewModel,
    packs: Set<PackId>,
    list: Seq<(FrameId, LocationModel)>,
    count: int,
) -> Seq<LocationModel>
    decreases count,
{
    if count <= 0 {
        Seq::empty()
    } else {
        let before = wanted_frames(view, packs, list, count - 1);
        if wanted(view, list[count - 1].1, packs) {
            before.push(list[count - 1].1)
        } else {
            before
        }
    }
}

/// What the record of a frame that holds a current page gives: its payload, and
/// what that decodes to. Where all of its pages are current the payload is enough,
/// and nothing is decoded.
pub open spec fn live_taken(pin: PinModel, location: LocationModel, record: Seq<u8>) -> Option<
    (Seq<u8>, Seq<u8>),
> {
    let frame = location.frame;
    let payload = page::record_payload(record);
    if live_count(pin.metadata.view, frame, frame.pages.len() as int) == frame.pages.len() {
        if page::record_copies(location, record) {
            Some((payload, Seq::empty()))
        } else {
            None
        }
    } else {
        match frame::decoded_payload(frame.encoding, payload, pin.dictionaries) {
            Some(raw) if page::record_holds(location, record, pin.dictionaries, raw) => Some(
                (payload, raw),
            ),
            _ => None,
        }
    }
}

/// Why the record of a frame that holds a current page is refused.
pub open spec fn live_refused(
    pin: PinModel,
    location: LocationModel,
    record: Seq<u8>,
    error: StoreError,
) -> bool {
    let frame = location.frame;
    if live_count(pin.metadata.view, frame, frame.pages.len() as int) == frame.pages.len() {
        page::copy_refused(location, record, error)
    } else {
        page::record_refused(location, record, pin.dictionaries, error)
    }
}

/// The current pages of some packs, from place `i` of the frames on, out of windows
/// that were fetched.
pub open spec fn harvest_of(
    pin: PinModel,
    packs: Set<PackId>,
    list: Seq<(FrameId, LocationModel)>,
    i: int,
    fetched: WindowsModel,
    so_far: HarvestModel,
) -> Option<HarvestModel>
    decreases list.len() - i,
{
    if i >= list.len() {
        Some(so_far)
    } else if !wanted(pin.metadata.view, list[i].1, packs) {
        harvest_of(pin, packs, list, i + 1, fetched, so_far)
    } else if beyond(pin.metadata.view, list[i].1.frame) {
        None
    } else {
        match maintenance_read::record_in(fetched, list[i].1) {
            Err(_) => None,
            Ok(record) => match live_taken(pin, list[i].1, record) {
                None => None,
                Some((payload, raw)) => harvest_of(
                    pin,
                    packs,
                    list,
                    i + 1,
                    fetched,
                    so_far.with_frame(pin.metadata.view, list[i].1.frame, payload, raw),
                ),
            },
        }
    }
}

/// Why there are no such pages: a frame, from place `i` on, is refused, and those
/// before it are sound.
pub open spec fn harvest_refused(
    pin: PinModel,
    packs: Set<PackId>,
    list: Seq<(FrameId, LocationModel)>,
    i: int,
    fetched: WindowsModel,
    error: StoreError,
) -> bool
    decreases list.len() - i,
{
    if i >= list.len() {
        false
    } else if !wanted(pin.metadata.view, list[i].1, packs) {
        harvest_refused(pin, packs, list, i + 1, fetched, error)
    } else if beyond(pin.metadata.view, list[i].1.frame) {
        error == StoreError::Range
    } else {
        match maintenance_read::record_in(fetched, list[i].1) {
            Err(e) => error == e,
            Ok(record) => live_refused(pin, list[i].1, record, error) || (live_taken(
                pin,
                list[i].1,
                record,
            ) is Some && harvest_refused(pin, packs, list, i + 1, fetched, error)),
        }
    }
}

/// What gathering the current pages of some packs came to. Frames that stand close
/// together are read together, and each read is made once.
pub open spec fn gather_replay(
    history: Seq<Event>,
    at: int,
    pin: PinModel,
    chosen: Map<PackId, PlacementsModel>,
    packs: Set<PackId>,
) -> Replay<HarvestModel> {
    let list = pin.metadata.view.frame_list();
    let frames = wanted_frames(pin.metadata.view, packs, list, list.len() as int);
    match maintenance_read::spans_from(chosen, frames, frames.len() as int) {
        Err(error) => Replay::Done(Err(error), at),
        Ok(spans) => match maintenance_read::plan_of(spans) {
            Err(error) => Replay::Done(Err(error), at),
            Ok(windows) => match maintenance_read::windows_replay(
                history,
                at,
                (ReadsModel { chosen, windows, cached: None }),
                0,
                Seq::empty(),
            ) {
                Replay::Astray => Replay::Astray,
                Replay::Done(Err(error), next) => Replay::Done(Err(error), next),
                Replay::Done(Ok(contents), next) => match harvest_of(
                    pin,
                    packs,
                    list,
                    0,
                    (WindowsModel { windows, contents }),
                    HarvestModel::none(),
                ) {
                    Some(harvest) => Replay::Done(Ok(harvest), next),
                    None => Replay::Astray,
                },
            },
        },
    }
}

/// Gathering the current pages of some packs failed.
pub open spec fn gather_refused(
    history: Seq<Event>,
    at: int,
    pin: PinModel,
    chosen: Map<PackId, PlacementsModel>,
    packs: Set<PackId>,
    error: StoreError,
) -> bool {
    let list = pin.metadata.view.frame_list();
    let frames = wanted_frames(pin.metadata.view, packs, list, list.len() as int);
    match maintenance_read::spans_from(chosen, frames, frames.len() as int) {
        Err(e) => error == e && history.len() == at,
        Ok(spans) => match maintenance_read::plan_of(spans) {
            Err(e) => error == e && history.len() == at,
            Ok(windows) => match maintenance_read::windows_replay(
                history,
                at,
                (ReadsModel { chosen, windows, cached: None }),
                0,
                Seq::empty(),
            ) {
                Replay::Astray => false,
                Replay::Done(Err(e), next) => error == e && next == history.len(),
                Replay::Done(Ok(contents), next) => next == history.len() && harvest_refused(
                    pin,
                    packs,
                    list,
                    0,
                    (WindowsModel { windows, contents }),
                    error,
                ),
            },
        },
    }
}

/// The current pages of some packs.
struct Harvest {
    contents: OrderedMap<PageNumber, Vec<u8>>,
    changes: Vec<PageChange>,
    copies: Vec<EncodedFrame>,
    decoded: u64,
}

impl View for Harvest {
    type V = HarvestModel;

    closed spec fn view(&self) -> HarvestModel {
        HarvestModel {
            contents: self.contents@,
            changes: self.changes@,
            copies: seal::frames_of(self.copies@),
            decoded: self.decoded,
        }
    }
}

impl Harvest {
    /// Takes in pages to write anew.
    fn take_pages(&mut self, pages: Vec<(PageVersion, Vec<u8>)>)
        ensures
            final(self)@ == old(self)@.with_pages(
                page::page_models(pages@),
                pages@.len() as int,
            ),
    {
        let ghost slots = page::page_models(pages@);
        let mut i: usize = 0;
        while i < pages.len()
            invariant
                i <= pages@.len(),
                slots == page::page_models(pages@),
                self@ == old(self)@.with_pages(slots, i as int),
            decreases pages.len() - i,
        {
            let ghost before = self@;
            let version: PageVersion = pages[i].0;
            self.contents.insert(version.page, copied(pages[i].1.as_slice()));
            self.changes.push((version.page, version.txid));
            proof {
                assert(slots[i as int] == (version, pages@[i as int].1@));
                assert(self@ =~= (HarvestModel {
                    contents: before.contents.insert(version.page, pages@[i as int].1@),
                    changes: before.changes.push((version.page, version.txid)),
                    ..before
                }));
            }
            i += 1;
        }
    }

    /// Takes in a frame that is copied as it stands.
    fn take_copy(&mut self, encoded: EncodedFrame)
        ensures
            final(self)@ == (HarvestModel {
                copies: old(self)@.copies.push((encoded.about(), encoded.stored())),
                ..old(self)@
            }),
    {
        let ghost before = self@;
        let ghost copies = self.copies@;
        let ghost added = (encoded.about(), encoded.stored());
        self.copies.push(encoded);
        assert(seal::frames_of(self.copies@) =~= seal::frames_of(copies).push(added));
        assert(self@ =~= (HarvestModel { copies: before.copies.push(added), ..before }));
    }

    /// Takes a frame apart.
    fn take_apart(&mut self, reference: &StoredPageRef<'_>, decoded: &VerifiedFrame, Ghost(payload): Ghost<Seq<u8>>)
        requires
            reference.wf(),
            decoded.of() == reference.location().frame.id,
            live_count(
                reference.pin()@.metadata.view,
                reference.location().frame,
                reference.location().frame.pages.len() as int,
            ) != reference.location().frame.pages.len(),
        ensures
            final(self)@ == old(self)@.with_frame(
                reference.pin()@.metadata.view,
                reference.location().frame,
                payload,
                decoded@,
            ),
    {
        let ghost before = self@;
        let length: u64 = decoded.bytes().len() as u64;
        self.decoded = self.decoded.saturating_add(length);
        let ghost counted = self@;
        assert(counted =~= (HarvestModel {
            decoded: capped(before.decoded as int, decoded@.len() as int),
            ..before
        }));
        match reference.cache_pages(decoded) {
            Ok(pages) => {
                self.take_pages(pages);
            },
            Err(_) => {
                assert(false);
            },
        }
    }
}

/// The first current page of a frame.
fn first_live(view: &ViewMetadata, metadata: &FrameMetadata) -> (first: Option<PageNumber>)
    ensures
        match first {
            Some(page) => live_count(view@, metadata@, metadata@.pages.len() as int) > 0
                && first_page(view@, metadata@, 0) == Some(page) && view@.pages.dom().contains(page)
                && view@.pages[page].frame == metadata@.id,
            None => live_count(view@, metadata@, metadata@.pages.len() as int) == 0,
        },
{
    let pages: &[PageVersion] = metadata.pages();
    let mut i: usize = 0;
    while i < pages.len()
        invariant
            i <= pages@.len(),
            pages@ == metadata@.pages,
            live_count(view@, metadata@, i as int) == 0,
            first_page(view@, metadata@, 0) == first_page(view@, metadata@, i as int),
        decreases pages.len() - i,
    {
        if view.is_live(pages[i].page, metadata.id()) {
            proof {
                lemma_live_grows(view@, metadata@, i as int + 1, pages@.len() as int);
            }
            return Some(pages[i].page);
        }
        i += 1;
    }
    None
}

proof fn lemma_live_grows(view: ViewModel, frame: FrameModel, count: int, more: int)
    requires
        0 <= count <= more,
    ensures
        0 <= live_count(view, frame, count) <= live_count(view, frame, more),
    decreases more,
{
    if count < more {
        lemma_live_grows(view, frame, count, more - 1);
    } else if more > 0 {
        lemma_live_grows(view, frame, count - 1, more - 1);
    }
}

/// Takes in the record of a frame that holds a current page: as it stands where
/// all of its pages are current, decoded else.
fn gather_frame(
    pin: &PinnedView,
    location: &FrameLocation,
    page: PageNumber,
    whole: bool,
    fetched: &FetchedWindows,
    harvest: &mut Harvest,
) -> (done: Result<(), StoreError>)
    requires
        pin@.metadata.view.frames.dom().contains(location@.frame.id),
        pin@.metadata.view.frames[location@.frame.id] == location@,
        pin@.metadata.view.pages.dom().contains(page),
        pin@.metadata.view.pages[page].frame == location@.frame.id,
        whole == (live_count(
            pin@.metadata.view,
            location@.frame,
            location@.frame.pages.len() as int,
        ) == location@.frame.pages.len()),
    ensures
        match done {
            Ok(_) => page.value <= pin@.metadata.view.size.count() && (maintenance_read::record_in(
                fetched@,
                location@,
            ) matches Ok(record) && (live_taken(pin@, location@, record) matches Some(
                (payload, raw),
            ) && final(harvest)@ == old(harvest)@.with_frame(
                pin@.metadata.view,
                location@.frame,
                payload,
                raw,
            ))),
            Err(e) => if page.value > pin@.metadata.view.size.count() {
                e == StoreError::Range
            } else {
                match maintenance_read::record_in(fetched@, location@) {
                    Err(error) => e == error,
                    Ok(record) => live_refused(pin@, location@, record, e),
                }
            },
        },
{
    match pin.resolve(page) {
        Ok(ResolvedPage::Stored(reference)) => {
            let record: Vec<u8> = fetched.record(location)?;
            if whole {
                let encoded: EncodedFrame = reference.copy_record(record.as_slice())?;
                harvest.take_copy(encoded);
            } else {
                let (encoded, decoded) = reference.decode_record(record.as_slice())?;
                harvest.take_apart(&reference, &decoded, Ghost(encoded.stored()));
            }
            Ok(())
        },
        Ok(ResolvedPage::Zero(_)) => {
            assert(false);
            Err(StoreError::Corrupt(0))
        },
        Err(error) => Err(error),
    }
}

/// The frames of some packs that hold a current page.
fn find_wanted<'a>(view: &'a ViewMetadata, packs: &OrderedSet<PackId>) -> (frames: Vec<
    &'a FrameLocation,
>)
    ensures
        maintenance_read::locations_of(frames@) == wanted_frames(
            view@,
            packs@,
            view@.frame_list(),
            view@.frame_list().len() as int,
        ),
{
    let ghost list = view@.frame_list();
    let count: usize = view.frames.len();
    let mut frames: Vec<&'a FrameLocation> = Vec::new();
    let mut i: usize = 0;
    assert(maintenance_read::locations_of(frames@) =~= Seq::<LocationModel>::empty());
    while i < count
        invariant
            i <= count,
            count == list.len(),
            list == view@.frame_list(),
            list == view.frames.pairs(),
            maintenance_read::locations_of(frames@) == wanted_frames(view@, packs@, list, i as int),
        decreases count - i,
    {
        let location: &'a FrameLocation = view.frames.value_at(i);
        assert(location@ == list[i as int].1);
        let ghost before = frames@;
        if packs.contains(&location.pack()) && first_live(view, location.metadata()).is_some() {
            frames.push(location);
            assert(maintenance_read::locations_of(frames@) =~= maintenance_read::locations_of(
                before,
            ).push(location@));
        }
        i += 1;
    }
    frames
}

/// Gathers the current pages of some packs out of windows that were fetched.
fn take_frames(pin: &PinnedView, packs: &OrderedSet<PackId>, fetched: &FetchedWindows) -> (harvest:
    Result<Harvest, StoreError>)
    ensures
        ({
            let list = pin@.metadata.view.frame_list();
            match harvest {
                Ok(h) => harvest_of(pin@, packs@, list, 0, fetched@, HarvestModel::none()) == Some(
                    h@,
                ),
                Err(e) => harvest_refused(pin@, packs@, list, 0, fetched@, e),
            }
        }),
{
    let view: &ViewMetadata = pin.metadata().resolved();
    let ghost model = pin@.metadata.view;
    let ghost list = model.frame_list();
    let ghost none = HarvestModel::none();
    let count: usize = view.frames.len();
    let mut harvest: Harvest = Harvest {
        contents: OrderedMap::new(),
        changes: Vec::new(),
        copies: Vec::new(),
        decoded: 0,
    };
    proof {
        order::lemma_walk::<FrameId, LocationModel>(list, model.frames);
        assert(harvest@ =~= none);
    }
    let mut i: usize = 0;
    while i < count
        invariant
            i <= count,
            count == list.len(),
            list == model.frame_list(),
            list == view.frames.pairs(),
            view@ == model,
            model == pin@.metadata.view,
            none == HarvestModel::none(),
            validation::frames_sound(model),
            forall|j: int|
                0 <= j < list.len() ==> model.frames.dom().contains((#[trigger] list[j]).0)
                    && model.frames[list[j].0] == list[j].1,
            harvest_of(pin@, packs@, list, 0, fetched@, none) == harvest_of(
                pin@,
                packs@,
                list,
                i as int,
                fetched@,
                harvest@,
            ),
            forall|error: StoreError|
                #![trigger harvest_refused(pin@, packs@, list, 0, fetched@, error)]
                harvest_refused(pin@, packs@, list, i as int, fetched@, error) ==> harvest_refused(
                    pin@,
                    packs@,
                    list,
                    0,
                    fetched@,
                    error,
                ),
        decreases count - i,
    {
        let location: &FrameLocation = view.frames.value_at(i);
        assert(location@ == list[i as int].1);
        assert(validation::location_sound(model, list[i as int].0, location@));
        if !packs.contains(&location.pack()) {
            assert(!wanted(model, list[i as int].1, packs@));
            i += 1;
            continue;
        }
        let first: PageNumber = match first_live(view, location.metadata()) {
            Some(first) => first,
            None => {
                assert(!wanted(model, list[i as int].1, packs@));
                i += 1;
                continue;
            },
        };
        assert(wanted(model, list[i as int].1, packs@));
        let whole: bool = count_live(view, location.metadata()) == location.metadata().pages().len() as u64;
        match gather_frame(pin, location, first, whole, fetched, &mut harvest) {
            Ok(_) => {},
            Err(error) => {
                assert(harvest_refused(pin@, packs@, list, i as int, fetched@, error));
                return Err(error);
            },
        }
        proof {
            assert forall|error: StoreError|
                #![trigger harvest_refused(pin@, packs@, list, 0, fetched@, error)]
                harvest_refused(
                    pin@,
                    packs@,
                    list,
                    i as int + 1,
                    fetched@,
                    error,
                ) implies harvest_refused(pin@, packs@, list, 0, fetched@, error) by {
                assert(harvest_refused(pin@, packs@, list, i as int, fetched@, error));
            }
        }
        i += 1;
    }
    Ok(harvest)
}

/// Gathers the current pages of some packs.
fn gather_packs<B: StorageBackend>(
    backend: &mut B,
    pin: &PinnedView,
    packs: &OrderedSet<PackId>,
) -> (harvest: Result<Harvest, StoreError>)
    ensures
        final(backend).namespace() == old(backend).namespace(),
        adapter::extends(old(backend).history(), final(backend).history()),
        adapter::quiet(old(backend).history(), final(backend).history()),
        match harvest {
            Ok(h) => gather_replay(
                final(backend).history(),
                old(backend).history().len() as int,
                pin@,
                pin.chosen(),
                packs@,
            ) == Replay::Done(
                Ok::<HarvestModel, StoreError>(h@),
                final(backend).history().len() as int,
            ),
            Err(e) => gather_refused(
                final(backend).history(),
                old(backend).history().len() as int,
                pin@,
                pin.chosen(),
                packs@,
                e,
            ),
        },
{
    let frames: Vec<&FrameLocation> = find_wanted(pin.metadata().resolved(), packs);
    let reads: MaintenanceReads<'_> = MaintenanceReads::new(pin.placement(), &frames)?;
    let ghost planned = reads@;
    let fetched: FetchedWindows = reads.fetch(backend)?;
    assert(fetched@ =~= (WindowsModel {
        windows: planned.windows,
        contents: fetched@.contents,
    }));
    take_frames(pin, packs, &fetched)
}

/// A view that was rewritten physically. It stands for its source alone.
#[must_use]
pub struct RepackCandidate {
    source: ManifestId,
    manifest: DurableView,
    work: RepackWork,
}

/// What a rewrite did.
#[derive(Clone, Copy, Debug, PartialEq, Eq)]
pub struct RepackWork {
    /// Frames that were copied as they stand.
    pub copied_frames: usize,
    /// The bytes of their payloads.
    pub copied_bytes: u64,
    /// The bytes that were decoded, from frames that are only partly live.
    pub decoded: u64,
}

/// The bytes of the first `count` payloads.
pub open spec fn copied_length(copies: Content, count: int) -> u64
    decreases count,
{
    if count <= 0 {
        0
    } else {
        capped(copied_length(copies, count - 1) as int, copies[count - 1].1.len() as int)
    }
}

impl HarvestModel {
    /// What gathering this took.
    pub open spec fn work(self) -> RepackWork {
        RepackWork {
            copied_frames: self.copies.len() as usize,
            copied_bytes: copied_length(self.copies, self.copies.len() as int),
            decoded: self.decoded,
        }
    }
}

impl RepackCandidate {
    /// The manifest that the candidate stands for.
    pub closed spec fn origin(&self) -> ManifestId {
        self.source
    }

    /// The manifest that was published.
    pub closed spec fn result(&self) -> (ManifestId, ValidatedModel) {
        (self.manifest.of(), self.manifest.resolution())
    }

    /// What the rewrite did.
    pub closed spec fn effort(&self) -> RepackWork {
        self.work
    }

    /// The bytes that were decoded.
    pub open spec fn input(&self) -> u64 {
        self.effort().decoded
    }

    /// What the rewrite did.
    pub fn work(&self) -> (work: RepackWork)
        ensures
            work == self.effort(),
    {
        self.work
    }

    /// The new view, if the current one is still the source. Any view that was
    /// sealed in between makes the candidate stale, whatever its history.
    pub fn revalidate(self, current: &PinnedView) -> (found: Result<
        (DurableView, DecodedBytes),
        StoreError,
    >)
        ensures
            match found {
                Ok((manifest, copied)) => current@.id == self.origin() && (
                manifest.of(),
                manifest.resolution(),
                ) == self.result() && copied.value == self.input(),
                Err(e) => current@.id != self.origin() && e == StoreError::Busy,
            },
    {
        if !current.id().same(&self.source) {
            return Err(StoreError::Busy);
        }
        let decoded: u64 = self.work.decoded;
        Ok((self.manifest, Count { value: decoded }))
    }
}

/// The endpoint of a view, which a rewrite keeps.
pub open spec fn same_endpoint(view: ViewModel) -> SealEndpoint {
    SealEndpoint {
        database: view.database,
        lineage: view.lineage,
        size: view.size,
        txid: view.txid,
        history: view.history,
        truncate: None,
    }
}

/// What rewriting some packs came to: their current pages were gathered and sealed
/// again at the same endpoint.
pub open spec fn rewritten(
    earlier: Seq<Event>,
    later: Seq<Event>,
    home: BackendId,
    before: StateModel,
    after: StateModel,
    pin: PinModel,
    foreign: bool,
    chosen: Map<PackId, PlacementsModel>,
    layout: LayoutPolicy,
    candidate: Option<Seq<u8>>,
    packs: Set<PackId>,
    done: Result<((ManifestId, ValidatedModel), RepackWork), StoreError>,
) -> bool {
    ||| done matches Err(e) && after == before && adapter::quiet(earlier, later) && gather_refused(
        later,
        earlier.len() as int,
        pin,
        chosen,
        packs,
        e,
    )
    ||| exists|middle: Seq<Event>, harvest: HarvestModel|
        #![trigger gathered(earlier, middle, pin, chosen, packs, harvest)]
        gathered(earlier, middle, pin, chosen, packs, harvest) && seal::sealed(
            Some(pin),
            foreign,
            home,
            same_endpoint(pin.metadata.view),
            harvest.changes,
            harvest.contents,
            layout,
            harvest.copies,
            ManifestMode::Rollup,
            candidate,
            before,
            after,
            middle,
            later,
            match done {
                Ok((found, _)) => Ok(found),
                Err(e) => Err(e),
            },
        ) && (done matches Ok((_, input)) ==> input == harvest.work())
}

/// The current pages of some packs were gathered.
pub open spec fn gathered(
    earlier: Seq<Event>,
    later: Seq<Event>,
    pin: PinModel,
    chosen: Map<PackId, PlacementsModel>,
    packs: Set<PackId>,
    harvest: HarvestModel,
) -> bool {
    adapter::extends(earlier, later) && adapter::quiet(earlier, later) && gather_replay(
        later,
        earlier.len() as int,
        pin,
        chosen,
        packs,
    ) == Replay::Done(Ok::<HarvestModel, StoreError>(harvest), later.len() as int)
}

/// A candidate, by what it says.
pub open spec fn candidate_model(candidate: Result<RepackCandidate, StoreError>) -> Result<
    ((ManifestId, ValidatedModel), RepackWork),
    StoreError,
> {
    match candidate {
        Ok(c) => Ok((c.result(), c.effort())),
        Err(e) => Err(e),
    }
}

/// The bytes of some payloads.
fn payload_lengths(frames: &Vec<EncodedFrame>) -> (bytes: u64)
    ensures
        bytes == copied_length(seal::frames_of(frames@), frames@.len() as int),
{
    let ghost copies = seal::frames_of(frames@);
    let mut bytes: u64 = 0;
    let mut i: usize = 0;
    while i < frames.len()
        invariant
            i <= frames@.len(),
            copies == seal::frames_of(frames@),
            bytes == copied_length(copies, i as int),
        decreases frames.len() - i,
    {
        assert(copies[i as int].1 == frames@[i as int].stored());
        bytes = bytes.saturating_add(frames[i].payload().len() as u64);
        i += 1;
    }
    bytes
}

/// Rewrites some packs: frames of current pages alone are copied as they are, current
/// pages of other frames are encoded anew, and the view that finds them there is
/// published in full.
pub fn build_candidate<B: StorageBackend>(
    backend: &mut B,
    state: &mut State,
    pin: &PinnedView,
    layout: &LayoutPolicy,
    dictionary: Option<Vec<u8>>,
    packs: &OrderedSet<PackId>,
) -> (candidate: Result<RepackCandidate, StoreError>)
    ensures
        final(backend).namespace() == old(backend).namespace(),
        candidate matches Ok(c) ==> c.origin() == pin@.id,
        rewritten(
            old(backend).history(),
            final(backend).history(),
            old(backend).namespace(),
            old(state)@,
            final(state)@,
            pin@,
            pin.at_home() != old(backend).namespace(),
            pin.chosen(),
            *layout,
            seal::optional_bytes(dictionary),
            packs@,
            candidate_model(candidate),
        ),
{
    let harvest: Harvest = gather_packs(backend, pin, packs)?;
    let ghost middle = backend.history();
    let view: &ViewMetadata = pin.metadata().resolved();
    let endpoint: SealEndpoint = SealEndpoint {
        database: view.database,
        lineage: view.lineage,
        size: view.size,
        txid: view.txid,
        history: view.history,
        truncate: None,
    };
    let ghost gotten = harvest@;
    let work: RepackWork = RepackWork {
        copied_frames: harvest.copies.len(),
        copied_bytes: payload_lengths(&harvest.copies),
        decoded: harvest.decoded,
    };
    assert(work == gotten.work());
    assert(gathered(old(backend).history(), middle, pin@, pin.chosen(), packs@, gotten));
    let sealed: Result<DurableView, StoreError> = seal_with_copies(
        backend,
        state,
        Some(pin),
        &endpoint,
        &harvest.changes,
        &harvest.contents,
        layout,
        harvest.copies,
        ManifestMode::Rollup,
        dictionary,
    );
    assert(endpoint == same_endpoint(pin@.metadata.view));
    let manifest: DurableView = match sealed {
        Ok(manifest) => manifest,
        Err(error) => {
            return Err(error);
        },
    };
    let candidate: RepackCandidate = RepackCandidate {
        source: pin.id(),
        manifest,
        work,
    };
    Ok(candidate)
}

/// What a repack came to: packs were chosen, if any are worth it, and rewritten
/// together.
pub open spec fn repacked(
    earlier: Seq<Event>,
    later: Seq<Event>,
    home: BackendId,
    before: StateModel,
    after: StateModel,
    readers: Seq<Lease>,
    pin: PinModel,
    foreign: bool,
    chosen: Map<PackId, PlacementsModel>,
    layout: LayoutPolicy,
    candidate: Option<Seq<u8>>,
    done: Result<Option<((ManifestId, ValidatedModel), RepackWork, Seq<PackId>)>, StoreError>,
) -> bool {
    ||| (done matches Ok(None) || done is Err) && after == before && packs_chosen(
        earlier,
        later,
        before,
        readers,
        pin,
        chosen,
        layout.maintenance_input,
        match done {
            Ok(_) => Ok(Seq::empty()),
            Err(e) => Err(e),
        },
    )
    ||| !(done matches Ok(None)) && exists|middle: Seq<Event>, list: Seq<PackPlan>| #[trigger]
        packs_chosen(
            earlier,
            middle,
            before,
            readers,
            pin,
            chosen,
            layout.maintenance_input,
            Ok(list),
        ) && list.len() > 0 && (done matches Ok(Some((_, _, names))) ==> names == plan_names(list))
            && rewritten(
            middle,
            later,
            home,
            before,
            after,
            pin,
            foreign,
            chosen,
            layout,
            candidate,
            plan_names(list).to_set(),
            match done {
                Ok(Some((found, work, _))) => Ok((found, work)),
                Ok(None) => Err(StoreError::Range),
                Err(e) => Err(e),
            },
        )
}

/// The packs of some plans.
pub open spec fn plan_names(list: Seq<PackPlan>) -> Seq<PackId> {
    Seq::new(list.len(), |i: int| list[i].pack)
}

/// The names of the packs of some plans, in order and as a set.
fn name_packs(list: &Vec<PackPlan>) -> (names: (Vec<PackId>, OrderedSet<PackId>))
    ensures
        names.0@ == plan_names(list@),
        names.1@ == plan_names(list@).to_set(),
{
    let mut names: Vec<PackId> = Vec::new();
    let mut packs: OrderedSet<PackId> = OrderedSet::new();
    let mut i: usize = 0;
    assert(packs@ =~= names@.to_set());
    while i < list.len()
        invariant
            i <= list@.len(),
            names@.len() == i,
            forall|j: int| 0 <= j < i ==> #[trigger] names@[j] == list@[j].pack,
            packs@ == names@.to_set(),
        decreases list.len() - i,
    {
        let ghost before = names@;
        let pack: PackId = list[i].pack;
        names.push(pack);
        packs.insert(pack);
        proof {
            assert forall|p: PackId| before.push(pack).to_set().contains(p)
                == before.to_set().insert(pack).contains(p) by {
                assert(before.push(pack).contains(p) == (before.contains(p) || p == pack)) by {
                    if before.contains(p) {
                        let k = choose|k: int| 0 <= k < before.len() && before[k] == p;
                        assert(before.push(pack)[k] == p);
                    }
                    assert(before.push(pack)[before.len() as int] == pack);
                }
            }
            assert(packs@ =~= names@.to_set());
        }
        i += 1;
    }
    assert(names@ =~= plan_names(list@));
    (names, packs)
}

/// Rewrites the packs that are most worth it, if any are, within the limit of one
/// step. With the candidate come the packs that it no longer needs.
pub fn repack<B: StorageBackend>(
    backend: &mut B,
    state: &mut State,
    readers: &Vec<Lease>,
    pin: &PinnedView,
    layout: &LayoutPolicy,
    dictionary: Option<Vec<u8>>,
) -> (candidate: Result<Option<(RepackCandidate, Vec<PackId>)>, StoreError>)
    ensures
        final(backend).namespace() == old(backend).namespace(),
        candidate matches Ok(Some((c, _))) ==> c.origin() == pin@.id,
        repacked(
            old(backend).history(),
            final(backend).history(),
            old(backend).namespace(),
            old(state)@,
            final(state)@,
            readers@,
            pin@,
            pin.at_home() != old(backend).namespace(),
            pin.chosen(),
            *layout,
            seal::optional_bytes(dictionary),
            match candidate {
                Ok(Some((c, names))) => Ok(Some((c.result(), c.effort(), names@))),
                Ok(None) => Ok(None),
                Err(e) => Err(e),
            },
        ),
{
    let found: Result<Vec<PackPlan>, StoreError> = eligible_packs(
        backend,
        state,
        readers,
        pin,
        layout,
    );
    let list: Vec<PackPlan> = match found {
        Ok(list) => list,
        Err(error) => {
            return Err(error);
        },
    };
    if list.len() == 0 {
        assert(list@ =~= Seq::<PackPlan>::empty());
        return Ok(None);
    }
    let ghost middle = backend.history();
    assert(packs_chosen(
        old(backend).history(),
        middle,
        old(state)@,
        readers@,
        pin@,
        pin.chosen(),
        layout.maintenance_input,
        Ok(list@),
    ));
    let (names, packs) = name_packs(&list);
    let built: Result<RepackCandidate, StoreError> = build_candidate(
        backend,
        state,
        pin,
        layout,
        dictionary,
        &packs,
    );
    match built {
        Ok(candidate) => Ok(Some((candidate, names))),
        Err(error) => Err(error),
    }
}

/// A frame counts as fully live where every one of its pages is current, as fully
/// obsolete where none is, and as partly obsolete else; its bytes count with it, and
/// so do its pages and what they decode to.
pub proof fn law_frames_are_classed(
    before: PackOccupancy,
    view: ViewModel,
    frame: FrameModel,
    length: u64,
)
    requires
        frame.sound(),
        before.total_pages + frame.pages.len() <= u64::MAX,
        before.decoded_bytes.value + frame.shape.size() <= u64::MAX,
        before.frames < usize::MAX,
        before.fully_live_frames < usize::MAX,
        before.partially_obsolete_frames < usize::MAX,
        before.fully_obsolete_frames < usize::MAX,
        before.fully_live_frame_bytes.value + length <= u64::MAX,
        before.partially_obsolete_frame_bytes.value + length <= u64::MAX,
        before.fully_obsolete_frame_bytes.value + length <= u64::MAX,
    ensures
        ({
            let after = before.with_frame(view, frame, length as int);
            let current = estimate::current_slots(view, frame);
            let every = forall|slot: int|
                0 <= slot < frame.pages.len() ==> #[trigger] current.contains(slot);
            let none = forall|slot: int|
                0 <= slot < frame.pages.len() ==> !#[trigger] current.contains(slot);
            let class = |grows: bool, count: usize, more: usize, bytes: StoredBytes, sum: StoredBytes|
                if grows {
                    more == count + 1 && sum.value == bytes.value + length
                } else {
                    more == count && sum == bytes
                };
            &&& class(
                every,
                before.fully_live_frames,
                after.fully_live_frames,
                before.fully_live_frame_bytes,
                after.fully_live_frame_bytes,
            )
            &&& class(
                none,
                before.fully_obsolete_frames,
                after.fully_obsolete_frames,
                before.fully_obsolete_frame_bytes,
                after.fully_obsolete_frame_bytes,
            )
            &&& class(
                !every && !none,
                before.partially_obsolete_frames,
                after.partially_obsolete_frames,
                before.partially_obsolete_frame_bytes,
                after.partially_obsolete_frame_bytes,
            )
            &&& after.frames == before.frames + 1
            &&& after.total_pages == before.total_pages + frame.pages.len()
            &&& after.decoded_bytes.value == before.decoded_bytes.value + frame.pages.len()
                * frame.shape.page_size.value
            &&& after.pack == before.pack
            &&& after.stored_bytes == before.stored_bytes
        }),
{
    let slots = estimate::current_slots(view, frame);
    estimate::law_current_pages_are_counted(view, frame);
    assert(frame.shape.size() == frame.pages.len() * frame.shape.page_size.value)
        by (nonlinear_arith)
        requires
            frame.shape.size() == frame.shape.page_size.value * frame.shape.pages,
            frame.shape.pages == frame.pages.len(),
    ;
    let all = vstd::set_lib::set_int_range(0, frame.pages.len() as int);
    vstd::set_lib::lemma_int_range(0, frame.pages.len() as int);
    assert(slots.subset_of(all));
    if forall|slot: int| 0 <= slot < frame.pages.len() ==> slots.contains(slot) {
        assert(slots =~= all);
    } else {
        let slot = choose|slot: int| 0 <= slot < frame.pages.len() && !slots.contains(slot);
        vstd::set_lib::lemma_len_subset(slots, all.remove(slot));
    }
    if forall|slot: int| 0 <= slot < frame.pages.len() ==> !slots.contains(slot) {
        assert(slots =~= Set::empty());
    } else {
        let slot = choose|slot: int| 0 <= slot < frame.pages.len() && slots.contains(slot);
        assert(slots.remove(slot).len() + 1 == slots.len());
    }
}

/// The bytes that obsolete pages are estimated to take are the part of the stored
/// bytes that they are of all pages, in whole bytes.
pub proof fn law_reclaimable_is_the_part(occupancy: PackOccupancy)
    requires
        occupancy.live_pages <= occupancy.total_pages,
        0 < occupancy.total_pages,
        occupancy.stored_bytes.value * (occupancy.total_pages - occupancy.live_pages) <= u64::MAX,
    ensures
        estimate::proportional(
            occupancy.reclaimable() as int,
            occupancy.stored_bytes.value as int,
            occupancy.total_pages - occupancy.live_pages,
            occupancy.total_pages as int,
        ),
{
    let total = occupancy.total_pages as int;
    let dead = total - occupancy.live_pages;
    let whole = occupancy.stored_bytes.value * dead;
    assert(0 <= whole) by (nonlinear_arith)
        requires
            whole == occupancy.stored_bytes.value * dead,
            0 <= dead,
            0 <= occupancy.stored_bytes.value,
    ;
    let share = whole / total;
    vstd::arithmetic::div_mod::lemma_fundamental_div_mod(whole, total);
    vstd::arithmetic::div_mod::lemma_mod_bound(whole, total);
    assert(0 <= share <= whole && share * total <= whole < (share + 1) * total) by (nonlinear_arith)
        requires
            whole == total * share + whole % total,
            0 <= whole % total < total,
            0 <= whole,
    ;
}

/// What rewriting a pack takes is to read the frames that hold a current page: the
/// bytes of all pages of each.
pub proof fn law_work_is_what_is_read(
    view: ViewModel,
    list: Seq<(FrameId, LocationModel)>,
    sizes: Seq<int>,
    pack: PackId,
    count: int,
)
    requires
        0 <= count <= list.len(),
        sizes.len() == list.len(),
        forall|i: int|
            0 <= i < list.len() ==> {
                let frame = (#[trigger] list[i]).1.frame;
                frame.sound() && sizes[i] == if exists|slot: int| #[trigger]
                    estimate::current_slots(view, frame).contains(slot) {
                    frame.pages.len() * frame.shape.page_size.value
                } else {
                    0
                }
            },
        estimate::shares_of(list, sizes, pack, count) <= u64::MAX,
    ensures
        live_work(view, list, pack, count) == estimate::shares_of(list, sizes, pack, count),
    decreases count,
{
    if count > 0 {
        let frame = list[count - 1].1.frame;
        let slots = estimate::current_slots(view, frame);
        estimate::law_current_pages_are_counted(view, frame);
        if exists|slot: int| #[trigger] slots.contains(slot) {
            let slot = choose|slot: int| #[trigger] slots.contains(slot);
            assert(slots.remove(slot).len() + 1 == slots.len());
        } else {
            assert(slots =~= Set::empty());
        }
        assert(sizes[count - 1] >= 0) by {
            assert(frame.pages.len() * frame.shape.page_size.value >= 0) by (nonlinear_arith);
        }
        law_work_is_what_is_read(view, list, sizes, pack, count - 1);
    }
}

/// The packs that are rewritten together are among those that were looked at, each
/// once. Of each, more than half of the bytes are obsolete, nothing else retains it,
/// and the work for all of them is within the limit.
pub proof fn law_chosen_packs(list: Seq<PackPlan>, limit: u64, retained: Set<PackId>, steps: int)
    ensures
        ({
            let chosen = batch(list, limit, retained, steps);
            &&& total_work(chosen) <= limit
            &&& forall|i: int|
                0 <= i < chosen.len() ==> {
                    let plan = #[trigger] chosen[i];
                    &&& list.contains(plan)
                    &&& 2 * plan.obsolete > plan.stored
                    &&& !retained.contains(plan.pack)
                }
            &&& forall|i: int, j: int|
                0 <= i < j < chosen.len() ==> (#[trigger] chosen[i]).pack != (
                #[trigger] chosen[j]).pack
        }),
    decreases steps,
{
    if steps > 0 {
        lemma_best_eligible(list, limit, retained, list.len() as int);
        match best(list, limit, retained, list.len() as int) {
            None => {},
            Some(one) => {
                let left = (limit - one.work) as u64;
                let others = retained.insert(one.pack);
                let rest = batch(list, left, others, steps - 1);
                law_chosen_packs(list, left, others, steps - 1);
                let all = batch(list, limit, retained, steps);
                assert(all.skip(1) =~= rest);
                assert forall|i: int| 0 <= i < all.len() implies {
                    let plan = #[trigger] all[i];
                    &&& list.contains(plan)
                    &&& 2 * plan.obsolete > plan.stored
                    &&& !retained.contains(plan.pack)
                } by {
                    if i > 0 {
                        assert(all[i] == rest[i - 1]);
                    }
                }
                assert forall|i: int, j: int| 0 <= i < j < all.len() implies (#[trigger] all[i]).pack
                    != (#[trigger] all[j]).pack by {
                    assert(all[j] == rest[j - 1]);
                    if i > 0 {
                        assert(all[i] == rest[i - 1]);
                    }
                }
            },
        }
    }
}

/// A pack that more than half of is obsolete, that nothing else retains and that the
/// limit has room for, is not passed over: some pack is chosen, and the first one that
/// is frees no fewer bytes for each byte of work.
pub proof fn law_worthwhile_pack_is_not_passed_over(
    list: Seq<PackPlan>,
    limit: u64,
    retained: Set<PackId>,
    steps: int,
    i: int,
)
    requires
        0 <= i < list.len(),
        0 < steps,
        2 * list[i].obsolete > list[i].stored,
        list[i].work <= limit,
        !retained.contains(list[i].pack),
    ensures
        ({
            let chosen = batch(list, limit, retained, steps);
            &&& chosen.len() > 0
            &&& list[i].work > 0 && chosen[0].work > 0 ==> chosen[0].obsolete * list[i].work
                >= list[i].obsolete * chosen[0].work
            &&& list[i].work <= 1 && chosen[0].work <= 1 ==> chosen[0].obsolete >= list[i].obsolete
        }),
{
    law_best_is_greatest(list, limit, retained, list.len() as int, i);
    let chosen = batch(list, limit, retained, steps);
    let one = best(list, limit, retained, list.len() as int)->Some_0;
    assert(chosen[0] == one);
    assert(at_least(one, list[i]));
    if list[i].work <= 1 && one.work <= 1 {
        assert(weight(list[i]) == 1 && weight(one) == 1);
    }
}

proof fn lemma_half_of_shares(
    list: Seq<(FrameId, LocationModel)>,
    shares: Seq<int>,
    pack: PackId,
    count: int,
)
    requires
        0 <= count <= list.len(),
        shares.len() == list.len(),
        forall|i: int|
            0 <= i < list.len() ==> 2 * shares[i] + 1 >= estimate::record_bytes(
                (#[trigger] list[i]).1.frame,
            ),
    ensures
        2 * estimate::shares_of(list, shares, pack, count) + count >= estimate::held_bytes(
            list,
            pack,
            count,
        ),
    decreases count,
{
    if count > 0 {
        lemma_half_of_shares(list, shares, pack, count - 1);
    }
}

/// A pack is left alone while at least half of the pages of each of its frames are
/// current, whatever the limit is. Shares are whole bytes, so this is said of views
/// with no more frames than a pack's header has bytes.
pub proof fn law_half_live_pack_is_left_alone(
    view: ViewModel,
    pack: PackId,
    length: u64,
    limit: u64,
    retained: Set<PackId>,
)
    requires
        view.frame_list().len() <= PACK_HEADER_SIZE,
        length == PACK_HEADER_SIZE + estimate::held_bytes(
            view.frame_list(),
            pack,
            view.frame_list().len() as int,
        ),
        forall|i: int|
            0 <= i < view.frame_list().len() ==> {
                let frame = (#[trigger] view.frame_list()[i]).1.frame;
                frame.sound() && 2 * estimate::current_slots(view, frame).len()
                    >= frame.pages.len()
            },
    ensures
        !eligible(plan_of(view, pack, length), limit, retained),
        2 * plan_of(view, pack, length).obsolete <= length,
{
    let list = view.frame_list();
    let shares = Seq::new(list.len(), |i: int| estimate::live_share(view, list[i].1.frame));
    assert forall|i: int| 0 <= i < list.len() implies 2 * shares[i] + 1 >= estimate::record_bytes(
        (#[trigger] list[i]).1.frame,
    ) && shares[i] >= 0 by {
        let frame = list[i].1.frame;
        estimate::law_current_pages_are_counted(view, frame);
        let record = estimate::record_bytes(frame);
        let pages = frame.pages.len() as int;
        let live = estimate::current_slots(view, frame).len() as int;
        let whole = record * live;
        let share = whole / pages;
        assert(share == shares[i]);
        vstd::arithmetic::div_mod::lemma_fundamental_div_mod(whole, pages);
        vstd::arithmetic::div_mod::lemma_mod_bound(whole, pages);
        assert(2 * share + 1 >= record && share >= 0) by (nonlinear_arith)
            requires
                whole == pages * share + whole % pages,
                0 <= whole % pages < pages,
                whole == record * live,
                2 * live >= pages,
                0 < pages,
                0 <= record,
                0 <= live,
        ;
    }
    lemma_half_of_shares(list, shares, pack, list.len() as int);
    lemma_left(view, list, shares, pack, length as int, list.len() as int);
}

proof fn lemma_left(
    view: ViewModel,
    list: Seq<(FrameId, LocationModel)>,
    shares: Seq<int>,
    pack: PackId,
    length: int,
    count: int,
)
    requires
        0 <= count <= list.len(),
        shares.len() == list.len(),
        forall|i: int|
            0 <= i < list.len() ==> shares[i] == estimate::live_share(
                view,
                (#[trigger] list[i]).1.frame,
            ) && shares[i] >= 0,
    ensures
        0 <= estimate::shares_of(list, shares, pack, count),
        estimate::unread(view, list, pack, length, count) == estimate::less(
            length,
            PACK_HEADER_SIZE + estimate::shares_of(list, shares, pack, count),
        ),
    decreases count,
{
    if count > 0 {
        lemma_left(view, list, shares, pack, length, count - 1);
    }
}

/// A rewrite reports as copied as many frames as it took over whole, and the bytes of their
/// payloads.
pub proof fn law_copied_bytes(copies: Content, count: int, lengths: Seq<int>)
    requires
        0 <= count <= copies.len(),
        lengths.len() == copies.len(),
        forall|i: int| 0 <= i < copies.len() ==> lengths[i] == (#[trigger] copies[i]).1.len(),
        estimate::sum_of(lengths, count) <= u64::MAX,
    ensures
        0 <= estimate::sum_of(lengths, count),
        copied_length(copies, count) == estimate::sum_of(lengths, count),
    decreases count,
{
    if count > 0 {
        assert(lengths[count - 1] == copies[count - 1].1.len());
        law_copied_bytes(copies, count - 1, lengths);
    }
}

/// A frame whose pages are all current is taken over whole, and nothing of it is decoded.
/// Any other is decoded: its bytes count as decoded, and of its pages the current ones are
/// written anew by the transactions that wrote them.
pub proof fn law_frames_are_copied_or_decoded(
    harvest: HarvestModel,
    view: ViewModel,
    frame: FrameModel,
    payload: Seq<u8>,
    raw: Seq<u8>,
)
    requires
        frame.sound(),
    ensures
        ({
            let after = harvest.with_frame(view, frame, payload, raw);
            let slots = estimate::current_slots(view, frame);
            let every = forall|slot: int|
                0 <= slot < frame.pages.len() ==> #[trigger] slots.contains(slot);
            &&& every ==> after.copies == harvest.copies.push((frame, payload)) && after.decoded
                == harvest.decoded && after.changes == harvest.changes && after.contents
                == harvest.contents
            &&& !every ==> after.copies == harvest.copies && (harvest.decoded + raw.len() <= u64::MAX
                ==> after.decoded == harvest.decoded + raw.len()) && after.changes.len()
                == harvest.changes.len() + page::live_slots(view, frame, raw, 0).len()
        }),
{
    let slots = estimate::current_slots(view, frame);
    estimate::law_current_pages_are_counted(view, frame);
    let all = vstd::set_lib::set_int_range(0, frame.pages.len() as int);
    vstd::set_lib::lemma_int_range(0, frame.pages.len() as int);
    assert(slots.subset_of(all));
    if forall|slot: int| 0 <= slot < frame.pages.len() ==> #[trigger] slots.contains(slot) {
        assert(slots =~= all);
    } else {
        let slot = choose|slot: int| 0 <= slot < frame.pages.len() && !#[trigger] slots.contains(slot);
        vstd::set_lib::lemma_len_subset(slots, all.remove(slot));
        let more = HarvestModel {
            decoded: capped(harvest.decoded as int, raw.len() as int),
            ..harvest
        };
        let taken = page::live_slots(view, frame, raw, 0);
        lemma_pages_taken(more, taken, taken.len() as int);
    }
}

proof fn lemma_pages_taken(
    harvest: HarvestModel,
    slots: Seq<(PageVersion, Seq<u8>)>,
    count: int,
)
    requires
        0 <= count <= slots.len(),
    ensures
        ({
            let after = harvest.with_pages(slots, count);
            &&& after.copies == harvest.copies
            &&& after.decoded == harvest.decoded
            &&& after.changes.len() == harvest.changes.len() + count
        }),
    decreases count,
{
    if count > 0 {
        lemma_pages_taken(harvest, slots, count - 1);
    }
}

} // verus!
