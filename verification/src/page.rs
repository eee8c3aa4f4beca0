//! Reading pages of a pinned view.

use crate::adapter;
use crate::adapter::{Event, StorageBackend};
use crate::bytes;
use crate::bytes::{append_zeros, copied};
use crate::domain::{Count, DictionaryId, FrameId, FrameSlot, LogicalBytes, PageNumber, StoredRange};
use crate::error::StoreError;
use crate::fetch::Replay;
use crate::format::{FRAME_HEADER_SIZE, FrameHeader};
use crate::frame;
use crate::frame::{EncodedFrame, FrameModel, PageVersion, VerifiedFrame};
use crate::pin;
use crate::pinned::PinnedView;
use crate::validation;
use crate::view::{FrameLocation, LocationModel, ViewMetadata, ViewModel};
use vstd::prelude::*;
use vstd::slice::slice_subrange;

verus! {

/// A page that nothing was ever stored for.
pub struct ZeroPage<'view> {
    view: &'view PinnedView,
}

/// A page in its slot of a frame.
pub struct StoredPageRef<'view> {
    view: &'view PinnedView,
    location: &'view FrameLocation,
    slot: FrameSlot,
}

/// A page of a pinned view, stored or all zeros.
pub enum ResolvedPage<'view> {
    Zero(ZeroPage<'view>),
    Stored(StoredPageRef<'view>),
}

impl<'view> ZeroPage<'view> {
    pub closed spec fn pin(&self) -> &'view PinnedView {
        self.view
    }
}

impl<'view> StoredPageRef<'view> {
    pub closed spec fn pin(&self) -> &'view PinnedView {
        self.view
    }

    pub closed spec fn location(&self) -> LocationModel {
        self.location@
    }

    pub closed spec fn place(&self) -> FrameSlot {
        self.slot
    }

    /// The slot is one of the frame, which is sound in its view.
    pub open spec fn wf(&self) -> bool {
        &&& self.place().index < self.location().frame.pages.len()
        &&& self.location().frame.sound()
        &&& validation::location_sound(
            self.pin()@.metadata.view,
            self.location().frame.id,
            self.location(),
        )
    }

    #[verifier::type_invariant]
    spec fn valid(&self) -> bool {
        self.wf()
    }
}

impl<'view> ResolvedPage<'view> {
    /// What a page of a view resolves to.
    pub open spec fn resolves(&self, pin: &'view PinnedView, page: PageNumber) -> bool {
        let view = pin@.metadata.view;
        match self {
            ResolvedPage::Zero(zero) => !view.pages.dom().contains(page) && zero.pin() == pin,
            ResolvedPage::Stored(stored) => view.pages.dom().contains(page) && stored.pin() == pin
                && stored.place() == view.pages[page].slot && stored.location()
                == view.frames[view.pages[page].frame] && stored.wf(),
        }
    }
}

impl PinnedView {
    /// Finds a page; a page beyond the size of the database is refused.
    pub fn resolve(&self, page: PageNumber) -> (resolved: Result<ResolvedPage<'_>, StoreError>)
        ensures
            match resolved {
                Ok(r) => page.value <= self@.metadata.view.size.count() && r.resolves(self, page),
                Err(e) => page.value > self@.metadata.view.size.count() && e == StoreError::Range,
            },
    {
        let view: &ViewMetadata = self.metadata().resolved();
        if page.value > view.size.pages() {
            return Err(StoreError::Range);
        }
        match view.pages.get(&page) {
            None => Ok(ResolvedPage::Zero(ZeroPage { view: self })),
            Some(stored) => {
                assert(view@.pages.dom().contains(page));
                match view.frames.get(&stored.frame) {
                    Some(location) => {
                        assert(validation::location_sound(view@, stored.frame, location@));
                        let shape = location.metadata().shape();
                        Ok(
                            ResolvedPage::Stored(
                                StoredPageRef { view: self, location, slot: stored.slot },
                            ),
                        )
                    },
                    None => {
                        assert(false);
                        Err(StoreError::Corrupt(0))
                    },
                }
            },
        }
    }
}

/// A record of a frame: its header, then its payload.
pub open spec fn record_of(location: LocationModel, record: Seq<u8>) -> bool {
    &&& record.len() == FRAME_HEADER_SIZE + location.payload.length.value
    &&& record.take(FRAME_HEADER_SIZE as int) == location.frame.header().record()
}

/// The payload in a record.
pub open spec fn record_payload(record: Seq<u8>) -> Seq<u8> {
    record.skip(FRAME_HEADER_SIZE as int)
}

/// The bytes of a record in its pack.
pub open spec fn record_range(location: LocationModel) -> StoredRange {
    StoredRange {
        offset: Count {
            value: (location.payload.offset.value - FRAME_HEADER_SIZE) as u64,
        },
        length: Count { value: (location.payload.length.value + FRAME_HEADER_SIZE) as u64 },
    }
}

/// Why the header of a record is refused.
pub open spec fn header_refused(location: LocationModel, record: Seq<u8>, error: StoreError) -> bool {
    if location.payload.offset.value < FRAME_HEADER_SIZE {
        error == StoreError::Range
    } else {
        let start = (location.payload.offset.value - FRAME_HEADER_SIZE) as u64;
        if record.len() != FRAME_HEADER_SIZE + location.payload.length.value {
            error == StoreError::Corrupt(start)
        } else {
            !record_of(location, record) && (error == StoreError::Corrupt(0) || error
                == StoreError::Corrupt(start))
        }
    }
}

/// A record holds the authentic payload of its frame.
pub open spec fn record_copies(location: LocationModel, record: Seq<u8>) -> bool {
    &&& location.payload.offset.value >= FRAME_HEADER_SIZE
    &&& record_of(location, record)
    &&& location.frame.describes(record_payload(record))
}

/// Why a record is not copied.
pub open spec fn copy_refused(location: LocationModel, record: Seq<u8>, error: StoreError) -> bool {
    ||| header_refused(location, record, error)
    ||| record_of(location, record) && !location.frame.describes(record_payload(record)) && error
        == StoreError::Corrupt(0)
}

/// Why a record is refused.
pub open spec fn record_refused(
    location: LocationModel,
    record: Seq<u8>,
    dictionaries: Map<DictionaryId, Seq<u8>>,
    error: StoreError,
) -> bool {
    if location.payload.offset.value < FRAME_HEADER_SIZE {
        error == StoreError::Range
    } else {
        let start = (location.payload.offset.value - FRAME_HEADER_SIZE) as u64;
        if record.len() != FRAME_HEADER_SIZE + location.payload.length.value {
            error == StoreError::Corrupt(start)
        } else if !record_of(location, record) {
            error == StoreError::Corrupt(0) || error == StoreError::Corrupt(start)
        } else {
            frame::payload_refused(location.frame, record_payload(record), dictionaries, error)
        }
    }
}

/// A record holds a frame that decodes to these bytes, and they are its pages.
pub open spec fn record_holds(
    location: LocationModel,
    record: Seq<u8>,
    dictionaries: Map<DictionaryId, Seq<u8>>,
    raw: Seq<u8>,
) -> bool {
    &&& location.payload.offset.value >= FRAME_HEADER_SIZE
    &&& record_of(location, record)
    &&& location.frame.describes(record_payload(record))
    &&& frame::decoded_payload(location.frame.encoding, record_payload(record), dictionaries) == Some(raw)
    &&& location.frame.verifies(raw)
}

/// The live pages of a decoded frame in a view, from slot `i` on, each with its
/// version.
pub open spec fn live_slots(view: ViewModel, frame: FrameModel, raw: Seq<u8>, i: int) -> Seq<
    (PageVersion, Seq<u8>),
>
    decreases frame.pages.len() - i,
{
    if i >= frame.pages.len() || (i + 1) * frame.shape.page_size.value > raw.len() {
        Seq::empty()
    } else {
        let page = frame.pages[i].page;
        let rest = live_slots(view, frame, raw, i + 1);
        if view.pages.dom().contains(page) && view.pages[page].frame == frame.id {
            seq![(frame.pages[i], frame.slot(raw, i))] + rest
        } else {
            rest
        }
    }
}

/// Pages by their bytes.
pub open spec fn page_models(pages: Seq<(PageVersion, Vec<u8>)>) -> Seq<(PageVersion, Seq<u8>)> {
    Seq::new(pages.len(), |i: int| (pages[i].0, pages[i].1@))
}

impl<'view> StoredPageRef<'view> {
    /// The length of the frame's record.
    pub fn stored_bytes(&self) -> (bytes: u64)
        ensures
            bytes == self.location().payload.length.value + FRAME_HEADER_SIZE,
    {
        proof {
            use_type_invariant(self);
            crate::frame::lemma_payload_small(self.location().frame);
        }
        self.location.payload().length.value + FRAME_HEADER_SIZE as u64
    }

    pub fn frame_id(&self) -> (id: FrameId)
        ensures
            id == self.location().frame.id,
    {
        self.location.metadata().id()
    }

    /// The payload in the record of the frame, whose header must be the frame's.
    fn open_record(&self, record: &[u8]) -> (payload: Result<Vec<u8>, StoreError>)
        ensures
            match payload {
                Ok(p) => self.location().payload.offset.value >= FRAME_HEADER_SIZE && record_of(
                    self.location(),
                    record@,
                ) && p@ == record_payload(record@),
                Err(e) => header_refused(self.location(), record@, e),
            },
    {
        let offset: u64 = self.location.payload().offset.value;
        if offset < FRAME_HEADER_SIZE as u64 {
            return Err(StoreError::Range);
        }
        let start: u64 = offset - FRAME_HEADER_SIZE as u64;
        if record.len() as u64 != self.stored_bytes() {
            return Err(StoreError::Corrupt(start));
        }
        let prefix: &[u8] = slice_subrange(record, 0, FRAME_HEADER_SIZE);
        assert(prefix@ =~= record@.take(FRAME_HEADER_SIZE as int));
        let header: FrameHeader = FrameHeader::decode(prefix)?;
        let expected: FrameHeader = self.location.metadata().record_header();
        if header != expected {
            proof {
                if header.record() == expected.record() {
                    FrameHeader::law_record_determines_header(header, expected);
                }
            }
            return Err(StoreError::Corrupt(start));
        }
        let stored: Vec<u8> = copied(slice_subrange(record, FRAME_HEADER_SIZE, record.len()));
        assert(stored@ =~= record_payload(record@));
        Ok(stored)
    }

    /// The frame in its record, authenticated but not decoded.
    pub fn copy_record(&self, record: &[u8]) -> (frame: Result<EncodedFrame, StoreError>)
        ensures
            match frame {
                Ok(encoded) => record_copies(self.location(), record@) && encoded.about()
                    == self.location().frame && encoded.stored() == record_payload(record@),
                Err(e) => copy_refused(self.location(), record@, e),
            },
    {
        let stored: Vec<u8> = self.open_record(record)?;
        EncodedFrame::authenticated(self.location.metadata().duplicate(), stored)
    }

    /// Decodes the record of the frame, and verifies every page.
    pub fn decode_record(&self, record: &[u8]) -> (frame: Result<
        (EncodedFrame, VerifiedFrame),
        StoreError,
    >)
        ensures
            match frame {
                Ok((encoded, verified)) => record_holds(
                    self.location(),
                    record@,
                    self.pin()@.dictionaries,
                    verified@,
                ) && verified.of() == self.location().frame.id && encoded.about()
                    == self.location().frame && encoded.stored() == record_payload(record@),
                Err(e) => record_refused(
                    self.location(),
                    record@,
                    self.pin()@.dictionaries,
                    e,
                ),
            },
    {
        let stored: Vec<u8> = self.open_record(record)?;
        EncodedFrame::verified(
            self.location.metadata().duplicate(),
            stored,
            self.view.dictionaries(),
        )
    }

    /// The page in the slot of a decoded frame.
    pub fn extract(&self, frame: &VerifiedFrame) -> (page: Result<Vec<u8>, StoreError>)
        ensures
            match page {
                Ok(p) => frame.of() == self.location().frame.id && p@
                    == self.location().frame.slot(frame@, self.place().index as int),
                Err(e) => if frame.of() != self.location().frame.id {
                    e == StoreError::IdentityMismatch
                } else {
                    e == StoreError::Range && (self.place().index + 1)
                        * self.location().frame.shape.page_size.value > frame@.len()
                },
            },
    {
        proof {
            use_type_invariant(self);
        }
        if !frame.id().same(&self.frame_id()) {
            return Err(StoreError::IdentityMismatch);
        }
        let shape = self.location.metadata().shape();
        let size: usize = shape.page_size.value as usize;
        let slot: usize = self.slot.index as usize;
        proof {
            crate::frame::lemma_slot_small(self.location().frame, self.place().index as int);
        }
        let start: usize = slot * size;
        let end: usize = (slot + 1) * size;
        let bytes: &[u8] = frame.bytes();
        if end > bytes.len() {
            return Err(StoreError::Range);
        }
        let page: Vec<u8> = copied(slice_subrange(bytes, start, end));
        Ok(page)
    }

    /// Reads the frame and verifies every page of it.
    pub fn fetch_record<B: StorageBackend>(&self, backend: &mut B) -> (frame: Result<
        (EncodedFrame, VerifiedFrame),
        StoreError,
    >)
        ensures
            final(backend).namespace() == old(backend).namespace(),
            adapter::extends(old(backend).history(), final(backend).history()),
            adapter::quiet(old(backend).history(), final(backend).history()),
            fetched(
                final(backend).history(),
                old(backend).history().len() as int,
                self,
                match frame {
                    Ok((_, verified)) => Ok(verified@),
                    Err(e) => Err(e),
                },
            ),
            frame matches Ok((encoded, verified)) ==> verified.of() == self.location().frame.id
                && encoded.about() == self.location().frame && record_kept(
                final(backend).history(),
                old(backend).history().len() as int,
                self,
                encoded.stored(),
                verified@,
            ),
    {
        let offset: u64 = self.location.payload().offset.value;
        if offset < FRAME_HEADER_SIZE as u64 {
            return Err(StoreError::Range);
        }
        let range: StoredRange = StoredRange {
            offset: Count { value: offset - FRAME_HEADER_SIZE as u64 },
            length: Count { value: self.stored_bytes() },
        };
        let record: Vec<u8> = self.view.placement().read(backend, self.location.pack(), range)?;
        self.decode_record(record.as_slice())
    }

    /// The decoded frame.
    pub fn fetch<B: StorageBackend>(&self, backend: &mut B) -> (frame: Result<
        VerifiedFrame,
        StoreError,
    >)
        ensures
            final(backend).namespace() == old(backend).namespace(),
            adapter::extends(old(backend).history(), final(backend).history()),
            adapter::quiet(old(backend).history(), final(backend).history()),
            fetched(
                final(backend).history(),
                old(backend).history().len() as int,
                self,
                match frame {
                    Ok(verified) => Ok(verified@),
                    Err(e) => Err(e),
                },
            ),
            frame matches Ok(verified) ==> verified.of() == self.location().frame.id,
    {
        let (_, verified) = self.fetch_record(backend)?;
        Ok(verified)
    }

    /// Reads the page, after its whole frame was verified.
    pub fn read<B: StorageBackend>(&self, backend: &mut B) -> (page: Result<Vec<u8>, StoreError>)
        ensures
            final(backend).namespace() == old(backend).namespace(),
            adapter::extends(old(backend).history(), final(backend).history()),
            adapter::quiet(old(backend).history(), final(backend).history()),
            page_read(
                final(backend).history(),
                old(backend).history().len() as int,
                self,
                page,
            ),
            page matches Ok(p) ==> frame::sound_page(
                self.location().frame.pages[self.place().index as int],
                p@,
            ),
    {
        proof {
            use_type_invariant(self);
        }
        let frame: VerifiedFrame = self.fetch(backend)?;
        let ghost raw = frame@;
        assert(fetched(backend.history(), old(backend).history().len() as int, self, Ok(raw)));
        proof {
            crate::frame::lemma_slot_small(self.location().frame, self.place().index as int);
        }
        self.extract(&frame)
    }

    /// The live pages of the decoded frame.
    pub fn cache_pages(&self, frame: &VerifiedFrame) -> (pages: Result<
        Vec<(PageVersion, Vec<u8>)>,
        StoreError,
    >)
        ensures
            match pages {
                Ok(p) => frame.of() == self.location().frame.id && page_models(p@) == live_slots(
                    self.pin()@.metadata.view,
                    self.location().frame,
                    frame@,
                    0,
                ),
                Err(e) => frame.of() != self.location().frame.id && e
                    == StoreError::IdentityMismatch,
            },
    {
        proof {
            use_type_invariant(self);
        }
        if !frame.id().same(&self.frame_id()) {
            return Err(StoreError::IdentityMismatch);
        }
        let view: &ViewMetadata = self.view.metadata().resolved();
        let versions: &[PageVersion] = self.location.metadata().pages();
        let size: usize = self.location.metadata().shape().page_size.value as usize;
        let bytes: &[u8] = frame.bytes();
        let ghost model = self.location().frame;
        let ghost goal = live_slots(view@, model, frame@, 0);
        let mut pages: Vec<(PageVersion, Vec<u8>)> = Vec::new();
        let mut i: usize = 0;
        assert(page_models(pages@) + goal =~= goal);
        while i < versions.len()
            invariant_except_break
                i <= versions@.len(),
                versions@ == model.pages,
                model == self.location().frame,
                model.sound(),
                self.wf(),
                view@ == self.pin()@.metadata.view,
                size == model.shape.page_size.value,
                bytes@ == frame@,
                frame.of() == model.id,
                goal == live_slots(view@, model, frame@, 0),
                page_models(pages@) + live_slots(view@, model, frame@, i as int) == goal,
            ensures
                page_models(pages@) == goal,
            decreases versions.len() - i,
        {
            proof {
                crate::frame::lemma_slot_small(model, i as int);
            }
            let start: usize = i * size;
            let end: usize = (i + 1) * size;
            if end > bytes.len() {
                assert(page_models(pages@) =~= goal);
                break;
            }
            let ghost now = page_models(pages@);
            let ghost rest = live_slots(view@, model, frame@, i as int + 1);
            if view.is_live(versions[i].page, frame.id()) {
                pages.push((versions[i], copied(slice_subrange(bytes, start, end))));
                proof {
                    let one = (model.pages[i as int], model.slot(frame@, i as int));
                    assert(page_models(pages@) =~= now.push(one));
                    assert(now + (seq![one] + rest) =~= now.push(one) + rest);
                }
            }
            i += 1;
            proof {
                if i >= versions@.len() {
                    assert(page_models(pages@) =~= goal);
                }
            }
        }
        Ok(pages)
    }
}

/// A frame was read: its payload, and what that decodes to.
pub open spec fn record_kept(
    history: Seq<Event>,
    at: int,
    page: &StoredPageRef<'_>,
    payload: Seq<u8>,
    raw: Seq<u8>,
) -> bool {
    pin::pin_replay(
        history,
        at,
        page.pin().chosen(),
        page.location().pack,
        record_range(page.location()),
    ) matches Replay::Done(Ok(record), _) && record_holds(
        page.location(),
        record,
        page.pin()@.dictionaries,
        raw,
    ) && payload == record_payload(record)
}

/// What reading a frame came to: the pages of its record, or why there are none.
pub open spec fn fetched(
    history: Seq<Event>,
    at: int,
    page: &StoredPageRef<'_>,
    frame: Result<Seq<u8>, StoreError>,
) -> bool {
    let location = page.location();
    let dictionaries = page.pin()@.dictionaries;
    if location.payload.offset.value < FRAME_HEADER_SIZE {
        frame == Err::<Seq<u8>, StoreError>(StoreError::Range) && history.len() == at
    } else {
        match pin::pin_replay(
            history,
            at,
            page.pin().chosen(),
            location.pack,
            record_range(location),
        ) {
            Replay::Astray => false,
            Replay::Done(Err(error), next) => frame == Err::<Seq<u8>, StoreError>(error)
                && next == history.len(),
            Replay::Done(Ok(record), next) => next == history.len() && match frame {
                Ok(raw) => record_holds(location, record, dictionaries, raw),
                Err(error) => record_refused(location, record, dictionaries, error),
            },
        }
    }
}

/// What reading a page came to: its bytes in the frame that was read.
pub open spec fn page_read(
    history: Seq<Event>,
    at: int,
    page: &StoredPageRef<'_>,
    bytes: Result<Vec<u8>, StoreError>,
) -> bool {
    match bytes {
        Ok(b) => exists|raw: Seq<u8>| #[trigger]
            fetched(history, at, page, Ok(raw)) && b@ == page.location().frame.slot(
                raw,
                page.place().index as int,
            ),
        Err(e) => fetched(history, at, page, Err(e)),
    }
}

impl<'view> ResolvedPage<'view> {
    /// Reads the page. What comes back of a stored page matches its version; a
    /// page that nothing was stored for is all zeros.
    pub fn read<B: StorageBackend>(&self, backend: &mut B) -> (page: Result<Vec<u8>, StoreError>)
        ensures
            final(backend).namespace() == old(backend).namespace(),
            adapter::extends(old(backend).history(), final(backend).history()),
            adapter::quiet(old(backend).history(), final(backend).history()),
            match self {
                ResolvedPage::Zero(zero) => (page matches Ok(p) && p@ == bytes::zeros(
                    zero.pin()@.metadata.view.size.page_size.value as nat,
                )) && final(backend).history() == old(backend).history(),
                ResolvedPage::Stored(stored) => page_read(
                    final(backend).history(),
                    old(backend).history().len() as int,
                    stored,
                    page,
                ) && (page matches Ok(p) ==> frame::sound_page(
                    stored.location().frame.pages[stored.place().index as int],
                    p@,
                )),
            },
    {
        match self {
            ResolvedPage::Zero(zero) => {
                let size: LogicalBytes = zero.view.metadata().resolved().size;
                let mut bytes: Vec<u8> = Vec::new();
                append_zeros(&mut bytes, size.page_size.value as usize);
                assert(bytes@ =~= bytes::zeros(size.page_size.value as nat));
                Ok(bytes)
            },
            ResolvedPage::Stored(stored) => stored.read(backend),
        }
    }
}

/// The current pages that are taken out of a decoded frame are those of its slots that the
/// view reads, in their order, each with the bytes of its slot.
pub proof fn law_current_slots_are_taken(
    view: ViewModel,
    frame: FrameModel,
    raw: Seq<u8>,
    i: int,
)
    requires
        frame.sound(),
        raw.len() == frame.shape.size(),
        0 <= i <= frame.pages.len(),
    ensures
        live_slots(view, frame, raw, i) == Seq::new(
            frame.pages.len(),
            |k: int| k,
        ).skip(i).filter(
            |k: int|
                view.pages.dom().contains(frame.pages[k].page) && view.pages[frame.pages[k].page].frame
                    == frame.id,
        ).map_values(|k: int| (frame.pages[k], frame.slot(raw, k))),
    decreases frame.pages.len() - i,
{
    let all = Seq::new(frame.pages.len(), |k: int| k);
    let pick = |k: int|
        view.pages.dom().contains(frame.pages[k].page) && view.pages[frame.pages[k].page].frame
            == frame.id;
    let take = |k: int| (frame.pages[k], frame.slot(raw, k));
    if i < frame.pages.len() {
        law_current_slots_are_taken(view, frame, raw, i + 1);
        let rest = all.skip(i + 1);
        assert(all.skip(i) =~= seq![i] + rest);
        Seq::filter_distributes_over_add(seq![i], rest, pick);
        assert(seq![i].filter(pick) =~= if pick(i) {
            seq![i]
        } else {
            Seq::empty()
        }) by {
            reveal_with_fuel(Seq::filter, 2);
            assert(seq![i].drop_last() =~= Seq::<int>::empty());
        }
        assert((i + 1) * frame.shape.page_size.value <= raw.len()) by (nonlinear_arith)
            requires
                raw.len() == frame.shape.page_size.value * frame.shape.pages,
                i + 1 <= frame.shape.pages,
                frame.shape.page_size.value >= 0,
        ;
        assert(all.skip(i).filter(pick).map_values(take) =~= if pick(i) {
            seq![take(i)] + rest.filter(pick).map_values(take)
        } else {
            rest.filter(pick).map_values(take)
        });
    } else {
        assert(all.skip(i) =~= Seq::<int>::empty());
        reveal_with_fuel(Seq::filter, 1);
        assert(all.skip(i).filter(pick) =~= Seq::<int>::empty());
        assert(all.skip(i).filter(pick).map_values(take) =~= Seq::empty());
    }
}

} // verus!
