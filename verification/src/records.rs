//! The records of many frames in one batch.

use crate::adapter;
use crate::adapter::{BackendError, Event, ObjectRange, StorageBackend};
use crate::bytes::copied;
use crate::domain::{Count, FrameId, PackId, PageNumber};
use crate::error::{StoreError, valued};
use crate::format::FRAME_HEADER_SIZE;
use crate::order;
use crate::order::{Key, OrderedMap, OrderedSet};
use crate::page::ResolvedPage;
use crate::pin;
use crate::pin::{LocatedModel, LocatedRange, PlacementPin};
use crate::pinned::PinnedView;
use crate::placement::{PackRange, PlacementsModel};
use crate::view::{FrameLocation, LocationModel, ViewMetadata, ViewModel};
use vstd::prelude::*;

verus! {

/// The frames that the first `count` pages stand in.
pub open spec fn stored_frames(view: ViewModel, pages: Seq<PageNumber>, count: int) -> Set<FrameId>
    decreases count,
{
    if count <= 0 {
        Set::empty()
    } else {
        let before = stored_frames(view, pages, count - 1);
        let page = pages[count - 1];
        if view.pages.dom().contains(page) {
            before.insert(view.pages[page].frame)
        } else {
            before
        }
    }
}

/// Some page is beyond the size of the view.
pub open spec fn beyond_size(view: ViewModel, pages: Seq<PageNumber>) -> bool {
    exists|i: int| 0 <= i < pages.len() && (#[trigger] pages[i]).value > view.size.count()
}

/// The bytes of a frame's record in its pack.
pub open spec fn record_part(location: LocationModel) -> PackRange {
    PackRange {
        offset: Count { value: (location.payload.offset.value - FRAME_HEADER_SIZE) as u64 },
        length: Count { value: (location.payload.length.value + FRAME_HEADER_SIZE) as u64 },
    }
}

/// Where the record of a frame is read, or why it cannot be.
pub open spec fn request_of(chosen: Map<PackId, PlacementsModel>, location: LocationModel) -> Result<
    LocatedModel,
    StoreError,
> {
    let part = record_part(location);
    let extent = chosen[location.pack].representations[0].extent;
    if location.payload.offset.value < FRAME_HEADER_SIZE {
        Err(StoreError::Range)
    } else if !chosen.dom().contains(location.pack) {
        Err(StoreError::Corrupt(0))
    } else if part.offset.value + part.length.value > extent.length.value {
        Err(StoreError::Range)
    } else {
        Ok(LocatedModel { pack: location.pack, extent, range: extent.located(part) })
    }
}

/// Where the records of the first `count` frames are read, or why one cannot be.
pub open spec fn requests_of(
    chosen: Map<PackId, PlacementsModel>,
    view: ViewModel,
    frames: Seq<FrameId>,
    count: int,
) -> Result<Seq<LocatedModel>, StoreError>
    decreases count,
{
    if count <= 0 {
        Ok(Seq::empty())
    } else {
        match requests_of(chosen, view, frames, count - 1) {
            Err(error) => Err(error),
            Ok(before) => match request_of(chosen, view.frames[frames[count - 1]]) {
                Err(error) => Err(error),
                Ok(request) => Ok(before.push(request)),
            },
        }
    }
}

proof fn lemma_requests_stop(
    chosen: Map<PackId, PlacementsModel>,
    view: ViewModel,
    frames: Seq<FrameId>,
    i: int,
    count: int,
)
    requires
        0 <= i <= count,
        requests_of(chosen, view, frames, i) is Err,
    ensures
        requests_of(chosen, view, frames, count) == requests_of(chosen, view, frames, i),
    decreases count - i,
{
    if i < count {
        lemma_requests_stop(chosen, view, frames, i, count - 1);
    }
}

/// Records stand one for one to frames.
pub open spec fn recorded(
    records: Map<FrameId, Seq<u8>>,
    frames: Seq<FrameId>,
    results: Seq<Vec<u8>>,
) -> bool {
    &&& results.len() == frames.len()
    &&& records.dom() == frames.to_set()
    &&& forall|i: int| 0 <= i < frames.len() ==> records[#[trigger] frames[i]] == results[i]@
}

/// The backend was asked once, and these are the results.
pub open spec fn batch_read(
    requests: Seq<LocatedModel>,
    earlier: Seq<Event>,
    later: Seq<Event>,
    results: Result<Vec<Vec<u8>>, StoreError>,
) -> bool {
    exists|reads: Seq<ObjectRange>, slots: Seq<usize>, reply: Result<Vec<Vec<u8>>, BackendError>|
        #![trigger pin::answered(requests, reads, slots, reply, results)]
        pin::planned(requests, reads, slots) && later == earlier.push(
            Event::Read { requests: reads, reply },
        ) && pin::answered(requests, reads, slots, reply, results)
}

/// The records are the results, frame by frame.
pub open spec fn sorted_out(
    results: Result<Vec<Vec<u8>>, StoreError>,
    frames: Seq<FrameId>,
    done: Result<OrderedMap<FrameId, Vec<u8>>, StoreError>,
) -> bool {
    match (results, done) {
        (Ok(r), Ok(records)) => recorded(records@, frames, r@),
        (Err(error), Err(e)) => e == error,
        _ => false,
    }
}

/// The batch was refused, or the backend was asked once.
pub open spec fn batched(
    requests: Seq<LocatedModel>,
    frames: Seq<FrameId>,
    earlier: Seq<Event>,
    later: Seq<Event>,
    done: Result<OrderedMap<FrameId, Vec<u8>>, StoreError>,
) -> bool {
    ||| (done matches Err(e) && e == StoreError::Range && later == earlier)
    ||| exists|results: Result<Vec<Vec<u8>>, StoreError>| #[trigger]
        batch_read(requests, earlier, later, results) && sorted_out(results, frames, done)
}

/// What reading the records of the frames of some pages came to.
pub open spec fn records_read(
    pin: &PinnedView,
    pages: Seq<PageNumber>,
    earlier: Seq<Event>,
    later: Seq<Event>,
    done: Result<OrderedMap<FrameId, Vec<u8>>, StoreError>,
) -> bool {
    let view = pin@.metadata.view;
    let frames = order::roll::<FrameId>(stored_frames(view, pages, pages.len() as int));
    if beyond_size(view, pages) {
        done matches Err(e) && e == StoreError::Range && later == earlier
    } else if frames.len() == 0 {
        done matches Ok(records) && records@ == Map::<FrameId, Seq<u8>>::empty() && later
            == earlier
    } else {
        match requests_of(pin.chosen(), view, frames, frames.len() as int) {
            Err(error) => done matches Err(e) && e == error && later == earlier,
            Ok(requests) => batched(requests, frames, earlier, later, done),
        }
    }
}

fn locate_record(placement: &PlacementPin, location: &FrameLocation) -> (request: Result<
    LocatedRange,
    StoreError,
>)
    requires
        location@.frame.sound(),
        location@.payload.length.value == location@.frame.payload_bytes,
    ensures
        match request {
            Ok(r) => request_of(placement.chosen(), location@) == Ok::<LocatedModel, StoreError>(
                r@,
            ),
            Err(e) => request_of(placement.chosen(), location@) == Err::<LocatedModel, StoreError>(
                e,
            ),
        },
{
    proof {
        crate::frame::lemma_payload_small(location@.frame);
    }
    let payload: PackRange = location.payload();
    if payload.offset.value < FRAME_HEADER_SIZE as u64 {
        return Err(StoreError::Range);
    }
    let range: PackRange = valued(
        PackRange::new(
            Count { value: payload.offset.value - FRAME_HEADER_SIZE as u64 },
            Count { value: payload.length.value + FRAME_HEADER_SIZE as u64 },
        ),
    )?;
    placement.locate(location.pack(), range)
}

impl PinnedView {
    /// The frames that some pages stand in.
    fn frames_of_pages(&self, pages: &Vec<PageNumber>) -> (frames: Result<
        OrderedSet<FrameId>,
        StoreError,
    >)
        ensures
            match frames {
                Ok(f) => !beyond_size(self@.metadata.view, pages@) && f@ == stored_frames(
                    self@.metadata.view,
                    pages@,
                    pages@.len() as int,
                ),
                Err(e) => beyond_size(self@.metadata.view, pages@) && e == StoreError::Range,
            },
    {
        let ghost view = self@.metadata.view;
        let metadata: &ViewMetadata = self.metadata().resolved();
        let mut frames: OrderedSet<FrameId> = OrderedSet::new();
        let mut i: usize = 0;
        while i < pages.len()
            invariant
                i <= pages@.len(),
                view == self@.metadata.view,
                crate::validation::frames_sound(view),
                view.resolvable(),
                frames@ == stored_frames(view, pages@, i as int),
                forall|j: int| 0 <= j < i ==> (#[trigger] pages@[j]).value <= view.size.count(),
            decreases pages.len() - i,
        {
            match self.resolve(pages[i]) {
                Ok(ResolvedPage::Stored(page)) => {
                    proof {
                        let stored = view.pages[pages@[i as int]];
                        assert(view.resolves(stored));
                        assert(crate::validation::location_sound(
                            view,
                            stored.frame,
                            view.frames[stored.frame],
                        ));
                    }
                    frames.insert(page.frame_id());
                },
                Ok(ResolvedPage::Zero(_)) => {},
                Err(error) => {
                    assert(pages@[i as int].value > view.size.count());
                    return Err(error);
                },
            }
            i += 1;
        }
        Ok(frames)
    }

    /// Reads the records of the frames that some pages stand in, in one batch.
    pub fn read_frame_records<B: StorageBackend>(&self, backend: &mut B, pages: &Vec<PageNumber>) -> (records:
        Result<OrderedMap<FrameId, Vec<u8>>, StoreError>)
        ensures
            final(backend).namespace() == old(backend).namespace(),
            adapter::extends(old(backend).history(), final(backend).history()),
            adapter::quiet(old(backend).history(), final(backend).history()),
            records_read(
                self,
                pages@,
                old(backend).history(),
                final(backend).history(),
                records,
            ),
    {
        let ghost view = self@.metadata.view;
        let ghost chosen = self.chosen();
        let frames: OrderedSet<FrameId> = self.frames_of_pages(pages)?;
        let count: usize = frames.len();
        let ghost list = frames.walk();
        let metadata: &ViewMetadata = self.metadata().resolved();
        let mut requests: Vec<LocatedRange> = Vec::new();
        if count == 0 {
            return Ok(OrderedMap::new());
        }
        let mut i: usize = 0;
        assert(pin::models(requests@) =~= Seq::<LocatedModel>::empty());
        while i < count
            invariant
                i <= count,
                count == list.len(),
                list == frames.walk(),
                view == self@.metadata.view,
                metadata@ == view,
                crate::validation::frames_sound(view),
                view.resolvable(),
                list.to_set() == frames@,
                chosen == self.chosen(),
                frames@ == stored_frames(view, pages@, pages@.len() as int),
                list == order::roll::<FrameId>(stored_frames(view, pages@, pages@.len() as int)),
                !beyond_size(view, pages@),
                backend.history() == old(backend).history(),
                backend.namespace() == old(backend).namespace(),
                requests@.len() == i,
                requests_of(chosen, view, list, i as int) == Ok::<Seq<LocatedModel>, StoreError>(
                    pin::models(requests@),
                ),
            decreases count - i,
        {
            let id: FrameId = *frames.at(i);
            assert(list[i as int] == id);
            let location: &FrameLocation = match metadata.frames.get(&id) {
                Some(location) => location,
                None => {
                    proof {
                        assert(list.contains(list[i as int]));
                        assert(list.to_set().contains(id));
                        lemma_stored_known(view, pages@, pages@.len() as int, id);
                        assert(false);
                    }
                    return Err(StoreError::Corrupt(0));
                },
            };
            let shape = location.metadata().shape();
            assert(crate::validation::location_sound(view, id, location@));
            let request: LocatedRange = match locate_record(self.placement(), location) {
                Ok(request) => request,
                Err(error) => {
                    proof {
                        lemma_requests_stop(chosen, view, list, i as int + 1, list.len() as int);
                    }
                    return Err(error);
                },
            };
            let ghost before = pin::models(requests@);
            requests.push(request);
            assert(pin::models(requests@) =~= before.push(request@));
            i += 1;
        }
        let placement: &PlacementPin = self.placement();
        let results: Result<Vec<Vec<u8>>, StoreError> = placement.read_ranges(
            backend,
            requests.as_slice(),
        );
        let ghost requested = pin::models(requests@);
        let ghost given = results;
        proof {
            assert(requests_of(chosen, view, list, list.len() as int) == Ok::<
                Seq<LocatedModel>,
                StoreError,
            >(requested));
            if placement.readable(requested) {
                let (reads, slots, reply) = choose|
                    reads: Seq<ObjectRange>,
                    slots: Seq<usize>,
                    reply: Result<Vec<Vec<u8>>, BackendError>,
                |
                    #![trigger pin::answered(requested, reads, slots, reply, given)]
                    pin::planned(requested, reads, slots) && backend.history() == old(
                        backend,
                    ).history().push(Event::Read { requests: reads, reply }) && pin::answered(
                        requested,
                        reads,
                        slots,
                        reply,
                        given,
                    );
                assert(pin::answered(requested, reads, slots, reply, given));
                assert(batch_read(requested, old(backend).history(), backend.history(), given));
            }
        }
        let results: Vec<Vec<u8>> = match results {
            Ok(results) => results,
            Err(error) => {
                return Err(error);
            },
        };
        let ghost all = results@;
        let ghost after = backend.history();
        assert(all.len() == list.len());
        let mut records: OrderedMap<FrameId, Vec<u8>> = OrderedMap::new();
        let mut i: usize = 0;
        while i < count
            invariant
                i <= count,
                count == list.len(),
                count == results@.len(),
                list == frames.walk(),
                order::climbing::<FrameId>(list),
                results@ == all,
                forall|id: FrameId| #[trigger]
                    records@.dom().contains(id) <==> list.take(i as int).contains(id),
                forall|j: int|
                    0 <= j < i ==> records@[#[trigger] list[j]] == results@[j]@,
            decreases count - i,
        {
            let id: FrameId = *frames.at(i);
            let ghost before = records@;
            records.insert(id, copied(results[i].as_slice()));
            proof {
                let now = list.take(i as int + 1);
                assert(now =~= list.take(i as int).push(id));
                assert forall|f: FrameId| #[trigger] records@.dom().contains(f) <==> now.contains(f) by {
                    if list.take(i as int).contains(f) {
                        let k = choose|k: int| 0 <= k < i && list.take(i as int)[k] == f;
                        assert(now[k] == f);
                    }
                    assert(now[i as int] == id);
                    if now.contains(f) && f != id {
                        let k = choose|k: int| 0 <= k < now.len() && now[k] == f;
                        assert(list.take(i as int)[k] == f);
                    }
                }
                assert forall|j: int| 0 <= j < i + 1 implies records@[#[trigger] list[j]] == results@[j]@ by {
                    if j < i {
                        assert(FrameId::precedes(list[j], list[i as int]));
                        FrameId::lemma_irreflexive(list[j]);
                    }
                }
            }
            i += 1;
        }
        proof {
            assert(list.take(i as int) =~= list);
            assert(records@.dom() =~= list.to_set());
            assert(recorded(records@, list, results@));
        }
        Ok(records)
    }
}

proof fn lemma_stored_known(view: ViewModel, pages: Seq<PageNumber>, count: int, id: FrameId)
    requires
        view.resolvable(),
        0 <= count <= pages.len(),
        stored_frames(view, pages, count).contains(id),
    ensures
        view.frames.dom().contains(id),
    decreases count,
{
    if count > 0 {
        let page = pages[count - 1];
        if view.pages.dom().contains(page) && view.pages[page].frame == id {
            assert(view.resolves(view.pages[page]));
        } else {
            lemma_stored_known(view, pages, count - 1, id);
        }
    }
}

/// The frames that are read for some pages are those that one of the pages stands in, and no
/// others: a page that is not stored asks for none.
pub proof fn law_frames_of_pages_are_read(
    view: ViewModel,
    pages: Seq<PageNumber>,
    count: int,
    frame: FrameId,
)
    requires
        0 <= count <= pages.len(),
    ensures
        stored_frames(view, pages, count).contains(frame) <==> exists|i: int|
            0 <= i < count && view.pages.dom().contains(#[trigger] pages[i])
                && view.pages[pages[i]].frame == frame,
    decreases count,
{
    if count > 0 {
        law_frames_of_pages_are_read(view, pages, count - 1, frame);
    }
}

/// The record of a frame is read from the first place of its pack, its header of sixteen
/// bytes and its payload, as far into the blob as the pack stands there.
pub proof fn law_record_is_read_from_the_first_place(
    chosen: Map<PackId, PlacementsModel>,
    location: LocationModel,
    request: LocatedModel,
)
    requires
        request_of(chosen, location) == Ok::<LocatedModel, StoreError>(request),
        chosen[location.pack].representations[0].extent.wf(),
        location.payload.wf(),
    ensures
        request.pack == location.pack,
        request.extent == chosen[location.pack].representations[0].extent,
        request.range.offset.value == request.extent.offset.value + location.payload.offset.value
            - 16,
        request.range.length.value == location.payload.length.value + 16,
        location.payload.offset.value + location.payload.length.value
            <= request.extent.length.value,
{
}

} // verus!
