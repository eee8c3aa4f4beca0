//! Where packs stand: new places, cohorts, and relocation into one blob.

use crate::adapter;
use crate::adapter::{BackendError, Event, ObjectKey, RootRecord, StorageBackend};
use crate::assembly;
use crate::blob;
use crate::blob::{BlobWriter, MAX_BLOB_PACKS, PackSpan};
use crate::builder::Durable;
use crate::bytes;
use crate::bytes::{copied, same_bytes};
use crate::digest;
use crate::domain::{BackendId, BlobId, Count, PACK, PackId, RepresentationId, StoredBytes};
use crate::draft;
use crate::error::StoreError;
use crate::fetch::Replay;
use crate::frame;
use crate::opening;
use crate::order;
use crate::order::{OrderedMap, OrderedSet};
use crate::pin;
use crate::pin::{PlacementPin, read_placement};
use crate::placement;
use crate::placement::{
    BlobExtent, MAX_REPRESENTATIONS, Placements, PlacementsModel, Representation,
};
use crate::retention;
use crate::state;
use crate::state::{State, StateModel};
use crate::trace;
use crate::trace::{LocalRoots, TraceModel, reachable_packs};
use vstd::prelude::*;

verus! {

/// A place of a pack, under the identity that it has.
pub open spec fn representation_of(pack: PackId, extent: BlobExtent) -> Representation {
    Representation {
        id: frame::id_of(digest::content_hash(placement::representation_input(pack, extent))),
        extent,
    }
}

/// A placement with a place added and preferred, or why it cannot be.
pub open spec fn placed(base: PlacementsModel, extent: BlobExtent) -> Result<
    PlacementsModel,
    StoreError,
> {
    let model = base.with(representation_of(base.pack, extent));
    if extent.length.value != base.length {
        Err(StoreError::IdentityMismatch)
    } else if model.representations.len() > MAX_REPRESENTATIONS {
        Err(StoreError::Range)
    } else {
        Ok(model)
    }
}

/// The placement of a pack before its first place.
pub open spec fn unplaced(pack: PackId, extent: BlobExtent) -> PlacementsModel {
    PlacementsModel {
        pack,
        length: extent.length.value,
        cohort: bytes::zeros(32),
        representations: Seq::empty(),
    }
}

/// The placement of a pack with a place added.
pub open spec fn placed_entry(state: StateModel, pack: PackId, extent: BlobExtent) -> Result<
    PlacementsModel,
    StoreError,
> {
    let entries = state.placements.entries;
    if entries.dom().contains(pack.bytes@) {
        match placement::placements_parse(pack, entries[pack.bytes@]) {
            Err(error) => Err(error),
            Ok(base) => placed(base, extent),
        }
    } else {
        placed(unplaced(pack, extent), extent)
    }
}

impl StateModel {
    /// The state with another placement of a pack.
    pub open spec fn with_placement(self, model: PlacementsModel) -> StateModel {
        StateModel { placements: self.placements.with(model.pack.bytes@, model.record()), ..self }
    }
}

/// Adds a place to a placement and prefers it.
fn add_place(base: &mut Placements, extent: BlobExtent) -> (done: Result<(), StoreError>)
    ensures
        match done {
            Ok(_) => placed(old(base)@, extent) == Ok::<PlacementsModel, StoreError>(final(base)@),
            Err(e) => placed(old(base)@, extent) == Err::<PlacementsModel, StoreError>(e),
        },
        final(base)@.pack == old(base)@.pack,
{
    let ghost before = base@;
    let done: Result<(), StoreError> = base.add(extent);
    proof {
        if extent.length.value == before.length {
            let r = choose|r: Representation|
                #![trigger digest::names(r.id, placement::representation_input(before.pack, extent))]
                digest::names(r.id, placement::representation_input(before.pack, extent))
                    && r.extent == extent && base@ == before.with(r) && done == if base@.representations.len()
                    > MAX_REPRESENTATIONS {
                    Err::<(), StoreError>(StoreError::Range)
                } else {
                    Ok::<(), StoreError>(())
                };
            draft::lemma_named(r.id, placement::representation_input(before.pack, extent));
            assert(r == representation_of(before.pack, extent));
        }
    }
    done
}

/// Notes a new place of a pack, which reads will use.
pub fn install_pack_extent(state: &mut State, home: BackendId, pack: PackId, extent: BlobExtent) -> (receipt:
    Result<Durable<PACK>, StoreError>)
    ensures
        match receipt {
            Ok(r) => placed_entry(old(state)@, pack, extent) matches Ok(model) && final(state)@
                == old(state)@.with_placement(model) && r.of() == pack && r.at_home() == home
                && r.size().value == extent.length.value,
            Err(e) => placed_entry(old(state)@, pack, extent) == Err::<PlacementsModel, StoreError>(
                e,
            ) && final(state)@ == old(state)@,
        },
{
    let key: Vec<u8> = copied(pack.bytes.as_slice());
    let mut base: Placements = match state.placements.entries().get(&key) {
        Some(bytes) => Placements::decode(pack, bytes.as_slice())?,
        None => {
            let fresh: Placements = Placements {
                pack,
                length: Count { value: extent.length.value },
                cohort: [0u8; 32],
                representations: Vec::new(),
            };
            assert(fresh@ =~= unplaced(pack, extent));
            fresh
        },
    };
    match add_place(&mut base, extent) {
        Err(error) => {
            return Err(error);
        },
        Ok(_) => {},
    }
    state.placements.insert(key, base.encode());
    Ok(Durable::new(home, pack, Count { value: extent.length.value }))
}

/// Notes the cohort of a pack.
pub fn set_cohort(state: &mut State, pack: PackId, cohort: [u8; 32]) -> (done: Result<(), StoreError>)
    ensures
        match pin::entry_placement(old(state)@.placements.entries, pack) {
            Err(error) => done == Err::<(), StoreError>(error) && final(state)@ == old(state)@,
            Ok(model) => done is Ok && final(state)@ == old(state)@.with_placement(
                (PlacementsModel { cohort: cohort@, ..model }),
            ),
        },
{
    let mut placement: Placements = read_placement(state.placements.entries(), pack)?;
    placement.cohort = cohort;
    state.placements.insert(copied(pack.bytes.as_slice()), placement.encode());
    Ok(())
}

/// A place that was noted is the one that the pack is read from.
pub proof fn law_new_place_is_preferred(state: StateModel, pack: PackId, extent: BlobExtent)
    requires
        extent.wf(),
        extent.offset.value >= placement::BLOB_HEADER,
        placed_entry(state, pack, extent) is Ok,
        placed_entry(state, pack, extent)->Ok_0.wf(),
        placed_entry(state, pack, extent)->Ok_0.pack == pack,
        placed_entry(state, pack, extent)->Ok_0.record().len() <= usize::MAX,
    ensures
        ({
            let model = placed_entry(state, pack, extent)->Ok_0;
            let after = state.with_placement(model);
            &&& pin::entry_placement(after.placements.entries, pack) == Ok::<
                PlacementsModel,
                StoreError,
            >(model)
            &&& model.representations[0].extent == extent
        }),
{
    let model = placed_entry(state, pack, extent)->Ok_0;
    crate::placement::law_placements_round_trip(model);
}

/// What packs of one blob must share.
pub const COHORT_RULE: &'static str = "relocation packs must share a churn cohort";

/// A relocation that is under way: what the blob holds so far, where each pack
/// starts, and the bytes of the packs.
#[verifier::ext_equal]
pub struct CopyModel {
    pub body: Seq<u8>,
    pub ranges: Map<PackId, PackSpan>,
    pub total: int,
}

/// The places of some packs, as a catalog has them.
pub open spec fn chosen_places(state: StateModel, packs: Set<PackId>) -> Map<PackId, PlacementsModel> {
    Map::new(
        |pack: PackId| packs.contains(pack),
        |pack: PackId| pin::entry_placement(state.placements.entries, pack)->Ok_0,
    )
}

/// Whether a catalog places the first `count` of some packs.
pub open spec fn places_check(
    entries: Map<Seq<u8>, Seq<u8>>,
    walk: Seq<PackId>,
    count: int,
) -> Result<(), StoreError>
    decreases count,
{
    if count <= 0 {
        Ok(())
    } else {
        match places_check(entries, walk, count - 1) {
            Err(error) => Err(error),
            Ok(_) => match pin::entry_placement(entries, walk[count - 1]) {
                Err(error) => Err(error),
                Ok(_) => Ok(()),
            },
        }
    }
}

proof fn lemma_places_good(entries: Map<Seq<u8>, Seq<u8>>, walk: Seq<PackId>, count: int)
    requires
        0 <= count <= walk.len(),
        forall|j: int| 0 <= j < count ==> pin::entry_placement(entries, #[trigger] walk[j]) is Ok,
    ensures
        places_check(entries, walk, count) is Ok,
    decreases count,
{
    if count > 0 {
        lemma_places_good(entries, walk, count - 1);
        assert(pin::entry_placement(entries, walk[count - 1]) is Ok);
    }
}

proof fn lemma_places_stop(entries: Map<Seq<u8>, Seq<u8>>, walk: Seq<PackId>, i: int, count: int)
    requires
        0 <= i <= count,
        places_check(entries, walk, i) is Err,
    ensures
        places_check(entries, walk, count) == places_check(entries, walk, i),
    decreases count - i,
{
    if i < count {
        lemma_places_stop(entries, walk, i, count - 1);
    }
}

/// What copying packs, from place `i` on, came to. Each must be reachable, share
/// the cohort of the first, and fit the budget; each is verified as it is copied.
pub open spec fn copies_replay(
    history: Seq<Event>,
    at: int,
    chosen: Map<PackId, PlacementsModel>,
    reachable: Set<PackId>,
    packs: Seq<PackId>,
    budget: int,
    i: int,
    copy: CopyModel,
) -> Replay<CopyModel>
    decreases packs.len() - i,
{
    if i < 0 || i >= packs.len() {
        Replay::Done(Ok(copy), at)
    } else {
        let pack = packs[i];
        let total = copy.total + chosen[pack].length;
        if !reachable.contains(pack) {
            Replay::Done(Err(StoreError::Busy), at)
        } else if chosen[pack].cohort != chosen[packs[0]].cohort {
            Replay::Done(Err(StoreError::InvalidConfiguration(COHORT_RULE)), at)
        } else if total > u64::MAX || total > budget {
            Replay::Done(Err(StoreError::Range), at)
        } else {
            match pin::pack_replay(history, at, chosen, pack) {
                Replay::Astray => Replay::Astray,
                Replay::Done(Err(error), next) => Replay::Done(Err(error), next),
                Replay::Done(Ok(bytes), next) => if copy.body.len() + bytes.len() > u64::MAX {
                    Replay::Done(Err(StoreError::Range), next)
                } else {
                    copies_replay(
                        history,
                        next,
                        chosen,
                        reachable,
                        packs,
                        budget,
                        i + 1,
                        CopyModel {
                            body: copy.body + bytes,
                            ranges: copy.ranges.insert(
                                pack,
                                PackSpan {
                                    offset: copy.body.len() as u64,
                                    length: bytes.len() as u64,
                                },
                            ),
                            total,
                        },
                    )
                },
            }
        }
    }
}

/// A blob before its first pack.
pub open spec fn copy_start() -> CopyModel {
    CopyModel { body: blob::blob_header(), ranges: Map::empty(), total: 0 }
}

/// Whether some packs may be relocated together.
pub open spec fn batch_check(packs: Seq<PackId>) -> Result<(), StoreError> {
    if packs.len() == 0 || packs.len() > MAX_BLOB_PACKS || !packs.no_duplicates() {
        Err(StoreError::Range)
    } else {
        Ok(())
    }
}

/// What copying some packs into a blob came to, but for what the blob's writer may
/// refuse.
pub open spec fn copy_replay(
    history: Seq<Event>,
    at: int,
    state: StateModel,
    local: LocalRoots<'_>,
    packs: Seq<PackId>,
    budget: int,
) -> Replay<CopyModel> {
    let walk = order::roll::<PackId>(packs.to_set());
    match batch_check(packs) {
        Err(error) => Replay::Done(Err(error), at),
        Ok(_) => match trace::logical_replay(history, at, state, local) {
            Replay::Astray => Replay::Astray,
            Replay::Done(Err(error), next) => Replay::Done(Err(error), next),
            Replay::Done(Ok(trace), next) => match places_check(
                state.placements.entries,
                walk,
                walk.len() as int,
            ) {
                Err(error) => Replay::Done(Err(error), next),
                Ok(_) => copies_replay(
                    history,
                    next,
                    chosen_places(state, packs.to_set()),
                    trace::packs_among(trace.live),
                    packs,
                    budget,
                    0,
                    copy_start(),
                ),
            },
        },
    }
}

/// The state with the first `count` of some packs placed anew, or why the last of
/// them cannot be; what was placed before stays placed.
pub open spec fn placed_packs(
    state: StateModel,
    packs: Seq<PackId>,
    extents: Map<PackId, BlobExtent>,
    count: int,
) -> (StateModel, Option<StoreError>)
    decreases count,
{
    if count <= 0 {
        (state, None)
    } else {
        let prior = placed_packs(state, packs, extents, count - 1);
        if prior.1 is Some {
            prior
        } else {
            let pack = packs[count - 1];
            match pin::entry_placement(prior.0.placements.entries, pack) {
                Err(error) => (prior.0, Some(error)),
                Ok(base) => match placed(base, extents[pack]) {
                    Err(error) => (prior.0, Some(error)),
                    Ok(model) => (prior.0.with_placement(model), None),
                },
            }
        }
    }
}

proof fn lemma_placed_stop(
    state: StateModel,
    packs: Seq<PackId>,
    extents: Map<PackId, BlobExtent>,
    i: int,
    count: int,
)
    requires
        0 <= i <= count,
        placed_packs(state, packs, extents, i).1 is Some,
    ensures
        placed_packs(state, packs, extents, count) == placed_packs(state, packs, extents, i),
    decreases count - i,
{
    if i < count {
        lemma_placed_stop(state, packs, extents, i, count - 1);
    }
}

/// What a relocation did.
#[derive(Clone, Copy, Debug, PartialEq, Eq)]
pub struct RelocationReport {
    pub packs: usize,
    pub copied_bytes: u64,
    pub blob: Option<BlobId>,
}

/// Copying some packs gave this.
pub open spec fn was_copied(
    state: StateModel,
    earlier: Seq<Event>,
    later: Seq<Event>,
    local: LocalRoots<'_>,
    packs: Seq<PackId>,
    budget: int,
    copy: CopyModel,
) -> bool {
    &&& retention::looked(earlier, later)
    &&& copy_replay(later, earlier.len() as int, state, local, packs, budget) == Replay::Done(
        Ok::<CopyModel, StoreError>(copy),
        later.len() as int,
    )
}

/// The entries of a blob's index.
pub open spec fn copy_entries(copy: CopyModel) -> Seq<blob::IndexEntry> {
    blob::span_entries(order::listing::<PackId, PackSpan>(copy.ranges))
}

/// The whole blob.
pub open spec fn copy_bytes(copy: CopyModel) -> Seq<u8> {
    blob::blob_bytes(copy.body, copy_entries(copy))
}

/// A blob was installed, and its packs stand there.
pub open spec fn blob_installed(
    earlier: Seq<Event>,
    later: Seq<Event>,
    copy: CopyModel,
    blob: BlobId,
    extents: Map<PackId, BlobExtent>,
) -> bool {
    &&& digest::names(
        blob,
        blob::blob_input(
            blob::index_bytes(copy_entries(copy)),
            copy_bytes(copy).len() as int,
        ),
    )
    &&& blob::indexes(extents, copy_entries(copy), blob, copy_bytes(copy).len() as int)
    &&& later == earlier.push(
        Event::Install { key: ObjectKey::Blob(blob), bytes: copy_bytes(copy), reply: Ok(()) },
    )
}

/// The root has a token.
pub open spec fn has_token(root: Option<RootRecord>, revision: Option<Seq<u8>>) -> bool {
    match root {
        None => revision is None,
        Some(record) => revision == Some(record@.revision),
    }
}

/// What follows the installation of a blob: the root must still be the one that
/// was loaded; then the packs are placed there, and that is published.
pub open spec fn adopted(
    before: StateModel,
    after: StateModel,
    earlier: Seq<Event>,
    later: Seq<Event>,
    packs: Seq<PackId>,
    extents: Map<PackId, BlobExtent>,
    done: Result<(), StoreError>,
) -> bool {
    exists|reply: Result<Option<RootRecord>, BackendError>| #[trigger]
        adopted_by(before, after, earlier, later, packs, extents, done, reply)
}

/// As `adopted`, where the root was read like this.
pub open spec fn adopted_by(
    before: StateModel,
    after: StateModel,
    earlier: Seq<Event>,
    later: Seq<Event>,
    packs: Seq<PackId>,
    extents: Map<PackId, BlobExtent>,
    done: Result<(), StoreError>,
    reply: Result<Option<RootRecord>, BackendError>,
) -> bool {
    let asked = earlier.push(Event::RootRead { reply });
    let next = placed_packs(before, packs, extents, packs.len() as int);
    match reply {
        Err(error) => done == Err::<(), StoreError>(StoreError::Backend(error)) && after == before
            && later == asked,
        Ok(root) => if !has_token(root, before.revision) {
            done == Err::<(), StoreError>(StoreError::Backend(BackendError::Stale)) && after
                == before && later == asked
        } else {
            match next.1 {
                Some(error) => done == Err::<(), StoreError>(error) && after == next.0 && later
                    == asked,
                None => state::publish_outcome(next.0, after, asked, later, done),
            }
        },
    }
}

/// What a relocation comes to. Until the blob is installed only reads are made.
pub open spec fn relocated(
    before: StateModel,
    after: StateModel,
    earlier: Seq<Event>,
    later: Seq<Event>,
    local: LocalRoots<'_>,
    packs: Seq<PackId>,
    budget: int,
    result: Result<RelocationReport, StoreError>,
) -> bool {
    ||| result is Err && after == before && retention::looked(earlier, later) && (
    (batch_check(packs) is Ok && (opening::unopened(result->Err_0, earlier, later)
        || assembly::failed_last(earlier, later, result->Err_0))) || copy_replay(
        later,
        earlier.len() as int,
        before,
        local,
        packs,
        budget,
    ) == Replay::Done(Err::<CopyModel, StoreError>(result->Err_0), later.len() as int))
    ||| exists|mid: Seq<Event>, copy: CopyModel|
        {
            &&& #[trigger] was_copied(before, earlier, mid, local, packs, budget, copy)
            &&& moved(before, after, mid, later, packs, copy, result)
        }
}

/// The blob of a relocation is refused, or it is adopted.
pub open spec fn moved(
    before: StateModel,
    after: StateModel,
    earlier: Seq<Event>,
    later: Seq<Event>,
    packs: Seq<PackId>,
    copy: CopyModel,
    result: Result<RelocationReport, StoreError>,
) -> bool {
    ||| result == Err::<RelocationReport, StoreError>(StoreError::Range) && after == before && later
        == earlier && (copy_bytes(copy).len() > u64::MAX || copy_entries(copy).len() == 0
        || copy_entries(copy).len() > u32::MAX)
    ||| result is Err && after == before && blob::broke_off(earlier, later, result->Err_0)
    ||| exists|blob: BlobId|
        {
            &&& result is Err && result->Err_0 is Backend && after == before
            &&& #[trigger] digest::names(
                blob,
                blob::blob_input(
                    blob::index_bytes(copy_entries(copy)),
                    copy_bytes(copy).len() as int,
                ),
            )
            &&& later == earlier.push(
                Event::Install {
                    key: ObjectKey::Blob(blob),
                    bytes: copy_bytes(copy),
                    reply: Err(result->Err_0->Backend_0),
                },
            )
        }
    ||| exists|mid: Seq<Event>, blob: BlobId, extents: Map<PackId, BlobExtent>|
        {
            &&& #[trigger] blob_installed(earlier, mid, copy, blob, extents)
            &&& adopted(before, after, mid, later, packs, extents, retention::outcome(result))
            &&& result is Ok ==> result->Ok_0.packs == packs.len() && result->Ok_0.copied_bytes
                == copy.total && result->Ok_0.blob == Some(blob)
        }
}

/// The set of some packs, if none of them comes twice and they are not too many.
fn check_batch(packs: &Vec<PackId>) -> (batch: Result<OrderedSet<PackId>, StoreError>)
    ensures
        match batch {
            Ok(b) => batch_check(packs@) is Ok && b@ == packs@.to_set(),
            Err(e) => batch_check(packs@) == Err::<(), StoreError>(e),
        },
{
    if packs.len() == 0 || packs.len() > MAX_BLOB_PACKS {
        return Err(StoreError::Range);
    }
    let mut batch: OrderedSet<PackId> = OrderedSet::new();
    let mut i: usize = 0;
    while i < packs.len()
        invariant
            0 < packs@.len() <= MAX_BLOB_PACKS,
            i <= packs@.len(),
            forall|pack: PackId| #[trigger]
                batch@.contains(pack) <==> exists|j: int| 0 <= j < i && packs@[j] == pack,
            forall|a: int, b: int| 0 <= a < b < i ==> packs@[a] != packs@[b],
        decreases packs.len() - i,
    {
        if !batch.insert(packs[i]) {
            proof {
                let j = choose|j: int| 0 <= j < i && packs@[j] == packs@[i as int];
                assert(packs@[j] == packs@[i as int]);
            }
            return Err(StoreError::Range);
        }
        i += 1;
    }
    assert(packs@.no_duplicates());
    assert(batch@ =~= packs@.to_set()) by {
        assert forall|pack: PackId| batch@.contains(pack) == packs@.to_set().contains(pack) by {
            if packs@.contains(pack) {
                let j = packs@.index_of(pack);
                assert(packs@[j] == pack);
            }
        }
    }
    Ok(batch)
}

/// The chosen places of some packs.
fn pin_batch(state: &State, batch: &OrderedSet<PackId>) -> (chosen: Result<PlacementPin, StoreError>)
    ensures
        match chosen {
            Ok(p) => places_check(
                state@.placements.entries,
                order::roll::<PackId>(batch@),
                order::roll::<PackId>(batch@).len() as int,
            ) is Ok && p.chosen() == chosen_places(state@, batch@),
            Err(e) => places_check(
                state@.placements.entries,
                order::roll::<PackId>(batch@),
                order::roll::<PackId>(batch@).len() as int,
            ) == Err::<(), StoreError>(e),
        },
{
    let entries = state.placements.entries();
    let count: usize = batch.len();
    let ghost walk = batch.walk();
    match PlacementPin::new(entries, batch) {
        Ok(chosen) => {
            proof {
                assert(chosen.chosen() =~= chosen_places(state@, batch@));
                assert forall|j: int| 0 <= j < walk.len() implies pin::entry_placement(
                    entries@,
                    #[trigger] walk[j],
                ) is Ok by {
                    assert(walk.contains(walk[j]));
                    assert(walk.to_set().contains(walk[j]));
                    assert(batch@.contains(walk[j]));
                }
                lemma_places_good(entries@, walk, walk.len() as int);
            }
            Ok(chosen)
        },
        Err(error) => {
            proof {
                let i = choose|i: int|
                    0 <= i < walk.len() && pin::entry_placement(entries@, #[trigger] walk[i])
                        == Err::<PlacementsModel, StoreError>(error) && forall|j: int|
                        0 <= j < i ==> pin::entry_placement(entries@, #[trigger] walk[j]) is Ok;
                lemma_places_good(entries@, walk, i);
                lemma_places_stop(entries@, walk, i + 1, walk.len() as int);
            }
            Err(error)
        },
    }
}

/// Copies packs into a blob.
#[verifier::rlimit(80)]
#[verifier::spinoff_prover]
fn copy_packs<B: StorageBackend>(
    backend: &mut B,
    chosen: &PlacementPin,
    reachable: &OrderedSet<PackId>,
    packs: &Vec<PackId>,
    budget: u64,
    writer: BlobWriter<B>,
) -> (copied: Result<(BlobWriter<B>, u64), StoreError>)
    requires
        writer.wf(),
        writer.body() == blob::blob_header(),
        writer.packs() == Map::<PackId, PackSpan>::empty(),
        batch_check(packs@) is Ok,
        chosen.chosen().dom() == packs@.to_set(),
    ensures
        final(backend).namespace() == old(backend).namespace(),
        adapter::extends(old(backend).history(), final(backend).history()),
        adapter::quiet(old(backend).history(), final(backend).history()),
        match copied {
            Ok((w, total)) => w.wf() && is_listed(w.packs()) && (forall|j: int|
                0 <= j < packs@.len() ==> w.packs().dom().contains(#[trigger] packs@[j]))
                && copies_replay(
                final(backend).history(),
                old(backend).history().len() as int,
                chosen.chosen(),
                reachable@,
                packs@,
                budget as int,
                0,
                copy_start(),
            ) == Replay::Done(
                Ok::<CopyModel, StoreError>(
                    CopyModel { body: w.body(), ranges: w.packs(), total: total as int },
                ),
                final(backend).history().len() as int,
            ),
            Err(e) => assembly::failed_last(old(backend).history(), final(backend).history(), e)
                || copies_replay(
                final(backend).history(),
                old(backend).history().len() as int,
                chosen.chosen(),
                reachable@,
                packs@,
                budget as int,
                0,
                copy_start(),
            ) == Replay::Done(
                Err::<CopyModel, StoreError>(e),
                final(backend).history().len() as int,
            ),
        },
{
    let ghost start = backend.history().len() as int;
    let ghost c = chosen.chosen();
    let ghost r = reachable@;
    let ghost list = packs@;
    let ghost none = copy_start();
    proof {
        let empty = Seq::<(PackId, PackSpan)>::empty();
        assert(order::mapped::<PackId, PackSpan>(empty) =~= Map::<PackId, PackSpan>::empty());
        crate::order::lemma_listing::<PackId, PackSpan>(empty);
    }
    let mut writer: BlobWriter<B> = writer;
    let mut total: u64 = 0;
    let mut cohort: [u8; 32] = [0u8; 32];
    let mut i: usize = 0;
    while i < packs.len()
        invariant
            i <= packs@.len(),
            list == packs@,
            list.no_duplicates(),
            list.len() <= MAX_BLOB_PACKS,
            c == chosen.chosen(),
            c.dom() == list.to_set(),
            r == reachable@,
            none == copy_start(),
            writer.wf(),
            i > 0 ==> cohort@ == c[list[0]].cohort,
            forall|pack: PackId| #[trigger]
                writer.packs().dom().contains(pack) ==> exists|j: int| 0 <= j < i && list[j] == pack,
            blob::listing_len(writer.packs()) == i,
            is_listed(writer.packs()),
            forall|j: int| 0 <= j < i ==> writer.packs().dom().contains(#[trigger] list[j]),
            start == old(backend).history().len(),
            backend.namespace() == old(backend).namespace(),
            adapter::extends(old(backend).history(), backend.history()),
            adapter::quiet(old(backend).history(), backend.history()),
            forall|later: Seq<Event>|
                #![trigger copies_replay(later, start, c, r, list, budget as int, 0, none)]
                adapter::extends(backend.history(), later) ==> copies_replay(
                    later,
                    start,
                    c,
                    r,
                    list,
                    budget as int,
                    0,
                    none,
                ) == copies_replay(
                    later,
                    backend.history().len() as int,
                    c,
                    r,
                    list,
                    budget as int,
                    i as int,
                    CopyModel {
                        body: writer.body(),
                        ranges: writer.packs(),
                        total: total as int,
                    },
                ),
        decreases packs.len() - i,
    {
        let pack: PackId = packs[i];
        assert(list[i as int] == pack);
        assert(list.to_set().contains(pack)) by {
            assert(list.contains(pack));
        }
        let ghost past = backend.history();
        let ghost before = CopyModel {
            body: writer.body(),
            ranges: writer.packs(),
            total: total as int,
        };
        assert(copies_replay(past, start, c, r, list, budget as int, 0, none) == copies_replay(
            past,
            past.len() as int,
            c,
            r,
            list,
            budget as int,
            i as int,
            before,
        ));
        if !reachable.contains(&pack) {
            return Err(StoreError::Busy);
        }
        let (length, group): (u64, [u8; 32]) = match chosen.placement(pack) {
            Some(placement) => (placement.length.value, placement.cohort),
            None => {
                return Err(StoreError::Corrupt(0));
            },
        };
        if i > 0 && !same_bytes(group.as_slice(), cohort.as_slice()) {
            return Err(StoreError::InvalidConfiguration(COHORT_RULE));
        }
        if i == 0 {
            cohort = group;
        }
        let sum: u64 = match total.checked_add(length) {
            Some(sum) => sum,
            None => {
                return Err(StoreError::Range);
            },
        };
        if sum > budget {
            return Err(StoreError::Range);
        }
        let bytes: Result<Vec<u8>, StoreError> = chosen.fetch_pack(backend, pack);
        proof {
            let h = backend.history();
            assert(copies_replay(h, start, c, r, list, budget as int, 0, none) == copies_replay(
                h,
                past.len() as int,
                c,
                r,
                list,
                budget as int,
                i as int,
                before,
            ));
        }
        let bytes: Vec<u8> = match bytes {
            Ok(bytes) => bytes,
            Err(error) => {
                return Err(error);
            },
        };
        let position: u64 = writer.position();
        match position.checked_add(bytes.len() as u64) {
            Some(_) => {},
            None => {
                return Err(StoreError::Range);
            },
        }
        match writer.write_all(backend, bytes.as_slice()) {
            Err(error) => {
                return Err(error);
            },
            Ok(_) => {},
        }
        proof {
            if writer.packs().dom().contains(pack) {
                let j = choose|j: int| 0 <= j < i && list[j] == pack;
                assert(list[j] == list[i as int]);
            }
        }
        let ghost noted = writer.packs();
        match writer.complete_pack(pack, position) {
            Err(error) => {
                return Err(error);
            },
            Ok(_) => {},
        }
        total = sum;
        proof {
            lemma_listing_grows(noted, pack, writer.packs()[pack]);
            let after = CopyModel {
                body: writer.body(),
                ranges: writer.packs(),
                total: total as int,
            };
            assert forall|later: Seq<Event>|
                #![trigger copies_replay(later, start, c, r, list, budget as int, 0, none)]
                adapter::extends(backend.history(), later) implies copies_replay(
                later,
                start,
                c,
                r,
                list,
                budget as int,
                0,
                none,
            ) == copies_replay(
                later,
                backend.history().len() as int,
                c,
                r,
                list,
                budget as int,
                i as int + 1,
                after,
            ) by {
                assert(adapter::extends(past, later));
                pin::lemma_pack_settled(backend.history(), later, past.len() as int, c, pack);
                assert(copies_replay(later, start, c, r, list, budget as int, 0, none)
                    == copies_replay(
                    later,
                    past.len() as int,
                    c,
                    r,
                    list,
                    budget as int,
                    i as int,
                    before,
                ));
            }
            assert forall|other: PackId| #[trigger]
                writer.packs().dom().contains(other) implies exists|j: int|
                0 <= j < i + 1 && list[j] == other by {
                if other == pack {
                    assert(list[i as int] == other);
                } else {
                    assert(noted.dom().contains(other));
                    let j = choose|j: int| 0 <= j < i && list[j] == other;
                    assert(list[j] == other);
                }
            }
        }
        i += 1;
    }
    proof {
        let h = backend.history();
        assert(copies_replay(h, start, c, r, list, budget as int, 0, none) == copies_replay(
            h,
            h.len() as int,
            c,
            r,
            list,
            budget as int,
            i as int,
            CopyModel { body: writer.body(), ranges: writer.packs(), total: total as int },
        ));
    }
    Ok((writer, total))
}

/// A map has an ascending listing.
spec fn is_listed(map: Map<PackId, PackSpan>) -> bool {
    let list = order::listing::<PackId, PackSpan>(map);
    order::ascending::<PackId, PackSpan>(list) && order::mapped::<PackId, PackSpan>(list) == map
}

proof fn lemma_listing_grows(map: Map<PackId, PackSpan>, pack: PackId, span: PackSpan)
    requires
        !map.dom().contains(pack),
        is_listed(map),
    ensures
        blob::listing_len(map.insert(pack, span)) == blob::listing_len(map) + 1,
        is_listed(map.insert(pack, span)),
{
    let list = order::listing::<PackId, PackSpan>(map);
    let place = crate::order::lemma_listing_insert::<PackId, PackSpan>(list, pack, span);
    crate::order::lemma_mapped_placed::<PackId, PackSpan>(list, place, (pack, span));
}

/// Notes the new places of some packs.
fn place_packs(state: &mut State, packs: &Vec<PackId>, extents: &OrderedMap<PackId, BlobExtent>) -> (refusal:
    Option<StoreError>)
    requires
        forall|i: int| 0 <= i < packs@.len() ==> extents@.dom().contains(#[trigger] packs@[i]),
    ensures
        (final(state)@, refusal) == placed_packs(
            old(state)@,
            packs@,
            extents@,
            packs@.len() as int,
        ),
{
    let ghost before = state@;
    let mut i: usize = 0;
    while i < packs.len()
        invariant
            i <= packs@.len(),
            forall|i: int| 0 <= i < packs@.len() ==> extents@.dom().contains(#[trigger] packs@[i]),
            before == old(state)@,
            placed_packs(before, packs@, extents@, i as int) == (state@, None::<StoreError>),
        decreases packs.len() - i,
    {
        let pack: PackId = packs[i];
        assert(extents@.dom().contains(packs@[i as int]));
        let extent: BlobExtent = match extents.get(&pack) {
            Some(extent) => *extent,
            None => {
                assert(false);
                return Some(StoreError::Corrupt(0));
            },
        };
        let found: Result<Placements, StoreError> = read_placement(state.placements.entries(), pack);
        let mut base: Placements = match found {
            Ok(base) => base,
            Err(error) => {
                proof {
                    lemma_placed_stop(before, packs@, extents@, i as int + 1, packs@.len() as int);
                }
                return Some(error);
            },
        };
        match add_place(&mut base, extent) {
            Err(error) => {
                proof {
                    lemma_placed_stop(before, packs@, extents@, i as int + 1, packs@.len() as int);
                }
                return Some(error);
            },
            Ok(_) => {},
        }
        state.placements.insert(copied(pack.bytes.as_slice()), base.encode());
        i += 1;
    }
    None
}

/// Adopts a blob that was installed.
fn adopt<B: StorageBackend>(
    backend: &mut B,
    state: &mut State,
    packs: &Vec<PackId>,
    extents: &OrderedMap<PackId, BlobExtent>,
) -> (done: Result<(), StoreError>)
    requires
        forall|i: int| 0 <= i < packs@.len() ==> extents@.dom().contains(#[trigger] packs@[i]),
    ensures
        final(backend).namespace() == old(backend).namespace(),
        adapter::extends(old(backend).history(), final(backend).history()),
        adopted(
            old(state)@,
            final(state)@,
            old(backend).history(),
            final(backend).history(),
            packs@,
            extents@,
            done,
        ),
{
    let ghost before = state@;
    let ghost earlier = backend.history();
    let root: Result<Option<RootRecord>, BackendError> = backend.read_root();
    let ghost reply = root;
    let record: Option<RootRecord> = match root {
        Ok(record) => record,
        Err(error) => {
            assert(adopted_by(
                before,
                state@,
                earlier,
                backend.history(),
                packs@,
                extents@,
                Err(StoreError::Backend(error)),
                reply,
            ));
            return Err(StoreError::Backend(error));
        },
    };
    let current: bool = match (&record, &state.revision) {
        (None, None) => true,
        (Some(record), Some(revision)) => same_bytes(record.revision().bytes(), revision.bytes()),
        _ => false,
    };
    assert(current == has_token(record, before.revision));
    if !current {
        assert(adopted_by(
            before,
            state@,
            earlier,
            backend.history(),
            packs@,
            extents@,
            Err(StoreError::Backend(BackendError::Stale)),
            reply,
        ));
        return Err(StoreError::Backend(BackendError::Stale));
    }
    match place_packs(state, packs, extents) {
        Some(error) => {
            assert(adopted_by(
                before,
                state@,
                earlier,
                backend.history(),
                packs@,
                extents@,
                Err(error),
                reply,
            ));
            return Err(error);
        },
        None => {},
    }
    let done: Result<(), StoreError> = state.publish(backend);
    assert(adopted_by(
        before,
        state@,
        earlier,
        backend.history(),
        packs@,
        extents@,
        done,
        reply,
    ));
    done
}

/// A pack that was noted has an entry in the index.
proof fn lemma_has_entry(ranges: Map<PackId, PackSpan>, pack: PackId)
    requires
        is_listed(ranges),
        ranges.dom().contains(pack),
    ensures
        blob::entered(blob::span_entries(order::listing::<PackId, PackSpan>(ranges)), pack),
{
    let list = order::listing::<PackId, PackSpan>(ranges);
    crate::order::lemma_walk::<PackId, PackSpan>(list, ranges);
    let i = choose|i: int| 0 <= i < list.len() && (#[trigger] list[i]).0 == pack;
    let entries = blob::span_entries(list);
    assert(entries[i].pack == pack);
}

/// What a blob that was copied comes to.
fn settle<B: StorageBackend>(
    backend: &mut B,
    state: &mut State,
    packs: &Vec<PackId>,
    writer: BlobWriter<B>,
    total: u64,
) -> (result: Result<RelocationReport, StoreError>)
    requires
        writer.wf(),
        is_listed(writer.packs()),
        forall|j: int| 0 <= j < packs@.len() ==> writer.packs().dom().contains(#[trigger] packs@[j]),
    ensures
        final(backend).namespace() == old(backend).namespace(),
        adapter::extends(old(backend).history(), final(backend).history()),
        moved(
            old(state)@,
            final(state)@,
            old(backend).history(),
            final(backend).history(),
            packs@,
            (CopyModel { body: writer.body(), ranges: writer.packs(), total: total as int }),
            result,
        ),
{
    let ghost copy = CopyModel { body: writer.body(), ranges: writer.packs(), total: total as int };
    let ghost before = state@;
    let ghost earlier = backend.history();
    let finished: Result<(BlobId, OrderedMap<PackId, BlobExtent>), StoreError> = writer.finish(
        backend,
    );
    let (blob, extents) = match finished {
        Ok(found) => found,
        Err(error) => {
            return Err(error);
        },
    };
    let ghost mid = backend.history();
    proof {
        assert(blob_installed(earlier, mid, copy, blob, extents@));
        assert forall|i: int| 0 <= i < packs@.len() implies extents@.dom().contains(
            #[trigger] packs@[i],
        ) by {
            lemma_has_entry(copy.ranges, packs@[i]);
        }
    }
    let done: Result<(), StoreError> = adopt(backend, state, packs, &extents);
    match done {
        Err(error) => Err(error),
        Ok(unit) => {
            assert(unit == ());
            let report: RelocationReport = RelocationReport {
                packs: packs.len(),
                copied_bytes: total,
                blob: Some(blob),
            };
            assert(retention::outcome(Ok::<RelocationReport, StoreError>(report)) == Ok::<
                (),
                StoreError,
            >(()));
            Ok(report)
        },
    }
}

/// Moves packs that are reachable and share a cohort into one new blob. Readers
/// keep the old places; the bytes are verified as they are copied.
pub fn relocate<B: StorageBackend>(
    backend: &mut B,
    state: &mut State,
    local: &LocalRoots<'_>,
    packs: &Vec<PackId>,
    budget: StoredBytes,
) -> (result: Result<RelocationReport, StoreError>)
    ensures
        final(backend).namespace() == old(backend).namespace(),
        adapter::extends(old(backend).history(), final(backend).history()),
        relocated(
            old(state)@,
            final(state)@,
            old(backend).history(),
            final(backend).history(),
            *local,
            packs@,
            budget.value as int,
            result,
        ),
{
    let ghost before = state@;
    let ghost h0 = backend.history();
    let batch: OrderedSet<PackId> = match check_batch(packs) {
        Ok(batch) => batch,
        Err(error) => {
            return Err(error);
        },
    };
    let reachable: OrderedSet<PackId> = match reachable_packs(backend, state, local) {
        Ok(reachable) => reachable,
        Err(error) => {
            return Err(error);
        },
    };
    let ghost h1 = backend.history();
    let ghost t = choose|t: TraceModel|
        reachable@ == trace::packs_among(t.live) && #[trigger] trace::traced(t, h1)
            == trace::logical_replay(h1, h0.len() as int, before, *local);
    let chosen: PlacementPin = match pin_batch(state, &batch) {
        Ok(chosen) => chosen,
        Err(error) => {
            return Err(error);
        },
    };
    let writer: BlobWriter<B> = match BlobWriter::new(backend) {
        Ok(writer) => writer,
        Err(error) => {
            return Err(error);
        },
    };
    assert(chosen.chosen().dom() =~= packs@.to_set());
    let copied: Result<(BlobWriter<B>, u64), StoreError> = copy_packs(
        backend,
        &chosen,
        &reachable,
        packs,
        budget.value,
        writer,
    );
    let ghost h2 = backend.history();
    proof {
        trace::lemma_logical_settled(h1, h2, h0.len() as int, before, *local);
    }
    let (writer, total) = match copied {
        Ok(found) => found,
        Err(error) => {
            return Err(error);
        },
    };
    let ghost copy = CopyModel { body: writer.body(), ranges: writer.packs(), total: total as int };
    assert(was_copied(before, h0, h2, *local, packs@, budget.value as int, copy));
    settle(backend, state, packs, writer, total)
}

/// Every pack that was noted stands where it was noted.
pub open spec fn holds_packs(copy: CopyModel) -> bool {
    forall|pack: PackId| #[trigger]
        copy.ranges.dom().contains(pack) ==> {
            let span = copy.ranges[pack];
            &&& span.offset + span.length <= copy.body.len()
            &&& pin::pack_id(copy.body.subrange(span.offset as int, span.offset + span.length))
                == Ok::<PackId, StoreError>(pack)
        }
}

/// What a relocation copies is what it says: at each place that it notes, the blob
/// holds the pack.
pub proof fn law_copies_are_packs(
    history: Seq<Event>,
    at: int,
    chosen: Map<PackId, PlacementsModel>,
    reachable: Set<PackId>,
    packs: Seq<PackId>,
    budget: int,
    i: int,
    copy: CopyModel,
)
    requires
        holds_packs(copy),
        copies_replay(history, at, chosen, reachable, packs, budget, i, copy) matches Replay::Done(
            Ok(_),
            _,
        ),
        copies_replay(history, at, chosen, reachable, packs, budget, i, copy)->Done_0->Ok_0.body.len()
            <= u64::MAX,
    ensures
        holds_packs(
            copies_replay(history, at, chosen, reachable, packs, budget, i, copy)->Done_0->Ok_0,
        ),
        copy.body.len() <= copies_replay(
            history,
            at,
            chosen,
            reachable,
            packs,
            budget,
            i,
            copy,
        )->Done_0->Ok_0.body.len(),
    decreases packs.len() - i,
{
    if 0 <= i < packs.len() {
        let pack = packs[i];
        match pin::pack_replay(history, at, chosen, pack) {
            Replay::Done(Ok(bytes), next) => {
                let span = PackSpan {
                    offset: copy.body.len() as u64,
                    length: bytes.len() as u64,
                };
                let grown = CopyModel {
                    body: copy.body + bytes,
                    ranges: copy.ranges.insert(pack, span),
                    total: copy.total + chosen[pack].length,
                };
                lemma_copy_grows(history, next, chosen, reachable, packs, budget, i + 1, grown);
                assert(holds_packs(grown)) by {
                    assert forall|p: PackId| #[trigger] grown.ranges.dom().contains(p) implies {
                        let span = grown.ranges[p];
                        &&& span.offset + span.length <= grown.body.len()
                        &&& pin::pack_id(
                            grown.body.subrange(span.offset as int, span.offset + span.length),
                        ) == Ok::<PackId, StoreError>(p)
                    } by {
                        if p == pack {
                            assert(grown.body.subrange(
                                copy.body.len() as int,
                                (copy.body.len() + bytes.len()) as int,
                            ) =~= bytes);
                        } else {
                            assert(copy.ranges.dom().contains(p));
                            let span = copy.ranges[p];
                            assert(grown.body.subrange(
                                span.offset as int,
                                span.offset + span.length,
                            ) =~= copy.body.subrange(
                                span.offset as int,
                                span.offset + span.length,
                            ));
                        }
                    }
                }
                law_copies_are_packs(
                    history,
                    next,
                    chosen,
                    reachable,
                    packs,
                    budget,
                    i + 1,
                    grown,
                );
            },
            _ => {},
        }
    }
}

proof fn lemma_copy_grows(
    history: Seq<Event>,
    at: int,
    chosen: Map<PackId, PlacementsModel>,
    reachable: Set<PackId>,
    packs: Seq<PackId>,
    budget: int,
    i: int,
    copy: CopyModel,
)
    requires
        copies_replay(history, at, chosen, reachable, packs, budget, i, copy) matches Replay::Done(
            Ok(_),
            _,
        ),
    ensures
        copy.body.len() <= copies_replay(
            history,
            at,
            chosen,
            reachable,
            packs,
            budget,
            i,
            copy,
        )->Done_0->Ok_0.body.len(),
    decreases packs.len() - i,
{
    if 0 <= i < packs.len() {
        let pack = packs[i];
        match pin::pack_replay(history, at, chosen, pack) {
            Replay::Done(Ok(bytes), next) => {
                lemma_copy_grows(
                    history,
                    next,
                    chosen,
                    reachable,
                    packs,
                    budget,
                    i + 1,
                    CopyModel {
                        body: copy.body + bytes,
                        ranges: copy.ranges.insert(
                            pack,
                            PackSpan {
                                offset: copy.body.len() as u64,
                                length: bytes.len() as u64,
                            },
                        ),
                        total: copy.total + chosen[pack].length,
                    },
                );
            },
            _ => {},
        }
    }
}

/// The lengths of some packs, from place `i` on, together.
pub open spec fn lengths_from(
    chosen: Map<PackId, PlacementsModel>,
    packs: Seq<PackId>,
    i: int,
) -> int
    decreases packs.len() - i,
{
    if i >= packs.len() {
        0
    } else {
        chosen[packs[i]].length + lengths_from(chosen, packs, i + 1)
    }
}

/// What a relocation copied was reachable, shares one cohort, and is within the budget
/// together; and every pack that was asked for is in the blob.
pub proof fn law_relocation_copies_what_was_asked(
    history: Seq<Event>,
    at: int,
    chosen: Map<PackId, PlacementsModel>,
    reachable: Set<PackId>,
    packs: Seq<PackId>,
    budget: int,
    i: int,
    copy: CopyModel,
    found: CopyModel,
    next: int,
)
    requires
        0 <= i <= packs.len(),
        copies_replay(history, at, chosen, reachable, packs, budget, i, copy) == Replay::Done(
            Ok::<CopyModel, StoreError>(found),
            next,
        ),
    ensures
        found.total == copy.total + lengths_from(chosen, packs, i),
        i < packs.len() ==> found.total <= budget,
        forall|pack: PackId| #[trigger]
            copy.ranges.dom().contains(pack) ==> found.ranges.dom().contains(pack),
        forall|k: int|
            i <= k < packs.len() ==> {
                let pack = #[trigger] packs[k];
                &&& reachable.contains(pack)
                &&& chosen[pack].cohort == chosen[packs[0]].cohort
                &&& found.ranges.dom().contains(pack)
            },
        forall|pack: PackId| #[trigger]
            found.ranges.dom().contains(pack) ==> copy.ranges.dom().contains(pack) || packs.contains(
                pack,
            ),
    decreases packs.len() - i,
{
    if i < packs.len() {
        match pin::pack_replay(history, at, chosen, packs[i]) {
            Replay::Done(Ok(bytes), then) => {
                let grown = CopyModel {
                    body: copy.body + bytes,
                    ranges: copy.ranges.insert(
                        packs[i],
                        PackSpan {
                            offset: copy.body.len() as u64,
                            length: bytes.len() as u64,
                        },
                    ),
                    total: copy.total + chosen[packs[i]].length,
                };
                law_relocation_copies_what_was_asked(
                    history,
                    then,
                    chosen,
                    reachable,
                    packs,
                    budget,
                    i + 1,
                    grown,
                    found,
                    next,
                );
                assert(grown.ranges.dom().contains(packs[i]));
                assert(packs.contains(packs[i]));
                assert forall|pack: PackId| #[trigger]
                    copy.ranges.dom().contains(pack) implies found.ranges.dom().contains(pack) by {
                    assert(grown.ranges.dom().contains(pack));
                }
            },
            _ => {},
        }
    }
}

/// Packs are relocated together where there is one at least, no more than a blob has
/// room for, and none of them comes twice.
pub proof fn law_batches_that_may_move(packs: Seq<PackId>)
    ensures
        batch_check(packs) is Ok <==> 1 <= packs.len() <= 4096 && packs.no_duplicates(),
        batch_check(packs) is Err ==> batch_check(packs) == Err::<(), StoreError>(StoreError::Range),
{
}

/// A new place of a pack is the one that it is read from; the places that it had stay
/// behind it, in their order, but for the same place. There are no more than sixty-four,
/// and each has the length of the pack.
pub proof fn law_places_are_added_in_front(
    base: PlacementsModel,
    extent: BlobExtent,
    model: PlacementsModel,
)
    requires
        placed(base, extent) == Ok::<PlacementsModel, StoreError>(model),
    ensures
        model.pack == base.pack,
        model.length == base.length == extent.length.value,
        model.cohort == base.cohort,
        1 <= model.representations.len() <= 64,
        model.representations[0].extent == extent,
        model.representations.skip(1) == base.representations.filter(
            |place: Representation| place.id != model.representations[0].id,
        ),
{
    let place = representation_of(base.pack, extent);
    lemma_without(base.representations, place.id, 0);
    assert(model.representations.skip(1) =~= placement::without(
        base.representations,
        place.id,
        0,
    ));
    assert(base.representations.skip(0) =~= base.representations);
}

proof fn lemma_without(list: Seq<Representation>, id: RepresentationId, i: int)
    requires
        0 <= i <= list.len(),
    ensures
        placement::without(list, id, i) == list.skip(i).filter(
            |place: Representation| place.id != id,
        ),
    decreases list.len() - i,
{
    let pick = |place: Representation| place.id != id;
    if i < list.len() {
        lemma_without(list, id, i + 1);
        let rest = list.skip(i);
        assert(rest =~= seq![list[i]] + list.skip(i + 1));
        Seq::filter_distributes_over_add(seq![list[i]], list.skip(i + 1), pick);
        assert(seq![list[i]].filter(pick) =~= if pick(list[i]) {
            seq![list[i]]
        } else {
            Seq::empty()
        }) by {
            reveal_with_fuel(Seq::filter, 2);
            assert(seq![list[i]].drop_last() =~= Seq::<Representation>::empty());
        }
    } else {
        assert(list.skip(i) =~= Seq::<Representation>::empty());
        reveal_with_fuel(Seq::filter, 1);
        assert(list.skip(i).filter(pick) =~= Seq::<Representation>::empty());
    }
}

/// A relocation moves the packs that it was asked to move, and no others: their entries
/// alone change.
pub proof fn law_relocation_leaves_other_packs(
    state: StateModel,
    packs: Seq<PackId>,
    extents: Map<PackId, BlobExtent>,
    count: int,
    name: Seq<u8>,
)
    requires
        0 <= count <= packs.len(),
        forall|i: int| 0 <= i < count ==> (#[trigger] packs[i]).bytes@ != name,
    ensures
        ({
            let after = placed_packs(state, packs, extents, count).0;
            &&& after.placements.entries.dom().contains(name)
                == state.placements.entries.dom().contains(name)
            &&& after.placements.entries[name] == state.placements.entries[name]
            &&& after.head() == state.head()
            &&& after.endpoints == state.endpoints
            &&& after.retentions == state.retentions
            &&& after.heads == state.heads
        }),
    decreases count,
{
    if count > 0 {
        law_relocation_leaves_other_packs(state, packs, extents, count - 1, name);
        let prior = placed_packs(state, packs, extents, count - 1).0;
        let pack = packs[count - 1];
        assert(pack.bytes@ != name);
        match pin::entry_placement(prior.placements.entries, pack) {
            Ok(base) => {
                assert(base.pack == pack);
            },
            Err(_) => {},
        }
    }
}

} // verus!
