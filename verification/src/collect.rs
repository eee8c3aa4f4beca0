//! Collection: what no root reaches is deleted, after the catalog has let go of it.

use crate::adapter;
use crate::adapter::{BackendError, DeletePermit, Event, ObjectKey, StorageBackend};
use crate::bytes::{all_zero, copied, same_bytes};
use crate::domain::BackendId;
use crate::error::StoreError;
use crate::estimate;
use crate::estimate::estimate;
use crate::fetch::Replay;
use crate::format::ActiveHeader;
use crate::index::IndexModel;
use crate::inventory;
use crate::inventory::inventory;
use crate::keys::CatalogKey;
use crate::objects;
use crate::objects::{LocalAttachment, validate_attachment};
use crate::opening;
use crate::order;
use crate::order::{OrderedMap, OrderedSet};
use crate::placement::{Placements, PlacementsModel, Representation};
use crate::repack;
use crate::report;
use crate::report::{GcReport, TallyModel, find_dead, tally};
use crate::retention;
use crate::state;
use crate::state::{State, StateModel};
use crate::survey;
use crate::survey::{
    Check, Held, HeldModel, find_held, make_checks, plan_checks, read_entry, read_leases,
};
use crate::trace;
use crate::trace::{Lease, LocalRoots, Root, Trace, TraceModel, absorb, trace_logical};
use vstd::prelude::*;

verus! {

/// What a survey found.
#[verifier::ext_equal]
pub struct SurveyModel {
    pub trace: TraceModel,
    /// A head has a seal under way.
    pub sealing: bool,
    pub inventory: Set<ObjectKey>,
    pub held: HeldModel,
    pub lengths: Map<ObjectKey, u64>,
    /// What the current view no longer needs of its packs, by estimate.
    pub obsolete: u64,
}

/// Some head has a seal under way.
pub open spec fn is_sealing(state: StateModel) -> bool {
    state.all_heads() matches Ok(heads) && exists|i: int|
        0 <= i < heads.len() && (#[trigger] heads[i]).pending is Some
}

/// What the checks that were planned came to.
pub open spec fn checked_replay(
    history: Seq<Event>,
    at: int,
    state: StateModel,
    trace: TraceModel,
    held: HeldModel,
    inventory: Set<ObjectKey>,
) -> Replay<Map<ObjectKey, u64>> {
    let planned = survey::planned_checks(state, trace, held, inventory);
    match survey::checks_replay(history, at, planned.0, 0, Map::empty()) {
        Replay::Done(Ok(lengths), next) => match planned.1 {
            Some(error) => Replay::Done(Err(error), next),
            None => Replay::Done(Ok(lengths), next),
        },
        other => other,
    }
}

/// What a survey came to: everything reachable is traced, everything held is
/// listed, and everything that must stay is checked.
#[verifier::opaque]
pub open spec fn survey_replay(
    history: Seq<Event>,
    at: int,
    state: StateModel,
    local: LocalRoots<'_>,
    leases: Seq<Lease>,
) -> Replay<SurveyModel> {
    match trace::logical_replay(history, at, state, local) {
        Replay::Astray => Replay::Astray,
        Replay::Done(Err(error), next) => Replay::Done(Err(error), next),
        Replay::Done(Ok(trace), next) => match state.all_heads() {
            Err(error) => Replay::Done(Err(error), next),
            Ok(_) => match inventory::inventory_replay(history, next, None, Set::empty()) {
                Replay::Astray => Replay::Astray,
                Replay::Done(Err(error), next) => Replay::Done(Err(error), next),
                Replay::Done(Ok(inventory), next) => {
                    let leased = survey::leased_objects(leases, leases.len() as int);
                    let sealing = is_sealing(state);
                    let held = survey::held_by(state, trace, leased.0, sealing);
                    match leased.1 {
                        Some(error) => Replay::Done(Err(error), next),
                        None => match checked_replay(history, next, state, trace, held, inventory) {
                            Replay::Astray => Replay::Astray,
                            Replay::Done(Err(error), next) => Replay::Done(Err(error), next),
                            Replay::Done(Ok(lengths), next) => match estimate::estimate_replay(
                                history,
                                next,
                                state,
                                local.active,
                            ) {
                                Replay::Astray => Replay::Astray,
                                Replay::Done(Err(error), next) => Replay::Done(Err(error), next),
                                Replay::Done(Ok(obsolete), next) => Replay::Done(
                                    Ok(
                                        SurveyModel {
                                            trace,
                                            sealing,
                                            inventory,
                                            held,
                                            lengths,
                                            obsolete,
                                        },
                                    ),
                                    next,
                                ),
                            },
                        },
                    }
                },
            },
        },
    }
}

/// What a survey found.
#[derive(Debug)]
pub struct Survey {
    pub trace: Trace,
    pub sealing: bool,
    pub inventory: OrderedSet<ObjectKey>,
    pub held: Held,
    pub lengths: OrderedMap<ObjectKey, u64>,
    /// What the current view no longer needs of its packs, by estimate.
    pub obsolete: u64,
}

impl View for Survey {
    type V = SurveyModel;

    open spec fn view(&self) -> SurveyModel {
        SurveyModel {
            trace: self.trace@,
            sealing: self.sealing,
            inventory: self.inventory@,
            held: self.held@,
            lengths: self.lengths@,
            obsolete: self.obsolete,
        }
    }
}

/// Surveys what a backend holds. Nothing is changed.
pub fn make_survey<B: StorageBackend>(
    backend: &mut B,
    state: &State,
    local: &LocalRoots<'_>,
    leases: &Vec<Lease>,
) -> (found: Result<Survey, StoreError>)
    ensures
        final(backend).namespace() == old(backend).namespace(),
        adapter::extends(old(backend).history(), final(backend).history()),
        adapter::quiet(old(backend).history(), final(backend).history()),
        match found {
            Ok(s) => survey_replay(
                final(backend).history(),
                old(backend).history().len() as int,
                state@,
                *local,
                leases@,
            ) == Replay::Done(
                Ok::<SurveyModel, StoreError>(s@),
                final(backend).history().len() as int,
            ),
            Err(e) => opening::unopened(e, old(backend).history(), final(backend).history()) || survey_replay(
                final(backend).history(),
                old(backend).history().len() as int,
                state@,
                *local,
                leases@,
            ) == Replay::Done(
                Err::<SurveyModel, StoreError>(e),
                final(backend).history().len() as int,
            ),
        },
{
    proof {
        reveal(survey_replay);
    }
    let ghost h0 = backend.history();
    let trace: Trace = trace_logical(backend, state, local)?;
    let ghost h1 = backend.history();
    let sealing: bool = state.has_pending()?;
    assert(sealing == is_sealing(state@));
    let listed: Result<OrderedSet<ObjectKey>, StoreError> = inventory(backend);
    let ghost h2 = backend.history();
    proof {
        trace::lemma_logical_settled(h1, h2, h0.len() as int, state@, *local);
    }
    let listed: OrderedSet<ObjectKey> = listed?;
    let leased: OrderedSet<ObjectKey> = read_leases(leases)?;
    let held: Held = find_held(state, &trace, leased, sealing);
    let (checks, refusal) = plan_checks(state, &trace, &held, &listed);
    let lengths: Result<OrderedMap<ObjectKey, u64>, StoreError> = make_checks(backend, &checks);
    let ghost h3 = backend.history();
    proof {
        trace::lemma_logical_settled(h1, h3, h0.len() as int, state@, *local);
        inventory::lemma_inventory_settled(h2, h3, h1.len() as int, None, Set::empty());
    }
    let lengths: OrderedMap<ObjectKey, u64> = lengths?;
    match refusal {
        Some(error) => Err(error),
        None => {
            let obsolete: Result<u64, StoreError> = estimate(backend, state, local.active);
            proof {
                let h4 = backend.history();
                trace::lemma_logical_settled(h1, h4, h0.len() as int, state@, *local);
                inventory::lemma_inventory_settled(h2, h4, h1.len() as int, None, Set::empty());
                survey::lemma_checks_settled(h3, h4, h2.len() as int, checks@, 0, Map::empty());
            }
            match obsolete {
                Err(error) => Err(error),
                Ok(obsolete) => Ok(
                    Survey { trace, sealing, inventory: listed, held, lengths, obsolete },
                ),
            }
        },
    }
}

/// What loading the state anew came to: it must have the same token as before.
pub open spec fn reload_replay(history: Seq<Event>, at: int, state: StateModel) -> Replay<StateModel> {
    match state::state_replay(history, at, state.selected) {
        Replay::Astray => Replay::Astray,
        Replay::Done(Err(error), next) => Replay::Done(Err(error), next),
        Replay::Done(Ok(fresh), next) => if fresh.revision != state.revision {
            Replay::Done(Err(StoreError::Backend(BackendError::Stale)), next)
        } else {
            Replay::Done(Ok(fresh), next)
        },
    }
}

/// Loads the state anew; it must have the same token as before.
pub fn reload<B: StorageBackend>(backend: &mut B, state: &State) -> (fresh: Result<State, StoreError>)
    ensures
        final(backend).namespace() == old(backend).namespace(),
        adapter::extends(old(backend).history(), final(backend).history()),
        adapter::quiet(old(backend).history(), final(backend).history()),
        match fresh {
            Ok(s) => reload_replay(
                final(backend).history(),
                old(backend).history().len() as int,
                state@,
            ) == Replay::Done(
                Ok::<StateModel, StoreError>(s@),
                final(backend).history().len() as int,
            ),
            Err(e) => opening::unopened(e, old(backend).history(), final(backend).history()) || reload_replay(
                final(backend).history(),
                old(backend).history().len() as int,
                state@,
            ) == Replay::Done(
                Err::<StateModel, StoreError>(e),
                final(backend).history().len() as int,
            ),
        },
{
    let fresh: State = State::load_for(backend, state.selected.as_slice())?;
    let same: bool = match (&fresh.revision, &state.revision) {
        (None, None) => true,
        (Some(a), Some(b)) => same_bytes(a.bytes(), b.bytes()),
        _ => false,
    };
    if !same {
        return Err(StoreError::Backend(BackendError::Stale));
    }
    Ok(fresh)
}

/// The representations of a pack that do not stand in objects to be deleted.
pub open spec fn remaining(list: Seq<Representation>, deleting: Set<ObjectKey>, count: int) -> Seq<
    Representation,
>
    decreases count,
{
    if count <= 0 {
        Seq::empty()
    } else {
        let prior = remaining(list, deleting, count - 1);
        if deleting.contains(ObjectKey::Blob(list[count - 1].extent.blob)) {
            prior
        } else {
            prior.push(list[count - 1])
        }
    }
}

/// The placements with one of them relieved of the places that will be deleted.
pub open spec fn retired_entry(
    index: IndexModel,
    entry: (Seq<u8>, Seq<u8>),
    deleting: Set<ObjectKey>,
) -> IndexModel {
    match survey::entry_parse(entry) {
        Err(_) => index,
        Ok(placement) => {
            let left = remaining(
                placement.representations,
                deleting,
                placement.representations.len() as int,
            );
            if left.len() == 0 {
                index.without(entry.0)
            } else {
                index.with(
                    entry.0,
                    PlacementsModel { representations: left, ..placement }.record(),
                )
            }
        },
    }
}

/// The placements with the first `count` of them relieved.
pub open spec fn retired_entries(
    index: IndexModel,
    list: Seq<(Seq<u8>, Seq<u8>)>,
    deleting: Set<ObjectKey>,
    count: int,
) -> IndexModel
    decreases count,
{
    if count <= 0 {
        index
    } else {
        retired_entry(
            retired_entries(index, list, deleting, count - 1),
            list[count - 1],
            deleting,
        )
    }
}

/// The endpoints without those of the manifests among the first `count` objects
/// to be deleted.
pub open spec fn retired_endpoints(
    index: IndexModel,
    deletable: Seq<(ObjectKey, u64)>,
    count: int,
) -> IndexModel
    decreases count,
{
    if count <= 0 {
        index
    } else {
        let prior = retired_endpoints(index, deletable, count - 1);
        match deletable[count - 1].0 {
            ObjectKey::Manifest(id) => prior.without(id.bytes@),
            _ => prior,
        }
    }
}

/// The keys of some objects.
pub open spec fn keys_of(deletable: Seq<(ObjectKey, u64)>) -> Set<ObjectKey> {
    Set::new(|key: ObjectKey| exists|i: int| 0 <= i < deletable.len() && (#[trigger] deletable[i]).0 == key)
}

impl StateModel {
    /// The state that no longer finds the objects that will be deleted.
    pub open spec fn retired(self, deletable: Seq<(ObjectKey, u64)>) -> StateModel {
        let list = order::listing::<Vec<u8>, Seq<u8>>(self.placements.entries);
        StateModel {
            endpoints: retired_endpoints(self.endpoints, deletable, deletable.len() as int),
            placements: retired_entries(
                self.placements,
                list,
                keys_of(deletable),
                list.len() as int,
            ),
            ..self
        }
    }
}

fn keep_remaining(list: &Vec<Representation>, deleting: &OrderedSet<ObjectKey>) -> (left: Vec<
    Representation,
>)
    ensures
        left@ == remaining(list@, deleting@, list@.len() as int),
        left@.len() <= list@.len(),
{
    let mut left: Vec<Representation> = Vec::new();
    let mut i: usize = 0;
    assert(left@ =~= Seq::<Representation>::empty());
    while i < list.len()
        invariant
            i <= list@.len(),
            left@ == remaining(list@, deleting@, i as int),
            left@.len() <= i,
        decreases list.len() - i,
    {
        if !deleting.contains(&ObjectKey::Blob(list[i].extent.blob)) {
            left.push(list[i]);
        }
        i += 1;
    }
    left
}

/// A change to a placement: its new record, or none.
struct Edit {
    key: Vec<u8>,
    record: Option<Vec<u8>>,
}

impl Edit {
    spec fn applied(self, index: IndexModel) -> IndexModel {
        match self.record {
            Some(record) => index.with(self.key@, record@),
            None => index.without(self.key@),
        }
    }
}

spec fn edited(index: IndexModel, edits: Seq<Edit>, count: int) -> IndexModel
    decreases count,
{
    if count <= 0 {
        index
    } else {
        edits[count - 1].applied(edited(index, edits, count - 1))
    }
}

proof fn lemma_edited_push(index: IndexModel, edits: Seq<Edit>, edit: Edit, count: int)
    requires
        0 <= count <= edits.len(),
    ensures
        edited(index, edits.push(edit), count) == edited(index, edits, count),
    decreases count,
{
    if count > 0 {
        lemma_edited_push(index, edits, edit, count - 1);
    }
}

fn plan_edits(
    entries: &OrderedMap<Vec<u8>, Vec<u8>>,
    deleting: &OrderedSet<ObjectKey>,
    index: Ghost<IndexModel>,
) -> (edits: Vec<Edit>)
    ensures
        edited(index@, edits@, edits@.len() as int) == retired_entries(
            index@,
            entries.pairs(),
            deleting@,
            entries.pairs().len() as int,
        ),
{
    let count: usize = entries.len();
    let ghost list = entries.pairs();
    let mut edits: Vec<Edit> = Vec::new();
    let mut i: usize = 0;
    while i < count
        invariant
            i <= count,
            count == list.len(),
            list == entries.pairs(),
            edited(index@, edits@, edits@.len() as int) == retired_entries(
                index@,
                list,
                deleting@,
                i as int,
            ),
        decreases count - i,
    {
        let key: &Vec<u8> = entries.key_at(i);
        let value: &Vec<u8> = entries.value_at(i);
        let ghost before = edits@;
        match read_entry(key, value) {
            Err(_) => {},
            Ok(placement) => {
                let left: Vec<Representation> = keep_remaining(&placement.representations, deleting);
                let record: Option<Vec<u8>> = if left.len() == 0 {
                    None
                } else {
                    let rest: Placements = Placements {
                        pack: placement.pack,
                        length: placement.length,
                        cohort: placement.cohort,
                        representations: left,
                    };
                    assert(rest@ =~= PlacementsModel { representations: rest.representations@, ..placement@ });
                    Some(rest.encode())
                };
                let edit: Edit = Edit { key: copied(key.as_slice()), record };
                proof {
                    lemma_edited_push(index@, before, edit, before.len() as int);
                }
                edits.push(edit);
            },
        }
        i += 1;
    }
    edits
}

/// Makes the catalog let go of the objects that will be deleted.
fn retire(state: &mut State, deletable: &Vec<(ObjectKey, u64)>)
    ensures
        final(state)@ == old(state)@.retired(deletable@),
{
    let ghost before = state@;
    let mut deleting: OrderedSet<ObjectKey> = OrderedSet::new();
    let mut i: usize = 0;
    while i < deletable.len()
        invariant
            i <= deletable@.len(),
            before == old(state)@,
            forall|key: ObjectKey| #[trigger]
                deleting@.contains(key) <==> exists|j: int|
                    0 <= j < i && (#[trigger] deletable@[j]).0 == key,
            state@ == (StateModel {
                endpoints: retired_endpoints(before.endpoints, deletable@, i as int),
                ..before
            }),
        decreases deletable.len() - i,
    {
        let key: ObjectKey = deletable[i].0;
        assert(deletable@[i as int].0 == key);
        deleting.insert(key);
        if let ObjectKey::Manifest(id) = key {
            state.endpoints.remove(id.bytes.as_slice());
        }
        i += 1;
    }
    assert(deleting@ =~= keys_of(deletable@));
    let edits: Vec<Edit> = plan_edits(
        state.placements.entries(),
        &deleting,
        Ghost(before.placements),
    );
    let ghost parted = state@;
    let mut k: usize = 0;
    while k < edits.len()
        invariant
            k <= edits@.len(),
            state@ == (StateModel {
                placements: edited(before.placements, edits@, k as int),
                ..parted
            }),
        decreases edits.len() - k,
    {
        match &edits[k].record {
            Some(record) => {
                state.placements.insert(
                    copied(edits[k].key.as_slice()),
                    copied(record.as_slice()),
                );
            },
            None => {
                state.placements.remove(edits[k].key.as_slice());
            },
        }
        k += 1;
    }
}

/// What deleting some objects, from place `i` on, came to: those that have to stay
/// after all are passed over.
pub open spec fn deletions_replay(
    history: Seq<Event>,
    at: int,
    deletable: Seq<(ObjectKey, u64)>,
    i: int,
    live: Set<ObjectKey>,
    report: GcReport,
) -> Replay<GcReport>
    decreases deletable.len() - i,
{
    if i < 0 || i >= deletable.len() {
        Replay::Done(Ok(report), at)
    } else if live.contains(deletable[i].0) {
        deletions_replay(history, at, deletable, i + 1, live, report)
    } else if 0 <= at < history.len() {
        match history[at] {
            Event::Delete { key, reply } => if key != deletable[i].0 {
                Replay::Astray
            } else {
                match reply {
                    Err(error) => Replay::Done(Err(StoreError::Backend(error)), at + 1),
                    Ok(_) => deletions_replay(
                        history,
                        at + 1,
                        deletable,
                        i + 1,
                        live,
                        GcReport {
                            deleted_objects: (report.deleted_objects + 1) as usize,
                            deleted_bytes: report::sum(report.deleted_bytes, deletable[i].1),
                            ..report
                        },
                    ),
                }
            },
            _ => Replay::Astray,
        }
    } else {
        Replay::Astray
    }
}

/// The right to delete what does not have to stay.
pub struct GcSession<'a> {
    home: BackendId,
    live: &'a OrderedSet<ObjectKey>,
}

impl<'a> GcSession<'a> {
    pub closed spec fn spared(&self) -> Set<ObjectKey> {
        self.live@
    }

    pub closed spec fn at_home(&self) -> BackendId {
        self.home
    }

    pub fn new(home: BackendId, live: &'a OrderedSet<ObjectKey>) -> (session: Self)
        ensures
            session.spared() == live@,
            session.at_home() == home,
    {
        GcSession { home, live }
    }

    /// A permit to delete an object, unless it has to stay.
    pub fn permit(&self, key: ObjectKey) -> (permit: Option<DeletePermit>)
        ensures
            match permit {
                Some(p) => !self.spared().contains(key) && p.target() == key && p.home()
                    == self.at_home(),
                None => self.spared().contains(key),
            },
    {
        if self.live.contains(&key) {
            return None;
        }
        Some(DeletePermit::new(self.home, key))
    }
}

/// Deletes some objects, but for those that have to stay.
fn sweep<B: StorageBackend>(
    backend: &mut B,
    deletable: &Vec<(ObjectKey, u64)>,
    live: &OrderedSet<ObjectKey>,
    start: GcReport,
) -> (report: Result<GcReport, StoreError>)
    requires
        start.deleted_objects == 0,
    ensures
        final(backend).namespace() == old(backend).namespace(),
        adapter::extends(old(backend).history(), final(backend).history()),
        deletions_replay(
            final(backend).history(),
            old(backend).history().len() as int,
            deletable@,
            0,
            live@,
            start,
        ) == Replay::Done(report, final(backend).history().len() as int),
{
    let session: GcSession<'_> = GcSession::new(backend.identity(), live);
    let ghost begin = backend.history().len() as int;
    let ghost list = deletable@;
    let mut report: GcReport = start;
    let mut i: usize = 0;
    while i < deletable.len()
        invariant
            i <= deletable@.len(),
            list == deletable@,
            session.spared() == live@,
            begin == old(backend).history().len(),
            backend.namespace() == old(backend).namespace(),
            adapter::extends(old(backend).history(), backend.history()),
            report.deleted_objects <= i,
            forall|later: Seq<Event>|
                #![trigger deletions_replay(later, begin, list, 0, live@, start)]
                adapter::extends(backend.history(), later) ==> deletions_replay(
                    later,
                    begin,
                    list,
                    0,
                    live@,
                    start,
                ) == deletions_replay(
                    later,
                    backend.history().len() as int,
                    list,
                    i as int,
                    live@,
                    report,
                ),
        decreases deletable.len() - i,
    {
        let key: ObjectKey = deletable[i].0;
        let length: u64 = deletable[i].1;
        assert(list[i as int].0 == key);
        let ghost past = backend.history();
        let ghost before = report;
        match session.permit(key) {
            None => {},
            Some(permit) => {
                let done: Result<(), BackendError> = backend.delete(permit);
                proof {
                    let h = backend.history();
                    assert(deletions_replay(h, begin, list, 0, live@, start) == deletions_replay(
                        h,
                        past.len() as int,
                        list,
                        i as int,
                        live@,
                        before,
                    ));
                }
                match done {
                    Err(error) => {
                        return Err(StoreError::Backend(error));
                    },
                    Ok(_) => {},
                }
                report.deleted_objects = report.deleted_objects + 1;
                report.deleted_bytes = report.deleted_bytes.saturating_add(length);
            },
        }
        proof {
            assert forall|later: Seq<Event>|
                #![trigger deletions_replay(later, begin, list, 0, live@, start)]
                adapter::extends(backend.history(), later) implies deletions_replay(
                later,
                begin,
                list,
                0,
                live@,
                start,
            ) == deletions_replay(
                later,
                backend.history().len() as int,
                list,
                i as int + 1,
                live@,
                report,
            ) by {
                assert(adapter::extends(past, later));
                assert(deletions_replay(later, begin, list, 0, live@, start) == deletions_replay(
                    later,
                    past.len() as int,
                    list,
                    i as int,
                    live@,
                    before,
                ));
                if past.len() < backend.history().len() {
                    assert(later[past.len() as int] == backend.history()[past.len() as int]);
                }
            }
        }
        i += 1;
    }
    proof {
        let h = backend.history();
        assert(deletions_replay(h, begin, list, 0, live@, start) == deletions_replay(
            h,
            h.len() as int,
            list,
            i as int,
            live@,
            report,
        ));
    }
    Ok(report)
}

impl SurveyModel {
    /// What the report starts from: the packs that nothing reaches.
    pub open spec fn start(self, state: StateModel) -> GcReport {
        let entries = order::listing::<Vec<u8>, Seq<u8>>(state.placements.entries);
        let dead = report::dead_among(
            entries,
            self.trace.live,
            self.held.all,
            entries.len() as int,
        );
        GcReport {
            objects: order::roll::<ObjectKey>(self.inventory).len() as usize,
            logically_unreachable_packs: dead.packs as usize,
            dead_extent_bytes: dead.bytes,
            partially_obsolete_bytes: repack::capped(dead.bytes as int, self.obsolete as int),
            ..GcReport::zero()
        }
    }

    /// The report, and what may go.
    pub open spec fn tally(self, state: StateModel, budget: int) -> TallyModel {
        let walk = order::roll::<ObjectKey>(self.inventory);
        report::tallied(
            walk,
            self.lengths,
            self.held,
            self.sealing,
            budget,
            self.start(state),
            walk.len() as int,
        )
    }
}

/// A survey gave this.
pub open spec fn surveyed(
    state: StateModel,
    earlier: Seq<Event>,
    later: Seq<Event>,
    local: LocalRoots<'_>,
    leases: Seq<Lease>,
    survey: SurveyModel,
) -> bool {
    &&& retention::looked(earlier, later)
    &&& survey_replay(later, earlier.len() as int, state, local, leases) == Replay::Done(
        Ok::<SurveyModel, StoreError>(survey),
        later.len() as int,
    )
}

/// The objects are deleted, after a publication that succeeded.
pub open spec fn swept(
    after: StateModel,
    earlier: Seq<Event>,
    later: Seq<Event>,
    survey: SurveyModel,
    tally: TallyModel,
    result: Result<GcReport, StoreError>,
) -> bool {
    &&& adapter::extends(earlier, later)
    &&& deletions_replay(
        later,
        earlier.len() as int,
        tally.deletable,
        0,
        survey.held.all.union(after.index_objects()),
        tally.report,
    ) == Replay::Done(result, later.len() as int)
}

/// What follows a survey: where something may go, the catalog lets go of it and
/// that is published; only then is it deleted.
pub open spec fn disposed(
    before: StateModel,
    after: StateModel,
    earlier: Seq<Event>,
    later: Seq<Event>,
    survey: SurveyModel,
    budget: int,
    result: Result<GcReport, StoreError>,
) -> bool {
    let tally = survey.tally(before, budget);
    if tally.deletable.len() == 0 {
        after == before && later == earlier && result == Ok::<GcReport, StoreError>(tally.report)
    } else {
        ||| result is Err && state::publish_outcome(
            before.retired(tally.deletable),
            after,
            earlier,
            later,
            Err(result->Err_0),
        )
        ||| exists|mid: Seq<Event>|
            {
                &&& #[trigger] swept(after, mid, later, survey, tally, result)
                &&& state::publish_outcome(
                    before.retired(tally.deletable),
                    after,
                    earlier,
                    mid,
                    Ok(()),
                )
            }
    }
}

/// What a collection by a state that was just loaded comes to. Unless the survey
/// succeeds, nothing is changed.
pub open spec fn collected_from(
    before: StateModel,
    after: StateModel,
    earlier: Seq<Event>,
    later: Seq<Event>,
    local: LocalRoots<'_>,
    leases: Seq<Lease>,
    budget: int,
    result: Result<GcReport, StoreError>,
) -> bool {
    ||| result is Err && after == before && retention::looked(earlier, later) && (
    opening::unopened(result->Err_0, earlier, later) || survey_replay(later, earlier.len() as int, before, local, leases)
        == Replay::Done(Err::<SurveyModel, StoreError>(result->Err_0), later.len() as int))
    ||| exists|mid: Seq<Event>, survey: SurveyModel|
        {
            &&& #[trigger] surveyed(before, earlier, mid, local, leases, survey)
            &&& disposed(before, after, mid, later, survey, budget, result)
        }
}

/// Loading the state anew gave this.
pub open spec fn reloaded(
    state: StateModel,
    earlier: Seq<Event>,
    later: Seq<Event>,
    fresh: StateModel,
) -> bool {
    &&& retention::looked(earlier, later)
    &&& reload_replay(later, earlier.len() as int, state) == Replay::Done(
        Ok::<StateModel, StoreError>(fresh),
        later.len() as int,
    )
}

/// What a collection comes to. The state is loaded anew first, and must not have
/// been replaced; after a publication whose outcome is not known there is none.
pub open spec fn collected(
    before: StateModel,
    after: StateModel,
    earlier: Seq<Event>,
    later: Seq<Event>,
    local: LocalRoots<'_>,
    leases: Seq<Lease>,
    budget: int,
    result: Result<GcReport, StoreError>,
) -> bool {
    if before.uncertain {
        after == before && later == earlier && result matches Err(
            StoreError::Backend(BackendError::Uncertain(_)),
        )
    } else {
        ||| result is Err && after == before && retention::looked(earlier, later) && (
        opening::unopened(result->Err_0, earlier, later) || reload_replay(later, earlier.len() as int, before) == Replay::Done(
            Err::<StateModel, StoreError>(result->Err_0),
            later.len() as int,
        ))
        ||| exists|mid: Seq<Event>, fresh: StateModel|
            {
                &&& #[trigger] reloaded(before, earlier, mid, fresh)
                &&& collected_from(fresh, after, mid, later, local, leases, budget, result)
            }
    }
}

proof fn lemma_measured(
    history: Seq<Event>,
    at: int,
    checks: Seq<Check>,
    i: int,
    known: Map<ObjectKey, u64>,
    k: int,
)
    requires
        survey::checks_replay(history, at, checks, i, known) matches Replay::Done(Ok(_), _),
        0 <= i <= k < checks.len(),
        survey::measured(checks[k]) is Some,
    ensures
        survey::checks_replay(history, at, checks, i, known)->Done_0->Ok_0.dom().contains(
            survey::measured(checks[k])->Some_0,
        ),
    decreases checks.len() - i,
{
    match survey::check_replay(history, at, known, checks[i]) {
        Replay::Done(Ok(next_known), next) => {
            if k == i {
                lemma_known_stays(
                    history,
                    next,
                    checks,
                    i + 1,
                    next_known,
                    survey::measured(checks[k])->Some_0,
                );
            } else {
                lemma_measured(history, next, checks, i + 1, next_known, k);
            }
        },
        _ => {},
    }
}

proof fn lemma_known_stays(
    history: Seq<Event>,
    at: int,
    checks: Seq<Check>,
    i: int,
    known: Map<ObjectKey, u64>,
    key: ObjectKey,
)
    requires
        survey::checks_replay(history, at, checks, i, known) matches Replay::Done(Ok(_), _),
        known.dom().contains(key),
        0 <= i,
    ensures
        survey::checks_replay(history, at, checks, i, known)->Done_0->Ok_0.dom().contains(key),
    decreases checks.len() - i,
{
    if i < checks.len() {
        match survey::check_replay(history, at, known, checks[i]) {
            Replay::Done(Ok(next_known), next) => {
                lemma_known_stays(history, next, checks, i + 1, next_known, key);
            },
            _ => {},
        }
    }
}

/// A survey knows the length of everything that it lists.
proof fn lemma_lengths_known(
    history: Seq<Event>,
    at: int,
    state: StateModel,
    trace: TraceModel,
    held: HeldModel,
    inventory: Set<ObjectKey>,
    lengths: Map<ObjectKey, u64>,
    next: int,
    key: ObjectKey,
)
    requires
        checked_replay(history, at, state, trace, held, inventory) == Replay::Done(
            Ok::<Map<ObjectKey, u64>, StoreError>(lengths),
            next,
        ),
        inventory.contains(key),
        order::roll::<ObjectKey>(inventory).to_set() == inventory,
    ensures
        lengths.dom().contains(key),
{
    let planned = survey::planned_checks(state, trace, held, inventory);
    let walk = order::roll::<ObjectKey>(inventory);
    let last = survey::listed_checks(walk);
    assert(walk.to_set().contains(key));
    let j = walk.index_of(key);
    let offset = planned.0.len() - last.len();
    assert(planned.0[offset + j] == last[j]);
    assert(last[j] == Check::Present(key));
    lemma_measured(history, at, planned.0, 0, Map::empty(), offset + j);
}

proof fn lemma_survey_lengths(
    history: Seq<Event>,
    at: int,
    state: StateModel,
    local: LocalRoots<'_>,
    leases: Seq<Lease>,
    survey: SurveyModel,
    end: int,
    key: ObjectKey,
)
    requires
        survey_replay(history, at, state, local, leases) == Replay::Done(
            Ok::<SurveyModel, StoreError>(survey),
            end,
        ),
        survey.inventory.contains(key),
        order::roll::<ObjectKey>(survey.inventory).to_set() == survey.inventory,
    ensures
        survey.lengths.dom().contains(key),
{
    reveal(survey_replay);
    match trace::logical_replay(history, at, state, local) {
        Replay::Done(Ok(trace), next) => {
            match inventory::inventory_replay(history, next, None, Set::empty()) {
                Replay::Done(Ok(inventory), next) => {
                    match checked_replay(history, next, state, trace, survey.held, inventory) {
                        Replay::Done(Ok(lengths), after) => {
                            lemma_lengths_known(
                                history,
                                next,
                                state,
                                trace,
                                survey.held,
                                inventory,
                                lengths,
                                after,
                                key,
                            );
                        },
                        _ => {},
                    }
                },
                _ => {},
            }
        },
        _ => {},
    }
}

/// The report of a survey, and what may go.
fn make_tally(state: &State, survey: &Survey, budget: usize) -> (found: (
    GcReport,
    Vec<(ObjectKey, u64)>,
))
    requires
        forall|key: ObjectKey| #[trigger]
            survey@.inventory.contains(key) ==> survey@.lengths.dom().contains(key),
    ensures
        (TallyModel { report: found.0, deletable: found.1@ }) == survey@.tally(
            state@,
            budget as int,
        ),
        found.0.deleted_objects == 0,
{
    let (packs, bytes) = find_dead(
        state.placements.entries(),
        &survey.trace.live,
        &survey.held.all,
    );
    let mut start: GcReport = GcReport::new();
    start.objects = survey.inventory.len();
    start.logically_unreachable_packs = packs;
    start.dead_extent_bytes = bytes;
    start.partially_obsolete_bytes = bytes.saturating_add(survey.obsolete);
    let found: (GcReport, Vec<(ObjectKey, u64)>) = tally(
        &survey.inventory,
        &survey.lengths,
        &survey.held,
        survey.sealing,
        budget,
        start,
    );
    proof {
        assert(start == survey@.start(state@));
        let walk = survey.inventory.walk();
        lemma_none_deleted(
            walk,
            survey@.lengths,
            survey@.held,
            survey@.sealing,
            budget as int,
            start,
            walk.len() as int,
        );
    }
    found
}

proof fn lemma_none_deleted(
    walk: Seq<ObjectKey>,
    lengths: Map<ObjectKey, u64>,
    held: HeldModel,
    sealing: bool,
    budget: int,
    start: GcReport,
    count: int,
)
    requires
        start.deleted_objects == 0,
    ensures
        report::tallied(walk, lengths, held, sealing, budget, start, count).report.deleted_objects == 0,
    decreases count,
{
    if count > 0 {
        lemma_none_deleted(walk, lengths, held, sealing, budget, start, count - 1);
    }
}

/// Disposes of what a survey found to be garbage.
fn dispose<B: StorageBackend>(backend: &mut B, state: &mut State, survey: Survey, budget: usize) -> (result:
    Result<GcReport, StoreError>)
    requires
        forall|key: ObjectKey| #[trigger]
            survey@.inventory.contains(key) ==> survey@.lengths.dom().contains(key),
    ensures
        final(backend).namespace() == old(backend).namespace(),
        adapter::extends(old(backend).history(), final(backend).history()),
        disposed(
            old(state)@,
            final(state)@,
            old(backend).history(),
            final(backend).history(),
            survey@,
            budget as int,
            result,
        ),
{
    let ghost model = survey@;
    let ghost before = state@;
    let (report, deletable) = make_tally(state, &survey, budget);
    let ghost tally = model.tally(before, budget as int);
    if deletable.len() == 0 {
        return Ok(report);
    }
    retire(state, &deletable);
    let done: Result<(), StoreError> = state.publish(backend);
    let ghost mid = backend.history();
    match done {
        Err(error) => {
            return Err(error);
        },
        Ok(unit) => {
            assert(unit == ());
        },
    }
    let mut live: OrderedSet<ObjectKey> = survey.held.all;
    let layers: OrderedSet<ObjectKey> = state.index_objects();
    absorb(&mut live, &layers);
    let result: Result<GcReport, StoreError> = sweep(backend, &deletable, &live, report);
    assert(swept(state@, mid, backend.history(), model, tally, result));
    result
}

/// Collects up to `budget` objects that no root reaches. With no budget it only
/// reports.
pub fn collect<B: StorageBackend>(
    backend: &mut B,
    state: &mut State,
    local: &LocalRoots<'_>,
    leases: &Vec<Lease>,
    budget: usize,
) -> (result: Result<GcReport, StoreError>)
    ensures
        final(backend).namespace() == old(backend).namespace(),
        adapter::extends(old(backend).history(), final(backend).history()),
        collected(
            old(state)@,
            final(state)@,
            old(backend).history(),
            final(backend).history(),
            *local,
            leases@,
            budget as int,
            result,
        ),
{
    if state.uncertain {
        return Err(uncertain());
    }
    let ghost before = state@;
    let ghost earlier = backend.history();
    let fresh: State = match reload(backend, state) {
        Ok(fresh) => fresh,
        Err(error) => {
            return Err(error);
        },
    };
    let ghost loaded = fresh@;
    let ghost h1 = backend.history();
    assert(reloaded(before, earlier, h1, loaded));
    *state = fresh;
    let survey: Survey = match make_survey(backend, state, local, leases) {
        Ok(survey) => survey,
        Err(error) => {
            assert(collected_from(
                loaded,
                state@,
                h1,
                backend.history(),
                *local,
                leases@,
                budget as int,
                Err::<GcReport, StoreError>(error),
            ));
            return Err(error);
        },
    };
    let ghost h2 = backend.history();
    let ghost model = survey@;
    assert(surveyed(loaded, h1, h2, *local, leases@, model));
    let count: usize = survey.inventory.len();
    proof {
        assert forall|key: ObjectKey| #[trigger]
            model.inventory.contains(key) implies model.lengths.dom().contains(key) by {
            lemma_survey_lengths(
                h2,
                h1.len() as int,
                loaded,
                *local,
                leases@,
                model,
                h2.len() as int,
                key,
            );
        }
    }
    let result: Result<GcReport, StoreError> = dispose(backend, state, survey, budget);
    assert(collected_from(
        loaded,
        state@,
        h1,
        backend.history(),
        *local,
        leases@,
        budget as int,
        result,
    ));
    result
}

/// The outcome of an earlier publication is not known.
fn uncertain() -> (error: StoreError)
    ensures
        error matches StoreError::Backend(BackendError::Uncertain(_)),
{
    StoreError::Backend(BackendError::Uncertain("reload before collection".to_owned()))
}

proof fn lemma_written(state: StateModel, count: int)
    requires
        0 <= count <= 5,
    ensures
        forall|i: int|
            0 <= i < state.write_events(count).len() ==> !((
            #[trigger] state.write_events(count)[i]) is Delete),
    decreases count,
{
    if count > 0 {
        lemma_written(state, count - 1);
        let prior = state.write_events(count - 1);
        let whole = state.write_events(count);
        assert forall|i: int| 0 <= i < whole.len() implies !((#[trigger] whole[i]) is Delete) by {
            if i < prior.len() {
                assert(whole[i] == prior[i]);
            }
        }
    }
}

/// A publication deletes nothing; where it succeeds its last call replaced the
/// root.
proof fn lemma_publication(
    before: StateModel,
    after: StateModel,
    earlier: Seq<Event>,
    later: Seq<Event>,
    done: Result<(), StoreError>,
)
    requires
        state::publish_outcome(before, after, earlier, later, done),
    ensures
        earlier.len() <= later.len(),
        forall|i: int| earlier.len() <= i < later.len() ==> !((#[trigger] later[i]) is Delete),
        done is Ok ==> replaced_root(earlier, later),
{
    let noted = before.noted();
    if !before.uncertain {
        if exists|reply: Result<crate::adapter::Publication, BackendError>| #[trigger]
            state::root_offered(
                noted.written(5),
                earlier + noted.write_events(5),
                later,
                reply,
            ) && after == state::replied(noted.written(5), reply) && done == state::verdict(reply) {
            let reply = choose|reply: Result<crate::adapter::Publication, BackendError>| #[trigger]
                state::root_offered(
                    noted.written(5),
                    earlier + noted.write_events(5),
                    later,
                    reply,
                ) && after == state::replied(noted.written(5), reply) && done == state::verdict(reply);
            lemma_written(noted, 5);
            let events = noted.write_events(5);
            assert forall|i: int| earlier.len() <= i < later.len() implies !((
            #[trigger] later[i]) is Delete) by {
                if i < earlier.len() + events.len() {
                    assert(later[i] == events[i - earlier.len()]);
                }
            }
        } else {
            let error = done->Err_0;
            let k = choose|k: int|
                0 <= k < 5 && after == #[trigger] noted.written(k) && crate::index::flush_failed(
                    noted.indexes()[k],
                    earlier + noted.write_events(k),
                    later,
                    error,
                );
            lemma_written(noted, k);
            let events = noted.write_events(k);
            assert forall|i: int| earlier.len() <= i < later.len() implies !((
            #[trigger] later[i]) is Delete) by {
                if i < earlier.len() + events.len() {
                    assert(later[i] == (earlier + events)[i]);
                    assert(later[i] == events[i - earlier.len()]);
                }
            }
        }
    }
}

/// The last call replaced the root.
pub open spec fn replaced_root(earlier: Seq<Event>, later: Seq<Event>) -> bool {
    earlier.len() < later.len() && (later.last() matches Event::Publish { expected, bytes, reply }
        && reply matches Ok(crate::adapter::Publication::Applied(_)))
}

/// What the calls that delete some objects are.
proof fn lemma_deletions(
    history: Seq<Event>,
    at: int,
    deletable: Seq<(ObjectKey, u64)>,
    i: int,
    live: Set<ObjectKey>,
    report: GcReport,
    p: int,
)
    requires
        deletions_replay(history, at, deletable, i, live, report) is Done,
        0 <= i,
        at <= p < deletions_replay(history, at, deletable, i, live, report)->Done_1,
    ensures
        history[p] matches Event::Delete { key, reply } && keys_of(deletable).contains(key)
            && !live.contains(key),
        deletions_replay(history, at, deletable, i, live, report)->Done_1 - at <= deletable.len() - i,
    decreases deletable.len() - i,
{
    if i < deletable.len() {
        if live.contains(deletable[i].0) {
            lemma_deletions(history, at, deletable, i + 1, live, report, p);
        } else {
            match history[at] {
                Event::Delete { key, reply } => {
                    assert(deletable[i].0 == key);
                    assert(keys_of(deletable).contains(key));
                    match reply {
                        Ok(_) => {
                            let next = GcReport {
                                deleted_objects: (report.deleted_objects + 1) as usize,
                                deleted_bytes: report::sum(report.deleted_bytes, deletable[i].1),
                                ..report
                            };
                            lemma_deletions_bound(history, at + 1, deletable, i + 1, live, next);
                            if p > at {
                                lemma_deletions(history, at + 1, deletable, i + 1, live, next, p);
                            }
                        },
                        Err(_) => {},
                    }
                },
                _ => {},
            }
        }
    }
}

proof fn lemma_deletions_bound(
    history: Seq<Event>,
    at: int,
    deletable: Seq<(ObjectKey, u64)>,
    i: int,
    live: Set<ObjectKey>,
    report: GcReport,
)
    requires
        deletions_replay(history, at, deletable, i, live, report) is Done,
        0 <= i <= deletable.len(),
    ensures
        deletions_replay(history, at, deletable, i, live, report)->Done_1 - at <= deletable.len() - i,
    decreases deletable.len() - i,
{
    if i < deletable.len() {
        if live.contains(deletable[i].0) {
            lemma_deletions_bound(history, at, deletable, i + 1, live, report);
        } else {
            match history[at] {
                Event::Delete { key, reply } => if reply is Ok {
                    lemma_deletions_bound(
                        history,
                        at + 1,
                        deletable,
                        i + 1,
                        live,
                        GcReport {
                            deleted_objects: (report.deleted_objects + 1) as usize,
                            deleted_bytes: report::sum(report.deleted_bytes, deletable[i].1),
                            ..report
                        },
                    );
                },
                _ => {},
            }
        }
    }
}

/// Whatever a collection deletes was listed, does not have to stay, and is deleted
/// only after a publication replaced the root by one that has let go of it.
pub proof fn law_disposal_is_safe(
    before: StateModel,
    after: StateModel,
    earlier: Seq<Event>,
    later: Seq<Event>,
    survey: SurveyModel,
    budget: int,
    result: Result<GcReport, StoreError>,
    p: int,
)
    requires
        disposed(before, after, earlier, later, survey, budget, result),
        0 <= budget,
        survey.inventory.finite(),
        earlier.len() <= p < later.len(),
        later[p] is Delete,
    ensures
        survey.inventory.contains(later[p]->Delete_key),
        !survey.held.all.contains(later[p]->Delete_key),
        !after.index_objects().contains(later[p]->Delete_key),
        exists|mid: Seq<Event>| mid.len() <= p && #[trigger] replaced_root(earlier, mid)
            && adapter::extends(mid, later),
{
    let tally = survey.tally(before, budget);
    let retired = before.retired(tally.deletable);
    if result is Err && state::publish_outcome(
        retired,
        after,
        earlier,
        later,
        Err(result->Err_0),
    ) {
        lemma_publication(retired, after, earlier, later, Err(result->Err_0));
        assert(false);
    }
    let mid = choose|mid: Seq<Event>|
        {
            &&& #[trigger] swept(after, mid, later, survey, tally, result)
            &&& state::publish_outcome(retired, after, earlier, mid, Ok(()))
        };
    lemma_publication(retired, after, earlier, mid, Ok(()));
    if p < mid.len() {
        assert(later[p] == mid[p]);
        assert(false);
    }
    let live = survey.held.all.union(after.index_objects());
    lemma_deletions(later, mid.len() as int, tally.deletable, 0, live, tally.report, p);
    let key = later[p]->Delete_key;
    let j = choose|j: int| 0 <= j < tally.deletable.len() && (#[trigger] tally.deletable[j]).0 == key;
    let walk = order::roll::<ObjectKey>(survey.inventory);
    crate::report::law_deletable_is_garbage(
        walk,
        survey.lengths,
        survey.held,
        survey.sealing,
        budget,
        survey.start(before),
        walk.len() as int,
        j,
    );
    crate::order::lemma_rolled::<ObjectKey>(survey.inventory);
    assert(walk.to_set().contains(key));
}

/// What a root reaches has to stay: no object that keeps it is deleted.
pub proof fn law_reachable_is_held(
    state: StateModel,
    trace: TraceModel,
    leased: Set<ObjectKey>,
    sealing: bool,
    key: CatalogKey,
    object: ObjectKey,
)
    requires
        trace.live.contains(key),
        survey::keeper(state, key) == Some(object),
    ensures
        survey::held_by(state, trace, leased, sealing).all.contains(object),
{
    assert(survey::keepers(state, trace.live).contains(object));
}

/// The place that a live pack is read from stays its preferred one.
pub proof fn law_retiring_keeps_preferred(list: Seq<Representation>, deleting: Set<ObjectKey>, count: int)
    requires
        1 <= count <= list.len(),
        !deleting.contains(ObjectKey::Blob(list[0].extent.blob)),
    ensures
        remaining(list, deleting, count).len() > 0,
        remaining(list, deleting, count)[0] == list[0],
    decreases count,
{
    if count > 1 {
        law_retiring_keeps_preferred(list, deleting, count - 1);
    } else {
        assert(remaining(list, deleting, 0) =~= Seq::<Representation>::empty());
    }
}

/// Without a budget a collection only reports.
pub proof fn law_no_budget_only_reports(
    before: StateModel,
    after: StateModel,
    earlier: Seq<Event>,
    later: Seq<Event>,
    survey: SurveyModel,
    budget: int,
    result: Result<GcReport, StoreError>,
)
    requires
        disposed(before, after, earlier, later, survey, budget, result),
        budget == 0,
    ensures
        after == before,
        later == earlier,
        result is Ok,
{
    let walk = order::roll::<ObjectKey>(survey.inventory);
    lemma_no_budget(
        walk,
        survey.lengths,
        survey.held,
        survey.sealing,
        survey.start(before),
        walk.len() as int,
    );
}

proof fn lemma_no_budget(
    walk: Seq<ObjectKey>,
    lengths: Map<ObjectKey, u64>,
    held: HeldModel,
    sealing: bool,
    start: GcReport,
    count: int,
)
    ensures
        report::tallied(walk, lengths, held, sealing, 0, start, count).deletable.len() == 0,
    decreases count,
{
    if count > 0 {
        lemma_no_budget(walk, lengths, held, sealing, start, count - 1);
    }
}

/// The views that a namespace must still have before it is destroyed: the one that
/// the active file continues, and those that the selected head has sealed.
pub open spec fn last_roots(state: StateModel, header: ActiveHeader) -> Seq<Root> {
    let own = if header.parent_physical_digest@ == crate::bytes::zeros(32) {
        Seq::empty()
    } else {
        seq![Root::Described { header, active: true, named: false }]
    };
    own + last_root(state.sealed) + last_root(state.pending)
}

pub open spec fn last_root(header: Option<ActiveHeader>) -> Seq<Root> {
    match header {
        None => Seq::empty(),
        Some(header) => seq![Root::Described { header, active: false, named: false }],
    }
}

/// The state of a namespace that holds nothing, under the same token.
pub open spec fn cleared(state: StateModel) -> StateModel {
    StateModel { revision: state.revision, ..state::fresh_state(Seq::empty()) }
}

/// Everything that is listed, to be deleted.
pub open spec fn everything(inventory: Set<ObjectKey>) -> Seq<(ObjectKey, u64)> {
    let walk = order::roll::<ObjectKey>(inventory);
    Seq::new(walk.len(), |i: int| (walk[i], 0u64))
}

/// Whether a namespace may be destroyed: nothing is retained, and there is no
/// other head.
pub open spec fn destroy_check(state: StateModel) -> Result<(), StoreError> {
    let pins = order::listing::<Vec<u8>, Seq<u8>>(state.retentions.entries);
    let heads = order::listing::<Vec<u8>, Seq<u8>>(state.heads.entries);
    match retention::names_check(pins, pins.len() as int) {
        Err(error) => Err(error),
        Ok(_) => if pins.len() > 0 || heads.len() > 1 {
            Err(StoreError::Busy)
        } else {
            Ok(())
        },
    }
}

/// What the checks before a destruction came to: everything that is held.
pub open spec fn destroy_replay(
    history: Seq<Event>,
    at: int,
    state: StateModel,
    header: ActiveHeader,
    attachment: LocalAttachment<'_>,
    accepted: Set<Seq<u8>>,
) -> Replay<Set<ObjectKey>> {
    match destroy_check(state) {
        Err(error) => Replay::Done(Err(error), at),
        Ok(_) => if state.database is None {
            inventory::inventory_replay(history, at, None, Set::empty())
        } else {
            match objects::attachment_check(state, header, attachment) {
                Err(error) => Replay::Done(Err(error), at),
                Ok(_) => match trace::trace_replay(
                    history,
                    at,
                    state,
                    accepted,
                    last_roots(state, header),
                    0,
                    TraceModel::start(),
                ) {
                    Replay::Astray => Replay::Astray,
                    Replay::Done(Err(error), next) => Replay::Done(Err(error), next),
                    Replay::Done(Ok(_), next) => inventory::inventory_replay(
                        history,
                        next,
                        None,
                        Set::empty(),
                    ),
                },
            }
        },
    }
}

/// What a destruction comes to: the cleared state is published, and then
/// everything that was listed is deleted.
pub open spec fn destroyed(
    before: StateModel,
    after: StateModel,
    earlier: Seq<Event>,
    later: Seq<Event>,
    header: ActiveHeader,
    attachment: LocalAttachment<'_>,
    accepted: Set<Seq<u8>>,
    done: Result<(), StoreError>,
) -> bool {
    ||| done is Err && after == before && retention::looked(earlier, later) && (
    opening::unopened(done->Err_0, earlier, later) || destroy_replay(
        later,
        earlier.len() as int,
        before,
        header,
        attachment,
        accepted,
    ) == Replay::Done(Err::<Set<ObjectKey>, StoreError>(done->Err_0), later.len() as int))
    ||| exists|mid: Seq<Event>, inventory: Set<ObjectKey>|
        {
            &&& #[trigger] may_destroy(
                before,
                earlier,
                mid,
                header,
                attachment,
                accepted,
                inventory,
            )
            &&& erased(before, after, mid, later, inventory, done)
        }
}

/// The checks before a destruction gave this.
pub open spec fn may_destroy(
    state: StateModel,
    earlier: Seq<Event>,
    later: Seq<Event>,
    header: ActiveHeader,
    attachment: LocalAttachment<'_>,
    accepted: Set<Seq<u8>>,
    inventory: Set<ObjectKey>,
) -> bool {
    &&& retention::looked(earlier, later)
    &&& destroy_replay(later, earlier.len() as int, state, header, attachment, accepted)
        == Replay::Done(Ok::<Set<ObjectKey>, StoreError>(inventory), later.len() as int)
}

/// Everything is deleted, after a publication that succeeded.
pub open spec fn erased(
    before: StateModel,
    after: StateModel,
    earlier: Seq<Event>,
    later: Seq<Event>,
    inventory: Set<ObjectKey>,
    done: Result<(), StoreError>,
) -> bool {
    ||| done is Err && state::publish_outcome(cleared(before), after, earlier, later, done)
    ||| exists|mid: Seq<Event>, report: Result<GcReport, StoreError>|
        {
            &&& #[trigger] wiped(mid, later, inventory, report)
            &&& state::publish_outcome(cleared(before), after, earlier, mid, Ok(()))
            &&& done == retention::outcome(report)
        }
}

pub open spec fn wiped(
    earlier: Seq<Event>,
    later: Seq<Event>,
    inventory: Set<ObjectKey>,
    report: Result<GcReport, StoreError>,
) -> bool {
    &&& adapter::extends(earlier, later)
    &&& deletions_replay(
        later,
        earlier.len() as int,
        everything(inventory),
        0,
        Set::empty(),
        GcReport::zero(),
    ) == Replay::Done(report, later.len() as int)
}

fn check_destroy(state: &State) -> (done: Result<(), StoreError>)
    ensures
        done == destroy_check(state@),
{
    let names = retention::root_names(state);
    match names {
        Err(error) => Err(error),
        Ok(names) => {
            if names.len() > 0 || state.heads.entries().len() > 1 {
                return Err(StoreError::Busy);
            }
            Ok(())
        },
    }
}

fn push_last(header: Option<ActiveHeader>, roots: &mut Vec<Root>)
    ensures
        final(roots)@ == old(roots)@ + last_root(header),
{
    match header {
        None => {
            assert(roots@ =~= old(roots)@ + last_root(header));
        },
        Some(found) => {
            roots.push(Root::Described { header: found, active: false, named: false });
            assert(roots@ =~= old(roots)@ + last_root(header));
        },
    }
}

fn list_last(state: &State, header: &ActiveHeader) -> (roots: Vec<Root>)
    ensures
        roots@ == last_roots(state@, *header),
{
    let mut roots: Vec<Root> = Vec::new();
    if all_zero(header.parent_physical_digest.as_slice()) {
        assert(header.parent_physical_digest@ =~= crate::bytes::zeros(32));
    } else {
        roots.push(Root::Described { header: *header, active: true, named: false });
    }
    push_last(state.sealed, &mut roots);
    push_last(state.pending, &mut roots);
    assert(roots@ =~= last_roots(state@, *header));
    roots
}

fn prepare_destroy<B: StorageBackend>(
    backend: &mut B,
    state: &State,
    header: &ActiveHeader,
    attachment: &LocalAttachment<'_>,
    accepted: &OrderedSet<Vec<u8>>,
) -> (listed: Result<OrderedSet<ObjectKey>, StoreError>)
    ensures
        final(backend).namespace() == old(backend).namespace(),
        adapter::extends(old(backend).history(), final(backend).history()),
        adapter::quiet(old(backend).history(), final(backend).history()),
        match listed {
            Ok(l) => destroy_replay(
                final(backend).history(),
                old(backend).history().len() as int,
                state@,
                *header,
                *attachment,
                accepted@,
            ) == Replay::Done(
                Ok::<Set<ObjectKey>, StoreError>(l@),
                final(backend).history().len() as int,
            ),
            Err(e) => opening::unopened(e, old(backend).history(), final(backend).history()) || destroy_replay(
                final(backend).history(),
                old(backend).history().len() as int,
                state@,
                *header,
                *attachment,
                accepted@,
            ) == Replay::Done(
                Err::<Set<ObjectKey>, StoreError>(e),
                final(backend).history().len() as int,
            ),
        },
{
    match check_destroy(state) {
        Err(error) => {
            return Err(error);
        },
        Ok(_) => {},
    }
    let ghost h0 = backend.history();
    if state.database.is_none() {
        return inventory(backend);
    }
    match validate_attachment(state, header, attachment) {
        Err(error) => {
            return Err(error);
        },
        Ok(_) => {},
    }
    let roots: Vec<Root> = list_last(state, header);
    let _trace: Trace = match Trace::follow_all(backend, state, accepted, &roots) {
        Ok(trace) => trace,
        Err(error) => {
            return Err(error);
        },
    };
    let ghost h1 = backend.history();
    let listed: Result<OrderedSet<ObjectKey>, StoreError> = inventory(backend);
    proof {
        trace::lemma_trace_settled(
            h1,
            backend.history(),
            h0.len() as int,
            state@,
            accepted@,
            roots@,
            0,
            TraceModel::start(),
        );
    }
    listed
}

fn list_everything(listed: &OrderedSet<ObjectKey>) -> (list: Vec<(ObjectKey, u64)>)
    ensures
        list@ == everything(listed@),
{
    let count: usize = listed.len();
    let ghost walk = listed.walk();
    let mut list: Vec<(ObjectKey, u64)> = Vec::new();
    let mut i: usize = 0;
    while i < count
        invariant
            i <= count,
            count == walk.len(),
            walk == listed.walk(),
            list@.len() == i,
            forall|j: int| 0 <= j < i ==> #[trigger] list@[j] == (walk[j], 0u64),
        decreases count - i,
    {
        list.push((*listed.at(i), 0));
        i += 1;
    }
    assert(list@ =~= everything(listed@));
    list
}

/// Destroys a namespace, once nothing retains it: the cleared state is published,
/// and then everything is deleted.
pub fn destroy<B: StorageBackend>(
    backend: &mut B,
    state: &mut State,
    header: &ActiveHeader,
    attachment: &LocalAttachment<'_>,
    accepted: &OrderedSet<Vec<u8>>,
) -> (done: Result<(), StoreError>)
    ensures
        final(backend).namespace() == old(backend).namespace(),
        adapter::extends(old(backend).history(), final(backend).history()),
        destroyed(
            old(state)@,
            final(state)@,
            old(backend).history(),
            final(backend).history(),
            *header,
            *attachment,
            accepted@,
            done,
        ),
{
    let ghost before = state@;
    let ghost h0 = backend.history();
    let listed: OrderedSet<ObjectKey> = match prepare_destroy(
        backend,
        state,
        header,
        attachment,
        accepted,
    ) {
        Ok(listed) => listed,
        Err(error) => {
            return Err(error);
        },
    };
    let ghost h1 = backend.history();
    assert(may_destroy(before, h0, h1, *header, *attachment, accepted@, listed@));
    let list: Vec<(ObjectKey, u64)> = list_everything(&listed);
    let none: Vec<u8> = Vec::new();
    assert(none@ =~= Seq::<u8>::empty());
    let mut fresh: State = State::fresh(none.as_slice());
    fresh.revision = match &state.revision {
        Some(revision) => Some(revision.duplicate()),
        None => None,
    };
    assert(fresh@ =~= cleared(before));
    *state = fresh;
    let published: Result<(), StoreError> = state.publish(backend);
    let ghost h2 = backend.history();
    match published {
        Err(error) => {
            assert(erased(before, state@, h1, h2, listed@, Err(error)));
            return Err(error);
        },
        Ok(unit) => {
            assert(unit == ());
        },
    }
    let live: OrderedSet<ObjectKey> = OrderedSet::new();
    assert(live@ =~= Set::<ObjectKey>::empty());
    let report: Result<GcReport, StoreError> = sweep(backend, &list, &live, GcReport::new());
    assert(wiped(h2, backend.history(), listed@, report));
    assert(erased(before, state@, h1, backend.history(), listed@, retention::outcome(report)));
    match report {
        Ok(_) => Ok(()),
        Err(error) => Err(error),
    }
}

/// A collection reports what it deleted: as many objects as it made calls, each of which
/// succeeded, and the bytes of those. Nothing else of the report changes.
pub proof fn law_deletions_are_reported(
    history: Seq<Event>,
    at: int,
    deletable: Seq<(ObjectKey, u64)>,
    i: int,
    live: Set<ObjectKey>,
    report: GcReport,
    after: GcReport,
    next: int,
)
    requires
        0 <= i <= deletable.len(),
        0 <= at,
        deletions_replay(history, at, deletable, i, live, report) == Replay::Done(
            Ok::<GcReport, StoreError>(after),
            next,
        ),
        report.deleted_objects + (deletable.len() - i) <= usize::MAX,
    ensures
        at <= next,
        after.deleted_objects - report.deleted_objects == next - at,
        after.deleted_bytes >= report.deleted_bytes,
        after == (GcReport {
            deleted_objects: after.deleted_objects,
            deleted_bytes: after.deleted_bytes,
            ..report
        }),
        forall|p: int|
            at <= p < next ==> (#[trigger] history[p] matches Event::Delete { key, reply } && reply is Ok
                && !live.contains(key)),
        forall|k: int|
            i <= k < deletable.len() && !live.contains((#[trigger] deletable[k]).0) ==> exists|p: int|
                at <= p < next && (#[trigger] history[p] matches Event::Delete { key, reply } && key
                    == deletable[k].0),
    decreases deletable.len() - i,
{
    if i < deletable.len() {
        if live.contains(deletable[i].0) {
            law_deletions_are_reported(
                history,
                at,
                deletable,
                i + 1,
                live,
                report,
                after,
                next,
            );
        } else {
            let more = GcReport {
                deleted_objects: (report.deleted_objects + 1) as usize,
                deleted_bytes: report::sum(report.deleted_bytes, deletable[i].1),
                ..report
            };
            law_deletions_are_reported(
                history,
                at + 1,
                deletable,
                i + 1,
                live,
                more,
                after,
                next,
            );
            assert(history[at] is Delete);
        }
    }
}

/// The bytes that a collection reports as deleted are those of the objects that were to
/// be deleted and did not have to stay after all.
pub proof fn law_deleted_bytes(
    history: Seq<Event>,
    at: int,
    deletable: Seq<(ObjectKey, u64)>,
    i: int,
    live: Set<ObjectKey>,
    report: GcReport,
    after: GcReport,
    next: int,
)
    requires
        0 <= i <= deletable.len(),
        0 <= at,
        deletions_replay(history, at, deletable, i, live, report) == Replay::Done(
            Ok::<GcReport, StoreError>(after),
            next,
        ),
    ensures
        0 <= spared_none(deletable, i, live),
        report.deleted_bytes + spared_none(deletable, i, live) <= u64::MAX ==> after.deleted_bytes
            == report.deleted_bytes + spared_none(deletable, i, live),
    decreases deletable.len() - i,
{
    if i < deletable.len() {
        if live.contains(deletable[i].0) {
            law_deleted_bytes(history, at, deletable, i + 1, live, report, after, next);
        } else {
            let more = GcReport {
                deleted_objects: (report.deleted_objects + 1) as usize,
                deleted_bytes: report::sum(report.deleted_bytes, deletable[i].1),
                ..report
            };
            law_deleted_bytes(history, at + 1, deletable, i + 1, live, more, after, next);
        }
    }
}

/// The bytes of the objects from place `i` of a list on that do not have to stay.
pub open spec fn spared_none(deletable: Seq<(ObjectKey, u64)>, i: int, live: Set<ObjectKey>) -> int
    decreases deletable.len() - i,
{
    if i >= deletable.len() {
        0
    } else {
        spared_none(deletable, i + 1, live) + if live.contains(deletable[i].0) {
            0
        } else {
            deletable[i].1 as int
        }
    }
}

/// A pack keeps the places, in their order, that do not stand in blobs to be deleted,
/// and loses the others.
pub proof fn law_places_that_remain(
    list: Seq<Representation>,
    deleting: Set<ObjectKey>,
    count: int,
)
    requires
        0 <= count <= list.len(),
    ensures
        remaining(list, deleting, count) == list.take(count).filter(
            |place: Representation| !deleting.contains(ObjectKey::Blob(place.extent.blob)),
        ),
    decreases count,
{
    let pick = |place: Representation| !deleting.contains(ObjectKey::Blob(place.extent.blob));
    reveal_with_fuel(Seq::filter, 1);
    if count > 0 {
        law_places_that_remain(list, deleting, count - 1);
        assert(list.take(count).drop_last() =~= list.take(count - 1));
    } else {
        assert(list.take(count) =~= Seq::<Representation>::empty());
        assert(remaining(list, deleting, count) =~= Seq::<Representation>::empty());
    }
}

/// The catalog lets go of the endpoints of the manifests that are to be deleted, and of
/// no others.
pub proof fn law_endpoints_that_remain(
    index: IndexModel,
    deletable: Seq<(ObjectKey, u64)>,
    count: int,
    name: Seq<u8>,
)
    requires
        0 <= count <= deletable.len(),
    ensures
        ({
            let after = retired_endpoints(index, deletable, count).entries;
            let gone = exists|i: int|
                0 <= i < count && ((#[trigger] deletable[i]).0 matches ObjectKey::Manifest(id)
                    && id.bytes@ == name);
            &&& after.dom().contains(name) <==> index.entries.dom().contains(name) && !gone
            &&& after.dom().contains(name) ==> after[name] == index.entries[name]
        }),
    decreases count,
{
    if count > 0 {
        law_endpoints_that_remain(index, deletable, count - 1, name);
        let last = deletable[count - 1];
    }
}

/// A report counts every object that is listed, and estimates as partly obsolete what
/// the current view no longer reads and what unreachable packs have in blobs that stay.
pub proof fn law_report_starts_with(survey: SurveyModel, state: StateModel)
    requires
        survey.inventory.finite(),
        survey.inventory.len() <= usize::MAX,
    ensures
        survey.start(state).objects == survey.inventory.len(),
        survey.start(state).dead_extent_bytes + survey.obsolete <= u64::MAX ==> survey.start(
            state,
        ).partially_obsolete_bytes == survey.start(state).dead_extent_bytes + survey.obsolete,
        survey.start(state).deleted_objects == 0,
        survey.start(state).deleted_bytes == 0,
{
    order::lemma_rolled::<ObjectKey>(survey.inventory);
    order::roll::<ObjectKey>(survey.inventory).unique_seq_to_set();
}

/// A namespace is destroyed only where nothing is retained and there is no second head.
pub proof fn law_destruction_spares_owners(state: StateModel, name: Seq<u8>, other: Seq<u8>)
    requires
        destroy_check(state) is Ok,
        state.retentions.entries.dom().finite(),
        state.heads.entries.dom().finite(),
    ensures
        !state.retentions.entries.dom().contains(name),
        state.heads.entries.dom().contains(name) && state.heads.entries.dom().contains(other) ==> name
            == other,
{
    let pins = order::listing::<Vec<u8>, Seq<u8>>(state.retentions.entries);
    let heads = order::listing::<Vec<u8>, Seq<u8>>(state.heads.entries);
    order::lemma_lists::<Vec<u8>, Seq<u8>>(state.retentions.entries);
    order::lemma_lists::<Vec<u8>, Seq<u8>>(state.heads.entries);
    order::lemma_walk::<Vec<u8>, Seq<u8>>(pins, state.retentions.entries);
    order::lemma_walk::<Vec<u8>, Seq<u8>>(heads, state.heads.entries);
}

} // verus!
