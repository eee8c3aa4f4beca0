//! A survey of what a backend holds: what is live, what may go, and what must be
//! intact before anything goes.

use crate::adapter;
use crate::adapter::{BackendError, Event, ObjectKey, StorageBackend};
use crate::bytes::same_bytes;
use crate::digest;
use crate::digest::hash;
use crate::domain::{DictionaryId, Id, IndexId, ManifestId, PackId};
use crate::error::StoreError;
use crate::fetch;
use crate::fetch::{Replay, read_all, stat};
use crate::frame;
use crate::index::INDEX_LIMIT;
use crate::keys;
use crate::keys::CatalogKey;
use crate::order;
use crate::order::{OrderedMap, OrderedSet};
use crate::pin;
use crate::pin::read_placement;
use crate::pinned;
use crate::pinned::read_dictionary;
use crate::placement;
use crate::placement::{BlobExtent, Placements, PlacementsModel, Representation};
use crate::resolve;
use crate::resolve::read_manifest;
use crate::segment::SEGMENT_LIMIT;
use crate::state::{State, StateModel};
use crate::trace::{Lease, Trace, TraceModel, absorb};
use vstd::prelude::*;

verus! {

/// The blobs that some representations stand in.
pub open spec fn blobs_of(list: Seq<Representation>) -> Set<ObjectKey> {
    Set::new(
        |key: ObjectKey|
            key matches ObjectKey::Blob(blob) && exists|i: int|
                0 <= i < list.len() && (#[trigger] list[i]).extent.blob == blob,
    )
}

/// The object that keeps a logical one: a pack is read from its preferred place.
pub open spec fn keeper(state: StateModel, key: CatalogKey) -> Option<ObjectKey> {
    match key {
        CatalogKey::Manifest(id) => Some(ObjectKey::Manifest(id)),
        CatalogKey::Dictionary(id) => Some(ObjectKey::Dictionary(id)),
        CatalogKey::Pack(pack) => match pin::entry_placement(state.placements.entries, pack) {
            Ok(placement) => Some(ObjectKey::Blob(placement.representations[0].extent.blob)),
            Err(_) => None,
        },
        CatalogKey::Staging(_) => None,
    }
}

/// Every place of a logical object's pack.
pub open spec fn places(state: StateModel, key: CatalogKey) -> Set<ObjectKey> {
    match key {
        CatalogKey::Pack(pack) => match pin::entry_placement(state.placements.entries, pack) {
            Ok(placement) => blobs_of(placement.representations),
            Err(_) => Set::empty(),
        },
        _ => Set::empty(),
    }
}

/// What keeps some logical objects.
pub open spec fn keepers(state: StateModel, keys: Set<CatalogKey>) -> Set<ObjectKey> {
    Set::new(|object: ObjectKey| exists|key: CatalogKey| #[trigger]
        keys.contains(key) && keeper(state, key) == Some(object))
}

/// Every place of the packs among some logical objects.
pub open spec fn all_places(state: StateModel, keys: Set<CatalogKey>) -> Set<ObjectKey> {
    Set::new(|object: ObjectKey| exists|key: CatalogKey| #[trigger]
        keys.contains(key) && places(state, key).contains(object))
}

/// The objects that must stay.
#[verifier::ext_equal]
pub struct HeldModel {
    pub all: Set<ObjectKey>,
    pub current: Set<ObjectKey>,
    pub named: Set<ObjectKey>,
    pub leased: Set<ObjectKey>,
}

/// The objects that must stay: the layers of the indexes, what readers hold, and
/// what keeps the logical objects that were reached. While a seal is under way
/// every place of a live pack stays.
pub open spec fn held_by(
    state: StateModel,
    trace: TraceModel,
    leased: Set<ObjectKey>,
    sealing: bool,
) -> HeldModel {
    let kept = state.index_objects().union(leased).union(keepers(state, trace.live));
    HeldModel {
        all: if sealing {
            kept.union(all_places(state, trace.live))
        } else {
            kept
        },
        current: keepers(state, trace.live.intersect(trace.current)),
        named: keepers(state, trace.live.intersect(trace.named)),
        leased,
    }
}

/// Something that must hold of an object before anything is deleted.
#[derive(Clone, Copy, Debug, PartialEq, Eq)]
pub enum Check {
    /// The segment is there, under its name.
    Segment(ManifestId),
    /// The dictionary is there, under its name.
    Dictionary(DictionaryId),
    /// The object is there.
    Present(ObjectKey),
    /// The object is there and has this length.
    Preferred(ObjectKey, u64),
    /// As `Preferred`; an object that is missing counts as damaged.
    Placed(ObjectKey, u64),
    /// The layer is there, under its name.
    Layer(IndexId),
}

/// What asking for a length came to, where lengths that are known are not asked
/// for again.
pub open spec fn length_replay(
    history: Seq<Event>,
    at: int,
    known: Map<ObjectKey, u64>,
    key: ObjectKey,
) -> Replay<Option<u64>> {
    if known.dom().contains(key) {
        Replay::Done(Ok(Some(known[key])), at)
    } else {
        match fetch::stat_replay(history, at, key) {
            Replay::Astray => Replay::Astray,
            Replay::Done(Err(error), next) => Replay::Done(Err(error), next),
            Replay::Done(Ok(None), next) => Replay::Done(Ok(None), next),
            Replay::Done(Ok(Some(length)), next) => Replay::Done(Ok(Some(length.value)), next),
        }
    }
}

/// What a length says of a check.
pub open spec fn length_check(check: Check, length: Option<u64>) -> Result<(), StoreError> {
    match check {
        Check::Present(key) => match length {
            None => Err(StoreError::Backend(BackendError::Missing(key))),
            Some(_) => Ok(()),
        },
        Check::Preferred(key, expected) => match length {
            None => Err(StoreError::Backend(BackendError::Missing(key))),
            Some(length) => if length == expected {
                Ok(())
            } else {
                Err(StoreError::Corrupt(0))
            },
        },
        Check::Placed(_, expected) => match length {
            None => Err(StoreError::Corrupt(0)),
            Some(length) => if length == expected {
                Ok(())
            } else {
                Err(StoreError::Corrupt(0))
            },
        },
        _ => Ok(()),
    }
}

/// The object whose length a check asks for.
pub open spec fn measured(check: Check) -> Option<ObjectKey> {
    match check {
        Check::Present(key) => Some(key),
        Check::Preferred(key, _) => Some(key),
        Check::Placed(key, _) => Some(key),
        _ => None,
    }
}

/// What a check came to: the lengths that are known after it.
pub open spec fn check_replay(
    history: Seq<Event>,
    at: int,
    known: Map<ObjectKey, u64>,
    check: Check,
) -> Replay<Map<ObjectKey, u64>> {
    match check {
        Check::Segment(id) => match resolve::segment_replay(history, at, id, SEGMENT_LIMIT as u64) {
            Replay::Astray => Replay::Astray,
            Replay::Done(Err(error), next) => Replay::Done(Err(error), next),
            Replay::Done(Ok(_), next) => Replay::Done(Ok(known), next),
        },
        Check::Dictionary(id) => match pinned::dictionary_replay(history, at, id) {
            Replay::Astray => Replay::Astray,
            Replay::Done(Err(error), next) => Replay::Done(Err(error), next),
            Replay::Done(Ok(_), next) => Replay::Done(Ok(known), next),
        },
        Check::Layer(id) => match fetch::object_replay(
            history,
            at,
            ObjectKey::Index(id),
            INDEX_LIMIT as u64,
        ) {
            Replay::Astray => Replay::Astray,
            Replay::Done(Err(error), next) => Replay::Done(Err(error), next),
            Replay::Done(Ok(bytes), next) => if digest::content_hash(bytes) == id.bytes@ {
                Replay::Done(Ok(known), next)
            } else {
                Replay::Done(Err(StoreError::Corrupt(0)), next)
            },
        },
        _ => {
            let key = measured(check)->Some_0;
            match length_replay(history, at, known, key) {
                Replay::Astray => Replay::Astray,
                Replay::Done(Err(error), next) => Replay::Done(Err(error), next),
                Replay::Done(Ok(length), next) => match length_check(check, length) {
                    Err(error) => Replay::Done(Err(error), next),
                    Ok(_) => Replay::Done(Ok(known.insert(key, length->Some_0)), next),
                },
            }
        },
    }
}

proof fn lemma_check_settled(
    before: Seq<Event>,
    after: Seq<Event>,
    at: int,
    known: Map<ObjectKey, u64>,
    check: Check,
)
    requires
        adapter::extends(before, after),
        check_replay(before, at, known, check) is Done,
    ensures
        check_replay(after, at, known, check) == check_replay(before, at, known, check),
{
    match check {
        Check::Segment(id) => {
            fetch::lemma_object_settled(
                before,
                after,
                at,
                ObjectKey::Manifest(id),
                SEGMENT_LIMIT as u64,
            );
        },
        Check::Dictionary(id) => {
            fetch::lemma_object_settled(
                before,
                after,
                at,
                ObjectKey::Dictionary(id),
                pinned::MAX_DICTIONARY_BYTES,
            );
        },
        Check::Layer(id) => {
            fetch::lemma_object_settled(
                before,
                after,
                at,
                ObjectKey::Index(id),
                INDEX_LIMIT as u64,
            );
        },
        _ => {},
    }
}

/// Makes a check. Lengths that are known are not asked for again.
fn make_check<B: StorageBackend>(
    backend: &mut B,
    known: &mut OrderedMap<ObjectKey, u64>,
    check: &Check,
) -> (done: Result<(), StoreError>)
    ensures
        final(backend).namespace() == old(backend).namespace(),
        adapter::extends(old(backend).history(), final(backend).history()),
        adapter::quiet(old(backend).history(), final(backend).history()),
        match done {
            Ok(_) => check_replay(
                final(backend).history(),
                old(backend).history().len() as int,
                old(known)@,
                *check,
            ) == Replay::Done(
                Ok::<Map<ObjectKey, u64>, StoreError>(final(known)@),
                final(backend).history().len() as int,
            ),
            Err(e) => check_replay(
                final(backend).history(),
                old(backend).history().len() as int,
                old(known)@,
                *check,
            ) == Replay::Done(
                Err::<Map<ObjectKey, u64>, StoreError>(e),
                final(backend).history().len() as int,
            ),
        },
{
    match check {
        Check::Segment(id) => match read_manifest(backend, *id, SEGMENT_LIMIT as u64) {
            Ok(_) => Ok(()),
            Err(error) => Err(error),
        },
        Check::Dictionary(id) => match read_dictionary(backend, *id) {
            Ok(_) => Ok(()),
            Err(error) => Err(error),
        },
        Check::Layer(id) => match read_all(backend, ObjectKey::Index(*id), INDEX_LIMIT as u64) {
            Err(error) => Err(error),
            Ok(bytes) => {
                let sum: [u8; 32] = hash(bytes.as_slice());
                if same_bytes(sum.as_slice(), id.bytes.as_slice()) {
                    Ok(())
                } else {
                    Err(StoreError::Corrupt(0))
                }
            },
        },
        Check::Present(key) => {
            let length: Option<u64> = measure(backend, known, *key)?;
            match length {
                None => Err(StoreError::Backend(BackendError::Missing(*key))),
                Some(length) => {
                    known.insert(*key, length);
                    Ok(())
                },
            }
        },
        Check::Preferred(key, expected) => {
            let length: Option<u64> = measure(backend, known, *key)?;
            match length {
                None => Err(StoreError::Backend(BackendError::Missing(*key))),
                Some(length) => {
                    if length != *expected {
                        return Err(StoreError::Corrupt(0));
                    }
                    known.insert(*key, length);
                    Ok(())
                },
            }
        },
        Check::Placed(key, expected) => {
            let length: Option<u64> = measure(backend, known, *key)?;
            match length {
                None => Err(StoreError::Corrupt(0)),
                Some(length) => {
                    if length != *expected {
                        return Err(StoreError::Corrupt(0));
                    }
                    known.insert(*key, length);
                    Ok(())
                },
            }
        },
    }
}

/// The length of an object, asked for where it is not known.
fn measure<B: StorageBackend>(
    backend: &mut B,
    known: &OrderedMap<ObjectKey, u64>,
    key: ObjectKey,
) -> (length: Result<Option<u64>, StoreError>)
    ensures
        final(backend).namespace() == old(backend).namespace(),
        adapter::extends(old(backend).history(), final(backend).history()),
        adapter::quiet(old(backend).history(), final(backend).history()),
        length_replay(
            final(backend).history(),
            old(backend).history().len() as int,
            known@,
            key,
        ) == Replay::Done(length, final(backend).history().len() as int),
{
    match known.get(&key) {
        Some(length) => Ok(Some(*length)),
        None => match stat(backend, key) {
            Err(error) => Err(error),
            Ok(None) => Ok(None),
            Ok(Some(length)) => Ok(Some(length.value)),
        },
    }
}

/// What some checks, from place `i` on, came to.
pub open spec fn checks_replay(
    history: Seq<Event>,
    at: int,
    checks: Seq<Check>,
    i: int,
    known: Map<ObjectKey, u64>,
) -> Replay<Map<ObjectKey, u64>>
    decreases checks.len() - i,
{
    if i < 0 || i >= checks.len() {
        Replay::Done(Ok(known), at)
    } else {
        match check_replay(history, at, known, checks[i]) {
            Replay::Astray => Replay::Astray,
            Replay::Done(Err(error), next) => Replay::Done(Err(error), next),
            Replay::Done(Ok(known), next) => checks_replay(history, next, checks, i + 1, known),
        }
    }
}

pub proof fn lemma_checks_settled(
    before: Seq<Event>,
    after: Seq<Event>,
    at: int,
    checks: Seq<Check>,
    i: int,
    known: Map<ObjectKey, u64>,
)
    requires
        adapter::extends(before, after),
        checks_replay(before, at, checks, i, known) is Done,
    ensures
        checks_replay(after, at, checks, i, known) == checks_replay(before, at, checks, i, known),
    decreases checks.len() - i,
{
    if 0 <= i < checks.len() {
        lemma_check_settled(before, after, at, known, checks[i]);
        match check_replay(before, at, known, checks[i]) {
            Replay::Done(Ok(known), next) => lemma_checks_settled(
                before,
                after,
                next,
                checks,
                i + 1,
                known,
            ),
            _ => {},
        }
    }
}

/// Makes some checks: the lengths that are known after them.
pub fn make_checks<B: StorageBackend>(backend: &mut B, checks: &Vec<Check>) -> (known: Result<
    OrderedMap<ObjectKey, u64>,
    StoreError,
>)
    ensures
        final(backend).namespace() == old(backend).namespace(),
        adapter::extends(old(backend).history(), final(backend).history()),
        adapter::quiet(old(backend).history(), final(backend).history()),
        match known {
            Ok(k) => checks_replay(
                final(backend).history(),
                old(backend).history().len() as int,
                checks@,
                0,
                Map::empty(),
            ) == Replay::Done(
                Ok::<Map<ObjectKey, u64>, StoreError>(k@),
                final(backend).history().len() as int,
            ),
            Err(e) => checks_replay(
                final(backend).history(),
                old(backend).history().len() as int,
                checks@,
                0,
                Map::empty(),
            ) == Replay::Done(
                Err::<Map<ObjectKey, u64>, StoreError>(e),
                final(backend).history().len() as int,
            ),
        },
{
    let ghost start = backend.history().len() as int;
    let ghost list = checks@;
    let mut known: OrderedMap<ObjectKey, u64> = OrderedMap::new();
    let mut i: usize = 0;
    while i < checks.len()
        invariant
            i <= checks@.len(),
            list == checks@,
            start == old(backend).history().len(),
            backend.namespace() == old(backend).namespace(),
            adapter::extends(old(backend).history(), backend.history()),
            adapter::quiet(old(backend).history(), backend.history()),
            forall|later: Seq<Event>|
                #![trigger checks_replay(later, start, list, 0, Map::empty())]
                adapter::extends(backend.history(), later) ==> checks_replay(
                    later,
                    start,
                    list,
                    0,
                    Map::empty(),
                ) == checks_replay(
                    later,
                    backend.history().len() as int,
                    list,
                    i as int,
                    known@,
                ),
        decreases checks.len() - i,
    {
        let ghost past = backend.history();
        let ghost before = known@;
        let check: Check = checks[i];
        let done: Result<(), StoreError> = make_check(backend, &mut known, &check);
        proof {
            let h = backend.history();
            assert(list[i as int] == check);
            assert(checks_replay(h, start, list, 0, Map::empty()) == checks_replay(
                h,
                past.len() as int,
                list,
                i as int,
                before,
            ));
        }
        match done {
            Err(error) => {
                return Err(error);
            },
            Ok(_) => {},
        }
        proof {
            assert forall|later: Seq<Event>|
                #![trigger checks_replay(later, start, list, 0, Map::empty())]
                adapter::extends(backend.history(), later) implies checks_replay(
                later,
                start,
                list,
                0,
                Map::empty(),
            ) == checks_replay(
                later,
                backend.history().len() as int,
                list,
                i as int + 1,
                known@,
            ) by {
                assert(adapter::extends(past, later));
                lemma_check_settled(backend.history(), later, past.len() as int, before, check);
                assert(checks_replay(later, start, list, 0, Map::empty()) == checks_replay(
                    later,
                    past.len() as int,
                    list,
                    i as int,
                    before,
                ));
            }
        }
        i += 1;
    }
    proof {
        let h = backend.history();
        assert(checks_replay(h, start, list, 0, Map::empty()) == checks_replay(
            h,
            h.len() as int,
            list,
            i as int,
            known@,
        ));
    }
    Ok(known)
}

/// Some checks, and what stops the planning of more.
pub type Planned = (Seq<Check>, Option<StoreError>);

/// Some checks, and then others, unless the first are stopped.
pub open spec fn and_check(first: Planned, second: Planned) -> Planned {
    if first.1 is Some {
        first
    } else {
        (first.0 + second.0, second.1)
    }
}

/// The check of a logical object.
pub open spec fn live_check(state: StateModel, key: CatalogKey) -> Result<Check, StoreError> {
    match key {
        CatalogKey::Manifest(id) => Ok(Check::Segment(id)),
        CatalogKey::Dictionary(id) => Ok(Check::Dictionary(id)),
        CatalogKey::Pack(pack) => match pin::entry_placement(state.placements.entries, pack) {
            Err(error) => Err(error),
            Ok(placement) => {
                let extent = placement.representations[0].extent;
                Ok(Check::Preferred(ObjectKey::Blob(extent.blob), extent.blob_length.value))
            },
        },
        CatalogKey::Staging(_) => Err(StoreError::Corrupt(0)),
    }
}

/// The checks of the first `count` logical objects.
pub open spec fn live_checks(state: StateModel, walk: Seq<CatalogKey>, count: int) -> Planned
    decreases count,
{
    if count <= 0 {
        (Seq::empty(), None)
    } else {
        let prior = live_checks(state, walk, count - 1);
        if prior.1 is Some {
            prior
        } else {
            match live_check(state, walk[count - 1]) {
                Err(error) => (prior.0, Some(error)),
                Ok(check) => (prior.0.push(check), None),
            }
        }
    }
}

/// The checks of an object that must stay.
pub open spec fn held_check(leased: Set<ObjectKey>, key: ObjectKey) -> Seq<Check> {
    match key {
        ObjectKey::Index(id) if leased.contains(key) => seq![Check::Present(key), Check::Layer(id)],
        _ => seq![Check::Present(key)],
    }
}

/// The checks of the first `count` objects that must stay. Each must be listed.
pub open spec fn held_checks(
    inventory: Set<ObjectKey>,
    leased: Set<ObjectKey>,
    walk: Seq<ObjectKey>,
    count: int,
) -> Planned
    decreases count,
{
    if count <= 0 {
        (Seq::empty(), None)
    } else {
        let prior = held_checks(inventory, leased, walk, count - 1);
        let key = walk[count - 1];
        if prior.1 is Some {
            prior
        } else if !inventory.contains(key) {
            (prior.0, Some(StoreError::Backend(BackendError::Missing(key))))
        } else {
            (prior.0 + held_check(leased, key), None)
        }
    }
}

/// The checks of the first `count` places of a pack that stand in objects that
/// must stay.
pub open spec fn place_checks(list: Seq<Representation>, all: Set<ObjectKey>, count: int) -> Seq<
    Check,
>
    decreases count,
{
    if count <= 0 {
        Seq::empty()
    } else {
        let extent = list[count - 1].extent;
        let prior = place_checks(list, all, count - 1);
        if all.contains(ObjectKey::Blob(extent.blob)) {
            prior.push(Check::Placed(ObjectKey::Blob(extent.blob), extent.blob_length.value))
        } else {
            prior
        }
    }
}

/// The placement that an entry of the catalog holds.
pub open spec fn entry_parse(entry: (Seq<u8>, Seq<u8>)) -> Result<PlacementsModel, StoreError> {
    if entry.0.len() != 32 {
        Err(StoreError::Corrupt(0))
    } else {
        placement::placements_parse(frame::id_of(entry.0), entry.1)
    }
}

/// The checks of the first `count` placements.
pub open spec fn placed_checks(
    list: Seq<(Seq<u8>, Seq<u8>)>,
    all: Set<ObjectKey>,
    count: int,
) -> Planned
    decreases count,
{
    if count <= 0 {
        (Seq::empty(), None)
    } else {
        let prior = placed_checks(list, all, count - 1);
        if prior.1 is Some {
            prior
        } else {
            match entry_parse(list[count - 1]) {
                Err(error) => (prior.0, Some(error)),
                Ok(placement) => (
                    prior.0 + place_checks(
                        placement.representations,
                        all,
                        placement.representations.len() as int,
                    ),
                    None,
                ),
            }
        }
    }
}

/// Every object that is listed must be there.
pub open spec fn listed_checks(walk: Seq<ObjectKey>) -> Seq<Check> {
    Seq::new(walk.len(), |i: int| Check::Present(walk[i]))
}

/// Everything that must hold before anything is deleted.
pub open spec fn planned_checks(
    state: StateModel,
    trace: TraceModel,
    held: HeldModel,
    inventory: Set<ObjectKey>,
) -> Planned {
    let live = order::roll::<CatalogKey>(trace.live);
    let kept = order::roll::<ObjectKey>(held.all);
    let entries = order::listing::<Vec<u8>, Seq<u8>>(state.placements.entries);
    and_check(
        live_checks(state, live, live.len() as int),
        and_check(
            held_checks(inventory, held.leased, kept, kept.len() as int),
            and_check(
                placed_checks(entries, held.all, entries.len() as int),
                (listed_checks(order::roll::<ObjectKey>(inventory)), None),
            ),
        ),
    )
}

/// The objects that must stay.
#[derive(Debug)]
pub struct Held {
    pub all: OrderedSet<ObjectKey>,
    pub current: OrderedSet<ObjectKey>,
    pub named: OrderedSet<ObjectKey>,
    pub leased: OrderedSet<ObjectKey>,
}

impl View for Held {
    type V = HeldModel;

    open spec fn view(&self) -> HeldModel {
        HeldModel {
            all: self.all@,
            current: self.current@,
            named: self.named@,
            leased: self.leased@,
        }
    }
}

/// The object that keeps a logical one.
fn find_keeper(state: &State, key: &CatalogKey) -> (object: Option<ObjectKey>)
    ensures
        object == keeper(state@, *key),
{
    match key {
        CatalogKey::Manifest(id) => Some(ObjectKey::Manifest(*id)),
        CatalogKey::Dictionary(id) => Some(ObjectKey::Dictionary(*id)),
        CatalogKey::Pack(pack) => match read_placement(state.placements.entries(), *pack) {
            Ok(placement) => Some(ObjectKey::Blob(placement.preferred().extent.blob)),
            Err(_) => None,
        },
        CatalogKey::Staging(_) => None,
    }
}

/// What keeps the logical objects of one set that are also in another.
fn find_keepers(state: &State, keys: &OrderedSet<CatalogKey>, among: &OrderedSet<CatalogKey>) -> (objects:
    OrderedSet<ObjectKey>)
    ensures
        objects@ == keepers(state@, keys@.intersect(among@)),
{
    let count: usize = keys.len();
    let ghost walk = keys.walk();
    let mut objects: OrderedSet<ObjectKey> = OrderedSet::new();
    let mut i: usize = 0;
    while i < count
        invariant
            i <= count,
            count == walk.len(),
            walk == keys.walk(),
            forall|object: ObjectKey| #[trigger]
                objects@.contains(object) <==> exists|j: int|
                    0 <= j < i && among@.contains(#[trigger] walk[j]) && keeper(state@, walk[j])
                        == Some(object),
        decreases count - i,
    {
        let key: CatalogKey = *keys.at(i);
        let ghost before = objects@;
        assert(walk[i as int] == key);
        if among.contains(&key) {
            match find_keeper(state, &key) {
                Some(object) => {
                    objects.insert(object);
                },
                None => {},
            }
        }
        i += 1;
    }
    assert(objects@ =~= keepers(state@, keys@.intersect(among@))) by {
        let both = keys@.intersect(among@);
        assert forall|object: ObjectKey|
            objects@.contains(object) == keepers(state@, both).contains(object) by {
            if objects@.contains(object) {
                let j = choose|j: int|
                    0 <= j < walk.len() && among@.contains(#[trigger] walk[j]) && keeper(
                        state@,
                        walk[j],
                    ) == Some(object);
                assert(walk.contains(walk[j]));
                assert(walk.to_set().contains(walk[j]));
                assert(both.contains(walk[j]));
            }
            if keepers(state@, both).contains(object) {
                let key = choose|key: CatalogKey| #[trigger]
                    both.contains(key) && keeper(state@, key) == Some(object);
                assert(walk.to_set().contains(key));
                let j = walk.index_of(key);
                assert(walk[j] == key);
            }
        }
    }
    objects
}

/// Every place of the packs among some logical objects.
fn find_places(state: &State, keys: &OrderedSet<CatalogKey>) -> (objects: OrderedSet<ObjectKey>)
    ensures
        objects@ == all_places(state@, keys@),
{
    let count: usize = keys.len();
    let ghost walk = keys.walk();
    let mut objects: OrderedSet<ObjectKey> = OrderedSet::new();
    let mut i: usize = 0;
    while i < count
        invariant
            i <= count,
            count == walk.len(),
            walk == keys.walk(),
            forall|object: ObjectKey| #[trigger]
                objects@.contains(object) <==> exists|j: int|
                    0 <= j < i && places(state@, #[trigger] walk[j]).contains(object),
        decreases count - i,
    {
        let key: CatalogKey = *keys.at(i);
        let ghost before = objects@;
        assert(walk[i as int] == key);
        if let CatalogKey::Pack(pack) = key {
            match read_placement(state.placements.entries(), pack) {
                Ok(placement) => {
                    let blobs: OrderedSet<ObjectKey> = find_blobs(&placement.representations);
                    absorb(&mut objects, &blobs);
                    assert(places(state@, key) == blobs@);
                },
                Err(_) => {},
            }
        }
        i += 1;
    }
    assert(objects@ =~= all_places(state@, keys@)) by {
        assert forall|object: ObjectKey|
            objects@.contains(object) == all_places(state@, keys@).contains(object) by {
            if objects@.contains(object) {
                let j = choose|j: int|
                    0 <= j < walk.len() && places(state@, #[trigger] walk[j]).contains(object);
                assert(walk.contains(walk[j]));
                assert(walk.to_set().contains(walk[j]));
                assert(keys@.contains(walk[j]));
            }
            if all_places(state@, keys@).contains(object) {
                let key = choose|key: CatalogKey| #[trigger]
                    keys@.contains(key) && places(state@, key).contains(object);
                assert(walk.to_set().contains(key));
                let j = walk.index_of(key);
                assert(walk[j] == key);
            }
        }
    }
    objects
}

fn find_blobs(list: &Vec<Representation>) -> (blobs: OrderedSet<ObjectKey>)
    ensures
        blobs@ == blobs_of(list@),
{
    let mut blobs: OrderedSet<ObjectKey> = OrderedSet::new();
    let mut i: usize = 0;
    while i < list.len()
        invariant
            i <= list@.len(),
            forall|key: ObjectKey| #[trigger]
                blobs@.contains(key) <==> (key matches ObjectKey::Blob(blob) && exists|j: int|
                    0 <= j < i && (#[trigger] list@[j]).extent.blob == blob),
        decreases list.len() - i,
    {
        blobs.insert(ObjectKey::Blob(list[i].extent.blob));
        assert(list@[i as int].extent.blob == list@[i as int].extent.blob);
        i += 1;
    }
    assert(blobs@ =~= blobs_of(list@));
    blobs
}

/// The objects that must stay.
pub fn find_held(state: &State, trace: &Trace, leased: OrderedSet<ObjectKey>, sealing: bool) -> (held: Held)
    ensures
        held@ == held_by(state@, trace@, leased@, sealing),
{
    let mut all: OrderedSet<ObjectKey> = state.index_objects();
    absorb(&mut all, &leased);
    let kept: OrderedSet<ObjectKey> = find_keepers(state, &trace.live, &trace.live);
    assert(trace.live@.intersect(trace.live@) =~= trace.live@);
    absorb(&mut all, &kept);
    if sealing {
        let more: OrderedSet<ObjectKey> = find_places(state, &trace.live);
        absorb(&mut all, &more);
    }
    let current: OrderedSet<ObjectKey> = find_keepers(state, &trace.live, &trace.current);
    let named: OrderedSet<ObjectKey> = find_keepers(state, &trace.live, &trace.named);
    Held { all, current, named, leased }
}

proof fn lemma_live_stop(state: StateModel, walk: Seq<CatalogKey>, i: int, count: int)
    requires
        0 <= i <= count,
        live_checks(state, walk, i).1 is Some,
    ensures
        live_checks(state, walk, count) == live_checks(state, walk, i),
    decreases count - i,
{
    if i < count {
        lemma_live_stop(state, walk, i, count - 1);
    }
}

proof fn lemma_held_stop(
    inventory: Set<ObjectKey>,
    leased: Set<ObjectKey>,
    walk: Seq<ObjectKey>,
    i: int,
    count: int,
)
    requires
        0 <= i <= count,
        held_checks(inventory, leased, walk, i).1 is Some,
    ensures
        held_checks(inventory, leased, walk, count) == held_checks(inventory, leased, walk, i),
    decreases count - i,
{
    if i < count {
        lemma_held_stop(inventory, leased, walk, i, count - 1);
    }
}

proof fn lemma_placed_stop(
    list: Seq<(Seq<u8>, Seq<u8>)>,
    all: Set<ObjectKey>,
    i: int,
    count: int,
)
    requires
        0 <= i <= count,
        placed_checks(list, all, i).1 is Some,
    ensures
        placed_checks(list, all, count) == placed_checks(list, all, i),
    decreases count - i,
{
    if i < count {
        lemma_placed_stop(list, all, i, count - 1);
    }
}

fn plan_live(state: &State, keys: &OrderedSet<CatalogKey>, checks: &mut Vec<Check>) -> (refusal: Option<
    StoreError,
>)
    ensures
        ({
            let found = live_checks(state@, keys.walk(), keys.walk().len() as int);
            final(checks)@ == old(checks)@ + found.0 && refusal == found.1
        }),
{
    let count: usize = keys.len();
    let ghost walk = keys.walk();
    let mut i: usize = 0;
    assert(checks@ =~= old(checks)@ + live_checks(state@, walk, 0).0);
    while i < count
        invariant
            i <= count,
            count == walk.len(),
            walk == keys.walk(),
            checks@ == old(checks)@ + live_checks(state@, walk, i as int).0,
            live_checks(state@, walk, i as int).1 is None,
        decreases count - i,
    {
        let key: CatalogKey = *keys.at(i);
        assert(walk[i as int] == key);
        let found: Result<Check, StoreError> = match key {
            CatalogKey::Manifest(id) => Ok(Check::Segment(id)),
            CatalogKey::Dictionary(id) => Ok(Check::Dictionary(id)),
            CatalogKey::Pack(pack) => match read_placement(state.placements.entries(), pack) {
                Err(error) => Err(error),
                Ok(placement) => {
                    let extent: BlobExtent = placement.preferred().extent;
                    Ok(Check::Preferred(ObjectKey::Blob(extent.blob), extent.blob_length.value))
                },
            },
            CatalogKey::Staging(_) => Err(StoreError::Corrupt(0)),
        };
        match found {
            Err(error) => {
                proof {
                    lemma_live_stop(state@, walk, i as int + 1, walk.len() as int);
                }
                return Some(error);
            },
            Ok(check) => {
                checks.push(check);
                assert(checks@ =~= old(checks)@ + live_checks(state@, walk, i as int + 1).0);
            },
        }
        i += 1;
    }
    None
}

fn plan_held(inventory: &OrderedSet<ObjectKey>, held: &Held, checks: &mut Vec<Check>) -> (refusal: Option<
    StoreError,
>)
    ensures
        ({
            let walk = held.all.walk();
            let found = held_checks(inventory@, held.leased@, walk, walk.len() as int);
            final(checks)@ == old(checks)@ + found.0 && refusal == found.1
        }),
{
    let count: usize = held.all.len();
    let ghost walk = held.all.walk();
    let mut i: usize = 0;
    assert(checks@ =~= old(checks)@ + held_checks(inventory@, held.leased@, walk, 0).0);
    while i < count
        invariant
            i <= count,
            count == walk.len(),
            walk == held.all.walk(),
            checks@ == old(checks)@ + held_checks(inventory@, held.leased@, walk, i as int).0,
            held_checks(inventory@, held.leased@, walk, i as int).1 is None,
        decreases count - i,
    {
        let key: ObjectKey = *held.all.at(i);
        assert(walk[i as int] == key);
        if !inventory.contains(&key) {
            proof {
                lemma_held_stop(
                    inventory@,
                    held.leased@,
                    walk,
                    i as int + 1,
                    walk.len() as int,
                );
            }
            return Some(StoreError::Backend(BackendError::Missing(key)));
        }
        checks.push(Check::Present(key));
        if let ObjectKey::Index(id) = key {
            if held.leased.contains(&key) {
                checks.push(Check::Layer(id));
            }
        }
        assert(checks@ =~= old(checks)@ + held_checks(
            inventory@,
            held.leased@,
            walk,
            i as int + 1,
        ).0);
        i += 1;
    }
    None
}

fn plan_places(list: &Vec<Representation>, all: &OrderedSet<ObjectKey>, checks: &mut Vec<Check>)
    ensures
        final(checks)@ == old(checks)@ + place_checks(list@, all@, list@.len() as int),
{
    let mut i: usize = 0;
    assert(checks@ =~= old(checks)@ + place_checks(list@, all@, 0));
    while i < list.len()
        invariant
            i <= list@.len(),
            checks@ == old(checks)@ + place_checks(list@, all@, i as int),
        decreases list.len() - i,
    {
        let extent: BlobExtent = list[i].extent;
        let key: ObjectKey = ObjectKey::Blob(extent.blob);
        if all.contains(&key) {
            checks.push(Check::Placed(key, extent.blob_length.value));
            assert(checks@ =~= old(checks)@ + place_checks(list@, all@, i as int + 1));
        }
        i += 1;
    }
}

/// The placement that an entry of the catalog holds.
pub fn read_entry(key: &Vec<u8>, value: &Vec<u8>) -> (placement: Result<Placements, StoreError>)
    ensures
        match placement {
            Ok(p) => entry_parse((key@, value@)) == Ok::<PlacementsModel, StoreError>(p@)
                && p@.wf() && p@.pack.bytes@ == key@,
            Err(e) => entry_parse((key@, value@)) == Err::<PlacementsModel, StoreError>(e),
        },
{
    if key.len() != 32 {
        return Err(StoreError::Corrupt(0));
    }
    let pack: PackId = Id::read(key.as_slice());
    proof {
        frame::lemma_id_of(pack);
    }
    Placements::decode(pack, value.as_slice())
}

fn plan_placed(
    entries: &OrderedMap<Vec<u8>, Vec<u8>>,
    all: &OrderedSet<ObjectKey>,
    checks: &mut Vec<Check>,
) -> (refusal: Option<StoreError>)
    ensures
        ({
            let found = placed_checks(entries.pairs(), all@, entries.pairs().len() as int);
            final(checks)@ == old(checks)@ + found.0 && refusal == found.1
        }),
{
    let count: usize = entries.len();
    let ghost list = entries.pairs();
    let mut i: usize = 0;
    assert(checks@ =~= old(checks)@ + placed_checks(list, all@, 0).0);
    while i < count
        invariant
            i <= count,
            count == list.len(),
            list == entries.pairs(),
            checks@ == old(checks)@ + placed_checks(list, all@, i as int).0,
            placed_checks(list, all@, i as int).1 is None,
        decreases count - i,
    {
        let ghost entry = list[i as int];
        let found: Result<Placements, StoreError> = read_entry(
            entries.key_at(i),
            entries.value_at(i),
        );
        match found {
            Err(error) => {
                proof {
                    lemma_placed_stop(list, all@, i as int + 1, list.len() as int);
                }
                return Some(error);
            },
            Ok(placement) => {
                plan_places(&placement.representations, all, checks);
                assert(checks@ =~= old(checks)@ + placed_checks(list, all@, i as int + 1).0);
            },
        }
        i += 1;
    }
    None
}

fn plan_listed(inventory: &OrderedSet<ObjectKey>, checks: &mut Vec<Check>)
    ensures
        final(checks)@ == old(checks)@ + listed_checks(inventory.walk()),
{
    let count: usize = inventory.len();
    let ghost walk = inventory.walk();
    let mut i: usize = 0;
    assert(checks@ =~= old(checks)@ + listed_checks(walk).take(0));
    while i < count
        invariant
            i <= count,
            count == walk.len(),
            walk == inventory.walk(),
            checks@ == old(checks)@ + listed_checks(walk).take(i as int),
        decreases count - i,
    {
        checks.push(Check::Present(*inventory.at(i)));
        assert(checks@ =~= old(checks)@ + listed_checks(walk).take(i as int + 1));
        i += 1;
    }
    assert(listed_checks(walk).take(i as int) =~= listed_checks(walk));
}

/// Everything that must hold before anything is deleted, and what stops the
/// planning of more.
pub fn plan_checks(
    state: &State,
    trace: &Trace,
    held: &Held,
    inventory: &OrderedSet<ObjectKey>,
) -> (found: (Vec<Check>, Option<StoreError>))
    ensures
        (found.0@, found.1) == planned_checks(state@, trace@, held@, inventory@),
{
    let ghost goal = planned_checks(state@, trace@, held@, inventory@);
    let mut checks: Vec<Check> = Vec::new();
    let refusal: Option<StoreError> = plan_live(state, &trace.live, &mut checks);
    if refusal.is_some() {
        assert(checks@ =~= goal.0);
        return (checks, refusal);
    }
    let refusal: Option<StoreError> = plan_held(inventory, held, &mut checks);
    if refusal.is_some() {
        assert(checks@ =~= goal.0);
        return (checks, refusal);
    }
    let refusal: Option<StoreError> = plan_placed(
        state.placements.entries(),
        &held.all,
        &mut checks,
    );
    if refusal.is_some() {
        assert(checks@ =~= goal.0);
        return (checks, refusal);
    }
    plan_listed(inventory, &mut checks);
    assert(checks@ =~= goal.0);
    (checks, None)
}

/// The objects that the first `count` leases hold, and what stops the reading of
/// more.
pub open spec fn leased_objects(leases: Seq<Lease>, count: int) -> (
    Set<ObjectKey>,
    Option<StoreError>,
)
    decreases count,
{
    if count <= 0 {
        (Set::empty(), None)
    } else {
        let prior = leased_objects(leases, count - 1);
        if prior.1 is Some {
            prior
        } else {
            match keys::key_parse(leases[count - 1].bytes()) {
                Err(error) => (prior.0, Some(StoreError::Backend(error))),
                Ok(key) => if leases[count - 1].busy {
                    (prior.0.insert(key), None)
                } else {
                    prior
                },
            }
        }
    }
}

proof fn lemma_leased_stop(leases: Seq<Lease>, i: int, count: int)
    requires
        0 <= i <= count,
        leased_objects(leases, i).1 is Some,
    ensures
        leased_objects(leases, count) == leased_objects(leases, i),
    decreases count - i,
{
    if i < count {
        lemma_leased_stop(leases, i, count - 1);
    }
}

/// The objects that some leases hold.
pub fn read_leases(leases: &Vec<Lease>) -> (objects: Result<OrderedSet<ObjectKey>, StoreError>)
    ensures
        match objects {
            Ok(o) => leased_objects(leases@, leases@.len() as int) == (o@, None::<StoreError>),
            Err(e) => leased_objects(leases@, leases@.len() as int).1 == Some(e),
        },
{
    let mut objects: OrderedSet<ObjectKey> = OrderedSet::new();
    let mut i: usize = 0;
    assert(objects@ =~= Set::<ObjectKey>::empty());
    while i < leases.len()
        invariant
            i <= leases@.len(),
            leased_objects(leases@, i as int) == (objects@, None::<StoreError>),
        decreases leases.len() - i,
    {
        match ObjectKey::parse(leases[i].name.as_str()) {
            Err(error) => {
                proof {
                    lemma_leased_stop(leases@, i as int + 1, leases@.len() as int);
                }
                return Err(StoreError::Backend(error));
            },
            Ok(key) => {
                if leases[i].busy {
                    objects.insert(key);
                }
            },
        }
        i += 1;
    }
    Ok(objects)
}

/// What has to stay: the layers of the indexes, what a lease holds, the manifests and
/// dictionaries that were reached, and the blob that each pack that was reached is
/// read from. While a seal is under way, every other place of such a pack stays too.
/// What is current or named has to stay.
pub proof fn law_what_has_to_stay(
    state: StateModel,
    trace: TraceModel,
    leased: Set<ObjectKey>,
    sealing: bool,
    object: ObjectKey,
)
    ensures
        ({
            let held = held_by(state, trace, leased, sealing);
            &&& state.index_objects().contains(object) ==> held.all.contains(object)
            &&& leased.contains(object) ==> held.all.contains(object) && held.leased.contains(object)
            &&& object matches ObjectKey::Manifest(id) ==> trace.live.contains(CatalogKey::Manifest(id))
                ==> held.all.contains(object)
            &&& object matches ObjectKey::Dictionary(id) ==> trace.live.contains(
                CatalogKey::Dictionary(id),
            ) ==> held.all.contains(object)
            &&& held.current.contains(object) || held.named.contains(object) ==> held.all.contains(
                object,
            )
            &&& object matches ObjectKey::Manifest(id) ==> (held.named.contains(object)
                <==> trace.live.contains(CatalogKey::Manifest(id)) && trace.named.contains(
                CatalogKey::Manifest(id),
            ))
            &&& object matches ObjectKey::Manifest(id) ==> (held.current.contains(object)
                <==> trace.live.contains(CatalogKey::Manifest(id)) && trace.current.contains(
                CatalogKey::Manifest(id),
            ))
            &&& held.leased.contains(object) ==> leased.contains(object)
        }),
{
    let held = held_by(state, trace, leased, sealing);
    if let ObjectKey::Manifest(id) = object {
        let key = CatalogKey::Manifest(id);
        assert(keeper(state, key) == Some(object));
        if trace.live.contains(key) {
            assert(keepers(state, trace.live).contains(object));
        }
        if trace.live.intersect(trace.named).contains(key) {
            assert(held.named.contains(object));
        }
        if trace.live.intersect(trace.current).contains(key) {
            assert(held.current.contains(object));
        }
    }
    if let ObjectKey::Dictionary(id) = object {
        let key = CatalogKey::Dictionary(id);
        assert(keeper(state, key) == Some(object));
        if trace.live.contains(key) {
            assert(keepers(state, trace.live).contains(object));
        }
    }
    if held.current.contains(object) {
        let key = choose|key: CatalogKey| #[trigger]
            trace.live.intersect(trace.current).contains(key) && keeper(state, key) == Some(object);
        assert(trace.live.contains(key));
        assert(keepers(state, trace.live).contains(object));
    }
    if held.named.contains(object) {
        let key = choose|key: CatalogKey| #[trigger]
            trace.live.intersect(trace.named).contains(key) && keeper(state, key) == Some(object);
        assert(trace.live.contains(key));
        assert(keepers(state, trace.live).contains(object));
    }
}

/// The blob that a pack is read from has to stay where the pack was reached, and counts
/// as current or named where the pack does. The blobs of its other places have to stay
/// while a seal is under way.
pub proof fn law_places_that_have_to_stay(
    state: StateModel,
    trace: TraceModel,
    leased: Set<ObjectKey>,
    sealing: bool,
    pack: PackId,
    placement: PlacementsModel,
    i: int,
)
    requires
        trace.live.contains(CatalogKey::Pack(pack)),
        pin::entry_placement(state.placements.entries, pack) == Ok::<PlacementsModel, StoreError>(
            placement,
        ),
        0 <= i < placement.representations.len(),
        i == 0 || sealing,
    ensures
        ({
            let held = held_by(state, trace, leased, sealing);
            let blob = ObjectKey::Blob(placement.representations[i].extent.blob);
            &&& held.all.contains(blob)
            &&& i == 0 && trace.current.contains(CatalogKey::Pack(pack)) ==> held.current.contains(
                blob,
            )
            &&& i == 0 && trace.named.contains(CatalogKey::Pack(pack)) ==> held.named.contains(blob)
        }),
{
    let held = held_by(state, trace, leased, sealing);
    let key = CatalogKey::Pack(pack);
    let blob = ObjectKey::Blob(placement.representations[i].extent.blob);
    if i == 0 {
        assert(keeper(state, key) == Some(blob));
        assert(keepers(state, trace.live).contains(blob));
        if trace.current.contains(key) {
            assert(trace.live.intersect(trace.current).contains(key));
            assert(held.current.contains(blob));
        }
        if trace.named.contains(key) {
            assert(trace.live.intersect(trace.named).contains(key));
            assert(held.named.contains(blob));
        }
    }
    if sealing {
        assert(blobs_of(placement.representations).contains(blob));
        assert(places(state, key).contains(blob));
        assert(all_places(state, trace.live).contains(blob));
    }
}

/// A lease holds its object exactly while it is busy.
pub proof fn law_busy_leases_hold(leases: Seq<Lease>, count: int, object: ObjectKey)
    requires
        0 <= count <= leases.len(),
        leased_objects(leases, count).1 is None,
    ensures
        leased_objects(leases, count).0.contains(object) <==> exists|i: int|
            0 <= i < count && (#[trigger] leases[i]).busy && keys::key_parse(leases[i].bytes()) == Ok::<
                ObjectKey,
                crate::adapter::BackendError,
            >(object),
    decreases count,
{
    if count > 0 {
        law_busy_leases_hold(leases, count - 1, object);
        let last = leases[count - 1];
    }
}

/// Nothing is deleted unless everything that has to stay was looked at. What was reached
/// is there under its name: each manifest and each dictionary is read, and the blob that a
/// pack is read from has the length that the catalog notes. Every object that has to stay
/// is listed and measured, and so is every other object that is listed.
pub proof fn law_everything_is_checked(
    state: StateModel,
    trace: TraceModel,
    held: HeldModel,
    inventory: Set<ObjectKey>,
    key: CatalogKey,
    object: ObjectKey,
)
    requires
        planned_checks(state, trace, held, inventory).1 is None,
        trace.live.finite(),
        held.all.finite(),
        inventory.finite(),
    ensures
        ({
            let checks = planned_checks(state, trace, held, inventory).0;
            &&& trace.live.contains(key) ==> match key {
                CatalogKey::Manifest(id) => checks.contains(Check::Segment(id)),
                CatalogKey::Dictionary(id) => checks.contains(Check::Dictionary(id)),
                CatalogKey::Pack(pack) => pin::entry_placement(
                    state.placements.entries,
                    pack,
                ) matches Ok(placement) && checks.contains(
                    Check::Preferred(
                        ObjectKey::Blob(placement.representations[0].extent.blob),
                        placement.representations[0].extent.blob_length.value,
                    ),
                ),
                CatalogKey::Staging(_) => false,
            }
            &&& held.all.contains(object) ==> inventory.contains(object) && checks.contains(
                Check::Present(object),
            )
            &&& inventory.contains(object) ==> checks.contains(Check::Present(object))
        }),
{
    let live = order::roll::<CatalogKey>(trace.live);
    let kept = order::roll::<ObjectKey>(held.all);
    let listed = order::roll::<ObjectKey>(inventory);
    let entries = order::listing::<Vec<u8>, Seq<u8>>(state.placements.entries);
    order::lemma_rolled::<CatalogKey>(trace.live);
    order::lemma_rolled::<ObjectKey>(held.all);
    order::lemma_rolled::<ObjectKey>(inventory);
    let a = live_checks(state, live, live.len() as int).0;
    let b = held_checks(inventory, held.leased, kept, kept.len() as int).0;
    let c = placed_checks(entries, held.all, entries.len() as int).0;
    let d = listed_checks(listed);
    let checks = planned_checks(state, trace, held, inventory).0;
    assert(checks == a + (b + (c + d)));
    if trace.live.contains(key) {
        assert(live.to_set().contains(key));
        let i = choose|i: int| 0 <= i < live.len() && live[i] == key;
        lemma_live_checked(state, live, live.len() as int, i);
        lemma_in_checks(a, b + (c + d), live_check(state, key)->Ok_0);
    }
    if held.all.contains(object) {
        assert(kept.to_set().contains(object));
        let i = choose|i: int| 0 <= i < kept.len() && kept[i] == object;
        lemma_held_checked(inventory, held.leased, kept, kept.len() as int, i);
        lemma_in_checks(b, c + d, Check::Present(object));
        lemma_in_checks(a, b + (c + d), Check::Present(object));
    }
    if inventory.contains(object) {
        assert(listed.to_set().contains(object));
        let i = choose|i: int| 0 <= i < listed.len() && listed[i] == object;
        assert(d[i] == Check::Present(object));
        lemma_in_checks(c, d, Check::Present(object));
        lemma_in_checks(b, c + d, Check::Present(object));
        lemma_in_checks(a, b + (c + d), Check::Present(object));
    }
}

proof fn lemma_in_checks(a: Seq<Check>, b: Seq<Check>, check: Check)
    ensures
        (a + b).contains(check) <==> a.contains(check) || b.contains(check),
{
    if a.contains(check) {
        let k = choose|k: int| 0 <= k < a.len() && a[k] == check;
        assert((a + b)[k] == check);
    }
    if b.contains(check) {
        let k = choose|k: int| 0 <= k < b.len() && b[k] == check;
        assert((a + b)[a.len() as int + k] == check);
    }
}

proof fn lemma_live_checked(state: StateModel, walk: Seq<CatalogKey>, count: int, i: int)
    requires
        0 <= i < count <= walk.len(),
        live_checks(state, walk, count).1 is None,
    ensures
        live_check(state, walk[i]) is Ok,
        live_checks(state, walk, count).0.contains(live_check(state, walk[i])->Ok_0),
    decreases count,
{
    let prior = live_checks(state, walk, count - 1).0;
    let all = live_checks(state, walk, count).0;
    let check = live_check(state, walk[i])->Ok_0;
    if i == count - 1 {
        assert(all[prior.len() as int] == check);
    } else {
        lemma_live_checked(state, walk, count - 1, i);
        let k = choose|k: int| 0 <= k < prior.len() && prior[k] == check;
        assert(all[k] == check);
    }
}

proof fn lemma_held_checked(
    inventory: Set<ObjectKey>,
    leased: Set<ObjectKey>,
    walk: Seq<ObjectKey>,
    count: int,
    i: int,
)
    requires
        0 <= i < count <= walk.len(),
        held_checks(inventory, leased, walk, count).1 is None,
    ensures
        inventory.contains(walk[i]),
        held_checks(inventory, leased, walk, count).0.contains(Check::Present(walk[i])),
    decreases count,
{
    let prior = held_checks(inventory, leased, walk, count - 1).0;
    let more = held_check(leased, walk[count - 1]);
    if i == count - 1 {
        assert(more[0] == Check::Present(walk[i]));
    } else {
        lemma_held_checked(inventory, leased, walk, count - 1, i);
    }
    lemma_in_checks(prior, more, Check::Present(walk[i]));
}

/// An object passes where it is there, and has the length that was noted where one was.
pub proof fn law_lengths_are_compared(key: ObjectKey, expected: u64, length: Option<u64>)
    ensures
        length_check(Check::Present(key), length) is Ok <==> length is Some,
        length_check(Check::Preferred(key, expected), length) is Ok <==> length == Some(expected),
        length_check(Check::Placed(key, expected), length) is Ok <==> length == Some(expected),
{
}

} // verus!
