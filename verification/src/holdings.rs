//! What a namespace holds, and how long it is.

use crate::adapter;
use crate::adapter::{BackendError, Event, ObjectKey, StorageBackend};
use crate::domain::{Id, StoredBytes};
use crate::error::StoreError;
use crate::fetch::Replay;
use crate::frame;
use crate::inventory;
use crate::keys::CatalogKey;
use crate::order;
use crate::order::{OrderedMap, OrderedSet};
use crate::pin;
use crate::pin::read_placement;
use crate::state::{State, StateModel};
use vstd::prelude::*;

verus! {

/// Some key of the list is no identity.
pub open spec fn has_odd_key(list: Seq<(Seq<u8>, Seq<u8>)>) -> bool {
    exists|i: int| 0 <= i < list.len() && (#[trigger] list[i]).0.len() != 32
}

/// The objects that the entries of a catalog name, and the dictionaries that the
/// backend holds.
pub open spec fn named_objects(state: StateModel, held: Set<ObjectKey>) -> Set<CatalogKey> {
    Set::new(
        |key: CatalogKey|
            match key {
                CatalogKey::Manifest(id) => state.endpoints.entries.dom().contains(id.bytes@),
                CatalogKey::Pack(id) => state.placements.entries.dom().contains(id.bytes@),
                CatalogKey::Dictionary(id) => held.contains(ObjectKey::Dictionary(id)),
                CatalogKey::Staging(_) => false,
            },
    )
}

/// What listing the objects of a namespace came to.
pub open spec fn objects_listed(
    state: StateModel,
    earlier: Seq<Event>,
    later: Seq<Event>,
    done: Result<Set<CatalogKey>, StoreError>,
) -> bool {
    let endpoints = order::listing::<Vec<u8>, Seq<u8>>(state.endpoints.entries);
    let placements = order::listing::<Vec<u8>, Seq<u8>>(state.placements.entries);
    if has_odd_key(endpoints) || has_odd_key(placements) {
        done == Err::<Set<CatalogKey>, StoreError>(StoreError::Corrupt(0)) && later == earlier
    } else {
        match inventory::inventory_replay(later, earlier.len() as int, None, Set::empty()) {
            Replay::Astray => false,
            Replay::Done(Err(error), next) => done == Err::<Set<CatalogKey>, StoreError>(error)
                && next == later.len(),
            Replay::Done(Ok(held), next) => done == Ok::<Set<CatalogKey>, StoreError>(
                named_objects(state, held),
            ) && next == later.len(),
        }
    }
}

/// The keys of entries, as manifests or as packs.
fn add_entries(entries: &OrderedMap<Vec<u8>, Vec<u8>>, packs: bool, keys: &mut OrderedSet<CatalogKey>) -> (fine:
    bool)
    ensures
        fine == !has_odd_key(order::listing::<Vec<u8>, Seq<u8>>(entries@)),
        fine ==> forall|key: CatalogKey| #[trigger]
            final(keys)@.contains(key) <==> old(keys)@.contains(key) || match key {
                CatalogKey::Manifest(id) => !packs && entries@.dom().contains(id.bytes@),
                CatalogKey::Pack(id) => packs && entries@.dom().contains(id.bytes@),
                _ => false,
            },
{
    let count: usize = entries.len();
    let ghost list = entries.pairs();
    proof {
        order::lemma_walk::<Vec<u8>, Seq<u8>>(list, entries@);
    }
    let mut i: usize = 0;
    while i < count
        invariant
            i <= count,
            count == list.len(),
            list == entries.pairs(),
            list == order::listing::<Vec<u8>, Seq<u8>>(entries@),
            forall|j: int| 0 <= j < i ==> (#[trigger] list[j]).0.len() == 32,
            forall|key: CatalogKey| #[trigger]
                keys@.contains(key) <==> old(keys)@.contains(key) || match key {
                    CatalogKey::Manifest(id) => !packs && is_among(list, i as int, id.bytes@),
                    CatalogKey::Pack(id) => packs && is_among(list, i as int, id.bytes@),
                    _ => false,
                },
        decreases count - i,
    {
        let bytes: &Vec<u8> = entries.key_at(i);
        if bytes.len() != 32 {
            assert(list[i as int].0.len() != 32);
            return false;
        }
        let ghost before = keys@;
        if packs {
            let id = Id::read(bytes.as_slice());
            proof {
                frame::lemma_id_of(id);
            }
            keys.insert(CatalogKey::Pack(id));
        } else {
            let id = Id::read(bytes.as_slice());
            proof {
                frame::lemma_id_of(id);
            }
            keys.insert(CatalogKey::Manifest(id));
        }
        proof {
            assert forall|sought: Seq<u8>| #[trigger] is_among(list, i as int + 1, sought) == (
            is_among(list, i as int, sought) || sought == list[i as int].0) by {
                if is_among(list, i as int, sought) {
                    let k = choose|k: int| 0 <= k < i && (#[trigger] list[k]).0 == sought;
                    assert(list[k].0 == sought);
                }
            }
            assert forall|key: CatalogKey| #[trigger]
                keys@.contains(key) <==> old(keys)@.contains(key) || match key {
                    CatalogKey::Manifest(id) => !packs && is_among(list, i as int + 1, id.bytes@),
                    CatalogKey::Pack(id) => packs && is_among(list, i as int + 1, id.bytes@),
                    _ => false,
                } by {
                match key {
                    CatalogKey::Manifest(id) => {
                        frame::lemma_id_of(id);
                    },
                    CatalogKey::Pack(id) => {
                        frame::lemma_id_of(id);
                    },
                    _ => {},
                }
            }
        }
        i += 1;
    }
    proof {
        assert forall|sought: Seq<u8>| #[trigger] is_among(list, count as int, sought)
            == entries@.dom().contains(sought) by {
            if is_among(list, count as int, sought) {
                let k = choose|k: int| 0 <= k < count && (#[trigger] list[k]).0 == sought;
                assert(entries@.dom().contains(list[k].0));
            }
        }
    }
    true
}

/// One of the first `count` keys is the sought one.
spec fn is_among(list: Seq<(Seq<u8>, Seq<u8>)>, count: int, sought: Seq<u8>) -> bool {
    exists|k: int| 0 <= k < count && (#[trigger] list[k]).0 == sought
}

/// Lists the objects of a namespace.
pub fn all_objects<B: StorageBackend>(backend: &mut B, state: &State) -> (keys: Result<
    OrderedSet<CatalogKey>,
    StoreError,
>)
    ensures
        final(backend).namespace() == old(backend).namespace(),
        adapter::extends(old(backend).history(), final(backend).history()),
        adapter::quiet(old(backend).history(), final(backend).history()),
        objects_listed(
            state@,
            old(backend).history(),
            final(backend).history(),
            match keys {
                Ok(k) => Ok(k@),
                Err(e) => Err(e),
            },
        ),
{
    let mut keys: OrderedSet<CatalogKey> = OrderedSet::new();
    if !add_entries(state.endpoints.entries(), false, &mut keys) {
        return Err(StoreError::Corrupt(0));
    }
    if !add_entries(state.placements.entries(), true, &mut keys) {
        return Err(StoreError::Corrupt(0));
    }
    let ghost named = keys@;
    let held: Result<OrderedSet<ObjectKey>, StoreError> = inventory::inventory(backend);
    let held: OrderedSet<ObjectKey> = match held {
        Ok(held) => held,
        Err(error) => {
            return Err(error);
        },
    };
    let count: usize = held.len();
    let ghost walk = held.walk();
    let mut i: usize = 0;
    while i < count
        invariant
            i <= count,
            count == walk.len(),
            walk == held.walk(),
            walk.to_set() == held@,
            forall|key: CatalogKey| #[trigger]
                keys@.contains(key) <==> named.contains(key) || (key matches CatalogKey::Dictionary(id)
                    && walk.take(i as int).contains(ObjectKey::Dictionary(id))),
        decreases count - i,
    {
        let key: ObjectKey = *held.at(i);
        proof {
            let now = walk.take(i as int + 1);
            assert(now =~= walk.take(i as int).push(key));
            assert forall|k: ObjectKey| now.contains(k) == (walk.take(i as int).contains(k) || k == key) by {
                if walk.take(i as int).contains(k) {
                    let j = choose|j: int| 0 <= j < i && walk.take(i as int)[j] == k;
                    assert(now[j] == k);
                }
                assert(now[i as int] == key);
            }
        }
        match key {
            ObjectKey::Dictionary(id) => {
                keys.insert(CatalogKey::Dictionary(id));
            },
            _ => {},
        }
        i += 1;
    }
    proof {
        assert(walk.take(i as int) =~= walk);
        assert forall|key: CatalogKey| keys@.contains(key) == named_objects(state@, held@).contains(
            key,
        ) by {
            if let CatalogKey::Dictionary(id) = key {
                assert(walk.to_set().contains(ObjectKey::Dictionary(id)) == walk.contains(
                    ObjectKey::Dictionary(id),
                ));
            }
        }
        assert(keys@ =~= named_objects(state@, held@));
    }
    Ok(keys)
}

/// What measuring an object that is stored under its own key came to.
pub open spec fn measured(
    key: ObjectKey,
    earlier: Seq<Event>,
    later: Seq<Event>,
    done: Result<u64, StoreError>,
) -> bool {
    exists|reply: Result<Option<StoredBytes>, BackendError>|
        later == earlier.push(#[trigger] stat_event(key, reply)) && done == match reply {
            Ok(Some(length)) => Ok::<u64, StoreError>(length.value),
            Ok(None) => Err::<u64, StoreError>(StoreError::Backend(BackendError::Missing(key))),
            Err(error) => Err::<u64, StoreError>(StoreError::Backend(error)),
        }
}

/// A question for a length, and its reply.
pub open spec fn stat_event(key: ObjectKey, reply: Result<Option<StoredBytes>, BackendError>) -> Event {
    Event::Stat { key, reply }
}

fn measure<B: StorageBackend>(backend: &mut B, key: ObjectKey) -> (length: Result<u64, StoreError>)
    ensures
        final(backend).namespace() == old(backend).namespace(),
        measured(key, old(backend).history(), final(backend).history(), length),
{
    let reply: Result<Option<StoredBytes>, BackendError> = backend.stat(key);
    assert(backend.history() == old(backend).history().push(stat_event(key, reply)));
    match reply {
        Ok(Some(length)) => Ok(length.value),
        Ok(None) => Err(StoreError::Backend(BackendError::Missing(key))),
        Err(error) => Err(StoreError::Backend(error)),
    }
}

/// The length of an object. That of a pack is the one that its placement states;
/// what is being staged has none.
pub fn logical_length<B: StorageBackend>(backend: &mut B, state: &State, key: CatalogKey) -> (length:
    Result<u64, StoreError>)
    ensures
        final(backend).namespace() == old(backend).namespace(),
        match key {
            CatalogKey::Pack(id) => final(backend).history() == old(backend).history() && length
                == match pin::entry_placement(state@.placements.entries, id) {
                Ok(model) => Ok::<u64, StoreError>(model.length),
                Err(error) => Err::<u64, StoreError>(error),
            },
            CatalogKey::Manifest(id) => measured(
                ObjectKey::Manifest(id),
                old(backend).history(),
                final(backend).history(),
                length,
            ),
            CatalogKey::Dictionary(id) => measured(
                ObjectKey::Dictionary(id),
                old(backend).history(),
                final(backend).history(),
                length,
            ),
            CatalogKey::Staging(_) => length == Err::<u64, StoreError>(StoreError::Corrupt(0))
                && final(backend).history() == old(backend).history(),
        },
{
    match key {
        CatalogKey::Pack(id) => match read_placement(state.placements.entries(), id) {
            Ok(placement) => Ok(placement.length.value),
            Err(error) => Err(error),
        },
        CatalogKey::Manifest(id) => measure(backend, ObjectKey::Manifest(id)),
        CatalogKey::Dictionary(id) => measure(backend, ObjectKey::Dictionary(id)),
        CatalogKey::Staging(_) => Err(StoreError::Corrupt(0)),
    }
}

} // verus!
