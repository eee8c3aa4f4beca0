//! Resolved views that are pinned for reading.

use crate::adapter;
use crate::adapter::{BackendError, Event, ObjectKey, StorageBackend};
use crate::builder;
use crate::builder::validate_ranges;
use crate::codec;
use crate::digest;
use crate::digest::identify;
use crate::domain::{BackendId, DictionaryId, ManifestId, PackId, StoredBytes};
use crate::draft;
use crate::error::StoreError;
use crate::fetch;
use crate::fetch::{Replay, read_all, stat};
use crate::frame::DecodingDictionary;
use crate::opening;
use crate::order;
use crate::order::{OrderedMap, OrderedSet};
use crate::pin;
use crate::pin::PlacementPin;
use crate::placement::PlacementsModel;
use crate::resolve;
use crate::resolve::load_metadata;
use crate::validation::{ValidatedMetadata, ValidatedModel};
use vstd::prelude::*;

verus! {

/// The most bytes of a dictionary.
pub const MAX_DICTIONARY_BYTES: u64 = 786432;

/// What reading a dictionary came to: its bytes, under its name.
pub open spec fn dictionary_replay(history: Seq<Event>, at: int, id: DictionaryId) -> Replay<
    Seq<u8>,
> {
    match fetch::object_replay(history, at, ObjectKey::Dictionary(id), MAX_DICTIONARY_BYTES) {
        Replay::Done(Ok(bytes), next) => if digest::names(id, bytes) {
            Replay::Done(Ok(bytes), next)
        } else {
            Replay::Done(Err(StoreError::Corrupt(0)), next)
        },
        other => other,
    }
}

/// Reads a dictionary and verifies it against its name.
pub fn read_dictionary<B: StorageBackend>(backend: &mut B, id: DictionaryId) -> (bytes: Result<
    Vec<u8>,
    StoreError,
>)
    ensures
        final(backend).namespace() == old(backend).namespace(),
        adapter::extends(old(backend).history(), final(backend).history()),
        adapter::quiet(old(backend).history(), final(backend).history()),
        dictionary_replay(final(backend).history(), old(backend).history().len() as int, id)
            == Replay::Done(fetch::seen(bytes), final(backend).history().len() as int),
{
    let bytes: Vec<u8> = read_all(backend, ObjectKey::Dictionary(id), MAX_DICTIONARY_BYTES)?;
    let named: DictionaryId = identify(bytes.as_slice());
    if !named.same(&id) {
        proof {
            if digest::names(id, bytes@) {
                draft::lemma_named(id, bytes@);
                draft::lemma_named(named, bytes@);
            }
        }
        return Err(StoreError::Corrupt(0));
    }
    Ok(bytes)
}

/// What reading some dictionaries, from place `i` on, came to. Each is loaded before
/// the next one is read.
pub open spec fn dictionaries_replay(
    history: Seq<Event>,
    at: int,
    ids: Seq<DictionaryId>,
    i: int,
    so_far: Map<DictionaryId, Seq<u8>>,
) -> Replay<Map<DictionaryId, Seq<u8>>>
    decreases ids.len() - i,
{
    if i >= ids.len() {
        Replay::Done(Ok(so_far), at)
    } else {
        match dictionary_replay(history, at, ids[i]) {
            Replay::Astray => Replay::Astray,
            Replay::Done(Err(error), next) => Replay::Done(Err(error), next),
            Replay::Done(Ok(bytes), next) => if codec::zstd_loads(bytes) {
                dictionaries_replay(history, next, ids, i + 1, so_far.insert(ids[i], bytes))
            } else {
                Replay::Astray
            },
        }
    }
}

proof fn lemma_dictionary_settled(
    before: Seq<Event>,
    after: Seq<Event>,
    at: int,
    id: DictionaryId,
)
    requires
        adapter::extends(before, after),
        dictionary_replay(before, at, id) is Done,
    ensures
        dictionary_replay(after, at, id) == dictionary_replay(before, at, id),
{
    fetch::lemma_object_settled(before, after, at, ObjectKey::Dictionary(id), MAX_DICTIONARY_BYTES);
}

proof fn lemma_dictionaries_settled(
    before: Seq<Event>,
    after: Seq<Event>,
    at: int,
    ids: Seq<DictionaryId>,
    i: int,
    so_far: Map<DictionaryId, Seq<u8>>,
)
    requires
        adapter::extends(before, after),
        dictionaries_replay(before, at, ids, i, so_far) is Done,
    ensures
        dictionaries_replay(after, at, ids, i, so_far) == dictionaries_replay(
            before,
            at,
            ids,
            i,
            so_far,
        ),
    decreases ids.len() - i,
{
    if i < ids.len() {
        lemma_dictionary_settled(before, after, at, ids[i]);
        match dictionary_replay(before, at, ids[i]) {
            Replay::Done(Ok(bytes), next) => if codec::zstd_loads(bytes) {
                lemma_dictionaries_settled(
                    before,
                    after,
                    next,
                    ids,
                    i + 1,
                    so_far.insert(ids[i], bytes),
                );
            },
            _ => {},
        }
    }
}

/// Reads some dictionaries, and loads each. The decompressor may fail on any.
fn read_dictionaries<B: StorageBackend>(backend: &mut B, ids: &OrderedSet<DictionaryId>) -> (found:
    Result<OrderedMap<DictionaryId, DecodingDictionary>, StoreError>)
    ensures
        final(backend).namespace() == old(backend).namespace(),
        adapter::extends(old(backend).history(), final(backend).history()),
        adapter::quiet(old(backend).history(), final(backend).history()),
        match found {
            Ok(f) => dictionaries_replay(
                final(backend).history(),
                old(backend).history().len() as int,
                ids.walk(),
                0,
                Map::empty(),
            ) == Replay::Done(
                Ok::<Map<DictionaryId, Seq<u8>>, StoreError>(f@),
                final(backend).history().len() as int,
            ),
            Err(e) => opening::unopened(
                e,
                old(backend).history(),
                final(backend).history(),
            ) || dictionaries_replay(
                final(backend).history(),
                old(backend).history().len() as int,
                ids.walk(),
                0,
                Map::empty(),
            ) == Replay::Done(
                Err::<Map<DictionaryId, Seq<u8>>, StoreError>(e),
                final(backend).history().len() as int,
            ),
        },
{
    let ghost start = backend.history().len() as int;
    let ghost list = ids.walk();
    let count: usize = ids.len();
    let mut found: OrderedMap<DictionaryId, DecodingDictionary> = OrderedMap::new();
    let mut i: usize = 0;
    while i < count
        invariant
            i <= count,
            list == ids.walk(),
            count == list.len(),
            start == old(backend).history().len(),
            backend.namespace() == old(backend).namespace(),
            adapter::extends(old(backend).history(), backend.history()),
            adapter::quiet(old(backend).history(), backend.history()),
            forall|later: Seq<Event>|
                #![trigger dictionaries_replay(later, start, list, 0, Map::empty())]
                adapter::extends(backend.history(), later) ==> dictionaries_replay(
                    later,
                    start,
                    list,
                    0,
                    Map::empty(),
                ) == dictionaries_replay(
                    later,
                    backend.history().len() as int,
                    list,
                    i as int,
                    found@,
                ),
        decreases count - i,
    {
        let id: DictionaryId = *ids.at(i);
        let ghost known = backend.history();
        let ghost before = found@;
        let bytes: Result<Vec<u8>, StoreError> = read_dictionary(backend, id);
        proof {
            let h = backend.history();
            assert(dictionaries_replay(h, start, list, 0, Map::empty()) == dictionaries_replay(
                h,
                known.len() as int,
                list,
                i as int,
                before,
            ));
        }
        let bytes: Vec<u8> = bytes?;
        let dictionary: DecodingDictionary = match DecodingDictionary::new(bytes) {
            Ok(dictionary) => dictionary,
            Err(error) => {
                assert(opening::read_last(
                    backend.history(),
                    known.len() as int,
                    ObjectKey::Dictionary(id),
                    MAX_DICTIONARY_BYTES,
                ));
                return Err(error);
            },
        };
        found.insert(id, dictionary);
        proof {
            assert forall|later: Seq<Event>|
                #![trigger dictionaries_replay(later, start, list, 0, Map::empty())]
                adapter::extends(backend.history(), later) implies dictionaries_replay(
                later,
                start,
                list,
                0,
                Map::empty(),
            ) == dictionaries_replay(
                later,
                backend.history().len() as int,
                list,
                i as int + 1,
                found@,
            ) by {
                assert(adapter::extends(known, later));
                lemma_dictionary_settled(backend.history(), later, known.len() as int, id);
                assert(dictionaries_replay(later, start, list, 0, Map::empty())
                    == dictionaries_replay(later, known.len() as int, list, i as int, before));
            }
        }
        i += 1;
    }
    proof {
        let h = backend.history();
        assert(dictionaries_replay(h, start, list, 0, Map::empty()) == dictionaries_replay(
            h,
            h.len() as int,
            list,
            i as int,
            found@,
        ));
    }
    Ok(found)
}

/// What asking for the lengths of some objects, from place `i` on, came to. Each
/// must exist.
pub open spec fn lengths_replay(
    history: Seq<Event>,
    at: int,
    keys: Seq<ObjectKey>,
    i: int,
    so_far: Map<ObjectKey, u64>,
) -> Replay<Map<ObjectKey, u64>>
    decreases keys.len() - i,
{
    if i >= keys.len() {
        Replay::Done(Ok(so_far), at)
    } else {
        match fetch::stat_replay(history, at, keys[i]) {
            Replay::Astray => Replay::Astray,
            Replay::Done(Err(error), next) => Replay::Done(Err(error), next),
            Replay::Done(Ok(None), next) => Replay::Done(
                Err(StoreError::Backend(BackendError::Missing(keys[i]))),
                next,
            ),
            Replay::Done(Ok(Some(length)), next) => lengths_replay(
                history,
                next,
                keys,
                i + 1,
                so_far.insert(keys[i], length.value),
            ),
        }
    }
}

proof fn lemma_lengths_settled(
    before: Seq<Event>,
    after: Seq<Event>,
    at: int,
    keys: Seq<ObjectKey>,
    i: int,
    so_far: Map<ObjectKey, u64>,
)
    requires
        adapter::extends(before, after),
        lengths_replay(before, at, keys, i, so_far) is Done,
    ensures
        lengths_replay(after, at, keys, i, so_far) == lengths_replay(before, at, keys, i, so_far),
    decreases keys.len() - i,
{
    if i < keys.len() {
        assert(before[at] == after[at]);
        match fetch::stat_replay(before, at, keys[i]) {
            Replay::Done(Ok(Some(length)), next) => lemma_lengths_settled(
                before,
                after,
                next,
                keys,
                i + 1,
                so_far.insert(keys[i], length.value),
            ),
            _ => {},
        }
    }
}

/// The lengths of some objects.
fn read_lengths<B: StorageBackend>(backend: &mut B, keys: &Vec<ObjectKey>) -> (lengths: Result<
    OrderedMap<ObjectKey, u64>,
    StoreError,
>)
    ensures
        final(backend).namespace() == old(backend).namespace(),
        adapter::extends(old(backend).history(), final(backend).history()),
        adapter::quiet(old(backend).history(), final(backend).history()),
        match lengths {
            Ok(l) => lengths_replay(
                final(backend).history(),
                old(backend).history().len() as int,
                keys@,
                0,
                Map::empty(),
            ) == Replay::Done(
                Ok::<Map<ObjectKey, u64>, StoreError>(l@),
                final(backend).history().len() as int,
            ),
            Err(e) => lengths_replay(
                final(backend).history(),
                old(backend).history().len() as int,
                keys@,
                0,
                Map::empty(),
            ) == Replay::Done(
                Err::<Map<ObjectKey, u64>, StoreError>(e),
                final(backend).history().len() as int,
            ),
        },
{
    let ghost start = backend.history().len() as int;
    let ghost list = keys@;
    let mut lengths: OrderedMap<ObjectKey, u64> = OrderedMap::new();
    let mut i: usize = 0;
    while i < keys.len()
        invariant
            i <= keys@.len(),
            list == keys@,
            start == old(backend).history().len(),
            backend.namespace() == old(backend).namespace(),
            adapter::extends(old(backend).history(), backend.history()),
            adapter::quiet(old(backend).history(), backend.history()),
            forall|later: Seq<Event>|
                #![trigger lengths_replay(later, start, list, 0, Map::empty())]
                adapter::extends(backend.history(), later) ==> lengths_replay(
                    later,
                    start,
                    list,
                    0,
                    Map::empty(),
                ) == lengths_replay(
                    later,
                    backend.history().len() as int,
                    list,
                    i as int,
                    lengths@,
                ),
        decreases keys.len() - i,
    {
        let key: ObjectKey = keys[i];
        let ghost known = backend.history();
        let ghost before = lengths@;
        let length: Result<Option<StoredBytes>, StoreError> = stat(backend, key);
        proof {
            let h = backend.history();
            assert(lengths_replay(h, start, list, 0, Map::empty()) == lengths_replay(
                h,
                known.len() as int,
                list,
                i as int,
                before,
            ));
        }
        let length: StoredBytes = match length? {
            Some(length) => length,
            None => {
                return Err(StoreError::Backend(BackendError::Missing(key)));
            },
        };
        lengths.insert(key, length.value);
        proof {
            assert forall|later: Seq<Event>|
                #![trigger lengths_replay(later, start, list, 0, Map::empty())]
                adapter::extends(backend.history(), later) implies lengths_replay(
                later,
                start,
                list,
                0,
                Map::empty(),
            ) == lengths_replay(
                later,
                backend.history().len() as int,
                list,
                i as int + 1,
                lengths@,
            ) by {
                assert(adapter::extends(known, later));
                assert(fetch::stat_replay(later, known.len() as int, key) == fetch::stat_replay(
                    backend.history(),
                    known.len() as int,
                    key,
                ));
                assert(lengths_replay(later, start, list, 0, Map::empty()) == lengths_replay(
                    later,
                    known.len() as int,
                    list,
                    i as int,
                    before,
                ));
            }
        }
        i += 1;
    }
    proof {
        let h = backend.history();
        assert(lengths_replay(h, start, list, 0, Map::empty()) == lengths_replay(
            h,
            h.len() as int,
            list,
            i as int,
            lengths@,
        ));
    }
    Ok(lengths)
}

/// The manifests of a view: its own, and those that it was resolved through.
pub open spec fn manifests_of(id: ManifestId, ancestors: Seq<ManifestId>) -> Set<ManifestId> {
    ancestors.to_set().insert(id)
}

/// The objects of a view that are no packs: manifests, then dictionaries.
pub open spec fn object_list(id: ManifestId, metadata: ValidatedModel) -> Seq<ObjectKey> {
    order::roll::<ManifestId>(manifests_of(id, metadata.ancestors)).map_values(
        |m: ManifestId| ObjectKey::Manifest(m),
    ) + order::roll::<DictionaryId>(metadata.view.dictionaries()).map_values(
        |d: DictionaryId| ObjectKey::Dictionary(d),
    )
}

/// What a pinned view holds.
#[verifier::ext_equal]
pub struct PinModel {
    pub id: ManifestId,
    pub metadata: ValidatedModel,
    pub dictionaries: Map<DictionaryId, Seq<u8>>,
    pub lengths: Map<ObjectKey, u64>,
}

/// What pinning a view came to.
pub open spec fn open_replay(
    history: Seq<Event>,
    at: int,
    id: ManifestId,
    endpoints: Seq<(Seq<u8>, Seq<u8>)>,
    placements: Map<Seq<u8>, Seq<u8>>,
) -> Replay<PinModel> {
    match resolve::metadata_replay(history, at, id, endpoints) {
        Replay::Astray => Replay::Astray,
        Replay::Done(Err(error), next) => Replay::Done(Err(error), next),
        Replay::Done(Ok(metadata), next) => match dictionaries_replay(
            history,
            next,
            order::roll::<DictionaryId>(metadata.view.dictionaries()),
            0,
            Map::empty(),
        ) {
            Replay::Astray => Replay::Astray,
            Replay::Done(Err(error), next) => Replay::Done(Err(error), next),
            Replay::Done(Ok(dictionaries), next) => match builder::ranges_check(metadata.view, placements) {
                Err(error) => Replay::Done(Err(error), next),
                Ok(_) => match lengths_replay(
                    history,
                    next,
                    object_list(id, metadata),
                    0,
                    Map::empty(),
                ) {
                    Replay::Astray => Replay::Astray,
                    Replay::Done(Err(error), next) => Replay::Done(Err(error), next),
                    Replay::Done(Ok(lengths), next) => Replay::Done(
                        Ok(PinModel { id, metadata, dictionaries, lengths }),
                        next,
                    ),
                },
            },
        },
    }
}

pub proof fn lemma_open_settled(
    before: Seq<Event>,
    after: Seq<Event>,
    at: int,
    id: ManifestId,
    endpoints: Seq<(Seq<u8>, Seq<u8>)>,
    placements: Map<Seq<u8>, Seq<u8>>,
)
    requires
        adapter::extends(before, after),
        open_replay(before, at, id, endpoints, placements) is Done,
    ensures
        open_replay(after, at, id, endpoints, placements) == open_replay(
            before,
            at,
            id,
            endpoints,
            placements,
        ),
{
    resolve::lemma_metadata_settled(before, after, at, id, endpoints);
    match resolve::metadata_replay(before, at, id, endpoints) {
        Replay::Done(Ok(metadata), next) => {
            let ids = order::roll::<DictionaryId>(metadata.view.dictionaries());
            lemma_dictionaries_settled(before, after, next, ids, 0, Map::empty());
            match dictionaries_replay(before, next, ids, 0, Map::empty()) {
                Replay::Done(Ok(_), next) => if builder::ranges_check(metadata.view, placements) is Ok {
                    lemma_lengths_settled(
                        before,
                        after,
                        next,
                        object_list(id, metadata),
                        0,
                        Map::empty(),
                    );
                },
                _ => {},
            }
        },
        _ => {},
    }
}

/// A view that is pinned for reading: its metadata, its dictionaries, and a fixed
/// choice of places for its packs.
#[derive(Debug)]
pub struct PinnedView {
    id: ManifestId,
    home: BackendId,
    metadata: ValidatedMetadata,
    dictionaries: OrderedMap<DictionaryId, DecodingDictionary>,
    lengths: OrderedMap<ObjectKey, u64>,
    placement: PlacementPin,
}

impl View for PinnedView {
    type V = PinModel;

    closed spec fn view(&self) -> PinModel {
        PinModel {
            id: self.id,
            metadata: self.metadata@,
            dictionaries: self.dictionaries@,
            lengths: self.lengths@,
        }
    }
}

fn list_objects(id: ManifestId, metadata: &ValidatedMetadata) -> (keys: Vec<ObjectKey>)
    ensures
        keys@ == object_list(id, metadata@),
{
    let mut manifests: OrderedSet<ManifestId> = OrderedSet::new();
    manifests.insert(id);
    let ancestors: &Vec<ManifestId> = metadata.ancestors();
    let mut i: usize = 0;
    while i < ancestors.len()
        invariant
            i <= ancestors@.len(),
            ancestors@ == metadata@.ancestors,
            forall|m: ManifestId| #[trigger]
                manifests@.contains(m) ==> manifests_of(id, metadata@.ancestors).contains(m),
            manifests@.contains(id),
            forall|j: int| 0 <= j < i ==> manifests@.contains(#[trigger] ancestors@[j]),
        decreases ancestors.len() - i,
    {
        assert(ancestors@.contains(ancestors@[i as int]));
        manifests.insert(ancestors[i]);
        i += 1;
    }
    assert(manifests@ =~= manifests_of(id, metadata@.ancestors));
    let dictionaries: OrderedSet<DictionaryId> = metadata.resolved().dictionaries();
    let mut keys: Vec<ObjectKey> = Vec::new();
    let count: usize = manifests.len();
    let mut k: usize = 0;
    while k < count
        invariant
            k <= count,
            count == manifests.walk().len(),
            keys@ =~= manifests.walk().take(k as int).map_values(
                |m: ManifestId| ObjectKey::Manifest(m),
            ),
        decreases count - k,
    {
        keys.push(ObjectKey::Manifest(*manifests.at(k)));
        k += 1;
    }
    let ghost first = manifests.walk().map_values(|m: ManifestId| ObjectKey::Manifest(m));
    assert(keys@ =~= first);
    let count: usize = dictionaries.len();
    let mut k: usize = 0;
    while k < count
        invariant
            k <= count,
            count == dictionaries.walk().len(),
            keys@ =~= first + dictionaries.walk().take(k as int).map_values(
                |d: DictionaryId| ObjectKey::Dictionary(d),
            ),
        decreases count - k,
    {
        keys.push(ObjectKey::Dictionary(*dictionaries.at(k)));
        k += 1;
    }
    assert(dictionaries.walk().take(k as int) =~= dictionaries.walk());
    keys
}

proof fn lemma_packs_checked(packs: Seq<PackId>, entries: Map<Seq<u8>, Seq<u8>>, i: int, j: int)
    requires
        0 <= i <= j < packs.len(),
        builder::packs_check(packs, entries, i) is Ok,
    ensures
        pin::entry_placement(entries, packs[j]) is Ok,
    decreases j - i,
{
    if i < j {
        lemma_packs_checked(packs, entries, i + 1, j);
    }
}

impl PinnedView {
    /// The places that were chosen for the packs.
    pub closed spec fn chosen(&self) -> Map<PackId, PlacementsModel> {
        self.placement.chosen()
    }

    pub closed spec fn at_home(&self) -> BackendId {
        self.home
    }

    /// Every pack of the view has a place.
    #[verifier::type_invariant]
    spec fn placed(&self) -> bool {
        self.placement.chosen().dom() == self.metadata@.view.packs()
    }

    pub fn id(&self) -> (id: ManifestId)
        ensures
            id == self@.id,
    {
        self.id
    }

    pub fn metadata(&self) -> (metadata: &ValidatedMetadata)
        ensures
            metadata@ == self@.metadata,
    {
        &self.metadata
    }

    pub fn placement(&self) -> (placement: &PlacementPin)
        ensures
            placement.chosen() == self.chosen(),
    {
        &self.placement
    }

    /// The dictionaries that the view's frames are decoded with.
    pub fn dictionaries(&self) -> (dictionaries: &OrderedMap<DictionaryId, DecodingDictionary>)
        ensures
            dictionaries@ == self@.dictionaries,
    {
        &self.dictionaries
    }

    pub fn lengths(&self) -> (lengths: &OrderedMap<ObjectKey, u64>)
        ensures
            lengths@ == self@.lengths,
    {
        &self.lengths
    }

    /// Whether the view was pinned in a namespace.
    pub fn same_catalog(&self, home: &BackendId) -> (same: bool)
        ensures
            same == (*home == self.at_home()),
    {
        self.home.same(home)
    }

    /// Pins a view, given the endpoints and placements of the catalog. Every
    /// dictionary of the view is loaded. The decompressor may fail on any envelope
    /// and on any dictionary.
    pub fn open<B: StorageBackend>(
        backend: &mut B,
        endpoints: &OrderedMap<Vec<u8>, Vec<u8>>,
        placements: &OrderedMap<Vec<u8>, Vec<u8>>,
        id: ManifestId,
    ) -> (view: Result<PinnedView, StoreError>)
        ensures
            final(backend).namespace() == old(backend).namespace(),
            adapter::extends(old(backend).history(), final(backend).history()),
            adapter::quiet(old(backend).history(), final(backend).history()),
            match view {
                Ok(v) => open_replay(
                    final(backend).history(),
                    old(backend).history().len() as int,
                    id,
                    endpoints.pairs(),
                    placements@,
                ) == Replay::Done(
                    Ok::<PinModel, StoreError>(v@),
                    final(backend).history().len() as int,
                ) && v.at_home() == old(backend).namespace() && v.chosen().dom()
                    == v@.metadata.view.packs() && forall|pack: PackId|
                    #[trigger] v.chosen().dom().contains(pack) ==> pin::entry_placement(
                        placements@,
                        pack,
                    ) == Ok::<PlacementsModel, StoreError>(v.chosen()[pack]),
                Err(e) => opening::unopened(e, old(backend).history(), final(backend).history()) || open_replay(
                    final(backend).history(),
                    old(backend).history().len() as int,
                    id,
                    endpoints.pairs(),
                    placements@,
                ) == Replay::Done(
                    Err::<PinModel, StoreError>(e),
                    final(backend).history().len() as int,
                ),
            },
    {
        let ghost h0 = backend.history();
        let home: BackendId = backend.identity();
        let metadata: ValidatedMetadata = load_metadata(backend, endpoints, id)?;
        let ghost h1 = backend.history();
        let ids: OrderedSet<DictionaryId> = metadata.resolved().dictionaries();
        let dictionaries: Result<OrderedMap<DictionaryId, DecodingDictionary>, StoreError> =
            read_dictionaries(backend, &ids);
        let ghost h2 = backend.history();
        proof {
            resolve::lemma_metadata_settled(h1, h2, h0.len() as int, id, endpoints.pairs());
        }
        let dictionaries: OrderedMap<DictionaryId, DecodingDictionary> = dictionaries?;
        match validate_ranges(metadata.resolved(), placements) {
            Ok(_) => {},
            Err(error) => {
                return Err(error);
            },
        }
        let keys: Vec<ObjectKey> = list_objects(id, &metadata);
        let lengths: Result<OrderedMap<ObjectKey, u64>, StoreError> = read_lengths(backend, &keys);
        let ghost h3 = backend.history();
        proof {
            resolve::lemma_metadata_settled(h1, h3, h0.len() as int, id, endpoints.pairs());
            lemma_dictionaries_settled(h2, h3, h1.len() as int, ids.walk(), 0, Map::empty());
        }
        let lengths: OrderedMap<ObjectKey, u64> = lengths?;
        let packs: OrderedSet<PackId> = metadata.resolved().packs();
        let placement: PlacementPin = match PlacementPin::new(placements, &packs) {
            Ok(placement) => placement,
            Err(error) => {
                proof {
                    let i = choose|i: int|
                        0 <= i < packs.walk().len() && pin::entry_placement(
                            placements@,
                            #[trigger] packs.walk()[i],
                        ) == Err::<PlacementsModel, StoreError>(error) && forall|j: int|
                            0 <= j < i ==> pin::entry_placement(
                                placements@,
                                #[trigger] packs.walk()[j],
                            ) is Ok;
                    lemma_packs_checked(packs.walk(), placements@, 0, i);
                    assert(false);
                }
                return Err(error);
            },
        };
        Ok(PinnedView { id, home, metadata, dictionaries, lengths, placement })
    }
}

} // verus!
