//! What the roots of a namespace reach.

use crate::adapter;
use crate::adapter::{Event, StorageBackend};
use crate::bytes;
use crate::bytes::{all_zero, copied, same_bytes};
use crate::catalog;
use crate::catalog::Head;
use crate::domain::{
    CompressionDictionary, DictionaryId, FrameId, Id, ManifestId, PackId, PayloadEncoding,
};
use crate::error::StoreError;
use crate::fetch::Replay;
use crate::format::ActiveHeader;
use crate::frame;
use crate::keys;
use crate::keys::CatalogKey;
use crate::objects;
use crate::objects::{LocalAttachment, validate_attachment, validate_descriptor};
use crate::opening;
use crate::order;
use crate::order::{Key, OrderedSet};
use crate::pinned::{PinModel, PinnedView};
use crate::resolve;
use crate::resolve::load_metadata;
use crate::retention;
use crate::retention::{Retained, pin, pin_retained, root_names};
use crate::segment::{ParentRef, resolve_parent};
use crate::state::{State, StateModel};
use crate::text;
use crate::text::parse_hex;
use crate::validation::{ValidatedMetadata, ValidatedModel};
use vstd::prelude::*;
use vstd::string::*;
use vstd::utf8::*;

verus! {

/// What the view of a manifest needs: its manifest and those that it stands on,
/// its packs and its dictionaries.
pub open spec fn dependencies(id: ManifestId, metadata: ValidatedModel) -> Set<CatalogKey> {
    Set::new(
        |key: CatalogKey|
            match key {
                CatalogKey::Manifest(manifest) => manifest == id || metadata.ancestors.contains(
                    manifest,
                ),
                CatalogKey::Pack(pack) => metadata.view.packs().contains(pack),
                CatalogKey::Dictionary(dictionary) => metadata.view.dictionaries().contains(
                    dictionary,
                ),
                CatalogKey::Staging(_) => false,
            },
    )
}

/// What the view of a manifest needs.
pub fn dependencies_of(id: ManifestId, metadata: &ValidatedMetadata) -> (keys: OrderedSet<CatalogKey>)
    ensures
        keys@ == dependencies(id, metadata@),
{
    let mut keys: OrderedSet<CatalogKey> = OrderedSet::new();
    keys.insert(CatalogKey::Manifest(id));
    let ancestors: &Vec<ManifestId> = metadata.ancestors();
    let mut i: usize = 0;
    while i < ancestors.len()
        invariant
            i <= ancestors@.len(),
            ancestors@ == metadata@.ancestors,
            forall|key: CatalogKey| #[trigger]
                keys@.contains(key) <==> (key matches CatalogKey::Manifest(manifest) && (manifest
                    == id || exists|j: int| 0 <= j < i && ancestors@[j] == manifest)),
        decreases ancestors.len() - i,
    {
        keys.insert(CatalogKey::Manifest(ancestors[i]));
        i += 1;
    }
    let packs: OrderedSet<PackId> = metadata.resolved().packs();
    let count: usize = packs.len();
    let ghost manifests = keys@;
    let ghost walk = packs.walk();
    let mut i: usize = 0;
    while i < count
        invariant
            i <= count,
            count == walk.len(),
            walk == packs.walk(),
            forall|key: CatalogKey| #[trigger]
                keys@.contains(key) <==> (manifests.contains(key) || (key matches CatalogKey::Pack(
                    pack,
                ) && exists|j: int| 0 <= j < i && walk[j] == pack)),
        decreases count - i,
    {
        keys.insert(CatalogKey::Pack(*packs.at(i)));
        i += 1;
    }
    let ghost stored = keys@;
    let dictionaries: OrderedSet<DictionaryId> = metadata.resolved().dictionaries();
    let count: usize = dictionaries.len();
    let ghost names = dictionaries.walk();
    let mut i: usize = 0;
    while i < count
        invariant
            i <= count,
            count == names.len(),
            names == dictionaries.walk(),
            forall|key: CatalogKey| #[trigger]
                keys@.contains(key) <==> (stored.contains(key) || (
                key matches CatalogKey::Dictionary(dictionary) && exists|j: int|
                    0 <= j < i && names[j] == dictionary)),
        decreases count - i,
    {
        keys.insert(CatalogKey::Dictionary(*dictionaries.at(i)));
        i += 1;
    }
    assert(keys@ =~= dependencies(id, metadata@)) by {
        let goal = dependencies(id, metadata@);
        assert forall|key: CatalogKey| keys@.contains(key) == goal.contains(key) by {
            match key {
                CatalogKey::Manifest(manifest) => {
                    if metadata@.ancestors.contains(manifest) {
                        let j = metadata@.ancestors.index_of(manifest);
                        assert(ancestors@[j] == manifest);
                    }
                    assert(keys@.contains(key) == stored.contains(key));
                    assert(stored.contains(key) == manifests.contains(key));
                },
                CatalogKey::Pack(pack) => {
                    assert(keys@.contains(key) == stored.contains(key));
                    assert(!manifests.contains(key));
                    assert(walk.to_set().contains(pack) == packs@.contains(pack));
                    if packs@.contains(pack) {
                        let j = walk.index_of(pack);
                        assert(walk[j] == pack);
                    }
                    if stored.contains(key) {
                        let j = choose|j: int| 0 <= j < walk.len() && walk[j] == pack;
                        assert(walk.contains(pack));
                    }
                },
                CatalogKey::Dictionary(dictionary) => {
                    assert(!stored.contains(key));
                    assert(names.to_set().contains(dictionary) == dictionaries@.contains(
                        dictionary,
                    ));
                    if dictionaries@.contains(dictionary) {
                        let j = names.index_of(dictionary);
                        assert(names[j] == dictionary);
                    }
                    if keys@.contains(key) {
                        let j = choose|j: int| 0 <= j < names.len() && names[j] == dictionary;
                        assert(names.contains(dictionary));
                    }
                },
                CatalogKey::Staging(_) => {
                    assert(!stored.contains(key));
                },
            }
        }
    }
    keys
}

/// A reader's lease, by its name. One that is busy has a reader.
#[derive(Debug)]
pub struct Lease {
    pub name: String,
    pub busy: bool,
}

impl Lease {
    /// The bytes of the name.
    pub open spec fn bytes(self) -> Seq<u8> {
        encode_utf8(self.name@)
    }
}

/// What the local side knows of the roots, gathered while the catalog is held.
pub struct LocalRoots<'a> {
    /// The beginning of the active file, if there is one.
    pub active: Option<&'a Vec<u8>>,
    pub attachment: LocalAttachment<'a>,
    /// The policies that the store accepts.
    pub accepted: &'a OrderedSet<Vec<u8>>,
    /// The leases on manifests.
    pub readers: &'a Vec<Lease>,
    /// The leases on objects.
    pub objects: &'a Vec<Lease>,
}

/// What a store that accepts some policies says of a header's.
pub open spec fn policy_check(accepted: Set<Seq<u8>>, header: ActiveHeader) -> Result<
    (),
    StoreError,
> {
    if accepted.contains(header.policy@) {
        Ok(())
    } else {
        Err(StoreError::InvalidConfiguration(POLICY_RULE))
    }
}

/// What a header's policy must be.
pub const POLICY_RULE: &'static str = "the storage policy is not valid";

pub(crate) fn check_policy(accepted: &OrderedSet<Vec<u8>>, header: &ActiveHeader) -> (done: Result<
    (),
    StoreError,
>)
    ensures
        done == policy_check(accepted@, *header),
{
    let policy: Vec<u8> = copied(header.policy.as_slice());
    if accepted.contains(&policy) {
        Ok(())
    } else {
        Err(StoreError::InvalidConfiguration(POLICY_RULE))
    }
}

/// The manifest that a header continues.
pub open spec fn continued(header: ActiveHeader) -> ManifestId {
    frame::id_of(header.parent_physical_digest@)
}

/// A root of the namespace.
#[derive(Clone, Copy, Debug, PartialEq, Eq)]
pub enum Root {
    /// The view that a header continues: that of the active file, or one that a
    /// head has sealed. `named` views count as retained by their owner.
    Described { header: ActiveHeader, active: bool, named: bool },
    /// The view of an endpoint that is retained.
    Retained(Retained),
    /// As `Retained`, where only the pinning matters.
    Checked(Retained),
    /// The view that a reader holds.
    Reader(ManifestId),
    /// The metadata of a manifest.
    Metadata(ManifestId),
    /// An object that a reader holds.
    Object(CatalogKey),
}

/// What pinning the view that a header continues came to.
pub open spec fn described_replay(
    history: Seq<Event>,
    at: int,
    state: StateModel,
    accepted: Set<Seq<u8>>,
    header: ActiveHeader,
) -> Replay<PinModel> {
    match retention::view_replay(history, at, state, continued(header)) {
        Replay::Astray => Replay::Astray,
        Replay::Done(Err(error), next) => Replay::Done(Err(error), next),
        Replay::Done(Ok(view), next) => match objects::descriptor_check(
            state,
            header,
            policy_check(accepted, header),
            view,
        ) {
            Err(error) => Replay::Done(Err(error), next),
            Ok(_) => Replay::Done(Ok(view), next),
        },
    }
}

/// What a view that was pinned needs.
pub open spec fn needs(view: Replay<PinModel>) -> Replay<Set<CatalogKey>> {
    match view {
        Replay::Astray => Replay::Astray,
        Replay::Done(Err(error), next) => Replay::Done(Err(error), next),
        Replay::Done(Ok(view), next) => Replay::Done(Ok(dependencies(view.id, view.metadata)), next),
    }
}

/// What following a root came to: the objects that it reaches.
pub open spec fn root_replay(
    history: Seq<Event>,
    at: int,
    state: StateModel,
    accepted: Set<Seq<u8>>,
    root: Root,
) -> Replay<Set<CatalogKey>> {
    match root {
        Root::Described { header, active, named } => needs(
            described_replay(history, at, state, accepted, header),
        ),
        Root::Retained(root) => needs(retention::retained_replay(history, at, state, root)),
        Root::Checked(root) => match retention::retained_replay(history, at, state, root) {
            Replay::Astray => Replay::Astray,
            Replay::Done(Err(error), next) => Replay::Done(Err(error), next),
            Replay::Done(Ok(_), next) => Replay::Done(Ok(Set::empty()), next),
        },
        Root::Reader(id) => needs(retention::view_replay(history, at, state, id)),
        Root::Metadata(id) => match resolve::metadata_replay(
            history,
            at,
            id,
            order::listing::<Vec<u8>, Seq<u8>>(state.endpoints.entries),
        ) {
            Replay::Astray => Replay::Astray,
            Replay::Done(Err(error), next) => Replay::Done(Err(error), next),
            Replay::Done(Ok(metadata), next) => Replay::Done(Ok(dependencies(id, metadata)), next),
        },
        Root::Object(key) => Replay::Done(Ok(set![key]), at),
    }
}

proof fn lemma_root_settled(
    before: Seq<Event>,
    after: Seq<Event>,
    at: int,
    state: StateModel,
    accepted: Set<Seq<u8>>,
    root: Root,
)
    requires
        adapter::extends(before, after),
        root_replay(before, at, state, accepted, root) is Done,
    ensures
        root_replay(after, at, state, accepted, root) == root_replay(
            before,
            at,
            state,
            accepted,
            root,
        ),
{
    match root {
        Root::Described { header, active, named } => {
            retention::lemma_view_settled(before, after, at, state, continued(header));
        },
        Root::Retained(root) => {
            retention::lemma_retained_settled(before, after, at, state, root);
        },
        Root::Checked(root) => {
            retention::lemma_retained_settled(before, after, at, state, root);
        },
        Root::Reader(id) => {
            retention::lemma_view_settled(before, after, at, state, id);
        },
        Root::Metadata(id) => {
            resolve::lemma_metadata_settled(
                before,
                after,
                at,
                id,
                order::listing::<Vec<u8>, Seq<u8>>(state.endpoints.entries),
            );
        },
        Root::Object(_) => {},
    }
}

fn needed(view: &PinnedView) -> (keys: OrderedSet<CatalogKey>)
    ensures
        keys@ == dependencies(view@.id, view@.metadata),
{
    dependencies_of(view.id(), view.metadata())
}

/// Follows a root: the objects that it reaches. The decompressor may fail on any
/// envelope.
pub fn follow<B: StorageBackend>(
    backend: &mut B,
    state: &State,
    accepted: &OrderedSet<Vec<u8>>,
    root: &Root,
) -> (keys: Result<OrderedSet<CatalogKey>, StoreError>)
    ensures
        final(backend).namespace() == old(backend).namespace(),
        adapter::extends(old(backend).history(), final(backend).history()),
        adapter::quiet(old(backend).history(), final(backend).history()),
        match keys {
            Ok(k) => root_replay(
                final(backend).history(),
                old(backend).history().len() as int,
                state@,
                accepted@,
                *root,
            ) == Replay::Done(
                Ok::<Set<CatalogKey>, StoreError>(k@),
                final(backend).history().len() as int,
            ),
            Err(e) => opening::unopened(e, old(backend).history(), final(backend).history()) || root_replay(
                final(backend).history(),
                old(backend).history().len() as int,
                state@,
                accepted@,
                *root,
            ) == Replay::Done(
                Err::<Set<CatalogKey>, StoreError>(e),
                final(backend).history().len() as int,
            ),
        },
{
    match root {
        Root::Described { header, active: _, named: _ } => {
            let id: ManifestId = Id { bytes: header.parent_physical_digest };
            proof {
                frame::lemma_id_of(id);
            }
            let view: PinnedView = pin(backend, state, id)?;
            let policy: Result<(), StoreError> = check_policy(accepted, header);
            match validate_descriptor(state, header, policy, &view) {
                Err(error) => Err(error),
                Ok(_) => Ok(needed(&view)),
            }
        },
        Root::Retained(root) => {
            let view: PinnedView = pin_retained(backend, state, root)?;
            Ok(needed(&view))
        },
        Root::Checked(root) => {
            let _view: PinnedView = pin_retained(backend, state, root)?;
            let none: OrderedSet<CatalogKey> = OrderedSet::new();
            assert(none@ =~= Set::<CatalogKey>::empty());
            Ok(none)
        },
        Root::Reader(id) => {
            let view: PinnedView = pin(backend, state, *id)?;
            Ok(needed(&view))
        },
        Root::Metadata(id) => {
            let metadata: ValidatedMetadata = load_metadata(backend, state.endpoints.entries(), *id)?;
            Ok(dependencies_of(*id, &metadata))
        },
        Root::Object(key) => {
            let mut keys: OrderedSet<CatalogKey> = OrderedSet::new();
            keys.insert(*key);
            assert(keys@ =~= set![*key]);
            Ok(keys)
        },
    }
}

/// What was reached: everything, what the active file's view needs, and what
/// named owners retain.
#[verifier::ext_equal]
pub struct TraceModel {
    pub live: Set<CatalogKey>,
    pub current: Set<CatalogKey>,
    pub named: Set<CatalogKey>,
}

impl TraceModel {
    pub open spec fn start() -> TraceModel {
        TraceModel { live: Set::empty(), current: Set::empty(), named: Set::empty() }
    }

    /// With what a root reaches.
    pub open spec fn with(self, root: Root, keys: Set<CatalogKey>) -> TraceModel {
        let active = root matches Root::Described { header, active, named } && active;
        let owned = root is Retained || (root matches Root::Described { header, active, named }
            && named);
        TraceModel {
            live: self.live.union(keys),
            current: if active {
                self.current.union(keys)
            } else {
                self.current
            },
            named: if owned {
                self.named.union(keys)
            } else {
                self.named
            },
        }
    }
}

/// What following some roots, from place `i` on, came to.
pub open spec fn trace_replay(
    history: Seq<Event>,
    at: int,
    state: StateModel,
    accepted: Set<Seq<u8>>,
    roots: Seq<Root>,
    i: int,
    so_far: TraceModel,
) -> Replay<TraceModel>
    decreases roots.len() - i,
{
    if i < 0 || i >= roots.len() {
        Replay::Done(Ok(so_far), at)
    } else {
        match root_replay(history, at, state, accepted, roots[i]) {
            Replay::Astray => Replay::Astray,
            Replay::Done(Err(error), next) => Replay::Done(Err(error), next),
            Replay::Done(Ok(keys), next) => trace_replay(
                history,
                next,
                state,
                accepted,
                roots,
                i + 1,
                so_far.with(roots[i], keys),
            ),
        }
    }
}

pub proof fn lemma_trace_settled(
    before: Seq<Event>,
    after: Seq<Event>,
    at: int,
    state: StateModel,
    accepted: Set<Seq<u8>>,
    roots: Seq<Root>,
    i: int,
    so_far: TraceModel,
)
    requires
        adapter::extends(before, after),
        trace_replay(before, at, state, accepted, roots, i, so_far) is Done,
    ensures
        trace_replay(after, at, state, accepted, roots, i, so_far) == trace_replay(
            before,
            at,
            state,
            accepted,
            roots,
            i,
            so_far,
        ),
    decreases roots.len() - i,
{
    if 0 <= i < roots.len() {
        lemma_root_settled(before, after, at, state, accepted, roots[i]);
        match root_replay(before, at, state, accepted, roots[i]) {
            Replay::Done(Ok(keys), next) => lemma_trace_settled(
                before,
                after,
                next,
                state,
                accepted,
                roots,
                i + 1,
                so_far.with(roots[i], keys),
            ),
            _ => {},
        }
    }
}

/// What was reached.
#[derive(Debug)]
pub struct Trace {
    pub live: OrderedSet<CatalogKey>,
    pub current: OrderedSet<CatalogKey>,
    pub named: OrderedSet<CatalogKey>,
}

impl View for Trace {
    type V = TraceModel;

    open spec fn view(&self) -> TraceModel {
        TraceModel { live: self.live@, current: self.current@, named: self.named@ }
    }
}

/// Adds every key of a set to another.
pub fn absorb<K: Key>(set: &mut OrderedSet<K>, other: &OrderedSet<K>)
    ensures
        final(set)@ == old(set)@.union(other@),
{
    let count: usize = other.len();
    let ghost walk = other.walk();
    let mut i: usize = 0;
    while i < count
        invariant
            i <= count,
            count == walk.len(),
            walk == other.walk(),
            walk.to_set() == other@,
            set@ == old(set)@.union(walk.take(i as int).to_set()),
        decreases count - i,
    {
        let key: K = other.at(i).duplicate();
        proof {
            let short = walk.take(i as int);
            assert(walk.take(i as int + 1) =~= short.push(walk[i as int]));
            assert(short.push(walk[i as int]).to_set() =~= short.to_set().insert(walk[i as int])) by {
                let long = short.push(walk[i as int]);
                assert forall|x: K::Model|
                    long.contains(x) == (short.contains(x) || x == walk[i as int]) by {
                    if short.contains(x) {
                        let k = short.index_of(x);
                        assert(long[k] == x);
                    }
                    if x == walk[i as int] {
                        assert(long[short.len() as int] == x);
                    }
                }
            }
        }
        set.insert(key);
        assert(set@ =~= old(set)@.union(walk.take(i as int + 1).to_set()));
        i += 1;
    }
    assert(walk.take(i as int) =~= walk);
}

impl Trace {
    /// Nothing was reached.
    pub fn new() -> (trace: Trace)
        ensures
            trace@ == TraceModel::start(),
    {
        Trace { live: OrderedSet::new(), current: OrderedSet::new(), named: OrderedSet::new() }
    }

    fn add(&mut self, root: &Root, keys: &OrderedSet<CatalogKey>)
        ensures
            final(self)@ == old(self)@.with(*root, keys@),
    {
        absorb(&mut self.live, keys);
        match root {
            Root::Described { header: _, active, named } => {
                if *active {
                    absorb(&mut self.current, keys);
                }
                if *named {
                    absorb(&mut self.named, keys);
                }
            },
            Root::Retained(_) => {
                absorb(&mut self.named, keys);
            },
            _ => {},
        }
    }

    /// Follows some roots.
    pub fn follow_all<B: StorageBackend>(
        backend: &mut B,
        state: &State,
        accepted: &OrderedSet<Vec<u8>>,
        roots: &Vec<Root>,
    ) -> (trace: Result<Trace, StoreError>)
        ensures
            final(backend).namespace() == old(backend).namespace(),
            adapter::extends(old(backend).history(), final(backend).history()),
            adapter::quiet(old(backend).history(), final(backend).history()),
            match trace {
                Ok(t) => trace_replay(
                    final(backend).history(),
                    old(backend).history().len() as int,
                    state@,
                    accepted@,
                    roots@,
                    0,
                    TraceModel::start(),
                ) == Replay::Done(
                    Ok::<TraceModel, StoreError>(t@),
                    final(backend).history().len() as int,
                ),
                Err(e) => opening::unopened(e, old(backend).history(), final(backend).history()) || trace_replay(
                    final(backend).history(),
                    old(backend).history().len() as int,
                    state@,
                    accepted@,
                    roots@,
                    0,
                    TraceModel::start(),
                ) == Replay::Done(
                    Err::<TraceModel, StoreError>(e),
                    final(backend).history().len() as int,
                ),
            },
    {
        let ghost start = backend.history().len() as int;
        let ghost s = state@;
        let ghost a = accepted@;
        let ghost list = roots@;
        let ghost none = TraceModel::start();
        let mut trace: Trace = Trace::new();
        let mut i: usize = 0;
        while i < roots.len()
            invariant
                i <= roots@.len(),
                list == roots@,
                s == state@,
                a == accepted@,
                none == TraceModel::start(),
                start == old(backend).history().len(),
                backend.namespace() == old(backend).namespace(),
                adapter::extends(old(backend).history(), backend.history()),
                adapter::quiet(old(backend).history(), backend.history()),
                forall|later: Seq<Event>|
                    #![trigger trace_replay(later, start, s, a, list, 0, none)]
                    adapter::extends(backend.history(), later) ==> trace_replay(
                        later,
                        start,
                        s,
                        a,
                        list,
                        0,
                        none,
                    ) == trace_replay(
                        later,
                        backend.history().len() as int,
                        s,
                        a,
                        list,
                        i as int,
                        trace@,
                    ),
            decreases roots.len() - i,
        {
            let ghost known = backend.history();
            let ghost before = trace@;
            let root: Root = roots[i];
            let keys: Result<OrderedSet<CatalogKey>, StoreError> = follow(
                backend,
                state,
                accepted,
                &root,
            );
            proof {
                let h = backend.history();
                assert(list[i as int] == root);
                assert(trace_replay(h, start, s, a, list, 0, none) == trace_replay(
                    h,
                    known.len() as int,
                    s,
                    a,
                    list,
                    i as int,
                    before,
                ));
            }
            let keys: OrderedSet<CatalogKey> = match keys {
                Ok(keys) => keys,
                Err(error) => {
                    return Err(error);
                },
            };
            trace.add(&root, &keys);
            proof {
                assert forall|later: Seq<Event>|
                    #![trigger trace_replay(later, start, s, a, list, 0, none)]
                    adapter::extends(backend.history(), later) implies trace_replay(
                    later,
                    start,
                    s,
                    a,
                    list,
                    0,
                    none,
                ) == trace_replay(
                    later,
                    backend.history().len() as int,
                    s,
                    a,
                    list,
                    i as int + 1,
                    trace@,
                ) by {
                    assert(adapter::extends(known, later));
                    lemma_root_settled(backend.history(), later, known.len() as int, s, a, root);
                    assert(trace_replay(later, start, s, a, list, 0, none) == trace_replay(
                        later,
                        known.len() as int,
                        s,
                        a,
                        list,
                        i as int,
                        before,
                    ));
                }
            }
            i += 1;
        }
        proof {
            let h = backend.history();
            assert(trace_replay(h, start, s, a, list, 0, none) == trace_replay(
                h,
                h.len() as int,
                s,
                a,
                list,
                i as int,
                trace@,
            ));
        }
        Ok(trace)
    }
}

/// Some roots, and what stops the gathering of more.
pub type Gathered = (Seq<Root>, Option<StoreError>);

/// The root of the active file: the view that it continues, once its header and
/// its attachment were checked.
pub open spec fn active_roots(state: StateModel, local: LocalRoots<'_>) -> Gathered {
    match local.active {
        None => (Seq::empty(), None),
        Some(bytes) => match catalog::header_parse(bytes@) {
            Err(error) => (Seq::empty(), Some(error)),
            Ok(header) => match objects::attachment_check(state, header, local.attachment) {
                Err(error) => (Seq::empty(), Some(error)),
                Ok(_) => if header.parent_physical_digest@ == bytes::zeros(32) {
                    (Seq::empty(), None)
                } else {
                    (seq![Root::Described { header, active: true, named: false }], None)
                },
            },
        },
    }
}

/// A header continues the view that the selected head has sealed, or is about to.
pub open spec fn is_own(state: StateModel, header: ActiveHeader) -> bool {
    ||| state.sealed matches Some(own) && own.parent_physical_digest@
        == header.parent_physical_digest@
    ||| state.pending matches Some(own) && own.parent_physical_digest@
        == header.parent_physical_digest@
}

/// The root of a head's header.
pub open spec fn header_root(state: StateModel, header: Option<ActiveHeader>) -> Seq<Root> {
    match header {
        None => Seq::empty(),
        Some(header) => seq![
            Root::Described { header, active: false, named: !is_own(state, header) },
        ],
    }
}

/// The roots of the first `count` heads.
pub open spec fn head_roots(state: StateModel, heads: Seq<Head>, count: int) -> Seq<Root>
    decreases count,
{
    if count <= 0 {
        Seq::empty()
    } else {
        head_roots(state, heads, count - 1) + header_root(state, heads[count - 1].sealed)
            + header_root(state, heads[count - 1].pending)
    }
}

/// The roots of the first `count` pins.
pub open spec fn retained_roots(list: Seq<(Seq<u8>, Seq<u8>)>, count: int) -> Gathered
    decreases count,
{
    if count <= 0 {
        (Seq::empty(), None)
    } else {
        let prior = retained_roots(list, count - 1);
        if prior.1 is Some {
            prior
        } else {
            match retention::retained_parse(list[count - 1].1) {
                Err(error) => (prior.0, Some(error)),
                Ok(root) => (prior.0.push(Root::Retained(root)), None),
            }
        }
    }
}

/// The roots of the first `count` leases on manifests.
pub open spec fn reader_roots(leases: Seq<Lease>, count: int) -> Gathered
    decreases count,
{
    if count <= 0 {
        (Seq::empty(), None)
    } else {
        let prior = reader_roots(leases, count - 1);
        let name = leases[count - 1].bytes();
        if prior.1 is Some {
            prior
        } else if !text::is_hex(name) {
            (prior.0, Some(StoreError::Corrupt(0)))
        } else if leases[count - 1].busy {
            (prior.0.push(Root::Reader(frame::id_of(text::unhex(name)))), None)
        } else {
            prior
        }
    }
}

/// The roots of the first `count` leases on objects.
pub open spec fn object_roots(leases: Seq<Lease>, count: int) -> Gathered
    decreases count,
{
    if count <= 0 {
        (Seq::empty(), None)
    } else {
        let prior = object_roots(leases, count - 1);
        if prior.1 is Some {
            prior
        } else {
            match keys::lease_parse(leases[count - 1].bytes()) {
                Err(error) => (prior.0, Some(error)),
                Ok(key) => if leases[count - 1].busy {
                    (prior.0.push(Root::Object(key)), None)
                } else {
                    prior
                },
            }
        }
    }
}

/// Some roots, and then others, unless the first are stopped.
pub open spec fn and_then(first: Gathered, second: Gathered) -> Gathered {
    if first.1 is Some {
        first
    } else {
        (first.0 + second.0, second.1)
    }
}

/// The roots of every head, and of every pin.
pub open spec fn shared_roots(state: StateModel) -> Gathered {
    let list = order::listing::<Vec<u8>, Seq<u8>>(state.retentions.entries);
    match state.all_heads() {
        Err(error) => (Seq::empty(), Some(error)),
        Ok(heads) => and_then(
            (head_roots(state, heads, heads.len() as int), None),
            match retention::names_check(list, list.len() as int) {
                Err(error) => (Seq::empty(), Some(error)),
                Ok(_) => retained_roots(list, list.len() as int),
            },
        ),
    }
}

/// The roots of a namespace: the active file's, every head's, every pin's and
/// every reader's.
pub open spec fn gathered(state: StateModel, local: LocalRoots<'_>) -> Gathered {
    and_then(
        active_roots(state, local),
        and_then(
            shared_roots(state),
            and_then(
                reader_roots(local.readers@, local.readers@.len() as int),
                object_roots(local.objects@, local.objects@.len() as int),
            ),
        ),
    )
}

/// What tracing everything that is reachable came to.
pub open spec fn logical_replay(
    history: Seq<Event>,
    at: int,
    state: StateModel,
    local: LocalRoots<'_>,
) -> Replay<TraceModel> {
    stopped(
        trace_replay(
            history,
            at,
            state,
            local.accepted@,
            gathered(state, local).0,
            0,
            TraceModel::start(),
        ),
        gathered(state, local).1,
    )
}

/// A trace that ends with what stopped the gathering of its roots.
pub open spec fn stopped(trace: Replay<TraceModel>, error: Option<StoreError>) -> Replay<TraceModel> {
    match error {
        None => trace,
        Some(error) => match trace {
            Replay::Done(Ok(_), next) => Replay::Done(Err(error), next),
            _ => trace,
        },
    }
}

pub proof fn lemma_logical_settled(
    before: Seq<Event>,
    after: Seq<Event>,
    at: int,
    state: StateModel,
    local: LocalRoots<'_>,
)
    requires
        adapter::extends(before, after),
        logical_replay(before, at, state, local) is Done,
    ensures
        logical_replay(after, at, state, local) == logical_replay(before, at, state, local),
{
    lemma_trace_settled(
        before,
        after,
        at,
        state,
        local.accepted@,
        gathered(state, local).0,
        0,
        TraceModel::start(),
    );
}

proof fn lemma_retained_stop(list: Seq<(Seq<u8>, Seq<u8>)>, i: int, count: int)
    requires
        0 <= i <= count,
        retained_roots(list, i).1 is Some,
    ensures
        retained_roots(list, count) == retained_roots(list, i),
    decreases count - i,
{
    if i < count {
        lemma_retained_stop(list, i, count - 1);
    }
}

proof fn lemma_readers_stop(leases: Seq<Lease>, i: int, count: int)
    requires
        0 <= i <= count,
        reader_roots(leases, i).1 is Some,
    ensures
        reader_roots(leases, count) == reader_roots(leases, i),
    decreases count - i,
{
    if i < count {
        lemma_readers_stop(leases, i, count - 1);
    }
}

proof fn lemma_objects_stop(leases: Seq<Lease>, i: int, count: int)
    requires
        0 <= i <= count,
        object_roots(leases, i).1 is Some,
    ensures
        object_roots(leases, count) == object_roots(leases, i),
    decreases count - i,
{
    if i < count {
        lemma_objects_stop(leases, i, count - 1);
    }
}

fn gather_active(state: &State, local: &LocalRoots<'_>) -> (found: (Vec<Root>, Option<StoreError>))
    ensures
        (found.0@, found.1) == active_roots(state@, *local),
{
    let mut roots: Vec<Root> = Vec::new();
    assert(roots@ =~= Seq::<Root>::empty());
    match local.active {
        None => (roots, None),
        Some(bytes) => match ActiveHeader::decode(bytes.as_slice()) {
            Err(error) => (roots, Some(error)),
            Ok(header) => {
                proof {
                    catalog::lemma_header_parse(header);
                }
                match validate_attachment(state, &header, &local.attachment) {
                    Err(error) => (roots, Some(error)),
                    Ok(_) => {
                        if all_zero(header.parent_physical_digest.as_slice()) {
                            assert(header.parent_physical_digest@ =~= bytes::zeros(32));
                            (roots, None)
                        } else {
                            roots.push(Root::Described { header, active: true, named: false });
                            assert(roots@ =~= seq![
                                Root::Described { header, active: true, named: false },
                            ]);
                            (roots, None)
                        }
                    },
                }
            },
        },
    }
}

fn owns(state: &State, header: &ActiveHeader) -> (own: bool)
    ensures
        own == is_own(state@, *header),
{
    let sealed: bool = match &state.sealed {
        Some(own) => same_bytes(
            own.parent_physical_digest.as_slice(),
            header.parent_physical_digest.as_slice(),
        ),
        None => false,
    };
    let pending: bool = match &state.pending {
        Some(own) => same_bytes(
            own.parent_physical_digest.as_slice(),
            header.parent_physical_digest.as_slice(),
        ),
        None => false,
    };
    sealed || pending
}

fn push_header(state: &State, header: Option<ActiveHeader>, roots: &mut Vec<Root>)
    ensures
        final(roots)@ == old(roots)@ + header_root(state@, header),
{
    match header {
        None => {
            assert(roots@ =~= old(roots)@ + header_root(state@, header));
        },
        Some(found) => {
            let named: bool = !owns(state, &found);
            roots.push(Root::Described { header: found, active: false, named });
            assert(roots@ =~= old(roots)@ + header_root(state@, header));
        },
    }
}

fn gather_heads(state: &State, roots: &mut Vec<Root>, heads: &Vec<Head>)
    ensures
        final(roots)@ == old(roots)@ + head_roots(state@, heads@, heads@.len() as int),
{
    let mut i: usize = 0;
    assert(roots@ =~= old(roots)@ + head_roots(state@, heads@, 0));
    while i < heads.len()
        invariant
            i <= heads@.len(),
            roots@ == old(roots)@ + head_roots(state@, heads@, i as int),
        decreases heads.len() - i,
    {
        let ghost before = roots@;
        push_header(state, heads[i].sealed, roots);
        push_header(state, heads[i].pending, roots);
        assert(roots@ =~= old(roots)@ + head_roots(state@, heads@, i as int + 1));
        i += 1;
    }
}

fn gather_retained(state: &State, roots: &mut Vec<Root>) -> (refusal: Option<StoreError>)
    ensures
        ({
            let list = order::listing::<Vec<u8>, Seq<u8>>(state@.retentions.entries);
            let found = retained_roots(list, list.len() as int);
            final(roots)@ == old(roots)@ + found.0 && refusal == found.1
        }),
{
    let entries = state.retentions.entries();
    let ghost list = entries.pairs();
    let count: usize = entries.len();
    let mut i: usize = 0;
    assert(roots@ =~= old(roots)@ + retained_roots(list, 0).0);
    while i < count
        invariant
            i <= count,
            count == list.len(),
            list == entries.pairs(),
            list == order::listing::<Vec<u8>, Seq<u8>>(state@.retentions.entries),
            roots@ == old(roots)@ + retained_roots(list, i as int).0,
            retained_roots(list, i as int).1 is None,
        decreases count - i,
    {
        match Retained::decode(entries.value_at(i).as_slice()) {
            Err(error) => {
                proof {
                    lemma_retained_stop(list, i as int + 1, list.len() as int);
                }
                return Some(error);
            },
            Ok(root) => {
                roots.push(Root::Retained(root));
                assert(roots@ =~= old(roots)@ + retained_roots(list, i as int + 1).0);
            },
        }
        i += 1;
    }
    None
}

fn gather_readers(leases: &Vec<Lease>, roots: &mut Vec<Root>) -> (refusal: Option<StoreError>)
    ensures
        ({
            let found = reader_roots(leases@, leases@.len() as int);
            final(roots)@ == old(roots)@ + found.0 && refusal == found.1
        }),
{
    let mut i: usize = 0;
    assert(roots@ =~= old(roots)@ + reader_roots(leases@, 0).0);
    while i < leases.len()
        invariant
            i <= leases@.len(),
            roots@ == old(roots)@ + reader_roots(leases@, i as int).0,
            reader_roots(leases@, i as int).1 is None,
        decreases leases.len() - i,
    {
        match parse_hex(leases[i].name.as_str().as_bytes()) {
            Err(error) => {
                proof {
                    lemma_readers_stop(leases@, i as int + 1, leases@.len() as int);
                }
                return Some(error);
            },
            Ok(bytes) => {
                let id: ManifestId = Id { bytes };
                proof {
                    frame::lemma_id_of(id);
                }
                if leases[i].busy {
                    roots.push(Root::Reader(id));
                    assert(roots@ =~= old(roots)@ + reader_roots(leases@, i as int + 1).0);
                }
            },
        }
        i += 1;
    }
    None
}

fn gather_objects(leases: &Vec<Lease>, roots: &mut Vec<Root>) -> (refusal: Option<StoreError>)
    ensures
        ({
            let found = object_roots(leases@, leases@.len() as int);
            final(roots)@ == old(roots)@ + found.0 && refusal == found.1
        }),
{
    let mut i: usize = 0;
    assert(roots@ =~= old(roots)@ + object_roots(leases@, 0).0);
    while i < leases.len()
        invariant
            i <= leases@.len(),
            roots@ == old(roots)@ + object_roots(leases@, i as int).0,
            object_roots(leases@, i as int).1 is None,
        decreases leases.len() - i,
    {
        match CatalogKey::parse_lease(leases[i].name.as_str()) {
            Err(error) => {
                proof {
                    lemma_objects_stop(leases@, i as int + 1, leases@.len() as int);
                }
                return Some(error);
            },
            Ok(key) => {
                if leases[i].busy {
                    roots.push(Root::Object(key));
                    assert(roots@ =~= old(roots)@ + object_roots(leases@, i as int + 1).0);
                }
            },
        }
        i += 1;
    }
    None
}

fn gather_shared(state: &State, roots: &mut Vec<Root>) -> (refusal: Option<StoreError>)
    ensures
        final(roots)@ == old(roots)@ + shared_roots(state@).0,
        refusal == shared_roots(state@).1,
{
    let heads: Vec<Head> = match state.all_heads() {
        Err(error) => {
            assert(roots@ =~= old(roots)@ + shared_roots(state@).0);
            return Some(error);
        },
        Ok(heads) => heads,
    };
    gather_heads(state, roots, &heads);
    let ghost first = roots@;
    match root_names(state) {
        Err(error) => {
            assert(roots@ =~= old(roots)@ + shared_roots(state@).0);
            return Some(error);
        },
        Ok(_) => {},
    }
    let refusal: Option<StoreError> = gather_retained(state, roots);
    assert(roots@ =~= old(roots)@ + shared_roots(state@).0);
    refusal
}

/// The roots of a namespace, and what stops the gathering of more.
pub fn gather(state: &State, local: &LocalRoots<'_>) -> (found: (Vec<Root>, Option<StoreError>))
    ensures
        (found.0@, found.1) == gathered(state@, *local),
{
    let (mut roots, refusal) = gather_active(state, local);
    if refusal.is_some() {
        return (roots, refusal);
    }
    let ghost a = roots@;
    let refusal: Option<StoreError> = gather_shared(state, &mut roots);
    let ghost b = roots@;
    if refusal.is_some() {
        assert(b =~= gathered(state@, *local).0);
        return (roots, refusal);
    }
    let refusal: Option<StoreError> = gather_readers(local.readers, &mut roots);
    let ghost c = roots@;
    if refusal.is_some() {
        assert(c =~= gathered(state@, *local).0);
        return (roots, refusal);
    }
    let refusal: Option<StoreError> = gather_objects(local.objects, &mut roots);
    assert(roots@ =~= gathered(state@, *local).0);
    (roots, refusal)
}

/// Traces everything that is reachable.
pub fn trace_logical<B: StorageBackend>(
    backend: &mut B,
    state: &State,
    local: &LocalRoots<'_>,
) -> (trace: Result<Trace, StoreError>)
    ensures
        final(backend).namespace() == old(backend).namespace(),
        adapter::extends(old(backend).history(), final(backend).history()),
        adapter::quiet(old(backend).history(), final(backend).history()),
        match trace {
            Ok(t) => logical_replay(
                final(backend).history(),
                old(backend).history().len() as int,
                state@,
                *local,
            ) == Replay::Done(
                Ok::<TraceModel, StoreError>(t@),
                final(backend).history().len() as int,
            ),
            Err(e) => opening::unopened(e, old(backend).history(), final(backend).history()) || logical_replay(
                final(backend).history(),
                old(backend).history().len() as int,
                state@,
                *local,
            ) == Replay::Done(
                Err::<TraceModel, StoreError>(e),
                final(backend).history().len() as int,
            ),
        },
{
    let (roots, refusal) = gather(state, local);
    let trace: Trace = Trace::follow_all(backend, state, local.accepted, &roots)?;
    match refusal {
        Some(error) => Err(error),
        None => Ok(trace),
    }
}

/// The packs among some objects.
pub open spec fn packs_among(keys: Set<CatalogKey>) -> Set<PackId> {
    Set::new(|pack: PackId| keys.contains(CatalogKey::Pack(pack)))
}

/// The packs among some objects.
pub fn pick_packs(keys: &OrderedSet<CatalogKey>) -> (packs: OrderedSet<PackId>)
    ensures
        packs@ == packs_among(keys@),
{
    let count: usize = keys.len();
    let ghost walk = keys.walk();
    let mut packs: OrderedSet<PackId> = OrderedSet::new();
    let mut i: usize = 0;
    while i < count
        invariant
            i <= count,
            count == walk.len(),
            walk == keys.walk(),
            forall|pack: PackId| #[trigger]
                packs@.contains(pack) <==> exists|j: int|
                    0 <= j < i && walk[j] == CatalogKey::Pack(pack),
        decreases count - i,
    {
        let key: CatalogKey = *keys.at(i);
        if let CatalogKey::Pack(pack) = key {
            packs.insert(pack);
            assert(walk[i as int] == CatalogKey::Pack(pack));
        }
        i += 1;
    }
    assert(packs@ =~= packs_among(keys@)) by {
        assert forall|pack: PackId| packs@.contains(pack) == keys@.contains(CatalogKey::Pack(pack)) by {
            let key = CatalogKey::Pack(pack);
            assert(walk.to_set().contains(key) == keys@.contains(key));
            if keys@.contains(key) {
                let j = walk.index_of(key);
                assert(walk[j] == key);
            }
            if packs@.contains(pack) {
                let j = choose|j: int| 0 <= j < walk.len() && walk[j] == key;
                assert(walk.contains(key));
            }
        }
    }
    packs
}

/// The packs that are reachable.
pub fn reachable_packs<B: StorageBackend>(
    backend: &mut B,
    state: &State,
    local: &LocalRoots<'_>,
) -> (packs: Result<OrderedSet<PackId>, StoreError>)
    ensures
        final(backend).namespace() == old(backend).namespace(),
        adapter::extends(old(backend).history(), final(backend).history()),
        adapter::quiet(old(backend).history(), final(backend).history()),
        match packs {
            Ok(p) => exists|trace: TraceModel|
                p@ == packs_among(trace.live) && #[trigger] traced(trace, final(backend).history())
                    == logical_replay(
                    final(backend).history(),
                    old(backend).history().len() as int,
                    state@,
                    *local,
                ),
            Err(e) => opening::unopened(e, old(backend).history(), final(backend).history()) || logical_replay(
                final(backend).history(),
                old(backend).history().len() as int,
                state@,
                *local,
            ) == Replay::Done(
                Err::<TraceModel, StoreError>(e),
                final(backend).history().len() as int,
            ),
        },
{
    let trace: Trace = trace_logical(backend, state, local)?;
    assert(traced(trace@, backend.history()) == logical_replay(
        backend.history(),
        old(backend).history().len() as int,
        state@,
        *local,
    ));
    Ok(pick_packs(&trace.live))
}

/// A trace that used up a history.
pub open spec fn traced(trace: TraceModel, history: Seq<Event>) -> Replay<TraceModel> {
    Replay::Done(Ok(trace), history.len() as int)
}

/// The steps that a pin takes: its view is pinned, and its metadata loaded.
pub open spec fn pin_steps(state: StateModel, root: Retained) -> Seq<Root> {
    match retention::retained_manifest(state, root) {
        Err(_) => seq![Root::Checked(root)],
        Ok(id) => seq![Root::Checked(root), Root::Metadata(id)],
    }
}

/// The steps that the first `count` pins take.
pub open spec fn pins_steps(state: StateModel, list: Seq<(Seq<u8>, Seq<u8>)>, count: int) -> Gathered
    decreases count,
{
    if count <= 0 {
        (Seq::empty(), None)
    } else {
        let prior = pins_steps(state, list, count - 1);
        if prior.1 is Some {
            prior
        } else {
            match retention::retained_parse(list[count - 1].1) {
                Err(error) => (prior.0, Some(error)),
                Ok(root) => (prior.0 + pin_steps(state, root), None),
            }
        }
    }
}

/// The metadata that a head's header continues.
pub open spec fn header_step(header: Option<ActiveHeader>) -> Seq<Root> {
    match header {
        None => Seq::empty(),
        Some(header) => seq![Root::Metadata(continued(header))],
    }
}

/// The steps that the first `count` heads take, but for the selected one.
pub open spec fn heads_steps(state: StateModel, list: Seq<(Seq<u8>, Seq<u8>)>, count: int) -> Gathered
    decreases count,
{
    if count <= 0 {
        (Seq::empty(), None)
    } else {
        let prior = heads_steps(state, list, count - 1);
        if prior.1 is Some || list[count - 1].0 == state.selected {
            prior
        } else {
            match catalog::head_parse(list[count - 1].1, state.database) {
                Err(error) => (prior.0, Some(error)),
                Ok(head) => (prior.0 + header_step(head.sealed) + header_step(head.pending), None),
            }
        }
    }
}

/// The steps that the first `count` leases take, but for those on one manifest.
pub open spec fn leases_steps(leases: Seq<Lease>, current: ManifestId, count: int) -> Gathered
    decreases count,
{
    if count <= 0 {
        (Seq::empty(), None)
    } else {
        let prior = leases_steps(leases, current, count - 1);
        let name = leases[count - 1].bytes();
        let id: ManifestId = frame::id_of(text::unhex(name));
        if prior.1 is Some {
            prior
        } else if !text::is_hex(name) {
            (prior.0, Some(StoreError::Corrupt(0)))
        } else if leases[count - 1].busy && id != current {
            (prior.0.push(Root::Metadata(id)), None)
        } else {
            prior
        }
    }
}

/// The steps that lead to everything but the current view of the selected head.
pub open spec fn other_steps(state: StateModel, readers: Seq<Lease>, current: ManifestId) -> Gathered {
    let pins = order::listing::<Vec<u8>, Seq<u8>>(state.retentions.entries);
    let heads = order::listing::<Vec<u8>, Seq<u8>>(state.heads.entries);
    and_then(
        match retention::names_check(pins, pins.len() as int) {
            Err(error) => (Seq::empty(), Some(error)),
            Ok(_) => pins_steps(state, pins, pins.len() as int),
        },
        and_then(
            heads_steps(state, heads, heads.len() as int),
            leases_steps(readers, current, readers.len() as int),
        ),
    )
}

proof fn lemma_pins_stop(state: StateModel, list: Seq<(Seq<u8>, Seq<u8>)>, i: int, count: int)
    requires
        0 <= i <= count,
        pins_steps(state, list, i).1 is Some,
    ensures
        pins_steps(state, list, count) == pins_steps(state, list, i),
    decreases count - i,
{
    if i < count {
        lemma_pins_stop(state, list, i, count - 1);
    }
}

proof fn lemma_heads_stop(state: StateModel, list: Seq<(Seq<u8>, Seq<u8>)>, i: int, count: int)
    requires
        0 <= i <= count,
        heads_steps(state, list, i).1 is Some,
    ensures
        heads_steps(state, list, count) == heads_steps(state, list, i),
    decreases count - i,
{
    if i < count {
        lemma_heads_stop(state, list, i, count - 1);
    }
}

proof fn lemma_leases_stop(leases: Seq<Lease>, current: ManifestId, i: int, count: int)
    requires
        0 <= i <= count,
        leases_steps(leases, current, i).1 is Some,
    ensures
        leases_steps(leases, current, count) == leases_steps(leases, current, i),
    decreases count - i,
{
    if i < count {
        lemma_leases_stop(leases, current, i, count - 1);
    }
}

fn step_pins(state: &State, steps: &mut Vec<Root>) -> (refusal: Option<StoreError>)
    ensures
        ({
            let list = order::listing::<Vec<u8>, Seq<u8>>(state@.retentions.entries);
            let found = pins_steps(state@, list, list.len() as int);
            final(steps)@ == old(steps)@ + found.0 && refusal == found.1
        }),
{
    let entries = state.retentions.entries();
    let ghost list = entries.pairs();
    let count: usize = entries.len();
    let none: OrderedSet<ManifestId> = OrderedSet::new();
    let mut i: usize = 0;
    assert(steps@ =~= old(steps)@ + pins_steps(state@, list, 0).0);
    while i < count
        invariant
            i <= count,
            count == list.len(),
            list == entries.pairs(),
            list == order::listing::<Vec<u8>, Seq<u8>>(state@.retentions.entries),
            none@ == Set::<ManifestId>::empty(),
            steps@ == old(steps)@ + pins_steps(state@, list, i as int).0,
            pins_steps(state@, list, i as int).1 is None,
        decreases count - i,
    {
        match Retained::decode(entries.value_at(i).as_slice()) {
            Err(error) => {
                proof {
                    lemma_pins_stop(state@, list, i as int + 1, list.len() as int);
                }
                return Some(error);
            },
            Ok(root) => {
                steps.push(Root::Checked(root));
                match resolve_parent(
                    state.endpoints.entries(),
                    ParentRef { hash: root.hash, txid: root.txid },
                    &none,
                ) {
                    Ok(id) => {
                        steps.push(Root::Metadata(id));
                    },
                    Err(_) => {},
                }
                assert(steps@ =~= old(steps)@ + pins_steps(state@, list, i as int + 1).0);
            },
        }
        i += 1;
    }
    None
}

fn push_step(header: Option<ActiveHeader>, steps: &mut Vec<Root>)
    ensures
        final(steps)@ == old(steps)@ + header_step(header),
{
    match header {
        None => {
            assert(steps@ =~= old(steps)@ + header_step(header));
        },
        Some(found) => {
            let id: ManifestId = Id { bytes: found.parent_physical_digest };
            proof {
                frame::lemma_id_of(id);
            }
            steps.push(Root::Metadata(id));
            assert(steps@ =~= old(steps)@ + header_step(header));
        },
    }
}

fn step_heads(state: &State, steps: &mut Vec<Root>) -> (refusal: Option<StoreError>)
    ensures
        ({
            let list = order::listing::<Vec<u8>, Seq<u8>>(state@.heads.entries);
            let found = heads_steps(state@, list, list.len() as int);
            final(steps)@ == old(steps)@ + found.0 && refusal == found.1
        }),
{
    let entries = state.heads.entries();
    let ghost list = entries.pairs();
    let count: usize = entries.len();
    let mut i: usize = 0;
    assert(steps@ =~= old(steps)@ + heads_steps(state@, list, 0).0);
    while i < count
        invariant
            i <= count,
            count == list.len(),
            list == entries.pairs(),
            list == order::listing::<Vec<u8>, Seq<u8>>(state@.heads.entries),
            steps@ == old(steps)@ + heads_steps(state@, list, i as int).0,
            heads_steps(state@, list, i as int).1 is None,
        decreases count - i,
    {
        if !same_bytes(entries.key_at(i).as_slice(), state.selected.as_slice()) {
            match Head::decode(entries.value_at(i).as_slice(), &state.database) {
                Err(error) => {
                    proof {
                        lemma_heads_stop(state@, list, i as int + 1, list.len() as int);
                    }
                    return Some(error);
                },
                Ok(head) => {
                    push_step(head.sealed, steps);
                    push_step(head.pending, steps);
                    assert(steps@ =~= old(steps)@ + heads_steps(state@, list, i as int + 1).0);
                },
            }
        }
        i += 1;
    }
    None
}

fn step_leases(leases: &Vec<Lease>, current: ManifestId, steps: &mut Vec<Root>) -> (refusal: Option<
    StoreError,
>)
    ensures
        ({
            let found = leases_steps(leases@, current, leases@.len() as int);
            final(steps)@ == old(steps)@ + found.0 && refusal == found.1
        }),
{
    let mut i: usize = 0;
    assert(steps@ =~= old(steps)@ + leases_steps(leases@, current, 0).0);
    while i < leases.len()
        invariant
            i <= leases@.len(),
            steps@ == old(steps)@ + leases_steps(leases@, current, i as int).0,
            leases_steps(leases@, current, i as int).1 is None,
        decreases leases.len() - i,
    {
        match parse_hex(leases[i].name.as_str().as_bytes()) {
            Err(error) => {
                proof {
                    lemma_leases_stop(leases@, current, i as int + 1, leases@.len() as int);
                }
                return Some(error);
            },
            Ok(bytes) => {
                let id: ManifestId = Id { bytes };
                proof {
                    frame::lemma_id_of(id);
                }
                if !id.same(&current) && leases[i].busy {
                    steps.push(Root::Metadata(id));
                    assert(steps@ =~= old(steps)@ + leases_steps(
                        leases@,
                        current,
                        i as int + 1,
                    ).0);
                }
            },
        }
        i += 1;
    }
    None
}

/// What finding the packs that something else than the current view retains came
/// to.
pub open spec fn others_replay(
    history: Seq<Event>,
    at: int,
    state: StateModel,
    readers: Seq<Lease>,
    current: ManifestId,
) -> Replay<TraceModel> {
    stopped(
        trace_replay(
            history,
            at,
            state,
            Set::empty(),
            other_steps(state, readers, current).0,
            0,
            TraceModel::start(),
        ),
        other_steps(state, readers, current).1,
    )
}

fn gather_others(state: &State, readers: &Vec<Lease>, current: ManifestId) -> (found: (
    Vec<Root>,
    Option<StoreError>,
))
    ensures
        (found.0@, found.1) == other_steps(state@, readers@, current),
{
    let mut steps: Vec<Root> = Vec::new();
    assert(steps@ =~= Seq::<Root>::empty());
    match root_names(state) {
        Err(error) => {
            return (steps, Some(error));
        },
        Ok(_) => {},
    }
    let refusal: Option<StoreError> = step_pins(state, &mut steps);
    let ghost a = steps@;
    if refusal.is_some() {
        assert(a =~= other_steps(state@, readers@, current).0);
        return (steps, refusal);
    }
    let refusal: Option<StoreError> = step_heads(state, &mut steps);
    let ghost b = steps@;
    if refusal.is_some() {
        assert(b =~= other_steps(state@, readers@, current).0);
        return (steps, refusal);
    }
    let refusal: Option<StoreError> = step_leases(readers, current, &mut steps);
    assert(steps@ =~= other_steps(state@, readers@, current).0);
    (steps, refusal)
}

/// The packs that something else than the current view of the selected head
/// retains: a pin, another head, or the reader of another view.
pub fn retained_packs_except<B: StorageBackend>(
    backend: &mut B,
    state: &State,
    readers: &Vec<Lease>,
    current: ManifestId,
) -> (packs: Result<OrderedSet<PackId>, StoreError>)
    ensures
        final(backend).namespace() == old(backend).namespace(),
        adapter::extends(old(backend).history(), final(backend).history()),
        adapter::quiet(old(backend).history(), final(backend).history()),
        match packs {
            Ok(p) => exists|trace: TraceModel|
                p@ == packs_among(trace.live) && #[trigger] traced(trace, final(backend).history())
                    == others_replay(
                    final(backend).history(),
                    old(backend).history().len() as int,
                    state@,
                    readers@,
                    current,
                ),
            Err(e) => opening::unopened(e, old(backend).history(), final(backend).history()) || others_replay(
                final(backend).history(),
                old(backend).history().len() as int,
                state@,
                readers@,
                current,
            ) == Replay::Done(
                Err::<TraceModel, StoreError>(e),
                final(backend).history().len() as int,
            ),
        },
{
    let (steps, refusal) = gather_others(state, readers, current);
    let accepted: OrderedSet<Vec<u8>> = OrderedSet::new();
    assert(accepted@ =~= Set::<Seq<u8>>::empty());
    let trace: Trace = Trace::follow_all(backend, state, &accepted, &steps)?;
    match refusal {
        Some(error) => Err(error),
        None => {
            assert(traced(trace@, backend.history()) == others_replay(
                backend.history(),
                old(backend).history().len() as int,
                state@,
                readers@,
                current,
            ));
            Ok(pick_packs(&trace.live))
        },
    }
}

/// A view needs its own manifest and every one that it stands on, the pack of each of
/// its frames, and the dictionary of each frame that has one, with those that it
/// prefers; and nothing else.
pub proof fn law_what_a_view_needs(id: ManifestId, metadata: ValidatedModel)
    ensures
        ({
            let keys = dependencies(id, metadata);
            let frames = metadata.view.frames;
            &&& keys.contains(CatalogKey::Manifest(id))
            &&& forall|i: int|
                0 <= i < metadata.ancestors.len() ==> keys.contains(
                    CatalogKey::Manifest(#[trigger] metadata.ancestors[i]),
                )
            &&& forall|frame: FrameId| #[trigger]
                frames.dom().contains(frame) ==> keys.contains(CatalogKey::Pack(frames[frame].pack))
                    && (frames[frame].frame.encoding matches PayloadEncoding::Zstandard(
                    CompressionDictionary::Shared(dictionary),
                ) ==> keys.contains(CatalogKey::Dictionary(dictionary)))
            &&& forall|i: int|
                0 <= i < metadata.view.preferred.len() ==> keys.contains(
                    CatalogKey::Dictionary(#[trigger] metadata.view.preferred[i]),
                )
            &&& forall|pack: PackId|
                keys.contains(CatalogKey::Pack(pack)) ==> exists|frame: FrameId| #[trigger]
                    frames.dom().contains(frame) && frames[frame].pack == pack
            &&& forall|key: CatalogKey| #[trigger] keys.contains(key) ==> !(key is Staging)
        }),
{
    let keys = dependencies(id, metadata);
    let view = metadata.view;
    assert forall|frame: FrameId| #[trigger] view.frames.dom().contains(frame) implies keys.contains(
        CatalogKey::Pack(view.frames[frame].pack),
    ) && (view.frames[frame].frame.encoding matches PayloadEncoding::Zstandard(
        CompressionDictionary::Shared(dictionary),
    ) ==> keys.contains(CatalogKey::Dictionary(dictionary))) by {
        assert(view.packs().contains(view.frames[frame].pack));
        if let PayloadEncoding::Zstandard(CompressionDictionary::Shared(dictionary)) =
            view.frames[frame].frame.encoding {
            assert(view.frames[frame].frame.encoding.dictionary() == Some(dictionary));
            assert(view.dictionaries().contains(dictionary));
        }
    }
}

/// A trace holds what each of its roots reaches. What the active file's view reaches
/// is current, and what a pin, or a head that another owner has, reaches is named.
pub proof fn law_trace_holds_what_roots_reach(
    history: Seq<Event>,
    at: int,
    state: StateModel,
    accepted: Set<Seq<u8>>,
    roots: Seq<Root>,
    start: int,
    so_far: TraceModel,
    trace: TraceModel,
    end: int,
    i: int,
)
    requires
        trace_replay(history, at, state, accepted, roots, start, so_far) == Replay::Done(
            Ok::<TraceModel, StoreError>(trace),
            end,
        ),
        0 <= start <= i < roots.len(),
    ensures
        so_far.live.subset_of(trace.live),
        so_far.current.subset_of(trace.current),
        so_far.named.subset_of(trace.named),
        exists|from: int, keys: Set<CatalogKey>, next: int|
            #![trigger root_reaches(history, from, state, accepted, roots[i], keys, next)]
            root_reaches(history, from, state, accepted, roots[i], keys, next) && keys.subset_of(
                trace.live,
            ) && (roots[i] is Retained ==> keys.subset_of(trace.named)) && (
            roots[i] matches Root::Described { header, active, named } ==> (active
                ==> keys.subset_of(trace.current)) && (named ==> keys.subset_of(trace.named))),
    decreases roots.len() - start,
{
    match root_replay(history, at, state, accepted, roots[start]) {
        Replay::Done(Ok(keys), next) => {
            let more = so_far.with(roots[start], keys);
            if start == i {
                lemma_trace_grows(history, next, state, accepted, roots, start + 1, more, trace, end);
                assert(root_reaches(history, at, state, accepted, roots[i], keys, next));
            } else {
                law_trace_holds_what_roots_reach(
                    history,
                    next,
                    state,
                    accepted,
                    roots,
                    start + 1,
                    more,
                    trace,
                    end,
                    i,
                );
            }
        },
        _ => {},
    }
}

/// Following a root gave these objects.
pub open spec fn root_reaches(
    history: Seq<Event>,
    at: int,
    state: StateModel,
    accepted: Set<Seq<u8>>,
    root: Root,
    keys: Set<CatalogKey>,
    next: int,
) -> bool {
    root_replay(history, at, state, accepted, root) == Replay::Done(
        Ok::<Set<CatalogKey>, StoreError>(keys),
        next,
    )
}

proof fn lemma_trace_grows(
    history: Seq<Event>,
    at: int,
    state: StateModel,
    accepted: Set<Seq<u8>>,
    roots: Seq<Root>,
    start: int,
    so_far: TraceModel,
    trace: TraceModel,
    end: int,
)
    requires
        trace_replay(history, at, state, accepted, roots, start, so_far) == Replay::Done(
            Ok::<TraceModel, StoreError>(trace),
            end,
        ),
        0 <= start,
    ensures
        so_far.live.subset_of(trace.live),
        so_far.current.subset_of(trace.current),
        so_far.named.subset_of(trace.named),
    decreases roots.len() - start,
{
    if start < roots.len() {
        match root_replay(history, at, state, accepted, roots[start]) {
            Replay::Done(Ok(keys), next) => {
                lemma_trace_grows(
                    history,
                    next,
                    state,
                    accepted,
                    roots,
                    start + 1,
                    so_far.with(roots[start], keys),
                    trace,
                    end,
                );
            },
            _ => {},
        }
    }
}

/// Nothing counts as current unless the active file's view reaches it, and nothing as
/// named unless a pin or another owner's head does.
pub proof fn law_trace_names_no_more(
    history: Seq<Event>,
    at: int,
    state: StateModel,
    accepted: Set<Seq<u8>>,
    roots: Seq<Root>,
    start: int,
    so_far: TraceModel,
    trace: TraceModel,
    end: int,
    key: CatalogKey,
)
    requires
        trace_replay(history, at, state, accepted, roots, start, so_far) == Replay::Done(
            Ok::<TraceModel, StoreError>(trace),
            end,
        ),
        0 <= start,
    ensures
        trace.live.contains(key) && !so_far.live.contains(key) ==> exists|i: int|
            start <= i < roots.len() && #[trigger] reached_from(history, state, accepted, roots[i], key),
        trace.current.contains(key) && !so_far.current.contains(key) ==> exists|i: int|
            start <= i < roots.len() && #[trigger] reached_from(history, state, accepted, roots[i], key)
                && (roots[i] matches Root::Described { header, active, named } && active),
        trace.named.contains(key) && !so_far.named.contains(key) ==> exists|i: int|
            start <= i < roots.len() && #[trigger] reached_from(history, state, accepted, roots[i], key)
                && (roots[i] is Retained || (roots[i] matches Root::Described {
                header,
                active,
                named,
            } && named)),
    decreases roots.len() - start,
{
    if start < roots.len() {
        match root_replay(history, at, state, accepted, roots[start]) {
            Replay::Done(Ok(keys), next) => {
                law_trace_names_no_more(
                    history,
                    next,
                    state,
                    accepted,
                    roots,
                    start + 1,
                    so_far.with(roots[start], keys),
                    trace,
                    end,
                    key,
                );
                if keys.contains(key) {
                    assert(root_reaches(history, at, state, accepted, roots[start], keys, next));
                    assert(reached_from(history, state, accepted, roots[start], key));
                }
            },
            _ => {},
        }
    }
}

/// A root reaches an object.
pub open spec fn reached_from(
    history: Seq<Event>,
    state: StateModel,
    accepted: Set<Seq<u8>>,
    root: Root,
    key: CatalogKey,
) -> bool {
    exists|at: int, keys: Set<CatalogKey>, next: int|
        #[trigger] root_reaches(history, at, state, accepted, root, keys, next) && keys.contains(key)
}

/// The root of a view is followed to all that the view needs.
pub proof fn law_roots_reach_what_views_need(
    history: Seq<Event>,
    at: int,
    state: StateModel,
    accepted: Set<Seq<u8>>,
    root: Root,
    keys: Set<CatalogKey>,
    next: int,
)
    requires
        root_reaches(history, at, state, accepted, root, keys, next),
    ensures
        root matches Root::Reader(id) ==> (retention::view_replay(history, at, state, id) matches Replay::Done(
            Ok(view),
            _,
        ) && keys == dependencies(view.id, view.metadata)),
        root matches Root::Retained(retained) ==> (retention::retained_replay(
            history,
            at,
            state,
            retained,
        ) matches Replay::Done(Ok(view), _) && keys == dependencies(view.id, view.metadata)),
        root matches Root::Described { header, active, named } ==> (retention::view_replay(
            history,
            at,
            state,
            continued(header),
        ) matches Replay::Done(Ok(view), _) && keys == dependencies(view.id, view.metadata)),
        root matches Root::Object(key) ==> keys == Set::<CatalogKey>::empty().insert(key),
{
}

/// Every busy lease on a manifest is a root, and no other is.
pub proof fn law_busy_readers_are_roots(leases: Seq<Lease>, count: int, i: int)
    requires
        0 <= i < count <= leases.len(),
        reader_roots(leases, count).1 is None,
    ensures
        text::is_hex(leases[i].bytes()),
        leases[i].busy ==> reader_roots(leases, count).0.contains(
            Root::Reader(frame::id_of(text::unhex(leases[i].bytes()))),
        ),
        reader_roots(leases, count).0.len() <= count,
        (forall|j: int| 0 <= j < count ==> !(#[trigger] leases[j]).busy) ==> reader_roots(
            leases,
            count,
        ).0.len() == 0,
    decreases count,
{
    let prior = reader_roots(leases, count - 1).0;
    if count > 1 {
        law_busy_readers_are_roots(leases, count - 1, if i < count - 1 {
            i
        } else {
            0
        });
    } else {
        assert(reader_roots(leases, 0).0.len() == 0);
    }
    let root = Root::Reader(frame::id_of(text::unhex(leases[i].bytes())));
    let all = reader_roots(leases, count).0;
    if leases[i].busy {
        if i == count - 1 {
            assert(all[prior.len() as int] == root);
        } else {
            let k = choose|k: int| 0 <= k < prior.len() && prior[k] == root;
            assert(all[k] == root);
        }
    }
}

/// Every busy lease on an object is a root.
pub proof fn law_busy_objects_are_roots(leases: Seq<Lease>, count: int, i: int)
    requires
        0 <= i < count <= leases.len(),
        object_roots(leases, count).1 is None,
    ensures
        keys::lease_parse(leases[i].bytes()) matches Ok(key) && (leases[i].busy ==> object_roots(
            leases,
            count,
        ).0.contains(Root::Object(key))),
    decreases count,
{
    let prior = object_roots(leases, count - 1).0;
    if i < count - 1 {
        law_busy_objects_are_roots(leases, count - 1, i);
    }
    let all = object_roots(leases, count).0;
    if leases[i].busy {
        let root = Root::Object(keys::lease_parse(leases[i].bytes())->Ok_0);
        if i == count - 1 {
            assert(all[prior.len() as int] == root);
        } else {
            let k = choose|k: int| 0 <= k < prior.len() && prior[k] == root;
            assert(all[k] == root);
        }
    }
}

/// Every pin is a root.
pub proof fn law_pins_are_roots(list: Seq<(Seq<u8>, Seq<u8>)>, count: int, i: int)
    requires
        0 <= i < count <= list.len(),
        retained_roots(list, count).1 is None,
    ensures
        retention::retained_parse(list[i].1) matches Ok(root) && retained_roots(
            list,
            count,
        ).0.contains(Root::Retained(root)),
        retained_roots(list, count).0.len() == count,
    decreases count,
{
    let prior = retained_roots(list, count - 1).0;
    if count > 1 {
        law_pins_are_roots(list, count - 1, if i < count - 1 {
            i
        } else {
            0
        });
    }
    let all = retained_roots(list, count).0;
    let root = Root::Retained(retention::retained_parse(list[i].1)->Ok_0);
    if i == count - 1 {
        assert(all[prior.len() as int] == root);
    } else {
        let k = choose|k: int| 0 <= k < prior.len() && prior[k] == root;
        assert(all[k] == root);
    }
}

/// What a head has sealed, and what it is about to seal, is a root. It counts as named
/// unless the selected head has sealed that very view, or is about to.
pub proof fn law_heads_are_roots(
    state: StateModel,
    heads: Seq<Head>,
    count: int,
    i: int,
    header: ActiveHeader,
)
    requires
        0 <= i < count <= heads.len(),
        heads[i].sealed == Some(header) || heads[i].pending == Some(header),
    ensures
        ({
            let target = header.parent_physical_digest@;
            let own = (state.sealed is Some && state.sealed->Some_0.parent_physical_digest@ == target)
                || (state.pending is Some && state.pending->Some_0.parent_physical_digest@ == target);
            head_roots(state, heads, count).contains(
                Root::Described { header, active: false, named: !own },
            )
        }),
    decreases count,
{
    let prior = head_roots(state, heads, count - 1);
    let sealed = header_root(state, heads[count - 1].sealed);
    let pending = header_root(state, heads[count - 1].pending);
    let all = head_roots(state, heads, count);
    let root = Root::Described { header, active: false, named: !is_own(state, header) };
    assert(all == prior + sealed + pending);
    if i < count - 1 {
        law_heads_are_roots(state, heads, count - 1, i, header);
        assert(prior.contains(root));
        let k = choose|k: int| 0 <= k < prior.len() && prior[k] == root;
        assert(all[k] == root);
    } else if heads[i].sealed == Some(header) {
        assert(sealed[0] == root);
        assert(all[prior.len() as int] == root);
    } else {
        assert(pending[0] == root);
        assert(all[(prior.len() + sealed.len()) as int] == root);
    }
}

/// The roots of a namespace are those of the active file, of the heads, of the pins and
/// of the readers: none of them is left out.
pub proof fn law_no_root_is_left_out(state: StateModel, local: LocalRoots<'_>, root: Root)
    requires
        gathered(state, local).1 is None,
    ensures
        ({
            let pins = order::listing::<Vec<u8>, Seq<u8>>(state.retentions.entries);
            let found = gathered(state, local).0.contains(root);
            &&& active_roots(state, local).0.contains(root) ==> found
            &&& (state.all_heads() matches Ok(heads) && head_roots(
                state,
                heads,
                heads.len() as int,
            ).contains(root)) ==> found
            &&& retained_roots(pins, pins.len() as int).0.contains(root) ==> found
            &&& reader_roots(local.readers@, local.readers@.len() as int).0.contains(root) ==> found
            &&& object_roots(local.objects@, local.objects@.len() as int).0.contains(root) ==> found
            &&& reader_roots(local.readers@, local.readers@.len() as int).1 is None
            &&& object_roots(local.objects@, local.objects@.len() as int).1 is None
            &&& retained_roots(pins, pins.len() as int).1 is None
            &&& state.all_heads() is Ok
        }),
{
    let pins = order::listing::<Vec<u8>, Seq<u8>>(state.retentions.entries);
    let a = active_roots(state, local).0;
    let heads = state.all_heads()->Ok_0;
    let b = head_roots(state, heads, heads.len() as int);
    let c = retained_roots(pins, pins.len() as int).0;
    let d = reader_roots(local.readers@, local.readers@.len() as int).0;
    let e = object_roots(local.objects@, local.objects@.len() as int).0;
    let all = gathered(state, local).0;
    assert(all == a + ((b + c) + (d + e)));
    lemma_in_join(a, (b + c) + (d + e), root);
    lemma_in_join(b + c, d + e, root);
    lemma_in_join(b, c, root);
    lemma_in_join(d, e, root);
}

proof fn lemma_in_join(a: Seq<Root>, b: Seq<Root>, root: Root)
    ensures
        (a + b).contains(root) <==> a.contains(root) || b.contains(root),
{
    if a.contains(root) {
        let k = choose|k: int| 0 <= k < a.len() && a[k] == root;
        assert((a + b)[k] == root);
    }
    if b.contains(root) {
        let k = choose|k: int| 0 <= k < b.len() && b[k] == root;
        assert((a + b)[a.len() as int + k] == root);
    }
}

/// The active file's view is a root, and counts as current, unless the file continues
/// none.
pub proof fn law_active_view_is_a_root(state: StateModel, local: LocalRoots<'_>, header: ActiveHeader)
    requires
        gathered(state, local).1 is None,
        local.active is Some,
        catalog::header_parse(local.active->Some_0@) == Ok::<ActiveHeader, StoreError>(header),
        header.parent_physical_digest@ != bytes::zeros(32),
    ensures
        gathered(state, local).0.contains(Root::Described { header, active: true, named: false }),
{
    let root = Root::Described { header, active: true, named: false };
    let a = active_roots(state, local).0;
    assert(a[0] == root);
    law_no_root_is_left_out(state, local, root);
}

/// What another head has sealed, or is about to seal, is among what retains packs
/// against a rewrite.
pub proof fn law_other_heads_retain(
    state: StateModel,
    list: Seq<(Seq<u8>, Seq<u8>)>,
    count: int,
    i: int,
    header: ActiveHeader,
)
    requires
        0 <= i < count <= list.len(),
        heads_steps(state, list, count).1 is None,
        list[i].0 != state.selected,
        catalog::head_parse(list[i].1, state.database) matches Ok(head) && (head.sealed == Some(
            header,
        ) || head.pending == Some(header)),
    ensures
        heads_steps(state, list, count).0.contains(Root::Metadata(continued(header))),
    decreases count,
{
    let prior = heads_steps(state, list, count - 1).0;
    let all = heads_steps(state, list, count).0;
    let root = Root::Metadata(continued(header));
    if i < count - 1 {
        law_other_heads_retain(state, list, count - 1, i, header);
        let k = choose|k: int| 0 <= k < prior.len() && prior[k] == root;
        assert(all[k] == root);
    } else {
        let head = catalog::head_parse(list[i].1, state.database)->Ok_0;
        let sealed = header_step(head.sealed);
        let pending = header_step(head.pending);
        assert(all == prior + sealed + pending);
        if head.sealed == Some(header) {
            assert(sealed[0] == root);
            assert(all[prior.len() as int] == root);
        } else {
            assert(pending[0] == root);
            assert(all[(prior.len() + sealed.len()) as int] == root);
        }
    }
}

/// A busy lease on another manifest than the current one is among what retains packs
/// against a rewrite; one on the current manifest is not.
pub proof fn law_other_readers_retain(
    leases: Seq<Lease>,
    current: ManifestId,
    count: int,
    i: int,
)
    requires
        0 <= i < count <= leases.len(),
        leases_steps(leases, current, count).1 is None,
    ensures
        ({
            let id: ManifestId = frame::id_of(text::unhex(leases[i].bytes()));
            leases[i].busy && id != current ==> leases_steps(leases, current, count).0.contains(
                Root::Metadata(id),
            )
        }),
        !leases_steps(leases, current, count).0.contains(Root::Metadata(current)),
    decreases count,
{
    let prior = leases_steps(leases, current, count - 1).0;
    let all = leases_steps(leases, current, count).0;
    let id: ManifestId = frame::id_of(text::unhex(leases[i].bytes()));
    let root = Root::Metadata(id);
    if count > 1 {
        law_other_readers_retain(leases, current, count - 1, if i < count - 1 {
            i
        } else {
            0
        });
    } else {
        assert(prior =~= Seq::<Root>::empty());
    }
    if leases[i].busy && id != current {
        if i == count - 1 {
            assert(all[prior.len() as int] == root);
        } else {
            let k = choose|k: int| 0 <= k < prior.len() && prior[k] == root;
            assert(all[k] == root);
        }
    }
    if all.contains(Root::Metadata(current)) {
        let k = choose|k: int| 0 <= k < all.len() && all[k] == Root::Metadata(current);
        if k < prior.len() {
            assert(prior[k] == Root::Metadata(current));
        }
    }
}

/// The view of every pin is among what retains packs against a rewrite.
pub proof fn law_pins_retain(
    state: StateModel,
    list: Seq<(Seq<u8>, Seq<u8>)>,
    count: int,
    i: int,
)
    requires
        0 <= i < count <= list.len(),
        pins_steps(state, list, count).1 is None,
    ensures
        retention::retained_parse(list[i].1) matches Ok(root) && pins_steps(
            state,
            list,
            count,
        ).0.contains(Root::Checked(root)) && (retention::retained_manifest(state, root) matches Ok(id)
            ==> pins_steps(state, list, count).0.contains(Root::Metadata(id))),
    decreases count,
{
    let prior = pins_steps(state, list, count - 1).0;
    let all = pins_steps(state, list, count).0;
    if i < count - 1 {
        law_pins_retain(state, list, count - 1, i);
        let root = retention::retained_parse(list[i].1)->Ok_0;
        let more = pin_steps(state, retention::retained_parse(list[count - 1].1)->Ok_0);
        assert(all == prior + more);
        lemma_in_join(prior, more, Root::Checked(root));
        if let Ok(id) = retention::retained_manifest(state, root) {
            lemma_in_join(prior, more, Root::Metadata(id));
        }
    } else {
        let root = retention::retained_parse(list[i].1)->Ok_0;
        let more = pin_steps(state, root);
        assert(all == prior + more);
        assert(more[0] == Root::Checked(root));
        lemma_in_join(prior, more, Root::Checked(root));
        if let Ok(id) = retention::retained_manifest(state, root) {
            assert(more[1] == Root::Metadata(id));
            lemma_in_join(prior, more, Root::Metadata(id));
        }
    }
}

} // verus!
