//! Durable pins of logical endpoints, under names.

use crate::adapter;
use crate::adapter::{Event, StorageBackend};
use crate::bytes;
use crate::bytes::{append, copied, push_le, read_le, same_bytes};
use crate::catalog::as_text;
use crate::digest;
use crate::digest::hash;
use crate::domain::{
    BackendId, DatabaseId, Id, ManifestId, RetentionId, TransactionId, VIEW, ValueError, ViewHash,
};
use crate::draft;
use crate::entropy::nonce;
use crate::error::{StoreError, valued};
use crate::fetch::Replay;
use crate::frame;
use crate::opening;
use crate::order;
use crate::order::OrderedSet;
use crate::pinned;
use crate::pinned::{PinModel, PinnedView};
use crate::segment;
use crate::segment::{ParentRef, resolve_parent};
use crate::state;
use crate::state::{State, StateModel};
use crate::validation;
use vstd::prelude::*;
use vstd::slice::slice_subrange;
use vstd::string::*;
use vstd::utf8::*;

verus! {

/// `ZROOT001`.
pub const RETAINED_MAGIC: [u8; 8] = [90, 82, 79, 79, 84, 48, 48, 49];

/// The bytes of a retained root.
pub const RETAINED_SIZE: usize = 144;

/// The most bytes of a retention's name.
pub const NAME_LIMIT: usize = 64;

/// What a retention's name must be.
pub const NAME_RULE: &'static str = "retention names must be 1-64 ASCII letters, digits, '-' or '_'";

/// A letter, a digit, a dash or an underscore.
pub open spec fn name_byte(byte: u8) -> bool {
    (48 <= byte <= 57) || (65 <= byte <= 90) || (97 <= byte <= 122) || byte == 45 || byte == 95
}

/// The bytes of a retention's name.
pub open spec fn retention_name(name: Seq<u8>) -> bool {
    &&& 0 < name.len() <= NAME_LIMIT
    &&& forall|i: int| 0 <= i < name.len() ==> name_byte(#[trigger] name[i])
}

/// The name of a retention.
#[derive(Debug, PartialEq, Eq)]
pub struct RetentionName {
    text: String,
}

fn valid_name(name: &[u8]) -> (valid: bool)
    ensures
        valid == retention_name(name@),
{
    if name.len() == 0 || name.len() > NAME_LIMIT {
        return false;
    }
    let mut i: usize = 0;
    while i < name.len()
        invariant
            i <= name@.len(),
            forall|j: int| 0 <= j < i ==> name_byte(#[trigger] name@[j]),
        decreases name.len() - i,
    {
        let byte: u8 = name[i];
        if !((48 <= byte && byte <= 57) || (65 <= byte && byte <= 90) || (97 <= byte && byte <= 122)
            || byte == 45 || byte == 95) {
            assert(!name_byte(name@[i as int]));
            return false;
        }
        i += 1;
    }
    true
}

impl RetentionName {
    pub closed spec fn chars(&self) -> Seq<char> {
        self.text@
    }

    /// The bytes of the name.
    pub open spec fn bytes(&self) -> Seq<u8> {
        encode_utf8(self.chars())
    }

    #[verifier::type_invariant]
    spec fn valid(&self) -> bool {
        retention_name(self.bytes())
    }

    /// A name of 1 to 64 letters, digits, dashes and underscores.
    pub fn new(name: String) -> (valid: Result<Self, StoreError>)
        ensures
            match valid {
                Ok(n) => n.chars() == name@ && retention_name(encode_utf8(name@)),
                Err(e) => e == StoreError::InvalidConfiguration(NAME_RULE) && !retention_name(
                    encode_utf8(name@),
                ),
            },
    {
        if !valid_name(name.as_str().as_bytes()) {
            return Err(StoreError::InvalidConfiguration(NAME_RULE));
        }
        Ok(RetentionName { text: name })
    }

    pub fn as_str(&self) -> (name: &str)
        ensures
            name@ == self.chars(),
    {
        self.text.as_str()
    }

    /// The bytes of the name.
    pub fn as_bytes(&self) -> (bytes: &[u8])
        ensures
            bytes@ == self.bytes(),
            retention_name(bytes@),
    {
        proof {
            use_type_invariant(self);
        }
        self.text.as_str().as_bytes()
    }

    /// Another copy of the name.
    pub fn duplicate(&self) -> (copy: RetentionName)
        ensures
            copy.chars() == self.chars(),
    {
        proof {
            use_type_invariant(self);
        }
        RetentionName { text: self.text.as_str().to_owned() }
    }
}

/// What a durable pin holds: a logical endpoint and the token of the pin.
#[derive(Clone, Copy, Debug, PartialEq, Eq)]
pub struct Retained {
    pub database: DatabaseId,
    pub hash: ViewHash,
    pub txid: TransactionId,
    pub revision: RetentionId,
}

impl Retained {
    pub open spec fn body(self) -> Seq<u8> {
        RETAINED_MAGIC@ + self.database.bytes@ + self.hash.bytes@ + bytes::le(
            self.txid.value as nat,
            8,
        ) + self.revision.bytes@
    }

    /// The bytes of the root.
    pub open spec fn record(self) -> Seq<u8> {
        self.body() + digest::content_hash(self.body())
    }

    pub fn encode(&self) -> (bytes: Vec<u8>)
        ensures
            bytes@ == self.record(),
    {
        let mut bytes: Vec<u8> = copied(RETAINED_MAGIC.as_slice());
        append(&mut bytes, self.database.bytes.as_slice());
        append(&mut bytes, self.hash.bytes.as_slice());
        push_le(&mut bytes, self.txid.value, 8);
        append(&mut bytes, self.revision.bytes.as_slice());
        assert(bytes@ =~= self.body());
        let sum: [u8; 32] = hash(bytes.as_slice());
        append(&mut bytes, sum.as_slice());
        bytes
    }

    /// The root that some bytes hold.
    pub fn decode(bytes: &[u8]) -> (root: Result<Self, StoreError>)
        ensures
            root == retained_parse(bytes@),
    {
        if bytes.len() != RETAINED_SIZE || !same_bytes(
            slice_subrange(bytes, 0, 8),
            RETAINED_MAGIC.as_slice(),
        ) {
            return Err(StoreError::Corrupt(0));
        }
        let body: &[u8] = slice_subrange(bytes, 0, 112);
        let sum: [u8; 32] = hash(body);
        if !same_bytes(sum.as_slice(), slice_subrange(bytes, 112, 144)) {
            return Err(StoreError::Corrupt(0));
        }
        let database: DatabaseId = Id::read(slice_subrange(bytes, 8, 40));
        let hash: ViewHash = Id::read(slice_subrange(bytes, 40, 72));
        let revision: RetentionId = Id::read(slice_subrange(bytes, 80, 112));
        proof {
            frame::lemma_id_of(database);
            frame::lemma_id_of(hash);
            frame::lemma_id_of(revision);
        }
        let txid: TransactionId = valued(TransactionId::new(read_le(slice_subrange(bytes, 72, 80))))?;
        Ok(Retained { database, hash, txid, revision })
    }

    pub fn same(&self, other: &Retained) -> (same: bool)
        ensures
            same == (*self == *other),
    {
        self.database.same(&other.database) && self.hash.same(&other.hash) && self.txid.value
            == other.txid.value && self.revision.same(&other.revision)
    }
}

/// The root that some bytes hold, or why they hold none.
pub open spec fn retained_parse(bytes: Seq<u8>) -> Result<Retained, StoreError> {
    if bytes.len() != RETAINED_SIZE || bytes.subrange(0, 8) != RETAINED_MAGIC@
        || digest::content_hash(bytes.subrange(0, 112)) != bytes.subrange(112, 144) {
        Err(StoreError::Corrupt(0))
    } else if bytes::le_value(bytes.subrange(72, 80)) == 0 {
        Err(StoreError::Value(ValueError))
    } else {
        Ok(
            Retained {
                database: frame::id_of(bytes.subrange(8, 40)),
                hash: frame::id_of(bytes.subrange(40, 72)),
                txid: TransactionId { value: bytes::le_value(bytes.subrange(72, 80)) as u64 },
                revision: frame::id_of(bytes.subrange(80, 112)),
            },
        )
    }
}

/// A root that was written reads back.
pub proof fn law_retained_round_trip(root: Retained)
    requires
        root.txid.wf(),
    ensures
        retained_parse(root.record()) == Ok::<Retained, StoreError>(root),
{
    let r = root.record();
    crate::bytes::lemma_le_len(root.txid.value as nat, 8);
    crate::bytes::lemma_le_bounds();
    crate::bytes::law_le_round_trip(root.txid.value as nat, 8);
    assert(r.subrange(0, 8) =~= RETAINED_MAGIC@);
    assert(r.subrange(0, 112) =~= root.body());
    assert(r.subrange(112, 144) =~= digest::content_hash(root.body()));
    assert(r.subrange(8, 40) =~= root.database.bytes@);
    assert(r.subrange(40, 72) =~= root.hash.bytes@);
    assert(r.subrange(72, 80) =~= bytes::le(root.txid.value as nat, 8));
    assert(r.subrange(80, 112) =~= root.revision.bytes@);
    crate::frame::lemma_id_of(root.database);
    crate::frame::lemma_id_of(root.hash);
    crate::frame::lemma_id_of(root.revision);
}

/// A durable pin of a logical endpoint, not of a physical segment. Dropping the
/// handle does not release the pin; its token keeps a stale handle from releasing
/// a pin that was replaced.
#[derive(Debug)]
pub struct DurablePin {
    name: RetentionName,
    root: Retained,
}

impl DurablePin {
    pub closed spec fn of(&self) -> Seq<char> {
        self.name.chars()
    }

    pub closed spec fn root(&self) -> Retained {
        self.root
    }

    pub fn name(&self) -> (name: &RetentionName)
        ensures
            name.chars() == self.of(),
    {
        &self.name
    }

    pub fn logical_hash(&self) -> (hash: ViewHash)
        ensures
            hash == self.root().hash,
    {
        self.root.hash
    }

    pub fn txid(&self) -> (txid: TransactionId)
        ensures
            txid == self.root().txid,
    {
        self.root.txid
    }

    pub fn database(&self) -> (database: DatabaseId)
        ensures
            database == self.root().database,
    {
        self.root.database
    }
}

/// The root of a name in a catalog, or why there is none.
pub open spec fn root_of(state: StateModel, name: Seq<u8>) -> Result<Retained, StoreError> {
    if !state.retentions.entries.dom().contains(name) {
        Err(StoreError::NotFound)
    } else {
        retained_parse(state.retentions.entries[name])
    }
}

/// Reads the pin of a name.
pub fn read_root(state: &State, name: &RetentionName) -> (pin: Result<DurablePin, StoreError>)
    ensures
        match pin {
            Ok(p) => p.of() == name.chars() && root_of(state@, name.bytes()) == Ok::<
                Retained,
                StoreError,
            >(p.root()),
            Err(e) => root_of(state@, name.bytes()) == Err::<Retained, StoreError>(e),
        },
{
    let key: Vec<u8> = copied(name.as_bytes());
    match state.retentions.entries().get(&key) {
        None => Err(StoreError::NotFound),
        Some(bytes) => {
            let root: Retained = Retained::decode(bytes.as_slice())?;
            Ok(DurablePin { name: name.duplicate(), root })
        },
    }
}

/// What pinning the view of a manifest came to, by a catalog's state.
#[verifier::opaque]
pub open spec fn view_replay(history: Seq<Event>, at: int, state: StateModel, id: ManifestId) -> Replay<
    PinModel,
> {
    pinned::open_replay(
        history,
        at,
        id,
        order::listing::<Vec<u8>, Seq<u8>>(state.endpoints.entries),
        state.placements.entries,
    )
}

pub proof fn lemma_view_settled(
    before: Seq<Event>,
    after: Seq<Event>,
    at: int,
    state: StateModel,
    id: ManifestId,
)
    requires
        adapter::extends(before, after),
        view_replay(before, at, state, id) is Done,
    ensures
        view_replay(after, at, state, id) == view_replay(before, at, state, id),
{
    reveal(view_replay);
    crate::pinned::lemma_open_settled(
        before,
        after,
        at,
        id,
        order::listing::<Vec<u8>, Seq<u8>>(state.endpoints.entries),
        state.placements.entries,
    );
}

/// Pins the view of a manifest.
pub fn pin<B: StorageBackend>(backend: &mut B, state: &State, id: ManifestId) -> (view: Result<
    PinnedView,
    StoreError,
>)
    ensures
        final(backend).namespace() == old(backend).namespace(),
        adapter::extends(old(backend).history(), final(backend).history()),
        adapter::quiet(old(backend).history(), final(backend).history()),
        match view {
            Ok(v) => view_replay(
                final(backend).history(),
                old(backend).history().len() as int,
                state@,
                id,
            ) == Replay::Done(Ok::<PinModel, StoreError>(v@), final(backend).history().len() as int)
                && v.at_home() == old(backend).namespace(),
            Err(e) => opening::unopened(e, old(backend).history(), final(backend).history()) || view_replay(
                final(backend).history(),
                old(backend).history().len() as int,
                state@,
                id,
            ) == Replay::Done(Err::<PinModel, StoreError>(e), final(backend).history().len() as int),
        },
{
    proof {
        reveal(view_replay);
    }
    PinnedView::open(backend, state.endpoints.entries(), state.placements.entries(), id)
}

/// The manifest that a logical endpoint resolves through, or why there is none.
pub open spec fn retained_manifest(state: StateModel, root: Retained) -> Result<ManifestId, StoreError> {
    let entries = order::listing::<Vec<u8>, Seq<u8>>(state.endpoints.entries);
    let sought = ParentRef { hash: root.hash, txid: root.txid };
    match segment::endpoint_among(entries, entries.len() as int, sought, Set::empty()) {
        Err(error) => Err(error),
        Ok(None) => Err(StoreError::Corrupt(0)),
        Ok(Some(endpoint)) => Ok(endpoint.physical),
    }
}

/// A view is the logical endpoint that was retained.
pub open spec fn is_retained(view: PinModel, root: Retained) -> bool {
    &&& view.metadata.view.database == root.database
    &&& view.metadata.view.txid == root.txid
    &&& validation::is_logical_hash(root.hash, view.metadata.view)
}

/// What pinning a retained endpoint came to.
pub open spec fn retained_replay(history: Seq<Event>, at: int, state: StateModel, root: Retained) -> Replay<
    PinModel,
> {
    match retained_manifest(state, root) {
        Err(error) => Replay::Done(Err(error), at),
        Ok(id) => match view_replay(history, at, state, id) {
            Replay::Astray => Replay::Astray,
            Replay::Done(Err(error), next) => Replay::Done(Err(error), next),
            Replay::Done(Ok(view), next) => if is_retained(view, root) {
                Replay::Done(Ok(view), next)
            } else {
                Replay::Done(Err(StoreError::IdentityMismatch), next)
            },
        },
    }
}

pub proof fn lemma_retained_settled(
    before: Seq<Event>,
    after: Seq<Event>,
    at: int,
    state: StateModel,
    root: Retained,
)
    requires
        adapter::extends(before, after),
        retained_replay(before, at, state, root) is Done,
    ensures
        retained_replay(after, at, state, root) == retained_replay(before, at, state, root),
{
    match retained_manifest(state, root) {
        Ok(id) => lemma_view_settled(before, after, at, state, id),
        Err(_) => {},
    }
}

/// Pins the view of a retained endpoint, through the widest segment that ends
/// there.
pub fn pin_retained<B: StorageBackend>(backend: &mut B, state: &State, root: &Retained) -> (view: Result<
    PinnedView,
    StoreError,
>)
    ensures
        final(backend).namespace() == old(backend).namespace(),
        adapter::extends(old(backend).history(), final(backend).history()),
        adapter::quiet(old(backend).history(), final(backend).history()),
        match view {
            Ok(v) => retained_replay(
                final(backend).history(),
                old(backend).history().len() as int,
                state@,
                *root,
            ) == Replay::Done(Ok::<PinModel, StoreError>(v@), final(backend).history().len() as int),
            Err(e) => opening::unopened(e, old(backend).history(), final(backend).history()) || retained_replay(
                final(backend).history(),
                old(backend).history().len() as int,
                state@,
                *root,
            ) == Replay::Done(Err::<PinModel, StoreError>(e), final(backend).history().len() as int),
        },
{
    let none: OrderedSet<ManifestId> = OrderedSet::new();
    let id: ManifestId = resolve_parent(
        state.endpoints.entries(),
        ParentRef { hash: root.hash, txid: root.txid },
        &none,
    )?;
    let view: PinnedView = pin(backend, state, id)?;
    if !describes(&view, root) {
        return Err(StoreError::IdentityMismatch);
    }
    Ok(view)
}

/// Opens the view that is retained under a name.
pub fn open_retained<B: StorageBackend>(backend: &mut B, state: &State, name: &RetentionName) -> (view:
    Result<PinnedView, StoreError>)
    ensures
        final(backend).namespace() == old(backend).namespace(),
        adapter::extends(old(backend).history(), final(backend).history()),
        adapter::quiet(old(backend).history(), final(backend).history()),
        match root_of(state@, name.bytes()) {
            Err(error) => final(backend).history() == old(backend).history() && (
            view matches Err(e) && e == error),
            Ok(root) => match view {
                Ok(v) => retained_replay(
                    final(backend).history(),
                    old(backend).history().len() as int,
                    state@,
                    root,
                ) == Replay::Done(
                    Ok::<PinModel, StoreError>(v@),
                    final(backend).history().len() as int,
                ),
                Err(e) => opening::unopened(e, old(backend).history(), final(backend).history()) || retained_replay(
                    final(backend).history(),
                    old(backend).history().len() as int,
                    state@,
                    root,
                ) == Replay::Done(
                    Err::<PinModel, StoreError>(e),
                    final(backend).history().len() as int,
                ),
            },
        },
{
    match read_root(state, name) {
        Ok(pin) => pin_retained(backend, state, &pin.root),
        Err(error) => Err(error),
    }
}

fn describes(view: &PinnedView, root: &Retained) -> (same: bool)
    ensures
        same == is_retained(view@, *root),
{
    let (database, txid, _) = view.endpoint();
    let hash: ViewHash = pinned_hash(view);
    proof {
        if hash.bytes@ == root.hash.bytes@ {
            crate::domain::lemma_id_extensional(hash, root.hash);
        }
    }
    database.same(&root.database) && txid.value == root.txid.value && hash.same(&root.hash)
}

impl StateModel {
    /// The state with an endpoint retained under a name.
    pub open spec fn with_root(self, name: Seq<u8>, root: Retained) -> StateModel {
        StateModel { retentions: self.retentions.with(name, root.record()), ..self }
    }

    /// The state with the pin of a name released.
    pub open spec fn without_root(self, name: Seq<u8>) -> StateModel {
        StateModel { retentions: self.retentions.without(name), ..self }
    }
}

/// Whether a name may be given to a view of a database: a pin of the name is
/// replaced only where that is asked for, and only by a view of the same database.
pub open spec fn replacement(
    state: StateModel,
    name: Seq<char>,
    database: DatabaseId,
    replace: bool,
    done: Result<(), StoreError>,
) -> bool {
    let key = encode_utf8(name);
    if !state.retentions.entries.dom().contains(key) {
        done is Ok
    } else if !replace {
        done matches Err(StoreError::RetentionExists(held)) && held@ == name
    } else {
        match root_of(state, key) {
            Err(error) => done == Err::<(), StoreError>(error),
            Ok(root) => if root.database != database {
                done == Err::<(), StoreError>(StoreError::IdentityMismatch)
            } else {
                done is Ok
            },
        }
    }
}

/// Checks whether a name may be given to a view of a database.
pub fn check_replacement(state: &State, name: &RetentionName, database: DatabaseId, replace: bool) -> (done:
    Result<(), StoreError>)
    ensures
        replacement(state@, name.chars(), database, replace, done),
{
    let key: Vec<u8> = copied(name.as_bytes());
    if !state.retentions.entries().contains_key(&key) {
        return Ok(());
    }
    if !replace {
        return Err(StoreError::RetentionExists(name.as_str().to_owned()));
    }
    match read_root(state, name) {
        Err(error) => Err(error),
        Ok(pin) => {
            if !pin.root.database.same(&database) {
                return Err(StoreError::IdentityMismatch);
            }
            Ok(())
        },
    }
}

/// The endpoint of a view, with a token.
pub open spec fn root_for(view: PinModel, revision: RetentionId) -> Retained {
    Retained {
        database: view.metadata.view.database,
        hash: view.metadata.view.hash(),
        txid: view.metadata.view.txid,
        revision,
    }
}

/// Reads alone led from one history to another.
pub open spec fn looked(earlier: Seq<Event>, later: Seq<Event>) -> bool {
    adapter::extends(earlier, later) && adapter::quiet(earlier, later)
}

/// What retaining an endpoint comes to: what the name will resolve to is pinned
/// before the name is given, and the state published.
pub open spec fn retained_outcome(
    before: StateModel,
    after: StateModel,
    earlier: Seq<Event>,
    later: Seq<Event>,
    name: Seq<u8>,
    root: Retained,
    done: Result<(), StoreError>,
) -> bool {
    ||| done is Err && after == before && looked(earlier, later) && (opening::unopened(done->Err_0, earlier, later)
        || retained_replay(later, earlier.len() as int, before, root) == Replay::Done(
        Err::<PinModel, StoreError>(done->Err_0),
        later.len() as int,
    ))
    ||| exists|mid: Seq<Event>, view: PinModel|
        {
            &&& #[trigger] resolved_root(before, earlier, mid, root, view)
            &&& state::publish_outcome(before.with_root(name, root), after, mid, later, done)
        }
}

/// Pinning a retained endpoint gave a view.
pub open spec fn resolved_root(
    state: StateModel,
    earlier: Seq<Event>,
    later: Seq<Event>,
    root: Retained,
    view: PinModel,
) -> bool {
    &&& looked(earlier, later)
    &&& retained_replay(later, earlier.len() as int, state, root) == Replay::Done(
        Ok::<PinModel, StoreError>(view),
        later.len() as int,
    )
}

/// Pinning a manifest gave a view.
pub open spec fn resolved_view(
    state: StateModel,
    earlier: Seq<Event>,
    later: Seq<Event>,
    id: ManifestId,
    view: PinModel,
) -> bool {
    &&& looked(earlier, later)
    &&& view_replay(later, earlier.len() as int, state, id) == Replay::Done(
        Ok::<PinModel, StoreError>(view),
        later.len() as int,
    )
}

/// The outcome of an operation, without what it gives.
pub open spec fn outcome<T>(result: Result<T, StoreError>) -> Result<(), StoreError> {
    match result {
        Ok(_) => Ok(()),
        Err(error) => Err(error),
    }
}

/// Retains the endpoint of a validated view under a name, with a token.
pub fn retain_with<B: StorageBackend>(
    backend: &mut B,
    state: &mut State,
    name: RetentionName,
    view: &PinnedView,
    revision: RetentionId,
) -> (pin: Result<DurablePin, StoreError>)
    ensures
        final(backend).namespace() == old(backend).namespace(),
        adapter::extends(old(backend).history(), final(backend).history()),
        retained_outcome(
            old(state)@,
            final(state)@,
            old(backend).history(),
            final(backend).history(),
            name.bytes(),
            root_for(view@, revision),
            outcome(pin),
        ),
        pin matches Ok(p) ==> p.of() == name.chars() && p.root() == root_for(view@, revision)
            && is_retained(view@, p.root()),
{
    let (database, txid, _) = view.endpoint();
    let hash: ViewHash = pinned_hash(view);
    let root: Retained = Retained { database, hash, txid, revision };
    let resolved: PinnedView = pin_retained(backend, state, &root)?;
    let ghost mid = backend.history();
    assert(resolved_root(old(state)@, old(backend).history(), mid, root, resolved@));
    state.retentions.insert(copied(name.as_bytes()), root.encode());
    let done: Result<(), StoreError> = state.publish(backend);
    match done {
        Ok(_) => Ok(DurablePin { name, root }),
        Err(error) => Err(error),
    }
}

fn pinned_hash(view: &PinnedView) -> (hash: ViewHash)
    ensures
        hash == view@.metadata.view.hash(),
        validation::is_logical_hash(hash, view@.metadata.view),
{
    let metadata = view.metadata();
    let hash: ViewHash = metadata.logical_hash();
    proof {
        let model = metadata@.view;
        draft::lemma_named(hash, model.logical_input(digest::content_hash(model.content_input())));
    }
    hash
}

/// What retaining a view comes to.
pub open spec fn retain_outcome(
    before: StateModel,
    after: StateModel,
    earlier: Seq<Event>,
    later: Seq<Event>,
    name: Seq<char>,
    id: ManifestId,
    replace: bool,
    given: Result<Retained, StoreError>,
) -> bool {
    ||| given is Err && after == before && looked(earlier, later) && (opening::unopened(given->Err_0, earlier, later)
        || view_replay(later, earlier.len() as int, before, id) == Replay::Done(
        Err::<PinModel, StoreError>(given->Err_0),
        later.len() as int,
    ))
    ||| exists|mid: Seq<Event>, view: PinModel|
        {
            &&& #[trigger] resolved_view(before, earlier, mid, id, view)
            &&& retain_settled(before, after, mid, later, name, view, replace, given)
        }
}

/// What retaining a validated view comes to. The token is random; its source may
/// fail.
pub open spec fn retain_settled(
    before: StateModel,
    after: StateModel,
    earlier: Seq<Event>,
    later: Seq<Event>,
    name: Seq<char>,
    view: PinModel,
    replace: bool,
    given: Result<Retained, StoreError>,
) -> bool {
    let database = view.metadata.view.database;
    ||| given is Err && after == before && later == earlier && replacement(
        before,
        name,
        database,
        replace,
        Err(given->Err_0),
    )
    ||| {
        &&& replacement(before, name, database, replace, Ok(()))
        &&& {
            ||| given is Err && given->Err_0 is Random && after == before && later == earlier
            ||| exists|revision: RetentionId|
                {
                    &&& #[trigger] retained_outcome(
                        before,
                        after,
                        earlier,
                        later,
                        encode_utf8(name),
                        root_for(view, revision),
                        outcome(given),
                    )
                    &&& given is Ok ==> given->Ok_0 == root_for(view, revision)
                }
        }
    }
}

/// The root that a retention gave.
pub open spec fn given_root(pin: Result<DurablePin, StoreError>) -> Result<Retained, StoreError> {
    match pin {
        Ok(p) => Ok(p.root()),
        Err(error) => Err(error),
    }
}

/// Retains the endpoint of a view under a name.
pub fn retain<B: StorageBackend>(
    backend: &mut B,
    state: &mut State,
    name: RetentionName,
    view: &PinnedView,
    replace: bool,
) -> (pin: Result<DurablePin, StoreError>)
    ensures
        final(backend).namespace() == old(backend).namespace(),
        adapter::extends(old(backend).history(), final(backend).history()),
        if view.at_home() != old(backend).namespace() {
            pin == Err::<DurablePin, StoreError>(StoreError::IdentityMismatch) && final(state)@
                == old(state)@ && final(backend).history() == old(backend).history()
        } else {
            retain_outcome(
                old(state)@,
                final(state)@,
                old(backend).history(),
                final(backend).history(),
                name.chars(),
                view@.id,
                replace,
                given_root(pin),
            )
        },
        pin matches Ok(p) ==> p.of() == name.chars(),
{
    let home: BackendId = backend.identity();
    if !view.same_catalog(&home) {
        return Err(StoreError::IdentityMismatch);
    }
    let ghost before = state@;
    let ghost earlier = backend.history();
    let ghost chars = name.chars();
    let id: ManifestId = view.id();
    let validated: PinnedView = match pin(backend, state, id) {
        Ok(validated) => validated,
        Err(error) => {
            return Err(error);
        },
    };
    let ghost mid = backend.history();
    assert(resolved_view(before, earlier, mid, id, validated@));
    let (database, _, _) = validated.endpoint();
    match check_replacement(state, &name, database, replace) {
        Err(error) => {
            assert(retain_settled(
                before,
                before,
                mid,
                mid,
                chars,
                validated@,
                replace,
                Err::<Retained, StoreError>(error),
            ));
            return Err(error);
        },
        Ok(unit) => {
            assert(unit == ());
        },
    }
    let revision: RetentionId = match nonce() {
        Ok(bytes) => Id { bytes },
        Err(message) => {
            assert(retain_settled(
                before,
                before,
                mid,
                mid,
                chars,
                validated@,
                replace,
                Err::<Retained, StoreError>(StoreError::Random(message)),
            ));
            return Err(StoreError::Random(message));
        },
    };
    let kept: Result<DurablePin, StoreError> = retain_with(backend, state, name, &validated, revision);
    proof {
        assert(outcome(kept) == outcome(given_root(kept)));
        assert(retain_settled(
            before,
            state@,
            mid,
            backend.history(),
            chars,
            validated@,
            replace,
            given_root(kept),
        ));
    }
    kept
}

/// What releasing the pin of a name came to. Only the pin that the name holds now
/// releases it.
pub open spec fn released(
    before: StateModel,
    after: StateModel,
    earlier: Seq<Event>,
    later: Seq<Event>,
    name: Seq<u8>,
    root: Retained,
    done: Result<(), StoreError>,
) -> bool {
    match root_of(before, name) {
        Err(error) => done == Err::<(), StoreError>(error) && after == before && later == earlier,
        Ok(current) => if current != root {
            done == Err::<(), StoreError>(StoreError::Busy) && after == before && later == earlier
        } else {
            state::publish_outcome(before.without_root(name), after, earlier, later, done)
        },
    }
}

/// Releases a pin, if the name still holds it.
pub fn release<B: StorageBackend>(backend: &mut B, state: &mut State, pin: DurablePin) -> (done: Result<
    (),
    StoreError,
>)
    ensures
        final(backend).namespace() == old(backend).namespace(),
        adapter::extends(old(backend).history(), final(backend).history()),
        released(
            old(state)@,
            final(state)@,
            old(backend).history(),
            final(backend).history(),
            encode_utf8(pin.of()),
            pin.root(),
            done,
        ),
{
    let current: DurablePin = match read_root(state, &pin.name) {
        Ok(current) => current,
        Err(error) => {
            return Err(error);
        },
    };
    if !current.root.same(&pin.root) {
        return Err(StoreError::Busy);
    }
    state.retentions.remove(pin.name.as_bytes());
    state.publish(backend)
}

/// A pin that was replaced refuses to be released: the name holds another token.
pub proof fn law_replaced_pin_is_stale(
    state: StateModel,
    name: Seq<u8>,
    old_root: Retained,
    new_root: Retained,
)
    requires
        new_root.txid.wf(),
        new_root.revision != old_root.revision,
    ensures
        root_of(state.with_root(name, new_root), name) == Ok::<Retained, StoreError>(new_root),
        new_root != old_root,
{
    law_retained_round_trip(new_root);
}

/// Whether some bytes are the name of a retention.
pub open spec fn name_check(name: Seq<u8>) -> Result<(), StoreError> {
    if !valid_utf8(name) {
        Err(StoreError::Corrupt(0))
    } else if !retention_name(name) {
        Err(StoreError::InvalidConfiguration(NAME_RULE))
    } else {
        Ok(())
    }
}

/// Whether the first `count` names of a catalog's pins are good, or what the first
/// that is not gives.
pub open spec fn names_check(list: Seq<(Seq<u8>, Seq<u8>)>, count: int) -> Result<(), StoreError>
    decreases count,
{
    if count <= 0 {
        Ok(())
    } else {
        match names_check(list, count - 1) {
            Err(error) => Err(error),
            Ok(_) => name_check(list[count - 1].0),
        }
    }
}

proof fn lemma_names_stop(list: Seq<(Seq<u8>, Seq<u8>)>, i: int, count: int)
    requires
        0 <= i <= count,
        names_check(list, i) is Err,
    ensures
        names_check(list, count) == names_check(list, i),
    decreases count - i,
{
    if i < count {
        lemma_names_stop(list, i, count - 1);
    }
}

/// The names of a catalog's pins.
pub fn root_names(state: &State) -> (names: Result<Vec<RetentionName>, StoreError>)
    ensures
        ({
            let list = order::listing::<Vec<u8>, Seq<u8>>(state@.retentions.entries);
            match names {
                Ok(n) => {
                    &&& names_check(list, list.len() as int) is Ok
                    &&& n@.len() == list.len()
                    &&& forall|i: int| 0 <= i < list.len() ==> (#[trigger] n@[i]).bytes() == list[i].0
                },
                Err(e) => names_check(list, list.len() as int) == Err::<(), StoreError>(e),
            }
        }),
{
    let entries = state.retentions.entries();
    let ghost list = entries.pairs();
    let count: usize = entries.len();
    let mut names: Vec<RetentionName> = Vec::new();
    let mut i: usize = 0;
    while i < count
        invariant
            i <= count,
            count == list.len(),
            list == entries.pairs(),
            list == order::listing::<Vec<u8>, Seq<u8>>(state@.retentions.entries),
            names@.len() == i,
            names_check(list, i as int) is Ok,
            forall|j: int| 0 <= j < i ==> (#[trigger] names@[j]).bytes() == list[j].0,
        decreases count - i,
    {
        let key: &Vec<u8> = entries.key_at(i);
        let found: Result<RetentionName, StoreError> = match as_text(key.as_slice()) {
            None => Err(StoreError::Corrupt(0)),
            Some(text) => RetentionName::new(text.to_owned()),
        };
        match found {
            Err(error) => {
                proof {
                    lemma_names_stop(list, i as int + 1, list.len() as int);
                }
                return Err(error);
            },
            Ok(name) => {
                names.push(name);
            },
        }
        i += 1;
    }
    Ok(names)
}

/// A name is released by its present pin alone. Another pin, though it speaks of the
/// same view, is refused and changes nothing; once the present one is released the
/// name is free, and no other name is touched.
pub proof fn law_present_pin_releases(
    before: StateModel,
    after: StateModel,
    earlier: Seq<Event>,
    later: Seq<Event>,
    name: Seq<u8>,
    root: Retained,
    done: Result<(), StoreError>,
    other: Seq<u8>,
)
    requires
        released(before, after, earlier, later, name, root, done),
    ensures
        done is Ok ==> root_of(before, name) == Ok::<Retained, StoreError>(root),
        done is Ok ==> root_of(after, name) == Err::<Retained, StoreError>(StoreError::NotFound),
        done is Ok && other != name ==> root_of(after, other) == root_of(before, other),
        (root_of(before, name) matches Ok(current) && current != root) ==> done == Err::<
            (),
            StoreError,
        >(StoreError::Busy) && after == before && later == earlier,
{
    if done is Ok {
        let freed = before.without_root(name);
        let noted = freed.noted();
        assert(noted.written(5).retentions.entries == noted.retentions.entries);
    }
}

/// What is opened under a name is the view that was retained under it, and no other:
/// it has the database, the last transaction and the hash of the root that the name
/// holds. Where no manifest is left that ends there, nothing is opened.
pub proof fn law_retained_view_is_the_one(
    history: Seq<Event>,
    at: int,
    state: StateModel,
    root: Retained,
)
    ensures
        retained_replay(history, at, state, root) matches Replay::Done(Ok(view), _) ==> is_retained(
            view,
            root,
        ),
        retained_manifest(state, root) is Err ==> retained_replay(history, at, state, root)
            == Replay::Done(Err::<PinModel, StoreError>(retained_manifest(state, root)->Err_0), at),
{
}

/// A view that is opened for a root has the database and the last transaction of the
/// root, and the root's hash is the digest of what the view says.
pub proof fn law_opened_view_is_named_by_its_root(
    history: Seq<Event>,
    at: int,
    state: StateModel,
    root: Retained,
    view: PinModel,
    next: int,
)
    requires
        retained_replay(history, at, state, root) == Replay::Done(Ok::<PinModel, StoreError>(view), next),
    ensures
        view.metadata.view.database == root.database,
        view.metadata.view.txid == root.txid,
        root.hash.bytes@ == digest::content_hash(
            view.metadata.view.logical_input(digest::content_hash(view.metadata.view.content_input())),
        ),
{
}

/// The root of a view names it by its database, its last transaction and its hash, under
/// a token of its own.
pub proof fn law_root_names_its_view(view: PinModel, revision: RetentionId)
    ensures
        root_for(view, revision).database == view.metadata.view.database,
        root_for(view, revision).txid == view.metadata.view.txid,
        root_for(view, revision).revision == revision,
        root_for(view, revision).hash.bytes@ == digest::content_hash(
            view.metadata.view.logical_input(digest::content_hash(view.metadata.view.content_input())),
        ),
{
    frame::lemma_id_bytes::<VIEW>(
        digest::content_hash(
            view.metadata.view.logical_input(digest::content_hash(view.metadata.view.content_input())),
        ),
    );
}

/// A name that is free can be given. One that is taken is given anew only where that is
/// asked for, and only to a view of the database that it is held for; else the name is
/// told, and nothing is replaced.
pub proof fn law_names_are_given_once(
    state: StateModel,
    name: Seq<char>,
    database: DatabaseId,
    replace: bool,
    done: Result<(), StoreError>,
)
    requires
        replacement(state, name, database, replace, done),
    ensures
        ({
            let held = root_of(state, encode_utf8(name));
            &&& held == Err::<Retained, StoreError>(StoreError::NotFound)
                && !state.retentions.entries.dom().contains(encode_utf8(name)) ==> done is Ok
            &&& held is Ok && !replace ==> (done matches Err(StoreError::RetentionExists(told)) && told@
                == name)
            &&& held is Ok && replace && held->Ok_0.database == database ==> done is Ok
            &&& held is Ok && replace && held->Ok_0.database != database ==> done == Err::<
                (),
                StoreError,
            >(StoreError::IdentityMismatch)
        }),
{
}

/// What was retained is found under its name: the name holds the root, every other name
/// holds what it held, and the view could be opened before the name was given.
pub proof fn law_retained_under_its_name(
    before: StateModel,
    after: StateModel,
    earlier: Seq<Event>,
    later: Seq<Event>,
    name: Seq<u8>,
    root: Retained,
    other: Seq<u8>,
)
    requires
        retained_outcome(before, after, earlier, later, name, root, Ok(())),
        root.txid.wf(),
    ensures
        root_of(after, name) == Ok::<Retained, StoreError>(root),
        other != name ==> root_of(after, other) == root_of(before, other),
        exists|mid: Seq<Event>, view: PinModel|
            #[trigger] resolved_root(before, earlier, mid, root, view) && view.metadata.view.txid
                == root.txid,
{
    let (mid, view) = choose|mid: Seq<Event>, view: PinModel|
        {
            &&& #[trigger] resolved_root(before, earlier, mid, root, view)
            &&& state::publish_outcome(before.with_root(name, root), after, mid, later, Ok(()))
        };
    law_retained_round_trip(root);
    let given = before.with_root(name, root);
    let noted = given.noted();
    assert(noted.written(5).retentions.entries == noted.retentions.entries);
}

/// A retention's name has one to sixty-four ASCII letters, digits, dashes or underscores.
pub proof fn law_retention_names(name: Seq<u8>)
    ensures
        retention_name(name) <==> 1 <= name.len() <= 64 && forall|i: int|
            0 <= i < name.len() ==> {
                let c = #[trigger] name[i] as char;
                ('0' <= c && c <= '9') || ('A' <= c && c <= 'Z') || ('a' <= c && c <= 'z') || c == '-'
                    || c == '_'
            },
{
    if 1 <= name.len() <= 64 && forall|i: int|
        0 <= i < name.len() ==> {
            let c = #[trigger] name[i] as char;
            ('0' <= c && c <= '9') || ('A' <= c && c <= 'Z') || ('a' <= c && c <= 'z') || c == '-' || c
                == '_'
        } {
        assert forall|i: int| 0 <= i < name.len() implies name_byte(#[trigger] name[i]) by {}
    }
}

} // verus!
