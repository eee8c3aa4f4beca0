//! A backend that holds its namespace in memory.

use crate::adapter;
use crate::adapter::{
    BackendError, DeletePermit, Event, MAX_BATCH_REQUESTS, MAX_ROOT_BYTES, ObjectKey, ObjectRange,
    ObjectWriter, Publication, Revision, RootModel, RootRecord, StorageBackend, check_batch,
};
use crate::bytes::{copied, same_bytes};
use crate::domain::{BackendId, Count, Id, StoredBytes, StoredRange};
use crate::entropy::nonce;
use crate::order;
use crate::order::{Key, OrderedMap};
use vstd::prelude::*;
use vstd::slice::slice_subrange;

verus! {

/// What a memory backend holds, and the calls that led to it.
struct Vault {
    objects: OrderedMap<ObjectKey, Vec<u8>>,
    root: Option<RootRecord>,
    log: Ghost<Seq<Event>>,
}

/// A backend that holds everything in memory.
pub struct MemoryBackend {
    identity: BackendId,
    vault: Vault,
}

/// An unpublished object of a memory backend.
#[derive(Debug)]
pub struct MemoryWriter {
    bytes: Vec<u8>,
}

impl ObjectWriter for MemoryWriter {
    closed spec fn written(&self) -> Seq<u8> {
        self.bytes@
    }
}

/// The objects that a history leaves: what was installed and not deleted since.
pub open spec fn held(history: Seq<Event>) -> Map<ObjectKey, Seq<u8>>
    decreases history.len(),
{
    if history.len() == 0 {
        Map::empty()
    } else {
        let before = held(history.drop_last());
        match history.last() {
            Event::Install { key, bytes, reply: Ok(_) } => before.insert(key, bytes),
            Event::Delete { key, reply: Ok(_) } => before.remove(key),
            _ => before,
        }
    }
}

/// The root that a history leaves: the last one that was applied.
pub open spec fn rooted(history: Seq<Event>) -> Option<RootModel>
    decreases history.len(),
{
    if history.len() == 0 {
        None
    } else {
        match history.last() {
            Event::Publish { expected, bytes, reply: Ok(Publication::Applied(revision)) } => Some(
                RootModel { revision: revision@, bytes },
            ),
            _ => rooted(history.drop_last()),
        }
    }
}

/// The token of a root.
pub open spec fn token_of(root: Option<RootModel>) -> Option<Seq<u8>> {
    match root {
        Some(root) => Some(root.revision),
        None => None,
    }
}

/// A reply is the one that a memory backend with these objects and this root gives.
/// Its streams never break.
pub open spec fn answered(
    objects: Map<ObjectKey, Seq<u8>>,
    root: Option<RootModel>,
    event: Event,
) -> bool {
    match event {
        Event::Broken { .. } => false,
        Event::Install { key, bytes, reply } => match reply {
            Ok(_) => bytes.len() > 0 && (objects.dom().contains(key) ==> objects[key] == bytes),
            Err(e) => e == BackendError::Range || (e == BackendError::IdentityMismatch(key)
                && objects.dom().contains(key) && objects[key] != bytes),
        },
        Event::Read { requests, reply } => served(objects, requests, reply),
        Event::Stat { key, reply } => match reply {
            Ok(Some(n)) => objects.dom().contains(key) && n.value == objects[key].len(),
            Ok(None) => !objects.dom().contains(key),
            Err(_) => false,
        },
        Event::RootRead { reply } => match reply {
            Ok(Some(r)) => root == Some(r@),
            Ok(None) => root is None,
            Err(_) => false,
        },
        Event::Publish { expected, bytes, reply } => match reply {
            Ok(Publication::Applied(_)) => expected == token_of(root) && bytes.len()
                <= MAX_ROOT_BYTES,
            Ok(Publication::Stale) => expected != token_of(root),
            Ok(Publication::Uncertain(_)) => false,
            Err(e) => expected == token_of(root) && (e is Io || (e == BackendError::Range
                && bytes.len() > MAX_ROOT_BYTES)),
        },
        Event::Inventory { after, limit, reply } => match reply {
            Ok(k) => 1 <= limit <= MAX_BATCH_REQUESTS && is_listing(
                k@,
                objects.dom(),
                after,
                limit as int,
            ),
            Err(e) => !(1 <= limit <= MAX_BATCH_REQUESTS) && e == BackendError::Range,
        },
        Event::Delete { key, reply } => reply matches Err(e) ==> e == BackendError::WrongNamespace,
    }
}

/// Every reply in a history is the one that a memory backend gives.
pub open spec fn truthful(history: Seq<Event>) -> bool {
    forall|i: int|
        0 <= i < history.len() ==> answered(
            held(history.take(i)),
            rooted(history.take(i)),
            #[trigger] history[i],
        )
}

proof fn lemma_noted(history: Seq<Event>, event: Event)
    requires
        truthful(history),
        answered(held(history), rooted(history), event),
    ensures
        truthful(history.push(event)),
        held(history.push(event)) == (match event {
            Event::Install { key, bytes, reply: Ok(_) } => held(history).insert(key, bytes),
            Event::Delete { key, reply: Ok(_) } => held(history).remove(key),
            _ => held(history),
        }),
        rooted(history.push(event)) == (match event {
            Event::Publish { expected, bytes, reply: Ok(Publication::Applied(revision)) } => Some(
                RootModel { revision: revision@, bytes },
            ),
            _ => rooted(history),
        }),
{
    let more = history.push(event);
    assert(more.drop_last() =~= history);
    assert forall|i: int| 0 <= i < more.len() implies answered(
        held(more.take(i)),
        rooted(more.take(i)),
        #[trigger] more[i],
    ) by {
        assert(more.take(i) =~= history.take(i));
        if i < history.len() {
            assert(more[i] == history[i]);
        } else {
            assert(history.take(i) =~= history);
        }
    }
}

/// Key `k` comes after an optional cursor.
pub open spec fn after_cursor(after: Option<ObjectKey>, k: ObjectKey) -> bool {
    match after {
        Some(cursor) => ObjectKey::precedes(cursor, k),
        None => true,
    }
}

/// The first `limit` keys of `keys` after the cursor, in order.
pub open spec fn is_listing(
    listing: Seq<ObjectKey>,
    keys: Set<ObjectKey>,
    after: Option<ObjectKey>,
    limit: int,
) -> bool {
    &&& listing.len() <= limit
    &&& forall|i: int, j: int|
        0 <= i < j < listing.len() ==> ObjectKey::precedes(
            #[trigger] listing[i],
            #[trigger] listing[j],
        )
    &&& forall|i: int|
        0 <= i < listing.len() ==> keys.contains(#[trigger] listing[i]) && after_cursor(
            after,
            listing[i],
        )
    &&& forall|k: ObjectKey|
        #[trigger] keys.contains(k) && after_cursor(after, k) ==> listing.contains(k) || (
        listing.len() == limit && (limit > 0 ==> ObjectKey::precedes(listing[limit - 1], k)))
}

/// What a memory backend replies to one request.
pub open spec fn memory_read(objects: Map<ObjectKey, Seq<u8>>, request: ObjectRange) -> Result<
    Seq<u8>,
    BackendError,
> {
    let begin = request.place().offset.value as int;
    let end = begin + request.place().length.value;
    if !objects.dom().contains(request.of()) {
        Err(BackendError::Missing(request.of()))
    } else if end > objects[request.of()].len() {
        Err(BackendError::Range)
    } else {
        Ok(objects[request.of()].subrange(begin, end))
    }
}

/// Lists up to `limit` keys behind a cursor, in order.
pub fn keys_after<V: View>(
    objects: &OrderedMap<ObjectKey, V>,
    after: Option<ObjectKey>,
    limit: usize,
) -> (keys: Result<Vec<ObjectKey>, BackendError>)
    ensures
        match keys {
            Ok(k) => 1 <= limit <= MAX_BATCH_REQUESTS && is_listing(
                k@,
                objects@.dom(),
                after,
                limit as int,
            ),
            Err(e) => !(1 <= limit <= MAX_BATCH_REQUESTS) && e == BackendError::Range,
        },
{
    if limit == 0 || limit > MAX_BATCH_REQUESTS {
        return Err(BackendError::Range);
    }
    let count: usize = objects.len();
    let ghost pairs = objects.pairs();
    let mut start: usize = 0;
    match after {
        Some(cursor) => {
            start = objects.lower_bound(&cursor);
            if start < count && objects.key_at(start).same(&cursor) {
                start += 1;
                proof {
                    ObjectKey::lemma_irreflexive(cursor);
                }
            }
        },
        None => {},
    }
    proof {
        crate::order::lemma_walk::<ObjectKey, V::V>(pairs, objects@);
        assert forall|i: int| 0 <= i < pairs.len() implies (after_cursor(
            after,
            (#[trigger] pairs[i]).0,
        ) <==> i >= start) by {
            if let Some(cursor) = after {
                ObjectKey::lemma_total(pairs[i].0, cursor);
                ObjectKey::lemma_irreflexive(cursor);
                if i < start {
                    if pairs[i].0 != cursor && ObjectKey::precedes(cursor, pairs[i].0) {
                        ObjectKey::lemma_transitive(pairs[i].0, cursor, pairs[i].0);
                        ObjectKey::lemma_irreflexive(pairs[i].0);
                    }
                } else {
                    if pairs[i].0 == cursor && i > start {
                        assert(ObjectKey::precedes(pairs[start as int].0, pairs[i].0));
                    }
                    if start > 0 && pairs[start - 1].0 == cursor {
                        assert(ObjectKey::precedes(pairs[start - 1].0, pairs[i].0));
                    }
                }
            }
        }
    }
    let mut keys: Vec<ObjectKey> = Vec::new();
    let mut i: usize = start;
    while i < count && keys.len() < limit
        invariant
            start <= i <= count,
            count == pairs.len(),
            pairs == objects.pairs(),
            keys@.len() == i - start,
            keys@.len() <= limit,
            forall|j: int| 0 <= j < keys@.len() ==> #[trigger] keys@[j] == pairs[start + j].0,
        decreases count - i,
    {
        keys.push(*objects.key_at(i));
        i += 1;
    }
    proof {
        assert(order::ascending::<ObjectKey, V::V>(pairs));
        assert forall|a: int, b: int| 0 <= a < b < keys@.len() implies ObjectKey::precedes(
            #[trigger] keys@[a],
            #[trigger] keys@[b],
        ) by {
            assert(ObjectKey::precedes(pairs[start + a].0, pairs[start + b].0));
        }
        assert forall|a: int| 0 <= a < keys@.len() implies objects@.dom().contains(
            #[trigger] keys@[a],
        ) && after_cursor(after, keys@[a]) by {
            assert(objects@.dom().contains(pairs[start + a].0));
            assert(after_cursor(after, pairs[start + a].0));
        }
        assert forall|k: ObjectKey|
            #[trigger] objects@.dom().contains(k) && after_cursor(
                after,
                k,
            ) implies keys@.contains(k) || (keys@.len() == limit && (limit > 0
            ==> ObjectKey::precedes(keys@[limit - 1], k))) by {
            assert(objects@.dom().contains(k));
            let p = choose|p: int| 0 <= p < pairs.len() && (#[trigger] pairs[p]).0 == k;
            assert(p >= start);
            if p < i {
                assert(keys@[p - start] == k);
            } else {
                assert(ObjectKey::precedes(pairs[i - 1].0, pairs[p].0));
                assert(keys@[limit - 1] == pairs[i - 1].0);
            }
        }
    }
    Ok(keys)
}

impl Vault {
    /// The objects and the root are those that the calls led to.
    spec fn settled(&self) -> bool {
        &&& self.objects@ == held(self.log@)
        &&& self.current() == rooted(self.log@)
        &&& truthful(self.log@)
    }

    spec fn current(&self) -> Option<RootModel> {
        match self.root {
            Some(root) => Some(root@),
            None => None,
        }
    }

    fn empty() -> (vault: Vault)
        ensures
            vault.settled(),
            vault.log@ == Seq::<Event>::empty(),
            vault.objects@ == Map::<ObjectKey, Seq<u8>>::empty(),
            vault.root is None,
    {
        Vault { objects: OrderedMap::new(), root: None, log: Ghost(Seq::empty()) }
    }

    fn note(&mut self, event: Ghost<Event>)
        ensures
            final(self).log@ == old(self).log@.push(event@),
            final(self).objects == old(self).objects,
            final(self).root == old(self).root,
    {
        let ghost log = self.log@.push(event@);
        self.log = Ghost(log);
    }

    fn install(&mut self, bytes: Vec<u8>, key: ObjectKey, length: StoredBytes) -> (done: Result<
        (),
        BackendError,
    >)
        ensures
            final(self).log == old(self).log,
            final(self).root == old(self).root,
            ({
                let held = old(self).objects@;
                match done {
                    Ok(_) => length.value != 0 && length.value == bytes@.len() && (
                    held.dom().contains(key) ==> held[key] == bytes@) && final(self).objects@
                        == held.insert(key, bytes@),
                    Err(e) => final(self).objects@ == held && (if length.value == 0
                        || length.value != bytes@.len() {
                        e == BackendError::Range
                    } else {
                        e == BackendError::IdentityMismatch(key) && held.dom().contains(key)
                            && held[key] != bytes@
                    }),
                }
            }),
    {
        if length.value == 0 || bytes.len() as u64 != length.value {
            return Err(BackendError::Range);
        }
        match self.objects.get(&key) {
            Some(existing) => {
                if !same_bytes(existing.as_slice(), bytes.as_slice()) {
                    return Err(BackendError::IdentityMismatch(key));
                }
                assert(self.objects@.insert(key, bytes@) =~= self.objects@);
            },
            None => {
                self.objects.insert(key, bytes);
            },
        }
        Ok(())
    }

    /// Replaces the root under a fresh token.
    fn replace_root(&mut self, token: [u8; 32], bytes: &[u8]) -> (publication: Result<
        Publication,
        BackendError,
    >)
        ensures
            final(self).log == old(self).log,
            final(self).objects == old(self).objects,
            match publication {
                Ok(p) => bytes@.len() <= MAX_ROOT_BYTES && (p matches Publication::Applied(r) && r@
                    == token@) && final(self).current() == Some(
                    RootModel { revision: token@, bytes: bytes@ },
                ),
                Err(e) => bytes@.len() > MAX_ROOT_BYTES && e == BackendError::Range && final(
                    self).root == old(self).root,
            },
    {
        let revision: Revision = match Revision::new(copied(token.as_slice())) {
            Ok(revision) => revision,
            Err(error) => {
                return Err(error);
            },
        };
        match RootRecord::new(revision.duplicate(), copied(bytes)) {
            Ok(record) => {
                self.root = Some(record);
                Ok(Publication::Applied(revision))
            },
            Err(error) => Err(error),
        }
    }

    fn at_token(&self, expected: Option<&Revision>) -> (same: bool)
        ensures
            same == (adapter::revision_view(expected) == token_of(self.current())),
    {
        match (&self.root, expected) {
            (Some(root), Some(token)) => same_bytes(root.revision().bytes(), token.bytes()),
            (None, None) => true,
            _ => false,
        }
    }

    fn read_one(&self, request: ObjectRange) -> (reply: Result<Vec<u8>, BackendError>)
        ensures
            match reply {
                Ok(bytes) => memory_read(self.objects@, request) == Ok::<
                    Seq<u8>,
                    BackendError,
                >(bytes@),
                Err(e) => memory_read(self.objects@, request) == Err::<Seq<u8>, BackendError>(e),
            },
    {
        let key: ObjectKey = request.key();
        let range: StoredRange = request.range();
        match self.objects.get(&key) {
            None => Err(BackendError::Missing(key)),
            Some(bytes) => {
                let size: u64 = bytes.len() as u64;
                let end: u64 = match range.offset.value.checked_add(range.length.value) {
                    Some(end) => end,
                    None => {
                        return Err(BackendError::Range);
                    },
                };
                if end > size {
                    return Err(BackendError::Range);
                }
                let begin: usize = range.offset.value as usize;
                Ok(copied(slice_subrange(bytes.as_slice(), begin, end as usize)))
            },
        }
    }

    fn read_batch(&self, requests: &[ObjectRange]) -> (replies: Result<Vec<Vec<u8>>, BackendError>)
        ensures
            served(self.objects@, requests@, replies),
    {
        match check_batch(requests) {
            Ok(_) => {},
            Err(error) => {
                return Err(error);
            },
        }
        let mut replies: Vec<Vec<u8>> = Vec::new();
        let mut i: usize = 0;
        while i < requests.len()
            invariant
                i <= requests@.len(),
                adapter::batch_fits(requests@),
                replies@.len() == i,
                forall|j: int|
                    0 <= j < i ==> memory_read(self.objects@, #[trigger] requests@[j]) == Ok::<
                        Seq<u8>,
                        BackendError,
                    >(replies@[j]@),
            decreases requests.len() - i,
        {
            match self.read_one(requests[i]) {
                Ok(bytes) => {
                    replies.push(bytes);
                },
                Err(error) => {
                    assert(memory_read(self.objects@, requests@[i as int]) is Err);
                    return Err(error);
                },
            }
            i += 1;
        }
        Ok(replies)
    }
}

/// The replies of a memory backend to a batch: each request in turn, up to the
/// first that fails.
pub open spec fn served(
    objects: Map<ObjectKey, Seq<u8>>,
    requests: Seq<ObjectRange>,
    replies: Result<Vec<Vec<u8>>, BackendError>,
) -> bool {
    match replies {
        Ok(r) => adapter::batch_fits(requests) && r@.len() == requests.len() && forall|i: int|
            0 <= i < requests.len() ==> memory_read(objects, #[trigger] requests[i]) == Ok::<
                Seq<u8>,
                BackendError,
            >(r@[i]@),
        Err(e) => if !adapter::batch_fits(requests) {
            e == BackendError::Range
        } else {
            exists|i: int|
                0 <= i < requests.len() && memory_read(objects, #[trigger] requests[i]) == Err::<
                    Seq<u8>,
                    BackendError,
                >(e) && forall|j: int|
                    0 <= j < i ==> memory_read(objects, #[trigger] requests[j]) is Ok
        },
    }
}

impl MemoryBackend {
    /// The objects and their contents.
    pub closed spec fn contents(&self) -> Map<ObjectKey, Seq<u8>> {
        self.vault.objects@
    }

    pub closed spec fn current(&self) -> Option<RootModel> {
        self.vault.current()
    }

    /// The token of the current root.
    pub open spec fn token(&self) -> Option<Seq<u8>> {
        token_of(self.current())
    }

    /// What is held is what the calls led to, and every reply was true.
    pub open spec fn faithful(&self) -> bool {
        &&& self.contents() == held(self.history())
        &&& self.current() == rooted(self.history())
        &&& truthful(self.history())
    }

    #[verifier::type_invariant]
    spec fn settled(&self) -> bool {
        self.vault.settled()
    }

    /// An empty namespace with a random identity.
    pub fn new() -> (backend: Result<Self, BackendError>)
        ensures
            backend matches Ok(b) ==> b.contents() == Map::<
                ObjectKey,
                Seq<u8>,
            >::empty() && b.current() is None && b.history() == Seq::<Event>::empty(),
            backend matches Err(e) ==> e is Io,
    {
        match nonce() {
            Ok(bytes) => Ok(MemoryBackend::with_identity(Id { bytes })),
            Err(message) => Err(BackendError::Io(message)),
        }
    }

    /// An empty namespace with this identity.
    pub fn with_identity(identity: BackendId) -> (backend: Self)
        ensures
            backend.contents() == Map::<ObjectKey, Seq<u8>>::empty(),
            backend.current() is None,
            backend.history() == Seq::<Event>::empty(),
            backend.namespace() == identity,
    {
        MemoryBackend { identity, vault: Vault::empty() }
    }

    /// Takes what is held out, for a change.
    fn open(&mut self) -> (vault: Vault)
        ensures
            vault == old(self).vault,
            vault.settled(),
            final(self).identity == old(self).identity,
    {
        proof {
            use_type_invariant(&*self);
        }
        let mut vault: Vault = Vault::empty();
        std::mem::swap(&mut vault, &mut self.vault);
        vault
    }

    /// Puts bytes that are already named: exactly `length` of them, and at least
    /// one. Other bytes under a key that exists are refused.
    pub fn put(&mut self, key: ObjectKey, length: StoredBytes, source: &[u8]) -> (done: Result<
        (),
        BackendError,
    >)
        ensures
            final(self).faithful(),
            final(self).namespace() == old(self).namespace(),
            final(self).current() == old(self).current(),
            ({
                let before = old(self).contents();
                if adapter::ill_sized(length, source@) {
                    done == Err::<(), BackendError>(BackendError::Range) && final(self).contents()
                        == before
                } else if before.dom().contains(key) && before[key] != source@ {
                    done == Err::<(), BackendError>(BackendError::IdentityMismatch(key)) && final(
                        self).contents() == before
                } else {
                    done == Ok::<(), BackendError>(()) && final(self).contents() == before.insert(
                        key,
                        source@,
                    )
                }
            }),
    {
        proof {
            use_type_invariant(&*self);
        }
        if length.value == 0 || source.len() as u64 != length.value {
            return Err(BackendError::Range);
        }
        let mut writer: MemoryWriter = match self.begin_write() {
            Ok(writer) => writer,
            Err(error) => {
                assert(false);
                return Err(error);
            },
        };
        let count: Result<usize, BackendError> = self.write(&mut writer, source);
        assert(writer.written() =~= source@);
        let done: Result<(), BackendError> = self.finish_write(writer, key, length);
        proof {
            use_type_invariant(&*self);
            match done {
                Ok(unit) => {
                    assert(unit == ());
                },
                Err(_) => {},
            }
        }
        done
    }
}

impl StorageBackend for MemoryBackend {
    type Writer = MemoryWriter;

    closed spec fn history(&self) -> Seq<Event> {
        self.vault.log@
    }

    closed spec fn namespace(&self) -> BackendId {
        self.identity
    }

    fn identity(&self) -> (id: BackendId)
        ensures
            self.faithful(),
    {
        proof {
            use_type_invariant(self);
        }
        self.identity
    }

    fn begin_write(&mut self) -> (writer: Result<MemoryWriter, BackendError>)
        ensures
            writer is Ok,
            final(self).contents() == old(self).contents(),
            final(self).current() == old(self).current(),
    {
        Ok(MemoryWriter { bytes: Vec::new() })
    }

    fn write(&mut self, writer: &mut MemoryWriter, bytes: &[u8]) -> (count: Result<
        usize,
        BackendError,
    >)
        ensures
            count == Ok::<usize, BackendError>(bytes@.len() as usize),
            final(self).contents() == old(self).contents(),
            final(self).current() == old(self).current(),
    {
        crate::bytes::append(&mut writer.bytes, bytes);
        assert(bytes@.take(bytes@.len() as int) =~= bytes@);
        Ok(bytes.len())
    }

    /// Refuses a wrong length, and other bytes under a key that exists.
    fn finish_write(&mut self, writer: MemoryWriter, key: ObjectKey, length: StoredBytes) -> (done:
        Result<(), BackendError>)
        ensures
            final(self).current() == old(self).current(),
            ({
                let held = old(self).contents();
                let bytes = writer.written();
                match done {
                    Ok(_) => length.value != 0 && length.value == bytes.len() && (
                    held.dom().contains(key) ==> held[key] == bytes) && final(self).contents()
                        == held.insert(key, bytes),
                    Err(e) => final(self).contents() == held && (if length.value == 0
                        || length.value != bytes.len() {
                        e == BackendError::Range
                    } else {
                        e == BackendError::IdentityMismatch(key) && held.dom().contains(key)
                            && held[key] != bytes
                    }),
                }
            }),
    {
        let mut vault: Vault = self.open();
        let ghost log = vault.log@;
        let ghost bytes = writer.written();
        let done: Result<(), BackendError> = vault.install(writer.bytes, key, length);
        let ghost event = Event::Install { key, bytes, reply: done };
        vault.note(Ghost(event));
        proof {
            lemma_noted(log, event);
        }
        self.vault = vault;
        done
    }

    fn read_ranges(&mut self, requests: &[ObjectRange]) -> (replies: Result<
        Vec<Vec<u8>>,
        BackendError,
    >)
        ensures
            final(self).contents() == old(self).contents(),
            final(self).current() == old(self).current(),
            served(old(self).contents(), requests@, replies),
    {
        let mut vault: Vault = self.open();
        let ghost log = vault.log@;
        let replies: Result<Vec<Vec<u8>>, BackendError> = vault.read_batch(requests);
        let ghost event = Event::Read { requests: requests@, reply: replies };
        vault.note(Ghost(event));
        proof {
            lemma_noted(log, event);
        }
        self.vault = vault;
        replies
    }

    fn stat(&mut self, key: ObjectKey) -> (length: Result<Option<StoredBytes>, BackendError>)
        ensures
            final(self).contents() == old(self).contents(),
            final(self).current() == old(self).current(),
            match length {
                Ok(Some(n)) => old(self).contents().dom().contains(key) && n.value
                    == old(self).contents()[key].len(),
                Ok(None) => !old(self).contents().dom().contains(key),
                Err(_) => false,
            },
    {
        let mut vault: Vault = self.open();
        let ghost log = vault.log@;
        let length: Result<Option<StoredBytes>, BackendError> = match vault.objects.get(&key) {
            Some(bytes) => Ok(Some(Count { value: bytes.len() as u64 })),
            None => Ok(None),
        };
        let ghost event = Event::Stat { key, reply: length };
        vault.note(Ghost(event));
        proof {
            lemma_noted(log, event);
        }
        self.vault = vault;
        length
    }

    fn read_root(&mut self) -> (root: Result<Option<RootRecord>, BackendError>)
        ensures
            final(self).contents() == old(self).contents(),
            final(self).current() == old(self).current(),
            match root {
                Ok(Some(r)) => old(self).current() == Some(r@),
                Ok(None) => old(self).current() is None,
                Err(_) => false,
            },
    {
        let mut vault: Vault = self.open();
        let ghost log = vault.log@;
        let root: Result<Option<RootRecord>, BackendError> = match &vault.root {
            Some(record) => Ok(Some(record.duplicate())),
            None => Ok(None),
        };
        let ghost event = Event::RootRead { reply: root };
        vault.note(Ghost(event));
        proof {
            lemma_noted(log, event);
        }
        self.vault = vault;
        root
    }

    /// Applied if and only if the token is the expected one, the bytes fit and
    /// the random source gives a new token.
    fn compare_exchange_root(&mut self, expected: Option<&Revision>, bytes: &[u8]) -> (publication:
        Result<Publication, BackendError>)
        ensures
            final(self).contents() == old(self).contents(),
            match publication {
                Ok(Publication::Applied(r)) => adapter::revision_view(expected) == old(self).token()
                    && bytes@.len() <= MAX_ROOT_BYTES && final(self).current() == Some(
                    RootModel { revision: r@, bytes: bytes@ },
                ),
                Ok(Publication::Stale) => adapter::revision_view(expected) != old(self).token() && final(
                    self).current() == old(self).current(),
                Ok(Publication::Uncertain(_)) => false,
                Err(e) => adapter::revision_view(expected) == old(self).token() && final(self).current()
                    == old(self).current() && (e is Io || (e == BackendError::Range && bytes@.len()
                    > MAX_ROOT_BYTES)),
            },
    {
        let mut vault: Vault = self.open();
        let ghost log = vault.log@;
        let publication: Result<Publication, BackendError> = if !vault.at_token(expected) {
            Ok(Publication::Stale)
        } else {
            match nonce() {
                Ok(token) => vault.replace_root(token, bytes),
                Err(message) => Err(BackendError::Io(message)),
            }
        };
        let ghost event = Event::Publish {
            expected: adapter::revision_view(expected),
            bytes: bytes@,
            reply: publication,
        };
        vault.note(Ghost(event));
        proof {
            lemma_noted(log, event);
        }
        self.vault = vault;
        publication
    }

    fn inventory(&mut self, after: Option<ObjectKey>, limit: usize) -> (keys: Result<
        Vec<ObjectKey>,
        BackendError,
    >)
        ensures
            final(self).contents() == old(self).contents(),
            final(self).current() == old(self).current(),
            match keys {
                Ok(k) => 1 <= limit <= MAX_BATCH_REQUESTS && is_listing(
                    k@,
                    old(self).contents().dom(),
                    after,
                    limit as int,
                ),
                Err(e) => !(1 <= limit <= MAX_BATCH_REQUESTS) && e == BackendError::Range,
            },
    {
        let mut vault: Vault = self.open();
        let ghost log = vault.log@;
        let keys: Result<Vec<ObjectKey>, BackendError> = keys_after(&vault.objects, after, limit);
        let ghost event = Event::Inventory { after, limit, reply: keys };
        vault.note(Ghost(event));
        proof {
            lemma_noted(log, event);
        }
        self.vault = vault;
        keys
    }

    fn delete(&mut self, permit: DeletePermit) -> (done: Result<(), BackendError>)
        ensures
            final(self).current() == old(self).current(),
            match done {
                Ok(_) => permit.home() == old(self).namespace() && final(self).contents()
                    == old(self).contents().remove(permit.target()),
                Err(e) => permit.home() != old(self).namespace() && e
                    == BackendError::WrongNamespace && final(self).contents()
                    == old(self).contents(),
            },
    {
        let mut vault: Vault = self.open();
        let ghost log = vault.log@;
        let done: Result<(), BackendError> = match permit.authorize(self.identity) {
            Ok(key) => {
                vault.objects.remove(&key);
                Ok(())
            },
            Err(error) => Err(error),
        };
        let ghost event = Event::Delete { key: permit.target(), reply: done };
        vault.note(Ghost(event));
        proof {
            lemma_noted(log, event);
        }
        self.vault = vault;
        done
    }
}

/// What was installed is there, as it was installed, until it is deleted: whatever else
/// a memory backend is asked meanwhile, under the same key or another.
pub proof fn law_installed_is_kept(history: Seq<Event>, i: int, n: int)
    requires
        truthful(history),
        0 <= i < n <= history.len(),
        history[i] matches Event::Install { key, bytes, reply } && reply is Ok,
        forall|j: int|
            i < j < n ==> (#[trigger] history[j] matches Event::Delete { key, reply } ==> key
                != history[i]->Install_key),
    ensures
        ({
            let objects = held(history.take(n));
            objects.dom().contains(history[i]->Install_key) && objects[history[i]->Install_key]
                == history[i]->Install_bytes
        }),
    decreases n,
{
    let now = history.take(n);
    assert(now.drop_last() =~= history.take(n - 1));
    assert(now.last() == history[n - 1]);
    if n - 1 > i {
        law_installed_is_kept(history, i, n - 1);
        assert(answered(held(history.take(n - 1)), rooted(history.take(n - 1)), history[n - 1]));
    }
}

/// What a memory backend reads of an object that was installed is what was installed
/// there, byte for byte.
pub proof fn law_reads_what_was_installed(history: Seq<Event>, i: int, n: int, k: int)
    requires
        truthful(history),
        0 <= i < n < history.len(),
        history[i] matches Event::Install { key, bytes, reply } && reply is Ok,
        forall|j: int|
            i < j < n ==> (#[trigger] history[j] matches Event::Delete { key, reply } ==> key
                != history[i]->Install_key),
        history[n] matches Event::Read { requests, reply } && reply is Ok && 0 <= k < requests.len()
            && requests[k].of() == history[i]->Install_key,
    ensures
        ({
            let request = history[n]->Read_requests[k];
            let from = request.place().offset.value as int;
            let to = from + request.place().length.value;
            let bytes = history[i]->Install_bytes;
            &&& to <= bytes.len()
            &&& history[n]->Read_reply->Ok_0@[k]@ == bytes.subrange(from, to)
        }),
{
    law_installed_is_kept(history, i, n);
    assert(answered(held(history.take(n)), rooted(history.take(n)), history[n]));
    let request = history[n]->Read_requests[k];
    assert(memory_read(held(history.take(n)), request) is Ok);
}

/// The root of a memory backend is replaced only by one who knows the present one, and
/// is then what was published.
pub proof fn law_root_is_replaced_by_who_knows_it(history: Seq<Event>, n: int)
    requires
        truthful(history),
        0 <= n < history.len(),
        history[n] matches Event::Publish { expected, bytes, reply } && reply matches Ok(
            Publication::Applied(_),
        ),
    ensures
        ({
            let before = rooted(history.take(n));
            let after = rooted(history.take(n + 1));
            &&& history[n]->Publish_expected == match before {
                Some(root) => Some(root.revision),
                None => None,
            }
            &&& after matches Some(root) && root.bytes == history[n]->Publish_bytes
            &&& held(history.take(n + 1)) == held(history.take(n))
        }),
{
    assert(answered(held(history.take(n)), rooted(history.take(n)), history[n]));
    assert(history.take(n + 1).drop_last() =~= history.take(n));
    assert(history.take(n + 1).last() == history[n]);
}

} // verus!
