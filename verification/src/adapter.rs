//! The storage contract: one backend instance identifies one namespace.
//!
//! A backend is reached only through `StorageBackend`. Its history is the
//! sequence of calls that it answered, each with its reply: what the store hands
//! to a backend, and in which order, is stated over it. A reply itself is never
//! trusted: any backend may answer anything.

use crate::bytes;
use crate::bytes::{copied, less_bytes, same_bytes};
use crate::domain::{BackendId, BlobId, DictionaryId, IndexId, ManifestId, StoredBytes, StoredRange};
use crate::order::Key;
use vstd::prelude::*;
use vstd::slice::slice_subrange;

verus! {

/// The most bytes that one batch of reads asks for.
pub const MAX_BATCH_BYTES: u64 = 67108864;

/// The most bytes of a root.
pub const MAX_ROOT_BYTES: usize = 65536;

/// The most requests of one batch, and keys of one listing.
pub const MAX_BATCH_REQUESTS: usize = 4096;

/// The key of an immutable object.
#[derive(Clone, Copy, Debug, PartialEq, Eq, PartialOrd, Ord, Hash)]
pub enum ObjectKey {
    Blob(BlobId),
    Manifest(ManifestId),
    Dictionary(DictionaryId),
    Index(IndexId),
}

impl ObjectKey {
    /// The place of the kind of object in the order of keys.
    pub open spec fn rank(self) -> int {
        match self {
            ObjectKey::Blob(_) => 0,
            ObjectKey::Manifest(_) => 1,
            ObjectKey::Dictionary(_) => 2,
            ObjectKey::Index(_) => 3,
        }
    }

    pub open spec fn digest(self) -> [u8; 32] {
        match self {
            ObjectKey::Blob(id) => id.bytes,
            ObjectKey::Manifest(id) => id.bytes,
            ObjectKey::Dictionary(id) => id.bytes,
            ObjectKey::Index(id) => id.bytes,
        }
    }

    pub fn kind(&self) -> (kind: u8)
        ensures
            kind == self.rank(),
    {
        match self {
            ObjectKey::Blob(_) => 0,
            ObjectKey::Manifest(_) => 1,
            ObjectKey::Dictionary(_) => 2,
            ObjectKey::Index(_) => 3,
        }
    }

    pub fn bytes(&self) -> (bytes: [u8; 32])
        ensures
            bytes == self.digest(),
    {
        match self {
            ObjectKey::Blob(id) => id.bytes,
            ObjectKey::Manifest(id) => id.bytes,
            ObjectKey::Dictionary(id) => id.bytes,
            ObjectKey::Index(id) => id.bytes,
        }
    }

    /// Whether two keys are the same.
    pub fn same(&self, other: &ObjectKey) -> (same: bool)
        ensures
            same == (*self == *other),
    {
        let equal: bool = same_bytes(self.bytes().as_slice(), other.bytes().as_slice());
        proof {
            if equal {
                assert(self.digest() =~= other.digest());
            }
        }
        self.kind() == other.kind() && equal
    }
}

impl Key for ObjectKey {
    type Model = ObjectKey;

    open spec fn model(&self) -> ObjectKey {
        *self
    }

    open spec fn precedes(a: ObjectKey, b: ObjectKey) -> bool {
        a.rank() < b.rank() || (a.rank() == b.rank() && bytes::bytes_less(a.digest()@, b.digest()@))
    }

    proof fn lemma_irreflexive(a: ObjectKey) {
        crate::bytes::lemma_bytes_less_irreflexive(a.digest()@);
    }

    proof fn lemma_transitive(a: ObjectKey, b: ObjectKey, c: ObjectKey) {
        if a.rank() == b.rank() && b.rank() == c.rank() {
            crate::bytes::lemma_bytes_less_transitive(a.digest()@, b.digest()@, c.digest()@);
        }
    }

    proof fn lemma_total(a: ObjectKey, b: ObjectKey) {
        crate::bytes::lemma_bytes_less_total(a.digest()@, b.digest()@);
        if a.digest()@ == b.digest()@ {
            assert(a.digest() =~= b.digest());
        }
    }

    fn before(&self, other: &ObjectKey) -> bool {
        let a: u8 = self.kind();
        let b: u8 = other.kind();
        a < b || (a == b && less_bytes(self.bytes().as_slice(), other.bytes().as_slice()))
    }

    fn duplicate(&self) -> ObjectKey {
        *self
    }
}

/// Why a backend failed.
#[derive(Clone, Debug, PartialEq, Eq)]
pub enum BackendError {
    /// Input or output failed, with a message.
    Io(String),
    /// The transport failed.
    Transport { message: String, retryable: bool },
    /// An immutable object is missing.
    Missing(ObjectKey),
    /// An immutable object exists with other contents.
    IdentityMismatch(ObjectKey),
    /// The backend holds invalid data.
    InvalidData,
    /// A range is invalid or excessive.
    Range,
    /// Another publication came first.
    Stale,
    /// A publication may have become visible, with a message.
    Uncertain(String),
    /// A permit belongs to another namespace.
    WrongNamespace,
}

/// A comparison token of a backend's root. Tokens are never reused, even when
/// a root returns to earlier bytes.
#[derive(Clone, Debug, PartialEq, Eq)]
pub struct Revision {
    bytes: Vec<u8>,
}

impl View for Revision {
    type V = Seq<u8>;

    closed spec fn view(&self) -> Seq<u8> {
        self.bytes@
    }
}

impl Revision {
    pub fn new(bytes: Vec<u8>) -> (revision: Result<Self, BackendError>)
        ensures
            match revision {
                Ok(r) => 1 <= bytes@.len() <= 256 && r@ == bytes@,
                Err(e) => !(1 <= bytes@.len() <= 256) && e == BackendError::Range,
            },
    {
        if bytes.len() == 0 || bytes.len() > 256 {
            return Err(BackendError::Range);
        }
        Ok(Revision { bytes })
    }

    pub fn bytes(&self) -> (bytes: &[u8])
        ensures
            bytes@ == self@,
    {
        self.bytes.as_slice()
    }

    /// Another copy of the token.
    pub fn duplicate(&self) -> (copy: Revision)
        ensures
            copy@ == self@,
    {
        Revision { bytes: copied(self.bytes.as_slice()) }
    }
}

/// Whether two optional tokens are the same.
pub open spec fn revision_view(revision: Option<&Revision>) -> Option<Seq<u8>> {
    match revision {
        Some(r) => Some(r@),
        None => None,
    }
}

/// A root and the token of its publication.
#[derive(Clone, Debug, PartialEq, Eq)]
pub struct RootRecord {
    revision: Revision,
    bytes: Vec<u8>,
}

/// What a root record holds.
pub struct RootModel {
    pub revision: Seq<u8>,
    pub bytes: Seq<u8>,
}

impl View for RootRecord {
    type V = RootModel;

    closed spec fn view(&self) -> RootModel {
        RootModel { revision: self.revision@, bytes: self.bytes@ }
    }
}

impl RootRecord {
    pub fn new(revision: Revision, bytes: Vec<u8>) -> (record: Result<Self, BackendError>)
        ensures
            match record {
                Ok(r) => bytes@.len() <= MAX_ROOT_BYTES && r@ == (RootModel {
                    revision: revision@,
                    bytes: bytes@,
                }),
                Err(e) => bytes@.len() > MAX_ROOT_BYTES && e == BackendError::Range,
            },
    {
        if bytes.len() > MAX_ROOT_BYTES {
            return Err(BackendError::Range);
        }
        Ok(RootRecord { revision, bytes })
    }

    pub fn revision(&self) -> (revision: &Revision)
        ensures
            revision@ == self@.revision,
    {
        &self.revision
    }

    pub fn bytes(&self) -> (bytes: &[u8])
        ensures
            bytes@ == self@.bytes,
    {
        self.bytes.as_slice()
    }

    /// Another copy of the record.
    pub fn duplicate(&self) -> (copy: RootRecord)
        ensures
            copy@ == self@,
    {
        RootRecord { revision: self.revision.duplicate(), bytes: copied(self.bytes.as_slice()) }
    }
}

/// What became of an attempt to replace the root.
#[derive(Debug)]
pub enum Publication {
    Applied(Revision),
    Stale,
    /// The root must be read again before a retry or a collection.
    Uncertain(String),
}

/// Some bytes of an object.
#[derive(Clone, Copy, Debug, PartialEq, Eq)]
pub struct ObjectRange {
    key: ObjectKey,
    range: StoredRange,
}

impl ObjectRange {
    pub closed spec fn of(&self) -> ObjectKey {
        self.key
    }

    pub closed spec fn place(&self) -> StoredRange {
        self.range
    }

    pub fn new(key: ObjectKey, range: StoredRange) -> (request: Result<Self, BackendError>)
        ensures
            match request {
                Ok(r) => range.length.value != 0 && r.of() == key && r.place() == range,
                Err(e) => range.length.value == 0 && e == BackendError::Range,
            },
    {
        if range.length.value == 0 {
            return Err(BackendError::Range);
        }
        Ok(ObjectRange { key, range })
    }

    pub fn key(self) -> (key: ObjectKey)
        ensures
            key == self.of(),
    {
        self.key
    }

    pub fn range(self) -> (range: StoredRange)
        ensures
            range == self.place(),
    {
        self.range
    }
}

/// The authority to delete one object once. Only the store makes permits, and a
/// backend consumes the one that it is given.
#[derive(Debug)]
#[must_use]
pub struct DeletePermit {
    namespace: BackendId,
    key: ObjectKey,
}

impl DeletePermit {
    pub closed spec fn target(&self) -> ObjectKey {
        self.key
    }

    pub closed spec fn home(&self) -> BackendId {
        self.namespace
    }

    pub(crate) fn new(namespace: BackendId, key: ObjectKey) -> (permit: DeletePermit)
        ensures
            permit.target() == key,
            permit.home() == namespace,
    {
        DeletePermit { namespace, key }
    }

    pub fn key(&self) -> (key: ObjectKey)
        ensures
            key == self.target(),
    {
        self.key
    }

    /// The key, if the permit belongs to this namespace.
    pub fn authorize(&self, backend: BackendId) -> (key: Result<ObjectKey, BackendError>)
        ensures
            match key {
                Ok(k) => backend == self.home() && k == self.target(),
                Err(e) => backend != self.home() && e == BackendError::WrongNamespace,
            },
    {
        if !backend.same(&self.namespace) {
            return Err(BackendError::WrongNamespace);
        }
        Ok(self.key)
    }
}

/// One call that a backend answered, and its reply. Of a stream only its end is
/// noted: that it was handed over to be installed, or that it broke.
#[allow(inconsistent_fields)]
pub enum Event {
    /// A stream could not be begun, or did not accept a part: with this error, or
    /// by accepting nothing of it.
    Broken { reply: Option<BackendError> },
    /// Bytes were handed over to be installed under a key.
    Install { key: ObjectKey, bytes: Seq<u8>, reply: Result<(), BackendError> },
    Read { requests: Seq<ObjectRange>, reply: Result<Vec<Vec<u8>>, BackendError> },
    Stat { key: ObjectKey, reply: Result<Option<StoredBytes>, BackendError> },
    RootRead { reply: Result<Option<RootRecord>, BackendError> },
    Publish {
        expected: Option<Seq<u8>>,
        bytes: Seq<u8>,
        reply: Result<Publication, BackendError>,
    },
    Inventory {
        after: Option<ObjectKey>,
        limit: usize,
        reply: Result<Vec<ObjectKey>, BackendError>,
    },
    Delete { key: ObjectKey, reply: Result<(), BackendError> },
}

/// The first history is the beginning of the second.
pub open spec fn extends(before: Seq<Event>, after: Seq<Event>) -> bool {
    before.len() <= after.len() && forall|i: int|
        0 <= i < before.len() ==> #[trigger] after[i] == before[i]
}

/// The event changes nothing that the backend holds.
pub open spec fn harmless(event: Event) -> bool {
    event is Read || event is Stat || event is RootRead || event is Inventory || event is Broken
}

/// Since `before` the backend was only asked, and changed nothing.
pub open spec fn quiet(before: Seq<Event>, after: Seq<Event>) -> bool {
    forall|i: int| before.len() <= i < after.len() ==> harmless(#[trigger] after[i])
}

/// A stream broke, and that is where the error comes from.
pub open spec fn broke(before: Seq<Event>, after: Seq<Event>, error: BackendError) -> bool {
    ||| after == before.push(Event::Broken { reply: Some(error) })
    ||| after == before.push(Event::Broken { reply: None }) && error is Io
}

/// An unpublished object that a backend holds. Dropping it abandons it.
pub trait ObjectWriter: Sized {
    /// The bytes accepted so far.
    spec fn written(&self) -> Seq<u8>;
}

/// What asking a stream to accept a part leaves in a history.
pub open spec fn part_noted(
    before: Seq<Event>,
    length: nat,
    count: Result<usize, BackendError>,
) -> Seq<Event> {
    match count {
        Ok(n) => if n == 0 && length > 0 {
            before.push(Event::Broken { reply: None })
        } else {
            before
        },
        Err(error) => before.push(Event::Broken { reply: Some(error) }),
    }
}

/// A storage transport. It does not read manifests, choose packs or decide what
/// is live.
pub trait StorageBackend: Sized {
    type Writer: ObjectWriter;

    /// The calls answered so far.
    spec fn history(&self) -> Seq<Event>;

    /// The identity of the namespace.
    spec fn namespace(&self) -> BackendId;

    fn identity(&self) -> (id: BackendId)
        ensures
            id == self.namespace(),
    ;

    /// Begins an object whose key and length are not known yet.
    fn begin_write(&mut self) -> (writer: Result<Self::Writer, BackendError>)
        ensures
            final(self).namespace() == old(self).namespace(),
            match writer {
                Ok(w) => w.written() == Seq::<u8>::empty() && final(self).history() == old(
                    self).history(),
                Err(e) => final(self).history() == old(self).history().push(
                    Event::Broken { reply: Some(e) },
                ),
            },
    ;

    /// Accepts a first part of `bytes` and says how long it is. After an error
    /// nothing was accepted.
    fn write(&mut self, writer: &mut Self::Writer, bytes: &[u8]) -> (count: Result<
        usize,
        BackendError,
    >)
        ensures
            final(self).namespace() == old(self).namespace(),
            final(self).history() == part_noted(old(self).history(), bytes@.len(), count),
            match count {
                Ok(n) => n <= bytes@.len() && final(writer).written() == old(writer).written()
                    + bytes@.take(n as int),
                Err(_) => final(writer).written() == old(writer).written(),
            },
    ;

    /// Installs what was written under its key.
    fn finish_write(&mut self, writer: Self::Writer, key: ObjectKey, length: StoredBytes) -> (done:
        Result<(), BackendError>)
        ensures
            final(self).namespace() == old(self).namespace(),
            final(self).history() == old(self).history().push(
                Event::Install { key, bytes: writer.written(), reply: done },
            ),
    ;

    /// Replies stand one for one to the requests, in their order, with exact
    /// lengths.
    fn read_ranges(&mut self, requests: &[ObjectRange]) -> (replies: Result<
        Vec<Vec<u8>>,
        BackendError,
    >)
        ensures
            final(self).namespace() == old(self).namespace(),
            final(self).history() == old(self).history().push(
                Event::Read { requests: requests@, reply: replies },
            ),
    ;

    /// The length of an object, where it exists.
    fn stat(&mut self, key: ObjectKey) -> (length: Result<Option<StoredBytes>, BackendError>)
        ensures
            final(self).namespace() == old(self).namespace(),
            final(self).history() == old(self).history().push(
                Event::Stat { key, reply: length },
            ),
    ;

    fn read_root(&mut self) -> (root: Result<Option<RootRecord>, BackendError>)
        ensures
            final(self).namespace() == old(self).namespace(),
            final(self).history() == old(self).history().push(Event::RootRead { reply: root }),
    ;

    /// Replaces the root if its token is still the expected one.
    fn compare_exchange_root(&mut self, expected: Option<&Revision>, bytes: &[u8]) -> (publication:
        Result<Publication, BackendError>)
        ensures
            final(self).namespace() == old(self).namespace(),
            final(self).history() == old(self).history().push(
                Event::Publish {
                    expected: revision_view(expected),
                    bytes: bytes@,
                    reply: publication,
                },
            ),
    ;

    /// Strictly ascending keys after `after`, at most `limit`, which is from 1 to
    /// 4096. It may leave out keys that are being added.
    fn inventory(&mut self, after: Option<ObjectKey>, limit: usize) -> (keys: Result<
        Vec<ObjectKey>,
        BackendError,
    >)
        ensures
            final(self).namespace() == old(self).namespace(),
            final(self).history() == old(self).history().push(
                Event::Inventory { after, limit, reply: keys },
            ),
    ;

    fn delete(&mut self, permit: DeletePermit) -> (done: Result<(), BackendError>)
        ensures
            final(self).namespace() == old(self).namespace(),
            final(self).history() == old(self).history().push(
                Event::Delete { key: permit.target(), reply: done },
            ),
    ;
}

/// The sum of the lengths of the first `count` requests.
pub open spec fn requested(requests: Seq<ObjectRange>, count: int) -> int
    decreases count,
{
    if count <= 0 {
        0
    } else {
        requested(requests, count - 1) + requests[count - 1].place().length.value
    }
}

proof fn lemma_requested_monotonic(requests: Seq<ObjectRange>, low: int, high: int)
    requires
        0 <= low <= high,
    ensures
        requested(requests, low) <= requested(requests, high),
    decreases high,
{
    if low < high {
        lemma_requested_monotonic(requests, low, high - 1);
    }
}

/// A batch that a backend must serve: from 1 to 4096 requests of at most 64 MiB
/// together.
pub open spec fn batch_fits(requests: Seq<ObjectRange>) -> bool {
    &&& 1 <= requests.len() <= MAX_BATCH_REQUESTS
    &&& requested(requests, requests.len() as int) <= MAX_BATCH_BYTES
}

/// Refuses a batch that is empty, too long or asks for too much.
pub fn check_batch(requests: &[ObjectRange]) -> (done: Result<(), BackendError>)
    ensures
        done == if batch_fits(requests@) {
            Ok::<(), BackendError>(())
        } else {
            Err::<(), BackendError>(BackendError::Range)
        },
{
    if requests.len() == 0 || requests.len() > MAX_BATCH_REQUESTS {
        return Err(BackendError::Range);
    }
    let mut total: u64 = 0;
    let mut i: usize = 0;
    while i < requests.len()
        invariant
            i <= requests@.len(),
            1 <= requests@.len() <= MAX_BATCH_REQUESTS,
            total == requested(requests@, i as int),
        decreases requests.len() - i,
    {
        proof {
            lemma_requested_monotonic(requests@, i as int + 1, requests@.len() as int);
        }
        total = match total.checked_add(requests[i].range().length.value) {
            Some(total) => total,
            None => {
                return Err(BackendError::Range);
            },
        };
        i += 1;
    }
    if total > MAX_BATCH_BYTES {
        return Err(BackendError::Range);
    }
    Ok(())
}

/// Writes all of `bytes`, however short the single writes are. A stream that
/// accepts nothing ends it with an error.
pub fn write_all<B: StorageBackend>(backend: &mut B, writer: &mut B::Writer, bytes: &[u8]) -> (done:
    Result<(), BackendError>)
    ensures
        final(backend).namespace() == old(backend).namespace(),
        match done {
            Ok(_) => final(writer).written() == old(writer).written() + bytes@ && final(
                backend).history() == old(backend).history(),
            Err(e) => broke(old(backend).history(), final(backend).history(), e) && exists|n: int|
                0 <= n <= bytes@.len() && #[trigger] (old(writer).written() + bytes@.take(n))
                    == final(writer).written(),
        },
{
    let mut done: usize = 0;
    proof {
        assert(old(writer).written() + bytes@.take(0) =~= old(writer).written());
    }
    while done < bytes.len()
        invariant
            done <= bytes@.len(),
            backend.namespace() == old(backend).namespace(),
            backend.history() == old(backend).history(),
            old(writer).written() + bytes@.take(done as int) == writer.written(),
        decreases bytes.len() - done,
    {
        let rest: &[u8] = slice_subrange(bytes, done, bytes.len());
        let ghost before = writer.written();
        match backend.write(writer, rest) {
            Ok(count) => {
                if count == 0 {
                    proof {
                        assert(before + rest@.take(0) =~= before);
                    }
                    return Err(BackendError::Io("write accepted nothing".to_owned()));
                }
                proof {
                    assert(bytes@.take(done as int) + rest@.take(count as int) =~= bytes@.take(
                        done + count,
                    ));
                    assert(before + rest@.take(count as int) =~= old(writer).written()
                        + bytes@.take(done + count));
                }
                done = done + count;
            },
            Err(error) => {
                return Err(error);
            },
        }
    }
    proof {
        assert(bytes@.take(bytes@.len() as int) =~= bytes@);
    }
    Ok(())
}

/// The bytes cannot be put under a length of nothing, or another than theirs.
pub open spec fn ill_sized(length: StoredBytes, source: Seq<u8>) -> bool {
    length.value == 0 || length.value != source.len()
}

/// Puts bytes that are already named: exactly `length` of them, and at least one.
/// Others are refused, and nothing of them is handed over. Else the whole source
/// is handed over, and what the backend replies is the result, unless the stream
/// broke before that.
pub fn put<B: StorageBackend>(
    backend: &mut B,
    key: ObjectKey,
    length: StoredBytes,
    source: &[u8],
) -> (done: Result<(), BackendError>)
    ensures
        final(backend).namespace() == old(backend).namespace(),
        ({
            let before = old(backend).history();
            let after = final(backend).history();
            ||| ill_sized(length, source@) && done == Err::<(), BackendError>(BackendError::Range)
                && after == before
            ||| length.value != 0 && (done matches Err(e) && broke(before, after, e))
            ||| !ill_sized(length, source@) && after == before.push(
                Event::Install { key, bytes: source@, reply: done },
            )
        }),
{
    if length.value == 0 {
        return Err(BackendError::Range);
    }
    let mut writer: B::Writer = match backend.begin_write() {
        Ok(writer) => writer,
        Err(error) => {
            return Err(error);
        },
    };
    if source.len() as u64 != length.value {
        return Err(BackendError::Range);
    }
    match write_all(backend, &mut writer, source) {
        Ok(_) => {},
        Err(error) => {
            return Err(error);
        },
    }
    assert(writer.written() =~= source@);
    backend.finish_write(writer, key, length)
}

/// A request more in a batch asks for the bytes of its own place more; an empty batch asks
/// for none and is refused; and a batch is served up to the request that would be the
/// four thousand and ninety-seventh, or would ask for a byte over sixty-four mebibytes.
pub proof fn law_batch_limits(requests: Seq<ObjectRange>, more: ObjectRange)
    ensures
        requested(Seq::empty(), 0) == 0,
        requested(requests.push(more), (requests.len() + 1) as int) == requested(
            requests,
            requests.len() as int,
        ) + more.place().length.value,
        !batch_fits(Seq::empty()),
        batch_fits(requests.push(more)) <==> requests.len() < 4096 && requested(
            requests,
            requests.len() as int,
        ) + more.place().length.value <= 64 * 1024 * 1024,
{
    lemma_requested_prefix(requests, more, requests.len() as int);
}

proof fn lemma_requested_prefix(requests: Seq<ObjectRange>, more: ObjectRange, count: int)
    requires
        0 <= count <= requests.len(),
    ensures
        requested(requests.push(more), count) == requested(requests, count),
    decreases count,
{
    if count > 0 {
        lemma_requested_prefix(requests, more, count - 1);
    }
}

} // verus!
