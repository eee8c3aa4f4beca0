//! Backends that know nothing of histories. Nothing is promised of what a driver
//! replies; a host notes the calls with their replies.

use crate::adapter;
use crate::adapter::{
    BackendError, DeletePermit, Event, ObjectKey, ObjectRange, ObjectWriter, Publication, Revision,
    RootRecord, StorageBackend,
};
use crate::domain::{BackendId, StoredBytes};
use vstd::prelude::*;

verus! {

/// An unpublished object of a driver.
pub trait DriverWriter: Sized {
    /// Accepts a first part of `bytes` and says how long it is.
    fn write(&mut self, bytes: &[u8]) -> Result<usize, BackendError>;
}

/// The calls of a storage transport.
pub trait Driver: Sized {
    type Writer: DriverWriter;

    fn identity(&self) -> BackendId;

    fn begin_write(&mut self) -> Result<Self::Writer, BackendError>;

    fn finish_write(&mut self, writer: Self::Writer, key: ObjectKey, length: StoredBytes) -> Result<
        (),
        BackendError,
    >;

    fn read_ranges(&mut self, requests: &[ObjectRange]) -> Result<Vec<Vec<u8>>, BackendError>;

    fn stat(&mut self, key: ObjectKey) -> Result<Option<StoredBytes>, BackendError>;

    fn read_root(&mut self) -> Result<Option<RootRecord>, BackendError>;

    fn compare_exchange_root(&mut self, expected: Option<&Revision>, bytes: &[u8]) -> Result<
        Publication,
        BackendError,
    >;

    fn inventory(&mut self, after: Option<ObjectKey>, limit: usize) -> Result<
        Vec<ObjectKey>,
        BackendError,
    >;

    fn delete(&mut self, permit: DeletePermit) -> Result<(), BackendError>;
}

/// An unpublished object of a hosted driver, with what it accepted.
pub struct HostedWriter<W: DriverWriter> {
    writer: W,
    bytes: Ghost<Seq<u8>>,
}

impl<W: DriverWriter> ObjectWriter for HostedWriter<W> {
    closed spec fn written(&self) -> Seq<u8> {
        self.bytes@
    }
}

/// A driver and the calls that it answered. The identity is the one that it gave
/// at first.
pub struct Hosted<D: Driver> {
    driver: D,
    identity: BackendId,
    log: Ghost<Seq<Event>>,
}

impl<D: Driver> Hosted<D> {
    pub closed spec fn hosts(&self) -> D {
        self.driver
    }

    pub fn new(driver: D) -> (backend: Self)
        ensures
            backend.history() == Seq::<Event>::empty(),
            backend.hosts() == driver,
    {
        let identity: BackendId = driver.identity();
        Hosted { driver, identity, log: Ghost(Seq::empty()) }
    }

    pub fn driver(&self) -> (driver: &D)
        ensures
            *driver == self.hosts(),
    {
        &self.driver
    }

    fn note(&mut self, event: Ghost<Event>)
        ensures
            final(self).history() == old(self).history().push(event@),
            final(self).namespace() == old(self).namespace(),
            final(self).hosts() == old(self).hosts(),
    {
        let ghost log = self.log@.push(event@);
        self.log = Ghost(log);
    }
}

impl<D: Driver> StorageBackend for Hosted<D> {
    type Writer = HostedWriter<D::Writer>;

    closed spec fn history(&self) -> Seq<Event> {
        self.log@
    }

    closed spec fn namespace(&self) -> BackendId {
        self.identity
    }

    fn identity(&self) -> BackendId {
        self.identity
    }

    fn begin_write(&mut self) -> (writer: Result<HostedWriter<D::Writer>, BackendError>) {
        match self.driver.begin_write() {
            Ok(writer) => Ok(HostedWriter { writer, bytes: Ghost(Seq::empty()) }),
            Err(error) => {
                self.note(Ghost(Event::Broken { reply: Some(error) }));
                Err(error)
            },
        }
    }

    fn write(&mut self, writer: &mut HostedWriter<D::Writer>, bytes: &[u8]) -> (count: Result<
        usize,
        BackendError,
    >) {
        match writer.writer.write(bytes) {
            Err(error) => {
                self.note(Ghost(Event::Broken { reply: Some(error) }));
                Err(error)
            },
            Ok(count) => {
                if count > bytes.len() {
                    self.note(Ghost(Event::Broken { reply: Some(BackendError::InvalidData) }));
                    return Err(BackendError::InvalidData);
                }
                if count == 0 && bytes.len() > 0 {
                    self.note(Ghost(Event::Broken { reply: None }));
                }
                let ghost more = writer.bytes@ + bytes@.take(count as int);
                writer.bytes = Ghost(more);
                Ok(count)
            },
        }
    }

    fn finish_write(
        &mut self,
        writer: HostedWriter<D::Writer>,
        key: ObjectKey,
        length: StoredBytes,
    ) -> (done: Result<(), BackendError>) {
        let ghost bytes = writer.written();
        let done: Result<(), BackendError> = self.driver.finish_write(writer.writer, key, length);
        self.note(Ghost(Event::Install { key, bytes, reply: done }));
        done
    }

    fn read_ranges(&mut self, requests: &[ObjectRange]) -> (replies: Result<
        Vec<Vec<u8>>,
        BackendError,
    >) {
        let replies: Result<Vec<Vec<u8>>, BackendError> = self.driver.read_ranges(requests);
        self.note(Ghost(Event::Read { requests: requests@, reply: replies }));
        replies
    }

    fn stat(&mut self, key: ObjectKey) -> (length: Result<Option<StoredBytes>, BackendError>) {
        let length: Result<Option<StoredBytes>, BackendError> = self.driver.stat(key);
        self.note(Ghost(Event::Stat { key, reply: length }));
        length
    }

    fn read_root(&mut self) -> (root: Result<Option<RootRecord>, BackendError>) {
        let root: Result<Option<RootRecord>, BackendError> = self.driver.read_root();
        self.note(Ghost(Event::RootRead { reply: root }));
        root
    }

    fn compare_exchange_root(&mut self, expected: Option<&Revision>, bytes: &[u8]) -> (publication:
        Result<Publication, BackendError>) {
        let publication: Result<Publication, BackendError> = self.driver.compare_exchange_root(
            expected,
            bytes,
        );
        self.note(
            Ghost(
                Event::Publish {
                    expected: adapter::revision_view(expected),
                    bytes: bytes@,
                    reply: publication,
                },
            ),
        );
        publication
    }

    fn inventory(&mut self, after: Option<ObjectKey>, limit: usize) -> (keys: Result<
        Vec<ObjectKey>,
        BackendError,
    >) {
        let keys: Result<Vec<ObjectKey>, BackendError> = self.driver.inventory(after, limit);
        self.note(Ghost(Event::Inventory { after, limit, reply: keys }));
        keys
    }

    fn delete(&mut self, permit: DeletePermit) -> (done: Result<(), BackendError>) {
        let ghost key = permit.target();
        let done: Result<(), BackendError> = self.driver.delete(permit);
        self.note(Ghost(Event::Delete { key, reply: done }));
        done
    }
}

} // verus!
