//! A backend that counts the calls of another one, and can make one of them fail.

use crate::adapter;
use crate::adapter::{
    BackendError, DeletePermit, Event, ObjectKey, ObjectRange, ObjectWriter, Publication, Revision,
    RootRecord, StorageBackend,
};
use crate::domain::{BackendId, StoredBytes};
use vstd::prelude::*;

verus! {

/// What a call asks of a backend.
#[derive(Clone, Copy, Debug, PartialEq, Eq, Structural)]
pub enum Operation {
    Put,
    Read,
    Stat,
    RootRead,
    Publish,
    Inventory,
    Delete,
}

/// How a call fails.
#[derive(Clone, Copy, Debug, PartialEq, Eq, Structural)]
pub enum Fault {
    /// Before anything is done.
    Before,
    /// A publication is applied, and said to be in doubt.
    AfterPublish,
    /// The first byte that was read is another one.
    CorruptRead,
    /// The last byte of the first reply is missing.
    ShortRead,
}

/// How often a backend was called.
#[derive(Clone, Debug, PartialEq, Eq)]
pub struct BackendStatistics {
    /// Objects that were begun, those that were abandoned among them.
    pub write_starts: u64,
    pub puts: u64,
    pub reads: u64,
    pub batches: u64,
    pub read_bytes: u64,
    pub blob_reads: u64,
    pub blob_read_bytes: u64,
    pub stat_calls: u64,
    pub blob_stat_calls: u64,
    pub root_reads: u64,
    pub inventory_calls: u64,
    pub written_bytes: u64,
    pub publications: u64,
    pub deletes: u64,
    pub put_keys: Vec<ObjectKey>,
}

/// A sum that stops at the greatest value.
pub open spec fn capped(a: u64, b: int) -> u64 {
    if a + b > u64::MAX {
        u64::MAX
    } else {
        (a + b) as u64
    }
}

impl Default for BackendStatistics {
    fn default() -> (statistics: Self)
        ensures
            statistics@ == CountsModel::none(),
    {
        BackendStatistics {
            write_starts: 0,
            puts: 0,
            reads: 0,
            batches: 0,
            read_bytes: 0,
            blob_reads: 0,
            blob_read_bytes: 0,
            stat_calls: 0,
            blob_stat_calls: 0,
            root_reads: 0,
            inventory_calls: 0,
            written_bytes: 0,
            publications: 0,
            deletes: 0,
            put_keys: Vec::new(),
        }
    }
}

/// How often a backend was called, as a value.
#[verifier::ext_equal]
pub struct CountsModel {
    pub write_starts: u64,
    pub puts: u64,
    pub reads: u64,
    pub batches: u64,
    pub read_bytes: u64,
    pub blob_reads: u64,
    pub blob_read_bytes: u64,
    pub stat_calls: u64,
    pub blob_stat_calls: u64,
    pub root_reads: u64,
    pub inventory_calls: u64,
    pub written_bytes: u64,
    pub publications: u64,
    pub deletes: u64,
    pub put_keys: Seq<ObjectKey>,
}

impl CountsModel {
    /// Nothing was counted yet.
    pub open spec fn none() -> CountsModel {
        CountsModel {
            write_starts: 0,
            puts: 0,
            reads: 0,
            batches: 0,
            read_bytes: 0,
            blob_reads: 0,
            blob_read_bytes: 0,
            stat_calls: 0,
            blob_stat_calls: 0,
            root_reads: 0,
            inventory_calls: 0,
            written_bytes: 0,
            publications: 0,
            deletes: 0,
            put_keys: Seq::empty(),
        }
    }
}

impl View for BackendStatistics {
    type V = CountsModel;

    open spec fn view(&self) -> CountsModel {
        CountsModel {
            write_starts: self.write_starts,
            puts: self.puts,
            reads: self.reads,
            batches: self.batches,
            read_bytes: self.read_bytes,
            blob_reads: self.blob_reads,
            blob_read_bytes: self.blob_read_bytes,
            stat_calls: self.stat_calls,
            blob_stat_calls: self.blob_stat_calls,
            root_reads: self.root_reads,
            inventory_calls: self.inventory_calls,
            written_bytes: self.written_bytes,
            publications: self.publications,
            deletes: self.deletes,
            put_keys: self.put_keys@,
        }
    }
}

/// The replies to the first `count` requests of a batch were counted.
pub open spec fn replies_counted(
    counts: CountsModel,
    requests: Seq<ObjectRange>,
    replies: Seq<Vec<u8>>,
    count: int,
) -> CountsModel
    decreases count,
{
    if count <= 0 {
        counts
    } else {
        let before = replies_counted(counts, requests, replies, count - 1);
        let length = replies[count - 1]@.len() as int;
        if count - 1 < requests.len() && requests[count - 1].of() is Blob {
            CountsModel {
                read_bytes: capped(before.read_bytes, length),
                blob_reads: capped(before.blob_reads, 1),
                blob_read_bytes: capped(before.blob_read_bytes, length),
                ..before
            }
        } else {
            CountsModel { read_bytes: capped(before.read_bytes, length), ..before }
        }
    }
}

/// A batch was read with these replies.
pub open spec fn batch_counted(
    counts: CountsModel,
    requests: Seq<ObjectRange>,
    replies: Seq<Vec<u8>>,
) -> CountsModel {
    replies_counted(
        CountsModel {
            reads: capped(counts.reads, requests.len() as int),
            batches: capped(counts.batches, 1),
            ..counts
        },
        requests,
        replies,
        replies.len() as int,
    )
}

impl BackendStatistics {
    /// Another copy of the counts.
    pub fn duplicate(&self) -> (copy: BackendStatistics)
        ensures
            copy@ == self@,
    {
        let mut put_keys: Vec<ObjectKey> = Vec::new();
        let mut i: usize = 0;
        while i < self.put_keys.len()
            invariant
                i <= self.put_keys@.len(),
                put_keys@ == self.put_keys@.take(i as int),
            decreases self.put_keys.len() - i,
        {
            put_keys.push(self.put_keys[i]);
            assert(self.put_keys@.take(i as int + 1) =~= self.put_keys@.take(i as int).push(
                self.put_keys@[i as int],
            ));
            i += 1;
        }
        assert(self.put_keys@.take(i as int) =~= self.put_keys@);
        BackendStatistics {
            write_starts: self.write_starts,
            puts: self.puts,
            reads: self.reads,
            batches: self.batches,
            read_bytes: self.read_bytes,
            blob_reads: self.blob_reads,
            blob_read_bytes: self.blob_read_bytes,
            stat_calls: self.stat_calls,
            blob_stat_calls: self.blob_stat_calls,
            root_reads: self.root_reads,
            inventory_calls: self.inventory_calls,
            written_bytes: self.written_bytes,
            publications: self.publications,
            deletes: self.deletes,
            put_keys,
        }
    }
}

/// A fault that waits for a call of an operation: the first such call, or a later
/// one.
pub type Planned = Option<(Operation, usize, Fault)>;

/// The fault of the next call of an operation.
pub open spec fn firing(planned: Planned, operation: Operation) -> Option<Fault> {
    match planned {
        Some((selected, remaining, fault)) => if selected == operation && remaining <= 1 {
            Some(fault)
        } else {
            None
        },
        None => None,
    }
}

/// What is planned once an operation was called.
pub open spec fn remaining(planned: Planned, operation: Operation) -> Planned {
    match planned {
        Some((selected, count, fault)) => if selected != operation {
            planned
        } else if count <= 1 {
            None
        } else {
            Some((selected, (count - 1) as usize, fault))
        },
        None => None,
    }
}

/// A backend that counts calls and can make one fail, once. What the inner
/// backend holds does not depend on it.
pub struct FaultBackend<B: StorageBackend> {
    inner: B,
    fault: Planned,
    statistics: BackendStatistics,
    log: Ghost<Seq<Event>>,
}

/// A failure of the transport that may be tried again.
pub open spec fn is_injected(error: BackendError) -> bool {
    error matches BackendError::Transport { message: _, retryable } && retryable
}

fn injected(operation: Operation) -> (error: BackendError)
    ensures
        is_injected(error),
{
    let message: &str = match operation {
        Operation::Put => "injected Put",
        Operation::Read => "injected Read",
        Operation::Stat => "injected Stat",
        Operation::RootRead => "injected RootRead",
        Operation::Publish => "injected Publish",
        Operation::Inventory => "injected Inventory",
        Operation::Delete => "injected Delete",
    };
    BackendError::Transport { message: message.to_owned(), retryable: true }
}

/// Replies as the first byte of the first of them is changed.
pub open spec fn corrupted(replies: Seq<Vec<u8>>, changed: Seq<Vec<u8>>) -> bool {
    if replies.len() == 0 || replies[0]@.len() == 0 {
        changed == replies
    } else {
        &&& changed.len() == replies.len()
        &&& changed[0]@ == replies[0]@.update(0, (replies[0]@[0] ^ 1) as u8)
        &&& forall|i: int| 1 <= i < replies.len() ==> #[trigger] changed[i] == replies[i]
    }
}

/// Replies as the last byte of the first of them is missing.
pub open spec fn shortened(replies: Seq<Vec<u8>>, changed: Seq<Vec<u8>>) -> bool {
    if replies.len() == 0 || replies[0]@.len() == 0 {
        changed == replies
    } else {
        &&& changed.len() == replies.len()
        &&& changed[0]@ == replies[0]@.drop_last()
        &&& forall|i: int| 1 <= i < replies.len() ==> #[trigger] changed[i] == replies[i]
    }
}

/// Replies as a fault changes them.
pub open spec fn altered(fault: Option<Fault>, replies: Seq<Vec<u8>>, changed: Seq<Vec<u8>>) -> bool {
    match fault {
        Some(Fault::CorruptRead) => corrupted(replies, changed),
        Some(Fault::ShortRead) => shortened(replies, changed),
        _ => changed == replies,
    }
}

fn alter(fault: Option<Fault>, replies: &mut Vec<Vec<u8>>)
    ensures
        altered(fault, old(replies)@, final(replies)@),
{
    if replies.len() == 0 {
        return;
    }
    if replies[0].len() == 0 {
        return;
    }
    let ghost before = replies@;
    match fault {
        Some(Fault::CorruptRead) => {
            let mut first: Vec<u8> = crate::bytes::copied(replies[0].as_slice());
            let byte: u8 = first[0] ^ 1;
            first.set(0, byte);
            replies.set(0, first);
        },
        Some(Fault::ShortRead) => {
            let mut first: Vec<u8> = crate::bytes::copied(replies[0].as_slice());
            let last: Option<u8> = first.pop();
            assert(first@ =~= before[0]@.drop_last());
            replies.set(0, first);
        },
        _ => {},
    }
}

impl<B: StorageBackend> FaultBackend<B> {
    /// The calls that the inner backend answered.
    pub closed spec fn inner_history(&self) -> Seq<Event> {
        self.inner.history()
    }

    /// The fault that waits.
    pub closed spec fn planned(&self) -> Planned {
        self.fault
    }

    /// What was counted.
    pub closed spec fn counts(&self) -> CountsModel {
        self.statistics@
    }

    pub fn new(inner: B) -> (backend: Self)
        ensures
            backend.planned() is None,
            backend.counts() == CountsModel::none(),
            backend.inner_history() == inner.history(),
            backend.history() == Seq::<Event>::empty(),
            backend.namespace() == inner.namespace(),
    {
        FaultBackend {
            inner,
            fault: None,
            statistics: BackendStatistics::default(),
            log: Ghost(Seq::empty()),
        }
    }

    /// Lets a call of an operation fail: the next one for 1, and so on.
    pub fn inject(&mut self, operation: Operation, call: usize, fault: Fault)
        ensures
            final(self).planned() == injection(operation, call, fault),
            final(self).counts() == old(self).counts(),
            final(self).history() == old(self).history(),
            final(self).inner_history() == old(self).inner_history(),
            final(self).namespace() == old(self).namespace(),
    {
        let call: usize = if call == 0 {
            1
        } else {
            call
        };
        self.fault = Some((operation, call, fault));
    }

    pub fn statistics(&self) -> (statistics: BackendStatistics)
        ensures
            statistics@ == self.counts(),
    {
        self.statistics.duplicate()
    }

    pub fn reset_statistics(&mut self)
        ensures
            final(self).counts() == CountsModel::none(),
            final(self).planned() == old(self).planned(),
            final(self).history() == old(self).history(),
            final(self).inner_history() == old(self).inner_history(),
            final(self).namespace() == old(self).namespace(),
    {
        self.statistics = BackendStatistics::default();
    }

    /// The backend that is called.
    pub fn into_inner(self) -> (inner: B)
        ensures
            inner.history() == self.inner_history(),
            inner.namespace() == self.namespace(),
    {
        self.inner
    }

    /// Counts a call down.
    fn check(&mut self, operation: Operation) -> (fault: Result<Option<Fault>, BackendError>)
        ensures
            final(self).planned() == remaining(old(self).planned(), operation),
            final(self).counts() == old(self).counts(),
            final(self).history() == old(self).history(),
            final(self).inner == old(self).inner,
            match fault {
                Ok(f) => f == firing(old(self).planned(), operation) && f != Some(Fault::Before),
                Err(e) => firing(old(self).planned(), operation) == Some(Fault::Before) && is_injected(
                    e,
                ),
            },
    {
        let (selected, count, fault) = match self.fault {
            Some(planned) => planned,
            None => {
                return Ok(None);
            },
        };
        if selected != operation {
            return Ok(None);
        }
        if count > 1 {
            self.fault = Some((selected, count - 1, fault));
            return Ok(None);
        }
        self.fault = None;
        if fault == Fault::Before {
            return Err(injected(operation));
        }
        Ok(Some(fault))
    }
}

/// A call fails before the inner backend is asked.
pub open spec fn stops(planned: Planned, operation: Operation) -> bool {
    firing(planned, operation) == Some(Fault::Before)
}

/// The failure of a call that stops.
pub open spec fn stopped<T>(reply: Result<T, BackendError>) -> bool {
    reply matches Err(e) && is_injected(e)
}

impl<B: StorageBackend> StorageBackend for FaultBackend<B> {
    type Writer = B::Writer;

    closed spec fn history(&self) -> Seq<Event> {
        self.log@
    }

    closed spec fn namespace(&self) -> BackendId {
        self.inner.namespace()
    }

    fn identity(&self) -> BackendId {
        self.inner.identity()
    }

    fn begin_write(&mut self) -> (writer: Result<Self::Writer, BackendError>)
        ensures
            final(self).planned() == remaining(old(self).planned(), Operation::Put),
            if stops(old(self).planned(), Operation::Put) {
                stopped(writer) && final(self).inner_history() == old(self).inner_history() && final(
                    self).counts() == old(self).counts()
            } else {
                match writer {
                    Ok(_) => final(self).inner_history() == old(self).inner_history() && final(
                        self).counts() == (CountsModel {
                        write_starts: capped(old(self).counts().write_starts, 1),
                        ..old(self).counts()
                    }),
                    Err(e) => final(self).inner_history() == old(self).inner_history().push(
                        Event::Broken { reply: Some(e) },
                    ) && final(self).counts() == old(self).counts(),
                }
            },
    {
        match self.check(Operation::Put) {
            Err(error) => {
                self.log = Ghost(self.log@.push(Event::Broken { reply: Some(error) }));
                return Err(error);
            },
            Ok(_) => {},
        }
        match self.inner.begin_write() {
            Err(error) => {
                self.log = Ghost(self.log@.push(Event::Broken { reply: Some(error) }));
                Err(error)
            },
            Ok(writer) => {
                self.statistics.write_starts = self.statistics.write_starts.saturating_add(1);
                Ok(writer)
            },
        }
    }

    fn write(&mut self, writer: &mut Self::Writer, bytes: &[u8]) -> (count: Result<
        usize,
        BackendError,
    >)
        ensures
            final(self).planned() == old(self).planned(),
            final(self).inner_history() == adapter::part_noted(
                old(self).inner_history(),
                bytes@.len(),
                count,
            ),
            final(self).counts() == old(self).counts(),
    {
        let count: Result<usize, BackendError> = self.inner.write(writer, bytes);
        self.log = Ghost(adapter::part_noted(self.log@, bytes@.len(), count));
        count
    }

    fn finish_write(&mut self, writer: Self::Writer, key: ObjectKey, length: StoredBytes) -> (done:
        Result<(), BackendError>)
        ensures
            final(self).planned() == old(self).planned(),
            final(self).inner_history() == old(self).inner_history().push(
                Event::Install { key, bytes: writer.written(), reply: done },
            ),
            final(self).counts() == if done is Ok {
                CountsModel {
                    puts: capped(old(self).counts().puts, 1),
                    written_bytes: capped(
                        old(self).counts().written_bytes,
                        length.value as int,
                    ),
                    put_keys: old(self).counts().put_keys.push(key),
                    ..old(self).counts()
                }
            } else {
                old(self).counts()
            },
    {
        let ghost bytes = writer.written();
        let done: Result<(), BackendError> = self.inner.finish_write(writer, key, length);
        if done.is_ok() {
            self.statistics.puts = self.statistics.puts.saturating_add(1);
            self.statistics.written_bytes = self.statistics.written_bytes.saturating_add(
                length.value,
            );
            self.statistics.put_keys.push(key);
        }
        self.log = Ghost(self.log@.push(Event::Install { key, bytes, reply: done }));
        done
    }

    fn read_ranges(&mut self, requests: &[ObjectRange]) -> (replies: Result<
        Vec<Vec<u8>>,
        BackendError,
    >)
        ensures
            final(self).planned() == remaining(old(self).planned(), Operation::Read),
            if stops(old(self).planned(), Operation::Read) {
                stopped(replies) && final(self).inner_history() == old(self).inner_history()
                    && final(self).counts() == old(self).counts()
            } else {
                exists|given: Result<Vec<Vec<u8>>, BackendError>|
                    final(self).inner_history() == old(self).inner_history().push(
                        #[trigger] read_event(requests@, given),
                    ) && read_reply(
                        firing(old(self).planned(), Operation::Read),
                        given,
                        replies,
                    ) && final(self).counts() == reads_counted(
                        old(self).counts(),
                        requests@,
                        given,
                    )
            },
    {
        let ghost before = self.inner.history();
        let checked: Result<Option<Fault>, BackendError> = self.check(Operation::Read);
        let replies: Result<Vec<Vec<u8>>, BackendError> = match checked {
            Err(error) => Err(error),
            Ok(fault) => {
                let given: Result<Vec<Vec<u8>>, BackendError> = self.inner.read_ranges(requests);
                let ghost answer = given;
                proof {
                    assert(self.inner.history() == before.push(read_event(requests@, answer)));
                }
                match given {
                    Err(error) => {
                        assert(read_reply(fault, answer, Err(error)));
                        Err(error)
                    },
                    Ok(given) => {
                        let mut replies: Vec<Vec<u8>> = given;
                        self.count_reads(requests, &replies);
                        alter(fault, &mut replies);
                        assert(read_reply(fault, answer, Ok(replies)));
                        Ok(replies)
                    },
                }
            },
        };
        self.log = Ghost(self.log@.push(Event::Read { requests: requests@, reply: replies }));
        replies
    }

    fn stat(&mut self, key: ObjectKey) -> (length: Result<Option<StoredBytes>, BackendError>)
        ensures
            final(self).planned() == remaining(old(self).planned(), Operation::Stat),
            if stops(old(self).planned(), Operation::Stat) {
                stopped(length) && final(self).inner_history() == old(self).inner_history() && final(
                    self).counts() == old(self).counts()
            } else {
                final(self).inner_history() == old(self).inner_history().push(
                    Event::Stat { key, reply: length },
                ) && final(self).counts() == (CountsModel {
                    stat_calls: capped(old(self).counts().stat_calls, 1),
                    blob_stat_calls: if key is Blob {
                        capped(old(self).counts().blob_stat_calls, 1)
                    } else {
                        old(self).counts().blob_stat_calls
                    },
                    ..old(self).counts()
                })
            },
    {
        let checked: Result<Option<Fault>, BackendError> = self.check(Operation::Stat);
        let length: Result<Option<StoredBytes>, BackendError> = match checked {
            Err(error) => Err(error),
            Ok(_) => {
                self.statistics.stat_calls = self.statistics.stat_calls.saturating_add(1);
                match key {
                    ObjectKey::Blob(_) => {
                        self.statistics.blob_stat_calls =
                            self.statistics.blob_stat_calls.saturating_add(1);
                    },
                    _ => {},
                }
                self.inner.stat(key)
            },
        };
        self.log = Ghost(self.log@.push(Event::Stat { key, reply: length }));
        length
    }

    fn read_root(&mut self) -> (root: Result<Option<RootRecord>, BackendError>)
        ensures
            final(self).planned() == remaining(old(self).planned(), Operation::RootRead),
            if stops(old(self).planned(), Operation::RootRead) {
                stopped(root) && final(self).inner_history() == old(self).inner_history() && final(
                    self).counts() == old(self).counts()
            } else {
                final(self).inner_history() == old(self).inner_history().push(
                    Event::RootRead { reply: root },
                ) && final(self).counts() == (CountsModel {
                    root_reads: capped(old(self).counts().root_reads, 1),
                    ..old(self).counts()
                })
            },
    {
        let checked: Result<Option<Fault>, BackendError> = self.check(Operation::RootRead);
        let root: Result<Option<RootRecord>, BackendError> = match checked {
            Err(error) => Err(error),
            Ok(_) => {
                self.statistics.root_reads = self.statistics.root_reads.saturating_add(1);
                self.inner.read_root()
            },
        };
        self.log = Ghost(self.log@.push(Event::RootRead { reply: root }));
        root
    }

    fn compare_exchange_root(&mut self, expected: Option<&Revision>, bytes: &[u8]) -> (publication:
        Result<Publication, BackendError>)
        ensures
            final(self).planned() == remaining(old(self).planned(), Operation::Publish),
            if stops(old(self).planned(), Operation::Publish) {
                stopped(publication) && final(self).inner_history() == old(self).inner_history()
                    && final(self).counts() == old(self).counts()
            } else {
                exists|given: Result<Publication, BackendError>|
                    final(self).inner_history() == old(self).inner_history().push(
                        #[trigger] publish_event(adapter::revision_view(expected), bytes@, given),
                    ) && publish_reply(
                        firing(old(self).planned(), Operation::Publish),
                        given,
                        publication,
                    ) && final(self).counts() == (CountsModel {
                        publications: if given is Ok {
                            capped(old(self).counts().publications, 1)
                        } else {
                            old(self).counts().publications
                        },
                        ..old(self).counts()
                    })
            },
    {
        let ghost before = self.inner.history();
        let checked: Result<Option<Fault>, BackendError> = self.check(Operation::Publish);
        let publication: Result<Publication, BackendError> = match checked {
            Err(error) => Err(error),
            Ok(fault) => {
                let given: Result<Publication, BackendError> = self.inner.compare_exchange_root(
                    expected,
                    bytes,
                );
                let ghost answer = given;
                proof {
                    assert(self.inner.history() == before.push(
                        publish_event(adapter::revision_view(expected), bytes@, answer),
                    ));
                }
                let publication: Result<Publication, BackendError> = match given {
                    Err(error) => Err(error),
                    Ok(publication) => {
                        self.statistics.publications = self.statistics.publications.saturating_add(
                            1,
                        );
                        let applied: bool = match &publication {
                            Publication::Applied(_) => true,
                            _ => false,
                        };
                        let doubtful: bool = match fault {
                            Some(Fault::AfterPublish) => true,
                            _ => false,
                        };
                        if applied && doubtful {
                            Ok(Publication::Uncertain("injected after publication".to_owned()))
                        } else {
                            Ok(publication)
                        }
                    },
                };
                assert(publish_reply(fault, answer, publication));
                publication
            },
        };
        self.log = Ghost(
            self.log@.push(
                Event::Publish {
                    expected: adapter::revision_view(expected),
                    bytes: bytes@,
                    reply: publication,
                },
            ),
        );
        publication
    }

    fn inventory(&mut self, after: Option<ObjectKey>, limit: usize) -> (keys: Result<
        Vec<ObjectKey>,
        BackendError,
    >)
        ensures
            final(self).planned() == remaining(old(self).planned(), Operation::Inventory),
            if stops(old(self).planned(), Operation::Inventory) {
                stopped(keys) && final(self).inner_history() == old(self).inner_history() && final(
                    self).counts() == old(self).counts()
            } else {
                final(self).inner_history() == old(self).inner_history().push(
                    Event::Inventory { after, limit, reply: keys },
                ) && final(self).counts() == (CountsModel {
                    inventory_calls: capped(old(self).counts().inventory_calls, 1),
                    ..old(self).counts()
                })
            },
    {
        let checked: Result<Option<Fault>, BackendError> = self.check(Operation::Inventory);
        let keys: Result<Vec<ObjectKey>, BackendError> = match checked {
            Err(error) => Err(error),
            Ok(_) => {
                self.statistics.inventory_calls = self.statistics.inventory_calls.saturating_add(1);
                self.inner.inventory(after, limit)
            },
        };
        self.log = Ghost(self.log@.push(Event::Inventory { after, limit, reply: keys }));
        keys
    }

    fn delete(&mut self, permit: DeletePermit) -> (done: Result<(), BackendError>)
        ensures
            final(self).planned() == remaining(old(self).planned(), Operation::Delete),
            if stops(old(self).planned(), Operation::Delete) {
                stopped(done) && final(self).inner_history() == old(self).inner_history() && final(
                    self).counts() == old(self).counts()
            } else {
                final(self).inner_history() == old(self).inner_history().push(
                    Event::Delete { key: permit.target(), reply: done },
                ) && final(self).counts() == (CountsModel {
                    deletes: if done is Ok {
                        capped(old(self).counts().deletes, 1)
                    } else {
                        old(self).counts().deletes
                    },
                    ..old(self).counts()
                })
            },
    {
        let ghost key = permit.target();
        let checked: Result<Option<Fault>, BackendError> = self.check(Operation::Delete);
        let done: Result<(), BackendError> = match checked {
            Err(error) => Err(error),
            Ok(_) => {
                let done: Result<(), BackendError> = self.inner.delete(permit);
                if done.is_ok() {
                    self.statistics.deletes = self.statistics.deletes.saturating_add(1);
                }
                done
            },
        };
        self.log = Ghost(self.log@.push(Event::Delete { key, reply: done }));
        done
    }
}

/// A read and its reply.
pub open spec fn read_event(
    requests: Seq<ObjectRange>,
    reply: Result<Vec<Vec<u8>>, BackendError>,
) -> Event {
    Event::Read { requests, reply }
}

/// A publication and its reply.
pub open spec fn publish_event(
    expected: Option<Seq<u8>>,
    bytes: Seq<u8>,
    reply: Result<Publication, BackendError>,
) -> Event {
    Event::Publish { expected, bytes, reply }
}

/// What a read counts: nothing where the inner backend failed.
pub open spec fn reads_counted(
    counts: CountsModel,
    requests: Seq<ObjectRange>,
    given: Result<Vec<Vec<u8>>, BackendError>,
) -> CountsModel {
    match given {
        Ok(replies) => batch_counted(counts, requests, replies@),
        Err(_) => counts,
    }
}

/// The reply to a read, as a fault changes what the inner backend gave.
pub open spec fn read_reply(
    fault: Option<Fault>,
    given: Result<Vec<Vec<u8>>, BackendError>,
    reply: Result<Vec<Vec<u8>>, BackendError>,
) -> bool {
    match (given, reply) {
        (Ok(g), Ok(r)) => altered(fault, g@, r@),
        (Err(a), Err(b)) => a == b,
        _ => false,
    }
}

/// The reply to a publication, as a fault changes what the inner backend gave.
pub open spec fn publish_reply(
    fault: Option<Fault>,
    given: Result<Publication, BackendError>,
    reply: Result<Publication, BackendError>,
) -> bool {
    if fault == Some(Fault::AfterPublish) && (given matches Ok(p) && p is Applied) {
        reply matches Ok(p) && p is Uncertain
    } else {
        reply == given
    }
}

impl<B: StorageBackend> FaultBackend<B> {
    /// Counts what was read.
    fn count_reads(&mut self, requests: &[ObjectRange], replies: &Vec<Vec<u8>>)
        ensures
            final(self).inner == old(self).inner,
            final(self).fault == old(self).fault,
            final(self).log == old(self).log,
            final(self).counts() == batch_counted(old(self).counts(), requests@, replies@),
    {
        self.statistics.reads = self.statistics.reads.saturating_add(requests.len() as u64);
        self.statistics.batches = self.statistics.batches.saturating_add(1);
        let ghost first = self.statistics@;
        let mut i: usize = 0;
        while i < replies.len()
            invariant
                i <= replies@.len(),
                self.inner == old(self).inner,
                self.fault == old(self).fault,
                self.log == old(self).log,
                self.statistics@ == replies_counted(first, requests@, replies@, i as int),
            decreases replies.len() - i,
        {
            let length: u64 = replies[i].len() as u64;
            self.statistics.read_bytes = self.statistics.read_bytes.saturating_add(length);
            if i < requests.len() {
                match requests[i].key() {
                    ObjectKey::Blob(_) => {
                        self.statistics.blob_reads = self.statistics.blob_reads.saturating_add(1);
                        self.statistics.blob_read_bytes =
                            self.statistics.blob_read_bytes.saturating_add(length);
                    },
                    _ => {},
                }
            }
            i += 1;
        }
    }
}

/// What is planned once the first `count` of some operations were called.
pub open spec fn planned_after(planned: Planned, calls: Seq<Operation>, count: int) -> Planned
    decreases count,
{
    if count <= 0 {
        planned
    } else {
        remaining(planned_after(planned, calls, count - 1), calls[count - 1])
    }
}

/// How many of the first `count` calls are of an operation.
pub open spec fn times(calls: Seq<Operation>, operation: Operation, count: int) -> int
    decreases count,
{
    if count <= 0 {
        0
    } else {
        times(calls, operation, count - 1) + if calls[count - 1] == operation {
            1int
        } else {
            0int
        }
    }
}

/// What `inject` plans for a call.
pub open spec fn injection(operation: Operation, call: usize, fault: Fault) -> Planned {
    Some(
        (
            operation,
            if call == 0 {
                1usize
            } else {
                call
            },
            fault,
        ),
    )
}

/// A fault strikes once: of the calls that follow, whatever they are, the one that
/// was named among those of its operation, and no other. The first call has the
/// number 1, and 0 names it too.
pub proof fn law_fault_strikes_once(
    operation: Operation,
    call: usize,
    fault: Fault,
    calls: Seq<Operation>,
    i: int,
)
    requires
        0 <= i < calls.len(),
    ensures
        ({
            let named = if call == 0 {
                1int
            } else {
                call as int
            };
            firing(planned_after(injection(operation, call, fault), calls, i), calls[i])
                == if calls[i] == operation && times(calls, operation, i) + 1 == named {
                Some(fault)
            } else {
                None::<Fault>
            }
        }),
{
    lemma_planned_after(operation, call, fault, calls, i);
}

proof fn lemma_planned_after(
    operation: Operation,
    call: usize,
    fault: Fault,
    calls: Seq<Operation>,
    count: int,
)
    requires
        0 <= count <= calls.len(),
    ensures
        ({
            let named = if call == 0 {
                1int
            } else {
                call as int
            };
            let seen = times(calls, operation, count);
            &&& seen >= 0
            &&& planned_after(injection(operation, call, fault), calls, count) == if seen
                < named {
                Some((operation, (named - seen) as usize, fault))
            } else {
                None::<(Operation, usize, Fault)>
            }
        }),
    decreases count,
{
    if count > 0 {
        lemma_planned_after(operation, call, fault, calls, count - 1);
    }
}

/// The bytes of the first `count` replies, and of those to requests for blobs alone.
pub open spec fn reply_bytes(
    requests: Seq<ObjectRange>,
    replies: Seq<Vec<u8>>,
    blobs: bool,
    count: int,
) -> int
    decreases count,
{
    if count <= 0 {
        0
    } else {
        reply_bytes(requests, replies, blobs, count - 1) + if !blobs || requests[count - 1].of() is Blob {
            replies[count - 1]@.len() as int
        } else {
            0
        }
    }
}

/// How many of the first `count` requests are for blobs.
pub open spec fn blob_requests(requests: Seq<ObjectRange>, count: int) -> int
    decreases count,
{
    if count <= 0 {
        0
    } else {
        blob_requests(requests, count - 1) + if requests[count - 1].of() is Blob {
            1int
        } else {
            0
        }
    }
}

/// A batch that was read counts as one batch, as a read for each request, and with the
/// bytes that came back; requests for blobs and their bytes are counted apart as well.
/// Nothing else is counted.
pub proof fn law_batches_are_counted(
    counts: CountsModel,
    requests: Seq<ObjectRange>,
    replies: Seq<Vec<u8>>,
)
    requires
        replies.len() == requests.len(),
        counts.batches < u64::MAX,
        counts.reads + requests.len() <= u64::MAX,
        counts.read_bytes + reply_bytes(requests, replies, false, replies.len() as int) <= u64::MAX,
        counts.blob_reads + requests.len() <= u64::MAX,
        counts.blob_read_bytes + reply_bytes(requests, replies, false, replies.len() as int)
            <= u64::MAX,
    ensures
        batch_counted(counts, requests, replies) == (CountsModel {
            batches: (counts.batches + 1) as u64,
            reads: (counts.reads + requests.len()) as u64,
            read_bytes: (counts.read_bytes + reply_bytes(
                requests,
                replies,
                false,
                replies.len() as int,
            )) as u64,
            blob_reads: (counts.blob_reads + blob_requests(requests, requests.len() as int)) as u64,
            blob_read_bytes: (counts.blob_read_bytes + reply_bytes(
                requests,
                replies,
                true,
                replies.len() as int,
            )) as u64,
            ..counts
        }),
{
    let start = CountsModel {
        reads: capped(counts.reads, requests.len() as int),
        batches: capped(counts.batches, 1),
        ..counts
    };
    lemma_replies_counted(start, requests, replies, replies.len() as int);
}

proof fn lemma_replies_counted(
    counts: CountsModel,
    requests: Seq<ObjectRange>,
    replies: Seq<Vec<u8>>,
    count: int,
)
    requires
        0 <= count <= requests.len(),
        replies.len() == requests.len(),
        counts.read_bytes + reply_bytes(requests, replies, false, count) <= u64::MAX,
        counts.blob_reads + count <= u64::MAX,
        counts.blob_read_bytes + reply_bytes(requests, replies, false, count) <= u64::MAX,
    ensures
        0 <= reply_bytes(requests, replies, true, count) <= reply_bytes(
            requests,
            replies,
            false,
            count,
        ),
        0 <= blob_requests(requests, count) <= count,
        replies_counted(counts, requests, replies, count) == (CountsModel {
            read_bytes: (counts.read_bytes + reply_bytes(requests, replies, false, count)) as u64,
            blob_reads: (counts.blob_reads + blob_requests(requests, count)) as u64,
            blob_read_bytes: (counts.blob_read_bytes + reply_bytes(requests, replies, true, count)) as u64,
            ..counts
        }),
    decreases count,
{
    if count > 0 {
        assert(reply_bytes(requests, replies, false, count - 1) <= reply_bytes(
            requests,
            replies,
            false,
            count,
        ));
        lemma_replies_counted(counts, requests, replies, count - 1);
    }
}

} // verus!
