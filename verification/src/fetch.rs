//! Whole objects, read and written through a backend. What a call returns is
//! stated as a replay of the calls that the backend answered.

use crate::adapter;
use crate::adapter::{
    BackendError, Event, MAX_BATCH_BYTES, ObjectKey, ObjectRange, StorageBackend, put,
};
use crate::bytes::append;
use crate::domain::{Count, StoredBytes, StoredRange};
use crate::error::StoreError;
use vstd::prelude::*;

verus! {

/// What a stretch of a backend's history comes to.
#[verifier::ext_equal]
pub enum Replay<T> {
    /// A result, and the place in the history after the calls that led to it.
    Done(Result<T, StoreError>, int),
    /// The history does not hold the calls that should stand there.
    Astray,
}

/// What asking for the length of an object came to.
pub open spec fn stat_replay(history: Seq<Event>, at: int, key: ObjectKey) -> Replay<
    Option<StoredBytes>,
> {
    if 0 <= at < history.len() {
        match history[at] {
            Event::Stat { key: asked, reply } => if asked == key {
                Replay::Done(
                    match reply {
                        Ok(length) => Ok(length),
                        Err(error) => Err(StoreError::Backend(error)),
                    },
                    at + 1,
                )
            } else {
                Replay::Astray
            },
            _ => Replay::Astray,
        }
    } else {
        Replay::Astray
    }
}

/// One request for a range of an object.
pub open spec fn asks_for(requests: Seq<ObjectRange>, key: ObjectKey, range: StoredRange) -> bool {
    requests.len() == 1 && requests[0].of() == key && requests[0].place() == range
}

/// What reading a range of an object came to. An empty range is not asked for; a
/// reply of another length is refused.
pub open spec fn range_replay(
    history: Seq<Event>,
    at: int,
    key: ObjectKey,
    range: StoredRange,
) -> Replay<Seq<u8>> {
    if range.length.value == 0 {
        Replay::Done(Ok(Seq::empty()), at)
    } else if 0 <= at < history.len() {
        match history[at] {
            Event::Read { requests, reply } => if asks_for(requests, key, range) {
                Replay::Done(
                    match reply {
                        Err(error) => Err(StoreError::Backend(error)),
                        Ok(replies) => if replies@.len() == 1 && replies@[0]@.len()
                            == range.length.value {
                            Ok(replies@[0]@)
                        } else {
                            Err(StoreError::Backend(BackendError::InvalidData))
                        },
                    },
                    at + 1,
                )
            } else {
                Replay::Astray
            },
            _ => Replay::Astray,
        }
    } else {
        Replay::Astray
    }
}

/// The range of the next batch of an object of `length` bytes.
pub open spec fn next_range(offset: int, length: int) -> StoredRange {
    let count = if length - offset > MAX_BATCH_BYTES {
        MAX_BATCH_BYTES as int
    } else {
        length - offset
    };
    StoredRange {
        offset: Count { value: offset as u64 },
        length: Count { value: count as u64 },
    }
}

/// What reading the rest of an object, batch by batch, came to.
pub open spec fn rest_replay(
    history: Seq<Event>,
    at: int,
    key: ObjectKey,
    offset: int,
    length: int,
    so_far: Seq<u8>,
) -> Replay<Seq<u8>>
    decreases length - offset,
{
    if offset >= length {
        Replay::Done(Ok(so_far), at)
    } else {
        match range_replay(history, at, key, next_range(offset, length)) {
            Replay::Done(Ok(bytes), next) => {
                let step = if length - offset > MAX_BATCH_BYTES {
                    MAX_BATCH_BYTES as int
                } else {
                    length - offset
                };
                rest_replay(history, next, key, offset + step, length, so_far + bytes)
            },
            Replay::Done(Err(error), next) => Replay::Done(Err(error), next),
            Replay::Astray => Replay::Astray,
        }
    }
}

/// What reading a whole object came to: it must exist, and have from 1 to `limit`
/// bytes.
pub open spec fn object_replay(history: Seq<Event>, at: int, key: ObjectKey, limit: u64) -> Replay<
    Seq<u8>,
> {
    match stat_replay(history, at, key) {
        Replay::Astray => Replay::Astray,
        Replay::Done(Err(error), next) => Replay::Done(Err(error), next),
        Replay::Done(Ok(None), next) => Replay::Done(
            Err(StoreError::Backend(BackendError::Missing(key))),
            next,
        ),
        Replay::Done(Ok(Some(length)), next) => if length.value == 0 || length.value > limit
            || length.value > usize::MAX {
            Replay::Done(Err(StoreError::Range), next)
        } else {
            rest_replay(history, next, key, 0, length.value as int, Seq::empty())
        },
    }
}

/// A replay is settled by the calls that it covers.
pub proof fn lemma_rest_settled(
    before: Seq<Event>,
    after: Seq<Event>,
    at: int,
    key: ObjectKey,
    offset: int,
    length: int,
    so_far: Seq<u8>,
)
    requires
        adapter::extends(before, after),
        rest_replay(before, at, key, offset, length, so_far) is Done,
    ensures
        rest_replay(after, at, key, offset, length, so_far) == rest_replay(
            before,
            at,
            key,
            offset,
            length,
            so_far,
        ),
    decreases length - offset,
{
    if offset < length {
        match range_replay(before, at, key, next_range(offset, length)) {
            Replay::Done(Ok(bytes), next) => {
                let step = if length - offset > MAX_BATCH_BYTES {
                    MAX_BATCH_BYTES as int
                } else {
                    length - offset
                };
                lemma_rest_settled(before, after, next, key, offset + step, length, so_far + bytes);
            },
            _ => {},
        }
    }
}

/// A replay is settled by the calls that it covers.
pub proof fn lemma_object_settled(
    before: Seq<Event>,
    after: Seq<Event>,
    at: int,
    key: ObjectKey,
    limit: u64,
)
    requires
        adapter::extends(before, after),
        object_replay(before, at, key, limit) is Done,
    ensures
        object_replay(after, at, key, limit) == object_replay(before, at, key, limit),
{
    match stat_replay(before, at, key) {
        Replay::Done(Ok(Some(length)), next) => {
            if !(length.value == 0 || length.value > limit || length.value > usize::MAX) {
                lemma_rest_settled(before, after, next, key, 0, length.value as int, Seq::empty());
            }
        },
        _ => {},
    }
}

/// The length of an object, where it exists.
pub fn stat<B: StorageBackend>(backend: &mut B, key: ObjectKey) -> (length: Result<
    Option<StoredBytes>,
    StoreError,
>)
    ensures
        final(backend).namespace() == old(backend).namespace(),
        adapter::extends(old(backend).history(), final(backend).history()),
        adapter::quiet(old(backend).history(), final(backend).history()),
        stat_replay(final(backend).history(), old(backend).history().len() as int, key)
            == Replay::Done(length, final(backend).history().len() as int),
{
    match backend.stat(key) {
        Ok(length) => Ok(length),
        Err(error) => Err(StoreError::Backend(error)),
    }
}

/// Reads a range of an object.
pub fn read_range<B: StorageBackend>(backend: &mut B, key: ObjectKey, range: StoredRange) -> (bytes:
    Result<Vec<u8>, StoreError>)
    ensures
        final(backend).namespace() == old(backend).namespace(),
        adapter::extends(old(backend).history(), final(backend).history()),
        adapter::quiet(old(backend).history(), final(backend).history()),
        range_replay(final(backend).history(), old(backend).history().len() as int, key, range)
            == Replay::Done(seen(bytes), final(backend).history().len() as int),
        bytes matches Ok(b) ==> b@.len() == range.length.value,
{
    if range.length.value == 0 {
        let none: Vec<u8> = Vec::new();
        assert(none@ =~= Seq::<u8>::empty());
        return Ok(none);
    }
    let request: ObjectRange = match ObjectRange::new(key, range) {
        Ok(request) => request,
        Err(error) => {
            assert(false);
            return Err(StoreError::Backend(error));
        },
    };
    let mut requests: Vec<ObjectRange> = Vec::new();
    requests.push(request);
    assert(asks_for(requests@, key, range));
    match backend.read_ranges(requests.as_slice()) {
        Err(error) => Err(StoreError::Backend(error)),
        Ok(replies) => {
            let mut replies: Vec<Vec<u8>> = replies;
            if replies.len() != 1 || replies[0].len() as u64 != range.length.value {
                return Err(StoreError::Backend(BackendError::InvalidData));
            }
            Ok(replies.remove(0))
        },
    }
}

/// A result, by the bytes that it holds.
pub open spec fn seen(bytes: Result<Vec<u8>, StoreError>) -> Result<Seq<u8>, StoreError> {
    match bytes {
        Ok(b) => Ok(b@),
        Err(e) => Err(e),
    }
}

/// Reads a whole object of at most `limit` bytes, in batches.
pub fn read_all<B: StorageBackend>(backend: &mut B, key: ObjectKey, limit: u64) -> (bytes: Result<
    Vec<u8>,
    StoreError,
>)
    ensures
        final(backend).namespace() == old(backend).namespace(),
        adapter::extends(old(backend).history(), final(backend).history()),
        adapter::quiet(old(backend).history(), final(backend).history()),
        object_replay(final(backend).history(), old(backend).history().len() as int, key, limit)
            == Replay::Done(seen(bytes), final(backend).history().len() as int),
        bytes matches Ok(b) ==> 1 <= b@.len() <= limit,
{
    let ghost start = backend.history().len() as int;
    let length: u64 = match stat(backend, key)? {
        None => {
            return Err(StoreError::Backend(BackendError::Missing(key)));
        },
        Some(length) => length.value,
    };
    if length == 0 || length > limit || length > usize::MAX as u64 {
        return Err(StoreError::Range);
    }
    let mut bytes: Vec<u8> = Vec::new();
    let mut offset: u64 = 0;
    let ghost first = backend.history().len() as int;
    assert(bytes@ =~= Seq::<u8>::empty());
    let ghost asked = backend.history();
    while offset < length
        invariant
            offset <= length,
            bytes@.len() == offset,
            0 < length <= limit,
            length <= usize::MAX,
            backend.namespace() == old(backend).namespace(),
            adapter::extends(old(backend).history(), backend.history()),
            adapter::extends(asked, backend.history()),
            adapter::quiet(old(backend).history(), backend.history()),
            stat_replay(asked, start, key) == Replay::Done(
                Ok::<Option<StoredBytes>, StoreError>(Some(Count { value: length })),
                first,
            ),
            start == old(backend).history().len(),
            first == asked.len(),
            forall|later: Seq<Event>|
                #![trigger rest_replay(
                    later,
                    first,
                    key,
                    0,
                    length as int,
                    Seq::empty(),
                )]
                adapter::extends(backend.history(), later) ==> rest_replay(
                    later,
                    first,
                    key,
                    0,
                    length as int,
                    Seq::empty(),
                ) == rest_replay(
                    later,
                    backend.history().len() as int,
                    key,
                    offset as int,
                    length as int,
                    bytes@,
                ),
        decreases length - offset,
    {
        let count: u64 = if length - offset > MAX_BATCH_BYTES {
            MAX_BATCH_BYTES
        } else {
            length - offset
        };
        let range: StoredRange = StoredRange {
            offset: Count { value: offset },
            length: Count { value: count },
        };
        let ghost known = backend.history();
        let piece: Result<Vec<u8>, StoreError> = read_range(backend, key, range);
        proof {
            assert(rest_replay(backend.history(), first, key, 0, length as int, Seq::empty())
                == rest_replay(
                backend.history(),
                known.len() as int,
                key,
                offset as int,
                length as int,
                bytes@,
            ));
            assert(stat_replay(backend.history(), start, key) == stat_replay(asked, start, key));
        }
        let piece: Vec<u8> = piece?;
        let ghost before = bytes@;
        append(&mut bytes, piece.as_slice());
        proof {
            assert forall|later: Seq<Event>| adapter::extends(backend.history(), later) implies rest_replay(
                later,
                first,
                key,
                0,
                length as int,
                Seq::empty(),
            ) == #[trigger] rest_replay(
                later,
                backend.history().len() as int,
                key,
                offset + count,
                length as int,
                bytes@,
            ) by {
                assert(adapter::extends(known, later));
                assert(rest_replay(later, first, key, 0, length as int, Seq::empty())
                    == rest_replay(
                    later,
                    known.len() as int,
                    key,
                    offset as int,
                    length as int,
                    before,
                ));
                assert(range_replay(later, known.len() as int, key, range) == range_replay(
                    backend.history(),
                    known.len() as int,
                    key,
                    range,
                ));
            }
            assert forall|later: Seq<Event>|
                #![trigger rest_replay(later, first, key, 0, length as int, Seq::empty())]
                adapter::extends(backend.history(), later) implies rest_replay(
                later,
                first,
                key,
                0,
                length as int,
                Seq::empty(),
            ) == rest_replay(
                later,
                backend.history().len() as int,
                key,
                offset + count,
                length as int,
                bytes@,
            ) by {
                let _ = rest_replay(
                    later,
                    backend.history().len() as int,
                    key,
                    offset + count,
                    length as int,
                    bytes@,
                );
            }
        }
        offset = offset + count;
    }
    proof {
        assert(stat_replay(backend.history(), start, key) == stat_replay(asked, start, key));
        assert(rest_replay(backend.history(), first, key, 0, length as int, Seq::empty())
            == Replay::Done(Ok::<Seq<u8>, StoreError>(bytes@), backend.history().len() as int));
    }
    Ok(bytes)
}

/// Puts named bytes, of which there must be some.
pub fn put_bytes<B: StorageBackend>(backend: &mut B, key: ObjectKey, bytes: &[u8]) -> (done: Result<
    (),
    StoreError,
>)
    ensures
        final(backend).namespace() == old(backend).namespace(),
        adapter::extends(old(backend).history(), final(backend).history()),
        installed(old(backend).history(), final(backend).history(), key, bytes@, done),
{
    match put(backend, key, Count { value: bytes.len() as u64 }, bytes) {
        Ok(unit) => {
            assert(unit == ());
            Ok(())
        },
        Err(error) => Err(StoreError::Backend(error)),
    }
}

/// An object was handed to the backend, which answered as `done` says; or the
/// stream broke before that. Nothing is handed over of an empty object.
pub open spec fn installed(
    before: Seq<Event>,
    after: Seq<Event>,
    key: ObjectKey,
    bytes: Seq<u8>,
    done: Result<(), StoreError>,
) -> bool {
    match done {
        Ok(_) => bytes.len() > 0 && after == before.push(
            Event::Install { key, bytes, reply: Ok(()) },
        ),
        Err(StoreError::Backend(error)) => if bytes.len() == 0 {
            after == before && error == BackendError::Range
        } else {
            ||| adapter::broke(before, after, error)
            ||| after == before.push(Event::Install { key, bytes, reply: Err(error) })
        },
        Err(_) => false,
    }
}

/// An object that is read is as long as the backend said when it was asked, at least a byte
/// and no more than the limit.
pub proof fn law_whole_object_is_read(
    history: Seq<Event>,
    at: int,
    key: ObjectKey,
    limit: u64,
    bytes: Seq<u8>,
    next: int,
)
    requires
        object_replay(history, at, key, limit) == Replay::Done(Ok(bytes), next),
    ensures
        1 <= bytes.len() <= limit,
        0 <= at < history.len(),
        history[at] matches Event::Stat { key: asked, reply } && asked == key && (reply matches Ok(
            Some(length),
        ) && length.value == bytes.len()),
        next > at + 1,
{
    match stat_replay(history, at, key) {
        Replay::Done(Ok(Some(length)), first) => {
            lemma_rest_length(
                history,
                first,
                key,
                0,
                length.value as int,
                Seq::empty(),
                bytes,
                next,
            );
        },
        _ => {},
    }
}

/// An object is read from its front to its end, each batch where the one before it has
/// ended, and none of more than sixty-four mebibytes.
pub proof fn law_batches_follow(
    history: Seq<Event>,
    at: int,
    key: ObjectKey,
    offset: int,
    length: int,
    so_far: Seq<u8>,
    bytes: Seq<u8>,
    next: int,
)
    requires
        0 <= offset < length <= u64::MAX,
        rest_replay(history, at, key, offset, length, so_far) == Replay::Done(Ok(bytes), next),
    ensures
        0 <= at < history.len(),
        history[at] is Read,
        history[at]->requests.len() == 1,
        history[at]->requests[0].of() == key,
        history[at]->requests[0].place().offset.value == offset,
        ({
            let count = history[at]->requests[0].place().length.value as int;
            &&& 0 < count <= 67108864
            &&& count == length - offset || count == 67108864
            &&& offset + count < length ==> count == 67108864 && at + 1 < history.len() && history[at
                + 1] is Read && history[at + 1]->requests[0].place().offset.value == offset + count
        }),
{
    let range = next_range(offset, length);
    assert(range_replay(history, at, key, range) is Done);
    if length - offset > 67108864 {
        let first = range_replay(history, at, key, range)->Done_0->Ok_0;
        let rest = next_range(offset + 67108864, length);
        assert(rest_replay(history, at + 1, key, offset + 67108864, length, so_far + first)
            == Replay::Done(Ok::<Seq<u8>, StoreError>(bytes), next));
        assert(range_replay(history, at + 1, key, rest) is Done);
    }
}

proof fn lemma_rest_length(
    history: Seq<Event>,
    at: int,
    key: ObjectKey,
    offset: int,
    length: int,
    so_far: Seq<u8>,
    bytes: Seq<u8>,
    next: int,
)
    requires
        0 <= offset <= length <= u64::MAX,
        so_far.len() == offset,
        rest_replay(history, at, key, offset, length, so_far) == Replay::Done(Ok(bytes), next),
    ensures
        bytes.len() == length,
        so_far.is_prefix_of(bytes),
        offset < length ==> next > at,
        next >= at,
    decreases length - offset,
{
    if offset < length {
        match range_replay(history, at, key, next_range(offset, length)) {
            Replay::Done(Ok(batch), first) => {
                let step = if length - offset > MAX_BATCH_BYTES {
                    MAX_BATCH_BYTES as int
                } else {
                    length - offset
                };
                lemma_rest_length(
                    history,
                    first,
                    key,
                    offset + step,
                    length,
                    so_far + batch,
                    bytes,
                    next,
                );
                assert(so_far.is_prefix_of(so_far + batch));
            },
            _ => {},
        }
    }
}

} // verus!
