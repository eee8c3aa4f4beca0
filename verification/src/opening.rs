//! Where the decompressor has to do with an error. It may refuse any frame and any
//! dictionary, but only those that were handed to it: the frame in the envelope, or
//! the dictionary, that was read last.

use crate::adapter::{Event, ObjectKey};
use crate::digest;
use crate::error::StoreError;
use crate::fetch;
use crate::fetch::Replay;
use crate::segment;
use crate::wire;
use vstd::prelude::*;

verus! {

/// The bytes are an envelope, so that its frame is handed to the decompressor.
pub open spec fn is_envelope(bytes: Seq<u8>) -> bool {
    exists|magic: Seq<u8>, limit: int| #[trigger] wire::envelope_parts(magic, bytes, limit) is Ok
}

/// Of an object something is handed to the decompressor: an index layer is an
/// envelope, a manifest ends in one, and a dictionary is loaded whole.
pub open spec fn handed_over(key: ObjectKey, bytes: Seq<u8>) -> bool {
    match key {
        ObjectKey::Index(_) => is_envelope(bytes),
        ObjectKey::Manifest(_) => segment::segment_parse(bytes) matches Ok((_, footer))
            && is_envelope(footer),
        ObjectKey::Dictionary(id) => digest::names(id, bytes),
        _ => false,
    }
}

/// The last calls of a history, from `at` on, read an object of which something is
/// handed to the decompressor.
pub open spec fn read_last(history: Seq<Event>, at: int, key: ObjectKey, limit: u64) -> bool {
    fetch::object_replay(history, at, key, limit) matches Replay::Done(Ok(bytes), next) && next
        == history.len() && handed_over(key, bytes)
}

/// The decompressor refused what was read last, after `earlier`.
pub open spec fn unopened(error: StoreError, earlier: Seq<Event>, later: Seq<Event>) -> bool {
    error is Zstd && exists|at: int, key: ObjectKey, limit: u64|
        earlier.len() <= at && #[trigger] read_last(later, at, key, limit)
}

/// Where nothing was read, the decompressor refused nothing.
pub proof fn law_unread_is_not_refused(error: StoreError, earlier: Seq<Event>, later: Seq<Event>)
    requires
        earlier.len() >= later.len() || !(later.last() is Read),
    ensures
        !unopened(error, earlier, later),
{
    if unopened(error, earlier, later) {
        let (at, key, limit) = choose|at: int, key: ObjectKey, limit: u64|
            earlier.len() <= at && #[trigger] read_last(later, at, key, limit);
        match fetch::stat_replay(later, at, key) {
            Replay::Done(Ok(Some(length)), next) => {
                lemma_rest_ends(later, next, key, 0, length.value as int, Seq::empty());
            },
            _ => {},
        }
    }
}

proof fn lemma_rest_ends(
    history: Seq<Event>,
    at: int,
    key: ObjectKey,
    offset: int,
    length: int,
    so_far: Seq<u8>,
)
    requires
        0 <= at,
        offset < length,
        length <= u64::MAX,
        0 <= offset,
        fetch::rest_replay(history, at, key, offset, length, so_far) matches Replay::Done(Ok(_), _),
    ensures
        ({
            let next = fetch::rest_replay(history, at, key, offset, length, so_far)->Done_1;
            at < next <= history.len() && history[next - 1] is Read
        }),
    decreases length - offset,
{
    match fetch::range_replay(history, at, key, fetch::next_range(offset, length)) {
        Replay::Done(Ok(bytes), next) => {
            let step = if length - offset > crate::adapter::MAX_BATCH_BYTES {
                crate::adapter::MAX_BATCH_BYTES as int
            } else {
                length - offset
            };
            if offset + step < length {
                lemma_rest_ends(history, next, key, offset + step, length, so_far + bytes);
            }
        },
        _ => {},
    }
}

} // verus!
