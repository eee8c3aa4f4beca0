//! What a directory of files says of a namespace: the file that holds the root,
//! and the names of the objects.

use crate::adapter::{
    BackendError, MAX_BATCH_REQUESTS, MAX_ROOT_BYTES, ObjectKey, Revision, RootModel, RootRecord,
};
use crate::bytes::{append, copied, same_bytes};
use crate::digest;
use crate::digest::hash;
use crate::keys;
use crate::memory;
use crate::memory::keys_after;
use crate::order::OrderedMap;
use vstd::prelude::*;
use vstd::slice::slice_subrange;
use vstd::utf8::*;

verus! {

/// `ZHEAD001`.
pub const ROOT_FILE_MAGIC: [u8; 8] = [90, 72, 69, 65, 68, 48, 48, 49];

/// What the checksum of a root file covers: its magic, the token and the root.
pub open spec fn root_body(token: Seq<u8>, root: Seq<u8>) -> Seq<u8> {
    ROOT_FILE_MAGIC@ + token + root
}

/// A root file.
pub open spec fn root_file(token: Seq<u8>, root: Seq<u8>) -> Seq<u8> {
    root_body(token, root) + digest::content_hash(root_body(token, root))
}

/// Encodes a root file.
pub fn encode_root(token: &[u8; 32], root: &[u8]) -> (file: Vec<u8>)
    ensures
        file@ == root_file(token@, root@),
{
    let mut file: Vec<u8> = copied(ROOT_FILE_MAGIC.as_slice());
    append(&mut file, token.as_slice());
    append(&mut file, root);
    assert(file@ =~= root_body(token@, root@));
    let sum: [u8; 32] = hash(file.as_slice());
    append(&mut file, sum.as_slice());
    file
}

/// What a root file says, or why it says nothing.
pub open spec fn root_parse(file: Seq<u8>) -> Result<RootModel, BackendError> {
    if file.len() < 72 || file.take(8) != ROOT_FILE_MAGIC@ || digest::content_hash(
        file.take(file.len() - 32),
    ) != file.skip(file.len() - 32) {
        Err(BackendError::InvalidData)
    } else if file.len() - 72 > MAX_ROOT_BYTES {
        Err(BackendError::Range)
    } else {
        Ok(
            RootModel {
                revision: file.subrange(8, 40),
                bytes: file.subrange(40, file.len() - 32),
            },
        )
    }
}

/// Decodes a root file.
pub fn decode_root(file: &[u8]) -> (root: Result<RootRecord, BackendError>)
    ensures
        match root {
            Ok(r) => root_parse(file@) == Ok::<RootModel, BackendError>(r@),
            Err(e) => root_parse(file@) == Err::<RootModel, BackendError>(e),
        },
{
    if file.len() < 72 {
        return Err(BackendError::InvalidData);
    }
    let end: usize = file.len() - 32;
    let magic: &[u8] = slice_subrange(file, 0, 8);
    let body: &[u8] = slice_subrange(file, 0, end);
    let stored: &[u8] = slice_subrange(file, end, file.len());
    assert(magic@ =~= file@.take(8));
    assert(body@ =~= file@.take(file@.len() - 32));
    assert(stored@ =~= file@.skip(file@.len() - 32));
    let sum: [u8; 32] = hash(body);
    if !same_bytes(magic, ROOT_FILE_MAGIC.as_slice()) || !same_bytes(sum.as_slice(), stored) {
        return Err(BackendError::InvalidData);
    }
    let token: &[u8] = slice_subrange(file, 8, 40);
    let revision: Revision = match Revision::new(copied(token)) {
        Ok(revision) => revision,
        Err(error) => {
            return Err(error);
        },
    };
    RootRecord::new(revision, copied(slice_subrange(file, 40, end)))
}

/// What was written to a root file is read from it.
pub proof fn law_root_file_reads_back(token: Seq<u8>, root: Seq<u8>)
    requires
        token.len() == 32,
        root.len() <= MAX_ROOT_BYTES,
    ensures
        root_parse(root_file(token, root)) == Ok::<RootModel, BackendError>(
            RootModel { revision: token, bytes: root },
        ),
{
    let body = root_body(token, root);
    let file = root_file(token, root);
    assert(digest::content_hash(body).len() == 32);
    assert(file.take(8) =~= ROOT_FILE_MAGIC@);
    assert(file.take(file.len() - 32) =~= body);
    assert(file.skip(file.len() - 32) =~= digest::content_hash(body));
    assert(file.subrange(8, 40) =~= token);
    assert(file.subrange(40, file.len() - 32) =~= root);
}

/// A file that is being written; it is no object yet.
pub open spec fn is_hidden(name: Seq<u8>) -> bool {
    name.len() > 0 && name[0] == 46
}

/// The objects that the first `count` names stand for, or the first reason why
/// there are none.
pub open spec fn named_keys(names: Seq<String>, count: int) -> Result<Set<ObjectKey>, BackendError>
    decreases count,
{
    if count <= 0 {
        Ok(Set::empty())
    } else {
        match named_keys(names, count - 1) {
            Err(error) => Err(error),
            Ok(keys) => {
                let name = encode_utf8(names[count - 1]@);
                if is_hidden(name) {
                    Ok(keys)
                } else {
                    match keys::key_parse(name) {
                        Err(error) => Err(error),
                        Ok(key) => Ok(keys.insert(key)),
                    }
                }
            },
        }
    }
}

proof fn lemma_names_stop(names: Seq<String>, count: int, more: int)
    requires
        named_keys(names, count) is Err,
        count <= more,
    ensures
        named_keys(names, more) == named_keys(names, count),
    decreases more - count,
{
    if count < more {
        lemma_names_stop(names, count, more - 1);
    }
}

/// Lists up to `limit` objects of a directory behind a cursor, in order.
pub fn list_names(names: &Vec<String>, after: Option<ObjectKey>, limit: usize) -> (keys: Result<
    Vec<ObjectKey>,
    BackendError,
>)
    ensures
        if !(1 <= limit <= MAX_BATCH_REQUESTS) {
            keys is Err && keys->Err_0 == BackendError::Range
        } else {
            match named_keys(names@, names@.len() as int) {
                Err(error) => keys is Err && keys->Err_0 == error,
                Ok(held) => keys is Ok && memory::is_listing(keys->Ok_0@, held, after, limit as int),
            }
        },
{
    if limit == 0 || limit > MAX_BATCH_REQUESTS {
        return Err(BackendError::Range);
    }
    let mut held: OrderedMap<ObjectKey, bool> = OrderedMap::new();
    let mut i: usize = 0;
    assert(held@.dom() =~= Set::<ObjectKey>::empty());
    while i < names.len()
        invariant
            i <= names@.len(),
            1 <= limit <= MAX_BATCH_REQUESTS,
            named_keys(names@, i as int) == Ok::<Set<ObjectKey>, BackendError>(held@.dom()),
        decreases names.len() - i,
    {
        let name: &str = names[i].as_str();
        let bytes: &[u8] = name.as_bytes();
        assert(bytes@ == encode_utf8(names@[i as int]@));
        if bytes.len() == 0 || bytes[0] != 46 {
            match ObjectKey::parse(name) {
                Err(error) => {
                    proof {
                        assert(named_keys(names@, i as int + 1) == Err::<
                            Set<ObjectKey>,
                            BackendError,
                        >(error));
                        lemma_names_stop(names@, i as int + 1, names@.len() as int);
                    }
                    return Err(error);
                },
                Ok(key) => {
                    let ghost before = held@;
                    held.insert(key, true);
                    assert(held@.dom() =~= before.dom().insert(key));
                },
            }
        }
        i += 1;
    }
    keys_after(&held, after, limit)
}

/// The objects of a directory are those that its names stand for, but for the names of files
/// that are being written, which begin with a dot; and every other name stands for one.
pub proof fn law_names_stand_for_objects(names: Seq<String>, count: int, held: Set<ObjectKey>, key: ObjectKey)
    requires
        0 <= count <= names.len(),
        named_keys(names, count) == Ok::<Set<ObjectKey>, BackendError>(held),
    ensures
        held.contains(key) <==> exists|i: int|
            0 <= i < count && !is_hidden(encode_utf8((#[trigger] names[i])@)) && keys::key_parse(
                encode_utf8(names[i]@),
            ) == Ok::<ObjectKey, BackendError>(key),
        forall|i: int|
            0 <= i < count && !is_hidden(encode_utf8((#[trigger] names[i])@)) ==> keys::key_parse(
                encode_utf8(names[i]@),
            ) is Ok,
    decreases count,
{
    if count > 0 {
        let before = named_keys(names, count - 1)->Ok_0;
        law_names_stand_for_objects(names, count - 1, before, key);
    }
}

} // verus!
