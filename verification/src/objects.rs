//! Installing objects, attachments and seals of a namespace.

use crate::adapter;
use crate::adapter::{Event, ObjectKey, StorageBackend};
use crate::builder::Durable;
use crate::bytes::{append, copied, same_bytes};
use crate::digest;
use crate::digest::identify;
use crate::domain::{
    AttachmentId, BackendId, Count, DICTIONARY, DatabaseId, DictionaryId, Id, LogicalBytes,
    MANIFEST, ManifestId,
};
use crate::draft;
use crate::error::StoreError;
use crate::fetch;
use crate::fetch::put_bytes;
use crate::format::ActiveHeader;
use crate::frame;
use crate::order::Key;
use crate::pinned::{MAX_DICTIONARY_BYTES, PinModel, PinnedView};
use crate::resolve;
use crate::segment;
use crate::segment::{Header, SEGMENT_LIMIT, write_bytes};
use crate::state;
use crate::state::{State, StateModel};
use vstd::prelude::*;

verus! {

impl StateModel {
    /// The state with an endpoint noted.
    pub open spec fn with_endpoint(self, id: ManifestId, header: Header) -> StateModel {
        StateModel { endpoints: self.endpoints.with(id.bytes@, header.record()), ..self }
    }

    /// The state with another seal under way.
    pub open spec fn with_pending(self, pending: Option<ActiveHeader>) -> StateModel {
        StateModel { pending, ..self }
    }
}

/// What installing a manifest comes to: too long a segment is refused; the
/// segment is handed to the backend under its name; its endpoint is noted and
/// the state published.
#[verifier::opaque]
pub open spec fn manifest_installed(
    before: StateModel,
    after: StateModel,
    earlier: Seq<Event>,
    later: Seq<Event>,
    header: Header,
    footer: Seq<u8>,
    done: Result<(), StoreError>,
) -> bool {
    let bytes = segment::segment_bytes(header, footer);
    let id = resolve::segment_name(header, footer);
    let key = ObjectKey::Manifest(id);
    let put = earlier.push(Event::Install { key, bytes, reply: Ok(()) });
    if bytes.len() > SEGMENT_LIMIT {
        done == Err::<(), StoreError>(StoreError::Range) && after == before && later == earlier
    } else {
        ||| done is Err && after == before && fetch::installed(earlier, later, key, bytes, done)
        ||| state::publish_outcome(before.with_endpoint(id, header), after, put, later, done)
    }
}

/// Installs a manifest.
pub fn install_manifest<B: StorageBackend>(
    backend: &mut B,
    state: &mut State,
    header: Header,
    footer: &Vec<u8>,
) -> (receipt: Result<Durable<MANIFEST>, StoreError>)
    ensures
        final(backend).namespace() == old(backend).namespace(),
        adapter::extends(old(backend).history(), final(backend).history()),
        match receipt {
            Ok(r) => r.of() == resolve::segment_name(header, footer@) && r.at_home() == old(
                backend).namespace() && r.size().value == segment::segment_bytes(header, footer@).len()
                && manifest_installed(
                old(state)@,
                final(state)@,
                old(backend).history(),
                final(backend).history(),
                header,
                footer@,
                Ok(()),
            ),
            Err(e) => manifest_installed(
                old(state)@,
                final(state)@,
                old(backend).history(),
                final(backend).history(),
                header,
                footer@,
                Err(e),
            ),
        },
{
    proof {
        reveal(manifest_installed);
    }
    let bytes: Vec<u8> = write_bytes(header, footer.as_slice());
    if bytes.len() > SEGMENT_LIMIT {
        return Err(StoreError::Range);
    }
    let home: BackendId = backend.identity();
    let mut input: Vec<u8> = header.encode();
    append(&mut input, footer.as_slice());
    let id: ManifestId = identify(input.as_slice());
    proof {
        draft::lemma_named(id, crate::segment::segment_input(header, footer@));
    }
    put_bytes(backend, ObjectKey::Manifest(id), bytes.as_slice())?;
    state.endpoints.insert(copied(id.bytes.as_slice()), header.encode());
    state.publish(backend)?;
    Ok(Durable::new(home, id, Count { value: bytes.len() as u64 }))
}

/// Installs a dictionary under its name.
pub fn install_dictionary<B: StorageBackend>(backend: &mut B, bytes: &[u8]) -> (receipt: Result<
    Durable<DICTIONARY>,
    StoreError,
>)
    ensures
        final(backend).namespace() == old(backend).namespace(),
        adapter::extends(old(backend).history(), final(backend).history()),
        ({
            let id = frame::id_of::<DICTIONARY>(digest::content_hash(bytes@));
            let key = ObjectKey::Dictionary(id);
            if bytes@.len() == 0 || bytes@.len() > MAX_DICTIONARY_BYTES {
                receipt == Err::<Durable<DICTIONARY>, StoreError>(StoreError::Range) && final(
                    backend).history() == old(backend).history()
            } else {
                match receipt {
                    Ok(r) => r.of() == id && r.at_home() == old(backend).namespace()
                        && r.size().value == bytes@.len() && fetch::installed(
                        old(backend).history(),
                        final(backend).history(),
                        key,
                        bytes@,
                        Ok(()),
                    ),
                    Err(e) => fetch::installed(
                        old(backend).history(),
                        final(backend).history(),
                        key,
                        bytes@,
                        Err(e),
                    ),
                }
            }
        }),
{
    if bytes.len() == 0 || bytes.len() as u64 > MAX_DICTIONARY_BYTES {
        return Err(StoreError::Range);
    }
    let home: BackendId = backend.identity();
    let id: DictionaryId = identify(bytes);
    proof {
        draft::lemma_named(id, bytes@);
    }
    put_bytes(backend, ObjectKey::Dictionary(id), bytes)?;
    Ok(Durable::new(home, id, Count { value: bytes.len() as u64 }))
}

/// The record of where a namespace is attached: the namespace, the attachment,
/// and the path of the active file.
pub open spec fn location_record(
    home: BackendId,
    attachment: Seq<u8>,
    path: Seq<u8>,
) -> Seq<u8> {
    home.bytes@ + attachment + path
}

/// The record of where a namespace is attached.
pub fn local_attachment_record(home: &BackendId, attachment: &[u8; 32], path: &[u8]) -> (record: Vec<
    u8,
>)
    ensures
        record@ == location_record(*home, attachment@, path@),
{
    let mut record: Vec<u8> = copied(home.bytes.as_slice());
    append(&mut record, attachment.as_slice());
    append(&mut record, path);
    record
}

/// What a local record says of an attachment. Where there is none, the record can
/// be written anew.
pub open spec fn local_check(found: Option<Seq<u8>>, expected: Seq<u8>) -> Result<(), StoreError> {
    match found {
        Some(record) => if record == expected {
            Ok(())
        } else {
            Err(StoreError::StaleAttachment)
        },
        None => Ok(()),
    }
}

/// Checks a local record.
pub fn validate_local_attachment(found: Option<&Vec<u8>>, expected: &Vec<u8>) -> (done: Result<
    (),
    StoreError,
>)
    ensures
        done == local_check(
            match found {
                Some(record) => Some(record@),
                None => None,
            },
            expected@,
        ),
{
    match found {
        Some(record) => if same_bytes(record.as_slice(), expected.as_slice()) {
            Ok(())
        } else {
            Err(StoreError::StaleAttachment)
        },
        None => Ok(()),
    }
}

/// What a local file that names an attachment holds, and what it should be.
pub struct LocalAttachment<'a> {
    /// The record that the file holds, if there is a file.
    pub found: Option<&'a Vec<u8>>,
    pub home: BackendId,
    /// The path of the active file.
    pub path: &'a [u8],
}

impl<'a> LocalAttachment<'a> {
    pub open spec fn record(self) -> Option<Seq<u8>> {
        match self.found {
            Some(record) => Some(record@),
            None => None,
        }
    }

    /// What the file says of an attachment.
    pub open spec fn check(self, attachment: Seq<u8>) -> Result<(), StoreError> {
        local_check(self.record(), location_record(self.home, attachment, self.path@))
    }

    fn validate(&self, attachment: &[u8; 32]) -> (done: Result<(), StoreError>)
        ensures
            done == self.check(attachment@),
    {
        let expected: Vec<u8> = local_attachment_record(&self.home, attachment, self.path);
        validate_local_attachment(self.found, &expected)
    }
}

/// What a state says of an active file's header: it must be of the namespace's
/// database, hold its attachment, and stand where it was attached.
pub open spec fn attachment_check(
    state: StateModel,
    header: ActiveHeader,
    local: LocalAttachment<'_>,
) -> Result<(), StoreError> {
    if !(state.database matches Some(id) && id.bytes@ == header.database_id@) {
        Err(StoreError::IdentityMismatch)
    } else if !(state.attachment matches Some(id) && id.bytes@ == header.attachment_id@) {
        Err(StoreError::StaleAttachment)
    } else {
        local.check(header.attachment_id@)
    }
}

/// What a state and a view say of a sealed header: it must be of the namespace's
/// database, have a valid policy, and describe the view.
pub open spec fn descriptor_check(
    state: StateModel,
    header: ActiveHeader,
    policy: Result<(), StoreError>,
    pin: PinModel,
) -> Result<(), StoreError> {
    let view = pin.metadata.view;
    if !(state.database matches Some(id) && id.bytes@ == header.database_id@) {
        Err(StoreError::IdentityMismatch)
    } else {
        match policy {
            Err(error) => Err(error),
            Ok(_) => if view.database.bytes@ == header.database_id@ && view.txid.value + 1
                == header.start_txid && view.history.bytes@ == header.base_history@
                && view.size.bytes == header.base_logical_size && view.size.page_size.value
                == header.page_size && pin.id.bytes@ == header.parent_physical_digest@ {
                Ok(())
            } else {
                Err(StoreError::IdentityMismatch)
            },
        }
    }
}

fn same_database(state: &State, header: &ActiveHeader) -> (same: bool)
    ensures
        same == (state@.database matches Some(id) && id.bytes@ == header.database_id@),
{
    match &state.database {
        Some(id) => same_bytes(id.bytes.as_slice(), header.database_id.as_slice()),
        None => false,
    }
}

/// Checks an active file's header against the state.
pub fn validate_attachment(state: &State, header: &ActiveHeader, local: &LocalAttachment<'_>) -> (done:
    Result<(), StoreError>)
    ensures
        done == attachment_check(state@, *header, *local),
{
    if !same_database(state, header) {
        return Err(StoreError::IdentityMismatch);
    }
    let attached: bool = match &state.attachment {
        Some(id) => same_bytes(id.bytes.as_slice(), header.attachment_id.as_slice()),
        None => false,
    };
    if !attached {
        return Err(StoreError::StaleAttachment);
    }
    local.validate(&header.attachment_id)
}

/// Checks a sealed header against the state and the view that it names. The
/// verdict on the header's policy is handed in.
pub fn validate_descriptor(
    state: &State,
    header: &ActiveHeader,
    policy: Result<(), StoreError>,
    pin: &PinnedView,
) -> (done: Result<(), StoreError>)
    ensures
        done == descriptor_check(state@, *header, policy, pin@),
{
    if !same_database(state, header) {
        return Err(StoreError::IdentityMismatch);
    }
    match policy {
        Ok(_) => {},
        Err(error) => {
            return Err(error);
        },
    }
    let (database, txid, history) = pin.endpoint();
    let size: LogicalBytes = pin.logical_size();
    let next: Option<u64> = txid.value.checked_add(1);
    let follows: bool = match next {
        Some(next) => next == header.start_txid,
        None => false,
    };
    if !same_bytes(database.bytes.as_slice(), header.database_id.as_slice()) || !follows
        || !same_bytes(history.bytes.as_slice(), header.base_history.as_slice()) || size.bytes
        != header.base_logical_size || size.page_size.value != header.page_size || !same_bytes(
        pin.id().bytes.as_slice(),
        header.parent_physical_digest.as_slice(),
    ) {
        return Err(StoreError::IdentityMismatch);
    }
    Ok(())
}

/// A refusal: nothing was done.
pub open spec fn refused(
    before: StateModel,
    after: StateModel,
    earlier: Seq<Event>,
    later: Seq<Event>,
) -> bool {
    after == before && later == earlier
}

/// What noting a seal that is about to be made comes to.
pub open spec fn seal_prepared(
    before: StateModel,
    after: StateModel,
    earlier: Seq<Event>,
    later: Seq<Event>,
    header: ActiveHeader,
    local: LocalAttachment<'_>,
    done: Result<(), StoreError>,
) -> bool {
    match attachment_check(before, header, local) {
        Err(error) => done == Err::<(), StoreError>(error) && refused(
            before,
            after,
            earlier,
            later,
        ),
        Ok(_) => state::publish_outcome(
            before.with_pending(Some(header)),
            after,
            earlier,
            later,
            done,
        ),
    }
}

/// Notes a seal that is about to be made, and publishes that.
pub fn prepare_seal<B: StorageBackend>(
    backend: &mut B,
    state: &mut State,
    header: &ActiveHeader,
    local: &LocalAttachment<'_>,
) -> (done: Result<(), StoreError>)
    ensures
        final(backend).namespace() == old(backend).namespace(),
        adapter::extends(old(backend).history(), final(backend).history()),
        seal_prepared(
            old(state)@,
            final(state)@,
            old(backend).history(),
            final(backend).history(),
            *header,
            *local,
            done,
        ),
{
    match validate_attachment(state, header, local) {
        Ok(_) => {},
        Err(error) => {
            return Err(error);
        },
    }
    state.pending = Some(*header);
    state.publish(backend)
}

/// What finishing a seal comes to, once the attachment was checked: a seal under
/// way becomes the finished one, if it is this one.
pub open spec fn seal_finished(
    before: StateModel,
    after: StateModel,
    earlier: Seq<Event>,
    later: Seq<Event>,
    header: ActiveHeader,
    done: Result<(), StoreError>,
) -> bool {
    match before.pending {
        None => done is Ok && refused(before, after, earlier, later),
        Some(pending) => if pending != header {
            done == Err::<(), StoreError>(StoreError::Busy) && refused(
                before,
                after,
                earlier,
                later,
            )
        } else {
            state::publish_outcome(
                StateModel { sealed: Some(pending), pending: None, ..before },
                after,
                earlier,
                later,
                done,
            )
        },
    }
}

/// Finishes a seal.
pub fn finish_seal<B: StorageBackend>(
    backend: &mut B,
    state: &mut State,
    header: &ActiveHeader,
    local: &LocalAttachment<'_>,
) -> (done: Result<(), StoreError>)
    ensures
        final(backend).namespace() == old(backend).namespace(),
        adapter::extends(old(backend).history(), final(backend).history()),
        match attachment_check(old(state)@, *header, *local) {
            Err(error) => done == Err::<(), StoreError>(error) && refused(
                old(state)@,
                final(state)@,
                old(backend).history(),
                final(backend).history(),
            ),
            Ok(_) => seal_finished(
                old(state)@,
                final(state)@,
                old(backend).history(),
                final(backend).history(),
                *header,
                done,
            ),
        },
{
    match validate_attachment(state, header, local) {
        Ok(_) => {},
        Err(error) => {
            return Err(error);
        },
    }
    match state.pending {
        None => Ok(()),
        Some(pending) => {
            if !pending.same(header) {
                return Err(StoreError::Busy);
            }
            state.sealed = Some(pending);
            state.pending = None;
            state.publish(backend)
        },
    }
}

/// What recovering from an interrupted seal comes to.
pub open spec fn seal_recovered(
    before: StateModel,
    after: StateModel,
    earlier: Seq<Event>,
    later: Seq<Event>,
    header: ActiveHeader,
    local: LocalAttachment<'_>,
    done: Result<(), StoreError>,
) -> bool {
    match attachment_check(before, header, local) {
        Err(error) => done == Err::<(), StoreError>(error) && refused(
            before,
            after,
            earlier,
            later,
        ),
        Ok(_) => if before.pending == Some(header) {
            seal_finished(before, after, earlier, later, header, done)
        } else if before.pending is Some && (before.sealed matches Some(sealed)
            ==> sealed.parent_physical_digest@ == header.parent_physical_digest@) {
            state::publish_outcome(before.with_pending(None), after, earlier, later, done)
        } else {
            done is Ok && refused(before, after, earlier, later)
        },
    }
}

/// Recovers from a seal that was interrupted. Where this seal was under way it is
/// finished; where another one was, and the previous attachment survived, it is
/// abandoned.
pub fn recover_seal<B: StorageBackend>(
    backend: &mut B,
    state: &mut State,
    header: &ActiveHeader,
    local: &LocalAttachment<'_>,
) -> (done: Result<(), StoreError>)
    ensures
        final(backend).namespace() == old(backend).namespace(),
        adapter::extends(old(backend).history(), final(backend).history()),
        seal_recovered(
            old(state)@,
            final(state)@,
            old(backend).history(),
            final(backend).history(),
            *header,
            *local,
            done,
        ),
{
    match validate_attachment(state, header, local) {
        Ok(_) => {},
        Err(error) => {
            return Err(error);
        },
    }
    let mine: bool = match &state.pending {
        Some(pending) => pending.same(header),
        None => false,
    };
    if mine {
        return finish_seal(backend, state, header, local);
    }
    let survived: bool = match &state.sealed {
        None => true,
        Some(sealed) => same_bytes(
            sealed.parent_physical_digest.as_slice(),
            header.parent_physical_digest.as_slice(),
        ),
    };
    if state.pending.is_some() && survived {
        state.pending = None;
        return state.publish(backend);
    }
    Ok(())
}

/// The attachment under which a namespace is taken for a database, or why it
/// cannot be: it is sealed already, or of another database, or attached
/// elsewhere. A namespace that has an attachment keeps it.
pub open spec fn claim_outcome(
    state: StateModel,
    database: DatabaseId,
    nonce: Seq<u8>,
    local: LocalAttachment<'_>,
) -> Result<Seq<u8>, StoreError> {
    let attachment = match state.attachment {
        Some(id) => id.bytes@,
        None => nonce,
    };
    if state.sealed is Some || (state.database matches Some(id) && id != database) {
        Err(StoreError::IdentityMismatch)
    } else if state.database is Some {
        match local.check(attachment) {
            Err(error) => Err(error),
            Ok(_) => Ok(attachment),
        }
    } else {
        Ok(attachment)
    }
}

/// Decides on the attachment under which a namespace is taken for a database. The
/// nonce is what a namespace without an attachment gets.
pub fn claim_namespace(
    state: &State,
    database: &DatabaseId,
    nonce: [u8; 32],
    local: &LocalAttachment<'_>,
) -> (attachment: Result<AttachmentId, StoreError>)
    ensures
        match attachment {
            Ok(a) => claim_outcome(state@, *database, nonce@, *local) == Ok::<Seq<u8>, StoreError>(
                a.bytes@,
            ),
            Err(e) => claim_outcome(state@, *database, nonce@, *local) == Err::<
                Seq<u8>,
                StoreError,
            >(e),
        },
{
    let other: bool = match &state.database {
        Some(id) => !id.same(database),
        None => false,
    };
    if state.sealed.is_some() || other {
        return Err(StoreError::IdentityMismatch);
    }
    let attachment: AttachmentId = match state.attachment {
        Some(id) => id,
        None => Id { bytes: nonce },
    };
    if state.database.is_some() {
        match local.validate(&attachment.bytes) {
            Ok(_) => {},
            Err(error) => {
                return Err(error);
            },
        }
    }
    Ok(attachment)
}

/// Publishes a namespace as taken for a database, once its attachment was
/// recorded locally.
pub fn commit_namespace<B: StorageBackend>(
    backend: &mut B,
    state: &mut State,
    database: DatabaseId,
    attachment: AttachmentId,
) -> (done: Result<(), StoreError>)
    ensures
        final(backend).namespace() == old(backend).namespace(),
        adapter::extends(old(backend).history(), final(backend).history()),
        state::publish_outcome(
            StateModel {
                database: Some(database),
                attachment: Some(attachment),
                ..old(state)@
            },
            final(state)@,
            old(backend).history(),
            final(backend).history(),
            done,
        ),
{
    state.database = Some(database);
    state.attachment = Some(attachment);
    state.publish(backend)
}

/// A header describes a view where it is of the namespace's database and the view's, names
/// the view's manifest, its history, its size and its page size, and goes on with the
/// transaction after its last; and where its policy is accepted.
pub proof fn law_header_describes_its_view(
    state: StateModel,
    header: ActiveHeader,
    policy: Result<(), StoreError>,
    pin: PinModel,
)
    requires
        descriptor_check(state, header, policy, pin) is Ok,
    ensures
        policy is Ok,
        state.database is Some && state.database->Some_0.bytes@ == header.database_id@,
        pin.metadata.view.database.bytes@ == header.database_id@,
        pin.metadata.view.txid.value + 1 == header.start_txid,
        pin.metadata.view.history.bytes@ == header.base_history@,
        pin.metadata.view.size.bytes == header.base_logical_size,
        pin.metadata.view.size.page_size.value == header.page_size,
        pin.id.bytes@ == header.parent_physical_digest@,
{
}

/// A pagefile is the attached one where it is of the namespace's database, holds the
/// head's attachment, and no local record says that the attachment is elsewhere. Another
/// database is told apart from a pagefile that was replaced.
pub proof fn law_attached_pagefile(
    state: StateModel,
    header: ActiveHeader,
    local: LocalAttachment<'_>,
)
    ensures
        attachment_check(state, header, local) is Ok <==> state.database is Some
            && state.database->Some_0.bytes@ == header.database_id@ && state.attachment is Some
            && state.attachment->Some_0.bytes@ == header.attachment_id@ && (local.found is Some
            ==> local.found->Some_0@ == location_record(local.home, header.attachment_id@, local.path@)),
        state.database is None || state.database->Some_0.bytes@ != header.database_id@
            ==> attachment_check(state, header, local) == Err::<(), StoreError>(
            StoreError::IdentityMismatch,
        ),
        state.database is Some && state.database->Some_0.bytes@ == header.database_id@
            && attachment_check(state, header, local) is Err ==> attachment_check(
            state,
            header,
            local,
        ) == Err::<(), StoreError>(StoreError::StaleAttachment),
{
}

/// A seal that is finished is the one that was under way: the head has it sealed then and
/// nothing under way. Another one is refused, and where none is under way nothing
/// happens.
pub proof fn law_finished_seal(
    before: StateModel,
    after: StateModel,
    earlier: Seq<Event>,
    later: Seq<Event>,
    header: ActiveHeader,
    done: Result<(), StoreError>,
)
    requires
        seal_finished(before, after, earlier, later, header, done),
    ensures
        before.pending == Some(header) ==> after.sealed == Some(header) && after.pending is None
            && after.attachment == before.attachment,
        before.pending is Some && before.pending != Some(header) ==> done == Err::<(), StoreError>(
            StoreError::Busy,
        ) && after == before && later == earlier,
        before.pending is None ==> done is Ok && after == before && later == earlier,
{
    if before.pending == Some(header) {
        let finished = StateModel { sealed: Some(header), pending: None, ..before };
        state::lemma_publication_keeps_heads(finished, after, earlier, later, done);
        assert(after.head().sealed == after.sealed && finished.head().sealed == finished.sealed);
        assert(after.head().pending == after.pending && finished.head().pending == finished.pending);
        assert(after.head().attachment == after.attachment && finished.head().attachment
            == finished.attachment);
    }
}

/// A seal that is noted is under way for the attached pagefile alone, and what is sealed
/// stays as it was; another pagefile is refused with nothing written.
pub proof fn law_prepared_seal(
    before: StateModel,
    after: StateModel,
    earlier: Seq<Event>,
    later: Seq<Event>,
    header: ActiveHeader,
    local: LocalAttachment<'_>,
    done: Result<(), StoreError>,
)
    requires
        seal_prepared(before, after, earlier, later, header, local, done),
    ensures
        attachment_check(before, header, local) is Ok ==> after.pending == Some(header)
            && after.sealed == before.sealed && after.attachment == before.attachment,
        attachment_check(before, header, local) is Err ==> done is Err && after == before && later
            == earlier,
{
    if attachment_check(before, header, local) is Ok {
        let noted = before.with_pending(Some(header));
        state::lemma_publication_keeps_heads(noted, after, earlier, later, done);
        assert(after.head().sealed == after.sealed && noted.head().sealed == noted.sealed);
        assert(after.head().pending == after.pending && noted.head().pending == noted.pending);
        assert(after.head().attachment == after.attachment && noted.head().attachment
            == noted.attachment);
    }
}

/// Recovery makes the pagefile's own seal the sealed one where it was under way. Another one
/// that was under way is dropped, and what is sealed stays, where the pagefile still goes on
/// with the sealed one's manifest or none is sealed. Otherwise nothing happens, and a pagefile
/// that is not the attached one is refused.
pub proof fn law_recovered_seal(
    before: StateModel,
    after: StateModel,
    earlier: Seq<Event>,
    later: Seq<Event>,
    header: ActiveHeader,
    local: LocalAttachment<'_>,
    done: Result<(), StoreError>,
)
    requires
        seal_recovered(before, after, earlier, later, header, local, done),
    ensures
        attachment_check(before, header, local) is Err ==> done is Err && after == before && later
            == earlier,
        attachment_check(before, header, local) is Ok && before.pending == Some(header)
            ==> after.sealed == Some(header) && after.pending is None,
        attachment_check(before, header, local) is Ok && before.pending is Some && before.pending
            != Some(header) && before.sealed is None ==> after.pending is None && after.sealed is None,
        attachment_check(before, header, local) is Ok && before.pending is Some && before.pending
            != Some(header) && before.sealed is Some
            && before.sealed->Some_0.parent_physical_digest@ == header.parent_physical_digest@
            ==> after.pending is None && after.sealed == before.sealed,
        attachment_check(before, header, local) is Ok && before.pending != Some(header)
            && before.sealed is Some && before.sealed->Some_0.parent_physical_digest@
            != header.parent_physical_digest@ ==> done is Ok && after == before && later == earlier,
        attachment_check(before, header, local) is Ok && before.pending is None ==> done is Ok
            && after == before && later == earlier,
{
    if attachment_check(before, header, local) is Ok {
        if before.pending == Some(header) {
            law_finished_seal(before, after, earlier, later, header, done);
        } else if before.pending is Some && (before.sealed matches Some(sealed)
            ==> sealed.parent_physical_digest@ == header.parent_physical_digest@) {
            let dropped = before.with_pending(None);
            state::lemma_publication_keeps_heads(dropped, after, earlier, later, done);
            assert(after.head().sealed == after.sealed && dropped.head().sealed == dropped.sealed);
            assert(after.head().pending == after.pending && dropped.head().pending
                == dropped.pending);
        }
    }
}

/// A namespace is taken for a database where nothing is sealed in it, it is of no database or
/// of that one, and no local record says that it is attached elsewhere; it keeps the
/// attachment that it has, and gets the fresh one where it has none.
pub proof fn law_claimed_namespace(
    state: StateModel,
    database: DatabaseId,
    nonce: Seq<u8>,
    local: LocalAttachment<'_>,
)
    ensures
        state.sealed is Some ==> claim_outcome(state, database, nonce, local) == Err::<
            Seq<u8>,
            StoreError,
        >(StoreError::IdentityMismatch),
        state.database is Some && state.database->Some_0 != database ==> claim_outcome(
            state,
            database,
            nonce,
            local,
        ) == Err::<Seq<u8>, StoreError>(StoreError::IdentityMismatch),
        state.sealed is None && state.database is None && state.attachment is None ==> claim_outcome(
            state,
            database,
            nonce,
            local,
        ) == Ok::<Seq<u8>, StoreError>(nonce),
        state.sealed is None && state.attachment is Some && (state.database is None || (
        state.database == Some(database) && local.found is None)) ==> claim_outcome(
            state,
            database,
            nonce,
            local,
        ) == Ok::<Seq<u8>, StoreError>(state.attachment->Some_0.bytes@),
        claim_outcome(state, database, nonce, local) is Ok && state.database is Some && local.found
            is Some ==> local.found->Some_0@ == location_record(
            local.home,
            claim_outcome(state, database, nonce, local)->Ok_0,
            local.path@,
        ),
{
}

} // verus!
