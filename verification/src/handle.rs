//! Heads of a namespace, and what a new local pagefile starts from.

use crate::adapter;
use crate::adapter::{Event, StorageBackend};
use crate::bytes;
use crate::bytes::{copied, same_bytes};
use crate::catalog;
use crate::catalog::{HEAD_NAMES, Head, MAIN, as_text, validate_head};
use crate::digest;
use crate::digest::hash;
use crate::domain::{AttachmentId, BackendId, DatabaseId, Id, LINEAGE, ManifestId, PageNumber};
use crate::error::StoreError;
use crate::fetch::Replay;
use crate::format::{ActiveHeader, ActiveState};
use crate::frame;
use crate::objects;
use crate::objects::{LocalAttachment, validate_descriptor};
use crate::opening;
use crate::order;
use crate::order::{OrderedMap, OrderedSet};
use crate::page::ResolvedPage;
use crate::pinned::{PinModel, PinnedView};
use crate::retention::pin;
use crate::state;
use crate::state::{State, StateModel};
use crate::text;
use crate::text::hex;
use crate::trace;
use crate::trace::check_policy;
use vstd::prelude::*;
use vstd::slice::slice_subrange;

verus! {

/// Why a head cannot be made.
pub const HEAD_EXISTS: &'static str = "head already exists";

/// `SQLite format 3\0`.
pub const SQLITE_MAGIC: [u8; 16] = [83, 81, 76, 105, 116, 101, 32, 102, 111, 114, 109, 97, 116, 32, 51, 0];

/// The least length of the first page of a database.
pub const SQLITE_HEADER_SIZE: usize = 100;

impl StateModel {
    /// The state with another head.
    pub open spec fn with_head(self, name: Seq<u8>, head: Head) -> StateModel {
        StateModel { heads: self.heads.with(name, head.record()), ..self }
    }

    /// The state with the selected head emptied.
    pub open spec fn headless(self) -> StateModel {
        StateModel { attachment: None, sealed: None, pending: None, ..self }
    }
}

/// A view by what it says.
pub open spec fn pin_seen(view: Result<PinnedView, StoreError>) -> Result<PinModel, StoreError> {
    match view {
        Ok(pin) => Ok(pin@),
        Err(error) => Err(error),
    }
}

/// The name of the directory in which the users of a head coordinate. The main
/// head has none of its own.
pub fn head_directory(name: &[u8]) -> (directory: Result<Option<String>, StoreError>)
    ensures
        match directory {
            Err(e) => !catalog::head_name(name@) && e == StoreError::InvalidConfiguration(HEAD_NAMES),
            Ok(None) => name@ == MAIN@,
            Ok(Some(text)) => catalog::head_name(name@) && name@ != MAIN@ && text::spells(
                text@,
                text::hex_text(digest::content_hash(name@)),
            ),
        },
{
    match validate_head(name) {
        Ok(_) => {},
        Err(error) => {
            return Err(error);
        },
    }
    if same_bytes(name, MAIN.as_slice()) {
        return Ok(None);
    }
    let id: Id<LINEAGE> = Id { bytes: hash(name) };
    Ok(Some(hex(&id)))
}

/// Pins the view that a sealed header continues, if the header describes it.
pub fn pin_described<B: StorageBackend>(
    backend: &mut B,
    state: &State,
    accepted: &OrderedSet<Vec<u8>>,
    header: &ActiveHeader,
) -> (view: Result<PinnedView, StoreError>)
    ensures
        final(backend).namespace() == old(backend).namespace(),
        adapter::extends(old(backend).history(), final(backend).history()),
        adapter::quiet(old(backend).history(), final(backend).history()),
        (view matches Err(e) && opening::unopened(e, old(backend).history(), final(backend).history())) || trace::described_replay(
            final(backend).history(),
            old(backend).history().len() as int,
            state@,
            accepted@,
            *header,
        ) == Replay::Done(pin_seen(view), final(backend).history().len() as int),
        view matches Ok(v) ==> v.at_home() == old(backend).namespace(),
{
    let id: ManifestId = Id { bytes: header.parent_physical_digest };
    proof {
        frame::lemma_id_of(id);
    }
    let view: PinnedView = pin(backend, state, id)?;
    let policy: Result<(), StoreError> = check_policy(accepted, header);
    match validate_descriptor(state, header, policy, &view) {
        Err(error) => Err(error),
        Ok(_) => Ok(view),
    }
}

/// What a fork of the selected head came to.
pub open spec fn forked(
    before: StateModel,
    after: StateModel,
    earlier: Seq<Event>,
    later: Seq<Event>,
    accepted: Set<Seq<u8>>,
    name: Seq<u8>,
    done: Result<(), StoreError>,
) -> bool {
    let kept = after == before && later == earlier;
    if !catalog::head_name(name) {
        kept && done == Err::<(), StoreError>(
            StoreError::InvalidConfiguration(catalog::HEAD_NAMES),
        )
    } else if before.heads.entries.dom().contains(name) {
        kept && done == Err::<(), StoreError>(StoreError::InvalidConfiguration(HEAD_EXISTS))
    } else {
        match before.sealed {
            None => kept && done == Err::<(), StoreError>(StoreError::NoSealedHead),
            Some(header) => {
                ||| unpinned(before, after, earlier, later, accepted, header, done)
                ||| exists|middle: Seq<Event>, view: PinModel| #[trigger]
                    pinned_by(before, earlier, middle, accepted, header, view)
                        && state::confirmed_outcome(
                        before.with_head(
                            name,
                            Head { attachment: None, sealed: Some(header), pending: None },
                        ),
                        after,
                        middle,
                        later,
                        done,
                    )
            },
        }
    }
}

/// The view that a header continues could not be pinned.
pub open spec fn unpinned(
    before: StateModel,
    after: StateModel,
    earlier: Seq<Event>,
    later: Seq<Event>,
    accepted: Set<Seq<u8>>,
    header: ActiveHeader,
    done: Result<(), StoreError>,
) -> bool {
    match done {
        Ok(_) => false,
        Err(e) => after == before && adapter::quiet(earlier, later) && (opening::unopened(e, earlier, later)
            || trace::described_replay(later, earlier.len() as int, before, accepted, header)
            == Replay::Done(Err::<PinModel, StoreError>(e), later.len() as int)),
    }
}

/// The view that a header continues was pinned.
pub open spec fn pinned_by(
    state: StateModel,
    earlier: Seq<Event>,
    later: Seq<Event>,
    accepted: Set<Seq<u8>>,
    header: ActiveHeader,
    view: PinModel,
) -> bool {
    adapter::quiet(earlier, later) && trace::described_replay(
        later,
        earlier.len() as int,
        state,
        accepted,
        header,
    ) == Replay::Done(Ok::<PinModel, StoreError>(view), later.len() as int)
}

/// Makes another head at the sealed view of the selected one. Its objects are
/// shared.
pub fn fork<B: StorageBackend>(
    backend: &mut B,
    state: &mut State,
    accepted: &OrderedSet<Vec<u8>>,
    name: &[u8],
) -> (done: Result<(), StoreError>)
    ensures
        final(backend).namespace() == old(backend).namespace(),
        adapter::extends(old(backend).history(), final(backend).history()),
        forked(
            old(state)@,
            final(state)@,
            old(backend).history(),
            final(backend).history(),
            accepted@,
            name@,
            done,
        ),
{
    match validate_head(name) {
        Ok(_) => {},
        Err(error) => {
            return Err(error);
        },
    }
    let key: Vec<u8> = copied(name);
    if state.heads.entries().contains_key(&key) {
        return Err(StoreError::InvalidConfiguration(HEAD_EXISTS));
    }
    let header: ActiveHeader = match state.sealed {
        Some(header) => header,
        None => {
            return Err(StoreError::NoSealedHead);
        },
    };
    let view: Result<PinnedView, StoreError> = pin_described(backend, state, accepted, &header);
    let view: PinnedView = match view {
        Ok(view) => view,
        Err(error) => {
            return Err(error);
        },
    };
    let ghost middle = backend.history();
    assert(pinned_by(
        old(state)@,
        old(backend).history(),
        middle,
        accepted@,
        header,
        view@,
    ));
    let head: Head = Head { attachment: None, sealed: Some(header), pending: None };
    state.heads.insert(key, head.encode());
    assert(state@ =~= old(state)@.with_head(name@, head));
    state.publish_confirmed(backend)
}

/// A fork starts at what the source has sealed, and leaves the source as it was.
pub proof fn law_fork_shares_the_seal(before: StateModel, name: Seq<u8>, header: ActiveHeader)
    requires
        before.sealed == Some(header),
        catalog::header_belongs(Some(header), before.database),
    ensures
        ({
            let after = before.with_head(
                name,
                Head { attachment: None, sealed: Some(header), pending: None },
            );
            &&& catalog::head_parse(after.heads.entries[name], after.database) == Ok::<
                Head,
                StoreError,
            >(Head { attachment: None, sealed: Some(header), pending: None })
            &&& after.sealed == before.sealed
            &&& after.attachment == before.attachment
            &&& after.pending == before.pending
            &&& forall|other: Seq<u8>|
                other != name ==> (#[trigger] after.heads.entries.dom().contains(other)
                    <==> before.heads.entries.dom().contains(other)) && after.heads.entries[other]
                    == before.heads.entries[other]
        }),
{
    catalog::law_head_round_trip(
        Head { attachment: None, sealed: Some(header), pending: None },
        before.database,
    );
}

/// A fork adds the new name to the list of heads, with what the selected head has
/// sealed and nothing else, and leaves the selected head and the others as they
/// are. Where the name is taken, or nothing is sealed, it changes nothing.
pub proof fn law_fork_adds_a_head(
    before: StateModel,
    after: StateModel,
    earlier: Seq<Event>,
    later: Seq<Event>,
    accepted: Set<Seq<u8>>,
    name: Seq<u8>,
    done: Result<(), StoreError>,
)
    requires
        forked(before, after, earlier, later, accepted, name, done),
        before.noted() == before,
    ensures
        done is Ok ==> {
            &&& catalog::head_name(name)
            &&& before.sealed is Some
            &&& !before.heads.entries.dom().contains(name)
            &&& after.heads.entries == before.heads.entries.insert(
                name,
                (Head { attachment: None, sealed: before.sealed, pending: None }).record(),
            )
            &&& after.head() == before.head()
            &&& after.selected == before.selected
        },
        !catalog::head_name(name) || before.heads.entries.dom().contains(name)
            || before.sealed is None ==> done is Err && after == before && later == earlier,
{
    if done is Ok {
        let header = before.sealed->Some_0;
        let head = Head { attachment: None, sealed: Some(header), pending: None };
        let (middle, view) = choose|middle: Seq<Event>, view: PinModel| #[trigger]
            pinned_by(before, earlier, middle, accepted, header, view)
                && state::confirmed_outcome(before.with_head(name, head), after, middle, later, done);
        state::law_publication_keeps_the_head(
            before.with_head(name, head),
            after,
            middle,
            later,
            done,
        );
        assert(before.head() != Head::vacant());
        assert(before.heads.with(before.name(), before.head().record()) == before.heads);
        assert(before.heads.entries.dom().contains(before.name()));
        assert(before.name() != name);
        assert(before.with_head(name, head).noted().heads.entries
            =~= before.heads.entries.insert(name, head.record()));
    }
}

/// Once a head is removed its name is gone from the list, the other heads are as
/// they were, and no pagefile is attached to it. The last head, and one that is not
/// listed, are not removed, and nothing changes then.
pub proof fn law_removal_takes_the_head_away(
    before: StateModel,
    after: StateModel,
    earlier: Seq<Event>,
    later: Seq<Event>,
    done: Result<(), StoreError>,
    header: ActiveHeader,
    local: LocalAttachment<'_>,
)
    requires
        !before.uncertain,
        removed(before, after, earlier, later, done),
    ensures
        done is Ok ==> {
            &&& order::listing::<Vec<u8>, Seq<u8>>(before.heads.entries).len() > 1
            &&& before.heads.entries.dom().contains(before.selected)
            &&& after.heads.entries == before.heads.entries.remove(before.name())
            &&& after.head() == Head::vacant()
            &&& objects::attachment_check(after, header, local) is Err
        },
        done is Ok && (before.database matches Some(id) && id.bytes@ == header.database_id@)
            ==> objects::attachment_check(after, header, local) == Err::<(), StoreError>(
            StoreError::StaleAttachment,
        ),
        order::listing::<Vec<u8>, Seq<u8>>(before.heads.entries).len() <= 1
            || !before.heads.entries.dom().contains(before.selected) ==> done is Err && after
            == before && later == earlier,
{
    if order::listing::<Vec<u8>, Seq<u8>>(before.heads.entries).len() > 1
        && before.heads.entries.dom().contains(before.selected) {
        state::law_publication_keeps_the_head(before.headless(), after, earlier, later, done);
        assert(before.headless().head() == Head::vacant());
        assert(before.heads.entries.remove(before.name())
            =~= before.headless().noted().heads.entries);
        assert(after.head().attachment == after.attachment);
    }
}

/// A claim fences off every pagefile that was attached before: a header that does
/// not carry the new nonce is stale, and so is a record of another place, under
/// the same nonce or another.
pub proof fn law_claim_fences_the_others(
    before: StateModel,
    after: StateModel,
    earlier: Seq<Event>,
    later: Seq<Event>,
    nonce: [u8; 32],
    done: Result<(), StoreError>,
    header: ActiveHeader,
    local: LocalAttachment<'_>,
)
    requires
        state::confirmed_outcome(
            (StateModel { attachment: Some(Id { bytes: nonce }), ..before }),
            after,
            earlier,
            later,
            done,
        ),
        before.database matches Some(id) && id.bytes@ == header.database_id@,
    ensures
        objects::attachment_check(after, header, local) == if header.attachment_id@ != nonce@ {
            Err::<(), StoreError>(StoreError::StaleAttachment)
        } else {
            local.check(nonce@)
        },
{
    let claimed = StateModel { attachment: Some(Id { bytes: nonce }), ..before };
    state::law_publication_keeps_the_head(claimed, after, earlier, later, done);
    assert(after.head().attachment == after.attachment);
    assert(claimed.head().attachment == claimed.attachment);
}

/// A copy of a pagefile at another place does not pass for the one that was
/// recorded.
pub proof fn law_copy_is_stale(
    home: BackendId,
    attachment: Seq<u8>,
    recorded: Seq<u8>,
    path: Seq<u8>,
)
    requires
        attachment.len() == 32,
    ensures
        objects::local_check(
            Some(objects::location_record(home, attachment, recorded)),
            objects::location_record(home, attachment, path),
        ) == if path == recorded {
            Ok::<(), StoreError>(())
        } else {
            Err(StoreError::StaleAttachment)
        },
{
    let one = objects::location_record(home, attachment, recorded);
    let other = objects::location_record(home, attachment, path);
    if one == other {
        assert(one.subrange(64, one.len() as int) =~= recorded);
        assert(other.subrange(64, other.len() as int) =~= path);
    }
}

/// What removing the selected head came to. The last head stays.
pub open spec fn removed(
    before: StateModel,
    after: StateModel,
    earlier: Seq<Event>,
    later: Seq<Event>,
    done: Result<(), StoreError>,
) -> bool {
    let kept = after == before && later == earlier;
    if order::listing::<Vec<u8>, Seq<u8>>(before.heads.entries).len() <= 1 {
        kept && done == Err::<(), StoreError>(StoreError::Busy)
    } else if !before.heads.entries.dom().contains(before.selected) {
        kept && done == Err::<(), StoreError>(StoreError::NoSealedHead)
    } else {
        state::confirmed_outcome(before.headless(), after, earlier, later, done)
    }
}

/// Removes the selected head, unless it is the last one.
pub fn remove_head<B: StorageBackend>(backend: &mut B, state: &mut State) -> (done: Result<
    (),
    StoreError,
>)
    ensures
        final(backend).namespace() == old(backend).namespace(),
        adapter::extends(old(backend).history(), final(backend).history()),
        removed(
            old(state)@,
            final(state)@,
            old(backend).history(),
            final(backend).history(),
            done,
        ),
{
    if state.heads.entries().len() <= 1 {
        return Err(StoreError::Busy);
    }
    if !state.heads.entries().contains_key(&state.selected) {
        return Err(StoreError::NoSealedHead);
    }
    state.attachment = None;
    state.sealed = None;
    state.pending = None;
    assert(state@ =~= old(state)@.headless());
    state.publish_confirmed(backend)
}

/// Whether a namespace can take a new database.
pub open spec fn vacancy(state: StateModel) -> Result<(), StoreError> {
    if state.database is Some {
        Err(StoreError::Busy)
    } else {
        Ok(())
    }
}

/// Tests that a namespace is of no database yet.
pub fn check_vacant(state: &State) -> (vacant: Result<(), StoreError>)
    ensures
        vacant == vacancy(state@),
{
    if state.database.is_some() {
        return Err(StoreError::Busy);
    }
    Ok(())
}

/// A namespace that was taken for a database is of that one: it can take no new one,
/// another database cannot claim it, and a pagefile at another place cannot either.
pub proof fn law_namespace_has_one_database(
    before: StateModel,
    after: StateModel,
    earlier: Seq<Event>,
    later: Seq<Event>,
    database: DatabaseId,
    attachment: AttachmentId,
    done: Result<(), StoreError>,
    claimant: DatabaseId,
    nonce: Seq<u8>,
    local: LocalAttachment<'_>,
)
    requires
        state::publish_outcome(
            (StateModel { database: Some(database), attachment: Some(attachment), ..before }),
            after,
            earlier,
            later,
            done,
        ),
    ensures
        vacancy(after) == Err::<(), StoreError>(StoreError::Busy),
        objects::claim_outcome(after, claimant, nonce, local) == if before.sealed is Some || claimant
            != database {
            Err::<Seq<u8>, StoreError>(StoreError::IdentityMismatch)
        } else {
            match local.check(attachment.bytes@) {
                Err(error) => Err(error),
                Ok(_) => Ok(attachment.bytes@),
            }
        },
{
    let taken = StateModel { database: Some(database), attachment: Some(attachment), ..before };
    state::lemma_publication_keeps_heads(taken, after, earlier, later, done);
    assert(after.head().attachment == after.attachment && after.head().sealed == after.sealed);
    assert(taken.head().attachment == taken.attachment && taken.head().sealed == taken.sealed);
}

/// The names of the heads.
pub fn heads(state: &State) -> (names: Result<Vec<String>, StoreError>)
    ensures
        ({
            let list = order::listing::<Vec<u8>, Seq<u8>>(state@.heads.entries);
            match names {
                Ok(n) => n@.len() == list.len() && forall|i: int|
                    0 <= i < list.len() ==> vstd::utf8::encode_utf8((#[trigger] n@[i])@) == list[i].0,
                Err(e) => e == StoreError::Corrupt(0) && exists|i: int|
                    0 <= i < list.len() && !vstd::utf8::valid_utf8((#[trigger] list[i]).0),
            }
        }),
{
    let entries: &OrderedMap<Vec<u8>, Vec<u8>> = state.heads.entries();
    let ghost list = entries.pairs();
    let count: usize = entries.len();
    let mut names: Vec<String> = Vec::new();
    let mut i: usize = 0;
    while i < count
        invariant
            i <= count,
            count == list.len(),
            list == entries.pairs(),
            list == order::listing::<Vec<u8>, Seq<u8>>(state@.heads.entries),
            names@.len() == i,
            forall|j: int|
                0 <= j < i ==> vstd::utf8::encode_utf8((#[trigger] names@[j])@) == list[j].0,
        decreases count - i,
    {
        let key: &Vec<u8> = entries.key_at(i);
        match as_text(key.as_slice()) {
            Some(text) => {
                names.push(text.to_owned());
            },
            None => {
                assert(!vstd::utf8::valid_utf8(list[i as int].0));
                return Err(StoreError::Corrupt(0));
            },
        }
        i += 1;
    }
    Ok(names)
}

/// The page size that the first page of a database states.
pub open spec fn stated_size(page: Seq<u8>) -> int {
    let size = page[16] * 256 + page[17];
    if size == 1 {
        65536
    } else {
        size
    }
}

/// A page is the first one of a standard database with this page size.
pub open spec fn standard_page(page: Seq<u8>, page_size: u32) -> bool {
    &&& page.len() >= SQLITE_HEADER_SIZE
    &&& page.take(16) == SQLITE_MAGIC@
    &&& stated_size(page) == page_size
}

/// Whether a page is the first one of a standard database.
pub fn is_standard(page: &[u8], page_size: u32) -> (standard: bool)
    ensures
        standard == standard_page(page@, page_size),
{
    if page.len() < SQLITE_HEADER_SIZE {
        return false;
    }
    let magic: &[u8] = slice_subrange(page, 0, 16);
    assert(magic@ =~= page@.take(16));
    let size: u32 = page[16] as u32 * 256 + page[17] as u32;
    let stated: u32 = if size == 1 {
        65536
    } else {
        size
    };
    same_bytes(magic, SQLITE_MAGIC.as_slice()) && stated == page_size
}

/// The first page of a view, where it has pages, was read and is that of a
/// standard database.
pub open spec fn first_page_read(
    pin: &PinnedView,
    header: ActiveHeader,
    earlier: Seq<Event>,
    later: Seq<Event>,
    done: Result<(), StoreError>,
) -> bool {
    let view = pin@.metadata.view;
    let first = PageNumber { value: 1 };
    if view.size.count() == 0 {
        done is Ok && later == earlier
    } else if !view.pages.dom().contains(first) {
        done == Err::<(), StoreError>(StoreError::InvalidStandardDatabase) && later == earlier
    } else {
        let location = view.frames[view.pages[first].frame];
        ||| done matches Err(e) && crate::repack::frame_refused(
            later,
            earlier.len() as int,
            pin.chosen(),
            pin@.dictionaries,
            location,
            e,
        )
        ||| crate::repack::frame_replay(
            later,
            earlier.len() as int,
            pin.chosen(),
            pin@.dictionaries,
            location,
        ) matches Replay::Done(Ok((_, raw)), next) && next == later.len() && done == if standard_page(
            location.frame.slot(raw, view.pages[first].slot.index as int),
            header.page_size,
        ) {
            Ok::<(), StoreError>(())
        } else {
            Err::<(), StoreError>(StoreError::InvalidStandardDatabase)
        }
    }
}

fn check_first_page<B: StorageBackend>(backend: &mut B, pin: &PinnedView, header: &ActiveHeader) -> (done:
    Result<(), StoreError>)
    ensures
        final(backend).namespace() == old(backend).namespace(),
        adapter::extends(old(backend).history(), final(backend).history()),
        adapter::quiet(old(backend).history(), final(backend).history()),
        first_page_read(
            pin,
            *header,
            old(backend).history(),
            final(backend).history(),
            done,
        ),
{
    let ghost view = pin@.metadata.view;
    if pin.logical_size().pages() == 0 {
        return Ok(());
    }
    let first: PageNumber = PageNumber { value: 1 };
    match pin.resolve(first) {
        Ok(ResolvedPage::Zero(zero)) => {
            let page: Result<Vec<u8>, StoreError> = ResolvedPage::Zero(zero).read(backend);
            proof {
                let none = bytes::zeros(view.size.page_size.value as nat);
                assert(none.take(16)[0] == 0);
                assert(SQLITE_MAGIC@[0] == 83);
            }
            match page {
                Ok(page) => {
                    if !is_standard(page.as_slice(), header.page_size) {
                        return Err(StoreError::InvalidStandardDatabase);
                    }
                    assert(false);
                    Ok(())
                },
                Err(error) => {
                    assert(false);
                    Err(error)
                },
            }
        },
        Ok(ResolvedPage::Stored(stored)) => {
            let read: Result<Vec<u8>, StoreError> = stored.read(backend);
            match read {
                Ok(page) => {
                    if !is_standard(page.as_slice(), header.page_size) {
                        assert(!standard_page(page@, header.page_size));
                        return Err(StoreError::InvalidStandardDatabase);
                    }
                    Ok(())
                },
                Err(error) => Err(error),
            }
        },
        Err(error) => {
            assert(false);
            Err(error)
        },
    }
}

/// The first record of a pagefile that continues a header: one transaction
/// before the header's first.
pub open spec fn first_state(header: ActiveHeader) -> Result<ActiveState, StoreError> {
    if header.start_txid == 0 {
        Err(StoreError::Range)
    } else {
        Ok(
            ActiveState {
                database_id: header.database_id,
                sequence: 1,
                txid: (header.start_txid - 1) as u64,
                logical_size: header.base_logical_size,
                page_size: header.page_size,
                history: header.base_history,
                commit_unix: 0,
                record_count: 0,
                truncate_pages: None,
            },
        )
    }
}

/// The header of a new pagefile and the first record behind it.
pub fn pagefile(header: &ActiveHeader, nonce: [u8; 32]) -> (file: Result<
    (ActiveHeader, ActiveState),
    StoreError,
>)
    ensures
        match file {
            Ok((h, s)) => first_state(*header) == Ok::<ActiveState, StoreError>(s) && h == (
            ActiveHeader { attachment_id: nonce, ..*header }),
            Err(e) => first_state(*header) == Err::<ActiveState, StoreError>(e),
        },
{
    let txid: u64 = match header.start_txid.checked_sub(1) {
        Some(txid) => txid,
        None => {
            return Err(StoreError::Range);
        },
    };
    let mut claimed: ActiveHeader = *header;
    claimed.attachment_id = nonce;
    Ok(
        (
            claimed,
            ActiveState {
                database_id: header.database_id,
                sequence: 1,
                txid,
                logical_size: header.base_logical_size,
                page_size: header.page_size,
                history: header.base_history,
                commit_unix: 0,
                record_count: 0,
                truncate_pages: None,
            },
        ),
    )
}

/// What a new pagefile continues: the sealed header and its view.
pub struct Bootstrap {
    pub header: ActiveHeader,
    pub view: PinnedView,
}

/// The view that a header continues was pinned, and its first page looked at.
pub open spec fn looked_at(
    state: StateModel,
    accepted: Set<Seq<u8>>,
    header: ActiveHeader,
    earlier: Seq<Event>,
    later: Seq<Event>,
    view: &PinnedView,
    done: Result<(), StoreError>,
) -> bool {
    exists|middle: Seq<Event>| #[trigger]
        pinned_by(state, earlier, middle, accepted, header, view@) && first_page_read(
            view,
            header,
            middle,
            later,
            done,
        )
}

/// What preparing a new pagefile came to.
pub open spec fn prepared(
    state: StateModel,
    accepted: Set<Seq<u8>>,
    earlier: Seq<Event>,
    later: Seq<Event>,
    done: Result<Bootstrap, StoreError>,
) -> bool {
    match state.sealed {
        None => later == earlier && (done matches Err(e) && e == StoreError::NoSealedHead),
        Some(header) => match done {
            Ok(found) => found.header == header && looked_at(
                state,
                accepted,
                header,
                earlier,
                later,
                &found.view,
                Ok(()),
            ),
            Err(e) => unpinned(state, state, earlier, later, accepted, header, Err(e)) || exists|
                view: PinnedView,
            | #[trigger]
                looked_at(state, accepted, header, earlier, later, &view, Err(e)),
        },
    }
}

/// Finds what a new pagefile continues: the sealed view of the selected head,
/// which must be a standard database. Nothing is changed.
pub fn bootstrap<B: StorageBackend>(
    backend: &mut B,
    state: &State,
    accepted: &OrderedSet<Vec<u8>>,
) -> (found: Result<Bootstrap, StoreError>)
    ensures
        final(backend).namespace() == old(backend).namespace(),
        adapter::extends(old(backend).history(), final(backend).history()),
        adapter::quiet(old(backend).history(), final(backend).history()),
        prepared(
            state@,
            accepted@,
            old(backend).history(),
            final(backend).history(),
            found,
        ),
{
    let header: ActiveHeader = match state.sealed {
        Some(header) => header,
        None => {
            return Err(StoreError::NoSealedHead);
        },
    };
    let pinned: Result<PinnedView, StoreError> = pin_described(backend, state, accepted, &header);
    let view: PinnedView = match pinned {
        Ok(view) => view,
        Err(error) => {
            return Err(error);
        },
    };
    let ghost middle = backend.history();
    assert(pinned_by(
        state@,
        old(backend).history(),
        middle,
        accepted@,
        header,
        view@,
    ));
    match check_first_page(backend, &view, &header) {
        Ok(unit) => {
            assert(unit == ());
        },
        Err(error) => {
            assert(looked_at(
                state@,
                accepted@,
                header,
                old(backend).history(),
                backend.history(),
                &view,
                Err(error),
            ));
            return Err(error);
        },
    }
    assert(looked_at(
        state@,
        accepted@,
        header,
        old(backend).history(),
        backend.history(),
        &view,
        Ok(()),
    ));
    Ok(Bootstrap { header, view })
}

/// Claims the selected head for a pagefile. The pagefiles that claimed it before
/// are stale then; what is sealed stays.
pub fn claim<B: StorageBackend>(backend: &mut B, state: &mut State, nonce: [u8; 32]) -> (done: Result<
    (),
    StoreError,
>)
    ensures
        final(backend).namespace() == old(backend).namespace(),
        adapter::extends(old(backend).history(), final(backend).history()),
        state::confirmed_outcome(
            (StateModel { attachment: Some(Id { bytes: nonce }), ..old(state)@ }),
            final(state)@,
            old(backend).history(),
            final(backend).history(),
            done,
        ),
{
    let attachment: AttachmentId = Id { bytes: nonce };
    state.attachment = Some(attachment);
    assert(state@ =~= (StateModel { attachment: Some(attachment), ..old(state)@ }));
    state.publish_confirmed(backend)
}

/// Once a new pagefile is in place, a seal that another one left unfinished is
/// given up.
pub fn settle<B: StorageBackend>(backend: &mut B, state: &mut State) -> (done: Result<
    (),
    StoreError,
>)
    ensures
        final(backend).namespace() == old(backend).namespace(),
        adapter::extends(old(backend).history(), final(backend).history()),
        if old(state)@.pending is None {
            done is Ok && final(state)@ == old(state)@ && final(backend).history() == old(
                backend).history()
        } else {
            state::confirmed_outcome(
                (StateModel { pending: None, ..old(state)@ }),
                final(state)@,
                old(backend).history(),
                final(backend).history(),
                done,
            )
        },
{
    if state.pending.is_none() {
        return Ok(());
    }
    state.pending = None;
    assert(state@ =~= (StateModel { pending: None, ..old(state)@ }));
    state.publish_confirmed(backend)
}

/// A pagefile that claimed a head before another one did is stale.
pub proof fn law_claim_fences(state: StateModel, header: ActiveHeader, nonce: [u8; 32])
    requires
        header.attachment_id@ != nonce@,
        state.database matches Some(id) && id.bytes@ == header.database_id@,
    ensures
        forall|local: crate::objects::LocalAttachment<'_>| #[trigger]
            crate::objects::attachment_check(
                (StateModel { attachment: Some(Id { bytes: nonce }), ..state }),
                header,
                local,
            ) == Err::<(), StoreError>(StoreError::StaleAttachment),
{
}

/// A new pagefile starts behind the last transaction that its header continues: it has
/// the database, the size, the page size and the history of the header, and no change of
/// its own. Only the attachment is new.
pub proof fn law_new_pagefile_holds_no_change(header: ActiveHeader)
    requires
        header.start_txid > 0,
    ensures
        first_state(header) matches Ok(first) && first.txid + 1 == header.start_txid
            && first.database_id == header.database_id && first.logical_size
            == header.base_logical_size && first.page_size == header.page_size && first.history
            == header.base_history && first.sequence == 1 && first.record_count == 0
            && first.truncate_pages is None,
{
}

/// A standard database starts with the sixteen bytes of its magic, and states its page
/// size behind them, high byte first; a stated size of one means the largest.
pub proof fn law_standard_database(page: Seq<u8>, page_size: u32)
    ensures
        standard_page(page, page_size) <==> page.len() >= 100 && page.take(16) == SQLITE_MAGIC@ && (
        page[16] * 256 + page[17] == page_size && page_size != 1 || (page[16] == 0 && page[17] == 1
            && page_size == 65536)),
{
}

/// What a new pagefile continues is what the head has sealed: the header that it sealed,
/// with a view that the header describes. Without a sealed head there is nothing.
pub proof fn law_bootstrap_continues_the_seal(
    state: StateModel,
    accepted: Set<Seq<u8>>,
    earlier: Seq<Event>,
    later: Seq<Event>,
    done: Result<Bootstrap, StoreError>,
)
    requires
        prepared(state, accepted, earlier, later, done),
    ensures
        state.sealed is None ==> done is Err && done->Err_0 == StoreError::NoSealedHead && later
            == earlier,
        done matches Ok(found) ==> state.sealed == Some(found.header) && exists|middle: Seq<Event>|
            #[trigger] pinned_by(state, earlier, middle, accepted, found.header, found.view@),
{
}

} // verus!
