//! The state of a namespace: five indexes behind one conditional root.

use crate::adapter;
use crate::adapter::{
    BackendError, Event, ObjectKey, Publication, Revision, RootModel, RootRecord, StorageBackend,
};
use crate::bytes::{append, copied, same_bytes};
use crate::catalog;
use crate::catalog::{
    HEAD_NAMES, Head, MAIN, ROOT_MAGIC, as_text, read_option, validate_head, write_option,
};
use crate::digest;
use crate::digest::hash;
use crate::domain::{AttachmentId, DATABASE, DatabaseId, IndexId};
use crate::error::StoreError;
use crate::fetch::Replay;
use crate::format::ActiveHeader;
use crate::index;
use crate::index::{Index, IndexModel, read_choice, write_choice};
use crate::opening;
use crate::order;
use crate::order::{OrderedMap, OrderedSet};
use crate::wire;
use crate::wire::Decoder;
use vstd::prelude::*;
use vstd::slice::slice_subrange;

verus! {

/// What a root names.
#[derive(Clone, Copy, Debug, PartialEq, Eq)]
pub struct RootParts {
    pub database: Option<DatabaseId>,
    pub placements: Option<IndexId>,
    pub endpoints: Option<IndexId>,
    pub retentions: Option<IndexId>,
    pub advisory: Option<IndexId>,
    pub heads: Option<IndexId>,
}

impl RootParts {
    pub open spec fn names(self) -> Seq<u8> {
        catalog::option_bytes(self.database) + index::choice_bytes(self.placements) + index::choice_bytes(self.endpoints)
            + index::choice_bytes(self.retentions) + index::choice_bytes(self.advisory) + index::choice_bytes(self.heads)
    }

    /// The bytes of a root that names these.
    pub open spec fn record(self) -> Seq<u8> {
        ROOT_MAGIC@ + self.names() + digest::content_hash(ROOT_MAGIC@ + self.names())
    }
}

/// The body of a root: what stands between its magic and its digest.
pub open spec fn root_body(bytes: Seq<u8>) -> Result<Seq<u8>, StoreError> {
    if bytes.len() < 40 || bytes.subrange(0, 8) != ROOT_MAGIC@ || digest::content_hash(
        bytes.subrange(0, bytes.len() - 32),
    ) != bytes.subrange(bytes.len() - 32, bytes.len() as int) {
        Err(StoreError::Corrupt(0))
    } else {
        Ok(bytes.subrange(8, bytes.len() - 32))
    }
}

/// What the body of a root names, and where that ends.
pub open spec fn parts_at(body: Seq<u8>) -> Result<(RootParts, int), StoreError> {
    match catalog::option_at::<DATABASE>(body, 0) {
        Err(error) => Err(error),
        Ok((database, p)) => match index::choice_at(body, p) {
            Err(error) => Err(error),
            Ok((placements, p)) => match index::choice_at(body, p) {
                Err(error) => Err(error),
                Ok((endpoints, p)) => match index::choice_at(body, p) {
                    Err(error) => Err(error),
                    Ok((retentions, p)) => match index::choice_at(body, p) {
                        Err(error) => Err(error),
                        Ok((advisory, p)) => match index::choice_at(body, p) {
                            Err(error) => Err(error),
                            Ok((heads, p)) => Ok(
                                (
                                    RootParts {
                                        database,
                                        placements,
                                        endpoints,
                                        retentions,
                                        advisory,
                                        heads,
                                    },
                                    p,
                                ),
                            ),
                        },
                    },
                },
            },
        },
    }
}

/// What a root names, and whether anything stands behind that.
pub open spec fn root_parse(bytes: Seq<u8>) -> Result<
    (RootParts, Result<(), StoreError>),
    StoreError,
> {
    match root_body(bytes) {
        Err(error) => Err(error),
        Ok(body) => match parts_at(body) {
            Err(error) => Err(error),
            Ok((parts, p)) => Ok((parts, wire::finish_at(body, p))),
        },
    }
}

fn read_parts(bytes: &[u8]) -> (parts: Result<(RootParts, Result<(), StoreError>), StoreError>)
    ensures
        parts == root_parse(bytes@),
{
    if bytes.len() < 40 || !same_bytes(slice_subrange(bytes, 0, 8), ROOT_MAGIC.as_slice())
        || !same_bytes(
        hash(slice_subrange(bytes, 0, bytes.len() - 32)).as_slice(),
        slice_subrange(bytes, bytes.len() - 32, bytes.len()),
    ) {
        return Err(StoreError::Corrupt(0));
    }
    let mut wire: Decoder = Decoder::new(slice_subrange(bytes, 8, bytes.len() - 32));
    let database: Option<DatabaseId> = read_option(&mut wire)?;
    let placements: Option<IndexId> = read_choice(&mut wire)?;
    let endpoints: Option<IndexId> = read_choice(&mut wire)?;
    let retentions: Option<IndexId> = read_choice(&mut wire)?;
    let advisory: Option<IndexId> = read_choice(&mut wire)?;
    let heads: Option<IndexId> = read_choice(&mut wire)?;
    let ended: Result<(), StoreError> = wire.finish();
    proof {
        match ended {
            Ok(unit) => {
                assert(unit == ());
            },
            Err(_) => {},
        }
    }
    Ok((RootParts { database, placements, endpoints, retentions, advisory, heads }, ended))
}

/// What the state of a namespace holds.
#[verifier::ext_equal]
pub struct StateModel {
    pub revision: Option<Seq<u8>>,
    pub database: Option<DatabaseId>,
    pub attachment: Option<AttachmentId>,
    pub sealed: Option<ActiveHeader>,
    pub pending: Option<ActiveHeader>,
    pub placements: IndexModel,
    pub endpoints: IndexModel,
    pub retentions: IndexModel,
    pub advisory: IndexModel,
    pub heads: IndexModel,
    pub uncertain: bool,
    pub selected: Seq<u8>,
}

/// The state of a namespace, with one head selected.
#[derive(Debug)]
pub struct State {
    pub revision: Option<Revision>,
    pub database: Option<DatabaseId>,
    pub attachment: Option<AttachmentId>,
    pub sealed: Option<ActiveHeader>,
    pub pending: Option<ActiveHeader>,
    pub placements: Index,
    pub endpoints: Index,
    pub retentions: Index,
    pub advisory: Index,
    pub heads: Index,
    pub uncertain: bool,
    pub selected: Vec<u8>,
}

impl View for State {
    type V = StateModel;

    open spec fn view(&self) -> StateModel {
        StateModel {
            revision: match self.revision {
                Some(revision) => Some(revision@),
                None => None,
            },
            database: self.database,
            attachment: self.attachment,
            sealed: self.sealed,
            pending: self.pending,
            placements: self.placements@,
            endpoints: self.endpoints@,
            retentions: self.retentions@,
            advisory: self.advisory@,
            heads: self.heads@,
            uncertain: self.uncertain,
            selected: self.selected@,
        }
    }
}

/// An index without entries.
pub open spec fn empty_index() -> IndexModel {
    IndexModel {
        head: None,
        objects: Set::empty(),
        entries: Map::empty(),
        dirty: Map::empty(),
        depth: 0,
    }
}

/// The state of a namespace that has no root yet.
pub open spec fn fresh_state(selected: Seq<u8>) -> StateModel {
    StateModel {
        revision: None,
        database: None,
        attachment: None,
        sealed: None,
        pending: None,
        placements: empty_index(),
        endpoints: empty_index(),
        retentions: empty_index(),
        advisory: empty_index(),
        heads: empty_index(),
        uncertain: false,
        selected,
    }
}

/// What is wrong with the first bad entry of a list of heads, from place `i` on.
pub open spec fn heads_check(
    list: Seq<(Seq<u8>, Seq<u8>)>,
    database: Option<DatabaseId>,
    i: int,
) -> Result<(), StoreError>
    decreases list.len() - i,
{
    if i >= list.len() {
        Ok(())
    } else if !vstd::utf8::valid_utf8(list[i].0) {
        Err(StoreError::Corrupt(0))
    } else if !catalog::head_name(list[i].0) {
        Err(StoreError::InvalidConfiguration(HEAD_NAMES))
    } else {
        match catalog::head_parse(list[i].1, database) {
            Err(error) => Err(error),
            Ok(_) => heads_check(list, database, i + 1),
        }
    }
}

/// The head that entries have under a name; a head without anything where they
/// have none.
pub open spec fn head_under(
    entries: Map<Seq<u8>, Seq<u8>>,
    name: Seq<u8>,
    database: Option<DatabaseId>,
) -> Result<Head, StoreError> {
    if entries.dom().contains(name) {
        catalog::head_parse(entries[name], database)
    } else {
        Ok(Head::vacant())
    }
}

/// What loading the four indexes beside the heads came to.
pub open spec fn indexes_replay(history: Seq<Event>, at: int, parts: RootParts) -> Replay<
    (IndexModel, IndexModel, IndexModel, IndexModel),
> {
    match index::load_replay(history, at, parts.placements) {
        Replay::Astray => Replay::Astray,
        Replay::Done(Err(error), next) => Replay::Done(Err(error), next),
        Replay::Done(Ok(placements), next) => match index::load_replay(history, next, parts.endpoints) {
            Replay::Astray => Replay::Astray,
            Replay::Done(Err(error), next) => Replay::Done(Err(error), next),
            Replay::Done(Ok(endpoints), next) => match index::load_replay(
                history,
                next,
                parts.retentions,
            ) {
                Replay::Astray => Replay::Astray,
                Replay::Done(Err(error), next) => Replay::Done(Err(error), next),
                Replay::Done(Ok(retentions), next) => match index::load_replay(
                    history,
                    next,
                    parts.advisory,
                ) {
                    Replay::Astray => Replay::Astray,
                    Replay::Done(Err(error), next) => Replay::Done(Err(error), next),
                    Replay::Done(Ok(advisory), next) => Replay::Done(
                        Ok((placements, endpoints, retentions, advisory)),
                        next,
                    ),
                },
            },
        },
    }
}

/// What loading the state behind a root came to, from the place after the root
/// was read.
pub open spec fn opened_replay(
    history: Seq<Event>,
    at: int,
    root: RootModel,
    selected: Seq<u8>,
) -> Replay<StateModel> {
    match root_parse(root.bytes) {
        Err(error) => Replay::Done(Err(error), at),
        Ok((parts, ended)) => match index::load_replay(history, at, parts.heads) {
            Replay::Astray => Replay::Astray,
            Replay::Done(Err(error), next) => Replay::Done(Err(error), next),
            Replay::Done(Ok(heads), next) => match ended {
                Err(error) => Replay::Done(Err(error), next),
                Ok(_) => match heads_check(
                    order::listing::<Vec<u8>, Seq<u8>>(heads.entries),
                    parts.database,
                    0,
                ) {
                    Err(error) => Replay::Done(Err(error), next),
                    Ok(_) => match head_under(heads.entries, selected, parts.database) {
                        Err(error) => Replay::Done(Err(error), next),
                        Ok(head) => match indexes_replay(history, next, parts) {
                            Replay::Astray => Replay::Astray,
                            Replay::Done(Err(error), next) => Replay::Done(Err(error), next),
                            Replay::Done(Ok(rest), next) => Replay::Done(
                                Ok(
                                    StateModel {
                                        revision: Some(root.revision),
                                        database: parts.database,
                                        attachment: head.attachment,
                                        sealed: head.sealed,
                                        pending: head.pending,
                                        placements: rest.0,
                                        endpoints: rest.1,
                                        retentions: rest.2,
                                        advisory: rest.3,
                                        heads,
                                        uncertain: false,
                                        selected,
                                    },
                                ),
                                next,
                            ),
                        },
                    },
                },
            },
        },
    }
}

/// What loading the state of a namespace came to.
pub open spec fn state_replay(history: Seq<Event>, at: int, selected: Seq<u8>) -> Replay<
    StateModel,
> {
    if 0 <= at < history.len() {
        match history[at] {
            Event::RootRead { reply: Err(error) } => Replay::Done(
                Err(StoreError::Backend(error)),
                at + 1,
            ),
            Event::RootRead { reply: Ok(None) } => Replay::Done(Ok(fresh_state(selected)), at + 1),
            Event::RootRead { reply: Ok(Some(root)) } => opened_replay(
                history,
                at + 1,
                root@,
                selected,
            ),
            _ => Replay::Astray,
        }
    } else {
        Replay::Astray
    }
}

pub proof fn lemma_load_settled(
    before: Seq<Event>,
    after: Seq<Event>,
    at: int,
    head: Option<IndexId>,
)
    requires
        adapter::extends(before, after),
        index::load_replay(before, at, head) is Done,
    ensures
        index::load_replay(after, at, head) == index::load_replay(before, at, head),
{
    index::lemma_chain_settled(before, after, at, index::chain_start(head));
}

fn check_heads(heads: &Index, database: &Option<DatabaseId>) -> (done: Result<(), StoreError>)
    ensures
        done == heads_check(order::listing::<Vec<u8>, Seq<u8>>(heads@.entries), *database, 0),
{
    let entries: &OrderedMap<Vec<u8>, Vec<u8>> = heads.entries();
    let count: usize = entries.len();
    let ghost list = entries.pairs();
    let ghost goal = heads_check(list, *database, 0);
    let mut i: usize = 0;
    while i < count
        invariant
            i <= count,
            count == list.len(),
            list == entries.pairs(),
            entries@ == heads@.entries,
            goal == heads_check(list, *database, 0),
            goal == heads_check(list, *database, i as int),
        decreases count - i,
    {
        let name: &Vec<u8> = entries.key_at(i);
        if as_text(name.as_slice()).is_none() {
            return Err(StoreError::Corrupt(0));
        }
        match validate_head(name.as_slice()) {
            Ok(_) => {},
            Err(error) => {
                return Err(error);
            },
        }
        match Head::decode(entries.value_at(i).as_slice(), database) {
            Ok(_) => {},
            Err(error) => {
                return Err(error);
            },
        }
        i += 1;
    }
    Ok(())
}

impl State {
    /// The state of a namespace that has no root yet.
    pub fn fresh(selected: &[u8]) -> (state: State)
        ensures
            state@ == fresh_state(selected@),
    {
        State {
            revision: None,
            database: None,
            attachment: None,
            sealed: None,
            pending: None,
            placements: Index::empty(),
            endpoints: Index::empty(),
            retentions: Index::empty(),
            advisory: Index::empty(),
            heads: Index::empty(),
            uncertain: false,
            selected: copied(selected),
        }
    }

    /// Loads the state of a namespace, with one head selected. The decompressor
    /// may fail on any layer of an index.
    pub fn load_for<B: StorageBackend>(backend: &mut B, selected: &[u8]) -> (state: Result<
        State,
        StoreError,
    >)
        ensures
            final(backend).namespace() == old(backend).namespace(),
            adapter::extends(old(backend).history(), final(backend).history()),
            adapter::quiet(old(backend).history(), final(backend).history()),
            match state {
                Ok(s) => state_replay(
                    final(backend).history(),
                    old(backend).history().len() as int,
                    selected@,
                ) == Replay::Done(
                    Ok::<StateModel, StoreError>(s@),
                    final(backend).history().len() as int,
                ),
                Err(e) => opening::unopened(e, old(backend).history(), final(backend).history()) || state_replay(
                    final(backend).history(),
                    old(backend).history().len() as int,
                    selected@,
                ) == Replay::Done(
                    Err::<StateModel, StoreError>(e),
                    final(backend).history().len() as int,
                ),
            },
    {
        let root: RootRecord = match backend.read_root() {
            Err(error) => {
                return Err(StoreError::Backend(error));
            },
            Ok(None) => {
                return Ok(State::fresh(selected));
            },
            Ok(Some(root)) => root,
        };
        State::open_root(backend, &root, selected)
    }

    fn open_root<B: StorageBackend>(backend: &mut B, root: &RootRecord, selected: &[u8]) -> (state:
        Result<State, StoreError>)
        ensures
            final(backend).namespace() == old(backend).namespace(),
            adapter::extends(old(backend).history(), final(backend).history()),
            adapter::quiet(old(backend).history(), final(backend).history()),
            match state {
                Ok(s) => opened_replay(
                    final(backend).history(),
                    old(backend).history().len() as int,
                    root@,
                    selected@,
                ) == Replay::Done(
                    Ok::<StateModel, StoreError>(s@),
                    final(backend).history().len() as int,
                ),
                Err(e) => opening::unopened(e, old(backend).history(), final(backend).history()) || opened_replay(
                    final(backend).history(),
                    old(backend).history().len() as int,
                    root@,
                    selected@,
                ) == Replay::Done(
                    Err::<StateModel, StoreError>(e),
                    final(backend).history().len() as int,
                ),
            },
    {
        let (parts, ended) = read_parts(root.bytes())?;
        let ghost h1 = backend.history();
        let heads: Index = Index::load(backend, parts.heads)?;
        let ghost h2 = backend.history();
        match ended {
            Ok(_) => {},
            Err(error) => {
                return Err(error);
            },
        }
        match check_heads(&heads, &parts.database) {
            Ok(_) => {},
            Err(error) => {
                return Err(error);
            },
        }
        let name: Vec<u8> = copied(selected);
        let head: Head = match heads.entries().get(&name) {
            Some(bytes) => Head::decode(bytes.as_slice(), &parts.database)?,
            None => Head { attachment: None, sealed: None, pending: None },
        };
        let rest: Result<(Index, Index, Index, Index), StoreError> = load_rest(backend, &parts);
        proof {
            lemma_load_settled(h2, backend.history(), h1.len() as int, parts.heads);
        }
        let (placements, endpoints, retentions, advisory) = rest?;
        Ok(
            State {
                revision: Some(root.revision().duplicate()),
                database: parts.database,
                attachment: head.attachment,
                sealed: head.sealed,
                pending: head.pending,
                placements,
                endpoints,
                retentions,
                advisory,
                heads,
                uncertain: false,
                selected: name,
            },
        )
    }
}

/// Loads the four indexes beside the heads.
fn load_rest<B: StorageBackend>(backend: &mut B, parts: &RootParts) -> (rest: Result<
    (Index, Index, Index, Index),
    StoreError,
>)
    ensures
        final(backend).namespace() == old(backend).namespace(),
        adapter::extends(old(backend).history(), final(backend).history()),
        adapter::quiet(old(backend).history(), final(backend).history()),
        match rest {
            Ok(r) => indexes_replay(
                final(backend).history(),
                old(backend).history().len() as int,
                *parts,
            ) == Replay::Done(
                Ok::<(IndexModel, IndexModel, IndexModel, IndexModel), StoreError>(
                    (r.0@, r.1@, r.2@, r.3@),
                ),
                final(backend).history().len() as int,
            ),
            Err(e) => opening::unopened(e, old(backend).history(), final(backend).history()) || indexes_replay(
                final(backend).history(),
                old(backend).history().len() as int,
                *parts,
            ) == Replay::Done(
                Err::<(IndexModel, IndexModel, IndexModel, IndexModel), StoreError>(e),
                final(backend).history().len() as int,
            ),
        },
{
    let ghost h2 = backend.history();
    let placements: Index = Index::load(backend, parts.placements)?;
    let ghost h3 = backend.history();
    let endpoints: Result<Index, StoreError> = Index::load(backend, parts.endpoints);
    let ghost h4 = backend.history();
    proof {
        lemma_load_settled(h3, h4, h2.len() as int, parts.placements);
    }
    let endpoints: Index = endpoints?;
    let retentions: Result<Index, StoreError> = Index::load(backend, parts.retentions);
    let ghost h5 = backend.history();
    proof {
        lemma_load_settled(h3, h5, h2.len() as int, parts.placements);
        lemma_load_settled(h4, h5, h3.len() as int, parts.endpoints);
    }
    let retentions: Index = retentions?;
    let advisory: Result<Index, StoreError> = Index::load(backend, parts.advisory);
    let ghost h6 = backend.history();
    proof {
        lemma_load_settled(h3, h6, h2.len() as int, parts.placements);
        lemma_load_settled(h4, h6, h3.len() as int, parts.endpoints);
        lemma_load_settled(h5, h6, h4.len() as int, parts.retentions);
    }
    let advisory: Index = advisory?;
    Ok((placements, endpoints, retentions, advisory))
}

impl StateModel {
    /// The indexes in the order in which they are written.
    pub open spec fn indexes(self) -> Seq<IndexModel> {
        seq![self.heads, self.placements, self.endpoints, self.retentions, self.advisory]
    }

    /// The state with other indexes.
    pub open spec fn with_indexes(self, list: Seq<IndexModel>) -> StateModel {
        StateModel {
            heads: list[0],
            placements: list[1],
            endpoints: list[2],
            retentions: list[3],
            advisory: list[4],
            ..self
        }
    }

    /// The state once its first `count` indexes are written.
    pub open spec fn written(self, count: int) -> StateModel {
        self.with_indexes(
            Seq::new(
                5,
                |i: int|
                    if i < count {
                        self.indexes()[i].written()
                    } else {
                        self.indexes()[i]
                    },
            ),
        )
    }

    /// What writing the first `count` indexes has the backend do.
    pub open spec fn write_events(self, count: int) -> Seq<Event>
        decreases count,
    {
        if count <= 0 {
            Seq::empty()
        } else {
            self.write_events(count - 1) + self.indexes()[count - 1].write_events()
        }
    }

    /// The name of the selected head.
    pub open spec fn name(self) -> Seq<u8> {
        if self.selected.len() == 0 {
            MAIN@
        } else {
            self.selected
        }
    }

    /// The selected head.
    pub open spec fn head(self) -> Head {
        Head { attachment: self.attachment, sealed: self.sealed, pending: self.pending }
    }

    /// The state with the selected head noted among the heads, or dropped where
    /// nothing is left of it.
    pub open spec fn noted(self) -> StateModel {
        StateModel {
            heads: if self.head() == Head::vacant() {
                self.heads.without(self.name())
            } else {
                self.heads.with(self.name(), self.head().record())
            },
            ..self
        }
    }

    /// What the root of the state names.
    pub open spec fn parts(self) -> RootParts {
        RootParts {
            database: self.database,
            placements: self.placements.head,
            endpoints: self.endpoints.head,
            retentions: self.retentions.head,
            advisory: self.advisory.head,
            heads: self.heads.head,
        }
    }
}

/// Writing the indexes of a state failed with one of them, after those before it
/// were written.
pub open spec fn write_failed(
    before: StateModel,
    after: StateModel,
    earlier: Seq<Event>,
    later: Seq<Event>,
    error: StoreError,
) -> bool {
    exists|k: int|
        0 <= k < 5 && after == #[trigger] before.written(k) && index::flush_failed(
            before.indexes()[k],
            earlier + before.write_events(k),
            later,
            error,
        )
}

/// The state after an attempt to replace the root, by its reply.
pub open spec fn replied(state: StateModel, reply: Result<Publication, BackendError>) -> StateModel {
    match reply {
        Ok(Publication::Applied(revision)) => StateModel { revision: Some(revision@), ..state },
        _ => StateModel { uncertain: true, ..state },
    }
}

/// What an attempt to replace the root came to, by its reply.
pub open spec fn verdict(reply: Result<Publication, BackendError>) -> Result<(), StoreError> {
    match reply {
        Ok(Publication::Applied(_)) => Ok(()),
        Ok(Publication::Stale) => Err(StoreError::Backend(BackendError::Stale)),
        Ok(Publication::Uncertain(message)) => Err(
            StoreError::Backend(BackendError::Uncertain(message)),
        ),
        Err(error) => Err(StoreError::Backend(error)),
    }
}

/// The root of a written state was handed to the backend, which gave this reply.
pub open spec fn root_offered(
    written: StateModel,
    earlier: Seq<Event>,
    later: Seq<Event>,
    reply: Result<Publication, BackendError>,
) -> bool {
    later == earlier.push(
        Event::Publish {
            expected: written.revision,
            bytes: written.parts().record(),
            reply,
        },
    )
}

/// What publishing a state comes to. After an outcome that leaves the root in
/// doubt nothing more is published.
pub open spec fn publish_outcome(
    before: StateModel,
    after: StateModel,
    earlier: Seq<Event>,
    later: Seq<Event>,
    done: Result<(), StoreError>,
) -> bool {
    let noted = before.noted();
    if before.uncertain {
        after == before && later == earlier && done matches Err(
            StoreError::Backend(BackendError::Uncertain(_)),
        )
    } else {
        ||| done matches Err(error) && write_failed(noted, after, earlier, later, error)
        ||| exists|reply: Result<Publication, BackendError>| #[trigger]
            root_offered(
                noted.written(5),
                earlier + noted.write_events(5),
                later,
                reply,
            ) && after == replied(noted.written(5), reply) && done == verdict(reply)
    }
}

impl State {
    fn encode_root(&self) -> (bytes: Vec<u8>)
        ensures
            bytes@ == self@.parts().record(),
    {
        let mut bytes: Vec<u8> = copied(ROOT_MAGIC.as_slice());
        write_option(&mut bytes, self.database);
        write_choice(&mut bytes, self.placements.head());
        write_choice(&mut bytes, self.endpoints.head());
        write_choice(&mut bytes, self.retentions.head());
        write_choice(&mut bytes, self.advisory.head());
        write_choice(&mut bytes, self.heads.head());
        assert(bytes@ =~= ROOT_MAGIC@ + self@.parts().names());
        let sum: [u8; 32] = hash(bytes.as_slice());
        append(&mut bytes, sum.as_slice());
        assert(bytes@ =~= self@.parts().record());
        bytes
    }

    /// Notes the selected head among the heads.
    fn note_head(&mut self)
        ensures
            final(self)@ == old(self)@.noted(),
    {
        let name: Vec<u8> = if self.selected.len() == 0 {
            copied(MAIN.as_slice())
        } else {
            copied(self.selected.as_slice())
        };
        assert(name@ == self@.name());
        if self.attachment.is_some() || self.sealed.is_some() || self.pending.is_some() {
            let head: Head = Head {
                attachment: self.attachment,
                sealed: self.sealed,
                pending: self.pending,
            };
            self.heads.insert(name, head.encode());
        } else {
            self.heads.remove(name.as_slice());
        }
    }

    /// Writes every index.
    #[verifier::rlimit(60)]
    fn flush_all<B: StorageBackend>(&mut self, backend: &mut B) -> (done: Result<(), StoreError>)
        ensures
            final(backend).namespace() == old(backend).namespace(),
            adapter::extends(old(backend).history(), final(backend).history()),
            match done {
                Ok(_) => final(self)@ == old(self)@.written(5) && final(backend).history() == old(
                    backend).history() + old(self)@.write_events(5),
                Err(error) => write_failed(
                    old(self)@,
                    final(self)@,
                    old(backend).history(),
                    final(backend).history(),
                    error,
                ),
            },
    {
        let ghost start = backend.history();
        let ghost before = self@;
        proof {
            reveal_with_fuel(StateModel::write_events, 6);
            assert(start + before.write_events(0) =~= start);
            assert(before.written(0) =~= before);
        }
        self.heads.flush(backend)?;
        proof {
            assert(self@ =~= before.written(1));
            assert(backend.history() =~= start + before.write_events(1));
        }
        self.placements.flush(backend)?;
        proof {
            assert(self@ =~= before.written(2));
            assert(backend.history() =~= start + before.write_events(2));
        }
        self.endpoints.flush(backend)?;
        proof {
            assert(self@ =~= before.written(3));
            assert(backend.history() =~= start + before.write_events(3));
        }
        self.retentions.flush(backend)?;
        proof {
            assert(self@ =~= before.written(4));
            assert(backend.history() =~= start + before.write_events(4));
        }
        self.advisory.flush(backend)?;
        proof {
            assert(self@ =~= before.written(5));
            assert(backend.history() =~= start + before.write_events(5));
        }
        Ok(())
    }

    /// Publishes the state: writes its indexes, then replaces the root if it is
    /// still the one that the state was loaded from.
    pub fn publish<B: StorageBackend>(&mut self, backend: &mut B) -> (done: Result<(), StoreError>)
        ensures
            final(backend).namespace() == old(backend).namespace(),
            adapter::extends(old(backend).history(), final(backend).history()),
            publish_outcome(
                old(self)@,
                final(self)@,
                old(backend).history(),
                final(backend).history(),
                done,
            ),
    {
        if self.uncertain {
            return Err(
                StoreError::Backend(
                    BackendError::Uncertain("reload the catalog before retrying".to_owned()),
                ),
            );
        }
        self.note_head();
        self.flush_all(backend)?;
        let ghost written = self@;
        let ghost flushed = backend.history();
        let bytes: Vec<u8> = self.encode_root();
        let reply: Result<Publication, BackendError> = backend.compare_exchange_root(
            self.revision.as_ref(),
            bytes.as_slice(),
        );
        assert(root_offered(written, flushed, backend.history(), reply));
        match reply {
            Ok(Publication::Applied(revision)) => {
                self.revision = Some(revision);
                Ok(())
            },
            Ok(Publication::Stale) => {
                self.uncertain = true;
                Err(StoreError::Backend(BackendError::Stale))
            },
            Ok(Publication::Uncertain(message)) => {
                self.uncertain = true;
                Err(StoreError::Backend(BackendError::Uncertain(message)))
            },
            Err(error) => {
                self.uncertain = true;
                Err(StoreError::Backend(error))
            },
        }
    }
}

/// The root in a reply is the one that a state would publish.
pub open spec fn confirms(state: StateModel, root: Option<RootRecord>) -> bool {
    root matches Some(record) && record@.bytes == state.parts().record()
}

/// What publishing with a second look comes to. Where the root is left in doubt
/// it is read again: if it is the one that was offered, the publication stands.
pub open spec fn confirmed_outcome(
    before: StateModel,
    after: StateModel,
    earlier: Seq<Event>,
    later: Seq<Event>,
    done: Result<(), StoreError>,
) -> bool {
    exists|middle: StateModel, then: Seq<Event>, first: Result<(), StoreError>| #[trigger]
        publish_outcome(before, middle, earlier, then, first) && looked_again(
            middle,
            after,
            then,
            later,
            first,
            done,
        )
}

/// What became of a first outcome once the root was read again, where that was
/// called for.
pub open spec fn looked_again(
    middle: StateModel,
    after: StateModel,
    then: Seq<Event>,
    later: Seq<Event>,
    first: Result<(), StoreError>,
    done: Result<(), StoreError>,
) -> bool {
    if first matches Err(StoreError::Backend(BackendError::Uncertain(_))) {
        exists|reply: Result<Option<RootRecord>, BackendError>|
            later == then.push(#[trigger] root_read(reply)) && match reply {
                Err(error) => after == middle && done == Err::<(), StoreError>(
                    StoreError::Backend(error),
                ),
                Ok(root) => if confirms(middle, root) {
                    done is Ok && after == (StateModel {
                        revision: Some(root->0@.revision),
                        uncertain: false,
                        ..middle
                    })
                } else {
                    after == middle && done == first
                },
            }
    } else {
        after == middle && later == then && done == first
    }
}

pub open spec fn root_read(reply: Result<Option<RootRecord>, BackendError>) -> Event {
    Event::RootRead { reply }
}

/// The heads of a list, from place `i` on.
pub open spec fn heads_from(
    list: Seq<(Seq<u8>, Seq<u8>)>,
    database: Option<DatabaseId>,
    i: int,
    so_far: Seq<Head>,
) -> Result<Seq<Head>, StoreError>
    decreases list.len() - i,
{
    if i >= list.len() {
        Ok(so_far)
    } else {
        match catalog::head_parse(list[i].1, database) {
            Err(error) => Err(error),
            Ok(head) => heads_from(list, database, i + 1, so_far.push(head)),
        }
    }
}

impl StateModel {
    /// Every head, in the order of the names.
    pub open spec fn all_heads(self) -> Result<Seq<Head>, StoreError> {
        heads_from(
            order::listing::<Vec<u8>, Seq<u8>>(self.heads.entries),
            self.database,
            0,
            Seq::empty(),
        )
    }

    /// The layers of every index.
    pub open spec fn index_objects(self) -> Set<ObjectKey> {
        Set::new(
            |key: ObjectKey|
                key matches ObjectKey::Index(id) && (self.placements.objects.contains(id)
                    || self.endpoints.objects.contains(id) || self.retentions.objects.contains(id)
                    || self.advisory.objects.contains(id) || self.heads.objects.contains(id)),
        )
    }
}

/// Adds the layers of an index to a set of objects.
fn add_objects(keys: &mut OrderedSet<ObjectKey>, index: &Index)
    ensures
        forall|key: ObjectKey|
            #[trigger] final(keys)@.contains(key) <==> old(keys)@.contains(key) || (
            key matches ObjectKey::Index(id) && index@.objects.contains(id)),
{
    let objects: &OrderedSet<IndexId> = index.objects();
    let count: usize = objects.len();
    let mut i: usize = 0;
    while i < count
        invariant
            i <= count,
            objects@ == index@.objects,
            count == objects.walk().len(),
            objects.walk().to_set() == objects@,
            forall|key: ObjectKey|
                #[trigger] keys@.contains(key) <==> old(keys)@.contains(key) || (
                key matches ObjectKey::Index(id) && objects.walk().take(i as int).contains(id)),
        decreases count - i,
    {
        let id: IndexId = *objects.at(i);
        let ghost before = keys@;
        keys.insert(ObjectKey::Index(id));
        proof {
            let seen = objects.walk().take(i as int);
            let more = objects.walk().take(i as int + 1);
            assert(more =~= seen.push(id));
            assert forall|key: ObjectKey|
                #[trigger] keys@.contains(key) <==> old(keys)@.contains(key) || (
                key matches ObjectKey::Index(k) && more.contains(k)) by {
                assert(before.contains(key) <==> old(keys)@.contains(key) || (
                key matches ObjectKey::Index(k) && seen.contains(k)));
                if let ObjectKey::Index(k) = key {
                    if seen.contains(k) {
                        let j = choose|j: int| 0 <= j < seen.len() && seen[j] == k;
                        assert(more[j] == k);
                    }
                    if more.contains(k) {
                        let j = choose|j: int| 0 <= j < more.len() && more[j] == k;
                        if j < seen.len() {
                            assert(seen[j] == k);
                        }
                    }
                    if k == id {
                        assert(more[i as int] == k);
                    }
                }
            }
        }
        i += 1;
    }
    proof {
        assert(objects.walk().take(i as int) =~= objects.walk());
        assert forall|key: ObjectKey|
            #[trigger] keys@.contains(key) <==> old(keys)@.contains(key) || (
            key matches ObjectKey::Index(id) && index@.objects.contains(id)) by {
            if let ObjectKey::Index(id) = key {
                assert(objects.walk().to_set().contains(id) == objects.walk().contains(id));
            }
        }
    }
}

impl State {
    /// Publishes the state; where the root is left in doubt, reads it again.
    pub fn publish_confirmed<B: StorageBackend>(&mut self, backend: &mut B) -> (done: Result<
        (),
        StoreError,
    >)
        ensures
            final(backend).namespace() == old(backend).namespace(),
            adapter::extends(old(backend).history(), final(backend).history()),
            confirmed_outcome(
                old(self)@,
                final(self)@,
                old(backend).history(),
                final(backend).history(),
                done,
            ),
    {
        let first: Result<(), StoreError> = self.publish(backend);
        let ghost middle = self@;
        let ghost then = backend.history();
        assert(publish_outcome(old(self)@, middle, old(backend).history(), then, first));
        let doubtful: bool = match &first {
            Err(StoreError::Backend(BackendError::Uncertain(_))) => true,
            _ => false,
        };
        if !doubtful {
            return first;
        }
        let reply: Result<Option<RootRecord>, BackendError> = backend.read_root();
        assert(backend.history() == then.push(root_read(reply)));
        match reply {
            Err(error) => Err(StoreError::Backend(error)),
            Ok(None) => first,
            Ok(Some(root)) => {
                if same_bytes(root.bytes(), self.encode_root().as_slice()) {
                    self.revision = Some(root.revision().duplicate());
                    self.uncertain = false;
                    return Ok(());
                }
                first
            },
        }
    }

    /// Every head, in the order of the names.
    pub fn all_heads(&self) -> (heads: Result<Vec<Head>, StoreError>)
        ensures
            match heads {
                Ok(h) => self@.all_heads() == Ok::<Seq<Head>, StoreError>(h@),
                Err(e) => self@.all_heads() == Err::<Seq<Head>, StoreError>(e),
            },
    {
        let entries: &OrderedMap<Vec<u8>, Vec<u8>> = self.heads.entries();
        let count: usize = entries.len();
        let ghost list = entries.pairs();
        let mut heads: Vec<Head> = Vec::new();
        let mut i: usize = 0;
        assert(heads@ =~= Seq::<Head>::empty());
        while i < count
            invariant
                i <= count,
                count == list.len(),
                list == entries.pairs(),
                entries@ == self@.heads.entries,
                self@.all_heads() == heads_from(list, self@.database, i as int, heads@),
            decreases count - i,
        {
            let head: Head = Head::decode(entries.value_at(i).as_slice(), &self.database)?;
            heads.push(head);
            i += 1;
        }
        Ok(heads)
    }

    /// Whether any head has a seal under way.
    pub fn has_pending(&self) -> (pending: Result<bool, StoreError>)
        ensures
            match pending {
                Ok(p) => self@.all_heads() matches Ok(heads) && p == exists|i: int|
                    0 <= i < heads.len() && (#[trigger] heads[i]).pending is Some,
                Err(e) => self@.all_heads() == Err::<Seq<Head>, StoreError>(e),
            },
    {
        let heads: Vec<Head> = self.all_heads()?;
        let mut i: usize = 0;
        while i < heads.len()
            invariant
                i <= heads@.len(),
                self@.all_heads() == Ok::<Seq<Head>, StoreError>(heads@),
                forall|j: int| 0 <= j < i ==> (#[trigger] heads@[j]).pending is None,
            decreases heads.len() - i,
        {
            if heads[i].pending.is_some() {
                assert(heads@[i as int].pending is Some);
                return Ok(true);
            }
            i += 1;
        }
        Ok(false)
    }

    /// The layers of every index.
    pub fn index_objects(&self) -> (keys: OrderedSet<ObjectKey>)
        ensures
            keys@ == self@.index_objects(),
    {
        let mut keys: OrderedSet<ObjectKey> = OrderedSet::new();
        add_objects(&mut keys, &self.placements);
        add_objects(&mut keys, &self.endpoints);
        add_objects(&mut keys, &self.retentions);
        add_objects(&mut keys, &self.advisory);
        add_objects(&mut keys, &self.heads);
        assert(keys@ =~= self@.index_objects());
        keys
    }
}

proof fn lemma_choice_piece(before: Seq<u8>, id: Option<IndexId>, after: Seq<u8>)
    requires
        (before + index::choice_bytes(id) + after).len() <= usize::MAX,
    ensures
        index::choice_at(before + index::choice_bytes(id) + after, before.len() as int) == Ok::<
            (Option<IndexId>, int),
            StoreError,
        >((id, (before.len() + index::choice_bytes(id).len()) as int)),
{
    crate::catalog::lemma_option_piece(before, id, after);
}

proof fn lemma_six(
    a: Seq<u8>,
    b: Seq<u8>,
    c: Seq<u8>,
    d: Seq<u8>,
    e: Seq<u8>,
    f: Seq<u8>,
)
    ensures
        ({
            let whole = a + b + c + d + e + f;
            let none = Seq::<u8>::empty();
            &&& whole == none + a + (b + c + d + e + f)
            &&& whole == a + b + (c + d + e + f)
            &&& whole == (a + b) + c + (d + e + f)
            &&& whole == (a + b + c) + d + (e + f)
            &&& whole == (a + b + c + d) + e + f
            &&& whole == (a + b + c + d + e) + f + none
        }),
{
    let whole = a + b + c + d + e + f;
    let none = Seq::<u8>::empty();
    assert(whole =~= none + a + (b + c + d + e + f));
    assert(whole =~= a + b + (c + d + e + f));
    assert(whole =~= (a + b) + c + (d + e + f));
    assert(whole =~= (a + b + c) + d + (e + f));
    assert(whole =~= (a + b + c + d + e) + f + none);
}

/// Reading back the root of a state gives what the root names, with nothing
/// behind it.
pub proof fn law_root_round_trip(parts: RootParts)
    ensures
        root_parse(parts.record()) == Ok::<(RootParts, Result<(), StoreError>), StoreError>(
            (parts, Ok(())),
        ),
{
    let whole = parts.record();
    let names = parts.names();
    let a = catalog::option_bytes(parts.database);
    let b = index::choice_bytes(parts.placements);
    let c = index::choice_bytes(parts.endpoints);
    let d = index::choice_bytes(parts.retentions);
    let e = index::choice_bytes(parts.advisory);
    let f = index::choice_bytes(parts.heads);
    let none = Seq::<u8>::empty();
    assert(whole.subrange(0, 8) =~= ROOT_MAGIC@);
    assert(whole.subrange(0, whole.len() - 32) =~= ROOT_MAGIC@ + names);
    assert(whole.subrange(whole.len() - 32, whole.len() as int) =~= digest::content_hash(
        ROOT_MAGIC@ + names,
    ));
    assert(whole.subrange(8, whole.len() - 32) =~= names);
    lemma_six(a, b, c, d, e, f);
    crate::catalog::lemma_option_piece(none, parts.database, b + c + d + e + f);
    lemma_choice_piece(a, parts.placements, c + d + e + f);
    lemma_choice_piece(a + b, parts.endpoints, d + e + f);
    lemma_choice_piece(a + b + c, parts.retentions, e + f);
    lemma_choice_piece(a + b + c + d, parts.advisory, f);
    lemma_choice_piece(a + b + c + d + e, parts.heads, none);
}

/// Publishing a state notes its own head and no other: what the other heads have
/// sealed stays as it was.
pub proof fn law_heads_are_independent(state: StateModel, other: Seq<u8>)
    requires
        other != state.name(),
    ensures
        ({
            let published = state.noted().written(5);
            &&& published.heads.entries.dom().contains(other)
                <==> state.heads.entries.dom().contains(other)
            &&& published.heads.entries[other] == state.heads.entries[other]
            &&& state.head() != Head::vacant() ==> published.heads.entries.dom().contains(
                state.name(),
            ) && published.heads.entries[state.name()] == state.head().record()
            &&& state.head() == Head::vacant() ==> !published.heads.entries.dom().contains(
                state.name(),
            )
        }),
{
    let noted = state.noted();
    assert(noted.written(5).heads == noted.heads.written());
}

/// A publication succeeds only where the backend says that it replaced the root
/// that was expected by the new one.
pub proof fn law_publication_is_confirmed(
    before: StateModel,
    after: StateModel,
    earlier: Seq<Event>,
    later: Seq<Event>,
)
    requires
        publish_outcome(before, after, earlier, later, Ok(())),
    ensures
        !after.uncertain,
        later.len() > 0 && (later.last() matches Event::Publish { expected, bytes, reply }
            && expected == before.revision && bytes == before.noted().written(5).parts().record() && (
        reply matches Ok(Publication::Applied(token)) && after.revision == Some(token@))),
{
}

/// A publication with a second look changes nothing of the selected head, and of
/// the list of heads only the entry of that one.
pub proof fn law_publication_keeps_the_head(
    before: StateModel,
    after: StateModel,
    earlier: Seq<Event>,
    later: Seq<Event>,
    done: Result<(), StoreError>,
)
    requires
        confirmed_outcome(before, after, earlier, later, done),
    ensures
        after.head() == before.head(),
        after.selected == before.selected,
        after.database == before.database,
        after.heads.entries == if before.uncertain {
            before.heads.entries
        } else {
            before.noted().heads.entries
        },
{
    let (middle, then, first) = choose|
        middle: StateModel,
        then: Seq<Event>,
        first: Result<(), StoreError>,
    | #[trigger]
        publish_outcome(before, middle, earlier, then, first) && looked_again(
            middle,
            after,
            then,
            later,
            first,
            done,
        );
    lemma_publication_keeps_heads(before, middle, earlier, then, first);
}

/// Writing some indexes of a state changes nothing of what it says.
proof fn lemma_written_says_the_same(state: StateModel, count: int)
    ensures
        state.written(count).heads.entries == state.heads.entries,
        state.written(count).head() == state.head(),
        state.written(count).selected == state.selected,
        state.written(count).database == state.database,
{
}

/// A publication changes nothing of the selected head, and of the list of heads only
/// the entry of that one.
pub proof fn lemma_publication_keeps_heads(
    before: StateModel,
    middle: StateModel,
    earlier: Seq<Event>,
    then: Seq<Event>,
    first: Result<(), StoreError>,
)
    requires
        publish_outcome(before, middle, earlier, then, first),
    ensures
        middle.head() == before.head(),
        middle.selected == before.selected,
        middle.database == before.database,
        middle.heads.entries == if before.uncertain {
            before.heads.entries
        } else {
            before.noted().heads.entries
        },
{
    let noted = before.noted();
    lemma_written_says_the_same(noted, 5);
    if !before.uncertain && first is Err && write_failed(
        noted,
        middle,
        earlier,
        then,
        first->Err_0,
    ) {
        let k = choose|k: int|
            0 <= k < 5 && middle == #[trigger] noted.written(k) && index::flush_failed(
                noted.indexes()[k],
                earlier + noted.write_events(k),
                then,
                first->Err_0,
            );
        lemma_written_says_the_same(noted, k);
    }
}

/// Where the backend left the root in doubt, or refused it, the state publishes
/// nothing more.
pub proof fn law_doubt_ends_publication(
    before: StateModel,
    doubtful: StateModel,
    after: StateModel,
    earlier: Seq<Event>,
    middle: Seq<Event>,
    later: Seq<Event>,
    reply: Result<Publication, BackendError>,
    done: Result<(), StoreError>,
)
    requires
        !(reply matches Ok(Publication::Applied(_))),
        root_offered(
            before.noted().written(5),
            earlier + before.noted().write_events(5),
            middle,
            reply,
        ),
        doubtful == replied(before.noted().written(5), reply),
        publish_outcome(doubtful, after, middle, later, done),
    ensures
        verdict(reply) == Err::<(), StoreError>(
            StoreError::Backend(
                match reply {
                    Ok(Publication::Uncertain(message)) => BackendError::Uncertain(message),
                    Ok(_) => BackendError::Stale,
                    Err(error) => error,
                },
            ),
        ),
        doubtful.uncertain,
        doubtful.revision == before.revision,
        done matches Err(StoreError::Backend(BackendError::Uncertain(_))),
        after == doubtful,
        later == middle,
{
}

/// Either every head of a state is listed, in the order of the names, or none is:
/// one record that is no head of the database fails them all.
pub proof fn law_heads_all_or_none(state: StateModel)
    ensures
        ({
            let list = order::listing::<Vec<u8>, Seq<u8>>(state.heads.entries);
            &&& state.all_heads() is Ok <==> forall|i: int|
                0 <= i < list.len() ==> catalog::head_parse(
                    (#[trigger] list[i]).1,
                    state.database,
                ) is Ok
            &&& state.all_heads() matches Ok(heads) ==> heads.len() == list.len() && forall|i: int|
                0 <= i < list.len() ==> catalog::head_parse((#[trigger] list[i]).1, state.database)
                    == Ok::<Head, StoreError>(heads[i])
        }),
{
    let list = order::listing::<Vec<u8>, Seq<u8>>(state.heads.entries);
    lemma_heads_from(list, state.database, 0, Seq::empty());
}

proof fn lemma_heads_from(
    list: Seq<(Seq<u8>, Seq<u8>)>,
    database: Option<DatabaseId>,
    i: int,
    so_far: Seq<Head>,
)
    requires
        0 <= i <= list.len(),
        so_far.len() == i,
        forall|j: int|
            0 <= j < i ==> catalog::head_parse((#[trigger] list[j]).1, database) == Ok::<
                Head,
                StoreError,
            >(so_far[j]),
    ensures
        heads_from(list, database, i, so_far) is Ok <==> forall|j: int|
            0 <= j < list.len() ==> catalog::head_parse((#[trigger] list[j]).1, database) is Ok,
        heads_from(list, database, i, so_far) matches Ok(heads) ==> heads.len() == list.len()
            && forall|j: int|
            0 <= j < list.len() ==> catalog::head_parse((#[trigger] list[j]).1, database) == Ok::<
                Head,
                StoreError,
            >(heads[j]),
    decreases list.len() - i,
{
    if i < list.len() {
        match catalog::head_parse(list[i].1, database) {
            Ok(head) => {
                assert forall|j: int| 0 <= j < i + 1 implies catalog::head_parse(
                    (#[trigger] list[j]).1,
                    database,
                ) == Ok::<Head, StoreError>(so_far.push(head)[j]) by {}
                lemma_heads_from(list, database, i + 1, so_far.push(head));
            },
            Err(_) => {},
        }
    }
}

/// Only a reply that the root was replaced leaves a state that may be published again, with
/// the new revision; every other reply leaves the revision as it was and the state in doubt,
/// and is handed on as it came.
pub proof fn law_reply_decides(state: StateModel, reply: Result<Publication, BackendError>)
    requires
        !state.uncertain,
    ensures
        verdict(reply) is Ok <==> reply is Ok && reply->Ok_0 is Applied,
        replied(state, reply).uncertain <==> verdict(reply) is Err,
        verdict(reply) is Err ==> replied(state, reply).revision == state.revision,
        verdict(reply) is Ok ==> replied(state, reply).revision == Some(reply->Ok_0->Applied_0@),
        replied(state, reply).head() == state.head(),
        reply is Err ==> verdict(reply) == Err::<(), StoreError>(StoreError::Backend(reply->Err_0)),
        reply is Ok && reply->Ok_0 is Stale ==> verdict(reply) == Err::<(), StoreError>(
            StoreError::Backend(BackendError::Stale),
        ),
        reply is Ok && reply->Ok_0 is Uncertain ==> verdict(reply) == Err::<(), StoreError>(
            StoreError::Backend(BackendError::Uncertain(reply->Ok_0->Uncertain_0)),
        ),
{
}

} // verus!
