//! Publishing views: builders that only take dependencies they have receipts for.

use crate::adapter;
use crate::adapter::{Event, StorageBackend};
use crate::builder;
use crate::builder::{Durable, build_segment, choose_run, validate_ranges};
use crate::domain::{
    BackendId, DICTIONARY, DatabaseId, DictionaryId, HistoryHash, LogicalBytes, MANIFEST,
    ManifestId, PACK, PackId, TransactionId, TransactionSpan,
};
use crate::error::StoreError;
use crate::fetch::Replay;
use crate::format::ActiveHeader;
use crate::manifest;
use crate::manifest::RecordModel;
use crate::objects;
use crate::objects::install_manifest;
use crate::opening;
use crate::order;
use crate::order::{Key, OrderedMap, OrderedSet};
use crate::pinned::PinnedView;
use crate::resolve;
use crate::resolve::load_metadata;
use crate::run::{MetadataRun, RUN_PREFIX};
use crate::segment::Header;
use crate::state::{State, StateModel};
use crate::validation;
use crate::validation::{ValidatedMetadata, ValidatedModel};
use crate::view::{ViewMetadata, ViewModel};
use crate::view_codec;
use vstd::prelude::*;

verus! {

/// What a builder knows.
#[verifier::ext_equal]
pub struct BuilderModel {
    pub home: BackendId,
    pub view: ViewModel,
    pub packs: Set<PackId>,
    pub dictionaries: Set<DictionaryId>,
    /// What the manifest may be built as a run onto.
    pub onto: Option<ValidatedModel>,
    /// The first transaction of the span, and the first that a run represents.
    pub begin: TransactionId,
    pub represented: TransactionId,
}

/// A builder of a manifest. Packs and dictionaries must be durable in its
/// namespace, or be reached through the pinned source.
pub struct ManifestBuilder<'source> {
    home: BackendId,
    metadata: ViewMetadata,
    packs: OrderedSet<PackId>,
    dictionaries: OrderedSet<DictionaryId>,
    onto: Option<&'source ValidatedMetadata>,
    begin: TransactionId,
    represented: TransactionId,
}

impl<'source> View for ManifestBuilder<'source> {
    type V = BuilderModel;

    closed spec fn view(&self) -> BuilderModel {
        BuilderModel {
            home: self.home,
            view: self.metadata@,
            packs: self.packs@,
            dictionaries: self.dictionaries@,
            onto: match self.onto {
                Some(source) => Some(source@),
                None => None,
            },
            begin: self.begin,
            represented: self.represented,
        }
    }
}

/// A builder of a view, with its source.
pub open spec fn builder_of(
    home: BackendId,
    view: ViewModel,
    source: Option<ValidatedModel>,
) -> BuilderModel {
    BuilderModel {
        home,
        view,
        packs: match source {
            Some(s) => s.view.packs(),
            None => Set::empty(),
        },
        dictionaries: match source {
            Some(s) => s.view.dictionaries(),
            None => Set::empty(),
        },
        onto: source,
        begin: match source {
            Some(s) => s.span.begin,
            None => view.txid,
        },
        represented: match source {
            Some(s) => if s.view.txid.value < view.txid.value {
                TransactionId { value: (s.view.txid.value + 1) as u64 }
            } else {
                view.txid
            },
            None => view.txid,
        },
    }
}

impl BuilderModel {
    /// Every dependency is durable or reached through the source.
    pub open spec fn covered(self) -> bool {
        self.view.packs().subset_of(self.packs) && self.view.dictionaries().subset_of(
            self.dictionaries,
        )
    }

    /// The record to publish is handed to the compressor.
    pub open spec fn compresses(self, placements: Map<Seq<u8>, Seq<u8>>) -> bool {
        &&& self.covered()
        &&& builder::ranges_check(self.view, placements) is Ok
        &&& builder::run_choice(self.onto, self.view) matches Ok(run) && builder::compresses(
            run,
            self.view,
            self.begin,
        )
    }

    /// The header and footer to publish, or why there is nothing to publish, where
    /// the compressor works.
    #[verifier::opaque]
    pub open spec fn plan(self, placements: Map<Seq<u8>, Seq<u8>>) -> Result<
        (Header, Seq<u8>),
        StoreError,
    > {
        if !self.covered() {
            Err(StoreError::Corrupt(0))
        } else {
            match builder::ranges_check(self.view, placements) {
                Err(error) => Err(error),
                Ok(_) => match builder::run_choice(self.onto, self.view) {
                    Err(error) => Err(error),
                    Ok(run) => builder::build_outcome(run, self.view, self.begin, self.represented),
                },
            }
        }
    }
}

/// What publishing a view comes to. What cannot be planned is refused; else the
/// segment is installed and the manifest resolved again.
pub open spec fn view_published(
    builder: BuilderModel,
    before: StateModel,
    after: StateModel,
    earlier: Seq<Event>,
    later: Seq<Event>,
    done: Result<(ManifestId, ValidatedModel), StoreError>,
) -> bool {
    match builder.plan(before.placements.entries) {
        Err(error) => done matches Err(e) && (e == error || (e is Zstd && builder.compresses(
            before.placements.entries,
        ))) && objects::refused(
            before,
            after,
            earlier,
            later,
        ),
        Ok((header, footer)) => {
            ||| done matches Err(e) && e is Zstd && builder.compresses(before.placements.entries)
                && objects::refused(before, after, earlier, later)
            ||| done matches Err(e) && objects::manifest_installed(
                before,
                after,
                earlier,
                later,
                header,
                footer,
                Err(e),
            )
            ||| exists|middle: Seq<Event>| #[trigger]
                objects::manifest_installed(before, after, earlier, middle, header, footer, Ok(()))
                    && view_resolved(
                    middle,
                    later,
                    resolve::segment_name(header, footer),
                    after.endpoints.entries,
                    done,
                )
        },
    }
}

/// What resolving a published manifest came to.
pub open spec fn view_resolved(
    earlier: Seq<Event>,
    later: Seq<Event>,
    id: ManifestId,
    endpoints: Map<Seq<u8>, Seq<u8>>,
    done: Result<(ManifestId, ValidatedModel), StoreError>,
) -> bool {
    let replay = resolve::metadata_replay(
        later,
        earlier.len() as int,
        id,
        order::listing::<Vec<u8>, Seq<u8>>(endpoints),
    );
    match done {
        Ok((found, metadata)) => found == id && replay == Replay::Done(
            Ok::<ValidatedModel, StoreError>(metadata),
            later.len() as int,
        ),
        Err(e) => opening::unopened(e, earlier, later) || replay == Replay::Done(
            Err::<ValidatedModel, StoreError>(e),
            later.len() as int,
        ),
    }
}

/// A resolution, by what it says.
pub open spec fn resolution_of(
    id: ManifestId,
    resolved: Result<ValidatedMetadata, StoreError>,
) -> Result<(ManifestId, ValidatedModel), StoreError> {
    match resolved {
        Ok(metadata) => Ok((id, metadata@)),
        Err(error) => Err(error),
    }
}

proof fn lemma_published(
    builder: BuilderModel,
    before: StateModel,
    after: StateModel,
    earlier: Seq<Event>,
    middle: Seq<Event>,
    later: Seq<Event>,
    header: Header,
    footer: Seq<u8>,
    done: Result<(ManifestId, ValidatedModel), StoreError>,
)
    requires
        builder.plan(before.placements.entries) == Ok::<(Header, Seq<u8>), StoreError>(
            (header, footer),
        ),
        objects::manifest_installed(before, after, earlier, middle, header, footer, Ok(())),
        view_resolved(
            middle,
            later,
            resolve::segment_name(header, footer),
            after.endpoints.entries,
            done,
        ),
    ensures
        view_published(builder, before, after, earlier, later, done),
{
}

/// A manifest that is installed and was resolved again.
#[derive(Debug)]
#[must_use]
pub struct DurableView {
    object: Durable<MANIFEST>,
    metadata: ValidatedMetadata,
}

impl DurableView {
    pub closed spec fn of(&self) -> ManifestId {
        self.object.of()
    }

    pub closed spec fn resolution(&self) -> ValidatedModel {
        self.metadata@
    }

    pub fn id(&self) -> (id: ManifestId)
        ensures
            id == self.of(),
    {
        self.object.id()
    }

    pub fn metadata(&self) -> (metadata: &ValidatedMetadata)
        ensures
            metadata@ == self.resolution(),
    {
        &self.metadata
    }

    /// The database, size, transaction and history that the view ends at.
    pub fn endpoint(&self) -> (endpoint: (DatabaseId, LogicalBytes, TransactionId, HistoryHash))
        ensures
            endpoint.0 == self.resolution().view.database,
            endpoint.1 == self.resolution().view.size,
            endpoint.2 == self.resolution().view.txid,
            endpoint.3 == self.resolution().view.history,
    {
        let view: &ViewMetadata = self.metadata.resolved();
        (view.database, view.size, view.txid, view.history)
    }

    /// The header of a pagefile that goes on from the view.
    pub fn continued(&self, header: &ActiveHeader) -> (next: Result<ActiveHeader, StoreError>)
        ensures
            next == continuation(*header, self.of(), self.resolution().view),
    {
        let (_, size, txid, history) = self.endpoint();
        let start_txid: u64 = match txid.value.checked_add(1) {
            Some(start_txid) => start_txid,
            None => {
                return Err(StoreError::Range);
            },
        };
        let mut next: ActiveHeader = *header;
        next.base_history = history.bytes;
        next.parent_physical_digest = self.id().bytes;
        next.start_txid = start_txid;
        next.base_logical_size = size.bytes;
        Ok(next)
    }
}

/// The header of a pagefile once it goes on from a view: it names the view, and
/// starts at its end. The database, the attachment, the page size and the policy
/// stay.
pub open spec fn continuation(header: ActiveHeader, id: ManifestId, view: ViewModel) -> Result<
    ActiveHeader,
    StoreError,
> {
    if view.txid.value == u64::MAX {
        Err(StoreError::Range)
    } else {
        Ok(
            ActiveHeader {
                base_history: view.history.bytes,
                parent_physical_digest: id.bytes,
                start_txid: (view.txid.value + 1) as u64,
                base_logical_size: view.size.bytes,
                ..header
            },
        )
    }
}

/// Whether a set holds every element of another one.
fn holds_all<const KIND: u8>(
    wanted: &OrderedSet<crate::domain::Id<KIND>>,
    held: &OrderedSet<crate::domain::Id<KIND>>,
) -> (all: bool)
    ensures
        all == wanted@.subset_of(held@),
{
    let count: usize = wanted.len();
    let mut i: usize = 0;
    while i < count
        invariant
            i <= count,
            count == wanted.walk().len(),
            wanted.walk().to_set() == wanted@,
            forall|j: int| 0 <= j < i ==> held@.contains(#[trigger] wanted.walk()[j]),
        decreases count - i,
    {
        if !held.contains(wanted.at(i)) {
            proof {
                let missing = wanted.walk()[i as int];
                assert(wanted.walk().contains(missing));
                assert(wanted@.contains(missing));
            }
            return false;
        }
        i += 1;
    }
    proof {
        assert forall|id: crate::domain::Id<KIND>| wanted@.contains(id) implies held@.contains(
            id,
        ) by {
            assert(wanted.walk().contains(id));
            let j = choose|j: int| 0 <= j < wanted.walk().len() && wanted.walk()[j] == id;
            assert(held@.contains(wanted.walk()[j]));
        }
    }
    true
}

impl<'source> ManifestBuilder<'source> {
    /// A builder of a view. A source that was pinned elsewhere is refused.
    pub fn new(home: BackendId, metadata: ViewMetadata, source: Option<&'source PinnedView>) -> (builder:
        Result<Self, StoreError>)
        ensures
            match builder {
                Ok(b) => b@ == builder_of(
                    home,
                    metadata@,
                    match source {
                        Some(pin) => Some(pin@.metadata),
                        None => None,
                    },
                ) && (source matches Some(pin) ==> pin.at_home() == home),
                Err(e) => e == StoreError::IdentityMismatch && (source matches Some(pin)
                    && pin.at_home() != home),
            },
    {
        match source {
            None => {
                let txid: TransactionId = metadata.txid;
                Ok(
                    ManifestBuilder {
                        home,
                        metadata,
                        packs: OrderedSet::new(),
                        dictionaries: OrderedSet::new(),
                        onto: None,
                        begin: txid,
                        represented: txid,
                    },
                )
            },
            Some(pin) => {
                if !pin.same_catalog(&home) {
                    return Err(StoreError::IdentityMismatch);
                }
                let resolved: &'source ValidatedMetadata = pin.metadata();
                let base: &ViewMetadata = resolved.resolved();
                let represented: TransactionId = if base.txid.value < metadata.txid.value {
                    TransactionId { value: base.txid.value + 1 }
                } else {
                    metadata.txid
                };
                Ok(
                    ManifestBuilder {
                        home,
                        metadata,
                        packs: base.packs(),
                        dictionaries: base.dictionaries(),
                        onto: Some(resolved),
                        begin: resolved.span().begin,
                        represented,
                    },
                )
            },
        }
    }

    /// Builds a checkpoint, whatever a run would save.
    pub fn checkpoint(self) -> (builder: Self)
        ensures
            builder@ == (BuilderModel { onto: None, ..self@ }),
    {
        ManifestBuilder {
            home: self.home,
            metadata: self.metadata,
            packs: self.packs,
            dictionaries: self.dictionaries,
            onto: None,
            begin: self.begin,
            represented: self.represented,
        }
    }

    /// Takes a pack by its receipt.
    pub fn pack(&mut self, receipt: &Durable<PACK>) -> (done: Result<(), StoreError>)
        ensures
            match done {
                Ok(_) => receipt.at_home() == old(self)@.home && final(self)@ == (BuilderModel {
                    packs: old(self)@.packs.insert(receipt.of()),
                    ..old(self)@
                }),
                Err(e) => receipt.at_home() != old(self)@.home && e == StoreError::IdentityMismatch
                    && final(self)@ == old(self)@,
            },
    {
        if !receipt.belongs_to(&self.home) {
            return Err(StoreError::IdentityMismatch);
        }
        self.packs.insert(receipt.id());
        Ok(())
    }

    /// Takes a dictionary by its receipt.
    pub fn dictionary(&mut self, receipt: &Durable<DICTIONARY>) -> (done: Result<(), StoreError>)
        ensures
            match done {
                Ok(_) => receipt.at_home() == old(self)@.home && final(self)@ == (BuilderModel {
                    dictionaries: old(self)@.dictionaries.insert(receipt.of()),
                    ..old(self)@
                }),
                Err(e) => receipt.at_home() != old(self)@.home && e == StoreError::IdentityMismatch
                    && final(self)@ == old(self)@,
            },
    {
        if !receipt.belongs_to(&self.home) {
            return Err(StoreError::IdentityMismatch);
        }
        self.dictionaries.insert(receipt.id());
        Ok(())
    }

    /// The header and footer to publish.
    fn build(&self, placements: &OrderedMap<Vec<u8>, Vec<u8>>) -> (segment: Result<
        (Header, Vec<u8>),
        StoreError,
    >)
        requires
            self@.view.resolvable(),
            self@.view.size.wf(),
        ensures
            match segment {
                Ok((header, footer)) => self@.plan(placements@) == Ok::<
                    (Header, Seq<u8>),
                    StoreError,
                >((header, footer@)),
                Err(e) => (e is Zstd && self@.compresses(placements@)) || self@.plan(placements@) == Err::<
                    (Header, Seq<u8>),
                    StoreError,
                >(e),
            },
    {
        proof {
            reveal(BuilderModel::plan);
        }
        let packs: OrderedSet<PackId> = self.metadata.packs();
        let dictionaries: OrderedSet<DictionaryId> = self.metadata.dictionaries();
        if !holds_all(&packs, &self.packs) || !holds_all(&dictionaries, &self.dictionaries) {
            return Err(StoreError::Corrupt(0));
        }
        match validate_ranges(&self.metadata, placements) {
            Ok(_) => {},
            Err(error) => {
                return Err(error);
            },
        }
        let run: Option<MetadataRun> = choose_run(self.onto, &self.metadata)?;
        build_segment(&run, &self.metadata, self.begin, self.represented)
    }

    /// Publishes the view.
    pub fn finalize<B: StorageBackend>(self, backend: &mut B, state: &mut State) -> (view: Result<
        DurableView,
        StoreError,
    >)
        requires
            self@.view.resolvable(),
            self@.view.size.wf(),
        ensures
            final(backend).namespace() == old(backend).namespace(),
            adapter::extends(old(backend).history(), final(backend).history()),
            view_published(
                self@,
                old(state)@,
                final(state)@,
                old(backend).history(),
                final(backend).history(),
                match view {
                    Ok(v) => Ok((v.of(), v.resolution())),
                    Err(e) => Err(e),
                },
            ),
    {
        let (header, footer) = self.build(state.placements.entries())?;
        let object: Durable<MANIFEST> = install_manifest(backend, state, header, &footer)?;
        let ghost middle = backend.history();
        let resolved: Result<ValidatedMetadata, StoreError> = load_metadata(
            backend,
            state.endpoints.entries(),
            object.id(),
        );
        proof {
            lemma_published(
                self@,
                old(state)@,
                state@,
                old(backend).history(),
                middle,
                backend.history(),
                header,
                footer@,
                resolution_of(object.of(), resolved),
            );
        }
        let metadata: ValidatedMetadata = resolved?;
        let view: DurableView = DurableView { object, metadata };
        Ok(view)
    }
}

/// Publishes what a pinned view says as a checkpoint.
pub fn checkpoint_manifest<B: StorageBackend>(
    backend: &mut B,
    state: &mut State,
    source: &PinnedView,
) -> (view: Result<DurableView, StoreError>)
    ensures
        final(backend).namespace() == old(backend).namespace(),
        adapter::extends(old(backend).history(), final(backend).history()),
        if source.at_home() != old(backend).namespace() {
            view matches Err(e) && e == StoreError::IdentityMismatch && objects::refused(
                old(state)@,
                final(state)@,
                old(backend).history(),
                final(backend).history(),
            )
        } else {
            view_published(
                BuilderModel {
                    onto: None,
                    ..builder_of(
                        old(backend).namespace(),
                        source@.metadata.view,
                        Some(source@.metadata),
                    )
                },
                old(state)@,
                final(state)@,
                old(backend).history(),
                final(backend).history(),
                match view {
                    Ok(v) => Ok((v.of(), v.resolution())),
                    Err(e) => Err(e),
                },
            )
        },
{
    let home: BackendId = backend.identity();
    let resolved: &ViewMetadata = source.metadata().resolved();
    let draft: ViewMetadata = resolved.duplicate();
    let builder: ManifestBuilder<'_> = ManifestBuilder::new(home, draft, Some(source))?;
    builder.checkpoint().finalize(backend, state)
}

/// A checkpoint of a pinned view, whose payloads lie within their packs, can be
/// planned, unless its encoding is too long: what it depends on is reached
/// through the view itself.
pub proof fn law_checkpoint_covered(home: BackendId, source: ValidatedModel)
    ensures
        (BuilderModel { onto: None, ..builder_of(home, source.view, Some(source)) }).covered(),
{
}

/// Compaction keeps what a view says: the manifest that is written for it in full
/// is read as that view, with the same endpoint, the same pages, and the payloads
/// where they were, if the budget allows for its length.
pub proof fn law_compaction_keeps_the_view(
    home: BackendId,
    source: ValidatedModel,
    placements: Map<Seq<u8>, Seq<u8>>,
    header: Header,
    footer: Seq<u8>,
    budget: u64,
)
    requires
        view_codec::encodable(source.view),
        validation::view_check(source.view) is Ok,
        (BuilderModel { onto: None, ..builder_of(home, source.view, Some(source)) }).plan(placements)
            == Ok::<(Header, Seq<u8>), StoreError>((header, footer)),
        builder::kept_by_compressor(source.view.encoding()),
        builder::kept_by_compressor(
            builder::footer_raw(source.view.root(), builder::view_object(source.view)),
        ),
        builder::footer_raw(source.view.root(), builder::view_object(source.view)).len()
            + source.view.encoding().len() + RUN_PREFIX <= budget <= usize::MAX,
    ensures
        manifest::manifest_parse(header, footer, budget) matches Ok(RecordModel::Checkpoint(found))
            && found.view == source.view && found.span == (TransactionSpan {
            begin: source.span.begin,
            end: source.view.txid,
        }) && found.ancestors.len() == 0 && found.parent is Checkpoint,
        header.logical_hash == source.view.hash(),
        header.parent is Checkpoint,
{
    let model = BuilderModel { onto: None, ..builder_of(home, source.view, Some(source)) };
    reveal(BuilderModel::plan);
    builder::law_checkpoint_reads_back(
        source.view,
        model.begin,
        model.represented,
        header,
        footer,
        budget,
    );
}

/// What was compacted once compacts to the same manifest: a view that was read from
/// it, with the same span, has the same header and footer, and so the same name.
pub proof fn law_compaction_is_stable(
    home: BackendId,
    source: ValidatedModel,
    compacted: ValidatedModel,
    placements: Map<Seq<u8>, Seq<u8>>,
    header: Header,
    footer: Seq<u8>,
)
    requires
        (BuilderModel { onto: None, ..builder_of(home, source.view, Some(source)) }).plan(placements)
            == Ok::<(Header, Seq<u8>), StoreError>((header, footer)),
        compacted.view == source.view,
        compacted.span.begin == source.span.begin,
    ensures
        (BuilderModel {
            onto: None,
            ..builder_of(home, compacted.view, Some(compacted))
        }).plan(placements) == Ok::<(Header, Seq<u8>), StoreError>((header, footer)),
{
    reveal(BuilderModel::plan);
}

/// A pagefile that goes on from a view names its manifest, its history and its size, and
/// starts with the transaction after its last. It stays the same pagefile of the same
/// database.
pub proof fn law_pagefile_goes_on(header: ActiveHeader, id: ManifestId, view: ViewModel)
    requires
        view.txid.value < u64::MAX,
    ensures
        continuation(header, id, view) matches Ok(after) && after.parent_physical_digest == id.bytes
            && after.base_history == view.history.bytes && after.base_logical_size == view.size.bytes
            && after.start_txid == view.txid.value + 1 && after.database_id == header.database_id
            && after.attachment_id == header.attachment_id && after.page_size == header.page_size
            && after.policy == header.policy,
{
}

/// What a manifest covers begins where its source began, and what it adds begins after
/// the last transaction of its source. One without a source begins at its own.
pub proof fn law_spans_follow(home: BackendId, view: ViewModel, source: Option<ValidatedModel>)
    ensures
        ({
            let builder = builder_of(home, view, source);
            &&& builder.view == view
            &&& builder.onto == source
            &&& source matches Some(s) ==> builder.begin == s.span.begin && (s.view.txid.value
                < view.txid.value ==> builder.represented.value == s.view.txid.value + 1) && (
            s.view.txid.value >= view.txid.value ==> builder.represented == view.txid)
            &&& source is None ==> builder.begin == view.txid && builder.represented == view.txid
        }),
{
}

/// A view with a frame in a pack, or with a dictionary, that is neither durable nor reached
/// through the source is not published.
pub proof fn law_missing_dependency_is_refused(
    builder: BuilderModel,
    placements: Map<Seq<u8>, Seq<u8>>,
    frame: crate::domain::FrameId,
)
    requires
        builder.view.frames.dom().contains(frame),
        !builder.packs.contains(builder.view.frames[frame].pack) || (
        builder.view.frames[frame].frame.encoding.dictionary() is Some
            && !builder.dictionaries.contains(
            builder.view.frames[frame].frame.encoding.dictionary()->Some_0,
        )),
    ensures
        builder.plan(placements) is Err,
        !builder.compresses(placements),
{
    reveal(BuilderModel::plan);
    let location = builder.view.frames[frame];
    assert(builder.view.packs().contains(location.pack));
    match location.frame.encoding.dictionary() {
        Some(id) => {
            assert(builder.view.dictionaries().contains(id));
        },
        None => {},
    }
}

} // verus!
