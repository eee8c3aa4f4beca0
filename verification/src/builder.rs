//! Building manifests: a run onto a source where that pays, else a checkpoint.

use crate::bytes::append;
use crate::codec;
use crate::domain::{
    BackendId, CONTENT, ContentRoot, FrameId, Id, PackId, SegmentCoverage, StoredBytes,
    TransactionId, TransactionSpan, ValueError, ViewHash,
};
use crate::draft;
use crate::error::{StoreError, valued};
use crate::manifest;
use crate::manifest::{FOOT_MAGIC, RecordModel};
use crate::order::{OrderedMap, OrderedSet};
use crate::pin;
use crate::pin::read_placement;
use crate::run;
use crate::run::{MAX_RUN_DEPTH, MetadataRun, RUN_MAGIC, RUN_PREFIX, RunModel};
use crate::run_codec;
use crate::segment;
use crate::segment::{Header, Parent, ParentRef};
use crate::validation;
use crate::validation::{ValidatedMetadata, ValidatedModel};
use crate::view::{LocationModel, VIEW_LIMIT, ViewMetadata, ViewModel};
use crate::view_codec;
use crate::view_codec::VIEW_MAGIC;
use crate::wire;
use crate::wire::{envelope, u32_bytes};
use vstd::prelude::*;

verus! {

/// A run onto a source that is worth having: the chain stays short, the run says
/// less than the view, and chain and run leave room within the limits.
pub open spec fn run_pays(run: RunModel, source: ValidatedModel, target: ViewModel) -> bool {
    &&& source.ancestors.len() < MAX_RUN_DEPTH
    &&& run.patch.page_list().len() + run.removed_list().len() < target.page_list().len()
    &&& source.decoded + 2 * run.cost() + 1024 <= VIEW_LIMIT
}

/// The run to build a manifest as, if any.
pub open spec fn run_choice(source: Option<ValidatedModel>, target: ViewModel) -> Result<
    Option<RunModel>,
    StoreError,
> {
    match source {
        None => Ok(None),
        Some(source) => match run::between_outcome(source, target) {
            Err(error) => Err(error),
            Ok(run) => if run_pays(run, source, target) {
                Ok(Some(run))
            } else {
                Ok(None)
            },
        },
    }
}

/// Chooses how to build a manifest.
pub fn choose_run(source: Option<&ValidatedMetadata>, target: &ViewMetadata) -> (run: Result<
    Option<MetadataRun>,
    StoreError,
>)
    requires
        target@.resolvable(),
        target@.size.wf(),
    ensures
        ({
            let from = match source {
                Some(s) => Some(s@),
                None => None,
            };
            match run {
                Ok(Some(r)) => run_choice(from, target@) == Ok::<Option<RunModel>, StoreError>(
                    Some(r@),
                ),
                Ok(None) => run_choice(from, target@) == Ok::<Option<RunModel>, StoreError>(None),
                Err(e) => run_choice(from, target@) == Err::<Option<RunModel>, StoreError>(e),
            }
        }),
{
    let source: &ValidatedMetadata = match source {
        None => {
            return Ok(None);
        },
        Some(source) => source,
    };
    let run: MetadataRun = MetadataRun::between(source, target)?;
    let pages: usize = run.patch().pages.len();
    let removed: usize = run.removed().len();
    let whole: usize = target.pages.len();
    let resolved: u64 = source.decoded_bytes().value;
    if source.ancestors().len() >= MAX_RUN_DEPTH || pages >= whole || removed >= whole - pages {
        return Ok(None);
    }
    let fits: bool = match run.decoded_bytes() {
        None => false,
        Some(cost) => cost <= VIEW_LIMIT as u64 && resolved <= VIEW_LIMIT as u64 && resolved + 2
            * cost + 1024 <= VIEW_LIMIT as u64,
    };
    if fits {
        Ok(Some(run))
    } else {
        Ok(None)
    }
}

/// The object of a checkpoint.
pub open spec fn view_object(view: ViewModel) -> Seq<u8> {
    wire::envelope_bytes(VIEW_MAGIC@, view.encoding(), codec::zstd_frame(view.encoding(), 3))
}

/// The object of a run.
pub open spec fn run_object(run: RunModel) -> Seq<u8> {
    wire::envelope_bytes(RUN_MAGIC@, run.raw(), codec::zstd_frame(run.raw(), 3))
}

/// What a footer holds: the content root, and the record.
pub open spec fn footer_raw(root: ContentRoot, encoded: Seq<u8>) -> Seq<u8> {
    root.bytes@ + crate::bytes::le(encoded.len(), 4) + encoded
}

/// The footer of a manifest.
pub open spec fn footer_object(raw: Seq<u8>) -> Seq<u8> {
    wire::envelope_bytes(FOOT_MAGIC@, raw, codec::zstd_frame(raw, 3))
}

/// The parent that a manifest names, by the run that it is built as.
pub open spec fn parent_of(run: Option<RunModel>) -> Parent {
    match run {
        Some(run) => Parent::Previous(run.parent),
        None => Parent::Checkpoint,
    }
}

/// The record of a manifest, too long or not.
pub open spec fn record_outcome(run: Option<RunModel>, target: ViewModel) -> Result<
    Seq<u8>,
    StoreError,
> {
    match run {
        Some(run) => if run.raw().len() > VIEW_LIMIT {
            Err(StoreError::Range)
        } else {
            Ok(run_object(run))
        },
        None => if target.encoding().len() > VIEW_LIMIT {
            Err(StoreError::Range)
        } else {
            Ok(view_object(target))
        },
    }
}

/// The header and footer of a manifest, or why it cannot be built, where the
/// compressor works.
pub open spec fn build_outcome(
    run: Option<RunModel>,
    target: ViewModel,
    begin: TransactionId,
    represented: TransactionId,
) -> Result<(Header, Seq<u8>), StoreError> {
    if begin.value > target.txid.value {
        Err(StoreError::Value(ValueError))
    } else {
        match record_outcome(run, target) {
            Err(error) => Err(error),
            Ok(encoded) => {
                let raw = footer_raw(target.root(), encoded);
                let span = TransactionSpan { begin, end: target.txid };
                let first = if run is None {
                    begin
                } else {
                    represented
                };
                let coverage = SegmentCoverage { full: span, represented: first };
                if encoded.len() > u32::MAX || raw.len() > VIEW_LIMIT {
                    Err(StoreError::Range)
                } else if !(begin.value <= first.value <= target.txid.value) {
                    Err(StoreError::Value(ValueError))
                } else if !segment::coverage_matches(coverage, parent_of(run)) {
                    Err(StoreError::Range)
                } else {
                    Ok(
                        (
                            Header { coverage, logical_hash: target.hash(), parent: parent_of(run) },
                            footer_object(raw),
                        ),
                    )
                }
            },
        }
    }
}

/// The record of a manifest is handed to the compressor.
pub open spec fn compresses(run: Option<RunModel>, target: ViewModel, begin: TransactionId) -> bool {
    begin.value <= target.txid.value && record_outcome(run, target) is Ok
}

/// Builds the header and footer of a manifest. The compressor may fail on what it
/// is handed.
pub fn build_segment(
    run: &Option<MetadataRun>,
    target: &ViewMetadata,
    begin: TransactionId,
    represented: TransactionId,
) -> (segment: Result<(Header, Vec<u8>), StoreError>)
    requires
        target@.resolvable(),
    ensures
        ({
            let model = match run {
                Some(r) => Some(r@),
                None => None,
            };
            match segment {
                Ok((header, footer)) => build_outcome(model, target@, begin, represented) == Ok::<
                    (Header, Seq<u8>),
                    StoreError,
                >((header, footer@)),
                Err(e) => (e is Zstd && compresses(model, target@, begin)) || build_outcome(model, target@, begin, represented) == Err::<
                    (Header, Seq<u8>),
                    StoreError,
                >(e),
            }
        }),
{
    let root: ContentRoot = match target.content_root() {
        Some(root) => root,
        None => {
            assert(false);
            return Err(StoreError::Corrupt(0));
        },
    };
    let hash: ViewHash = target.logical_hash_for(&root);
    proof {
        draft::lemma_named(root, target@.content_input());
        draft::lemma_named(hash, target@.logical_input(root.bytes@));
    }
    let span: TransactionSpan = valued(TransactionSpan::new(begin, target.txid))?;
    let (parent, first, encoded) = match run {
        Some(run) => (Parent::Previous(run.parent()), represented, run.encode()?),
        None => (Parent::Checkpoint, begin, target.encode()?),
    };
    if encoded.len() > u32::MAX as usize {
        return Err(StoreError::Range);
    }
    let mut raw: Vec<u8> = Vec::new();
    append(&mut raw, root.bytes.as_slice());
    u32_bytes(&mut raw, encoded.len() as u32);
    append(&mut raw, encoded.as_slice());
    assert(raw@ =~= footer_raw(root, encoded@));
    if raw.len() > VIEW_LIMIT {
        return Err(StoreError::Range);
    }
    let footer: Vec<u8> = crate::wire::envelope(&FOOT_MAGIC, raw.as_slice())?;
    let coverage: SegmentCoverage = valued(SegmentCoverage::new(span, first))?;
    let header: Header = Header::new(coverage, hash, parent)?;
    Ok((header, footer))
}

/// What the placements of a catalog say of the payloads of a list of frames, from
/// place `i` on: each must lie within its pack.
pub open spec fn payloads_check(
    list: Seq<(FrameId, LocationModel)>,
    entries: Map<Seq<u8>, Seq<u8>>,
    i: int,
) -> Result<(), StoreError>
    decreases list.len() - i,
{
    if i >= list.len() {
        Ok(())
    } else {
        let location = list[i].1;
        match pin::entry_placement(entries, location.pack) {
            Err(error) => Err(error),
            Ok(placement) => if location.payload.offset.value + location.payload.length.value
                > placement.length {
                Err(StoreError::Value(ValueError))
            } else {
                payloads_check(list, entries, i + 1)
            },
        }
    }
}

/// What the placements of a catalog say of some packs, from place `i` on: each
/// must be placed.
pub open spec fn packs_check(packs: Seq<PackId>, entries: Map<Seq<u8>, Seq<u8>>, i: int) -> Result<
    (),
    StoreError,
>
    decreases packs.len() - i,
{
    if i >= packs.len() {
        Ok(())
    } else {
        match pin::entry_placement(entries, packs[i]) {
            Err(error) => Err(error),
            Ok(_) => packs_check(packs, entries, i + 1),
        }
    }
}

/// What the placements of a catalog say of a view: every pack must be placed, and
/// every payload lie within its pack.
pub open spec fn ranges_check(view: ViewModel, entries: Map<Seq<u8>, Seq<u8>>) -> Result<
    (),
    StoreError,
> {
    match packs_check(crate::order::roll::<PackId>(view.packs()), entries, 0) {
        Err(error) => Err(error),
        Ok(_) => payloads_check(view.frame_list(), entries, 0),
    }
}

/// Checks a view against the placements of a catalog.
pub fn validate_ranges(view: &ViewMetadata, entries: &OrderedMap<Vec<u8>, Vec<u8>>) -> (done: Result<
    (),
    StoreError,
>)
    ensures
        done == ranges_check(view@, entries@),
{
    let packs: OrderedSet<PackId> = view.packs();
    let count: usize = packs.len();
    let mut i: usize = 0;
    while i < count
        invariant
            i <= count,
            packs@ == view@.packs(),
            count == packs.walk().len(),
            packs_check(packs.walk(), entries@, 0) == packs_check(
                packs.walk(),
                entries@,
                i as int,
            ),
        decreases count - i,
    {
        match read_placement(entries, *packs.at(i)) {
            Ok(_) => {},
            Err(error) => {
                return Err(error);
            },
        }
        i += 1;
    }
    let frames: usize = view.frames.len();
    let ghost list = view.frames.pairs();
    let mut k: usize = 0;
    while k < frames
        invariant
            k <= frames,
            frames == list.len(),
            list == view.frames.pairs(),
            list == view@.frame_list(),
            packs_check(crate::order::roll::<PackId>(view@.packs()), entries@, 0) == Ok::<
                (),
                StoreError,
            >(()),
            payloads_check(list, entries@, 0) == payloads_check(list, entries@, k as int),
        decreases frames - k,
    {
        let location: &crate::view::FrameLocation = view.frames.value_at(k);
        match read_placement(entries, location.pack()) {
            Err(error) => {
                return Err(error);
            },
            Ok(placement) => {
                match location.payload().within(placement.length) {
                    Ok(_) => {},
                    Err(error) => {
                        return Err(StoreError::Value(error));
                    },
                }
            },
        }
        k += 1;
    }
    Ok(())
}

/// A synced object of a namespace. Nothing is said of whether it can be reached.
#[derive(Clone, Copy, Debug, PartialEq, Eq)]
pub struct Durable<const KIND: u8> {
    pub(crate) home: BackendId,
    pub(crate) id: Id<KIND>,
    pub(crate) length: StoredBytes,
}

impl<const KIND: u8> Durable<KIND> {
    pub closed spec fn of(&self) -> Id<KIND> {
        self.id
    }

    pub closed spec fn at_home(&self) -> BackendId {
        self.home
    }

    pub closed spec fn size(&self) -> StoredBytes {
        self.length
    }

    pub(crate) fn new(home: BackendId, id: Id<KIND>, length: StoredBytes) -> (receipt: Self)
        ensures
            receipt.of() == id,
            receipt.at_home() == home,
            receipt.size() == length,
    {
        Durable { home, id, length }
    }

    pub fn id(&self) -> (id: Id<KIND>)
        ensures
            id == self.of(),
    {
        self.id
    }

    pub fn length(&self) -> (length: StoredBytes)
        ensures
            length == self.size(),
    {
        self.length
    }

    /// Whether the object belongs to a namespace.
    pub fn belongs_to(&self, home: &BackendId) -> (belongs: bool)
        ensures
            belongs == (*home == self.at_home()),
    {
        self.home.same(home)
    }
}

/// The compressor's frame for some bytes stands for them.
pub open spec fn kept_by_compressor(raw: Seq<u8>) -> bool {
    let frame = codec::zstd_frame(raw, 3);
    codec::zstd_content(frame) == raw && 48 + frame.len() <= usize::MAX
}

proof fn lemma_footer(root: ContentRoot, encoded: Seq<u8>, budget: u64)
    requires
        16 <= encoded.len() <= u32::MAX,
        kept_by_compressor(footer_raw(root, encoded)),
        footer_raw(root, encoded).len() <= VIEW_LIMIT,
        footer_raw(root, encoded).len() + crate::bytes::le_value(encoded.subrange(8, 16))
            + RUN_PREFIX <= budget <= usize::MAX,
    ensures
        manifest::footer_parts(footer_object(footer_raw(root, encoded)), budget) == Ok::<
            (ContentRoot, Seq<u8>, int, Result<(), StoreError>),
            StoreError,
        >(
            (
                root,
                encoded,
                (footer_raw(root, encoded).len() + crate::bytes::le_value(
                    encoded.subrange(8, 16),
                )) as int,
                Ok(()),
            ),
        ),
{
    let raw = footer_raw(root, encoded);
    let limit = if budget < VIEW_LIMIT {
        budget as int
    } else {
        VIEW_LIMIT as int
    };
    wire::law_envelope_round_trip(FOOT_MAGIC@, raw, codec::zstd_frame(raw, 3), limit);
    let none = Seq::<u8>::empty();
    let length = crate::bytes::le(encoded.len(), 4);
    crate::bytes::lemma_le_len(encoded.len(), 4);
    crate::bytes::lemma_le_bounds();
    assert(raw =~= none + root.bytes@ + (length + encoded));
    view_codec::lemma_id_piece(none, root, length + encoded);
    assert(raw =~= root.bytes@ + length + encoded);
    wire::lemma_number_piece(root.bytes@, encoded.len(), 4, encoded);
    assert(raw =~= (root.bytes@ + length) + encoded + none);
    wire::lemma_take_piece(root.bytes@ + length, encoded, none);
}

proof fn lemma_root_bytes(view: ViewModel)
    ensures
        view.root().bytes@ == crate::digest::content_hash(view.content_input()),
{
    crate::frame::lemma_id_bytes::<CONTENT>(
        crate::digest::content_hash(view.content_input()),
    );
}

proof fn lemma_envelope_length(magic: Seq<u8>, raw: Seq<u8>, frame: Seq<u8>)
    requires
        magic.len() == 8,
        raw.len() <= VIEW_LIMIT,
    ensures
        ({
            let encoded = wire::envelope_bytes(magic, raw, frame);
            &&& encoded.len() >= 16
            &&& encoded.take(8) == magic
            &&& crate::bytes::le_value(encoded.subrange(8, 16)) == raw.len()
        }),
{
    let encoded = wire::envelope_bytes(magic, raw, frame);
    let length = crate::bytes::le(raw.len(), 8);
    crate::bytes::lemma_le_len(raw.len(), 8);
    crate::bytes::lemma_le_bounds();
    crate::bytes::law_le_round_trip(raw.len(), 8);
    assert(encoded.take(8) =~= magic);
    assert(encoded.subrange(8, 16) =~= length);
}

/// A manifest that was built as a checkpoint of a valid view is read as that
/// view, where the budget allows for its length.
pub proof fn law_checkpoint_reads_back(
    target: ViewModel,
    begin: TransactionId,
    represented: TransactionId,
    header: Header,
    footer: Seq<u8>,
    budget: u64,
)
    requires
        view_codec::encodable(target),
        validation::view_check(target) is Ok,
        build_outcome(None, target, begin, represented) == Ok::<(Header, Seq<u8>), StoreError>(
            (header, footer),
        ),
        kept_by_compressor(target.encoding()),
        kept_by_compressor(footer_raw(target.root(), view_object(target))),
        footer_raw(target.root(), view_object(target)).len() + target.encoding().len()
            + RUN_PREFIX <= budget <= usize::MAX,
    ensures
        manifest::manifest_parse(header, footer, budget) == Ok::<RecordModel, StoreError>(
            RecordModel::Checkpoint(
                ValidatedModel {
                    span: TransactionSpan { begin, end: target.txid },
                    decoded: (footer_raw(target.root(), view_object(target)).len()
                        + target.encoding().len()) as int,
                    ..manifest::standing(target, 0)
                },
            ),
        ),
{
    let encoded = view_object(target);
    let raw = target.encoding();
    lemma_envelope_length(VIEW_MAGIC@, raw, codec::zstd_frame(raw, 3));
    lemma_footer(target.root(), encoded, budget);
    wire::law_envelope_round_trip(
        VIEW_MAGIC@,
        raw,
        codec::zstd_frame(raw, 3),
        VIEW_LIMIT as int,
    );
    view_codec::law_view_round_trip(target);
    lemma_root_bytes(target);
    let found = manifest::manifest_parse(header, footer, budget);
    assert(manifest::record_parse(encoded) == Ok::<RecordModel, StoreError>(
        RecordModel::Checkpoint(manifest::standing(target, raw.len() as int)),
    ));
    assert(manifest::hash_with(target, target.root()) == header.logical_hash);
}

/// A manifest that was built as a run is read as that run, where the budget
/// allows for its length.
#[verifier::rlimit(40)]
#[verifier::spinoff_prover]
pub proof fn law_run_reads_back(
    run: RunModel,
    target: ViewModel,
    begin: TransactionId,
    represented: TransactionId,
    header: Header,
    footer: Seq<u8>,
    budget: u64,
)
    requires
        run_codec::run_parse(run.raw()) == Ok::<RunModel, StoreError>(run),
        run.patch.txid == target.txid,
        run.patch.logical_input(target.root().bytes@) == target.logical_input(
            target.root().bytes@,
        ),
        run.span == (TransactionSpan { begin, end: target.txid }),
        run.root == target.root(),
        build_outcome(Some(run), target, begin, represented) == Ok::<(Header, Seq<u8>), StoreError>(
            (header, footer),
        ),
        kept_by_compressor(run.raw()),
        kept_by_compressor(footer_raw(target.root(), run_object(run))),
        footer_raw(target.root(), run_object(run)).len() + run.raw().len() + RUN_PREFIX <= budget
            <= usize::MAX,
    ensures
        manifest::manifest_parse(header, footer, budget) == Ok::<RecordModel, StoreError>(
            RecordModel::Run(
                RunModel {
                    decoded: (footer_raw(target.root(), run_object(run)).len()
                        + run.raw().len()) as int,
                    ..run
                },
            ),
        ),
{
    let encoded = run_object(run);
    let raw = run.raw();
    lemma_envelope_length(RUN_MAGIC@, raw, codec::zstd_frame(raw, 3));
    lemma_footer(target.root(), encoded, budget);
    wire::law_envelope_round_trip(
        RUN_MAGIC@,
        raw,
        codec::zstd_frame(raw, 3),
        VIEW_LIMIT as int,
    );
    lemma_root_bytes(target);
    assert(RUN_MAGIC@[1] != VIEW_MAGIC@[1]);
    assert(RUN_MAGIC@ != VIEW_MAGIC@);
    let record = RecordModel::Run(run);
    assert(manifest::record_parse(encoded) == Ok::<RecordModel, StoreError>(record));
    assert(manifest::hash_with(run.patch, target.root()) == header.logical_hash);
    assert(manifest::record_parented(record, header, target.root()));
    assert(footer == footer_object(footer_raw(target.root(), encoded)));
}

/// A manifest that is written as a run names the view that it was built on, by its
/// hash and its last transaction, and no chain of runs grows beyond the limit. One
/// that is written in full names none.
pub proof fn law_manifest_names_its_parent(
    source: Option<ValidatedModel>,
    target: ViewModel,
    begin: TransactionId,
    represented: TransactionId,
    run: Option<RunModel>,
    header: Header,
    footer: Seq<u8>,
)
    requires
        run_choice(source, target) == Ok::<Option<RunModel>, StoreError>(run),
        build_outcome(run, target, begin, represented) == Ok::<(Header, Seq<u8>), StoreError>(
            (header, footer),
        ),
    ensures
        header.logical_hash == target.hash(),
        header.coverage.full.end == target.txid,
        match run {
            None => header.parent is Checkpoint,
            Some(_) => source matches Some(s) && s.ancestors.len() + 1 <= MAX_RUN_DEPTH
                && header.parent == Parent::Previous(
                ParentRef { hash: s.view.hash(), txid: s.view.txid },
            ),
        },
{
}

/// A manifest builds on its source only where that pays: fewer than sixty-four stand
/// below it, the pages that changed or went are fewer than those of the view, and all of
/// the chain can still be read. Else it is written in full.
pub proof fn law_runs_pay(source: ValidatedModel, target: ViewModel, choice: Option<RunModel>)
    requires
        run_choice(Some(source), target) == Ok::<Option<RunModel>, StoreError>(choice),
    ensures
        run::between_outcome(source, target) matches Ok(run) && ({
            let pays = source.ancestors.len() < 64 && run.patch.page_list().len()
                + run.removed_list().len() < target.page_list().len() && source.decoded + 2
                * run.cost() + 1024 <= 536870912;
            choice == if pays {
                Some(run)
            } else {
                None
            }
        }),
        run_choice(None, target) == Ok::<Option<RunModel>, StoreError>(None),
{
}

} // verus!
