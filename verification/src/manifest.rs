//! Manifests: segments that hold a view, or a run onto another one.

use crate::adapter::StorageBackend;
use crate::bytes::{read_le, same_bytes};
use crate::digest;
use crate::domain::{CONTENT, ContentRoot, Count, TransactionSpan, ViewHash};
use crate::draft;
use crate::error::StoreError;
use crate::frame;
use crate::opening;
use crate::run::{MetadataRun, RUN_MAGIC, RUN_PREFIX, RunModel};
use crate::run_codec;
use crate::segment::{Container, Header, Parent};
use crate::validation::{ValidatedMetadata, ValidatedModel};
use crate::view::{VIEW_LIMIT, ViewMetadata, ViewModel};
use crate::view_codec;
use crate::view_codec::{VIEW_MAGIC, read_id};
use crate::wire;
use crate::wire::{Decoder, open_envelope};
use vstd::prelude::*;
use vstd::slice::slice_subrange;

verus! {

/// `ZFOOT001`.
pub const FOOT_MAGIC: [u8; 8] = [90, 70, 79, 79, 84, 48, 48, 49];

/// What a manifest holds.
pub enum RecordModel {
    Checkpoint(ValidatedModel),
    Run(RunModel),
}

/// A manifest's record: a whole view, or a run onto its parent.
pub enum ManifestRecord {
    Checkpoint(ValidatedMetadata),
    Run(MetadataRun),
}

impl View for ManifestRecord {
    type V = RecordModel;

    open spec fn view(&self) -> RecordModel {
        match self {
            ManifestRecord::Checkpoint(view) => RecordModel::Checkpoint(view@),
            ManifestRecord::Run(run) => RecordModel::Run(run@),
        }
    }
}

/// A view that stands alone.
pub open spec fn standing(view: ViewModel, decoded: int) -> ValidatedModel {
    ValidatedModel {
        view,
        span: TransactionSpan { begin: view.txid, end: view.txid },
        ancestors: Seq::empty(),
        decoded,
        parent: Parent::Checkpoint,
    }
}

/// The record that an envelope holds, by its magic.
pub open spec fn record_parse(bytes: Seq<u8>) -> Result<RecordModel, StoreError> {
    if bytes.len() < 8 {
        Err(StoreError::Corrupt(0))
    } else if bytes.take(8) == VIEW_MAGIC@ {
        match wire::envelope_content(VIEW_MAGIC@, bytes, VIEW_LIMIT as int) {
            Err(error) => Err(error),
            Ok(raw) => match view_codec::raw_parse(raw) {
                Err(error) => Err(error),
                Ok(view) => Ok(RecordModel::Checkpoint(standing(view, raw.len() as int))),
            },
        }
    } else if bytes.take(8) == RUN_MAGIC@ {
        match wire::envelope_content(RUN_MAGIC@, bytes, VIEW_LIMIT as int) {
            Err(error) => Err(error),
            Ok(raw) => match run_codec::run_parse(raw) {
                Err(error) => Err(error),
                Ok(run) => Ok(RecordModel::Run(run)),
            },
        }
    } else {
        Err(StoreError::Corrupt(0))
    }
}

/// The content root that a footer names, its encoded record, the bytes that the
/// manifest takes decoded, and whether anything stands behind the record.
pub open spec fn footer_parts(footer: Seq<u8>, budget: u64) -> Result<
    (ContentRoot, Seq<u8>, int, Result<(), StoreError>),
    StoreError,
> {
    if budget > usize::MAX {
        Err(StoreError::Range)
    } else {
        let limit = if budget < VIEW_LIMIT {
            budget as int
        } else {
            VIEW_LIMIT as int
        };
        match wire::envelope_content(FOOT_MAGIC@, footer, limit) {
            Err(error) => Err(error),
            Ok(raw) => match view_codec::id_at::<CONTENT>(raw, 0) {
                Err(error) => Err(error),
                Ok((root, p)) => match wire::number_at(raw, p, 4) {
                    Err(error) => Err(error),
                    Ok((length, p)) => match wire::take_at(raw, p, length as int) {
                        Err(error) => Err(error),
                        Ok((encoded, p)) => if encoded.len() < 16 {
                            Err(StoreError::Range)
                        } else {
                            let total = raw.len() + crate::bytes::le_value(
                                encoded.subrange(8, 16),
                            ) + RUN_PREFIX;
                            if total > u64::MAX || total > budget {
                                Err(StoreError::Range)
                            } else {
                                Ok((root, encoded, total - RUN_PREFIX, wire::finish_at(raw, p)))
                            }
                        },
                    },
                },
            },
        }
    }
}

/// The patch of a record.
pub open spec fn record_view(record: RecordModel) -> ViewModel {
    match record {
        RecordModel::Checkpoint(view) => view.view,
        RecordModel::Run(run) => run.patch,
    }
}

/// A record stands onto the parent that its header names.
pub open spec fn record_parented(record: RecordModel, header: Header, root: ContentRoot) -> bool {
    match record {
        RecordModel::Checkpoint(_) => header.parent == Parent::Checkpoint,
        RecordModel::Run(run) => header.parent == Parent::Previous(run.parent)
            && header.coverage.full == run.span && run.root == root,
    }
}

/// The logical hash of a view with this content root.
pub open spec fn hash_with(view: ViewModel, root: ContentRoot) -> ViewHash {
    frame::id_of(digest::content_hash(view.logical_input(root.bytes@)))
}

/// A record as its segment has it: its span is the header's, and it takes the
/// bytes of the whole footer.
pub open spec fn record_of(record: RecordModel, header: Header, taken: int) -> RecordModel {
    match record {
        RecordModel::Checkpoint(view) => RecordModel::Checkpoint(
            ValidatedModel { span: header.coverage.full, decoded: taken, ..view },
        ),
        RecordModel::Run(run) => RecordModel::Run(RunModel { decoded: taken, ..run }),
    }
}

/// The record that a segment holds, or why it holds none.
pub open spec fn manifest_parse(header: Header, footer: Seq<u8>, budget: u64) -> Result<
    RecordModel,
    StoreError,
> {
    match footer_parts(footer, budget) {
        Err(error) => Err(error),
        Ok((root, encoded, taken, ended)) => match record_parse(encoded) {
            Err(error) => Err(error),
            Ok(record) => match ended {
                Err(error) => Err(error),
                Ok(_) => if !record_parented(record, header, root) || record_view(record).txid
                    != header.coverage.full.end || hash_with(record_view(record), root)
                    != header.logical_hash {
                    Err(StoreError::IdentityMismatch)
                } else if record is Checkpoint && record_view(record).root() != root {
                    Err(StoreError::Corrupt(0))
                } else {
                    Ok(record_of(record, header, taken))
                },
            },
        },
    }
}

fn read_footer(footer: &Vec<u8>, budget: u64) -> (parts: Result<
    (ContentRoot, Vec<u8>, u64, Result<(), StoreError>),
    StoreError,
>)
    ensures
        match parts {
            Ok((root, encoded, taken, ended)) => footer_parts(footer@, budget) == Ok::<
                (ContentRoot, Seq<u8>, int, Result<(), StoreError>),
                StoreError,
            >((root, encoded@, taken as int, ended)),
            Err(e) => (e is Zstd && opening::is_envelope(footer@)) || footer_parts(footer@, budget) == Err::<
                (ContentRoot, Seq<u8>, int, Result<(), StoreError>),
                StoreError,
            >(e),
        },
{
    if budget > usize::MAX as u64 {
        return Err(StoreError::Range);
    }
    let limit: usize = if budget < VIEW_LIMIT as u64 {
        budget as usize
    } else {
        VIEW_LIMIT
    };
    let raw: Vec<u8> = open_envelope(&FOOT_MAGIC, footer.as_slice(), limit)?;
    let mut wire: Decoder = Decoder::new(raw.as_slice());
    let root: ContentRoot = read_id(&mut wire)?;
    let length: u32 = wire.u32()?;
    let encoded: &[u8] = wire.take(length as usize)?;
    if encoded.len() < 16 {
        return Err(StoreError::Range);
    }
    let inner: u64 = read_le(slice_subrange(encoded, 8, 16));
    let taken: u64 = match (raw.len() as u64).checked_add(inner) {
        Some(taken) => taken,
        None => {
            return Err(StoreError::Range);
        },
    };
    match taken.checked_add(RUN_PREFIX as u64) {
        Some(total) => {
            if total > budget {
                return Err(StoreError::Range);
            }
        },
        None => {
            return Err(StoreError::Range);
        },
    }
    let kept: Vec<u8> = crate::bytes::copied(encoded);
    let ended: Result<(), StoreError> = wire.finish();
    proof {
        match ended {
            Ok(unit) => {
                assert(unit == ());
            },
            Err(_) => {},
        }
    }
    Ok((root, kept, taken, ended))
}

fn same_parent(a: Parent, b: Parent) -> (same: bool)
    ensures
        same == (a == b),
{
    match (a, b) {
        (Parent::Checkpoint, Parent::Checkpoint) => true,
        (Parent::Previous(x), Parent::Previous(y)) => x.hash.same(&y.hash) && x.txid.value
            == y.txid.value,
        _ => false,
    }
}

impl ManifestRecord {
    /// The record that an envelope holds. The decompressor may fail on any frame.
    pub fn decode(bytes: &[u8]) -> (record: Result<ManifestRecord, StoreError>)
        ensures
            match record {
                Ok(r) => record_parse(bytes@) == Ok::<RecordModel, StoreError>(r@),
                Err(e) => (e is Zstd && opening::is_envelope(bytes@)) || record_parse(bytes@) == Err::<RecordModel, StoreError>(e),
            },
    {
        if bytes.len() < 8 {
            return Err(StoreError::Corrupt(0));
        }
        let magic: &[u8] = slice_subrange(bytes, 0, 8);
        assert(magic@ =~= bytes@.take(8));
        if same_bytes(magic, VIEW_MAGIC.as_slice()) {
            let view: ValidatedMetadata = ViewMetadata::decode(bytes)?;
            assert(view@ =~= standing(view@.view, view@.decoded));
            return Ok(ManifestRecord::Checkpoint(view));
        }
        if same_bytes(magic, RUN_MAGIC.as_slice()) {
            let run: MetadataRun = MetadataRun::decode(bytes)?;
            return Ok(ManifestRecord::Run(run));
        }
        Err(StoreError::Corrupt(0))
    }

    fn parented(&self, header: &Header, root: &ContentRoot) -> (fine: bool)
        ensures
            fine == record_parented(self@, *header, *root),
    {
        match self {
            ManifestRecord::Checkpoint(_) => same_parent(header.parent, Parent::Checkpoint),
            ManifestRecord::Run(run) => {
                let span: TransactionSpan = run.span();
                same_parent(header.parent, Parent::Previous(run.parent()))
                    && header.coverage.full.begin.value == span.begin.value
                    && header.coverage.full.end.value == span.end.value && run.root().same(root)
            },
        }
    }

    fn patch(&self) -> (view: &ViewMetadata)
        ensures
            view@ == record_view(self@),
            view@.resolvable(),
    {
        match self {
            ManifestRecord::Checkpoint(view) => view.resolved(),
            ManifestRecord::Run(run) => run.patch(),
        }
    }

    /// The record that a segment holds, in at most `budget` bytes decoded.
    pub fn from_segment(container: &Container, budget: u64) -> (record: Result<
        ManifestRecord,
        StoreError,
    >)
        ensures
            match record {
                Ok(r) => manifest_parse(container.header, container.footer@, budget) == Ok::<
                    RecordModel,
                    StoreError,
                >(r@),
                Err(e) => (e is Zstd && opening::is_envelope(container.footer@)) || manifest_parse(container.header, container.footer@, budget)
                    == Err::<RecordModel, StoreError>(e),
            },
    {
        let header: Header = container.header;
        let (root, encoded, taken, ended) = read_footer(&container.footer, budget)?;
        let record: ManifestRecord = ManifestRecord::decode(encoded.as_slice())?;
        match ended {
            Ok(_) => {},
            Err(error) => {
                return Err(error);
            },
        }
        if !record.parented(&header, &root) {
            return Err(StoreError::IdentityMismatch);
        }
        let view: &ViewMetadata = record.patch();
        if view.txid.value != header.coverage.full.end.value {
            return Err(StoreError::IdentityMismatch);
        }
        let hash: ViewHash = view.logical_hash_for(&root);
        proof {
            draft::lemma_named(hash, view@.logical_input(root.bytes@));
        }
        if !hash.same(&header.logical_hash) {
            return Err(StoreError::IdentityMismatch);
        }
        match record {
            ManifestRecord::Checkpoint(view) => {
                let derived: ContentRoot = view.content_root();
                proof {
                    draft::lemma_named(derived, view@.view.content_input());
                }
                if !derived.same(&root) {
                    return Err(StoreError::Corrupt(0));
                }
                let parent: Parent = view.parent();
                let (view, ancestors) = view.into_chain();
                Ok(
                    ManifestRecord::Checkpoint(
                        ValidatedMetadata::from_chain(
                            view,
                            header.coverage.full,
                            ancestors,
                            Count { value: taken },
                            parent,
                        ),
                    ),
                )
            },
            ManifestRecord::Run(run) => Ok(ManifestRecord::Run(run.taking(taken))),
        }
    }
}

/// A manifest is what its header says: its record ends with the header's last transaction,
/// its view, with the content root that the footer names, has the header's logical hash, and
/// it stands onto the header's parent. A checkpoint spans what the header spans and its pages
/// give the content root; a run spans the same and promises that root.
pub proof fn law_manifest_is_what_its_header_says(
    header: Header,
    footer: Seq<u8>,
    budget: u64,
    record: RecordModel,
)
    requires
        manifest_parse(header, footer, budget) == Ok::<RecordModel, StoreError>(record),
    ensures
        match record {
            RecordModel::Checkpoint(view) => {
                &&& header.parent is Checkpoint
                &&& view.span == header.coverage.full
                &&& view.view.txid == header.coverage.full.end
                &&& view.view.hash() == header.logical_hash
            },
            RecordModel::Run(run) => {
                &&& header.parent == Parent::Previous(run.parent)
                &&& run.span == header.coverage.full
                &&& run.patch.txid == header.coverage.full.end
                &&& hash_with(run.patch, run.root) == header.logical_hash
            },
        },
{
    match record {
        RecordModel::Checkpoint(view) => {
            frame::lemma_id_bytes::<CONTENT>(digest::content_hash(view.view.content_input()));
        },
        _ => {},
    }
}

} // verus!
