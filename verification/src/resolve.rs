//! Resolving a manifest: back to its checkpoint, then forward over the runs.

use crate::adapter;
use crate::adapter::{Event, ObjectKey, StorageBackend};
use crate::digest;
use crate::domain::{Count, ManifestId, StoredBytes};
use crate::draft;
use crate::error::StoreError;
use crate::fetch;
use crate::fetch::{Replay, read_all};
use crate::frame;
use crate::manifest;
use crate::manifest::{ManifestRecord, RecordModel};
use crate::opening;
use crate::order::{OrderedMap, OrderedSet};
use crate::run;
use crate::run::{MAX_RUN_DEPTH, MetadataRun, RunModel};
use crate::segment;
use crate::segment::{Container, Header, ParentRef, read_bytes, resolve_parent};
use crate::validation::{ValidatedMetadata, ValidatedModel};
use crate::view::VIEW_LIMIT;
use vstd::prelude::*;

verus! {

/// The name of a segment.
pub open spec fn segment_name(header: Header, footer: Seq<u8>) -> ManifestId {
    frame::id_of(digest::content_hash(segment::segment_input(header, footer)))
}

/// What reading a manifest came to: its header and footer, under its name.
pub open spec fn segment_replay(history: Seq<Event>, at: int, id: ManifestId, limit: u64) -> Replay<
    (Header, Seq<u8>),
> {
    match fetch::object_replay(history, at, ObjectKey::Manifest(id), limit) {
        Replay::Astray => Replay::Astray,
        Replay::Done(Err(error), next) => Replay::Done(Err(error), next),
        Replay::Done(Ok(bytes), next) => match segment::segment_parse(bytes) {
            Err(error) => Replay::Done(Err(error), next),
            Ok((header, footer)) => if segment_name(header, footer) != id {
                Replay::Done(Err(StoreError::Corrupt(0)), next)
            } else {
                Replay::Done(Ok((header, footer)), next)
            },
        },
    }
}

/// Header and footer of a manifest, verified against its name. Payloads and
/// reachability are another matter.
#[derive(Debug, PartialEq, Eq)]
pub struct AuthenticatedSegment {
    container: Container,
    length: StoredBytes,
}

impl AuthenticatedSegment {
    pub closed spec fn header(&self) -> Header {
        self.container.header
    }

    pub closed spec fn footer(&self) -> Seq<u8> {
        self.container.footer@
    }

    pub fn container(&self) -> (container: &Container)
        ensures
            container.header == self.header(),
            container.footer@ == self.footer(),
    {
        &self.container
    }

    pub closed spec fn size(&self) -> nat {
        self.length.value as nat
    }

    /// The length of the object.
    pub fn length(&self) -> (length: StoredBytes)
        ensures
            length.value == self.size(),
    {
        self.length
    }
}

/// Reads a manifest and verifies it against its name.
pub fn read_manifest<B: StorageBackend>(backend: &mut B, id: ManifestId, limit: u64) -> (segment:
    Result<AuthenticatedSegment, StoreError>)
    ensures
        final(backend).namespace() == old(backend).namespace(),
        adapter::extends(old(backend).history(), final(backend).history()),
        adapter::quiet(old(backend).history(), final(backend).history()),
        match segment {
            Ok(s) => segment_replay(
                final(backend).history(),
                old(backend).history().len() as int,
                id,
                limit,
            ) == Replay::Done(
                Ok::<(Header, Seq<u8>), StoreError>((s.header(), s.footer())),
                final(backend).history().len() as int,
            ) && s.size() == segment::HEADER_SIZE + s.footer().len() + 16,
            Err(e) => segment_replay(
                final(backend).history(),
                old(backend).history().len() as int,
                id,
                limit,
            ) == Replay::Done(
                Err::<(Header, Seq<u8>), StoreError>(e),
                final(backend).history().len() as int,
            ),
        },
{
    let bytes: Vec<u8> = read_all(backend, ObjectKey::Manifest(id), limit)?;
    let container: Container = read_bytes(bytes.as_slice())?;
    proof {
        draft::lemma_named(container.id, segment::segment_input(container.header, container.footer@));
    }
    if !container.id.same(&id) {
        return Err(StoreError::Corrupt(0));
    }
    Ok(AuthenticatedSegment { container, length: Count { value: bytes.len() as u64 } })
}

/// How far a walk back to the checkpoint has come.
#[verifier::ext_equal]
pub struct WalkModel {
    pub next: ManifestId,
    pub seen: Set<ManifestId>,
    pub runs: Seq<(ManifestId, RunModel)>,
    pub decoded: int,
}

/// The bytes that a record takes, decoded.
pub open spec fn record_cost(record: RecordModel) -> int {
    match record {
        RecordModel::Checkpoint(view) => view.decoded,
        RecordModel::Run(run) => run.cost(),
    }
}

/// What a record makes of a walk: the end at a checkpoint, or a step on to the
/// parent of a run.
pub enum Turn {
    Ends(ValidatedModel),
    Goes(WalkModel),
}

/// Where a walk goes from a manifest with this header and footer.
pub open spec fn walk_turn(
    walk: WalkModel,
    header: Header,
    footer: Seq<u8>,
    endpoints: Seq<(Seq<u8>, Seq<u8>)>,
) -> Result<Turn, StoreError> {
    match manifest::manifest_parse(header, footer, (VIEW_LIMIT - walk.decoded) as u64) {
        Err(error) => Err(error),
        Ok(record) => if walk.decoded + record_cost(record) > VIEW_LIMIT {
            Err(StoreError::Range)
        } else {
            match record {
                RecordModel::Checkpoint(view) => Ok(Turn::Ends(view)),
                RecordModel::Run(run) => if walk.runs.len() >= MAX_RUN_DEPTH {
                    Err(StoreError::Range)
                } else {
                    match segment::endpoint_among(
                        endpoints,
                        endpoints.len() as int,
                        run.parent,
                        walk.seen.insert(walk.next),
                    ) {
                        Err(error) => Err(error),
                        Ok(None) => Err(StoreError::Corrupt(0)),
                        Ok(Some(endpoint)) => Ok(
                            Turn::Goes(
                                WalkModel {
                                    next: endpoint.physical,
                                    seen: walk.seen.insert(walk.next),
                                    runs: walk.runs.push((walk.next, run)),
                                    decoded: walk.decoded + record_cost(record),
                                },
                            ),
                        ),
                    }
                },
            }
        },
    }
}

/// What walking back to the checkpoint came to: the checkpoint, its manifest, and
/// the runs from the newest on.
pub open spec fn walk_replay(
    history: Seq<Event>,
    at: int,
    walk: WalkModel,
    endpoints: Seq<(Seq<u8>, Seq<u8>)>,
) -> Replay<(ManifestId, ValidatedModel, Seq<(ManifestId, RunModel)>)>
    decreases MAX_RUN_DEPTH + 1 - walk.runs.len(),
{
    if walk.seen.contains(walk.next) {
        Replay::Done(Err(StoreError::Corrupt(0)), at)
    } else {
        match segment_replay(history, at, walk.next, VIEW_LIMIT as u64) {
            Replay::Astray => Replay::Astray,
            Replay::Done(Err(error), next) => Replay::Done(Err(error), next),
            Replay::Done(Ok((header, footer)), next) => match walk_turn(
                walk,
                header,
                footer,
                endpoints,
            ) {
                Err(error) => Replay::Done(Err(error), next),
                Ok(Turn::Ends(view)) => Replay::Done(Ok((walk.next, view, walk.runs)), next),
                Ok(Turn::Goes(longer)) => walk_replay(history, next, longer, endpoints),
            },
        }
    }
}

/// The walk from a manifest.
pub open spec fn walk_start(id: ManifestId) -> WalkModel {
    WalkModel { next: id, seen: Set::empty(), runs: Seq::empty(), decoded: 0 }
}

/// A checkpoint with the last `count` runs laid over it, the oldest first.
pub open spec fn unwind(
    runs: Seq<(ManifestId, RunModel)>,
    count: int,
    id: ManifestId,
    view: ValidatedModel,
) -> Result<ValidatedModel, StoreError>
    decreases count,
{
    if count <= 0 {
        Ok(view)
    } else {
        match run::apply_outcome(runs[count - 1].1, id, view) {
            Err(error) => Err(error),
            Ok(next) => unwind(runs, count - 1, runs[count - 1].0, next),
        }
    }
}

/// What resolving a manifest came to.
#[verifier::opaque]
pub open spec fn metadata_replay(
    history: Seq<Event>,
    at: int,
    id: ManifestId,
    endpoints: Seq<(Seq<u8>, Seq<u8>)>,
) -> Replay<ValidatedModel> {
    match walk_replay(history, at, walk_start(id), endpoints) {
        Replay::Astray => Replay::Astray,
        Replay::Done(Err(error), next) => Replay::Done(Err(error), next),
        Replay::Done(Ok((base, view, runs)), next) => Replay::Done(
            unwind(runs, runs.len() as int, base, view),
            next,
        ),
    }
}

pub proof fn lemma_walk_settled(
    before: Seq<Event>,
    after: Seq<Event>,
    at: int,
    walk: WalkModel,
    endpoints: Seq<(Seq<u8>, Seq<u8>)>,
)
    requires
        adapter::extends(before, after),
        walk_replay(before, at, walk, endpoints) is Done,
    ensures
        walk_replay(after, at, walk, endpoints) == walk_replay(before, at, walk, endpoints),
    decreases MAX_RUN_DEPTH + 1 - walk.runs.len(),
{
    if !walk.seen.contains(walk.next) {
        fetch::lemma_object_settled(
            before,
            after,
            at,
            ObjectKey::Manifest(walk.next),
            VIEW_LIMIT as u64,
        );
        match segment_replay(before, at, walk.next, VIEW_LIMIT as u64) {
            Replay::Done(Ok((header, footer)), next) => {
                match walk_turn(walk, header, footer, endpoints) {
                    Ok(Turn::Goes(longer)) => lemma_walk_settled(
                        before,
                        after,
                        next,
                        longer,
                        endpoints,
                    ),
                    _ => {},
                }
            },
            _ => {},
        }
    }
}

pub proof fn lemma_metadata_settled(
    before: Seq<Event>,
    after: Seq<Event>,
    at: int,
    id: ManifestId,
    endpoints: Seq<(Seq<u8>, Seq<u8>)>,
)
    requires
        adapter::extends(before, after),
        metadata_replay(before, at, id, endpoints) is Done,
    ensures
        metadata_replay(after, at, id, endpoints) == metadata_replay(before, at, id, endpoints),
{
    reveal(metadata_replay);
    lemma_walk_settled(before, after, at, walk_start(id), endpoints);
}

/// Runs by what they say.
pub open spec fn run_models(runs: Seq<(ManifestId, MetadataRun)>) -> Seq<(ManifestId, RunModel)> {
    Seq::new(runs.len(), |i: int| (runs[i].0, runs[i].1@))
}

fn lay_runs(runs: Vec<(ManifestId, MetadataRun)>, base: ManifestId, view: ValidatedMetadata) -> (resolved:
    Result<ValidatedMetadata, StoreError>)
    ensures
        match resolved {
            Ok(v) => unwind(run_models(runs@), runs@.len() as int, base, view@) == Ok::<
                ValidatedModel,
                StoreError,
            >(v@),
            Err(e) => unwind(run_models(runs@), runs@.len() as int, base, view@) == Err::<
                ValidatedModel,
                StoreError,
            >(e),
        },
{
    let ghost whole = run_models(runs@);
    let ghost goal = unwind(whole, runs@.len() as int, base, view@);
    let mut rest: Vec<(ManifestId, MetadataRun)> = runs;
    let mut id: ManifestId = base;
    let mut resolved: ValidatedMetadata = view;
    while rest.len() > 0
        invariant
            rest@.len() <= whole.len(),
            forall|i: int|
                0 <= i < rest@.len() ==> (#[trigger] rest@[i]).0 == whole[i].0 && rest@[i].1@
                    == whole[i].1,
            whole == run_models(runs@),
            goal == unwind(whole, runs@.len() as int, base, view@),
            goal == unwind(whole, rest@.len() as int, id, resolved@),
        decreases rest@.len(),
    {
        match rest.pop() {
            Some((next, run)) => {
                resolved = run.apply(id, resolved)?;
                id = next;
            },
            None => {
                assert(false);
            },
        }
    }
    Ok(resolved)
}

/// Resolves a manifest, given the endpoints of the catalog. The decompressor may
/// fail on any envelope.
pub fn load_metadata<B: StorageBackend>(
    backend: &mut B,
    endpoints: &OrderedMap<Vec<u8>, Vec<u8>>,
    id: ManifestId,
) -> (metadata: Result<ValidatedMetadata, StoreError>)
    ensures
        final(backend).namespace() == old(backend).namespace(),
        adapter::extends(old(backend).history(), final(backend).history()),
        adapter::quiet(old(backend).history(), final(backend).history()),
        match metadata {
            Ok(m) => metadata_replay(
                final(backend).history(),
                old(backend).history().len() as int,
                id,
                endpoints.pairs(),
            ) == Replay::Done(
                Ok::<ValidatedModel, StoreError>(m@),
                final(backend).history().len() as int,
            ),
            Err(e) => opening::unopened(e, old(backend).history(), final(backend).history()) || metadata_replay(
                final(backend).history(),
                old(backend).history().len() as int,
                id,
                endpoints.pairs(),
            ) == Replay::Done(
                Err::<ValidatedModel, StoreError>(e),
                final(backend).history().len() as int,
            ),
        },
{
    proof {
        reveal(metadata_replay);
    }
    let (base, view, runs) = walk_back(backend, endpoints, id)?;
    lay_runs(runs, base, view)
}

/// Walks back from a manifest to its checkpoint.
fn walk_back<B: StorageBackend>(
    backend: &mut B,
    endpoints: &OrderedMap<Vec<u8>, Vec<u8>>,
    id: ManifestId,
) -> (walked: Result<
    (ManifestId, ValidatedMetadata, Vec<(ManifestId, MetadataRun)>),
    StoreError,
>)
    ensures
        final(backend).namespace() == old(backend).namespace(),
        adapter::extends(old(backend).history(), final(backend).history()),
        adapter::quiet(old(backend).history(), final(backend).history()),
        match walked {
            Ok((base, view, runs)) => walk_replay(
                final(backend).history(),
                old(backend).history().len() as int,
                walk_start(id),
                endpoints.pairs(),
            ) == Replay::Done(
                Ok::<(ManifestId, ValidatedModel, Seq<(ManifestId, RunModel)>), StoreError>(
                    (base, view@, run_models(runs@)),
                ),
                final(backend).history().len() as int,
            ),
            Err(e) => opening::unopened(e, old(backend).history(), final(backend).history()) || walk_replay(
                final(backend).history(),
                old(backend).history().len() as int,
                walk_start(id),
                endpoints.pairs(),
            ) == Replay::Done(
                Err::<(ManifestId, ValidatedModel, Seq<(ManifestId, RunModel)>), StoreError>(e),
                final(backend).history().len() as int,
            ),
        },
{
    let ghost start = backend.history().len() as int;
    let ghost list = endpoints.pairs();
    let mut next: ManifestId = id;
    let mut passed: OrderedSet<ManifestId> = OrderedSet::new();
    let mut runs: Vec<(ManifestId, MetadataRun)> = Vec::new();
    let mut decoded: u64 = 0;
    let ghost mut walk = walk_start(id);
    proof {
        assert(run_models(runs@) =~= walk.runs);
    }
    loop
        invariant
            runs@.len() <= MAX_RUN_DEPTH,
            decoded <= VIEW_LIMIT,
            start == old(backend).history().len(),
            list == endpoints.pairs(),
            backend.namespace() == old(backend).namespace(),
            adapter::extends(old(backend).history(), backend.history()),
            adapter::quiet(old(backend).history(), backend.history()),
            walk == (WalkModel {
                next,
                seen: passed@,
                runs: run_models(runs@),
                decoded: decoded as int,
            }),
            forall|later: Seq<Event>|
                #![trigger walk_replay(later, start, walk_start(id), list)]
                adapter::extends(backend.history(), later) ==> walk_replay(
                    later,
                    start,
                    walk_start(id),
                    list,
                ) == walk_replay(later, backend.history().len() as int, walk, list),
        decreases MAX_RUN_DEPTH - runs@.len(),
    {
        proof {
            let h = backend.history();
            assert(walk_replay(h, start, walk_start(id), list) == walk_replay(
                h,
                h.len() as int,
                walk,
                list,
            ));
        }
        if !passed.insert(next) {
            return Err(StoreError::Corrupt(0));
        }
        let ghost known = backend.history();
        let segment: Result<AuthenticatedSegment, StoreError> = read_manifest(
            backend,
            next,
            VIEW_LIMIT as u64,
        );
        proof {
            let h = backend.history();
            assert(walk_replay(h, start, walk_start(id), list) == walk_replay(
                h,
                known.len() as int,
                walk,
                list,
            ));
        }
        let segment: AuthenticatedSegment = segment?;
        let ghost header = segment.header();
        let ghost footer = segment.footer();
        let decoding: Result<ManifestRecord, StoreError> = ManifestRecord::from_segment(
            segment.container(),
            VIEW_LIMIT as u64 - decoded,
        );
        proof {
            if opening::is_envelope(footer) {
                assert(opening::read_last(
                    backend.history(),
                    known.len() as int,
                    ObjectKey::Manifest(next),
                    VIEW_LIMIT as u64,
                ));
            }
        }
        let record: ManifestRecord = decoding?;
        let cost: Option<u64> = match &record {
            ManifestRecord::Checkpoint(view) => Some(view.decoded_bytes().value),
            ManifestRecord::Run(run) => run.decoded_bytes(),
        };
        let total: u64 = match cost {
            Some(cost) => match decoded.checked_add(cost) {
                Some(total) => total,
                None => {
                    return Err(StoreError::Range);
                },
            },
            None => {
                return Err(StoreError::Range);
            },
        };
        if total > VIEW_LIMIT as u64 {
            return Err(StoreError::Range);
        }
        match record {
            ManifestRecord::Checkpoint(view) => {
                return Ok((next, view, runs));
            },
            ManifestRecord::Run(run) => {
                if runs.len() >= MAX_RUN_DEPTH {
                    return Err(StoreError::Range);
                }
                let parent: ParentRef = run.parent();
                let ghost added = (next, run@);
                let ghost shorter = run_models(runs@);
                let found: Result<ManifestId, StoreError> = resolve_parent(
                    endpoints,
                    parent,
                    &passed,
                );
                let found: ManifestId = match found {
                    Ok(found) => found,
                    Err(error) => {
                        return Err(error);
                    },
                };
                runs.push((next, run));
                next = found;
                decoded = total;
                proof {
                    let before = walk;
                    assert(run_models(runs@) =~= shorter.push(added));
                    walk = WalkModel {
                        next,
                        seen: passed@,
                        runs: run_models(runs@),
                        decoded: decoded as int,
                    };
                    assert(walk_turn(before, header, footer, list) == Ok::<Turn, StoreError>(
                        Turn::Goes(walk),
                    ));
                    assert forall|later: Seq<Event>|
                        #![trigger walk_replay(later, start, walk_start(id), list)]
                        adapter::extends(backend.history(), later) implies walk_replay(
                        later,
                        start,
                        walk_start(id),
                        list,
                    ) == walk_replay(later, backend.history().len() as int, walk, list) by {
                        assert(adapter::extends(known, later));
                        fetch::lemma_object_settled(
                            backend.history(),
                            later,
                            known.len() as int,
                            ObjectKey::Manifest(before.next),
                            VIEW_LIMIT as u64,
                        );
                        assert(walk_replay(later, start, walk_start(id), list) == walk_replay(
                            later,
                            known.len() as int,
                            before,
                            list,
                        ));
                    }
                }
            },
        }
    }
}

/// Runs are laid over a checkpoint from the oldest to the newest, which the list has first:
/// what comes out has the content, the span and the size that the newest run says.
pub proof fn law_newest_run_comes_last(
    runs: Seq<(ManifestId, RunModel)>,
    count: int,
    id: ManifestId,
    view: ValidatedModel,
    made: ValidatedModel,
)
    requires
        0 < count <= runs.len(),
        unwind(runs, count, id, view) == Ok::<ValidatedModel, StoreError>(made),
    ensures
        made.view.root() == runs[0].1.root,
        made.view.txid == runs[0].1.patch.txid,
        made.view.size == runs[0].1.patch.size,
        made.span == runs[0].1.span,
        made.parent == segment::Parent::Previous(runs[0].1.parent),
        made.ancestors.len() == view.ancestors.len() + count,
        made.ancestors[0] == if count == 1 {
            id
        } else {
            runs[1].0
        },
    decreases count,
{
    match run::apply_outcome(runs[count - 1].1, id, view) {
        Ok(next) => {
            if count > 1 {
                law_newest_run_comes_last(runs, count - 1, runs[count - 1].0, next, made);
            }
        },
        Err(_) => {},
    }
}

/// A walk goes on from a run alone, to a manifest that was not met before and whose endpoint
/// is noted under the hash and the transaction of the run's parent; it keeps the run, and goes
/// no more than sixty-four of them back.
pub proof fn law_walk_goes_to_the_parent(
    walk: WalkModel,
    header: Header,
    footer: Seq<u8>,
    endpoints: Seq<(Seq<u8>, Seq<u8>)>,
    longer: WalkModel,
)
    requires
        walk_turn(walk, header, footer, endpoints) == Ok::<Turn, StoreError>(Turn::Goes(longer)),
    ensures
        longer.runs.len() == walk.runs.len() + 1,
        longer.runs.len() <= 64,
        longer.runs.drop_last() == walk.runs,
        longer.runs.last().0 == walk.next,
        longer.seen == walk.seen.insert(walk.next),
        !longer.seen.contains(longer.next),
        header.parent == segment::Parent::Previous(longer.runs.last().1.parent),
        longer.decoded > walk.decoded,
        longer.decoded <= 536870912,
        exists|endpoint: segment::Endpoint|
            #![trigger endpoint.physical]
            endpoint.physical == longer.next && endpoint.header.logical_hash
                == longer.runs.last().1.parent.hash && endpoint.header.coverage.full.end
                == longer.runs.last().1.parent.txid,
{
    let budget = (VIEW_LIMIT - walk.decoded) as u64;
    let record = manifest::manifest_parse(header, footer, budget)->Ok_0;
    manifest::law_manifest_is_what_its_header_says(header, footer, budget, record);
    let run = longer.runs.last().1;
    assert(record == RecordModel::Run(run));
    let seen = walk.seen.insert(walk.next);
    let found = segment::endpoint_among(endpoints, endpoints.len() as int, run.parent, seen)->Ok_0->Some_0;
    segment::law_endpoint_leads(endpoints, endpoints.len() as int, run.parent, seen);
    assert(found.physical == longer.next);
    assert(longer.runs.drop_last() =~= walk.runs);
}

} // verus!
