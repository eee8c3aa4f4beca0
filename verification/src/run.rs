//! Sparse runs: what changed between two views of one lineage.

use crate::digest;
use crate::domain::{
    ContentRoot, Count, FrameId, Id, ManifestId, PageNumber, TransactionSpan, ValueError, ViewHash,
};
use crate::draft;
use crate::error::{StoreError, valued};
use crate::order;
use crate::order::{Key, OrderedMap, OrderedSet};
use crate::segment::{Parent, ParentRef};
use crate::validation;
use crate::validation::{ValidatedMetadata, ValidatedModel, check_ranges};
use crate::view::{FrameLocation, StoredPage, VIEW_LIMIT, ViewMetadata, ViewModel};
use vstd::prelude::*;

verus! {

/// `ZRUN0001`.
pub const RUN_MAGIC: [u8; 8] = [90, 82, 85, 78, 48, 48, 48, 49];

/// The bytes of a run before its removed pages.
pub const RUN_PREFIX: usize = 92;

/// The most runs that a view is resolved through.
pub const MAX_RUN_DEPTH: usize = 64;

/// What a run says.
#[verifier::ext_equal]
pub struct RunModel {
    pub parent: ParentRef,
    pub root: ContentRoot,
    pub span: TransactionSpan,
    pub patch: ViewModel,
    pub decoded: int,
    pub removed: Set<PageNumber>,
}

/// A sparse patch of a view. Pages that it does not name are inherited; removed
/// pages and pages beyond its size are not.
#[derive(Debug, PartialEq, Eq)]
pub struct MetadataRun {
    pub(crate) parent: ParentRef,
    pub(crate) root: ContentRoot,
    pub(crate) span: TransactionSpan,
    pub(crate) patch: ValidatedMetadata,
    pub(crate) removed: OrderedSet<PageNumber>,
}

impl View for MetadataRun {
    type V = RunModel;

    closed spec fn view(&self) -> RunModel {
        RunModel {
            parent: self.parent,
            root: self.root,
            span: self.span,
            patch: self.patch@.view,
            decoded: self.patch@.decoded,
            removed: self.removed@,
        }
    }
}

/// A page of the target differs from the source: in its slot, or in where the
/// slot's frame stands.
pub open spec fn page_changed(source: ViewModel, target: ViewModel, page: PageNumber) -> bool {
    let stored = target.pages[page];
    ||| !source.pages.dom().contains(page)
    ||| source.pages[page] != stored
    ||| source.frames.dom().contains(stored.frame) != target.frames.dom().contains(stored.frame)
    ||| (source.frames.dom().contains(stored.frame) && source.frames[stored.frame]
        != target.frames[stored.frame])
}

/// The pages of the target that differ from the source.
pub open spec fn changed_pages(source: ViewModel, target: ViewModel) -> Map<
    PageNumber,
    StoredPage,
> {
    target.pages.restrict(Set::new(|page: PageNumber| page_changed(source, target, page)))
}

/// What the target says, with only the pages that differ from the source and the
/// frames that they stand in.
pub open spec fn patch_of(source: ViewModel, target: ViewModel) -> ViewModel {
    ViewModel { pages: changed_pages(source, target), ..target }.compact()
}

/// The pages of the source that the target no longer has, within its size.
pub open spec fn removed_pages(source: ViewModel, target: ViewModel) -> Set<PageNumber> {
    Set::new(
        |page: PageNumber|
            source.pages.dom().contains(page) && page.value <= target.size.count()
                && !target.pages.dom().contains(page),
    )
}

/// The run from a source to a target.
pub open spec fn run_between(source: ValidatedModel, target: ViewModel, decoded: int) -> RunModel {
    RunModel {
        parent: ParentRef { hash: source.view.hash(), txid: source.view.txid },
        root: target.root(),
        span: TransactionSpan { begin: source.span.begin, end: target.txid },
        patch: patch_of(source.view, target),
        decoded,
        removed: removed_pages(source.view, target),
    }
}

/// The run from a source to a target, or why there is none: the target is older
/// than the source's span, or its patch is not valid.
pub open spec fn between_outcome(source: ValidatedModel, target: ViewModel) -> Result<
    RunModel,
    StoreError,
> {
    if source.span.begin.value > target.txid.value {
        Err(StoreError::Value(ValueError))
    } else {
        match validation::view_check(patch_of(source.view, target)) {
            Err(error) => Err(error),
            Ok(decoded) => Ok(run_between(source, target, decoded)),
        }
    }
}

/// A base with a run laid over it.
pub open spec fn overlay(run: RunModel, base: ViewModel) -> ViewModel {
    let kept = Set::new(
        |page: PageNumber| page.value <= run.patch.size.count() && !run.removed.contains(page),
    );
    ViewModel {
        database: base.database,
        lineage: base.lineage,
        frames: base.frames.union_prefer_right(run.patch.frames),
        pages: base.pages.restrict(kept).union_prefer_right(run.patch.pages),
        ..run.patch
    }.compact()
}

/// A run belongs onto a base.
pub open spec fn run_fits(run: RunModel, base: ViewModel) -> bool {
    &&& run.parent.hash == base.hash()
    &&& run.parent.txid == base.txid
    &&& base.database == run.patch.database
    &&& base.lineage == run.patch.lineage
    &&& base.size.page_size == run.patch.size.page_size
    &&& run.span.end == run.patch.txid
    &&& run.patch.txid.value >= base.txid.value
    &&& (run.patch.txid == base.txid ==> run.patch.size == base.size && run.patch.history
        == base.history && run.root == base.root())
}

impl RunModel {
    /// The bytes that the run takes, decoded.
    pub open spec fn cost(self) -> int {
        RUN_PREFIX + 4 * order::roll::<PageNumber>(self.removed).len() + self.decoded
    }
}

/// What laying a run over a base gives, where the base is the manifest `parent`.
pub open spec fn apply_outcome(run: RunModel, parent: ManifestId, base: ValidatedModel) -> Result<
    ValidatedModel,
    StoreError,
> {
    let view = overlay(run, base.view);
    let total = base.decoded + run.cost();
    if !run_fits(run, base.view) {
        Err(StoreError::IdentityMismatch)
    } else if total > u64::MAX || base.ancestors.len() >= MAX_RUN_DEPTH || base.ancestors.contains(
        parent,
    ) || total > VIEW_LIMIT {
        Err(StoreError::Range)
    } else if !validation::frames_apart(view.frames) || !view.resolvable() || view.root() != run.root {
        Err(StoreError::Corrupt(0))
    } else {
        Ok(
            ValidatedModel {
                view,
                span: run.span,
                ancestors: seq![parent] + base.ancestors,
                decoded: total,
                parent: Parent::Previous(run.parent),
            },
        )
    }
}

fn same_location(a: Option<&FrameLocation>, b: Option<&FrameLocation>) -> (same: bool)
    ensures
        same == match (a, b) {
            (Some(x), Some(y)) => x@ == y@,
            (None, None) => true,
            _ => false,
        },
{
    match (a, b) {
        (Some(x), Some(y)) => x.same(y),
        (None, None) => true,
        _ => false,
    }
}

/// The pages of the target that differ from the source.
fn collect_changed(source: &ViewMetadata, target: &ViewMetadata) -> (pages: OrderedMap<
    PageNumber,
    StoredPage,
>)
    ensures
        pages@ == changed_pages(source@, target@),
{
    let count: usize = target.pages.len();
    let ghost list = target.pages.pairs();
    proof {
        order::lemma_walk::<PageNumber, StoredPage>(list, target.pages@);
    }
    let mut pages: OrderedMap<PageNumber, StoredPage> = OrderedMap::new();
    let mut i: usize = 0;
    while i < count
        invariant
            i <= count,
            count == list.len(),
            list == target.pages.pairs(),
            forall|j: int|
                0 <= j < list.len() ==> target@.pages.dom().contains((#[trigger] list[j]).0)
                    && target@.pages[list[j].0] == list[j].1,
            forall|page: PageNumber| #[trigger]
                pages@.dom().contains(page) ==> target@.pages.dom().contains(page) && page_changed(
                    source@,
                    target@,
                    page,
                ) && pages@[page] == target@.pages[page],
            forall|j: int|
                0 <= j < i && page_changed(source@, target@, (#[trigger] list[j]).0)
                    ==> pages@.dom().contains(list[j].0),
        decreases count - i,
    {
        let page: PageNumber = *target.pages.key_at(i);
        let stored: StoredPage = *target.pages.value_at(i);
        assert(target@.pages.dom().contains(list[i as int].0));
        let unchanged: bool = match source.pages.get(&page) {
            Some(known) => known.same(&stored) && same_location(
                source.frames.get(&stored.frame),
                target.frames.get(&stored.frame),
            ),
            None => false,
        };
        if !unchanged {
            pages.insert(page, stored);
        }
        i += 1;
    }
    proof {
        let goal = changed_pages(source@, target@);
        assert forall|page: PageNumber| goal.dom().contains(page) implies pages@.dom().contains(
            page,
        ) by {
            let j = choose|j: int| 0 <= j < list.len() && (#[trigger] list[j]).0 == page;
            assert(pages@.dom().contains(list[j].0));
        }
        assert(pages@ =~= goal);
    }
    pages
}

/// The pages of the source that the target no longer has, within its size.
fn collect_removed(source: &ViewMetadata, target: &ViewMetadata) -> (pages: OrderedSet<PageNumber>)
    requires
        target.size.wf(),
    ensures
        pages@ == removed_pages(source@, target@),
{
    let last: u32 = target.size.pages();
    let count: usize = source.pages.len();
    let ghost list = source.pages.pairs();
    proof {
        order::lemma_walk::<PageNumber, StoredPage>(list, source.pages@);
    }
    let mut pages: OrderedSet<PageNumber> = OrderedSet::new();
    let mut i: usize = 0;
    while i < count
        invariant
            i <= count,
            count == list.len(),
            list == source.pages.pairs(),
            last == target@.size.count(),
            forall|j: int|
                0 <= j < list.len() ==> source@.pages.dom().contains((#[trigger] list[j]).0)
                    && source@.pages[list[j].0] == list[j].1,
            forall|page: PageNumber| #[trigger]
                pages@.contains(page) ==> removed_pages(source@, target@).contains(page),
            forall|j: int|
                0 <= j < i && removed_pages(source@, target@).contains((#[trigger] list[j]).0)
                    ==> pages@.contains(list[j].0),
        decreases count - i,
    {
        let page: PageNumber = *source.pages.key_at(i);
        assert(source@.pages.dom().contains(list[i as int].0));
        if page.value <= last && !target.pages.contains_key(&page) {
            pages.insert(page);
        }
        i += 1;
    }
    proof {
        let goal = removed_pages(source@, target@);
        assert forall|page: PageNumber| goal.contains(page) implies pages@.contains(page) by {
            let j = choose|j: int| 0 <= j < list.len() && (#[trigger] list[j]).0 == page;
            assert(pages@.contains(list[j].0));
        }
        assert(pages@ =~= goal);
    }
    pages
}

impl MetadataRun {
    pub(crate) fn from_parts(
        parent: ParentRef,
        root: ContentRoot,
        span: TransactionSpan,
        patch: ValidatedMetadata,
        removed: OrderedSet<PageNumber>,
    ) -> (run: MetadataRun)
        ensures
            run@ == (RunModel {
                parent,
                root,
                span,
                patch: patch@.view,
                decoded: patch@.decoded,
                removed: removed@,
            }),
    {
        MetadataRun { parent, root, span, patch, removed }
    }

    /// The run, taking this many bytes decoded.
    pub(crate) fn taking(self, decoded: u64) -> (run: MetadataRun)
        ensures
            run@ == (RunModel { decoded: decoded as int, ..self@ }),
    {
        let span: TransactionSpan = self.patch.span();
        let parent: Parent = self.patch.parent();
        let (patch, ancestors) = self.patch.into_chain();
        MetadataRun {
            parent: self.parent,
            root: self.root,
            span: self.span,
            patch: ValidatedMetadata::from_chain(
                patch,
                span,
                ancestors,
                Count { value: decoded },
                parent,
            ),
            removed: self.removed,
        }
    }

    pub fn parent(&self) -> (parent: ParentRef)
        ensures
            parent == self@.parent,
    {
        self.parent
    }

    pub fn root(&self) -> (root: ContentRoot)
        ensures
            root == self@.root,
    {
        self.root
    }

    pub fn span(&self) -> (span: TransactionSpan)
        ensures
            span == self@.span,
    {
        self.span
    }

    pub fn patch(&self) -> (patch: &ViewMetadata)
        ensures
            patch@ == self@.patch,
            patch@.resolvable(),
            patch@.size.wf(),
    {
        self.patch.resolved()
    }

    pub fn removed(&self) -> (removed: &OrderedSet<PageNumber>)
        ensures
            removed@ == self@.removed,
    {
        &self.removed
    }

    /// The bytes that the run takes, decoded, if they can be counted.
    pub fn decoded_bytes(&self) -> (bytes: Option<u64>)
        ensures
            match bytes {
                Some(b) => b == self@.cost(),
                None => self@.cost() > u64::MAX,
            },
    {
        let count: usize = self.removed.len();
        let decoded: u64 = self.patch.decoded_bytes().value;
        match (count as u64).checked_mul(4) {
            Some(bytes) => match bytes.checked_add(RUN_PREFIX as u64) {
                Some(bytes) => bytes.checked_add(decoded),
                None => None,
            },
            None => None,
        }
    }

    /// The run from a source to a target. The target must resolve; the run says
    /// what the target says, and its patch is valid.
    pub fn between(source: &ValidatedMetadata, target: &ViewMetadata) -> (run: Result<
        MetadataRun,
        StoreError,
    >)
        requires
            target@.resolvable(),
            target@.size.wf(),
        ensures
            match run {
                Ok(r) => between_outcome(source@, target@) == Ok::<RunModel, StoreError>(r@),
                Err(e) => between_outcome(source@, target@) == Err::<RunModel, StoreError>(e),
            },
    {
        let base: &ViewMetadata = source.resolved();
        let mut patch: ViewMetadata = target.duplicate();
        patch.pages = collect_changed(base, target);
        patch.retain_frames();
        assert(patch@ =~= patch_of(source@.view, target@));
        let hash: ViewHash = source.logical_hash();
        let root: ContentRoot = match target.content_root() {
            Some(root) => root,
            None => {
                assert(false);
                Id { bytes: [0u8; 32] }
            },
        };
        proof {
            draft::lemma_named(root, target@.content_input());
            draft::lemma_named(hash, source@.view.logical_input(digest::content_hash(source@.view.content_input())));
        }
        let removed: OrderedSet<PageNumber> = collect_removed(base, target);
        let span: TransactionSpan = valued(TransactionSpan::new(source.span().begin, target.txid))?;
        let patch: ValidatedMetadata = patch.validate()?;
        Ok(
            MetadataRun {
                parent: ParentRef { hash, txid: base.txid },
                root,
                span,
                patch,
                removed,
            },
        )
    }

    /// Lays the run over its base, which is the manifest `parent`.
    pub fn apply(self, parent: ManifestId, base: ValidatedMetadata) -> (resolved: Result<
        ValidatedMetadata,
        StoreError,
    >)
        ensures
            match resolved {
                Ok(v) => apply_outcome(self@, parent, base@) == Ok::<ValidatedModel, StoreError>(
                    v@,
                ),
                Err(e) => apply_outcome(self@, parent, base@) == Err::<ValidatedModel, StoreError>(
                    e,
                ),
            },
    {
        let hash: ViewHash = base.logical_hash();
        let root: ContentRoot = base.content_root();
        proof {
            draft::lemma_named(hash, base@.view.logical_input(digest::content_hash(base@.view.content_input())));
            draft::lemma_named(root, base@.view.content_input());
        }
        if !self.fits(base.resolved(), &hash, &root) {
            return Err(StoreError::IdentityMismatch);
        }
        let resolved: u64 = base.decoded_bytes().value;
        let cost: u64 = match self.decoded_bytes() {
            Some(cost) => cost,
            None => {
                return Err(StoreError::Range);
            },
        };
        let total: u64 = match resolved.checked_add(cost) {
            Some(total) => total,
            None => {
                return Err(StoreError::Range);
            },
        };
        if base.ancestors().len() >= MAX_RUN_DEPTH || listed_id(base.ancestors(), &parent) || total
            > VIEW_LIMIT as u64 {
            return Err(StoreError::Range);
        }
        let ghost run = self@;
        let ghost before = base@;
        let (view, ancestors) = base.into_chain();
        let MetadataRun { parent: origin, root, span, patch, removed } = self;
        let (patch, _) = patch.into_chain();
        let view: ViewMetadata = lay_over(view, patch, &removed, Ghost(run));
        if !check_ranges(&view.frames) {
            return Err(StoreError::Corrupt(0));
        }
        match view.content_root() {
            None => Err(StoreError::Corrupt(0)),
            Some(derived) => {
                proof {
                    draft::lemma_named(derived, view@.content_input());
                }
                if !derived.same(&root) {
                    return Err(StoreError::Corrupt(0));
                }
                proof {
                    lemma_overlay_sound(run, before.view);
                }
                let mut chain: Vec<ManifestId> = ancestors;
                chain.insert(0, parent);
                assert(chain@ =~= seq![parent] + before.ancestors);
                Ok(
                    ValidatedMetadata::from_chain(
                        view,
                        span,
                        chain,
                        Count { value: total },
                        Parent::Previous(origin),
                    ),
                )
            },
        }
    }

    fn fits(&self, base: &ViewMetadata, hash: &ViewHash, root: &ContentRoot) -> (fits: bool)
        requires
            *hash == base@.hash(),
            *root == base@.root(),
        ensures
            fits == run_fits(self@, base@),
    {
        let patch: &ViewMetadata = self.patch.resolved();
        if !self.parent.hash.same(hash) || self.parent.txid.value != base.txid.value
            || !base.database.same(&patch.database) || !base.lineage.same(&patch.lineage)
            || base.size.page_size.value != patch.size.page_size.value || self.span.end.value
            != patch.txid.value || patch.txid.value < base.txid.value {
            return false;
        }
        if patch.txid.value == base.txid.value {
            patch.size.bytes == base.size.bytes && patch.history.same(&base.history)
                && self.root.same(root)
        } else {
            true
        }
    }
}

/// Whether a list has an identity.
pub fn listed_id<const KIND: u8>(list: &Vec<Id<KIND>>, id: &Id<KIND>) -> (found: bool)
    ensures
        found == list@.contains(*id),
{
    let mut i: usize = 0;
    while i < list.len()
        invariant
            i <= list@.len(),
            forall|j: int| 0 <= j < i ==> list@[j] != *id,
        decreases list.len() - i,
    {
        if list[i].same(id) {
            assert(list@[i as int] == *id);
            return true;
        }
        i += 1;
    }
    false
}

/// A base with a patch laid over it.
fn lay_over(
    base: ViewMetadata,
    patch: ViewMetadata,
    removed: &OrderedSet<PageNumber>,
    Ghost(run): Ghost<RunModel>,
) -> (view: ViewMetadata)
    requires
        run.patch == patch@,
        run.removed == removed@,
        patch@.size.wf(),
    ensures
        view@ == overlay(run, base@),
{
    let ghost start = base@;
    let mut view: ViewMetadata = base;
    let last: u32 = patch.size.pages();
    view.remove_above(last);
    let ghost cut = view@.pages;
    let count: usize = removed.len();
    let mut i: usize = 0;
    while i < count
        invariant
            i <= count,
            count == removed.walk().len(),
            removed.walk().to_set() == removed@,
            view@ == (ViewModel { pages: view@.pages, ..start }),
            view@.pages == cut.remove_keys(removed.walk().take(i as int).to_set()),
        decreases count - i,
    {
        let page: PageNumber = *removed.at(i);
        let ghost now = removed.walk().take(i as int).to_set();
        view.remove(page);
        proof {
            let next = removed.walk().take(i as int + 1);
            assert(next =~= removed.walk().take(i as int).push(page));
            assert(next.to_set() =~= now.insert(page)) by {
                assert forall|p: PageNumber| next.to_set().contains(p) == now.insert(page).contains(
                    p,
                ) by {
                    if now.contains(p) {
                        let j = choose|j: int|
                            0 <= j < i && removed.walk().take(i as int)[j] == p;
                        assert(next[j] == p);
                    }
                    if p == page {
                        assert(next[i as int] == p);
                    }
                    if next.contains(p) {
                        let j = choose|j: int| 0 <= j < next.len() && next[j] == p;
                        if j < i {
                            assert(removed.walk().take(i as int)[j] == p);
                        }
                    }
                }
            }
            assert(view@.pages =~= cut.remove_keys(next.to_set()));
        }
        i += 1;
    }
    proof {
        assert(removed.walk().take(i as int) =~= removed.walk());
    }
    let ViewMetadata {
        database: _,
        lineage: _,
        size,
        txid,
        history,
        parent_seal,
        frames,
        pages,
        preferred,
    } = patch;
    view.size = size;
    view.txid = txid;
    view.history = history;
    view.parent_seal = parent_seal;
    view.preferred = preferred;
    view.frames.extend(frames);
    view.pages.extend(pages);
    proof {
        let kept = Set::new(
            |page: PageNumber| page.value <= run.patch.size.count() && !run.removed.contains(page),
        );
        assert(cut.remove_keys(removed@) =~= start.pages.restrict(kept));
    }
    view.retain_frames();
    view
}

proof fn lemma_overlay_sound(run: RunModel, base: ViewModel)
    requires
        validation::frames_sound(base),
        validation::frames_sound(run.patch),
        run_fits(run, base),
    ensures
        validation::frames_sound(overlay(run, base)),
{
    let view = overlay(run, base);
    assert forall|frame: FrameId| #[trigger] view.frames.dom().contains(frame) implies validation::location_sound(
        view,
        frame,
        view.frames[frame],
    ) by {
        if run.patch.frames.dom().contains(frame) {
            assert(validation::location_sound(run.patch, frame, run.patch.frames[frame]));
        } else {
            assert(base.frames.dom().contains(frame));
            assert(validation::location_sound(base, frame, base.frames[frame]));
        }
    }
}

/// Laying the run between a source and a valid target over the source gives the
/// target back.
pub proof fn law_overlay_restores(source: ValidatedModel, target: ViewModel, decoded: int)
    requires
        validation::view_check(target) is Ok,
        source.view.database == target.database,
        source.view.lineage == target.lineage,
    ensures
        overlay(run_between(source, target, decoded), source.view) == target,
{
    let run = run_between(source, target, decoded);
    let base = source.view;
    let kept = Set::new(
        |page: PageNumber| page.value <= run.patch.size.count() && !run.removed.contains(page),
    );
    let pages = base.pages.restrict(kept).union_prefer_right(run.patch.pages);
    assert(pages =~= target.pages) by {
        assert forall|page: PageNumber| target.pages.dom().contains(page) implies pages.dom().contains(
            page,
        ) && pages[page] == target.pages[page] by {
            assert(validation::page_sound(target, page, target.pages[page]));
        }
    }
    let frames = base.frames.union_prefer_right(run.patch.frames);
    let whole = ViewModel { frames, pages: target.pages, ..target };
    assert(whole.used() =~= target.used());
    assert(frames.restrict(target.used()) =~= target.frames) by {
        assert forall|frame: FrameId|
            frames.restrict(target.used()).dom().contains(frame)
                == target.frames.dom().contains(frame) by {
            if target.frames.dom().contains(frame) {
                assert(target.used().contains(frame));
                lemma_frame_kept(base, target, frame);
            }
            if target.used().contains(frame) {
                let page = choose|page: PageNumber|
                    #[trigger] target.pages.dom().contains(page) && target.pages[page].frame
                        == frame;
                assert(validation::page_sound(target, page, target.pages[page]));
            }
        }
        assert forall|frame: FrameId| target.frames.dom().contains(frame) implies frames.restrict(
            target.used(),
        )[frame] == target.frames[frame] by {
            assert(target.used().contains(frame));
            lemma_frame_kept(base, target, frame);
        }
    }
    assert(overlay(run, base) =~= target);
}

/// A frame that the target uses comes from the patch, or stands in the source as
/// it stands in the target.
proof fn lemma_frame_kept(base: ViewModel, target: ViewModel, frame: FrameId)
    requires
        target.frames.dom().contains(frame),
        target.used().contains(frame),
    ensures
        patch_of(base, target).frames.dom().contains(frame) ==> patch_of(base, target).frames[frame]
            == target.frames[frame],
        !patch_of(base, target).frames.dom().contains(frame) ==> base.frames.dom().contains(frame)
            && base.frames[frame] == target.frames[frame],
{
    let patch = ViewModel { pages: changed_pages(base, target), ..target };
    if !patch_of(base, target).frames.dom().contains(frame) {
        let page = choose|page: PageNumber|
            #[trigger] target.pages.dom().contains(page) && target.pages[page].frame == frame;
        if page_changed(base, target, page) {
            assert(patch.pages.dom().contains(page));
            assert(patch.used().contains(frame));
        }
    }
}

/// The run between a source and a valid later target applies to the source, as
/// long as the chain stays within its limits, and gives the target back.
pub proof fn law_run_applies(
    source: ValidatedModel,
    target: ViewModel,
    decoded: int,
    parent: ManifestId,
)
    requires
        validation::view_check(target) is Ok,
        source.view.database == target.database,
        source.view.lineage == target.lineage,
        source.view.size.page_size == target.size.page_size,
        target.txid.value >= source.view.txid.value,
        target.txid == source.view.txid ==> target.size == source.view.size && target.history
            == source.view.history && target.root() == source.view.root(),
        source.ancestors.len() < MAX_RUN_DEPTH,
        !source.ancestors.contains(parent),
        source.decoded + run_between(source, target, decoded).cost() <= VIEW_LIMIT,
    ensures
        apply_outcome(run_between(source, target, decoded), parent, source) == Ok::<
            ValidatedModel,
            StoreError,
        >(
            ValidatedModel {
                view: target,
                span: TransactionSpan { begin: source.span.begin, end: target.txid },
                ancestors: seq![parent] + source.ancestors,
                decoded: source.decoded + run_between(source, target, decoded).cost(),
                parent: Parent::Previous(
                    ParentRef { hash: source.view.hash(), txid: source.view.txid },
                ),
            },
        ),
{
    law_overlay_restores(source, target, decoded);
    assert(target.resolvable()) by {
        assert forall|page: PageNumber| #[trigger]
            target.pages.dom().contains(page) implies target.resolves(target.pages[page]) by {
            assert(validation::page_sound(target, page, target.pages[page]));
        }
    }
}

/// A page of a view that a run is laid over is the run's where the run has it, and otherwise
/// the base's, unless it was removed or stands beyond the new size. A frame stands where the
/// run says if it says so, and otherwise where the base says. The rest is what the run says
/// of the target.
pub proof fn law_run_replaces_pages(run: RunModel, base: ViewModel, page: PageNumber, frame: FrameId)
    ensures
        run.patch.pages.dom().contains(page) ==> overlay(run, base).pages.dom().contains(page)
            && overlay(run, base).pages[page] == run.patch.pages[page],
        !run.patch.pages.dom().contains(page) ==> (overlay(run, base).pages.dom().contains(page)
            <==> base.pages.dom().contains(page) && page.value <= run.patch.size.count()
            && !run.removed.contains(page)),
        !run.patch.pages.dom().contains(page) && overlay(run, base).pages.dom().contains(page)
            ==> overlay(run, base).pages[page] == base.pages[page],
        overlay(run, base).frames.dom().contains(frame) ==> overlay(run, base).frames[frame] == (
        if run.patch.frames.dom().contains(frame) {
            run.patch.frames[frame]
        } else {
            base.frames[frame]
        }),
        overlay(run, base).txid == run.patch.txid,
        overlay(run, base).size == run.patch.size,
        overlay(run, base).history == run.patch.history,
        overlay(run, base).parent_seal == run.patch.parent_seal,
        overlay(run, base).preferred == run.patch.preferred,
        overlay(run, base).database == base.database,
        overlay(run, base).lineage == base.lineage,
{
}

/// A run holds no page that stands in both views alike, in one slot of a frame that is in one
/// place; and it drops only pages that the target has room for and does not have.
pub proof fn law_run_holds_changes_alone(
    source: ValidatedModel,
    target: ViewModel,
    decoded: int,
    page: PageNumber,
)
    ensures
        run_between(source, target, decoded).patch.pages.dom().contains(page) ==> target.pages.dom().contains(
            page,
        ) && !(source.view.pages.dom().contains(page) && source.view.pages[page]
            == target.pages[page] && source.view.frames.dom().contains(target.pages[page].frame)
            && target.frames.dom().contains(target.pages[page].frame)
            && source.view.frames[target.pages[page].frame]
            == target.frames[target.pages[page].frame]),
        run_between(source, target, decoded).removed.contains(page) <==> source.view.pages.dom().contains(
            page,
        ) && page.value <= target.size.count() && !target.pages.dom().contains(page),
        run_between(source, target, decoded).patch.txid == target.txid,
        run_between(source, target, decoded).root == target.root(),
        run_between(source, target, decoded).parent.hash == source.view.hash(),
        run_between(source, target, decoded).parent.txid == source.view.txid,
        run_between(source, target, decoded).span.begin == source.span.begin,
        run_between(source, target, decoded).span.end == target.txid,
{
}

/// A run is laid only over the view that it was made for: of the hash and the transaction that
/// it names as its parent, of its database, lineage and page size, and not after it. What comes
/// out has the content that the run promises, stands onto the parent's manifest and all that
/// that one stands onto, at most sixty-four of them, and takes the bytes of all of these.
pub proof fn law_applied_run(
    run: RunModel,
    parent: ManifestId,
    base: ValidatedModel,
    made: ValidatedModel,
)
    requires
        apply_outcome(run, parent, base) == Ok::<ValidatedModel, StoreError>(made),
    ensures
        base.view.hash() == run.parent.hash,
        base.view.txid == run.parent.txid,
        base.view.database == run.patch.database,
        base.view.lineage == run.patch.lineage,
        base.view.size.page_size == run.patch.size.page_size,
        base.view.txid.value <= run.patch.txid.value,
        base.view.txid == run.patch.txid ==> base.view.root() == run.root && base.view.size
            == run.patch.size && base.view.history == run.patch.history,
        made.view.root() == run.root,
        made.view.txid == run.patch.txid,
        made.span == run.span,
        made.ancestors.len() == base.ancestors.len() + 1,
        made.ancestors[0] == parent,
        made.ancestors.skip(1) == base.ancestors,
        made.ancestors.len() <= 64,
        !base.ancestors.contains(parent),
        made.decoded == base.decoded + run.decoded + 92 + 4 * order::roll::<PageNumber>(
            run.removed,
        ).len(),
        made.decoded <= 536870912,
        made.parent == Parent::Previous(run.parent),
{
    assert(made.ancestors.skip(1) =~= base.ancestors);
}

} // verus!
