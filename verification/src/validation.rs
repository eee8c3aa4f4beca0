//! Structural validation of views, and their decoding.

use crate::digest;
use crate::domain::{
    ContentRoot, Count, DecodedBytes, DictionaryId, FrameId, Id, ManifestId, PackId, PageNumber,
    TransactionSpan, ViewHash,
};
use crate::error::StoreError;
use crate::frame::FrameMetadata;
use crate::order::{Key, OrderedMap, OrderedSet};
use crate::placement::PackRange;
use crate::segment::Parent;
use crate::sorting;
use crate::sorting::{Ranked, sorted_order};
use crate::view::{
    FrameLocation, LocationModel, MAX_PREFERRED, StoredPage, VIEW_LIMIT, ViewMetadata, ViewModel,
};
use vstd::prelude::*;

verus! {

/// Payloads of different frames in one pack do not overlap.
pub open spec fn frames_apart(frames: Map<FrameId, LocationModel>) -> bool {
    forall|a: FrameId, b: FrameId|
        #[trigger] frames.dom().contains(a) && #[trigger] frames.dom().contains(b) && a != b
            && frames[a].pack == frames[b].pack ==> ranges_apart(
            frames[a].payload,
            frames[b].payload,
        )
}

pub open spec fn ranges_apart(a: PackRange, b: PackRange) -> bool {
    a.offset.value + a.length.value <= b.offset.value || b.offset.value + b.length.value
        <= a.offset.value
}

/// A payload in a pack.
#[derive(Clone, Copy, Debug, PartialEq, Eq)]
pub struct PackedRange {
    pub pack: PackId,
    pub range: PackRange,
}

impl Ranked for PackedRange {
    open spec fn at_most(a: PackedRange, b: PackedRange) -> bool {
        PackId::precedes(a.pack, b.pack) || (a.pack == b.pack && a.range.offset.value
            <= b.range.offset.value)
    }

    proof fn lemma_total(a: PackedRange, b: PackedRange) {
        PackId::lemma_total(a.pack, b.pack);
    }

    proof fn lemma_transitive(a: PackedRange, b: PackedRange, c: PackedRange) {
        if PackId::precedes(a.pack, b.pack) && PackId::precedes(b.pack, c.pack) {
            PackId::lemma_transitive(a.pack, b.pack, c.pack);
        }
    }

    fn not_above(&self, other: &PackedRange) -> bool {
        self.pack.before(&other.pack) || (self.pack.same(&other.pack) && self.range.offset.value
            <= other.range.offset.value)
    }
}

/// Along a sorted order in which neighbours in one pack do not overlap, an item
/// ends before any later item of its pack starts.
proof fn lemma_chain_apart(items: Seq<PackedRange>, order: Seq<usize>, i: int, j: int)
    requires
        sorting::covers(order, items.len() as int),
        sorting::ascends(items, order),
        0 <= i < j < order.len(),
        forall|k: int|
            0 <= k < order.len() ==> (#[trigger] items[order[k] as int]).range.wf(),
        forall|k: int|
            0 <= k < order.len() - 1 && items[#[trigger] order[k] as int].pack
                == items[order[k + 1] as int].pack ==> items[order[k] as int].range.offset.value
                + items[order[k] as int].range.length.value <= items[order[
                k + 1] as int].range.offset.value,
        items[order[i] as int].pack == items[order[j] as int].pack,
    ensures
        items[order[i] as int].range.offset.value + items[order[i] as int].range.length.value
            <= items[order[j] as int].range.offset.value,
    decreases j - i,
{
    let a = items[order[i] as int];
    let next = items[order[i + 1] as int];
    let b = items[order[j] as int];
    assert(PackedRange::at_most(a, next));
    if i + 1 == j {
    } else {
        assert(PackedRange::at_most(next, b));
        PackId::lemma_irreflexive(a.pack);
        if PackId::precedes(a.pack, next.pack) && PackId::precedes(next.pack, b.pack) {
            PackId::lemma_transitive(a.pack, next.pack, b.pack);
        }
        assert(next.pack == a.pack);
        lemma_chain_apart(items, order, i + 1, j);
    }
}

/// Whether no two payloads in one pack overlap.
pub fn check_ranges(frames: &OrderedMap<FrameId, FrameLocation>) -> (apart: bool)
    ensures
        apart == frames_apart(frames@),
{
    let count: usize = frames.len();
    let ghost list = frames.pairs();
    proof {
        crate::order::lemma_walk::<FrameId, LocationModel>(list, frames@);
    }
    let mut items: Vec<PackedRange> = Vec::new();
    let mut i: usize = 0;
    while i < count
        invariant
            i <= count,
            count == list.len(),
            list == frames.pairs(),
            items@.len() == i,
            forall|j: int|
                0 <= j < i ==> (#[trigger] items@[j]).pack == list[j].1.pack && items@[j].range
                    == list[j].1.payload && items@[j].range.wf(),
        decreases count - i,
    {
        let location: &FrameLocation = frames.value_at(i);
        items.push(PackedRange { pack: location.pack(), range: location.payload() });
        i += 1;
    }
    let order: Vec<usize> = sorted_order(items.as_slice());
    let mut k: usize = 0;
    while order.len() - k > 1
        invariant
            k <= order@.len(),
            order@.len() == items@.len(),
            sorting::covers(order@, items@.len() as int),
            sorting::ascends(items@, order@),
            list == frames.pairs(),
            items@.len() == list.len(),
            crate::order::ascending::<FrameId, LocationModel>(list),
            forall|j: int|
                0 <= j < items@.len() ==> (#[trigger] items@[j]).pack == list[j].1.pack
                    && items@[j].range == list[j].1.payload && items@[j].range.wf(),
            forall|j: int|
                0 <= j < list.len() ==> frames@.dom().contains((#[trigger] list[j]).0)
                    && frames@[list[j].0] == list[j].1,
            forall|j: int|
                0 <= j < k && items@[#[trigger] order@[j] as int].pack == items@[order@[
                    j + 1] as int].pack ==> items@[order@[j] as int].range.offset.value
                    + items@[order@[j] as int].range.length.value <= items@[order@[
                    j + 1] as int].range.offset.value,
        decreases order.len() - k,
    {
        let a: PackedRange = items[order[k]];
        let b: PackedRange = items[order[k + 1]];
        if a.pack.same(&b.pack) && a.range.end().value > b.range.offset.value {
            proof {
                let x = list[order@[k as int] as int];
                let y = list[order@[k + 1] as int];
                assert(PackedRange::at_most(
                    items@[order@[k as int] as int],
                    items@[order@[k + 1] as int],
                ));
                PackId::lemma_irreflexive(a.pack);
                assert(x.0 != y.0) by {
                    let p = order@[k as int] as int;
                    let q = order@[k + 1] as int;
                    assert(p != q);
                    FrameId::lemma_irreflexive(x.0);
                    if p < q {
                        assert(FrameId::precedes(list[p].0, list[q].0));
                    } else {
                        assert(FrameId::precedes(list[q].0, list[p].0));
                    }
                }
                assert(frames@.dom().contains(x.0) && frames@.dom().contains(y.0));
                assert(!ranges_apart(frames@[x.0].payload, frames@[y.0].payload));
            }
            return false;
        }
        k += 1;
    }
    proof {
        assert forall|a: FrameId, b: FrameId|
            #[trigger] frames@.dom().contains(a) && #[trigger] frames@.dom().contains(b) && a != b
                && frames@[a].pack == frames@[b].pack implies ranges_apart(
            frames@[a].payload,
            frames@[b].payload,
        ) by {
            let p = choose|p: int| 0 <= p < list.len() && (#[trigger] list[p]).0 == a;
            let q = choose|q: int| 0 <= q < list.len() && (#[trigger] list[q]).0 == b;
            assert(order@.contains(crate::sorting::place(p)));
            assert(order@.contains(crate::sorting::place(q)));
            let i = choose|i: int| 0 <= i < order@.len() && order@[i] == crate::sorting::place(p);
            let j = choose|j: int| 0 <= j < order@.len() && order@[j] == crate::sorting::place(q);
            assert(order@[i] as int == p);
            assert(order@[j] as int == q);
            assert(items@[p].pack == list[p].1.pack);
            assert(items@[q].pack == list[q].1.pack);
            if i < j {
                lemma_chain_apart(items@, order@, i, j);
            } else {
                lemma_chain_apart(items@, order@, j, i);
            }
        }
    }
    true
}

/// At most four preferred dictionaries, all different.
pub open spec fn preferred_sound(preferred: Seq<DictionaryId>) -> bool {
    preferred.len() <= MAX_PREFERRED && preferred.no_duplicates()
}

/// A page stands in a slot with a version of the page that is no newer than the
/// view, and the database is large enough to have the page.
pub open spec fn page_sound(view: ViewModel, page: PageNumber, stored: StoredPage) -> bool {
    &&& view.resolves(stored)
    &&& view.version(stored).page == page
    &&& view.version(stored).txid.value <= view.txid.value
    &&& page.value <= view.size.count()
}

pub open spec fn pages_sound(view: ViewModel) -> bool {
    forall|page: PageNumber| #[trigger]
        view.pages.dom().contains(page) ==> page_sound(view, page, view.pages[page])
}

/// Every frame holds some page.
pub open spec fn frames_used(view: ViewModel) -> bool {
    forall|frame: FrameId| #[trigger] view.frames.dom().contains(frame) ==> view.used().contains(frame)
}

/// A frame stands under its identity, has the page size of the view, and its
/// payload has the length that it should.
pub open spec fn location_sound(view: ViewModel, id: FrameId, location: LocationModel) -> bool {
    &&& id == location.frame.id
    &&& location.frame.shape.page_size == view.size.page_size
    &&& location.payload.length.value == location.frame.payload_bytes
}

/// Every frame is sound.
pub open spec fn frames_sound(view: ViewModel) -> bool {
    forall|frame: FrameId| #[trigger]
        view.frames.dom().contains(frame) ==> location_sound(view, frame, view.frames[frame])
}

/// The length of the encoding, adding up the frames from place `i` on.
pub open spec fn length_from(
    view: ViewModel,
    list: Seq<(FrameId, LocationModel)>,
    i: int,
    length: int,
) -> Result<int, StoreError>
    decreases list.len() - i,
{
    if i >= list.len() {
        Ok(length)
    } else if !location_sound(view, list[i].0, list[i].1) {
        Err(StoreError::Corrupt(0))
    } else if length + 76 + list[i].1.frame.record().len() > u64::MAX {
        Err(StoreError::Range)
    } else {
        length_from(view, list, i + 1, length + 76 + list[i].1.frame.record().len())
    }
}

/// The length of a valid view's encoding, or why the view is not valid.
pub open spec fn view_check(view: ViewModel) -> Result<int, StoreError> {
    let base = 192 + 32 * view.preferred.len() + 40 * view.page_list().len();
    if !preferred_sound(view.preferred) || !pages_sound(view) || !frames_used(view) {
        Err(StoreError::Corrupt(0))
    } else if base > u64::MAX {
        Err(StoreError::Range)
    } else {
        match length_from(view, view.frame_list(), 0, base as int) {
            Err(error) => Err(error),
            Ok(length) => if length > VIEW_LIMIT {
                Err(StoreError::Range)
            } else if !frames_apart(view.frames) {
                Err(StoreError::Corrupt(0))
            } else {
                Ok(length)
            },
        }
    }
}

/// What a validated view says, and how it was resolved.
#[verifier::ext_equal]
pub struct ValidatedModel {
    pub view: ViewModel,
    pub span: TransactionSpan,
    pub ancestors: Seq<ManifestId>,
    pub decoded: int,
    pub parent: Parent,
}

impl ValidatedModel {
    /// The view stands alone, with its own transaction as its span.
    pub open spec fn standalone(self) -> bool {
        &&& self.span == (TransactionSpan { begin: self.view.txid, end: self.view.txid })
        &&& self.ancestors == Seq::<ManifestId>::empty()
        &&& self.parent == Parent::Checkpoint
    }
}

/// A view that is structurally valid. Nothing is said of whether its objects can
/// be reached, nor of its payloads.
#[derive(Debug, PartialEq, Eq)]
pub struct ValidatedMetadata {
    pub(crate) view: ViewMetadata,
    pub(crate) span: TransactionSpan,
    pub(crate) ancestors: Vec<ManifestId>,
    pub(crate) decoded_bytes: DecodedBytes,
    pub(crate) parent: Parent,
}

impl View for ValidatedMetadata {
    type V = ValidatedModel;

    closed spec fn view(&self) -> ValidatedModel {
        ValidatedModel {
            view: self.view@,
            span: self.span,
            ancestors: self.ancestors@,
            decoded: self.decoded_bytes.value as int,
            parent: self.parent,
        }
    }
}

fn check_preferred(preferred: &Vec<DictionaryId>) -> (sound: bool)
    ensures
        sound == preferred_sound(preferred@),
{
    if preferred.len() > MAX_PREFERRED {
        return false;
    }
    let mut i: usize = 0;
    while i < preferred.len()
        invariant
            i <= preferred@.len(),
            forall|a: int, b: int| 0 <= a < b < preferred@.len() && a < i ==> preferred@[a] != preferred@[b],
        decreases preferred.len() - i,
    {
        let mut j: usize = i + 1;
        while j < preferred.len()
            invariant
                i < j <= preferred@.len(),
                forall|b: int| i < b < j ==> preferred@[i as int] != preferred@[b],
            decreases preferred.len() - j,
        {
            if preferred[i].same(&preferred[j]) {
                assert(preferred@[i as int] == preferred@[j as int]);
                assert(!preferred@.no_duplicates());
                return false;
            }
            j += 1;
        }
        i += 1;
    }
    true
}

fn check_pages(view: &ViewMetadata) -> (sound: bool)
    requires
        view.size.wf(),
    ensures
        sound == pages_sound(view@),
{
    let count: usize = view.pages.len();
    let ghost list = view.pages.pairs();
    proof {
        crate::order::lemma_walk::<PageNumber, StoredPage>(list, view.pages@);
    }
    let last: u32 = view.size.pages();
    let mut i: usize = 0;
    while i < count
        invariant
            i <= count,
            count == list.len(),
            list == view.pages.pairs(),
            last == view@.size.count(),
            forall|j: int|
                0 <= j < i ==> page_sound(view@, (#[trigger] list[j]).0, list[j].1),
            forall|j: int|
                0 <= j < list.len() ==> view@.pages.dom().contains((#[trigger] list[j]).0)
                    && view@.pages[list[j].0] == list[j].1,
        decreases count - i,
    {
        let page: PageNumber = *view.pages.key_at(i);
        let stored: StoredPage = *view.pages.value_at(i);
        let sound: bool = match view.version(stored) {
            Some(version) => version.page.value == page.value && version.txid.value
                <= view.txid.value && page.value <= last,
            None => false,
        };
        if !sound {
            assert(!page_sound(view@, list[i as int].0, list[i as int].1));
            assert(view@.pages.dom().contains(list[i as int].0));
            return false;
        }
        i += 1;
    }
    proof {
        assert forall|page: PageNumber| #[trigger] view@.pages.dom().contains(page) implies page_sound(
            view@,
            page,
            view@.pages[page],
        ) by {
            let j = choose|j: int| 0 <= j < list.len() && (#[trigger] list[j]).0 == page;
            assert(page_sound(view@, list[j].0, list[j].1));
        }
    }
    true
}

fn check_used(view: &ViewMetadata) -> (used: bool)
    ensures
        used == frames_used(view@),
{
    let live: OrderedSet<FrameId> = view.used_frames();
    let count: usize = view.frames.len();
    let ghost list = view.frames.pairs();
    proof {
        crate::order::lemma_walk::<FrameId, LocationModel>(list, view.frames@);
    }
    let mut i: usize = 0;
    while i < count
        invariant
            i <= count,
            count == list.len(),
            list == view.frames.pairs(),
            live@ == view@.used(),
            forall|j: int| 0 <= j < i ==> view@.used().contains((#[trigger] list[j]).0),
            forall|j: int|
                0 <= j < list.len() ==> view@.frames.dom().contains((#[trigger] list[j]).0),
        decreases count - i,
    {
        if !live.contains(view.frames.key_at(i)) {
            assert(view@.frames.dom().contains(list[i as int].0));
            return false;
        }
        i += 1;
    }
    proof {
        assert forall|frame: FrameId| #[trigger]
            view@.frames.dom().contains(frame) implies view@.used().contains(frame) by {
            let j = choose|j: int| 0 <= j < list.len() && (#[trigger] list[j]).0 == frame;
            assert(view@.used().contains(list[j].0));
        }
    }
    true
}

fn add_lengths(view: &ViewMetadata, base: u64) -> (length: Result<u64, StoreError>)
    ensures
        match length {
            Ok(l) => length_from(view@, view@.frame_list(), 0, base as int) == Ok::<
                int,
                StoreError,
            >(l as int),
            Err(e) => length_from(view@, view@.frame_list(), 0, base as int) == Err::<
                int,
                StoreError,
            >(e),
        },
{
    let count: usize = view.frames.len();
    let ghost list = view.frames.pairs();
    let ghost goal = length_from(view@, list, 0, base as int);
    let mut length: u64 = base;
    let mut i: usize = 0;
    while i < count
        invariant
            i <= count,
            count == list.len(),
            list == view.frames.pairs(),
            list == view@.frame_list(),
            goal == length_from(view@, list, 0, base as int),
            goal == length_from(view@, list, i as int, length as int),
        decreases count - i,
    {
        let id: FrameId = *view.frames.key_at(i);
        let location: &FrameLocation = view.frames.value_at(i);
        let metadata: &FrameMetadata = location.metadata();
        if !id.same(&metadata.id()) || metadata.shape().page_size.value
            != view.size.page_size.value || location.payload().length.value
            != metadata.payload_bytes().value {
            return Err(StoreError::Corrupt(0));
        }
        let size: usize = metadata.encoded_len();
        proof {
            crate::frame::lemma_frame_small(metadata@);
        }
        length = match length.checked_add(76 + size as u64) {
            Some(length) => length,
            None => {
                return Err(StoreError::Range);
            },
        };
        i += 1;
    }
    Ok(length)
}

proof fn lemma_length_sound(
    view: ViewModel,
    list: Seq<(FrameId, LocationModel)>,
    i: int,
    length: int,
)
    requires
        0 <= i <= list.len(),
        length_from(view, list, i, length) is Ok,
    ensures
        forall|j: int|
            i <= j < list.len() ==> location_sound(view, (#[trigger] list[j]).0, list[j].1),
    decreases list.len() - i,
{
    if i < list.len() {
        lemma_length_sound(view, list, i + 1, length + 76 + list[i].1.frame.record().len());
    }
}

/// The frames of a valid view are sound, where they can be listed.
pub proof fn lemma_frames_sound(view: ViewModel)
    requires
        crate::order::ascending::<FrameId, LocationModel>(view.frame_list()),
        crate::order::mapped::<FrameId, LocationModel>(view.frame_list()) == view.frames,
        length_from(
            view,
            view.frame_list(),
            0,
            (192 + 32 * view.preferred.len() + 40 * view.page_list().len()) as int,
        ) is Ok,
    ensures
        frames_sound(view),
{
    let list = view.frame_list();
    lemma_length_sound(
        view,
        list,
        0,
        (192 + 32 * view.preferred.len() + 40 * view.page_list().len()) as int,
    );
    crate::order::lemma_walk::<FrameId, LocationModel>(list, view.frames);
    assert forall|frame: FrameId| #[trigger]
        view.frames.dom().contains(frame) implies location_sound(
        view,
        frame,
        view.frames[frame],
    ) by {
        let j = choose|j: int| 0 <= j < list.len() && (#[trigger] list[j]).0 == frame;
        assert(location_sound(view, list[j].0, list[j].1));
    }
}

impl ViewMetadata {
    /// Validates the structure of the view. A valid view stands alone, with its
    /// own transaction as its span.
    pub fn validate(self) -> (validated: Result<ValidatedMetadata, StoreError>)
        requires
            self.size.wf(),
        ensures
            match validated {
                Ok(v) => view_check(self@) == Ok::<int, StoreError>(v@.decoded) && v@ == (
                ValidatedModel {
                    view: self@,
                    span: TransactionSpan { begin: self@.txid, end: self@.txid },
                    ancestors: Seq::empty(),
                    decoded: v@.decoded,
                    parent: Parent::Checkpoint,
                }),
                Err(e) => view_check(self@) == Err::<int, StoreError>(e),
            },
    {
        if !check_preferred(&self.preferred) || !check_pages(&self) || !check_used(&self) {
            return Err(StoreError::Corrupt(0));
        }
        let pages: usize = self.pages.len();
        let base: u64 = match (pages as u64).checked_mul(40) {
            Some(bytes) => match bytes.checked_add(192 + 32 * self.preferred.len() as u64) {
                Some(base) => base,
                None => {
                    return Err(StoreError::Range);
                },
            },
            None => {
                return Err(StoreError::Range);
            },
        };
        let listed: usize = self.frames.len();
        let length: u64 = add_lengths(&self, base)?;
        if length > VIEW_LIMIT as u64 {
            return Err(StoreError::Range);
        }
        if !check_ranges(&self.frames) {
            return Err(StoreError::Corrupt(0));
        }
        proof {
            lemma_frames_sound(self@);
        }
        let span: TransactionSpan = TransactionSpan { begin: self.txid, end: self.txid };
        let ancestors: Vec<ManifestId> = Vec::new();
        assert(ancestors@ =~= Seq::<ManifestId>::empty());
        Ok(
            ValidatedMetadata {
                view: self,
                span,
                ancestors,
                decoded_bytes: Count { value: length },
                parent: Parent::Checkpoint,
            },
        )
    }
}

impl ValidatedMetadata {
    #[verifier::type_invariant]
    spec fn valid(&self) -> bool {
        self.view@.resolvable() && self.view@.size.wf() && frames_sound(self.view@)
    }

    /// A view that was put together from a chain, as its chain resolved it.
    pub(crate) fn from_chain(
        view: ViewMetadata,
        span: TransactionSpan,
        ancestors: Vec<ManifestId>,
        decoded_bytes: DecodedBytes,
        parent: Parent,
    ) -> (validated: Self)
        requires
            view@.resolvable(),
            view@.size.wf(),
            frames_sound(view@),
        ensures
            validated@ == (ValidatedModel {
                view: view@,
                span,
                ancestors: ancestors@,
                decoded: decoded_bytes.value as int,
                parent,
            }),
    {
        ValidatedMetadata { view, span, ancestors, decoded_bytes, parent }
    }

    /// Takes the view apart.
    pub(crate) fn into_chain(self) -> (parts: (ViewMetadata, Vec<ManifestId>))
        ensures
            parts.0@ == self@.view,
            parts.1@ == self@.ancestors,
            self@.view.resolvable(),
            self@.view.size.wf(),
            frames_sound(self@.view),
    {
        proof {
            use_type_invariant(&self);
        }
        (self.view, self.ancestors)
    }

    /// A copy of the view that can be changed.
    pub fn draft(&self) -> (view: ViewMetadata)
        ensures
            view@ == self@.view,
    {
        self.view.duplicate()
    }

    /// The transactions that the view covers.
    pub fn span(&self) -> (span: TransactionSpan)
        ensures
            span == self@.span,
    {
        self.span
    }

    /// The manifests that the view was resolved through, nearest first.
    pub fn ancestors(&self) -> (ancestors: &Vec<ManifestId>)
        ensures
            ancestors@ == self@.ancestors,
    {
        &self.ancestors
    }

    /// What the view was resolved onto.
    pub fn parent(&self) -> (parent: Parent)
        ensures
            parent == self@.parent,
    {
        self.parent
    }

    pub fn resolved(&self) -> (view: &ViewMetadata)
        ensures
            view@ == self@.view,
            view@.resolvable(),
            view@.size.wf(),
            frames_sound(view@),
    {
        proof {
            use_type_invariant(self);
        }
        &self.view
    }

    /// The length of the view's encoding.
    pub fn decoded_bytes(&self) -> (bytes: DecodedBytes)
        ensures
            bytes.value == self@.decoded,
    {
        self.decoded_bytes
    }

    /// The content root of the view.
    pub fn content_root(&self) -> (root: ContentRoot)
        ensures
            digest::names(root, self@.view.content_input()),
            self@.view.resolvable(),
    {
        proof {
            use_type_invariant(self);
        }
        match self.view.content_root() {
            Some(root) => root,
            None => {
                assert(false);
                Id { bytes: [0u8; 32] }
            },
        }
    }

    /// The logical hash of the view.
    pub fn logical_hash(&self) -> (hash: ViewHash)
        ensures
            is_logical_hash(hash, self@.view),
    {
        let root: ContentRoot = self.content_root();
        self.view.logical_hash_for(&root)
    }
}

/// `hash` is the logical hash of a view.
pub open spec fn is_logical_hash(hash: ViewHash, view: ViewModel) -> bool {
    digest::names(hash, view.logical_input(crate::digest::content_hash(view.content_input())))
}

/// A view is valid only where each of its pages is within its size and stands in a slot of
/// one of its frames, in a version of that page that is no newer than the view; where each
/// of its frames holds a page, stands under its own name, has the view's page size and a
/// payload of its length; where no two payloads in a pack overlap; and where it prefers at
/// most four dictionaries, each once.
pub proof fn law_valid_view(view: ViewModel, length: int, page: PageNumber, frame: FrameId, other: FrameId)
    requires
        view_check(view) == Ok::<int, StoreError>(length),
        view.frames.dom().finite(),
    ensures
        view.pages.dom().contains(page) ==> {
            let stored = view.pages[page];
            let place = view.frames[stored.frame].frame;
            &&& page.value <= view.size.count()
            &&& view.frames.dom().contains(stored.frame)
            &&& stored.slot.index < place.pages.len()
            &&& place.pages[stored.slot.index as int].page == page
            &&& place.pages[stored.slot.index as int].txid.value <= view.txid.value
        },
        view.frames.dom().contains(frame) ==> {
            let location = view.frames[frame];
            &&& location.frame.id == frame
            &&& location.frame.shape.page_size == view.size.page_size
            &&& location.payload.length.value == location.frame.payload_bytes
            &&& exists|held: PageNumber|
                #[trigger] view.pages.dom().contains(held) && view.pages[held].frame == frame
        },
        view.frames.dom().contains(frame) && view.frames.dom().contains(other) && frame != other
            && view.frames[frame].pack == view.frames[other].pack ==> {
            let a = view.frames[frame].payload;
            let b = view.frames[other].payload;
            a.offset.value + a.length.value <= b.offset.value || b.offset.value + b.length.value
                <= a.offset.value
        },
        view.preferred.len() <= 4,
        view.preferred.no_duplicates(),
        length <= 536870912,
{
    if view.pages.dom().contains(page) {
        assert(page_sound(view, page, view.pages[page]));
    }
    if view.frames.dom().contains(frame) {
        let list = view.frame_list();
        crate::order::lemma_lists::<FrameId, LocationModel>(view.frames);
        crate::order::lemma_walk::<FrameId, LocationModel>(list, view.frames);
        let i = choose|i: int| 0 <= i < list.len() && (#[trigger] list[i]).0 == frame;
        lemma_lengths_sound(
            view,
            list,
            0,
            (192 + 32 * view.preferred.len() + 40 * view.page_list().len()) as int,
            i,
        );
        assert(view.used().contains(frame));
    }
}

proof fn lemma_lengths_sound(
    view: ViewModel,
    list: Seq<(FrameId, LocationModel)>,
    i: int,
    length: int,
    k: int,
)
    requires
        0 <= i <= k < list.len(),
        length_from(view, list, i, length) is Ok,
    ensures
        location_sound(view, list[k].0, list[k].1),
    decreases list.len() - i,
{
    if i < k {
        lemma_lengths_sound(
            view,
            list,
            i + 1,
            length + 76 + list[i].1.frame.record().len(),
            k,
        );
    }
}

} // verus!
