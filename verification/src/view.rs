//! Views: which page stands in which slot of which frame, and where the frames
//! stand in packs.

use crate::bytes;
use crate::bytes::append;
use crate::digest;
use crate::digest::identify;
use crate::domain::{
    ContentRoot, DatabaseId, DictionaryId, FrameId, FrameSlot, HistoryHash, LineageId, LogicalBytes,
    PackId, PageNumber, TransactionId, ViewHash,
};
use crate::error::StoreError;
use crate::frame::{FrameMetadata, FrameModel, PageVersion};
use crate::order;
use crate::order::{Key, OrderedMap, OrderedSet};
use crate::placement::PackRange;
use crate::wire::{u32_bytes, u64_bytes};
use vstd::prelude::*;

verus! {

/// The most bytes of a view's encoding.
pub const VIEW_LIMIT: usize = 536870912;

/// The most preferred dictionaries of a view.
pub const MAX_PREFERRED: usize = 4;

/// `zsqlite/sealed-lineage/v1\0`.
pub const LINEAGE_DOMAIN: [u8; 26] = [122, 115, 113, 108, 105, 116, 101, 47, 115, 101, 97, 108, 101, 100, 45, 108, 105, 110, 101, 97, 103, 101, 47, 118, 49, 0];

/// `zsqlite/logical-view/v1`.
pub const LOGICAL_DOMAIN: [u8; 23] = [122, 115, 113, 108, 105, 116, 101, 47, 108, 111, 103, 105, 99, 97, 108, 45, 118, 105, 101, 119, 47, 118, 49];

/// Where a frame stands.
#[verifier::ext_equal]
pub struct LocationModel {
    pub pack: PackId,
    pub payload: PackRange,
    pub frame: FrameModel,
}

/// Where a frame stands: its pack and its payload in the pack.
#[derive(Debug, PartialEq, Eq)]
pub struct FrameLocation {
    pack: PackId,
    payload: PackRange,
    metadata: FrameMetadata,
}

impl View for FrameLocation {
    type V = LocationModel;

    closed spec fn view(&self) -> LocationModel {
        LocationModel { pack: self.pack, payload: self.payload, frame: self.metadata@ }
    }
}

impl FrameLocation {
    #[verifier::type_invariant]
    spec fn valid(&self) -> bool {
        self.payload.wf()
    }

    pub fn new(pack: PackId, payload: PackRange, metadata: FrameMetadata) -> (location: Self)
        requires
            payload.wf(),
        ensures
            location@ == (LocationModel { pack, payload, frame: metadata@ }),
    {
        FrameLocation { pack, payload, metadata }
    }

    pub fn pack(&self) -> (pack: PackId)
        ensures
            pack == self@.pack,
    {
        self.pack
    }

    pub fn payload(&self) -> (payload: PackRange)
        ensures
            payload == self@.payload,
            payload.wf(),
    {
        proof {
            use_type_invariant(self);
        }
        self.payload
    }

    pub fn metadata(&self) -> (metadata: &FrameMetadata)
        ensures
            metadata@ == self@.frame,
    {
        &self.metadata
    }

    /// Another copy of the location.
    pub fn duplicate(&self) -> (copy: FrameLocation)
        ensures
            copy@ == self@,
    {
        proof {
            use_type_invariant(self);
        }
        FrameLocation {
            pack: self.pack,
            payload: self.payload,
            metadata: self.metadata.duplicate(),
        }
    }

    /// Whether two locations say the same.
    pub fn same(&self, other: &FrameLocation) -> (same: bool)
        ensures
            same == (self@ == other@),
    {
        self.pack.same(&other.pack) && self.payload.same(&other.payload) && self.metadata.same(
            &other.metadata,
        )
    }
}

/// The slot of a frame that holds a page.
#[derive(Clone, Copy, Debug, PartialEq, Eq)]
pub struct StoredPage {
    pub frame: FrameId,
    pub slot: FrameSlot,
}

impl View for StoredPage {
    type V = StoredPage;

    open spec fn view(&self) -> StoredPage {
        *self
    }
}

impl StoredPage {
    /// Whether two slots are the same.
    pub fn same(&self, other: &StoredPage) -> (same: bool)
        ensures
            same == (*self == *other),
    {
        self.frame.same(&other.frame) && self.slot.index == other.slot.index
    }
}

/// What a view holds.
#[verifier::ext_equal]
pub struct ViewModel {
    pub database: DatabaseId,
    pub lineage: LineageId,
    pub size: LogicalBytes,
    pub txid: TransactionId,
    pub history: HistoryHash,
    pub parent_seal: Option<ViewHash>,
    pub frames: Map<FrameId, LocationModel>,
    pub pages: Map<PageNumber, StoredPage>,
    pub preferred: Seq<DictionaryId>,
}

/// The bytes of an optional hash; none is all zeros.
pub open spec fn seal_bytes(seal: Option<ViewHash>) -> Seq<u8> {
    match seal {
        Some(hash) => hash.bytes@,
        None => bytes::zeros(32),
    }
}

impl ViewModel {
    /// A slot that the view's frames have.
    pub open spec fn resolves(self, stored: StoredPage) -> bool {
        self.frames.dom().contains(stored.frame) && stored.slot.index
            < self.frames[stored.frame].frame.pages.len()
    }

    /// Every page stands in a slot that the view's frames have.
    pub open spec fn resolvable(self) -> bool {
        forall|page: PageNumber| #[trigger]
            self.pages.dom().contains(page) ==> self.resolves(self.pages[page])
    }

    /// The version of the page in a slot.
    pub open spec fn version(self, stored: StoredPage) -> PageVersion {
        self.frames[stored.frame].frame.pages[stored.slot.index as int]
    }

    /// The pages in ascending order, each with its slot.
    pub open spec fn page_list(self) -> Seq<(PageNumber, StoredPage)> {
        order::listing::<PageNumber, StoredPage>(self.pages)
    }

    /// The frames in ascending order.
    pub open spec fn frame_list(self) -> Seq<(FrameId, LocationModel)> {
        order::listing::<FrameId, LocationModel>(self.frames)
    }

    /// The records of the page versions from place `i` of a list on.
    pub open spec fn version_records(self, list: Seq<(PageNumber, StoredPage)>, i: int) -> Seq<u8>
        decreases list.len() - i,
    {
        if i >= list.len() {
            Seq::empty()
        } else {
            self.version(list[i].1).record() + self.version_records(list, i + 1)
        }
    }

    /// What the content root covers: every page version, in page order. It does
    /// not depend on frames or packs beyond the versions.
    pub open spec fn content_input(self) -> Seq<u8> {
        self.version_records(self.page_list(), 0)
    }

    /// What the logical hash covers. The physical layout is no part of it.
    pub open spec fn logical_input(self, root: Seq<u8>) -> Seq<u8> {
        LOGICAL_DOMAIN@ + self.database.bytes@ + self.lineage.bytes@ + bytes::le(
            self.size.page_size.value as nat,
            4,
        ) + bytes::le(self.size.bytes as nat, 8) + bytes::le(self.txid.value as nat, 8) + self.history.bytes@
            + seal_bytes(self.parent_seal) + root
    }

    /// What the history of a sealed view covers.
    pub open spec fn lineage_input(self, root: Seq<u8>) -> Seq<u8> {
        LINEAGE_DOMAIN@ + self.database.bytes@ + self.lineage.bytes@ + bytes::le(
            self.txid.value as nat,
            8,
        ) + bytes::le(self.size.page_size.value as nat, 4) + bytes::le(self.size.bytes as nat, 8) + seal_bytes(
            self.parent_seal,
        ) + root
    }

    /// The frames that pages stand in.
    pub open spec fn used(self) -> Set<FrameId> {
        Set::new(
            |frame: FrameId|
                exists|page: PageNumber|
                    #[trigger] self.pages.dom().contains(page) && self.pages[page].frame == frame,
        )
    }

    /// The view without the pages above `last`.
    pub open spec fn without_above(self, last: u32) -> ViewModel {
        ViewModel {
            pages: self.pages.restrict(Set::new(|page: PageNumber| page.value <= last)),
            ..self
        }
    }

    /// The view without frames that no page stands in.
    pub open spec fn compact(self) -> ViewModel {
        ViewModel { frames: self.frames.restrict(self.used()), ..self }
    }

    pub open spec fn head(self, root: Seq<u8>) -> Seq<u8> {
        self.database.bytes@ + self.lineage.bytes@ + bytes::le(self.size.page_size.value as nat, 4) + bytes::le(
            self.size.bytes as nat,
            8,
        ) + bytes::le(self.txid.value as nat, 8) + self.history.bytes@ + seal_bytes(self.parent_seal)
            + root
    }

    /// The encoding of the view, with its content root.
    pub open spec fn raw(self, root: Seq<u8>) -> Seq<u8> {
        self.head(root) + bytes::le(self.preferred.len(), 4) + ids_bytes(self.preferred, 0) + bytes::le(
            self.frame_list().len(),
            4,
        ) + frames_bytes(self.frame_list(), 0) + bytes::le(self.page_list().len(), 4) + pages_bytes(
            self.page_list(),
            0,
        )
    }
}

impl ViewModel {
    /// The encoding of the view.
    pub open spec fn encoding(self) -> Seq<u8> {
        self.raw(digest::content_hash(self.content_input()))
    }
}

/// Identities one after the other, from place `i` on.
pub open spec fn ids_bytes(ids: Seq<DictionaryId>, i: int) -> Seq<u8>
    decreases ids.len() - i,
{
    if i >= ids.len() {
        Seq::empty()
    } else {
        ids[i].bytes@ + ids_bytes(ids, i + 1)
    }
}

/// The record of a frame in a view.
pub open spec fn location_record(id: FrameId, location: LocationModel) -> Seq<u8> {
    id.bytes@ + location.pack.bytes@ + bytes::le(location.payload.offset.value as nat, 8) + bytes::le(
        location.frame.record().len(),
        4,
    ) + location.frame.record()
}

pub open spec fn frames_bytes(list: Seq<(FrameId, LocationModel)>, i: int) -> Seq<u8>
    decreases list.len() - i,
{
    if i >= list.len() {
        Seq::empty()
    } else {
        location_record(list[i].0, list[i].1) + frames_bytes(list, i + 1)
    }
}

/// The record of a page in a view.
pub open spec fn page_record(page: PageNumber, stored: StoredPage) -> Seq<u8> {
    bytes::le(page.value as nat, 4) + stored.frame.bytes@ + bytes::le(stored.slot.index as nat, 4)
}

pub open spec fn pages_bytes(list: Seq<(PageNumber, StoredPage)>, i: int) -> Seq<u8>
    decreases list.len() - i,
{
    if i >= list.len() {
        Seq::empty()
    } else {
        page_record(list[i].0, list[i].1) + pages_bytes(list, i + 1)
    }
}

/// A view under way. Nothing says that it is valid.
#[derive(Debug, PartialEq, Eq)]
pub struct ViewMetadata {
    pub database: DatabaseId,
    pub lineage: LineageId,
    pub size: LogicalBytes,
    pub txid: TransactionId,
    pub history: HistoryHash,
    pub parent_seal: Option<ViewHash>,
    pub frames: OrderedMap<FrameId, FrameLocation>,
    pub pages: OrderedMap<PageNumber, StoredPage>,
    pub preferred: Vec<DictionaryId>,
}

impl View for ViewMetadata {
    type V = ViewModel;

    open spec fn view(&self) -> ViewModel {
        ViewModel {
            database: self.database,
            lineage: self.lineage,
            size: self.size,
            txid: self.txid,
            history: self.history,
            parent_seal: self.parent_seal,
            frames: self.frames@,
            pages: self.pages@,
            preferred: self.preferred@,
        }
    }
}

fn append_seal(output: &mut Vec<u8>, seal: &Option<ViewHash>)
    ensures
        final(output)@ == old(output)@ + seal_bytes(*seal),
{
    match seal {
        Some(hash) => append(output, hash.bytes.as_slice()),
        None => crate::bytes::append_zeros(output, 32),
    }
}

impl ViewMetadata {
    /// A view of a database without any page.
    pub fn empty(
        database: DatabaseId,
        lineage: LineageId,
        size: LogicalBytes,
        txid: TransactionId,
        history: HistoryHash,
    ) -> (view: Self)
        ensures
            view@ == (ViewModel {
                database,
                lineage,
                size,
                txid,
                history,
                parent_seal: None,
                frames: Map::empty(),
                pages: Map::empty(),
                preferred: Seq::empty(),
            }),
    {
        let view = ViewMetadata {
            database,
            lineage,
            size,
            txid,
            history,
            parent_seal: None,
            frames: OrderedMap::new(),
            pages: OrderedMap::new(),
            preferred: Vec::new(),
        };
        assert(view.preferred@ =~= Seq::<DictionaryId>::empty());
        view
    }

    /// The version of the page in a slot, if the view's frames have the slot.
    pub fn version(&self, stored: StoredPage) -> (version: Option<PageVersion>)
        ensures
            match version {
                Some(v) => self@.resolves(stored) && v == self@.version(stored),
                None => !self@.resolves(stored),
            },
    {
        match self.frames.get(&stored.frame) {
            None => None,
            Some(location) => {
                let pages: &[PageVersion] = location.metadata().pages();
                if (stored.slot.index as u64) < pages.len() as u64 {
                    Some(pages[stored.slot.index as usize])
                } else {
                    None
                }
            },
        }
    }

    /// The content root, if every page stands in a slot of the view's frames.
    pub fn content_root(&self) -> (root: Option<ContentRoot>)
        ensures
            match root {
                Some(r) => self@.resolvable() && digest::names(r, self@.content_input()),
                None => !self@.resolvable(),
            },
    {
        let count: usize = self.pages.len();
        let ghost list = self.pages.pairs();
        proof {
            crate::order::lemma_walk::<PageNumber, StoredPage>(list, self.pages@);
        }
        let mut input: Vec<u8> = Vec::new();
        let mut i: usize = 0;
        assert(input@ + self@.version_records(list, 0) =~= self@.version_records(list, 0));
        while i < count
            invariant
                i <= count,
                count == list.len(),
                list == self@.page_list(),
                list == self.pages.pairs(),
                input@ + self@.version_records(list, i as int) == self@.version_records(list, 0),
                forall|j: int| 0 <= j < i ==> self@.resolves((#[trigger] list[j]).1),
                forall|j: int|
                    0 <= j < list.len() ==> self@.pages.dom().contains((#[trigger] list[j]).0)
                        && self@.pages[list[j].0] == list[j].1,
            decreases count - i,
        {
            let stored: StoredPage = *self.pages.value_at(i);
            match self.version(stored) {
                Some(version) => {
                    let ghost now = input@;
                    version.encode(&mut input);
                    proof {
                        let rest = self@.version_records(list, i as int + 1);
                        assert(now + (version.record() + rest) =~= input@ + rest);
                    }
                },
                None => {
                    assert(self@.pages.dom().contains(list[i as int].0));
                    return None;
                },
            }
            i += 1;
        }
        proof {
            assert(input@ + self@.version_records(list, i as int) =~= input@);
            assert(self@.resolvable()) by {
                assert forall|page: PageNumber| #[trigger]
                    self@.pages.dom().contains(page) implies self@.resolves(self@.pages[page]) by {
                    let j = choose|j: int| 0 <= j < list.len() && (#[trigger] list[j]).0 == page;
                    assert(self@.resolves(list[j].1));
                }
            }
        }
        Some(identify(input.as_slice()))
    }

    /// The logical hash of the view with this content root.
    pub fn logical_hash_for(&self, root: &ContentRoot) -> (hash: ViewHash)
        ensures
            digest::names(hash, self@.logical_input(root.bytes@)),
    {
        let mut input: Vec<u8> = Vec::new();
        append(&mut input, LOGICAL_DOMAIN.as_slice());
        append(&mut input, self.database.bytes.as_slice());
        append(&mut input, self.lineage.bytes.as_slice());
        u32_bytes(&mut input, self.size.page_size.value);
        u64_bytes(&mut input, self.size.bytes);
        u64_bytes(&mut input, self.txid.value);
        append(&mut input, self.history.bytes.as_slice());
        append_seal(&mut input, &self.parent_seal);
        append(&mut input, root.bytes.as_slice());
        assert(input@ =~= self@.logical_input(root.bytes@));
        identify(input.as_slice())
    }

    /// Seals the view onto the view with this logical hash: its history follows
    /// from the parent and its own contents.
    pub fn sealed_lineage(&mut self, parent: Option<ViewHash>) -> (done: Result<(), StoreError>)
        ensures
            match done {
                Ok(_) => old(self)@.resolvable() && ({
                    let sealed = ViewModel { parent_seal: parent, ..old(self)@ };
                    &&& exists|root: ContentRoot|
                        #[trigger] digest::names(root, sealed.content_input()) && digest::names(
                            final(self)@.history,
                            sealed.lineage_input(root.bytes@),
                        )
                    &&& final(self)@ == (ViewModel { history: final(self)@.history, ..sealed })
                }),
                Err(e) => !old(self)@.resolvable() && e == StoreError::Corrupt(0) && final(self)@
                    == (ViewModel { parent_seal: parent, ..old(self)@ }),
            },
    {
        self.parent_seal = parent;
        let root: ContentRoot = match self.content_root() {
            Some(root) => root,
            None => {
                return Err(StoreError::Corrupt(0));
            },
        };
        proof {
            lemma_root_ignores_seal(old(self)@, parent);
        }
        let mut input: Vec<u8> = Vec::new();
        append(&mut input, LINEAGE_DOMAIN.as_slice());
        append(&mut input, self.database.bytes.as_slice());
        append(&mut input, self.lineage.bytes.as_slice());
        u64_bytes(&mut input, self.txid.value);
        u32_bytes(&mut input, self.size.page_size.value);
        u64_bytes(&mut input, self.size.bytes);
        append_seal(&mut input, &self.parent_seal);
        append(&mut input, root.bytes.as_slice());
        assert(input@ =~= self@.lineage_input(root.bytes@));
        let ghost sealed = self@;
        self.history = identify(input.as_slice());
        assert(digest::names(root, sealed.content_input()));
        Ok(())
    }

    /// Drops the pages above `last`.
    pub fn remove_above(&mut self, last: u32)
        ensures
            final(self)@ == old(self)@.without_above(last),
    {
        let count: usize = self.pages.len();
        let ghost list = self.pages.pairs();
        proof {
            crate::order::lemma_walk::<PageNumber, StoredPage>(list, self.pages@);
        }
        let mut keep: OrderedSet<PageNumber> = OrderedSet::new();
        let mut i: usize = 0;
        while i < count
            invariant
                i <= count,
                count == list.len(),
                list == self.pages.pairs(),
                self@ == old(self)@,
                forall|page: PageNumber| #[trigger] keep@.contains(page) ==> page.value <= last,
                forall|j: int|
                    0 <= j < i && (#[trigger] list[j]).0.value <= last ==> keep@.contains(list[j].0),
            decreases count - i,
        {
            let page: PageNumber = *self.pages.key_at(i);
            if page.value <= last {
                keep.insert(page);
            }
            i += 1;
        }
        let ghost before = self.pages@;
        self.pages.retain(&keep);
        proof {
            let wanted = Set::new(|page: PageNumber| page.value <= last);
            assert forall|page: PageNumber|
                before.dom().contains(page) && wanted.contains(page) implies keep@.contains(
                page,
            ) by {
                let j = choose|j: int| 0 <= j < list.len() && (#[trigger] list[j]).0 == page;
                assert(keep@.contains(list[j].0));
            }
            assert(before.restrict(keep@) =~= before.restrict(wanted));
            assert(self@ =~= old(self)@.without_above(last));
        }
    }

    /// Drops a page.
    pub fn remove(&mut self, page: PageNumber)
        ensures
            final(self)@ == (ViewModel { pages: old(self)@.pages.remove(page), ..old(self)@ }),
    {
        self.pages.remove(&page);
    }

    /// Drops the frames that no page stands in.
    pub fn retain_frames(&mut self)
        ensures
            final(self)@ == old(self)@.compact(),
    {
        let live: OrderedSet<FrameId> = self.used_frames();
        self.frames.retain(&live);
        assert(self@ =~= old(self)@.compact());
    }

    /// The frames that pages stand in.
    pub fn used_frames(&self) -> (used: OrderedSet<FrameId>)
        ensures
            used@ == self@.used(),
    {
        let count: usize = self.pages.len();
        let ghost list = self.pages.pairs();
        proof {
            crate::order::lemma_walk::<PageNumber, StoredPage>(list, self.pages@);
        }
        let mut used: OrderedSet<FrameId> = OrderedSet::new();
        let mut i: usize = 0;
        while i < count
            invariant
                i <= count,
                count == list.len(),
                list == self.pages.pairs(),
                forall|frame: FrameId|
                    #[trigger] used@.contains(frame) ==> exists|j: int|
                        0 <= j < i && (#[trigger] list[j]).1.frame == frame,
                forall|j: int| 0 <= j < i ==> used@.contains((#[trigger] list[j]).1.frame),
            decreases count - i,
        {
            let frame: FrameId = self.pages.value_at(i).frame;
            let ghost before = used@;
            used.insert(frame);
            proof {
                assert forall|f: FrameId| #[trigger] used@.contains(f) implies exists|j: int|
                    0 <= j < i + 1 && (#[trigger] list[j]).1.frame == f by {
                    if f == frame {
                        assert(list[i as int].1.frame == f);
                    } else {
                        assert(before.contains(f));
                        let j = choose|j: int| 0 <= j < i && (#[trigger] list[j]).1.frame == f;
                        assert(list[j].1.frame == f);
                    }
                }
            }
            i += 1;
        }
        proof {
            assert forall|frame: FrameId| used@.contains(frame) == self@.used().contains(
                frame,
            ) by {
                if used@.contains(frame) {
                    let j = choose|j: int| 0 <= j < count && (#[trigger] list[j]).1.frame == frame;
                    assert(self@.pages.dom().contains(list[j].0));
                }
                if self@.used().contains(frame) {
                    let page = choose|page: PageNumber|
                        #[trigger] self@.pages.dom().contains(page) && self@.pages[page].frame
                            == frame;
                    let j = choose|j: int| 0 <= j < list.len() && (#[trigger] list[j]).0 == page;
                    assert(used@.contains(list[j].1.frame));
                }
            }
            assert(used@ =~= self@.used());
        }
        used
    }

    /// Whether a frame holds the current version of a page.
    pub fn is_live(&self, page: PageNumber, frame: FrameId) -> (live: bool)
        ensures
            live == (self@.pages.dom().contains(page) && self@.pages[page].frame == frame),
    {
        match self.pages.get(&page) {
            Some(stored) => stored.frame.same(&frame),
            None => false,
        }
    }

    /// Whether a dictionary is preferred.
    pub fn prefers(&self, id: &DictionaryId) -> (preferred: bool)
        ensures
            preferred == self@.preferred.contains(*id),
    {
        let mut i: usize = 0;
        while i < self.preferred.len()
            invariant
                i <= self.preferred@.len(),
                forall|j: int| 0 <= j < i ==> self.preferred@[j] != *id,
            decreases self.preferred.len() - i,
        {
            if self.preferred[i].same(id) {
                assert(self.preferred@[i as int] == *id);
                return true;
            }
            i += 1;
        }
        false
    }

    /// Encodes the view with its content root. Too long an encoding is refused.
    pub fn encode_raw(&self) -> (raw: Result<Vec<u8>, StoreError>)
        requires
            self@.resolvable(),
        ensures
            match raw {
                Ok(r) => r@.len() <= VIEW_LIMIT && r@ == self@.encoding(),
                Err(e) => e == StoreError::Range && self@.encoding().len() > VIEW_LIMIT,
            },
    {
        let root: ContentRoot = match self.content_root() {
            Some(root) => root,
            None => {
                assert(false);
                return Err(StoreError::Corrupt(0));
            },
        };
        let ghost whole = self@.raw(root.bytes@);
        let mut raw: Vec<u8> = Vec::new();
        append(&mut raw, self.database.bytes.as_slice());
        append(&mut raw, self.lineage.bytes.as_slice());
        u32_bytes(&mut raw, self.size.page_size.value);
        u64_bytes(&mut raw, self.size.bytes);
        u64_bytes(&mut raw, self.txid.value);
        append(&mut raw, self.history.bytes.as_slice());
        append_seal(&mut raw, &self.parent_seal);
        append(&mut raw, root.bytes.as_slice());
        assert(raw@ =~= self@.head(root.bytes@));
        let frames: usize = self.frames.len();
        let pages: usize = self.pages.len();
        if self.preferred.len() > u32::MAX as usize || frames > u32::MAX as usize || pages
            > u32::MAX as usize {
            proof {
                lemma_raw_long(self@, root.bytes@);
            }
            return Err(StoreError::Range);
        }
        u32_bytes(&mut raw, self.preferred.len() as u32);
        let ghost a = raw@;
        let mut i: usize = 0;
        while i < self.preferred.len()
            invariant
                i <= self.preferred@.len(),
                raw@ + ids_bytes(self.preferred@, i as int) == a + ids_bytes(self.preferred@, 0),
            decreases self.preferred.len() - i,
        {
            let ghost now = raw@;
            append(&mut raw, self.preferred[i].bytes.as_slice());
            proof {
                let rest = ids_bytes(self.preferred@, i as int + 1);
                assert(now + (self.preferred@[i as int].bytes@ + rest) =~= raw@ + rest);
            }
            i += 1;
        }
        assert(raw@ + ids_bytes(self.preferred@, i as int) =~= raw@);
        u32_bytes(&mut raw, frames as u32);
        let ghost b = raw@;
        let ghost frame_list = self.frames.pairs();
        let mut i: usize = 0;
        while i < frames
            invariant
                i <= frames,
                frames == frame_list.len(),
                frame_list == self.frames.pairs(),
                raw@ + frames_bytes(frame_list, i as int) == b + frames_bytes(frame_list, 0),
            decreases frames - i,
        {
            let ghost now = raw@;
            let id: &FrameId = self.frames.key_at(i);
            let location: &FrameLocation = self.frames.value_at(i);
            append(&mut raw, id.bytes.as_slice());
            append(&mut raw, location.pack.bytes.as_slice());
            u64_bytes(&mut raw, location.payload.offset.value);
            let encoded: Vec<u8> = location.metadata.encode();
            proof {
                crate::frame::lemma_frame_small(location.metadata@);
            }
            u32_bytes(&mut raw, encoded.len() as u32);
            append(&mut raw, encoded.as_slice());
            proof {
                let rest = frames_bytes(frame_list, i as int + 1);
                let record = location_record(frame_list[i as int].0, frame_list[i as int].1);
                assert(raw@ =~= now + record);
                assert(now + (record + rest) =~= raw@ + rest);
            }
            i += 1;
        }
        assert(raw@ + frames_bytes(frame_list, i as int) =~= raw@);
        u32_bytes(&mut raw, pages as u32);
        let ghost c = raw@;
        let ghost page_list = self.pages.pairs();
        let mut i: usize = 0;
        while i < pages
            invariant
                i <= pages,
                pages == page_list.len(),
                page_list == self.pages.pairs(),
                raw@ + pages_bytes(page_list, i as int) == c + pages_bytes(page_list, 0),
            decreases pages - i,
        {
            let ghost now = raw@;
            let page: &PageNumber = self.pages.key_at(i);
            let stored: &StoredPage = self.pages.value_at(i);
            u32_bytes(&mut raw, page.value);
            append(&mut raw, stored.frame.bytes.as_slice());
            u32_bytes(&mut raw, stored.slot.index);
            proof {
                let rest = pages_bytes(page_list, i as int + 1);
                let record = page_record(page_list[i as int].0, page_list[i as int].1);
                assert(raw@ =~= now + record);
                assert(now + (record + rest) =~= raw@ + rest);
            }
            i += 1;
        }
        assert(raw@ + pages_bytes(page_list, i as int) =~= raw@);
        assert(raw@ =~= whole);
        assert(digest::names(root, self@.content_input()));
        if raw.len() > VIEW_LIMIT {
            return Err(StoreError::Range);
        }
        Ok(raw)
    }
}

proof fn lemma_root_ignores_seal(view: ViewModel, seal: Option<ViewHash>)
    ensures
        (ViewModel { parent_seal: seal, ..view }).content_input() == view.content_input(),
{
    lemma_versions_agree(
        view,
        ViewModel { parent_seal: seal, ..view },
        view.page_list(),
        0,
    );
}

/// Two views whose frames agree give the same version records.
pub proof fn lemma_versions_agree(
    a: ViewModel,
    b: ViewModel,
    list: Seq<(PageNumber, StoredPage)>,
    i: int,
)
    requires
        0 <= i,
        forall|j: int|
            i <= j < list.len() ==> a.version((#[trigger] list[j]).1) == b.version(list[j].1),
    ensures
        a.version_records(list, i) == b.version_records(list, i),
    decreases list.len() - i,
{
    if i < list.len() {
        lemma_versions_agree(a, b, list, i + 1);
    }
}

pub proof fn lemma_ids_size(ids: Seq<DictionaryId>, i: int)
    requires
        0 <= i <= ids.len(),
    ensures
        ids_bytes(ids, i).len() == 32 * (ids.len() - i),
    decreases ids.len() - i,
{
    if i < ids.len() {
        lemma_ids_size(ids, i + 1);
    }
}

pub proof fn lemma_pages_size(list: Seq<(PageNumber, StoredPage)>, i: int)
    requires
        0 <= i <= list.len(),
    ensures
        pages_bytes(list, i).len() == 40 * (list.len() - i),
    decreases list.len() - i,
{
    if i < list.len() {
        crate::bytes::lemma_le_len(list[i].0.value as nat, 4);
        crate::bytes::lemma_le_len(list[i].1.slot.index as nat, 4);
        lemma_pages_size(list, i + 1);
    }
}

/// The sum of the lengths of the frame records from place `i` on.
pub open spec fn frames_size(list: Seq<(FrameId, LocationModel)>, i: int) -> int
    decreases list.len() - i,
{
    if i >= list.len() {
        0
    } else {
        76 + list[i].1.frame.record().len() + frames_size(list, i + 1)
    }
}

pub proof fn lemma_frames_size(list: Seq<(FrameId, LocationModel)>, i: int)
    requires
        0 <= i <= list.len(),
    ensures
        frames_bytes(list, i).len() == frames_size(list, i),
        frames_size(list, i) >= 76 * (list.len() - i),
    decreases list.len() - i,
{
    if i < list.len() {
        crate::bytes::lemma_le_len(list[i].1.payload.offset.value as nat, 8);
        crate::bytes::lemma_le_len(list[i].1.frame.record().len(), 4);
        lemma_frames_size(list, i + 1);
    }
}

/// The length of a view's encoding.
pub proof fn lemma_raw_size(view: ViewModel, root: Seq<u8>)
    requires
        root.len() == 32,
    ensures
        view.raw(root).len() == 192 + 32 * view.preferred.len() + 40 * view.page_list().len()
            + frames_size(view.frame_list(), 0),
{
    lemma_ids_size(view.preferred, 0);
    lemma_pages_size(view.page_list(), 0);
    lemma_frames_size(view.frame_list(), 0);
    crate::bytes::lemma_le_len(view.size.page_size.value as nat, 4);
    crate::bytes::lemma_le_len(view.size.bytes as nat, 8);
    crate::bytes::lemma_le_len(view.txid.value as nat, 8);
    crate::bytes::lemma_le_len(view.preferred.len(), 4);
    crate::bytes::lemma_le_len(view.frame_list().len(), 4);
    crate::bytes::lemma_le_len(view.page_list().len(), 4);
}

proof fn lemma_raw_long(view: ViewModel, root: Seq<u8>)
    requires
        root.len() == 32,
        view.preferred.len() > u32::MAX || view.frame_list().len() > u32::MAX
            || view.page_list().len() > u32::MAX,
    ensures
        view.raw(root).len() > VIEW_LIMIT,
{
    lemma_raw_size(view, root);
    lemma_frames_size(view.frame_list(), 0);
}

/// A view that is compacted has the same pages, and of its frames those that a page stands
/// in.
pub proof fn law_compact_drops_unused_frames(view: ViewModel, frame: FrameId)
    ensures
        view.compact().pages == view.pages,
        view.compact().txid == view.txid,
        view.compact().size == view.size,
        view.compact().history == view.history,
        view.compact().parent_seal == view.parent_seal,
        view.compact().preferred == view.preferred,
        view.compact().frames.dom().contains(frame) <==> view.frames.dom().contains(frame) && exists|
            page: PageNumber,
        |
            #[trigger] view.pages.dom().contains(page) && view.pages[page].frame == frame,
        view.compact().frames.dom().contains(frame) ==> view.compact().frames[frame]
            == view.frames[frame],
{
}

} // verus!
