//! Views under way: adding frames, and what a view depends on.

use crate::digest;
use crate::domain::{
    CompressionDictionary, ContentRoot, DictionaryId, FrameId, FrameSlot, Id, PackId, PageNumber,
    PayloadEncoding, ViewHash,
};
use crate::error::{StoreError, valued};
use crate::frame;
use crate::frame::{FrameModel, PageVersion};
use crate::order;
use crate::order::{Key, OrderedMap, OrderedSet};
use crate::view::{FrameLocation, LocationModel, StoredPage, ViewMetadata, ViewModel};
use vstd::prelude::*;

verus! {

/// The identity that names some bytes is the one with their digest.
pub proof fn lemma_named<const KIND: u8>(id: Id<KIND>, input: Seq<u8>)
    requires
        digest::names(id, input),
    ensures
        id == frame::id_of::<KIND>(digest::content_hash(input)),
{
    frame::lemma_id_of(id);
}

impl ViewModel {
    /// The content root.
    pub open spec fn root(self) -> ContentRoot {
        frame::id_of(digest::content_hash(self.content_input()))
    }

    /// The logical hash.
    pub open spec fn hash(self) -> ViewHash {
        frame::id_of(digest::content_hash(self.logical_input(digest::content_hash(self.content_input()))))
    }

    /// The packs that hold frames of the view.
    pub open spec fn packs(self) -> Set<PackId> {
        Set::new(
            |pack: PackId|
                exists|frame: FrameId|
                    #[trigger] self.frames.dom().contains(frame) && self.frames[frame].pack == pack,
        )
    }

    /// The dictionaries that frames are compressed with, and the preferred ones.
    pub open spec fn dictionaries(self) -> Set<DictionaryId> {
        Set::new(
            |id: DictionaryId|
                self.preferred.contains(id) || exists|frame: FrameId|
                    #[trigger] self.frames.dom().contains(frame)
                        && self.frames[frame].frame.encoding.dictionary() == Some(id),
        )
    }

    /// Every page stands in a frame of the view.
    pub open spec fn framed(self) -> bool {
        forall|page: PageNumber| #[trigger]
            self.pages.dom().contains(page) ==> self.frames.dom().contains(self.pages[page].frame)
    }

    /// The number of the first `count` pages of a list whose frames stand in a pack.
    pub open spec fn live_in(
        self,
        list: Seq<(PageNumber, StoredPage)>,
        pack: PackId,
        count: int,
    ) -> nat
        decreases count,
    {
        if count <= 0 {
            0
        } else {
            self.live_in(list, pack, count - 1) + if self.frames[list[count - 1].1.frame].pack
                == pack {
                1nat
            } else {
                0nat
            }
        }
    }

    /// The live pages of each pack that has some.
    pub open spec fn live_pages(self) -> Map<PackId, u64> {
        let list = self.page_list();
        Map::new(
            |pack: PackId| self.live_in(list, pack, list.len() as int) > 0,
            |pack: PackId| self.live_in(list, pack, list.len() as int) as u64,
        )
    }

    /// The page versions in page order.
    pub open spec fn versions(self) -> Seq<PageVersion> {
        Seq::new(self.page_list().len(), |i: int| self.version(self.page_list()[i].1))
    }

    /// A frame that the view can take: of its page size, and its first `count`
    /// pages neither beyond the view's size nor newer than the view.
    pub open spec fn admits(self, frame: FrameModel, count: int) -> bool {
        forall|i: int|
            0 <= i < count ==> (#[trigger] frame.pages[i]).page.value <= self.size.count()
                && frame.pages[i].txid.value <= self.txid.value
    }
}

/// Pages with the first `count` pages of a frame in its slots.
pub open spec fn placed(
    pages: Map<PageNumber, StoredPage>,
    frame: FrameModel,
    count: int,
) -> Map<PageNumber, StoredPage>
    decreases count,
{
    if count <= 0 {
        pages
    } else {
        placed(pages, frame, count - 1).insert(
            frame.pages[count - 1].page,
            StoredPage { frame: frame.id, slot: FrameSlot { index: (count - 1) as u32 } },
        )
    }
}

impl ViewMetadata {
    /// Adds a frame: its pages stand in its slots from now on. A frame of
    /// another page size is refused; a page beyond the view's size or newer than
    /// the view ends the addition, with the pages before it already in place.
    pub fn insert(&mut self, location: FrameLocation) -> (done: Result<(), StoreError>)
        requires
            old(self).size.wf(),
        ensures
            match done {
                Ok(_) => {
                    let frame = location@.frame;
                    &&& frame.shape.page_size == old(self)@.size.page_size
                    &&& old(self)@.admits(frame, frame.pages.len() as int)
                    &&& final(self)@ == (ViewModel {
                        pages: placed(old(self)@.pages, frame, frame.pages.len() as int),
                        frames: old(self)@.frames.insert(frame.id, location@),
                        ..old(self)@
                    })
                },
                Err(error) => {
                    let frame = location@.frame;
                    if frame.shape.page_size != old(self)@.size.page_size {
                        error == StoreError::IdentityMismatch && final(self)@ == old(self)@
                    } else {
                        error == StoreError::Corrupt(0) && exists|bad: int|
                            0 <= bad < frame.pages.len() && #[trigger] old(self)@.admits(frame, bad)
                                && !old(self)@.admits(frame, bad + 1) && final(self)@ == (
                            ViewModel { pages: placed(old(self)@.pages, frame, bad), ..old(self)@ })
                    }
                },
            },
    {
        let ghost frame = location@.frame;
        if location.metadata().shape().page_size.value != self.size.page_size.value {
            return Err(StoreError::IdentityMismatch);
        }
        let last: u32 = self.size.pages();
        let id: FrameId = location.metadata().id();
        let count: usize = location.metadata().pages().len();
        let mut i: usize = 0;
        while i < count
            invariant
                i <= count,
                count == frame.pages.len(),
                frame == location@.frame,
                frame.sound(),
                frame.shape.page_size == old(self)@.size.page_size,
                id == frame.id,
                last == old(self)@.size.count(),
                self.txid == old(self)@.txid,
                old(self)@.admits(frame, i as int),
                self@ == (ViewModel {
                    pages: placed(old(self)@.pages, frame, i as int),
                    ..old(self)@
                }),
            decreases count - i,
        {
            let version: PageVersion = location.metadata().pages()[i];
            if version.page.value > last || version.txid.value > self.txid.value {
                assert(!old(self)@.admits(frame, i as int + 1)) by {
                    assert(frame.pages[i as int] == version);
                }
                return Err(StoreError::Corrupt(0));
            }
            let slot: FrameSlot = valued(location.metadata().shape().slot(i as u32))?;
            self.pages.insert(version.page, StoredPage { frame: id, slot });
            i += 1;
        }
        self.frames.insert(id, location);
        Ok(())
    }

    /// The packs that hold frames of the view.
    pub fn packs(&self) -> (packs: OrderedSet<PackId>)
        ensures
            packs@ == self@.packs(),
    {
        let count: usize = self.frames.len();
        let ghost list = self.frames.pairs();
        proof {
            order::lemma_walk::<FrameId, LocationModel>(list, self.frames@);
        }
        let mut packs: OrderedSet<PackId> = OrderedSet::new();
        let mut i: usize = 0;
        while i < count
            invariant
                i <= count,
                count == list.len(),
                list == self.frames.pairs(),
                forall|pack: PackId|
                    #[trigger] packs@.contains(pack) ==> self@.packs().contains(pack),
                forall|j: int| 0 <= j < i ==> packs@.contains((#[trigger] list[j]).1.pack),
                forall|j: int|
                    0 <= j < list.len() ==> self@.frames.dom().contains((#[trigger] list[j]).0)
                        && self@.frames[list[j].0] == list[j].1,
            decreases count - i,
        {
            assert(self@.frames.dom().contains(list[i as int].0));
            packs.insert(self.frames.value_at(i).pack());
            i += 1;
        }
        proof {
            assert forall|pack: PackId| self@.packs().contains(pack) implies packs@.contains(
                pack,
            ) by {
                let frame = choose|frame: FrameId|
                    #[trigger] self@.frames.dom().contains(frame) && self@.frames[frame].pack
                        == pack;
                let j = choose|j: int| 0 <= j < list.len() && (#[trigger] list[j]).0 == frame;
                assert(packs@.contains(list[j].1.pack));
            }
            assert(packs@ =~= self@.packs());
        }
        packs
    }

    /// The dictionaries that the view depends on.
    pub fn dictionaries(&self) -> (ids: OrderedSet<DictionaryId>)
        ensures
            ids@ == self@.dictionaries(),
    {
        let count: usize = self.frames.len();
        let ghost list = self.frames.pairs();
        proof {
            order::lemma_walk::<FrameId, LocationModel>(list, self.frames@);
        }
        let mut ids: OrderedSet<DictionaryId> = OrderedSet::new();
        let mut i: usize = 0;
        while i < count
            invariant
                i <= count,
                count == list.len(),
                list == self.frames.pairs(),
                forall|id: DictionaryId|
                    #[trigger] ids@.contains(id) ==> self@.dictionaries().contains(id),
                forall|j: int|
                    0 <= j < i && (#[trigger] list[j]).1.frame.encoding.dictionary() is Some
                        ==> ids@.contains(list[j].1.frame.encoding.dictionary()->0),
                forall|j: int|
                    0 <= j < list.len() ==> self@.frames.dom().contains((#[trigger] list[j]).0)
                        && self@.frames[list[j].0] == list[j].1,
            decreases count - i,
        {
            assert(self@.frames.dom().contains(list[i as int].0));
            match self.frames.value_at(i).metadata().encoding() {
                PayloadEncoding::Zstandard(CompressionDictionary::Shared(id)) => {
                    ids.insert(id);
                },
                _ => {},
            }
            i += 1;
        }
        let mut k: usize = 0;
        while k < self.preferred.len()
            invariant
                k <= self.preferred@.len(),
                forall|id: DictionaryId|
                    #[trigger] ids@.contains(id) ==> self@.dictionaries().contains(id),
                forall|j: int|
                    0 <= j < list.len() && (#[trigger] list[j]).1.frame.encoding.dictionary() is Some
                        ==> ids@.contains(list[j].1.frame.encoding.dictionary()->0),
                forall|j: int| 0 <= j < k ==> ids@.contains(#[trigger] self.preferred@[j]),
            decreases self.preferred.len() - k,
        {
            assert(self@.preferred.contains(self.preferred@[k as int]));
            ids.insert(self.preferred[k]);
            k += 1;
        }
        proof {
            assert forall|id: DictionaryId| self@.dictionaries().contains(id) implies ids@.contains(
                id,
            ) by {
                if self@.preferred.contains(id) {
                    let j = choose|j: int|
                        0 <= j < self.preferred@.len() && self.preferred@[j] == id;
                    assert(ids@.contains(self.preferred@[j]));
                } else {
                    let frame = choose|frame: FrameId|
                        #[trigger] self@.frames.dom().contains(frame)
                            && self@.frames[frame].frame.encoding.dictionary() == Some(id);
                    let j = choose|j: int| 0 <= j < list.len() && (#[trigger] list[j]).0 == frame;
                    assert(list[j].1.frame.encoding.dictionary() == Some(id));
                }
            }
            assert(ids@ =~= self@.dictionaries());
        }
        ids
    }

    /// The number of live pages in each pack that has some.
    pub fn live_pages_by_pack(&self) -> (counts: OrderedMap<PackId, u64>)
        requires
            self@.framed(),
        ensures
            counts@ == self@.live_pages(),
    {
        let count: usize = self.pages.len();
        let ghost list = self.pages.pairs();
        proof {
            order::lemma_walk::<PageNumber, StoredPage>(list, self.pages@);
        }
        let mut counts: OrderedMap<PackId, u64> = OrderedMap::new();
        let mut i: usize = 0;
        while i < count
            invariant
                i <= count,
                count == list.len(),
                list == self.pages.pairs(),
                self@.framed(),
                forall|j: int|
                    0 <= j < list.len() ==> self@.pages.dom().contains((#[trigger] list[j]).0)
                        && self@.pages[list[j].0] == list[j].1,
                forall|pack: PackId|
                    #[trigger] self@.live_in(list, pack, i as int) <= i && (
                    counts@.dom().contains(pack) <==> self@.live_in(list, pack, i as int) > 0) && (
                    counts@.dom().contains(pack) ==> counts@[pack] == self@.live_in(
                        list,
                        pack,
                        i as int,
                    )),
            decreases count - i,
        {
            let frame: FrameId = self.pages.value_at(i).frame;
            assert(self@.pages.dom().contains(list[i as int].0));
            let ghost before = counts@;
            match self.frames.get(&frame) {
                Some(location) => {
                    let pack: PackId = location.pack();
                    assert(self@.live_in(list, pack, i as int) <= i);
                    let seen: u64 = match counts.get(&pack) {
                        Some(seen) => *seen,
                        None => 0,
                    };
                    counts.insert(pack, seen + 1);
                    proof {
                        assert forall|p: PackId| #[trigger]
                            self@.live_in(list, p, i as int + 1) <= i + 1 && (
                            counts@.dom().contains(p) <==> self@.live_in(list, p, i as int + 1)
                                > 0) && (counts@.dom().contains(p) ==> counts@[p] == self@.live_in(
                                list,
                                p,
                                i as int + 1,
                            )) by {
                            assert(self@.live_in(list, p, i as int) <= i);
                        }
                    }
                },
                None => {
                    assert(false);
                },
            }
            i += 1;
        }
        proof {
            assert forall|pack: PackId|
                counts@.dom().contains(pack) == self@.live_pages().dom().contains(pack) by {
                assert(self@.live_in(list, pack, i as int) <= i);
            }
            assert forall|pack: PackId| counts@.dom().contains(pack) implies counts@[pack]
                == self@.live_pages()[pack] by {
                assert(self@.live_in(list, pack, i as int) <= i);
            }
            assert(counts@ =~= self@.live_pages());
        }
        counts
    }

    /// The page versions in page order.
    pub fn page_versions(&self) -> (versions: Vec<PageVersion>)
        requires
            self@.resolvable(),
        ensures
            versions@ == self@.versions(),
    {
        let count: usize = self.pages.len();
        let ghost list = self.pages.pairs();
        proof {
            order::lemma_walk::<PageNumber, StoredPage>(list, self.pages@);
        }
        let mut versions: Vec<PageVersion> = Vec::new();
        let mut i: usize = 0;
        while i < count
            invariant
                i <= count,
                count == list.len(),
                list == self.pages.pairs(),
                self@.resolvable(),
                versions@ =~= self@.versions().take(i as int),
                forall|j: int|
                    0 <= j < list.len() ==> self@.pages.dom().contains((#[trigger] list[j]).0)
                        && self@.pages[list[j].0] == list[j].1,
            decreases count - i,
        {
            assert(self@.pages.dom().contains(list[i as int].0));
            match self.version(*self.pages.value_at(i)) {
                Some(version) => versions.push(version),
                None => {
                    assert(false);
                },
            }
            i += 1;
        }
        versions
    }

    /// Another copy of the view.
    pub fn duplicate(&self) -> (copy: ViewMetadata)
        ensures
            copy@ == self@,
    {
        let mut frames: OrderedMap<FrameId, FrameLocation> = OrderedMap::new();
        let count: usize = self.frames.len();
        let ghost list = self.frames.pairs();
        let mut i: usize = 0;
        proof {
            assert(list.take(0) =~= Seq::empty());
            assert(crate::order::mapped::<FrameId, LocationModel>(list.take(0)) =~= Map::empty());
        }
        while i < count
            invariant
                i <= count,
                count == list.len(),
                list == self.frames.pairs(),
                crate::order::ascending::<FrameId, LocationModel>(list),
                frames@ == crate::order::mapped::<FrameId, LocationModel>(list.take(i as int)),
            decreases count - i,
        {
            proof {
                crate::order::lemma_mapped_step::<FrameId, LocationModel>(list, i as int);
            }
            frames.insert(*self.frames.key_at(i), self.frames.value_at(i).duplicate());
            i += 1;
        }
        assert(list.take(i as int) =~= list);
        let mut pages: OrderedMap<PageNumber, StoredPage> = OrderedMap::new();
        let count: usize = self.pages.len();
        let ghost list = self.pages.pairs();
        let mut i: usize = 0;
        proof {
            assert(list.take(0) =~= Seq::empty());
            assert(crate::order::mapped::<PageNumber, StoredPage>(list.take(0)) =~= Map::empty());
        }
        while i < count
            invariant
                i <= count,
                count == list.len(),
                list == self.pages.pairs(),
                crate::order::ascending::<PageNumber, StoredPage>(list),
                pages@ == crate::order::mapped::<PageNumber, StoredPage>(list.take(i as int)),
            decreases count - i,
        {
            proof {
                crate::order::lemma_mapped_step::<PageNumber, StoredPage>(list, i as int);
            }
            pages.insert(*self.pages.key_at(i), *self.pages.value_at(i));
            i += 1;
        }
        assert(list.take(i as int) =~= list);
        let mut preferred: Vec<DictionaryId> = Vec::new();
        let mut k: usize = 0;
        while k < self.preferred.len()
            invariant
                k <= self.preferred@.len(),
                preferred@ =~= self.preferred@.take(k as int),
            decreases self.preferred.len() - k,
        {
            preferred.push(self.preferred[k]);
            k += 1;
        }
        assert(preferred@ =~= self.preferred@);
        ViewMetadata {
            database: self.database,
            lineage: self.lineage,
            size: self.size,
            txid: self.txid,
            history: self.history,
            parent_seal: self.parent_seal,
            frames,
            pages,
            preferred,
        }
    }
}

/// Once a frame of different pages is added, each of its pages stands in its
/// slot, and every other page where it stood before.
pub proof fn law_insert_places(
    pages: Map<PageNumber, StoredPage>,
    frame: FrameModel,
    count: int,
    page: PageNumber,
)
    requires
        frame.wf(),
        0 <= count <= frame.pages.len(),
    ensures
        forall|i: int|
            0 <= i < count ==> placed(pages, frame, count).dom().contains(
                (#[trigger] frame.pages[i]).page,
            ) && placed(pages, frame, count)[frame.pages[i].page] == (StoredPage {
                frame: frame.id,
                slot: FrameSlot { index: i as u32 },
            }),
        (forall|i: int| 0 <= i < count ==> (#[trigger] frame.pages[i]).page != page) ==> (placed(
            pages,
            frame,
            count,
        ).dom().contains(page) <==> pages.dom().contains(page)) && placed(
            pages,
            frame,
            count,
        )[page] == pages[page],
    decreases count,
{
    if count > 0 {
        law_insert_places(pages, frame, count - 1, page);
    }
}

/// A page stands in a pack where its frame does.
pub open spec fn stands_in(view: ViewModel, pack: PackId) -> spec_fn((PageNumber, StoredPage)) -> bool {
    |entry: (PageNumber, StoredPage)| view.frames[entry.1.frame].pack == pack
}

proof fn lemma_live_in(
    view: ViewModel,
    list: Seq<(PageNumber, StoredPage)>,
    pack: PackId,
    count: int,
)
    requires
        0 <= count <= list.len(),
    ensures
        view.live_in(list, pack, count) == list.take(count).filter(stands_in(view, pack)).len(),
    decreases count,
{
    reveal_with_fuel(Seq::filter, 1);
    if count > 0 {
        lemma_live_in(view, list, pack, count - 1);
        assert(list.take(count).drop_last() =~= list.take(count - 1));
    }
}

/// The live pages of a pack are the pages of the view whose frames stand in it, each counted
/// once; a pack without such a page is not named.
pub proof fn law_live_pages_are_counted(view: ViewModel, pack: PackId)
    requires
        view.page_list().len() <= u64::MAX,
    ensures
        view.live_pages().dom().contains(pack) <==> view.page_list().filter(
            stands_in(view, pack),
        ).len() > 0,
        view.live_pages().dom().contains(pack) ==> view.live_pages()[pack]
            == view.page_list().filter(stands_in(view, pack)).len(),
{
    let list = view.page_list();
    lemma_live_in(view, list, pack, list.len() as int);
    assert(list.take(list.len() as int) =~= list);
    list.lemma_filter_len(stands_in(view, pack));
}

} // verus!
