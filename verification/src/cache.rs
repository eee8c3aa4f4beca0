//! A cache of pages in a scratch file. A damaged cache is a miss and never an
//! error of the database.

use crate::adapter;
use crate::adapter::{Event, StorageBackend};
use crate::bytes;
use crate::digest;
use crate::domain::{FrameId, LogicalBytes, PageNumber};
use crate::error::StoreError;
use crate::frame;
use crate::frame::{FrameModel, PageVersion, VerifiedFrame};
use crate::order::{OrderedMap, OrderedSet};
use crate::page;
use crate::page::{ResolvedPage, StoredPageRef};
use crate::pinned::{PinModel, PinnedView};
use crate::recency::{Held, RecencyModel};
use crate::records;
use crate::repack;
use crate::slots;
use crate::slots::{DatabaseCacheStats, SlotFile, SlotFiles, Slots, SlotsModel};
use crate::validation;
use crate::view::{LocationModel, ViewMetadata, ViewModel};
use vstd::prelude::*;

verus! {

/// The most pages in one batch of reads.
pub const BATCH_PAGES: usize = 256;

/// The most bytes of records in one batch of reads.
pub const BATCH_BYTES: u64 = 16777216;

/// The bytes of a cache for maintenance.
pub const MAINTENANCE_CACHE: u64 = 9437184;

/// How much a cache may use.
#[derive(Clone, Copy, Debug, PartialEq, Eq, Structural)]
pub enum CacheCapacity {
    Fixed(u64),
    /// What the database and the free space allow.
    Adaptive,
}

/// The bytes that a budget comes to for a database of `logical` bytes, with
/// `available` bytes to spare. An adaptive cache takes a fifth of the database's
/// size at most, and half of the free space.
pub open spec fn allowance(budget: CacheCapacity, logical: u64, available: u64) -> u64 {
    match budget {
        CacheCapacity::Fixed(bytes) => bytes,
        CacheCapacity::Adaptive => if logical / 5 <= available / 2 {
            logical / 5
        } else {
            available / 2
        },
    }
}

impl CacheCapacity {
    /// The bytes that a cache of a database may use.
    pub fn resolve(self, logical: u64, available: u64) -> (bytes: u64)
        ensures
            bytes == allowance(self, logical, available),
    {
        match self {
            CacheCapacity::Fixed(bytes) => bytes,
            CacheCapacity::Adaptive => if logical / 5 <= available / 2 {
                logical / 5
            } else {
                available / 2
            },
        }
    }
}

/// What reads through a handle did.
#[derive(Clone, Copy, Debug, PartialEq, Eq)]
pub struct HandleIoStats {
    pub cache_hits: u64,
    pub cache_misses: u64,
    pub fetched_bytes: u64,
    pub inflated_bytes: u64,
}

impl Default for HandleIoStats {
    fn default() -> (stats: Self)
        ensures
            stats == (HandleIoStats {
                cache_hits: 0,
                cache_misses: 0,
                fetched_bytes: 0,
                inflated_bytes: 0,
            }),
    {
        HandleIoStats { cache_hits: 0, cache_misses: 0, fetched_bytes: 0, inflated_bytes: 0 }
    }
}

/// Where cached pages are.
enum Backing<S: SlotFiles> {
    Empty,
    Ready(Slots<S::File>),
    /// The file failed: the cache is passed by.
    Disabled,
}

/// A cache of pages of one manifest at a time.
pub struct PageCache<S: SlotFiles> {
    files: S,
    backing: Backing<S>,
    budget: CacheCapacity,
    stats: DatabaseCacheStats,
}

/// A cache: its slots if there are any, whether it is passed by, and its counts.
#[verifier::ext_equal]
pub struct CacheModel {
    pub slots: Option<SlotsModel>,
    pub disabled: bool,
    pub counts: DatabaseCacheStats,
}

/// A version is one of the frame that a page stands in.
pub open spec fn is_version(view: ViewModel, page: PageNumber, version: PageVersion) -> bool {
    &&& view.pages.dom().contains(page)
    &&& view.frames.dom().contains(view.pages[page].frame)
    &&& ({
        let frame = view.frames[view.pages[page].frame].frame;
        ||| version == view.version(view.pages[page])
        ||| version.page == page && exists|i: int|
            0 <= i < frame.pages.len() && #[trigger] frame.pages[i] == version
    })
}

/// Where the pages of a frame differ, a page has one version in a view.
pub proof fn law_version_is_the_pages(view: ViewModel, page: PageNumber, version: PageVersion)
    requires
        is_version(view, page, version),
        validation::page_sound(view, page, view.pages[page]),
        view.frames[view.pages[page].frame].frame.wf(),
    ensures
        version == view.version(view.pages[page]),
{
    let stored = view.pages[page];
    let frame = view.frames[stored.frame].frame;
    if version != view.version(stored) {
        let i = choose|i: int| 0 <= i < frame.pages.len() && #[trigger] frame.pages[i] == version;
        let s = stored.slot.index as int;
        assert(frame.pages[s].page == page);
        if i < s {
            assert(frame.pages[i].page != frame.pages[s].page);
        }
        if s < i {
            assert(frame.pages[s].page != frame.pages[i].page);
        }
    }
}

/// The bytes are those of a page in a view: they match a version of it, or are
/// all zeros where nothing is stored for it.
pub open spec fn good(view: ViewModel, page: PageNumber, bytes: Seq<u8>) -> bool {
    &&& page.value <= view.size.count()
    &&& if view.pages.dom().contains(page) {
        exists|version: PageVersion| #[trigger]
            is_version(view, page, version) && frame::sound_page(version, bytes)
    } else {
        bytes == bytes::zeros(view.size.page_size.value as nat)
    }
}

/// Reads of a page in one view agree, from the cache or from what is stored, on
/// every call and whatever happened in between: what comes back has the checksum of
/// the page's one version. So it is the same, unless two contents share a checksum.
pub proof fn law_reads_agree(view: ViewModel, page: PageNumber, a: Seq<u8>, b: Seq<u8>)
    requires
        good(view, page, a),
        good(view, page, b),
        view.pages.dom().contains(page) ==> validation::page_sound(view, page, view.pages[page])
            && view.frames[view.pages[page].frame].frame.wf(),
    ensures
        !view.pages.dom().contains(page) ==> a == b,
        view.pages.dom().contains(page) ==> {
            let version = view.version(view.pages[page]);
            let x = frame::checksum_input(version.page, version.txid, a);
            let y = frame::checksum_input(version.page, version.txid, b);
            &&& frame::sound_page(version, a)
            &&& frame::sound_page(version, b)
            &&& digest::content_hash(x) == digest::content_hash(y)
            &&& (digest::content_hash(x) == digest::content_hash(y) ==> x == y) ==> a == b
        },
{
    if view.pages.dom().contains(page) {
        let one = choose|version: PageVersion| #[trigger]
            is_version(view, page, version) && frame::sound_page(version, a);
        let other = choose|version: PageVersion| #[trigger]
            is_version(view, page, version) && frame::sound_page(version, b);
        law_version_is_the_pages(view, page, one);
        law_version_is_the_pages(view, page, other);
        let version = view.version(view.pages[page]);
        let x = frame::checksum_input(version.page, version.txid, a);
        let y = frame::checksum_input(version.page, version.txid, b);
        let front = frame::checksum_input(version.page, version.txid, Seq::empty());
        assert(x =~= front + a);
        assert(y =~= front + b);
        if x == y {
            assert(x.skip(front.len() as int) =~= a);
            assert(y.skip(front.len() as int) =~= b);
        }
    }
}

/// Every cached page has a version of the view.
pub open spec fn serves(model: SlotsModel, view: ViewModel) -> bool {
    forall|page: PageNumber| #[trigger]
        model.list.held.dom().contains(page) ==> is_version(
            view,
            page,
            model.list.held[page].version,
        )
}

impl<S: SlotFiles> PageCache<S> {
    /// The slots, if there are any.
    pub closed spec fn slots(&self) -> Option<SlotsModel> {
        match self.backing {
            Backing::Ready(slots) => Some(slots@),
            _ => None,
        }
    }

    pub closed spec fn is_disabled(&self) -> bool {
        self.backing is Disabled
    }

    pub closed spec fn limit(&self) -> CacheCapacity {
        self.budget
    }

    pub closed spec fn counts(&self) -> DatabaseCacheStats {
        self.stats
    }

    pub open spec fn state(&self) -> CacheModel {
        CacheModel {
            slots: self.slots(),
            disabled: self.is_disabled(),
            counts: self.counts(),
        }
    }

    /// The slots are in order.
    pub closed spec fn wf(&self) -> bool {
        self.backing matches Backing::Ready(slots) ==> slots.wf()
    }

    /// Whether a page is cached.
    pub open spec fn holds(&self, page: PageNumber) -> bool {
        self.slots() matches Some(slots) && slots.list.held.dom().contains(page)
    }

    /// A page is cached, unless the cache is passed by or has no room for a page.
    pub open spec fn keeps(&self, page: PageNumber) -> bool {
        self.is_disabled() || self.holds(page) || (self.slots() matches Some(slots) && slots.capacity
            == 0)
    }

    /// What is cached for the manifest of a view is of that view.
    pub open spec fn matches_view(&self, pin: PinModel) -> bool {
        self.slots() matches Some(slots) ==> slots.manifest == pin.id ==> serves(
            slots,
            pin.metadata.view,
        )
    }

    /// An empty cache. A fixed budget must be one that memory could hold.
    pub fn new(files: S, budget: CacheCapacity) -> (cache: Result<Self, StoreError>)
        ensures
            match cache {
                Ok(c) => c.wf() && c.slots() is None && !c.is_disabled() && c.limit() == budget
                    && c.counts() == DatabaseCacheStats::none() && !too_large(budget),
                Err(e) => e == StoreError::Range && too_large(budget),
            },
    {
        check_budget(&budget)?;
        Ok(
            PageCache {
                files,
                backing: Backing::Empty,
                budget,
                stats: DatabaseCacheStats::default(),
            },
        )
    }

    /// A small cache for reading a view from end to end.
    pub fn maintenance(files: S) -> (cache: Result<Self, StoreError>)
        ensures
            match cache {
                Ok(c) => c.wf() && c.slots() is None && !c.is_disabled() && c.limit()
                    == CacheCapacity::Fixed(MAINTENANCE_CACHE) && c.counts()
                    == DatabaseCacheStats::none(),
                Err(e) => e == StoreError::Range && too_large(
                    CacheCapacity::Fixed(MAINTENANCE_CACHE),
                ),
            },
    {
        PageCache::new(files, CacheCapacity::Fixed(MAINTENANCE_CACHE))
    }

    /// What the cache did, and what it uses.
    pub fn stats(&self) -> (stats: DatabaseCacheStats)
        requires
            self.wf(),
        ensures
            stats == (DatabaseCacheStats {
                resident_bytes: match self.slots() {
                    Some(slots) => slots::capped(0, slots.list.order.len() * slots.stride),
                    None => 0,
                },
                ..self.counts()
            }),
    {
        let resident_bytes: u64 = match &self.backing {
            Backing::Ready(slots) => slots.resident_bytes(),
            _ => 0,
        };
        DatabaseCacheStats {
            hits: self.stats.hits,
            misses: self.stats.misses,
            extra_pages_requested: self.stats.extra_pages_requested,
            extra_pages_evicted_unused: self.stats.extra_pages_evicted_unused,
            resident_bytes,
        }
    }

    /// Gives all cached pages up.
    fn discard(&mut self, disable: bool)
        ensures
            final(self).wf(),
            final(self).slots() is None,
            final(self).limit() == old(self).limit(),
            final(self).is_disabled() == disable,
            lost(old(self).slots(), old(self).counts(), final(self).counts()),
    {
        match &self.backing {
            Backing::Ready(slots) => {
                let count: u64 = slots.count_unused();
                proof {
                    let held = slots@.list.held;
                    let pages = choose|pages: Seq<PageNumber>| #[trigger]
                        slots::names_all(pages, held) && count == slots::unused_among(
                            held,
                            pages,
                            pages.len() as int,
                        );
                    assert(old(self).slots() == Some(slots@));
                    assert(slots::names_all(pages, old(self).slots()->Some_0.list.held));
                }
                self.stats.extra_pages_evicted_unused =
                    self.stats.extra_pages_evicted_unused.saturating_add(count);
            },
            _ => {},
        }
        if disable {
            self.backing = Backing::Disabled;
        } else {
            self.backing = Backing::Empty;
        }
    }

    /// Changes the budget. Another one empties the cache, and gives a disabled one
    /// another chance.
    pub fn set_budget(&mut self, budget: CacheCapacity) -> (done: Result<(), StoreError>)
        requires
            old(self).wf(),
        ensures
            final(self).wf(),
            if too_large(budget) {
                done == Err::<(), StoreError>(StoreError::Range) && *final(self) == *old(self)
            } else {
                done is Ok && final(self).limit() == budget && if budget == old(self).limit() {
                    *final(self) == *old(self)
                } else {
                    final(self).slots() is None && !final(self).is_disabled() && lost(
                        old(self).slots(),
                        old(self).counts(),
                        final(self).counts(),
                    )
                }
            },
    {
        check_budget(&budget)?;
        if budget != self.budget {
            self.discard(false);
            self.budget = budget;
        }
        Ok(())
    }

    /// Gives one page up.
    pub fn invalidate(&mut self, page: PageNumber)
        requires
            old(self).wf(),
        ensures
            final(self).wf(),
            final(self).limit() == old(self).limit(),
            final(self).is_disabled() == old(self).is_disabled(),
            match old(self).slots() {
                Some(slots) => if slots.list.held.dom().contains(page) {
                    final(self).slots() == Some(slots.dropped(page)) && final(self).counts()
                        == old(self).counts().gave_up(slots::unused(slots.list.held[page]))
                } else {
                    final(self).slots() == Some(slots) && final(self).counts() == old(self).counts()
                },
                None => final(self).slots() is None && final(self).counts() == old(self).counts(),
            },
    {
        match &mut self.backing {
            Backing::Ready(slots) => {
                slots.invalidate(page, &mut self.stats);
            },
            _ => {},
        }
    }

    /// Gives up the cached pages among some.
    pub fn invalidate_where(&mut self, pages: &OrderedSet<PageNumber>)
        requires
            old(self).wf(),
        ensures
            final(self).wf(),
            final(self).limit() == old(self).limit(),
            final(self).is_disabled() == old(self).is_disabled(),
            kept_apart(old(self).slots(), final(self).slots(), pages@),
    {
        let numbers: Vec<PageNumber> = match &self.backing {
            Backing::Ready(slots) => slots.pages(),
            _ => Vec::new(),
        };
        let ghost first = self.slots();
        let mut i: usize = 0;
        while i < numbers.len()
            invariant
                i <= numbers@.len(),
                self.wf(),
                first == old(self).slots(),
                self.limit() == old(self).limit(),
                self.is_disabled() == old(self).is_disabled(),
                first is None ==> self.slots() is None,
                first matches Some(slots) ==> names_pages(numbers@, slots),
                first matches Some(slots) ==> (self.slots() matches Some(now) && now.manifest
                    == slots.manifest && forall|page: PageNumber| #[trigger]
                    now.list.held.dom().contains(page) <==> slots.list.held.dom().contains(page) && !(
                    pages@.contains(page) && numbers@.take(i as int).contains(page))),
                first matches Some(slots) ==> (self.slots() matches Some(now) && forall|
                    page: PageNumber,
                | #[trigger]
                    now.list.held.dom().contains(page) ==> now.list.held[page]
                        == slots.list.held[page]),
            decreases numbers.len() - i,
        {
            let page: PageNumber = numbers[i];
            proof {
                let now = numbers@.take(i as int + 1);
                assert(now =~= numbers@.take(i as int).push(page));
                assert forall|p: PageNumber| now.contains(p) == (numbers@.take(i as int).contains(p)
                    || p == page) by {
                    if numbers@.take(i as int).contains(p) {
                        let k = choose|k: int|
                            0 <= k < numbers@.take(i as int).len() && numbers@.take(i as int)[k] == p;
                        assert(now[k] == p);
                    }
                    assert(now[i as int] == page);
                }
            }
            if pages.contains(&page) {
                self.invalidate(page);
            }
            i += 1;
        }
        assert(numbers@.take(i as int) =~= numbers@);
    }

    /// Brings the cache in line with a view: what is cached for another manifest
    /// goes, and so do the pages that were changed since.
    pub fn synchronize(&mut self, view: Option<&PinnedView>, shadowed: &OrderedSet<PageNumber>)
        requires
            old(self).wf(),
        ensures
            final(self).wf(),
            final(self).limit() == old(self).limit(),
            match old(self).slots() {
                Some(slots) => if view matches Some(pin) && pin@.id == slots.manifest {
                    kept_apart(old(self).slots(), final(self).slots(), shadowed@)
                } else {
                    final(self).slots() is None && !final(self).is_disabled()
                },
                None => final(self).slots() is None && final(self).is_disabled() == old(self).is_disabled(),
            },
    {
        let stale: bool = match &self.backing {
            Backing::Ready(slots) => match view {
                Some(pin) => !slots.manifest().same(&pin.id()),
                None => true,
            },
            _ => false,
        };
        if stale {
            self.discard(false);
            return;
        }
        self.invalidate_where(shadowed);
    }
}

/// A fixed budget that does not fit the address space.
pub open spec fn too_large(budget: CacheCapacity) -> bool {
    budget matches CacheCapacity::Fixed(bytes) && bytes > usize::MAX
}

fn check_budget(budget: &CacheCapacity) -> (done: Result<(), StoreError>)
    ensures
        done == if too_large(*budget) {
            Err::<(), StoreError>(StoreError::Range)
        } else {
            Ok::<(), StoreError>(())
        },
{
    match budget {
        CacheCapacity::Fixed(bytes) => {
            if *bytes > usize::MAX as u64 {
                return Err(StoreError::Range);
            }
        },
        CacheCapacity::Adaptive => {},
    }
    Ok(())
}

/// All cached pages were given up, and those never asked for are counted.
pub open spec fn lost(
    slots: Option<SlotsModel>,
    before: DatabaseCacheStats,
    after: DatabaseCacheStats,
) -> bool {
    match slots {
        Some(s) => exists|pages: Seq<PageNumber>| #[trigger]
            slots::names_all(pages, s.list.held) && after == before.gave_up(
                slots::unused_among(s.list.held, pages, pages.len() as int),
            ),
        None => after == before,
    }
}

/// All cached pages were given up.
pub open spec fn discarded(before: CacheModel, disable: bool, after: CacheModel) -> bool {
    after.slots is None && after.disabled == disable && lost(
        before.slots,
        before.counts,
        after.counts,
    )
}

/// What was cached for another manifest is given up.
pub open spec fn entered(before: CacheModel, pin: PinModel, after: CacheModel) -> bool {
    if before.slots matches Some(slots) && slots.manifest != pin.id {
        discarded(before, false, after)
    } else {
        after == before
    }
}

/// A cached page was found.
pub open spec fn hit(before: CacheModel, page: PageNumber, after: CacheModel) -> bool {
    before.slots matches Some(slots) && slots.list.held.dom().contains(page) && after == (
    CacheModel {
        slots: Some(slots.touched(page)),
        disabled: before.disabled,
        counts: DatabaseCacheStats {
            hits: slots::capped(before.counts.hits, 1),
            extra_pages_requested: slots::capped(
                before.counts.extra_pages_requested,
                slots::unused(slots.list.held[page]),
            ),
            ..before.counts
        },
    })
}

/// A page was not found: it is not cached, or its slot could not be read, and the
/// cache is passed by from then on.
pub open spec fn not_found(before: CacheModel, page: PageNumber, after: CacheModel) -> bool {
    if before.slots matches Some(slots) && slots.list.held.dom().contains(page) {
        discarded(before, true, after)
    } else {
        after == before
    }
}

/// The page that was asked for is handed to a cache after the others.
pub open spec fn asked_kept(
    before: CacheModel,
    pages: Seq<(PageVersion, Vec<u8>)>,
    page: PageNumber,
    after: CacheModel,
) -> bool {
    ||| after == before && forall|i: int|
        0 <= i < pages.len() ==> (#[trigger] pages[i]).0.page != page
    ||| exists|i: int|
        0 <= i < pages.len() && (#[trigger] pages[i]).0.page == page && kept(
            before,
            pages[i].0,
            pages[i].1@.len(),
            true,
            after,
        )
}

/// The current pages of a decoded frame were handed to a cache: it gets slots
/// where it has none, takes in the others, and then the page that was asked for.
pub open spec fn frame_kept(
    before: CacheModel,
    pin: PinModel,
    limit: CacheCapacity,
    pages: Seq<(PageVersion, Vec<u8>)>,
    page: PageNumber,
    shadowed: Set<PageNumber>,
    after: CacheModel,
) -> bool {
    exists|made: CacheModel, filled: CacheModel|
        prepared(before, pin, limit, made) && #[trigger] others_kept(
            made,
            pages,
            page,
            shadowed,
            filled,
        ) && asked_kept(filled, pages, page, after)
}

/// Some pages are the current ones of a frame that was verified.
pub open spec fn current_pages(
    view: ViewModel,
    location: LocationModel,
    pages: Seq<(PageVersion, Vec<u8>)>,
) -> bool {
    exists|raw: Seq<u8>|
        location.frame.verifies(raw) && page::page_models(pages) == #[trigger] page::live_slots(
            view,
            location.frame,
            raw,
            0,
        )
}

/// One more miss.
pub open spec fn with_miss(model: CacheModel) -> CacheModel {
    CacheModel {
        counts: DatabaseCacheStats {
            misses: slots::capped(model.counts.misses, 1),
            ..model.counts
        },
        ..model
    }
}

/// What reading a page that is not cached did to a cache and to the counts. Nothing
/// is counted of a page that nothing is stored for. A record that was read ahead
/// counts as fetched once.
pub open spec fn fetched_page(
    looked: CacheModel,
    pin: PinModel,
    limit: CacheCapacity,
    page: PageNumber,
    shadowed: Set<PageNumber>,
    ahead: Set<FrameId>,
    counted: Set<FrameId>,
    io: HandleIoStats,
    after: CacheModel,
    counted_after: Set<FrameId>,
    io_after: HandleIoStats,
    done: bool,
) -> bool {
    let view = pin.metadata.view;
    let location = location_of(view, page);
    let id = location.frame.id;
    if page.value > view.size.count() {
        !done && after == looked && io_after == io && counted_after == counted
    } else if !view.pages.dom().contains(page) {
        after == looked && io_after == io && counted_after == counted
    } else if !done {
        after == with_miss(looked) && io_after == missed(io, 0, 0) && counted_after == counted
    } else {
        &&& counted_after == counted.insert(id)
        &&& io_after == missed(
            io,
            if ahead.contains(id) && counted.contains(id) {
                0
            } else {
                location.payload.length.value + crate::format::FRAME_HEADER_SIZE
            },
            location.frame.shape.size() as int,
        )
        &&& exists|pages: Seq<(PageVersion, Vec<u8>)>|
            current_pages(view, location, pages) && #[trigger] frame_kept(
                with_miss(looked),
                pin,
                limit,
                pages,
                page,
                shadowed,
                after,
            )
    }
}

/// What reading a page did to a cache and to the counts: it was found there, or was
/// fetched.
pub open spec fn page_served(
    before: CacheModel,
    pin: PinModel,
    limit: CacheCapacity,
    page: PageNumber,
    shadowed: Set<PageNumber>,
    ahead: Set<FrameId>,
    counted: Set<FrameId>,
    io: HandleIoStats,
    after: CacheModel,
    counted_after: Set<FrameId>,
    io_after: HandleIoStats,
    done: bool,
) -> bool {
    exists|first: CacheModel| #[trigger]
        entered(before, pin, first) && ({
            ||| done && hit(first, page, after) && counted_after == counted && io_after == (
            HandleIoStats { cache_hits: slots::capped(io.cache_hits, 1), ..io })
            ||| exists|looked: CacheModel| #[trigger]
                not_found(first, page, looked) && fetched_page(
                    looked,
                    pin,
                    limit,
                    page,
                    shadowed,
                    ahead,
                    counted,
                    io,
                    after,
                    counted_after,
                    io_after,
                    done,
                )
        })
}

/// Empty slots for the pages of a view, as many as a budget has room for with
/// some bytes to spare.
pub open spec fn fresh_slots(slots: SlotsModel, pin: PinModel, limit: CacheCapacity) -> bool {
    let size = pin.metadata.view.size.page_size;
    &&& slots.manifest == pin.id
    &&& slots.page_size == size
    &&& slots.allocated == 0
    &&& slots.free == Seq::<u64>::empty()
    &&& slots.list == RecencyModel::none()
    &&& exists|available: u64|
        slots::some_layout(
            size,
            #[trigger] allowance(limit, pin.metadata.view.size.bytes, available),
            Ok((slots.stride, slots.capacity)),
        )
}

/// A cache without slots has got empty ones, or is passed by where none could be
/// made. Nothing happens to a cache that has some, is passed by already or may
/// not use anything.
pub open spec fn prepared(
    before: CacheModel,
    pin: PinModel,
    limit: CacheCapacity,
    after: CacheModel,
) -> bool {
    if before.slots is Some || before.disabled || limit == CacheCapacity::Fixed(0) {
        after == before
    } else {
        after.counts == before.counts && match after.slots {
            Some(slots) => !after.disabled && fresh_slots(slots, pin, limit),
            None => after.disabled,
        }
    }
}

/// A page of so many bytes was handed to a cache. Where it is wanted it stands in
/// a slot, and the least recently used page has given way if there was no other.
/// Where the page has another size or the file failed, all pages are given up and
/// the cache is passed by.
pub open spec fn kept(
    before: CacheModel,
    version: PageVersion,
    length: nat,
    used: bool,
    after: CacheModel,
) -> bool {
    match before.slots {
        None => after == before,
        Some(slots) => if !slots.wants(version.page) {
            after == before
        } else if length == slots.page_size.value && after.slots is Some {
            after == (CacheModel {
                slots: Some(slots.with(version, used)),
                disabled: false,
                counts: before.counts.gave_up(slots.losses()),
            })
        } else {
            after.slots is None && after.disabled && lost(
                before.slots,
                before.counts,
                after.counts,
            )
        },
    }
}

/// A page of a frame may be cached beside the one that was asked for.
pub open spec fn is_extra(
    pages: Seq<(PageVersion, Vec<u8>)>,
    i: int,
    page: PageNumber,
    shadowed: Set<PageNumber>,
) -> bool {
    pages[i].0.page != page && !shadowed.contains(pages[i].0.page)
}

/// How many of the first `count` pages may be cached beside the one asked for.
pub open spec fn extras(
    pages: Seq<(PageVersion, Vec<u8>)>,
    count: int,
    page: PageNumber,
    shadowed: Set<PageNumber>,
) -> nat
    decreases count,
{
    if count <= 0 {
        0
    } else {
        extras(pages, count - 1, page, shadowed) + if is_extra(pages, count - 1, page, shadowed) {
            1nat
        } else {
            0nat
        }
    }
}

/// The slots that pages beside the one asked for may take.
pub open spec fn extra_room(model: CacheModel) -> int {
    match model.slots {
        Some(slots) => if slots.capacity == 0 {
            0
        } else {
            slots.capacity - 1
        },
        None => 0,
    }
}

/// What becomes of one page of a frame: it is kept while there is room, and counts
/// as given up after that.
pub open spec fn extra_step(
    before: CacheModel,
    pages: Seq<(PageVersion, Vec<u8>)>,
    i: int,
    page: PageNumber,
    shadowed: Set<PageNumber>,
    room: int,
    after: CacheModel,
) -> bool {
    if !is_extra(pages, i, page, shadowed) {
        after == before
    } else if extras(pages, i, page, shadowed) < room {
        kept(before, pages[i].0, pages[i].1@.len(), false, after)
    } else {
        after == (CacheModel { counts: before.counts.gave_up(1), ..before })
    }
}

/// The states of a cache while the first `count` pages of a frame are handed to it.
pub open spec fn extra_steps(
    states: Seq<CacheModel>,
    pages: Seq<(PageVersion, Vec<u8>)>,
    count: int,
    page: PageNumber,
    shadowed: Set<PageNumber>,
) -> bool {
    &&& states.len() == count + 1
    &&& forall|i: int|
        0 <= i < count ==> #[trigger] extra_step(
            states[i],
            pages,
            i,
            page,
            shadowed,
            extra_room(states[0]),
            states[i + 1],
        )
}

/// The pages of a frame other than the one asked for were handed to a cache, in
/// order.
pub open spec fn others_kept(
    before: CacheModel,
    pages: Seq<(PageVersion, Vec<u8>)>,
    page: PageNumber,
    shadowed: Set<PageNumber>,
    after: CacheModel,
) -> bool {
    exists|states: Seq<CacheModel>| #[trigger]
        extra_steps(states, pages, pages.len() as int, page, shadowed) && states[0] == before
            && states[pages.len() as int] == after
}

/// The pages are those that are held.
spec fn names_pages(pages: Seq<PageNumber>, slots: SlotsModel) -> bool {
    forall|page: PageNumber| slots.list.held.dom().contains(page) <==> pages.contains(page)
}

/// Exactly the cached pages outside of `gone` are still cached.
pub open spec fn kept_apart(
    before: Option<SlotsModel>,
    after: Option<SlotsModel>,
    gone: Set<PageNumber>,
) -> bool {
    match (before, after) {
        (Some(b), Some(a)) => a.manifest == b.manifest && (forall|page: PageNumber| #[trigger]
            a.list.held.dom().contains(page) <==> b.list.held.dom().contains(page) && !gone.contains(
                page,
            )) && (forall|page: PageNumber| #[trigger]
            a.list.held.dom().contains(page) ==> a.list.held[page] == b.list.held[page]),
        (None, None) => true,
        _ => false,
    }
}

impl<S: SlotFiles> PageCache<S> {
    /// What is cached is of this manifest.
    spec fn at_view(&self, pin: PinModel) -> bool {
        self.slots() matches Some(slots) ==> slots.manifest == pin.id
    }

    /// Looks a page up before anything is read of the view.
    fn lookup(&mut self, pin: &PinnedView, page: PageNumber, io: &mut HandleIoStats) -> (bytes: Option<
        Vec<u8>,
    >)
        requires
            old(self).wf(),
        ensures
            final(self).wf(),
            final(self).at_view(pin@),
            final(self).limit() == old(self).limit(),
            old(self).matches_view(pin@) ==> final(self).matches_view(pin@),
            forall|p: PageNumber| #[trigger] final(self).holds(p) ==> old(self).holds(p),
            exists|first: CacheModel| #[trigger]
                entered(old(self).state(), pin@, first) && if bytes is Some {
                    hit(first, page, final(self).state())
                } else {
                    not_found(first, page, final(self).state())
                },
            match bytes {
                Some(b) => {
                    &&& old(self).slots() matches Some(slots) && slots.manifest == pin@.id
                        && slots.list.held.dom().contains(page) && frame::sound_page(
                        slots.list.held[page].version,
                        b@,
                    ) && b@.len() == slots.page_size.value && final(self).slots() == Some(
                        slots.touched(page),
                    )
                    &&& final(self).counts().hits == slots::capped(old(self).counts().hits, 1)
                    &&& *final(io) == (HandleIoStats {
                        cache_hits: slots::capped(old(io).cache_hits, 1),
                        ..*old(io)
                    })
                },
                None => *final(io) == *old(io) && final(self).counts().hits
                    == old(self).counts().hits && final(self).counts().misses
                    == old(self).counts().misses,
            },
    {
        let stale: bool = match &self.backing {
            Backing::Ready(slots) => !slots.manifest().same(&pin.id()),
            _ => false,
        };
        if stale {
            self.discard(false);
        }
        let ghost before = self.slots();
        let ghost first = self.state();
        assert(entered(old(self).state(), pin@, first));
        let mut found: Option<Vec<u8>> = None;
        let mut failed: bool = false;
        match &mut self.backing {
            Backing::Ready(slots) => match slots.read(page) {
                Ok(Some((bytes, ahead))) => {
                    self.stats.hits = self.stats.hits.saturating_add(1);
                    if ahead {
                        self.stats.extra_pages_requested =
                            self.stats.extra_pages_requested.saturating_add(1);
                    }
                    io.cache_hits = io.cache_hits.saturating_add(1);
                    found = Some(bytes);
                },
                Ok(None) => {},
                Err(_) => {
                    failed = true;
                },
            },
            _ => {},
        }
        if failed {
            self.discard(true);
        }
        proof {
            if found is Some {
                assert(hit(first, page, self.state()));
            } else {
                assert(not_found(first, page, self.state()));
            }
            if let Some(slots) = before {
                if found is Some {
                    lemma_touched_serves(slots, page, pin@.metadata.view);
                }
            }
        }
        found
    }

    /// Makes slots for a view where there are none yet, and some are wanted.
    fn prepare(&mut self, pin: &PinnedView)
        requires
            old(self).wf(),
            old(self).at_view(pin@),
        ensures
            final(self).wf(),
            final(self).at_view(pin@),
            final(self).limit() == old(self).limit(),
            final(self).counts() == old(self).counts(),
            prepared(old(self).state(), pin@, old(self).limit(), final(self).state()),
            old(self).matches_view(pin@) ==> final(self).matches_view(pin@),
            forall|p: PageNumber| #[trigger] final(self).holds(p) ==> old(self).holds(p),
    {
        let wanted: bool = match self.backing {
            Backing::Empty => match self.budget {
                CacheCapacity::Fixed(bytes) => bytes != 0,
                CacheCapacity::Adaptive => true,
            },
            _ => false,
        };
        if !wanted {
            return;
        }
        let size: LogicalBytes = pin.metadata().resolved().size;
        let made: Result<Slots<S::File>, StoreError> = match self.files.create() {
            Ok(file) => {
                let available: u64 = file.available_bytes();
                let budget: u64 = self.budget.resolve(size.bytes, available);
                Slots::new(file, pin.id(), size.page_size, budget)
            },
            Err(error) => Err(error),
        };
        match made {
            Ok(slots) => {
                self.backing = Backing::Ready(slots);
            },
            Err(_) => {
                self.backing = Backing::Disabled;
            },
        }
    }

    /// Caches a page. Where the file fails, the cache is passed by from then on.
    fn keep(&mut self, pin: &PinnedView, version: &PageVersion, bytes: &[u8], used: bool)
        requires
            old(self).wf(),
            old(self).at_view(pin@),
        ensures
            final(self).wf(),
            final(self).at_view(pin@),
            final(self).limit() == old(self).limit(),
            final(self).counts().hits == old(self).counts().hits,
            final(self).counts().misses == old(self).counts().misses,
            kept(old(self).state(), *version, bytes@.len(), used, final(self).state()),
            old(self).matches_view(pin@) && is_version(
                pin@.metadata.view,
                version.page,
                *version,
            ) ==> final(self).matches_view(pin@),
            forall|p: PageNumber| #[trigger]
                final(self).holds(p) ==> old(self).holds(p) || p == version.page,
    {
        let ghost before = self.slots();
        proof {
            if let Backing::Ready(slots) = &self.backing {
                slots.lemma_wf();
            }
        }
        let mut failed: bool = false;
        match &mut self.backing {
            Backing::Ready(slots) => match slots.insert(version, bytes, used, &mut self.stats) {
                Ok(_) => {},
                Err(_) => {
                    failed = true;
                },
            },
            _ => {},
        }
        let ghost partly = self.slots();
        let ghost counted = self.counts();
        if failed {
            self.discard(true);
        }
        proof {
            if let Some(slots) = before {
                if failed && partly->Some_0.list == slots.rest() && counted == old(
                    self,
                ).counts().gave_up(slots.losses()) {
                    lemma_all_lost(slots, partly, old(self).counts(), counted, self.counts());
                }
                lemma_kept_serves(slots, *version, used, pin@.metadata.view);
            }
        }
    }

    /// Caches the other current pages of a frame, as far as there is room besides
    /// the page that was asked for. Pages that were changed since are left out.
    fn keep_others(
        &mut self,
        pin: &PinnedView,
        pages: &Vec<(PageVersion, Vec<u8>)>,
        page: PageNumber,
        shadowed: &OrderedSet<PageNumber>,
    )
        requires
            old(self).wf(),
            old(self).at_view(pin@),
        ensures
            final(self).wf(),
            final(self).at_view(pin@),
            final(self).limit() == old(self).limit(),
            final(self).counts().hits == old(self).counts().hits,
            final(self).counts().misses == old(self).counts().misses,
            others_kept(old(self).state(), pages@, page, shadowed@, final(self).state()),
            old(self).slots() is Some || old(self).is_disabled() ==> final(self).slots() is Some
                || final(self).is_disabled(),
            old(self).matches_view(pin@) && all_versions(pin@.metadata.view, pages@)
                ==> final(self).matches_view(pin@),
            forall|p: PageNumber| #[trigger]
                final(self).holds(p) ==> old(self).holds(p) || (p != page && !shadowed@.contains(p)),
    {
        let mut room: usize = match &self.backing {
            Backing::Ready(slots) => {
                let capacity: usize = slots.capacity();
                if capacity == 0 {
                    0
                } else {
                    capacity - 1
                }
            },
            _ => 0,
        };
        let ghost first = self.state();
        let ghost mut states = seq![first];
        let mut i: usize = 0;
        while i < pages.len()
            invariant
                i <= pages@.len(),
                first == old(self).state(),
                extra_steps(states, pages@, i as int, page, shadowed@),
                states[0] == first,
                states[i as int] == self.state(),
                old(self).slots() is Some || old(self).is_disabled() ==> self.slots() is Some
                    || self.is_disabled(),
                room == left(extra_room(first), extras(pages@, i as int, page, shadowed@)),
                self.wf(),
                self.at_view(pin@),
                self.limit() == old(self).limit(),
                self.counts().hits == old(self).counts().hits,
                self.counts().misses == old(self).counts().misses,
                old(self).matches_view(pin@) && all_versions(pin@.metadata.view, pages@)
                    ==> self.matches_view(pin@),
                forall|p: PageNumber| #[trigger]
                    self.holds(p) ==> old(self).holds(p) || (p != page && !shadowed@.contains(p)),
            decreases pages.len() - i,
        {
            let version: PageVersion = pages[i].0;
            let ghost previous = *self;
            if version.page.value != page.value && !shadowed.contains(&version.page) {
                if room == 0 {
                    self.stats.extra_pages_evicted_unused =
                        self.stats.extra_pages_evicted_unused.saturating_add(1);
                } else {
                    self.keep(pin, &version, pages[i].1.as_slice(), false);
                    room = room - 1;
                }
            }
            assert forall|p: PageNumber| #[trigger] self.holds(p) implies old(self).holds(p) || (p
                != page && !shadowed@.contains(p)) by {
                assert(previous.holds(p) || p == version.page);
            }
            proof {
                let longer = states.push(self.state());
                assert(extra_step(
                    previous.state(),
                    pages@,
                    i as int,
                    page,
                    shadowed@,
                    extra_room(first),
                    self.state(),
                ));
                assert forall|k: int| 0 <= k < i + 1 implies #[trigger] extra_step(
                    longer[k],
                    pages@,
                    k,
                    page,
                    shadowed@,
                    extra_room(longer[0]),
                    longer[k + 1],
                ) by {
                    if k < i {
                        assert(extra_step(
                            states[k],
                            pages@,
                            k,
                            page,
                            shadowed@,
                            extra_room(states[0]),
                            states[k + 1],
                        ));
                    }
                }
                states = longer;
            }
            i += 1;
        }
    }
}

/// The pages have versions of the view.
pub open spec fn all_versions(view: ViewModel, pages: Seq<(PageVersion, Vec<u8>)>) -> bool {
    forall|i: int|
        0 <= i < pages.len() ==> is_version(view, (#[trigger] pages[i]).0.page, pages[i].0)
}

/// What is left of some room.
spec fn left(room: int, taken: nat) -> int {
    if taken < room {
        room - taken
    } else {
        0
    }
}

proof fn lemma_unused_agree(
    a: Map<PageNumber, Held>,
    b: Map<PageNumber, Held>,
    pages: Seq<PageNumber>,
    more: Seq<PageNumber>,
    count: int,
)
    requires
        0 <= count <= pages.len() <= more.len(),
        forall|i: int| 0 <= i < pages.len() ==> #[trigger] more[i] == pages[i],
        forall|i: int| 0 <= i < pages.len() ==> a[#[trigger] pages[i]] == b[pages[i]],
    ensures
        slots::unused_among(a, pages, count) == slots::unused_among(b, more, count),
        slots::unused_among(a, pages, count) >= 0,
    decreases count,
{
    if count > 0 {
        lemma_unused_agree(a, b, pages, more, count - 1);
        assert(more[count - 1] == pages[count - 1]);
    }
}

/// Giving the least recently used page up first and then the others gives up all.
proof fn lemma_all_lost(
    slots: SlotsModel,
    partly: Option<SlotsModel>,
    before: DatabaseCacheStats,
    between: DatabaseCacheStats,
    after: DatabaseCacheStats,
)
    requires
        slots.wf(),
        slots.capacity != 0,
        partly matches Some(rest) && rest.list == slots.rest(),
        between == before.gave_up(slots.losses()),
        lost(partly, between, after),
    ensures
        lost(Some(slots), before, after),
{
    let whole = Some(slots);
    let held = slots.list.held;
    let fewer = slots.rest().held;
    let pages = choose|pages: Seq<PageNumber>| #[trigger]
        slots::names_all(pages, fewer) && after == between.gave_up(
            slots::unused_among(fewer, pages, pages.len() as int),
        );
    assert forall|i: int| 0 <= i < pages.len() implies fewer[#[trigger] pages[i]]
        == held[pages[i]] by {
        assert(pages.contains(pages[i]));
        assert(fewer.dom().contains(pages[i]));
    }
    if slots.is_full() {
        let last = slots.list.order.last();
        assert(slots.list.order[slots.list.order.len() - 1] == last);
        assert(slots.list.order.contains(last));
        assert(held.dom().contains(last));
        let all = pages.push(last);
        assert(!fewer.dom().contains(last));
        assert(!pages.contains(last));
        assert(all.no_duplicates());
        assert forall|p: PageNumber| held.dom().contains(p) <==> all.contains(p) by {
            if pages.contains(p) {
                let k = choose|k: int| 0 <= k < pages.len() && pages[k] == p;
                assert(all[k] == p);
                assert(fewer.dom().contains(p));
            }
            assert(all[pages.len() as int] == last);
            if held.dom().contains(p) && p != last {
                assert(fewer.dom().contains(p));
            }
        }
        lemma_unused_agree(fewer, held, pages, all, pages.len() as int);
        assert(slots::names_all(all, whole->Some_0.list.held));
        assert(slots::unused_among(held, all, all.len() as int) == slots::unused_among(
            held,
            all,
            pages.len() as int,
        ) + slots::unused(held[last])) by {
            assert(all[all.len() - 1] == last);
        }
        assert(after == before.gave_up(slots::unused_among(held, all, all.len() as int)));
    } else {
        lemma_unused_agree(fewer, held, pages, pages, pages.len() as int);
        assert(slots::names_all(pages, whole->Some_0.list.held));
        assert(after == before.gave_up(slots::unused_among(held, pages, pages.len() as int)));
    }
}

proof fn lemma_touched_serves(slots: SlotsModel, page: PageNumber, view: ViewModel)
    requires
        slots.list.held.dom().contains(page),
    ensures
        serves(slots, view) ==> serves(slots.touched(page), view),
        forall|p: PageNumber| slots.touched(page).list.held.dom().contains(p)
            <==> slots.list.held.dom().contains(p),
{
    if serves(slots, view) {
        assert forall|p: PageNumber| #[trigger]
            slots.touched(page).list.held.dom().contains(p) implies is_version(
            view,
            p,
            slots.touched(page).list.held[p].version,
        ) by {
            assert(slots.list.held.dom().contains(p));
        }
    }
}

proof fn lemma_kept_serves(slots: SlotsModel, version: PageVersion, used: bool, view: ViewModel)
    ensures
        serves(slots, view) ==> serves(
            (SlotsModel { list: slots.rest(), ..slots }),
            view,
        ),
        serves(slots, view) && is_version(view, version.page, version) ==> serves(
            slots.with(version, used),
            view,
        ),
        forall|p: PageNumber| #[trigger]
            slots.with(version, used).list.held.dom().contains(p) ==> slots.list.held.dom().contains(
                p,
            ) || p == version.page,
        slots.with(version, used).manifest == slots.manifest,
{
    if serves(slots, view) {
        assert forall|p: PageNumber| #[trigger] slots.rest().held.dom().contains(p) implies is_version(
            view,
            p,
            slots.rest().held[p].version,
        ) by {
            assert(slots.list.held.dom().contains(p));
        }
        if is_version(view, version.page, version) {
            assert forall|p: PageNumber| #[trigger]
                slots.with(version, used).list.held.dom().contains(p) implies is_version(
                view,
                p,
                slots.with(version, used).list.held[p].version,
            ) by {
                if p != version.page {
                    assert(slots.rest().held.dom().contains(p));
                    assert(slots.list.held.dom().contains(p));
                }
            }
        }
    }
}

/// The frame that a page stands in.
pub open spec fn location_of(view: ViewModel, page: PageNumber) -> LocationModel {
    view.frames[view.pages[page].frame]
}

/// Why a page could not be read: it is beyond the size, or its frame is refused.
/// A record that was read ahead is not read again.
pub open spec fn read_failed(
    pin: &PinnedView,
    page: PageNumber,
    records: Map<FrameId, Seq<u8>>,
    history: Seq<Event>,
    at: int,
    error: StoreError,
) -> bool {
    let view = pin@.metadata.view;
    let location = location_of(view, page);
    if page.value > view.size.count() {
        error == StoreError::Range
    } else if !view.pages.dom().contains(page) {
        false
    } else if records.dom().contains(location.frame.id) {
        page::record_refused(
            location,
            records[location.frame.id],
            pin@.dictionaries,
            error,
        )
    } else {
        repack::frame_refused(
            history,
            at,
            pin.chosen(),
            pin@.dictionaries,
            location,
            error,
        )
    }
}

proof fn lemma_live_versions(view: ViewModel, location: LocationModel, raw: Seq<u8>, i: int, k: int)
    requires
        0 <= i,
        view.frames.dom().contains(location.frame.id),
        view.frames[location.frame.id] == location,
        0 <= k < page::live_slots(view, location.frame, raw, i).len(),
    ensures
        ({
            let version = page::live_slots(view, location.frame, raw, i)[k].0;
            is_version(view, version.page, version)
        }),
    decreases location.frame.pages.len() - i,
{
    let frame = location.frame;
    if i < frame.pages.len() && (i + 1) * frame.shape.page_size.value <= raw.len() {
        let page = frame.pages[i].page;
        let rest = page::live_slots(view, frame, raw, i + 1);
        if view.pages.dom().contains(page) && view.pages[page].frame == frame.id {
            let slots = page::live_slots(view, frame, raw, i);
            if k == 0 {
                assert(slots[0].0 == frame.pages[i]);
                assert(is_version(view, page, frame.pages[i]));
            } else {
                assert(slots[k] == rest[k - 1]);
                lemma_live_versions(view, location, raw, i + 1, k - 1);
            }
        } else {
            lemma_live_versions(view, location, raw, i + 1, k);
        }
    }
}

proof fn lemma_live_has(view: ViewModel, frame: FrameModel, raw: Seq<u8>, i: int, s: int)
    requires
        0 <= i <= s < frame.pages.len(),
        view.pages.dom().contains(frame.pages[s].page),
        view.pages[frame.pages[s].page].frame == frame.id,
        raw.len() == frame.shape.size(),
        frame.pages.len() == frame.shape.pages,
    ensures
        exists|k: int|
            0 <= k < page::live_slots(view, frame, raw, i).len() && (#[trigger] page::live_slots(
                view,
                frame,
                raw,
                i,
            )[k]).0.page == frame.pages[s].page,
    decreases s - i,
{
    let unit = frame.shape.page_size.value as int;
    let count = frame.pages.len() as int;
    assert((i + 1) * unit <= unit * count && unit * count == count * unit) by (nonlinear_arith)
        requires
            i + 1 <= count,
            unit >= 0,
    ;
    let all = page::live_slots(view, frame, raw, i);
    let rest = page::live_slots(view, frame, raw, i + 1);
    if i == s {
        assert(all[0].0.page == frame.pages[s].page);
    } else {
        lemma_live_has(view, frame, raw, i + 1, s);
        let k = choose|k: int|
            0 <= k < rest.len() && (#[trigger] rest[k]).0.page == frame.pages[s].page;
        if view.pages.dom().contains(frame.pages[i].page) && view.pages[frame.pages[i].page].frame
            == frame.id {
            assert(all[k + 1] == rest[k]);
        } else {
            assert(all[k] == rest[k]);
        }
    }
}

/// The place of a page among some.
fn find_page(pages: &Vec<(PageVersion, Vec<u8>)>, page: PageNumber) -> (place: Option<usize>)
    ensures
        match place {
            Some(i) => i < pages@.len() && pages@[i as int].0.page == page,
            None => forall|i: int| 0 <= i < pages@.len() ==> (#[trigger] pages@[i]).0.page != page,
        },
{
    let mut i: usize = 0;
    while i < pages.len()
        invariant
            i <= pages@.len(),
            forall|j: int| 0 <= j < i ==> (#[trigger] pages@[j]).0.page != page,
        decreases pages.len() - i,
    {
        if pages[i].0.page.value == page.value {
            return Some(i);
        }
        i += 1;
    }
    None
}

/// Fetches the frame of a page, from a record that was read ahead if there is one.
fn fetch_frame<B: StorageBackend>(
    backend: &mut B,
    pin: &PinnedView,
    reference: &StoredPageRef<'_>,
    page: PageNumber,
    records: &OrderedMap<FrameId, Vec<u8>>,
) -> (frame: Result<VerifiedFrame, StoreError>)
    requires
        reference.pin() == pin,
        reference.wf(),
        page.value <= pin@.metadata.view.size.count(),
        pin@.metadata.view.pages.dom().contains(page),
        reference.location() == location_of(pin@.metadata.view, page),
    ensures
        final(backend).namespace() == old(backend).namespace(),
        adapter::extends(old(backend).history(), final(backend).history()),
        adapter::quiet(old(backend).history(), final(backend).history()),
        records@.dom().contains(reference.location().frame.id) ==> final(backend).history() == old(
            backend).history(),
        match frame {
            Ok(verified) => verified.of() == reference.location().frame.id
                && reference.location().frame.verifies(verified@),
            Err(e) => read_failed(
                pin,
                page,
                records@,
                final(backend).history(),
                old(backend).history().len() as int,
                e,
            ),
        },
{
    match records.get(&reference.frame_id()) {
        Some(record) => match reference.decode_record(record.as_slice()) {
            Ok((_, verified)) => Ok(verified),
            Err(error) => Err(error),
        },
        None => reference.fetch(backend),
    }
}

/// More bytes were inflated and fetched for a miss.
pub open spec fn missed(io: HandleIoStats, fetched: int, inflated: int) -> HandleIoStats {
    HandleIoStats {
        cache_hits: io.cache_hits,
        cache_misses: slots::capped(io.cache_misses, 1),
        fetched_bytes: slots::capped(io.fetched_bytes, fetched),
        inflated_bytes: slots::capped(io.inflated_bytes, inflated),
    }
}

impl<S: SlotFiles> PageCache<S> {
    /// Reads a page, from the cache or from the view. What is read of a frame is
    /// cached with the page that was asked for as the most recent.
    fn read_prefetched<B: StorageBackend>(
        &mut self,
        backend: &mut B,
        pin: &PinnedView,
        page: PageNumber,
        io: &mut HandleIoStats,
        shadowed: &OrderedSet<PageNumber>,
        records: &OrderedMap<FrameId, Vec<u8>>,
        counted: &mut OrderedSet<FrameId>,
    ) -> (bytes: Result<Vec<u8>, StoreError>)
        requires
            old(self).wf(),
        ensures
            final(backend).namespace() == old(backend).namespace(),
            adapter::extends(old(backend).history(), final(backend).history()),
            adapter::quiet(old(backend).history(), final(backend).history()),
            final(self).wf(),
            final(self).limit() == old(self).limit(),
            old(self).matches_view(pin@) ==> final(self).matches_view(pin@),
            forall|p: PageNumber| #[trigger]
                final(self).holds(p) ==> old(self).holds(p) || p == page || !shadowed@.contains(p),
            page_served(
                old(self).state(),
                pin@,
                old(self).limit(),
                page,
                shadowed@,
                records@.dom(),
                old(counted)@,
                *old(io),
                final(self).state(),
                final(counted)@,
                *final(io),
                bytes is Ok,
            ),
            old(self).matches_view(pin@) && validation::pages_sound(pin@.metadata.view) && page.value
                > pin@.metadata.view.size.count() ==> bytes == Err::<Vec<u8>, StoreError>(
                StoreError::Range,
            ),
            bytes is Ok && pin@.metadata.view.pages.dom().contains(page) && validation::page_sound(
                pin@.metadata.view,
                page,
                pin@.metadata.view.pages[page],
            ) && old(self).limit() != CacheCapacity::Fixed(0) ==> final(self).keeps(page),
            match bytes {
                Ok(b) => (old(self).matches_view(pin@) && page.value
                    <= pin@.metadata.view.size.count() ==> good(pin@.metadata.view, page, b@)),
                Err(e) => read_failed(
                    pin,
                    page,
                    records@,
                    final(backend).history(),
                    old(backend).history().len() as int,
                    e,
                ),
            },
    {
        let ghost view = pin@.metadata.view;
        let resolved: &ViewMetadata = pin.metadata().resolved();
        let ghost first = self.slots();
        let found_here: Option<Vec<u8>> = self.lookup(pin, page, io);
        let ghost entry = choose|entry: CacheModel| #[trigger]
            entered(old(self).state(), pin@, entry) && if found_here is Some {
                hit(entry, page, self.state())
            } else {
                not_found(entry, page, self.state())
            };
        assert(entered(old(self).state(), pin@, entry));
        match found_here {
            Some(bytes) => {
                proof {
                    if old(self).matches_view(pin@) {
                        assert(first->Some_0.list.held.dom().contains(page));
                        assert(is_version(view, page, first->Some_0.list.held[page].version));
                    }
                }
                return Ok(bytes);
            },
            None => {},
        }
        let found: ResolvedPage<'_> = match pin.resolve(page) {
            Ok(found) => found,
            Err(error) => {
                return Err(error);
            },
        };
        let reference: StoredPageRef<'_> = match found {
            ResolvedPage::Stored(reference) => reference,
            ResolvedPage::Zero(zero) => {
                let zeros: Result<Vec<u8>, StoreError> = ResolvedPage::Zero(zero).read(backend);
                return zeros;
            },
        };
        proof {
            let stored = view.pages[page];
            assert(view.resolves(stored));
            assert(validation::location_sound(view, stored.frame, view.frames[stored.frame]));
        }
        let ghost looked = self.state();
        self.stats.misses = self.stats.misses.saturating_add(1);
        io.cache_misses = io.cache_misses.saturating_add(1);
        let ghost missing = self.state();
        assert(missing =~= with_miss(looked));
        let fetched: Result<VerifiedFrame, StoreError> = fetch_frame(
            backend,
            pin,
            &reference,
            page,
            records,
        );
        let frame: VerifiedFrame = match fetched {
            Ok(frame) => frame,
            Err(error) => {
                assert(*io == missed(*old(io), 0, 0));
                return Err(error);
            },
        };
        let id: FrameId = reference.frame_id();
        let fresh: bool = counted.insert(id);
        if fresh || !records.contains_key(&id) {
            io.fetched_bytes = io.fetched_bytes.saturating_add(reference.stored_bytes());
        }
        io.inflated_bytes = io.inflated_bytes.saturating_add(frame.bytes().len() as u64);
        proof {
            crate::frame::lemma_slot_small(
                reference.location().frame,
                reference.place().index as int,
            );
        }
        proof {
            let fetched = if fresh || !records@.dom().contains(id) {
                reference.location().payload.length.value + crate::format::FRAME_HEADER_SIZE
            } else {
                0
            };
            assert(*io == missed(*old(io), fetched, frame@.len() as int));
        }
        let output: Vec<u8> = match reference.extract(&frame) {
            Ok(output) => output,
            Err(error) => {
                assert(false);
                return Err(error);
            },
        };
        proof {
            let at = reference.place().index as int;
            let version = reference.location().frame.pages[at];
            assert(version == view.version(view.pages[page]));
            assert(is_version(view, page, version));
            assert(frame::sound_page(version, output@));
        }
        self.prepare(pin);
        let ghost made = self.state();
        let pages: Vec<(PageVersion, Vec<u8>)> = match reference.cache_pages(&frame) {
            Ok(pages) => pages,
            Err(error) => {
                assert(false);
                return Err(error);
            },
        };
        proof {
            assert forall|i: int| 0 <= i < pages@.len() implies is_version(
                view,
                (#[trigger] pages@[i]).0.page,
                pages@[i].0,
            ) by {
                assert(page::page_models(pages@)[i].0 == pages@[i].0);
                lemma_live_versions(view, reference.location(), frame@, 0, i);
            }
        }
        self.keep_others(pin, &pages, page, shadowed);
        let ghost filled = self.state();
        match find_page(&pages, page) {
            Some(i) => {
                let version: PageVersion = pages[i].0;
                self.keep(pin, &version, pages[i].1.as_slice(), true);
                assert(pages@[i as int].0.page == page);
            },
            None => {},
        }
        proof {
            assert(current_pages(view, location_of(view, page), pages@));
            assert(asked_kept(filled, pages@, page, self.state()));
            assert(frame_kept(
                missing,
                pin@,
                old(self).limit(),
                pages@,
                page,
                shadowed@,
                self.state(),
            ));
            if validation::page_sound(view, page, view.pages[page]) {
                let stored = view.pages[page];
                let at = stored.slot.index as int;
                lemma_live_has(view, reference.location().frame, frame@, 0, at);
                let slots = page::live_slots(view, reference.location().frame, frame@, 0);
                let k = choose|k: int| 0 <= k < slots.len() && (#[trigger] slots[k]).0.page == page;
                assert(page::page_models(pages@)[k].0 == pages@[k].0);
            }
        }
        Ok(output)
    }

    /// Reads a page. Once the cache matches the view, what comes back matches a
    /// version of the page in the view.
    pub fn read<B: StorageBackend>(
        &mut self,
        backend: &mut B,
        pin: &PinnedView,
        page: PageNumber,
        io: &mut HandleIoStats,
        shadowed: &OrderedSet<PageNumber>,
    ) -> (bytes: Result<Vec<u8>, StoreError>)
        requires
            old(self).wf(),
        ensures
            final(backend).namespace() == old(backend).namespace(),
            adapter::extends(old(backend).history(), final(backend).history()),
            adapter::quiet(old(backend).history(), final(backend).history()),
            final(self).wf(),
            final(self).limit() == old(self).limit(),
            old(self).matches_view(pin@) ==> final(self).matches_view(pin@),
            forall|p: PageNumber| #[trigger]
                final(self).holds(p) ==> old(self).holds(p) || p == page || !shadowed@.contains(p),
            exists|seen: Set<FrameId>| #[trigger]
                page_served(
                old(self).state(),
                pin@,
                old(self).limit(),
                page,
                shadowed@,
                Set::empty(),
                Set::empty(),
                *old(io),
                final(self).state(),
                seen,
                *final(io),
                bytes is Ok,
            ),
            old(self).matches_view(pin@) && validation::pages_sound(pin@.metadata.view) && page.value
                > pin@.metadata.view.size.count() ==> bytes == Err::<Vec<u8>, StoreError>(
                StoreError::Range,
            ),
            bytes is Ok && pin@.metadata.view.pages.dom().contains(page) && validation::page_sound(
                pin@.metadata.view,
                page,
                pin@.metadata.view.pages[page],
            ) && old(self).limit() != CacheCapacity::Fixed(0) ==> final(self).keeps(page),
            match bytes {
                Ok(b) => (old(self).matches_view(pin@) && page.value
                    <= pin@.metadata.view.size.count() ==> good(pin@.metadata.view, page, b@)),
                Err(e) => read_failed(
                    pin,
                    page,
                    Map::empty(),
                    final(backend).history(),
                    old(backend).history().len() as int,
                    e,
                ),
            },
    {
        let records: OrderedMap<FrameId, Vec<u8>> = OrderedMap::new();
        let mut counted: OrderedSet<FrameId> = OrderedSet::new();
        self.read_prefetched(backend, pin, page, io, shadowed, &records, &mut counted)
    }
}

/// The pages of a batch are those from `start` to `end` that have to be fetched.
pub open spec fn batch_of(
    pages: Seq<PageNumber>,
    start: int,
    end: int,
    view: ViewModel,
    misses: Seq<PageNumber>,
) -> bool {
    &&& start < end <= pages.len()
    &&& end - start <= BATCH_PAGES
    &&& forall|k: int|
        0 <= k < misses.len() ==> view.pages.dom().contains(#[trigger] misses[k]) && pages.subrange(
            start,
            end,
        ).contains(misses[k])
}

/// The pages from `start` to `end` that are stored and not cached, in their order.
pub open spec fn misses_of(
    view: ViewModel,
    slots: Option<SlotsModel>,
    pages: Seq<PageNumber>,
    start: int,
    end: int,
) -> Seq<PageNumber>
    decreases end - start,
{
    if end <= start {
        Seq::empty()
    } else {
        let before = misses_of(view, slots, pages, start, end - 1);
        let page = pages[end - 1];
        if !(slots matches Some(s) && s.list.held.dom().contains(page))
            && view.pages.dom().contains(page) {
            before.push(page)
        } else {
            before
        }
    }
}

/// The bytes of the records of the frames that the first `count` pages stand in, each frame
/// once.
pub open spec fn record_bytes(view: ViewModel, pages: Seq<PageNumber>, count: int) -> int
    decreases count,
{
    if count <= 0 {
        0
    } else {
        record_bytes(view, pages, count - 1) + if frame_came_before(view, pages, count - 1) {
            0
        } else {
            location_of(view, pages[count - 1]).payload.length.value
                + crate::format::FRAME_HEADER_SIZE
        }
    }
}

proof fn lemma_record_bytes_prefix(
    view: ViewModel,
    pages: Seq<PageNumber>,
    page: PageNumber,
    count: int,
)
    requires
        0 <= count <= pages.len(),
    ensures
        record_bytes(view, pages.push(page), count) == record_bytes(view, pages, count),
    decreases count,
{
    if count > 0 {
        lemma_record_bytes_prefix(view, pages, page, count - 1);
        let longer = pages.push(page);
        assert forall|j: int| 0 <= j < count implies longer[j] == #[trigger] pages[j] by {}
        if frame_came_before(view, longer, count - 1) {
            let j = choose|j: int|
                0 <= j < count - 1 && view.pages.dom().contains(#[trigger] longer[j]) && location_of(
                    view,
                    longer[j],
                ).frame.id == location_of(view, longer[count - 1]).frame.id;
            assert(view.pages.dom().contains(pages[j]));
        }
        if frame_came_before(view, pages, count - 1) {
            let j = choose|j: int|
                0 <= j < count - 1 && view.pages.dom().contains(#[trigger] pages[j]) && location_of(
                    view,
                    pages[j],
                ).frame.id == location_of(view, pages[count - 1]).frame.id;
            assert(view.pages.dom().contains(longer[j]));
        }
    }
}

/// A batch is full: it fetches every page from `start` to `end` that it has to, and the next
/// page, if there is one and not too many are there, would take the records over what may
/// be read together.
pub open spec fn batch_filled(
    pages: Seq<PageNumber>,
    start: int,
    end: int,
    view: ViewModel,
    slots: Option<SlotsModel>,
    misses: Seq<PageNumber>,
) -> bool {
    let next = misses_of(view, slots, pages, start, end + 1);
    &&& misses == misses_of(view, slots, pages, start, end)
    &&& record_bytes(view, misses, misses.len() as int) <= BATCH_BYTES
    &&& end < pages.len() && end - start < BATCH_PAGES ==> record_bytes(
        view,
        next,
        next.len() as int,
    ) > BATCH_BYTES
}

/// What reading a page did to the counts: it was cached, or nothing is stored for
/// it, or its frame was inflated, and fetched unless its record had been counted.
pub open spec fn io_step(
    pin: PinModel,
    page: PageNumber,
    counted: bool,
    before: HandleIoStats,
    after: HandleIoStats,
) -> bool {
    let view = pin.metadata.view;
    let location = location_of(view, page);
    let size = location.frame.shape.size() as int;
    ||| after == (HandleIoStats { cache_hits: slots::capped(before.cache_hits, 1), ..before })
    ||| !view.pages.dom().contains(page) && after == before
    ||| counted && view.pages.dom().contains(page) && after == missed(before, 0, size)
    ||| view.pages.dom().contains(page) && after == missed(
        before,
        location.payload.length.value + crate::format::FRAME_HEADER_SIZE,
        size,
    )
}

/// The frame that the page in place `i` stands in is that of an earlier page.
pub open spec fn frame_came_before(view: ViewModel, pages: Seq<PageNumber>, i: int) -> bool {
    exists|j: int|
        0 <= j < i && view.pages.dom().contains(#[trigger] pages[j]) && location_of(
            view,
            pages[j],
        ).frame.id == location_of(view, pages[i]).frame.id
}

/// The counts while some pages are read.
pub open spec fn io_steps(pin: PinModel, pages: Seq<PageNumber>, counts: Seq<HandleIoStats>) -> bool {
    counts.len() == pages.len() + 1 && forall|i: int|
        0 <= i < pages.len() ==> io_step(
            pin,
            #[trigger] pages[i],
            frame_came_before(pin.metadata.view, pages, i),
            counts[i],
            counts[i + 1],
        )
}

/// Why reading some pages failed with the last calls of a history: a page is
/// beyond the size, the records of a batch could not be read, or a page.
pub open spec fn many_failed(
    pin: &PinnedView,
    pages: Seq<PageNumber>,
    earlier: Seq<Event>,
    later: Seq<Event>,
    error: StoreError,
) -> bool {
    ||| error == StoreError::Range && records::beyond_size(pin@.metadata.view, pages)
    ||| exists|misses: Seq<PageNumber>, middle: Seq<Event>|
        earlier.len() <= middle.len() && #[trigger] records::records_read(
            pin,
            misses,
            middle,
            later,
            Err::<OrderedMap<FrameId, Vec<u8>>, StoreError>(error),
        )
    ||| exists|i: int, records: Map<FrameId, Seq<u8>>, at: int|
        0 <= i < pages.len() && earlier.len() <= at && #[trigger] read_failed(
            pin,
            pages[i],
            records,
            later,
            at,
            error,
        )
}

impl<S: SlotFiles> PageCache<S> {
    /// The next pages to read together: not too many, and records of not too many
    /// bytes, though always one page.
    fn plan_batch(&self, pin: &PinnedView, pages: &Vec<PageNumber>, start: usize) -> (batch: Result<
        (usize, Vec<PageNumber>),
        StoreError,
    >)
        requires
            start < pages@.len(),
        ensures
            match batch {
                Ok((end, misses)) => batch_of(
                    pages@,
                    start as int,
                    end as int,
                    pin@.metadata.view,
                    misses@,
                ) && batch_filled(
                    pages@,
                    start as int,
                    end as int,
                    pin@.metadata.view,
                    self.slots(),
                    misses@,
                ),
                Err(e) => e == StoreError::Range && records::beyond_size(
                    pin@.metadata.view,
                    pages@,
                ),
            },
    {
        let ghost view = pin@.metadata.view;
        let mut end: usize = start;
        let mut bytes: u64 = 0;
        let mut frames: OrderedSet<FrameId> = OrderedSet::new();
        let mut misses: Vec<PageNumber> = Vec::new();
        let mut more: bool = true;
        while more && end < pages.len() && end - start < BATCH_PAGES
            invariant
                start <= end <= pages@.len(),
                start < pages@.len(),
                end - start <= BATCH_PAGES,
                view == pin@.metadata.view,
                bytes <= BATCH_BYTES,
                end == start ==> bytes == 0,
                !more ==> end > start,
                misses@ == misses_of(view, self.slots(), pages@, start as int, end as int),
                bytes == record_bytes(view, misses@, misses@.len() as int),
                forall|id: FrameId| #[trigger]
                    frames@.contains(id) ==> exists|j: int|
                        0 <= j < misses@.len() && location_of(view, #[trigger] misses@[j]).frame.id
                            == id,
                forall|j: int|
                    0 <= j < misses@.len() ==> frames@.contains(
                        location_of(view, #[trigger] misses@[j]).frame.id,
                    ),
                !more ==> ({
                    let next = misses_of(view, self.slots(), pages@, start as int, end + 1);
                    record_bytes(view, next, next.len() as int) > BATCH_BYTES
                }),
                forall|k: int|
                    0 <= k < misses@.len() ==> view.pages.dom().contains(#[trigger] misses@[k])
                        && pages@.subrange(start as int, end as int).contains(misses@[k]),
            decreases pages.len() - end, more as int,
        {
            let page: PageNumber = pages[end];
            let cached: bool = match &self.backing {
                Backing::Ready(slots) => slots.holds(page),
                _ => false,
            };
            if !cached {
                match pin.resolve(page) {
                    Ok(ResolvedPage::Stored(reference)) => {
                        let id: FrameId = reference.frame_id();
                        proof {
                            let longer = misses@.push(page);
                            let count = misses@.len() as int;
                            lemma_record_bytes_prefix(view, misses@, page, count);
                            assert(location_of(view, page) == reference.location());
                            assert(longer[count] == page);
                            if frames@.contains(id) {
                                let j = choose|j: int|
                                    0 <= j < count && location_of(view, #[trigger] misses@[j]).frame.id
                                        == id;
                                assert(view.pages.dom().contains(longer[j]));
                                assert(frame_came_before(view, longer, count));
                            } else if frame_came_before(view, longer, count) {
                                let j = choose|j: int|
                                    0 <= j < count && view.pages.dom().contains(#[trigger] longer[j])
                                        && location_of(view, longer[j]).frame.id == location_of(
                                        view,
                                        longer[count],
                                    ).frame.id;
                                assert(longer[j] == misses@[j]);
                                assert(false);
                            }
                            assert(misses_of(view, self.slots(), pages@, start as int, end + 1)
                                == longer);
                        }
                        let ghost known = misses@;
                        if !frames.contains(&id) {
                            let length: u64 = record_length(&reference);
                            if end > start && bytes + length > BATCH_BYTES {
                                more = false;
                            } else {
                                bytes = bytes + length;
                                frames.insert(id);
                            }
                        }
                        if more {
                            misses.push(page);
                            assert(misses@.last() == page);
                            assert forall|other: FrameId| #[trigger]
                                frames@.contains(other) implies exists|j: int|
                                0 <= j < misses@.len() && location_of(
                                    view,
                                    #[trigger] misses@[j],
                                ).frame.id == other by {
                                if other == id {
                                    assert(location_of(view, misses@[known.len() as int]).frame.id
                                        == id);
                                } else {
                                    let j = choose|j: int|
                                        0 <= j < known.len() && location_of(
                                            view,
                                            #[trigger] known[j],
                                        ).frame.id == other;
                                    assert(misses@[j] == known[j]);
                                }
                            }
                        }
                    },
                    Ok(ResolvedPage::Zero(_)) => {},
                    Err(error) => {
                        assert(pages@[end as int].value > view.size.count());
                        return Err(error);
                    },
                }
            }
            if more {
                proof {
                    let now = pages@.subrange(start as int, end as int);
                    let next = pages@.subrange(start as int, end + 1);
                    assert(next =~= now.push(page));
                    assert forall|p: PageNumber| now.contains(p) implies next.contains(p) by {
                        let k = choose|k: int| 0 <= k < now.len() && now[k] == p;
                        assert(next[k] == p);
                    }
                    assert(next[end - start] == page);
                }
                end = end + 1;
            }
        }
        Ok((end, misses))
    }

    /// Reads some pages, in order. The records of pages that have to be fetched
    /// are read in batches.
    pub fn read_many<B: StorageBackend>(
        &mut self,
        backend: &mut B,
        pin: &PinnedView,
        pages: &Vec<PageNumber>,
        io: &mut HandleIoStats,
        shadowed: &OrderedSet<PageNumber>,
    ) -> (output: Result<Vec<Vec<u8>>, StoreError>)
        requires
            old(self).wf(),
        ensures
            final(backend).namespace() == old(backend).namespace(),
            adapter::extends(old(backend).history(), final(backend).history()),
            adapter::quiet(old(backend).history(), final(backend).history()),
            final(self).wf(),
            final(self).limit() == old(self).limit(),
            old(self).matches_view(pin@) ==> final(self).matches_view(pin@),
            forall|p: PageNumber| #[trigger]
                final(self).holds(p) ==> old(self).holds(p) || pages@.contains(p)
                    || !shadowed@.contains(p),
            output is Ok ==> exists|counts: Seq<HandleIoStats>| #[trigger]
                io_steps(pin@, pages@, counts) && counts[0] == *old(io)
                    && counts[pages@.len() as int] == *final(io),
            match output {
                Ok(out) => out@.len() == pages@.len() && (old(self).matches_view(pin@)
                    ==> forall|i: int|
                    0 <= i < pages@.len() && pages@[i].value <= pin@.metadata.view.size.count()
                        ==> good(pin@.metadata.view, pages@[i], (#[trigger] out@[i])@)),
                Err(e) => many_failed(
                    pin,
                    pages@,
                    old(backend).history(),
                    final(backend).history(),
                    e,
                ),
            },
    {
        let ghost view = pin@.metadata.view;
        let ghost trusted = self.matches_view(pin@);
        let stale: bool = match &self.backing {
            Backing::Ready(slots) => !slots.manifest().same(&pin.id()),
            _ => false,
        };
        if stale {
            self.discard(false);
        }
        let ghost mut counts = seq![*old(io)];
        let mut output: Vec<Vec<u8>> = Vec::new();
        let mut start: usize = 0;
        while start < pages.len()
            invariant
                start <= pages@.len(),
                view == pin@.metadata.view,
                trusted == old(self).matches_view(pin@),
                backend.namespace() == old(backend).namespace(),
                adapter::extends(old(backend).history(), backend.history()),
                adapter::quiet(old(backend).history(), backend.history()),
                self.wf(),
                self.limit() == old(self).limit(),
                trusted ==> self.matches_view(pin@),
                forall|p: PageNumber| #[trigger]
                    self.holds(p) ==> old(self).holds(p) || pages@.contains(p)
                        || !shadowed@.contains(p),
                counts.len() == start + 1,
                counts[0] == *old(io),
                counts[start as int] == *io,
                forall|k: int|
                    0 <= k < start ==> io_step(
                        pin@,
                        #[trigger] pages@[k],
                        frame_came_before(view, pages@, k),
                        counts[k],
                        counts[k + 1],
                    ),
                output@.len() == start,
                trusted ==> forall|i: int|
                    0 <= i < start && pages@[i].value <= view.size.count() ==> good(
                        view,
                        pages@[i],
                        (#[trigger] output@[i])@,
                    ),
            decreases pages.len() - start,
        {
            let (end, misses) = match self.plan_batch(pin, pages, start) {
                Ok(batch) => batch,
                Err(error) => {
                    return Err(error);
                },
            };
            let ghost before = backend.history();
            let reading: Result<OrderedMap<FrameId, Vec<u8>>, StoreError> = pin.read_frame_records(
                backend,
                &misses,
            );
            let records: OrderedMap<FrameId, Vec<u8>> = match reading {
                Ok(records) => records,
                Err(error) => {
                    assert(records::records_read(
                        pin,
                        misses@,
                        before,
                        backend.history(),
                        Err::<OrderedMap<FrameId, Vec<u8>>, StoreError>(error),
                    ));
                    return Err(error);
                },
            };
            let mut counted: OrderedSet<FrameId> = OrderedSet::new();
            let mut i: usize = start;
            while i < end
                invariant
                    start <= i <= end <= pages@.len(),
                    view == pin@.metadata.view,
                    trusted == old(self).matches_view(pin@),
                    backend.namespace() == old(backend).namespace(),
                    adapter::extends(old(backend).history(), backend.history()),
                    adapter::quiet(old(backend).history(), backend.history()),
                    self.wf(),
                    self.limit() == old(self).limit(),
                    trusted ==> self.matches_view(pin@),
                    forall|p: PageNumber| #[trigger]
                        self.holds(p) ==> old(self).holds(p) || pages@.contains(p)
                            || !shadowed@.contains(p),
                    counts.len() == i + 1,
                    counts[0] == *old(io),
                    counts[i as int] == *io,
                    forall|k: int|
                        0 <= k < i ==> io_step(
                            pin@,
                            #[trigger] pages@[k],
                            frame_came_before(view, pages@, k),
                            counts[k],
                            counts[k + 1],
                        ),
                    output@.len() == i,
                    forall|id: FrameId| #[trigger]
                        counted@.contains(id) ==> exists|j: int|
                            0 <= j < i && view.pages.dom().contains(#[trigger] pages@[j])
                                && location_of(view, pages@[j]).frame.id == id,
                    trusted ==> forall|j: int|
                        0 <= j < i && pages@[j].value <= view.size.count() ==> good(
                            view,
                            pages@[j],
                            (#[trigger] output@[j])@,
                        ),
                decreases end - i,
            {
                let ghost known = backend.history();
                let ghost seen = counted@;
                let one: Result<Vec<u8>, StoreError> = self.read_prefetched(
                    backend,
                    pin,
                    pages[i],
                    io,
                    shadowed,
                    &records,
                    &mut counted,
                );
                let bytes: Vec<u8> = match one {
                    Ok(bytes) => bytes,
                    Err(error) => {
                        assert(read_failed(
                            pin,
                            pages@[i as int],
                            records@,
                            backend.history(),
                            known.len() as int,
                            error,
                        ));
                        return Err(error);
                    },
                };
                output.push(bytes);
                proof {
                    assert(pages@.contains(pages@[i as int]));
                    let own = location_of(view, pages@[i as int]).frame.id;
                    assert(seen.contains(own) ==> frame_came_before(view, pages@, i as int));
                    assert(io_step(
                        pin@,
                        pages@[i as int],
                        frame_came_before(view, pages@, i as int),
                        counts[i as int],
                        *io,
                    ));
                    assert forall|id: FrameId| #[trigger] counted@.contains(id) implies exists|j: int|
                        0 <= j < i + 1 && view.pages.dom().contains(#[trigger] pages@[j])
                            && location_of(view, pages@[j]).frame.id == id by {
                        if seen.contains(id) {
                            let j = choose|j: int|
                                0 <= j < i && view.pages.dom().contains(#[trigger] pages@[j])
                                    && location_of(view, pages@[j]).frame.id == id;
                            assert(view.pages.dom().contains(pages@[j]));
                        } else {
                            assert(view.pages.dom().contains(pages@[i as int]) && own == id);
                        }
                    }
                    counts = counts.push(*io);
                }
                i += 1;
            }
            start = end;
        }
        assert(io_steps(pin@, pages@, counts));
        Ok(output)
    }
}

/// The length of the record of a frame.
fn record_length(reference: &StoredPageRef<'_>) -> (length: u64)
    requires
        reference.wf(),
    ensures
        length == reference.location().payload.length.value + crate::format::FRAME_HEADER_SIZE,
        length <= 16777216,
{
    proof {
        crate::frame::lemma_payload_small(reference.location().frame);
    }
    reference.stored_bytes()
}

/// A fixed cache has its own budget. An adaptive one takes all that is no more than a
/// fifth of the database and no more than half of the free space.
pub proof fn law_adaptive_allowance(logical: u64, available: u64, fixed: u64, more: u64)
    ensures
        allowance(CacheCapacity::Fixed(fixed), logical, available) == fixed,
        ({
            let bytes = allowance(CacheCapacity::Adaptive, logical, available);
            &&& bytes * 5 <= logical
            &&& bytes * 2 <= available
            &&& more * 5 <= logical && more * 2 <= available ==> more <= bytes
        }),
{
}

/// A page that is found counts as one hit, and as one of the extra pages that were asked
/// for after all, where it was cached beside another and is asked for the first time. It
/// is no miss, and nothing is given up.
pub proof fn law_hits_are_counted(before: CacheModel, page: PageNumber, after: CacheModel)
    requires
        hit(before, page, after),
        before.counts.hits < u64::MAX,
        before.counts.extra_pages_requested < u64::MAX,
    ensures
        ({
            let held = before.slots->Some_0.list.held[page];
            &&& after.counts.hits == before.counts.hits + 1
            &&& after.counts.misses == before.counts.misses
            &&& after.counts.extra_pages_requested == before.counts.extra_pages_requested
                + if held.used {
                0int
            } else {
                1
            }
            &&& after.counts.extra_pages_evicted_unused == before.counts.extra_pages_evicted_unused
            &&& after.slots is Some
            &&& after.slots->Some_0.list.held[page].used
            &&& after.slots->Some_0.list.held.dom() =~= before.slots->Some_0.list.held.dom()
        }),
{
}

/// Reading a page counts as a hit or as a miss, never as both, and as neither only where
/// nothing is stored for the page. A hit costs no bytes; a miss costs the record of the
/// frame that the page stands in, unless that was read ahead and counted, and the bytes
/// of all of the frame's pages.
pub proof fn law_reads_are_counted(
    before: CacheModel,
    pin: PinModel,
    limit: CacheCapacity,
    page: PageNumber,
    shadowed: Set<PageNumber>,
    ahead: Set<FrameId>,
    counted: Set<FrameId>,
    io: HandleIoStats,
    after: CacheModel,
    counted_after: Set<FrameId>,
    io_after: HandleIoStats,
)
    requires
        page_served(
            before,
            pin,
            limit,
            page,
            shadowed,
            ahead,
            counted,
            io,
            after,
            counted_after,
            io_after,
            true,
        ),
        io.cache_hits < u64::MAX,
        io.cache_misses < u64::MAX,
        ({
            let location = location_of(pin.metadata.view, page);
            &&& io.fetched_bytes + location.payload.length.value + 16 <= u64::MAX
            &&& io.inflated_bytes + location.frame.shape.size() <= u64::MAX
            &&& 0 <= location.frame.shape.size()
        }),
    ensures
        ({
            let view = pin.metadata.view;
            let location = location_of(view, page);
            let id = location.frame.id;
            let found = io_after.cache_hits == io.cache_hits + 1;
            let missed = io_after.cache_misses == io.cache_misses + 1;
            &&& !(found && missed)
            &&& io_after.cache_hits == io.cache_hits || found
            &&& io_after.cache_misses == io.cache_misses || missed
            &&& !found && !missed ==> !view.pages.dom().contains(page) && io_after == io
            &&& found ==> io_after.fetched_bytes == io.fetched_bytes && io_after.inflated_bytes
                == io.inflated_bytes && counted_after == counted
            &&& missed ==> view.pages.dom().contains(page) && counted_after.contains(id)
                && io_after.inflated_bytes == io.inflated_bytes + location.frame.shape.size()
                && io_after.fetched_bytes == io.fetched_bytes + if ahead.contains(id)
                && counted.contains(id) {
                0
            } else {
                location.payload.length.value + 16
            }
        }),
{
}

/// Pages that come with the one that was asked for take no more slots than leave one for
/// that: of those that may be cached, the ones beyond that room are given up, and pages
/// that are shadowed are not taken in.
pub proof fn law_extra_pages_leave_room(
    before: CacheModel,
    pages: Seq<(PageVersion, Vec<u8>)>,
    i: int,
    page: PageNumber,
    shadowed: Set<PageNumber>,
    after: CacheModel,
)
    requires
        0 <= i < pages.len(),
        before.slots is Some,
        extra_step(before, pages, i, page, shadowed, extra_room(before), after),
        before.counts.extra_pages_evicted_unused < u64::MAX,
    ensures
        ({
            let capacity = before.slots->Some_0.capacity as int;
            let earlier = extras(pages, i, page, shadowed);
            let own = pages[i].0.page;
            &&& own == page || shadowed.contains(own) ==> after == before
            &&& own != page && !shadowed.contains(own) && earlier + 1 >= capacity ==> after.slots
                == before.slots && after.counts.extra_pages_evicted_unused
                == before.counts.extra_pages_evicted_unused + 1
            &&& own != page && !shadowed.contains(own) && earlier + 1 < capacity ==> kept(
                before,
                pages[i].0,
                pages[i].1@.len(),
                false,
                after,
            )
        }),
{
}

/// Pages that are cached for one manifest are never there for another: on the way into
/// another view all of them are given up, and the cache may be used again; on the way into
/// the same view nothing happens.
pub proof fn law_other_view_finds_nothing(
    before: CacheModel,
    pin: PinModel,
    after: CacheModel,
)
    requires
        entered(before, pin, after),
    ensures
        after.slots is Some ==> after.slots->Some_0.manifest == pin.id && after == before,
        before.slots is Some && before.slots->Some_0.manifest == pin.id ==> after == before,
        before.slots is Some && before.slots->Some_0.manifest != pin.id ==> after.slots is None
            && !after.disabled,
        before.slots is None ==> after == before,
{
}

/// A cache that may use nothing gets no slots, and one that is passed by gets none until it
/// is used for another view; slots that are there stay as they are. New slots are empty and of
/// the view.
pub proof fn law_new_slots_are_empty(
    before: CacheModel,
    pin: PinModel,
    limit: CacheCapacity,
    after: CacheModel,
    page: PageNumber,
)
    requires
        prepared(before, pin, limit, after),
    ensures
        after.counts == before.counts,
        limit == CacheCapacity::Fixed(0) || before.disabled || before.slots is Some ==> after == before,
        before.slots is None && after.slots is Some ==> after.slots->Some_0.manifest == pin.id
            && after.slots->Some_0.page_size == pin.metadata.view.size.page_size
            && !after.slots->Some_0.list.held.dom().contains(page),
        !before.disabled && before.slots is None && limit != CacheCapacity::Fixed(0)
            ==> after.disabled == (after.slots is None),
{
}

/// A cache keeps a page where it has room to keep one and the page is whole. A page of another
/// length, or a file that fails, costs every cached page and the cache is passed by.
pub proof fn law_kept_page_is_there(
    before: CacheModel,
    version: PageVersion,
    length: nat,
    used: bool,
    after: CacheModel,
)
    requires
        kept(before, version, length, used, after),
    ensures
        before.slots is None ==> after == before,
        before.slots is Some && before.slots->Some_0.wants(version.page) && length
            != before.slots->Some_0.page_size.value ==> after.slots is None && after.disabled,
        before.slots is Some && before.slots->Some_0.wants(version.page) && after.slots is Some
            ==> after.slots->Some_0.list.held.dom().contains(version.page) && after.slots->Some_0.manifest
            == before.slots->Some_0.manifest,
{
}

/// Pages that have to be fetched are fetched together. A batch leaves none of its stored pages
/// out that is not cached; it goes on until it has two hundred and fifty-six pages, or the
/// pages end, or the next page has to be fetched with a frame that would take the records over
/// sixteen mebibytes.
pub proof fn law_batches_go_on(
    pages: Seq<PageNumber>,
    start: int,
    end: int,
    view: ViewModel,
    slots: Option<SlotsModel>,
    misses: Seq<PageNumber>,
    i: int,
)
    requires
        batch_of(pages, start, end, view, misses),
        batch_filled(pages, start, end, view, slots, misses),
        0 <= start <= i < end,
    ensures
        end - start <= 256,
        record_bytes(view, misses, misses.len() as int) <= 16777216,
        view.pages.dom().contains(pages[i]) && (slots is None
            || !slots->Some_0.list.held.dom().contains(pages[i])) ==> misses.contains(pages[i]),
        end < pages.len() && end - start < 256 ==> {
            let next = pages[end];
            &&& view.pages.dom().contains(next)
            &&& slots is Some ==> !slots->Some_0.list.held.dom().contains(next)
            &&& forall|k: int|
                0 <= k < misses.len() ==> location_of(view, #[trigger] misses[k]).frame.id
                    != location_of(view, next).frame.id
            &&& record_bytes(view, misses, misses.len() as int) + location_of(
                view,
                next,
            ).payload.length.value + 16 > 16777216
        },
{
    lemma_misses(view, slots, pages, start, end, i);
    if end < pages.len() && end - start < 256 {
        let next = pages[end];
        let count = misses.len() as int;
        let longer = misses_of(view, slots, pages, start, end + 1);
        assert(longer == misses.push(next));
        lemma_record_bytes_prefix(view, misses, next, count);
        assert(longer[count] == next);
        assert forall|k: int| 0 <= k < misses.len() implies location_of(
            view,
            #[trigger] misses[k],
        ).frame.id != location_of(view, next).frame.id by {
            if location_of(view, misses[k]).frame.id == location_of(view, next).frame.id {
                assert(view.pages.dom().contains(longer[k]));
                assert(frame_came_before(view, longer, count));
            }
        }
    }
}

proof fn lemma_misses(
    view: ViewModel,
    slots: Option<SlotsModel>,
    pages: Seq<PageNumber>,
    start: int,
    end: int,
    i: int,
)
    requires
        0 <= start <= i < end <= pages.len(),
    ensures
        view.pages.dom().contains(pages[i]) && (slots is None
            || !slots->Some_0.list.held.dom().contains(pages[i])) ==> misses_of(
            view,
            slots,
            pages,
            start,
            end,
        ).contains(pages[i]),
    decreases end - start,
{
    let before = misses_of(view, slots, pages, start, end - 1);
    let all = misses_of(view, slots, pages, start, end);
    if i < end - 1 {
        lemma_misses(view, slots, pages, start, end - 1, i);
        if before.contains(pages[i]) {
            let k = before.index_of(pages[i]);
            assert(all[k] == pages[i]);
        }
    } else if all == before.push(pages[i]) {
        assert(all.last() == pages[i]);
    }
}

} // verus!
