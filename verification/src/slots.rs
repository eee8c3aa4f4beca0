//! Page slots in a scratch file. Slots are used again; the least recently used
//! page gives way. What a slot holds is checked whenever it is read.

use crate::domain::{ManifestId, PageNumber, PageSize};
use crate::error::StoreError;
use crate::fetch;
use crate::frame;
use crate::frame::{PageVersion, matches_version};
use crate::recency::{Held, Recency, RecencyModel};
use vstd::prelude::*;

verus! {

/// A private scratch file. Nothing is assumed of what it gives back.
pub trait SlotFile: Sized {
    /// The size in which the file takes up space.
    fn block_bytes(&self) -> u64;

    /// The space that the file could take up.
    fn available_bytes(&self) -> u64;

    fn set_len(&mut self, length: u64) -> Result<(), StoreError>;

    fn write(&mut self, offset: u64, bytes: &[u8]) -> Result<(), StoreError>;

    fn read(&mut self, offset: u64, length: usize) -> Result<Vec<u8>, StoreError>;

    /// Gives the space of a range back, if that can be done.
    fn punch(&mut self, offset: u64, length: u64) -> Result<(), StoreError>;
}

/// A call of a scratch file, with its reply.
pub enum SlotCall {
    SetLen { length: u64, reply: Result<(), StoreError> },
    Write { offset: u64, bytes: Seq<u8>, reply: Result<(), StoreError> },
    Read { offset: u64, length: usize, reply: Result<Seq<u8>, StoreError> },
    Punch { offset: u64, length: u64, reply: Result<(), StoreError> },
}

pub open spec fn punched(offset: u64, length: u64, reply: Result<(), StoreError>) -> SlotCall {
    SlotCall::Punch { offset, length, reply }
}

pub open spec fn looked_up(offset: u64, length: usize, reply: Result<Seq<u8>, StoreError>) -> SlotCall {
    SlotCall::Read { offset, length, reply }
}

/// Makes scratch files.
pub trait SlotFiles: Sized {
    type File: SlotFile;

    fn create(&mut self) -> Result<Self::File, StoreError>;
}

/// How much a cache did.
#[derive(Clone, Copy, Debug, PartialEq, Eq)]
pub struct DatabaseCacheStats {
    pub hits: u64,
    pub misses: u64,
    /// Pages that were read ahead and then asked for.
    pub extra_pages_requested: u64,
    /// Pages that were read ahead and given up before they were asked for.
    pub extra_pages_evicted_unused: u64,
    pub resident_bytes: u64,
}

impl Default for DatabaseCacheStats {
    fn default() -> (stats: Self)
        ensures
            stats == DatabaseCacheStats::none(),
    {
        DatabaseCacheStats {
            hits: 0,
            misses: 0,
            extra_pages_requested: 0,
            extra_pages_evicted_unused: 0,
            resident_bytes: 0,
        }
    }
}

/// A sum that stops at the greatest value.
pub open spec fn capped(a: u64, b: int) -> u64 {
    if a + b > u64::MAX {
        u64::MAX
    } else {
        (a + b) as u64
    }
}

impl DatabaseCacheStats {
    pub open spec fn none() -> DatabaseCacheStats {
        DatabaseCacheStats {
            hits: 0,
            misses: 0,
            extra_pages_requested: 0,
            extra_pages_evicted_unused: 0,
            resident_bytes: 0,
        }
    }

    /// With so many more pages given up before they were asked for.
    pub open spec fn gave_up(self, count: int) -> DatabaseCacheStats {
        DatabaseCacheStats {
            extra_pages_evicted_unused: capped(self.extra_pages_evicted_unused, count),
            ..self
        }
    }
}

/// One for a page that was never asked for.
pub open spec fn unused(held: Held) -> int {
    if held.used {
        0
    } else {
        1
    }
}

/// Slots of pages.
#[verifier::ext_equal]
pub struct SlotsModel {
    pub manifest: ManifestId,
    pub page_size: PageSize,
    pub stride: u64,
    pub capacity: usize,
    pub allocated: usize,
    pub free: Seq<u64>,
    pub list: RecencyModel,
}

/// An offset is that of an allocated slot.
pub open spec fn is_slot(offset: u64, stride: u64, allocated: usize) -> bool {
    offset as int % stride as int == 0 && offset + stride <= allocated * stride
}

impl SlotsModel {
    /// Every page has a slot of its own, apart from the free ones, and there are
    /// no more pages than slots may be used.
    pub open spec fn wf(self) -> bool {
        &&& self.page_size.wf()
        &&& self.stride > 0
        &&& self.allocated * self.stride <= u64::MAX
        &&& self.list.wf()
        &&& self.list.order.len() <= self.capacity
        &&& self.free.no_duplicates()
        &&& forall|i: int|
            0 <= i < self.free.len() ==> is_slot(#[trigger] self.free[i], self.stride, self.allocated)
        &&& forall|page: PageNumber| #[trigger]
            self.list.held.dom().contains(page) ==> is_slot(
                self.list.held[page].slot,
                self.stride,
                self.allocated,
            ) && !self.free.contains(self.list.held[page].slot)
                && self.list.held[page].version.page == page
        &&& forall|a: PageNumber, b: PageNumber| #[trigger]
            self.list.held.dom().contains(a) && #[trigger] self.list.held.dom().contains(b) && a != b
                ==> self.list.held[a].slot != self.list.held[b].slot
    }

    /// A page has to give way to the next one.
    pub open spec fn is_full(self) -> bool {
        self.list.order.len() == self.capacity
    }

    /// Whether the next page is taken in at all.
    pub open spec fn wants(self, page: PageNumber) -> bool {
        self.capacity != 0 && !self.list.held.dom().contains(page)
    }

    /// The pages that stay when another comes.
    pub open spec fn rest(self) -> RecencyModel {
        if self.is_full() {
            self.list.without(self.list.order.last())
        } else {
            self.list
        }
    }

    /// The next page needs a slot that the file has no room for yet.
    pub open spec fn grows(self) -> bool {
        !self.is_full() && self.free.len() == 0
    }

    /// There can be no other slot.
    pub open spec fn outgrown(self) -> bool {
        (self.allocated + 1) * self.stride > u64::MAX || self.allocated == usize::MAX
    }

    /// What making room for the next page asks of the file.
    pub open spec fn growth(self, reply: Result<(), StoreError>) -> Seq<SlotCall> {
        if self.grows() {
            seq![
                SlotCall::SetLen { length: ((self.allocated + 1) * self.stride) as u64, reply },
            ]
        } else {
            Seq::empty()
        }
    }

    /// The slot that the next page gets.
    pub open spec fn next_slot(self) -> int {
        if self.is_full() {
            self.list.held[self.list.order.last()].slot as int
        } else if self.free.len() > 0 {
            self.free.last() as int
        } else {
            self.allocated * self.stride
        }
    }

    /// The pages given up unused for the next one.
    pub open spec fn losses(self) -> int {
        if self.is_full() {
            unused(self.list.held[self.list.order.last()])
        } else {
            0
        }
    }

    /// Another page was taken in.
    pub open spec fn with(self, version: PageVersion, used: bool) -> SlotsModel {
        SlotsModel {
            list: self.rest().with(
                version.page,
                Held { version, slot: self.next_slot() as u64, used },
            ),
            free: if !self.is_full() && self.free.len() > 0 {
                self.free.drop_last()
            } else {
                self.free
            },
            allocated: if !self.is_full() && self.free.len() == 0 {
                (self.allocated + 1) as usize
            } else {
                self.allocated
            },
            ..self
        }
    }

    /// A held page was invalidated; its slot is free.
    pub open spec fn dropped(self, page: PageNumber) -> SlotsModel {
        SlotsModel {
            list: self.list.without(page),
            free: self.free.push(self.list.held[page].slot),
            ..self
        }
    }

    /// A held page was used.
    pub open spec fn touched(self, page: PageNumber) -> SlotsModel {
        SlotsModel {
            list: self.list.without(page).with(page, Held { used: true, ..self.list.held[page] }),
            ..self
        }
    }
}

/// Different slots do not overlap.
pub proof fn law_slots_apart(model: SlotsModel, a: PageNumber, b: PageNumber)
    requires
        model.wf(),
        model.list.held.dom().contains(a),
        model.list.held.dom().contains(b),
        a != b,
    ensures
        ({
            let x = model.list.held[a].slot;
            let y = model.list.held[b].slot;
            x + model.stride <= y || y + model.stride <= x
        }),
{
    lemma_multiples_apart(
        model.list.held[a].slot as int,
        model.list.held[b].slot as int,
        model.stride as int,
    );
}

proof fn lemma_multiples_apart(x: int, y: int, stride: int)
    requires
        stride > 0,
        x % stride == 0,
        y % stride == 0,
        x != y,
    ensures
        x + stride <= y || y + stride <= x,
{
    let i = x / stride;
    let j = y / stride;
    assert(x == stride * i && y == stride * j) by (nonlinear_arith)
        requires
            stride > 0,
            x % stride == 0,
            y % stride == 0,
            i == x / stride,
            j == y / stride,
    ;
    assert(i != j);
    assert(x + stride <= y || y + stride <= x) by (nonlinear_arith)
        requires
            stride > 0,
            x == stride * i,
            y == stride * j,
            i != j,
    ;
}

proof fn lemma_without(list: RecencyModel, page: PageNumber)
    requires
        list.wf(),
        list.held.dom().contains(page),
    ensures
        list.without(page).wf(),
        list.without(page).order.len() == list.order.len() - 1,
{
    assert(list.order.contains(page));
    let k = list.order.index_of(page);
    assert(0 <= k < list.order.len() && list.order[k] == page) by {
        let j = choose|j: int| 0 <= j < list.order.len() && list.order[j] == page;
        assert(list.order[list.order.index_of(page)] == page);
    }
    let less = list.order.remove(k);
    assert forall|i: int, j: int| 0 <= i < less.len() && 0 <= j < less.len() && i != j implies less[i]
        != less[j] by {
        let a = if i < k {
            i
        } else {
            i + 1
        };
        let b = if j < k {
            j
        } else {
            j + 1
        };
        assert(less[i] == list.order[a] && less[j] == list.order[b]);
    }
    assert forall|p: PageNumber| #[trigger] list.without(page).held.dom().contains(p)
        <==> less.contains(p) by {
        if less.contains(p) {
            let i = choose|i: int| 0 <= i < less.len() && less[i] == p;
            let a = if i < k {
                i
            } else {
                i + 1
            };
            assert(list.order[a] == p);
            assert(list.order.contains(p));
        }
        if list.order.contains(p) && p != page {
            let a = choose|a: int| 0 <= a < list.order.len() && list.order[a] == p;
            let i = if a < k {
                a
            } else {
                a - 1
            };
            assert(less[i] == p);
        }
    }
}

/// Slots of pages in a file.
pub struct Slots<F: SlotFile> {
    file: F,
    manifest: ManifestId,
    page_size: PageSize,
    stride: u64,
    capacity: usize,
    allocated: usize,
    free: Vec<u64>,
    list: Recency,
    log: Ghost<Seq<SlotCall>>,
}

/// How long the slots are and how many there are. A slot takes the fewest whole
/// blocks that hold a page; there are as many as the budget has room for.
pub open spec fn laid_out(
    size: PageSize,
    block: u64,
    budget: u64,
    done: Result<(u64, usize), StoreError>,
) -> bool {
    let blocks = (size.value + block - 1) / (block as int);
    let limit = if budget > i64::MAX {
        i64::MAX as int
    } else {
        budget as int
    };
    done == if block == 0 || blocks * block > u64::MAX || limit / (blocks * block) > usize::MAX {
        Err::<(u64, usize), StoreError>(StoreError::Range)
    } else {
        Ok::<(u64, usize), StoreError>(
            ((blocks * block) as u64, (limit / (blocks * block)) as usize),
        )
    }
}

/// The slots of a file with blocks of some length.
pub open spec fn some_layout(
    size: PageSize,
    budget: u64,
    done: Result<(u64, usize), StoreError>,
) -> bool {
    exists|block: u64| #[trigger] laid_out(size, block, budget, done)
}

/// The slots of pages take up no more than the budget, and hold whole pages.
pub proof fn law_slots_fit(size: PageSize, block: u64, budget: u64, stride: u64, capacity: usize)
    requires
        size.wf(),
        laid_out(size, block, budget, Ok((stride, capacity))),
    ensures
        size.value <= stride < size.value + block,
        stride % block == 0,
        capacity * stride <= budget,
        budget <= i64::MAX ==> budget < (capacity + 1) * stride,
{
    lemma_layout(size.value as int, block as int);
    let limit = if budget > i64::MAX {
        i64::MAX as int
    } else {
        budget as int
    };
    assert(capacity * stride <= limit && limit < (capacity + 1) * stride) by (nonlinear_arith)
        requires
            capacity == limit / (stride as int),
            stride > 0,
    ;
}

proof fn lemma_layout(size: int, block: int)
    requires
        0 < size,
        0 < block,
    ensures
        size <= (size + block - 1) / block * block < size + block,
        (size + block - 1) / block * block % block == 0,
{
    let blocks = (size + block - 1) / block;
    assert(size <= blocks * block < size + block) by (nonlinear_arith)
        requires
            blocks == (size + block - 1) / block,
            0 < size,
            0 < block,
    ;
    vstd::arithmetic::div_mod::lemma_mod_multiples_basic(blocks, block);
}

/// The length and the number of the slots of a file.
pub fn slot_layout(size: PageSize, block: u64, budget: u64) -> (layout: Result<
    (u64, usize),
    StoreError,
>)
    requires
        size.wf(),
    ensures
        laid_out(size, block, budget, layout),
        layout matches Ok((stride, _)) ==> size.value <= stride,
{
    if block == 0 {
        return Err(StoreError::Range);
    }
    let unit: u64 = size.value as u64;
    let blocks: u64 = if unit % block == 0 {
        unit / block
    } else {
        unit / block + 1
    };
    proof {
        assert(blocks == (unit + block - 1) / (block as int)) by (nonlinear_arith)
            requires
                block >= 1,
                unit >= 1,
                unit % block == 0 ==> blocks == unit / block,
                unit % block != 0 ==> blocks == unit / block + 1,
        ;
        lemma_layout(unit as int, block as int);
    }
    let stride: u64 = match blocks.checked_mul(block) {
        Some(stride) => stride,
        None => {
            return Err(StoreError::Range);
        },
    };
    let limit: u64 = if budget > 0x7fff_ffff_ffff_ffff {
        0x7fff_ffff_ffff_ffff
    } else {
        budget
    };
    let count: u64 = limit / stride;
    if count > usize::MAX as u64 {
        return Err(StoreError::Range);
    }
    Ok((stride, count as usize))
}

impl<F: SlotFile> View for Slots<F> {
    type V = SlotsModel;

    closed spec fn view(&self) -> SlotsModel {
        SlotsModel {
            manifest: self.manifest,
            page_size: self.page_size,
            stride: self.stride,
            capacity: self.capacity,
            allocated: self.allocated,
            free: self.free@,
            list: self.list@,
        }
    }
}

impl<F: SlotFile> Slots<F> {
    pub closed spec fn wf(&self) -> bool {
        self.list.wf() && self@.wf()
    }

    pub proof fn lemma_wf(&self)
        requires
            self.wf(),
        ensures
            self@.wf(),
    {
    }

    /// The calls of the file so far.
    pub closed spec fn calls(&self) -> Seq<SlotCall> {
        self.log@
    }

    /// Slots for the pages of a view in a new file.
    pub fn new(file: F, manifest: ManifestId, size: PageSize, budget: u64) -> (slots: Result<
        Self,
        StoreError,
    >)
        requires
            size.wf(),
        ensures
            some_layout(
                size,
                budget,
                match slots {
                    Ok(s) => Ok((s@.stride, s@.capacity)),
                    Err(e) => Err(e),
                },
            ),
            slots matches Ok(s) ==> s.wf() && s@.manifest == manifest && s@.page_size == size
                && s@.list == RecencyModel::none() && s@.free == Seq::<u64>::empty()
                && s@.allocated == 0 && s.calls() == Seq::<SlotCall>::empty(),
    {
        let block: u64 = file.block_bytes();
        let (stride, capacity): (u64, usize) = match slot_layout(size, block, budget) {
            Ok(layout) => layout,
            Err(error) => {
                assert(laid_out(size, block, budget, Err(error)));
                return Err(error);
            },
        };
        let slots = Slots {
            file,
            manifest,
            page_size: size,
            stride,
            capacity,
            allocated: 0,
            free: Vec::new(),
            list: Recency::new(),
            log: Ghost(Seq::empty()),
        };
        proof {
            let model = slots@;
            assert(model.free =~= Seq::<u64>::empty());
            assert(model.list == RecencyModel::none());
            assert(model.list.order.len() == 0);
            assert(0 * model.stride == 0);
            assert(model.allocated * model.stride <= u64::MAX);
            assert(model.wf());
            assert(slots.wf());
            assert(laid_out(size, block, budget, Ok((stride, capacity))));
        }
        Ok(slots)
    }

    pub fn manifest(&self) -> (id: ManifestId)
        ensures
            id == self@.manifest,
    {
        self.manifest
    }

    pub fn capacity(&self) -> (count: usize)
        ensures
            count == self@.capacity,
    {
        self.capacity
    }

    /// The bytes that the slots of held pages take.
    pub fn resident_bytes(&self) -> (bytes: u64)
        requires
            self.wf(),
        ensures
            bytes == capped(0, self@.list.order.len() * self@.stride),
    {
        let count: u64 = self.list.len() as u64;
        match count.checked_mul(self.stride) {
            Some(bytes) => bytes,
            None => u64::MAX,
        }
    }

    /// Whether a page is held.
    pub fn holds(&self, page: PageNumber) -> (held: bool)
        ensures
            held == self@.list.held.dom().contains(page),
    {
        self.list.get(page).is_some()
    }

    /// The held pages, by their numbers.
    pub fn pages(&self) -> (pages: Vec<PageNumber>)
        ensures
            forall|page: PageNumber|
                self@.list.held.dom().contains(page) <==> pages@.contains(page),
            pages@.no_duplicates(),
    {
        self.list.pages()
    }

    /// The number of held pages that were never asked for.
    pub fn count_unused(&self) -> (count: u64)
        ensures
            exists|pages: Seq<PageNumber>| #[trigger]
                names_all(pages, self@.list.held) && count == unused_among(
                    self@.list.held,
                    pages,
                    pages.len() as int,
                ),
    {
        let pages: Vec<PageNumber> = self.list.pages();
        let ghost held = self@.list.held;
        let mut count: u64 = 0;
        let mut i: usize = 0;
        while i < pages.len()
            invariant
                i <= pages@.len(),
                held == self@.list.held,
                forall|page: PageNumber| held.dom().contains(page) <==> pages@.contains(page),
                count == unused_among(held, pages@, i as int),
                count <= i,
            decreases pages.len() - i,
        {
            match self.list.get(pages[i]) {
                Some(one) => {
                    if !one.used {
                        count += 1;
                    }
                },
                None => {
                    assert(pages@.contains(pages@[i as int]));
                },
            }
            i += 1;
        }
        assert(names_all(pages@, held));
        count
    }

    /// Gives a page up. Its slot can be used again even where its space cannot be
    /// given back.
    pub fn invalidate(&mut self, page: PageNumber, stats: &mut DatabaseCacheStats)
        requires
            old(self).wf(),
        ensures
            final(self).wf(),
            if old(self)@.list.held.dom().contains(page) {
                final(self)@ == old(self)@.dropped(page) && *final(stats) == old(stats).gave_up(
                    unused(old(self)@.list.held[page]),
                ) && exists|reply: Result<(), StoreError>|
                    final(self).calls() == old(self).calls().push(
                        #[trigger] punched(
                            old(self)@.list.held[page].slot,
                            old(self)@.stride,
                            reply,
                        ),
                    )
            } else {
                final(self)@ == old(self)@ && *final(stats) == *old(stats) && final(self).calls()
                    == old(self).calls()
            },
    {
        let ghost before = self@;
        if !self.holds(page) {
            return;
        }
        let held: Held = self.list.take(page);
        if !held.used {
            stats.extra_pages_evicted_unused = stats.extra_pages_evicted_unused.saturating_add(1);
        }
        let reply: Result<(), StoreError> = self.file.punch(held.slot, self.stride);
        self.log = Ghost(self.log@.push(punched(held.slot, self.stride, reply)));
        self.free.push(held.slot);
        proof {
            lemma_without(before.list, page);
            assert(self@ =~= before.dropped(page));
            assert(self@.wf()) by {
                let free = self@.free;
                assert forall|i: int, j: int| 0 <= i < free.len() && 0 <= j < free.len() && i != j implies
                    free[i] != free[j] by {
                    if i < before.free.len() {
                        assert(before.free.contains(free[i]));
                    }
                    if j < before.free.len() {
                        assert(before.free.contains(free[j]));
                    }
                }
                assert forall|i: int| 0 <= i < free.len() implies is_slot(
                    #[trigger] free[i],
                    self@.stride,
                    self@.allocated,
                ) by {
                    if i < before.free.len() {
                        assert(free[i] == before.free[i]);
                    } else {
                        assert(before.list.held.dom().contains(page));
                    }
                }
                assert forall|p: PageNumber| #[trigger] self@.list.held.dom().contains(p) implies is_slot(
                    self@.list.held[p].slot,
                    self@.stride,
                    self@.allocated,
                ) && !free.contains(self@.list.held[p].slot) && self@.list.held[p].version.page == p by {
                    assert(before.list.held.dom().contains(p));
                    assert(before.list.held.dom().contains(page));
                    if free.contains(self@.list.held[p].slot) {
                        let i = choose|i: int|
                            0 <= i < free.len() && free[i] == self@.list.held[p].slot;
                        if i < before.free.len() {
                            assert(before.free[i] == self@.list.held[p].slot);
                            assert(before.free.contains(before.list.held[p].slot));
                        }
                    }
                }
                assert forall|a: PageNumber, b: PageNumber| #[trigger]
                    self@.list.held.dom().contains(a) && #[trigger] self@.list.held.dom().contains(b)
                        && a != b implies self@.list.held[a].slot != self@.list.held[b].slot by {
                    assert(before.list.held.dom().contains(a) && before.list.held.dom().contains(b));
                }
            }
        }
    }

    /// Reads a held page. What comes back matches the version that was held; other
    /// contents are refused. The page is the most recent then, and counts as asked
    /// for; whether it did before is said.
    pub fn read(&mut self, page: PageNumber) -> (bytes: Result<Option<(Vec<u8>, bool)>, StoreError>)
        requires
            old(self).wf(),
        ensures
            final(self).wf(),
            match bytes {
                Ok(Some((b, ahead))) => old(self)@.list.held.dom().contains(page) && final(self)@
                    == old(self)@.touched(page) && b@.len() == old(self)@.page_size.value
                    && frame::sound_page(old(self)@.list.held[page].version, b@) && ahead
                    == !old(self)@.list.held[page].used,
                Ok(None) => !old(self)@.list.held.dom().contains(page) && final(self)@ == old(self)@,
                Err(_) => old(self)@.list.held.dom().contains(page) && final(self)@ == old(self)@,
            },
            if old(self)@.list.held.dom().contains(page) {
                exists|reply: Result<Seq<u8>, StoreError>|
                    final(self).calls() == old(self).calls().push(
                        #[trigger] looked_up(
                            old(self)@.list.held[page].slot,
                            old(self)@.page_size.value as usize,
                            reply,
                        ),
                    ) && match reply {
                        Ok(stored) => if stored.len() == old(self)@.page_size.value
                            && frame::sound_page(old(self)@.list.held[page].version, stored) {
                            bytes matches Ok(Some((b, _))) && b@ == stored
                        } else {
                            bytes matches Err(e) && e == StoreError::PageChecksum(page.value)
                        },
                        Err(error) => bytes matches Err(e) && e == error,
                    }
            } else {
                final(self).calls() == old(self).calls()
            },
    {
        let ghost before = self@;
        let held: Held = match self.list.get(page) {
            Some(held) => held,
            None => {
                return Ok(None);
            },
        };
        let reply: Result<Vec<u8>, StoreError> = self.file.read(
            held.slot,
            self.page_size.value as usize,
        );
        let ghost call = looked_up(held.slot, self.page_size.value as usize, fetch::seen(reply));
        self.log = Ghost(self.log@.push(call));
        let bytes: Vec<u8> = reply?;
        if bytes.len() != self.page_size.value as usize || !matches_version(
            &held.version,
            bytes.as_slice(),
        ) {
            return Err(StoreError::PageChecksum(page.value));
        }
        self.list.touch(page);
        proof {
            lemma_without(before.list, page);
            assert(self@ =~= before.touched(page));
            assert(self@.list.held =~= before.list.held.insert(
                page,
                Held { used: true, ..before.list.held[page] },
            ));
            assert(self@.list.order.len() == before.list.order.len());
            assert forall|p: PageNumber| #[trigger] self@.list.held.dom().contains(p) implies
                before.list.held.dom().contains(p) && self@.list.held[p].slot
                == before.list.held[p].slot && self@.list.held[p].version
                == before.list.held[p].version by {}
            assert(self@.wf());
        }
        Ok(Some((bytes, !held.used)))
    }

    /// A slot for the next page.
    fn vacate(&mut self, stats: &mut DatabaseCacheStats) -> (slot: Result<u64, StoreError>)
        requires
            old(self).wf(),
            old(self)@.capacity != 0,
        ensures
            match slot {
                Ok(s) => {
                    let before = old(self)@;
                    &&& s == before.next_slot()
                    &&& !before.is_full() && before.free.len() == 0 ==> s + before.stride
                        <= u64::MAX && before.allocated < usize::MAX
                    &&& *final(stats) == old(stats).gave_up(before.losses())
                    &&& final(self).list.wf()
                    &&& final(self)@.list == before.rest()
                    &&& final(self)@.free == if !before.is_full() && before.free.len() > 0 {
                        before.free.drop_last()
                    } else {
                        before.free
                    }
                    &&& final(self)@.allocated == before.allocated + if !before.is_full()
                        && before.free.len() == 0 {
                        1int
                    } else {
                        0int
                    }
                    &&& final(self)@ == (SlotsModel {
                        list: final(self)@.list,
                        free: final(self)@.free,
                        allocated: final(self)@.allocated,
                        ..before
                    })
                },
                Err(_) => final(self).wf() && final(self)@ == old(self)@ && *final(stats) == *old(stats),
            },
            match slot {
                Ok(_) => final(self).calls() == old(self).calls() + old(self)@.growth(Ok(())),
                Err(e) => old(self)@.grows() && if old(self)@.outgrown() {
                    e == StoreError::Range && final(self).calls() == old(self).calls()
                } else {
                    final(self).calls() == old(self).calls() + old(self)@.growth(Err(e))
                },
            },
    {
        let ghost before = self@;
        assert(self.log@ + Seq::<SlotCall>::empty() =~= self.log@);
        assert((self.allocated + 1) * self.stride == self.allocated * self.stride + self.stride)
            by (nonlinear_arith);
        if self.list.len() == self.capacity {
            let last: PageNumber = match self.list.last() {
                Some(last) => last,
                None => {
                    assert(false);
                    return Err(StoreError::Range);
                },
            };
            assert(before.list.order.contains(before.list.order.last())) by {
                assert(before.list.order[before.list.order.len() - 1] == before.list.order.last());
            }
            let held: Held = self.list.take(last);
            if !held.used {
                stats.extra_pages_evicted_unused = stats.extra_pages_evicted_unused.saturating_add(1);
            }
            return Ok(held.slot);
        }
        if self.free.len() > 0 {
            let slot: u64 = match self.free.pop() {
                Some(slot) => slot,
                None => {
                    assert(false);
                    return Err(StoreError::Range);
                },
            };
            assert(self.free@ =~= before.free.drop_last());
            return Ok(slot);
        }
        let offset: u64 = match (self.allocated as u64).checked_mul(self.stride) {
            Some(offset) => offset,
            None => {
                return Err(StoreError::Range);
            },
        };
        let end: u64 = match offset.checked_add(self.stride) {
            Some(end) => end,
            None => {
                return Err(StoreError::Range);
            },
        };
        let more: usize = match self.allocated.checked_add(1) {
            Some(more) => more,
            None => {
                return Err(StoreError::Range);
            },
        };
        let reply: Result<(), StoreError> = self.file.set_len(end);
        let ghost calls = self.log@;
        self.log = Ghost(self.log@.push(SlotCall::SetLen { length: end, reply }));
        assert(self.log@ =~= calls + before.growth(reply));
        reply?;
        self.allocated = more;
        Ok(offset)
    }

    /// Takes a page in, unless it is held already or there is no room at all.
    /// Where the cache is full, the least recently used page gives way. A page of
    /// another size is refused; the file may fail.
    pub fn insert(
        &mut self,
        version: &PageVersion,
        bytes: &[u8],
        used: bool,
        stats: &mut DatabaseCacheStats,
    ) -> (done: Result<(), StoreError>)
        requires
            old(self).wf(),
        ensures
            ({
                let before = old(self)@;
                if !before.wants(version.page) {
                    done is Ok && final(self).wf() && final(self)@ == before && *final(stats)
                        == *old(stats)
                } else if bytes@.len() != before.page_size.value {
                    done == Err::<(), StoreError>(StoreError::Range) && final(self).wf() && final(self)@ == before && *final(stats) == *old(stats)
                } else {
                    match done {
                        Ok(_) => final(self).wf() && final(self)@ == before.with(*version, used)
                            && *final(stats) == old(stats).gave_up(before.losses()),
                        Err(_) => {
                            ||| final(self)@.list == before.list && *final(stats) == *old(stats)
                            ||| final(self)@.list == before.rest() && *final(stats) == old(stats).gave_up(before.losses())
                        },
                    }
                }
            }),
            ({
                let before = old(self)@;
                let calls = old(self).calls();
                let written = |reply: Result<(), StoreError>|
                    calls + before.growth(Ok(())) + seq![
                        SlotCall::Write { offset: before.next_slot() as u64, bytes: bytes@, reply },
                    ];
                if !before.wants(version.page) || bytes@.len() != before.page_size.value {
                    final(self).calls() == calls
                } else {
                    match done {
                        Ok(_) => final(self).calls() == written(Ok(())),
                        Err(e) => {
                            ||| before.grows() && before.outgrown() && e == StoreError::Range
                                && final(self).calls() == calls
                            ||| before.grows() && final(self).calls() == calls + before.growth(
                                Err(e),
                            )
                            ||| final(self).calls() == written(Err(e))
                        },
                    }
                }
            }),
    {
        let ghost before = self@;
        if self.capacity == 0 || self.holds(version.page) {
            return Ok(());
        }
        if bytes.len() != self.page_size.value as usize {
            return Err(StoreError::Range);
        }
        let slot: u64 = self.vacate(stats)?;
        let reply: Result<(), StoreError> = self.file.write(slot, bytes);
        let ghost calls = self.log@;
        let ghost call = SlotCall::Write { offset: slot, bytes: bytes@, reply };
        self.log = Ghost(self.log@.push(call));
        assert(self.log@ =~= calls + seq![call]);
        reply?;
        proof {
            if before.is_full() {
                let last = before.list.order.last();
                assert(before.list.order[before.list.order.len() - 1] == last);
                assert(before.list.order.contains(last));
                lemma_without(before.list, last);
            }
        }
        self.list.add(version.page, Held { version: *version, slot, used });
        proof {
            assert(self@ =~= before.with(*version, used));
            lemma_inserted(before, *version, used);
        }
        Ok(())
    }
}

/// The pages are those of the map, each once.
pub open spec fn names_all(pages: Seq<PageNumber>, held: Map<PageNumber, Held>) -> bool {
    pages.no_duplicates() && forall|page: PageNumber|
        #![trigger held.dom().contains(page)]
        held.dom().contains(page) <==> pages.contains(page)
}

/// The pages among the first `count` that were never asked for.
pub open spec fn unused_among(held: Map<PageNumber, Held>, pages: Seq<PageNumber>, count: int) -> int
    decreases count,
{
    if count <= 0 {
        0
    } else {
        unused_among(held, pages, count - 1) + unused(held[pages[count - 1]])
    }
}

proof fn lemma_inserted(before: SlotsModel, version: PageVersion, used: bool)
    requires
        before.wf(),
        before.wants(version.page),
        !before.is_full() && before.free.len() == 0 ==> before.next_slot() + before.stride
            <= u64::MAX && before.allocated < usize::MAX,
    ensures
        before.with(version, used).wf(),
{
    let after = before.with(version, used);
    let rest = before.rest();
    let page = version.page;
    let slot = before.next_slot();
    let stride = before.stride as int;
    if before.is_full() {
        let last = before.list.order.last();
        assert(before.list.order[before.list.order.len() - 1] == last);
        assert(before.list.order.contains(last));
        assert(before.list.held.dom().contains(last));
        lemma_without(before.list, last);
    }
    assert((before.allocated + 1) * stride == before.allocated * stride + stride)
        by (nonlinear_arith);
    assert((before.allocated * stride) % stride == 0) by (nonlinear_arith)
        requires
            stride > 0,
    ;
    // The order.
    assert(after.list.order =~= seq![page] + rest.order);
    assert forall|i: int, j: int|
        0 <= i < after.list.order.len() && 0 <= j < after.list.order.len() && i != j implies after.list.order[i]
        != after.list.order[j] by {
        if i > 0 {
            assert(after.list.order[i] == rest.order[i - 1]);
            assert(rest.order.contains(rest.order[i - 1]));
            assert(rest.held.dom().contains(rest.order[i - 1]));
        }
        if j > 0 {
            assert(after.list.order[j] == rest.order[j - 1]);
            assert(rest.order.contains(rest.order[j - 1]));
            assert(rest.held.dom().contains(rest.order[j - 1]));
        }
    }
    assert forall|p: PageNumber| #[trigger] after.list.held.dom().contains(p)
        <==> after.list.order.contains(p) by {
        assert(after.list.order[0] == page);
        if rest.order.contains(p) {
            let k = choose|k: int| 0 <= k < rest.order.len() && rest.order[k] == p;
            assert(after.list.order[k + 1] == p);
        }
        if after.list.order.contains(p) && p != page {
            let k = choose|k: int| 0 <= k < after.list.order.len() && after.list.order[k] == p;
            assert(rest.order[k - 1] == p);
        }
        assert(rest.held.dom().contains(p) <==> rest.order.contains(p));
    }
    // The slots.
    assert forall|s: u64| #[trigger] is_slot(s, before.stride, before.allocated) implies is_slot(
        s,
        after.stride,
        after.allocated,
    ) && (!before.is_full() && before.free.len() == 0 ==> s != slot) by {}
    assert forall|i: int| 0 <= i < after.free.len() implies is_slot(
        #[trigger] after.free[i],
        after.stride,
        after.allocated,
    ) && after.free[i] != slot && before.free.contains(after.free[i]) by {
        assert(after.free[i] == before.free[i]);
        assert(is_slot(before.free[i], before.stride, before.allocated));
        if before.is_full() {
            assert(before.list.held.dom().contains(before.list.order.last()));
        }
    }
    assert(after.free.no_duplicates());
    assert forall|p: PageNumber| #[trigger] rest.held.dom().contains(p) implies
        rest.held[p].slot != slot && rest.held[p] == before.list.held[p] by {
        assert(before.list.held.dom().contains(p));
        if before.is_full() {
            assert(before.list.held.dom().contains(before.list.order.last()));
        } else if before.free.len() > 0 {
            assert(before.free.contains(before.free[before.free.len() - 1]));
        } else {
            assert(is_slot(before.list.held[p].slot, before.stride, before.allocated));
        }
    }
    assert(is_slot(slot as u64, after.stride, after.allocated)) by {
        if before.is_full() {
            assert(before.list.held.dom().contains(before.list.order.last()));
        } else if before.free.len() > 0 {
            assert(is_slot(before.free[before.free.len() - 1], before.stride, before.allocated));
        }
    }
    assert forall|p: PageNumber| #[trigger] after.list.held.dom().contains(p) implies is_slot(
        after.list.held[p].slot,
        after.stride,
        after.allocated,
    ) && !after.free.contains(after.list.held[p].slot) && after.list.held[p].version.page == p by {
        if p == page {
            if after.free.contains(slot as u64) {
                let i = choose|i: int| 0 <= i < after.free.len() && after.free[i] == slot;
                assert(after.free[i] != slot);
            }
        } else {
            assert(rest.held.dom().contains(p));
            assert(before.list.held.dom().contains(p));
            assert(is_slot(before.list.held[p].slot, before.stride, before.allocated));
            if after.free.contains(after.list.held[p].slot) {
                let i = choose|i: int|
                    0 <= i < after.free.len() && after.free[i] == after.list.held[p].slot;
                assert(before.free.contains(after.free[i]));
            }
        }
    }
    assert forall|a: PageNumber, b: PageNumber| #[trigger]
        after.list.held.dom().contains(a) && #[trigger] after.list.held.dom().contains(b) && a
            != b implies after.list.held[a].slot != after.list.held[b].slot by {
        if a != page {
            assert(rest.held.dom().contains(a));
            assert(before.list.held.dom().contains(a));
        }
        if b != page {
            assert(rest.held.dom().contains(b));
            assert(before.list.held.dom().contains(b));
        }
    }
}

/// When another page comes, a page gives way only where every slot that may be used is
/// taken; then it is the one that was used the longest ago, and its slot is taken over.
/// All others stay as they are. The page that came is the most recent one.
pub proof fn law_longest_unused_gives_way(before: SlotsModel, version: PageVersion, used: bool)
    requires
        before.wf(),
        before.capacity > 0,
        !before.list.held.dom().contains(version.page),
    ensures
        ({
            let after = before.with(version, used);
            let full = before.list.order.len() == before.capacity;
            let oldest = before.list.order.last();
            &&& after.list.order[0] == version.page
            &&& after.list.order.skip(1) == if full {
                before.list.order.drop_last()
            } else {
                before.list.order
            }
            &&& after.list.held.dom().contains(version.page)
            &&& after.list.held[version.page].version == version
            &&& after.list.held[version.page].used == used
            &&& forall|page: PageNumber| #[trigger]
                before.list.held.dom().contains(page) && !(full && page == oldest)
                    ==> after.list.held.dom().contains(page) && after.list.held[page]
                    == before.list.held[page]
            &&& full ==> !after.list.held.dom().contains(oldest) && after.list.held[version.page].slot
                == before.list.held[oldest].slot && after.allocated == before.allocated && after.free
                == before.free
            &&& before.losses() == if full && !before.list.held[oldest].used {
                1int
            } else {
                0
            }
        }),
{
    let after = before.with(version, used);
    let order = before.list.order;
    if order.len() == before.capacity {
        let last = (order.len() - 1) as int;
        assert(order.index_of(order.last()) == last) by {
            assert(order[last] == order.last());
            assert(order.contains(order.last()));
        }
        assert(order.remove(last) =~= order.drop_last());
        assert(order.contains(order.last()));
        assert(before.list.held.dom().contains(order.last()));
    }
    assert(after.list.order.skip(1) =~= before.rest().order);
    if !before.is_full() && before.free.len() == 0 {
        assert(before.next_slot() == before.allocated * before.stride);
    }
}

/// A page that is used becomes the most recent one, and counts as used. The order of the
/// others, what is held and where it stands do not change.
pub proof fn law_used_page_is_the_most_recent(before: SlotsModel, page: PageNumber)
    requires
        before.wf(),
        before.list.held.dom().contains(page),
    ensures
        ({
            let after = before.touched(page);
            &&& after.list.order[0] == page
            &&& after.list.order.skip(1) == before.list.order.filter(|p: PageNumber| p != page)
            &&& after.list.held.dom() =~= before.list.held.dom()
            &&& after.list.held[page].used
            &&& after.list.held[page].slot == before.list.held[page].slot
            &&& after.list.held[page].version == before.list.held[page].version
            &&& forall|other: PageNumber| other != page ==> #[trigger] after.list.held[other]
                == before.list.held[other]
            &&& after.free == before.free
            &&& after.allocated == before.allocated
        }),
{
    let order = before.list.order;
    let after = before.touched(page);
    assert(order.contains(page));
    let at = order.index_of(page);
    assert(0 <= at < order.len() && order[at] == page);
    lemma_removed_is_filtered(order, page, at);
    assert(after.list.order.skip(1) =~= order.remove(at));
}

proof fn lemma_removed_is_filtered(order: Seq<PageNumber>, page: PageNumber, at: int)
    requires
        order.no_duplicates(),
        0 <= at < order.len(),
        order[at] == page,
    ensures
        order.remove(at) == order.filter(|p: PageNumber| p != page),
    decreases order.len(),
{
    let pick = |p: PageNumber| p != page;
    reveal_with_fuel(Seq::filter, 1);
    let rest = order.drop_last();
    if at == order.len() - 1 {
        assert(order.remove(at) =~= rest);
        assert forall|i: int| 0 <= i < rest.len() implies pick(#[trigger] rest[i]) by {
            assert(rest[i] == order[i]);
        }
        lemma_all_picked(rest, pick);
    } else {
        assert(rest[at] == page);
        lemma_removed_is_filtered(rest, page, at);
        assert(order.remove(at) =~= rest.remove(at).push(order.last()));
        assert(order.last() != page);
    }
}

proof fn lemma_all_picked(list: Seq<PageNumber>, pick: spec_fn(PageNumber) -> bool)
    requires
        forall|i: int| 0 <= i < list.len() ==> pick(#[trigger] list[i]),
    ensures
        list.filter(pick) == list,
    decreases list.len(),
{
    reveal_with_fuel(Seq::filter, 1);
    if list.len() > 0 {
        let rest = list.drop_last();
        assert forall|i: int| 0 <= i < rest.len() implies pick(#[trigger] rest[i]) by {
            assert(rest[i] == list[i]);
        }
        lemma_all_picked(rest, pick);
        assert(rest.push(list.last()) =~= list);
    } else {
        assert(list.filter(pick) =~= list);
    }
}

/// A page that is invalidated is gone, its slot is free, and every other page stays in
/// its slot.
pub proof fn law_invalidated_page_is_gone(before: SlotsModel, page: PageNumber)
    requires
        before.wf(),
        before.list.held.dom().contains(page),
    ensures
        ({
            let after = before.dropped(page);
            &&& after.list.held.dom() =~= before.list.held.dom().remove(page)
            &&& forall|other: PageNumber| other != page ==> #[trigger] after.list.held[other]
                == before.list.held[other]
            &&& after.list.order.len() == before.list.order.len() - 1
            &&& after.free.contains(before.list.held[page].slot)
            &&& after.free.len() == before.free.len() + 1
        }),
{
    let order = before.list.order;
    assert(order.contains(page));
    let at = order.index_of(page);
    assert(0 <= at < order.len());
    let after = before.dropped(page);
    assert(after.free[before.free.len() as int] == before.list.held[page].slot);
}

/// The pages that count as given up unused are those that were held and never asked for.
pub proof fn law_given_up_unused(held: Map<PageNumber, Held>, pages: Seq<PageNumber>, count: int)
    requires
        0 <= count <= pages.len(),
    ensures
        unused_among(held, pages, count) == pages.take(count).filter(
            |page: PageNumber| !held[page].used,
        ).len(),
    decreases count,
{
    let pick = |page: PageNumber| !held[page].used;
    reveal_with_fuel(Seq::filter, 1);
    if count > 0 {
        law_given_up_unused(held, pages, count - 1);
        assert(pages.take(count).drop_last() =~= pages.take(count - 1));
    } else {
        assert(pages.take(count) =~= Seq::<PageNumber>::empty());
    }
}

} // verus!
