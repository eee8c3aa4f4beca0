//! Cached pages by how recently they were used: a doubly linked list through a
//! map, so that any page can be taken out of the middle.

use crate::domain::PageNumber;
use crate::frame::PageVersion;
use crate::order;
use crate::order::{Key, OrderedMap};
use vstd::prelude::*;

verus! {

/// What is known of a cached page: its version, where its slot starts, and
/// whether it was asked for.
#[derive(Clone, Copy, Debug, PartialEq, Eq)]
pub struct Held {
    pub version: PageVersion,
    pub slot: u64,
    pub used: bool,
}

/// A cached page with its neighbours.
#[derive(Clone, Copy, Debug, PartialEq, Eq)]
pub struct Entry {
    held: Held,
    previous: Option<PageNumber>,
    next: Option<PageNumber>,
}

impl View for Entry {
    type V = Entry;

    closed spec fn view(&self) -> Entry {
        *self
    }
}

/// The neighbour before place `i`.
spec fn before(order: Seq<PageNumber>, i: int) -> Option<PageNumber> {
    if i <= 0 {
        None
    } else {
        Some(order[i - 1])
    }
}

/// The neighbour behind place `i`.
spec fn behind(order: Seq<PageNumber>, i: int) -> Option<PageNumber> {
    if i >= order.len() - 1 {
        None
    } else {
        Some(order[i + 1])
    }
}

/// The entries are linked in this order.
spec fn linked(
    entries: Map<PageNumber, Entry>,
    order: Seq<PageNumber>,
    newest: Option<PageNumber>,
    oldest: Option<PageNumber>,
) -> bool {
    &&& order.no_duplicates()
    &&& forall|i: int|
        0 <= i < order.len() ==> entries.dom().contains(#[trigger] order[i])
            && entries[order[i]].previous == before(order, i) && entries[order[i]].next == behind(
            order,
            i,
        )
    &&& newest == behind(order, -1)
    &&& oldest == before(order, order.len() as int)
}

/// What is known of the pages, without their links.
spec fn facts(entries: Map<PageNumber, Entry>) -> Map<PageNumber, Held> {
    Map::new(|page: PageNumber| entries.dom().contains(page), |page: PageNumber| entries[page].held)
}

/// The cached pages by how recently they were used.
#[verifier::ext_equal]
pub struct RecencyModel {
    /// The most recently used page comes first.
    pub order: Seq<PageNumber>,
    pub held: Map<PageNumber, Held>,
}

impl RecencyModel {
    pub open spec fn none() -> RecencyModel {
        RecencyModel { order: Seq::empty(), held: Map::empty() }
    }

    /// The pages in the order are those that are held, each once.
    pub open spec fn wf(self) -> bool {
        &&& self.order.no_duplicates()
        &&& forall|page: PageNumber| #[trigger]
            self.held.dom().contains(page) <==> self.order.contains(page)
    }

    /// Without a page.
    pub open spec fn without(self, page: PageNumber) -> RecencyModel {
        RecencyModel {
            order: self.order.remove(self.order.index_of(page)),
            held: self.held.remove(page),
        }
    }

    /// With a page that was not held as the most recent.
    pub open spec fn with(self, page: PageNumber, held: Held) -> RecencyModel {
        RecencyModel { order: seq![page] + self.order, held: self.held.insert(page, held) }
    }
}

/// Cached pages by how recently they were used.
pub struct Recency {
    entries: OrderedMap<PageNumber, Entry>,
    newest: Option<PageNumber>,
    oldest: Option<PageNumber>,
    order: Ghost<Seq<PageNumber>>,
}

impl View for Recency {
    type V = RecencyModel;

    closed spec fn view(&self) -> RecencyModel {
        RecencyModel { order: self.order@, held: facts(self.entries@) }
    }
}

proof fn lemma_place(order: Seq<PageNumber>, page: PageNumber) -> (k: int)
    requires
        order.contains(page),
    ensures
        k == order.index_of(page),
        0 <= k < order.len(),
        order[k] == page,
{
    let k = choose|k: int| 0 <= k < order.len() && order[k] == page;
    assert(order[order.index_of(page)] == page);
    order.index_of(page)
}

proof fn lemma_removed(order: Seq<PageNumber>, k: int)
    requires
        order.no_duplicates(),
        0 <= k < order.len(),
    ensures
        order.remove(k).no_duplicates(),
        forall|page: PageNumber| #[trigger]
            order.remove(k).contains(page) <==> order.contains(page) && page != order[k],
{
    let less = order.remove(k);
    assert forall|i: int, j: int| 0 <= i < less.len() && 0 <= j < less.len() && i != j implies less[i]
        != less[j] by {
        let a = if i < k {
            i
        } else {
            i + 1
        };
        let b = if j < k {
            j
        } else {
            j + 1
        };
        assert(less[i] == order[a] && less[j] == order[b]);
    }
    assert forall|page: PageNumber| #[trigger] less.contains(page) <==> order.contains(page)
        && page != order[k] by {
        if less.contains(page) {
            let i = choose|i: int| 0 <= i < less.len() && less[i] == page;
            let a = if i < k {
                i
            } else {
                i + 1
            };
            assert(order[a] == page);
        }
        if order.contains(page) && page != order[k] {
            let a = choose|a: int| 0 <= a < order.len() && order[a] == page;
            let i = if a < k {
                a
            } else {
                a - 1
            };
            assert(less[i] == page);
        }
    }
}

impl Recency {
    /// The links follow the order, in which every page stands once.
    pub closed spec fn wf(&self) -> bool {
        linked(self.entries@, self.order@, self.newest, self.oldest) && self@.wf()
    }

    pub fn new() -> (list: Self)
        ensures
            list.wf(),
            list@ == RecencyModel::none(),
    {
        let list = Recency {
            entries: OrderedMap::new(),
            newest: None,
            oldest: None,
            order: Ghost(Seq::empty()),
        };
        proof {
            assert(list@.held =~= Map::<PageNumber, Held>::empty());
            assert(list@ =~= RecencyModel::none());
        }
        list
    }

    /// The number of pages.
    pub fn len(&self) -> (count: usize)
        requires
            self.wf(),
        ensures
            count == self@.order.len(),
    {
        let count: usize = self.entries.len();
        proof {
            let list = self.entries.pairs();
            let keys = Seq::new(list.len(), |i: int| list[i].0);
            order::lemma_walk::<PageNumber, Entry>(list, self.entries@);
            assert(keys.no_duplicates()) by {
                assert forall|i: int, j: int| 0 <= i < j < keys.len() implies keys[i] != keys[j] by {
                    assert(PageNumber::precedes(list[i].0, list[j].0));
                }
            }
            keys.unique_seq_to_set();
            self.order@.unique_seq_to_set();
            assert(keys.to_set() =~= self.order@.to_set()) by {
                assert forall|page: PageNumber| keys.to_set().contains(page)
                    == self.order@.to_set().contains(page) by {
                    assert(self@.held.dom().contains(page) <==> self.order@.contains(page));
                    if keys.contains(page) {
                        let i = choose|i: int| 0 <= i < keys.len() && keys[i] == page;
                        assert(self.entries@.dom().contains(list[i].0));
                    }
                    if self.entries@.dom().contains(page) {
                        let i = choose|i: int| 0 <= i < list.len() && (#[trigger] list[i]).0 == page;
                        assert(keys[i] == page);
                    }
                }
            }
        }
        count
    }

    /// What is known of a page.
    pub fn get(&self, page: PageNumber) -> (held: Option<Held>)
        ensures
            match held {
                Some(h) => self@.held.dom().contains(page) && h == self@.held[page],
                None => !self@.held.dom().contains(page),
            },
    {
        match self.entries.get(&page) {
            Some(entry) => Some(entry.held),
            None => None,
        }
    }

    /// The least recently used page.
    pub fn last(&self) -> (page: Option<PageNumber>)
        requires
            self.wf(),
        ensures
            page == if self@.order.len() == 0 {
                None
            } else {
                Some(self@.order.last())
            },
    {
        self.oldest
    }

    fn entry(&self, page: PageNumber) -> (entry: Entry)
        requires
            self.entries@.dom().contains(page),
        ensures
            entry == self.entries@[page],
    {
        match self.entries.get(&page) {
            Some(entry) => *entry,
            None => {
                assert(false);
                vstd::pervasive::unreached()
            },
        }
    }

    /// Takes a page out of the links, though not out of the map.
    #[verifier::rlimit(40)]
    fn unlink(&mut self, page: PageNumber)
        requires
            linked(old(self).entries@, old(self).order@, old(self).newest, old(self).oldest),
            old(self).order@.contains(page),
        ensures
            linked(final(self).entries@, final(self).order@, final(self).newest, final(self).oldest),
            final(self).order@ == old(self).order@.remove(old(self).order@.index_of(page)),
            final(self).entries@.dom() == old(self).entries@.dom(),
            facts(final(self).entries@) == facts(old(self).entries@),
    {
        let ghost order = self.order@;
        let ghost first = self.entries@;
        let ghost k = lemma_place(order, page);
        let entry: Entry = self.entry(page);
        match entry.previous {
            Some(previous) => {
                assert(previous == order[k - 1]);
                let neighbour: Entry = self.entry(previous);
                self.entries.insert(
                    previous,
                    Entry { held: neighbour.held, previous: neighbour.previous, next: entry.next },
                );
            },
            None => {
                self.newest = entry.next;
            },
        }
        let ghost middle = self.entries@;
        match entry.next {
            Some(next) => {
                assert(next == order[k + 1]);
                let neighbour: Entry = self.entry(next);
                self.entries.insert(
                    next,
                    Entry {
                        held: neighbour.held,
                        previous: entry.previous,
                        next: neighbour.next,
                    },
                );
            },
            None => {
                self.oldest = entry.previous;
            },
        }
        let ghost less = order.remove(k);
        self.order = Ghost(less);
        proof {
            lemma_removed(order, k);
            let last = self.entries@;
            assert forall|i: int| 0 <= i < less.len() implies last.dom().contains(
                #[trigger] less[i],
            ) && last[less[i]].previous == before(less, i) && last[less[i]].next == behind(less, i) by {
                let a = if i < k {
                    i
                } else {
                    i + 1
                };
                assert(less[i] == order[a]);
                assert(first.dom().contains(order[a]));
                if i > 0 {
                    let b = if i - 1 < k {
                        i - 1
                    } else {
                        i
                    };
                    assert(less[i - 1] == order[b]);
                }
                if i < less.len() - 1 {
                    let c = if i + 1 < k {
                        i + 1
                    } else {
                        i + 2
                    };
                    assert(less[i + 1] == order[c]);
                }
                if a != k - 1 && k > 0 {
                    assert(order[a] != order[k - 1]);
                }
                if a != k + 1 && k + 1 < order.len() {
                    assert(order[a] != order[k + 1]);
                }
            }
            assert(last.dom() =~= first.dom());
            assert(facts(last) =~= facts(first));
        }
    }

    /// Puts a page that is not linked in front.
    fn promote(&mut self, page: PageNumber)
        requires
            linked(old(self).entries@, old(self).order@, old(self).newest, old(self).oldest),
            !old(self).order@.contains(page),
            old(self).entries@.dom().contains(page),
        ensures
            linked(final(self).entries@, final(self).order@, final(self).newest, final(self).oldest),
            final(self).order@ == seq![page] + old(self).order@,
            final(self).entries@.dom() == old(self).entries@.dom(),
            facts(final(self).entries@) == facts(old(self).entries@),
    {
        let ghost order = self.order@;
        let ghost first = self.entries@;
        let entry: Entry = self.entry(page);
        self.entries.insert(page, Entry { held: entry.held, previous: None, next: self.newest });
        match self.newest {
            Some(newest) => {
                assert(newest == order[0]);
                let neighbour: Entry = self.entry(newest);
                self.entries.insert(
                    newest,
                    Entry { held: neighbour.held, previous: Some(page), next: neighbour.next },
                );
            },
            None => {
                self.oldest = Some(page);
            },
        }
        self.newest = Some(page);
        let ghost more = seq![page] + order;
        self.order = Ghost(more);
        proof {
            let last = self.entries@;
            assert(more.no_duplicates()) by {
                assert forall|i: int, j: int| 0 <= i < more.len() && 0 <= j < more.len() && i != j implies
                    more[i] != more[j] by {
                    if i > 0 {
                        assert(more[i] == order[i - 1]);
                        assert(order.contains(order[i - 1]));
                    }
                    if j > 0 {
                        assert(more[j] == order[j - 1]);
                        assert(order.contains(order[j - 1]));
                    }
                }
            }
            assert forall|i: int| 0 <= i < more.len() implies last.dom().contains(
                #[trigger] more[i],
            ) && last[more[i]].previous == before(more, i) && last[more[i]].next == behind(more, i) by {
                if i > 0 {
                    assert(more[i] == order[i - 1]);
                    assert(first.dom().contains(order[i - 1]));
                    assert(order.contains(order[i - 1]));
                    if i > 1 {
                        assert(order[i - 1] != order[0]);
                    }
                }
            }
            assert(last.dom() =~= first.dom());
            assert(facts(last) =~= facts(first));
        }
    }

    /// Notes that a held page was used.
    pub fn touch(&mut self, page: PageNumber)
        requires
            old(self).wf(),
            old(self)@.held.dom().contains(page),
        ensures
            final(self).wf(),
            final(self)@.wf(),
            final(self)@ == old(self)@.without(page).with(
                page,
                Held { used: true, ..old(self)@.held[page] },
            ),
    {
        let ghost start = self@;
        assert(start.order.contains(page));
        self.unlink(page);
        proof {
            let k = lemma_place(start.order, page);
            lemma_removed(start.order, k);
        }
        self.promote(page);
        let entry: Entry = self.entry(page);
        let ghost middle = self.entries@;
        let held: Held = Held { version: entry.held.version, slot: entry.held.slot, used: true };
        self.entries.insert(page, Entry { held, previous: entry.previous, next: entry.next });
        proof {
            let last = self.entries@;
            assert(last.dom() =~= middle.dom());
            assert(linked(last, self.order@, self.newest, self.oldest));
            assert(self@.held =~= start.held.remove(page).insert(page, held));
            assert(self@ =~= start.without(page).with(page, held));
            assert(self@.wf()) by {
                lemma_added(start.without(page), page, held);
            }
        }
    }

    /// Takes a held page out.
    pub fn take(&mut self, page: PageNumber) -> (held: Held)
        requires
            old(self).wf(),
            old(self)@.held.dom().contains(page),
        ensures
            final(self).wf(),
            final(self)@.wf(),
            final(self)@ == old(self)@.without(page),
            held == old(self)@.held[page],
    {
        let ghost start = self@;
        assert(start.order.contains(page));
        let entry: Entry = self.entry(page);
        self.unlink(page);
        let ghost middle = self.entries@;
        self.entries.remove(&page);
        proof {
            let k = lemma_place(start.order, page);
            lemma_removed(start.order, k);
            let last = self.entries@;
            assert(self@.held =~= start.held.remove(page));
            assert(self@ =~= start.without(page));
            assert(linked(last, self.order@, self.newest, self.oldest)) by {
                assert forall|i: int| 0 <= i < self.order@.len() implies last.dom().contains(
                    #[trigger] self.order@[i],
                ) && last[self.order@[i]].previous == before(self.order@, i)
                    && last[self.order@[i]].next == behind(self.order@, i) by {
                    assert(self.order@.contains(self.order@[i]));
                }
            }
        }
        entry.held
    }

    /// Takes in a page that is not held, as the most recent.
    pub fn add(&mut self, page: PageNumber, held: Held)
        requires
            old(self).wf(),
            !old(self)@.held.dom().contains(page),
        ensures
            final(self).wf(),
            final(self)@.wf(),
            final(self)@ == old(self)@.with(page, held),
    {
        let ghost start = self@;
        let ghost first = self.entries@;
        self.entries.insert(page, Entry { held, previous: None, next: None });
        proof {
            assert(!start.order.contains(page));
            assert(linked(self.entries@, self.order@, self.newest, self.oldest)) by {
                assert forall|i: int| 0 <= i < self.order@.len() implies self.entries@.dom().contains(
                    #[trigger] self.order@[i],
                ) && self.entries@[self.order@[i]].previous == before(self.order@, i)
                    && self.entries@[self.order@[i]].next == behind(self.order@, i) by {
                    assert(self.order@.contains(self.order@[i]));
                    assert(first.dom().contains(self.order@[i]));
                }
            }
        }
        self.promote(page);
        proof {
            assert(self@.held =~= start.held.insert(page, held));
            assert(self@ =~= start.with(page, held));
            lemma_added(start, page, held);
        }
    }

    /// The held pages, by their numbers.
    pub fn pages(&self) -> (pages: Vec<PageNumber>)
        ensures
            forall|page: PageNumber| self@.held.dom().contains(page) <==> pages@.contains(page),
            pages@.no_duplicates(),
    {
        let count: usize = self.entries.len();
        let ghost list = self.entries.pairs();
        let mut pages: Vec<PageNumber> = Vec::new();
        let mut i: usize = 0;
        proof {
            order::lemma_walk::<PageNumber, Entry>(list, self.entries@);
        }
        while i < count
            invariant
                i <= count,
                count == list.len(),
                list == self.entries.pairs(),
                pages@.len() == i,
                forall|j: int| 0 <= j < i ==> #[trigger] pages@[j] == list[j].0,
            decreases count - i,
        {
            pages.push(*self.entries.key_at(i));
            i += 1;
        }
        proof {
            assert forall|page: PageNumber| self@.held.dom().contains(page) <==> pages@.contains(
                page,
            ) by {
                if self.entries@.dom().contains(page) {
                    let j = choose|j: int| 0 <= j < list.len() && (#[trigger] list[j]).0 == page;
                    assert(pages@[j] == page);
                }
                if pages@.contains(page) {
                    let j = choose|j: int| 0 <= j < pages@.len() && pages@[j] == page;
                    assert(self.entries@.dom().contains(list[j].0));
                }
            }
            assert forall|a: int, b: int| 0 <= a < pages@.len() && 0 <= b < pages@.len() && a != b implies
                pages@[a] != pages@[b] by {
                if a < b {
                    assert(PageNumber::precedes(list[a].0, list[b].0));
                } else {
                    assert(PageNumber::precedes(list[b].0, list[a].0));
                }
            }
        }
        pages
    }
}

proof fn lemma_added(model: RecencyModel, page: PageNumber, held: Held)
    requires
        model.wf(),
        !model.held.dom().contains(page),
    ensures
        model.with(page, held).wf(),
{
    let more = model.with(page, held);
    assert forall|i: int, j: int| 0 <= i < more.order.len() && 0 <= j < more.order.len() && i != j implies
        more.order[i] != more.order[j] by {
        if i > 0 {
            assert(more.order[i] == model.order[i - 1]);
            assert(model.order.contains(model.order[i - 1]));
        }
        if j > 0 {
            assert(more.order[j] == model.order[j - 1]);
            assert(model.order.contains(model.order[j - 1]));
        }
    }
    assert forall|p: PageNumber| #[trigger] more.held.dom().contains(p) <==> more.order.contains(p) by {
        assert(more.order[0] == page);
        if model.order.contains(p) {
            let k = choose|k: int| 0 <= k < model.order.len() && model.order[k] == p;
            assert(more.order[k + 1] == p);
        }
        if more.order.contains(p) && p != page {
            let k = choose|k: int| 0 <= k < more.order.len() && more.order[k] == p;
            assert(model.order[k - 1] == p);
        }
    }
}

} // verus!
