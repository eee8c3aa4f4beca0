//! Stable orderings of slices.

use vstd::prelude::*;

verus! {

/// Items that can be put in order.
pub trait Ranked: Sized {
    spec fn at_most(a: Self, b: Self) -> bool;

    proof fn lemma_total(a: Self, b: Self)
        ensures
            Self::at_most(a, b) || Self::at_most(b, a),
    ;

    proof fn lemma_transitive(a: Self, b: Self, c: Self)
        requires
            Self::at_most(a, b),
            Self::at_most(b, c),
        ensures
            Self::at_most(a, c),
    ;

    fn not_above(&self, other: &Self) -> (least: bool)
        ensures
            least == Self::at_most(*self, *other),
    ;
}

/// `order` names the places of the first `count` items, each once.
pub open spec fn covers(order: Seq<usize>, count: int) -> bool {
    &&& order.len() == count
    &&& forall|i: int| 0 <= i < order.len() ==> (#[trigger] order[i]) < count
    &&& forall|i: int, j: int| 0 <= i < j < order.len() ==> #[trigger] order[i] != #[trigger] order[j]
    &&& forall|p: int| 0 <= p < count ==> order.contains(#[trigger] place(p))
}

/// A place as an index.
pub open spec fn place(p: int) -> usize {
    p as usize
}

/// Items ascend along `order`, and equal items stay in their order.
pub open spec fn ascends<T: Ranked>(items: Seq<T>, order: Seq<usize>) -> bool {
    &&& forall|i: int, j: int|
        0 <= i < j < order.len() ==> T::at_most(
            items[#[trigger] order[i] as int],
            items[#[trigger] order[j] as int],
        )
    &&& forall|i: int, j: int|
        0 <= i < j < order.len() && T::at_most(
            items[#[trigger] order[j] as int],
            items[#[trigger] order[i] as int],
        ) ==> order[i] < order[j]
}

/// The first place of `order` whose item is above `item`.
fn upper_bound<T: Ranked>(items: &[T], order: &Vec<usize>, item: usize) -> (at: usize)
    requires
        item < items@.len(),
        forall|i: int| 0 <= i < order@.len() ==> (#[trigger] order@[i]) < items@.len(),
        forall|i: int, j: int|
            0 <= i < j < order@.len() ==> T::at_most(
                items@[#[trigger] order@[i] as int],
                items@[#[trigger] order@[j] as int],
            ),
    ensures
        at <= order@.len(),
        forall|i: int|
            0 <= i < at ==> T::at_most(items@[#[trigger] order@[i] as int], items@[item as int]),
        forall|i: int|
            at <= i < order@.len() ==> !T::at_most(
                items@[#[trigger] order@[i] as int],
                items@[item as int],
            ),
{
    let mut low: usize = 0;
    let mut high: usize = order.len();
    while low < high
        invariant
            low <= high <= order@.len(),
            item < items@.len(),
            forall|i: int| 0 <= i < order@.len() ==> (#[trigger] order@[i]) < items@.len(),
            forall|i: int, j: int|
                0 <= i < j < order@.len() ==> T::at_most(
                    items@[#[trigger] order@[i] as int],
                    items@[#[trigger] order@[j] as int],
                ),
            forall|i: int|
                0 <= i < low ==> T::at_most(
                    items@[#[trigger] order@[i] as int],
                    items@[item as int],
                ),
            forall|i: int|
                high <= i < order@.len() ==> !T::at_most(
                    items@[#[trigger] order@[i] as int],
                    items@[item as int],
                ),
        decreases high - low,
    {
        let middle: usize = low + (high - low) / 2;
        if items[order[middle]].not_above(&items[item]) {
            proof {
                assert forall|i: int| 0 <= i <= middle implies T::at_most(
                    items@[#[trigger] order@[i] as int],
                    items@[item as int],
                ) by {
                    if i < middle {
                        T::lemma_transitive(
                            items@[order@[i] as int],
                            items@[order@[middle as int] as int],
                            items@[item as int],
                        );
                    }
                }
            }
            low = middle + 1;
        } else {
            proof {
                assert forall|i: int| middle <= i < order@.len() implies !T::at_most(
                    items@[#[trigger] order@[i] as int],
                    items@[item as int],
                ) by {
                    if i > middle && T::at_most(items@[order@[i] as int], items@[item as int]) {
                        T::lemma_transitive(
                            items@[order@[middle as int] as int],
                            items@[order@[i] as int],
                            items@[item as int],
                        );
                    }
                }
            }
            high = middle;
        }
    }
    low
}

/// An item that was put in its place among those before it.
proof fn lemma_inserted<T: Ranked>(items: Seq<T>, before: Seq<usize>, at: int, i: usize)
    requires
        i < items.len(),
        covers(before, i as int),
        ascends(items, before),
        0 <= at <= before.len(),
        forall|k: int|
            0 <= k < at ==> T::at_most(items[#[trigger] before[k] as int], items[i as int]),
        forall|k: int|
            at <= k < before.len() ==> !T::at_most(
                items[#[trigger] before[k] as int],
                items[i as int],
            ),
    ensures
        covers(before.insert(at, i), i + 1),
        ascends(items, before.insert(at, i)),
{
    let after = before.insert(at, i);
    assert forall|p: int| 0 <= p < i + 1 implies after.contains(#[trigger] place(p)) by {
        if p == i {
            assert(after[at] == place(p));
        } else {
            assert(before.contains(place(p)));
            let j = choose|j: int| 0 <= j < before.len() && before[j] == place(p);
            if j < at {
                assert(after[j] == place(p));
            } else {
                assert(after[j + 1] == place(p));
            }
        }
    }
    assert forall|a: int, b: int| 0 <= a < b < after.len() implies #[trigger] after[a]
        != #[trigger] after[b] && T::at_most(
        items[after[a] as int],
        items[after[b] as int],
    ) && (T::at_most(items[after[b] as int], items[after[a] as int]) ==> after[a]
        < after[b]) by {
        let sa = if a < at { a } else { a - 1 };
        let sb = if b < at { b } else { b - 1 };
        if a == at {
            assert(after[b] == before[sb]);
            T::lemma_total(items[before[sb] as int], items[i as int]);
        } else if b == at {
            assert(after[a] == before[sa]);
        } else {
            assert(after[a] == before[sa]);
            assert(after[b] == before[sb]);
        }
    }
    assert forall|a: int| 0 <= a < after.len() implies (#[trigger] after[a]) < i + 1 by {
        if a < at {
            assert(after[a] == before[a]);
        } else if a > at {
            assert(after[a] == before[a - 1]);
        }
    }
}

/// Where an item goes among some that ascend.
proof fn lemma_split<T: Ranked>(items: Seq<T>, order: Seq<usize>, item: int) -> (at: int)
    requires
        ascends(items, order),
    ensures
        0 <= at <= order.len(),
        forall|k: int| 0 <= k < at ==> T::at_most(items[#[trigger] order[k] as int], items[item]),
        forall|k: int|
            at <= k < order.len() ==> !T::at_most(items[#[trigger] order[k] as int], items[item]),
    decreases order.len(),
{
    if order.len() == 0 {
        0
    } else {
        let last = order.len() - 1;
        if T::at_most(items[order[last] as int], items[item]) {
            assert forall|k: int| 0 <= k < order.len() implies T::at_most(
                items[#[trigger] order[k] as int],
                items[item],
            ) by {
                if k < last {
                    T::lemma_transitive(
                        items[order[k] as int],
                        items[order[last] as int],
                        items[item],
                    );
                }
            }
            order.len() as int
        } else {
            let less = order.drop_last();
            assert forall|k: int| 0 <= k < less.len() implies #[trigger] less[k] == order[k] by {}
            assert(ascends(items, less)) by {
                assert forall|i: int, j: int| 0 <= i < j < less.len() implies T::at_most(
                    items[#[trigger] less[i] as int],
                    items[#[trigger] less[j] as int],
                ) && (T::at_most(items[less[j] as int], items[less[i] as int]) ==> less[i] < less[j]) by {
                    assert(T::at_most(items[order[i] as int], items[order[j] as int]));
                }
            }
            let at = lemma_split(items, less, item);
            assert forall|k: int| 0 <= k < at implies T::at_most(
                items[#[trigger] order[k] as int],
                items[item],
            ) by {
                assert(T::at_most(items[less[k] as int], items[item]));
            }
            assert forall|k: int| at <= k < order.len() implies !T::at_most(
                items[#[trigger] order[k] as int],
                items[item],
            ) by {
                if k < last {
                    assert(!T::at_most(items[less[k] as int], items[item]));
                }
            }
            at
        }
    }
}

proof fn lemma_order_to<T: Ranked>(items: Seq<T>, count: int) -> (order: Seq<usize>)
    requires
        0 <= count <= items.len() <= usize::MAX,
    ensures
        covers(order, count),
        ascends(items, order),
    decreases count,
{
    if count == 0 {
        Seq::empty()
    } else {
        let before = lemma_order_to(items, count - 1);
        let at = lemma_split(items, before, count - 1);
        lemma_inserted(items, before, at, (count - 1) as usize);
        before.insert(at, (count - 1) as usize)
    }
}

/// There is a stable ascending order.
pub proof fn lemma_order_exists<T: Ranked>(items: Seq<T>)
    requires
        items.len() <= usize::MAX,
    ensures
        covers(order_of(items), items.len() as int),
        ascends(items, order_of(items)),
{
    let order = lemma_order_to(items, items.len() as int);
    lemma_order_unique(items, order);
}

/// The stable ascending order of some items.
pub fn sorted_order<T: Ranked>(items: &[T]) -> (order: Vec<usize>)
    ensures
        covers(order@, items@.len() as int),
        ascends(items@, order@),
        order@ == order_of(items@),
{
    let mut order: Vec<usize> = Vec::new();
    let mut i: usize = 0;
    while i < items.len()
        invariant
            i <= items@.len(),
            covers(order@, i as int),
            ascends(items@, order@),
        decreases items.len() - i,
    {
        let at: usize = upper_bound(items, &order, i);
        let ghost before = order@;
        order.insert(at, i);
        proof {
            assert(order@ =~= before.insert(at as int, i));
            lemma_inserted(items@, before, at as int, i);
        }
        i += 1;
    }
    proof {
        lemma_order_unique(items@, order@);
    }
    order
}

/// The stable ascending order of some items.
pub open spec fn order_of<T: Ranked>(items: Seq<T>) -> Seq<usize> {
    choose|order: Seq<usize>| covers(order, items.len() as int) && ascends(items, order)
}

proof fn lemma_orders_agree<T: Ranked>(items: Seq<T>, a: Seq<usize>, b: Seq<usize>, i: int)
    requires
        covers(a, items.len() as int),
        covers(b, items.len() as int),
        ascends(items, a),
        ascends(items, b),
        items.len() <= usize::MAX,
        0 <= i <= a.len(),
        forall|j: int| 0 <= j < i ==> a[j] == b[j],
    ensures
        a == b,
    decreases a.len() - i,
{
    if i == a.len() {
        assert(a =~= b);
    } else {
        let x = a[i];
        let y = b[i];
        if x != y {
            assert(place(x as int) == x);
            assert(place(y as int) == y);
            assert(b.contains(place(x as int)));
            assert(a.contains(place(y as int)));
            let j = choose|j: int| 0 <= j < b.len() && b[j] == x;
            let k = choose|k: int| 0 <= k < a.len() && a[k] == y;
            if j < i {
                assert(a[j] == x);
                assert(false);
            }
            if k < i {
                assert(b[k] == y);
                assert(false);
            }
            assert(j > i && k > i);
            assert(T::at_most(items[b[i] as int], items[b[j] as int]));
            assert(T::at_most(items[a[i] as int], items[a[k] as int]));
            assert(a[i] < a[k]);
            assert(b[i] < b[j]);
            assert(false);
        }
        lemma_orders_agree(items, a, b, i + 1);
    }
}

/// There is one stable ascending order.
pub proof fn lemma_order_unique<T: Ranked>(items: Seq<T>, order: Seq<usize>)
    requires
        covers(order, items.len() as int),
        ascends(items, order),
        items.len() <= usize::MAX,
    ensures
        order_of(items) == order,
{
    let chosen = order_of(items);
    assert(covers(order, items.len() as int) && ascends(items, order));
    lemma_orders_agree(items, chosen, order, 0);
}

} // verus!
