//! Ordered maps and sets over sorted vectors.
//!
//! A map's view is a mathematical `Map` from key models to value views. Its
//! entries are kept strictly ascending, so walking a map visits each key once
//! and in order; `listing` names that walk for any finite map.

use crate::bytes;
use crate::bytes::{copied, less_bytes};
use vstd::prelude::*;

verus! {

/// A key with a strict total order.
pub trait Key: Sized {
    type Model;

    spec fn model(&self) -> Self::Model;

    spec fn precedes(a: Self::Model, b: Self::Model) -> bool;

    proof fn lemma_irreflexive(a: Self::Model)
        ensures
            !Self::precedes(a, a),
    ;

    proof fn lemma_transitive(a: Self::Model, b: Self::Model, c: Self::Model)
        requires
            Self::precedes(a, b),
            Self::precedes(b, c),
        ensures
            Self::precedes(a, c),
    ;

    proof fn lemma_total(a: Self::Model, b: Self::Model)
        ensures
            a == b || Self::precedes(a, b) || Self::precedes(b, a),
    ;

    fn before(&self, other: &Self) -> (less: bool)
        ensures
            less == Self::precedes(self.model(), other.model()),
    ;

    fn duplicate(&self) -> (copy: Self)
        ensures
            copy.model() == self.model(),
    ;
}

impl Key for Vec<u8> {
    type Model = Seq<u8>;

    open spec fn model(&self) -> Seq<u8> {
        self@
    }

    open spec fn precedes(a: Seq<u8>, b: Seq<u8>) -> bool {
        bytes::bytes_less(a, b)
    }

    proof fn lemma_irreflexive(a: Seq<u8>) {
        crate::bytes::lemma_bytes_less_irreflexive(a);
    }

    proof fn lemma_transitive(a: Seq<u8>, b: Seq<u8>, c: Seq<u8>) {
        crate::bytes::lemma_bytes_less_transitive(a, b, c);
    }

    proof fn lemma_total(a: Seq<u8>, b: Seq<u8>) {
        crate::bytes::lemma_bytes_less_total(a, b);
    }

    fn before(&self, other: &Vec<u8>) -> bool {
        less_bytes(self.as_slice(), other.as_slice())
    }

    fn duplicate(&self) -> Vec<u8> {
        copied(self.as_slice())
    }
}

impl Key for u64 {
    type Model = u64;

    open spec fn model(&self) -> u64 {
        *self
    }

    open spec fn precedes(a: u64, b: u64) -> bool {
        a < b
    }

    proof fn lemma_irreflexive(a: u64) {
    }

    proof fn lemma_transitive(a: u64, b: u64, c: u64) {
    }

    proof fn lemma_total(a: u64, b: u64) {
    }

    fn before(&self, other: &u64) -> bool {
        *self < *other
    }

    fn duplicate(&self) -> u64 {
        *self
    }
}

/// Keys strictly ascend.
pub open spec fn ascending<K: Key, W>(list: Seq<(K::Model, W)>) -> bool {
    forall|i: int, j: int|
        0 <= i < j < list.len() ==> K::precedes((#[trigger] list[i]).0, (#[trigger] list[j]).0)
}

/// Some entry has key `k`.
pub open spec fn listed<K: Key, W>(list: Seq<(K::Model, W)>, k: K::Model) -> bool {
    exists|i: int| 0 <= i < list.len() && (#[trigger] list[i]).0 == k
}

/// The map that a list of entries with distinct keys stands for.
pub open spec fn mapped<K: Key, W>(list: Seq<(K::Model, W)>) -> Map<K::Model, W> {
    Map::new(
        |k: K::Model| listed::<K, W>(list, k),
        |k: K::Model| list[choose|i: int| 0 <= i < list.len() && (#[trigger] list[i]).0 == k].1,
    )
}

/// The entries of a finite map in ascending order.
pub open spec fn listing<K: Key, W>(map: Map<K::Model, W>) -> Seq<(K::Model, W)> {
    choose|list: Seq<(K::Model, W)>| ascending::<K, W>(list) && mapped::<K, W>(list) == map
}

pub proof fn lemma_mapped_at<K: Key, W>(list: Seq<(K::Model, W)>, i: int)
    requires
        ascending::<K, W>(list),
        0 <= i < list.len(),
    ensures
        mapped::<K, W>(list).dom().contains(list[i].0),
        mapped::<K, W>(list)[list[i].0] == list[i].1,
{
    let k = list[i].0;
    assert(listed::<K, W>(list, k));
    let j = choose|j: int| 0 <= j < list.len() && (#[trigger] list[j]).0 == k;
    if i < j {
        K::lemma_irreflexive(k);
    } else if j < i {
        K::lemma_irreflexive(k);
    }
}

/// The entries before place `i` of an ascending list, and the one there.
pub proof fn lemma_mapped_step<K: Key, W>(list: Seq<(K::Model, W)>, i: int)
    requires
        ascending::<K, W>(list),
        0 <= i < list.len(),
    ensures
        !mapped::<K, W>(list.take(i)).dom().contains(list[i].0),
        mapped::<K, W>(list.take(i)).insert(list[i].0, list[i].1) == mapped::<K, W>(
            list.take(i + 1),
        ),
{
    let short = list.take(i);
    let long = list.take(i + 1);
    let k = list[i].0;
    K::lemma_irreflexive(k);
    if listed::<K, W>(short, k) {
        let j = choose|j: int| 0 <= j < short.len() && (#[trigger] short[j]).0 == k;
        assert(list[j].0 == k);
        assert(false);
    }
    assert forall|x: K::Model|
        mapped::<K, W>(short).insert(k, list[i].1).dom().contains(x) == mapped::<K, W>(
            long,
        ).dom().contains(x) by {
        if x == k {
            assert(long[i].0 == k);
        } else if listed::<K, W>(short, x) {
            let j = choose|j: int| 0 <= j < short.len() && (#[trigger] short[j]).0 == x;
            assert(long[j].0 == x);
        } else if listed::<K, W>(long, x) {
            let j = choose|j: int| 0 <= j < long.len() && (#[trigger] long[j]).0 == x;
            assert(short[j].0 == x);
        }
    }
    assert forall|x: K::Model| mapped::<K, W>(long).dom().contains(x) implies mapped::<K, W>(
        short,
    ).insert(k, list[i].1)[x] == mapped::<K, W>(long)[x] by {
        let j = choose|j: int| 0 <= j < long.len() && (#[trigger] long[j]).0 == x;
        lemma_mapped_at::<K, W>(long, j);
        if x != k {
            assert(short[j].0 == x);
            lemma_mapped_at::<K, W>(short, j);
        }
    }
    assert(mapped::<K, W>(short).insert(k, list[i].1) =~= mapped::<K, W>(long));
}

/// Two ascending lists of one map agree from place `i` on, once they agree
/// before it.
proof fn lemma_lists_agree<K: Key, W>(a: Seq<(K::Model, W)>, b: Seq<(K::Model, W)>, i: int)
    requires
        ascending::<K, W>(a),
        ascending::<K, W>(b),
        mapped::<K, W>(a) == mapped::<K, W>(b),
        0 <= i <= a.len(),
        i <= b.len(),
        forall|j: int| 0 <= j < i ==> a[j] == b[j],
    ensures
        a == b,
    decreases a.len() - i,
{
    if i == a.len() && i == b.len() {
        assert(a =~= b);
    } else if i == a.len() {
        lemma_mapped_at::<K, W>(b, i);
        assert(listed::<K, W>(a, b[i].0));
        let j = choose|j: int| 0 <= j < a.len() && (#[trigger] a[j]).0 == b[i].0;
        K::lemma_irreflexive(b[i].0);
        assert(b[j].0 == b[i].0);
    } else if i == b.len() {
        lemma_mapped_at::<K, W>(a, i);
        assert(listed::<K, W>(b, a[i].0));
        let j = choose|j: int| 0 <= j < b.len() && (#[trigger] b[j]).0 == a[i].0;
        K::lemma_irreflexive(a[i].0);
        assert(a[j].0 == a[i].0);
    } else {
        let x = a[i].0;
        let y = b[i].0;
        lemma_mapped_at::<K, W>(a, i);
        lemma_mapped_at::<K, W>(b, i);
        K::lemma_total(x, y);
        K::lemma_irreflexive(x);
        K::lemma_irreflexive(y);
        if x != y {
            let j = choose|j: int| 0 <= j < b.len() && (#[trigger] b[j]).0 == x;
            let k = choose|k: int| 0 <= k < a.len() && (#[trigger] a[k]).0 == y;
            assert(listed::<K, W>(b, x));
            assert(listed::<K, W>(a, y));
            if j < i {
                assert(a[j].0 == x);
                assert(false);
            }
            if k < i {
                assert(b[k].0 == y);
                assert(false);
            }
            assert(j > i);
            assert(k > i);
            K::lemma_transitive(x, y, x);
            assert(false);
        }
        assert(a[i] == b[i]);
        lemma_lists_agree::<K, W>(a, b, i + 1);
    }
}

/// A map has exactly one ascending listing.
pub proof fn lemma_listing<K: Key, W>(list: Seq<(K::Model, W)>)
    requires
        ascending::<K, W>(list),
    ensures
        listing::<K, W>(mapped::<K, W>(list)) == list,
{
    let map = mapped::<K, W>(list);
    assert(ascending::<K, W>(list) && mapped::<K, W>(list) == map);
    let chosen = listing::<K, W>(map);
    lemma_lists_agree::<K, W>(chosen, list, 0);
}

/// What an ascending list of a map visits: each key of the map once, with its
/// value.
pub proof fn lemma_walk<K: Key, W>(list: Seq<(K::Model, W)>, map: Map<K::Model, W>)
    requires
        ascending::<K, W>(list),
        mapped::<K, W>(list) == map,
    ensures
        listing::<K, W>(map) == list,
        forall|i: int|
            0 <= i < list.len() ==> map.dom().contains((#[trigger] list[i]).0) && map[list[i].0]
                == list[i].1,
        forall|k: K::Model|
            #[trigger] map.dom().contains(k) ==> exists|i: int|
                0 <= i < list.len() && (#[trigger] list[i]).0 == k,
{
    lemma_listing::<K, W>(list);
    assert forall|i: int| 0 <= i < list.len() implies map.dom().contains((#[trigger] list[i]).0)
        && map[list[i].0] == list[i].1 by {
        lemma_mapped_at::<K, W>(list, i);
    }
}

/// A map from keys to values, held as a strictly ascending vector.
#[derive(Debug, PartialEq, Eq)]
pub struct OrderedMap<K: Key, V: View> {
    entries: Vec<(K, V)>,
}

impl<K: Key, V: View> View for OrderedMap<K, V> {
    type V = Map<K::Model, V::V>;

    closed spec fn view(&self) -> Map<K::Model, V::V> {
        mapped::<K, V::V>(held(self.entries@))
    }
}

/// Entries by model and view.
spec fn held<K: Key, V: View>(entries: Seq<(K, V)>) -> Seq<(K::Model, V::V)> {
    Seq::new(entries.len(), |i: int| (entries[i].0.model(), entries[i].1@))
}

impl<K: Key, V: View> OrderedMap<K, V> {
    #[verifier::type_invariant]
    spec fn ordered(&self) -> bool {
        ascending::<K, V::V>(held(self.entries@))
    }

    /// The entries of the map in ascending order.
    pub open spec fn pairs(&self) -> Seq<(K::Model, V::V)> {
        listing::<K, V::V>(self@)
    }

    proof fn lemma_held(&self)
        requires
            ascending::<K, V::V>(held(self.entries@)),
        ensures
            self.pairs() == held(self.entries@),
    {
        lemma_listing::<K, V::V>(held(self.entries@));
    }

    /// An empty map.
    pub fn new() -> (map: Self)
        ensures
            map@ == Map::<K::Model, V::V>::empty(),
    {
        let map = OrderedMap { entries: Vec::new() };
        assert(map@ =~= Map::<K::Model, V::V>::empty());
        map
    }

    /// The number of keys.
    pub fn len(&self) -> (count: usize)
        ensures
            count == self.pairs().len(),
            ascending::<K, V::V>(self.pairs()),
            mapped::<K, V::V>(self.pairs()) == self@,
            count == 0 <==> self@ == Map::<K::Model, V::V>::empty(),
    {
        proof {
            use_type_invariant(self);
            self.lemma_held();
            if self.pairs().len() == 0 {
                assert(self@ =~= Map::<K::Model, V::V>::empty());
            } else {
                lemma_mapped_at::<K, V::V>(self.pairs(), 0);
            }
        }
        self.entries.len()
    }

    /// The key at a place of the walk.
    pub fn key_at(&self, i: usize) -> (key: &K)
        requires
            i < self.pairs().len(),
        ensures
            key.model() == self.pairs()[i as int].0,
    {
        proof {
            use_type_invariant(self);
            self.lemma_held();
        }
        &self.entries[i].0
    }

    /// The value at a place of the walk.
    pub fn value_at(&self, i: usize) -> (value: &V)
        requires
            i < self.pairs().len(),
        ensures
            value@ == self.pairs()[i as int].1,
    {
        proof {
            use_type_invariant(self);
            self.lemma_held();
        }
        &self.entries[i].1
    }

    /// The first place whose key is not before `key`.
    pub fn lower_bound(&self, key: &K) -> (place: usize)
        ensures
            place <= self.pairs().len(),
            ascending::<K, V::V>(self.pairs()),
            mapped::<K, V::V>(self.pairs()) == self@,
            forall|i: int|
                0 <= i < place ==> K::precedes((#[trigger] self.pairs()[i]).0, key.model()),
            forall|i: int|
                place <= i < self.pairs().len() ==> !K::precedes(
                    (#[trigger] self.pairs()[i]).0,
                    key.model(),
                ),
    {
        proof {
            use_type_invariant(self);
            self.lemma_held();
        }
        let mut low: usize = 0;
        let mut high: usize = self.entries.len();
        while low < high
            invariant
                low <= high <= self.pairs().len(),
                self.pairs() == held(self.entries@),
                ascending::<K, V::V>(self.pairs()),
                forall|i: int|
                    0 <= i < low ==> K::precedes((#[trigger] self.pairs()[i]).0, key.model()),
                forall|i: int|
                    high <= i < self.pairs().len() ==> !K::precedes(
                        (#[trigger] self.pairs()[i]).0,
                        key.model(),
                    ),
            decreases high - low,
        {
            let middle: usize = low + (high - low) / 2;
            if self.entries[middle].0.before(key) {
                proof {
                    assert forall|i: int| 0 <= i <= middle implies K::precedes(
                        (#[trigger] self.pairs()[i]).0,
                        key.model(),
                    ) by {
                        if i < middle {
                            K::lemma_transitive(
                                self.pairs()[i].0,
                                self.pairs()[middle as int].0,
                                key.model(),
                            );
                        }
                    }
                }
                low = middle + 1;
            } else {
                proof {
                    assert forall|i: int|
                        middle <= i < self.pairs().len() implies !K::precedes(
                        (#[trigger] self.pairs()[i]).0,
                        key.model(),
                    ) by {
                        if i > middle && K::precedes(self.pairs()[i].0, key.model()) {
                            K::lemma_transitive(
                                self.pairs()[middle as int].0,
                                self.pairs()[i].0,
                                key.model(),
                            );
                        }
                    }
                }
                high = middle;
            }
        }
        low
    }

    /// Where `key` is held, if it is.
    pub fn position(&self, key: &K) -> (place: Option<usize>)
        ensures
            match place {
                Some(i) => i < self.pairs().len() && self.pairs()[i as int].0 == key.model()
                    && self@.dom().contains(key.model()),
                None => !self@.dom().contains(key.model()),
            },
    {
        let i: usize = self.lower_bound(key);
        proof {
            use_type_invariant(self);
            self.lemma_held();
        }
        if i < self.entries.len() && !key.before(&self.entries[i].0) {
            proof {
                K::lemma_total(self.pairs()[i as int].0, key.model());
                lemma_mapped_at::<K, V::V>(self.pairs(), i as int);
            }
            Some(i)
        } else {
            proof {
                if listed::<K, V::V>(self.pairs(), key.model()) {
                    let j = choose|j: int|
                        0 <= j < self.pairs().len() && (#[trigger] self.pairs()[j]).0
                            == key.model();
                    K::lemma_irreflexive(key.model());
                    assert(j >= i);
                    if j > i {
                        assert(K::precedes(self.pairs()[i as int].0, self.pairs()[j].0));
                    }
                }
            }
            None
        }
    }

    /// Whether `key` is held.
    pub fn contains_key(&self, key: &K) -> (found: bool)
        ensures
            found == self@.dom().contains(key.model()),
    {
        self.position(key).is_some()
    }

    /// The value of `key`.
    pub fn get(&self, key: &K) -> (value: Option<&V>)
        ensures
            match value {
                Some(v) => self@.dom().contains(key.model()) && v@ == self@[key.model()],
                None => !self@.dom().contains(key.model()),
            },
    {
        match self.position(key) {
            Some(i) => {
                proof {
                    use_type_invariant(self);
                    self.lemma_held();
                    lemma_mapped_at::<K, V::V>(self.pairs(), i as int);
                }
                Some(&self.entries[i].1)
            },
            None => None,
        }
    }

    /// Sets the value of `key`; the answer is whether the key is new.
    pub fn insert(&mut self, key: K, value: V) -> (fresh: bool)
        ensures
            final(self)@ == old(self)@.insert(key.model(), value@),
            fresh == !old(self)@.dom().contains(key.model()),
    {
        let i: usize = self.lower_bound(&key);
        let found: Option<usize> = self.position(&key);
        let ghost k = key.model();
        let ghost v = value@;
        let ghost before = self.pairs();
        proof {
            use_type_invariant(&*self);
            self.lemma_held();
        }
        let mut entries: Vec<(K, V)> = Vec::new();
        std::mem::swap(&mut self.entries, &mut entries);
        let fresh: bool = match found {
            Some(j) => {
                entries.set(j, (key, value));
                proof {
                    let after = held(entries@);
                    assert(after =~= before.update(j as int, (k, v)));
                    assert(ascending::<K, V::V>(after));
                    assert forall|q: K::Model|
                        mapped::<K, V::V>(after).dom().contains(q) == mapped::<K, V::V>(
                            before,
                        ).insert(k, v).dom().contains(q) by {
                        lemma_same_keys::<K, V::V>(before, after, q);
                    }
                    assert forall|q: K::Model|
                        #[trigger] mapped::<K, V::V>(after).dom().contains(q) implies mapped::<
                        K,
                        V::V,
                    >(after)[q] == mapped::<K, V::V>(before).insert(k, v)[q] by {
                        let p = choose|p: int|
                            0 <= p < after.len() && (#[trigger] after[p]).0 == q;
                        lemma_mapped_at::<K, V::V>(after, p);
                        lemma_mapped_at::<K, V::V>(before, p);
                        lemma_mapped_at::<K, V::V>(after, j as int);
                    }
                    assert(mapped::<K, V::V>(after) =~= mapped::<K, V::V>(before).insert(k, v));
                }
                false
            },
            None => {
                entries.insert(i, (key, value));
                proof {
                    let after = held(entries@);
                    assert(after =~= before.insert(i as int, (k, v)));
                    assert forall|a: int, b: int| 0 <= a < b < after.len() implies K::precedes(
                        (#[trigger] after[a]).0,
                        (#[trigger] after[b]).0,
                    ) by {
                        let sa = if a < i { a } else { a - 1 };
                        let sb = if b < i { b } else { b - 1 };
                        if a == i {
                            K::lemma_total(before[sb].0, k);
                            if before[sb].0 == k {
                                lemma_mapped_at::<K, V::V>(before, sb);
                            }
                        } else if b == i {
                        } else {
                            assert(K::precedes(before[sa].0, before[sb].0));
                        }
                    }
                    lemma_mapped_insert::<K, V::V>(before, after, i as int, k, v);
                }
                true
            },
        };
        self.entries = entries;
        fresh
    }

    /// Adds every entry of another map; its values win.
    pub fn extend(&mut self, other: OrderedMap<K, V>)
        ensures
            final(self)@ == old(self)@.union_prefer_right(other@),
    {
        proof {
            use_type_invariant(&other);
        }
        let ghost goal = self@.union_prefer_right(other@);
        let mut rest: Vec<(K, V)> = other.entries;
        while rest.len() > 0
            invariant
                ascending::<K, V::V>(held(rest@)),
                goal == self@.union_prefer_right(mapped::<K, V::V>(held(rest@))),
            decreases rest@.len(),
        {
            let ghost whole = held(rest@);
            let ghost last = rest@.len() - 1;
            let ghost before = self@;
            match rest.pop() {
                Some((key, value)) => {
                    proof {
                        assert(held(rest@) =~= whole.take(last));
                        assert(whole.take(last + 1) =~= whole);
                        lemma_mapped_step::<K, V::V>(whole, last);
                    }
                    self.insert(key, value);
                    proof {
                        let m = mapped::<K, V::V>(held(rest@));
                        let (k, v) = whole[last];
                        assert(before.insert(k, v).union_prefer_right(m)
                            =~= before.union_prefer_right(m.insert(k, v)));
                    }
                },
                None => {},
            }
        }
        proof {
            assert(mapped::<K, V::V>(held(rest@)) =~= Map::<K::Model, V::V>::empty());
            assert(self@ =~= goal);
        }
    }

    /// Takes `key` out; the answer is whether it was held.
    pub fn remove(&mut self, key: &K) -> (found: bool)
        ensures
            final(self)@ == old(self)@.remove(key.model()),
            found == old(self)@.dom().contains(key.model()),
    {
        let place: Option<usize> = self.position(key);
        let ghost before = self.pairs();
        let ghost k = key.model();
        proof {
            use_type_invariant(&*self);
            self.lemma_held();
        }
        match place {
            Some(i) => {
                let mut entries: Vec<(K, V)> = Vec::new();
                std::mem::swap(&mut self.entries, &mut entries);
                entries.remove(i);
                proof {
                    let after = held(entries@);
                    assert(after =~= before.remove(i as int));
                    assert(before =~= after.insert(i as int, before[i as int]));
                    assert forall|a: int, b: int| 0 <= a < b < after.len() implies K::precedes(
                        (#[trigger] after[a]).0,
                        (#[trigger] after[b]).0,
                    ) by {
                        let sa = if a < i { a } else { a + 1 };
                        let sb = if b < i { b } else { b + 1 };
                        assert(K::precedes(before[sa].0, before[sb].0));
                    }
                    lemma_mapped_insert::<K, V::V>(
                        after,
                        before,
                        i as int,
                        k,
                        before[i as int].1,
                    );
                    assert(!listed::<K, V::V>(after, k)) by {
                        if listed::<K, V::V>(after, k) {
                            let j = choose|j: int|
                                0 <= j < after.len() && (#[trigger] after[j]).0 == k;
                            let sj = if j < i { j } else { j + 1 };
                            assert(before[sj].0 == k);
                            K::lemma_irreflexive(k);
                        }
                    }
                    assert(mapped::<K, V::V>(after) =~= mapped::<K, V::V>(before).remove(k));
                }
                self.entries = entries;
                true
            },
            None => {
                assert(self@ =~= self@.remove(k));
                false
            },
        }
    }
}

proof fn lemma_same_keys<K: Key, W>(a: Seq<(K::Model, W)>, b: Seq<(K::Model, W)>, k: K::Model)
    requires
        a.len() == b.len(),
        forall|i: int| 0 <= i < a.len() ==> (#[trigger] a[i]).0 == (#[trigger] b[i]).0,
    ensures
        listed::<K, W>(a, k) == listed::<K, W>(b, k),
{
    if listed::<K, W>(a, k) {
        let i = choose|i: int| 0 <= i < a.len() && (#[trigger] a[i]).0 == k;
        assert(b[i].0 == k);
    }
    if listed::<K, W>(b, k) {
        let i = choose|i: int| 0 <= i < b.len() && (#[trigger] b[i]).0 == k;
        assert(a[i].0 == k);
    }
}

proof fn lemma_mapped_insert<K: Key, W>(
    before: Seq<(K::Model, W)>,
    after: Seq<(K::Model, W)>,
    place: int,
    k: K::Model,
    v: W,
)
    requires
        0 <= place <= before.len(),
        after == before.insert(place, (k, v)),
        ascending::<K, W>(after),
        ascending::<K, W>(before),
    ensures
        mapped::<K, W>(after) == mapped::<K, W>(before).insert(k, v),
{
    assert(after[place] == (k, v));
    assert forall|q: K::Model|
        mapped::<K, W>(after).dom().contains(q) == mapped::<K, W>(before).insert(
            k,
            v,
        ).dom().contains(q) by {
        if listed::<K, W>(after, q) {
            let i = choose|i: int| 0 <= i < after.len() && (#[trigger] after[i]).0 == q;
            if i < place {
                assert(before[i].0 == q);
            } else if i > place {
                assert(before[i - 1].0 == q);
            }
        }
        if listed::<K, W>(before, q) {
            let i = choose|i: int| 0 <= i < before.len() && (#[trigger] before[i]).0 == q;
            if i < place {
                assert(after[i].0 == q);
            } else {
                assert(after[i + 1].0 == q);
            }
        }
    }
    assert forall|q: K::Model| #[trigger]
        mapped::<K, W>(after).dom().contains(q) implies mapped::<K, W>(after)[q] == mapped::<K, W>(
        before,
    ).insert(k, v)[q] by {
        let i = choose|i: int| 0 <= i < after.len() && (#[trigger] after[i]).0 == q;
        lemma_mapped_at::<K, W>(after, i);
        lemma_mapped_at::<K, W>(after, place);
        if i < place {
            lemma_mapped_at::<K, W>(before, i);
            K::lemma_irreflexive(k);
        } else if i > place {
            lemma_mapped_at::<K, W>(before, i - 1);
            K::lemma_irreflexive(k);
        }
    }
    assert(mapped::<K, W>(after) =~= mapped::<K, W>(before).insert(k, v));
}

/// A set of keys, held as a strictly ascending vector.
#[derive(Debug, PartialEq, Eq)]
pub struct OrderedSet<K: Key> {
    keys: OrderedMap<K, bool>,
}

impl<K: Key> View for OrderedSet<K> {
    type V = Set<K::Model>;

    closed spec fn view(&self) -> Set<K::Model> {
        self.keys@.dom()
    }
}

/// Keys strictly ascend.
pub open spec fn climbing<K: Key>(walk: Seq<K::Model>) -> bool {
    forall|i: int, j: int|
        0 <= i < j < walk.len() ==> K::precedes(#[trigger] walk[i], #[trigger] walk[j])
}

/// The keys of a finite set in ascending order.
pub open spec fn roll<K: Key>(set: Set<K::Model>) -> Seq<K::Model> {
    choose|walk: Seq<K::Model>| climbing::<K>(walk) && walk.to_set() == set
}

proof fn lemma_rolls_agree<K: Key>(a: Seq<K::Model>, b: Seq<K::Model>, i: int)
    requires
        climbing::<K>(a),
        climbing::<K>(b),
        a.to_set() == b.to_set(),
        0 <= i <= a.len(),
        i <= b.len(),
        forall|j: int| 0 <= j < i ==> a[j] == b[j],
    ensures
        a == b,
    decreases a.len() - i,
{
    if i == a.len() && i == b.len() {
        assert(a =~= b);
    } else if i == a.len() {
        assert(b.to_set().contains(b[i]));
        assert(a.contains(b[i]));
        let j = choose|j: int| 0 <= j < a.len() && a[j] == b[i];
        K::lemma_irreflexive(b[i]);
        assert(b[j] == b[i]);
    } else if i == b.len() {
        assert(a.to_set().contains(a[i]));
        assert(b.contains(a[i]));
        let j = choose|j: int| 0 <= j < b.len() && b[j] == a[i];
        K::lemma_irreflexive(a[i]);
        assert(a[j] == a[i]);
    } else {
        let x = a[i];
        let y = b[i];
        K::lemma_total(x, y);
        K::lemma_irreflexive(x);
        K::lemma_irreflexive(y);
        if x != y {
            assert(a.to_set().contains(x));
            assert(b.to_set().contains(y));
            assert(b.contains(x));
            assert(a.contains(y));
            let j = choose|j: int| 0 <= j < b.len() && b[j] == x;
            let k = choose|k: int| 0 <= k < a.len() && a[k] == y;
            if j < i {
                assert(a[j] == x);
                assert(false);
            }
            if k < i {
                assert(b[k] == y);
                assert(false);
            }
            K::lemma_transitive(x, y, x);
            assert(false);
        }
        lemma_rolls_agree::<K>(a, b, i + 1);
    }
}

/// A set has exactly one ascending walk.
pub proof fn lemma_roll<K: Key>(walk: Seq<K::Model>)
    requires
        climbing::<K>(walk),
    ensures
        roll::<K>(walk.to_set()) == walk,
{
    let set = walk.to_set();
    assert(climbing::<K>(walk) && walk.to_set() == set);
    lemma_rolls_agree::<K>(roll::<K>(set), walk, 0);
}

/// Where a key belongs among ascending keys.
proof fn lemma_place<K: Key>(walk: Seq<K::Model>, key: K::Model, i: int) -> (place: int)
    requires
        climbing::<K>(walk),
        !walk.contains(key),
        0 <= i <= walk.len(),
        forall|j: int| 0 <= j < i ==> K::precedes(#[trigger] walk[j], key),
    ensures
        0 <= place <= walk.len(),
        forall|j: int| 0 <= j < place ==> K::precedes(#[trigger] walk[j], key),
        forall|j: int| place <= j < walk.len() ==> K::precedes(key, #[trigger] walk[j]),
    decreases walk.len() - i,
{
    if i == walk.len() {
        i
    } else {
        K::lemma_total(walk[i], key);
        if K::precedes(walk[i], key) {
            lemma_place::<K>(walk, key, i + 1)
        } else {
            assert forall|j: int| i <= j < walk.len() implies K::precedes(key, #[trigger] walk[j]) by {
                if i < j {
                    K::lemma_transitive(key, walk[i], walk[j]);
                }
            }
            i
        }
    }
}

/// A finite set has an ascending walk.
pub proof fn lemma_rolled<K: Key>(set: Set<K::Model>)
    requires
        set.finite(),
    ensures
        climbing::<K>(roll::<K>(set)),
        roll::<K>(set).to_set() == set,
    decreases set.len(),
{
    if set.len() == 0 {
        let walk = Seq::<K::Model>::empty();
        assert(walk.to_set() =~= set);
        assert(climbing::<K>(walk) && walk.to_set() == set);
    } else {
        let key = set.choose();
        let rest = set.remove(key);
        lemma_rolled::<K>(rest);
        let walk = roll::<K>(rest);
        assert(!rest.contains(key));
        assert(!walk.contains(key)) by {
            if walk.contains(key) {
                assert(walk.to_set().contains(key));
            }
        }
        let place = lemma_place::<K>(walk, key, 0);
        let whole = walk.insert(place, key);
        assert(climbing::<K>(whole)) by {
            assert forall|i: int, j: int| 0 <= i < j < whole.len() implies K::precedes(
                #[trigger] whole[i],
                #[trigger] whole[j],
            ) by {
                let a = if i < place { i } else { i - 1 };
                let b = if j < place { j } else { j - 1 };
                if i != place && j != place {
                    assert(whole[i] == walk[a] && whole[j] == walk[b]);
                } else if i == place {
                    assert(whole[j] == walk[b]);
                } else {
                    assert(whole[i] == walk[a]);
                }
            }
        }
        assert(whole.to_set() =~= set) by {
            assert forall|x: K::Model| whole.contains(x) == set.contains(x) by {
                if whole.contains(x) {
                    let i = choose|i: int| 0 <= i < whole.len() && whole[i] == x;
                    if i != place {
                        let a = if i < place { i } else { i - 1 };
                        assert(walk[a] == x);
                        assert(walk.contains(x));
                        assert(walk.to_set().contains(x));
                    }
                }
                if set.contains(x) {
                    if x == key {
                        assert(whole[place] == x);
                    } else {
                        assert(rest.contains(x));
                        assert(walk.to_set().contains(x));
                        let a = choose|a: int| 0 <= a < walk.len() && walk[a] == x;
                        let i = if a < place { a } else { a + 1 };
                        assert(whole[i] == x);
                    }
                }
            }
        }
        assert(climbing::<K>(whole) && whole.to_set() == set);
    }
}

/// An ascending list with an entry put where it belongs.
pub proof fn lemma_mapped_placed<K: Key, W>(list: Seq<(K::Model, W)>, place: int, entry: (K::Model, W))
    requires
        ascending::<K, W>(list.insert(place, entry)),
        0 <= place <= list.len(),
    ensures
        ascending::<K, W>(list),
        !mapped::<K, W>(list).dom().contains(entry.0),
        mapped::<K, W>(list.insert(place, entry)) == mapped::<K, W>(list).insert(entry.0, entry.1),
{
    let whole = list.insert(place, entry);
    assert(ascending::<K, W>(list)) by {
        assert forall|i: int, j: int| 0 <= i < j < list.len() implies K::precedes(
            (#[trigger] list[i]).0,
            (#[trigger] list[j]).0,
        ) by {
            let a = if i < place { i } else { i + 1 };
            let b = if j < place { j } else { j + 1 };
            assert(whole[a] == list[i] && whole[b] == list[j]);
        }
    }
    K::lemma_irreflexive(entry.0);
    assert(whole[place] == entry);
    let small = mapped::<K, W>(list);
    let large = mapped::<K, W>(whole);
    assert(!small.dom().contains(entry.0)) by {
        if small.dom().contains(entry.0) {
            let i = choose|i: int| 0 <= i < list.len() && (#[trigger] list[i]).0 == entry.0;
            let a = if i < place { i } else { i + 1 };
            assert(whole[a] == list[i]);
        }
    }
    assert(large =~= small.insert(entry.0, entry.1)) by {
        assert forall|k: K::Model|
            large.dom().contains(k) == (small.dom().contains(k) || k == entry.0) by {
            if large.dom().contains(k) {
                let a = choose|i: int| 0 <= i < whole.len() && (#[trigger] whole[i]).0 == k;
                if a != place {
                    let i = if a < place { a } else { a - 1 };
                    assert(whole[a] == list[i]);
                }
            }
            if small.dom().contains(k) {
                let i = choose|i: int| 0 <= i < list.len() && (#[trigger] list[i]).0 == k;
                let a = if i < place { i } else { i + 1 };
                assert(whole[a] == list[i]);
            }
        }
        assert forall|k: K::Model| large.dom().contains(k) implies large[k] == small.insert(
            entry.0,
            entry.1,
        )[k] by {
            let a = choose|i: int| 0 <= i < whole.len() && (#[trigger] whole[i]).0 == k;
            lemma_mapped_at::<K, W>(whole, a);
            if a != place {
                let i = if a < place { a } else { a - 1 };
                assert(whole[a] == list[i]);
                lemma_mapped_at::<K, W>(list, i);
            }
        }
    }
}

/// The listing of a map with a new entry: the entry stands where it belongs.
pub proof fn lemma_listing_insert<K: Key, W>(
    list: Seq<(K::Model, W)>,
    key: K::Model,
    value: W,
) -> (place: int)
    requires
        ascending::<K, W>(list),
        !mapped::<K, W>(list).dom().contains(key),
    ensures
        0 <= place <= list.len(),
        ascending::<K, W>(list.insert(place, (key, value))),
        listing::<K, W>(mapped::<K, W>(list).insert(key, value)) == list.insert(
            place,
            (key, value),
        ),
{
    let walk = Seq::new(list.len(), |i: int| list[i].0);
    assert(climbing::<K>(walk)) by {
        assert forall|i: int, j: int| 0 <= i < j < walk.len() implies K::precedes(
            #[trigger] walk[i],
            #[trigger] walk[j],
        ) by {
            assert(K::precedes(list[i].0, list[j].0));
        }
    }
    assert(!walk.contains(key)) by {
        if walk.contains(key) {
            let i = choose|i: int| 0 <= i < walk.len() && walk[i] == key;
            lemma_mapped_at::<K, W>(list, i);
        }
    }
    let place = lemma_place::<K>(walk, key, 0);
    let whole = list.insert(place, (key, value));
    assert(ascending::<K, W>(whole)) by {
        assert forall|i: int, j: int| 0 <= i < j < whole.len() implies K::precedes(
            (#[trigger] whole[i]).0,
            (#[trigger] whole[j]).0,
        ) by {
            let a = if i < place { i } else { i - 1 };
            let b = if j < place { j } else { j - 1 };
            if i != place {
                assert(whole[i] == list[a] && walk[a] == list[a].0);
            }
            if j != place {
                assert(whole[j] == list[b] && walk[b] == list[b].0);
            }
        }
    }
    lemma_mapped_placed::<K, W>(list, place, (key, value));
    lemma_listing::<K, W>(whole);
    place
}

/// A finite map has an ascending listing.
pub proof fn lemma_lists<K: Key, W>(map: Map<K::Model, W>)
    requires
        map.dom().finite(),
    ensures
        ascending::<K, W>(listing::<K, W>(map)),
        mapped::<K, W>(listing::<K, W>(map)) == map,
{
    lemma_rolled::<K>(map.dom());
    let walk = roll::<K>(map.dom());
    let list = Seq::new(walk.len(), |i: int| (walk[i], map[walk[i]]));
    assert(ascending::<K, W>(list)) by {
        assert forall|i: int, j: int| 0 <= i < j < list.len() implies K::precedes(
            (#[trigger] list[i]).0,
            (#[trigger] list[j]).0,
        ) by {
            assert(K::precedes(walk[i], walk[j]));
        }
    }
    let found = mapped::<K, W>(list);
    assert(found =~= map) by {
        assert forall|k: K::Model| found.dom().contains(k) == map.dom().contains(k) by {
            if found.dom().contains(k) {
                let i = choose|i: int| 0 <= i < list.len() && (#[trigger] list[i]).0 == k;
                assert(walk[i] == k);
                assert(walk.contains(k));
                assert(walk.to_set().contains(k));
            }
            if map.dom().contains(k) {
                assert(walk.to_set().contains(k));
                let i = choose|i: int| 0 <= i < walk.len() && walk[i] == k;
                assert(list[i].0 == k);
            }
        }
        assert forall|k: K::Model| found.dom().contains(k) implies found[k] == map[k] by {
            let i = choose|i: int| 0 <= i < list.len() && (#[trigger] list[i]).0 == k;
            lemma_mapped_at::<K, W>(list, i);
        }
    }
    assert(ascending::<K, W>(list) && mapped::<K, W>(list) == map);
}

impl<K: Key> OrderedSet<K> {
    /// The keys in ascending order.
    pub open spec fn walk(&self) -> Seq<K::Model> {
        roll::<K>(self@)
    }

    proof fn lemma_keys(&self)
        requires
            ascending::<K, bool>(self.keys.pairs()),
            mapped::<K, bool>(self.keys.pairs()) == self.keys@,
        ensures
            climbing::<K>(self.walk()),
            self.walk().to_set() == self@,
            self.walk().len() == self.keys.pairs().len(),
            forall|i: int|
                0 <= i < self.walk().len() ==> #[trigger] self.walk()[i] == self.keys.pairs()[i].0,
    {
        let pairs = self.keys.pairs();
        let walk = Seq::new(pairs.len(), |i: int| pairs[i].0);
        lemma_walk::<K, bool>(pairs, self.keys@);
        assert(climbing::<K>(walk)) by {
            assert forall|i: int, j: int| 0 <= i < j < walk.len() implies K::precedes(
                #[trigger] walk[i],
                #[trigger] walk[j],
            ) by {
                assert(K::precedes(pairs[i].0, pairs[j].0));
            }
        }
        assert forall|k: K::Model| walk.to_set().contains(k) == self@.contains(k) by {
            if self@.contains(k) {
                assert(self.keys@.dom().contains(k));
                let i = choose|i: int| 0 <= i < pairs.len() && (#[trigger] pairs[i]).0 == k;
                assert(walk[i] == k);
            }
            if walk.contains(k) {
                let i = choose|i: int| 0 <= i < walk.len() && walk[i] == k;
                assert(self.keys@.dom().contains(pairs[i].0));
            }
        }
        assert(walk.to_set() =~= self@);
        lemma_roll::<K>(walk);
    }

    /// An empty set.
    pub fn new() -> (set: Self)
        ensures
            set@ == Set::<K::Model>::empty(),
    {
        let set = OrderedSet { keys: OrderedMap::new() };
        assert(set@ =~= Set::<K::Model>::empty());
        set
    }

    /// The number of keys.
    pub fn len(&self) -> (count: usize)
        ensures
            count == self.walk().len(),
            climbing::<K>(self.walk()),
            self.walk().to_set() == self@,
            self@.finite(),
            self@.len() == count,
    {
        let count: usize = self.keys.len();
        proof {
            self.lemma_keys();
            let walk = self.walk();
            assert(walk.no_duplicates()) by {
                assert forall|i: int, j: int|
                    0 <= i < walk.len() && 0 <= j < walk.len() && i != j implies walk[i]
                    != walk[j] by {
                    K::lemma_irreflexive(walk[i]);
                    if i < j {
                        assert(K::precedes(walk[i], walk[j]));
                    } else {
                        assert(K::precedes(walk[j], walk[i]));
                    }
                }
            }
            walk.unique_seq_to_set();
            vstd::seq_lib::seq_to_set_is_finite(walk);
        }
        count
    }

    /// The key at a place of the walk.
    pub fn at(&self, i: usize) -> (key: &K)
        requires
            i < self.walk().len(),
        ensures
            key.model() == self.walk()[i as int],
    {
        let count: usize = self.keys.len();
        proof {
            self.lemma_keys();
        }
        self.keys.key_at(i)
    }

    /// Whether `key` is held.
    pub fn contains(&self, key: &K) -> (found: bool)
        ensures
            found == self@.contains(key.model()),
    {
        self.keys.contains_key(key)
    }

    /// Adds `key`; the answer is whether it is new.
    pub fn insert(&mut self, key: K) -> (fresh: bool)
        ensures
            final(self)@ == old(self)@.insert(key.model()),
            fresh == !old(self)@.contains(key.model()),
    {
        let fresh: bool = self.keys.insert(key, true);
        assert(self@ =~= old(self)@.insert(key.model()));
        fresh
    }

    /// Takes `key` out; the answer is whether it was held.
    pub fn remove(&mut self, key: &K) -> (found: bool)
        ensures
            final(self)@ == old(self)@.remove(key.model()),
            found == old(self)@.contains(key.model()),
    {
        let found: bool = self.keys.remove(key);
        assert(self@ =~= old(self)@.remove(key.model()));
        found
    }
}

impl<K: Key, V: View> OrderedMap<K, V> {
    /// Keeps only the keys in `keep`.
    pub fn retain(&mut self, keep: &OrderedSet<K>)
        ensures
            final(self)@ == old(self)@.restrict(keep@),
    {
        let count: usize = self.len();
        let ghost before = self@;
        let ghost pairs = self.pairs();
        let mut doomed: Vec<K> = Vec::new();
        let mut i: usize = 0;
        while i < count
            invariant
                i <= count,
                count == pairs.len(),
                pairs == self.pairs(),
                self@ == before,
                before == old(self)@,
                forall|j: int|
                    0 <= j < doomed@.len() ==> !keep@.contains(#[trigger] doomed@[j].model()),
                forall|j: int|
                    0 <= j < i && !keep@.contains((#[trigger] pairs[j]).0) ==> exists|d: int|
                        0 <= d < doomed@.len() && #[trigger] doomed@[d].model() == pairs[j].0,
            decreases count - i,
        {
            let key: &K = self.key_at(i);
            let ghost earlier = doomed@;
            if !keep.contains(key) {
                doomed.push(key.duplicate());
                assert(doomed@[earlier.len() as int].model() == pairs[i as int].0);
            }
            proof {
                assert forall|j: int|
                    0 <= j < i + 1 && !keep@.contains((#[trigger] pairs[j]).0) implies exists|
                    d: int,
                |
                    0 <= d < doomed@.len() && #[trigger] doomed@[d].model() == pairs[j].0 by {
                    if j < i {
                        let d = choose|d: int|
                            0 <= d < earlier.len() && #[trigger] earlier[d].model() == pairs[j].0;
                        assert(doomed@[d].model() == pairs[j].0);
                    }
                }
            }
            i += 1;
        }
        let mut d: usize = 0;
        while d < doomed.len()
            invariant
                d <= doomed@.len(),
                forall|j: int|
                    0 <= j < doomed@.len() ==> !keep@.contains(#[trigger] doomed@[j].model()),
                forall|k: K::Model|
                    #[trigger] self@.dom().contains(k) <==> before.dom().contains(k) && forall|
                        j: int,
                    |
                        0 <= j < d ==> #[trigger] doomed@[j].model() != k,
                forall|k: K::Model| #[trigger] self@.dom().contains(k) ==> self@[k] == before[k],
            decreases doomed.len() - d,
        {
            self.remove(&doomed[d]);
            d += 1;
        }
        proof {
            lemma_walk::<K, V::V>(pairs, before);
            assert forall|k: K::Model|
                #[trigger] self@.dom().contains(k) <==> before.restrict(keep@).dom().contains(
                    k,
                ) by {
                if before.dom().contains(k) && !keep@.contains(k) {
                    let j = choose|j: int| 0 <= j < pairs.len() && (#[trigger] pairs[j]).0 == k;
                    assert(exists|d: int|
                        0 <= d < doomed@.len() && #[trigger] doomed@[d].model() == pairs[j].0);
                }
            }
            assert(self@ =~= before.restrict(keep@));
        }
    }
}

} // verus!
