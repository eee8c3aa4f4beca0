//! Listing everything that a backend holds.

use crate::adapter;
use crate::adapter::{Event, ObjectKey, StorageBackend};
use crate::bytes;
use crate::error::StoreError;
use crate::fetch::Replay;
use crate::order::{Key, OrderedSet};
use vstd::prelude::*;

verus! {

/// The most keys that are asked for at once.
pub const INVENTORY_BATCH: usize = 4096;

/// The number that bytes spell, the first byte first.
pub open spec fn spelled(bytes: Seq<u8>) -> nat
    decreases bytes.len(),
{
    if bytes.len() == 0 {
        0
    } else {
        spelled(bytes.drop_last()) * 256 + bytes.last() as nat
    }
}

proof fn lemma_spelled_order(a: Seq<u8>, b: Seq<u8>)
    requires
        a.len() == b.len(),
        bytes::bytes_less(a, b),
    ensures
        spelled(a) < spelled(b),
    decreases a.len(),
{
    let i = choose|i: int| bytes::parts_below(a, b, i);
    let x = a.drop_last();
    let y = b.drop_last();
    if i == a.len() - 1 {
        assert(x =~= y);
    } else {
        assert(bytes::parts_below(x, y, i));
        lemma_spelled_order(x, y);
    }
}

proof fn lemma_spelled_bound(bytes: Seq<u8>)
    ensures
        spelled(bytes) < bound(bytes.len()),
    decreases bytes.len(),
{
    if bytes.len() > 0 {
        lemma_spelled_bound(bytes.drop_last());
    }
}

/// The number of texts of this many bytes.
pub open spec fn bound(length: nat) -> nat
    decreases length,
{
    if length == 0 {
        1
    } else {
        256 * bound((length - 1) as nat)
    }
}

/// The place of a key among all keys.
pub open spec fn ordinal(key: ObjectKey) -> int {
    key.rank() * bound(32) + spelled(key.digest()@)
}

proof fn lemma_ordinal(a: ObjectKey, b: ObjectKey)
    requires
        ObjectKey::precedes(a, b),
    ensures
        ordinal(a) < ordinal(b),
{
    lemma_spelled_bound(a.digest()@);
    lemma_spelled_bound(b.digest()@);
    if a.rank() == b.rank() {
        lemma_spelled_order(a.digest()@, b.digest()@);
    } else {
        assert(a.rank() * bound(32) + bound(32) <= b.rank() * bound(32)) by (nonlinear_arith)
            requires
                a.rank() + 1 <= b.rank(),
                bound(32) >= 0,
        ;
    }
}

proof fn lemma_ordinal_bound(key: ObjectKey)
    ensures
        0 <= ordinal(key) < 4 * bound(32),
{
    lemma_spelled_bound(key.digest()@);
    assert(0 <= key.rank() * bound(32) <= 3 * bound(32)) by (nonlinear_arith)
        requires
            0 <= key.rank() <= 3,
            bound(32) >= 0,
    ;
}

/// Keys strictly ascend from `after` on.
pub open spec fn climbs_after(after: Option<ObjectKey>, batch: Seq<ObjectKey>) -> bool {
    &&& forall|i: int, j: int|
        0 <= i < j < batch.len() ==> ObjectKey::precedes(#[trigger] batch[i], #[trigger] batch[j])
    &&& (after is Some && batch.len() > 0 ==> ObjectKey::precedes(after->0, batch[0]))
}

/// What listing everything came to: batch after batch, until one is empty. A
/// batch that is too long, or whose keys do not ascend, is refused.
pub open spec fn inventory_replay(
    history: Seq<Event>,
    at: int,
    after: Option<ObjectKey>,
    found: Set<ObjectKey>,
) -> Replay<Set<ObjectKey>>
    decreases history.len() - at,
{
    if 0 <= at < history.len() {
        match history[at] {
            Event::Inventory { after: asked, limit, reply } => if asked != after || limit
                != INVENTORY_BATCH {
                Replay::Astray
            } else {
                match reply {
                    Err(error) => Replay::Done(Err(StoreError::Backend(error)), at + 1),
                    Ok(batch) => if batch@.len() == 0 {
                        Replay::Done(Ok(found), at + 1)
                    } else if batch@.len() > INVENTORY_BATCH {
                        Replay::Done(Err(StoreError::Range), at + 1)
                    } else if !climbs_after(after, batch@) {
                        Replay::Done(Err(StoreError::Corrupt(0)), at + 1)
                    } else {
                        inventory_replay(
                            history,
                            at + 1,
                            Some(batch@.last()),
                            found.union(batch@.to_set()),
                        )
                    },
                }
            },
            _ => Replay::Astray,
        }
    } else {
        Replay::Astray
    }
}

/// A replay is settled by the calls that it covers.
pub proof fn lemma_inventory_settled(
    before: Seq<Event>,
    later: Seq<Event>,
    at: int,
    after: Option<ObjectKey>,
    found: Set<ObjectKey>,
)
    requires
        adapter::extends(before, later),
        inventory_replay(before, at, after, found) is Done,
    ensures
        inventory_replay(later, at, after, found) == inventory_replay(before, at, after, found),
    decreases before.len() - at,
{
    if 0 <= at < before.len() {
        match before[at] {
            Event::Inventory { after: _, limit: _, reply: Ok(batch) } => {
                if 0 < batch@.len() <= INVENTORY_BATCH && climbs_after(after, batch@) {
                    lemma_inventory_settled(
                        before,
                        later,
                        at + 1,
                        Some(batch@.last()),
                        found.union(batch@.to_set()),
                    );
                }
            },
            _ => {},
        }
    }
}

/// Adds a batch of keys, if they ascend.
fn add_batch(
    keys: &mut OrderedSet<ObjectKey>,
    after: Option<ObjectKey>,
    batch: &Vec<ObjectKey>,
) -> (fine: bool)
    ensures
        fine == climbs_after(after, batch@),
        fine ==> final(keys)@ == old(keys)@.union(batch@.to_set()),
{
    let mut i: usize = 0;
    while i < batch.len()
        invariant
            i <= batch@.len(),
            forall|a: int, b: int|
                0 <= a < b < i ==> ObjectKey::precedes(#[trigger] batch@[a], #[trigger] batch@[b]),
            after is Some && i > 0 ==> ObjectKey::precedes(after->0, batch@[0]),
            keys@ == old(keys)@.union(batch@.take(i as int).to_set()),
        decreases batch.len() - i,
    {
        let key: ObjectKey = batch[i];
        if i > 0 {
            if !batch[i - 1].before(&key) {
                assert(!ObjectKey::precedes(batch@[i - 1], batch@[i as int]));
                return false;
            }
        } else {
            match &after {
                Some(last) => {
                    if !last.before(&key) {
                        return false;
                    }
                },
                None => {},
            }
        }
        proof {
            assert forall|a: int, b: int| 0 <= a < b < i + 1 implies ObjectKey::precedes(
                #[trigger] batch@[a],
                #[trigger] batch@[b],
            ) by {
                if b == i && a < i - 1 {
                    ObjectKey::lemma_transitive(batch@[a], batch@[i - 1], batch@[i as int]);
                }
            }
        }
        keys.insert(key);
        proof {
            let seen = batch@.take(i as int);
            let more = batch@.take(i as int + 1);
            assert(more =~= seen.push(key));
            assert(old(keys)@.union(more.to_set()) =~= old(keys)@.union(seen.to_set()).insert(
                key,
            )) by {
                assert forall|k: ObjectKey|
                    more.to_set().contains(k) == seen.to_set().insert(key).contains(k) by {
                    if seen.contains(k) {
                        let j = choose|j: int| 0 <= j < seen.len() && seen[j] == k;
                        assert(more[j] == k);
                    }
                    if k == key {
                        assert(more[i as int] == k);
                    }
                    if more.contains(k) {
                        let j = choose|j: int| 0 <= j < more.len() && more[j] == k;
                        if j < seen.len() {
                            assert(seen[j] == k);
                        }
                    }
                }
                assert(more.to_set() =~= seen.to_set().insert(key));
            }
        }
        i += 1;
    }
    assert(batch@.take(i as int) =~= batch@);
    true
}

/// Lists everything that a backend holds.
pub fn inventory<B: StorageBackend>(backend: &mut B) -> (keys: Result<
    OrderedSet<ObjectKey>,
    StoreError,
>)
    ensures
        final(backend).namespace() == old(backend).namespace(),
        adapter::extends(old(backend).history(), final(backend).history()),
        adapter::quiet(old(backend).history(), final(backend).history()),
        match keys {
            Ok(k) => inventory_replay(
                final(backend).history(),
                old(backend).history().len() as int,
                None,
                Set::empty(),
            ) == Replay::Done(
                Ok::<Set<ObjectKey>, StoreError>(k@),
                final(backend).history().len() as int,
            ),
            Err(e) => inventory_replay(
                final(backend).history(),
                old(backend).history().len() as int,
                None,
                Set::empty(),
            ) == Replay::Done(
                Err::<Set<ObjectKey>, StoreError>(e),
                final(backend).history().len() as int,
            ),
        },
{
    let ghost start = backend.history().len() as int;
    let mut keys: OrderedSet<ObjectKey> = OrderedSet::new();
    let mut after: Option<ObjectKey> = None;
    loop
        invariant
            start == old(backend).history().len(),
            backend.namespace() == old(backend).namespace(),
            adapter::extends(old(backend).history(), backend.history()),
            adapter::quiet(old(backend).history(), backend.history()),
            forall|later: Seq<Event>|
                #![trigger inventory_replay(later, start, None, Set::empty())]
                adapter::extends(backend.history(), later) ==> inventory_replay(
                    later,
                    start,
                    None,
                    Set::empty(),
                ) == inventory_replay(
                    later,
                    backend.history().len() as int,
                    after,
                    keys@,
                ),
        decreases
                4 * bound(32) - match after {
                    Some(key) => ordinal(key) + 1,
                    None => 0,
                },
    {
        let ghost known = backend.history();
        let ghost before = keys@;
        let ghost previous = after;
        let reply = backend.inventory(after, INVENTORY_BATCH);
        proof {
            let h = backend.history();
            assert(inventory_replay(h, start, None, Set::empty()) == inventory_replay(
                h,
                known.len() as int,
                after,
                before,
            ));
        }
        let batch: Vec<ObjectKey> = match reply {
            Ok(batch) => batch,
            Err(error) => {
                return Err(StoreError::Backend(error));
            },
        };
        if batch.len() == 0 {
            return Ok(keys);
        }
        if batch.len() > INVENTORY_BATCH {
            return Err(StoreError::Range);
        }
        if !add_batch(&mut keys, after, &batch) {
            return Err(StoreError::Corrupt(0));
        }
        after = Some(batch[batch.len() - 1]);
        proof {
            let last = batch@.last();
            lemma_ordinal_bound(last);
            if let Some(key) = previous {
                if batch@.len() > 1 {
                    ObjectKey::lemma_transitive(key, batch@[0], last);
                }
                lemma_ordinal(key, last);
            }
            assert forall|later: Seq<Event>|
                #![trigger inventory_replay(later, start, None, Set::empty())]
                adapter::extends(backend.history(), later) implies inventory_replay(
                later,
                start,
                None,
                Set::empty(),
            ) == inventory_replay(later, backend.history().len() as int, after, keys@) by {
                assert(adapter::extends(known, later));
                assert(inventory_replay(later, start, None, Set::empty()) == inventory_replay(
                    later,
                    known.len() as int,
                    previous,
                    before,
                ));
            }
        }
    }
}

/// What is listed is everything that the backend told: each key of each batch, up to a
/// batch that is empty, and nothing that was not told.
pub proof fn law_inventory_is_complete(
    history: Seq<Event>,
    at: int,
    after: Option<ObjectKey>,
    found: Set<ObjectKey>,
    all: Set<ObjectKey>,
    next: int,
)
    requires
        0 <= at,
        inventory_replay(history, at, after, found) == Replay::Done(
            Ok::<Set<ObjectKey>, StoreError>(all),
            next,
        ),
    ensures
        at < next <= history.len(),
        found.subset_of(all),
        forall|p: int|
            at <= p < next ==> (#[trigger] history[p] matches Event::Inventory { after, limit, reply }
                && reply is Ok && reply->Ok_0@.to_set().subset_of(all)),
        history[next - 1]->Inventory_reply->Ok_0@.len() == 0,
        forall|key: ObjectKey| #[trigger]
            all.contains(key) ==> found.contains(key) || exists|p: int|
                at <= p < next && (#[trigger] history[p])->Inventory_reply->Ok_0@.contains(key),
    decreases history.len() - at,
{
    let batch = history[at]->Inventory_reply->Ok_0@;
    if batch.len() == 0 {
        assert(batch.to_set() =~= Set::<ObjectKey>::empty());
    } else {
        let more = found.union(batch.to_set());
        law_inventory_is_complete(history, at + 1, Some(batch.last()), more, all, next);
        assert forall|key: ObjectKey| #[trigger] all.contains(key) implies found.contains(key)
            || exists|p: int|
            at <= p < next && (#[trigger] history[p])->Inventory_reply->Ok_0@.contains(key) by {
            if more.contains(key) && !found.contains(key) {
                assert(batch.to_set().contains(key));
                assert(history[at]->Inventory_reply->Ok_0@.contains(key));
            }
        }
    }
}

} // verus!
