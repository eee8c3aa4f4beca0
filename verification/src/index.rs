//! Immutable layered indexes from keys to values.

use crate::adapter;
use crate::adapter::{Event, ObjectKey, StorageBackend};
use crate::bytes;
use crate::bytes::{append, copied, less_bytes, same_bytes};
use crate::codec;
use crate::digest;
use crate::digest::identify;
use crate::domain::{INDEX, IndexId};
use crate::draft;
use crate::error::StoreError;
use crate::fetch;
use crate::fetch::{Replay, put_bytes, read_all};
use crate::frame;
use crate::opening;
use crate::order;
use crate::order::{Key, OrderedMap, OrderedSet};
use crate::view_codec;
use crate::view_codec::read_id;
use crate::wire;
use crate::wire::{Decoder, envelope, open_envelope, u32_bytes};
use vstd::prelude::*;

verus! {

/// `ZINDEX01`.
pub const INDEX_MAGIC: [u8; 8] = [90, 73, 78, 68, 69, 88, 48, 49];

/// The most bytes of an index, all layers together.
pub const INDEX_LIMIT: usize = 67108864;

/// The most layers of an index.
pub const MAX_DEPTH: usize = 64;

/// The layers from which on an index is written anew.
pub const CHECKPOINT_DEPTH: usize = 16;

/// The most bytes of a key.
pub const MAX_KEY: usize = 256;

/// What a layer says of a key: its value, or that it has none.
#[derive(Debug, PartialEq, Eq)]
pub struct Change {
    pub value: Option<Vec<u8>>,
}

impl View for Change {
    type V = Option<Seq<u8>>;

    open spec fn view(&self) -> Option<Seq<u8>> {
        match self.value {
            Some(bytes) => Some(bytes@),
            None => None,
        }
    }
}

impl Change {
    /// Another copy of the change.
    pub fn duplicate(&self) -> (copy: Change)
        ensures
            copy@ == self@,
    {
        match &self.value {
            Some(bytes) => Change { value: Some(copied(bytes.as_slice())) },
            None => Change { value: None },
        }
    }
}

/// One layer: the layer below, and what it says of some keys, in ascending order.
pub struct LayerModel {
    pub next: Option<IndexId>,
    pub records: Seq<(Seq<u8>, Option<Seq<u8>>)>,
}

/// Reading an optional identity.
pub open spec fn choice_at(bytes: Seq<u8>, position: int) -> Result<
    (Option<IndexId>, int),
    StoreError,
> {
    match wire::number_at(bytes, position, 1) {
        Err(error) => Err(error),
        Ok((tag, p)) => if tag == 0 {
            Ok((None, p))
        } else if tag == 1 {
            match view_codec::id_at::<INDEX>(bytes, p) {
                Err(error) => Err(error),
                Ok((id, p)) => Ok((Some(id), p)),
            }
        } else {
            Err(StoreError::Corrupt(0))
        },
    }
}

/// The bytes of an optional identity.
pub open spec fn choice_bytes(id: Option<IndexId>) -> Seq<u8> {
    match id {
        None => seq![0u8],
        Some(id) => seq![1u8] + id.bytes@,
    }
}

/// Reading what a layer says of a key.
pub open spec fn change_at(bytes: Seq<u8>, position: int) -> Result<
    (Option<Seq<u8>>, int),
    StoreError,
> {
    match wire::number_at(bytes, position, 1) {
        Err(error) => Err(error),
        Ok((tag, p)) => if tag == 0 {
            Ok((None, p))
        } else if tag == 1 {
            match wire::number_at(bytes, p, 4) {
                Err(error) => Err(error),
                Ok((length, p)) => match wire::take_at(bytes, p, length as int) {
                    Err(error) => Err(error),
                    Ok((value, p)) => Ok((Some(value), p)),
                },
            }
        } else {
            Err(StoreError::Corrupt(0))
        },
    }
}

/// Reading `count` records, each with a key after the one before.
pub open spec fn records_from(
    bytes: Seq<u8>,
    position: int,
    count: nat,
    seen: Seq<(Seq<u8>, Option<Seq<u8>>)>,
) -> Result<(Seq<(Seq<u8>, Option<Seq<u8>>)>, int), StoreError>
    decreases count,
{
    if count == 0 {
        Ok((seen, position))
    } else {
        match wire::number_at(bytes, position, 4) {
            Err(error) => Err(error),
            Ok((length, p)) => if length == 0 || length > MAX_KEY {
                Err(StoreError::Range)
            } else {
                match wire::take_at(bytes, p, length as int) {
                    Err(error) => Err(error),
                    Ok((key, p)) => if seen.len() > 0 && !bytes::bytes_less(seen.last().0, key) {
                        Err(StoreError::Corrupt(0))
                    } else {
                        match change_at(bytes, p) {
                            Err(error) => Err(error),
                            Ok((value, p)) => records_from(
                                bytes,
                                p,
                                (count - 1) as nat,
                                seen.push((key, value)),
                            ),
                        }
                    },
                }
            },
        }
    }
}

/// The layer that some bytes hold, or why they hold none.
pub open spec fn layer_parse(raw: Seq<u8>) -> Result<LayerModel, StoreError> {
    match choice_at(raw, 0) {
        Err(error) => Err(error),
        Ok((next, p)) => match wire::number_at(raw, p, 4) {
            Err(error) => Err(error),
            Ok((count, p)) => if count > raw.len() / 9 {
                Err(StoreError::Range)
            } else {
                match records_from(raw, p, count, Seq::empty()) {
                    Err(error) => Err(error),
                    Ok((records, p)) => match wire::finish_at(raw, p) {
                        Err(error) => Err(error),
                        Ok(_) => Ok(LayerModel { next, records }),
                    },
                }
            },
        },
    }
}

/// The bytes of a record.
pub open spec fn record_bytes(key: Seq<u8>, value: Option<Seq<u8>>) -> Seq<u8> {
    bytes::le(key.len(), 4) + key + match value {
        None => seq![0u8],
        Some(bytes) => seq![1u8] + bytes::le(bytes.len(), 4) + bytes,
    }
}

pub open spec fn records_bytes(records: Seq<(Seq<u8>, Option<Seq<u8>>)>, i: int) -> Seq<u8>
    decreases records.len() - i,
{
    if i >= records.len() {
        Seq::empty()
    } else {
        record_bytes(records[i].0, records[i].1) + records_bytes(records, i + 1)
    }
}

/// The encoding of a layer.
pub open spec fn layer_bytes(layer: LayerModel) -> Seq<u8> {
    choice_bytes(layer.next) + bytes::le(layer.records.len(), 4) + records_bytes(layer.records, 0)
}

/// Reads an optional identity.
pub fn read_choice(wire: &mut Decoder) -> (id: Result<Option<IndexId>, StoreError>)
    requires
        old(wire).wf(),
    ensures
        final(wire).wf(),
        final(wire).bytes@ == old(wire).bytes@,
        match id {
            Ok(i) => choice_at(old(wire).bytes@, old(wire).position as int) == Ok::<
                (Option<IndexId>, int),
                StoreError,
            >((i, final(wire).position as int)),
            Err(e) => choice_at(old(wire).bytes@, old(wire).position as int) == Err::<
                (Option<IndexId>, int),
                StoreError,
            >(e),
        },
{
    let tag: u8 = wire.u8()?;
    if tag == 0 {
        return Ok(None);
    }
    if tag != 1 {
        return Err(StoreError::Corrupt(0));
    }
    let id: IndexId = read_id(wire)?;
    Ok(Some(id))
}

/// Appends an optional identity.
pub fn write_choice(bytes: &mut Vec<u8>, id: Option<IndexId>)
    ensures
        final(bytes)@ == old(bytes)@ + choice_bytes(id),
{
    match id {
        Some(id) => {
            bytes.push(1);
            append(bytes, id.bytes.as_slice());
        },
        None => {
            bytes.push(0);
        },
    }
    assert(bytes@ =~= old(bytes)@ + choice_bytes(id));
}

fn read_change(wire: &mut Decoder) -> (change: Result<Change, StoreError>)
    requires
        old(wire).wf(),
    ensures
        final(wire).wf(),
        final(wire).bytes@ == old(wire).bytes@,
        match change {
            Ok(c) => change_at(old(wire).bytes@, old(wire).position as int) == Ok::<
                (Option<Seq<u8>>, int),
                StoreError,
            >((c@, final(wire).position as int)),
            Err(e) => change_at(old(wire).bytes@, old(wire).position as int) == Err::<
                (Option<Seq<u8>>, int),
                StoreError,
            >(e),
        },
{
    let tag: u8 = wire.u8()?;
    if tag == 0 {
        return Ok(Change { value: None });
    }
    if tag != 1 {
        return Err(StoreError::Corrupt(0));
    }
    let length: u32 = wire.u32()?;
    let value: &[u8] = wire.take(length as usize)?;
    Ok(Change { value: Some(copied(value)) })
}

/// What records say of keys that nothing above them speaks of, from the first
/// `count` on.
pub open spec fn beneath(
    above: Map<Seq<u8>, Option<Seq<u8>>>,
    records: Seq<(Seq<u8>, Option<Seq<u8>>)>,
    count: int,
) -> Map<Seq<u8>, Option<Seq<u8>>>
    decreases count,
{
    if count <= 0 {
        above
    } else {
        let below = beneath(above, records, count - 1);
        let (key, value) = records[count - 1];
        if below.dom().contains(key) {
            below
        } else {
            below.insert(key, value)
        }
    }
}

/// The keys that have a value.
pub open spec fn living(resolved: Map<Seq<u8>, Option<Seq<u8>>>) -> Map<Seq<u8>, Seq<u8>> {
    Map::new(
        |key: Seq<u8>| resolved.dom().contains(key) && resolved[key] is Some,
        |key: Seq<u8>| resolved[key]->0,
    )
}

/// Reads the records of a layer and puts them beneath what is known.
fn read_records(
    wire: &mut Decoder,
    count: u32,
    resolved: &mut OrderedMap<Vec<u8>, Change>,
) -> (done: Result<(), StoreError>)
    requires
        old(wire).wf(),
    ensures
        final(wire).wf(),
        final(wire).bytes@ == old(wire).bytes@,
        match done {
            Ok(_) => records_from(
                old(wire).bytes@,
                old(wire).position as int,
                count as nat,
                Seq::empty(),
            ) matches Ok((records, p)) && p == final(wire).position && final(resolved)@ == beneath(
                old(resolved)@,
                records,
                records.len() as int,
            ),
            Err(e) => records_from(
                old(wire).bytes@,
                old(wire).position as int,
                count as nat,
                Seq::empty(),
            ) == Err::<(Seq<(Seq<u8>, Option<Seq<u8>>)>, int), StoreError>(e),
        },
{
    let ghost goal = records_from(
        wire.bytes@,
        wire.position as int,
        count as nat,
        Seq::<(Seq<u8>, Option<Seq<u8>>)>::empty(),
    );
    let ghost mut records = Seq::<(Seq<u8>, Option<Seq<u8>>)>::empty();
    let mut previous: Vec<u8> = Vec::new();
    let mut i: u32 = 0;
    while i < count
        invariant
            i <= count,
            wire.wf(),
            wire.bytes@ == old(wire).bytes@,
            records.len() == i,
            i > 0 ==> previous@ == records.last().0,
            resolved@ == beneath(old(resolved)@, records, records.len() as int),
            goal == records_from(
                old(wire).bytes@,
                old(wire).position as int,
                count as nat,
                Seq::<(Seq<u8>, Option<Seq<u8>>)>::empty(),
            ),
            goal == records_from(wire.bytes@, wire.position as int, (count - i) as nat, records),
        decreases count - i,
    {
        let length: u32 = wire.u32()?;
        if length == 0 || length > MAX_KEY as u32 {
            return Err(StoreError::Range);
        }
        let key: &[u8] = wire.take(length as usize)?;
        if i > 0 && !less_bytes(previous.as_slice(), key) {
            return Err(StoreError::Corrupt(0));
        }
        previous = copied(key);
        let change: Change = read_change(wire)?;
        proof {
            let more = records.push((key@, change@));
            lemma_beneath_prefix(old(resolved)@, records, more, records.len() as int);
            records = more;
        }
        if !resolved.contains_key(&previous) {
            resolved.insert(copied(key), change);
        }
        i += 1;
    }
    Ok(())
}

proof fn lemma_beneath_prefix(
    above: Map<Seq<u8>, Option<Seq<u8>>>,
    short: Seq<(Seq<u8>, Option<Seq<u8>>)>,
    long: Seq<(Seq<u8>, Option<Seq<u8>>)>,
    count: int,
)
    requires
        count <= short.len() <= long.len(),
        forall|i: int| 0 <= i < short.len() ==> short[i] == long[i],
    ensures
        beneath(above, short, count) == beneath(above, long, count),
    decreases count,
{
    if count > 0 {
        lemma_beneath_prefix(above, short, long, count - 1);
    }
}

/// What a chain of layers came to so far.
#[verifier::ext_equal]
pub struct ChainModel {
    pub next: Option<IndexId>,
    pub objects: Set<IndexId>,
    pub depth: int,
    pub decoded: int,
    pub resolved: Map<Seq<u8>, Option<Seq<u8>>>,
}

/// A chain with the layer in `bytes` put beneath it, or why it cannot be.
pub open spec fn chain_step(chain: ChainModel, id: IndexId, bytes: Seq<u8>) -> Result<
    ChainModel,
    StoreError,
> {
    if !digest::names(id, bytes) {
        Err(StoreError::Corrupt(0))
    } else {
        match wire::envelope_content(INDEX_MAGIC@, bytes, INDEX_LIMIT - chain.decoded) {
            Err(error) => Err(error),
            Ok(raw) => match layer_parse(raw) {
                Err(error) => Err(error),
                Ok(layer) => Ok(
                    ChainModel {
                        next: layer.next,
                        objects: chain.objects.insert(id),
                        depth: chain.depth + 1,
                        decoded: chain.decoded + raw.len(),
                        resolved: beneath(
                            chain.resolved,
                            layer.records,
                            layer.records.len() as int,
                        ),
                    },
                ),
            },
        }
    }
}

/// What reading a chain of layers to its end came to. A chain that comes back to
/// a layer, or has too many, is refused.
pub open spec fn chain_replay(history: Seq<Event>, at: int, chain: ChainModel) -> Replay<ChainModel>
    decreases MAX_DEPTH - chain.depth,
{
    match chain.next {
        None => Replay::Done(Ok(chain), at),
        Some(id) => if chain.depth >= MAX_DEPTH || chain.objects.contains(id) {
            Replay::Done(Err(StoreError::Range), at)
        } else {
            match fetch::object_replay(history, at, ObjectKey::Index(id), INDEX_LIMIT as u64) {
                Replay::Astray => Replay::Astray,
                Replay::Done(Err(error), next) => Replay::Done(Err(error), next),
                Replay::Done(Ok(bytes), next) => match chain_step(chain, id, bytes) {
                    Err(error) => Replay::Done(Err(error), next),
                    Ok(longer) => chain_replay(history, next, longer),
                },
            }
        },
    }
}

/// The chain before any layer was read.
pub open spec fn chain_start(head: Option<IndexId>) -> ChainModel {
    ChainModel {
        next: head,
        objects: Set::empty(),
        depth: 0,
        decoded: 0,
        resolved: Map::empty(),
    }
}

pub proof fn lemma_chain_settled(
    before: Seq<Event>,
    after: Seq<Event>,
    at: int,
    chain: ChainModel,
)
    requires
        adapter::extends(before, after),
        chain_replay(before, at, chain) is Done,
    ensures
        chain_replay(after, at, chain) == chain_replay(before, at, chain),
    decreases MAX_DEPTH - chain.depth,
{
    match chain.next {
        None => {},
        Some(id) => {
            if !(chain.depth >= MAX_DEPTH || chain.objects.contains(id)) {
                let key = ObjectKey::Index(id);
                fetch::lemma_object_settled(before, after, at, key, INDEX_LIMIT as u64);
                match fetch::object_replay(before, at, key, INDEX_LIMIT as u64) {
                    Replay::Done(Ok(bytes), next) => {
                        match chain_step(chain, id, bytes) {
                            Ok(longer) => lemma_chain_settled(before, after, next, longer),
                            Err(_) => {},
                        }
                    },
                    _ => {},
                }
            }
        },
    }
}

/// What an index holds.
#[verifier::ext_equal]
pub struct IndexModel {
    pub head: Option<IndexId>,
    pub objects: Set<IndexId>,
    pub entries: Map<Seq<u8>, Seq<u8>>,
    pub dirty: Map<Seq<u8>, Option<Seq<u8>>>,
    pub depth: int,
}

/// An index: what its layers say, and the changes that no layer holds yet.
#[derive(Debug, PartialEq, Eq)]
pub struct Index {
    pub(crate) head: Option<IndexId>,
    pub(crate) objects: OrderedSet<IndexId>,
    pub(crate) entries: OrderedMap<Vec<u8>, Vec<u8>>,
    pub(crate) dirty: OrderedMap<Vec<u8>, Change>,
    pub(crate) depth: usize,
}

impl View for Index {
    type V = IndexModel;

    closed spec fn view(&self) -> IndexModel {
        IndexModel {
            head: self.head,
            objects: self.objects@,
            entries: self.entries@,
            dirty: self.dirty@,
            depth: self.depth as int,
        }
    }
}

/// The index that a chain of layers gives.
pub open spec fn index_of(head: Option<IndexId>, chain: ChainModel) -> IndexModel {
    IndexModel {
        head,
        objects: chain.objects,
        entries: living(chain.resolved),
        dirty: Map::empty(),
        depth: chain.depth,
    }
}

/// What loading an index came to.
pub open spec fn load_replay(history: Seq<Event>, at: int, head: Option<IndexId>) -> Replay<
    IndexModel,
> {
    match chain_replay(history, at, chain_start(head)) {
        Replay::Astray => Replay::Astray,
        Replay::Done(Err(error), next) => Replay::Done(Err(error), next),
        Replay::Done(Ok(chain), next) => Replay::Done(Ok(index_of(head, chain)), next),
    }
}

/// Adds the layer in `bytes` beneath what is resolved; gives the layer below and
/// the length of the layer.
fn add_layer(
    id: &IndexId,
    bytes: &Vec<u8>,
    decoded: usize,
    resolved: &mut OrderedMap<Vec<u8>, Change>,
    Ghost(chain): Ghost<ChainModel>,
) -> (added: Result<(Option<IndexId>, usize), StoreError>)
    requires
        decoded <= INDEX_LIMIT,
        chain.decoded == decoded,
        chain.resolved == old(resolved)@,
    ensures
        match added {
            Ok((next, total)) => chain_step(chain, *id, bytes@) == Ok::<ChainModel, StoreError>(
                ChainModel {
                    next,
                    objects: chain.objects.insert(*id),
                    depth: chain.depth + 1,
                    decoded: total as int,
                    resolved: final(resolved)@,
                },
            ) && total <= INDEX_LIMIT,
            Err(e) => (e is Zstd && opening::is_envelope(bytes@)) || chain_step(chain, *id, bytes@) == Err::<ChainModel, StoreError>(
                e,
            ),
        },
{
    let named: IndexId = identify(bytes.as_slice());
    if !named.same(id) {
        proof {
            if digest::names(*id, bytes@) {
                draft::lemma_named(*id, bytes@);
                draft::lemma_named(named, bytes@);
            }
        }
        return Err(StoreError::Corrupt(0));
    }
    let raw: Vec<u8> = open_envelope(&INDEX_MAGIC, bytes.as_slice(), INDEX_LIMIT - decoded)?;
    let mut wire: Decoder = Decoder::new(raw.as_slice());
    let next: Option<IndexId> = read_choice(&mut wire)?;
    let count: u32 = wire.u32()?;
    if count as usize > raw.len() / 9 {
        return Err(StoreError::Range);
    }
    read_records(&mut wire, count, resolved)?;
    wire.finish()?;
    Ok((next, decoded + raw.len()))
}

/// The keys that have a value.
fn keep_living(resolved: &OrderedMap<Vec<u8>, Change>) -> (entries: OrderedMap<Vec<u8>, Vec<u8>>)
    ensures
        entries@ == living(resolved@),
{
    let count: usize = resolved.len();
    let ghost list = resolved.pairs();
    proof {
        order::lemma_walk::<Vec<u8>, Option<Seq<u8>>>(list, resolved@);
    }
    let mut entries: OrderedMap<Vec<u8>, Vec<u8>> = OrderedMap::new();
    let mut i: usize = 0;
    while i < count
        invariant
            i <= count,
            count == list.len(),
            list == resolved.pairs(),
            forall|j: int|
                0 <= j < list.len() ==> resolved@.dom().contains((#[trigger] list[j]).0)
                    && resolved@[list[j].0] == list[j].1,
            forall|key: Seq<u8>| #[trigger]
                entries@.dom().contains(key) ==> resolved@.dom().contains(key) && resolved@[key]
                    == Some(entries@[key]),
            forall|j: int|
                0 <= j < i && (#[trigger] list[j]).1 is Some ==> entries@.dom().contains(list[j].0),
        decreases count - i,
    {
        assert(resolved@.dom().contains(list[i as int].0));
        match &resolved.value_at(i).value {
            Some(bytes) => {
                entries.insert(copied(resolved.key_at(i).as_slice()), copied(bytes.as_slice()));
            },
            None => {},
        }
        i += 1;
    }
    proof {
        assert forall|key: Seq<u8>| living(resolved@).dom().contains(key) implies entries@.dom().contains(
            key,
        ) by {
            let j = choose|j: int| 0 <= j < list.len() && (#[trigger] list[j]).0 == key;
            assert(list[j].1 is Some);
        }
        assert(entries@ =~= living(resolved@));
    }
    entries
}

impl Index {
    /// An index without entries.
    pub fn empty() -> (index: Index)
        ensures
            index@ == (IndexModel {
                head: None,
                objects: Set::empty(),
                entries: Map::empty(),
                dirty: Map::empty(),
                depth: 0,
            }),
    {
        Index {
            head: None,
            objects: OrderedSet::new(),
            entries: OrderedMap::new(),
            dirty: OrderedMap::new(),
            depth: 0,
        }
    }

    /// The values by key.
    pub fn entries(&self) -> (entries: &OrderedMap<Vec<u8>, Vec<u8>>)
        ensures
            entries@ == self@.entries,
    {
        &self.entries
    }

    pub fn head(&self) -> (head: Option<IndexId>)
        ensures
            head == self@.head,
    {
        self.head
    }

    /// The layers that the index depends on.
    pub fn objects(&self) -> (objects: &OrderedSet<IndexId>)
        ensures
            objects@ == self@.objects,
    {
        &self.objects
    }

    /// Loads the index whose topmost layer is `head`. The decompressor may fail on
    /// any layer.
    pub fn load<B: StorageBackend>(backend: &mut B, head: Option<IndexId>) -> (index: Result<
        Index,
        StoreError,
    >)
        ensures
            final(backend).namespace() == old(backend).namespace(),
            adapter::extends(old(backend).history(), final(backend).history()),
            adapter::quiet(old(backend).history(), final(backend).history()),
            match index {
                Ok(i) => load_replay(
                    final(backend).history(),
                    old(backend).history().len() as int,
                    head,
                ) == Replay::Done(
                    Ok::<IndexModel, StoreError>(i@),
                    final(backend).history().len() as int,
                ),
                Err(e) => opening::unopened(e, old(backend).history(), final(backend).history()) || load_replay(
                    final(backend).history(),
                    old(backend).history().len() as int,
                    head,
                ) == Replay::Done(
                    Err::<IndexModel, StoreError>(e),
                    final(backend).history().len() as int,
                ),
            },
    {
        let ghost start = backend.history().len() as int;
        let mut objects: OrderedSet<IndexId> = OrderedSet::new();
        let mut resolved: OrderedMap<Vec<u8>, Change> = OrderedMap::new();
        let mut next: Option<IndexId> = head;
        let mut depth: usize = 0;
        let mut decoded: usize = 0;
        let ghost mut chain = chain_start(head);
        while next.is_some()
            invariant
                depth <= MAX_DEPTH,
                decoded <= INDEX_LIMIT,
                start == old(backend).history().len(),
                backend.namespace() == old(backend).namespace(),
                adapter::extends(old(backend).history(), backend.history()),
                adapter::quiet(old(backend).history(), backend.history()),
                chain == (ChainModel {
                    next,
                    objects: objects@,
                    depth: depth as int,
                    decoded: decoded as int,
                    resolved: resolved@,
                }),
                forall|later: Seq<Event>|
                    #![trigger chain_replay(later, start, chain_start(head))]
                    adapter::extends(backend.history(), later) ==> chain_replay(
                        later,
                        start,
                        chain_start(head),
                    ) == chain_replay(later, backend.history().len() as int, chain),
            decreases MAX_DEPTH - depth,
        {
            let id: IndexId = match next {
                Some(id) => id,
                None => {
                    assert(false);
                    return Err(StoreError::Range);
                },
            };
            proof {
                let h = backend.history();
                assert(chain_replay(h, start, chain_start(head)) == chain_replay(
                    h,
                    h.len() as int,
                    chain,
                ));
            }
            if depth >= MAX_DEPTH || !objects.insert(id) {
                return Err(StoreError::Range);
            }
            depth += 1;
            let ghost known = backend.history();
            let bytes: Result<Vec<u8>, StoreError> = read_all(
                backend,
                ObjectKey::Index(id),
                INDEX_LIMIT as u64,
            );
            proof {
                let h = backend.history();
                assert(chain_replay(h, start, chain_start(head)) == chain_replay(
                    h,
                    known.len() as int,
                    chain,
                ));
            }
            let bytes: Vec<u8> = bytes?;
            let layer: Result<(Option<IndexId>, usize), StoreError> = add_layer(
                &id,
                &bytes,
                decoded,
                &mut resolved,
                Ghost(chain),
            );
            proof {
                if opening::is_envelope(bytes@) {
                    assert(opening::read_last(
                        backend.history(),
                        known.len() as int,
                        ObjectKey::Index(id),
                        INDEX_LIMIT as u64,
                    ));
                }
            }
            let (below, total) = layer?;
            next = below;
            decoded = total;
            proof {
                let ghost before = chain;
                chain = chain_step(before, id, bytes@)->Ok_0;
                assert forall|later: Seq<Event>|
                    #![trigger chain_replay(later, start, chain_start(head))]
                    adapter::extends(backend.history(), later) implies chain_replay(
                    later,
                    start,
                    chain_start(head),
                ) == chain_replay(later, backend.history().len() as int, chain) by {
                    assert(adapter::extends(known, later));
                    fetch::lemma_object_settled(
                        backend.history(),
                        later,
                        known.len() as int,
                        ObjectKey::Index(id),
                        INDEX_LIMIT as u64,
                    );
                    assert(chain_replay(later, start, chain_start(head)) == chain_replay(
                        later,
                        known.len() as int,
                        before,
                    ));
                }
            }
        }
        proof {
            let h = backend.history();
            assert(chain_replay(h, start, chain_start(head)) == chain_replay(
                h,
                h.len() as int,
                chain,
            ));
        }
        let entries: OrderedMap<Vec<u8>, Vec<u8>> = keep_living(&resolved);
        Ok(Index { head, objects, entries, dirty: OrderedMap::new(), depth })
    }
}

impl IndexModel {
    /// The index with a value set.
    pub open spec fn with(self, key: Seq<u8>, value: Seq<u8>) -> IndexModel {
        if self.entries.dom().contains(key) && self.entries[key] == value {
            self
        } else {
            IndexModel {
                entries: self.entries.insert(key, value),
                dirty: self.dirty.insert(key, Some(value)),
                ..self
            }
        }
    }

    /// The index without a key.
    pub open spec fn without(self, key: Seq<u8>) -> IndexModel {
        if self.entries.dom().contains(key) {
            IndexModel {
                entries: self.entries.remove(key),
                dirty: self.dirty.insert(key, None),
                ..self
            }
        } else {
            self
        }
    }

    /// Nothing needs to be written.
    pub open spec fn clean(self) -> bool {
        self.dirty == Map::<Seq<u8>, Option<Seq<u8>>>::empty() && self.depth < CHECKPOINT_DEPTH
    }

    /// The next layer starts the index anew.
    pub open spec fn renews(self) -> bool {
        self.head is None || self.depth >= CHECKPOINT_DEPTH
    }

    /// What the next layer says: everything, or the changes.
    pub open spec fn pending(self) -> Map<Seq<u8>, Option<Seq<u8>>> {
        if self.renews() {
            self.entries.map_values(|value: Seq<u8>| Some(value))
        } else {
            self.dirty
        }
    }

    /// The next layer.
    pub open spec fn layer(self) -> LayerModel {
        LayerModel {
            next: if self.renews() {
                None
            } else {
                self.head
            },
            records: order::listing::<Vec<u8>, Option<Seq<u8>>>(self.pending()),
        }
    }

    /// The object of the next layer.
    pub open spec fn layer_object(self) -> Seq<u8> {
        let raw = layer_bytes(self.layer());
        wire::envelope_bytes(INDEX_MAGIC@, raw, codec::zstd_frame(raw, 3))
    }

    /// The name of the next layer.
    pub open spec fn layer_id(self) -> IndexId {
        frame::id_of(digest::content_hash(self.layer_object()))
    }

    /// The index once it is written.
    pub open spec fn written(self) -> IndexModel {
        if self.clean() {
            self
        } else {
            self.flushed(self.layer_id())
        }
    }

    /// What writing the index has the backend do.
    pub open spec fn write_events(self) -> Seq<Event> {
        if self.clean() {
            Seq::empty()
        } else {
            seq![
                Event::Install {
                    key: ObjectKey::Index(self.layer_id()),
                    bytes: self.layer_object(),
                    reply: Ok(()),
                },
            ]
        }
    }

    /// The index once its next layer is written under `id`.
    pub open spec fn flushed(self, id: IndexId) -> IndexModel {
        IndexModel {
            head: Some(id),
            objects: if self.renews() {
                Set::empty().insert(id)
            } else {
                self.objects.insert(id)
            },
            dirty: Map::empty(),
            depth: if self.renews() {
                1
            } else {
                self.depth + 1
            },
            ..self
        }
    }
}

/// A layer that can be written: keys and values of the lengths that a layer can
/// hold, and not too many bytes.
pub open spec fn writable(layer: LayerModel) -> bool {
    &&& layer.records.len() <= u32::MAX
    &&& forall|i: int|
        0 <= i < layer.records.len() ==> {
            let (key, value) = #[trigger] layer.records[i];
            &&& 1 <= key.len() <= MAX_KEY
            &&& value matches Some(bytes) ==> bytes.len() <= u32::MAX
        }
    &&& layer_bytes(layer).len() <= INDEX_LIMIT
}

impl Index {
    /// Sets the value of a key.
    pub fn insert(&mut self, key: Vec<u8>, value: Vec<u8>)
        ensures
            final(self)@ == old(self)@.with(key@, value@),
    {
        let known: bool = match self.entries.get(&key) {
            Some(current) => same_bytes(current.as_slice(), value.as_slice()),
            None => false,
        };
        if !known {
            self.entries.insert(copied(key.as_slice()), copied(value.as_slice()));
            self.dirty.insert(key, Change { value: Some(value) });
        }
    }

    /// Drops a key.
    pub fn remove(&mut self, key: &[u8])
        ensures
            final(self)@ == old(self)@.without(key@),
    {
        let key: Vec<u8> = copied(key);
        if self.entries.remove(&key) {
            self.dirty.insert(key, Change { value: None });
        } else {
            assert(self.entries@ =~= old(self).entries@);
        }
    }

    /// What the next layer says.
    fn gather_pending(&self) -> (records: OrderedMap<Vec<u8>, Change>)
        ensures
            records@ == self@.pending(),
    {
        let mut records: OrderedMap<Vec<u8>, Change> = OrderedMap::new();
        let mut i: usize = 0;
        if self.head.is_none() || self.depth >= CHECKPOINT_DEPTH {
            let count: usize = self.entries.len();
            let ghost list = self.entries.pairs();
            proof {
                order::lemma_walk::<Vec<u8>, Seq<u8>>(list, self.entries@);
            }
            while i < count
                invariant
                    i <= count,
                    count == list.len(),
                    list == self.entries.pairs(),
                    forall|j: int|
                        0 <= j < list.len() ==> self.entries@.dom().contains((#[trigger] list[j]).0)
                            && self.entries@[list[j].0] == list[j].1,
                    forall|key: Seq<u8>| #[trigger]
                        records@.dom().contains(key) ==> self.entries@.dom().contains(key)
                            && records@[key] == Some(self.entries@[key]),
                    forall|j: int| 0 <= j < i ==> records@.dom().contains((#[trigger] list[j]).0),
                decreases count - i,
            {
                assert(self.entries@.dom().contains(list[i as int].0));
                records.insert(
                    copied(self.entries.key_at(i).as_slice()),
                    Change { value: Some(copied(self.entries.value_at(i).as_slice())) },
                );
                i += 1;
            }
            proof {
                assert forall|key: Seq<u8>| self.entries@.dom().contains(key) implies records@.dom().contains(
                    key,
                ) by {
                    let j = choose|j: int| 0 <= j < list.len() && (#[trigger] list[j]).0 == key;
                    assert(records@.dom().contains(list[j].0));
                }
                assert(records@ =~= self@.pending());
            }
        } else {
            let count: usize = self.dirty.len();
            let ghost list = self.dirty.pairs();
            proof {
                order::lemma_walk::<Vec<u8>, Option<Seq<u8>>>(list, self.dirty@);
            }
            while i < count
                invariant
                    i <= count,
                    count == list.len(),
                    list == self.dirty.pairs(),
                    forall|j: int|
                        0 <= j < list.len() ==> self.dirty@.dom().contains((#[trigger] list[j]).0)
                            && self.dirty@[list[j].0] == list[j].1,
                    forall|key: Seq<u8>| #[trigger]
                        records@.dom().contains(key) ==> self.dirty@.dom().contains(key)
                            && records@[key] == self.dirty@[key],
                    forall|j: int| 0 <= j < i ==> records@.dom().contains((#[trigger] list[j]).0),
                decreases count - i,
            {
                assert(self.dirty@.dom().contains(list[i as int].0));
                records.insert(
                    copied(self.dirty.key_at(i).as_slice()),
                    self.dirty.value_at(i).duplicate(),
                );
                i += 1;
            }
            proof {
                assert forall|key: Seq<u8>| self.dirty@.dom().contains(key) implies records@.dom().contains(
                    key,
                ) by {
                    let j = choose|j: int| 0 <= j < list.len() && (#[trigger] list[j]).0 == key;
                    assert(records@.dom().contains(list[j].0));
                }
                assert(records@ =~= self@.pending());
            }
        }
        records
    }

    /// Encodes the next layer.
    fn encode_layer(&self) -> (raw: Result<Vec<u8>, StoreError>)
        ensures
            match raw {
                Ok(r) => writable(self@.layer()) && r@ == layer_bytes(self@.layer()),
                Err(e) => !writable(self@.layer()) && e == StoreError::Range,
            },
    {
        let records: OrderedMap<Vec<u8>, Change> = self.gather_pending();
        let count: usize = records.len();
        let ghost list = records.pairs();
        let ghost layer = self@.layer();
        assert(list == layer.records);
        let next: Option<IndexId> = if self.head.is_none() || self.depth >= CHECKPOINT_DEPTH {
            None
        } else {
            self.head
        };
        let mut raw: Vec<u8> = Vec::new();
        write_choice(&mut raw, next);
        if count > u32::MAX as usize {
            return Err(StoreError::Range);
        }
        u32_bytes(&mut raw, count as u32);
        let ghost head = raw@;
        assert(head =~= choice_bytes(next) + bytes::le(list.len(), 4));
        assert(head + records_bytes(list, 0) == layer_bytes(layer));
        let mut i: usize = 0;
        while i < count
            invariant
                i <= count,
                count == list.len(),
                count <= u32::MAX,
                list == records.pairs(),
                list == layer.records,
                layer == self@.layer(),
                head + records_bytes(list, 0) == layer_bytes(layer),
                head + records_bytes(list, 0) == raw@ + records_bytes(list, i as int),
                forall|j: int|
                    0 <= j < i ==> {
                        let (key, value) = #[trigger] list[j];
                        &&& 1 <= key.len() <= MAX_KEY
                        &&& value matches Some(bytes) ==> bytes.len() <= u32::MAX
                    },
            decreases count - i,
        {
            let key: &Vec<u8> = records.key_at(i);
            let change: &Change = records.value_at(i);
            let ghost now = raw@;
            let ghost rest = records_bytes(list, i as int + 1);
            if key.len() == 0 || key.len() > MAX_KEY {
                assert(!writable(layer)) by {
                    let (k, v) = layer.records[i as int];
                    assert(!(1 <= k.len() <= MAX_KEY));
                }
                return Err(StoreError::Range);
            }
            u32_bytes(&mut raw, key.len() as u32);
            append(&mut raw, key.as_slice());
            match &change.value {
                Some(value) => {
                    if value.len() > u32::MAX as usize {
                        assert(!writable(layer)) by {
                            let (k, v) = layer.records[i as int];
                            assert(v matches Some(bytes) && bytes.len() > u32::MAX);
                        }
                        return Err(StoreError::Range);
                    }
                    raw.push(1);
                    u32_bytes(&mut raw, value.len() as u32);
                    append(&mut raw, value.as_slice());
                },
                None => {
                    raw.push(0);
                },
            }
            proof {
                let record = record_bytes(list[i as int].0, list[i as int].1);
                assert(raw@ =~= now + record);
                assert(now + (record + rest) =~= raw@ + rest);
            }
            i += 1;
        }
        assert(raw@ =~= layer_bytes(layer));
        if raw.len() > INDEX_LIMIT {
            return Err(StoreError::Range);
        }
        Ok(raw)
    }

    /// Writes the changes as a layer, or everything once there are many layers.
    /// Where anything fails the index stays as it was.
    pub fn flush<B: StorageBackend>(&mut self, backend: &mut B) -> (done: Result<(), StoreError>)
        ensures
            final(backend).namespace() == old(backend).namespace(),
            adapter::extends(old(backend).history(), final(backend).history()),
            match done {
                Ok(_) => (old(self)@.clean() || writable(old(self)@.layer())) && final(self)@ == old(
                    self,
                )@.written() && final(backend).history() == old(backend).history() + old(
                    self,
                )@.write_events(),
                Err(error) => final(self)@ == old(self)@ && flush_failed(
                    old(self)@,
                    old(backend).history(),
                    final(backend).history(),
                    error,
                ),
            },
    {
        let dirty: usize = self.dirty.len();
        if dirty == 0 && self.depth < CHECKPOINT_DEPTH {
            assert(backend.history() + self@.write_events() =~= backend.history());
            return Ok(());
        }
        assert(!self@.clean());
        let renews: bool = self.head.is_none() || self.depth >= CHECKPOINT_DEPTH;
        let raw: Vec<u8> = self.encode_layer()?;
        let bytes: Vec<u8> = envelope(&INDEX_MAGIC, raw.as_slice())?;
        let id: IndexId = identify(bytes.as_slice());
        proof {
            draft::lemma_named(id, old(self)@.layer_object());
        }
        put_bytes(backend, ObjectKey::Index(id), bytes.as_slice())?;
        self.head = Some(id);
        if renews {
            self.objects = OrderedSet::new();
            self.depth = 0;
        }
        self.objects.insert(id);
        self.depth += 1;
        self.dirty = OrderedMap::new();
        proof {
            assert(self@ =~= old(self)@.flushed(id));
            assert(backend.history() =~= old(backend).history() + old(self)@.write_events());
        }
        Ok(())
    }
}

/// Writing an index that is not clean failed: its next layer cannot be written,
/// or compressing it failed, or handing it to the backend did.
pub open spec fn flush_failed(
    index: IndexModel,
    earlier: Seq<Event>,
    later: Seq<Event>,
    error: StoreError,
) -> bool {
    !index.clean() && if !writable(index.layer()) {
        error == StoreError::Range && later == earlier
    } else {
        (error is Zstd && later == earlier) || fetch::installed(
            earlier,
            later,
            ObjectKey::Index(index.layer_id()),
            index.layer_object(),
            Err(error),
        )
    }
}

/// The changes of an index, laid over what its layers resolve to, give its
/// entries.
pub open spec fn agrees(index: IndexModel, base: Map<Seq<u8>, Option<Seq<u8>>>) -> bool {
    index.entries == living(base.union_prefer_right(index.dirty))
}

/// Setting and dropping values keeps an index in agreement with its layers.
pub proof fn law_changes_agree(
    index: IndexModel,
    base: Map<Seq<u8>, Option<Seq<u8>>>,
    key: Seq<u8>,
    value: Seq<u8>,
)
    requires
        agrees(index, base),
    ensures
        agrees(index.with(key, value), base),
        agrees(index.without(key), base),
{
    let with = index.with(key, value);
    assert(with.entries =~= living(base.union_prefer_right(with.dirty)));
    let without = index.without(key);
    assert(without.entries =~= living(base.union_prefer_right(without.dirty)));
}

proof fn lemma_beneath_lists(
    above: Map<Seq<u8>, Option<Seq<u8>>>,
    records: Seq<(Seq<u8>, Option<Seq<u8>>)>,
    count: int,
)
    requires
        order::ascending::<Vec<u8>, Option<Seq<u8>>>(records),
        0 <= count <= records.len(),
    ensures
        beneath(above, records, count) == order::mapped::<Vec<u8>, Option<Seq<u8>>>(
            records.take(count),
        ).union_prefer_right(above),
    decreases count,
{
    if count == 0 {
        assert(order::mapped::<Vec<u8>, Option<Seq<u8>>>(records.take(0)).union_prefer_right(above)
            =~= above);
    } else {
        lemma_beneath_lists(above, records, count - 1);
        crate::order::lemma_mapped_step::<Vec<u8>, Option<Seq<u8>>>(records, count - 1);
        assert(beneath(above, records, count) =~= order::mapped::<Vec<u8>, Option<Seq<u8>>>(
            records.take(count),
        ).union_prefer_right(above));
    }
}

/// The next layer of an index, over what its layers resolve to, resolves to the
/// entries of the index: loading what was written gives it back. Where the layer
/// renews the index nothing stands below it.
pub proof fn law_flush_resolves(index: IndexModel, base: Map<Seq<u8>, Option<Seq<u8>>>)
    requires
        agrees(index, base),
        order::ascending::<Vec<u8>, Option<Seq<u8>>>(index.layer().records),
        order::mapped::<Vec<u8>, Option<Seq<u8>>>(index.layer().records) == index.pending(),
    ensures
        ({
            let records = index.layer().records;
            let top = beneath(Map::empty(), records, records.len() as int);
            &&& top == index.pending()
            &&& index.renews() ==> living(top) == index.entries
            &&& !index.renews() ==> living(base.union_prefer_right(top)) == index.entries
        }),
{
    let records = index.layer().records;
    let top = beneath(Map::empty(), records, records.len() as int);
    lemma_beneath_lists(Map::empty(), records, records.len() as int);
    assert(records.take(records.len() as int) =~= records);
    assert(top =~= index.pending());
    if index.renews() {
        assert(living(top) =~= index.entries);
    }
}

proof fn lemma_change_parse(before: Seq<u8>, value: Option<Seq<u8>>, after: Seq<u8>)
    requires
        value matches Some(bytes) ==> bytes.len() <= u32::MAX,
        (before + match value {
            None => seq![0u8],
            Some(bytes) => seq![1u8] + bytes::le(bytes.len(), 4) + bytes,
        } + after).len() <= usize::MAX,
    ensures
        ({
            let piece = match value {
                None => seq![0u8],
                Some(bytes) => seq![1u8] + bytes::le(bytes.len(), 4) + bytes,
            };
            change_at(before + piece + after, before.len() as int) == Ok::<
                (Option<Seq<u8>>, int),
                StoreError,
            >((value, (before.len() + piece.len()) as int))
        }),
{
    let piece = match value {
        None => seq![0u8],
        Some(bytes) => seq![1u8] + bytes::le(bytes.len(), 4) + bytes,
    };
    let whole = before + piece + after;
    let at = before.len() as int;
    crate::bytes::lemma_le_bounds();
    match value {
        None => {
            crate::bytes::law_le_round_trip(0, 1);
            crate::bytes::lemma_le_len(0, 1);
            assert(bytes::le(0, 1) =~= seq![0u8]);
            assert(whole.subrange(at, at + 1) =~= seq![0u8]);
        },
        Some(bytes) => {
            crate::bytes::lemma_le_len(bytes.len(), 4);
            crate::bytes::law_le_round_trip(bytes.len(), 4);
            crate::bytes::law_le_round_trip(1, 1);
            crate::bytes::lemma_le_len(1, 1);
            assert(bytes::le(1, 1) =~= seq![1u8]);
            assert(whole.subrange(at, at + 1) =~= seq![1u8]);
            assert(whole.subrange(at + 1, at + 5) =~= bytes::le(bytes.len(), 4));
            assert(whole.subrange(at + 5, at + 5 + bytes.len()) =~= bytes);
        },
    }
}

proof fn lemma_record_parse(
    before: Seq<u8>,
    key: Seq<u8>,
    value: Option<Seq<u8>>,
    after: Seq<u8>,
)
    requires
        1 <= key.len() <= MAX_KEY,
        value matches Some(bytes) ==> bytes.len() <= u32::MAX,
        (before + record_bytes(key, value) + after).len() <= usize::MAX,
    ensures
        ({
            let at = before.len() as int;
            let whole = before + record_bytes(key, value) + after;
            &&& wire::number_at(whole, at, 4) == Ok::<(nat, int), StoreError>((key.len(), at + 4))
            &&& wire::take_at(whole, at + 4, key.len() as int) == Ok::<(Seq<u8>, int), StoreError>(
                (key, at + 4 + key.len()),
            )
            &&& change_at(whole, at + 4 + key.len()) == Ok::<(Option<Seq<u8>>, int), StoreError>(
                (value, at + record_bytes(key, value).len()),
            )
        }),
{
    let whole = before + record_bytes(key, value) + after;
    let piece = match value {
        None => seq![0u8],
        Some(bytes) => seq![1u8] + bytes::le(bytes.len(), 4) + bytes,
    };
    let at = before.len() as int;
    let length = bytes::le(key.len(), 4);
    crate::bytes::lemma_le_len(key.len(), 4);
    crate::bytes::lemma_le_bounds();
    assert(wire::number_at(whole, at, 4) == Ok::<(nat, int), StoreError>((key.len(), at + 4))) by {
        crate::bytes::law_le_round_trip(key.len(), 4);
        assert(whole.subrange(at, at + 4) =~= length);
    }
    assert(wire::take_at(whole, at + 4, key.len() as int) == Ok::<(Seq<u8>, int), StoreError>(
        (key, at + 4 + key.len()),
    )) by {
        assert(whole.subrange(at + 4, at + 4 + key.len()) =~= key);
    }
    assert(whole =~= (before + length + key) + piece + after);
    lemma_change_parse(before + length + key, value, after);
}

proof fn lemma_records_parse(
    before: Seq<u8>,
    records: Seq<(Seq<u8>, Option<Seq<u8>>)>,
    i: int,
    after: Seq<u8>,
)
    requires
        0 <= i <= records.len(),
        order::ascending::<Vec<u8>, Option<Seq<u8>>>(records),
        forall|j: int|
            0 <= j < records.len() ==> {
                let (key, value) = #[trigger] records[j];
                &&& 1 <= key.len() <= MAX_KEY
                &&& value matches Some(bytes) ==> bytes.len() <= u32::MAX
            },
        (before + records_bytes(records, i) + after).len() <= usize::MAX,
    ensures
        records_from(
            before + records_bytes(records, i) + after,
            before.len() as int,
            (records.len() - i) as nat,
            records.take(i),
        ) == Ok::<(Seq<(Seq<u8>, Option<Seq<u8>>)>, int), StoreError>(
            (records, (before.len() + records_bytes(records, i).len()) as int),
        ),
    decreases records.len() - i,
{
    let whole = before + records_bytes(records, i) + after;
    if i == records.len() {
        assert(records.take(i) =~= records);
    } else {
        let (key, value) = records[i];
        let record = record_bytes(key, value);
        let rest = records_bytes(records, i + 1);
        crate::view_codec::lemma_joined(before, record, rest, after);
        lemma_record_parse(before, key, value, rest + after);
        lemma_records_parse(before + record, records, i + 1, after);
        assert(records.take(i).push(records[i]) =~= records.take(i + 1));
        if i > 0 {
            assert(records.take(i).last() == records[i - 1]);
            assert(Vec::<u8>::precedes(records[i - 1].0, records[i].0));
        }
    }
}

/// Parsing the bytes of a layer that can be written gives the layer back. Many
/// short records of dropped keys are the exception: a layer with more records
/// than a ninth of its bytes is refused when it is read.
pub proof fn law_layer_round_trip(layer: LayerModel)
    requires
        writable(layer),
        order::ascending::<Vec<u8>, Option<Seq<u8>>>(layer.records),
        layer.records.len() <= layer_bytes(layer).len() / 9,
    ensures
        layer_parse(layer_bytes(layer)) == Ok::<LayerModel, StoreError>(layer),
{
    let whole = layer_bytes(layer);
    let choice = choice_bytes(layer.next);
    let count = bytes::le(layer.records.len(), 4);
    let body = records_bytes(layer.records, 0);
    let none = Seq::<u8>::empty();
    crate::bytes::lemma_le_bounds();
    crate::bytes::lemma_le_len(layer.records.len(), 4);
    assert(choice_at(whole, 0) == Ok::<(Option<IndexId>, int), StoreError>(
        (layer.next, choice.len() as int),
    )) by {
        crate::bytes::law_le_round_trip(0, 1);
        crate::bytes::law_le_round_trip(1, 1);
        crate::bytes::lemma_le_len(0, 1);
        crate::bytes::lemma_le_len(1, 1);
        assert(bytes::le(0, 1) =~= seq![0u8]);
        assert(bytes::le(1, 1) =~= seq![1u8]);
        match layer.next {
            None => {
                assert(whole.subrange(0, 1) =~= seq![0u8]);
            },
            Some(id) => {
                assert(whole.subrange(0, 1) =~= seq![1u8]);
                assert(whole.subrange(1, 33) =~= id.bytes@);
                crate::frame::lemma_id_of(id);
            },
        }
    }
    assert(whole =~= choice + count + body);
    crate::wire::lemma_number_piece(choice, layer.records.len(), 4, body);
    assert(whole =~= (choice + count) + body + none);
    lemma_records_parse(choice + count, layer.records, 0, none);
    assert(layer.records.take(0) =~= Seq::<(Seq<u8>, Option<Seq<u8>>)>::empty());
}

/// A layer says of a key only what no layer above it says: where one above it speaks of the
/// key, that stands; where none does, the layer's first record of the key does; and of a key
/// that neither names nothing is known.
pub proof fn law_upper_layer_prevails(
    above: Map<Seq<u8>, Option<Seq<u8>>>,
    records: Seq<(Seq<u8>, Option<Seq<u8>>)>,
    count: int,
    key: Seq<u8>,
)
    requires
        0 <= count <= records.len(),
    ensures
        above.dom().contains(key) ==> beneath(above, records, count).dom().contains(key)
            && beneath(above, records, count)[key] == above[key],
        forall|k: int|
            !above.dom().contains(key) && 0 <= k < count && (#[trigger] records[k]).0 == key && (
            forall|j: int| 0 <= j < k ==> (#[trigger] records[j]).0 != key) ==> beneath(
                above,
                records,
                count,
            ).dom().contains(key) && beneath(above, records, count)[key] == records[k].1,
        !above.dom().contains(key) && (forall|j: int|
            0 <= j < count ==> (#[trigger] records[j]).0 != key) ==> !beneath(
            above,
            records,
            count,
        ).dom().contains(key),
    decreases count,
{
    if count > 0 {
        law_upper_layer_prevails(above, records, count - 1, key);
    }
}

/// Writing an index with changes installs one object, which becomes its head, and leaves no
/// change behind and no entry otherwise. The object says only what changed and goes on with
/// the head before it, unless there is none or sixteen objects stand on one another: then it
/// says everything and stands alone, so that there are never more than sixteen.
pub proof fn law_sixteen_layers_are_renewed(index: IndexModel)
    requires
        index.dirty != Map::<Seq<u8>, Option<Seq<u8>>>::empty() || index.depth >= 16,
    ensures
        index.write_events().len() == 1,
        index.write_events()[0] matches Event::Install { key, bytes, reply } && key
            == ObjectKey::Index(index.layer_id()) && bytes == index.layer_object() && reply is Ok,
        index.written().head == Some(index.layer_id()),
        index.written().objects.contains(index.layer_id()),
        index.written().entries == index.entries,
        index.written().dirty == Map::<Seq<u8>, Option<Seq<u8>>>::empty(),
        index.head is Some && index.depth < 16 ==> index.layer().next == index.head
            && index.pending() == index.dirty && index.written().depth == index.depth + 1
            && index.objects.subset_of(index.written().objects),
        index.head is None || index.depth >= 16 ==> index.layer().next is None && index.written().depth
            == 1 && (forall|key: Seq<u8>|
            #![trigger index.pending().dom().contains(key)]
            index.pending().dom().contains(key) <==> index.entries.dom().contains(key)) && (forall|
            key: Seq<u8>,
        |
            #![trigger index.pending()[key]]
            index.entries.dom().contains(key) ==> index.pending()[key] == Some(index.entries[key])),
        index.depth <= 16 ==> index.written().depth <= 16,
{
}

} // verus!
