//! Blobs: packs one after the other, with an index of them at the end.

use crate::adapter;
use crate::adapter::{BackendError, Event, ObjectKey, ObjectWriter, StorageBackend};
use crate::bytes;
use crate::bytes::{all_zero, append, append_zeros, read_le, same_bytes};
use crate::digest;
use crate::digest::{hash, identify};
use crate::domain::{BlobId, Count, Id, PackId, ValueError};
use crate::error::{StoreError, valued};
use crate::frame;
use crate::order::{Key, OrderedMap};
use crate::pack;
use crate::pack::authenticate;
use crate::placement::{BLOB_HEADER, BlobExtent};
use crate::sorting;
use crate::sorting::{Ranked, sorted_order};
use crate::wire;
use crate::wire::{Decoder, u32_bytes, u64_bytes};
use vstd::prelude::*;
use vstd::slice::slice_subrange;

verus! {

/// The most packs of one blob.
pub const MAX_BLOB_PACKS: usize = 4096;

/// `ZBLOB001`.
pub const BLOB_MAGIC: [u8; 8] = [90, 66, 76, 79, 66, 48, 48, 49];

/// `ZBINDEX1`.
pub const BLOB_INDEX_MAGIC: [u8; 8] = [90, 66, 73, 78, 68, 69, 88, 49];

/// `ZBEND001`.
pub const BLOB_END_MAGIC: [u8; 8] = [90, 66, 69, 78, 68, 48, 48, 49];

/// `zsqlite/blob/v1\0`.
pub const BLOB_DOMAIN: [u8; 16] = [122, 115, 113, 108, 105, 116, 101, 47, 98, 108, 111, 98, 47, 118, 49, 0];

impl Ranked for BlobExtent {
    open spec fn at_most(a: BlobExtent, b: BlobExtent) -> bool {
        a.offset.value <= b.offset.value
    }

    proof fn lemma_total(a: BlobExtent, b: BlobExtent) {
    }

    proof fn lemma_transitive(a: BlobExtent, b: BlobExtent, c: BlobExtent) {
    }

    fn not_above(&self, other: &BlobExtent) -> bool {
        self.offset.value <= other.offset.value
    }
}

/// What the identity of a blob covers.
pub open spec fn blob_input(index: Seq<u8>, length: int) -> Seq<u8> {
    BLOB_DOMAIN@ + index + bytes::le(length as nat, 8)
}

/// The identity of a blob with this index and length.
pub fn blob_identity(index: &[u8], length: u64) -> (blob: BlobId)
    ensures
        digest::names(blob, blob_input(index@, length as int)),
{
    let mut input: Vec<u8> = Vec::new();
    append(&mut input, BLOB_DOMAIN.as_slice());
    append(&mut input, index);
    u64_bytes(&mut input, length);
    assert(input@ =~= blob_input(index@, length as int));
    identify(input.as_slice())
}

/// One entry of a blob's index.
#[derive(Clone, Copy, Debug, PartialEq, Eq)]
pub struct IndexEntry {
    pub pack: PackId,
    pub offset: u64,
    pub length: u64,
}

impl IndexEntry {
    pub open spec fn record(self) -> Seq<u8> {
        self.pack.bytes@ + bytes::le(self.offset as nat, 8) + bytes::le(self.length as nat, 8)
    }

    /// The extent of the entry in a blob of this length.
    pub open spec fn extent(self, blob: BlobId, total: int) -> BlobExtent {
        BlobExtent {
            blob,
            offset: Count { value: self.offset },
            length: Count { value: self.length },
            blob_length: Count { value: total as u64 },
        }
    }
}

/// Reading an entry of an index.
pub open spec fn entry_at(index: Seq<u8>, position: int) -> Result<(IndexEntry, int), StoreError> {
    match wire::take_at(index, position, 32) {
        Err(error) => Err(error),
        Ok((pack, p)) => match wire::number_at(index, p, 8) {
            Err(error) => Err(error),
            Ok((offset, p)) => match wire::number_at(index, p, 8) {
                Err(error) => Err(error),
                Ok((length, p)) => Ok(
                    (
                        IndexEntry {
                            pack: frame::id_of(pack),
                            offset: offset as u64,
                            length: length as u64,
                        },
                        p,
                    ),
                ),
            },
        },
    }
}

/// The pack of an entry is where the entry says, before the index, and
/// authentic.
pub open spec fn entry_check(bytes: Seq<u8>, blob: BlobId, end: int, entry: IndexEntry) -> Result<
    (),
    StoreError,
> {
    if !entry.extent(blob, bytes.len() as int).wf() {
        Err(StoreError::Value(ValueError))
    } else if entry.offset < BLOB_HEADER || entry.offset + entry.length > end {
        Err(StoreError::Corrupt(0))
    } else {
        Ok(())
    }
}

/// The bytes of an entry's pack authenticate under its identity.
pub open spec fn entry_authentic(bytes: Seq<u8>, entry: IndexEntry) -> Result<(), StoreError> {
    match pack::pack_parse(bytes.subrange(entry.offset as int, entry.offset + entry.length)) {
        Err(error) => Err(error),
        Ok(input) => if digest::names(entry.pack, input) {
            Ok(())
        } else {
            Err(StoreError::Corrupt(0))
        },
    }
}

/// Reading `count` entries with ascending packs after those in `seen`.
pub open spec fn entries_from(
    bytes: Seq<u8>,
    blob: BlobId,
    end: int,
    index: Seq<u8>,
    position: int,
    count: nat,
    seen: Seq<IndexEntry>,
) -> Result<(Seq<IndexEntry>, int), StoreError>
    decreases count,
{
    if count == 0 {
        Ok((seen, position))
    } else {
        match entry_at(index, position) {
            Err(error) => Err(error),
            Ok((entry, p)) => match entry_check(bytes, blob, end, entry) {
                Err(error) => Err(error),
                Ok(_) => if seen.len() > 0 && !PackId::precedes(seen.last().pack, entry.pack) {
                    Err(StoreError::Corrupt(0))
                } else {
                    match entry_authentic(bytes, entry) {
                        Err(error) => Err(error),
                        Ok(_) => entries_from(
                            bytes,
                            blob,
                            end,
                            index,
                            p,
                            (count - 1) as nat,
                            seen.push(entry),
                        ),
                    }
                },
            },
        }
    }
}

/// Along `order`, the extents follow each other from `start` to `end` without a
/// gap.
pub open spec fn chained(extents: Seq<BlobExtent>, order: Seq<usize>, start: int, end: int) -> bool {
    &&& forall|i: int|
        0 <= i < order.len() ==> (#[trigger] extents[order[i] as int]).offset.value == chain_start(
            extents,
            order,
            start,
            i,
        )
    &&& chain_start(extents, order, start, order.len() as int) == end
}

/// Where the extent at place `i` of a chain must start.
pub open spec fn chain_start(extents: Seq<BlobExtent>, order: Seq<usize>, start: int, i: int) -> int
    decreases i,
{
    if i <= 0 {
        start
    } else {
        chain_start(extents, order, start, i - 1) + extents[order[i - 1] as int].length.value
    }
}

/// The extents of some entries.
pub open spec fn extents_of(entries: Seq<IndexEntry>, blob: BlobId, total: int) -> Seq<BlobExtent> {
    Seq::new(entries.len(), |i: int| entries[i].extent(blob, total))
}

/// The entries of an authentic blob, or why the bytes are none.
pub open spec fn blob_parse(blob: BlobId, bytes: Seq<u8>) -> Result<Seq<IndexEntry>, StoreError> {
    let total = bytes.len() as int;
    if total < 92 || bytes.take(32) != BLOB_MAGIC@ + bytes::zeros(24) {
        Err(StoreError::Corrupt(0))
    } else {
        let end = bytes::le_value(bytes.subrange(total - 16, total - 8)) as int;
        if end > usize::MAX {
            Err(StoreError::Range)
        } else if bytes.subrange(total - 8, total) != BLOB_END_MAGIC@ || end < 32 {
            Err(StoreError::Corrupt(0))
        } else if end > total - 16 {
            Err(StoreError::Range)
        } else if total - 16 - end < 44 {
            Err(StoreError::Corrupt(0))
        } else {
            let index = bytes.subrange(end, total - 48);
            if digest::content_hash(index) != bytes.subrange(total - 48, total - 16) || !digest::names(
                blob,
                blob_input(index, total),
            ) {
                Err(StoreError::Corrupt(0))
            } else {
                index_parse(blob, bytes, end, index)
            }
        }
    }
}

/// The entries of a blob's index.
pub open spec fn index_parse(blob: BlobId, bytes: Seq<u8>, end: int, index: Seq<u8>) -> Result<
    Seq<IndexEntry>,
    StoreError,
> {
    match wire::take_at(index, 0, 8) {
        Err(error) => Err(error),
        Ok((magic, p)) => if magic != BLOB_INDEX_MAGIC@ {
            Err(StoreError::Corrupt(0))
        } else {
            match wire::number_at(index, p, 4) {
                Err(error) => Err(error),
                Ok((count, p)) => if count == 0 || count > MAX_BLOB_PACKS {
                    Err(StoreError::Range)
                } else {
                    match entries_from(bytes, blob, end, index, p, count, Seq::empty()) {
                        Err(error) => Err(error),
                        Ok((entries, p)) => match wire::finish_at(index, p) {
                            Err(error) => Err(error),
                            Ok(_) => {
                                let extents = extents_of(entries, blob, bytes.len() as int);
                                if chained(extents, sorting::order_of(extents), BLOB_HEADER as int, end) {
                                    Ok(entries)
                                } else {
                                    Err(StoreError::Corrupt(0))
                                }
                            },
                        },
                    }
                },
            }
        },
    }
}

/// Some entry is of this pack.
pub open spec fn entered(entries: Seq<IndexEntry>, pack: PackId) -> bool {
    exists|i: int| 0 <= i < entries.len() && (#[trigger] entries[i]).pack == pack
}

/// The packs of a blob and where they stand, authenticated against the whole
/// blob and every whole pack.
#[derive(Debug, PartialEq, Eq)]
pub struct BlobIndex {
    extents: OrderedMap<PackId, BlobExtent>,
}

impl BlobIndex {
    pub closed spec fn places(&self) -> Map<PackId, BlobExtent> {
        self.extents@
    }

    pub fn extents(&self) -> (extents: &OrderedMap<PackId, BlobExtent>)
        ensures
            extents@ == self.places(),
    {
        &self.extents
    }

    /// Authenticates a whole blob.
    pub fn authenticate(blob: BlobId, bytes: &[u8]) -> (index: Result<Self, StoreError>)
        ensures
            match index {
                Ok(i) => (blob_parse(blob, bytes@) matches Ok(entries) && indexes(
                    i.places(),
                    entries,
                    blob,
                    bytes@.len() as int,
                )),
                Err(e) => blob_parse(blob, bytes@) == Err::<Seq<IndexEntry>, StoreError>(e),
            },
    {
        let total: usize = bytes.len();
        if total < 92 {
            return Err(StoreError::Corrupt(0));
        }
        let magic: &[u8] = slice_subrange(bytes, 0, 8);
        let padding: &[u8] = slice_subrange(bytes, 8, 32);
        let calm: bool = all_zero(padding);
        let marked: bool = same_bytes(magic, BLOB_MAGIC.as_slice());
        proof {
            let head = bytes@.take(32);
            assert(head =~= magic@ + padding@);
            if calm {
                assert(padding@ =~= bytes::zeros(24));
            }
            if head == BLOB_MAGIC@ + bytes::zeros(24) {
                assert(magic@ =~= head.subrange(0, 8));
                assert(magic@ =~= BLOB_MAGIC@);
                assert forall|i: int| 0 <= i < 24 implies padding@[i] == 0 by {
                    assert(padding@[i] == head[i + 8]);
                    assert(bytes::zeros(24)[i] == 0);
                }
            }
        }
        if !marked || !calm {
            return Err(StoreError::Corrupt(0));
        }
        let field: &[u8] = slice_subrange(bytes, total - 16, total - 8);
        let end: u64 = read_le(field);
        if end > usize::MAX as u64 {
            return Err(StoreError::Range);
        }
        if !same_bytes(slice_subrange(bytes, total - 8, total), BLOB_END_MAGIC.as_slice()) || end
            < 32 {
            return Err(StoreError::Corrupt(0));
        }
        let end: usize = end as usize;
        if end > total - 16 {
            return Err(StoreError::Range);
        }
        if total - 16 - end < 44 {
            return Err(StoreError::Corrupt(0));
        }
        let index: &[u8] = slice_subrange(bytes, end, total - 48);
        if !same_bytes(hash(index).as_slice(), slice_subrange(bytes, total - 48, total - 16)) {
            return Err(StoreError::Corrupt(0));
        }
        let derived: BlobId = blob_identity(index, total as u64);
        let same: bool = derived.same(&blob);
        proof {
            if digest::names(blob, blob_input(index@, total as int)) {
                crate::domain::lemma_id_extensional(blob, derived);
            }
        }
        if !same {
            return Err(StoreError::Corrupt(0));
        }
        let mut wire: Decoder = Decoder::new(index);
        if !same_bytes(wire.take(8)?, BLOB_INDEX_MAGIC.as_slice()) {
            return Err(StoreError::Corrupt(0));
        }
        let count: u32 = wire.u32()?;
        if count == 0 || count > MAX_BLOB_PACKS as u32 {
            return Err(StoreError::Range);
        }
        let entries: Vec<IndexEntry> = read_entries(bytes, blob, end, count, &mut wire)?;
        wire.finish()?;
        let mut extents: Vec<BlobExtent> = Vec::new();
        let mut places: OrderedMap<PackId, BlobExtent> = OrderedMap::new();
        let mut i: usize = 0;
        while i < entries.len()
            invariant
                i <= entries@.len(),
                total == bytes@.len(),
                extents@.len() == i,
                forall|j: int|
                    0 <= j < i ==> #[trigger] extents@[j] == entries@[j].extent(blob, total as int),
                forall|j: int, k: int|
                    0 <= j < k < entries@.len() ==> PackId::precedes(
                        (#[trigger] entries@[j]).pack,
                        (#[trigger] entries@[k]).pack,
                    ),
                indexes(places@, entries@.take(i as int), blob, total as int),
            decreases entries.len() - i,
        {
            let entry: IndexEntry = entries[i];
            let extent = BlobExtent {
                blob,
                offset: Count { value: entry.offset },
                length: Count { value: entry.length },
                blob_length: Count { value: total as u64 },
            };
            let ghost before = places@;
            extents.push(extent);
            places.insert(entry.pack, extent);
            proof {
                let seen = entries@.take(i as int);
                let more = entries@.take(i as int + 1);
                assert(more.take(seen.len() as int) =~= seen);
                lemma_index_grows(before, seen, more, entry.pack, extent, blob, total as int);
            }
            i += 1;
        }
        assert(extents@ =~= extents_of(entries@, blob, total as int));
        assert(entries@.take(i as int) =~= entries@);
        if !check_chain(extents.as_slice(), BLOB_HEADER, end as u64) {
            return Err(StoreError::Corrupt(0));
        }
        Ok(BlobIndex { extents: places })
    }
}

/// The map holds the extent of each entry and nothing else.
pub open spec fn indexes(
    places: Map<PackId, BlobExtent>,
    entries: Seq<IndexEntry>,
    blob: BlobId,
    total: int,
) -> bool {
    &&& forall|pack: PackId| #[trigger] places.dom().contains(pack) <==> entered(entries, pack)
    &&& forall|i: int|
        0 <= i < entries.len() ==> #[trigger] places[entries[i].pack] == entries[i].extent(
            blob,
            total,
        )
}

/// Whether the extents follow each other without a gap.
fn check_chain(extents: &[BlobExtent], start: u64, end: u64) -> (whole: bool)
    requires
        forall|i: int|
            0 <= i < extents@.len() ==> (#[trigger] extents@[i]).offset.value
                + extents@[i].length.value <= u64::MAX,
    ensures
        whole == chained(extents@, sorting::order_of(extents@), start as int, end as int),
{
    let order: Vec<usize> = sorted_order(extents);
    let mut at: u64 = start;
    let mut i: usize = 0;
    while i < order.len()
        invariant
            i <= order@.len(),
            order@ == sorting::order_of(extents@),
            crate::sorting::covers(order@, extents@.len() as int),
            at == chain_start(extents@, order@, start as int, i as int),
            forall|j: int|
                0 <= j < i ==> (#[trigger] extents@[order@[j] as int]).offset.value == chain_start(
                    extents@,
                    order@,
                    start as int,
                    j,
                ),
            forall|j: int|
                0 <= j < extents@.len() ==> (#[trigger] extents@[j]).offset.value
                    + extents@[j].length.value <= u64::MAX,
        decreases order.len() - i,
    {
        let extent: BlobExtent = extents[order[i]];
        if extent.offset.value != at {
            assert(extents@[order@[i as int] as int].offset.value != chain_start(
                extents@,
                order@,
                start as int,
                i as int,
            ));
            return false;
        }
        at = at + extent.length.value;
        i += 1;
    }
    at == end
}

fn read_entry(wire: &mut Decoder) -> (entry: Result<IndexEntry, StoreError>)
    requires
        old(wire).wf(),
    ensures
        final(wire).wf(),
        final(wire).bytes@ == old(wire).bytes@,
        match entry {
            Ok(e) => entry_at(old(wire).bytes@, old(wire).position as int) == Ok::<
                (IndexEntry, int),
                StoreError,
            >((e, final(wire).position as int)),
            Err(e) => entry_at(old(wire).bytes@, old(wire).position as int) == Err::<
                (IndexEntry, int),
                StoreError,
            >(e),
        },
{
    let pack: PackId = Id { bytes: wire.array()? };
    proof {
        frame::lemma_id_of(pack);
    }
    let offset: u64 = wire.u64()?;
    let length: u64 = wire.u64()?;
    Ok(IndexEntry { pack, offset, length })
}

fn check_entry(bytes: &[u8], blob: BlobId, end: usize, entry: IndexEntry) -> (done: Result<
    (),
    StoreError,
>)
    ensures
        done == entry_check(bytes@, blob, end as int, entry),
{
    let total: u64 = bytes.len() as u64;
    let extent: BlobExtent = valued(
        BlobExtent::new(
            blob,
            Count { value: entry.offset },
            Count { value: entry.length },
            Count { value: total },
            Count { value: entry.length },
        ),
    )?;
    if entry.offset < BLOB_HEADER || entry.offset + entry.length > end as u64 {
        return Err(StoreError::Corrupt(0));
    }
    Ok(())
}

fn authenticate_entry(bytes: &[u8], entry: IndexEntry) -> (done: Result<(), StoreError>)
    requires
        entry.offset + entry.length <= bytes@.len(),
    ensures
        done == entry_authentic(bytes@, entry),
{
    let total: usize = bytes.len();
    let payload: &[u8] = slice_subrange(
        bytes,
        entry.offset as usize,
        (entry.offset + entry.length) as usize,
    );
    let derived: PackId = authenticate(payload)?;
    let same: bool = derived.same(&entry.pack);
    proof {
        let input = pack::pack_parse(payload@)->Ok_0;
        if digest::names(entry.pack, input) {
            crate::domain::lemma_id_extensional(entry.pack, derived);
        }
    }
    if !same {
        return Err(StoreError::Corrupt(0));
    }
    Ok(())
}

fn read_entries(
    bytes: &[u8],
    blob: BlobId,
    end: usize,
    count: u32,
    wire: &mut Decoder,
) -> (entries: Result<Vec<IndexEntry>, StoreError>)
    requires
        old(wire).wf(),
        end <= bytes@.len(),
    ensures
        final(wire).wf(),
        final(wire).bytes@ == old(wire).bytes@,
        match entries {
            Ok(v) => entries_from(
                bytes@,
                blob,
                end as int,
                old(wire).bytes@,
                old(wire).position as int,
                count as nat,
                Seq::empty(),
            ) == Ok::<(Seq<IndexEntry>, int), StoreError>((v@, final(wire).position as int)) && (
            forall|i: int, j: int|
                0 <= i < j < v@.len() ==> PackId::precedes(
                    (#[trigger] v@[i]).pack,
                    (#[trigger] v@[j]).pack,
                )) && (forall|i: int|
                0 <= i < v@.len() ==> (#[trigger] v@[i]).offset + v@[i].length <= end),
            Err(e) => entries_from(
                bytes@,
                blob,
                end as int,
                old(wire).bytes@,
                old(wire).position as int,
                count as nat,
                Seq::empty(),
            ) == Err::<(Seq<IndexEntry>, int), StoreError>(e),
        },
{
    let mut entries: Vec<IndexEntry> = Vec::new();
    let mut i: u32 = 0;
    let ghost goal = entries_from(
        bytes@,
        blob,
        end as int,
        wire.bytes@,
        wire.position as int,
        count as nat,
        Seq::<IndexEntry>::empty(),
    );
    assert(entries@ =~= Seq::<IndexEntry>::empty());
    while i < count
        invariant
            i <= count,
            wire.wf(),
            wire.bytes@ == old(wire).bytes@,
            end <= bytes@.len(),
            entries@.len() == i,
            goal == entries_from(
                bytes@,
                blob,
                end as int,
                old(wire).bytes@,
                old(wire).position as int,
                count as nat,
                Seq::<IndexEntry>::empty(),
            ),
            goal == entries_from(
                bytes@,
                blob,
                end as int,
                wire.bytes@,
                wire.position as int,
                (count - i) as nat,
                entries@,
            ),
            forall|a: int, b: int|
                0 <= a < b < entries@.len() ==> PackId::precedes(
                    (#[trigger] entries@[a]).pack,
                    (#[trigger] entries@[b]).pack,
                ),
            forall|a: int|
                0 <= a < entries@.len() ==> (#[trigger] entries@[a]).offset + entries@[a].length
                    <= end,
        decreases count - i,
    {
        let entry: IndexEntry = read_entry(wire)?;
        check_entry(bytes, blob, end, entry)?;
        if i > 0 {
            let last: IndexEntry = entries[i as usize - 1];
            assert(entries@.last() == last);
            if !last.pack.before(&entry.pack) {
                return Err(StoreError::Corrupt(0));
            }
        }
        authenticate_entry(bytes, entry)?;
        let ghost before = entries@;
        entries.push(entry);
        i += 1;
        proof {
            assert forall|a: int, b: int| 0 <= a < b < entries@.len() implies PackId::precedes(
                (#[trigger] entries@[a]).pack,
                (#[trigger] entries@[b]).pack,
            ) by {
                if b == before.len() {
                    assert(entries@[a] == before[a]);
                    if a < b - 1 {
                        PackId::lemma_transitive(before[a].pack, before[b - 1].pack, entry.pack);
                    }
                }
            }
        }
    }
    Ok(entries)
}

/// The records of the entries from place `i` on.
pub open spec fn entries_bytes(entries: Seq<IndexEntry>, i: int) -> Seq<u8>
    decreases entries.len() - i,
{
    if i >= entries.len() {
        Seq::empty()
    } else {
        entries[i].record() + entries_bytes(entries, i + 1)
    }
}

/// The index of a blob.
pub open spec fn index_bytes(entries: Seq<IndexEntry>) -> Seq<u8> {
    BLOB_INDEX_MAGIC@ + bytes::le(entries.len(), 4) + entries_bytes(entries, 0)
}

/// A whole blob: its header and packs, the index, the digest of the index, and
/// where the index starts.
pub open spec fn blob_bytes(body: Seq<u8>, entries: Seq<IndexEntry>) -> Seq<u8> {
    body + index_bytes(entries) + digest::content_hash(index_bytes(entries)) + bytes::le(body.len(), 8)
        + BLOB_END_MAGIC@
}

/// The header of every blob.
pub open spec fn blob_header() -> Seq<u8> {
    BLOB_MAGIC@ + bytes::zeros(24)
}

/// Where a pack under way starts, and how long it is.
#[derive(Clone, Copy, Debug, PartialEq, Eq)]
pub struct PackSpan {
    pub offset: u64,
    pub length: u64,
}

impl View for PackSpan {
    type V = PackSpan;

    open spec fn view(&self) -> PackSpan {
        *self
    }
}

/// The entries for some packs, in the order of the packs.
pub open spec fn span_entries(pairs: Seq<(PackId, PackSpan)>) -> Seq<IndexEntry> {
    Seq::new(
        pairs.len(),
        |i: int|
            IndexEntry { pack: pairs[i].0, offset: pairs[i].1.offset, length: pairs[i].1.length },
    )
}

/// A stream broke, which is the error.
pub open spec fn broke_off(before: Seq<Event>, after: Seq<Event>, error: StoreError) -> bool {
    error matches StoreError::Backend(e) && adapter::broke(before, after, e)
}

/// An object is longer than can be counted; nothing is asked of the backend then.
pub open spec fn too_long(before: Seq<Event>, after: Seq<Event>, error: StoreError) -> bool {
    error matches StoreError::Backend(e) && e is Io && after == before
}

/// Streams packs into a new blob. The backend learns the blob's key at the end.
pub struct BlobWriter<B: StorageBackend> {
    writer: B::Writer,
    offset: u64,
    ranges: OrderedMap<PackId, PackSpan>,
}

impl<B: StorageBackend> BlobWriter<B> {
    /// What was written so far.
    pub closed spec fn body(&self) -> Seq<u8> {
        self.writer.written()
    }

    /// The packs that are complete.
    pub closed spec fn packs(&self) -> Map<PackId, PackSpan> {
        self.ranges@
    }

    /// The position is that of the body's end.
    pub closed spec fn wf(&self) -> bool {
        self.offset == self.writer.written().len()
    }

    /// Begins a blob with its header.
    pub fn new(backend: &mut B) -> (writer: Result<Self, StoreError>)
        ensures
            final(backend).namespace() == old(backend).namespace(),
            match writer {
                Ok(w) => w.wf() && w.body() == blob_header() && w.packs() == Map::<
                    PackId,
                    PackSpan,
                >::empty() && final(backend).history() == old(backend).history(),
                Err(e) => broke_off(old(backend).history(), final(backend).history(), e),
            },
    {
        let inner: B::Writer = match backend.begin_write() {
            Ok(inner) => inner,
            Err(error) => {
                return Err(StoreError::Backend(error));
            },
        };
        let mut writer: BlobWriter<B> = BlobWriter {
            writer: inner,
            offset: 0,
            ranges: OrderedMap::new(),
        };
        let mut header: Vec<u8> = Vec::new();
        append(&mut header, BLOB_MAGIC.as_slice());
        append_zeros(&mut header, 24);
        writer.write_all(backend, header.as_slice())?;
        assert(writer.body() =~= blob_header());
        Ok(writer)
    }

    /// The number of bytes written so far.
    pub fn position(&self) -> (position: u64)
        requires
            self.wf(),
        ensures
            position == self.body().len(),
    {
        self.offset
    }

    /// Writes all of `bytes`, however short the single writes are. After an error
    /// a first part of them may have been written.
    pub fn write_all(&mut self, backend: &mut B, bytes: &[u8]) -> (done: Result<(), StoreError>)
        requires
            old(self).wf(),
        ensures
            final(self).wf(),
            final(self).packs() == old(self).packs(),
            final(backend).namespace() == old(backend).namespace(),
            match done {
                Ok(_) => final(self).body() == old(self).body() + bytes@ && final(
                    backend).history() == old(backend).history(),
                Err(e) => {
                    &&& exists|n: int|
                        0 <= n <= bytes@.len() && #[trigger] (old(self).body() + bytes@.take(n))
                            == final(self).body()
                    &&& broke_off(old(backend).history(), final(backend).history(), e) || (
                    old(self).body().len() + bytes@.len() > u64::MAX && too_long(
                        old(backend).history(),
                        final(backend).history(),
                        e,
                    ))
                },
            },
    {
        let mut done: usize = 0;
        proof {
            assert(old(self).body() + bytes@.take(0) =~= old(self).body());
        }
        while done < bytes.len()
            invariant
                done <= bytes@.len(),
                self.wf(),
                self.packs() == old(self).packs(),
                backend.namespace() == old(backend).namespace(),
                backend.history() == old(backend).history(),
                self.body() == old(self).body() + bytes@.take(done as int),
            decreases bytes.len() - done,
        {
            let rest: &[u8] = slice_subrange(bytes, done, bytes.len());
            match self.offset.checked_add(rest.len() as u64) {
                Some(_) => {},
                None => {
                    return Err(
                        StoreError::Backend(
                            BackendError::Io("object length overflow".to_owned()),
                        ),
                    );
                },
            }
            let ghost before = self.body();
            match backend.write(&mut self.writer, rest) {
                Ok(count) => {
                    self.offset = self.offset + count as u64;
                    proof {
                        assert(bytes@.take(done as int) + rest@.take(count as int) =~= bytes@.take(
                            done + count,
                        ));
                        assert(before + rest@.take(count as int) =~= old(self).body() + bytes@.take(
                            done + count,
                        ));
                    }
                    if count == 0 {
                        return Err(
                            StoreError::Backend(
                                BackendError::Io("write accepted nothing".to_owned()),
                            ),
                        );
                    }
                    done = done + count;
                },
                Err(error) => {
                    return Err(StoreError::Backend(error));
                },
            }
        }
        proof {
            assert(bytes@.take(bytes@.len() as int) =~= bytes@);
        }
        Ok(())
    }

    /// Notes that the bytes from `start` to the end are this pack.
    pub fn complete_pack(&mut self, pack: PackId, start: u64) -> (done: Result<(), StoreError>)
        requires
            old(self).wf(),
        ensures
            final(self).wf(),
            final(self).body() == old(self).body(),
            ({
                let refused = listing_len(old(self).packs()) >= MAX_BLOB_PACKS || old(
                    self).packs().dom().contains(pack) || start >= old(self).body().len();
                if refused {
                    done == Err::<(), StoreError>(StoreError::Range) && final(self).packs() == old(
                        self).packs()
                } else {
                    done == Ok::<(), StoreError>(()) && final(self).packs() == old(
                        self).packs().insert(
                        pack,
                        PackSpan {
                            offset: start,
                            length: (old(self).body().len() - start) as u64,
                        },
                    )
                }
            }),
    {
        if self.ranges.len() >= MAX_BLOB_PACKS || self.ranges.contains_key(&pack) || start
            >= self.offset {
            return Err(StoreError::Range);
        }
        self.ranges.insert(pack, PackSpan { offset: start, length: self.offset - start });
        Ok(())
    }

    /// Ends the blob with its index and installs it. At least one pack must be
    /// complete. What is installed is the whole blob, under the identity that its
    /// index and length give.
    pub fn finish(self, backend: &mut B) -> (done: Result<
        (BlobId, OrderedMap<PackId, BlobExtent>),
        StoreError,
    >)
        requires
            self.wf(),
        ensures
            final(backend).namespace() == old(backend).namespace(),
            ({
                let entries = span_entries(crate::order::listing::<PackId, PackSpan>(self.packs()));
                let whole = blob_bytes(self.body(), entries);
                &&& entries.len() == 0 ==> done == Err::<
                    (BlobId, OrderedMap<PackId, BlobExtent>),
                    StoreError,
                >(StoreError::Range) && final(backend).history() == old(backend).history()
                &&& match done {
                    Ok((blob, extents)) => digest::names(
                        blob,
                        blob_input(index_bytes(entries), whole.len() as int),
                    ) && indexes(extents@, entries, blob, whole.len() as int) && final(
                        backend).history() == old(backend).history().push(
                        Event::Install {
                            key: ObjectKey::Blob(blob),
                            bytes: whole,
                            reply: Ok(()),
                        },
                    ),
                    Err(e) => {
                        ||| e == StoreError::Range && (entries.len() == 0 || whole.len()
                            > u64::MAX || entries.len() > u32::MAX) && final(
                            backend).history() == old(backend).history()
                        ||| broke_off(old(backend).history(), final(backend).history(), e)
                        ||| e is Backend && exists|blob: BlobId|
                            #[trigger] digest::names(
                                blob,
                                blob_input(index_bytes(entries), whole.len() as int),
                            ) && final(backend).history() == old(backend).history().push(
                                Event::Install {
                                    key: ObjectKey::Blob(blob),
                                    bytes: whole,
                                    reply: Err(e->Backend_0),
                                },
                            )
                    },
                }
            }),
    {
        let count: usize = self.ranges.len();
        let ghost pairs = self.ranges.pairs();
        let ghost entries = span_entries(pairs);
        if count == 0 {
            return Err(StoreError::Range);
        }
        if count as u64 > u32::MAX as u64 {
            return Err(StoreError::Range);
        }
        let mut this: BlobWriter<B> = self;
        let start: u64 = this.offset;
        let mut footer: Vec<u8> = Vec::new();
        append(&mut footer, BLOB_INDEX_MAGIC.as_slice());
        u32_bytes(&mut footer, count as u32);
        let ghost fixed = footer@;
        let mut i: usize = 0;
        while i < count
            invariant
                i <= count,
                count == pairs.len(),
                pairs == this.ranges.pairs(),
                entries == span_entries(pairs),
                fixed + entries_bytes(entries, 0) == footer@ + entries_bytes(entries, i as int),
            decreases count - i,
        {
            let ghost now = footer@;
            let pack: PackId = *this.ranges.key_at(i);
            let span: PackSpan = *this.ranges.value_at(i);
            append(&mut footer, pack.bytes.as_slice());
            u64_bytes(&mut footer, span.offset);
            u64_bytes(&mut footer, span.length);
            proof {
                let rest = entries_bytes(entries, i as int + 1);
                assert(footer@ =~= now + entries[i as int].record());
                assert(now + (entries[i as int].record() + rest) =~= footer@ + rest);
            }
            i += 1;
        }
        proof {
            assert(footer@ + entries_bytes(entries, i as int) =~= footer@);
            assert(footer@ =~= index_bytes(entries));
        }
        proof {
            crate::bytes::lemma_le_len(start as nat, 8);
            assert(blob_bytes(this.body(), entries).len() == start + footer@.len() + 48);
        }
        let length: u64 = match start.checked_add(footer.len() as u64) {
            Some(sum) => match sum.checked_add(48) {
                Some(length) => length,
                None => {
                    return Err(StoreError::Range);
                },
            },
            None => {
                return Err(StoreError::Range);
            },
        };
        let blob: BlobId = blob_identity(footer.as_slice(), length);
        let sum: [u8; 32] = hash(footer.as_slice());
        append(&mut footer, sum.as_slice());
        u64_bytes(&mut footer, start);
        append(&mut footer, BLOB_END_MAGIC.as_slice());
        let ghost body = this.body();
        proof {
            assert(footer@.len() + body.len() == length);
        }
        this.write_all(backend, footer.as_slice())?;
        let ghost whole = blob_bytes(body, entries);
        proof {
            crate::bytes::lemma_le_len(start as nat, 8);
            assert(this.body() =~= whole);
            assert(whole.len() == length);
        }
        match backend.finish_write(this.writer, ObjectKey::Blob(blob), Count { value: length }) {
            Ok(unit) => {
                assert(unit == ());
            },
            Err(error) => {
                return Err(StoreError::Backend(error));
            },
        }
        let mut extents: OrderedMap<PackId, BlobExtent> = OrderedMap::new();
        let mut i: usize = 0;
        while i < count
            invariant
                i <= count,
                count == pairs.len(),
                pairs == this.ranges.pairs(),
                crate::order::ascending::<PackId, PackSpan>(pairs),
                entries == span_entries(pairs),
                indexes(extents@, entries.take(i as int), blob, length as int),
            decreases count - i,
        {
            let pack: PackId = *this.ranges.key_at(i);
            let span: PackSpan = *this.ranges.value_at(i);
            let extent = BlobExtent {
                blob,
                offset: Count { value: span.offset },
                length: Count { value: span.length },
                blob_length: Count { value: length },
            };
            let ghost before = extents@;
            extents.insert(pack, extent);
            proof {
                let seen = entries.take(i as int);
                let more = entries.take(i as int + 1);
                assert(more.take(seen.len() as int) =~= seen);
                lemma_index_grows(before, seen, more, pack, extent, blob, length as int);
            }
            i += 1;
        }
        assert(entries.take(i as int) =~= entries);
        Ok((blob, extents))
    }
}

/// The number of keys of a finite map.
pub open spec fn listing_len(map: Map<PackId, PackSpan>) -> nat {
    crate::order::listing::<PackId, PackSpan>(map).len()
}

proof fn lemma_index_grows(
    places: Map<PackId, BlobExtent>,
    seen: Seq<IndexEntry>,
    more: Seq<IndexEntry>,
    pack: PackId,
    extent: BlobExtent,
    blob: BlobId,
    total: int,
)
    requires
        indexes(places, seen, blob, total),
        more.len() == seen.len() + 1,
        more.take(seen.len() as int) == seen,
        more.last().pack == pack,
        more.last().extent(blob, total) == extent,
        forall|i: int, j: int|
            0 <= i < j < more.len() ==> PackId::precedes(
                (#[trigger] more[i]).pack,
                (#[trigger] more[j]).pack,
            ),
    ensures
        indexes(places.insert(pack, extent), more, blob, total),
{
    let n = seen.len() as int;
    let after = places.insert(pack, extent);
    assert forall|i: int| 0 <= i < n implies #[trigger] more[i] == seen[i] by {
        assert(more.take(n)[i] == seen[i]);
    }
    assert forall|q: PackId| #[trigger] after.dom().contains(q) <==> entered(more, q) by {
        if entered(seen, q) {
            let j = choose|j: int| 0 <= j < seen.len() && (#[trigger] seen[j]).pack == q;
            assert(more[j].pack == q);
        }
        if entered(more, q) {
            let j = choose|j: int| 0 <= j < more.len() && (#[trigger] more[j]).pack == q;
            if j < n {
                assert(seen[j].pack == q);
            }
        }
        if q == pack {
            assert(more[n].pack == q);
        }
    }
    assert forall|j: int| 0 <= j < more.len() implies #[trigger] after[more[j].pack]
        == more[j].extent(blob, total) by {
        if j < n {
            assert(PackId::precedes(more[j].pack, more[n].pack));
            PackId::lemma_irreflexive(pack);
            assert(seen[j] == more[j]);
        }
    }
}

proof fn lemma_entry_parse(before: Seq<u8>, entry: IndexEntry, after: Seq<u8>)
    requires
        (before + entry.record() + after).len() <= usize::MAX,
    ensures
        entry.record().len() == 48,
        entry_at(before + entry.record() + after, before.len() as int) == Ok::<
            (IndexEntry, int),
            StoreError,
        >((entry, before.len() as int + 48)),
{
    let whole = before + entry.record() + after;
    let p = before.len() as int;
    crate::bytes::lemma_le_len(entry.offset as nat, 8);
    crate::bytes::lemma_le_len(entry.length as nat, 8);
    crate::bytes::lemma_le_bounds();
    crate::bytes::law_le_round_trip(entry.offset as nat, 8);
    crate::bytes::law_le_round_trip(entry.length as nat, 8);
    frame::lemma_id_of(entry.pack);
    assert(whole.subrange(p, p + 32) =~= entry.pack.bytes@);
    assert(whole.subrange(p + 32, p + 40) =~= bytes::le(entry.offset as nat, 8));
    assert(whole.subrange(p + 40, p + 48) =~= bytes::le(entry.length as nat, 8));
}

/// The entries are of ascending packs, each of which stands in the first `end`
/// bytes and authenticates.
pub open spec fn indexable(bytes: Seq<u8>, blob: BlobId, end: int, entries: Seq<IndexEntry>) -> bool {
    &&& forall|i: int, j: int|
        0 <= i < j < entries.len() ==> PackId::precedes(
            (#[trigger] entries[i]).pack,
            (#[trigger] entries[j]).pack,
        )
    &&& forall|i: int|
        0 <= i < entries.len() ==> entry_check(bytes, blob, end, #[trigger] entries[i]) is Ok
            && entry_authentic(bytes, entries[i]) is Ok
}

proof fn lemma_entries_parse(
    bytes: Seq<u8>,
    blob: BlobId,
    end: int,
    before: Seq<u8>,
    entries: Seq<IndexEntry>,
    i: int,
)
    requires
        0 <= i <= entries.len(),
        indexable(bytes, blob, end, entries),
        (before + entries_bytes(entries, i)).len() <= usize::MAX,
    ensures
        entries_from(
            bytes,
            blob,
            end,
            before + entries_bytes(entries, i),
            before.len() as int,
            (entries.len() - i) as nat,
            entries.take(i),
        ) == Ok::<(Seq<IndexEntry>, int), StoreError>(
            (entries, (before + entries_bytes(entries, i)).len() as int),
        ),
    decreases entries.len() - i,
{
    let whole = before + entries_bytes(entries, i);
    if i == entries.len() {
        assert(entries.take(i) =~= entries);
    } else {
        let one = entries[i];
        let rest = entries_bytes(entries, i + 1);
        assert(whole =~= before + one.record() + rest);
        lemma_entry_parse(before, one, rest);
        assert(whole =~= (before + one.record()) + rest);
        lemma_entries_parse(bytes, blob, end, before + one.record(), entries, i + 1);
        assert(entries.take(i).push(one) =~= entries.take(i + 1));
        if i > 0 {
            assert(entries.take(i).last() == entries[i - 1]);
        }
    }
}

proof fn lemma_entries_size(entries: Seq<IndexEntry>, i: int)
    requires
        0 <= i <= entries.len(),
    ensures
        entries_bytes(entries, i).len() == 48 * (entries.len() - i),
    decreases entries.len() - i,
{
    if i < entries.len() {
        crate::bytes::lemma_le_len(entries[i].offset as nat, 8);
        crate::bytes::lemma_le_len(entries[i].length as nat, 8);
        lemma_entries_size(entries, i + 1);
    }
}

/// A blob that was written authenticates: its entries are found again, if its
/// packs are authentic and follow each other without a gap.
pub proof fn law_blob_authenticates(body: Seq<u8>, entries: Seq<IndexEntry>, blob: BlobId)
    requires
        body.len() >= 32,
        body.take(32) == blob_header(),
        1 <= entries.len() <= MAX_BLOB_PACKS,
        blob_bytes(body, entries).len() <= usize::MAX,
        digest::names(
            blob,
            blob_input(index_bytes(entries), blob_bytes(body, entries).len() as int),
        ),
        indexable(blob_bytes(body, entries), blob, body.len() as int, entries),
        ({
            let extents = extents_of(entries, blob, blob_bytes(body, entries).len() as int);
            chained(extents, sorting::order_of(extents), BLOB_HEADER as int, body.len() as int)
        }),
    ensures
        blob_parse(blob, blob_bytes(body, entries)) == Ok::<Seq<IndexEntry>, StoreError>(entries),
{
    let whole = blob_bytes(body, entries);
    let total = whole.len() as int;
    let end = body.len() as int;
    let index = index_bytes(entries);
    lemma_entries_size(entries, 0);
    crate::bytes::lemma_le_len(entries.len(), 4);
    crate::bytes::lemma_le_len(body.len(), 8);
    crate::bytes::lemma_le_bounds();
    crate::bytes::law_le_round_trip(body.len(), 8);
    crate::bytes::law_le_round_trip(entries.len(), 4);
    assert(whole.take(32) =~= body.take(32));
    assert(whole.subrange(total - 16, total - 8) =~= bytes::le(body.len(), 8));
    assert(whole.subrange(total - 8, total) =~= BLOB_END_MAGIC@);
    assert(whole.subrange(end, total - 48) =~= index);
    assert(whole.subrange(total - 48, total - 16) =~= digest::content_hash(index));
    let fixed = BLOB_INDEX_MAGIC@ + bytes::le(entries.len(), 4);
    assert(index == fixed + entries_bytes(entries, 0));
    assert(index.subrange(0, 8) =~= BLOB_INDEX_MAGIC@);
    assert(index.subrange(8, 12) =~= bytes::le(entries.len(), 4));
    lemma_entries_parse(whole, blob, end, fixed, entries, 0);
    assert(entries.take(0) =~= Seq::<IndexEntry>::empty());
}

/// Where a blob's index begins.
pub open spec fn index_start(bytes: Seq<u8>) -> int {
    let total = bytes.len() as int;
    bytes::le_value(bytes.subrange(total - 16, total - 8)) as int
}

/// What the identity of a blob is taken over.
pub open spec fn covered_by(bytes: Seq<u8>) -> Seq<u8> {
    blob_input(bytes.subrange(index_start(bytes), bytes.len() - 48), bytes.len() as int)
}

/// Other bytes are no such blob: what passes for a blob has the length, the index
/// and the trailer that its identity was taken over, unless two inputs share a
/// digest.
pub proof fn law_blob_is_told_apart(blob: BlobId, a: Seq<u8>, b: Seq<u8>)
    requires
        a.len() <= u64::MAX,
        b.len() <= u64::MAX,
        blob_parse(blob, a) is Ok,
        blob_parse(blob, b) is Ok,
    ensures
        digest::content_hash(covered_by(a)) == digest::content_hash(covered_by(b)),
        covered_by(a) == covered_by(b) ==> {
            &&& a.len() == b.len()
            &&& index_start(a) == index_start(b)
            &&& a.skip(index_start(a)) == b.skip(index_start(b))
        },
{
    if covered_by(a) == covered_by(b) {
        let x = a.subrange(index_start(a), a.len() - 48);
        let y = b.subrange(index_start(b), b.len() - 48);
        crate::bytes::lemma_le_len(a.len(), 8);
        crate::bytes::lemma_le_len(b.len(), 8);
        crate::bytes::lemma_le_bounds();
        crate::bytes::law_le_round_trip(a.len(), 8);
        crate::bytes::law_le_round_trip(b.len(), 8);
        let front = BLOB_DOMAIN@.len() as int;
        let whole = covered_by(a).len() as int;
        assert(covered_by(a).subrange(whole - 8, whole) =~= bytes::le(a.len(), 8));
        assert(covered_by(b).subrange(whole - 8, whole) =~= bytes::le(b.len(), 8));
        assert(covered_by(a).subrange(front, whole - 8) =~= x);
        assert(covered_by(b).subrange(front, whole - 8) =~= y);
        assert(a.len() == b.len());
        assert(index_start(a) == index_start(b));
        let end = index_start(a);
        let total = a.len() as int;
        let sum = a.subrange(total - 48, total - 16);
        let place = a.subrange(total - 16, total - 8);
        assert(place == b.subrange(total - 16, total - 8)) by {
            crate::bytes::law_le_canonical(place);
            crate::bytes::law_le_canonical(b.subrange(total - 16, total - 8));
        }
        assert(a.skip(end) =~= x + sum + place + BLOB_END_MAGIC@);
        assert(b.skip(end) =~= y + sum + place + BLOB_END_MAGIC@);
    }
}

} // verus!
