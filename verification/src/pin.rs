//! Reading packs through a fixed choice of their places.

use crate::adapter;
use crate::adapter::{
    BackendError, Event, MAX_BATCH_BYTES, MAX_BATCH_REQUESTS, ObjectKey, ObjectRange,
    StorageBackend,
};
use crate::bytes;
use crate::bytes::{append, copied, less_bytes};
use crate::digest;
use crate::domain::{BlobId, Count, PackId, StoredBytes, StoredRange, ValueError};
use crate::draft;
use crate::error::StoreError;
use crate::fetch;
use crate::fetch::Replay;
use crate::frame;
use crate::order;
use crate::order::{Key, OrderedMap, OrderedSet};
use crate::pack;
use crate::pack::authenticate;
use crate::placement;
use crate::placement::{BlobExtent, PackRange, Placements, PlacementsModel};
use crate::sorting;
use crate::sorting::{Ranked, sorted_order};
use vstd::prelude::*;
use vstd::slice::slice_subrange;

verus! {

/// A range of a pack, found in a blob.
#[derive(Debug, PartialEq, Eq)]
pub struct LocatedRange {
    pack: PackId,
    extent: BlobExtent,
    range: StoredRange,
}

/// What a located range says.
pub struct LocatedModel {
    pub pack: PackId,
    pub extent: BlobExtent,
    pub range: StoredRange,
}

impl LocatedModel {
    pub open spec fn blob(self) -> BlobId {
        self.extent.blob
    }

    pub open spec fn start(self) -> int {
        self.range.offset.value as int
    }

    pub open spec fn end(self) -> int {
        self.range.offset.value + self.range.length.value
    }

    /// Not empty, and within the range of offsets.
    pub open spec fn wf(self) -> bool {
        self.range.length.value != 0 && self.range.wf()
    }
}

impl View for LocatedRange {
    type V = LocatedModel;

    closed spec fn view(&self) -> LocatedModel {
        LocatedModel { pack: self.pack, extent: self.extent, range: self.range }
    }
}

impl LocatedRange {
    #[verifier::type_invariant]
    spec fn valid(&self) -> bool {
        self@.wf()
    }

    pub fn extent(&self) -> (extent: BlobExtent)
        ensures
            extent == self@.extent,
    {
        self.extent
    }

    pub fn range(&self) -> (range: StoredRange)
        ensures
            range == self@.range,
            self@.wf(),
    {
        proof {
            use_type_invariant(self);
        }
        self.range
    }
}

impl Ranked for LocatedRange {
    open spec fn at_most(a: LocatedRange, b: LocatedRange) -> bool {
        bytes::bytes_less(a@.blob().bytes@, b@.blob().bytes@) || (a@.blob() == b@.blob() && a@.start()
            <= b@.start())
    }

    proof fn lemma_total(a: LocatedRange, b: LocatedRange) {
        BlobId::lemma_total(a@.blob(), b@.blob());
    }

    proof fn lemma_transitive(a: LocatedRange, b: LocatedRange, c: LocatedRange) {
        if bytes::bytes_less(a@.blob().bytes@, b@.blob().bytes@) && bytes::bytes_less(
            b@.blob().bytes@,
            c@.blob().bytes@,
        ) {
            BlobId::lemma_transitive(a@.blob(), b@.blob(), c@.blob());
        }
    }

    fn not_above(&self, other: &LocatedRange) -> bool {
        less_bytes(self.extent.blob.bytes.as_slice(), other.extent.blob.bytes.as_slice()) || (
        self.extent.blob.same(&other.extent.blob) && self.range.offset.value
            <= other.range.offset.value)
    }
}

/// The model of some located ranges.
pub open spec fn models(requests: Seq<LocatedRange>) -> Seq<LocatedModel> {
    Seq::new(requests.len(), |i: int| requests[i]@)
}

/// Request `r` lies within the read `m`.
pub open spec fn within_read(m: ObjectRange, r: LocatedModel) -> bool {
    &&& m.of() == ObjectKey::Blob(r.blob())
    &&& m.place().offset.value <= r.start()
    &&& r.end() <= read_end(m)
}

pub open spec fn read_end(m: ObjectRange) -> int {
    m.place().offset.value + m.place().length.value
}

/// Two reads are apart: of different blobs in ascending order, or of one blob
/// with a gap between them.
pub open spec fn apart(a: ObjectRange, b: ObjectRange) -> bool {
    &&& a.of() is Blob && b.of() is Blob
    &&& ({
        ||| bytes::bytes_less(a.of()->Blob_0.bytes@, b.of()->Blob_0.bytes@)
        ||| a.of() == b.of() && read_end(a) < b.place().offset.value
    })
}

/// Byte `x` of the read at place `m` was asked for.
pub open spec fn wanted(
    requests: Seq<LocatedModel>,
    slots: Seq<usize>,
    m: int,
    x: int,
) -> bool {
    exists|i: int|
        0 <= i < requests.len() && (#[trigger] slots[i]) == m && requests[i].start() <= x
            < requests[i].end()
}

/// The reads serve the requests: each request lies within the read at its slot,
/// reads are apart, and every byte that is read was asked for. So requests are
/// joined exactly where they overlap or touch.
pub open spec fn planned(
    requests: Seq<LocatedModel>,
    reads: Seq<ObjectRange>,
    slots: Seq<usize>,
) -> bool {
    &&& slots.len() == requests.len()
    &&& forall|i: int|
        0 <= i < requests.len() ==> (#[trigger] slots[i]) < reads.len() && within_read(
            reads[slots[i] as int],
            requests[i],
        )
    &&& forall|a: int, b: int|
        0 <= a < b < reads.len() ==> apart(#[trigger] reads[a], #[trigger] reads[b])
    &&& forall|m: int, x: int|
        #![trigger wanted(requests, slots, m, x)]
        0 <= m < reads.len() && reads[m].place().offset.value <= x < read_end(reads[m]) ==> wanted(
            requests,
            slots,
            m,
            x,
        )
    &&& forall|m: int|
        0 <= m < reads.len() ==> (#[trigger] reads[m]).place().length.value != 0
            && reads[m].place().wf()
}

/// The requests that were planned so far.
spec fn planned_some(
    requests: Seq<LocatedModel>,
    order: Seq<usize>,
    done: int,
    reads: Seq<ObjectRange>,
    slots: Seq<usize>,
) -> bool {
    &&& slots.len() == requests.len()
    &&& order.len() == requests.len()
    &&& reads.len() <= done
    &&& forall|j: int|
        0 <= j < done ==> slots[(#[trigger] order[j]) as int] < reads.len() && within_read(
            reads[slots[order[j] as int] as int],
            requests[order[j] as int],
        )
    &&& forall|a: int, b: int|
        0 <= a < b < reads.len() ==> apart(#[trigger] reads[a], #[trigger] reads[b])
    &&& forall|m: int, x: int|
        #![trigger wanted_some(requests, order, done, slots, m, x)]
        0 <= m < reads.len() && reads[m].place().offset.value <= x < read_end(reads[m])
            ==> wanted_some(requests, order, done, slots, m, x)
    &&& forall|m: int|
        0 <= m < reads.len() ==> (#[trigger] reads[m]).place().length.value != 0
            && reads[m].place().wf()
    &&& done > 0 ==> reads.len() > 0 && slots[order[done - 1] as int] == reads.len() - 1
        && reads.last().place().offset.value <= requests[order[done - 1] as int].start()
}

spec fn wanted_some(
    requests: Seq<LocatedModel>,
    order: Seq<usize>,
    done: int,
    slots: Seq<usize>,
    m: int,
    x: int,
) -> bool {
    exists|j: int|
        0 <= j < done && slots[(#[trigger] order[j]) as int] == m && requests[order[j] as int].start()
            <= x < requests[order[j] as int].end()
}

/// Plans the reads that serve some requests.
pub fn plan_reads(requests: &[LocatedRange]) -> (plan: (Vec<ObjectRange>, Vec<usize>))
    ensures
        planned(models(requests@), plan.0@, plan.1@),
{
    let order: Vec<usize> = sorted_order(requests);
    let ghost wants = models(requests@);
    let mut reads: Vec<ObjectRange> = Vec::new();
    let mut slots: Vec<usize> = Vec::new();
    let mut n: usize = 0;
    while n < requests.len()
        invariant
            n <= requests@.len(),
            slots@.len() == n,
        decreases requests.len() - n,
    {
        slots.push(0);
        n += 1;
    }
    let mut i: usize = 0;
    while i < order.len()
        invariant
            i <= order@.len(),
            wants == models(requests@),
            sorting::covers(order@, requests@.len() as int),
            sorting::ascends(requests@, order@),
            planned_some(wants, order@, i as int, reads@, slots@),
        decreases order.len() - i,
    {
        let index: usize = order[i];
        let request: &LocatedRange = &requests[index];
        let range: StoredRange = request.range();
        let blob: BlobId = request.extent().blob;
        let key: ObjectKey = ObjectKey::Blob(blob);
        let end: u64 = range.offset.value + range.length.value;
        let ghost before = reads@;
        let ghost slots_before = slots@;
        let mut joined: bool = false;
        let count: usize = reads.len();
        if count > 0 {
            let last: ObjectRange = reads[count - 1];
            let place: StoredRange = last.range();
            let last_end: u64 = place.offset.value + place.length.value;
            if last.key().same(&key) && range.offset.value <= last_end {
                let far: u64 = if last_end < end {
                    end
                } else {
                    last_end
                };
                let wider = StoredRange {
                    offset: place.offset,
                    length: Count { value: far - place.offset.value },
                };
                match ObjectRange::new(key, wider) {
                    Ok(read) => {
                        reads.set(count - 1, read);
                        slots.set(index, count - 1);
                        joined = true;
                        proof {
                            lemma_joined(
                                requests@,
                                order@,
                                i as int,
                                before,
                                slots_before,
                                reads@,
                                slots@,
                                read,
                            );
                        }
                    },
                    Err(_) => {
                        assert(false);
                    },
                }
            }
        }
        if !joined {
            match ObjectRange::new(key, range) {
                Ok(read) => {
                    reads.push(read);
                    slots.set(index, count);
                    proof {
                        lemma_pushed(
                            requests@,
                            order@,
                            i as int,
                            before,
                            slots_before,
                            reads@,
                            slots@,
                            read,
                        );
                    }
                },
                Err(_) => {
                    assert(false);
                },
            }
        }
        i += 1;
    }
    proof {
        lemma_all_planned(wants, order@, reads@, slots@);
    }
    (reads, slots)
}

proof fn lemma_all_planned(
    requests: Seq<LocatedModel>,
    order: Seq<usize>,
    reads: Seq<ObjectRange>,
    slots: Seq<usize>,
)
    requires
        sorting::covers(order, requests.len() as int),
        requests.len() <= usize::MAX,
        planned_some(requests, order, requests.len() as int, reads, slots),
    ensures
        planned(requests, reads, slots),
{
    assert forall|i: int| 0 <= i < requests.len() implies (#[trigger] slots[i]) < reads.len()
        && within_read(reads[slots[i] as int], requests[i]) by {
        assert(order.contains(crate::sorting::place(i)));
        let j = choose|j: int| 0 <= j < order.len() && order[j] == crate::sorting::place(i);
        assert(order[j] as int == i);
    }
    assert forall|m: int, x: int|
        #![trigger wanted(requests, slots, m, x)]
        0 <= m < reads.len() && reads[m].place().offset.value <= x < read_end(
            reads[m],
        ) implies wanted(requests, slots, m, x) by {
        assert(wanted_some(requests, order, requests.len() as int, slots, m, x));
        let j = choose|j: int|
            0 <= j < requests.len() && slots[(#[trigger] order[j]) as int] == m
                && requests[order[j] as int].start() <= x < requests[order[j] as int].end();
        let i = order[j] as int;
        assert(slots[i] == m);
    }
}

proof fn lemma_joined(
    items: Seq<LocatedRange>,
    order: Seq<usize>,
    i: int,
    before: Seq<ObjectRange>,
    slots_before: Seq<usize>,
    after: Seq<ObjectRange>,
    slots: Seq<usize>,
    read: ObjectRange,
)
    requires
        sorting::covers(order, items.len() as int),
        sorting::ascends(items, order),
        0 <= i < order.len(),
        before.len() > 0,
        before.len() <= usize::MAX,
        planned_some(models(items), order, i, before, slots_before),
        after == before.update(before.len() - 1, read),
        slots == slots_before.update(order[i] as int, (before.len() - 1) as usize),
        items[order[i] as int]@.wf(),
        read.of() == ObjectKey::Blob(items[order[i] as int]@.blob()),
        read.of() == before.last().of(),
        read.place().offset == before.last().place().offset,
        items[order[i] as int]@.start() <= read_end(before.last()),
        read_end(read) == if read_end(before.last()) < items[order[i] as int]@.end() {
            items[order[i] as int]@.end()
        } else {
            read_end(before.last())
        },
        read.place().length.value != 0,
        read.place().wf(),
        i > 0,
    ensures
        planned_some(models(items), order, i + 1, after, slots),
{
    let wants = models(items);
    let index = order[i] as int;
    let request = wants[index];
    let last = before.len() - 1;
    // The previous request in order is of the same blob and starts no later.
    let prior = order[i - 1] as int;
    assert(LocatedRange::at_most(items[prior], items[index]));
    assert(within_read(before[slots_before[prior] as int], wants[prior]));
    assert(wants[prior].blob() == request.blob());
    BlobId::lemma_irreflexive(request.blob());
    assert(wants[prior].start() <= request.start());
    assert forall|j: int| 0 <= j < i + 1 implies slots[(#[trigger] order[j]) as int] < after.len()
        && within_read(after[slots[order[j] as int] as int], wants[order[j] as int]) by {
        if j < i {
            assert(order[j] != order[i]);
            assert(within_read(
                before[slots_before[order[j] as int] as int],
                wants[order[j] as int],
            ));
        }
    }
    assert forall|a: int, b: int| 0 <= a < b < after.len() implies apart(
        #[trigger] after[a],
        #[trigger] after[b],
    ) by {
        assert(apart(before[a], before[b]));
    }
    assert forall|m: int, x: int|
        #![trigger wanted_some(wants, order, i + 1, slots, m, x)]
        0 <= m < after.len() && after[m].place().offset.value <= x < read_end(
            after[m],
        ) implies wanted_some(wants, order, i + 1, slots, m, x) by {
        if x < read_end(before[m]) {
            assert(wanted_some(wants, order, i, slots_before, m, x));
            let j = choose|j: int|
                0 <= j < i && slots_before[(#[trigger] order[j]) as int] == m
                    && wants[order[j] as int].start() <= x < wants[order[j] as int].end();
            assert(order[j] != order[i]);
            assert(slots[order[j] as int] == m);
        } else {
            assert(m == last);
            assert(slots[order[i] as int] == m);
        }
    }
}

proof fn lemma_pushed(
    items: Seq<LocatedRange>,
    order: Seq<usize>,
    i: int,
    before: Seq<ObjectRange>,
    slots_before: Seq<usize>,
    after: Seq<ObjectRange>,
    slots: Seq<usize>,
    read: ObjectRange,
)
    requires
        sorting::covers(order, items.len() as int),
        sorting::ascends(items, order),
        0 <= i < order.len(),
        before.len() < usize::MAX,
        planned_some(models(items), order, i, before, slots_before),
        after == before.push(read),
        slots == slots_before.update(order[i] as int, before.len() as usize),
        items[order[i] as int]@.wf(),
        read.of() == ObjectKey::Blob(items[order[i] as int]@.blob()),
        read.place() == items[order[i] as int]@.range,
        before.len() > 0 ==> i > 0,
        before.len() > 0 ==> !(before.last().of() == read.of() && items[order[i] as int]@.start()
            <= read_end(before.last())),
    ensures
        planned_some(models(items), order, i + 1, after, slots),
{
    let wants = models(items);
    let index = order[i] as int;
    let request = wants[index];
    if before.len() > 0 {
        let prior = order[i - 1] as int;
        assert(LocatedRange::at_most(items[prior], items[index]));
        let last = before.last();
        assert(within_read(before[slots_before[prior] as int], wants[prior]));
        assert(apart(last, read));
        assert forall|a: int| 0 <= a < before.len() implies apart(#[trigger] before[a], read) by {
            if a < before.len() - 1 {
                assert(apart(before[a], before[before.len() - 1]));
                if bytes::bytes_less(before[a].of()->Blob_0.bytes@, last.of()->Blob_0.bytes@)
                    && bytes::bytes_less(last.of()->Blob_0.bytes@, read.of()->Blob_0.bytes@) {
                    crate::bytes::lemma_bytes_less_transitive(
                        before[a].of()->Blob_0.bytes@,
                        last.of()->Blob_0.bytes@,
                        read.of()->Blob_0.bytes@,
                    );
                }
            }
        }
    }
    assert forall|j: int| 0 <= j < i + 1 implies slots[(#[trigger] order[j]) as int] < after.len()
        && within_read(after[slots[order[j] as int] as int], wants[order[j] as int]) by {
        if j < i {
            assert(order[j] != order[i]);
            assert(within_read(
                before[slots_before[order[j] as int] as int],
                wants[order[j] as int],
            ));
        }
    }
    assert forall|a: int, b: int| 0 <= a < b < after.len() implies apart(
        #[trigger] after[a],
        #[trigger] after[b],
    ) by {
        if b < before.len() {
            assert(apart(before[a], before[b]));
        } else {
            assert(apart(before[a], read));
        }
    }
    assert forall|m: int, x: int|
        #![trigger wanted_some(wants, order, i + 1, slots, m, x)]
        0 <= m < after.len() && after[m].place().offset.value <= x < read_end(
            after[m],
        ) implies wanted_some(wants, order, i + 1, slots, m, x) by {
        if m < before.len() {
            assert(wanted_some(wants, order, i, slots_before, m, x));
            let j = choose|j: int|
                0 <= j < i && slots_before[(#[trigger] order[j]) as int] == m
                    && wants[order[j] as int].start() <= x < wants[order[j] as int].end();
            assert(order[j] != order[i]);
            assert(slots[order[j] as int] == m);
        } else {
            assert(slots[order[i] as int] == m);
        }
    }
}

/// The replies stand one for one to the reads, with exact lengths.
pub open spec fn fitting(reads: Seq<ObjectRange>, replies: Seq<Vec<u8>>) -> bool {
    &&& replies.len() == reads.len()
    &&& forall|m: int|
        0 <= m < reads.len() ==> (#[trigger] replies[m])@.len() == reads[m].place().length.value
}

/// The bytes of request `i`, cut from the replies.
pub open spec fn cut(
    request: LocatedModel,
    read: ObjectRange,
    reply: Seq<u8>,
) -> Seq<u8> {
    reply.subrange(
        request.start() - read.place().offset.value,
        request.end() - read.place().offset.value,
    )
}

/// Cuts the bytes of each request from the replies, if the replies fit.
pub fn cut_replies(
    requests: &[LocatedRange],
    reads: &[ObjectRange],
    slots: &[usize],
    replies: &[Vec<u8>],
) -> (cuts: Result<Vec<Vec<u8>>, StoreError>)
    requires
        planned(models(requests@), reads@, slots@),
    ensures
        match cuts {
            Ok(c) => fitting(reads@, replies@) && c@.len() == requests@.len() && forall|i: int|
                0 <= i < requests@.len() ==> (#[trigger] c@[i])@ == cut(
                    requests@[i]@,
                    reads@[slots@[i] as int],
                    replies@[slots@[i] as int]@,
                ),
            Err(e) => !fitting(reads@, replies@) && e == StoreError::Backend(
                BackendError::InvalidData,
            ),
        },
{
    if replies.len() != reads.len() {
        return Err(StoreError::Backend(BackendError::InvalidData));
    }
    let mut m: usize = 0;
    while m < reads.len()
        invariant
            m <= reads@.len(),
            replies@.len() == reads@.len(),
            forall|k: int|
                0 <= k < m ==> (#[trigger] replies@[k])@.len() == reads@[k].place().length.value,
        decreases reads.len() - m,
    {
        if replies[m].len() as u64 != reads[m].range().length.value {
            assert(replies@[m as int]@.len() != reads@[m as int].place().length.value);
            return Err(StoreError::Backend(BackendError::InvalidData));
        }
        m += 1;
    }
    let mut cuts: Vec<Vec<u8>> = Vec::new();
    let mut i: usize = 0;
    while i < requests.len()
        invariant
            i <= requests@.len(),
            planned(models(requests@), reads@, slots@),
            fitting(reads@, replies@),
            cuts@.len() == i,
            forall|j: int|
                0 <= j < i ==> (#[trigger] cuts@[j])@ == cut(
                    requests@[j]@,
                    reads@[slots@[j] as int],
                    replies@[slots@[j] as int]@,
                ),
        decreases requests.len() - i,
    {
        let slot: usize = slots[i];
        assert(within_read(reads@[slots@[i as int] as int], models(requests@)[i as int]));
        let range: StoredRange = requests[i].range();
        let base: u64 = reads[slot].range().offset.value;
        let reply: &Vec<u8> = &replies[slot];
        let size: usize = reply.len();
        let start: usize = (range.offset.value - base) as usize;
        let end: usize = (range.offset.value - base + range.length.value) as usize;
        cuts.push(copied(slice_subrange(reply.as_slice(), start, end)));
        i += 1;
    }
    Ok(cuts)
}

/// Where every reply holds what its blob holds, each request gets exactly the
/// bytes of its range.
pub proof fn law_cuts_are_true(
    requests: Seq<LocatedModel>,
    reads: Seq<ObjectRange>,
    slots: Seq<usize>,
    replies: Seq<Vec<u8>>,
    blobs: Map<BlobId, Seq<u8>>,
    i: int,
)
    requires
        planned(requests, reads, slots),
        fitting(reads, replies),
        forall|m: int|
            0 <= m < reads.len() ==> (#[trigger] reads[m]).of() is Blob && read_end(reads[m])
                <= blobs[reads[m].of()->Blob_0].len() && replies[m]@
                == blobs[reads[m].of()->Blob_0].subrange(
                reads[m].place().offset.value as int,
                read_end(reads[m]),
            ),
        0 <= i < requests.len(),
    ensures
        cut(requests[i], reads[slots[i] as int], replies[slots[i] as int]@)
            == blobs[requests[i].blob()].subrange(requests[i].start(), requests[i].end()),
{
    let m = slots[i] as int;
    assert(within_read(reads[m], requests[i]));
    assert(reads[m].of()->Blob_0 == requests[i].blob());
    assert(cut(requests[i], reads[m], replies[m]@) =~= blobs[requests[i].blob()].subrange(
        requests[i].start(),
        requests[i].end(),
    ));
}

/// The sum of the lengths of the first `count` requests.
pub open spec fn total_length(requests: Seq<LocatedModel>, count: int) -> int
    decreases count,
{
    if count <= 0 {
        0
    } else {
        total_length(requests, count - 1) + requests[count - 1].range.length.value
    }
}

proof fn lemma_total_monotonic(requests: Seq<LocatedModel>, low: int, high: int)
    requires
        0 <= low <= high,
    ensures
        total_length(requests, low) <= total_length(requests, high),
    decreases high,
{
    if low < high {
        lemma_total_monotonic(requests, low, high - 1);
    }
}

/// The plan for a single request is the request.
proof fn lemma_planned_one(request: LocatedModel, reads: Seq<ObjectRange>, slots: Seq<usize>)
    requires
        planned(seq![request], reads, slots),
        request.wf(),
    ensures
        reads.len() == 1,
        slots[0] == 0,
        reads[0].of() == ObjectKey::Blob(request.blob()),
        reads[0].place() == request.range,
{
    let wants = seq![request];
    assert(slots[0] < reads.len());
    assert forall|m: int|
        0 <= m < reads.len() && (#[trigger] reads[m]).place().length.value != 0 implies m
        == slots[0] by {
        let x = reads[m].place().offset.value as int;
        assert(reads[m].place().length.value != 0);
        assert(wanted(wants, slots, m, x));
    }
    if reads.len() > 1 {
        assert(reads[0].place().length.value != 0);
        assert(reads[1].place().length.value != 0);
    }
    assert(within_read(reads[0], wants[0]));
    let first = reads[0].place().offset.value as int;
    let last = read_end(reads[0]) - 1;
    assert(wanted(wants, slots, 0, first));
    assert(wanted(wants, slots, 0, last));
    assert(reads[0].place().offset == request.range.offset);
    assert(reads[0].place().length == request.range.length);
}

/// What reading a range of a pack, in the place that was chosen for it, came to.
pub open spec fn pin_replay(
    history: Seq<Event>,
    at: int,
    chosen: Map<PackId, PlacementsModel>,
    pack: PackId,
    range: StoredRange,
) -> Replay<Seq<u8>> {
    let part = PackRange {
        offset: Count { value: range.offset.value },
        length: range.length,
    };
    let extent = chosen[pack].representations[0].extent;
    if range.length.value == 0 {
        Replay::Done(Ok(Seq::empty()), at)
    } else if !part.wf() {
        Replay::Done(Err(StoreError::Value(ValueError)), at)
    } else if !chosen.dom().contains(pack) {
        Replay::Done(Err(StoreError::Corrupt(0)), at)
    } else if range.offset.value + range.length.value > extent.length.value || range.length.value
        > MAX_BATCH_BYTES {
        Replay::Done(Err(StoreError::Range), at)
    } else {
        fetch::range_replay(history, at, ObjectKey::Blob(extent.blob), extent.located(part))
    }
}

/// What reading the rest of a pack, batch by batch, came to.
pub open spec fn pack_rest_replay(
    history: Seq<Event>,
    at: int,
    chosen: Map<PackId, PlacementsModel>,
    pack: PackId,
    offset: int,
    length: int,
    so_far: Seq<u8>,
) -> Replay<Seq<u8>>
    decreases length - offset,
{
    if offset >= length {
        Replay::Done(Ok(so_far), at)
    } else {
        match pin_replay(history, at, chosen, pack, fetch::next_range(offset, length)) {
            Replay::Done(Ok(bytes), next) => {
                let step = if length - offset > MAX_BATCH_BYTES {
                    MAX_BATCH_BYTES as int
                } else {
                    length - offset
                };
                pack_rest_replay(
                    history,
                    next,
                    chosen,
                    pack,
                    offset + step,
                    length,
                    so_far + bytes,
                )
            },
            Replay::Done(Err(error), next) => Replay::Done(Err(error), next),
            Replay::Astray => Replay::Astray,
        }
    }
}

/// The pack that some bytes are, or why they are none.
pub open spec fn pack_id(bytes: Seq<u8>) -> Result<PackId, StoreError> {
    match pack::pack_parse(bytes) {
        Err(error) => Err(error),
        Ok(input) => Ok(frame::id_of(digest::content_hash(input))),
    }
}

/// What reading a whole pack came to: its bytes, if they are the pack.
pub open spec fn pack_replay(
    history: Seq<Event>,
    at: int,
    chosen: Map<PackId, PlacementsModel>,
    pack: PackId,
) -> Replay<Seq<u8>> {
    if !chosen.dom().contains(pack) {
        Replay::Done(Err(StoreError::Corrupt(0)), at)
    } else if chosen[pack].length > usize::MAX {
        Replay::Done(Err(StoreError::Range), at)
    } else {
        match pack_rest_replay(
            history,
            at,
            chosen,
            pack,
            0,
            chosen[pack].length as int,
            Seq::empty(),
        ) {
            Replay::Done(Ok(bytes), next) => match pack_id(bytes) {
                Err(error) => Replay::Done(Err(error), next),
                Ok(id) => if id != pack {
                    Replay::Done(Err(StoreError::Corrupt(0)), next)
                } else {
                    Replay::Done(Ok(bytes), next)
                },
            },
            other => other,
        }
    }
}

/// A replay is settled by the calls that it covers.
pub proof fn lemma_pack_rest_settled(
    before: Seq<Event>,
    after: Seq<Event>,
    at: int,
    chosen: Map<PackId, PlacementsModel>,
    pack: PackId,
    offset: int,
    length: int,
    so_far: Seq<u8>,
)
    requires
        adapter::extends(before, after),
        pack_rest_replay(before, at, chosen, pack, offset, length, so_far) is Done,
    ensures
        pack_rest_replay(after, at, chosen, pack, offset, length, so_far) == pack_rest_replay(
            before,
            at,
            chosen,
            pack,
            offset,
            length,
            so_far,
        ),
    decreases length - offset,
{
    if offset < length {
        match pin_replay(before, at, chosen, pack, fetch::next_range(offset, length)) {
            Replay::Done(Ok(bytes), next) => {
                let step = if length - offset > MAX_BATCH_BYTES {
                    MAX_BATCH_BYTES as int
                } else {
                    length - offset
                };
                lemma_pack_rest_settled(
                    before,
                    after,
                    next,
                    chosen,
                    pack,
                    offset + step,
                    length,
                    so_far + bytes,
                );
            },
            _ => {},
        }
    }
}

/// A replay is settled by the calls that it covers.
pub proof fn lemma_pack_settled(
    before: Seq<Event>,
    after: Seq<Event>,
    at: int,
    chosen: Map<PackId, PlacementsModel>,
    pack: PackId,
)
    requires
        adapter::extends(before, after),
        pack_replay(before, at, chosen, pack) is Done,
    ensures
        pack_replay(after, at, chosen, pack) == pack_replay(before, at, chosen, pack),
{
    if chosen.dom().contains(pack) && chosen[pack].length <= usize::MAX {
        lemma_pack_rest_settled(
            before,
            after,
            at,
            chosen,
            pack,
            0,
            chosen[pack].length as int,
            Seq::empty(),
        );
    }
}

/// A fixed choice of places for some packs.
#[derive(Debug, PartialEq, Eq)]
pub struct PlacementPin {
    placements: OrderedMap<PackId, Placements>,
}

/// What the placement entries of a catalog say of a pack.
pub open spec fn entry_placement(
    entries: Map<Seq<u8>, Seq<u8>>,
    pack: PackId,
) -> Result<PlacementsModel, StoreError> {
    if !entries.dom().contains(pack.bytes@) {
        Err(StoreError::Corrupt(0))
    } else {
        placement::placements_parse(pack, entries[pack.bytes@])
    }
}

/// The placement of a pack, from the placement entries of a catalog.
pub fn read_placement(entries: &OrderedMap<Vec<u8>, Vec<u8>>, pack: PackId) -> (placements: Result<
    Placements,
    StoreError,
>)
    ensures
        match placements {
            Ok(p) => entry_placement(entries@, pack) == Ok::<PlacementsModel, StoreError>(p@)
                && p@.wf() && p@.pack == pack,
            Err(e) => entry_placement(entries@, pack) == Err::<PlacementsModel, StoreError>(e),
        },
{
    match entries.get(&copied(pack.bytes.as_slice())) {
        Some(bytes) => Placements::decode(pack, bytes.as_slice()),
        None => Err(StoreError::Corrupt(0)),
    }
}

impl PlacementPin {
    pub closed spec fn chosen(&self) -> Map<PackId, PlacementsModel> {
        self.placements@
    }

    #[verifier::type_invariant]
    spec fn valid(&self) -> bool {
        forall|pack: PackId| #[trigger]
            self.placements@.dom().contains(pack) ==> self.placements@[pack].wf()
    }

    /// Fixes the places of some packs as the catalog has them. It fails with the
    /// first pack, in ascending order, that the catalog does not place.
    pub fn new(
        entries: &OrderedMap<Vec<u8>, Vec<u8>>,
        packs: &OrderedSet<PackId>,
    ) -> (pin: Result<Self, StoreError>)
        ensures
            match pin {
                Ok(p) => p.chosen().dom() == packs@ && forall|pack: PackId|
                    #[trigger] packs@.contains(pack) ==> entry_placement(entries@, pack) == Ok::<
                        PlacementsModel,
                        StoreError,
                    >(p.chosen()[pack]),
                Err(e) => exists|i: int|
                    0 <= i < packs.walk().len() && entry_placement(
                        entries@,
                        #[trigger] packs.walk()[i],
                    ) == Err::<PlacementsModel, StoreError>(e) && forall|j: int|
                        0 <= j < i ==> entry_placement(entries@, #[trigger] packs.walk()[j]) is Ok,
            },
    {
        let mut placements: OrderedMap<PackId, Placements> = OrderedMap::new();
        let count: usize = packs.len();
        let mut i: usize = 0;
        while i < count
            invariant
                i <= count,
                count == packs.walk().len(),
                packs.walk().to_set() == packs@,
                forall|pack: PackId|
                    #[trigger] placements@.dom().contains(pack) <==> packs.walk().take(
                        i as int,
                    ).contains(pack),
                forall|pack: PackId| #[trigger]
                    placements@.dom().contains(pack) ==> placements@[pack].wf() && entry_placement(
                        entries@,
                        pack,
                    ) == Ok::<PlacementsModel, StoreError>(placements@[pack]),
                forall|j: int|
                    0 <= j < i ==> entry_placement(entries@, #[trigger] packs.walk()[j]) is Ok,
            decreases count - i,
        {
            let pack: PackId = *packs.at(i);
            let ghost before = placements@;
            match read_placement(entries, pack) {
                Ok(placement) => {
                    placements.insert(pack, placement);
                },
                Err(error) => {
                    assert(entry_placement(entries@, packs.walk()[i as int]) is Err);
                    return Err(error);
                },
            }
            proof {
                let seen = packs.walk().take(i as int);
                let more = packs.walk().take(i as int + 1);
                assert(more =~= seen.push(pack));
                assert forall|q: PackId|
                    #[trigger] placements@.dom().contains(q) <==> more.contains(q) by {
                    if seen.contains(q) {
                        let j = choose|j: int| 0 <= j < seen.len() && seen[j] == q;
                        assert(more[j] == q);
                    }
                    if more.contains(q) {
                        let j = choose|j: int| 0 <= j < more.len() && more[j] == q;
                        if j < seen.len() {
                            assert(seen[j] == q);
                        }
                    }
                    if q == pack {
                        assert(more[i as int] == q);
                    }
                }
            }
            i += 1;
        }
        proof {
            assert(packs.walk().take(i as int) =~= packs.walk());
            assert(placements@.dom() =~= packs@) by {
                assert forall|q: PackId| placements@.dom().contains(q) == packs@.contains(q) by {
                    assert(packs.walk().to_set().contains(q) == packs.walk().contains(q));
                }
            }
        }
        Ok(PlacementPin { placements })
    }

    /// Finds a range of a pack in the preferred place of the pack.
    pub fn locate(&self, pack: PackId, range: PackRange) -> (located: Result<
        LocatedRange,
        StoreError,
    >)
        requires
            range.wf(),
        ensures
            match located {
                Ok(l) => self.chosen().dom().contains(pack) && ({
                    let extent = self.chosen()[pack].representations[0].extent;
                    &&& range.offset.value + range.length.value <= extent.length.value
                    &&& l@ == (LocatedModel { pack, extent, range: extent.located(range) })
                }),
                Err(e) => if !self.chosen().dom().contains(pack) {
                    e == StoreError::Corrupt(0)
                } else {
                    e == StoreError::Range && range.offset.value + range.length.value
                        > self.chosen()[pack].representations[0].extent.length.value
                },
            },
    {
        proof {
            use_type_invariant(self);
        }
        match self.placements.get(&pack) {
            None => Err(StoreError::Corrupt(0)),
            Some(placement) => {
                let extent: BlobExtent = placement.preferred().extent;
                assert(crate::placement::placeable(
                    placement@.pack,
                    placement@.length,
                    placement@.representations[0],
                ));
                let found: StoredRange = extent.locate(range)?;
                Ok(LocatedRange { pack, extent, range: found })
            },
        }
    }

    /// The placement of a pack, if it was chosen for.
    pub fn placement(&self, pack: PackId) -> (placement: Option<&Placements>)
        ensures
            match placement {
                Some(p) => self.chosen().dom().contains(pack) && p@ == self.chosen()[pack]
                    && p@.wf(),
                None => !self.chosen().dom().contains(pack),
            },
    {
        proof {
            use_type_invariant(self);
        }
        self.placements.get(&pack)
    }

    /// The length of a pack.
    pub fn length(&self, pack: PackId) -> (length: Result<StoredBytes, StoreError>)
        ensures
            match length {
                Ok(l) => self.chosen().dom().contains(pack) && l.value
                    == self.chosen()[pack].length,
                Err(e) => !self.chosen().dom().contains(pack) && e == StoreError::Corrupt(0),
            },
    {
        match self.placements.get(&pack) {
            None => Err(StoreError::Corrupt(0)),
            Some(placement) => Ok(placement.length),
        }
    }

    /// The range was found in a place that this pin chose.
    pub open spec fn found(&self, request: LocatedModel) -> bool {
        self.chosen().dom().contains(request.pack) && self.chosen()[request.pack].representations.len()
            > 0 && self.chosen()[request.pack].representations[0].extent == request.extent
    }

    fn found_here(&self, request: &LocatedRange) -> (here: bool)
        ensures
            here == self.found(request@),
    {
        match self.placements.get(&request.pack) {
            None => false,
            Some(placement) => placement.representations.len() > 0
                && placement.representations[0].extent.same(&request.extent),
        }
    }

    /// From 1 to 4096 requests of this pin for at most 64 MiB together.
    pub open spec fn readable(&self, requests: Seq<LocatedModel>) -> bool {
        &&& 1 <= requests.len() <= MAX_BATCH_REQUESTS
        &&& forall|i: int| 0 <= i < requests.len() ==> self.found(#[trigger] requests[i])
        &&& total_length(requests, requests.len() as int) <= MAX_BATCH_BYTES
    }

    fn check_readable(&self, requests: &[LocatedRange]) -> (readable: bool)
        ensures
            readable == self.readable(models(requests@)),
    {
        if requests.len() == 0 || requests.len() > MAX_BATCH_REQUESTS {
            return false;
        }
        let ghost wants = models(requests@);
        let mut total: u64 = 0;
        let mut i: usize = 0;
        while i < requests.len()
            invariant
                i <= requests@.len(),
                wants == models(requests@),
                total == total_length(wants, i as int),
                forall|j: int| 0 <= j < i ==> self.found(#[trigger] wants[j]),
            decreases requests.len() - i,
        {
            if !self.found_here(&requests[i]) {
                assert(!self.found(wants[i as int]));
                return false;
            }
            proof {
                lemma_total_monotonic(wants, i as int + 1, wants.len() as int);
            }
            total = match total.checked_add(requests[i].range().length.value) {
                Some(total) => total,
                None => {
                    return false;
                },
            };
            i += 1;
        }
        total <= MAX_BATCH_BYTES
    }

    /// Reads some ranges in one batch. Ranges that overlap or touch are read once;
    /// the results stand one for one to the requests, in their order.
    pub fn read_ranges<B: StorageBackend>(
        &self,
        backend: &mut B,
        requests: &[LocatedRange],
    ) -> (results: Result<Vec<Vec<u8>>, StoreError>)
        ensures
            final(backend).namespace() == old(backend).namespace(),
            if !self.readable(models(requests@)) {
                results == Err::<Vec<Vec<u8>>, StoreError>(StoreError::Range) && final(
                    backend).history() == old(backend).history()
            } else {
                exists|reads: Seq<ObjectRange>,
                    slots: Seq<usize>,
                    reply: Result<Vec<Vec<u8>>, BackendError>,
                |
                    #![trigger answered(models(requests@), reads, slots, reply, results)]
                    planned(models(requests@), reads, slots) && final(backend).history() == old(
                        backend).history().push(Event::Read { requests: reads, reply })
                        && answered(models(requests@), reads, slots, reply, results)
            },
    {
        if !self.check_readable(requests) {
            return Err(StoreError::Range);
        }
        let (reads, slots) = plan_reads(requests);
        let reply: Result<Vec<Vec<u8>>, BackendError> = backend.read_ranges(reads.as_slice());
        let ghost given = reply;
        let results: Result<Vec<Vec<u8>>, StoreError> = match reply {
            Ok(replies) => cut_replies(
                requests,
                reads.as_slice(),
                slots.as_slice(),
                replies.as_slice(),
            ),
            Err(error) => Err(StoreError::Backend(error)),
        };
        assert(answered(models(requests@), reads@, slots@, given, results));
        results
    }

    /// Reads a range of a pack; an empty range needs no read.
    pub fn read<B: StorageBackend>(
        &self,
        backend: &mut B,
        pack: PackId,
        range: StoredRange,
    ) -> (result: Result<Vec<u8>, StoreError>)
        ensures
            final(backend).namespace() == old(backend).namespace(),
            adapter::extends(old(backend).history(), final(backend).history()),
            adapter::quiet(old(backend).history(), final(backend).history()),
            pin_replay(
                final(backend).history(),
                old(backend).history().len() as int,
                self.chosen(),
                pack,
                range,
            ) == Replay::Done(fetch::seen(result), final(backend).history().len() as int),
            result matches Ok(bytes) ==> bytes@.len() == range.length.value,
    {
        if range.length.value == 0 {
            let none: Vec<u8> = Vec::new();
            assert(none@ =~= Seq::<u8>::empty());
            return Ok(none);
        }
        let located: LocatedRange = self.locate(pack, PackRange::stored(range)?)?;
        let ghost want = located@;
        proof {
            use_type_invariant(self);
            use_type_invariant(&located);
        }
        let mut requests: Vec<LocatedRange> = Vec::new();
        requests.push(located);
        let ghost wants = models(requests@);
        proof {
            assert(wants =~= seq![want]);
            reveal_with_fuel(total_length, 2);
            assert(self.found(wants[0]));
        }
        let results: Result<Vec<Vec<u8>>, StoreError> = self.read_ranges(
            backend,
            requests.as_slice(),
        );
        proof {
            if self.readable(wants) {
                let (reads, slots, reply) = choose|
                    reads: Seq<ObjectRange>,
                    slots: Seq<usize>,
                    reply: Result<Vec<Vec<u8>>, BackendError>,
                |
                    #![trigger answered(wants, reads, slots, reply, results)]
                    planned(wants, reads, slots) && backend.history() == old(
                        backend).history().push(Event::Read { requests: reads, reply })
                        && answered(wants, reads, slots, reply, results);
                lemma_planned_one(want, reads, slots);
                match reply {
                    Ok(replies) => {
                        if fitting(reads, replies@) {
                            assert(cut(want, reads[0], replies@[0]@) =~= replies@[0]@);
                        } else if replies@.len() == 1 {
                            assert(replies@[0]@.len() != want.range.length.value);
                        }
                    },
                    Err(_) => {},
                }
                assert(fetch::asks_for(reads, ObjectKey::Blob(want.blob()), want.range));
            }
        }
        match results {
            Err(error) => Err(error),
            Ok(results) => {
                let mut results: Vec<Vec<u8>> = results;
                Ok(results.remove(0))
            },
        }
    }

    /// Reads a whole pack and verifies it against its name.
    pub fn fetch_pack<B: StorageBackend>(&self, backend: &mut B, pack: PackId) -> (bytes: Result<
        Vec<u8>,
        StoreError,
    >)
        ensures
            final(backend).namespace() == old(backend).namespace(),
            adapter::extends(old(backend).history(), final(backend).history()),
            adapter::quiet(old(backend).history(), final(backend).history()),
            pack_replay(
                final(backend).history(),
                old(backend).history().len() as int,
                self.chosen(),
                pack,
            ) == Replay::Done(fetch::seen(bytes), final(backend).history().len() as int),
            bytes matches Ok(b) ==> pack_id(b@) == Ok::<PackId, StoreError>(pack)
                && self.chosen().dom().contains(pack) && b@.len() == self.chosen()[pack].length,
    {
        let length: u64 = self.length(pack)?.value;
        if length > usize::MAX as u64 {
            return Err(StoreError::Range);
        }
        let ghost start = backend.history().len() as int;
        let ghost chosen = self.chosen();
        let mut bytes: Vec<u8> = Vec::new();
        let mut offset: u64 = 0;
        assert(bytes@ =~= Seq::<u8>::empty());
        while offset < length
            invariant
                offset <= length,
                length <= usize::MAX,
                bytes@.len() == offset,
                chosen == self.chosen(),
                chosen.dom().contains(pack),
                length == chosen[pack].length,
                start == old(backend).history().len(),
                backend.namespace() == old(backend).namespace(),
                adapter::extends(old(backend).history(), backend.history()),
                adapter::quiet(old(backend).history(), backend.history()),
                forall|later: Seq<Event>|
                    #![trigger pack_rest_replay(
                        later,
                        start,
                        chosen,
                        pack,
                        0,
                        length as int,
                        Seq::empty(),
                    )]
                    adapter::extends(backend.history(), later) ==> pack_rest_replay(
                        later,
                        start,
                        chosen,
                        pack,
                        0,
                        length as int,
                        Seq::empty(),
                    ) == pack_rest_replay(
                        later,
                        backend.history().len() as int,
                        chosen,
                        pack,
                        offset as int,
                        length as int,
                        bytes@,
                    ),
            decreases length - offset,
        {
            let count: u64 = if length - offset > MAX_BATCH_BYTES {
                MAX_BATCH_BYTES
            } else {
                length - offset
            };
            let range: StoredRange = StoredRange {
                offset: Count { value: offset },
                length: Count { value: count },
            };
            let ghost known = backend.history();
            let piece: Result<Vec<u8>, StoreError> = self.read(backend, pack, range);
            proof {
                assert(pack_rest_replay(
                    backend.history(),
                    start,
                    chosen,
                    pack,
                    0,
                    length as int,
                    Seq::empty(),
                ) == pack_rest_replay(
                    backend.history(),
                    known.len() as int,
                    chosen,
                    pack,
                    offset as int,
                    length as int,
                    bytes@,
                ));
            }
            let piece: Vec<u8> = piece?;
            let ghost before = bytes@;
            append(&mut bytes, piece.as_slice());
            proof {
                assert forall|later: Seq<Event>|
                    #![trigger pack_rest_replay(
                        later,
                        start,
                        chosen,
                        pack,
                        0,
                        length as int,
                        Seq::empty(),
                    )]
                    adapter::extends(backend.history(), later) implies pack_rest_replay(
                    later,
                    start,
                    chosen,
                    pack,
                    0,
                    length as int,
                    Seq::empty(),
                ) == pack_rest_replay(
                    later,
                    backend.history().len() as int,
                    chosen,
                    pack,
                    offset + count,
                    length as int,
                    bytes@,
                ) by {
                    assert(adapter::extends(known, later));
                    assert(pack_rest_replay(
                        later,
                        start,
                        chosen,
                        pack,
                        0,
                        length as int,
                        Seq::empty(),
                    ) == pack_rest_replay(
                        later,
                        known.len() as int,
                        chosen,
                        pack,
                        offset as int,
                        length as int,
                        before,
                    ));
                    assert(pin_replay(later, known.len() as int, chosen, pack, range)
                        == pin_replay(
                        backend.history(),
                        known.len() as int,
                        chosen,
                        pack,
                        range,
                    ));
                }
            }
            offset = offset + count;
        }
        proof {
            assert(pack_rest_replay(
                backend.history(),
                start,
                chosen,
                pack,
                0,
                length as int,
                Seq::empty(),
            ) == Replay::Done(Ok::<Seq<u8>, StoreError>(bytes@), backend.history().len() as int));
        }
        let id: PackId = authenticate(bytes.as_slice())?;
        proof {
            draft::lemma_named(id, pack::pack_parse(bytes@)->Ok_0);
        }
        if !id.same(&pack) {
            return Err(StoreError::Corrupt(0));
        }
        Ok(bytes)
    }

    /// The blobs that reads use, and their lengths.
    pub fn object_lengths(&self) -> (lengths: OrderedMap<ObjectKey, u64>)
        ensures
            lengths@ == blob_lengths(order::listing::<PackId, PlacementsModel>(self.chosen())),
    {
        let mut lengths: OrderedMap<ObjectKey, u64> = OrderedMap::new();
        let count: usize = self.placements.len();
        let ghost pairs = self.placements.pairs();
        proof {
            use_type_invariant(self);
            crate::order::lemma_walk::<PackId, PlacementsModel>(pairs, self.placements@);
        }
        let mut i: usize = 0;
        assert(pairs.take(0) =~= Seq::empty());
        while i < count
            invariant
                i <= count,
                count == pairs.len(),
                pairs == self.placements.pairs(),
                forall|j: int| 0 <= j < pairs.len() ==> (#[trigger] pairs[j]).1.wf(),
                lengths@ == blob_lengths(pairs.take(i as int)),
            decreases count - i,
        {
            let placement: &Placements = self.placements.value_at(i);
            let extent: BlobExtent = placement.preferred().extent;
            proof {
                assert(pairs.take(i as int + 1).drop_last() =~= pairs.take(i as int));
                assert(pairs.take(i as int + 1).last() == pairs[i as int]);
            }
            lengths.insert(ObjectKey::Blob(extent.blob), extent.blob_length.value);
            i += 1;
        }
        assert(pairs.take(i as int) =~= pairs);
        lengths
    }
}

/// The blobs of a list of placements, and their lengths; the last says it.
pub open spec fn blob_lengths(list: Seq<(PackId, PlacementsModel)>) -> Map<ObjectKey, u64>
    decreases list.len(),
{
    if list.len() == 0 {
        Map::empty()
    } else {
        let extent = list.last().1.representations[0].extent;
        blob_lengths(list.drop_last()).insert(
            ObjectKey::Blob(extent.blob),
            extent.blob_length.value,
        )
    }
}

/// What a batch of reads comes to: the backend's error, an error where the
/// replies do not fit, or the cuts.
pub open spec fn answered(
    requests: Seq<LocatedModel>,
    reads: Seq<ObjectRange>,
    slots: Seq<usize>,
    reply: Result<Vec<Vec<u8>>, BackendError>,
    results: Result<Vec<Vec<u8>>, StoreError>,
) -> bool {
    match reply {
        Err(error) => results == Err::<Vec<Vec<u8>>, StoreError>(StoreError::Backend(error)),
        Ok(replies) => if !fitting(reads, replies@) {
            results == Err::<Vec<Vec<u8>>, StoreError>(
                StoreError::Backend(BackendError::InvalidData),
            )
        } else {
            match results {
                Ok(r) => r@.len() == requests.len() && forall|i: int|
                    0 <= i < requests.len() ==> (#[trigger] r@[i])@ == cut(
                        requests[i],
                        reads[slots[i] as int],
                        replies@[slots[i] as int]@,
                    ),
                Err(_) => false,
            }
        },
    }
}

} // verus!
