//! What a collection reports.

use crate::adapter::ObjectKey;
use crate::bytes;
use crate::bytes::{copied, push_le};
use crate::domain::{Count, DecodedBytes, StoredBytes};
use crate::keys::CatalogKey;
use crate::order::{OrderedMap, OrderedSet};
use crate::placement::{BlobExtent, Representation};
use crate::survey;
use crate::survey::{Held, HeldModel, read_entry};
use vstd::prelude::*;

verus! {

/// What a collection found and did. Sums of bytes saturate.
#[derive(Clone, Copy, Debug, PartialEq, Eq)]
pub struct GcReport {
    pub current_view_bytes: u64,
    pub retained_bytes: u64,
    /// Bytes that named owners retain beyond the current view.
    pub fork_retained_bytes: u64,
    /// Bytes that only readers retain.
    pub reader_retained_bytes: u64,
    pub collectible_bytes: u64,
    pub partially_obsolete_bytes: u64,
    pub objects: usize,
    pub deleted_objects: usize,
    pub deleted_bytes: u64,
    pub logically_unreachable_packs: usize,
    pub fully_unreachable_blobs: usize,
    pub fully_unreachable_blob_bytes: u64,
    pub dead_extent_bytes: u64,
    pub uncertain_retained_bytes: u64,
}

impl GcReport {
    pub open spec fn zero() -> GcReport {
        GcReport {
            current_view_bytes: 0,
            retained_bytes: 0,
            fork_retained_bytes: 0,
            reader_retained_bytes: 0,
            collectible_bytes: 0,
            partially_obsolete_bytes: 0,
            objects: 0,
            deleted_objects: 0,
            deleted_bytes: 0,
            logically_unreachable_packs: 0,
            fully_unreachable_blobs: 0,
            fully_unreachable_blob_bytes: 0,
            dead_extent_bytes: 0,
            uncertain_retained_bytes: 0,
        }
    }

    pub fn new() -> (report: GcReport)
        ensures
            report == GcReport::zero(),
    {
        GcReport {
            current_view_bytes: 0,
            retained_bytes: 0,
            fork_retained_bytes: 0,
            reader_retained_bytes: 0,
            collectible_bytes: 0,
            partially_obsolete_bytes: 0,
            objects: 0,
            deleted_objects: 0,
            deleted_bytes: 0,
            logically_unreachable_packs: 0,
            fully_unreachable_blobs: 0,
            fully_unreachable_blob_bytes: 0,
            dead_extent_bytes: 0,
            uncertain_retained_bytes: 0,
        }
    }
}

impl Default for GcReport {
    fn default() -> (report: GcReport)
        ensures
            report == GcReport::zero(),
    {
        GcReport::new()
    }
}

/// What a round of maintenance did.
#[derive(Clone, Copy, Debug, PartialEq, Eq)]
pub struct MaintenanceReport {
    pub repacked_packs: usize,
    /// Frames that were copied as they stand.
    pub copied_frames: usize,
    /// The bytes of their payloads.
    pub copied_bytes: StoredBytes,
    /// The bytes that were decoded, from frames that are only partly live.
    pub decoded_input: DecodedBytes,
    pub gc: GcReport,
}

impl Default for MaintenanceReport {
    fn default() -> (report: MaintenanceReport)
        ensures
            report.repacked_packs == 0,
            report.copied_frames == 0,
            report.copied_bytes.value == 0,
            report.decoded_input.value == 0,
            report.gc == GcReport::zero(),
    {
        MaintenanceReport {
            repacked_packs: 0,
            copied_frames: 0,
            copied_bytes: Count { value: 0 },
            decoded_input: Count { value: 0 },
            gc: GcReport::new(),
        }
    }
}

/// A sum that saturates.
pub open spec fn sum(a: u64, b: u64) -> u64 {
    if a + b > u64::MAX {
        u64::MAX
    } else {
        (a + b) as u64
    }
}

/// An extent of a blob, as bytes.
pub open spec fn extent_bytes(extent: BlobExtent) -> Seq<u8> {
    extent.blob.bytes@ + bytes::le(extent.offset.value as nat, 8) + bytes::le(
        extent.length.value as nat,
        8,
    )
}

fn extent_key(extent: &BlobExtent) -> (key: Vec<u8>)
    ensures
        key@ == extent_bytes(*extent),
{
    let mut key: Vec<u8> = copied(extent.blob.bytes.as_slice());
    push_le(&mut key, extent.offset.value, 8);
    push_le(&mut key, extent.length.value, 8);
    key
}

/// Packs that nothing reaches, and their extents in blobs that stay, each counted
/// once.
#[verifier::ext_equal]
pub struct DeadModel {
    pub packs: int,
    pub bytes: u64,
    pub extents: Set<Seq<u8>>,
}

/// With the first `count` places of a pack.
pub open spec fn dead_places(
    list: Seq<Representation>,
    all: Set<ObjectKey>,
    count: int,
    dead: DeadModel,
) -> DeadModel
    decreases count,
{
    if count <= 0 {
        dead
    } else {
        let prior = dead_places(list, all, count - 1, dead);
        let extent = list[count - 1].extent;
        if all.contains(ObjectKey::Blob(extent.blob)) && !prior.extents.contains(
            extent_bytes(extent),
        ) {
            DeadModel {
                bytes: sum(prior.bytes, extent.length.value),
                extents: prior.extents.insert(extent_bytes(extent)),
                ..prior
            }
        } else {
            prior
        }
    }
}

/// What is dead among the first `count` placements.
pub open spec fn dead_among(
    entries: Seq<(Seq<u8>, Seq<u8>)>,
    live: Set<CatalogKey>,
    all: Set<ObjectKey>,
    count: int,
) -> DeadModel
    decreases count,
{
    if count <= 0 {
        DeadModel { packs: 0, bytes: 0, extents: Set::empty() }
    } else {
        let prior = dead_among(entries, live, all, count - 1);
        match survey::entry_parse(entries[count - 1]) {
            Err(_) => prior,
            Ok(placement) => if live.contains(CatalogKey::Pack(placement.pack)) {
                prior
            } else {
                dead_places(
                    placement.representations,
                    all,
                    placement.representations.len() as int,
                    DeadModel { packs: prior.packs + 1, ..prior },
                )
            },
        }
    }
}

/// What a walk over everything that is held adds up to, and what of it may go.
#[verifier::ext_equal]
pub struct TallyModel {
    pub report: GcReport,
    pub deletable: Seq<(ObjectKey, u64)>,
}

/// With one more object counted: it is part of the current view, or kept for
/// another reason, or it may go. No more than `budget` may go at once.
pub open spec fn counted(
    tally: TallyModel,
    key: ObjectKey,
    length: u64,
    held: HeldModel,
    sealing: bool,
    budget: int,
) -> TallyModel {
    let r = tally.report;
    if held.current.contains(key) {
        TallyModel {
            report: GcReport { current_view_bytes: sum(r.current_view_bytes, length), ..r },
            ..tally
        }
    } else if held.all.contains(key) {
        let kept = GcReport { retained_bytes: sum(r.retained_bytes, length), ..r };
        TallyModel {
            report: if held.named.contains(key) {
                GcReport { fork_retained_bytes: sum(r.fork_retained_bytes, length), ..kept }
            } else if held.leased.contains(key) {
                GcReport { reader_retained_bytes: sum(r.reader_retained_bytes, length), ..kept }
            } else if sealing {
                GcReport {
                    uncertain_retained_bytes: sum(r.uncertain_retained_bytes, length),
                    ..kept
                }
            } else {
                kept
            },
            ..tally
        }
    } else {
        let gone = GcReport { collectible_bytes: sum(r.collectible_bytes, length), ..r };
        TallyModel {
            report: if key is Blob {
                GcReport {
                    fully_unreachable_blobs: (r.fully_unreachable_blobs + 1) as usize,
                    fully_unreachable_blob_bytes: sum(r.fully_unreachable_blob_bytes, length),
                    ..gone
                }
            } else {
                gone
            },
            deletable: if tally.deletable.len() < budget {
                tally.deletable.push((key, length))
            } else {
                tally.deletable
            },
        }
    }
}

/// The first `count` objects, counted.
pub open spec fn tallied(
    walk: Seq<ObjectKey>,
    lengths: Map<ObjectKey, u64>,
    held: HeldModel,
    sealing: bool,
    budget: int,
    start: GcReport,
    count: int,
) -> TallyModel
    decreases count,
{
    if count <= 0 {
        TallyModel { report: start, deletable: Seq::empty() }
    } else {
        counted(
            tallied(walk, lengths, held, sealing, budget, start, count - 1),
            walk[count - 1],
            lengths[walk[count - 1]],
            held,
            sealing,
            budget,
        )
    }
}

fn find_dead_places(
    list: &Vec<Representation>,
    all: &OrderedSet<ObjectKey>,
    bytes: u64,
    extents: &mut OrderedSet<Vec<u8>>,
    packs: Ghost<int>,
) -> (total: u64)
    ensures
        dead_places(
            list@,
            all@,
            list@.len() as int,
            DeadModel { packs: packs@, bytes, extents: old(extents)@ },
        ) == (DeadModel { packs: packs@, bytes: total, extents: final(extents)@ }),
{
    let ghost start = DeadModel { packs: packs@, bytes, extents: extents@ };
    let mut total: u64 = bytes;
    let mut i: usize = 0;
    while i < list.len()
        invariant
            i <= list@.len(),
            dead_places(list@, all@, i as int, start) == (DeadModel {
                packs: packs@,
                bytes: total,
                extents: extents@,
            }),
        decreases list.len() - i,
    {
        let extent: BlobExtent = list[i].extent;
        let key: ObjectKey = ObjectKey::Blob(extent.blob);
        if all.contains(&key) {
            let fresh: bool = extents.insert(extent_key(&extent));
            if fresh {
                total = total.saturating_add(extent.length.value);
            } else {
                assert(extents@ =~= dead_places(list@, all@, i as int, start).extents);
            }
        }
        i += 1;
    }
    total
}

/// The packs that nothing reaches and the bytes of their extents in blobs that
/// stay.
pub fn find_dead(
    entries: &OrderedMap<Vec<u8>, Vec<u8>>,
    live: &OrderedSet<CatalogKey>,
    all: &OrderedSet<ObjectKey>,
) -> (dead: (usize, u64))
    ensures
        ({
            let list = entries.pairs();
            let model = dead_among(list, live@, all@, list.len() as int);
            dead.0 == model.packs && dead.1 == model.bytes
        }),
{
    let count: usize = entries.len();
    let ghost list = entries.pairs();
    let mut extents: OrderedSet<Vec<u8>> = OrderedSet::new();
    let mut packs: usize = 0;
    let mut bytes: u64 = 0;
    let mut i: usize = 0;
    assert(extents@ =~= Set::<Seq<u8>>::empty());
    while i < count
        invariant
            i <= count,
            count == list.len(),
            list == entries.pairs(),
            packs <= i,
            dead_among(list, live@, all@, i as int) == (DeadModel {
                packs: packs as int,
                bytes,
                extents: extents@,
            }),
        decreases count - i,
    {
        match read_entry(entries.key_at(i), entries.value_at(i)) {
            Err(_) => {},
            Ok(placement) => {
                if !live.contains(&CatalogKey::Pack(placement.pack)) {
                    packs += 1;
                    bytes = find_dead_places(
                        &placement.representations,
                        all,
                        bytes,
                        &mut extents,
                        Ghost(packs as int),
                    );
                }
            },
        }
        i += 1;
    }
    (packs, bytes)
}

/// Counts everything that is held, and chooses what may go.
pub fn tally(
    inventory: &OrderedSet<ObjectKey>,
    lengths: &OrderedMap<ObjectKey, u64>,
    held: &Held,
    sealing: bool,
    budget: usize,
    start: GcReport,
) -> (found: (GcReport, Vec<(ObjectKey, u64)>))
    requires
        forall|key: ObjectKey| #[trigger]
            inventory@.contains(key) ==> lengths@.dom().contains(key),
        start.fully_unreachable_blobs == 0,
    ensures
        ({
            let walk = inventory.walk();
            (TallyModel { report: found.0, deletable: found.1@ }) == tallied(
                walk,
                lengths@,
                held@,
                sealing,
                budget as int,
                start,
                walk.len() as int,
            )
        }),
{
    let count: usize = inventory.len();
    let ghost walk = inventory.walk();
    let mut report: GcReport = start;
    let mut deletable: Vec<(ObjectKey, u64)> = Vec::new();
    let mut i: usize = 0;
    assert(deletable@ =~= Seq::<(ObjectKey, u64)>::empty());
    while i < count
        invariant
            i <= count,
            count == walk.len(),
            walk == inventory.walk(),
            walk.to_set() == inventory@,
            forall|key: ObjectKey| #[trigger]
                inventory@.contains(key) ==> lengths@.dom().contains(key),
            report.fully_unreachable_blobs <= i,
            (TallyModel { report, deletable: deletable@ }) == tallied(
                walk,
                lengths@,
                held@,
                sealing,
                budget as int,
                start,
                i as int,
            ),
        decreases count - i,
    {
        let key: ObjectKey = *inventory.at(i);
        assert(walk.contains(walk[i as int]));
        assert(walk.to_set().contains(key));
        let length: u64 = match lengths.get(&key) {
            Some(length) => *length,
            None => 0,
        };
        if held.current.contains(&key) {
            report.current_view_bytes = report.current_view_bytes.saturating_add(length);
        } else if held.all.contains(&key) {
            report.retained_bytes = report.retained_bytes.saturating_add(length);
            if held.named.contains(&key) {
                report.fork_retained_bytes = report.fork_retained_bytes.saturating_add(length);
            } else if held.leased.contains(&key) {
                report.reader_retained_bytes = report.reader_retained_bytes.saturating_add(length);
            } else if sealing {
                report.uncertain_retained_bytes =
                report.uncertain_retained_bytes.saturating_add(length);
            }
        } else {
            report.collectible_bytes = report.collectible_bytes.saturating_add(length);
            if let ObjectKey::Blob(_) = key {
                report.fully_unreachable_blobs = report.fully_unreachable_blobs + 1;
                report.fully_unreachable_blob_bytes =
                report.fully_unreachable_blob_bytes.saturating_add(length);
            }
            if deletable.len() < budget {
                deletable.push((key, length));
            }
        }
        i += 1;
    }
    (report, deletable)
}

/// What may go is listed, with its length, and does not have to stay; and there is
/// no more of it than the budget.
pub proof fn law_deletable_is_garbage(
    walk: Seq<ObjectKey>,
    lengths: Map<ObjectKey, u64>,
    held: HeldModel,
    sealing: bool,
    budget: int,
    start: GcReport,
    count: int,
    i: int,
)
    requires
        0 <= count <= walk.len(),
        0 <= budget,
        0 <= i < tallied(walk, lengths, held, sealing, budget, start, count).deletable.len(),
    ensures
        ({
            let deletable = tallied(walk, lengths, held, sealing, budget, start, count).deletable;
            &&& walk.contains(deletable[i].0)
            &&& deletable[i].1 == lengths[deletable[i].0]
            &&& !held.all.contains(deletable[i].0)
            &&& deletable.len() <= budget
        }),
    decreases count,
{
    if count > 0 {
        let prior = tallied(walk, lengths, held, sealing, budget, start, count - 1).deletable;
        let next = tallied(walk, lengths, held, sealing, budget, start, count).deletable;
        assert(walk.contains(walk[count - 1]));
        if prior.len() > 0 {
            law_deletable_is_garbage(
                walk,
                lengths,
                held,
                sealing,
                budget,
                start,
                count - 1,
                if i < prior.len() {
                    i
                } else {
                    0
                },
            );
        }
    }
}

/// The bytes of the first `count` objects.
pub open spec fn walked(walk: Seq<ObjectKey>, lengths: Map<ObjectKey, u64>, count: int) -> int
    decreases count,
{
    if count <= 0 {
        0
    } else {
        walked(walk, lengths, count - 1) + lengths[walk[count - 1]]
    }
}

/// Every object is counted once: as part of the current view, as retained for
/// another reason, or as collectible. What named owners, readers and an unfinished
/// seal retain is part of what is retained, and the blobs that nothing reaches are
/// part of what is collectible.
pub proof fn law_report_adds_up(
    walk: Seq<ObjectKey>,
    lengths: Map<ObjectKey, u64>,
    held: HeldModel,
    sealing: bool,
    budget: int,
    start: GcReport,
    count: int,
)
    requires
        0 <= count <= walk.len(),
        walked(walk, lengths, count) <= u64::MAX,
        start.current_view_bytes == 0,
        start.retained_bytes == 0,
        start.fork_retained_bytes == 0,
        start.reader_retained_bytes == 0,
        start.uncertain_retained_bytes == 0,
        start.collectible_bytes == 0,
        start.fully_unreachable_blob_bytes == 0,
    ensures
        0 <= walked(walk, lengths, count),
        ({
            let report = tallied(walk, lengths, held, sealing, budget, start, count).report;
            &&& report.current_view_bytes + report.retained_bytes + report.collectible_bytes
                == walked(walk, lengths, count)
            &&& report.fork_retained_bytes + report.reader_retained_bytes
                + report.uncertain_retained_bytes <= report.retained_bytes
            &&& report.fully_unreachable_blob_bytes <= report.collectible_bytes
            &&& report.objects == start.objects
            &&& report.deleted_objects == start.deleted_objects
        }),
    decreases count,
{
    if count > 0 {
        law_report_adds_up(walk, lengths, held, sealing, budget, start, count - 1);
    }
}

/// The bytes of those of the first `count` objects that are picked.
pub open spec fn bytes_where(
    walk: Seq<ObjectKey>,
    lengths: Map<ObjectKey, u64>,
    count: int,
    pick: spec_fn(ObjectKey) -> bool,
) -> int
    decreases count,
{
    if count <= 0 {
        0
    } else {
        bytes_where(walk, lengths, count - 1, pick) + if pick(walk[count - 1]) {
            lengths[walk[count - 1]] as int
        } else {
            0
        }
    }
}

/// How many of the first `count` objects are picked.
pub open spec fn count_where(walk: Seq<ObjectKey>, count: int, pick: spec_fn(ObjectKey) -> bool) -> int
    decreases count,
{
    if count <= 0 {
        0
    } else {
        count_where(walk, count - 1, pick) + if pick(walk[count - 1]) {
            1int
        } else {
            0
        }
    }
}

proof fn lemma_bytes_where(
    walk: Seq<ObjectKey>,
    lengths: Map<ObjectKey, u64>,
    count: int,
    pick: spec_fn(ObjectKey) -> bool,
)
    ensures
        0 <= bytes_where(walk, lengths, count, pick) <= walked(walk, lengths, count),
    decreases count,
{
    if count > 0 {
        lemma_bytes_where(walk, lengths, count - 1, pick);
    }
}

/// Each sum of a report is over the objects that it is named for. What the current
/// view needs is counted there and nowhere else. Of what else is held, the objects
/// that a named owner needs are retained for forks, those that only a lease keeps are
/// retained for readers, and the rest is uncertain while a seal is under way. What is
/// not held may be collected, and the blobs among that are counted apart.
pub proof fn law_report_says_why(
    walk: Seq<ObjectKey>,
    lengths: Map<ObjectKey, u64>,
    held: HeldModel,
    sealing: bool,
    budget: int,
    start: GcReport,
    count: int,
)
    requires
        0 <= count <= walk.len(),
        count <= usize::MAX,
        walked(walk, lengths, count) <= u64::MAX,
        start.current_view_bytes == 0,
        start.retained_bytes == 0,
        start.fork_retained_bytes == 0,
        start.reader_retained_bytes == 0,
        start.uncertain_retained_bytes == 0,
        start.collectible_bytes == 0,
        start.fully_unreachable_blob_bytes == 0,
        start.fully_unreachable_blobs == 0,
    ensures
        ({
            let report = tallied(walk, lengths, held, sealing, budget, start, count).report;
            let part = |pick: spec_fn(ObjectKey) -> bool| bytes_where(walk, lengths, count, pick);
            let kept = |key: ObjectKey| held.all.contains(key) && !held.current.contains(key);
            let gone = |key: ObjectKey| !held.all.contains(key) && !held.current.contains(key);
            &&& report.current_view_bytes == part(|key: ObjectKey| held.current.contains(key))
            &&& report.retained_bytes == part(kept)
            &&& report.fork_retained_bytes == part(
                |key: ObjectKey| kept(key) && held.named.contains(key),
            )
            &&& report.reader_retained_bytes == part(
                |key: ObjectKey|
                    kept(key) && held.leased.contains(key) && !held.named.contains(key),
            )
            &&& report.uncertain_retained_bytes == part(
                |key: ObjectKey|
                    sealing && kept(key) && !held.leased.contains(key) && !held.named.contains(key),
            )
            &&& report.collectible_bytes == part(gone)
            &&& report.fully_unreachable_blob_bytes == part(
                |key: ObjectKey| gone(key) && key is Blob,
            )
            &&& report.fully_unreachable_blobs == count_where(
                walk,
                count,
                |key: ObjectKey| gone(key) && key is Blob,
            )
        }),
    decreases count,
{
    let kept = |key: ObjectKey| held.all.contains(key) && !held.current.contains(key);
    let gone = |key: ObjectKey| !held.all.contains(key) && !held.current.contains(key);
    lemma_bytes_where(walk, lengths, count, |key: ObjectKey| held.current.contains(key));
    lemma_bytes_where(walk, lengths, count, kept);
    lemma_bytes_where(walk, lengths, count, |key: ObjectKey| kept(key) && held.named.contains(key));
    lemma_bytes_where(
        walk,
        lengths,
        count,
        |key: ObjectKey| kept(key) && held.leased.contains(key) && !held.named.contains(key),
    );
    lemma_bytes_where(
        walk,
        lengths,
        count,
        |key: ObjectKey|
            sealing && kept(key) && !held.leased.contains(key) && !held.named.contains(key),
    );
    lemma_bytes_where(walk, lengths, count, gone);
    lemma_bytes_where(walk, lengths, count, |key: ObjectKey| gone(key) && key is Blob);
    lemma_count_where(walk, count, |key: ObjectKey| gone(key) && key is Blob);
    if count > 0 {
        lemma_count_where(walk, count - 1, |key: ObjectKey| gone(key) && key is Blob);
        lemma_bytes_where(walk, lengths, count - 1, |key: ObjectKey| false);
        law_report_says_why(walk, lengths, held, sealing, budget, start, count - 1);
    }
}

proof fn lemma_count_where(walk: Seq<ObjectKey>, count: int, pick: spec_fn(ObjectKey) -> bool)
    requires
        0 <= count,
    ensures
        0 <= count_where(walk, count, pick) <= count,
    decreases count,
{
    if count > 0 {
        lemma_count_where(walk, count - 1, pick);
    }
}

/// Where no reader holds a lease, nothing is retained for readers; where no owner has
/// a name, nothing is retained for forks; and where no seal is under way, nothing is
/// uncertain.
pub proof fn law_nobody_retains_nothing(
    walk: Seq<ObjectKey>,
    lengths: Map<ObjectKey, u64>,
    held: HeldModel,
    sealing: bool,
    budget: int,
    start: GcReport,
    count: int,
)
    requires
        0 <= count <= walk.len(),
    ensures
        ({
            let report = tallied(walk, lengths, held, sealing, budget, start, count).report;
            &&& held.leased =~= Set::<ObjectKey>::empty() ==> report.reader_retained_bytes
                == start.reader_retained_bytes
            &&& held.named =~= Set::<ObjectKey>::empty() ==> report.fork_retained_bytes
                == start.fork_retained_bytes
            &&& !sealing ==> report.uncertain_retained_bytes == start.uncertain_retained_bytes
        }),
    decreases count,
{
    if count > 0 {
        law_nobody_retains_nothing(walk, lengths, held, sealing, budget, start, count - 1);
    }
}

/// Everything that is not held may go, up to the budget: there is less to delete than
/// the budget allows only where all of it is to be deleted.
pub proof fn law_budget_is_used(
    walk: Seq<ObjectKey>,
    lengths: Map<ObjectKey, u64>,
    held: HeldModel,
    sealing: bool,
    budget: int,
    start: GcReport,
    count: int,
)
    requires
        0 <= count <= walk.len(),
        0 <= budget,
    ensures
        ({
            let deletable = tallied(walk, lengths, held, sealing, budget, start, count).deletable;
            let garbage = count_where(
                walk,
                count,
                |key: ObjectKey| !held.all.contains(key) && !held.current.contains(key),
            );
            deletable.len() == if garbage <= budget {
                garbage
            } else {
                budget
            }
        }),
    decreases count,
{
    lemma_count_where(
        walk,
        count,
        |key: ObjectKey| !held.all.contains(key) && !held.current.contains(key),
    );
    if count > 0 {
        law_budget_is_used(walk, lengths, held, sealing, budget, start, count - 1);
    }
}

/// The packs that nothing reaches among the first `count` placements.
pub open spec fn dead_packs(
    entries: Seq<(Seq<u8>, Seq<u8>)>,
    live: Set<CatalogKey>,
    count: int,
) -> Seq<int> {
    Seq::new(count as nat, |i: int| i).filter(
        |i: int|
            survey::entry_parse(entries[i]) matches Ok(placement) && !live.contains(
                CatalogKey::Pack(placement.pack),
            ),
    )
}

/// A pack among the first `count` placements that nothing reaches has this extent, in a
/// blob that stays.
pub open spec fn dead_extent(
    entries: Seq<(Seq<u8>, Seq<u8>)>,
    live: Set<CatalogKey>,
    all: Set<ObjectKey>,
    count: int,
    extent: BlobExtent,
) -> bool {
    exists|i: int, j: int|
        0 <= i < count && #[trigger] dead_place(entries, live, all, i, j) == Some(extent)
}

/// The extent of place `j` of the pack of placement `i`, if nothing reaches the pack and
/// the blob stays.
pub open spec fn dead_place(
    entries: Seq<(Seq<u8>, Seq<u8>)>,
    live: Set<CatalogKey>,
    all: Set<ObjectKey>,
    i: int,
    j: int,
) -> Option<BlobExtent> {
    match survey::entry_parse(entries[i]) {
        Err(_) => None,
        Ok(placement) => if !live.contains(CatalogKey::Pack(placement.pack)) && 0 <= j
            < placement.representations.len() && all.contains(
            ObjectKey::Blob(placement.representations[j].extent.blob),
        ) {
            Some(placement.representations[j].extent)
        } else {
            None
        },
    }
}

/// The bytes of some extents.
pub open spec fn extents_length(extents: Seq<BlobExtent>) -> int
    decreases extents.len(),
{
    if extents.len() == 0 {
        0
    } else {
        extents_length(extents.drop_last()) + extents.last().length.value
    }
}

/// Some extents, each of them once.
pub open spec fn each_once(extents: Seq<BlobExtent>) -> bool {
    forall|i: int, j: int|
        0 <= i < j < extents.len() ==> extent_bytes(#[trigger] extents[i]) != extent_bytes(
            #[trigger] extents[j],
        )
}

/// Some extents are those of a set of records.
pub open spec fn recorded(extents: Seq<BlobExtent>, records: Set<Seq<u8>>) -> bool {
    &&& forall|i: int|
        0 <= i < extents.len() ==> records.contains(extent_bytes(#[trigger] extents[i]))
    &&& forall|record: Seq<u8>| #[trigger]
        records.contains(record) ==> exists|i: int|
            0 <= i < extents.len() && extent_bytes(#[trigger] extents[i]) == record
}

proof fn lemma_dead_places(
    list: Seq<Representation>,
    all: Set<ObjectKey>,
    count: int,
    dead: DeadModel,
    before: Seq<BlobExtent>,
) -> (after: Seq<BlobExtent>)
    requires
        0 <= count <= list.len(),
        each_once(before),
        recorded(before, dead.extents),
        dead.bytes == if extents_length(before) > u64::MAX {
            u64::MAX as int
        } else {
            extents_length(before)
        },
        0 <= extents_length(before),
    ensures
        ({
            let model = dead_places(list, all, count, dead);
            &&& each_once(after)
            &&& recorded(after, model.extents)
            &&& 0 <= extents_length(after)
            &&& model.bytes == if extents_length(after) > u64::MAX {
                u64::MAX as int
            } else {
                extents_length(after)
            }
            &&& model.packs == dead.packs
            &&& forall|record: Seq<u8>| #[trigger]
                model.extents.contains(record) <==> dead.extents.contains(record) || exists|j: int|
                    0 <= j < count && all.contains(ObjectKey::Blob((#[trigger] list[j]).extent.blob))
                        && extent_bytes(list[j].extent) == record
        }),
    decreases count,
{
    if count <= 0 {
        before
    } else {
        let prior = lemma_dead_places(list, all, count - 1, dead, before);
        let model = dead_places(list, all, count - 1, dead);
        let extent = list[count - 1].extent;
        let next = dead_places(list, all, count, dead);
        if all.contains(ObjectKey::Blob(extent.blob)) && !model.extents.contains(
            extent_bytes(extent),
        ) {
            let after = prior.push(extent);
            assert(after.drop_last() =~= prior);
            assert(recorded(after, next.extents)) by {
                assert forall|record: Seq<u8>| #[trigger]
                    next.extents.contains(record) implies exists|i: int|
                    0 <= i < after.len() && extent_bytes(#[trigger] after[i]) == record by {
                    if record == extent_bytes(extent) {
                        assert(after[prior.len() as int] == extent);
                    } else {
                        let i = choose|i: int|
                            0 <= i < prior.len() && extent_bytes(#[trigger] prior[i]) == record;
                        assert(after[i] == prior[i]);
                    }
                }
                assert forall|i: int| 0 <= i < after.len() implies next.extents.contains(
                    extent_bytes(#[trigger] after[i]),
                ) by {
                    if i < prior.len() {
                        assert(after[i] == prior[i]);
                    }
                }
            }
            assert(each_once(after)) by {
                assert forall|i: int, j: int| 0 <= i < j < after.len() implies extent_bytes(
                    #[trigger] after[i],
                ) != extent_bytes(#[trigger] after[j]) by {
                    assert(after[i] == prior[i]);
                    if j < prior.len() {
                        assert(after[j] == prior[j]);
                    } else {
                        assert(model.extents.contains(extent_bytes(prior[i])));
                    }
                }
            }
            after
        } else {
            prior
        }
    }
}

/// The packs that count as unreachable are those that nothing reaches.
pub proof fn law_dead_packs(
    entries: Seq<(Seq<u8>, Seq<u8>)>,
    live: Set<CatalogKey>,
    all: Set<ObjectKey>,
    count: int,
)
    requires
        0 <= count <= entries.len(),
    ensures
        dead_among(entries, live, all, count).packs == dead_packs(entries, live, count).len(),
    decreases count,
{
    let pick = |i: int|
        survey::entry_parse(entries[i]) matches Ok(placement) && !live.contains(
            CatalogKey::Pack(placement.pack),
        );
    let places = Seq::new(count as nat, |i: int| i);
    reveal_with_fuel(Seq::filter, 1);
    if count <= 0 {
        assert(places =~= Seq::<int>::empty());
    } else {
        law_dead_packs(entries, live, all, count - 1);
        assert(places.drop_last() =~= Seq::new((count - 1) as nat, |i: int| i));
        let before = dead_among(entries, live, all, count - 1);
        if let Ok(placement) = survey::entry_parse(entries[count - 1]) {
            let list = placement.representations;
            lemma_places_keep_packs(
                list,
                all,
                list.len() as int,
                DeadModel { packs: before.packs + 1, ..before },
            );
        }
    }
}

proof fn lemma_places_keep_packs(
    list: Seq<Representation>,
    all: Set<ObjectKey>,
    count: int,
    dead: DeadModel,
)
    ensures
        dead_places(list, all, count, dead).packs == dead.packs,
    decreases count,
{
    if count > 0 {
        lemma_places_keep_packs(list, all, count - 1, dead);
    }
}

/// The dead bytes are those of the extents that unreachable packs have in blobs that
/// stay. Each extent counts once.
pub proof fn law_dead_bytes(
    entries: Seq<(Seq<u8>, Seq<u8>)>,
    live: Set<CatalogKey>,
    all: Set<ObjectKey>,
    count: int,
) -> (extents: Seq<BlobExtent>)
    requires
        0 <= count <= entries.len(),
    ensures
        ({
            let dead = dead_among(entries, live, all, count);
            &&& dead.bytes == if extents_length(extents) > u64::MAX {
                u64::MAX as int
            } else {
                extents_length(extents)
            }
            &&& each_once(extents)
            &&& recorded(extents, dead.extents)
            &&& 0 <= extents_length(extents)
        }),
    decreases count,
{
    if count <= 0 {
        Seq::empty()
    } else {
        let prior = law_dead_bytes(entries, live, all, count - 1);
        let before = dead_among(entries, live, all, count - 1);
        match survey::entry_parse(entries[count - 1]) {
            Ok(placement) => if !live.contains(CatalogKey::Pack(placement.pack)) {
                let list = placement.representations;
                let started = DeadModel { packs: before.packs + 1, ..before };
                lemma_dead_places(list, all, list.len() as int, started, prior)
            } else {
                prior
            },
            Err(_) => prior,
        }
    }
}

proof fn lemma_place_records(
    list: Seq<Representation>,
    all: Set<ObjectKey>,
    count: int,
    dead: DeadModel,
    record: Seq<u8>,
)
    requires
        0 <= count <= list.len(),
    ensures
        dead_places(list, all, count, dead).extents.contains(record) <==> dead.extents.contains(record)
            || exists|j: int|
            0 <= j < count && all.contains(ObjectKey::Blob((#[trigger] list[j]).extent.blob))
                && extent_bytes(list[j].extent) == record,
    decreases count,
{
    if count > 0 {
        lemma_place_records(list, all, count - 1, dead, record);
        let last = list[count - 1];
    }
}

/// The extents that count as dead are those that unreachable packs have in blobs that
/// stay.
pub proof fn law_dead_extents(
    entries: Seq<(Seq<u8>, Seq<u8>)>,
    live: Set<CatalogKey>,
    all: Set<ObjectKey>,
    count: int,
    record: Seq<u8>,
)
    requires
        0 <= count <= entries.len(),
    ensures
        dead_among(entries, live, all, count).extents.contains(record) <==> exists|extent: BlobExtent|
            #[trigger] dead_extent(entries, live, all, count, extent) && extent_bytes(extent) == record,
    decreases count,
{
    if count > 0 {
        law_dead_extents(entries, live, all, count - 1, record);
        let before = dead_among(entries, live, all, count - 1);
        if before.extents.contains(record) {
            let extent = choose|extent: BlobExtent| #[trigger]
                dead_extent(entries, live, all, count - 1, extent) && extent_bytes(extent) == record;
            lemma_dead_extent(entries, live, all, count, extent);
        }
        if let Ok(placement) = survey::entry_parse(entries[count - 1]) {
            let list = placement.representations;
            let started = DeadModel { packs: before.packs + 1, ..before };
            lemma_place_records(list, all, list.len() as int, started, record);
            if !live.contains(CatalogKey::Pack(placement.pack)) && exists|j: int|
                0 <= j < list.len() && all.contains(ObjectKey::Blob((#[trigger] list[j]).extent.blob))
                    && extent_bytes(list[j].extent) == record {
                let j = choose|j: int|
                    0 <= j < list.len() && all.contains(
                        ObjectKey::Blob((#[trigger] list[j]).extent.blob),
                    ) && extent_bytes(list[j].extent) == record;
                assert(dead_place(entries, live, all, count - 1, j) == Some(list[j].extent));
                assert(dead_extent(entries, live, all, count, list[j].extent));
            }
        }
    }
    if exists|extent: BlobExtent| #[trigger]
        dead_extent(entries, live, all, count, extent) && extent_bytes(extent) == record {
        let extent = choose|extent: BlobExtent| #[trigger]
            dead_extent(entries, live, all, count, extent) && extent_bytes(extent) == record;
        let (i, j) = choose|i: int, j: int|
            0 <= i < count && #[trigger] dead_place(entries, live, all, i, j) == Some(extent);
        if i < count - 1 {
            assert(dead_place(entries, live, all, i, j) == Some(extent));
            assert(dead_extent(entries, live, all, count - 1, extent));
            lemma_records_grow(entries, live, all, count, record);
        } else {
            let list = survey::entry_parse(entries[count - 1])->Ok_0.representations;
            assert(list[j].extent == extent);
        }
    }
}

proof fn lemma_records_grow(
    entries: Seq<(Seq<u8>, Seq<u8>)>,
    live: Set<CatalogKey>,
    all: Set<ObjectKey>,
    count: int,
    record: Seq<u8>,
)
    requires
        0 < count <= entries.len(),
        dead_among(entries, live, all, count - 1).extents.contains(record),
    ensures
        dead_among(entries, live, all, count).extents.contains(record),
{
    let before = dead_among(entries, live, all, count - 1);
    if let Ok(placement) = survey::entry_parse(entries[count - 1]) {
        let list = placement.representations;
        lemma_place_records(
            list,
            all,
            list.len() as int,
            DeadModel { packs: before.packs + 1, ..before },
            record,
        );
    }
}

proof fn lemma_dead_extent(
    entries: Seq<(Seq<u8>, Seq<u8>)>,
    live: Set<CatalogKey>,
    all: Set<ObjectKey>,
    count: int,
    extent: BlobExtent,
)
    requires
        dead_extent(entries, live, all, count - 1, extent),
    ensures
        dead_extent(entries, live, all, count, extent),
{
    let (i, j) = choose|i: int, j: int|
        0 <= i < count - 1 && #[trigger] dead_place(entries, live, all, i, j) == Some(extent);
    assert(dead_place(entries, live, all, i, j) == Some(extent));
}

} // verus!
