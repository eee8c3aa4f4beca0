//! What pinned views cost.

use crate::adapter;
use crate::adapter::{Event, ObjectKey, StorageBackend};
use crate::domain::{
    CompressionDictionary, Count, DatabaseId, DecodedBytes, DictionaryId, FrameId, HistoryHash,
    LogicalBytes, ManifestId, PackId, PayloadEncoding, StoredBytes, TransactionId, TransactionSpan,
    ViewHash,
};
use crate::draft;
use crate::error::StoreError;
use crate::fetch::Replay;
use crate::frame::{DecodingDictionary, FrameModel, PageVersion};
use crate::order;
use crate::order::{OrderedMap, OrderedSet};
use crate::pin;
use crate::pinned::{PinModel, PinnedView};
use crate::placement::PlacementsModel;
use crate::seal;
use crate::segment::Parent;
use crate::view::{FrameLocation, LocationModel, ViewMetadata, ViewModel};
use vstd::prelude::*;

verus! {

/// The frames of one size.
#[derive(Clone, Copy, Debug, PartialEq, Eq)]
pub struct FrameDistribution {
    pub decoded_bytes: DecodedBytes,
    pub frames: u64,
    pub raw_frames: u64,
    pub dictionary_frames: u64,
    pub stored_payload_bytes: StoredBytes,
}

impl View for FrameDistribution {
    type V = FrameDistribution;

    open spec fn view(&self) -> FrameDistribution {
        *self
    }
}

/// No frames of a size.
pub open spec fn no_frames(size: u64) -> FrameDistribution {
    FrameDistribution {
        decoded_bytes: Count { value: size },
        frames: 0,
        raw_frames: 0,
        dictionary_frames: 0,
        stored_payload_bytes: Count { value: 0 },
    }
}

/// A sum that stops at the largest number.
pub open spec fn capped(a: u64, b: u64) -> u64 {
    if a + b > u64::MAX {
        u64::MAX
    } else {
        (a + b) as u64
    }
}

/// A bin with one more frame.
pub open spec fn with_frame(bin: FrameDistribution, frame: FrameModel) -> FrameDistribution {
    FrameDistribution {
        decoded_bytes: bin.decoded_bytes,
        frames: (bin.frames + 1) as u64,
        raw_frames: (bin.raw_frames + if frame.encoding is Raw {
            1int
        } else {
            0int
        }) as u64,
        dictionary_frames: (bin.dictionary_frames + if frame.encoding.dictionary() is Some {
            1int
        } else {
            0int
        }) as u64,
        stored_payload_bytes: Count {
            value: capped(bin.stored_payload_bytes.value, frame.payload_bytes),
        },
    }
}

/// The bins of the first `count` frames of a list, by decoded size.
pub open spec fn bins(list: Seq<(FrameId, LocationModel)>, count: int) -> Map<u64, FrameDistribution>
    decreases count,
{
    if count <= 0 {
        Map::empty()
    } else {
        let before = bins(list, count - 1);
        let frame = list[count - 1].1.frame;
        let size = frame.shape.size() as u64;
        before.insert(
            size,
            with_frame(
                if before.dom().contains(size) {
                    before[size]
                } else {
                    no_frames(size)
                },
                frame,
            ),
        )
    }
}

/// What manifests cost, apart from payloads.
#[derive(Debug, PartialEq, Eq)]
pub struct ManifestStatistics {
    id: ManifestId,
    logical_hash: ViewHash,
    parent_hash: Option<ViewHash>,
    sealed_parent: Option<ViewHash>,
    ancestors: Vec<ManifestId>,
    head_bytes: StoredBytes,
    ancestor_bytes: StoredBytes,
    span: TransactionSpan,
}

/// What the statistics of a manifest say.
#[verifier::ext_equal]
pub struct StatisticsModel {
    pub id: ManifestId,
    pub logical_hash: ViewHash,
    pub parent_hash: Option<ViewHash>,
    pub sealed_parent: Option<ViewHash>,
    pub ancestors: Seq<ManifestId>,
    pub head_bytes: u64,
    pub ancestor_bytes: u64,
    pub span: TransactionSpan,
}

impl View for ManifestStatistics {
    type V = StatisticsModel;

    closed spec fn view(&self) -> StatisticsModel {
        StatisticsModel {
            id: self.id,
            logical_hash: self.logical_hash,
            parent_hash: self.parent_hash,
            sealed_parent: self.sealed_parent,
            ancestors: self.ancestors@,
            head_bytes: self.head_bytes.value,
            ancestor_bytes: self.ancestor_bytes.value,
            span: self.span,
        }
    }
}

impl ManifestStatistics {
    pub fn logical_hash(&self) -> (hash: ViewHash)
        ensures
            hash == self@.logical_hash,
    {
        self.logical_hash
    }

    pub fn transaction_span(&self) -> (span: TransactionSpan)
        ensures
            span == self@.span,
    {
        self.span
    }

    pub fn id(&self) -> (id: ManifestId)
        ensures
            id == self@.id,
    {
        self.id
    }

    pub fn parent(&self) -> (parent: Option<ViewHash>)
        ensures
            parent == self@.parent_hash,
    {
        self.parent_hash
    }

    /// The original sealed parent, kept through compaction and relocation.
    pub fn sealed_parent(&self) -> (parent: Option<ViewHash>)
        ensures
            parent == self@.sealed_parent,
    {
        self.sealed_parent
    }

    /// The physical parent that this resolution chose.
    pub fn resolved_parent(&self) -> (parent: Option<ManifestId>)
        ensures
            parent == if self@.ancestors.len() > 0 {
                Some(self@.ancestors[0])
            } else {
                None
            },
    {
        if self.ancestors.len() > 0 {
            Some(self.ancestors[0])
        } else {
            None
        }
    }

    /// The number of manifests below.
    pub fn run_depth(&self) -> (depth: usize)
        ensures
            depth == self@.ancestors.len(),
    {
        self.ancestors.len()
    }

    pub fn head_bytes(&self) -> (bytes: StoredBytes)
        ensures
            bytes.value == self@.head_bytes,
    {
        self.head_bytes
    }

    pub fn ancestor_bytes(&self) -> (bytes: StoredBytes)
        ensures
            bytes.value == self@.ancestor_bytes,
    {
        self.ancestor_bytes
    }
}

/// The bytes of the first `count` manifests of a list, whose lengths must be
/// known.
pub open spec fn manifest_bytes(
    lengths: Map<ObjectKey, u64>,
    list: Seq<ManifestId>,
    count: int,
) -> Result<int, StoreError>
    decreases count,
{
    if count <= 0 {
        Ok(0)
    } else {
        match manifest_bytes(lengths, list, count - 1) {
            Err(error) => Err(error),
            Ok(sum) => {
                let key = ObjectKey::Manifest(list[count - 1]);
                if !lengths.dom().contains(key) {
                    Err(StoreError::Corrupt(0))
                } else if sum + lengths[key] > u64::MAX {
                    Err(StoreError::Range)
                } else {
                    Ok(sum + lengths[key])
                }
            },
        }
    }
}

/// The statistics of a pinned view's manifest.
pub open spec fn statistics_of(pin: PinModel) -> Result<StatisticsModel, StoreError> {
    match manifest_bytes(
        pin.lengths,
        pin.metadata.ancestors,
        pin.metadata.ancestors.len() as int,
    ) {
        Err(error) => Err(error),
        Ok(sum) => if !pin.lengths.dom().contains(ObjectKey::Manifest(pin.id)) {
            Err(StoreError::Corrupt(0))
        } else {
            Ok(
                StatisticsModel {
                    id: pin.id,
                    logical_hash: pin.metadata.view.hash(),
                    parent_hash: match pin.metadata.parent {
                        Parent::Checkpoint => None,
                        Parent::Previous(parent) => Some(parent.hash),
                    },
                    sealed_parent: pin.metadata.view.parent_seal,
                    ancestors: pin.metadata.ancestors,
                    head_bytes: pin.lengths[ObjectKey::Manifest(pin.id)],
                    ancestor_bytes: sum as u64,
                    span: pin.metadata.span,
                },
            )
        },
    }
}

/// The sum of the first `count` values of a list.
pub open spec fn value_sum(list: Seq<(ObjectKey, u64)>, count: int) -> int
    decreases count,
{
    if count <= 0 {
        0
    } else {
        value_sum(list, count - 1) + list[count - 1].1
    }
}

proof fn lemma_sum_grows(list: Seq<(ObjectKey, u64)>, low: int, high: int)
    requires
        0 <= low <= high,
    ensures
        value_sum(list, low) <= value_sum(list, high),
    decreases high,
{
    if low < high {
        lemma_sum_grows(list, low, high - 1);
    }
}

/// The physical objects of a pinned view, and their lengths.
pub open spec fn physical_lengths(
    pin: PinModel,
    chosen: Map<PackId, PlacementsModel>,
) -> Map<ObjectKey, u64> {
    pin::blob_lengths(order::listing::<PackId, PlacementsModel>(chosen)).union_prefer_right(pin.lengths)
}

/// The bytes of dictionaries, in the order of a list.
pub open spec fn dictionary_sum(list: Seq<(DictionaryId, Seq<u8>)>, count: int) -> int
    decreases count,
{
    if count <= 0 {
        0
    } else {
        dictionary_sum(list, count - 1) + list[count - 1].1.len()
    }
}

/// What verifying some packs, from place `i` on, came to: each was read and is
/// itself.
pub open spec fn verify_replay(
    history: Seq<Event>,
    at: int,
    chosen: Map<PackId, PlacementsModel>,
    packs: Seq<PackId>,
    i: int,
) -> Replay<()>
    decreases packs.len() - i,
{
    if i >= packs.len() {
        Replay::Done(Ok(()), at)
    } else {
        match pin::pack_replay(history, at, chosen, packs[i]) {
            Replay::Astray => Replay::Astray,
            Replay::Done(Err(error), next) => Replay::Done(Err(error), next),
            Replay::Done(Ok(_), next) => verify_replay(history, next, chosen, packs, i + 1),
        }
    }
}

impl PinnedView {
    pub fn is_checkpoint(&self) -> (checkpoint: bool)
        ensures
            checkpoint == (self@.metadata.parent is Checkpoint),
    {
        match self.metadata().parent() {
            Parent::Checkpoint => true,
            Parent::Previous(_) => false,
        }
    }

    pub fn logical_size(&self) -> (size: LogicalBytes)
        ensures
            size == self@.metadata.view.size,
            size.wf(),
    {
        self.metadata().resolved().size
    }

    /// The database, transaction and history that the view ends at.
    pub fn endpoint(&self) -> (endpoint: (DatabaseId, TransactionId, HistoryHash))
        ensures
            endpoint.0 == self@.metadata.view.database,
            endpoint.1 == self@.metadata.view.txid,
            endpoint.2 == self@.metadata.view.history,
    {
        let view: &ViewMetadata = self.metadata().resolved();
        (view.database, view.txid, view.history)
    }

    /// The version of every stored page, in page order.
    pub fn versions(&self) -> (versions: Vec<PageVersion>)
        ensures
            versions@ == self@.metadata.view.versions(),
    {
        self.metadata().resolved().page_versions()
    }

    pub fn pack_count(&self) -> (count: usize)
        ensures
            count == order::roll::<PackId>(self@.metadata.view.packs()).len(),
    {
        let packs: OrderedSet<PackId> = self.metadata().resolved().packs();
        packs.len()
    }

    pub fn preferred_dictionary_count(&self) -> (count: usize)
        ensures
            count == self@.metadata.view.preferred.len(),
    {
        self.metadata().resolved().preferred.len()
    }

    /// The bytes of the view's dictionaries.
    pub fn dictionary_bytes(&self) -> (bytes: usize)
        requires
            dictionary_sum(
                order::listing::<DictionaryId, Seq<u8>>(self@.dictionaries),
                order::listing::<DictionaryId, Seq<u8>>(self@.dictionaries).len() as int,
            ) <= usize::MAX,
        ensures
            bytes == dictionary_sum(
                order::listing::<DictionaryId, Seq<u8>>(self@.dictionaries),
                order::listing::<DictionaryId, Seq<u8>>(self@.dictionaries).len() as int,
            ),
    {
        let dictionaries: &OrderedMap<DictionaryId, DecodingDictionary> = self.dictionaries();
        let count: usize = dictionaries.len();
        let ghost list = dictionaries.pairs();
        let mut sum: usize = 0;
        let mut i: usize = 0;
        while i < count
            invariant
                i <= count,
                count == list.len(),
                list == dictionaries.pairs(),
                sum == dictionary_sum(list, i as int),
                dictionary_sum(list, list.len() as int) <= usize::MAX,
            decreases count - i,
        {
            proof {
                lemma_dictionaries_grow(list, i as int + 1, list.len() as int);
            }
            sum = sum + dictionaries.value_at(i).bytes().len();
            i += 1;
        }
        sum
    }

    /// The statistics of the view's manifest.
    pub fn manifest_statistics(&self) -> (statistics: Result<ManifestStatistics, StoreError>)
        ensures
            match statistics {
                Ok(s) => statistics_of(self@) == Ok::<StatisticsModel, StoreError>(s@),
                Err(e) => statistics_of(self@) == Err::<StatisticsModel, StoreError>(e),
            },
    {
        let ancestors: &Vec<ManifestId> = self.metadata().ancestors();
        let ghost list = ancestors@;
        let ghost goal = manifest_bytes(self@.lengths, list, list.len() as int);
        let mut sum: u64 = 0;
        let mut copy: Vec<ManifestId> = Vec::new();
        let mut i: usize = 0;
        while i < ancestors.len()
            invariant
                i <= ancestors@.len(),
                list == ancestors@,
                list == self@.metadata.ancestors,
                manifest_bytes(self@.lengths, list, i as int) == Ok::<int, StoreError>(sum as int),
                copy@ =~= list.take(i as int),
            decreases ancestors.len() - i,
        {
            let length: u64 = match self.lengths().get(&ObjectKey::Manifest(ancestors[i])) {
                Some(length) => *length,
                None => {
                    proof {
                        lemma_manifests_fail(self@.lengths, list, i as int + 1, list.len() as int);
                    }
                    return Err(StoreError::Corrupt(0));
                },
            };
            sum = match sum.checked_add(length) {
                Some(sum) => sum,
                None => {
                    proof {
                        lemma_manifests_fail(self@.lengths, list, i as int + 1, list.len() as int);
                    }
                    return Err(StoreError::Range);
                },
            };
            copy.push(ancestors[i]);
            i += 1;
        }
        let head: u64 = match self.lengths().get(&ObjectKey::Manifest(self.id())) {
            Some(length) => *length,
            None => {
                return Err(StoreError::Corrupt(0));
            },
        };
        let hash: ViewHash = self.metadata().logical_hash();
        proof {
            draft::lemma_named(
                hash,
                self@.metadata.view.logical_input(
                    crate::digest::content_hash(self@.metadata.view.content_input()),
                ),
            );
            assert(copy@ =~= list);
        }
        let view: &ViewMetadata = self.metadata().resolved();
        Ok(
            ManifestStatistics {
                id: self.id(),
                logical_hash: hash,
                parent_hash: match self.metadata().parent() {
                    Parent::Checkpoint => None,
                    Parent::Previous(parent) => Some(parent.hash),
                },
                sealed_parent: view.parent_seal,
                ancestors: copy,
                head_bytes: Count { value: head },
                ancestor_bytes: Count { value: sum },
                span: self.metadata().span(),
            },
        )
    }

    /// The frames of the view by decoded size, in ascending order.
    pub fn frame_distribution(&self) -> (distribution: Vec<FrameDistribution>)
        ensures
            ({
                let frames = self@.metadata.view.frame_list();
                let list = order::listing::<u64, FrameDistribution>(bins(frames, frames.len() as int));
                &&& distribution@.len() == list.len()
                &&& forall|i: int|
                    0 <= i < list.len() ==> #[trigger] distribution@[i] == list[i].1
            }),
    {
        let view: &ViewMetadata = self.metadata().resolved();
        let count: usize = view.frames.len();
        let ghost frames = view.frames.pairs();
        let mut found: OrderedMap<u64, FrameDistribution> = OrderedMap::new();
        let mut i: usize = 0;
        while i < count
            invariant
                i <= count,
                count == frames.len(),
                frames == view.frames.pairs(),
                found@ == bins(frames, i as int),
                forall|size: u64| #[trigger]
                    found@.dom().contains(size) ==> found@[size].frames <= i
                        && found@[size].raw_frames <= i && found@[size].dictionary_frames <= i,
            decreases count - i,
        {
            let location: &FrameLocation = view.frames.value_at(i);
            let decoded: DecodedBytes = location.metadata().shape().decoded();
            let encoding: PayloadEncoding = location.metadata().encoding();
            let payload: u64 = location.metadata().payload_bytes().value;
            let bin: FrameDistribution = match found.get(&decoded.value) {
                Some(bin) => *bin,
                None => FrameDistribution {
                    decoded_bytes: decoded,
                    frames: 0,
                    raw_frames: 0,
                    dictionary_frames: 0,
                    stored_payload_bytes: Count { value: 0 },
                },
            };
            let raw: u64 = match encoding {
                PayloadEncoding::Raw => 1,
                _ => 0,
            };
            let shared: u64 = match encoding {
                PayloadEncoding::Zstandard(CompressionDictionary::Shared(_)) => 1,
                _ => 0,
            };
            let stored: u64 = match bin.stored_payload_bytes.value.checked_add(payload) {
                Some(stored) => stored,
                None => u64::MAX,
            };
            let more: FrameDistribution = FrameDistribution {
                decoded_bytes: bin.decoded_bytes,
                frames: bin.frames + 1,
                raw_frames: bin.raw_frames + raw,
                dictionary_frames: bin.dictionary_frames + shared,
                stored_payload_bytes: Count { value: stored },
            };
            found.insert(decoded.value, more);
            i += 1;
        }
        let mut distribution: Vec<FrameDistribution> = Vec::new();
        let bins_found: usize = found.len();
        let ghost list = found.pairs();
        let mut k: usize = 0;
        while k < bins_found
            invariant
                k <= bins_found,
                bins_found == list.len(),
                list == found.pairs(),
                distribution@.len() == k,
                forall|j: int| 0 <= j < k ==> #[trigger] distribution@[j] == list[j].1,
            decreases bins_found - k,
        {
            distribution.push(*found.value_at(k));
            k += 1;
        }
        distribution
    }

    /// The bytes of every object that the view depends on, logical and physical.
    pub fn object_bytes(&self) -> (bytes: Result<(u64, u64), StoreError>)
        ensures
            ({
                let list = order::listing::<ObjectKey, u64>(physical_lengths(self@, self.chosen()));
                let sum = value_sum(list, list.len() as int);
                match bytes {
                    Ok(b) => b.0 == sum && b.1 == sum,
                    Err(e) => sum > u64::MAX && e == StoreError::Range,
                }
            }),
    {
        let mut physical: OrderedMap<ObjectKey, u64> = self.placement().object_lengths();
        let lengths: &OrderedMap<ObjectKey, u64> = self.lengths();
        let count: usize = lengths.len();
        let ghost own = lengths.pairs();
        let ghost before = physical@;
        proof {
            assert(own.take(0) =~= Seq::empty());
            assert(before.union_prefer_right(
                crate::order::mapped::<ObjectKey, u64>(own.take(0)),
            ) =~= before);
        }
        let mut i: usize = 0;
        while i < count
            invariant
                i <= count,
                count == own.len(),
                own == lengths.pairs(),
                crate::order::ascending::<ObjectKey, u64>(own),
                physical@ == before.union_prefer_right(
                    crate::order::mapped::<ObjectKey, u64>(own.take(i as int)),
                ),
            decreases count - i,
        {
            proof {
                crate::order::lemma_mapped_step::<ObjectKey, u64>(own, i as int);
            }
            physical.insert(*lengths.key_at(i), *lengths.value_at(i));
            proof {
                assert(physical@ =~= before.union_prefer_right(
                    crate::order::mapped::<ObjectKey, u64>(own.take(i as int + 1)),
                ));
            }
            i += 1;
        }
        assert(own.take(i as int) =~= own);
        let total: usize = physical.len();
        let ghost list = physical.pairs();
        let mut sum: u64 = 0;
        let mut k: usize = 0;
        while k < total
            invariant
                k <= total,
                total == list.len(),
                list == physical.pairs(),
                list == order::listing::<ObjectKey, u64>(physical_lengths(self@, self.chosen())),
                sum == value_sum(list, k as int),
            decreases total - k,
        {
            proof {
                lemma_sum_grows(list, k as int + 1, list.len() as int);
            }
            sum = match sum.checked_add(*physical.value_at(k)) {
                Some(sum) => sum,
                None => {
                    return Err(StoreError::Range);
                },
            };
            k += 1;
        }
        Ok((sum, sum))
    }

    /// Reads every pack of the view and verifies it against its name.
    pub fn verify<B: StorageBackend>(&self, backend: &mut B) -> (done: Result<(), StoreError>)
        ensures
            final(backend).namespace() == old(backend).namespace(),
            adapter::extends(old(backend).history(), final(backend).history()),
            adapter::quiet(old(backend).history(), final(backend).history()),
            if self.at_home() != old(backend).namespace() {
                done == Err::<(), StoreError>(StoreError::IdentityMismatch) && final(
                    backend).history() == old(backend).history()
            } else {
                verify_replay(
                    final(backend).history(),
                    old(backend).history().len() as int,
                    self.chosen(),
                    order::roll::<PackId>(self@.metadata.view.packs()),
                    0,
                ) == Replay::Done(done, final(backend).history().len() as int)
            },
    {
        if !self.same_catalog(&backend.identity()) {
            return Err(StoreError::IdentityMismatch);
        }
        let packs: OrderedSet<PackId> = self.metadata().resolved().packs();
        let ghost start = backend.history().len() as int;
        let ghost list = packs.walk();
        let ghost chosen = self.chosen();
        let count: usize = packs.len();
        let mut i: usize = 0;
        while i < count
            invariant
                i <= count,
                list == packs.walk(),
                count == list.len(),
                list == order::roll::<PackId>(self@.metadata.view.packs()),
                chosen == self.chosen(),
                self.at_home() == old(backend).namespace(),
                start == old(backend).history().len(),
                backend.namespace() == old(backend).namespace(),
                adapter::extends(old(backend).history(), backend.history()),
                adapter::quiet(old(backend).history(), backend.history()),
                forall|later: Seq<Event>|
                    #![trigger verify_replay(later, start, chosen, list, 0)]
                    adapter::extends(backend.history(), later) ==> verify_replay(
                        later,
                        start,
                        chosen,
                        list,
                        0,
                    ) == verify_replay(
                        later,
                        backend.history().len() as int,
                        chosen,
                        list,
                        i as int,
                    ),
            decreases count - i,
        {
            let pack: PackId = *packs.at(i);
            let ghost known = backend.history();
            let bytes: Result<Vec<u8>, StoreError> = self.placement().fetch_pack(backend, pack);
            proof {
                let h = backend.history();
                assert(verify_replay(h, start, chosen, list, 0) == verify_replay(
                    h,
                    known.len() as int,
                    chosen,
                    list,
                    i as int,
                ));
            }
            let bytes: Vec<u8> = bytes?;
            proof {
                assert forall|later: Seq<Event>|
                    #![trigger verify_replay(later, start, chosen, list, 0)]
                    adapter::extends(backend.history(), later) implies verify_replay(
                    later,
                    start,
                    chosen,
                    list,
                    0,
                ) == verify_replay(
                    later,
                    backend.history().len() as int,
                    chosen,
                    list,
                    i as int + 1,
                ) by {
                    assert(adapter::extends(known, later));
                    pin::lemma_pack_settled(
                        backend.history(),
                        later,
                        known.len() as int,
                        chosen,
                        pack,
                    );
                    assert(verify_replay(later, start, chosen, list, 0) == verify_replay(
                        later,
                        known.len() as int,
                        chosen,
                        list,
                        i as int,
                    ));
                }
            }
            i += 1;
        }
        proof {
            let h = backend.history();
            assert(verify_replay(h, start, chosen, list, 0) == verify_replay(
                h,
                h.len() as int,
                chosen,
                list,
                i as int,
            ));
        }
        Ok(())
    }
}

proof fn lemma_dictionaries_grow(list: Seq<(DictionaryId, Seq<u8>)>, low: int, high: int)
    requires
        0 <= low <= high,
    ensures
        dictionary_sum(list, low) <= dictionary_sum(list, high),
    decreases high,
{
    if low < high {
        lemma_dictionaries_grow(list, low, high - 1);
    }
}

proof fn lemma_manifests_fail(
    lengths: Map<ObjectKey, u64>,
    list: Seq<ManifestId>,
    low: int,
    high: int,
)
    requires
        0 <= low <= high,
        manifest_bytes(lengths, list, low) is Err,
    ensures
        manifest_bytes(lengths, list, high) == manifest_bytes(lengths, list, low),
    decreases high,
{
    if low < high {
        lemma_manifests_fail(lengths, list, low, high - 1);
    }
}

/// The statistics of a manifest name the view that it was sealed onto, by the hash
/// that the statistics of that view's manifest give, whatever manifest holds it: one
/// that builds on another or one in full, and so before and after a compaction. A
/// first seal names none.
pub proof fn law_sealed_parent_is_kept(
    before: Option<PinModel>,
    view: ViewModel,
    pin: PinModel,
    held: StatisticsModel,
)
    requires
        before matches Some(parent) ==> view.txid.value > parent.metadata.view.txid.value,
        pin.metadata.view == seal::sealed_onto(view, seal::source_view(before)),
        statistics_of(pin) == Ok::<StatisticsModel, StoreError>(held),
    ensures
        match before {
            None => held.sealed_parent is None,
            Some(parent) => statistics_of(parent) matches Ok(earlier) ==> held.sealed_parent
                == Some(earlier.logical_hash),
        },
{
}

/// Two manifests of one view differ in their place alone: whatever they build on,
/// they give the same hash and the same sealed parent. Only one that builds on
/// another has a parent, and only then are there bytes below it.
pub proof fn law_manifests_of_one_view_agree(
    a: PinModel,
    b: PinModel,
    one: StatisticsModel,
    other: StatisticsModel,
)
    requires
        a.metadata.view == b.metadata.view,
        statistics_of(a) == Ok::<StatisticsModel, StoreError>(one),
        statistics_of(b) == Ok::<StatisticsModel, StoreError>(other),
    ensures
        one.logical_hash == other.logical_hash,
        one.sealed_parent == other.sealed_parent,
        one.id == a.id && other.id == b.id,
        one.parent_hash is None <==> a.metadata.parent is Checkpoint,
        a.metadata.parent matches Parent::Previous(below) ==> one.parent_hash == Some(below.hash),
        a.metadata.ancestors.len() == 0 ==> one.ancestor_bytes == 0,
        one.head_bytes == a.lengths[ObjectKey::Manifest(a.id)],
        one.ancestors == a.metadata.ancestors,
        one.span == a.metadata.span,
{
}

/// How many of the first `count` frames are picked.
pub open spec fn frames_where(
    list: Seq<(FrameId, LocationModel)>,
    count: int,
    pick: spec_fn(FrameModel) -> bool,
) -> int
    decreases count,
{
    if count <= 0 {
        0
    } else {
        frames_where(list, count - 1, pick) + if pick(list[count - 1].1.frame) {
            1int
        } else {
            0
        }
    }
}

/// The payload bytes of those of the first `count` frames that decode to this size.
pub open spec fn stored_where(list: Seq<(FrameId, LocationModel)>, count: int, size: u64) -> int
    decreases count,
{
    if count <= 0 {
        0
    } else {
        stored_where(list, count - 1, size) + if list[count - 1].1.frame.shape.size() == size {
            list[count - 1].1.frame.payload_bytes as int
        } else {
            0
        }
    }
}

/// Frames whose pages have so many bytes together.
pub open spec fn of_size(size: u64) -> spec_fn(FrameModel) -> bool {
    |frame: FrameModel| frame.pages.len() * frame.shape.page_size.value == size
}

/// Frames of a size that are stored as they are.
pub open spec fn raw_of_size(size: u64) -> spec_fn(FrameModel) -> bool {
    |frame: FrameModel|
        frame.pages.len() * frame.shape.page_size.value == size && frame.encoding is Raw
}

/// Frames of a size that are compressed with a dictionary.
pub open spec fn shared_of_size(size: u64) -> spec_fn(FrameModel) -> bool {
    |frame: FrameModel|
        frame.pages.len() * frame.shape.page_size.value == size && (
        frame.encoding matches PayloadEncoding::Zstandard(CompressionDictionary::Shared(_)))
}

/// The distribution of the frames of a view says, for each size that a frame decodes to,
/// how many frames do, how many of these are stored as they are and how many are
/// compressed with a dictionary, and how many bytes their payloads have.
pub proof fn law_distribution_counts_frames(
    list: Seq<(FrameId, LocationModel)>,
    count: int,
    size: u64,
)
    requires
        0 <= count <= list.len(),
        count <= u64::MAX,
        forall|i: int| 0 <= i < list.len() ==> (#[trigger] list[i]).1.frame.sound(),
        stored_where(list, count, size) <= u64::MAX,
    ensures
        0 <= stored_where(list, count, size),
        ({
            let found = bins(list, count);
            let frames = frames_where(list, count, of_size(size));
            &&& found.dom().contains(size) <==> frames > 0
            &&& 0 <= frames <= count
            &&& frames == 0 ==> stored_where(list, count, size) == 0
            &&& found.dom().contains(size) ==> {
                let bin = found[size];
                &&& bin.decoded_bytes.value == size
                &&& bin.frames == frames
                &&& bin.raw_frames == frames_where(list, count, raw_of_size(size))
                &&& bin.dictionary_frames == frames_where(list, count, shared_of_size(size))
                &&& bin.stored_payload_bytes.value == stored_where(list, count, size)
            }
        }),
    decreases count,
{
    let sized = of_size(size);
    let raw = raw_of_size(size);
    let shared = shared_of_size(size);
    lemma_frames_where(list, count, sized);
    if count > 0 {
        lemma_frames_where(list, count - 1, sized);
        lemma_frames_where(list, count - 1, raw);
        lemma_frames_where(list, count - 1, shared);
        lemma_frames_less(list, count - 1, raw, sized);
        lemma_frames_less(list, count - 1, shared, sized);
        let frame = list[count - 1].1.frame;
        assert(frame.shape.size() == frame.pages.len() * frame.shape.page_size.value)
            by (nonlinear_arith)
            requires
                frame.shape.size() == frame.shape.page_size.value * frame.shape.pages,
                frame.shape.pages == frame.pages.len(),
        ;
        assert(frame.shape.size() <= u64::MAX);
        assert((frame.encoding.dictionary() is Some) == (
        frame.encoding matches PayloadEncoding::Zstandard(CompressionDictionary::Shared(_))));
        assert(stored_where(list, count - 1, size) <= stored_where(list, count, size));
        law_distribution_counts_frames(list, count - 1, size);
        let before = bins(list, count - 1);
        if frame.shape.size() == size {
            assert(bins(list, count)[size] == with_frame(
                if before.dom().contains(size) {
                    before[size]
                } else {
                    no_frames(size)
                },
                frame,
            ));
        } else {
            assert(bins(list, count).dom().contains(size) == before.dom().contains(size));
        }
    }
}

proof fn lemma_frames_where(
    list: Seq<(FrameId, LocationModel)>,
    count: int,
    pick: spec_fn(FrameModel) -> bool,
)
    requires
        0 <= count,
    ensures
        0 <= frames_where(list, count, pick) <= count,
    decreases count,
{
    if count > 0 {
        lemma_frames_where(list, count - 1, pick);
    }
}

proof fn lemma_frames_less(
    list: Seq<(FrameId, LocationModel)>,
    count: int,
    few: spec_fn(FrameModel) -> bool,
    many: spec_fn(FrameModel) -> bool,
)
    requires
        forall|frame: FrameModel| #[trigger] few(frame) ==> many(frame),
    ensures
        frames_where(list, count, few) <= frames_where(list, count, many),
    decreases count,
{
    if count > 0 {
        lemma_frames_less(list, count - 1, few, many);
        let frame = list[count - 1].1.frame;
        assert(few(frame) ==> many(frame));
    }
}

/// The bytes of a view's objects cover each object that it reads once, whatever its
/// kind: no object weighs more than all of them.
pub proof fn law_every_object_is_weighed(list: Seq<(ObjectKey, u64)>, count: int, i: int)
    requires
        0 <= i < count <= list.len(),
    ensures
        list[i].1 <= value_sum(list, count),
        value_sum(list, count) == value_sum(list, i) + list[i].1 + (value_sum(list, count) - value_sum(
            list,
            i + 1,
        )),
        value_sum(list, i + 1) <= value_sum(list, count),
        value_sum(list, 0) == 0,
    decreases count,
{
    lemma_sum_grows(list, i + 1, count);
    lemma_sum_grows(list, 0, i);
}

} // verus!
