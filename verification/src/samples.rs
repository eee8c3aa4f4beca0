//! An advisory, bounded reservoir of committed pages.

use crate::bytes;
use crate::bytes::{append, copied, less_bytes};
use crate::codec;
use crate::codec::{compress_with, train};
use crate::digest;
use crate::digest::hash;
use crate::domain::{LogicalBytes, PageSize, ValueError};
use crate::error::{StoreError, valued};
use crate::order;
use crate::order::OrderedMap;
use crate::wire;
use crate::wire::{Decoder, envelope, open_envelope, u32_bytes, u64_bytes};
use vstd::prelude::*;

verus! {

/// The most bytes of samples.
pub const MAX_SAMPLE_BYTES: usize = 100663296;

/// `ZSAMPLE1`.
pub const SAMPLE_MAGIC: [u8; 8] = [90, 83, 65, 77, 80, 76, 69, 49];

/// The fresh bytes that an evaluation takes.
pub const EVALUATION_BYTES: usize = 1048576;

/// The samples that an evaluation takes.
pub const EVALUATION_PAGES: usize = 32;

/// The bytes that a reference to a dictionary takes in a frame.
pub const REFERENCE_BYTES: usize = 32;

/// The most bytes that a reservoir may hold.
#[derive(Clone, Copy, Debug, PartialEq, Eq)]
pub struct SampleBudget {
    bytes: usize,
}

impl SampleBudget {
    pub closed spec fn value(self) -> usize {
        self.bytes
    }

    #[verifier::type_invariant]
    spec fn bounded(&self) -> bool {
        self.bytes <= MAX_SAMPLE_BYTES
    }

    pub fn new(bytes: usize) -> (budget: Result<Self, ValueError>)
        ensures
            match budget {
                Ok(b) => b.value() == bytes && bytes <= MAX_SAMPLE_BYTES,
                Err(_) => bytes > MAX_SAMPLE_BYTES,
            },
    {
        if bytes > MAX_SAMPLE_BYTES {
            return Err(ValueError);
        }
        Ok(SampleBudget { bytes })
    }

    pub fn get(self) -> (bytes: usize)
        ensures
            bytes == self.value(),
            bytes <= MAX_SAMPLE_BYTES,
    {
        proof {
            use_type_invariant(&self);
        }
        self.bytes
    }
}

/// A listing of samples: each under the hash of its bytes.
pub type Listing = Seq<(Seq<u8>, Seq<u8>)>;

/// The bytes of the first `count` samples.
pub open spec fn total(list: Listing, count: int) -> int
    decreases count,
{
    if count <= 0 {
        0
    } else {
        total(list, count - 1) + list[count - 1].1.len()
    }
}

/// The longest beginning of a listing that fits a budget.
pub open spec fn trimmed(list: Listing, budget: int) -> Listing
    decreases list.len(),
{
    if list.len() == 0 || total(list, list.len() as int) <= budget {
        list
    } else {
        trimmed(list.drop_last(), budget)
    }
}

/// A reservoir.
#[verifier::ext_equal]
pub struct SamplesModel {
    pub pages: Map<Seq<u8>, Seq<u8>>,
    /// The bytes that are new since the last evaluation, up to the budget.
    pub fresh: int,
    pub budget: int,
    /// What is held differs from what was stored.
    pub dirty: bool,
}

/// A sample has the length of a page.
pub open spec fn page_sized(page: Seq<u8>) -> bool {
    page.len() <= u32::MAX && PageSize::valid(page.len() as u32)
}

impl SamplesModel {
    pub open spec fn fresh_pool(budget: int) -> SamplesModel {
        SamplesModel { pages: Map::empty(), fresh: 0, budget, dirty: false }
    }

    pub open spec fn list(self) -> Listing {
        order::listing::<Vec<u8>, Seq<u8>>(self.pages)
    }

    /// The bytes that are held.
    pub open spec fn bytes(self) -> int {
        total(self.list(), self.list().len() as int)
    }

    /// The reservoir within its budget: what has the greatest hashes leaves first.
    pub open spec fn trimmed(self) -> SamplesModel {
        let list = trimmed(self.list(), self.budget);
        SamplesModel {
            pages: order::mapped::<Vec<u8>, Seq<u8>>(list),
            dirty: self.dirty || list.len() < self.list().len(),
            ..self
        }
    }

    /// A full reservoir has no place for a sample whose hash is at or above all
    /// that are held.
    pub open spec fn full_for(self, page: Seq<u8>) -> bool {
        &&& self.bytes() + page.len() > self.budget
        &&& self.list().len() > 0
        &&& !bytes::bytes_less(digest::content_hash(page), self.list().last().0)
    }

    /// The reservoir with a sample offered to it.
    pub open spec fn with(self, page: Seq<u8>) -> SamplesModel {
        let id = digest::content_hash(page);
        if !page_sized(page) || self.pages.dom().contains(id) || self.full_for(page) {
            self
        } else {
            let fresh = self.fresh + page.len();
            SamplesModel {
                pages: self.pages.insert(id, page),
                fresh: if fresh <= self.budget { fresh } else { self.budget },
                dirty: true,
                ..self
            }.trimmed()
        }
    }

    /// There are enough new samples for an evaluation.
    pub open spec fn ready(self) -> bool {
        self.fresh >= EVALUATION_BYTES && self.list().len() >= EVALUATION_PAGES
    }

    /// The encoding of the reservoir.
    pub open spec fn record(self) -> Seq<u8> {
        bytes::le(self.fresh as nat, 8) + bytes::le(self.list().len(), 4) + pages_bytes(
            self.list(),
            0,
        )
    }

    /// Each sample is a page under its hash, and the counts are within their
    /// limits.
    pub open spec fn sound(self) -> bool {
        &&& 0 <= self.budget <= MAX_SAMPLE_BYTES
        &&& 0 <= self.fresh <= self.budget
        &&& forall|id: Seq<u8>| #[trigger]
            self.pages.dom().contains(id) ==> id == digest::content_hash(self.pages[id])
                && page_sized(self.pages[id])
    }
}

/// The samples of a listing from place `i` on, each behind its length.
pub open spec fn pages_bytes(list: Listing, i: int) -> Seq<u8>
    decreases list.len() - i,
{
    if i < 0 || i >= list.len() {
        Seq::empty()
    } else {
        bytes::le(list[i].1.len(), 4) + list[i].1 + pages_bytes(list, i + 1)
    }
}

/// The next `count` samples of an encoding, with those that were read before and
/// their bytes; or why there are none.
pub open spec fn pages_from(
    raw: Seq<u8>,
    position: int,
    count: nat,
    pages: Map<Seq<u8>, Seq<u8>>,
    held: int,
) -> Result<(Map<Seq<u8>, Seq<u8>>, int), StoreError>
    decreases count,
{
    if count == 0 {
        Ok((pages, position))
    } else {
        match wire::number_at(raw, position, 4) {
            Err(error) => Err(error),
            Ok((length, p)) => if !PageSize::valid(length as u32) {
                Err(StoreError::Value(ValueError))
            } else {
                match wire::take_at(raw, p, length as int) {
                    Err(error) => Err(error),
                    Ok((page, p)) => if held + page.len() > MAX_SAMPLE_BYTES
                        || pages.dom().contains(digest::content_hash(page)) {
                        Err(StoreError::Corrupt(0))
                    } else {
                        pages_from(
                            raw,
                            p,
                            (count - 1) as nat,
                            pages.insert(digest::content_hash(page), page),
                            held + page.len(),
                        )
                    },
                }
            },
        }
    }
}

/// The reservoir that an encoding holds, within a budget, or why it holds none.
pub open spec fn samples_parse(raw: Seq<u8>, budget: int) -> Result<SamplesModel, StoreError> {
    match wire::number_at(raw, 0, 8) {
        Err(error) => Err(error),
        Ok((fresh, p)) => if fresh > usize::MAX {
            Err(StoreError::Range)
        } else {
            match wire::number_at(raw, p, 4) {
                Err(error) => Err(error),
                Ok((count, p)) => if count > MAX_SAMPLE_BYTES / 512 {
                    Err(StoreError::Range)
                } else {
                    match pages_from(raw, p, count, Map::empty(), 0) {
                        Err(error) => Err(error),
                        Ok((pages, p)) => match wire::finish_at(raw, p) {
                            Err(error) => Err(error),
                            Ok(_) => Ok(
                                SamplesModel {
                                    pages,
                                    fresh: if fresh <= budget { fresh as int } else { budget },
                                    budget,
                                    dirty: fresh > budget,
                                }.trimmed(),
                            ),
                        },
                    }
                },
            }
        },
    }
}

/// The reservoir that a stored file holds, or why it holds none.
pub open spec fn samples_open(stored: Seq<u8>, budget: int) -> Result<SamplesModel, StoreError> {
    if stored.len() > MAX_SAMPLE_BYTES + 2097152 {
        Err(StoreError::Range)
    } else {
        match wire::envelope_content(SAMPLE_MAGIC@, stored, MAX_SAMPLE_BYTES + 1048576) {
            Err(error) => Err(error),
            Ok(raw) => samples_parse(raw, budget),
        }
    }
}

/// An advisory, bounded reservoir of committed pages. The order of the hashes is a
/// uniform priority that does not depend on the order of arrival.
#[derive(Debug)]
pub struct Samples {
    pages: OrderedMap<Vec<u8>, Vec<u8>>,
    bytes: usize,
    fresh: usize,
    budget: SampleBudget,
    dirty: bool,
}

impl View for Samples {
    type V = SamplesModel;

    closed spec fn view(&self) -> SamplesModel {
        SamplesModel {
            pages: self.pages@,
            fresh: self.fresh as int,
            budget: self.budget.value() as int,
            dirty: self.dirty,
        }
    }
}

proof fn lemma_total_step(list: Listing, count: int)
    requires
        0 < count <= list.len(),
    ensures
        total(list, count) == total(list, count - 1) + list[count - 1].1.len(),
        total(list, count - 1) == total(list.take(count - 1), count - 1),
        0 <= total(list, count - 1),
{
    lemma_total_take(list, count - 1, count - 1);
}

proof fn lemma_total_take(list: Listing, length: int, count: int)
    requires
        0 <= count <= length <= list.len(),
    ensures
        total(list.take(length), count) == total(list, count),
        0 <= total(list, count),
    decreases count,
{
    if count > 0 {
        lemma_total_take(list, length, count - 1);
        assert(list.take(length)[count - 1] == list[count - 1]);
    }
}

/// The first entries of an ascending listing, and the map without the last one.
proof fn lemma_without_last(map: Map<Seq<u8>, Seq<u8>>, list: Listing)
    requires
        order::ascending::<Vec<u8>, Seq<u8>>(list),
        order::mapped::<Vec<u8>, Seq<u8>>(list) == map,
        list.len() > 0,
    ensures
        order::mapped::<Vec<u8>, Seq<u8>>(list.drop_last()) == map.remove(list.last().0),
        order::ascending::<Vec<u8>, Seq<u8>>(list.drop_last()),
        order::listing::<Vec<u8>, Seq<u8>>(map.remove(list.last().0)) == list.drop_last(),
{
    let last = list.len() - 1;
    crate::order::lemma_mapped_step::<Vec<u8>, Seq<u8>>(list, last);
    assert(list.take(last) =~= list.drop_last());
    assert(list.take(last + 1) =~= list);
    assert(order::mapped::<Vec<u8>, Seq<u8>>(list.drop_last()) =~= map.remove(list.last().0));
    assert(order::ascending::<Vec<u8>, Seq<u8>>(list.drop_last())) by {
        let short = list.drop_last();
        assert forall|i: int, j: int| 0 <= i < j < short.len() implies <Vec<u8> as order::Key>::precedes(
            (#[trigger] short[i]).0,
            (#[trigger] short[j]).0,
        ) by {
            assert(short[i] == list[i] && short[j] == list[j]);
        }
    }
    crate::order::lemma_listing::<Vec<u8>, Seq<u8>>(list.drop_last());
}

proof fn lemma_total_remove(grown: Listing, place: int, count: int)
    requires
        0 <= place < count <= grown.len(),
    ensures
        total(grown, count) == total(grown.remove(place), count - 1) + grown[place].1.len(),
    decreases count,
{
    let list = grown.remove(place);
    if count - 1 == place {
        lemma_total_take(grown, place, place);
        lemma_total_take(list, place, place);
        assert(grown.take(place) =~= list.take(place));
    } else {
        lemma_total_remove(grown, place, count - 1);
        assert(list[count - 2] == grown[count - 1]);
    }
}

/// Two listings of maps that differ by one key have totals that differ by it.
proof fn lemma_map_total(map: Map<Seq<u8>, Seq<u8>>, list: Listing, grown: Listing, id: Seq<u8>, page: Seq<u8>)
    requires
        order::ascending::<Vec<u8>, Seq<u8>>(list),
        order::mapped::<Vec<u8>, Seq<u8>>(list) == map,
        !map.dom().contains(id),
        order::ascending::<Vec<u8>, Seq<u8>>(grown),
        order::mapped::<Vec<u8>, Seq<u8>>(grown) == map.insert(id, page),
    ensures
        total(grown, grown.len() as int) == total(list, list.len() as int) + page.len(),
        grown.len() == list.len() + 1,
{
    let whole = map.insert(id, page);
    crate::order::lemma_walk::<Vec<u8>, Seq<u8>>(grown, whole);
    assert(whole.dom().contains(id));
    let place = choose|i: int| 0 <= i < grown.len() && (#[trigger] grown[i]).0 == id;
    crate::order::lemma_mapped_at::<Vec<u8>, Seq<u8>>(grown, place);
    let short = grown.remove(place);
    assert(order::ascending::<Vec<u8>, Seq<u8>>(short)) by {
        assert forall|i: int, j: int| 0 <= i < j < short.len() implies <Vec<u8> as order::Key>::precedes(
            (#[trigger] short[i]).0,
            (#[trigger] short[j]).0,
        ) by {
            let a = if i < place { i } else { i + 1 };
            let b = if j < place { j } else { j + 1 };
            assert(short[i] == grown[a] && short[j] == grown[b]);
        }
    }
    assert(order::mapped::<Vec<u8>, Seq<u8>>(short) =~= map) by {
        crate::order::lemma_walk::<Vec<u8>, Seq<u8>>(short, order::mapped::<Vec<u8>, Seq<u8>>(short));
        let left = order::mapped::<Vec<u8>, Seq<u8>>(short);
        assert forall|k: Seq<u8>| left.dom().contains(k) == map.dom().contains(k) by {
            if left.dom().contains(k) {
                let i = choose|i: int| 0 <= i < short.len() && (#[trigger] short[i]).0 == k;
                let a = if i < place { i } else { i + 1 };
                assert(short[i] == grown[a]);
                assert(whole.dom().contains(grown[a].0));
                if k == id {
                    <Vec<u8> as order::Key>::lemma_irreflexive(id);
                    if a < place {
                        assert(<Vec<u8> as order::Key>::precedes(grown[a].0, grown[place].0));
                    } else {
                        assert(<Vec<u8> as order::Key>::precedes(grown[place].0, grown[a].0));
                    }
                }
            }
            if map.dom().contains(k) {
                assert(whole.dom().contains(k));
                let a = choose|i: int| 0 <= i < grown.len() && (#[trigger] grown[i]).0 == k;
                let i = if a < place { a } else { a - 1 };
                assert(short[i] == grown[a]);
                assert(left.dom().contains(short[i].0));
            }
        }
        assert forall|k: Seq<u8>| left.dom().contains(k) implies left[k] == map[k] by {
            let i = choose|i: int| 0 <= i < short.len() && (#[trigger] short[i]).0 == k;
            let a = if i < place { i } else { i + 1 };
            assert(short[i] == grown[a]);
            assert(left[short[i].0] == short[i].1);
            assert(whole[grown[a].0] == grown[a].1);
            assert(map.dom().contains(k));
            assert(k != id);
        }
    }
    crate::order::lemma_listing::<Vec<u8>, Seq<u8>>(short);
    crate::order::lemma_listing::<Vec<u8>, Seq<u8>>(list);
    lemma_total_remove(grown, place, grown.len() as int);
}

/// Takes out samples until the rest is within a budget: those with the greatest
/// hashes first. The answer is the bytes that are left.
fn trim(pages: &mut OrderedMap<Vec<u8>, Vec<u8>>, bytes: usize, budget: usize) -> (left: usize)
    requires
        bytes == total(old(pages).pairs(), old(pages).pairs().len() as int),
    ensures
        final(pages).pairs() == trimmed(old(pages).pairs(), budget as int),
        final(pages)@ == order::mapped::<Vec<u8>, Seq<u8>>(
            trimmed(old(pages).pairs(), budget as int),
        ),
        left == total(final(pages).pairs(), final(pages).pairs().len() as int),
        left <= budget,
        final(pages)@.submap_of(old(pages)@),
{
    let mut left: usize = bytes;
    let ghost start = pages.pairs();
    let mut count: usize = pages.len();
    while left > budget
        invariant
            count == pages.pairs().len(),
            left == total(pages.pairs(), pages.pairs().len() as int),
            trimmed(pages.pairs(), budget as int) == trimmed(start, budget as int),
            order::ascending::<Vec<u8>, Seq<u8>>(pages.pairs()),
            order::mapped::<Vec<u8>, Seq<u8>>(pages.pairs()) == pages@,
            pages@.submap_of(old(pages)@),
        decreases count,
    {
        assert(count > 0);
        let ghost list = pages.pairs();
        proof {
            lemma_total_step(list, list.len() as int);
            lemma_without_last(pages@, list);
            assert(list.take(list.len() - 1) =~= list.drop_last());
            assert(list.last() == list[list.len() - 1]);
        }
        let key: Vec<u8> = copied(pages.key_at(count - 1).as_slice());
        let length: usize = pages.value_at(count - 1).len();
        pages.remove(&key);
        left -= length;
        count -= 1;
    }
    left
}

/// The samples of a listing whose places are held out of training, or the others.
pub open spec fn picked(list: Listing, count: int, held_out: bool) -> Seq<Seq<u8>>
    decreases count,
{
    if count <= 0 {
        Seq::empty()
    } else {
        let prior = picked(list, count - 1, held_out);
        if ((count - 1) % 5 == 0) == held_out {
            prior.push(list[count - 1].1)
        } else {
            prior
        }
    }
}

/// The bytes of some samples.
pub open spec fn size(samples: Seq<Seq<u8>>, count: int) -> int
    decreases count,
{
    if count <= 0 {
        0
    } else {
        size(samples, count - 1) + samples[count - 1].len()
    }
}

proof fn lemma_size_push(samples: Seq<Seq<u8>>, sample: Seq<u8>, count: int)
    requires
        0 <= count <= samples.len(),
    ensures
        size(samples.push(sample), count) == size(samples, count),
    decreases count,
{
    if count > 0 {
        lemma_size_push(samples, sample, count - 1);
    }
}

proof fn lemma_picked_size(list: Listing, count: int, held_out: bool)
    requires
        0 <= count <= list.len(),
    ensures
        size(picked(list, count, held_out), picked(list, count, held_out).len() as int) <= total(
            list,
            count,
        ),
    decreases count,
{
    if count > 0 {
        lemma_picked_size(list, count - 1, held_out);
        let prior = picked(list, count - 1, held_out);
        lemma_size_push(prior, list[count - 1].1, prior.len() as int);
    }
}

/// Each sample is a page under its hash.
spec fn hashed(pages: Map<Seq<u8>, Seq<u8>>) -> bool {
    forall|id: Seq<u8>| #[trigger]
        pages.dom().contains(id) ==> id == digest::content_hash(pages[id]) && page_sized(pages[id])
}

proof fn lemma_still_sound(whole: Map<Seq<u8>, Seq<u8>>, part: Map<Seq<u8>, Seq<u8>>)
    requires
        hashed(whole),
        part.submap_of(whole),
    ensures
        hashed(part),
{
    assert forall|id: Seq<u8>| #[trigger] part.dom().contains(id) implies id
        == digest::content_hash(part[id]) && page_sized(part[id]) by {
        assert(whole.dom().contains(id));
    }
}

impl Samples {
    #[verifier::type_invariant]
    spec fn counted(&self) -> bool {
        &&& self@.sound()
        &&& self.bytes == total(self.pages.pairs(), self.pages.pairs().len() as int)
        &&& self.bytes <= self.budget.value()
    }

    /// An empty reservoir.
    pub fn new(budget: SampleBudget) -> (samples: Self)
        ensures
            samples@ == SamplesModel::fresh_pool(budget.value() as int),
    {
        let limit: usize = budget.get();
        let pages: OrderedMap<Vec<u8>, Vec<u8>> = OrderedMap::new();
        let count: usize = pages.len();
        assert(count == 0);
        Samples { pages, bytes: 0, fresh: 0, budget, dirty: false }
    }

    /// The bytes that are held.
    pub fn bytes(&self) -> (bytes: usize)
        ensures
            bytes == self@.bytes(),
            bytes <= self@.budget,
    {
        proof {
            use_type_invariant(self);
        }
        self.bytes
    }

    /// The bytes that are new since the last evaluation.
    pub fn fresh(&self) -> (bytes: usize)
        ensures
            bytes == self@.fresh,
    {
        self.fresh
    }

    /// What is held differs from what was stored.
    pub fn dirty(&self) -> (dirty: bool)
        ensures
            dirty == self@.dirty,
    {
        self.dirty
    }

    /// The samples that are held, each under its hash.
    pub fn pages(&self) -> (pages: &OrderedMap<Vec<u8>, Vec<u8>>)
        ensures
            pages@ == self@.pages,
    {
        &self.pages
    }

    /// The reservoir that a stored file holds; an empty one where it holds none.
    pub fn load(stored: &[u8], budget: SampleBudget) -> (samples: Self)
        ensures
            match samples_open(stored@, budget.value() as int) {
                Ok(model) => samples@ == model || samples@ == SamplesModel::fresh_pool(
                    budget.value() as int,
                ),
                Err(_) => samples@ == SamplesModel::fresh_pool(budget.value() as int),
            },
    {
        match Samples::decode(stored, budget) {
            Ok(samples) => samples,
            Err(_) => Samples::new(budget),
        }
    }

    /// The reservoir that a stored file holds.
    pub fn decode(stored: &[u8], budget: SampleBudget) -> (samples: Result<Self, StoreError>)
        ensures
            match samples {
                Ok(m) => samples_open(stored@, budget.value() as int) == Ok::<
                    SamplesModel,
                    StoreError,
                >(m@),
                Err(e) => e is Zstd || samples_open(stored@, budget.value() as int) == Err::<
                    SamplesModel,
                    StoreError,
                >(e),
            },
    {
        if stored.len() > MAX_SAMPLE_BYTES + 2097152 {
            return Err(StoreError::Range);
        }
        let raw: Vec<u8> = open_envelope(&SAMPLE_MAGIC, stored, MAX_SAMPLE_BYTES + 1048576)?;
        Samples::decode_raw(raw.as_slice(), budget)
    }

    /// The reservoir that an encoding holds, within a budget.
    pub fn decode_raw(raw: &[u8], budget: SampleBudget) -> (samples: Result<Self, StoreError>)
        ensures
            match samples {
                Ok(m) => samples_parse(raw@, budget.value() as int) == Ok::<
                    SamplesModel,
                    StoreError,
                >(m@),
                Err(e) => samples_parse(raw@, budget.value() as int) == Err::<
                    SamplesModel,
                    StoreError,
                >(e),
            },
    {
        let limit: usize = budget.get();
        let mut wire: Decoder = Decoder::new(raw);
        let fresh: u64 = wire.u64()?;
        if fresh > usize::MAX as u64 {
            return Err(StoreError::Range);
        }
        let fresh: usize = fresh as usize;
        let count: u32 = wire.u32()?;
        if count as usize > MAX_SAMPLE_BYTES / 512 {
            return Err(StoreError::Range);
        }
        let mut pages: OrderedMap<Vec<u8>, Vec<u8>> = OrderedMap::new();
        let none: usize = pages.len();
        let mut held: usize = 0;
        let mut rest: u32 = count;
        let ghost goal = pages_from(raw@, wire.position as int, count as nat, Map::empty(), 0);
        while rest > 0
            invariant
                rest <= count,
                wire.wf(),
                wire.bytes@ == raw@,
                held == total(pages.pairs(), pages.pairs().len() as int),
                held <= MAX_SAMPLE_BYTES,
                goal == pages_from(raw@, wire.position as int, rest as nat, pages@, held as int),
                samples_parse(raw@, limit as int) == match goal {
                    Err(error) => Err::<SamplesModel, StoreError>(error),
                    Ok((found, p)) => match wire::finish_at(raw@, p) {
                        Err(error) => Err(error),
                        Ok(_) => Ok(
                            SamplesModel {
                                pages: found,
                                fresh: if fresh <= limit { fresh as int } else { limit as int },
                                budget: limit as int,
                                dirty: fresh > limit,
                            }.trimmed(),
                        ),
                    },
                },
                forall|id: Seq<u8>| #[trigger]
                    pages@.dom().contains(id) ==> id == digest::content_hash(pages@[id])
                        && page_sized(pages@[id]),
            decreases rest,
        {
            let length: u32 = wire.u32()?;
            let _size: PageSize = valued(PageSize::new(length))?;
            let page: Vec<u8> = copied(wire.take(length as usize)?);
            let digest: [u8; 32] = hash(page.as_slice());
            let id: Vec<u8> = copied(digest.as_slice());
            if held + page.len() > MAX_SAMPLE_BYTES || pages.contains_key(&id) {
                return Err(StoreError::Corrupt(0));
            }
            held += page.len();
            let ghost before = pages@;
            let ghost list = pages.pairs();
            let ghost content = page@;
            let shorter: usize = pages.len();
            pages.insert(id, page);
            let longer: usize = pages.len();
            proof {
                lemma_map_total(before, list, pages.pairs(), digest::content_hash(content), content);
            }
            rest -= 1;
        }
        let ghost whole = pages.pairs();
        let ghost all = pages@;
        let position: usize = wire.position;
        wire.finish()?;
        let before: usize = pages.len();
        let left: usize = trim(&mut pages, held, limit);
        proof {
            lemma_still_sound(all, pages@);
        }
        let after: usize = pages.len();
        let capped: usize = if fresh <= limit {
            fresh
        } else {
            limit
        };
        Ok(
            Samples {
                pages,
                bytes: left,
                fresh: capped,
                budget,
                dirty: fresh > limit || after < before,
            },
        )
    }

    /// Offers a sample.
    pub fn insert(&mut self, page: Vec<u8>)
        ensures
            final(self)@ == old(self)@.with(page@),
    {
        proof {
            use_type_invariant(&*self);
        }
        let limit: usize = self.budget.get();
        if page.len() > u32::MAX as usize {
            return;
        }
        if PageSize::new(page.len() as u32).is_err() {
            return;
        }
        let length: usize = page.len();
        let digest: [u8; 32] = hash(page.as_slice());
        let id: Vec<u8> = copied(digest.as_slice());
        if self.pages.contains_key(&id) {
            return;
        }
        let count: usize = self.pages.len();
        if self.bytes + length > limit && count > 0 && !less_bytes(
            id.as_slice(),
            self.pages.key_at(count - 1).as_slice(),
        ) {
            return;
        }
        let bytes: usize = self.bytes + length;
        let sum: usize = self.fresh + length;
        let fresh: usize = if sum <= limit {
            sum
        } else {
            limit
        };
        let ghost before = self.pages@;
        let ghost list = self.pages.pairs();
        let ghost content = page@;
        let mut held: Samples = Samples::new(self.budget);
        std::mem::swap(self, &mut held);
        let mut pages: OrderedMap<Vec<u8>, Vec<u8>> = held.pages;
        pages.insert(id, page);
        let longer: usize = pages.len();
        proof {
            lemma_map_total(before, list, pages.pairs(), digest::content_hash(content), content);
        }
        let ghost grown = pages@;
        let left: usize = trim(&mut pages, bytes, limit);
        proof {
            lemma_still_sound(grown, pages@);
        }
        *self = Samples { pages, bytes: left, fresh, budget: self.budget, dirty: true };
    }

    /// The samples split into those to train on and those held out, once there are
    /// enough new ones. The samples stay in the reservoir.
    pub fn evaluation(&mut self) -> (evaluation: Option<Evaluation>)
        ensures
            match evaluation {
                Some(e) => {
                    let list = old(self)@.list();
                    &&& old(self)@.ready()
                    &&& e.training() == picked(list, list.len() as int, false)
                    &&& e.held_out() == picked(list, list.len() as int, true)
                    &&& final(self)@ == (SamplesModel { fresh: 0, dirty: true, ..old(self)@ })
                },
                None => !old(self)@.ready() && final(self)@ == old(self)@,
            },
    {
        let count: usize = self.pages.len();
        if self.fresh < EVALUATION_BYTES || count < EVALUATION_PAGES {
            return None;
        }
        proof {
            use_type_invariant(&*self);
        }
        let limit: usize = self.budget.get();
        let ghost list = self.pages.pairs();
        self.fresh = 0;
        self.dirty = true;
        let mut training: Vec<Vec<u8>> = Vec::new();
        let mut held_out: Vec<Vec<u8>> = Vec::new();
        let mut i: usize = 0;
        proof {
            assert(codec::samples_view(training@) =~= Seq::<Seq<u8>>::empty());
            assert(codec::samples_view(held_out@) =~= Seq::<Seq<u8>>::empty());
        }
        while i < count
            invariant
                i <= count,
                count == list.len(),
                list == self.pages.pairs(),
                codec::samples_view(training@) == picked(list, i as int, false),
                codec::samples_view(held_out@) == picked(list, i as int, true),
            decreases count - i,
        {
            let page: Vec<u8> = copied(self.pages.value_at(i).as_slice());
            let ghost content = page@;
            if i % 5 == 0 {
                proof {
                    let grown = held_out@.push(page);
                    assert(codec::samples_view(grown) =~= codec::samples_view(held_out@).push(
                        content,
                    ));
                }
                held_out.push(page);
            } else {
                proof {
                    let grown = training@.push(page);
                    assert(codec::samples_view(grown) =~= codec::samples_view(training@).push(
                        content,
                    ));
                }
                training.push(page);
            }
            i += 1;
        }
        proof {
            lemma_picked_size(list, count as int, true);
        }
        Some(Evaluation { training, held_out })
    }

    /// The stored form of the reservoir, where it changed.
    pub fn persist(&self) -> (stored: Result<Option<Vec<u8>>, StoreError>)
        ensures
            match stored {
                Ok(None) => !self@.dirty,
                Ok(Some(bytes)) => self@.dirty && bytes@ == wire::envelope_bytes(
                    SAMPLE_MAGIC@,
                    self@.record(),
                    codec::zstd_frame(self@.record(), 3),
                ) && codec::zstd_content(codec::zstd_frame(self@.record(), 3)) == self@.record(),
                Err(e) => self@.dirty && e is Zstd,
            },
    {
        if !self.dirty {
            return Ok(None);
        }
        let raw: Vec<u8> = self.encode();
        match envelope(&SAMPLE_MAGIC, raw.as_slice()) {
            Ok(bytes) => Ok(Some(bytes)),
            Err(error) => Err(error),
        }
    }

    /// The encoding of the reservoir.
    pub fn encode(&self) -> (raw: Vec<u8>)
        ensures
            raw@ == self@.record(),
    {
        let mut raw: Vec<u8> = Vec::new();
        let count: usize = self.pages.len();
        let ghost list = self.pages.pairs();
        proof {
            use_type_invariant(self);
            lemma_count_bound(self@, list, count as int);
        }
        u64_bytes(&mut raw, self.fresh as u64);
        u32_bytes(&mut raw, count as u32);
        let ghost prefix = raw@;
        assert(prefix =~= bytes::le(self@.fresh as nat, 8) + bytes::le(list.len(), 4));
        let mut i: usize = 0;
        assert(raw@ + pages_bytes(list, 0) =~= self@.record());
        while i < count
            invariant
                i <= count,
                count == list.len(),
                list == self.pages.pairs(),
                forall|j: int| 0 <= j < list.len() ==> page_sized((#[trigger] list[j]).1),
                raw@ + pages_bytes(list, i as int) == self@.record(),
            decreases count - i,
        {
            let page: &Vec<u8> = self.pages.value_at(i);
            assert(page_sized(list[i as int].1));
            let ghost before = raw@;
            u32_bytes(&mut raw, page.len() as u32);
            append(&mut raw, page.as_slice());
            i += 1;
            assert(raw@ + pages_bytes(list, i as int) =~= before + pages_bytes(list, i as int - 1));
        }
        assert(pages_bytes(list, count as int) =~= Seq::<u8>::empty());
        assert(raw@ + pages_bytes(list, count as int) =~= raw@);
        raw
    }
}

/// A reservoir holds no more samples than its bytes allow.
proof fn lemma_count_bound(model: SamplesModel, list: Listing, count: int)
    requires
        model.sound(),
        list == model.list(),
        order::ascending::<Vec<u8>, Seq<u8>>(list),
        order::mapped::<Vec<u8>, Seq<u8>>(list) == model.pages,
        0 <= count <= list.len(),
    ensures
        512 * count <= total(list, count),
        forall|j: int| 0 <= j < list.len() ==> page_sized((#[trigger] list[j]).1) && list[j].0
            == digest::content_hash(list[j].1),
    decreases count,
{
    crate::order::lemma_walk::<Vec<u8>, Seq<u8>>(list, model.pages);
    assert forall|j: int| 0 <= j < list.len() implies page_sized((#[trigger] list[j]).1)
        && list[j].0 == digest::content_hash(list[j].1) by {
        assert(model.pages.dom().contains(list[j].0));
    }
    if count > 0 {
        lemma_count_bound(model, list, count - 1);
        assert(page_sized(list[count - 1].1));
    }
}

/// Samples to train on, and others to compare the results by.
pub struct Evaluation {
    training: Vec<Vec<u8>>,
    held_out: Vec<Vec<u8>>,
}

impl Evaluation {
    pub closed spec fn training(&self) -> Seq<Seq<u8>> {
        codec::samples_view(self.training@)
    }

    pub closed spec fn held_out(&self) -> Seq<Seq<u8>> {
        codec::samples_view(self.held_out@)
    }

    #[verifier::type_invariant]
    spec fn bounded(&self) -> bool {
        size(self.held_out(), self.held_out().len() as int) <= MAX_SAMPLE_BYTES
    }
}

/// The bytes that the first `count` samples take when each is stored as it is or
/// compressed with a dictionary, whichever is shorter.
pub open spec fn payload(samples: Seq<Seq<u8>>, dictionary: Seq<u8>, level: int, count: int) -> int
    decreases count,
{
    if count <= 0 {
        0
    } else {
        let sample = samples[count - 1];
        let reference = if dictionary.len() == 0 {
            0int
        } else {
            REFERENCE_BYTES as int
        };
        let stored = codec::zstd_frame_with(dictionary, sample, level).len() + reference;
        payload(samples, dictionary, level, count - 1) + if stored <= sample.len() {
            stored
        } else {
            sample.len() as int
        }
    }
}

/// What a dictionary costs an image: the samples' payload scaled to the image,
/// and the bytes that it adds; in units of a byte for each held-out byte.
pub open spec fn cost(
    samples: Seq<Seq<u8>>,
    dictionary: Seq<u8>,
    level: int,
    logical: int,
    added: int,
) -> int {
    payload(samples, dictionary, level, samples.len() as int) * logical + added * size(
        samples,
        samples.len() as int,
    )
}

/// The least cost of the dictionaries that could be tried, out of the first
/// `count` that exist.
pub open spec fn least(
    samples: Seq<Seq<u8>>,
    existing: Seq<Seq<u8>>,
    tried: Seq<bool>,
    level: int,
    logical: int,
    count: int,
) -> Option<int>
    decreases count,
{
    if count <= 0 {
        None
    } else {
        let prior = least(samples, existing, tried, level, logical, count - 1);
        let own = cost(samples, existing[count - 1], level, logical, 0);
        if !tried[count - 1] {
            prior
        } else {
            match prior {
                Some(best) if best <= own => prior,
                _ => Some(own),
            }
        }
    }
}

/// The cheapest of the first `count` candidates that could be trained and tried
/// and that save one part in twenty, with its cost; the first of the cheapest.
pub open spec fn promoted(
    samples: Seq<Seq<u8>>,
    candidates: Seq<Option<Seq<u8>>>,
    tried: Seq<bool>,
    level: int,
    logical: int,
    previous: int,
    count: int,
) -> Option<(int, Seq<u8>)>
    decreases count,
{
    if count <= 0 {
        None
    } else {
        let prior = promoted(samples, candidates, tried, level, logical, previous, count - 1);
        match candidates[count - 1] {
            None => prior,
            Some(candidate) => {
                let own = cost(samples, candidate, level, logical, candidate.len() as int);
                if !tried[count - 1] || own * 100 > previous * 95 {
                    prior
                } else {
                    match prior {
                        Some((best, _)) if best <= own => prior,
                        _ => Some((own, candidate)),
                    }
                }
            },
        }
    }
}

/// Some candidates, by their bytes.
pub open spec fn candidates_view(candidates: Seq<Option<Vec<u8>>>) -> Seq<Option<Seq<u8>>> {
    Seq::new(
        candidates.len(),
        |i: int|
            match candidates[i] {
                Some(candidate) => Some(candidate@),
                None => None,
            },
    )
}

/// For each capacity there is a candidate that training on some samples can give,
/// or none where the trainer failed.
pub open spec fn trained_on(
    training: Seq<Seq<u8>>,
    capacities: Seq<usize>,
    candidates: Seq<Option<Seq<u8>>>,
) -> bool {
    candidates.len() == capacities.len() && forall|i: int|
        0 <= i < candidates.len() ==> (#[trigger] candidates[i] matches Some(candidate)
            ==> codec::zstd_trainings(training, capacities[i] as int).contains(candidate))
}

/// The dictionary to promote, where `tried` says of each that exists, of none at
/// all, and of each candidate, whether the compressor could try it.
pub open spec fn selected(
    samples: Seq<Seq<u8>>,
    existing: Seq<Seq<u8>>,
    candidates: Seq<Option<Seq<u8>>>,
    level: int,
    logical: int,
    tried: Seq<bool>,
    bare: bool,
    fit: Seq<bool>,
) -> Option<Seq<u8>> {
    let with = least(samples, existing, tried, level, logical, existing.len() as int);
    let without = cost(samples, Seq::empty(), level, logical, 0);
    let previous = match with {
        Some(best) => if bare && without < best {
            Some(without)
        } else {
            Some(best)
        },
        None => if bare {
            Some(without)
        } else {
            None
        },
    };
    match previous {
        None => None,
        Some(previous) => match promoted(
            samples,
            candidates,
            fit,
            level,
            logical,
            previous,
            candidates.len() as int,
        ) {
            None => None,
            Some((_, candidate)) => Some(candidate),
        },
    }
}

proof fn lemma_size_take(samples: Seq<Seq<u8>>, a: int, b: int)
    requires
        0 <= a <= b <= samples.len(),
    ensures
        0 <= size(samples, a) <= size(samples, b),
    decreases b,
{
    if a < b {
        lemma_size_take(samples, a, b - 1);
    } else if b > 0 {
        lemma_size_take(samples, a - 1, b - 1);
    }
}

proof fn lemma_cost_bound(whole: int, held: int, logical: int, added: int)
    requires
        0 <= whole <= held <= MAX_SAMPLE_BYTES,
        0 <= logical <= u64::MAX,
        0 <= added <= u64::MAX,
    ensures
        0 <= whole * logical <= MAX_SAMPLE_BYTES * u64::MAX,
        0 <= added * held <= MAX_SAMPLE_BYTES * u64::MAX,
        (whole * logical + added * held) * 100 <= u128::MAX,
{
    assert(0 <= whole * logical <= MAX_SAMPLE_BYTES * u64::MAX) by (nonlinear_arith)
        requires
            0 <= whole <= MAX_SAMPLE_BYTES,
            0 <= logical <= u64::MAX,
    ;
    assert(0 <= added * held <= MAX_SAMPLE_BYTES * u64::MAX) by (nonlinear_arith)
        requires
            0 <= held <= MAX_SAMPLE_BYTES,
            0 <= added <= u64::MAX,
    ;
}

impl Evaluation {
    /// The bytes of the samples to train on.
    pub fn training_bytes(&self) -> (bytes: usize)
        requires
            size(self.training(), self.training().len() as int) <= usize::MAX,
        ensures
            bytes == size(self.training(), self.training().len() as int),
    {
        total_size(&self.training)
    }

    /// What a dictionary costs, or nothing where the compressor fails.
    fn score(
        &self,
        dictionary: &[u8],
        level: i32,
        logical_bytes: LogicalBytes,
        added: usize,
    ) -> (score: Option<u128>)
        ensures
            score matches Some(s) ==> s == cost(
                self.held_out(),
                dictionary@,
                level as int,
                logical_bytes.bytes as int,
                added as int,
            ) && s * 100 <= u128::MAX,
    {
        proof {
            use_type_invariant(self);
        }
        let ghost samples = self.held_out();
        let held: usize = total_size(&self.held_out);
        let mut whole: usize = 0;
        let mut i: usize = 0;
        while i < self.held_out.len()
            invariant
                i <= self.held_out@.len(),
                samples == self.held_out(),
                whole == payload(samples, dictionary@, level as int, i as int),
                whole <= size(samples, i as int),
                size(samples, samples.len() as int) <= MAX_SAMPLE_BYTES,
            decreases self.held_out.len() - i,
        {
            let sample: &Vec<u8> = &self.held_out[i];
            assert(samples[i as int] == sample@);
            proof {
                lemma_size_take(samples, i as int + 1, samples.len() as int);
            }
            let length: usize = match compress_with(dictionary, sample.as_slice(), level) {
                Ok(frame) => frame.len(),
                Err(_) => {
                    return None;
                },
            };
            let reference: usize = if dictionary.len() == 0 {
                0
            } else {
                REFERENCE_BYTES
            };
            let stored: usize = length.saturating_add(reference);
            whole += if stored <= sample.len() {
                stored
            } else {
                sample.len()
            };
            i += 1;
        }
        proof {
            lemma_cost_bound(
                whole as int,
                held as int,
                logical_bytes.bytes as int,
                added as int,
            );
            assert(whole as u128 * (logical_bytes.bytes as u128) == whole * logical_bytes.bytes);
            assert(added as u128 * (held as u128) == added * held);
        }
        Some(whole as u128 * logical_bytes.bytes as u128 + added as u128 * held as u128)
    }

    /// The least cost of the dictionaries that exist and of none at all, out of
    /// those that the compressor can try.
    fn baseline(&self, level: i32, logical_bytes: LogicalBytes, existing: &Vec<Vec<u8>>) -> (found: (
        Option<u128>,
        Ghost<Seq<bool>>,
        Ghost<bool>,
    ))
        ensures
            ({
                let samples = self.held_out();
                let list = codec::samples_view(existing@);
                let logical = logical_bytes.bytes as int;
                let with = least(samples, list, found.1@, level as int, logical, list.len() as int);
                let without = cost(samples, Seq::empty(), level as int, logical, 0);
                &&& found.0 matches Some(s) ==> s * 100 <= u128::MAX
                &&& match found.0 {
                    None => with is None && !found.2@,
                    Some(s) => match with {
                        Some(best) => s == if found.2@ && without < best {
                            without
                        } else {
                            best
                        },
                        None => found.2@ && s == without,
                    },
                }
            }),
    {
        let ghost samples = self.held_out();
        let ghost list = codec::samples_view(existing@);
        let ghost logical = logical_bytes.bytes as int;
        let mut best: Option<u128> = None;
        let ghost mut tried: Seq<bool> = Seq::empty();
        let mut i: usize = 0;
        while i < existing.len()
            invariant
                i <= existing@.len(),
                list == codec::samples_view(existing@),
                samples == self.held_out(),
                logical == logical_bytes.bytes,
                tried.len() == i,
                best matches Some(s) ==> s * 100 <= u128::MAX,
                match best {
                    None => least(samples, list, tried, level as int, logical, i as int) is None,
                    Some(s) => least(samples, list, tried, level as int, logical, i as int) == Some(
                        s as int,
                    ),
                },
            decreases existing.len() - i,
        {
            let score: Option<u128> = self.score(existing[i].as_slice(), level, logical_bytes, 0);
            assert(list[i as int] == existing@[i as int]@);
            proof {
                let longer = tried.push(score is Some);
                lemma_least_agrees(samples, list, tried, longer, level as int, logical, i as int);
                tried = longer;
            }
            if let Some(own) = score {
                best = match best {
                    Some(prior) => if prior <= own {
                        Some(prior)
                    } else {
                        Some(own)
                    },
                    None => Some(own),
                };
            }
            i += 1;
        }
        let none: Vec<u8> = Vec::new();
        assert(none@ =~= Seq::<u8>::empty());
        let score: Option<u128> = self.score(none.as_slice(), level, logical_bytes, 0);
        let ghost bare = score is Some;
        let previous: Option<u128> = match score {
            None => best,
            Some(own) => match best {
                Some(prior) => if own < prior {
                    Some(own)
                } else {
                    Some(prior)
                },
                None => Some(own),
            },
        };
        (previous, Ghost(tried), Ghost(bare))
    }

    /// The dictionary to promote, if any: a candidate that saves at least one part
    /// in twenty over every choice that exists, its own bytes included. Failures
    /// of the trainer or the compressor only take a choice away.
    pub fn select(
        &self,
        capacities: &Vec<usize>,
        level: i32,
        logical_bytes: LogicalBytes,
        existing: &Vec<Vec<u8>>,
    ) -> (dictionary: Option<Vec<u8>>)
        requires
            forall|i: int| 0 <= i < capacities@.len() ==> #[trigger] capacities@[i] <= isize::MAX,
        ensures
            exists|
                candidates: Seq<Option<Seq<u8>>>,
                tried: Seq<bool>,
                bare: bool,
                fit: Seq<bool>,
            |
                trained_on(self.training(), capacities@, candidates) && match dictionary {
                    Some(d) => Some(d@),
                    None => None,
                } == #[trigger] selected(
                    self.held_out(),
                    codec::samples_view(existing@),
                    candidates,
                    level as int,
                    logical_bytes.bytes as int,
                    tried,
                    bare,
                    fit,
                ),
    {
        let mut candidates: Vec<Option<Vec<u8>>> = Vec::new();
        let mut i: usize = 0;
        while i < capacities.len()
            invariant
                i <= capacities@.len(),
                forall|i: int| 0 <= i < capacities@.len() ==> #[trigger] capacities@[i] <= isize::MAX,
                candidates@.len() == i,
                trained_on(
                    self.training(),
                    capacities@.subrange(0, i as int),
                    candidates_view(candidates@),
                ),
            decreases capacities.len() - i,
        {
            let candidate: Option<Vec<u8>> = match train(self.training.as_slice(), capacities[i]) {
                Ok(candidate) => Some(candidate),
                Err(_) => None,
            };
            let ghost before = candidates_view(candidates@);
            candidates.push(candidate);
            i += 1;
            assert(candidates_view(candidates@) =~= before.push(
                candidates_view(candidates@)[i - 1],
            ));
        }
        assert(capacities@.subrange(0, i as int) =~= capacities@);
        self.promote(level, logical_bytes, existing, candidates)
    }

    /// The dictionary to promote out of some candidates, whatever they are.
    pub fn promote(
        &self,
        level: i32,
        logical_bytes: LogicalBytes,
        existing: &Vec<Vec<u8>>,
        candidates: Vec<Option<Vec<u8>>>,
    ) -> (dictionary: Option<Vec<u8>>)
        ensures
            exists|tried: Seq<bool>, bare: bool, fit: Seq<bool>|
                match dictionary {
                    Some(d) => Some(d@),
                    None => None,
                } == #[trigger] selected(
                    self.held_out(),
                    codec::samples_view(existing@),
                    candidates_view(candidates@),
                    level as int,
                    logical_bytes.bytes as int,
                    tried,
                    bare,
                    fit,
                ),
    {
        let ghost list = codec::samples_view(existing@);
        let ghost offered = candidates_view(candidates@);
        let ghost samples = self.held_out();
        let ghost logical = logical_bytes.bytes as int;
        let (previous, Ghost(tried), Ghost(bare)) = self.baseline(level, logical_bytes, existing);
        let previous: u128 = match previous {
            Some(previous) => previous,
            None => {
                assert(selected(
                    samples,
                    list,
                    offered,
                    level as int,
                    logical,
                    tried,
                    bare,
                    Seq::empty(),
                ) is None);
                return None;
            },
        };
        let mut costs: Vec<Option<u128>> = Vec::new();
        let ghost mut fit: Seq<bool> = Seq::empty();
        let mut i: usize = 0;
        while i < candidates.len()
            invariant
                i <= candidates@.len(),
                offered == candidates_view(candidates@),
                samples == self.held_out(),
                logical == logical_bytes.bytes,
                fit.len() == i,
                costs@.len() == i,
                forall|j: int|
                    0 <= j < i ==> #[trigger] fit[j] == (costs@[j] is Some) && (costs@[j] matches Some(
                        c,
                    ) ==> offered[j] is Some && c * 100 <= u128::MAX && c == cost(
                        samples,
                        offered[j]->Some_0,
                        level as int,
                        logical,
                        offered[j]->Some_0.len() as int,
                    )),
            decreases candidates.len() - i,
        {
            let cost: Option<u128> = match &candidates[i] {
                None => None,
                Some(candidate) => self.score(
                    candidate.as_slice(),
                    level,
                    logical_bytes,
                    candidate.len(),
                ),
            };
            proof {
                fit = fit.push(cost is Some);
            }
            costs.push(cost);
            i += 1;
        }
        assert forall|j: int| 0 <= j < costs@.len() implies (#[trigger] costs@[j] matches Some(c)
            ==> c * 100 <= u128::MAX) by {
            assert(fit[j] == (costs@[j] is Some));
        }
        let best: Option<usize> = cheapest(previous, &costs);
        proof {
            lemma_promoted_is(
                samples,
                offered,
                fit,
                costs@,
                level as int,
                logical,
                previous as int,
                offered.len() as int,
                match best {
                    Some(place) => Some(place as int),
                    None => None,
                },
            );
        }
        let chosen: Option<Vec<u8>> = match best {
            None => None,
            Some(place) => match &candidates[place] {
                Some(candidate) => Some(copied(candidate.as_slice())),
                None => None,
            },
        };
        proof {
            if let Some(place) = best {
                assert(fit[place as int] == (costs@[place as int] is Some));
                assert(offered[place as int] is Some);
            }
        }
        assert(selected(samples, list, offered, level as int, logical, tried, bare, fit)
            == match chosen {
            None => None::<Seq<u8>>,
            Some(d) => Some(d@),
        });
        chosen
    }
}

/// The place of the least cost that is at least one part in twenty below another, if
/// there is such a cost; the first place of several.
pub fn cheapest(previous: u128, costs: &Vec<Option<u128>>) -> (place: Option<usize>)
    requires
        previous * 100 <= u128::MAX,
        forall|j: int|
            0 <= j < costs@.len() ==> (#[trigger] costs@[j] matches Some(c) ==> c * 100 <= u128::MAX),
    ensures
        match place {
            Some(p) => p < costs@.len() && (costs@[p as int] matches Some(least) && least * 20
                <= previous * 19 && forall|j: int|
                0 <= j < costs@.len() ==> (#[trigger] costs@[j] matches Some(c) ==> c * 20 <= previous * 19 ==> least < c || (least == c && p <= j))),
            None => forall|j: int|
                0 <= j < costs@.len() ==> (#[trigger] costs@[j] matches Some(c) ==> c * 20 > previous
                    * 19),
        },
{
    let mut best: Option<(u128, usize)> = None;
    let mut i: usize = 0;
    while i < costs.len()
        invariant
            i <= costs@.len(),
            previous * 100 <= u128::MAX,
            forall|j: int|
                0 <= j < costs@.len() ==> (#[trigger] costs@[j] matches Some(c) ==> c * 100
                    <= u128::MAX),
            match best {
                Some((least, p)) => p < i && costs@[p as int] == Some(least) && least * 20 <= previous
                    * 19 && forall|j: int|
                    0 <= j < i ==> (#[trigger] costs@[j] matches Some(c) ==> c * 20 <= previous * 19 ==> least < c || (least == c && p <= j)),
                None => forall|j: int|
                    0 <= j < i ==> (#[trigger] costs@[j] matches Some(c) ==> c * 20 > previous * 19),
            },
        decreases costs.len() - i,
    {
        if let Some(cost) = costs[i] {
            if cost * 100 <= previous * 95 {
                let better: bool = match &best {
                    Some((prior, _)) => cost < *prior,
                    None => true,
                };
                if better {
                    best = Some((cost, i));
                }
            }
        }
        i += 1;
    }
    match best {
        Some((_, place)) => Some(place),
        None => None,
    }
}

proof fn lemma_promoted_is(
    samples: Seq<Seq<u8>>,
    candidates: Seq<Option<Seq<u8>>>,
    fit: Seq<bool>,
    costs: Seq<Option<u128>>,
    level: int,
    logical: int,
    previous: int,
    count: int,
    place: Option<int>,
)
    requires
        0 <= count <= costs.len(),
        costs.len() == candidates.len(),
        forall|j: int|
            0 <= j < count ==> #[trigger] fit[j] == (costs[j] is Some) && (costs[j] matches Some(c)
                ==> candidates[j] is Some && c == cost(
                samples,
                candidates[j]->Some_0,
                level,
                logical,
                candidates[j]->Some_0.len() as int,
            )),
        match place {
            Some(p) => 0 <= p < count && (costs[p] matches Some(least) && least * 20 <= previous * 19
                && forall|j: int|
                0 <= j < count ==> (#[trigger] costs[j] matches Some(c) ==> c * 20 <= previous * 19 ==> least < c || (least == c && p <= j))),
            None => forall|j: int|
                0 <= j < count ==> (#[trigger] costs[j] matches Some(c) ==> c * 20 > previous * 19),
        },
    ensures
        promoted(samples, candidates, fit, level, logical, previous, count) == match place {
            Some(p) => Some((costs[p]->Some_0 as int, candidates[p]->Some_0)),
            None => None,
        },
    decreases count,
{
    if count > 0 {
        assert(fit[count - 1] == (costs[count - 1] is Some));
        match place {
            None => {
                lemma_promoted_is(
                    samples,
                    candidates,
                    fit,
                    costs,
                    level,
                    logical,
                    previous,
                    count - 1,
                    None,
                );
            },
            Some(p) => {
                assert(fit[p] == (costs[p] is Some));
                if p < count - 1 {
                    lemma_promoted_is(
                        samples,
                        candidates,
                        fit,
                        costs,
                        level,
                        logical,
                        previous,
                        count - 1,
                        place,
                    );
                } else {
                    lemma_promoted_above(
                        samples,
                        candidates,
                        fit,
                        costs,
                        level,
                        logical,
                        previous,
                        count - 1,
                        costs[p]->Some_0 as int,
                    );
                }
            },
        }
    }
}

proof fn lemma_promoted_above(
    samples: Seq<Seq<u8>>,
    candidates: Seq<Option<Seq<u8>>>,
    fit: Seq<bool>,
    costs: Seq<Option<u128>>,
    level: int,
    logical: int,
    previous: int,
    count: int,
    low: int,
)
    requires
        0 <= count <= costs.len(),
        forall|j: int|
            0 <= j < count ==> #[trigger] fit[j] == (costs[j] is Some) && (costs[j] matches Some(c)
                ==> candidates[j] is Some && c == cost(
                samples,
                candidates[j]->Some_0,
                level,
                logical,
                candidates[j]->Some_0.len() as int,
            )),
        forall|j: int|
            0 <= j < count ==> (#[trigger] costs[j] matches Some(c) ==> c * 20 <= previous * 19 ==> low
                < c),
    ensures
        promoted(samples, candidates, fit, level, logical, previous, count) matches Some(found)
            ==> found.0 > low,
    decreases count,
{
    if count > 0 {
        assert(fit[count - 1] == (costs[count - 1] is Some));
        lemma_promoted_above(
            samples,
            candidates,
            fit,
            costs,
            level,
            logical,
            previous,
            count - 1,
            low,
        );
    }
}

proof fn lemma_least_agrees(
    samples: Seq<Seq<u8>>,
    existing: Seq<Seq<u8>>,
    a: Seq<bool>,
    b: Seq<bool>,
    level: int,
    logical: int,
    count: int,
)
    requires
        forall|i: int| 0 <= i < count ==> a[i] == b[i],
    ensures
        least(samples, existing, a, level, logical, count) == least(
            samples,
            existing,
            b,
            level,
            logical,
            count,
        ),
    decreases count,
{
    if count > 0 {
        lemma_least_agrees(samples, existing, a, b, level, logical, count - 1);
    }
}

fn total_size(samples: &Vec<Vec<u8>>) -> (bytes: usize)
    requires
        size(codec::samples_view(samples@), samples@.len() as int) <= usize::MAX,
    ensures
        bytes == size(codec::samples_view(samples@), samples@.len() as int),
{
    let ghost list = codec::samples_view(samples@);
    let mut bytes: usize = 0;
    let mut i: usize = 0;
    while i < samples.len()
        invariant
            i <= samples@.len(),
            list == codec::samples_view(samples@),
            bytes == size(list, i as int),
            size(list, list.len() as int) <= usize::MAX,
        decreases samples.len() - i,
    {
        assert(list[i as int] == samples@[i as int]@);
        proof {
            lemma_size_take(list, i as int + 1, list.len() as int);
        }
        bytes += samples[i].len();
        i += 1;
    }
    bytes
}

proof fn lemma_pages_size(list: Listing, i: int)
    requires
        0 <= i <= list.len(),
    ensures
        pages_bytes(list, i).len() == total(list, list.len() as int) - total(list, i) + 4 * (
        list.len() - i),
    decreases list.len() - i,
{
    if i < list.len() {
        lemma_pages_size(list, i + 1);
        crate::bytes::lemma_le_len(list[i].1.len(), 4);
    }
}

proof fn lemma_pages_parse(prefix: Seq<u8>, list: Listing, i: int)
    requires
        order::ascending::<Vec<u8>, Seq<u8>>(list),
        forall|j: int| 0 <= j < list.len() ==> page_sized((#[trigger] list[j]).1) && list[j].0
            == digest::content_hash(list[j].1),
        0 <= i <= list.len(),
        total(list, list.len() as int) <= MAX_SAMPLE_BYTES,
        (prefix + pages_bytes(list, i)).len() <= usize::MAX,
    ensures
        pages_from(
            prefix + pages_bytes(list, i),
            prefix.len() as int,
            (list.len() - i) as nat,
            order::mapped::<Vec<u8>, Seq<u8>>(list.take(i)),
            total(list, i),
        ) == Ok::<(Map<Seq<u8>, Seq<u8>>, int), StoreError>(
            (
                order::mapped::<Vec<u8>, Seq<u8>>(list),
                (prefix + pages_bytes(list, i)).len() as int,
            ),
        ),
    decreases list.len() - i,
{
    let whole = prefix + pages_bytes(list, i);
    if i == list.len() {
        assert(list.take(i) =~= list);
        assert(whole =~= prefix);
    } else {
        let page = list[i].1;
        let length = bytes::le(page.len(), 4);
        let rest = pages_bytes(list, i + 1);
        assert(page_sized(list[i].1));
        crate::bytes::lemma_le_len(page.len(), 4);
        crate::bytes::lemma_le_bounds();
        assert(whole =~= prefix + length + (page + rest));
        crate::wire::lemma_number_piece(prefix, page.len(), 4, page + rest);
        assert(whole =~= (prefix + length) + page + rest);
        crate::wire::lemma_take_piece(prefix + length, page, rest);
        let next = prefix + length + page;
        assert(whole =~= next + rest);
        crate::order::lemma_mapped_step::<Vec<u8>, Seq<u8>>(list, i);
        lemma_total_order(list, i + 1, list.len() as int);
        lemma_pages_parse(next, list, i + 1);
    }
}

proof fn lemma_total_order(list: Listing, a: int, b: int)
    requires
        0 <= a <= b <= list.len(),
    ensures
        0 <= total(list, a) <= total(list, b),
    decreases b,
{
    if a < b {
        lemma_total_order(list, a, b - 1);
    } else if b > 0 {
        lemma_total_order(list, a - 1, b - 1);
    }
}

/// A reservoir that was stored comes back as it was, within the same budget.
pub proof fn law_samples_round_trip(model: SamplesModel)
    requires
        model.sound(),
        model.pages.dom().finite(),
        model.bytes() <= model.budget,
    ensures
        samples_parse(model.record(), model.budget) == Ok::<SamplesModel, StoreError>(
            SamplesModel { dirty: false, ..model },
        ),
{
    let list = model.list();
    crate::order::lemma_lists::<Vec<u8>, Seq<u8>>(model.pages);
    lemma_count_bound(model, list, list.len() as int);
    lemma_pages_size(list, 0);
    lemma_total_order(list, 0, list.len() as int);
    crate::bytes::lemma_le_bounds();
    crate::bytes::lemma_le_len(model.fresh as nat, 8);
    crate::bytes::lemma_le_len(list.len(), 4);
    let none = Seq::<u8>::empty();
    let fresh = bytes::le(model.fresh as nat, 8);
    let count = bytes::le(list.len(), 4);
    let body = pages_bytes(list, 0);
    let whole = model.record();
    assert(whole =~= none + fresh + (count + body));
    crate::wire::lemma_number_piece(none, model.fresh as nat, 8, count + body);
    assert(whole =~= fresh + count + body);
    crate::wire::lemma_number_piece(fresh, list.len(), 4, body);
    assert(whole =~= (fresh + count) + body);
    lemma_pages_parse(fresh + count, list, 0);
    assert(order::mapped::<Vec<u8>, Seq<u8>>(list.take(0)) =~= Map::<Seq<u8>, Seq<u8>>::empty());
    let read = SamplesModel { dirty: false, ..model };
    assert(trimmed(list, model.budget) == list);
    assert(read.trimmed() =~= read);
}

/// Offers each of some samples in turn.
pub open spec fn offered(pool: SamplesModel, pages: Seq<Seq<u8>>, count: int) -> SamplesModel
    decreases count,
{
    if count <= 0 {
        pool
    } else {
        offered(pool, pages, count - 1).with(pages[count - 1])
    }
}

/// What was seen of some samples: each under its hash, the first of those that
/// share one.
pub open spec fn seen(pages: Seq<Seq<u8>>, count: int) -> Map<Seq<u8>, Seq<u8>>
    decreases count,
{
    if count <= 0 {
        Map::empty()
    } else {
        let prior = seen(pages, count - 1);
        let id = digest::content_hash(pages[count - 1]);
        if prior.dom().contains(id) {
            prior
        } else {
            prior.insert(id, pages[count - 1])
        }
    }
}

/// As many of the least hashes as fit.
pub open spec fn lowest(map: Map<Seq<u8>, Seq<u8>>, room: int) -> Listing {
    let list = order::listing::<Vec<u8>, Seq<u8>>(map);
    if list.len() <= room {
        list
    } else {
        list.take(room)
    }
}

/// Every sample of a listing has one length.
pub open spec fn uniform(list: Listing, length: int) -> bool {
    forall|i: int| 0 <= i < list.len() ==> (#[trigger] list[i]).1.len() == length
}

proof fn lemma_uniform_total(list: Listing, length: int, count: int)
    requires
        uniform(list, length),
        0 <= count <= list.len(),
    ensures
        total(list, count) == count * length,
    decreases count,
{
    if count > 0 {
        lemma_uniform_total(list, length, count - 1);
        assert(list[count - 1].1.len() == length);
        assert(count * length == (count - 1) * length + length) by (nonlinear_arith);
    } else {
        assert(0 * length == 0) by (nonlinear_arith);
    }
}

/// What room there is for samples of one length.
proof fn lemma_room(budget: int, length: int, count: int)
    requires
        0 <= budget,
        0 < length,
        0 <= count,
    ensures
        count * length <= budget <==> count <= budget / length,
        0 <= budget / length,
{
    let room = budget / length;
    assert(room * length <= budget < (room + 1) * length) by (nonlinear_arith)
        requires
            room == budget / length,
            0 < length,
            0 <= budget,
    ;
    assert(0 <= room) by (nonlinear_arith)
        requires
            room == budget / length,
            0 < length,
            0 <= budget,
    ;
    if count <= room {
        assert(count * length <= room * length) by (nonlinear_arith)
            requires
                count <= room,
                0 < length,
        ;
    } else {
        assert((room + 1) * length <= count * length) by (nonlinear_arith)
            requires
                room + 1 <= count,
                0 < length,
        ;
    }
}

proof fn lemma_uniform_trimmed(list: Listing, length: int, budget: int)
    requires
        uniform(list, length),
        0 < length,
        0 <= budget,
    ensures
        trimmed(list, budget) == if list.len() <= budget / length {
            list
        } else {
            list.take(budget / length)
        },
    decreases list.len(),
{
    lemma_uniform_total(list, length, list.len() as int);
    lemma_room(budget, length, list.len() as int);
    if list.len() > budget / length {
        let short = list.drop_last();
        assert(uniform(short, length)) by {
            assert forall|i: int| 0 <= i < short.len() implies (#[trigger] short[i]).1.len()
                == length by {
                assert(short[i] == list[i]);
            }
        }
        lemma_uniform_trimmed(short, length, budget);
        assert(short.take(budget / length) =~= list.take(budget / length));
        if short.len() <= budget / length {
            assert(short =~= list.take(budget / length));
        }
    }
}

/// What offering one more sample does to the samples with the least hashes.
proof fn lemma_offer(pool: SamplesModel, map: Map<Seq<u8>, Seq<u8>>, page: Seq<u8>)
    requires
        map.dom().finite(),
        page_sized(page),
        0 <= pool.budget,
        uniform(order::listing::<Vec<u8>, Seq<u8>>(map), page.len() as int),
        pool.pages == order::mapped::<Vec<u8>, Seq<u8>>(
            lowest(map, pool.budget / page.len() as int),
        ),
    ensures
        ({
            let id = digest::content_hash(page);
            let next = if map.dom().contains(id) {
                map
            } else {
                map.insert(id, page)
            };
            pool.with(page).pages == order::mapped::<Vec<u8>, Seq<u8>>(
                lowest(next, pool.budget / page.len() as int),
            ) && uniform(order::listing::<Vec<u8>, Seq<u8>>(next), page.len() as int)
        }),
{
    let id = digest::content_hash(page);
    let length = page.len() as int;
    let budget = pool.budget;
    let room = budget / length;
    let list = order::listing::<Vec<u8>, Seq<u8>>(map);
    crate::order::lemma_lists::<Vec<u8>, Seq<u8>>(map);
    crate::order::lemma_walk::<Vec<u8>, Seq<u8>>(list, map);
    let held = lowest(map, room);
    lemma_room(budget, length, held.len() as int);
    lemma_room(budget, length, held.len() as int + 1);
    assert(order::ascending::<Vec<u8>, Seq<u8>>(held)) by {
        assert forall|i: int, j: int| 0 <= i < j < held.len() implies <Vec<u8> as order::Key>::precedes(
            (#[trigger] held[i]).0,
            (#[trigger] held[j]).0,
        ) by {
            assert(held[i] == list[i] && held[j] == list[j]);
        }
    }
    assert(uniform(held, length)) by {
        assert forall|i: int| 0 <= i < held.len() implies (#[trigger] held[i]).1.len() == length by {
            assert(held[i] == list[i]);
        }
    }
    crate::order::lemma_walk::<Vec<u8>, Seq<u8>>(held, pool.pages);
    lemma_uniform_total(held, length, held.len() as int);
    assert(pool.list() == held);
    assert(pool.bytes() + length == (held.len() + 1) * length) by {
        assert((held.len() + 1) * length == held.len() * length + length) by (nonlinear_arith);
    }
    let grown = pool.pages.insert(id, page);
    if pool.pages.dom().contains(id) {
        let i = choose|i: int| 0 <= i < held.len() && (#[trigger] held[i]).0 == id;
        assert(list[i] == held[i]);
        assert(map.dom().contains(list[i].0));
    } else {
        let place = crate::order::lemma_listing_insert::<Vec<u8>, Seq<u8>>(held, id, page);
        let longer = held.insert(place, (id, page));
        assert(uniform(longer, length)) by {
            assert forall|i: int| 0 <= i < longer.len() implies (#[trigger] longer[i]).1.len()
                == length by {
                if i != place {
                    let a = if i < place { i } else { i - 1 };
                    assert(longer[i] == held[a]);
                }
            }
        }
        lemma_uniform_trimmed(longer, length, budget);
        let full = pool.full_for(page);
        if held.len() < room {
            assert(!full);
        }
        if full {
            assert(held.last() == held[held.len() - 1]);
        }
        if map.dom().contains(id) {
            let i = choose|i: int| 0 <= i < list.len() && (#[trigger] list[i]).0 == id;
            if i < held.len() {
                assert(held[i] == list[i]);
            }
            assert(held.len() == room);
            if room > 0 {
                let last = held.last();
                assert(last == list[room - 1]);
                assert(<Vec<u8> as order::Key>::precedes(list[room - 1].0, list[i].0));
                lemma_not_both(last.0, id);
                assert(full);
            } else {
                assert(longer.take(0) =~= held);
            }
        } else {
            let spot = crate::order::lemma_listing_insert::<Vec<u8>, Seq<u8>>(list, id, page);
            let whole = list.insert(spot, (id, page));
            assert(order::listing::<Vec<u8>, Seq<u8>>(map.insert(id, page)) == whole);
            assert(uniform(whole, length)) by {
                assert forall|i: int| 0 <= i < whole.len() implies (#[trigger] whole[i]).1.len()
                    == length by {
                    if i != spot {
                        let a = if i < spot { i } else { i - 1 };
                        assert(whole[i] == list[a]);
                    }
                }
            }
            assert(whole[spot] == (id, page));
            assert(longer[place] == (id, page));
            if list.len() < room {
                assert(held =~= list);
                lemma_same_place(list, spot, place, (id, page));
                assert(longer == whole);
            } else if room == 0 {
                assert(held =~= Seq::empty());
                assert(longer.take(0) =~= whole.take(0));
                assert(held =~= whole.take(0));
            } else if full {
                let last = held.last();
                assert(last == list[room - 1]);
                if spot < room {
                    assert(whole[room] == list[room - 1]);
                    assert(<Vec<u8> as order::Key>::precedes(whole[spot].0, whole[room].0));
                }
                assert(whole.take(room) =~= held);
            } else {
                let last = held.last();
                assert(last == list[room - 1]);
                assert(<Vec<u8> as order::Key>::precedes(id, last.0));
                if spot >= room {
                    assert(whole[room - 1] == list[room - 1]);
                    assert(<Vec<u8> as order::Key>::precedes(whole[room - 1].0, whole[spot].0));
                    lemma_not_both(last.0, id);
                }
                let other = held.insert(spot, (id, page));
                assert(other =~= whole.take(room + 1));
                assert(order::ascending::<Vec<u8>, Seq<u8>>(other)) by {
                    assert forall|i: int, j: int|
                        0 <= i < j < other.len() implies <Vec<u8> as order::Key>::precedes(
                        (#[trigger] other[i]).0,
                        (#[trigger] other[j]).0,
                    ) by {
                        assert(other[i] == whole[i] && other[j] == whole[j]);
                    }
                }
                lemma_same_place(held, spot, place, (id, page));
                assert(longer == other);
                assert(longer.take(room) =~= whole.take(room));
            }
        }
        if !full {
            let next = SamplesModel {
                pages: grown,
                fresh: if pool.fresh + page.len() <= budget {
                    pool.fresh + page.len()
                } else {
                    budget
                },
                dirty: true,
                ..pool
            };
            assert(next.list() == longer);
            assert(pool.with(page) == next.trimmed());
        }
    }
}

/// Of two hashes, not both are below the other.
proof fn lemma_not_both(a: Seq<u8>, b: Seq<u8>)
    requires
        bytes::bytes_less(a, b),
    ensures
        !bytes::bytes_less(b, a),
{
    if bytes::bytes_less(b, a) {
        crate::bytes::lemma_bytes_less_transitive(a, b, a);
        crate::bytes::lemma_bytes_less_irreflexive(a);
    }
}

/// An entry has one place in an ascending listing.
proof fn lemma_same_place(list: Listing, a: int, b: int, entry: (Seq<u8>, Seq<u8>))
    requires
        0 <= a <= list.len(),
        0 <= b <= list.len(),
        order::ascending::<Vec<u8>, Seq<u8>>(list.insert(a, entry)),
        order::ascending::<Vec<u8>, Seq<u8>>(list.insert(b, entry)),
    ensures
        a == b,
{
    crate::order::lemma_mapped_placed::<Vec<u8>, Seq<u8>>(list, a, entry);
    crate::order::lemma_mapped_placed::<Vec<u8>, Seq<u8>>(list, b, entry);
    crate::order::lemma_listing::<Vec<u8>, Seq<u8>>(list.insert(a, entry));
    crate::order::lemma_listing::<Vec<u8>, Seq<u8>>(list.insert(b, entry));
    let x = list.insert(a, entry);
    let y = list.insert(b, entry);
    assert(x == y);
    crate::bytes::lemma_bytes_less_irreflexive(entry.0);
    if a != b {
        assert(x[a] == entry && y[b] == entry && x[b] == entry);
        if a < b {
            assert(<Vec<u8> as order::Key>::precedes(x[a].0, x[b].0));
        } else {
            assert(<Vec<u8> as order::Key>::precedes(x[b].0, x[a].0));
        }
    }
}

proof fn lemma_seen(pages: Seq<Seq<u8>>, count: int)
    requires
        0 <= count <= pages.len(),
    ensures
        seen(pages, count).dom().finite(),
        forall|i: int|
            0 <= i < count ==> seen(pages, count).dom().contains(
                digest::content_hash(#[trigger] pages[i]),
            ),
        forall|id: Seq<u8>| #[trigger]
            seen(pages, count).dom().contains(id) ==> pages.contains(seen(pages, count)[id])
                && digest::content_hash(seen(pages, count)[id]) == id,
    decreases count,
{
    if count > 0 {
        lemma_seen(pages, count - 1);
        assert(pages.contains(pages[count - 1]));
    }
}

/// From an empty reservoir, samples of one length leave those with the least
/// hashes, as many as the budget has room for.
pub proof fn law_reservoir(budget: int, pages: Seq<Seq<u8>>, length: int, count: int)
    requires
        0 <= budget,
        PageSize::valid(length as u32) && 0 <= length <= u32::MAX,
        forall|i: int| 0 <= i < pages.len() ==> (#[trigger] pages[i]).len() == length,
        0 <= count <= pages.len(),
    ensures
        offered(SamplesModel::fresh_pool(budget), pages, count).pages == order::mapped::<
            Vec<u8>,
            Seq<u8>,
        >(lowest(seen(pages, count), budget / length)),
        uniform(order::listing::<Vec<u8>, Seq<u8>>(seen(pages, count)), length),
        offered(SamplesModel::fresh_pool(budget), pages, count).budget == budget,
    decreases count,
{
    if count > 0 {
        law_reservoir(budget, pages, length, count - 1);
        lemma_seen(pages, count - 1);
        assert(pages[count - 1].len() == length);
        lemma_offer(
            offered(SamplesModel::fresh_pool(budget), pages, count - 1),
            seen(pages, count - 1),
            pages[count - 1],
        );
    } else {
        let none = Seq::<(Seq<u8>, Seq<u8>)>::empty();
        assert(order::mapped::<Vec<u8>, Seq<u8>>(none) =~= Map::<Seq<u8>, Seq<u8>>::empty());
        crate::order::lemma_listing::<Vec<u8>, Seq<u8>>(none);
        lemma_room(budget, length, 0);
    }
}

/// The order in which samples of one length arrive does not matter to what an
/// empty reservoir keeps of them, where no two of them share a hash.
pub proof fn law_order_independent(budget: int, a: Seq<Seq<u8>>, b: Seq<Seq<u8>>, length: int)
    requires
        0 <= budget,
        PageSize::valid(length as u32) && 0 <= length <= u32::MAX,
        forall|i: int| 0 <= i < a.len() ==> (#[trigger] a[i]).len() == length,
        forall|i: int| 0 <= i < b.len() ==> (#[trigger] b[i]).len() == length,
        a.to_set() == b.to_set(),
        forall|x: Seq<u8>, y: Seq<u8>|
            a.contains(x) && a.contains(y) && #[trigger] digest::content_hash(x)
                == #[trigger] digest::content_hash(y) ==> x == y,
    ensures
        offered(SamplesModel::fresh_pool(budget), a, a.len() as int).pages == offered(
            SamplesModel::fresh_pool(budget),
            b,
            b.len() as int,
        ).pages,
{
    law_reservoir(budget, a, length, a.len() as int);
    law_reservoir(budget, b, length, b.len() as int);
    lemma_seen(a, a.len() as int);
    lemma_seen(b, b.len() as int);
    let x = seen(a, a.len() as int);
    let y = seen(b, b.len() as int);
    assert forall|page: Seq<u8>| a.contains(page) == b.contains(page) by {
        assert(a.to_set().contains(page) == a.contains(page));
        assert(b.to_set().contains(page) == b.contains(page));
    }
    assert(x =~= y) by {
        assert forall|id: Seq<u8>| x.dom().contains(id) == y.dom().contains(id) by {
            if x.dom().contains(id) {
                let page = x[id];
                assert(b.contains(page));
                let i = choose|i: int| 0 <= i < b.len() && b[i] == page;
                assert(y.dom().contains(digest::content_hash(b[i])));
            }
            if y.dom().contains(id) {
                let page = y[id];
                assert(a.contains(page));
                let i = choose|i: int| 0 <= i < a.len() && a[i] == page;
                assert(x.dom().contains(digest::content_hash(a[i])));
            }
        }
        assert forall|id: Seq<u8>| x.dom().contains(id) implies x[id] == y[id] by {
            assert(y.dom().contains(id));
            assert(a.contains(x[id]) && a.contains(y[id]));
            assert(digest::content_hash(x[id]) == digest::content_hash(y[id]));
        }
    }
}

/// What is promoted is the cheapest. It is one of the candidates that could be tried.
/// On the held-out samples, its own bytes included, it costs at least one part in
/// twenty less than every dictionary that exists and could be tried, and than no
/// dictionary, if that could be tried; and no more than any other candidate that could
/// be tried and costs so much less.
pub proof fn law_promoted_is_the_cheapest(
    samples: Seq<Seq<u8>>,
    existing: Seq<Seq<u8>>,
    candidates: Seq<Option<Seq<u8>>>,
    level: int,
    logical: int,
    tried: Seq<bool>,
    bare: bool,
    fit: Seq<bool>,
    dictionary: Seq<u8>,
)
    requires
        selected(samples, existing, candidates, level, logical, tried, bare, fit) == Some(dictionary),
    ensures
        ({
            let own = cost(samples, dictionary, level, logical, dictionary.len() as int);
            let none = cost(samples, Seq::empty(), level, logical, 0);
            &&& exists|i: int|
                0 <= i < candidates.len() && fit[i] && #[trigger] candidates[i] == Some(dictionary)
            &&& forall|i: int|
                0 <= i < existing.len() && tried[i] ==> own * 20 <= cost(
                    samples,
                    #[trigger] existing[i],
                    level,
                    logical,
                    0,
                ) * 19
            &&& bare ==> own * 20 <= none * 19
            &&& bare || exists|i: int|
                0 <= i < existing.len() && #[trigger] tried[i]
            &&& forall|i: int|
                0 <= i < candidates.len() && fit[i] ==> (#[trigger] candidates[i] matches Some(other)
                    ==> {
                    let price = cost(samples, other, level, logical, other.len() as int);
                    own <= price || (bare && price * 20 > none * 19) || exists|k: int|
                        0 <= k < existing.len() && tried[k] && price * 20 > cost(
                            samples,
                            #[trigger] existing[k],
                            level,
                            logical,
                            0,
                        ) * 19
                })
        }),
{
    lemma_least_is(samples, existing, tried, level, logical, existing.len() as int);
    let with = least(samples, existing, tried, level, logical, existing.len() as int);
    let without = cost(samples, Seq::empty(), level, logical, 0);
    let previous = match with {
        Some(best) => if bare && without < best {
            without
        } else {
            best
        },
        None => without,
    };
    lemma_promoted_least(
        samples,
        candidates,
        fit,
        level,
        logical,
        previous,
        candidates.len() as int,
    );
}

/// Nothing is promoted only where no candidate that could be tried costs one part in
/// twenty less than what there is, or where nothing that there is could be tried.
pub proof fn law_nothing_is_promoted_without_gain(
    samples: Seq<Seq<u8>>,
    existing: Seq<Seq<u8>>,
    candidates: Seq<Option<Seq<u8>>>,
    level: int,
    logical: int,
    tried: Seq<bool>,
    bare: bool,
    fit: Seq<bool>,
    i: int,
)
    requires
        selected(samples, existing, candidates, level, logical, tried, bare, fit) is None,
        0 <= i < candidates.len(),
        fit[i],
        candidates[i] is Some,
    ensures
        ({
            let candidate = candidates[i]->Some_0;
            let own = cost(samples, candidate, level, logical, candidate.len() as int);
            ||| bare && own * 20 > cost(samples, Seq::empty(), level, logical, 0) * 19
            ||| exists|k: int|
                0 <= k < existing.len() && tried[k] && own * 20 > cost(
                    samples,
                    #[trigger] existing[k],
                    level,
                    logical,
                    0,
                ) * 19
            ||| !bare && forall|k: int| 0 <= k < existing.len() ==> !#[trigger] tried[k]
        }),
{
    lemma_least_is(samples, existing, tried, level, logical, existing.len() as int);
    let with = least(samples, existing, tried, level, logical, existing.len() as int);
    let without = cost(samples, Seq::empty(), level, logical, 0);
    let previous = match with {
        Some(best) => if bare && without < best {
            without
        } else {
            best
        },
        None => without,
    };
    if with is Some || bare {
        lemma_promoted_least(
            samples,
            candidates,
            fit,
            level,
            logical,
            previous,
            candidates.len() as int,
        );
    }
}

proof fn lemma_least_is(
    samples: Seq<Seq<u8>>,
    existing: Seq<Seq<u8>>,
    tried: Seq<bool>,
    level: int,
    logical: int,
    count: int,
)
    requires
        0 <= count <= existing.len(),
    ensures
        match least(samples, existing, tried, level, logical, count) {
            Some(best) => (exists|k: int|
                0 <= k < count && tried[k] && best == cost(
                    samples,
                    #[trigger] existing[k],
                    level,
                    logical,
                    0,
                )) && forall|k: int|
                0 <= k < count && tried[k] ==> best <= cost(
                    samples,
                    #[trigger] existing[k],
                    level,
                    logical,
                    0,
                ),
            None => forall|k: int| 0 <= k < count ==> !#[trigger] tried[k],
        },
    decreases count,
{
    if count > 0 {
        lemma_least_is(samples, existing, tried, level, logical, count - 1);
        let last = existing[count - 1];
        assert(cost(samples, last, level, logical, 0) == cost(
            samples,
            existing[count - 1],
            level,
            logical,
            0,
        ));
        if tried[count - 1] {
            assert forall|k: int| 0 <= k < count && tried[k] implies least(
                samples,
                existing,
                tried,
                level,
                logical,
                count,
            )->Some_0 <= cost(samples, #[trigger] existing[k], level, logical, 0) by {
                if k < count - 1 {
                    assert(tried[k]);
                }
            }
        }
    }
}

proof fn lemma_promoted_least(
    samples: Seq<Seq<u8>>,
    candidates: Seq<Option<Seq<u8>>>,
    fit: Seq<bool>,
    level: int,
    logical: int,
    previous: int,
    count: int,
)
    requires
        0 <= count <= candidates.len(),
    ensures
        match promoted(samples, candidates, fit, level, logical, previous, count) {
            Some((own, found)) => own * 20 <= previous * 19 && own == cost(
                samples,
                found,
                level,
                logical,
                found.len() as int,
            ) && (exists|i: int|
                0 <= i < count && fit[i] && #[trigger] candidates[i] == Some(found)) && forall|i: int|
                0 <= i < count && fit[i] ==> (#[trigger] candidates[i] matches Some(other) ==> {
                    let price = cost(samples, other, level, logical, other.len() as int);
                    price * 20 > previous * 19 || own <= price
                }),
            None => forall|i: int|
                0 <= i < count && fit[i] ==> (#[trigger] candidates[i] matches Some(other) ==> cost(
                    samples,
                    other,
                    level,
                    logical,
                    other.len() as int,
                ) * 20 > previous * 19),
        },
    decreases count,
{
    if count > 0 {
        lemma_promoted_least(samples, candidates, fit, level, logical, previous, count - 1);
        assert(candidates[count - 1] == candidates[count - 1]);
    }
}

/// The bytes that the first `count` samples would take if each was compressed, with a
/// reference of this length.
pub open spec fn compressed(
    samples: Seq<Seq<u8>>,
    dictionary: Seq<u8>,
    level: int,
    reference: int,
    count: int,
) -> int
    decreases count,
{
    if count <= 0 {
        0
    } else {
        compressed(samples, dictionary, level, reference, count - 1) + codec::zstd_frame_with(
            dictionary,
            samples[count - 1],
            level,
        ).len() + reference
    }
}

/// The held-out samples never take more than they have as they are, nor more than they
/// take compressed, each with a reference to the dictionary where there is one. They
/// take the latter where that is no more for any of them, and the former where it is
/// more for all of them.
pub proof fn law_each_sample_is_stored_the_shorter_way(
    samples: Seq<Seq<u8>>,
    dictionary: Seq<u8>,
    level: int,
    count: int,
)
    requires
        0 <= count <= samples.len(),
    ensures
        ({
            let reference: int = if dictionary.len() == 0 {
                0
            } else {
                32
            };
            let whole = payload(samples, dictionary, level, count);
            let shrinks = |i: int|
                codec::zstd_frame_with(dictionary, samples[i], level).len() + reference
                    <= samples[i].len();
            &&& 0 <= whole <= size(samples, count)
            &&& whole <= compressed(samples, dictionary, level, reference, count)
            &&& (forall|i: int| #![trigger samples[i]] 0 <= i < count ==> shrinks(i)) ==> whole
                == compressed(samples, dictionary, level, reference, count)
            &&& (forall|i: int| #![trigger samples[i]] 0 <= i < count ==> !shrinks(i)) ==> whole
                == size(samples, count)
        }),
    decreases count,
{
    if count > 0 {
        law_each_sample_is_stored_the_shorter_way(samples, dictionary, level, count - 1);
        let last = samples[count - 1];
    }
}

/// What a dictionary costs grows with the image as the samples' payload does, and by
/// the bytes of all samples for each byte that it adds.
pub proof fn law_cost_is_in_proportion(
    samples: Seq<Seq<u8>>,
    dictionary: Seq<u8>,
    level: int,
    logical: int,
    added: int,
)
    ensures
        cost(samples, dictionary, level, 0, 0) == 0,
        cost(samples, dictionary, level, logical + 1, added) == cost(
            samples,
            dictionary,
            level,
            logical,
            added,
        ) + payload(samples, dictionary, level, samples.len() as int),
        cost(samples, dictionary, level, logical, added + 1) == cost(
            samples,
            dictionary,
            level,
            logical,
            added,
        ) + size(samples, samples.len() as int),
{
    let whole = payload(samples, dictionary, level, samples.len() as int);
    let held = size(samples, samples.len() as int);
    assert(whole * (logical + 1) == whole * logical + whole) by (nonlinear_arith);
    assert((added + 1) * held == added * held + held) by (nonlinear_arith);
    assert(whole * 0 == 0 && 0 * held == 0) by (nonlinear_arith);
}

/// One sample in five is held out of training, starting with the first, and the others
/// are trained on: no sample is lost and none is on both sides.
pub proof fn law_one_in_five_is_held_out(list: Listing, count: int)
    requires
        0 <= count <= list.len(),
    ensures
        picked(list, count, true).len() == (count + 4) / 5,
        picked(list, count, true).len() + picked(list, count, false).len() == count,
        forall|k: int|
            0 <= k < picked(list, count, true).len() ==> #[trigger] picked(list, count, true)[k]
                == list[5 * k].1,
        forall|k: int|
            0 <= k < picked(list, count, false).len() ==> #[trigger] picked(list, count, false)[k]
                == list[k + k / 4 + 1].1,
    decreases count,
{
    if count > 0 {
        law_one_in_five_is_held_out(list, count - 1);
        let held = picked(list, count - 1, true);
        let rest = picked(list, count - 1, false);
    }
}

/// An evaluation takes at least a mebibyte of new samples, and thirty-two of them.
pub proof fn law_evaluation_waits(pool: SamplesModel)
    ensures
        pool.ready() <==> pool.fresh >= 1024 * 1024 && pool.list().len() >= 32,
{
}

} // verus!
