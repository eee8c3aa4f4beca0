//! An estimate of what a view no longer reads of its packs. It needs no payload.

use crate::adapter;
use crate::adapter::{Event, StorageBackend};
use crate::bytes;
use crate::bytes::all_zero;
use crate::catalog;
use crate::domain::{FrameId, Id, ManifestId, PackId};
use crate::error::StoreError;
use crate::fetch::Replay;
use crate::format::{ActiveHeader, FRAME_HEADER_SIZE};
use crate::frame::FrameModel;
use crate::opening;
use crate::order;
use crate::order::OrderedSet;
use crate::pack;
use crate::pack::PACK_HEADER_SIZE;
use crate::pin;
use crate::pin::read_placement;
use crate::pinned::PinnedView;
use crate::repack;
use crate::repack::count_live;
use crate::retention;
use crate::state::{State, StateModel};
use crate::trace;
use crate::view::{FrameLocation, LocationModel, ViewMetadata, ViewModel};
use vstd::prelude::*;

verus! {

/// The bytes that a frame takes up in a pack.
pub open spec fn record_bytes(frame: FrameModel) -> int {
    36 + frame.record().len() + FRAME_HEADER_SIZE + frame.payload_bytes
}

/// The share of a frame that its current pages have.
pub open spec fn live_share(view: ViewModel, frame: FrameModel) -> int {
    record_bytes(frame) * repack::live_count(view, frame, frame.pages.len() as int)
        / frame.pages.len() as int
}

/// What is left of a number, but no less than nothing.
pub open spec fn less(a: int, b: int) -> int {
    if a > b {
        a - b
    } else {
        0
    }
}

/// The bytes of a pack that none of the first `count` frames of a view needs.
pub open spec fn unread(
    view: ViewModel,
    list: Seq<(FrameId, LocationModel)>,
    pack: PackId,
    length: int,
    count: int,
) -> int
    decreases count,
{
    if count <= 0 {
        less(length, PACK_HEADER_SIZE as int)
    } else {
        let before = unread(view, list, pack, length, count - 1);
        if list[count - 1].1.pack == pack {
            less(before, live_share(view, list[count - 1].1.frame))
        } else {
            before
        }
    }
}

/// The bytes of the first `count` packs that a view no longer needs.
pub open spec fn obsolete(
    view: ViewModel,
    entries: Map<Seq<u8>, Seq<u8>>,
    packs: Seq<PackId>,
    count: int,
) -> Result<u64, StoreError>
    decreases count,
{
    if count <= 0 {
        Ok(0)
    } else {
        match obsolete(view, entries, packs, count - 1) {
            Err(error) => Err(error),
            Ok(total) => match pin::entry_placement(entries, packs[count - 1]) {
                Err(error) => Err(error),
                Ok(placement) => {
                    let list = order::listing::<FrameId, LocationModel>(view.frames);
                    Ok(
                        repack::capped(
                            total as int,
                            unread(
                                view,
                                list,
                                packs[count - 1],
                                placement.length as int,
                                list.len() as int,
                            ),
                        ),
                    )
                },
            },
        }
    }
}

/// The bytes of its packs that a view no longer needs.
pub open spec fn estimated(view: ViewModel, entries: Map<Seq<u8>, Seq<u8>>) -> Result<
    u64,
    StoreError,
> {
    let packs = order::roll::<PackId>(view.packs());
    obsolete(view, entries, packs, packs.len() as int)
}

proof fn lemma_stays(
    view: ViewModel,
    entries: Map<Seq<u8>, Seq<u8>>,
    packs: Seq<PackId>,
    count: int,
    more: int,
)
    requires
        obsolete(view, entries, packs, count) is Err,
        count <= more,
    ensures
        obsolete(view, entries, packs, more) == obsolete(view, entries, packs, count),
    decreases more - count,
{
    if count < more {
        lemma_stays(view, entries, packs, count, more - 1);
    }
}

proof fn lemma_share(view: ViewModel, frame: FrameModel, live: int)
    requires
        frame.sound(),
        0 <= live <= frame.pages.len(),
    ensures
        0 <= record_bytes(frame) * live / frame.pages.len() as int <= record_bytes(frame),
        0 <= record_bytes(frame) * live,
{
    let all = record_bytes(frame);
    let pages = frame.pages.len() as int;
    assert(0 <= all * live && 0 <= all * live / pages <= all) by (nonlinear_arith)
        requires
            0 <= all,
            0 <= live <= pages,
            0 < pages,
    ;
}

/// What is left of a number without the share that a frame has in its pack.
fn without_share(view: &ViewMetadata, location: &FrameLocation, left: u64) -> (rest: u64)
    ensures
        rest == less(left as int, live_share(view@, location@.frame)),
{
    let ghost frame = location@.frame;
    let live: u64 = count_live(view, location.metadata());
    let length: usize = location.metadata().encoded_len();
    let pages: usize = location.metadata().pages().len();
    let record: u128 = 36 + length as u128 + FRAME_HEADER_SIZE as u128
        + location.metadata().payload_bytes().value as u128;
    assert(record == record_bytes(frame));
    proof {
        lemma_share(view@, frame, live as int);
        assert(pages <= u32::MAX);
        assert(record * live <= u128::MAX) by (nonlinear_arith)
            requires
                record <= 0x1_0000_0000_0000_0000 * 4,
                live <= u32::MAX,
        ;
    }
    let share: u128 = record * (live as u128) / (pages as u128);
    if left as u128 > share {
        left - share as u64
    } else {
        0
    }
}

/// The bytes of a pack that no frame of a view needs.
pub fn unread_of(view: &ViewMetadata, pack: PackId, length: u64) -> (left: u64)
    ensures
        ({
            let list = order::listing::<FrameId, LocationModel>(view@.frames);
            left == unread(view@, list, pack, length as int, list.len() as int)
        }),
{
    let count: usize = view.frames.len();
    let ghost list = view.frames.pairs();
    proof {
        order::lemma_walk::<FrameId, LocationModel>(list, view.frames@);
    }
    let mut left: u64 = if length > PACK_HEADER_SIZE as u64 {
        length - PACK_HEADER_SIZE as u64
    } else {
        0
    };
    let mut i: usize = 0;
    while i < count
        invariant
            i <= count,
            count == list.len(),
            list == view.frames.pairs(),
            list == order::listing::<FrameId, LocationModel>(view@.frames),
            left == unread(view@, list, pack, length as int, i as int),
        decreases count - i,
    {
        let location: &FrameLocation = view.frames.value_at(i);
        if location.pack().same(&pack) {
            left = without_share(view, location, left);
        }
        i += 1;
    }
    left
}

/// Estimates the bytes of its packs that a view no longer needs.
pub fn estimated_obsolete_bytes(state: &State, pin: &PinnedView) -> (bytes: Result<u64, StoreError>)
    ensures
        bytes == estimated(pin@.metadata.view, state@.placements.entries),
{
    let view: &ViewMetadata = pin.metadata().resolved();
    let packs: OrderedSet<PackId> = view.packs();
    let ghost walk = packs.walk();
    let ghost model = view@;
    let ghost entries = state@.placements.entries;
    let count: usize = packs.len();
    let mut total: u64 = 0;
    let mut i: usize = 0;
    while i < count
        invariant
            i <= count,
            count == walk.len(),
            walk == packs.walk(),
            walk == order::roll::<PackId>(model.packs()),
            model == view@,
            model == pin@.metadata.view,
            entries == state@.placements.entries,
            obsolete(model, entries, walk, i as int) == Ok::<u64, StoreError>(total),
        decreases count - i,
    {
        let pack: PackId = *packs.at(i);
        match read_placement(state.placements.entries(), pack) {
            Err(error) => {
                proof {
                    assert(obsolete(model, entries, walk, i as int + 1) == Err::<u64, StoreError>(
                        error,
                    ));
                    lemma_stays(model, entries, walk, i as int + 1, walk.len() as int);
                }
                return Err(error);
            },
            Ok(placement) => {
                let left: u64 = unread_of(view, pack, placement.length.value);
                total = total.saturating_add(left);
            },
        }
        i += 1;
    }
    Ok(total)
}

/// What is still read in full is not estimated to be obsolete: the estimate of a
/// pack is what its frames leave of it, where all of their pages are current.
pub proof fn law_live_packs_are_not_obsolete(
    view: ViewModel,
    list: Seq<(FrameId, LocationModel)>,
    pack: PackId,
    length: int,
    count: int,
)
    requires
        0 <= count <= list.len(),
        forall|i: int|
            0 <= i < list.len() ==> (#[trigger] list[i]).1.frame.sound() && repack::live_count(
                view,
                list[i].1.frame,
                list[i].1.frame.pages.len() as int,
            ) == list[i].1.frame.pages.len(),
    ensures
        unread(view, list, pack, length, count) == less(
            length,
            PACK_HEADER_SIZE + held_bytes(list, pack, count),
        ),
        0 <= held_bytes(list, pack, count),
    decreases count,
{
    if count > 0 {
        law_live_packs_are_not_obsolete(view, list, pack, length, count - 1);
        let frame = list[count - 1].1.frame;
        let pages = frame.pages.len() as int;
        let all = record_bytes(frame);
        assert(all * pages / pages == all) by (nonlinear_arith)
            requires
                0 < pages,
        ;
    }
}

/// The bytes that the first `count` frames take up in a pack.
pub open spec fn held_bytes(list: Seq<(FrameId, LocationModel)>, pack: PackId, count: int) -> int
    decreases count,
{
    if count <= 0 {
        0
    } else {
        held_bytes(list, pack, count - 1) + if list[count - 1].1.pack == pack {
            record_bytes(list[count - 1].1.frame)
        } else {
            0
        }
    }
}

/// The view that an active file continues.
pub open spec fn examined(active: Option<&Vec<u8>>) -> Option<ManifestId> {
    match active {
        None => None,
        Some(bytes) => match catalog::header_parse(bytes@) {
            Err(_) => None,
            Ok(header) => if header.parent_physical_digest@ == bytes::zeros(32) {
                None
            } else {
                Some(trace::continued(header))
            },
        },
    }
}

/// What estimating the view that an active file continues came to.
pub open spec fn estimate_replay(
    history: Seq<Event>,
    at: int,
    state: StateModel,
    active: Option<&Vec<u8>>,
) -> Replay<u64> {
    match examined(active) {
        None => Replay::Done(Ok(0), at),
        Some(id) => match retention::view_replay(history, at, state, id) {
            Replay::Astray => Replay::Astray,
            Replay::Done(Err(error), next) => Replay::Done(Err(error), next),
            Replay::Done(Ok(view), next) => Replay::Done(
                estimated(view.metadata.view, state.placements.entries),
                next,
            ),
        },
    }
}

fn find_examined(active: Option<&Vec<u8>>) -> (id: Option<ManifestId>)
    ensures
        id == examined(active),
{
    match active {
        None => None,
        Some(found) => match ActiveHeader::decode(found.as_slice()) {
            Err(_) => None,
            Ok(header) => {
                proof {
                    catalog::lemma_header_parse(header);
                }
                if all_zero(header.parent_physical_digest.as_slice()) {
                    assert(header.parent_physical_digest@ =~= bytes::zeros(32));
                    return None;
                }
                let id: ManifestId = Id::read(header.parent_physical_digest.as_slice());
                proof {
                    crate::frame::lemma_id_of(id);
                }
                Some(id)
            },
        },
    }
}

/// Estimates what the view that an active file continues no longer needs.
pub fn estimate<B: StorageBackend>(backend: &mut B, state: &State, active: Option<&Vec<u8>>) -> (bytes:
    Result<u64, StoreError>)
    ensures
        final(backend).namespace() == old(backend).namespace(),
        adapter::extends(old(backend).history(), final(backend).history()),
        adapter::quiet(old(backend).history(), final(backend).history()),
        (bytes matches Err(e) && opening::unopened(e, old(backend).history(), final(backend).history())) || estimate_replay(
            final(backend).history(),
            old(backend).history().len() as int,
            state@,
            active,
        ) == Replay::Done(bytes, final(backend).history().len() as int),
{
    match find_examined(active) {
        None => Ok(0),
        Some(id) => match retention::pin(backend, state, id) {
            Err(error) => Err(error),
            Ok(view) => estimated_obsolete_bytes(state, &view),
        },
    }
}

/// The frames that stand in a pack among the first `count` of a list keep these shares
/// of it together.
pub open spec fn shares_of(
    list: Seq<(FrameId, LocationModel)>,
    shares: Seq<int>,
    pack: PackId,
    count: int,
) -> int
    decreases count,
{
    if count <= 0 {
        0
    } else {
        shares_of(list, shares, pack, count - 1) + if list[count - 1].1.pack == pack {
            shares[count - 1]
        } else {
            0
        }
    }
}

/// A share is the part of a frame's record that its current pages are of its pages,
/// in whole bytes: `live` of `pages` pages keep as much of the record.
pub open spec fn proportional(share: int, record: int, live: int, pages: int) -> bool {
    share * pages <= record * live < (share + 1) * pages
}

/// The slots of a frame that a view reads.
pub open spec fn current_slots(view: ViewModel, frame: FrameModel) -> Set<int> {
    Set::new(
        |slot: int|
            0 <= slot < frame.pages.len() && view.pages.dom().contains(frame.pages[slot].page)
                && view.pages[frame.pages[slot].page].frame == frame.id,
    )
}

proof fn lemma_slots_counted(view: ViewModel, frame: FrameModel, count: int)
    requires
        0 <= count <= frame.pages.len(),
    ensures
        ({
            let slots = current_slots(view, frame).filter(|slot: int| slot < count);
            slots.finite() && slots.len() == repack::live_count(view, frame, count)
        }),
    decreases count,
{
    let slots = current_slots(view, frame).filter(|slot: int| slot < count);
    if count <= 0 {
        assert(slots =~= Set::empty());
    } else {
        lemma_slots_counted(view, frame, count - 1);
        let before = current_slots(view, frame).filter(|slot: int| slot < count - 1);
        if current_slots(view, frame).contains(count - 1) {
            assert(slots =~= before.insert(count - 1));
        } else {
            assert(slots =~= before);
        }
    }
}

/// The pages of a frame that count as current are the slots that the view reads.
pub proof fn law_current_pages_are_counted(view: ViewModel, frame: FrameModel)
    ensures
        current_slots(view, frame).finite(),
        repack::live_count(view, frame, frame.pages.len() as int) == current_slots(view, frame).len(),
        0 <= repack::live_count(view, frame, frame.pages.len() as int) <= frame.pages.len(),
{
    lemma_slots_counted(view, frame, frame.pages.len() as int);
    assert(current_slots(view, frame).filter(|slot: int| slot < frame.pages.len())
        =~= current_slots(view, frame));
    lemma_counted(view, frame, frame.pages.len() as int);
}

proof fn lemma_counted(view: ViewModel, frame: FrameModel, count: int)
    requires
        0 <= count,
    ensures
        0 <= repack::live_count(view, frame, count) <= count,
    decreases count,
{
    if count > 0 {
        lemma_counted(view, frame, count - 1);
    }
}

proof fn lemma_one_share(a: int, b: int, record: int, live: int, pages: int)
    requires
        proportional(a, record, live, pages),
        proportional(b, record, live, pages),
        0 < pages,
    ensures
        a == b,
{
    assert(a < b + 1 && b < a + 1) by (nonlinear_arith)
        requires
            a * pages <= record * live < (a + 1) * pages,
            b * pages <= record * live < (b + 1) * pages,
            0 < pages,
    ;
}

/// What is estimated to be obsolete of a pack is what is left of it when every frame
/// keeps the part of its record that its current pages are of its pages.
pub proof fn law_frames_keep_their_part(
    view: ViewModel,
    list: Seq<(FrameId, LocationModel)>,
    shares: Seq<int>,
    pack: PackId,
    length: int,
    count: int,
)
    requires
        0 <= count <= list.len(),
        shares.len() == list.len(),
        forall|i: int|
            0 <= i < list.len() ==> {
                let frame = (#[trigger] list[i]).1.frame;
                &&& frame.sound()
                &&& forall|payload: Seq<u8>|
                    payload.len() == frame.payload_bytes ==> proportional(
                        shares[i],
                        (#[trigger] pack::frame_record(frame, payload)).len() as int,
                        current_slots(view, frame).len() as int,
                        frame.pages.len() as int,
                    )
            },
    ensures
        0 <= shares_of(list, shares, pack, count),
        unread(view, list, pack, length, count) == less(
            length,
            PACK_HEADER_SIZE + shares_of(list, shares, pack, count),
        ),
    decreases count,
{
    if count > 0 {
        law_frames_keep_their_part(view, list, shares, pack, length, count - 1);
        let frame = list[count - 1].1.frame;
        let pages = frame.pages.len() as int;
        law_current_pages_are_counted(view, frame);
        lemma_record_length(frame);
        let live = current_slots(view, frame).len() as int;
        let record = record_bytes(frame);
        let payload = Seq::new(frame.payload_bytes as nat, |i: int| 0u8);
        assert(pack::frame_record(frame, payload).len() == record);
        let share = live_share(view, frame);
        assert(share == record * live / pages);
        assert(proportional(share, record, live, pages)) by {
            let whole = record * live;
            vstd::arithmetic::div_mod::lemma_fundamental_div_mod(whole, pages);
            vstd::arithmetic::div_mod::lemma_mod_bound(whole, pages);
            assert(share * pages <= whole < (share + 1) * pages) by (nonlinear_arith)
                requires
                    whole == pages * share + whole % pages,
                    0 <= whole % pages < pages,
            ;
        }
        lemma_one_share(share, shares[count - 1], record, live, pages);
        assert(0 <= share) by (nonlinear_arith)
            requires
                0 <= record * live < (share + 1) * pages,
                0 < pages,
        ;
    }
}

/// The bytes that a frame is charged with are those of its record in a pack.
proof fn lemma_record_length(frame: FrameModel)
    ensures
        forall|payload: Seq<u8>|
            payload.len() == frame.payload_bytes ==> (#[trigger] pack::frame_record(
                frame,
                payload,
            )).len() == record_bytes(frame),
        0 <= record_bytes(frame),
{
    bytes::lemma_le_len(frame.record().len(), 4);
    frame.header().lemma_record();
}

/// What is estimated to be obsolete of a view is what is obsolete of each of its packs,
/// together.
pub proof fn law_estimate_adds_up(
    view: ViewModel,
    entries: Map<Seq<u8>, Seq<u8>>,
    packs: Seq<PackId>,
    count: int,
    total: u64,
    lefts: Seq<int>,
)
    requires
        0 <= count <= packs.len(),
        lefts.len() == packs.len(),
        obsolete(view, entries, packs, count) == Ok::<u64, StoreError>(total),
        forall|i: int|
            0 <= i < count ==> (pin::entry_placement(entries, #[trigger] packs[i]) matches Ok(placement)
                ==> lefts[i] >= 0 && lefts[i] == unread(
                view,
                order::listing::<FrameId, LocationModel>(view.frames),
                packs[i],
                placement.length as int,
                order::listing::<FrameId, LocationModel>(view.frames).len() as int,
            )),
    ensures
        0 <= sum_of(lefts, count),
        total == if sum_of(lefts, count) > u64::MAX {
            u64::MAX as int
        } else {
            sum_of(lefts, count)
        },
        forall|i: int| 0 <= i < count ==> pin::entry_placement(entries, #[trigger] packs[i]) is Ok,
    decreases count,
{
    if count > 0 {
        let prior = obsolete(view, entries, packs, count - 1)->Ok_0;
        law_estimate_adds_up(view, entries, packs, count - 1, prior, lefts);
        let pack = packs[count - 1];
    }
}

/// The first `count` numbers together.
pub open spec fn sum_of(list: Seq<int>, count: int) -> int
    decreases count,
{
    if count <= 0 {
        0
    } else {
        sum_of(list, count - 1) + list[count - 1]
    }
}

} // verus!
