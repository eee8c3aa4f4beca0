//! What a rewrite of some packs keeps: every page stays in the version that it had.

use crate::adapter::Event;
use crate::assembly;
use crate::assembly::Assembled;
use crate::domain::{FrameId, PackId, PageNumber};
use crate::frame;
use crate::frame::{FrameModel, PageVersion};
use crate::maintenance_read;
use crate::maintenance_read::{ReadsModel, WindowsModel};
use crate::order;
use crate::pack_writer::Content;
use crate::page;
use crate::pinned::PinModel;
use crate::placement::PlacementsModel;
use crate::repack;
use crate::repack::HarvestModel;
use crate::seal;
use crate::seal::{LayoutPolicy, PageChange, SealPlan};
use crate::sorting;
use crate::validation;
use crate::view::{LocationModel, ViewModel};
use vstd::prelude::*;

verus! {

/// The version in which a view has a page.
pub open spec fn version_at(view: ViewModel, page: PageNumber) -> PageVersion {
    view.frames[view.pages[page].frame].frame.pages[view.pages[page].slot.index as int]
}

/// All pages of a frame are current.
pub open spec fn all_live(view: ViewModel, frame: FrameModel) -> bool {
    repack::live_count(view, frame, frame.pages.len() as int) == frame.pages.len()
}

/// A view whose pages stand in well-formed frames, each under its name.
pub open spec fn orderly(view: ViewModel) -> bool {
    &&& view.size.wf()
    &&& validation::pages_sound(view)
    &&& validation::frames_sound(view)
    &&& forall|id: FrameId| #[trigger] view.frames.dom().contains(id) ==> view.frames[id].frame.wf()
}

/// A page to write anew is a current page of a frame, with its bytes.
spec fn taken_from(view: ViewModel, frame: FrameModel, change: PageChange, harvest: HarvestModel) -> bool {
    exists|s: int| #[trigger] taken_slot(view, frame, change, harvest, s)
}

spec fn taken_slot(
    view: ViewModel,
    frame: FrameModel,
    change: PageChange,
    harvest: HarvestModel,
    s: int,
) -> bool {
    &&& 0 <= s < frame.pages.len()
    &&& repack::is_live(view, frame, s)
    &&& change == (frame.pages[s].page, frame.pages[s].txid)
    &&& harvest.contents.dom().contains(change.0)
    &&& frame::sound_page(frame.pages[s], harvest.contents[change.0])
}

/// A frame of the packs that is copied.
spec fn whole(view: ViewModel, location: LocationModel, packs: Set<PackId>) -> bool {
    repack::wanted(view, location, packs) && all_live(view, location.frame)
}

/// A frame of the packs that is taken apart.
spec fn broken(view: ViewModel, location: LocationModel, packs: Set<PackId>) -> bool {
    repack::wanted(view, location, packs) && !all_live(view, location.frame)
}

spec fn copied_from(
    view: ViewModel,
    packs: Set<PackId>,
    list: Seq<(FrameId, LocationModel)>,
    i: int,
    frame: FrameModel,
) -> bool {
    exists|j: int|
        0 <= j < i && whole(view, (#[trigger] list[j]).1, packs) && frame == list[j].1.frame
}

spec fn changed_from(
    view: ViewModel,
    packs: Set<PackId>,
    list: Seq<(FrameId, LocationModel)>,
    i: int,
    change: PageChange,
    harvest: HarvestModel,
) -> bool {
    exists|j: int|
        0 <= j < i && broken(view, (#[trigger] list[j]).1, packs) && taken_from(
            view,
            list[j].1.frame,
            change,
            harvest,
        )
}

/// What was gathered from the first `i` frames is all that they have.
spec fn fair(
    view: ViewModel,
    packs: Set<PackId>,
    list: Seq<(FrameId, LocationModel)>,
    i: int,
    harvest: HarvestModel,
) -> bool {
    &&& forall|c: int|
        0 <= c < harvest.copies.len() ==> copied_from(
            view,
            packs,
            list,
            i,
            (#[trigger] harvest.copies[c]).0,
        )
    &&& forall|k: int|
        0 <= k < harvest.changes.len() ==> changed_from(
            view,
            packs,
            list,
            i,
            #[trigger] harvest.changes[k],
            harvest,
        )
    &&& forall|j: int|
        0 <= j < i && whole(view, (#[trigger] list[j]).1, packs) ==> has_copy(
            harvest,
            list[j].1.frame,
        )
    &&& forall|j: int, s: int|
        0 <= j < i && broken(view, list[j].1, packs) && 0 <= s < list[j].1.frame.pages.len()
            && repack::is_live(view, list[j].1.frame, s) ==> has_change(
            harvest,
            (#[trigger] list[j].1.frame.pages[s]).page,
        )
    &&& seal::named_apart(harvest.copies)
    &&& seal::once_each(harvest.changes)
}

/// A frame is among the copies.
pub open spec fn has_copy(harvest: HarvestModel, frame: FrameModel) -> bool {
    exists|c: int| 0 <= c < harvest.copies.len() && (#[trigger] harvest.copies[c]).0 == frame
}

/// A page is among those to write anew.
pub open spec fn has_change(harvest: HarvestModel, page: PageNumber) -> bool {
    exists|k: int| 0 <= k < harvest.changes.len() && (#[trigger] harvest.changes[k]).0 == page
}

/// The pages of a decoded frame that are current, by their slots.
proof fn lemma_live_slots(view: ViewModel, frame: FrameModel, raw: Seq<u8>, i: int)
    requires
        frame.wf(),
        raw.len() == frame.shape.size(),
        0 <= i <= frame.pages.len(),
    ensures
        ({
            let slots = page::live_slots(view, frame, raw, i);
            &&& forall|q: int|
                0 <= q < slots.len() ==> at_slot(view, frame, raw, i, #[trigger] slots[q])
            &&& forall|q: int, r: int|
                0 <= q < r < slots.len() ==> (#[trigger] slots[q]).0.page != (
                #[trigger] slots[r]).0.page
            &&& forall|s: int|
                i <= s < frame.pages.len() && repack::is_live(view, frame, s)
                    ==> #[trigger] slots.contains((frame.pages[s], frame.slot(raw, s)))
        }),
    decreases frame.pages.len() - i,
{
    let unit = frame.shape.page_size.value as int;
    let slots = page::live_slots(view, frame, raw, i);
    if i < frame.pages.len() {
        assert((i + 1) * unit <= raw.len()) by (nonlinear_arith)
            requires
                i + 1 <= frame.pages.len(),
                raw.len() == frame.pages.len() * unit,
                unit >= 0,
        ;
        lemma_live_slots(view, frame, raw, i + 1);
        let rest = page::live_slots(view, frame, raw, i + 1);
        let first = (frame.pages[i], frame.slot(raw, i));
        if repack::is_live(view, frame, i) {
            assert(slots =~= seq![first] + rest);
            assert forall|q: int| 0 <= q < slots.len() implies at_slot(
                view,
                frame,
                raw,
                i,
                #[trigger] slots[q],
            ) by {
                if q == 0 {
                    assert(is_slot(view, frame, raw, slots[q], i));
                } else {
                    assert(slots[q] == rest[q - 1]);
                    let s = choose|s: int|
                        i + 1 <= s && #[trigger] is_slot(view, frame, raw, rest[q - 1], s);
                    assert(is_slot(view, frame, raw, slots[q], s));
                }
            }
            assert forall|q: int, r: int| 0 <= q < r < slots.len() implies (#[trigger] slots[q]).0.page
                != (#[trigger] slots[r]).0.page by {
                assert(slots[r] == rest[r - 1]);
                if q == 0 {
                    let s = choose|s: int|
                        i + 1 <= s && #[trigger] is_slot(view, frame, raw, rest[r - 1], s);
                    assert(frame.pages[i].page != frame.pages[s].page);
                } else {
                    assert(slots[q] == rest[q - 1]);
                }
            }
            assert forall|s: int|
                i <= s < frame.pages.len() && repack::is_live(
                    view,
                    frame,
                    s,
                ) implies #[trigger] slots.contains((frame.pages[s], frame.slot(raw, s))) by {
                if s == i {
                    assert(slots[0] == first);
                } else {
                    let sought = (frame.pages[s], frame.slot(raw, s));
                    assert(rest.contains(sought));
                    let q = choose|q: int| 0 <= q < rest.len() && rest[q] == sought;
                    assert(slots[q + 1] == sought);
                }
            }
        } else {
            assert(slots == rest);
            assert forall|q: int| 0 <= q < slots.len() implies at_slot(
                view,
                frame,
                raw,
                i,
                #[trigger] slots[q],
            ) by {
                let s = choose|s: int|
                    i + 1 <= s && #[trigger] is_slot(view, frame, raw, rest[q], s);
                assert(is_slot(view, frame, raw, slots[q], s));
            }
        }
    }
}

spec fn is_slot(
    view: ViewModel,
    frame: FrameModel,
    raw: Seq<u8>,
    item: (PageVersion, Seq<u8>),
    s: int,
) -> bool {
    &&& 0 <= s < frame.pages.len()
    &&& repack::is_live(view, frame, s)
    &&& item == (frame.pages[s], frame.slot(raw, s))
}

spec fn at_slot(
    view: ViewModel,
    frame: FrameModel,
    raw: Seq<u8>,
    i: int,
    item: (PageVersion, Seq<u8>),
) -> bool {
    exists|s: int| i <= s && #[trigger] is_slot(view, frame, raw, item, s)
}

/// What the first `count` pages add.
proof fn lemma_with_pages(harvest: HarvestModel, slots: Seq<(PageVersion, Seq<u8>)>, count: int)
    requires
        0 <= count <= slots.len(),
        forall|q: int, r: int|
            0 <= q < r < slots.len() ==> (#[trigger] slots[q]).0.page != (
            #[trigger] slots[r]).0.page,
    ensures
        ({
            let after = harvest.with_pages(slots, count);
            &&& after.copies == harvest.copies
            &&& after.changes.len() == harvest.changes.len() + count
            &&& forall|k: int|
                0 <= k < harvest.changes.len() ==> #[trigger] after.changes[k]
                    == harvest.changes[k]
            &&& forall|q: int|
                0 <= q < count ==> after.changes[harvest.changes.len() + q] == ((
                #[trigger] slots[q]).0.page, slots[q].0.txid)
            &&& forall|q: int|
                0 <= q < count ==> after.contents.dom().contains((#[trigger] slots[q]).0.page)
                    && after.contents[slots[q].0.page] == slots[q].1
            &&& forall|p: PageNumber|
                (forall|q: int| 0 <= q < count ==> (#[trigger] slots[q]).0.page != p) ==> (
                #[trigger] after.contents.dom().contains(p) <==> harvest.contents.dom().contains(p))
                    && after.contents[p] == harvest.contents[p]
        }),
    decreases count,
{
    if count > 0 {
        lemma_with_pages(harvest, slots, count - 1);
        let before = harvest.with_pages(slots, count - 1);
        let after = harvest.with_pages(slots, count);
        let last = slots[count - 1];
        assert(after.changes == before.changes.push((last.0.page, last.0.txid)));
        assert forall|q: int| 0 <= q < count implies after.changes[harvest.changes.len() + q] == ((
        #[trigger] slots[q]).0.page, slots[q].0.txid) by {}
        assert forall|q: int| 0 <= q < count implies after.contents.dom().contains(
            (#[trigger] slots[q]).0.page,
        ) && after.contents[slots[q].0.page] == slots[q].1 by {
            if q < count - 1 {
                assert(slots[q].0.page != slots[count - 1].0.page);
            }
        }
        assert forall|p: PageNumber|
            (forall|q: int| 0 <= q < count ==> (#[trigger] slots[q]).0.page != p) implies (
        #[trigger] after.contents.dom().contains(p) <==> harvest.contents.dom().contains(p))
            && after.contents[p] == harvest.contents[p] by {
            assert(slots[count - 1].0.page != p);
            assert(before.contents.dom().contains(p) <==> harvest.contents.dom().contains(p));
        }
    }
}

/// A current page is in one frame only.
proof fn lemma_one_frame(view: ViewModel, a: FrameModel, s: int, b: FrameModel, t: int)
    requires
        repack::is_live(view, a, s),
        repack::is_live(view, b, t),
        a.pages[s].page == b.pages[t].page,
    ensures
        a.id == b.id,
{
}

/// The frames of a view in their order.
spec fn listed(view: ViewModel, list: Seq<(FrameId, LocationModel)>) -> bool {
    &&& forall|j: int|
        0 <= j < list.len() ==> view.frames.dom().contains((#[trigger] list[j]).0)
            && view.frames[list[j].0] == list[j].1
    &&& forall|j: int, k: int|
        0 <= j < k < list.len() ==> (#[trigger] list[j]).0 != (#[trigger] list[k]).0
}

proof fn lemma_listed_apart(view: ViewModel, list: Seq<(FrameId, LocationModel)>, j: int, k: int)
    requires
        orderly(view),
        listed(view, list),
        0 <= j < k < list.len(),
    ensures
        list[j].1.frame.id != list[k].1.frame.id,
{
    assert(view.frames.dom().contains(list[j].0));
    assert(view.frames.dom().contains(list[k].0));
    assert(validation::location_sound(view, list[j].0, view.frames[list[j].0]));
    assert(validation::location_sound(view, list[k].0, view.frames[list[k].0]));
}

proof fn lemma_fair_skip(
    view: ViewModel,
    packs: Set<PackId>,
    list: Seq<(FrameId, LocationModel)>,
    i: int,
    harvest: HarvestModel,
)
    requires
        0 <= i < list.len(),
        fair(view, packs, list, i, harvest),
        !repack::wanted(view, list[i].1, packs),
    ensures
        fair(view, packs, list, i + 1, harvest),
{
    assert forall|c: int| 0 <= c < harvest.copies.len() implies copied_from(
        view,
        packs,
        list,
        i + 1,
        (#[trigger] harvest.copies[c]).0,
    ) by {
        let j = choose|j: int|
            0 <= j < i && whole(view, (#[trigger] list[j]).1, packs) && harvest.copies[c].0
                == list[j].1.frame;
        assert(whole(view, list[j].1, packs));
    }
    assert forall|k: int| 0 <= k < harvest.changes.len() implies changed_from(
        view,
        packs,
        list,
        i + 1,
        #[trigger] harvest.changes[k],
        harvest,
    ) by {
        let j = choose|j: int|
            0 <= j < i && broken(view, (#[trigger] list[j]).1, packs) && taken_from(
                view,
                list[j].1.frame,
                harvest.changes[k],
                harvest,
            );
        assert(broken(view, list[j].1, packs));
    }
}

proof fn lemma_fair_copy(
    view: ViewModel,
    packs: Set<PackId>,
    list: Seq<(FrameId, LocationModel)>,
    i: int,
    harvest: HarvestModel,
    after: HarvestModel,
    payload: Seq<u8>,
)
    requires
        orderly(view),
        listed(view, list),
        0 <= i < list.len(),
        fair(view, packs, list, i, harvest),
        whole(view, list[i].1, packs),
        after.copies == harvest.copies.push((list[i].1.frame, payload)),
        after.changes == harvest.changes,
        after.contents == harvest.contents,
    ensures
        fair(view, packs, list, i + 1, after),
{
    let frame = list[i].1.frame;
    assert forall|c: int| 0 <= c < after.copies.len() implies copied_from(
        view,
        packs,
        list,
        i + 1,
        (#[trigger] after.copies[c]).0,
    ) by {
        if c < harvest.copies.len() {
            assert(after.copies[c] == harvest.copies[c]);
            let j = choose|j: int|
                0 <= j < i && whole(view, (#[trigger] list[j]).1, packs) && harvest.copies[c].0
                    == list[j].1.frame;
            assert(whole(view, list[j].1, packs));
        } else {
            assert(whole(view, list[i].1, packs));
        }
    }
    assert forall|k: int| 0 <= k < after.changes.len() implies changed_from(
        view,
        packs,
        list,
        i + 1,
        #[trigger] after.changes[k],
        after,
    ) by {
        assert(changed_from(view, packs, list, i, harvest.changes[k], harvest));
        let j = choose|j: int|
            0 <= j < i && broken(view, (#[trigger] list[j]).1, packs) && taken_from(
                view,
                list[j].1.frame,
                harvest.changes[k],
                harvest,
            );
        let s = choose|s: int| #[trigger]
            taken_slot(view, list[j].1.frame, harvest.changes[k], harvest, s);
        assert(taken_slot(view, list[j].1.frame, after.changes[k], after, s));
        assert(broken(view, list[j].1, packs));
    }
    assert forall|j: int| 0 <= j < i + 1 && whole(view, (#[trigger] list[j]).1, packs) implies has_copy(
        after,
        list[j].1.frame,
    ) by {
        if j < i {
            assert(has_copy(harvest, list[j].1.frame));
            let c = choose|c: int|
                0 <= c < harvest.copies.len() && (#[trigger] harvest.copies[c]).0 == list[j].1.frame;
            assert(after.copies[c].0 == list[j].1.frame);
        } else {
            assert(after.copies[harvest.copies.len() as int].0 == frame);
        }
    }
    assert forall|j: int, s: int|
        0 <= j < i + 1 && broken(view, list[j].1, packs) && 0 <= s < list[j].1.frame.pages.len()
            && repack::is_live(view, list[j].1.frame, s) implies has_change(
        after,
        (#[trigger] list[j].1.frame.pages[s]).page,
    ) by {
        assert(j < i);
        assert(has_change(harvest, list[j].1.frame.pages[s].page));
        let k = choose|k: int|
            0 <= k < harvest.changes.len() && (#[trigger] harvest.changes[k]).0
                == list[j].1.frame.pages[s].page;
        assert(after.changes[k].0 == list[j].1.frame.pages[s].page);
    }
    assert forall|k: int, l: int| 0 <= k < l < after.copies.len() implies (
    #[trigger] after.copies[k]).0.id != (#[trigger] after.copies[l]).0.id by {
        assert(after.copies[k] == harvest.copies[k]);
        if l < harvest.copies.len() {
            assert(after.copies[l] == harvest.copies[l]);
        } else {
            assert(copied_from(view, packs, list, i, harvest.copies[k].0));
            let j = choose|j: int|
                0 <= j < i && whole(view, (#[trigger] list[j]).1, packs) && harvest.copies[k].0
                    == list[j].1.frame;
            lemma_listed_apart(view, list, j, i);
        }
    }
}

#[verifier::rlimit(40)]
proof fn lemma_fair_break(
    view: ViewModel,
    packs: Set<PackId>,
    list: Seq<(FrameId, LocationModel)>,
    i: int,
    harvest: HarvestModel,
    raw: Seq<u8>,
    slots: Seq<(PageVersion, Seq<u8>)>,
    after: HarvestModel,
)
    requires
        orderly(view),
        listed(view, list),
        0 <= i < list.len(),
        fair(view, packs, list, i, harvest),
        broken(view, list[i].1, packs),
        list[i].1.frame.verifies(raw),
        slots == page::live_slots(view, list[i].1.frame, raw, 0),
        after.copies == harvest.with_pages(slots, slots.len() as int).copies,
        after.changes == harvest.with_pages(slots, slots.len() as int).changes,
        after.contents == harvest.with_pages(slots, slots.len() as int).contents,
    ensures
        fair(view, packs, list, i + 1, after),
{
    let frame = list[i].1.frame;
    let n = harvest.changes.len();
    assert(view.frames.dom().contains(list[i].0));
    assert(frame.wf());
    lemma_live_slots(view, frame, raw, 0);
    lemma_with_pages(harvest, slots, slots.len() as int);
    assert forall|c: int| 0 <= c < after.copies.len() implies copied_from(
        view,
        packs,
        list,
        i + 1,
        (#[trigger] after.copies[c]).0,
    ) by {
        assert(copied_from(view, packs, list, i, harvest.copies[c].0));
        let j = choose|j: int|
            0 <= j < i && whole(view, (#[trigger] list[j]).1, packs) && harvest.copies[c].0
                == list[j].1.frame;
        assert(whole(view, list[j].1, packs));
    }
    assert forall|k: int| 0 <= k < n implies ({
        &&& changed_from(view, packs, list, i + 1, #[trigger] after.changes[k], after)
        &&& forall|q: int|
            0 <= q < slots.len() ==> (#[trigger] slots[q]).0.page != after.changes[k].0
    }) by {
        let change = harvest.changes[k];
        assert(after.changes[k] == change);
        assert(changed_from(view, packs, list, i, change, harvest));
        let j = choose|j: int|
            0 <= j < i && broken(view, (#[trigger] list[j]).1, packs) && taken_from(
                view,
                list[j].1.frame,
                change,
                harvest,
            );
        let s = choose|s: int| #[trigger] taken_slot(view, list[j].1.frame, change, harvest, s);
        assert forall|q: int| 0 <= q < slots.len() implies (#[trigger] slots[q]).0.page
            != change.0 by {
            assert(at_slot(view, frame, raw, 0, slots[q]));
            let t = choose|t: int| 0 <= t && #[trigger] is_slot(view, frame, raw, slots[q], t);
            if slots[q].0.page == change.0 {
                lemma_one_frame(view, list[j].1.frame, s, frame, t);
                lemma_listed_apart(view, list, j, i);
            }
        }
        assert(after.contents.dom().contains(change.0) <==> harvest.contents.dom().contains(
            change.0,
        ));
        assert(taken_slot(view, list[j].1.frame, change, after, s));
        assert(broken(view, list[j].1, packs));
    }
    assert forall|q: int| 0 <= q < slots.len() implies changed_from(
        view,
        packs,
        list,
        i + 1,
        after.changes[n + q],
        after,
    ) && after.changes[n + q].0 == (#[trigger] slots[q]).0.page by {
        assert(at_slot(view, frame, raw, 0, slots[q]));
        let t = choose|t: int| 0 <= t && #[trigger] is_slot(view, frame, raw, slots[q], t);
        assert(frame::sound_page(frame.pages[t], frame.slot(raw, t)));
        assert(taken_slot(view, frame, after.changes[n + q], after, t));
        assert(taken_from(view, list[i].1.frame, after.changes[n + q], after));
        assert(broken(view, list[i].1, packs));
    }
    assert forall|k: int| 0 <= k < after.changes.len() implies changed_from(
        view,
        packs,
        list,
        i + 1,
        #[trigger] after.changes[k],
        after,
    ) by {
        if k >= n {
            let q = k - n;
            assert(slots[q].0.page == after.changes[n + q].0);
        }
    }
    assert forall|j: int| 0 <= j < i + 1 && whole(view, (#[trigger] list[j]).1, packs) implies has_copy(
        after,
        list[j].1.frame,
    ) by {
        assert(j < i);
        assert(has_copy(harvest, list[j].1.frame));
        let c = choose|c: int|
            0 <= c < harvest.copies.len() && (#[trigger] harvest.copies[c]).0 == list[j].1.frame;
        assert(after.copies[c].0 == list[j].1.frame);
    }
    assert forall|j: int, s: int|
        0 <= j < i + 1 && broken(view, list[j].1, packs) && 0 <= s < list[j].1.frame.pages.len()
            && repack::is_live(view, list[j].1.frame, s) implies has_change(
        after,
        (#[trigger] list[j].1.frame.pages[s]).page,
    ) by {
        let p = list[j].1.frame.pages[s].page;
        if j < i {
            assert(has_change(harvest, p));
            let k = choose|k: int|
                0 <= k < harvest.changes.len() && (#[trigger] harvest.changes[k]).0 == p;
            assert(after.changes[k].0 == p);
        } else {
            let sought = (frame.pages[s], frame.slot(raw, s));
            assert(slots.contains(sought));
            let q = choose|q: int| 0 <= q < slots.len() && slots[q] == sought;
            assert(after.changes[n + q].0 == slots[q].0.page);
        }
    }
    assert forall|a: int, b: int| 0 <= a < b < after.changes.len() implies (
    #[trigger] after.changes[a]).0 != (#[trigger] after.changes[b]).0 by {
        if b < n {
            assert(harvest.changes[a].0 != harvest.changes[b].0);
        } else {
            let r = b - n;
            assert(slots[r].0.page == after.changes[n + r].0);
            if a >= n {
                let q = a - n;
                assert(slots[q].0.page == after.changes[n + q].0);
                assert(slots[q].0.page != slots[r].0.page);
            }
        }
    }
}

proof fn lemma_harvest(
    pin: PinModel,
    packs: Set<PackId>,
    list: Seq<(FrameId, LocationModel)>,
    i: int,
    fetched: WindowsModel,
    so_far: HarvestModel,
)
    requires
        orderly(pin.metadata.view),
        listed(pin.metadata.view, list),
        0 <= i <= list.len(),
        fair(pin.metadata.view, packs, list, i, so_far),
        repack::harvest_of(pin, packs, list, i, fetched, so_far) is Some,
    ensures
        fair(
            pin.metadata.view,
            packs,
            list,
            list.len() as int,
            repack::harvest_of(pin, packs, list, i, fetched, so_far)->Some_0,
        ),
    decreases list.len() - i,
{
    let view = pin.metadata.view;
    if i < list.len() {
        if !repack::wanted(view, list[i].1, packs) {
            lemma_fair_skip(view, packs, list, i, so_far);
            lemma_harvest(pin, packs, list, i + 1, fetched, so_far);
        } else {
            let record = maintenance_read::record_in(fetched, list[i].1)->Ok_0;
            let (payload, raw) = repack::live_taken(pin, list[i].1, record)->Some_0;
            let frame = list[i].1.frame;
            let after = so_far.with_frame(view, frame, payload, raw);
            if all_live(view, frame) {
                lemma_fair_copy(view, packs, list, i, so_far, after, payload);
            } else {
                let more = HarvestModel {
                    decoded: repack::capped(so_far.decoded as int, raw.len() as int),
                    ..so_far
                };
                assert(fair(view, packs, list, i, more)) by {
                    lemma_fair_decoded(view, packs, list, i, so_far, more);
                }
                let slots = page::live_slots(view, frame, raw, 0);
                lemma_fair_break(view, packs, list, i, more, raw, slots, after);
            }
            lemma_harvest(pin, packs, list, i + 1, fetched, after);
        }
    }
}

/// How much was decoded does not matter.
proof fn lemma_fair_decoded(
    view: ViewModel,
    packs: Set<PackId>,
    list: Seq<(FrameId, LocationModel)>,
    i: int,
    harvest: HarvestModel,
    more: HarvestModel,
)
    requires
        fair(view, packs, list, i, harvest),
        more.copies == harvest.copies,
        more.changes == harvest.changes,
        more.contents == harvest.contents,
    ensures
        fair(view, packs, list, i, more),
{
    assert forall|k: int| 0 <= k < more.changes.len() implies changed_from(
        view,
        packs,
        list,
        i,
        #[trigger] more.changes[k],
        more,
    ) by {
        let change = harvest.changes[k];
        assert(changed_from(view, packs, list, i, change, harvest));
        let j = choose|j: int|
            0 <= j < i && broken(view, (#[trigger] list[j]).1, packs) && taken_from(
                view,
                list[j].1.frame,
                change,
                harvest,
            );
        let s = choose|s: int| #[trigger] taken_slot(view, list[j].1.frame, change, harvest, s);
        assert(taken_slot(view, list[j].1.frame, change, more, s));
        assert(broken(view, list[j].1, packs));
    }
    assert forall|j: int| 0 <= j < i && whole(view, (#[trigger] list[j]).1, packs) implies has_copy(
        more,
        list[j].1.frame,
    ) by {
        assert(has_copy(harvest, list[j].1.frame));
        let c = choose|c: int|
            0 <= c < harvest.copies.len() && (#[trigger] harvest.copies[c]).0 == list[j].1.frame;
        assert(more.copies[c].0 == list[j].1.frame);
    }
    assert forall|j: int, s: int|
        0 <= j < i && broken(view, list[j].1, packs) && 0 <= s < list[j].1.frame.pages.len()
            && repack::is_live(view, list[j].1.frame, s) implies has_change(
        more,
        (#[trigger] list[j].1.frame.pages[s]).page,
    ) by {
        let p = list[j].1.frame.pages[s].page;
        assert(has_change(harvest, p));
        let k = choose|k: int|
            0 <= k < harvest.changes.len() && (#[trigger] harvest.changes[k]).0 == p;
        assert(more.changes[k].0 == p);
    }
}

/// A frame that no step names stays as it was.
proof fn lemma_frame_stays(view: ViewModel, edits: Seq<assembly::Edit>, id: FrameId)
    requires
        forall|k: int|
            0 <= k < assembly::placed_list(edits).len() ==> (#[trigger] assembly::placed_list(
                edits,
            )[k]).frame.id != id,
    ensures
        assembly::edited(view, edits).frames.dom().contains(id) <==> view.frames.dom().contains(id),
        assembly::edited(view, edits).frames[id] == view.frames[id],
    decreases edits.len(),
{
    if edits.len() > 0 {
        let fewer = edits.drop_last();
        let list = assembly::placed_list(edits);
        let less = assembly::placed_list(fewer);
        match edits.last() {
            assembly::Edit::Place(location) => {
                assert(list =~= less.push(location));
                assert forall|k: int| 0 <= k < less.len() implies (#[trigger] less[k]).frame.id
                    != id by {
                    assert(list[k].frame.id != id);
                }
                assert(list[less.len() as int].frame.id != id);
            },
            assembly::Edit::Drop(_) => {
                assert(list == less);
            },
        }
        lemma_frame_stays(view, fewer, id);
    }
}

/// Changes of pages within the size are all kept.
proof fn lemma_all_kept(changes: Seq<PageChange>, last: int, count: int)
    requires
        0 <= count <= changes.len(),
        forall|k: int| 0 <= k < changes.len() ==> (#[trigger] changes[k]).0.value <= last,
    ensures
        seal::kept(changes, last, count) == changes.take(count),
    decreases count,
{
    if count > 0 {
        lemma_all_kept(changes, last, count - 1);
        assert(changes[count - 1].0.value <= last);
        assert(changes.take(count) =~= changes.take(count - 1).push(changes[count - 1]));
    } else {
        assert(changes.take(0) =~= Seq::<PageChange>::empty());
    }
}

/// Sorting changes keeps them.
proof fn lemma_sorted_changes(changes: Seq<PageChange>)
    requires
        changes.len() <= usize::MAX,
        seal::once_each(changes),
    ensures
        seal::once_each(seal::by_page(changes)),
        forall|i: int|
            0 <= i < seal::by_page(changes).len() ==> changes.contains(
                #[trigger] seal::by_page(changes)[i],
            ),
        forall|k: int|
            0 <= k < changes.len() ==> seal::by_page(changes).contains(#[trigger] changes[k]),
{
    let order = sorting::order_of(changes);
    let list = seal::by_page(changes);
    sorting::lemma_order_exists(changes);
    assert forall|i: int, j: int| 0 <= i < j < list.len() implies (#[trigger] list[i]).0 != (
    #[trigger] list[j]).0 by {
        assert(list[i] == changes[order[i] as int]);
        assert(list[j] == changes[order[j] as int]);
        assert(order[i] != order[j]);
        if order[i] < order[j] {
            assert(changes[order[i] as int].0 != changes[order[j] as int].0);
        } else {
            assert(changes[order[j] as int].0 != changes[order[i] as int].0);
        }
    }
    assert forall|i: int| 0 <= i < list.len() implies changes.contains(#[trigger] list[i]) by {
        assert(list[i] == changes[order[i] as int]);
    }
    assert forall|k: int| 0 <= k < changes.len() implies list.contains(#[trigger] changes[k]) by {
        assert(order.contains(sorting::place(k)));
        let i = choose|i: int| 0 <= i < order.len() && order[i] == sorting::place(k);
        assert(list[i] == changes[k]);
    }
}

/// A slot of a frame that is current is the one where the view has the page.
proof fn lemma_live_at(view: ViewModel, id: FrameId, s: int)
    requires
        orderly(view),
        view.frames.dom().contains(id),
        0 <= s < view.frames[id].frame.pages.len(),
        repack::is_live(view, view.frames[id].frame, s),
    ensures
        ({
            let version = view.frames[id].frame.pages[s];
            &&& view.pages.dom().contains(version.page)
            &&& view.pages[version.page].frame == id
            &&& version_at(view, version.page) == version
            &&& version.page.value <= view.size.count()
        }),
{
    let frame = view.frames[id].frame;
    let page = frame.pages[s].page;
    assert(validation::location_sound(view, id, view.frames[id]));
    let stored = view.pages[page];
    assert(validation::page_sound(view, page, stored));
    let t = stored.slot.index as int;
    assert(frame.pages[t].page == page);
    if s < t {
        assert(frame.pages[s].page != frame.pages[t].page);
    } else if t < s {
        assert(frame.pages[t].page != frame.pages[s].page);
    }
}

proof fn lemma_counted(view: ViewModel, frame: FrameModel, s: int, count: int)
    requires
        0 <= s < count <= frame.pages.len(),
    ensures
        0 <= repack::live_count(view, frame, count) <= count,
        repack::is_live(view, frame, s) ==> repack::live_count(view, frame, count) > 0,
        repack::live_count(view, frame, count) == count ==> repack::is_live(view, frame, s),
    decreases count,
{
    if count > 1 {
        if s < count - 1 {
            lemma_counted(view, frame, s, count - 1);
        } else {
            lemma_counted(view, frame, 0, count - 1);
        }
    } else {
        assert(repack::live_count(view, frame, 0) == 0);
    }
}

/// What was gathered, by the pages of the view.
spec fn harvested(view: ViewModel, packs: Set<PackId>, harvest: HarvestModel) -> bool {
    &&& forall|c: int|
        0 <= c < harvest.copies.len() ==> is_copied(view, packs, (#[trigger] harvest.copies[c]).0)
    &&& forall|k: int|
        0 <= k < harvest.changes.len() ==> is_changed(
            view,
            packs,
            #[trigger] harvest.changes[k],
            harvest.contents,
        )
    &&& forall|page: PageNumber| #[trigger]
        view.pages.dom().contains(page) && packs.contains(view.frames[view.pages[page].frame].pack) ==> if all_live(
            view,
            view.frames[view.pages[page].frame].frame,
        ) {
            has_copy(harvest, view.frames[view.pages[page].frame].frame)
        } else {
            has_change(harvest, page)
        }
    &&& seal::named_apart(harvest.copies)
    &&& seal::once_each(harvest.changes)
}

/// A frame of the packs, all of whose pages are current.
spec fn is_copied(view: ViewModel, packs: Set<PackId>, frame: FrameModel) -> bool {
    &&& view.frames.dom().contains(frame.id)
    &&& view.frames[frame.id].frame == frame
    &&& packs.contains(view.frames[frame.id].pack)
    &&& all_live(view, frame)
}

/// A page of the packs that is current in a frame that is not so in full, with its
/// bytes.
spec fn is_changed(
    view: ViewModel,
    packs: Set<PackId>,
    change: PageChange,
    contents: Map<PageNumber, Seq<u8>>,
) -> bool {
    &&& view.pages.dom().contains(change.0)
    &&& packs.contains(view.frames[view.pages[change.0].frame].pack)
    &&& !all_live(view, view.frames[view.pages[change.0].frame].frame)
    &&& change.0.value <= view.size.count()
    &&& change.1 == version_at(view, change.0).txid
    &&& version_at(view, change.0).page == change.0
    &&& contents.dom().contains(change.0)
    &&& frame::sound_page(version_at(view, change.0), contents[change.0])
}

proof fn lemma_harvested(
    view: ViewModel,
    packs: Set<PackId>,
    list: Seq<(FrameId, LocationModel)>,
    harvest: HarvestModel,
)
    requires
        orderly(view),
        listed(view, list),
        forall|id: FrameId| #[trigger]
            view.frames.dom().contains(id) ==> exists|j: int|
                0 <= j < list.len() && (#[trigger] list[j]).0 == id,
        fair(view, packs, list, list.len() as int, harvest),
    ensures
        harvested(view, packs, harvest),
{
    let n = list.len() as int;
    assert forall|c: int| 0 <= c < harvest.copies.len() implies is_copied(
        view,
        packs,
        (#[trigger] harvest.copies[c]).0,
    ) by {
        assert(copied_from(view, packs, list, n, harvest.copies[c].0));
        let j = choose|j: int|
            0 <= j < n && whole(view, (#[trigger] list[j]).1, packs) && harvest.copies[c].0
                == list[j].1.frame;
        assert(view.frames.dom().contains(list[j].0));
        assert(validation::location_sound(view, list[j].0, view.frames[list[j].0]));
    }
    assert forall|k: int| 0 <= k < harvest.changes.len() implies is_changed(
        view,
        packs,
        #[trigger] harvest.changes[k],
        harvest.contents,
    ) by {
        let change = harvest.changes[k];
        assert(changed_from(view, packs, list, n, change, harvest));
        let j = choose|j: int|
            0 <= j < n && broken(view, (#[trigger] list[j]).1, packs) && taken_from(
                view,
                list[j].1.frame,
                change,
                harvest,
            );
        let s = choose|s: int| #[trigger] taken_slot(view, list[j].1.frame, change, harvest, s);
        assert(view.frames.dom().contains(list[j].0));
        lemma_live_at(view, list[j].0, s);
    }
    assert forall|page: PageNumber| #[trigger]
        view.pages.dom().contains(page) && packs.contains(
            view.frames[view.pages[page].frame].pack,
        ) implies if all_live(view, view.frames[view.pages[page].frame].frame) {
        has_copy(harvest, view.frames[view.pages[page].frame].frame)
    } else {
        has_change(harvest, page)
    } by {
        let stored = view.pages[page];
        let id = stored.frame;
        assert(validation::page_sound(view, page, stored));
        assert(view.frames.dom().contains(id));
        assert(validation::location_sound(view, id, view.frames[id]));
        let frame = view.frames[id].frame;
        let s = stored.slot.index as int;
        let j = choose|j: int| 0 <= j < list.len() && (#[trigger] list[j]).0 == id;
        assert(list[j].1 == view.frames[id]);
        assert(repack::is_live(view, frame, s));
        lemma_counted(view, frame, s, frame.pages.len() as int);
        if all_live(view, frame) {
            assert(whole(view, list[j].1, packs));
        } else {
            assert(broken(view, list[j].1, packs));
            assert(list[j].1.frame.pages[s].page == page);
        }
    }
}

/// The frames of a rewrite have different pages and, with new names for what was
/// built, different names.
proof fn lemma_rewrite_apart(
    view: ViewModel,
    packs: Set<PackId>,
    harvest: HarvestModel,
    list: Seq<PageChange>,
    built: Content,
)
    requires
        orderly(view),
        harvested(view, packs, harvest),
        seal::once_each(list),
        forall|i: int| 0 <= i < list.len() ==> harvest.changes.contains(#[trigger] list[i]),
        seal::frame_versions(built) == seal::stored_versions(
            list,
            harvest.contents,
            list.len() as int,
        ),
        seal::named_apart(built),
        forall|k: int|
            0 <= k < built.len() ==> !view.frames.dom().contains((#[trigger] built[k]).0.id),
    ensures
        seal::apart(harvest.copies + built),
        seal::named_apart(harvest.copies + built),
        forall|p: PageNumber| #[trigger]
            seal::holds_page(harvest.copies + built, p) ==> in_pack(view, packs, p) && (in_copies(
                view,
                p,
            ) || seal::is_listed(list, harvest.contents, p)),
{
    let copies = harvest.copies;
    let frames = copies + built;
    let m = copies.len() as int;
    seal::lemma_built_pages(list, harvest.contents, built);
    assert forall|c: int, s: int|
        0 <= c < m && 0 <= s < copies[c].0.pages.len() implies in_copies(
        view,
        (#[trigger] copies[c].0.pages[s]).page,
    ) && view.pages[copies[c].0.pages[s].page].frame == copies[c].0.id by {
        let frame = copies[c].0;
        assert(is_copied(view, packs, frame));
        lemma_counted(view, frame, s, frame.pages.len() as int);
        lemma_live_at(view, frame.id, s);
    }
    assert forall|p: PageNumber| #[trigger] seal::is_listed(list, harvest.contents, p) implies !in_copies(
        view,
        p,
    ) by {
        let i = choose|i: int|
            0 <= i < list.len() && (#[trigger] list[i]).0 == p && !seal::is_zero(
                harvest.contents[p],
            );
        assert(harvest.changes.contains(list[i]));
        let k = choose|k: int| 0 <= k < harvest.changes.len() && harvest.changes[k] == list[i];
        assert(is_changed(view, packs, harvest.changes[k], harvest.contents));
    }
    assert forall|k: int, s: int|
        m <= k < frames.len() && 0 <= s < frames[k].0.pages.len() implies !in_copies(
        view,
        (#[trigger] frames[k].0.pages[s]).page,
    ) by {
        assert(frames[k] == built[k - m]);
        assert(built[k - m].0.pages[s].page == frames[k].0.pages[s].page);
        assert(seal::holds_page(built, frames[k].0.pages[s].page));
    }
    assert forall|k: int, s: int, l: int, t: int|
        0 <= k < frames.len() && 0 <= l < frames.len() && 0 <= s < frames[k].0.pages.len() && 0 <= t
            < frames[l].0.pages.len() && (k != l || s != t) implies (
    #[trigger] frames[k].0.pages[s]).page != (#[trigger] frames[l].0.pages[t]).page by {
        if k < m && l < m {
            assert(frames[k] == copies[k]);
            assert(frames[l] == copies[l]);
            assert(in_copies(view, copies[k].0.pages[s].page));
            assert(in_copies(view, copies[l].0.pages[t].page));
            if k == l {
                assert(is_copied(view, packs, copies[k].0));
                assert(copies[k].0.wf());
            } else if k < l {
                assert(copies[k].0.id != copies[l].0.id);
            } else {
                assert(copies[l].0.id != copies[k].0.id);
            }
        } else if k >= m && l >= m {
            assert(frames[k] == built[k - m]);
            assert(frames[l] == built[l - m]);
            assert(built[k - m].0.pages[s].page != built[l - m].0.pages[t].page);
        } else if k < m {
            assert(frames[k] == copies[k]);
            assert(in_copies(view, copies[k].0.pages[s].page));
        } else {
            assert(frames[l] == copies[l]);
            assert(in_copies(view, copies[l].0.pages[t].page));
        }
    }
    assert forall|k: int, l: int| 0 <= k < l < frames.len() implies (#[trigger] frames[k]).0.id != (
    #[trigger] frames[l]).0.id by {
        if l < m {
            assert(copies[k].0.id != copies[l].0.id);
        } else if k >= m {
            assert(built[k - m].0.id != built[l - m].0.id);
        } else {
            assert(is_copied(view, packs, copies[k].0));
            assert(!view.frames.dom().contains(built[l - m].0.id));
        }
    }
    assert forall|p: PageNumber| #[trigger] seal::holds_page(frames, p) implies in_pack(
        view,
        packs,
        p,
    ) && (in_copies(view, p) || seal::is_listed(list, harvest.contents, p)) by {
        let (k, s) = choose|k: int, s: int|
            0 <= k < frames.len() && 0 <= s < frames[k].0.pages.len() && (
            #[trigger] frames[k].0.pages[s]).page == p;
        if k < m {
            assert(frames[k] == copies[k]);
            assert(in_copies(view, copies[k].0.pages[s].page));
            assert(is_copied(view, packs, copies[k].0));
        } else {
            assert(built[k - m].0.pages[s].page == p);
            assert(seal::holds_page(built, p));
            let i = choose|i: int|
                0 <= i < list.len() && (#[trigger] list[i]).0 == p && !seal::is_zero(
                    harvest.contents[p],
                );
            assert(harvest.changes.contains(list[i]));
            let k = choose|k: int| 0 <= k < harvest.changes.len() && harvest.changes[k] == list[i];
            assert(is_changed(view, packs, harvest.changes[k], harvest.contents));
        }
    }
}

/// A page of the view that stands in a frame of the pack.
spec fn in_pack(view: ViewModel, packs: Set<PackId>, page: PageNumber) -> bool {
    view.pages.dom().contains(page) && packs.contains(view.frames[view.pages[page].frame].pack)
}

/// A page of a frame whose pages are all current.
spec fn in_copies(view: ViewModel, page: PageNumber) -> bool {
    view.pages.dom().contains(page) && all_live(view, view.frames[view.pages[page].frame].frame)
}

/// A page of the view that was written anew is all zeros.
pub open spec fn turned_zero(harvest: HarvestModel, page: PageNumber) -> bool {
    has_change(harvest, page) && seal::is_zero(harvest.contents[page])
}

/// A rewrite of some packs keeps what is read. In the view that it assembles, every
/// page stands in the version that it had; a page that was written anew and is
/// all zeros is not stored, as pages of zeros are not; and no page is added. The
/// names of the frames that are built must be new.
#[verifier::rlimit(40)]
pub proof fn law_rewrite_keeps_pages(
    pin: PinModel,
    chosen: Map<PackId, PlacementsModel>,
    packs: Set<PackId>,
    earlier: Seq<Event>,
    middle: Seq<Event>,
    harvest: HarvestModel,
    plan: SealPlan,
    layout: LayoutPolicy,
    origin: int,
    later: Seq<Event>,
    assembled: Assembled,
    built: Content,
    page: PageNumber,
)
    requires
        orderly(pin.metadata.view),
        order::ascending::<FrameId, LocationModel>(pin.metadata.view.frame_list()),
        order::mapped::<FrameId, LocationModel>(pin.metadata.view.frame_list())
            == pin.metadata.view.frames,
        repack::gathered(earlier, middle, pin, chosen, packs, harvest),
        harvest.changes.len() <= usize::MAX,
        plan.start == seal::seal_start(
            Some(pin.metadata.view),
            repack::same_endpoint(pin.metadata.view),
        ),
        seal::seal_assembled(
            plan,
            repack::same_endpoint(pin.metadata.view),
            harvest.changes,
            harvest.contents,
            layout,
            harvest.copies,
            origin,
            later,
            assembled,
            built,
        ),
        seal::named_apart(built),
        forall|k: int|
            0 <= k < built.len() ==> !pin.metadata.view.frames.dom().contains(
                (#[trigger] built[k]).0.id,
            ),
    ensures
        ({
            let view = pin.metadata.view;
            let after = assembly::edited(plan.start, assembled.edits);
            if !view.pages.dom().contains(page) {
                !after.pages.dom().contains(page)
            } else if turned_zero(harvest, page) {
                !after.pages.dom().contains(page) && frame::sound_page(
                    version_at(view, page),
                    harvest.contents[page],
                )
            } else {
                after.pages.dom().contains(page) && version_at(after, page) == version_at(view, page)
            }
        }),
{
    let view = pin.metadata.view;
    let frames = view.frame_list();
    order::lemma_walk::<FrameId, LocationModel>(frames, view.frames);
    assert(listed(view, frames)) by {
        assert forall|j: int, k: int| 0 <= j < k < frames.len() implies (#[trigger] frames[j]).0 != (
        #[trigger] frames[k]).0 by {
            <FrameId as order::Key>::lemma_irreflexive(frames[j].0);
            assert(<FrameId as order::Key>::precedes(frames[j].0, frames[k].0));
        }
    }
    assert(fair(view, packs, frames, 0, HarvestModel::none()));
    let wanted = repack::wanted_frames(view, packs, frames, frames.len() as int);
    let spans = maintenance_read::spans_from(chosen, wanted, wanted.len() as int)->Ok_0;
    let windows = maintenance_read::plan_of(spans)->Ok_0;
    let contents = maintenance_read::windows_replay(
        middle,
        earlier.len() as int,
        (ReadsModel { chosen, windows, cached: None }),
        0,
        Seq::empty(),
    )->Done_0->Ok_0;
    let fetched = WindowsModel { windows, contents };
    assert(repack::harvest_of(pin, packs, frames, 0, fetched, HarvestModel::none()) == Some(harvest));
    lemma_harvest(pin, packs, frames, 0, fetched, HarvestModel::none());
    lemma_harvested(view, packs, frames, harvest);
    let endpoint = repack::same_endpoint(view);
    let list = seal::planned(harvest.changes, endpoint.size);
    assert(list == seal::by_page(harvest.changes)) by {
        assert forall|k: int| 0 <= k < harvest.changes.len() implies (
        #[trigger] harvest.changes[k]).0.value <= view.size.count() by {
            assert(is_changed(view, packs, harvest.changes[k], harvest.contents));
        }
        lemma_all_kept(harvest.changes, view.size.count(), harvest.changes.len() as int);
        assert(harvest.changes.take(harvest.changes.len() as int) =~= harvest.changes);
    }
    lemma_sorted_changes(harvest.changes);
    lemma_rewrite_apart(view, packs, harvest, list, built);
    lemma_kept_page(view, packs, harvest, plan, origin, later, assembled, built, list, page);
}

proof fn lemma_start(view: ViewModel)
    requires
        orderly(view),
    ensures
        seal::seal_start(Some(view), repack::same_endpoint(view)).pages == view.pages,
        seal::seal_start(Some(view), repack::same_endpoint(view)).frames == view.frames,
{
    let start = seal::seal_start(Some(view), repack::same_endpoint(view));
    assert forall|page: PageNumber| view.pages.dom().contains(page) implies page.value
        <= view.size.count() as u32 by {
        assert(validation::page_sound(view, page, view.pages[page]));
    }
    assert(start.pages =~= view.pages);
}

#[verifier::rlimit(40)]
proof fn lemma_kept_page(
    view: ViewModel,
    packs: Set<PackId>,
    harvest: HarvestModel,
    plan: SealPlan,
    origin: int,
    later: Seq<Event>,
    assembled: Assembled,
    built: Content,
    list: Seq<PageChange>,
    page: PageNumber,
)
    requires
        orderly(view),
        harvested(view, packs, harvest),
        plan.start == seal::seal_start(Some(view), repack::same_endpoint(view)),
        assembled.complete(origin, later),
        assembled.frames == harvest.copies + built,
        seal::once_each(list),
        forall|i: int| 0 <= i < list.len() ==> harvest.changes.contains(#[trigger] list[i]),
        forall|k: int| 0 <= k < harvest.changes.len() ==> list.contains(#[trigger] harvest.changes[k]),
        seal::frame_versions(built) == seal::stored_versions(
            list,
            harvest.contents,
            list.len() as int,
        ),
        assembly::dropped_list(assembled.edits) == seal::zero_pages(
            list,
            harvest.contents,
            list.len() as int,
        ),
        seal::apart(assembled.frames),
        seal::named_apart(assembled.frames),
        forall|k: int|
            0 <= k < built.len() ==> !view.frames.dom().contains((#[trigger] built[k]).0.id),
        forall|p: PageNumber| #[trigger]
            seal::holds_page(assembled.frames, p) ==> in_pack(view, packs, p) && (in_copies(view, p)
                || seal::is_listed(list, harvest.contents, p)),
    ensures
        ({
            let after = assembly::edited(plan.start, assembled.edits);
            if !view.pages.dom().contains(page) {
                !after.pages.dom().contains(page)
            } else if turned_zero(harvest, page) {
                !after.pages.dom().contains(page) && frame::sound_page(
                    version_at(view, page),
                    harvest.contents[page],
                )
            } else {
                after.pages.dom().contains(page) && version_at(after, page) == version_at(view, page)
            }
        }),
{
    reveal(assembly::settled);
    let after = assembly::edited(plan.start, assembled.edits);
    let dropped = assembly::dropped_list(assembled.edits);
    let placed = assembly::placed_list(assembled.edits);
    let m = harvest.copies.len() as int;
    lemma_start(view);
    seal::lemma_zero_pages(list, harvest.contents, list.len() as int);
    assert forall|p: PageNumber| #[trigger] dropped.contains(p) implies in_pack(view, packs, p)
        && turned_zero(harvest, p) && !in_copies(view, p) && !seal::is_listed(
        list,
        harvest.contents,
        p,
    ) by {
        let q = choose|q: int| 0 <= q < dropped.len() && dropped[q] == p;
        assert(seal::is_zero_page(list, harvest.contents, list.len() as int, dropped[q]));
        let i = choose|i: int|
            0 <= i < list.len() && (#[trigger] list[i]).0 == p && seal::is_zero(
                harvest.contents[list[i].0],
            );
        assert(harvest.changes.contains(list[i]));
        let k = choose|k: int| 0 <= k < harvest.changes.len() && harvest.changes[k] == list[i];
        assert(harvest.changes[k].0 == p);
        assert(is_changed(view, packs, harvest.changes[k], harvest.contents));
    }
    assert forall|i: int| 0 <= i < dropped.len() implies !seal::holds_page(
        assembled.frames,
        #[trigger] dropped[i],
    ) by {
        assert(dropped.contains(dropped[i]));
    }
    seal::law_assembled_view(plan.start, assembled, origin, later, page);
    if view.pages.dom().contains(page) {
        let stored = view.pages[page];
        let id = stored.frame;
        assert(validation::page_sound(view, page, stored));
        assert(view.frames.dom().contains(id));
        assert(validation::location_sound(view, id, view.frames[id]));
        let frame = view.frames[id].frame;
        let s = stored.slot.index as int;
        if !packs.contains(view.frames[id].pack) {
            assert(!seal::holds_page(assembled.frames, page));
            assert(!dropped.contains(page));
            assert forall|k: int| 0 <= k < placed.len() implies (#[trigger] placed[k]).frame.id
                != id by {
                assert(placed[k].frame == assembled.frames[k].0);
                if k < m {
                    assert(assembled.frames[k] == harvest.copies[k]);
                    assert(is_copied(view, packs, harvest.copies[k].0));
                } else {
                    assert(assembled.frames[k] == built[k - m]);
                }
            }
            lemma_frame_stays(plan.start, assembled.edits, id);
            if turned_zero(harvest, page) {
                let k = choose|k: int|
                    0 <= k < harvest.changes.len() && (#[trigger] harvest.changes[k]).0 == page;
                assert(is_changed(view, packs, harvest.changes[k], harvest.contents));
            }
        } else if all_live(view, frame) {
            assert(has_copy(harvest, frame));
            let c = choose|c: int|
                0 <= c < harvest.copies.len() && (#[trigger] harvest.copies[c]).0 == frame;
            assert(assembled.frames[c] == harvest.copies[c]);
            assert(assembled.frames[c].0.pages[s].page == page);
            assert(seal::stands(after, page, frame, s));
            assert(after.frames[assembled.frames[c].0.id] == placed[c]);
            assert(placed[c].frame == assembled.frames[c].0);
            frame::lemma_frame_small(frame);
            if turned_zero(harvest, page) {
                let k = choose|k: int|
                    0 <= k < harvest.changes.len() && (#[trigger] harvest.changes[k]).0 == page;
                assert(is_changed(view, packs, harvest.changes[k], harvest.contents));
            }
        } else {
            assert(has_change(harvest, page));
            let k = choose|k: int|
                0 <= k < harvest.changes.len() && (#[trigger] harvest.changes[k]).0 == page;
            assert(is_changed(view, packs, harvest.changes[k], harvest.contents));
            assert(list.contains(harvest.changes[k]));
            let i = choose|i: int| 0 <= i < list.len() && list[i] == harvest.changes[k];
            if seal::is_zero(harvest.contents[page]) {
                assert(dropped.contains(list[i].0));
            } else {
                let at = seal::lemma_built_version(list, harvest.contents, built, i);
                let x = m + at.0;
                assert(assembled.frames[x] == built[at.0]);
                assert(assembled.frames[x].0.pages[at.1].page == page);
                assert(seal::stands(after, page, assembled.frames[x].0, at.1));
                assert(after.frames[assembled.frames[x].0.id] == placed[x]);
                assert(placed[x].frame == assembled.frames[x].0);
                let version = version_at(view, page);
                crate::draft::lemma_named(
                    version.checksum,
                    frame::checksum_input(version.page, version.txid, harvest.contents[page]),
                );
            }
        }
    }
}

} // verus!
