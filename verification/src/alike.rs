//! Equal images seal alike: a seal depends on the pages, the transactions that wrote
//! them and the layout, not on how the pages came about. And views with one hash read
//! alike, in whatever frames and packs their pages stand.

use crate::adapter::Event;
use crate::assembly;
use crate::assembly::{Assembled, Edit};
use crate::bytes;
use crate::cache;
use crate::digest;
use crate::domain::{
    BackendId, DictionaryId, HISTORY, ManifestId, PackId, PageChecksum, PageNumber, PageSize,
    RepresentationId, TransactionId, ViewHash,
};
use crate::draft;
use crate::frame;
use crate::frame::{FrameModel, PageVersion};
use crate::order;
use crate::pack;
use crate::pack::IdentityModel;
use crate::pack_writer;
use crate::pack_writer::Content;
use crate::pinned::PinModel;
use crate::placement;
use crate::placement::BlobExtent;
use crate::publication::BuilderModel;
use crate::retention;
use crate::retention::Retained;
use crate::seal;
use crate::seal::{LayoutPolicy, ManifestMode, PageChange, SealEndpoint, SealPlan};
use crate::segment;
use crate::segment::Header;
use crate::state::StateModel;
use crate::validation;
use crate::validation::ValidatedModel;
use crate::view;
use crate::view::{LocationModel, StoredPage, ViewModel};
use vstd::prelude::*;

verus! {

/// Bytes that agree on every slot of a frame are the same.
proof fn lemma_slots_agree(frame: FrameModel, a: Seq<u8>, b: Seq<u8>)
    requires
        frame.sound(),
        a.len() == frame.shape.size(),
        b.len() == frame.shape.size(),
        forall|k: int|
            0 <= k < frame.pages.len() ==> #[trigger] frame.slot(a, k) == frame.slot(b, k),
    ensures
        a == b,
{
    let unit = frame.shape.page_size.value as int;
    let count = frame.pages.len() as int;
    assert(frame.shape.size() == count * unit) by (nonlinear_arith)
        requires
            frame.shape.size() == frame.shape.page_size.value * frame.shape.pages,
            unit == frame.shape.page_size.value,
            count == frame.shape.pages,
    ;
    assert forall|x: int| 0 <= x < a.len() implies a[x] == b[x] by {
        let k = x / unit;
        assert(0 <= k < count && k * unit <= x < (k + 1) * unit) by (nonlinear_arith)
            requires
                0 <= x < count * unit,
                unit > 0,
                k == x / unit,
        ;
        assert((k + 1) * unit <= count * unit) by (nonlinear_arith)
            requires
                k + 1 <= count,
                unit > 0,
        ;
        let p = frame.slot(a, k);
        let q = frame.slot(b, k);
        assert(p == q);
        assert(p[x - k * unit] == a[x]);
        assert(q[x - k * unit] == b[x]);
    }
    assert(a =~= b);
}

/// A frame is determined by its pages.
proof fn lemma_same_frame(
    a: (FrameModel, Seq<u8>),
    b: (FrameModel, Seq<u8>),
    size: PageSize,
    known: Map<DictionaryId, Seq<u8>>,
    level: int,
    contents: Map<PageNumber, Seq<u8>>,
)
    requires
        seal::faithful(a, size, known, level, contents),
        seal::faithful(b, size, known, level, contents),
        a.0.pages == b.0.pages,
    ensures
        a == b,
{
    let x = frame::decoded_payload(a.0.encoding, a.1, known)->Some_0;
    let y = frame::decoded_payload(b.0.encoding, b.1, known)->Some_0;
    assert(a.0.shape == b.0.shape);
    assert forall|k: int| 0 <= k < a.0.pages.len() implies #[trigger] a.0.slot(x, k) == a.0.slot(
        y,
        k,
    ) by {
        assert(a.0.pages[k] == b.0.pages[k]);
        assert(b.0.slot(y, k) == contents[b.0.pages[k].page]);
    }
    lemma_slots_agree(a.0, x, y);
    draft::lemma_named(a.0.id, a.0.record());
    draft::lemma_named(b.0.id, b.0.record());
    assert(a.0.payload_hash == b.0.payload_hash);
    assert(a.0.record() == b.0.record());
}

proof fn lemma_versions_front(frames: Content)
    requires
        frames.len() > 0,
    ensures
        seal::frame_versions(frames) == frames[0].0.pages + seal::frame_versions(frames.skip(1)),
    decreases frames.len(),
{
    let less = frames.drop_last();
    if frames.len() == 1 {
        assert(less =~= Seq::<(FrameModel, Seq<u8>)>::empty());
        assert(frames.skip(1) =~= Seq::<(FrameModel, Seq<u8>)>::empty());
        assert(seal::frame_versions(less) =~= Seq::<PageVersion>::empty());
        assert(seal::frame_versions(frames.skip(1)) =~= Seq::<PageVersion>::empty());
        assert(seal::frame_versions(frames) =~= frames[0].0.pages + seal::frame_versions(
            frames.skip(1),
        ));
    } else {
        lemma_versions_front(less);
        assert(frames.skip(1).drop_last() =~= less.skip(1));
        assert(frames.skip(1).last() == frames.last());
        assert(seal::frame_versions(frames) =~= frames[0].0.pages + seal::frame_versions(
            frames.skip(1),
        ));
    }
}

proof fn lemma_first_length(a: Content, b: Content, size: PageSize, frame_bytes: int)
    requires
        size.value > 0,
        a.len() > 0,
        b.len() > 0,
        seal::grouped(a, size, frame_bytes),
        seal::grouped(b, size, frame_bytes),
        seal::frame_versions(a) == seal::frame_versions(b),
    ensures
        a[0].0.pages.len() == b[0].0.pages.len(),
{
    lemma_versions_front(a);
    lemma_versions_front(b);
    let n = a[0].0.pages.len() as int;
    let m = b[0].0.pages.len() as int;
    let unit = size.value as int;
    if n < m {
        if a.len() == 1 {
            assert(a.skip(1) =~= Seq::<(FrameModel, Seq<u8>)>::empty());
            assert(seal::frame_versions(a).len() == n);
            assert(false);
        }
        assert((n + 1) * unit <= m * unit) by (nonlinear_arith)
            requires
                n + 1 <= m,
                unit > 0,
        ;
        assert(false);
    }
    if m < n {
        if b.len() == 1 {
            assert(b.skip(1) =~= Seq::<(FrameModel, Seq<u8>)>::empty());
            assert(seal::frame_versions(b).len() == m);
            assert(false);
        }
        assert((m + 1) * unit <= n * unit) by (nonlinear_arith)
            requires
                m + 1 <= n,
                unit > 0,
        ;
        assert(false);
    }
}

/// Frames are determined by the pages that they hold, one after the other.
proof fn lemma_same_frames(
    a: Content,
    b: Content,
    size: PageSize,
    known: Map<DictionaryId, Seq<u8>>,
    level: int,
    contents: Map<PageNumber, Seq<u8>>,
    frame_bytes: int,
)
    requires
        seal::all_faithful(a, size, known, level, contents),
        seal::all_faithful(b, size, known, level, contents),
        seal::grouped(a, size, frame_bytes),
        seal::grouped(b, size, frame_bytes),
        seal::frame_versions(a) == seal::frame_versions(b),
    ensures
        a == b,
    decreases a.len(),
{
    if a.len() == 0 {
        if b.len() > 0 {
            lemma_versions_front(b);
            assert(seal::frame_versions(a).len() == 0);
            assert(seal::frame_versions(b).len() >= b[0].0.pages.len());
            assert(b[0].0.pages.len() > 0);
            assert(false);
        }
        assert(a =~= b);
    } else if b.len() == 0 {
        lemma_versions_front(a);
        assert(seal::frame_versions(b).len() == 0);
        assert(seal::frame_versions(a).len() >= a[0].0.pages.len());
        assert(a[0].0.pages.len() > 0);
        assert(false);
    } else {
        assert(seal::faithful(a[0], size, known, level, contents));
        assert(seal::faithful(b[0], size, known, level, contents));
        lemma_first_length(a, b, size, frame_bytes);
        lemma_versions_front(a);
        lemma_versions_front(b);
        let n = a[0].0.pages.len() as int;
        let whole = seal::frame_versions(a);
        let rest_a = seal::frame_versions(a.skip(1));
        let rest_b = seal::frame_versions(b.skip(1));
        assert(a[0].0.pages =~= whole.take(n));
        assert(b[0].0.pages =~= whole.take(n));
        assert(rest_a =~= whole.skip(n));
        assert(rest_b =~= whole.skip(n));
        lemma_same_frame(a[0], b[0], size, known, level, contents);
        lemma_rest(a, size, known, level, contents, frame_bytes);
        lemma_rest(b, size, known, level, contents, frame_bytes);
        lemma_same_frames(a.skip(1), b.skip(1), size, known, level, contents, frame_bytes);
        assert(a =~= seq![a[0]] + a.skip(1));
        assert(b =~= seq![b[0]] + b.skip(1));
    }
}

proof fn lemma_rest(
    frames: Content,
    size: PageSize,
    known: Map<DictionaryId, Seq<u8>>,
    level: int,
    contents: Map<PageNumber, Seq<u8>>,
    frame_bytes: int,
)
    requires
        frames.len() > 0,
        seal::all_faithful(frames, size, known, level, contents),
        seal::grouped(frames, size, frame_bytes),
    ensures
        seal::all_faithful(frames.skip(1), size, known, level, contents),
        seal::grouped(frames.skip(1), size, frame_bytes),
{
    let rest = frames.skip(1);
    assert forall|k: int| 0 <= k < rest.len() implies #[trigger] rest[k] == frames[k + 1] by {}
}

/// A frame does not hold a page.
spec fn without_page(location: LocationModel, page: PageNumber) -> bool {
    forall|s: int|
        0 <= s < location.frame.pages.len() ==> (#[trigger] location.frame.pages[s]).page != page
}

proof fn lemma_drop_before_place(
    pages: Map<PageNumber, StoredPage>,
    frame: FrameModel,
    count: int,
    page: PageNumber,
)
    requires
        0 <= count <= frame.pages.len(),
        forall|s: int| 0 <= s < frame.pages.len() ==> (#[trigger] frame.pages[s]).page != page,
    ensures
        draft::placed(pages.remove(page), frame, count) == draft::placed(
            pages,
            frame,
            count,
        ).remove(page),
    decreases count,
{
    if count > 0 {
        lemma_drop_before_place(pages, frame, count - 1, page);
        assert(frame.pages[count - 1].page != page);
        assert(draft::placed(pages.remove(page), frame, count) =~= draft::placed(
            pages,
            frame,
            count,
        ).remove(page));
    }
}

/// A view without a page.
spec fn dropped(view: ViewModel, page: PageNumber) -> ViewModel {
    ViewModel { pages: view.pages.remove(page), ..view }
}

proof fn lemma_drop_before_places(
    view: ViewModel,
    list: Seq<LocationModel>,
    count: int,
    page: PageNumber,
)
    requires
        0 <= count <= list.len(),
        forall|k: int| 0 <= k < list.len() ==> without_page(#[trigger] list[k], page),
    ensures
        pack_writer::with_frames(dropped(view, page), list, count) == dropped(
            pack_writer::with_frames(view, list, count),
            page,
        ),
    decreases count,
{
    if count > 0 {
        lemma_drop_before_places(view, list, count - 1, page);
        let location = list[count - 1];
        assert(without_page(location, page));
        let before = pack_writer::with_frames(view, list, count - 1);
        lemma_drop_before_place(
            before.pages,
            location.frame,
            location.frame.pages.len() as int,
            page,
        );
    }
}

/// A view with some pages dropped.
spec fn all_dropped(view: ViewModel, pages: Seq<PageNumber>) -> ViewModel
    decreases pages.len(),
{
    if pages.len() == 0 {
        view
    } else {
        dropped(all_dropped(view, pages.drop_last()), pages.last())
    }
}

proof fn lemma_more_frames(view: ViewModel, list: Seq<LocationModel>, added: LocationModel, count: int)
    requires
        0 <= count <= list.len(),
    ensures
        pack_writer::with_frames(view, list.push(added), count) == pack_writer::with_frames(
            view,
            list,
            count,
        ),
    decreases count,
{
    if count > 0 {
        lemma_more_frames(view, list, added, count - 1);
    }
}

/// Steps that add frames and steps that drop other pages do not mind their order.
proof fn lemma_drops_first(view: ViewModel, edits: Seq<Edit>)
    requires
        forall|k: int, q: int|
            0 <= k < assembly::placed_list(edits).len() && 0 <= q < assembly::dropped_list(
                edits,
            ).len() ==> without_page(
                #[trigger] assembly::placed_list(edits)[k],
                #[trigger] assembly::dropped_list(edits)[q],
            ),
    ensures
        assembly::edited(view, edits) == pack_writer::with_frames(
            all_dropped(view, assembly::dropped_list(edits)),
            assembly::placed_list(edits),
            assembly::placed_list(edits).len() as int,
        ),
    decreases edits.len(),
{
    let places = assembly::placed_list(edits);
    let drops = assembly::dropped_list(edits);
    if edits.len() > 0 {
        let less = edits.drop_last();
        let before = assembly::placed_list(less);
        let pages = assembly::dropped_list(less);
        match edits.last() {
            Edit::Place(location) => {
                assert(places == before.push(location));
                assert forall|k: int, q: int|
                    0 <= k < before.len() && 0 <= q < pages.len() implies without_page(
                    #[trigger] before[k],
                    #[trigger] pages[q],
                ) by {
                    assert(places[k] == before[k]);
                    assert(drops[q] == pages[q]);
                }
                lemma_drops_first(view, less);
                lemma_more_frames(all_dropped(view, drops), before, location, before.len() as int);
            },
            Edit::Drop(page) => {
                assert(drops == pages.push(page));
                assert forall|k: int, q: int|
                    0 <= k < before.len() && 0 <= q < pages.len() implies without_page(
                    #[trigger] before[k],
                    #[trigger] pages[q],
                ) by {
                    assert(places[k] == before[k]);
                    assert(drops[q] == pages[q]);
                }
                lemma_drops_first(view, less);
                assert forall|k: int| 0 <= k < before.len() implies without_page(
                    #[trigger] before[k],
                    page,
                ) by {
                    assert(places[k] == before[k]);
                    assert(drops[drops.len() - 1] == page);
                }
                assert(drops.drop_last() =~= pages);
                lemma_drop_before_places(
                    all_dropped(view, pages),
                    before,
                    before.len() as int,
                    page,
                );
            },
        }
    }
}

proof fn lemma_stored_not_zero(
    list: Seq<PageChange>,
    contents: Map<PageNumber, Seq<u8>>,
    count: int,
    q: int,
)
    requires
        0 <= count <= list.len(),
        0 <= q < seal::stored_versions(list, contents, count).len(),
    ensures
        !seal::is_zero(contents[seal::stored_versions(list, contents, count)[q].page]),
    decreases count,
{
    if count > 0 {
        let before = seal::stored_versions(list, contents, count - 1);
        if q < before.len() {
            lemma_stored_not_zero(list, contents, count - 1, q);
        }
    }
}

/// No page is dropped that a frame holds.
proof fn lemma_drops_apart(
    plan: SealPlan,
    endpoint: SealEndpoint,
    changes: Seq<PageChange>,
    contents: Map<PageNumber, Seq<u8>>,
    layout: LayoutPolicy,
    copies: Content,
    origin: int,
    later: Seq<Event>,
    assembled: Assembled,
    built: Content,
)
    requires
        seal::seal_assembled(
            plan,
            endpoint,
            changes,
            contents,
            layout,
            copies,
            origin,
            later,
            assembled,
            built,
        ),
        seal::copied_apart(seal::planned(changes, endpoint.size), copies),
    ensures
        forall|k: int, q: int|
            0 <= k < assembly::placed_list(assembled.edits).len() && 0 <= q
                < assembly::dropped_list(assembled.edits).len() ==> without_page(
                #[trigger] assembly::placed_list(assembled.edits)[k],
                #[trigger] assembly::dropped_list(assembled.edits)[q],
            ),
{
    let list = seal::planned(changes, endpoint.size);
    let places = assembly::placed_list(assembled.edits);
    let drops = assembly::dropped_list(assembled.edits);
    seal::lemma_zero_pages(list, contents, list.len() as int);
    assert forall|k: int, q: int| 0 <= k < places.len() && 0 <= q < drops.len() implies without_page(
        #[trigger] places[k],
        #[trigger] drops[q],
    ) by {
        assert(places[k].frame == assembled.frames[k].0) by {
            reveal(assembly::settled);
        }
        let i = choose|i: int|
            0 <= i < list.len() && (#[trigger] list[i]).0 == drops[q] && seal::is_zero(
                contents[list[i].0],
            );
        assert(seal::is_zero_page(list, contents, list.len() as int, drops[q]));
        assert forall|s: int| 0 <= s < places[k].frame.pages.len() implies (
        #[trigger] places[k].frame.pages[s]).page != drops[q] by {
            if k < copies.len() {
                assert(assembled.frames[k] == copies[k]);
                assert(!seal::holds_page(copies, list[i].0));
                assert(copies[k].0.pages[s] == places[k].frame.pages[s]);
            } else {
                let j = k - copies.len();
                assert(assembled.frames[k] == built[j]);
                seal::lemma_rank(built, j, s);
                lemma_stored_not_zero(
                    list,
                    contents,
                    list.len() as int,
                    seal::rank(built, j, s),
                );
            }
        }
    }
}

/// Two seals of the same pages, with the same frames copied, the same dictionaries
/// and the same layout, give the same frames, in the same packs, and the same view.
pub proof fn law_equal_images_assemble_alike(
    plan: SealPlan,
    endpoint: SealEndpoint,
    changes: Seq<PageChange>,
    contents: Map<PageNumber, Seq<u8>>,
    layout: LayoutPolicy,
    copies: Content,
    origin: int,
    later: Seq<Event>,
    assembled: Assembled,
    built: Content,
    other_origin: int,
    other_later: Seq<Event>,
    other_assembled: Assembled,
    other_built: Content,
)
    requires
        seal::seal_assembled(
            plan,
            endpoint,
            changes,
            contents,
            layout,
            copies,
            origin,
            later,
            assembled,
            built,
        ),
        seal::seal_assembled(
            plan,
            endpoint,
            changes,
            contents,
            layout,
            copies,
            other_origin,
            other_later,
            other_assembled,
            other_built,
        ),
        seal::copied_apart(seal::planned(changes, endpoint.size), copies),
    ensures
        built == other_built,
        assembly::placed_list(assembled.edits) == assembly::placed_list(other_assembled.edits),
        assembly::edited(plan.start, assembled.edits) == assembly::edited(
            plan.start,
            other_assembled.edits,
        ),
{
    lemma_same_frames(
        built,
        other_built,
        endpoint.size.page_size,
        plan.known,
        layout.level as int,
        contents,
        layout.frame_bytes as int,
    );
    lemma_drops_apart(
        plan,
        endpoint,
        changes,
        contents,
        layout,
        copies,
        origin,
        later,
        assembled,
        built,
    );
    lemma_drops_apart(
        plan,
        endpoint,
        changes,
        contents,
        layout,
        copies,
        other_origin,
        other_later,
        other_assembled,
        other_built,
    );
    lemma_drops_first(plan.start, assembled.edits);
    lemma_drops_first(plan.start, other_assembled.edits);
}

/// Equal images seal alike. Two seals onto the same source that succeed, at whatever
/// time and in whatever namespace, give the same view, and so the same history and
/// the same manifest, where their pages end up equal and were last written by the
/// same transactions.
pub proof fn law_equal_images_seal_alike(
    source: Option<PinModel>,
    endpoint: SealEndpoint,
    changes: Seq<PageChange>,
    contents: Map<PageNumber, Seq<u8>>,
    layout: LayoutPolicy,
    copies: Content,
    mode: ManifestMode,
    adopted: Option<Seq<u8>>,
    home: BackendId,
    placed: StateModel,
    after: StateModel,
    origin: int,
    middle: Seq<Event>,
    later: Seq<Event>,
    assembled: Assembled,
    built: Content,
    done: (ManifestId, ValidatedModel),
    other_home: BackendId,
    other_placed: StateModel,
    other_after: StateModel,
    other_origin: int,
    other_middle: Seq<Event>,
    other_later: Seq<Event>,
    other_assembled: Assembled,
    other_built: Content,
    other_done: (ManifestId, ValidatedModel),
)
    requires
        seal::seal_published(
            source,
            home,
            endpoint,
            changes,
            contents,
            layout,
            copies,
            mode,
            adopted,
            placed,
            after,
            origin,
            middle,
            later,
            assembled,
            built,
            Ok(done),
        ),
        seal::seal_published(
            source,
            other_home,
            endpoint,
            changes,
            contents,
            layout,
            copies,
            mode,
            adopted,
            other_placed,
            other_after,
            other_origin,
            other_middle,
            other_later,
            other_assembled,
            other_built,
            Ok(other_done),
        ),
        seal::copied_apart(seal::planned(changes, endpoint.size), copies),
    ensures
        ({
            let plan = seal::seal_plan(source, endpoint, adopted);
            seal::seal_view(plan, assembled.edits, source) == seal::seal_view(
                plan,
                other_assembled.edits,
                source,
            )
        }),
        done.0 == other_done.0,
{
    let plan = seal::seal_plan(source, endpoint, adopted);
    law_equal_images_assemble_alike(
        plan,
        endpoint,
        changes,
        contents,
        layout,
        copies,
        origin,
        middle,
        assembled,
        built,
        other_origin,
        other_middle,
        other_assembled,
        other_built,
    );
    let one = seal::seal_builder(home, plan, assembled, source, mode);
    let other = seal::seal_builder(other_home, plan, other_assembled, source, mode);
    lemma_plans_agree(one, other, placed.placements.entries, other_placed.placements.entries);
}

proof fn lemma_plans_agree(
    one: BuilderModel,
    other: BuilderModel,
    placements: Map<Seq<u8>, Seq<u8>>,
    other_placements: Map<Seq<u8>, Seq<u8>>,
)
    requires
        one.view == other.view,
        one.onto == other.onto,
        one.begin == other.begin,
        one.represented == other.represented,
        one.plan(placements) is Ok,
        other.plan(other_placements) is Ok,
    ensures
        one.plan(placements) == other.plan(other_placements),
{
    reveal(BuilderModel::plan);
}

/// No two of these inputs share a digest.
pub open spec fn told_apart(a: Seq<u8>, b: Seq<u8>) -> bool {
    digest::content_hash(a) == digest::content_hash(b) ==> a == b
}

/// The pages of a view can be listed, and each stands in a slot of its own version.
pub open spec fn listable(view: ViewModel) -> bool {
    &&& order::ascending::<PageNumber, StoredPage>(view.page_list())
    &&& order::mapped::<PageNumber, StoredPage>(view.page_list()) == view.pages
    &&& validation::pages_sound(view)
}

proof fn lemma_record_parts(version: PageVersion)
    ensures
        version.record().len() == 44,
        version.record().subrange(0, 4) == bytes::le(version.page.value as nat, 4),
        version.record().subrange(4, 12) == bytes::le(version.txid.value as nat, 8),
        version.record().subrange(12, 44) == version.checksum.bytes@,
{
    crate::bytes::lemma_le_len(version.page.value as nat, 4);
    crate::bytes::lemma_le_len(version.txid.value as nat, 8);
    let r = version.record();
    assert(r.subrange(0, 4) =~= bytes::le(version.page.value as nat, 4));
    assert(r.subrange(4, 12) =~= bytes::le(version.txid.value as nat, 8));
    assert(r.subrange(12, 44) =~= version.checksum.bytes@);
}

proof fn lemma_one_version(a: PageVersion, b: PageVersion)
    requires
        a.record() == b.record(),
    ensures
        a == b,
{
    lemma_record_parts(a);
    lemma_record_parts(b);
    crate::bytes::lemma_le_bounds();
    crate::bytes::law_le_round_trip(a.page.value as nat, 4);
    crate::bytes::law_le_round_trip(b.page.value as nat, 4);
    crate::bytes::law_le_round_trip(a.txid.value as nat, 8);
    crate::bytes::law_le_round_trip(b.txid.value as nat, 8);
    crate::domain::lemma_id_extensional(a.checksum, b.checksum);
}

proof fn lemma_records_length(view: ViewModel, list: Seq<(PageNumber, StoredPage)>, i: int)
    requires
        0 <= i <= list.len(),
    ensures
        view.version_records(list, i).len() == 44 * (list.len() - i),
    decreases list.len() - i,
{
    if i < list.len() {
        lemma_record_parts(view.version(list[i].1));
        lemma_records_length(view, list, i + 1);
    }
}

proof fn lemma_records_agree(
    a: ViewModel,
    b: ViewModel,
    one: Seq<(PageNumber, StoredPage)>,
    other: Seq<(PageNumber, StoredPage)>,
    i: int,
    k: int,
)
    requires
        0 <= i <= k < one.len(),
        i <= other.len(),
        a.version_records(one, i) == b.version_records(other, i),
    ensures
        one.len() == other.len(),
        a.version(one[k].1) == b.version(other[k].1),
    decreases k - i,
{
    lemma_records_length(a, one, i);
    lemma_records_length(b, other, i);
    let x = a.version(one[i].1).record();
    let y = b.version(other[i].1).record();
    lemma_record_parts(a.version(one[i].1));
    lemma_record_parts(b.version(other[i].1));
    let whole = a.version_records(one, i);
    assert(whole.take(44) =~= x);
    assert(whole.take(44) =~= y);
    assert(whole.skip(44) =~= a.version_records(one, i + 1));
    assert(whole.skip(44) =~= b.version_records(other, i + 1));
    if i == k {
        lemma_one_version(a.version(one[i].1), b.version(other[i].1));
    } else {
        lemma_records_agree(a, b, one, other, i + 1, k);
    }
}

proof fn lemma_listed_in_both(a: ViewModel, b: ViewModel, page: PageNumber)
    requires
        listable(a),
        listable(b),
        a.content_input() == b.content_input(),
        a.pages.dom().contains(page),
    ensures
        b.pages.dom().contains(page),
        a.version(a.pages[page]) == b.version(b.pages[page]),
{
    let one = a.page_list();
    let other = b.page_list();
    order::lemma_walk::<PageNumber, StoredPage>(one, a.pages);
    order::lemma_walk::<PageNumber, StoredPage>(other, b.pages);
    let k = choose|k: int| 0 <= k < one.len() && (#[trigger] one[k]).0 == page;
    lemma_records_agree(a, b, one, other, 0, k);
    assert(validation::page_sound(a, one[k].0, a.pages[one[k].0]));
    assert(b.pages.dom().contains(other[k].0));
    assert(validation::page_sound(b, other[k].0, b.pages[other[k].0]));
    assert(other[k].0 == page);
}

/// The hash of a view tells what it holds: views with one hash are of one database and
/// lineage, have the same size, history and parent, and the same pages in the same
/// versions, wherever these stand, unless two inputs share a digest.
pub proof fn law_one_hash_one_content(a: ViewModel, b: ViewModel, hash: ViewHash, page: PageNumber)
    requires
        listable(a),
        listable(b),
        validation::is_logical_hash(hash, a),
        validation::is_logical_hash(hash, b),
        told_apart(
            a.logical_input(digest::content_hash(a.content_input())),
            b.logical_input(digest::content_hash(b.content_input())),
        ),
        told_apart(a.content_input(), b.content_input()),
    ensures
        a.database == b.database,
        a.lineage == b.lineage,
        a.size == b.size,
        a.txid == b.txid,
        a.history == b.history,
        view::seal_bytes(a.parent_seal) == view::seal_bytes(b.parent_seal),
        a.pages.dom().contains(page) <==> b.pages.dom().contains(page),
        a.pages.dom().contains(page) ==> a.version(a.pages[page]) == b.version(b.pages[page]),
{
    let x = a.logical_input(digest::content_hash(a.content_input()));
    let y = b.logical_input(digest::content_hash(b.content_input()));
    assert(x == y);
    lemma_logical_parts(a);
    lemma_logical_parts(b);
    crate::bytes::lemma_le_bounds();
    crate::bytes::law_le_round_trip(a.size.page_size.value as nat, 4);
    crate::bytes::law_le_round_trip(b.size.page_size.value as nat, 4);
    crate::bytes::law_le_round_trip(a.size.bytes as nat, 8);
    crate::bytes::law_le_round_trip(b.size.bytes as nat, 8);
    crate::bytes::law_le_round_trip(a.txid.value as nat, 8);
    crate::bytes::law_le_round_trip(b.txid.value as nat, 8);
    crate::domain::lemma_id_extensional(a.history, b.history);
    crate::domain::lemma_id_extensional(a.database, b.database);
    crate::domain::lemma_id_extensional(a.lineage, b.lineage);
    assert(a.content_input() == b.content_input());
    if a.pages.dom().contains(page) {
        lemma_listed_in_both(a, b, page);
    }
    if b.pages.dom().contains(page) {
        lemma_listed_in_both(b, a, page);
    }
}

proof fn lemma_logical_parts(view: ViewModel)
    ensures
        ({
            let root = digest::content_hash(view.content_input());
            let input = view.logical_input(root);
            &&& input.len() == 203
            &&& input.subrange(23, 55) == view.database.bytes@
            &&& input.subrange(55, 87) == view.lineage.bytes@
            &&& input.subrange(139, 171) == view::seal_bytes(view.parent_seal)
            &&& input.subrange(87, 91) == bytes::le(view.size.page_size.value as nat, 4)
            &&& input.subrange(91, 99) == bytes::le(view.size.bytes as nat, 8)
            &&& input.subrange(99, 107) == bytes::le(view.txid.value as nat, 8)
            &&& input.subrange(107, 139) == view.history.bytes@
            &&& input.subrange(171, 203) == root
        }),
{
    crate::bytes::lemma_le_len(view.size.page_size.value as nat, 4);
    crate::bytes::lemma_le_len(view.size.bytes as nat, 8);
    crate::bytes::lemma_le_len(view.txid.value as nat, 8);
    let root = digest::content_hash(view.content_input());
    let input = view.logical_input(root);
    assert(input.subrange(23, 55) =~= view.database.bytes@);
    assert(input.subrange(55, 87) =~= view.lineage.bytes@);
    assert(input.subrange(139, 171) =~= view::seal_bytes(view.parent_seal));
    assert(input.subrange(87, 91) =~= bytes::le(view.size.page_size.value as nat, 4));
    assert(input.subrange(91, 99) =~= bytes::le(view.size.bytes as nat, 8));
    assert(input.subrange(99, 107) =~= bytes::le(view.txid.value as nat, 8));
    assert(input.subrange(107, 139) =~= view.history.bytes@);
    assert(input.subrange(171, 203) =~= root);
}

/// A retained view reads the same whenever it is opened, whatever was written,
/// compacted, rewritten or collected in between: two views that are opened for one
/// root, through whatever manifests, give the same bytes for a page, unless two
/// inputs share a digest.
pub proof fn law_retained_views_read_alike(
    root: Retained,
    a: PinModel,
    b: PinModel,
    page: PageNumber,
    x: Seq<u8>,
    y: Seq<u8>,
)
    requires
        retention::is_retained(a, root),
        retention::is_retained(b, root),
        listable(a.metadata.view),
        listable(b.metadata.view),
        slotted(a.metadata.view),
        slotted(b.metadata.view),
        cache::good(a.metadata.view, page, x),
        cache::good(b.metadata.view, page, y),
        told_apart(
            a.metadata.view.logical_input(digest::content_hash(a.metadata.view.content_input())),
            b.metadata.view.logical_input(digest::content_hash(b.metadata.view.content_input())),
        ),
        told_apart(a.metadata.view.content_input(), b.metadata.view.content_input()),
        a.metadata.view.pages.dom().contains(page) ==> ({
            let version = a.metadata.view.version(a.metadata.view.pages[page]);
            told_apart(
                frame::checksum_input(version.page, version.txid, x),
                frame::checksum_input(version.page, version.txid, y),
            )
        }),
    ensures
        x == y,
{
    let one = a.metadata.view;
    let other = b.metadata.view;
    law_one_hash_one_content(one, other, root.hash, page);
    if one.pages.dom().contains(page) {
        assert(validation::page_sound(one, page, one.pages[page]));
        assert(validation::page_sound(other, page, other.pages[page]));
        cache::law_reads_agree(one, page, x, x);
        cache::law_reads_agree(other, page, y, y);
        let version = one.version(one.pages[page]);
        let front = frame::checksum_input(version.page, version.txid, Seq::empty());
        let p = frame::checksum_input(version.page, version.txid, x);
        let q = frame::checksum_input(version.page, version.txid, y);
        assert(p =~= front + x);
        assert(q =~= front + y);
        assert(p.skip(front.len() as int) =~= x);
        assert(q.skip(front.len() as int) =~= y);
    }
}

/// The frames of a view are well formed.
pub open spec fn slotted(view: ViewModel) -> bool {
    forall|page: PageNumber| #[trigger]
        view.pages.dom().contains(page) ==> view.frames[view.pages[page].frame].frame.wf()
}

proof fn lemma_lineage_parts(view: ViewModel, root: Seq<u8>)
    requires
        root.len() == 32,
    ensures
        ({
            let input = view.lineage_input(root);
            &&& input.len() == 174
            &&& input.subrange(26, 58) == view.database.bytes@
            &&& input.subrange(58, 90) == view.lineage.bytes@
            &&& input.subrange(90, 98) == bytes::le(view.txid.value as nat, 8)
            &&& input.subrange(98, 102) == bytes::le(view.size.page_size.value as nat, 4)
            &&& input.subrange(102, 110) == bytes::le(view.size.bytes as nat, 8)
            &&& input.subrange(110, 142) == view::seal_bytes(view.parent_seal)
            &&& input.subrange(142, 174) == root
        }),
{
    crate::bytes::lemma_le_len(view.size.page_size.value as nat, 4);
    crate::bytes::lemma_le_len(view.size.bytes as nat, 8);
    crate::bytes::lemma_le_len(view.txid.value as nat, 8);
    let input = view.lineage_input(root);
    assert(input.subrange(26, 58) =~= view.database.bytes@);
    assert(input.subrange(58, 90) =~= view.lineage.bytes@);
    assert(input.subrange(90, 98) =~= bytes::le(view.txid.value as nat, 8));
    assert(input.subrange(98, 102) =~= bytes::le(view.size.page_size.value as nat, 4));
    assert(input.subrange(102, 110) =~= bytes::le(view.size.bytes as nat, 8));
    assert(input.subrange(110, 142) =~= view::seal_bytes(view.parent_seal));
    assert(input.subrange(142, 174) =~= root);
}

/// The inputs from which the histories of two views follow are told apart.
pub open spec fn sealed_apart(a: ViewModel, b: ViewModel) -> bool {
    &&& told_apart(a.content_input(), b.content_input())
    &&& told_apart(
        a.lineage_input(digest::content_hash(a.content_input())),
        b.lineage_input(digest::content_hash(b.content_input())),
    )
}

/// The history of a sealed view tells what was sealed, and onto what. Two views with
/// one history that were sealed anew are of the same database and lineage, end at
/// the same transaction with the same size, follow the same parent, and hold the
/// same pages, each by the same transaction with the same checksum, unless two
/// inputs share a digest. So diverged heads have different histories.
pub proof fn law_one_history_one_content(
    a: ViewModel,
    b: ViewModel,
    source: Option<ViewModel>,
    other: Option<ViewModel>,
    page: PageNumber,
)
    requires
        source matches Some(base) ==> a.txid.value > base.txid.value,
        other matches Some(base) ==> b.txid.value > base.txid.value,
        listable(a),
        listable(b),
        seal::sealed_onto(a, source).history == seal::sealed_onto(b, other).history,
        sealed_apart(seal::sealed_onto(a, source), seal::sealed_onto(b, other)),
    ensures
        a.database == b.database,
        a.lineage == b.lineage,
        a.txid == b.txid,
        a.size == b.size,
        source is Some && other is Some ==> source->Some_0.hash()
            == other->Some_0.hash(),
        a.pages.dom().contains(page) <==> b.pages.dom().contains(page),
        a.pages.dom().contains(page) ==> ({
            let one = a.version(a.pages[page]);
            let two = b.version(b.pages[page]);
            &&& one.page == two.page
            &&& one.txid == two.txid
            &&& one.checksum == two.checksum
        }),
{
    let x = seal::sealed_onto(a, source);
    let y = seal::sealed_onto(b, other);
    lemma_same_content(a, x);
    lemma_same_content(b, y);
    let bare = ViewModel { history: a.history, ..x };
    let plain = ViewModel { history: b.history, ..y };
    lemma_same_content(x, bare);
    lemma_same_content(y, plain);
    let p = x.lineage_input(digest::content_hash(x.content_input()));
    let q = y.lineage_input(digest::content_hash(y.content_input()));
    frame::lemma_id_bytes::<HISTORY>(digest::content_hash(p));
    frame::lemma_id_bytes::<HISTORY>(digest::content_hash(q));
    assert(x.history == frame::id_of::<HISTORY>(digest::content_hash(p)));
    assert(y.history == frame::id_of::<HISTORY>(digest::content_hash(q)));
    assert(p == q);
    lemma_lineage_parts(x, digest::content_hash(x.content_input()));
    lemma_lineage_parts(y, digest::content_hash(y.content_input()));
    crate::bytes::lemma_le_bounds();
    crate::bytes::law_le_round_trip(a.size.page_size.value as nat, 4);
    crate::bytes::law_le_round_trip(b.size.page_size.value as nat, 4);
    crate::bytes::law_le_round_trip(a.size.bytes as nat, 8);
    crate::bytes::law_le_round_trip(b.size.bytes as nat, 8);
    crate::bytes::law_le_round_trip(a.txid.value as nat, 8);
    crate::bytes::law_le_round_trip(b.txid.value as nat, 8);
    crate::domain::lemma_id_extensional(a.database, b.database);
    crate::domain::lemma_id_extensional(a.lineage, b.lineage);
    if source is Some && other is Some {
        crate::domain::lemma_id_extensional(source->Some_0.hash(), other->Some_0.hash());
    }
    assert(a.content_input() == b.content_input());
    if a.pages.dom().contains(page) {
        lemma_listed_in_both(a, b, page);
    }
    if b.pages.dom().contains(page) {
        lemma_listed_in_both(b, a, page);
    }
}

proof fn lemma_same_content(a: ViewModel, b: ViewModel)
    requires
        a.frames == b.frames,
        a.pages == b.pages,
    ensures
        a.content_input() == b.content_input(),
{
    view::lemma_versions_agree(a, b, a.page_list(), 0);
}

/// The checksum of a page tells its bytes, and that they are of that page by that
/// transaction, unless two inputs share a digest.
pub proof fn law_one_checksum_one_page(
    sum: PageChecksum,
    page: PageNumber,
    txid: TransactionId,
    bytes: Seq<u8>,
    other: PageNumber,
    later: TransactionId,
    others: Seq<u8>,
)
    requires
        digest::names(sum, frame::checksum_input(page, txid, bytes)),
        digest::names(sum, frame::checksum_input(other, later, others)),
        told_apart(
            frame::checksum_input(page, txid, bytes),
            frame::checksum_input(other, later, others),
        ),
    ensures
        page == other,
        txid == later,
        bytes == others,
{
    crate::bytes::lemma_le_len(page.value as nat, 4);
    crate::bytes::lemma_le_len(txid.value as nat, 8);
    crate::bytes::lemma_le_len(other.value as nat, 4);
    crate::bytes::lemma_le_len(later.value as nat, 8);
    let x = frame::checksum_input(page, txid, bytes);
    let y = frame::checksum_input(other, later, others);
    assert(x.subrange(15, 19) =~= crate::bytes::le(page.value as nat, 4));
    assert(y.subrange(15, 19) =~= crate::bytes::le(other.value as nat, 4));
    assert(x.subrange(19, 27) =~= crate::bytes::le(txid.value as nat, 8));
    assert(y.subrange(19, 27) =~= crate::bytes::le(later.value as nat, 8));
    assert(x.skip(27) =~= bytes);
    assert(y.skip(27) =~= others);
    crate::bytes::lemma_le_bounds();
    crate::bytes::law_le_round_trip(page.value as nat, 4);
    crate::bytes::law_le_round_trip(other.value as nat, 4);
    crate::bytes::law_le_round_trip(txid.value as nat, 8);
    crate::bytes::law_le_round_trip(later.value as nat, 8);
}

/// The name of a place of a pack tells the pack, the blob and the range in it, unless two
/// inputs share a digest.
pub proof fn law_one_name_one_place(
    id: RepresentationId,
    pack: PackId,
    extent: BlobExtent,
    other: PackId,
    else_where: BlobExtent,
)
    requires
        digest::names(id, placement::representation_input(pack, extent)),
        digest::names(id, placement::representation_input(other, else_where)),
        told_apart(
            placement::representation_input(pack, extent),
            placement::representation_input(other, else_where),
        ),
    ensures
        pack == other,
        extent.blob == else_where.blob,
        extent.offset == else_where.offset,
        extent.length == else_where.length,
{
    let x = placement::representation_input(pack, extent);
    let y = placement::representation_input(other, else_where);
    crate::bytes::lemma_le_len(extent.offset.value as nat, 8);
    crate::bytes::lemma_le_len(extent.length.value as nat, 8);
    crate::bytes::lemma_le_len(else_where.offset.value as nat, 8);
    crate::bytes::lemma_le_len(else_where.length.value as nat, 8);
    assert(x.subrange(25, 57) =~= pack.bytes@);
    assert(y.subrange(25, 57) =~= other.bytes@);
    assert(x.subrange(57, 89) =~= extent.blob.bytes@);
    assert(y.subrange(57, 89) =~= else_where.blob.bytes@);
    assert(x.subrange(89, 97) =~= crate::bytes::le(extent.offset.value as nat, 8));
    assert(y.subrange(89, 97) =~= crate::bytes::le(else_where.offset.value as nat, 8));
    assert(x.subrange(97, 105) =~= crate::bytes::le(extent.length.value as nat, 8));
    assert(y.subrange(97, 105) =~= crate::bytes::le(else_where.length.value as nat, 8));
    crate::bytes::lemma_le_bounds();
    crate::bytes::law_le_round_trip(extent.offset.value as nat, 8);
    crate::bytes::law_le_round_trip(else_where.offset.value as nat, 8);
    crate::bytes::law_le_round_trip(extent.length.value as nat, 8);
    crate::bytes::law_le_round_trip(else_where.length.value as nat, 8);
    crate::domain::lemma_id_extensional(pack, other);
    crate::domain::lemma_id_extensional(extent.blob, else_where.blob);
}

/// The name of a manifest tells its header and its footer, unless two inputs share a
/// digest.
pub proof fn law_one_name_one_manifest(
    id: ManifestId,
    header: Header,
    footer: Seq<u8>,
    other: Header,
    tail: Seq<u8>,
)
    requires
        header.wf(),
        other.wf(),
        digest::names(id, segment::segment_input(header, footer)),
        digest::names(id, segment::segment_input(other, tail)),
        told_apart(segment::segment_input(header, footer), segment::segment_input(other, tail)),
    ensures
        header == other,
        footer == tail,
{
    let x = segment::segment_input(header, footer);
    let y = segment::segment_input(other, tail);
    segment::law_header_round_trip(header);
    segment::law_header_round_trip(other);
    header.lemma_record();
    other.lemma_record();
    assert(x.take(128) =~= header.record());
    assert(y.take(128) =~= other.record());
    assert(x.skip(128) =~= footer);
    assert(y.skip(128) =~= tail);
}

proof fn lemma_identity_length(frames: Content, i: int, state: IdentityModel)
    requires
        0 <= i <= frames.len(),
    ensures
        pack::identity_from(frames, i, state).input.len() == state.input.len() + 48 * (frames.len()
            - i),
        pack::identity_from(frames, i, state).frames == state.frames + (frames.len() - i),
    decreases frames.len() - i,
{
    if i < frames.len() {
        crate::bytes::lemma_le_len(state.offset as nat, 8);
        crate::bytes::lemma_le_len(pack::record_size(frames[i].0) as nat, 8);
        lemma_identity_length(frames, i + 1, state.with(frames[i].0));
    }
}

proof fn lemma_identity_parts(frames: Content, i: int, state: IdentityModel, k: int)
    requires
        0 <= i <= k < frames.len(),
    ensures
        ({
            let input = pack::identity_from(frames, i, state).input;
            let at = state.input.len() + 48 * (k - i);
            at + 48 <= input.len() && input.subrange(at, at + 32) == frames[k].0.id.bytes@
        }),
        pack::identity_from(frames, i, state).input.take(state.input.len() as int) == state.input,
    decreases frames.len() - i,
{
    let next = state.with(frames[i].0);
    let whole = pack::identity_from(frames, i, state).input;
    crate::bytes::lemma_le_len(state.offset as nat, 8);
    crate::bytes::lemma_le_len(pack::record_size(frames[i].0) as nat, 8);
    lemma_identity_length(frames, i, state);
    if i + 1 < frames.len() {
        lemma_identity_parts(frames, i + 1, next, if k > i {
            k
        } else {
            i + 1
        });
    } else {
        assert(pack::identity_from(frames, i + 1, next) == next);
        assert(pack::identity_from(frames, i, state) == pack::identity_from(frames, i + 1, next));
        assert(next.input.take(next.input.len() as int) =~= next.input);
    }
    assert(whole.take(next.input.len() as int) == next.input);
    assert(whole.take(state.input.len() as int) =~= next.input.take(state.input.len() as int));
    assert(next.input.take(state.input.len() as int) =~= state.input);
    if k == i {
        let at = state.input.len() as int;
        assert(whole.subrange(at, at + 32) =~= next.input.subrange(at, at + 32));
        assert(next.input.subrange(at, at + 32) =~= frames[i].0.id.bytes@);
    }
}

/// The name of a pack tells its frames: packs with one name hold as many frames, each
/// under the same name in the same place, unless two inputs share a digest.
pub proof fn law_one_name_one_pack(pack: PackId, a: Content, b: Content, k: int)
    requires
        pack_writer::pack_named(pack, a),
        pack_writer::pack_named(pack, b),
        told_apart(
            pack_writer::identity_of(a).last(),
            pack_writer::identity_of(b).last(),
        ),
        0 <= k < a.len(),
    ensures
        a.len() == b.len(),
        a[k].0.id == b[k].0.id,
{
    let first = IdentityModel::first();
    let x = pack_writer::identity_of(a);
    let y = pack_writer::identity_of(b);
    lemma_identity_length(a, 0, first);
    lemma_identity_length(b, 0, first);
    crate::bytes::lemma_le_len(x.frames as nat, 8);
    crate::bytes::lemma_le_len(x.offset as nat, 8);
    crate::bytes::lemma_le_len(y.frames as nat, 8);
    crate::bytes::lemma_le_len(y.offset as nat, 8);
    assert(x.last() == y.last());
    assert(x.last().len() == first.input.len() + 48 * a.len() + 16);
    assert(y.last().len() == first.input.len() + 48 * b.len() + 16);
    assert(a.len() == b.len());
    let n = x.input.len() as int;
    assert(x.last().take(n) =~= x.input);
    assert(y.last().take(n) =~= y.input);
    lemma_identity_parts(a, 0, first, k);
    lemma_identity_parts(b, 0, first, k);
    crate::domain::lemma_id_extensional(a[k].0.id, b[k].0.id);
}

} // verus!
