//! Views under way: frames go into packs, and the view follows what was written.

use crate::adapter;
use crate::adapter::{Event, ObjectKey, StorageBackend};
use crate::blob;
use crate::builder::Durable;
use crate::domain::{BackendId, BlobId, PACK, PackId, PageNumber};
use crate::draft;
use crate::error::StoreError;
use crate::frame::{EncodedFrame, FrameModel};
use crate::pack;
use crate::pack_writer;
use crate::pack_writer::{Content, PackWriter};
use crate::state::{State, StateModel};
use crate::view::{LocationModel, ViewMetadata, ViewModel};
use vstd::prelude::*;

verus! {

/// The bytes of metadata that end a pack.
pub const FULL_METADATA: u64 = 8388608;

/// A step that changes a view.
pub enum Edit {
    /// A frame was added.
    Place(LocationModel),
    /// A page was dropped.
    Drop(PageNumber),
}

/// A view after some steps.
pub open spec fn edited(view: ViewModel, edits: Seq<Edit>) -> ViewModel
    decreases edits.len(),
{
    if edits.len() == 0 {
        view
    } else {
        let before = edited(view, edits.drop_last());
        match edits.last() {
            Edit::Place(location) => pack_writer::with_frame(before, location),
            Edit::Drop(page) => ViewModel { pages: before.pages.remove(page), ..before },
        }
    }
}

/// The frames that were added, in order.
pub open spec fn placed_list(edits: Seq<Edit>) -> Seq<LocationModel>
    decreases edits.len(),
{
    if edits.len() == 0 {
        Seq::empty()
    } else {
        let before = placed_list(edits.drop_last());
        match edits.last() {
            Edit::Place(location) => before.push(location),
            Edit::Drop(_) => before,
        }
    }
}

/// The pages that were dropped, in order.
pub open spec fn dropped_list(edits: Seq<Edit>) -> Seq<PageNumber>
    decreases edits.len(),
{
    if edits.len() == 0 {
        Seq::empty()
    } else {
        let before = dropped_list(edits.drop_last());
        match edits.last() {
            Edit::Place(_) => before,
            Edit::Drop(page) => before.push(page),
        }
    }
}

/// The steps that add some frames.
pub open spec fn places(list: Seq<LocationModel>) -> Seq<Edit> {
    Seq::new(list.len(), |i: int| Edit::Place(list[i]))
}

pub proof fn lemma_places(view: ViewModel, edits: Seq<Edit>, list: Seq<LocationModel>)
    ensures
        edited(view, edits + places(list)) == pack_writer::with_frames(
            edited(view, edits),
            list,
            list.len() as int,
        ),
        placed_list(edits + places(list)) == placed_list(edits) + list,
        dropped_list(edits + places(list)) == dropped_list(edits),
    decreases list.len(),
{
    if list.len() == 0 {
        assert(edits + places(list) =~= edits);
        assert(placed_list(edits) + list =~= placed_list(edits));
    } else {
        let fewer = list.drop_last();
        let all = edits + places(list);
        lemma_places(view, edits, fewer);
        assert(all.drop_last() =~= edits + places(fewer));
        assert(all.last() == Edit::Place(list.last()));
        lemma_same_frames(edited(view, edits), list, fewer, fewer.len() as int);
        assert((placed_list(edits) + fewer).push(list.last()) =~= placed_list(edits) + list);
    }
}

proof fn lemma_same_frames(
    view: ViewModel,
    one: Seq<LocationModel>,
    other: Seq<LocationModel>,
    count: int,
)
    requires
        0 <= count <= one.len(),
        count <= other.len(),
        forall|i: int| 0 <= i < count ==> one[i] == other[i],
    ensures
        pack_writer::with_frames(view, one, count) == pack_writer::with_frames(view, other, count),
    decreases count,
{
    if count > 0 {
        lemma_same_frames(view, one, other, count - 1);
    }
}

/// A backend took in the blob of a pack, and a frame stands in that pack with its
/// payload.
pub open spec fn frame_in(
    event: Event,
    blob: BlobId,
    content: Content,
    i: int,
    location: LocationModel,
    payload: Seq<u8>,
) -> bool {
    &&& event == (Event::Install {
        key: ObjectKey::Blob(blob),
        bytes: pack_writer::pack_blob(location.pack, content),
        reply: Ok(()),
    })
    &&& pack_writer::content_sound(content)
    &&& pack_writer::pack_named(location.pack, content)
    &&& pack_writer::blob_named(blob, location.pack, content)
    &&& 0 <= i < content.len()
    &&& location == pack_writer::locations(location.pack, content)[i]
    &&& payload == content[i].1
}

/// Since `origin` a frame was installed with its payload.
pub open spec fn frame_durable(
    origin: int,
    history: Seq<Event>,
    location: LocationModel,
    payload: Seq<u8>,
) -> bool {
    exists|k: int, blob: BlobId, content: Content, i: int|
        origin <= k < history.len() && #[trigger] frame_in(
            history[k],
            blob,
            content,
            i,
            location,
            payload,
        )
}

proof fn lemma_durable_later(
    origin: int,
    history: Seq<Event>,
    later: Seq<Event>,
    location: LocationModel,
    payload: Seq<u8>,
)
    requires
        origin >= 0,
        frame_durable(origin, history, location, payload),
        adapter::extends(history, later),
    ensures
        frame_durable(origin, later, location, payload),
{
    let (k, blob, content, i) = choose|k: int, blob: BlobId, content: Content, i: int|
        origin <= k < history.len() && #[trigger] frame_in(
            history[k],
            blob,
            content,
            i,
            location,
            payload,
        );
    assert(frame_in(later[k], blob, content, i, location, payload));
}

/// Since `before` the backend was only asked, or took in objects.
pub open spec fn staged(before: Seq<Event>, after: Seq<Event>) -> bool {
    adapter::extends(before, after) && forall|i: int|
        before.len() <= i < after.len() ==> adapter::harmless(#[trigger] after[i])
            || after[i] is Install
}

/// The packs that receipts are for.
pub open spec fn receipted(receipts: Seq<Durable<PACK>>) -> Set<PackId> {
    Set::new(|pack: PackId| exists|i: int| 0 <= i < receipts.len() && (#[trigger] receipts[i]).of() == pack)
}

/// Frames stand where the list says, with their payloads, in packs among
/// `packs`.
#[verifier::opaque]
pub open spec fn settled(
    list: Seq<LocationModel>,
    frames: Content,
    packs: Set<PackId>,
    origin: int,
    history: Seq<Event>,
) -> bool {
    forall|i: int|
        0 <= i < list.len() ==> (#[trigger] list[i]).frame == frames[i].0 && frame_durable(
            origin,
            history,
            list[i],
            frames[i].1,
        ) && packs.contains(list[i].pack)
}

proof fn lemma_settled_more(
    list: Seq<LocationModel>,
    frames: Content,
    packs: Set<PackId>,
    origin: int,
    history: Seq<Event>,
    more: Content,
)
    requires
        settled(list, frames, packs, origin, history),
        list.len() <= frames.len() <= more.len(),
        more.take(frames.len() as int) == frames,
    ensures
        settled(list, more, packs, origin, history),
{
    reveal(settled);
    assert forall|i: int| 0 <= i < list.len() implies more[i] == frames[i] by {
        assert(more[i] == more.take(frames.len() as int)[i]);
    }
}

proof fn lemma_settled_pack(
    list: Seq<LocationModel>,
    frames: Content,
    receipts: Seq<Durable<PACK>>,
    receipt: Durable<PACK>,
    origin: int,
    earlier: Seq<Event>,
    later: Seq<Event>,
    blob: BlobId,
    content: Content,
)
    requires
        0 <= origin <= earlier.len(),
        settled(list, frames, receipted(receipts), origin, earlier),
        list.len() + content.len() == frames.len(),
        frames.skip(list.len() as int) == content,
        pack_writer::pack_written(earlier, later, blob, receipt.of(), content, Ok(())),
    ensures
        settled(
            list + pack_writer::locations(receipt.of(), content),
            frames,
            receipted(receipts.push(receipt)),
            origin,
            later,
        ),
{
    reveal(settled);
    let pack = receipt.of();
    let added = pack_writer::locations(pack, content);
    let all = list + added;
    let more = receipts.push(receipt);
    let k = earlier.len() as int;
    assert(adapter::extends(earlier, later));
    assert(more[receipts.len() as int].of() == pack);
    assert forall|i: int| 0 <= i < all.len() implies (#[trigger] all[i]).frame == frames[i].0
        && frame_durable(origin, later, all[i], frames[i].1) && receipted(more).contains(
        all[i].pack,
    ) by {
        if i < list.len() {
            assert(all[i] == list[i]);
            lemma_durable_later(origin, earlier, later, list[i], frames[i].1);
            let j = choose|j: int|
                0 <= j < receipts.len() && (#[trigger] receipts[j]).of() == list[i].pack;
            assert(more[j].of() == list[i].pack);
        } else {
            let j = i - list.len();
            assert(all[i] == added[j]);
            assert(frames[i] == frames.skip(list.len() as int)[j]);
            assert(frame_in(later[k], blob, content, j, added[j], frames[i].1));
        }
    }
}

/// The last call failed, and that is where the error comes from.
pub open spec fn failed_last(earlier: Seq<Event>, later: Seq<Event>, error: StoreError) -> bool {
    earlier.len() < later.len() && match later.last() {
        Event::Broken { reply: Some(e) } => error == StoreError::Backend(e),
        Event::Broken { reply: None } => error matches StoreError::Backend(e) && e is Io,
        Event::Install { key, bytes, reply: Err(e) } => error == StoreError::Backend(e),
        _ => false,
    }
}

/// The content of a pack is the last of some frames.
pub open spec fn ends_in(content: Content, frames: Content) -> bool {
    content.len() <= frames.len() && content == frames.skip(frames.len() - content.len())
}

/// A pack of this content cannot be made.
pub open spec fn unpackable(content: Content, error: StoreError) -> bool {
    ||| pack_writer::too_big(content, error)
    ||| content.len() == 0 && error == StoreError::Corrupt(crate::pack::PACK_HEADER_SIZE as u64)
    ||| error == StoreError::Range && exists|pack: PackId|
        (#[trigger] pack_writer::pack_blob(pack, content)).len() > u64::MAX
}

/// A pack was installed last, and could not be placed, or the view does not take
/// its frames.
pub open spec fn unplaced(
    earlier: Seq<Event>,
    later: Seq<Event>,
    content: Content,
    pack: PackId,
    blob: BlobId,
    state: StateModel,
    view: ViewModel,
    error: StoreError,
) -> bool {
    &&& earlier.len() < later.len()
    &&& pack_writer::pack_written(later.drop_last(), later, blob, pack, content, Ok(()))
    &&& pack_writer::pack_refused(content, pack, blob, state, view, error)
}

/// Why an assembly of these frames stops: the backend failed last, or the pack of
/// the last frames cannot be made or placed.
pub open spec fn stopped(
    error: StoreError,
    frames: Content,
    earlier: Seq<Event>,
    later: Seq<Event>,
) -> bool {
    ||| failed_last(earlier, later, error)
    ||| exists|content: Content| ends_in(content, frames) && #[trigger] unpackable(content, error)
    ||| exists|content: Content, pack: PackId, blob: BlobId, state: StateModel, view: ViewModel|
        ends_in(content, frames) && #[trigger] unplaced(
            earlier,
            later,
            content,
            pack,
            blob,
            state,
            view,
            error,
        )
}

/// An assembly that stops has stopped since any earlier call.
pub proof fn lemma_stopped_since(
    error: StoreError,
    frames: Content,
    first: Seq<Event>,
    earlier: Seq<Event>,
    later: Seq<Event>,
)
    requires
        stopped(error, frames, earlier, later),
        first.len() <= earlier.len(),
    ensures
        stopped(error, frames, first, later),
{
    if !failed_last(earlier, later, error) && !(exists|content: Content|
        ends_in(content, frames) && #[trigger] unpackable(content, error)) {
        let (content, pack, blob, state, view) = choose|
            content: Content,
            pack: PackId,
            blob: BlobId,
            state: StateModel,
            view: ViewModel,
        |
            ends_in(content, frames) && #[trigger] unplaced(
                earlier,
                later,
                content,
                pack,
                blob,
                state,
                view,
                error,
            );
        assert(unplaced(first, later, content, pack, blob, state, view, error));
    }
}

proof fn lemma_pack_stops(
    content: Content,
    frames: Content,
    state: StateModel,
    earlier: Seq<Event>,
    later: Seq<Event>,
    view: ViewModel,
    error: StoreError,
)
    requires
        pack_writer::pack_failed(content, state, earlier, later, view, error),
        ends_in(content, frames),
    ensures
        stopped(error, frames, earlier, later),
{
    if unpackable(content, error) || failed_last(earlier, later, error) {
    } else {
        if exists|blob: BlobId, pack: PackId| #[trigger]
            pack_writer::pack_written(earlier, later, blob, pack, content, Err(error)) {
            assert(false);
        }
        let (blob, pack) = choose|blob: BlobId, pack: PackId|
            pack_writer::pack_written(earlier, later, blob, pack, content, Ok(()))
                && #[trigger] pack_writer::pack_refused(content, pack, blob, state, view, error);
        assert(later.drop_last() =~= earlier);
        assert(unplaced(earlier, later, content, pack, blob, state, view, error));
    }
}

/// A pack of this content has reached the target length, or holds much metadata.
pub open spec fn is_full(content: Content, target: u64) -> bool {
    pack::pack_bytes(content).len() >= target || pack_writer::metadata_size(content)
        >= FULL_METADATA
}

/// How frames are cut into packs: those that are full, and what is left for the next
/// one. A pack ends with the frame that fills it.
pub open spec fn cut(frames: Content, target: u64) -> (Seq<Content>, Content)
    decreases frames.len(),
{
    if frames.len() == 0 {
        (Seq::empty(), Seq::empty())
    } else {
        let (packs, open) = cut(frames.drop_last(), target);
        let longer = open.push(frames.last());
        if is_full(longer, target) {
            (packs.push(longer), Seq::empty())
        } else {
            (packs, longer)
        }
    }
}

/// The packs of some frames, the last one though it may not be full.
pub open spec fn packs_of(frames: Content, target: u64) -> Seq<Content> {
    with_open(cut(frames, target).0, cut(frames, target).1)
}

/// Some packs, and one more unless it is empty.
pub open spec fn with_open(packs: Seq<Content>, open: Content) -> Seq<Content> {
    if open.len() == 0 {
        packs
    } else {
        packs.push(open)
    }
}

/// Where the frames of some packs stand.
pub open spec fn packs_locations(packs: Seq<Content>) -> Seq<LocationModel>
    decreases packs.len(),
{
    if packs.len() == 0 {
        Seq::empty()
    } else {
        packs_locations(packs.drop_last()) + pack_writer::locations(
            pack_writer::pack_name(packs.last()),
            packs.last(),
        )
    }
}

proof fn lemma_packs_push(packs: Seq<Content>, content: Content, pack: PackId)
    requires
        pack_writer::pack_named(pack, content),
    ensures
        packs_locations(packs.push(content)) == packs_locations(packs) + pack_writer::locations(
            pack,
            content,
        ),
{
    assert(packs.push(content).drop_last() =~= packs);
    draft::lemma_named(pack, pack_writer::identity_of(content).last());
}

/// A view under way: its packs so far, and the pack that is being written.
pub struct Assembly<B: StorageBackend> {
    writer: Option<PackWriter<B>>,
    metadata: ViewMetadata,
    receipts: Vec<Durable<PACK>>,
    edits: Ghost<Seq<Edit>>,
    frames: Ghost<Content>,
    packs: Ghost<Seq<Content>>,
}

/// What an assembly comes to.
#[verifier::ext_equal]
pub struct Assembled {
    pub edits: Seq<Edit>,
    pub frames: Content,
    pub packs: Set<PackId>,
}

impl Assembled {
    /// Every frame that was written stands in the view's steps, is durable, and
    /// its pack has a receipt.
    pub open spec fn complete(self, origin: int, history: Seq<Event>) -> bool {
        let list = placed_list(self.edits);
        &&& list.len() == self.frames.len()
        &&& settled(list, self.frames, self.packs, origin, history)
    }

    /// The frames stand in packs that were cut at a target length.
    pub open spec fn cut_at(self, target: u64) -> bool {
        placed_list(self.edits) == packs_locations(packs_of(self.frames, target))
    }
}

impl<B: StorageBackend> Assembly<B> {
    /// The steps so far.
    pub closed spec fn edits(&self) -> Seq<Edit> {
        self.edits@
    }

    /// The frames so far, those in the pack under way included.
    pub closed spec fn frames(&self) -> Content {
        self.frames@
    }

    /// Packs were cut at the target length so far: no full one is under way.
    pub closed spec fn standing(
        &self,
        start: ViewModel,
        home: BackendId,
        origin: int,
        history: Seq<Event>,
        target: u64,
    ) -> bool {
        self.under_way(start, home, origin, history) && cut(self.frames@, target) == (
            self.packs@,
            self.writer->Some_0.content(),
        )
    }

    /// As before the last pack ends, full or not.
    pub closed spec fn closing(
        &self,
        start: ViewModel,
        home: BackendId,
        origin: int,
        history: Seq<Event>,
        target: u64,
    ) -> bool {
        self.under_way(start, home, origin, history) && packs_of(self.frames@, target) == with_open(
            self.packs@,
            self.writer->Some_0.content(),
        )
    }

    /// Where no frame is left to write, the last pack can end.
    pub proof fn lemma_closing(
        &self,
        start: ViewModel,
        home: BackendId,
        origin: int,
        history: Seq<Event>,
        target: u64,
    )
        requires
            self.standing(start, home, origin, history, target),
        ensures
            self.closing(start, home, origin, history, target),
    {
    }

    /// The view follows the steps; the frames that are not in it yet are in the
    /// pack under way.
    closed spec fn under_way(
        &self,
        start: ViewModel,
        home: BackendId,
        origin: int,
        history: Seq<Event>,
    ) -> bool {
        let list = placed_list(self.edits@);
        &&& origin >= 0
        &&& start.size.wf()
        &&& self.metadata@ == edited(start, self.edits@)
        &&& self.metadata.size == start.size
        &&& self.writer matches Some(writer) && writer.wf() && list.len() + writer.content().len()
            == self.frames@.len() && self.frames@.skip(list.len() as int) == writer.content()
        &&& list == packs_locations(self.packs@)
        &&& settled(list, self.frames@, receipted(self.receipts@), origin, history)
        &&& forall|i: int|
            0 <= i < self.receipts@.len() ==> (#[trigger] self.receipts@[i]).at_home() == home
    }

    /// Begins to change a view.
    pub fn new(backend: &mut B, metadata: ViewMetadata, target: u64) -> (assembly: Result<
        Self,
        StoreError,
    >)
        requires
            metadata.size.wf(),
        ensures
            final(backend).namespace() == old(backend).namespace(),
            match assembly {
                Ok(a) => final(backend).history() == old(backend).history() && a.standing(
                    metadata@,
                    old(backend).namespace(),
                    old(backend).history().len() as int,
                    old(backend).history(),
                    target,
                ) && a.edits() == Seq::<Edit>::empty() && a.frames() == Seq::<
                    (FrameModel, Seq<u8>),
                >::empty(),
                Err(e) => blob::broke_off(old(backend).history(), final(backend).history(), e),
            },
    {
        let writer: PackWriter<B> = PackWriter::new(backend)?;
        let ghost none: Content = Seq::empty();
        proof {
            reveal(settled);
            assert(none.skip(0) =~= none);
        }
        Ok(
            Assembly {
                writer: Some(writer),
                metadata,
                receipts: Vec::new(),
                edits: Ghost(Seq::empty()),
                frames: Ghost(none),
                packs: Ghost(Seq::empty()),
            },
        )
    }

    /// Drops a page.
    pub fn drop_page(
        &mut self,
        page: PageNumber,
        start: Ghost<ViewModel>,
        home: Ghost<BackendId>,
        origin: Ghost<int>,
        history: Ghost<Seq<Event>>,
        target: Ghost<u64>,
    )
        requires
            old(self).standing(start@, home@, origin@, history@, target@),
        ensures
            final(self).standing(start@, home@, origin@, history@, target@),
            final(self).edits() == old(self).edits().push(Edit::Drop(page)),
            final(self).frames() == old(self).frames(),
    {
        let ghost before = self.edits@;
        self.metadata.remove(page);
        self.edits = Ghost(before.push(Edit::Drop(page)));
        assert(self.edits@.drop_last() =~= before);
    }

    /// Ends the pack under way. No pack is under way then.
    fn end_pack(
        &mut self,
        backend: &mut B,
        state: &mut State,
        start: Ghost<ViewModel>,
        origin: Ghost<int>,
    ) -> (done: Result<(), StoreError>)
        requires
            old(self).under_way(
                start@,
                old(backend).namespace(),
                origin@,
                old(backend).history(),
            ),
            origin@ <= old(backend).history().len(),
        ensures
            final(backend).namespace() == old(backend).namespace(),
            staged(old(backend).history(), final(backend).history()),
            pack_writer::only_places(old(state)@, final(state)@),
            match done {
                Ok(_) => final(self).ended(
                    start@,
                    old(backend).namespace(),
                    origin@,
                    final(backend).history(),
                ) && final(self).packs@ == old(self).packs@.push(
                    old(self).writer->Some_0.content(),
                ) && final(self).frames() == old(self).frames() && dropped_list(final(self).edits())
                    == dropped_list(old(self).edits()),
                Err(e) => stopped(
                    e,
                    old(self).frames(),
                    old(backend).history(),
                    final(backend).history(),
                ),
            },
    {
        let ghost before = self.edits@;
        let ghost list = placed_list(before);
        let ghost frames = self.frames@;
        let ghost view = self.metadata@;
        let writer: PackWriter<B> = match self.writer.take() {
            Some(writer) => writer,
            None => {
                assert(false);
                return Err(StoreError::Corrupt(0));
            },
        };
        let ghost content = writer.content();
        let done: Result<Durable<PACK>, StoreError> = writer.finish(
            backend,
            state,
            &mut self.metadata,
        );
        let receipt: Durable<PACK> = match done {
            Ok(receipt) => receipt,
            Err(error) => {
                proof {
                    assert(ends_in(content, frames));
                    lemma_pack_stops(
                        content,
                        frames,
                        old(state)@,
                        old(backend).history(),
                        backend.history(),
                        view,
                        error,
                    );
                }
                return Err(error);
            },
        };
        let ghost pack = receipt.of();
        let ghost added = pack_writer::locations(pack, content);
        let ghost old_receipts = self.receipts@;
        proof {
            assert(self.metadata@ == pack_writer::with_frames(view, added, content.len() as int));
        }
        self.receipts.push(receipt);
        self.edits = Ghost(before + places(added));
        let ghost ended = self.packs@;
        self.packs = Ghost(ended.push(content));
        proof {
            lemma_places(start@, before, added);
            let blob = choose|blob: BlobId|
                #[trigger] pack_writer::pack_written(
                    old(backend).history(),
                    backend.history(),
                    blob,
                    pack,
                    content,
                    Ok(()),
                );
            lemma_packs_push(ended, content, pack);
            lemma_settled_pack(
                list,
                frames,
                old_receipts,
                receipt,
                origin@,
                old(backend).history(),
                backend.history(),
                blob,
                content,
            );
        }
        Ok(())
    }

    /// As an assembly without a pack under way.
    closed spec fn ended(
        &self,
        start: ViewModel,
        home: BackendId,
        origin: int,
        history: Seq<Event>,
    ) -> bool {
        let list = placed_list(self.edits@);
        &&& origin >= 0
        &&& start.size.wf()
        &&& self.metadata@ == edited(start, self.edits@)
        &&& self.metadata.size == start.size
        &&& list.len() == self.frames@.len()
        &&& list == packs_locations(self.packs@)
        &&& settled(list, self.frames@, receipted(self.receipts@), origin, history)
        &&& forall|i: int|
            0 <= i < self.receipts@.len() ==> (#[trigger] self.receipts@[i]).at_home() == home
    }

    /// Writes a frame behind the others of the pack under way.
    fn append(
        &mut self,
        backend: &mut B,
        frame: EncodedFrame,
        start: Ghost<ViewModel>,
        origin: Ghost<int>,
    ) -> (done: Result<(), StoreError>)
        requires
            old(self).under_way(
                start@,
                old(backend).namespace(),
                origin@,
                old(backend).history(),
            ),
            origin@ <= old(backend).history().len(),
        ensures
            final(backend).namespace() == old(backend).namespace(),
            staged(old(backend).history(), final(backend).history()),
            match done {
                Ok(_) => final(self).under_way(
                    start@,
                    old(backend).namespace(),
                    origin@,
                    final(backend).history(),
                ) && final(self).writer->Some_0.content() == old(
                    self,
                ).writer->Some_0.content().push((frame.about(), frame.stored())) && final(
                    self).packs@ == old(self).packs@ && final(self).frames() == old(
                    self,
                ).frames().push((frame.about(), frame.stored())) && final(self).edits() == old(
                    self,
                ).edits() && final(backend).history() == old(backend).history(),
                Err(e) => stopped(
                    e,
                    old(self).frames().push((frame.about(), frame.stored())),
                    old(backend).history(),
                    final(backend).history(),
                ),
            },
    {
        let ghost list = placed_list(self.edits@);
        let ghost before = self.frames@;
        let mut writer: PackWriter<B> = match self.writer.take() {
            Some(writer) => writer,
            None => {
                assert(false);
                return Err(StoreError::Corrupt(0));
            },
        };
        let ghost content = writer.content();
        let ghost added = (frame.about(), frame.stored());
        match writer.append(backend, frame) {
            Ok(unit) => {
                assert(unit == ());
            },
            Err(error) => {
                proof {
                    let longer = content.push(added);
                    let all = before.push(added);
                    assert(all.skip(all.len() - longer.len()) =~= longer);
                    assert(ends_in(longer, all));
                    if pack_writer::too_big(longer, error) {
                        assert(unpackable(longer, error));
                    }
                }
                return Err(error);
            },
        }
        self.writer = Some(writer);
        self.frames = Ghost(before.push(added));
        proof {
            assert(before.push(added).skip(list.len() as int) =~= before.skip(
                list.len() as int,
            ).push(added));
            assert(before.push(added).take(before.len() as int) =~= before);
            lemma_settled_more(
                list,
                before,
                receipted(self.receipts@),
                origin@,
                old(backend).history(),
                before.push(added),
            );
        }
        Ok(())
    }

    /// Writes a frame, and ends the pack where it has reached the target or holds
    /// much metadata.
    pub fn add_frame(
        &mut self,
        backend: &mut B,
        state: &mut State,
        frame: EncodedFrame,
        target: u64,
        start: Ghost<ViewModel>,
        origin: Ghost<int>,
    ) -> (done: Result<(), StoreError>)
        requires
            old(self).standing(
                start@,
                old(backend).namespace(),
                origin@,
                old(backend).history(),
                target,
            ),
            origin@ <= old(backend).history().len(),
        ensures
            final(backend).namespace() == old(backend).namespace(),
            staged(old(backend).history(), final(backend).history()),
            pack_writer::only_places(old(state)@, final(state)@),
            match done {
                Ok(_) => final(self).standing(
                    start@,
                    old(backend).namespace(),
                    origin@,
                    final(backend).history(),
                    target,
                ) && final(self).frames() == old(self).frames().push(
                    (frame.about(), frame.stored()),
                ) && dropped_list(final(self).edits()) == dropped_list(old(self).edits()),
                Err(e) => stopped(
                    e,
                    old(self).frames().push((frame.about(), frame.stored())),
                    old(backend).history(),
                    final(backend).history(),
                ),
            },
    {
        let ghost before = self.frames@;
        match self.append(backend, frame, start, origin) {
            Ok(unit) => {
                assert(unit == ());
            },
            Err(error) => {
                return Err(error);
            },
        }
        assert(self.frames@.drop_last() =~= before);
        let full: bool = match &self.writer {
            Some(writer) => writer.length() >= target || writer.metadata_bytes() >= FULL_METADATA,
            None => false,
        };
        if full {
            match self.end_pack(backend, state, start, origin) {
                Ok(unit) => {
                    assert(unit == ());
                },
                Err(error) => {
                    return Err(error);
                },
            }
            let fresh: PackWriter<B> = PackWriter::new(backend)?;
            self.writer = Some(fresh);
            proof {
                let all = self.frames@;
                assert(all.skip(all.len() as int) =~= Seq::<(FrameModel, Seq<u8>)>::empty());
            }
        }
        Ok(())
    }

    /// Writes the last frame. Its pack ends with the assembly, full or not.
    pub fn add_last(
        &mut self,
        backend: &mut B,
        frame: EncodedFrame,
        target: Ghost<u64>,
        start: Ghost<ViewModel>,
        origin: Ghost<int>,
    ) -> (done: Result<(), StoreError>)
        requires
            old(self).standing(
                start@,
                old(backend).namespace(),
                origin@,
                old(backend).history(),
                target@,
            ),
            origin@ <= old(backend).history().len(),
        ensures
            final(backend).namespace() == old(backend).namespace(),
            staged(old(backend).history(), final(backend).history()),
            match done {
                Ok(_) => final(self).closing(
                    start@,
                    old(backend).namespace(),
                    origin@,
                    final(backend).history(),
                    target@,
                ) && final(self).frames() == old(self).frames().push(
                    (frame.about(), frame.stored()),
                ) && dropped_list(final(self).edits()) == dropped_list(old(self).edits()),
                Err(e) => stopped(
                    e,
                    old(self).frames().push((frame.about(), frame.stored())),
                    old(backend).history(),
                    final(backend).history(),
                ),
            },
    {
        let ghost before = self.frames@;
        match self.append(backend, frame, start, origin) {
            Ok(unit) => {
                assert(unit == ());
            },
            Err(error) => {
                return Err(error);
            },
        }
        assert(self.frames@.drop_last() =~= before);
        Ok(())
    }

    /// Ends the last pack, if it holds a frame. What comes out are the view and
    /// the receipts for its new packs.
    pub fn close(
        self,
        backend: &mut B,
        state: &mut State,
        start: Ghost<ViewModel>,
        origin: Ghost<int>,
        target: Ghost<u64>,
    ) -> (done: Result<(ViewMetadata, Vec<Durable<PACK>>, Ghost<Assembled>), StoreError>)
        requires
            self.closing(
                start@,
                old(backend).namespace(),
                origin@,
                old(backend).history(),
                target@,
            ),
            origin@ <= old(backend).history().len(),
        ensures
            final(backend).namespace() == old(backend).namespace(),
            staged(old(backend).history(), final(backend).history()),
            pack_writer::only_places(old(state)@, final(state)@),
            match done {
                Ok((metadata, receipts, assembled)) => {
                    &&& assembled@.complete(origin@, final(backend).history())
                    &&& assembled@.cut_at(target@)
                    &&& assembled@.frames == self.frames()
                    &&& dropped_list(assembled@.edits) == dropped_list(self.edits())
                    &&& assembled@.packs == receipted(receipts@)
                    &&& metadata@ == edited(start@, assembled@.edits)
                    &&& metadata.size == start@.size
                    &&& forall|i: int|
                        0 <= i < receipts@.len() ==> (#[trigger] receipts@[i]).at_home() == old(
                            backend,
                        ).namespace()
                },
                Err(e) => stopped(
                    e,
                    self.frames(),
                    old(backend).history(),
                    final(backend).history(),
                ),
            },
    {
        let mut this: Assembly<B> = self;
        let empty: bool = match &this.writer {
            Some(writer) => writer.is_empty(),
            None => true,
        };
        if !empty {
            match this.end_pack(backend, state, start, origin) {
                Ok(unit) => {
                    assert(unit == ());
                },
                Err(error) => {
                    return Err(error);
                },
            }
        }
        let ghost assembled = Assembled {
            edits: this.edits@,
            frames: this.frames@,
            packs: receipted(this.receipts@),
        };
        proof {
            assert(assembled.complete(origin@, backend.history()));
        }
        Ok((this.metadata, this.receipts, Ghost(assembled)))
    }
}

/// The payload of a durable frame is in a blob that the backend took in, where
/// the frame's location says.
pub proof fn law_durable_payload(
    origin: int,
    history: Seq<Event>,
    location: LocationModel,
    payload: Seq<u8>,
)
    requires
        frame_durable(origin, history, location, payload),
    ensures
        exists|k: int, blob: BlobId, bytes: Seq<u8>|
            origin <= k < history.len() && #[trigger] took_in(history[k], blob, bytes)
                && bytes.len() >= 32 + location.payload.offset.value
                + location.payload.length.value && bytes.subrange(
                32 + location.payload.offset.value,
                32 + location.payload.offset.value + location.payload.length.value,
            ) == payload,
{
    let (k, blob, content, i) = choose|k: int, blob: BlobId, content: Content, i: int|
        origin <= k < history.len() && #[trigger] frame_in(
            history[k],
            blob,
            content,
            i,
            location,
            payload,
        );
    pack_writer::law_payload_found(location.pack, content, i);
    assert(took_in(history[k], blob, pack_writer::pack_blob(location.pack, content)));
}

/// A backend took in a blob.
pub open spec fn took_in(event: Event, blob: BlobId, bytes: Seq<u8>) -> bool {
    event == (Event::Install { key: ObjectKey::Blob(blob), bytes, reply: Ok(()) })
}

} // verus!
