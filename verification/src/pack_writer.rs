//! Writing packs: frames go into a new blob one after the other, and the pack's
//! identity follows from them.

use crate::adapter::{Event, ObjectKey, StorageBackend};
use crate::blob;
use crate::blob::{BlobWriter, IndexEntry, PackSpan};
use crate::builder::Durable;
use crate::bytes;
use crate::digest;
use crate::domain::{BackendId, BlobId, Count, FileOffset, PACK, PackId, StoredRange};
use crate::draft;
use crate::error::{StoreError, valued};
use crate::format::FRAME_HEADER_SIZE;
use crate::frame;
use crate::frame::{EncodedFrame, FrameMetadata, FrameModel};
use crate::order;
use crate::pack;
use crate::pack::{Identity, IdentityModel, PACK_HEADER_SIZE};
use crate::pin;
use crate::placement::{BlobExtent, PackRange, PlacementsModel};
use crate::relocate;
use crate::relocate::{install_pack_extent, set_cohort};
use crate::sorting;
use crate::state::{State, StateModel};
use crate::view::{FrameLocation, LocationModel, ViewMetadata, ViewModel};
use crate::wire::u32_bytes;
use vstd::prelude::*;

verus! {

/// The most bytes of metadata in one pack.
pub const MAX_PACK_METADATA: u64 = 16777216;

/// The frames of a pack with their payloads.
pub type Content = Seq<(FrameModel, Seq<u8>)>;

/// The identity of a pack of these frames.
pub open spec fn identity_of(content: Content) -> IdentityModel {
    pack::identity_from(content, 0, IdentityModel::first())
}

/// Where the payload of frame `i` starts.
pub open spec fn payload_at(content: Content, i: int) -> int {
    identity_of(content.take(i)).offset + 36 + content[i].0.record().len() + FRAME_HEADER_SIZE
}

/// The bytes of metadata, counted with what surrounds each.
pub open spec fn metadata_size(content: Content) -> int
    decreases content.len(),
{
    if content.len() == 0 {
        0
    } else {
        metadata_size(content.drop_last()) + content.last().0.record().len() + 64
    }
}

/// Where the frames stand once the pack has its identity.
pub open spec fn locations(pack: PackId, content: Content) -> Seq<LocationModel> {
    Seq::new(
        content.len(),
        |i: int|
            LocationModel {
                pack,
                payload: PackRange {
                    offset: Count { value: payload_at(content, i) as u64 },
                    length: Count { value: content[i].0.payload_bytes },
                },
                frame: content[i].0,
            },
    )
}

/// A view with the first `count` of some frames added.
pub open spec fn with_frames(view: ViewModel, list: Seq<LocationModel>, count: int) -> ViewModel
    decreases count,
{
    if count <= 0 {
        view
    } else {
        with_frame(with_frames(view, list, count - 1), list[count - 1])
    }
}

/// A view with a frame added.
pub open spec fn with_frame(view: ViewModel, location: LocationModel) -> ViewModel {
    ViewModel {
        pages: draft::placed(view.pages, location.frame, location.frame.pages.len() as int),
        frames: view.frames.insert(location.frame.id, location),
        ..view
    }
}

/// Why a view cannot take a frame.
pub open spec fn frame_check(view: ViewModel, frame: FrameModel) -> Result<(), StoreError> {
    if frame.shape.page_size != view.size.page_size {
        Err(StoreError::IdentityMismatch)
    } else if !view.admits(frame, frame.pages.len() as int) {
        Err(StoreError::Corrupt(0))
    } else {
        Ok(())
    }
}

/// The blob of one pack.
pub open spec fn pack_body(content: Content) -> Seq<u8> {
    blob::blob_header() + pack::pack_bytes(content)
}

/// The index of the blob of one pack.
pub open spec fn pack_entries(pack: PackId, content: Content) -> Seq<IndexEntry> {
    seq![
        IndexEntry { pack, offset: 32, length: pack::pack_bytes(content).len() as u64 },
    ]
}

/// What is installed for a pack.
pub open spec fn pack_blob(pack: PackId, content: Content) -> Seq<u8> {
    blob::blob_bytes(pack_body(content), pack_entries(pack, content))
}

/// A blob is named as that of this pack.
pub open spec fn blob_named(blob: BlobId, pack: PackId, content: Content) -> bool {
    digest::names(
        blob,
        blob::blob_input(
            blob::index_bytes(pack_entries(pack, content)),
            pack_blob(pack, content).len() as int,
        ),
    )
}

/// The place of a pack in its blob.
pub open spec fn pack_extent(blob: BlobId, pack: PackId, content: Content) -> BlobExtent {
    pack_entries(pack, content)[0].extent(blob, pack_blob(pack, content).len() as int)
}

/// A pack is named by its frames.
pub open spec fn pack_named(pack: PackId, content: Content) -> bool {
    digest::names(pack, identity_of(content).last())
}

/// The name of a pack of these frames.
pub open spec fn pack_name(content: Content) -> PackId {
    frame::id_of(digest::content_hash(identity_of(content).last()))
}

/// The state once a pack is placed, without a cohort.
pub open spec fn state_placed(state: StateModel, pack: PackId, extent: BlobExtent) -> Result<
    StateModel,
    StoreError,
> {
    match relocate::placed_entry(state, pack, extent) {
        Err(error) => Err(error),
        Ok(model) => {
            let noted = state.with_placement(model);
            match pin::entry_placement(noted.placements.entries, pack) {
                Err(error) => Err(error),
                Ok(found) => Ok(
                    noted.with_placement(PlacementsModel { cohort: bytes::zeros(32), ..found }),
                ),
            }
        },
    }
}

/// Every frame is sound and describes its payload.
pub open spec fn content_sound(content: Content) -> bool {
    pack::pack_bytes(content).len() <= u64::MAX && forall|i: int|
        0 <= i < content.len() ==> (#[trigger] content[i]).0.sound() && content[i].0.describes(
            content[i].1,
        )
}

/// The backend was handed the blob of a pack.
pub open spec fn pack_written(
    earlier: Seq<Event>,
    later: Seq<Event>,
    blob: BlobId,
    pack: PackId,
    content: Content,
    done: Result<(), StoreError>,
) -> bool {
    content_sound(content) && pack_named(pack, content) && blob_named(blob, pack, content)
        && match done {
        Ok(_) => later == earlier.push(
            Event::Install {
                key: ObjectKey::Blob(blob),
                bytes: pack_blob(pack, content),
                reply: Ok(()),
            },
        ),
        Err(StoreError::Backend(error)) => later == earlier.push(
            Event::Install {
                key: ObjectKey::Blob(blob),
                bytes: pack_blob(pack, content),
                reply: Err(error),
            },
        ),
        Err(_) => false,
    }
}

/// A pack of this content is refused: it would hold too much metadata, too many
/// frames or too many bytes.
pub open spec fn too_big(content: Content, error: StoreError) -> bool {
    ||| error == StoreError::Range && (metadata_size(content) > MAX_PACK_METADATA || content.len()
        > u64::MAX)
    ||| pack_body(content).len() > u64::MAX && (error matches StoreError::Backend(e) && e is Io)
}

/// The states differ in the placements alone.
pub open spec fn only_places(before: StateModel, after: StateModel) -> bool {
    after == (StateModel { placements: after.placements, ..before })
}

/// What finishing a pack came to where it succeeded.
pub open spec fn pack_finished(
    content: Content,
    pack: PackId,
    before: StateModel,
    after: StateModel,
    earlier: Seq<Event>,
    later: Seq<Event>,
    old_view: ViewModel,
    new_view: ViewModel,
) -> bool {
    &&& exists|blob: BlobId|
        #[trigger] pack_written(earlier, later, blob, pack, content, Ok(())) && state_placed(
            before,
            pack,
            pack_extent(blob, pack, content),
        ) == Ok::<StateModel, StoreError>(after)
    &&& new_view == with_frames(old_view, locations(pack, content), content.len() as int)
    &&& forall|i: int|
        0 <= i < content.len() ==> frame_check(old_view, (#[trigger] content[i]).0) is Ok
}

/// Why finishing a pack failed after its blob was installed.
pub open spec fn pack_refused(
    content: Content,
    pack: PackId,
    blob: BlobId,
    before: StateModel,
    view: ViewModel,
    error: StoreError,
) -> bool {
    ||| state_placed(before, pack, pack_extent(blob, pack, content)) == Err::<
        StateModel,
        StoreError,
    >(error)
    ||| exists|i: int|
        0 <= i < content.len() && frame_check(view, (#[trigger] content[i]).0) == Err::<
            (),
            StoreError,
        >(error)
}

/// What finishing a pack came to where it failed: the blob was not installed, or
/// the pack could not be placed, or the view does not take its frames.
pub open spec fn pack_failed(
    content: Content,
    before: StateModel,
    earlier: Seq<Event>,
    later: Seq<Event>,
    view: ViewModel,
    error: StoreError,
) -> bool {
    ||| content.len() == 0 && error == StoreError::Corrupt(PACK_HEADER_SIZE as u64) && later
        == earlier
    ||| error == StoreError::Range && later == earlier && exists|pack: PackId|
        (#[trigger] pack_blob(pack, content)).len() > u64::MAX
    ||| blob::broke_off(earlier, later, error)
    ||| exists|blob: BlobId, pack: PackId| #[trigger]
        pack_written(earlier, later, blob, pack, content, Err(error))
    ||| exists|blob: BlobId, pack: PackId|
        pack_written(earlier, later, blob, pack, content, Ok(())) && #[trigger] pack_refused(
            content,
            pack,
            blob,
            before,
            view,
            error,
        )
}

/// A pack under way.
pub struct PackWriter<B: StorageBackend> {
    builder: BlobWriter<B>,
    identity: Identity,
    offset: u64,
    metadata_bytes: u64,
    frames: Vec<(FileOffset, FrameMetadata)>,
    cohort: [u8; 32],
    content: Ghost<Content>,
}

proof fn lemma_records_push(content: Content, added: (FrameModel, Seq<u8>), i: int)
    requires
        0 <= i <= content.len(),
    ensures
        pack::records_bytes(content.push(added), i) == pack::records_bytes(content, i)
            + pack::frame_record(added.0, added.1),
    decreases content.len() - i,
{
    let longer = content.push(added);
    if i < content.len() {
        lemma_records_push(content, added, i + 1);
        assert(longer[i] == content[i]);
        assert(pack::records_bytes(longer, i) =~= pack::records_bytes(content, i)
            + pack::frame_record(added.0, added.1));
    } else {
        assert(longer[i] == added);
        assert(pack::records_bytes(longer, i + 1) =~= Seq::<u8>::empty());
        assert(pack::records_bytes(longer, i) =~= pack::records_bytes(content, i)
            + pack::frame_record(added.0, added.1));
    }
}

proof fn lemma_identity_push(
    content: Content,
    added: (FrameModel, Seq<u8>),
    i: int,
    state: IdentityModel,
)
    requires
        0 <= i <= content.len(),
    ensures
        pack::identity_from(content.push(added), i, state) == pack::identity_from(
            content,
            i,
            state,
        ).with(added.0),
    decreases content.len() - i,
{
    let longer = content.push(added);
    if i < content.len() {
        lemma_identity_push(content, added, i + 1, state.with(content[i].0));
        assert(longer[i] == content[i]);
    } else {
        assert(longer[i] == added);
        assert(pack::identity_from(longer, i + 1, state.with(added.0)) == state.with(added.0));
    }
}

proof fn lemma_payload_push(content: Content, added: (FrameModel, Seq<u8>), i: int)
    requires
        0 <= i <= content.len(),
    ensures
        i < content.len() ==> payload_at(content.push(added), i) == payload_at(content, i),
        i == content.len() ==> payload_at(content.push(added), i) == identity_of(content).offset
            + 36 + added.0.record().len() + FRAME_HEADER_SIZE,
{
    assert(content.push(added).take(i) =~= content.take(i));
    assert(content.take(content.len() as int) =~= content);
}

impl<B: StorageBackend> PackWriter<B> {
    /// The frames so far.
    pub closed spec fn content(&self) -> Content {
        self.content@
    }

    /// What was written are the frames so far.
    pub closed spec fn wf(&self) -> bool {
        let content = self.content@;
        &&& self.builder.wf()
        &&& self.builder.packs() == Map::<PackId, PackSpan>::empty()
        &&& self.builder.body() == pack_body(content)
        &&& self.identity@ == identity_of(content)
        &&& self.identity@.offset == self.offset
        &&& self.identity@.frames == content.len()
        &&& pack::pack_bytes(content).len() == self.offset
        &&& self.metadata_bytes == metadata_size(content)
        &&& self.cohort@ == bytes::zeros(32)
        &&& self.frames@.len() == content.len()
        &&& forall|i: int|
            0 <= i < content.len() ==> (#[trigger] self.frames@[i]).1@ == content[i].0
                && self.frames@[i].0.value == payload_at(content, i)
        &&& forall|i: int|
            0 <= i < content.len() ==> (#[trigger] content[i]).0.sound()
                && content[i].0.describes(content[i].1)
    }

    /// Begins a pack with its header.
    pub fn new(backend: &mut B) -> (writer: Result<Self, StoreError>)
        ensures
            final(backend).namespace() == old(backend).namespace(),
            match writer {
                Ok(w) => w.wf() && w.content() == Seq::<(FrameModel, Seq<u8>)>::empty() && final(
                    backend).history() == old(backend).history(),
                Err(e) => blob::broke_off(old(backend).history(), final(backend).history(), e),
            },
    {
        let mut builder: BlobWriter<B> = BlobWriter::new(backend)?;
        let header: Vec<u8> = pack::header();
        builder.write_all(backend, header.as_slice())?;
        let ghost none: Content = Seq::empty();
        let writer: PackWriter<B> = PackWriter {
            builder,
            identity: Identity::new(),
            offset: PACK_HEADER_SIZE as u64,
            metadata_bytes: 0,
            frames: Vec::new(),
            cohort: [0u8; 32],
            content: Ghost(none),
        };
        proof {
            assert(pack::records_bytes(none, 0) =~= Seq::<u8>::empty());
            assert(pack::pack_bytes(none) =~= header@);
            assert(writer.builder.body() =~= pack_body(none));
            assert(writer.cohort@ =~= bytes::zeros(32));
        }
        Ok(writer)
    }

    /// The length of the pack so far.
    pub fn length(&self) -> (length: u64)
        requires
            self.wf(),
        ensures
            length == pack::pack_bytes(self.content()).len(),
    {
        self.offset
    }

    /// The bytes of metadata so far.
    pub fn metadata_bytes(&self) -> (count: u64)
        requires
            self.wf(),
        ensures
            count == metadata_size(self.content()),
    {
        self.metadata_bytes
    }

    /// Whether there is no frame yet.
    pub fn is_empty(&self) -> (empty: bool)
        requires
            self.wf(),
        ensures
            empty == (self.content().len() == 0),
    {
        self.frames.len() == 0
    }

    /// Writes a frame behind the others. Too much metadata is refused; the
    /// backend may fail.
    pub fn append(&mut self, backend: &mut B, frame: EncodedFrame) -> (done: Result<(), StoreError>)
        requires
            old(self).wf(),
        ensures
            final(backend).namespace() == old(backend).namespace(),
            ({
                let longer = old(self).content().push((frame.about(), frame.stored()));
                match done {
                    Ok(_) => final(self).wf() && final(self).content() == longer && metadata_size(
                        longer,
                    ) <= MAX_PACK_METADATA && final(backend).history() == old(backend).history(),
                    Err(e) => {
                        ||| blob::broke_off(old(backend).history(), final(backend).history(), e)
                        ||| too_big(longer, e) && final(backend).history() == old(
                            backend).history()
                    },
                }
            }),
    {
        let ghost before = self.content@;
        let (metadata, payload) = frame.into_parts();
        let ghost added = (metadata@, payload@);
        let ghost longer = before.push(added);
        let size: usize = metadata.encoded_len();
        proof {
            crate::frame::lemma_frame_small(metadata@);
            assert(longer.drop_last() =~= before);
            lemma_records_push(before, added, 0);
            lemma_identity_push(before, added, 0, IdentityModel::first());
            pack::lemma_frame_record(metadata@, payload@);
            assert(pack::pack_bytes(longer) =~= pack::pack_bytes(before) + pack::frame_record(
                added.0,
                added.1,
            ));
            assert(pack_body(longer) =~= pack_body(before) + pack::frame_record(added.0, added.1));
        }
        let more: u64 = match self.metadata_bytes.checked_add(size as u64 + 64) {
            Some(more) => more,
            None => {
                return Err(StoreError::Range);
            },
        };
        if more > MAX_PACK_METADATA {
            return Err(StoreError::Range);
        }
        let encoded: Vec<u8> = metadata.encode();
        let mut lead: Vec<u8> = Vec::new();
        u32_bytes(&mut lead, encoded.len() as u32);
        self.builder.write_all(backend, lead.as_slice())?;
        self.builder.write_all(backend, metadata.id().bytes.as_slice())?;
        self.builder.write_all(backend, encoded.as_slice())?;
        let header: Vec<u8> = metadata.record_header().encode();
        self.builder.write_all(backend, header.as_slice())?;
        self.builder.write_all(backend, payload.as_slice())?;
        let end: u64 = self.builder.position();
        proof {
            assert(self.builder.body() =~= pack_body(before) + pack::frame_record(
                added.0,
                added.1,
            ));
            assert(end == pack_body(longer).len());
            assert(blob::blob_header().len() == 32);
        }
        let start: u64 = self.offset + 36 + encoded.len() as u64 + FRAME_HEADER_SIZE as u64;
        match self.identity.frame(&metadata) {
            Ok(unit) => {
                assert(unit == ());
            },
            Err(error) => {
                return Err(error);
            },
        }
        self.metadata_bytes = more;
        self.offset = start + payload.len() as u64;
        self.frames.push((Count { value: start }, metadata));
        self.content = Ghost(longer);
        proof {
            assert forall|i: int| 0 <= i < longer.len() implies (#[trigger] self.frames@[i]).1@
                == longer[i].0 && self.frames@[i].0.value == payload_at(longer, i) by {
                lemma_payload_push(before, added, i);
            }
        }
        Ok(())
    }
}

proof fn lemma_entries(pack: PackId, content: Content)
    ensures
        ({
            let spans = Map::<PackId, PackSpan>::empty().insert(
                pack,
                PackSpan { offset: 32, length: pack::pack_bytes(content).len() as u64 },
            );
            blob::span_entries(order::listing::<PackId, PackSpan>(spans)) == pack_entries(
                pack,
                content,
            )
        }),
{
    let span = PackSpan { offset: 32, length: pack::pack_bytes(content).len() as u64 };
    let none: Seq<(PackId, PackSpan)> = Seq::empty();
    assert(order::ascending::<PackId, PackSpan>(none));
    assert(order::mapped::<PackId, PackSpan>(none) =~= Map::<PackId, PackSpan>::empty());
    let place = order::lemma_listing_insert::<PackId, PackSpan>(none, pack, span);
    assert(none.insert(place, (pack, span)) =~= seq![(pack, span)]);
    assert(blob::span_entries(seq![(pack, span)]) =~= pack_entries(pack, content));
}

proof fn lemma_nothing_indexed()
    ensures
        blob::listing_len(Map::<PackId, PackSpan>::empty()) == 0,
{
    let none: Seq<(PackId, PackSpan)> = Seq::empty();
    assert(order::ascending::<PackId, PackSpan>(none));
    assert(order::mapped::<PackId, PackSpan>(none) =~= Map::<PackId, PackSpan>::empty());
    order::lemma_listing::<PackId, PackSpan>(none);
}

/// Adds frames to a view, in order, up to the first that it does not take.
fn add_frames(
    metadata: &mut ViewMetadata,
    pack: PackId,
    frames: &Vec<(FileOffset, FrameMetadata)>,
    content: Ghost<Content>,
) -> (done: Result<(), StoreError>)
    requires
        old(metadata).size.wf(),
        frames@.len() == content@.len(),
        forall|i: int|
            0 <= i < content@.len() ==> (#[trigger] frames@[i]).1@ == content@[i].0
                && frames@[i].0.value == payload_at(content@, i) && frames@[i].0.value
                + content@[i].0.payload_bytes <= u64::MAX,
    ensures
        final(metadata).size == old(metadata).size,
        match done {
            Ok(_) => final(metadata)@ == with_frames(
                old(metadata)@,
                locations(pack, content@),
                content@.len() as int,
            ) && forall|i: int|
                0 <= i < content@.len() ==> frame_check(old(metadata)@, (#[trigger] content@[i]).0) is Ok,
            Err(e) => exists|i: int|
                0 <= i < content@.len() && frame_check(old(metadata)@, (#[trigger] content@[i]).0)
                    == Err::<(), StoreError>(e),
        },
{
    let ghost list = locations(pack, content@);
    let mut i: usize = 0;
    while i < frames.len()
        invariant
            i <= frames@.len(),
            frames@.len() == content@.len(),
            list == locations(pack, content@),
            old(metadata).size.wf(),
            metadata.size == old(metadata).size,
            metadata.txid == old(metadata).txid,
            metadata@ == with_frames(old(metadata)@, list, i as int),
            forall|j: int|
                0 <= j < content@.len() ==> (#[trigger] frames@[j]).1@ == content@[j].0
                    && frames@[j].0.value == payload_at(content@, j) && frames@[j].0.value
                    + content@[j].0.payload_bytes <= u64::MAX,
            forall|j: int|
                0 <= j < i ==> frame_check(old(metadata)@, (#[trigger] content@[j]).0) is Ok,
        decreases frames.len() - i,
    {
        let about: FrameMetadata = frames[i].1.duplicate();
        let length = about.payload_bytes();
        assert(frames@[i as int].1@ == content@[i as int].0);
        let range: StoredRange = valued(StoredRange::new(frames[i].0, length))?;
        let payload: PackRange = PackRange::stored(range)?;
        let location: FrameLocation = FrameLocation::new(pack, payload, about);
        assert(location@ == list[i as int]);
        let ghost now = metadata@;
        match metadata.insert(location) {
            Ok(unit) => {
                assert(unit == ());
            },
            Err(error) => {
                proof {
                    let frame = content@[i as int].0;
                    if frame.shape.page_size == now.size.page_size {
                        let bad = choose|bad: int|
                            0 <= bad < frame.pages.len() && #[trigger] now.admits(frame, bad)
                                && !now.admits(frame, bad + 1);
                        assert(!now.admits(frame, frame.pages.len() as int)) by {
                            let k = choose|k: int|
                                0 <= k < bad + 1 && !((#[trigger] frame.pages[k]).page.value
                                    <= now.size.count() && frame.pages[k].txid.value
                                    <= now.txid.value);
                            assert(0 <= k < frame.pages.len());
                        }
                    }
                    assert(frame_check(old(metadata)@, frame) == frame_check(now, frame));
                }
                return Err(error);
            },
        }
        i += 1;
    }
    Ok(())
}

impl<B: StorageBackend> PackWriter<B> {
    /// Ends the pack: installs its blob, notes its place and adds its frames to
    /// the view.
    pub fn finish(self, backend: &mut B, state: &mut State, metadata: &mut ViewMetadata) -> (receipt:
        Result<Durable<PACK>, StoreError>)
        requires
            self.wf(),
            old(metadata).size.wf(),
        ensures
            final(backend).namespace() == old(backend).namespace(),
            final(metadata).size == old(metadata).size,
            only_places(old(state)@, final(state)@),
            match receipt {
                Ok(r) => r.at_home() == old(backend).namespace() && pack_finished(
                    self.content(),
                    r.of(),
                    old(state)@,
                    final(state)@,
                    old(backend).history(),
                    final(backend).history(),
                    old(metadata)@,
                    final(metadata)@,
                ),
                Err(e) => pack_failed(
                    self.content(),
                    old(state)@,
                    old(backend).history(),
                    final(backend).history(),
                    old(metadata)@,
                    e,
                ),
            },
    {
        let ghost content = self.content@;
        let home: BackendId = backend.identity();
        let pack: PackId = match self.identity.finish(self.offset) {
            Ok(pack) => pack,
            Err(error) => {
                proof {
                    assert(content =~= Seq::<(FrameModel, Seq<u8>)>::empty());
                }
                return Err(error);
            },
        };
        let mut builder: BlobWriter<B> = self.builder;
        let end: u64 = builder.position();
        proof {
            lemma_nothing_indexed();
            lemma_entries(pack, content);
        }
        match builder.complete_pack(pack, 32) {
            Ok(unit) => {
                assert(unit == ());
            },
            Err(error) => {
                assert(false);
                return Err(error);
            },
        }
        assert(end - 32 == pack::pack_bytes(content).len());
        let ghost entries = pack_entries(pack, content);
        let (blob, extents) = match builder.finish(backend) {
            Ok(done) => done,
            Err(error) => {
                proof {
                    assert(pack_blob(pack, content).len() > u64::MAX || error != StoreError::Range);
                    if error != StoreError::Range && !blob::broke_off(
                        old(backend).history(),
                        backend.history(),
                        error,
                    ) {
                        let blob = choose|blob: BlobId|
                            #[trigger] digest::names(
                                blob,
                                blob::blob_input(
                                    blob::index_bytes(entries),
                                    pack_blob(pack, content).len() as int,
                                ),
                            ) && backend.history() == old(backend).history().push(
                                Event::Install {
                                    key: ObjectKey::Blob(blob),
                                    bytes: pack_blob(pack, content),
                                    reply: Err(error->Backend_0),
                                },
                            );
                        assert(pack_written(
                            old(backend).history(),
                            backend.history(),
                            blob,
                            pack,
                            content,
                            Err(error),
                        ));
                    }
                }
                return Err(error);
            },
        };
        proof {
            assert(pack_written(
                old(backend).history(),
                backend.history(),
                blob,
                pack,
                content,
                Ok(()),
            ));
            assert(entries[0].pack == pack);
            assert(blob::entered(entries, pack));
            assert(extents@.dom().contains(pack));
            assert(extents@[entries[0].pack] == pack_extent(blob, pack, content));
        }
        let extent: BlobExtent = match extents.get(&pack) {
            Some(extent) => *extent,
            None => {
                assert(false);
                return Err(StoreError::Corrupt(0));
            },
        };
        let receipt: Durable<PACK> = match install_pack_extent(state, home, pack, extent) {
            Ok(receipt) => receipt,
            Err(error) => {
                assert(pack_refused(content, pack, blob, old(state)@, old(metadata)@, error));
                return Err(error);
            },
        };
        match set_cohort(state, pack, self.cohort) {
            Ok(unit) => {
                assert(unit == ());
            },
            Err(error) => {
                assert(pack_refused(content, pack, blob, old(state)@, old(metadata)@, error));
                return Err(error);
            },
        }
        proof {
            assert forall|i: int| 0 <= i < content.len() implies (#[trigger] self.frames@[i]).0.value
                + content[i].0.payload_bytes <= u64::MAX by {
                lemma_payload_within(content, i);
            }
        }
        match add_frames(metadata, pack, &self.frames, Ghost(content)) {
            Ok(unit) => {
                assert(unit == ());
            },
            Err(error) => {
                assert(pack_refused(content, pack, blob, old(state)@, old(metadata)@, error));
                return Err(error);
            },
        }
        Ok(receipt)
    }
}

proof fn lemma_payload_within(content: Content, i: int)
    requires
        0 <= i < content.len(),
    ensures
        payload_at(content, i) + content[i].0.payload_bytes == identity_of(
            content.take(i + 1),
        ).offset,
        identity_of(content.take(i + 1)).offset <= identity_of(content).offset,
    decreases content.len() - i,
{
    assert(content.take(i + 1) =~= content.take(i).push(content[i]));
    lemma_identity_push(content.take(i), content[i], 0, IdentityModel::first());
    if i + 1 < content.len() {
        lemma_payload_within(content, i + 1);
    } else {
        assert(content.take(i + 1) =~= content);
    }
}

/// The pack in an installed blob authenticates under its own name, where its
/// frames hold different pages and are named by their encodings.
pub proof fn law_written_pack_authenticates(content: Content, pack: PackId)
    requires
        content.len() > 0,
        pack::packable(content),
        pack::pack_bytes(content).len() <= usize::MAX,
        pack_named(pack, content),
    ensures
        pack::pack_parse(pack_body(content).skip(32)) matches Ok(input) && digest::names(pack, input),
{
    pack::law_pack_authenticates(content);
    assert(pack_body(content).skip(32) =~= pack::pack_bytes(content));
}

/// A blob that was installed for a pack authenticates, and finds the pack in its
/// place.
pub proof fn law_written_blob_authenticates(content: Content, pack: PackId, blob: BlobId)
    requires
        content.len() > 0,
        pack::packable(content),
        pack_blob(pack, content).len() <= usize::MAX,
        pack_named(pack, content),
        blob_named(blob, pack, content),
    ensures
        blob::blob_parse(blob, pack_blob(pack, content)) == Ok::<Seq<IndexEntry>, StoreError>(
            pack_entries(pack, content),
        ),
{
    let body = pack_body(content);
    let entries = pack_entries(pack, content);
    let whole = pack_blob(pack, content);
    law_written_pack_authenticates(content, pack);
    assert(body.take(32) =~= blob::blob_header());
    let extents = blob::extents_of(entries, blob, whole.len() as int);
    let order = seq![0usize];
    assert(sorting::covers(order, 1)) by {
        assert forall|p: int| 0 <= p < 1 implies order.contains(#[trigger] sorting::place(p)) by {
            assert(order[0] == sorting::place(p));
        }
    }
    sorting::lemma_order_unique(extents, order);
    assert(blob::chain_start(extents, order, 32, 0) == 32);
    assert(blob::chain_start(extents, order, 32, 1) == body.len());
    assert(whole.subrange(32, body.len() as int) =~= pack::pack_bytes(content));
    assert(body.skip(32) =~= pack::pack_bytes(content));
    assert(entries[0].offset + entries[0].length == body.len());
    assert(blob::entry_authentic(whole, entries[0]) is Ok);
    assert(blob::entry_check(whole, blob, body.len() as int, entries[0]) is Ok);
    blob::law_blob_authenticates(pack_body(content), entries, blob);
}

proof fn lemma_pack_length(content: Content)
    requires
        forall|i: int|
            0 <= i < content.len() ==> (#[trigger] content[i]).0.sound() && content[i].0.describes(
                content[i].1,
            ),
    ensures
        pack::pack_bytes(content).len() == identity_of(content).offset,
    decreases content.len(),
{
    if content.len() == 0 {
        assert(pack::records_bytes(content, 0) =~= Seq::<u8>::empty());
        assert(pack::pack_bytes(content) =~= pack::pack_header());
    } else {
        let less = content.drop_last();
        let last = content.last();
        assert forall|i: int| 0 <= i < less.len() implies (#[trigger] less[i]).0.sound()
            && less[i].0.describes(less[i].1) by {
            assert(content[i] == less[i]);
        }
        assert(content[content.len() - 1] == last);
        assert(less.push(last) =~= content);
        lemma_pack_length(less);
        lemma_records_push(less, last, 0);
        lemma_identity_push(less, last, 0, IdentityModel::first());
        pack::lemma_frame_record(last.0, last.1);
        assert(pack::pack_bytes(content) =~= pack::pack_bytes(less) + pack::frame_record(
            last.0,
            last.1,
        ));
    }
}

#[verifier::spinoff_prover]
#[verifier::rlimit(40)]
proof fn lemma_payload_found(content: Content, i: int)
    requires
        0 <= i < content.len(),
        forall|i: int|
            0 <= i < content.len() ==> (#[trigger] content[i]).0.sound() && content[i].0.describes(
                content[i].1,
            ),
    ensures
        FRAME_HEADER_SIZE <= payload_at(content, i),
        pack::pack_bytes(content).subrange(
            payload_at(content, i) - FRAME_HEADER_SIZE,
            payload_at(content, i),
        ) == content[i].0.header().record(),
        payload_at(content, i) + content[i].1.len() <= pack::pack_bytes(content).len(),
        pack::pack_bytes(content).subrange(
            payload_at(content, i),
            payload_at(content, i) + content[i].1.len(),
        ) == content[i].1,
    decreases content.len(),
{
    let less = content.drop_last();
    let last = content.last();
    assert forall|j: int| 0 <= j < less.len() implies (#[trigger] less[j]).0.sound()
        && less[j].0.describes(less[j].1) by {
        assert(content[j] == less[j]);
    }
    assert(content[content.len() - 1] == last);
    assert(less.push(last) =~= content);
    lemma_pack_length(less);
    lemma_records_push(less, last, 0);
    lemma_payload_push(less, last, i);
    pack::lemma_frame_record(last.0, last.1);
    let whole = pack::pack_bytes(content);
    let record = pack::frame_record(last.0, last.1);
    assert(whole =~= pack::pack_bytes(less) + record);
    if i < less.len() {
        lemma_payload_found(less, i);
        let at = payload_at(content, i);
        assert(whole.subrange(at, at + content[i].1.len()) =~= pack::pack_bytes(less).subrange(
            at,
            at + content[i].1.len(),
        ));
        assert(whole.subrange(at - FRAME_HEADER_SIZE, at) =~= pack::pack_bytes(less).subrange(
            at - FRAME_HEADER_SIZE,
            at,
        ));
    } else {
        let at = payload_at(content, i);
        let skip = record.len() - last.1.len();
        assert(at == pack::pack_bytes(less).len() + skip);
        assert(whole.subrange(at, at + last.1.len()) =~= last.1);
        last.0.header().lemma_record();
        assert(whole.subrange(at - FRAME_HEADER_SIZE, at) =~= last.0.header().record());
    }
}

/// The payload of a frame is found in the installed blob where the frame's
/// location says, with its header in front.
pub proof fn law_payload_found(pack: PackId, content: Content, i: int)
    requires
        content_sound(content),
        0 <= i < content.len(),
    ensures
        ({
            let range = locations(pack, content)[i].payload;
            &&& range.length.value == content[i].1.len()
            &&& pack_blob(pack, content).len() >= 32 + range.offset.value + range.length.value
            &&& pack_blob(pack, content).subrange(
                32 + range.offset.value,
                32 + range.offset.value + range.length.value,
            ) == content[i].1
            &&& range.offset.value >= FRAME_HEADER_SIZE
            &&& pack_blob(pack, content).subrange(
                32 + range.offset.value - FRAME_HEADER_SIZE,
                32 + range.offset.value,
            ) == content[i].0.header().record()
        }),
{
    lemma_payload_found(content, i);
    let range = locations(pack, content)[i].payload;
    let at = payload_at(content, i);
    let whole = pack_blob(pack, content);
    assert(range.offset.value == at);
    assert(whole.subrange(32 + at, 32 + at + content[i].1.len()) =~= pack::pack_bytes(
        content,
    ).subrange(at, at + content[i].1.len()));
    assert(whole.subrange(32 + at - FRAME_HEADER_SIZE, 32 + at) =~= pack::pack_bytes(
        content,
    ).subrange(at - FRAME_HEADER_SIZE, at));
}

} // verus!
