//! Sealing: the changed pages of a database go into frames and packs, and a new
//! view is published that finds them there.

use crate::adapter;
use crate::adapter::{Event, StorageBackend};
use crate::assembly;
use crate::assembly::{Assembled, Assembly, Edit};
use crate::builder::Durable;
use crate::bytes::{all_zero, copied};
use crate::codec;
use crate::digest;
use crate::domain::{
    BackendId, CHECKSUM, DICTIONARY, DatabaseId, DictionaryId, FrameId, FrameShape, HistoryHash,
    LineageId, LogicalBytes, MAX_FRAME_BYTES, ManifestId, PACK, PackId, PageNumber, PageSize,
    TransactionId, ValueError, ViewHash,
};
use crate::draft;
use crate::error::StoreError;
use crate::frame;
use crate::frame::{Candidate, EncodedFrame, FrameEncoder, FrameModel, PageVersion};
use crate::objects::install_dictionary;
use crate::order;
use crate::order::{OrderedMap, OrderedSet};
use crate::pack;
use crate::pack_writer;
use crate::pack_writer::Content;
use crate::pinned::{PinModel, PinnedView};
use crate::publication;
use crate::publication::{BuilderModel, DurableView, ManifestBuilder};
use crate::samples;
use crate::samples::{Samples, SamplesModel};
use crate::sorting;
use crate::sorting::{Ranked, sorted_order};
use crate::state::{State, StateModel};
use crate::validation::ValidatedModel;
use crate::view::{LocationModel, StoredPage, ViewMetadata, ViewModel};
use vstd::prelude::*;

verus! {

/// Where a seal leads: the database and what it holds afterwards.
#[derive(Clone, Copy, Debug)]
pub struct SealEndpoint {
    pub database: DatabaseId,
    pub lineage: LineageId,
    pub size: LogicalBytes,
    pub txid: TransactionId,
    pub history: HistoryHash,
    /// The last page that unchanged pages are kept up to.
    pub truncate: Option<u32>,
}

/// Whether a manifest may be published as a run.
#[derive(Clone, Copy, Debug)]
pub enum ManifestMode {
    Incremental,
    Rollup,
}

/// How data is laid out.
#[derive(Clone, Copy, Debug)]
pub struct LayoutPolicy {
    /// The effort of the compressor.
    pub level: i32,
    /// The length that ends a pack.
    pub pack_target: u64,
    /// The most bytes of pages in one frame of several pages.
    pub frame_bytes: usize,
    /// The most bytes of pages that one maintenance step reads.
    pub maintenance_input: u64,
}

/// A page that changed, and the transaction that wrote it.
pub type PageChange = (PageNumber, TransactionId);

impl Ranked for (PageNumber, TransactionId) {
    open spec fn at_most(a: (PageNumber, TransactionId), b: (PageNumber, TransactionId)) -> bool {
        a.0.value <= b.0.value
    }

    proof fn lemma_total(a: (PageNumber, TransactionId), b: (PageNumber, TransactionId)) {
    }

    proof fn lemma_transitive(
        a: (PageNumber, TransactionId),
        b: (PageNumber, TransactionId),
        c: (PageNumber, TransactionId),
    ) {
    }

    fn not_above(&self, other: &(PageNumber, TransactionId)) -> bool {
        self.0.value <= other.0.value
    }
}

/// The first `count` changes, without those of pages above `last`.
pub open spec fn kept(changes: Seq<PageChange>, last: int, count: int) -> Seq<PageChange>
    decreases count,
{
    if count <= 0 {
        Seq::empty()
    } else if changes[count - 1].0.value <= last {
        kept(changes, last, count - 1).push(changes[count - 1])
    } else {
        kept(changes, last, count - 1)
    }
}

/// Changes by ascending pages; those of one page stay in their order.
pub open spec fn by_page(changes: Seq<PageChange>) -> Seq<PageChange> {
    let order = sorting::order_of(changes);
    Seq::new(changes.len(), |i: int| changes[order[i] as int])
}

/// The changes that a seal writes, in the order in which it does.
pub open spec fn planned(changes: Seq<PageChange>, size: LogicalBytes) -> Seq<PageChange> {
    by_page(kept(changes, size.count(), changes.len() as int))
}

/// A page can be read, and has the page size.
pub open spec fn readable(contents: Map<PageNumber, Seq<u8>>, size: PageSize, page: PageNumber) -> bool {
    contents.dom().contains(page) && contents[page].len() == size.value
}

/// Every byte is zero.
pub open spec fn is_zero(page: Seq<u8>) -> bool {
    forall|i: int| 0 <= i < page.len() ==> page[i] == 0
}

/// The version of a page with these bytes.
pub open spec fn version_of(change: PageChange, page: Seq<u8>) -> PageVersion {
    PageVersion {
        page: change.0,
        txid: change.1,
        checksum: frame::id_of(
            digest::content_hash(frame::checksum_input(change.0, change.1, page)),
        ),
    }
}

/// The versions of the pages among the first `count` that are not all zeros.
pub open spec fn stored_versions(
    list: Seq<PageChange>,
    contents: Map<PageNumber, Seq<u8>>,
    count: int,
) -> Seq<PageVersion>
    decreases count,
{
    if count <= 0 {
        Seq::empty()
    } else {
        let before = stored_versions(list, contents, count - 1);
        let change = list[count - 1];
        if is_zero(contents[change.0]) {
            before
        } else {
            before.push(version_of(change, contents[change.0]))
        }
    }
}

/// The pages among the first `count` that are all zeros.
pub open spec fn zero_pages(
    list: Seq<PageChange>,
    contents: Map<PageNumber, Seq<u8>>,
    count: int,
) -> Seq<PageNumber>
    decreases count,
{
    if count <= 0 {
        Seq::empty()
    } else {
        let before = zero_pages(list, contents, count - 1);
        let change = list[count - 1];
        if is_zero(contents[change.0]) {
            before.push(change.0)
        } else {
            before
        }
    }
}

/// The pages of some frames, one frame after the other.
pub open spec fn frame_versions(frames: Content) -> Seq<PageVersion>
    decreases frames.len(),
{
    if frames.len() == 0 {
        Seq::empty()
    } else {
        frame_versions(frames.drop_last()) + frames.last().0.pages
    }
}

/// A frame whose payload decodes to the pages that were sealed.
pub open spec fn faithful(
    frame: (FrameModel, Seq<u8>),
    size: PageSize,
    known: Map<DictionaryId, Seq<u8>>,
    level: int,
    contents: Map<PageNumber, Seq<u8>>,
) -> bool {
    &&& frame.0.sound()
    &&& frame.0.authentic()
    &&& frame.0.describes(frame.1)
    &&& frame.0.shape.page_size == size
    &&& frame::decoded_payload(frame.0.encoding, frame.1, known) matches Some(raw)
    &&& frame.0.verifies(raw)
    &&& (frame.0.encoding, frame.1) == frame::best_payload(
        raw,
        order::listing::<DictionaryId, Seq<u8>>(known),
        level,
    )
    &&& forall|k: int|
        0 <= k < frame.0.pages.len() ==> frame.0.slot(raw, k) == contents[(
        #[trigger] frame.0.pages[k]).page]
}

/// Frames are as wide as they may be: no frame of several pages exceeds the
/// bytes of the layout, and only the last could take another page.
pub open spec fn grouped(frames: Content, size: PageSize, frame_bytes: int) -> bool {
    forall|k: int|
        0 <= k < frames.len() ==> (#[trigger] frames[k]).0.pages.len() > 0 && (
        frames[k].0.pages.len() == 1 || frames[k].0.pages.len() * size.value <= frame_bytes) && (k
            < frames.len() - 1 ==> (frames[k].0.pages.len() + 1) * size.value > frame_bytes)
}

proof fn lemma_joined(pages: Seq<(PageVersion, Vec<u8>)>, unit: int, count: int, k: int)
    requires
        0 <= k < count <= pages.len(),
        unit > 0,
        forall|i: int| 0 <= i < pages.len() ==> (#[trigger] pages[i]).1@.len() == unit,
    ensures
        frame::joined_pages(pages, count).len() == count * unit,
        0 <= k * unit <= (k + 1) * unit <= count * unit,
        frame::joined_pages(pages, count).subrange(k * unit, (k + 1) * unit) == pages[k].1@,
    decreases count,
{
    let whole = frame::joined_pages(pages, count);
    assert(count * unit == (count - 1) * unit + unit) by (nonlinear_arith);
    assert(0 <= k * unit <= (k + 1) * unit <= count * unit) by (nonlinear_arith)
        requires
            0 <= k < count,
            unit > 0,
    ;
    if count == 1 {
        assert(frame::joined_pages(pages, 0) =~= Seq::<u8>::empty());
        assert(0 * unit == 0 && 1 * unit == unit) by (nonlinear_arith);
        assert(whole =~= pages[0].1@);
        assert(whole.subrange(k * unit, (k + 1) * unit) =~= pages[k].1@);
    } else if k == count - 1 {
        lemma_joined(pages, unit, count - 1, 0);
        assert((k + 1) * unit == k * unit + unit) by (nonlinear_arith);
        assert(whole.subrange(k * unit, (k + 1) * unit) =~= pages[k].1@);
    } else {
        lemma_joined(pages, unit, count - 1, k);
        assert(whole.subrange(k * unit, (k + 1) * unit) =~= frame::joined_pages(
            pages,
            count - 1,
        ).subrange(k * unit, (k + 1) * unit));
    }
}

/// The pages that wait for their frame are those whose versions they have.
pub open spec fn waiting(
    pages: Seq<(PageVersion, Vec<u8>)>,
    size: PageSize,
    contents: Map<PageNumber, Seq<u8>>,
) -> bool {
    forall|i: int|
        0 <= i < pages.len() ==> frame::admissible_page(size, #[trigger] pages[i])
            && contents.dom().contains(pages[i].0.page) && contents[pages[i].0.page] == pages[i].1@
}

/// The versions of the pages that wait.
pub open spec fn waiting_versions(pages: Seq<(PageVersion, Vec<u8>)>) -> Seq<PageVersion> {
    Seq::new(pages.len(), |i: int| pages[i].0)
}

proof fn lemma_faithful(
    encoder: FrameEncoder,
    pages: Seq<(PageVersion, Vec<u8>)>,
    size: PageSize,
    known: Map<DictionaryId, Seq<u8>>,
    level: int,
    contents: Map<PageNumber, Seq<u8>>,
    about: FrameModel,
    stored: Seq<u8>,
)
    requires
        size.wf(),
        pages.len() > 0,
        waiting(pages, size, contents),
        order::ascending::<DictionaryId, Seq<u8>>(encoder.known()),
        order::mapped::<DictionaryId, Seq<u8>>(encoder.known()) == known,
        about.sound() && about.authentic() && about.describes(stored),
        about.shape == (FrameShape { page_size: size, pages: pages.len() as u32 }),
        about.pages == waiting_versions(pages),
        about.verifies(frame::joined_pages(pages, pages.len() as int)),
        level == encoder.effort(),
        (about.encoding, stored) == frame::best_payload(
            frame::joined_pages(pages, pages.len() as int),
            encoder.known(),
            encoder.effort(),
        ),
        exists|c: Seq<Candidate>|
            #![trigger encoder.compressed(frame::joined_pages(pages, pages.len() as int), c)]
            encoder.compressed(frame::joined_pages(pages, pages.len() as int), c) && ({
                ||| about.encoding is Raw && stored == frame::joined_pages(
                    pages,
                    pages.len() as int,
                )
                ||| exists|i: int|
                    #[trigger] frame::cheapest(
                        c,
                        frame::joined_pages(pages, pages.len() as int).len() as int,
                        i,
                    ) && about.encoding == crate::domain::PayloadEncoding::Zstandard(
                        c[i].dictionary,
                    ) && stored == c[i].payload@
            }),
    ensures
        faithful((about, stored), size, known, level, contents),
{
    let raw = frame::joined_pages(pages, pages.len() as int);
    let c = choose|c: Seq<Candidate>|
        #![trigger encoder.compressed(raw, c)]
        encoder.compressed(raw, c) && ({
            ||| about.encoding is Raw && stored == raw
            ||| exists|i: int|
                #[trigger] frame::cheapest(c, raw.len() as int, i) && about.encoding
                    == crate::domain::PayloadEncoding::Zstandard(c[i].dictionary) && stored
                    == c[i].payload@
        });
    if !(about.encoding is Raw && stored == raw) {
        let i = choose|i: int|
            #[trigger] frame::cheapest(c, raw.len() as int, i) && about.encoding
                == crate::domain::PayloadEncoding::Zstandard(c[i].dictionary) && stored
                == c[i].payload@;
        if i > 0 {
            assert(c[i].dictionary == crate::domain::CompressionDictionary::Shared(
                encoder.known()[i - 1].0,
            ));
            order::lemma_mapped_at::<DictionaryId, Seq<u8>>(encoder.known(), i - 1);
        }
    }
    assert(frame::decoded_payload(about.encoding, stored, known) == Some(raw));
    order::lemma_walk::<DictionaryId, Seq<u8>>(encoder.known(), known);
    assert forall|k: int| 0 <= k < about.pages.len() implies about.slot(raw, k) == contents[(
    #[trigger] about.pages[k]).page] by {
        lemma_joined(pages, size.value as int, pages.len() as int, k);
        assert(frame::admissible_page(size, pages[k]));
    }
}

/// Frames cannot be made: the compressor failed on what it was handed, or the
/// layout allows frames that are too long.
pub open spec fn unframed(
    error: StoreError,
    contents: Map<PageNumber, Seq<u8>>,
    frame_bytes: int,
) -> bool {
    ||| error is Zstd && exists|page: PageNumber| #[trigger] contents.dom().contains(page)
    ||| (error == StoreError::Value(ValueError) || error == StoreError::Range) && frame_bytes
        > MAX_FRAME_BYTES
}

/// Why writing pages behind some frames stops: frames cannot be made, the backend
/// failed last, or the last pack cannot be made or placed.
pub open spec fn halted(
    error: StoreError,
    before: Content,
    size: PageSize,
    known: Map<DictionaryId, Seq<u8>>,
    level: int,
    contents: Map<PageNumber, Seq<u8>>,
    frame_bytes: int,
    earlier: Seq<Event>,
    later: Seq<Event>,
) -> bool {
    ||| unframed(error, contents, frame_bytes)
    ||| exists|built: Content|
        all_faithful(built, size, known, level, contents) && #[trigger] assembly::stopped(
            error,
            before + built,
            earlier,
            later,
        )
}

/// Encodes a frame of pages and writes it. After the last one no pack is begun.
fn add_group<B: StorageBackend>(
    assembly: &mut Assembly<B>,
    backend: &mut B,
    state: &mut State,
    encoder: &FrameEncoder,
    size: PageSize,
    pages: Vec<(PageVersion, Vec<u8>)>,
    layout: &LayoutPolicy,
    last: bool,
    known: Ghost<Map<DictionaryId, Seq<u8>>>,
    contents: Ghost<Map<PageNumber, Seq<u8>>>,
    start: Ghost<ViewModel>,
    origin: Ghost<int>,
) -> (done: Result<(), StoreError>)
    requires
        size.wf(),
        pages@.len() > 0,
        pages@.len() == 1 || pages@.len() * size.value <= layout.frame_bytes,
        waiting(pages@, size, contents@),
        order::ascending::<DictionaryId, Seq<u8>>(encoder.known()),
        order::mapped::<DictionaryId, Seq<u8>>(encoder.known()) == known@,
        encoder.effort() == layout.level,
        old(assembly).standing(
            start@,
            old(backend).namespace(),
            origin@,
            old(backend).history(),
            layout.pack_target,
        ),
        origin@ <= old(backend).history().len(),
    ensures
        final(backend).namespace() == old(backend).namespace(),
        assembly::staged(old(backend).history(), final(backend).history()),
        pack_writer::only_places(old(state)@, final(state)@),
        match done {
            Ok(_) => {
                let frames = final(assembly).frames();
                &&& if last {
                    final(assembly).closing(
                        start@,
                        old(backend).namespace(),
                        origin@,
                        final(backend).history(),
                        layout.pack_target,
                    )
                } else {
                    final(assembly).standing(
                        start@,
                        old(backend).namespace(),
                        origin@,
                        final(backend).history(),
                        layout.pack_target,
                    )
                }
                &&& assembly::dropped_list(final(assembly).edits()) == assembly::dropped_list(
                    old(assembly).edits(),
                )
                &&& frames == old(assembly).frames().push(frames.last())
                &&& faithful(frames.last(), size, known@, layout.level as int, contents@)
                &&& frames.last().0.pages == waiting_versions(pages@)
            },
            Err(e) => unframed(e, contents@, layout.frame_bytes as int) || exists|
                added: (FrameModel, Seq<u8>),
            |
                faithful(added, size, known@, layout.level as int, contents@) && #[trigger] assembly::stopped(
                    e,
                    old(assembly).frames().push(added),
                    old(backend).history(),
                    final(backend).history(),
                ),
        },
{
    let ghost list = pages@;
    proof {
        if pages@.len() == 1 {
            assert(FrameShape::valid(size, 1));
        } else if layout.frame_bytes <= MAX_FRAME_BYTES {
            let n = pages@.len() as int;
            let unit = size.value as int;
            assert(n <= n * unit && unit * n == n * unit) by (nonlinear_arith)
                requires
                    unit >= 1,
                    n >= 0,
            ;
            assert(FrameShape::valid(size, n as u32));
        }
    }
    let built: Result<EncodedFrame, StoreError> = encoder.build(size, pages);
    let frame: EncodedFrame = match built {
        Ok(frame) => frame,
        Err(error) => {
            proof {
                assert forall|i: int| 0 <= i < list.len() implies frame::admissible_page(
                    size,
                    #[trigger] list[i],
                ) by {}
                assert(contents@.dom().contains(list[0].0.page));
                assert(unframed(error, contents@, layout.frame_bytes as int));
            }
            return Err(error);
        },
    };
    proof {
        assert(frame.about().pages =~= waiting_versions(list));
        lemma_faithful(
            *encoder,
            list,
            size,
            known@,
            layout.level as int,
            contents@,
            frame.about(),
            frame.stored(),
        );
    }
    let done: Result<(), StoreError> = if last {
        assembly.add_last(backend, frame, Ghost(layout.pack_target), start, origin)
    } else {
        assembly.add_frame(backend, state, frame, layout.pack_target, start, origin)
    };
    match done {
        Ok(unit) => {
            assert(unit == ());
        },
        Err(error) => {
            assert(faithful((frame.about(), frame.stored()), size, known@, layout.level as int, contents@));
            return Err(error);
        },
    }
    Ok(())
}

/// Every frame of several pages keeps within the bytes of the layout, and none
/// could take another page.
spec fn full(frames: Content, size: PageSize, frame_bytes: int) -> bool {
    forall|k: int|
        0 <= k < frames.len() ==> (#[trigger] frames[k]).0.pages.len() > 0 && (
        frames[k].0.pages.len() == 1 || frames[k].0.pages.len() * size.value <= frame_bytes) && (
        frames[k].0.pages.len() + 1) * size.value > frame_bytes
}

/// Every frame decodes to the pages that were sealed.
pub open spec fn all_faithful(
    frames: Content,
    size: PageSize,
    known: Map<DictionaryId, Seq<u8>>,
    level: int,
    contents: Map<PageNumber, Seq<u8>>,
) -> bool {
    forall|k: int|
        0 <= k < frames.len() ==> faithful(#[trigger] frames[k], size, known, level, contents)
}

proof fn lemma_versions_push(frames: Content, added: (FrameModel, Seq<u8>))
    ensures
        frame_versions(frames.push(added)) == frame_versions(frames) + added.0.pages,
{
    assert(frames.push(added).drop_last() =~= frames);
}

/// What writing pages comes to, where it succeeds.
pub open spec fn pages_written(
    list: Seq<PageChange>,
    contents: Map<PageNumber, Seq<u8>>,
    size: PageSize,
    known: Map<DictionaryId, Seq<u8>>,
    level: int,
    frame_bytes: int,
    built: Content,
    dropped: Seq<PageNumber>,
) -> bool {
    &&& forall|i: int| 0 <= i < list.len() ==> readable(contents, size, (#[trigger] list[i]).0)
    &&& frame_versions(built) == stored_versions(list, contents, list.len() as int)
    &&& all_faithful(built, size, known, level, contents)
    &&& grouped(built, size, frame_bytes)
    &&& dropped == zero_pages(list, contents, list.len() as int)
}

proof fn lemma_group_halts(
    error: StoreError,
    base: Content,
    built: Content,
    size: PageSize,
    known: Map<DictionaryId, Seq<u8>>,
    level: int,
    contents: Map<PageNumber, Seq<u8>>,
    frame_bytes: int,
    earlier: Seq<Event>,
    middle: Seq<Event>,
    later: Seq<Event>,
)
    requires
        all_faithful(built, size, known, level, contents),
        earlier.len() <= middle.len(),
        unframed(error, contents, frame_bytes) || exists|added: (FrameModel, Seq<u8>)|
            faithful(added, size, known, level, contents) && #[trigger] assembly::stopped(
                error,
                (base + built).push(added),
                middle,
                later,
            ),
    ensures
        halted(error, base, size, known, level, contents, frame_bytes, earlier, later),
{
    if !unframed(error, contents, frame_bytes) {
        let added = choose|added: (FrameModel, Seq<u8>)|
            faithful(added, size, known, level, contents) && #[trigger] assembly::stopped(
                error,
                (base + built).push(added),
                middle,
                later,
            );
        let more = built.push(added);
        assert((base + built).push(added) =~= base + more);
        assert forall|k: int| 0 <= k < more.len() implies faithful(
            #[trigger] more[k],
            size,
            known,
            level,
            contents,
        ) by {
            if k < built.len() {
                assert(more[k] == built[k]);
            }
        }
        assembly::lemma_stopped_since(error, base + more, earlier, middle, later);
        assert(all_faithful(more, size, known, level, contents));
    }
}

proof fn lemma_halted_since(
    error: StoreError,
    before: Content,
    size: PageSize,
    known: Map<DictionaryId, Seq<u8>>,
    level: int,
    contents: Map<PageNumber, Seq<u8>>,
    frame_bytes: int,
    first: Seq<Event>,
    earlier: Seq<Event>,
    later: Seq<Event>,
)
    requires
        halted(error, before, size, known, level, contents, frame_bytes, earlier, later),
        first.len() <= earlier.len(),
    ensures
        halted(error, before, size, known, level, contents, frame_bytes, first, later),
{
    if !unframed(error, contents, frame_bytes) {
        let built = choose|built: Content|
            all_faithful(built, size, known, level, contents) && #[trigger] assembly::stopped(
                error,
                before + built,
                earlier,
                later,
            );
        assembly::lemma_stopped_since(error, before + built, first, earlier, later);
    }
}

/// Writes pages in frames, and drops those that are all zeros.
#[verifier::rlimit(60)]
fn write_pages<B: StorageBackend>(
    assembly: &mut Assembly<B>,
    backend: &mut B,
    state: &mut State,
    encoder: &FrameEncoder,
    size: PageSize,
    list: &Vec<PageChange>,
    contents: &OrderedMap<PageNumber, Vec<u8>>,
    layout: &LayoutPolicy,
    known: Ghost<Map<DictionaryId, Seq<u8>>>,
    start: Ghost<ViewModel>,
    origin: Ghost<int>,
) -> (done: Result<Ghost<Content>, StoreError>)
    requires
        size.wf(),
        order::ascending::<DictionaryId, Seq<u8>>(encoder.known()),
        order::mapped::<DictionaryId, Seq<u8>>(encoder.known()) == known@,
        encoder.effort() == layout.level,
        old(assembly).standing(
            start@,
            old(backend).namespace(),
            origin@,
            old(backend).history(),
            layout.pack_target,
        ),
        origin@ <= old(backend).history().len(),
        assembly::dropped_list(old(assembly).edits()) == Seq::<PageNumber>::empty(),
    ensures
        final(backend).namespace() == old(backend).namespace(),
        assembly::staged(old(backend).history(), final(backend).history()),
        pack_writer::only_places(old(state)@, final(state)@),
        match done {
            Ok(built) => {
                &&& final(assembly).closing(
                    start@,
                    old(backend).namespace(),
                    origin@,
                    final(backend).history(),
                    layout.pack_target,
                )
                &&& final(assembly).frames() == old(assembly).frames() + built@
                &&& pages_written(
                    list@,
                    contents@,
                    size,
                    known@,
                    layout.level as int,
                    layout.frame_bytes as int,
                    built@,
                    assembly::dropped_list(final(assembly).edits()),
                )
            },
            Err(e) => halted(
                e,
                old(assembly).frames(),
                size,
                known@,
                layout.level as int,
                contents@,
                layout.frame_bytes as int,
                old(backend).history(),
                final(backend).history(),
            ) || (e == StoreError::Range && exists|i: int|
                0 <= i < list@.len() && !readable(contents@, size, (#[trigger] list@[i]).0)),
        },
{
    let ghost base = assembly.frames();
    let ghost home = backend.namespace();
    let ghost cap = layout.frame_bytes as int;
    let ghost unit_int = size.value as int;
    let ghost earlier = backend.history();
    let ghost mut built: Content = Seq::empty();
    let unit: usize = size.value as usize;
    let width: usize = layout.frame_bytes / unit;
    let mut pages: Vec<(PageVersion, Vec<u8>)> = Vec::new();
    let mut i: usize = 0;
    proof {
        assert(base + built =~= base);
        assert(waiting_versions(pages@) =~= Seq::<PageVersion>::empty());
        assert(frame_versions(built) + waiting_versions(pages@) =~= stored_versions(
            list@,
            contents@,
            0,
        ));
    }
    while i < list.len()
        invariant
            i <= list@.len(),
            size.wf(),
            unit == size.value,
            unit_int == unit,
            cap == layout.frame_bytes,
            width == layout.frame_bytes / unit,
            home == old(backend).namespace(),
            backend.namespace() == home,
            earlier == old(backend).history(),
            origin@ <= earlier.len(),
            base == old(assembly).frames(),
            order::ascending::<DictionaryId, Seq<u8>>(encoder.known()),
            order::mapped::<DictionaryId, Seq<u8>>(encoder.known()) == known@,
            encoder.effort() == layout.level,
            assembly.standing(start@, home, origin@, backend.history(), layout.pack_target),
            assembly::staged(earlier, backend.history()),
            pack_writer::only_places(old(state)@, state@),
            assembly.frames() == base + built,
            frame_versions(built) + waiting_versions(pages@) == stored_versions(
                list@,
                contents@,
                i as int,
            ),
            all_faithful(built, size, known@, layout.level as int, contents@),
            full(built, size, cap),
            waiting(pages@, size, contents@),
            pages@.len() <= 1 || pages@.len() * unit_int <= cap,
            assembly::dropped_list(assembly.edits()) == zero_pages(list@, contents@, i as int),
            forall|j: int| 0 <= j < i ==> readable(contents@, size, (#[trigger] list@[j]).0),
        decreases list.len() - i,
    {
        let (page, txid) = list[i];
        let bytes: Vec<u8> = match contents.get(&page) {
            Some(bytes) => copied(bytes.as_slice()),
            None => {
                assert(!readable(contents@, size, list@[i as int].0));
                return Err(StoreError::Range);
            },
        };
        if bytes.len() != unit {
            assert(!readable(contents@, size, list@[i as int].0));
            return Err(StoreError::Range);
        }
        if all_zero(bytes.as_slice()) {
            assert(is_zero(contents@[page]));
            let ghost before = assembly.edits();
            assembly.drop_page(
                page,
                start,
                Ghost(home),
                origin,
                Ghost(backend.history()),
                Ghost(layout.pack_target),
            );
            assert(assembly.edits().drop_last() =~= before);
            i += 1;
            continue;
        }
        assert(!is_zero(contents@[page]));
        if pages.len() > 0 && pages.len() >= width {
            let group: Vec<(PageVersion, Vec<u8>)> = pages;
            pages = Vec::new();
            let ghost middle = backend.history();
            let ghost frames_before = assembly.frames();
            let done: Result<(), StoreError> = add_group(
                assembly,
                backend,
                state,
                encoder,
                size,
                group,
                layout,
                false,
                known,
                Ghost(contents@),
                start,
                origin,
            );
            match done {
                Ok(unit) => {
                    assert(unit == ());
                },
                Err(error) => {
                    proof {
                        lemma_group_halts(
                            error,
                            base,
                            built,
                            size,
                            known@,
                            layout.level as int,
                            contents@,
                            cap,
                            earlier,
                            middle,
                            backend.history(),
                        );
                    }
                    return Err(error);
                },
            }
            proof {
                let added = assembly.frames().last();
                lemma_versions_push(built, added);
                let n = group@.len() as int;
                assert((n + 1) * unit_int > cap) by (nonlinear_arith)
                    requires
                        n >= cap / unit_int,
                        unit_int > 0,
                ;
                assert((base + built).push(added) =~= base + built.push(added));
                assert(full(built.push(added), size, cap)) by {
                    assert forall|k: int| 0 <= k < built.push(added).len() implies (
                    #[trigger] built.push(added)[k]).0.pages.len() > 0 && (built.push(
                        added,
                    )[k].0.pages.len() == 1 || built.push(added)[k].0.pages.len() * size.value
                        <= cap) && (built.push(added)[k].0.pages.len() + 1) * size.value > cap by {
                        if k < built.len() {
                            assert(built.push(added)[k] == built[k]);
                        }
                    }
                }
                assert(all_faithful(built.push(added), size, known@, layout.level as int, contents@)) by {
                    assert forall|k: int| 0 <= k < built.push(added).len() implies faithful(
                        #[trigger] built.push(added)[k],
                        size,
                        known@,
                        layout.level as int,
                        contents@,
                    ) by {
                        if k < built.len() {
                            assert(built.push(added)[k] == built[k]);
                        }
                    }
                }
                built = built.push(added);
                assert(waiting_versions(pages@) =~= Seq::<PageVersion>::empty());
                assert(frame_versions(built) + waiting_versions(pages@) =~= frame_versions(built));
            }
        }
        let ghost held = pages@;
        let version: PageVersion = PageVersion::verified(page, txid, bytes.as_slice());
        proof {
            let n = pages@.len() as int;
            if n > 0 {
                assert((n + 1) * unit_int <= cap) by (nonlinear_arith)
                    requires
                        n < cap / unit_int,
                        unit_int > 0,
                ;
            }
            draft::lemma_named(
                version.checksum,
                frame::checksum_input(page, txid, bytes@),
            );
            assert(version == version_of(list@[i as int], contents@[page]));
        }
        pages.push((version, bytes));
        proof {
            assert(waiting_versions(pages@) =~= waiting_versions(held).push(version));
            assert(frame_versions(built) + waiting_versions(pages@) =~= (frame_versions(built)
                + waiting_versions(held)).push(version));
        }
        i += 1;
    }
    if pages.len() > 0 {
        let ghost group = pages@;
        let ghost middle = backend.history();
        let done: Result<(), StoreError> = add_group(
            assembly,
            backend,
            state,
            encoder,
            size,
            pages,
            layout,
            true,
            known,
            Ghost(contents@),
            start,
            origin,
        );
        match done {
            Ok(unit) => {
                assert(unit == ());
            },
            Err(error) => {
                proof {
                    lemma_group_halts(
                        error,
                        base,
                        built,
                        size,
                        known@,
                        layout.level as int,
                        contents@,
                        cap,
                        earlier,
                        middle,
                        backend.history(),
                    );
                }
                return Err(error);
            },
        }
        proof {
            let added = assembly.frames().last();
            lemma_versions_push(built, added);
            assert((base + built).push(added) =~= base + built.push(added));
            assert forall|k: int| 0 <= k < built.push(added).len() implies faithful(
                #[trigger] built.push(added)[k],
                size,
                known@,
                layout.level as int,
                contents@,
            ) by {
                if k < built.len() {
                    assert(built.push(added)[k] == built[k]);
                }
            }
            assert forall|k: int| 0 <= k < built.len() implies #[trigger] built.push(added)[k]
                == built[k] by {}
            built = built.push(added);
        }
    } else {
        proof {
            assembly.lemma_closing(
                start@,
                home,
                origin@,
                backend.history(),
                layout.pack_target,
            );
        }
        assert(waiting_versions(pages@) =~= Seq::<PageVersion>::empty());
        assert(frame_versions(built) + waiting_versions(pages@) =~= frame_versions(built));
    }
    Ok(Ghost(built))
}

/// Frames with their payloads.
pub open spec fn frames_of(frames: Seq<EncodedFrame>) -> Content {
    Seq::new(frames.len(), |i: int| (frames[i].about(), frames[i].stored()))
}

/// Writes frames as they are.
fn write_copies<B: StorageBackend>(
    assembly: &mut Assembly<B>,
    backend: &mut B,
    state: &mut State,
    frames: Vec<EncodedFrame>,
    target: u64,
    start: Ghost<ViewModel>,
    origin: Ghost<int>,
) -> (done: Result<(), StoreError>)
    requires
        old(assembly).standing(
            start@,
            old(backend).namespace(),
            origin@,
            old(backend).history(),
            target,
        ),
        origin@ <= old(backend).history().len(),
    ensures
        final(backend).namespace() == old(backend).namespace(),
        assembly::staged(old(backend).history(), final(backend).history()),
        pack_writer::only_places(old(state)@, final(state)@),
        match done {
            Ok(_) => final(assembly).standing(
                start@,
                old(backend).namespace(),
                origin@,
                final(backend).history(),
                target,
            ) && final(assembly).frames() == old(assembly).frames() + frames_of(frames@)
                && assembly::dropped_list(final(assembly).edits()) == assembly::dropped_list(
                old(assembly).edits(),
            ),
            Err(e) => exists|n: int|
                0 <= n <= frames@.len() && #[trigger] assembly::stopped(
                    e,
                    old(assembly).frames() + frames_of(frames@).take(n),
                    old(backend).history(),
                    final(backend).history(),
                ),
        },
{
    let ghost all = frames@;
    let ghost base = assembly.frames();
    let ghost earlier = backend.history();
    let ghost home = backend.namespace();
    let mut rest: Vec<EncodedFrame> = frames;
    let ghost mut count: int = 0;
    assert(all.skip(0) =~= all);
    assert(base + frames_of(all).take(0) =~= base);
    while rest.len() > 0
        invariant
            0 <= count <= all.len(),
            all == frames@,
            rest@ == all.skip(count),
            home == old(backend).namespace(),
            backend.namespace() == home,
            earlier == old(backend).history(),
            base == old(assembly).frames(),
            origin@ <= earlier.len(),
            assembly.standing(start@, home, origin@, backend.history(), target),
            assembly::staged(earlier, backend.history()),
            pack_writer::only_places(old(state)@, state@),
            assembly.frames() == base + frames_of(all).take(count),
            assembly::dropped_list(assembly.edits()) == assembly::dropped_list(
                old(assembly).edits(),
            ),
        decreases rest.len(),
    {
        let ghost known = backend.history();
        let frame: EncodedFrame = rest.remove(0);
        proof {
            assert(frame == all[count]);
            assert(rest@ =~= all.skip(count + 1));
            assert(frames_of(all).take(count + 1) =~= frames_of(all).take(count).push(
                (frame.about(), frame.stored()),
            ));
            assert(base + frames_of(all).take(count + 1) =~= (base + frames_of(all).take(
                count,
            )).push((frame.about(), frame.stored())));
        }
        let done: Result<(), StoreError> = assembly.add_frame(
            backend,
            state,
            frame,
            target,
            start,
            origin,
        );
        match done {
            Ok(unit) => {
                assert(unit == ());
            },
            Err(error) => {
                proof {
                    assembly::lemma_stopped_since(
                        error,
                        base + frames_of(all).take(count + 1),
                        earlier,
                        known,
                        backend.history(),
                    );
                    let n = count + 1;
                    assert(0 <= n <= frames@.len());
                    assert(assembly::stopped(
                        error,
                        old(assembly).frames() + frames_of(frames@).take(n),
                        old(backend).history(),
                        backend.history(),
                    ));
                }
                return Err(error);
            },
        }
        proof {
            count = count + 1;
        }
    }
    assert(frames_of(all).take(count) =~= frames_of(all));
    Ok(())
}

/// Dictionaries by identity.
pub type Dictionaries = Map<DictionaryId, Seq<u8>>;

/// The preferred dictionaries with one more: the first is kept, and of four the
/// second gives way.
pub open spec fn preferred_with(list: Seq<DictionaryId>, id: DictionaryId) -> Seq<DictionaryId> {
    if list.contains(id) {
        list
    } else if list.len() == 4 {
        list.remove(1).push(id)
    } else {
        list.push(id)
    }
}

/// The dictionaries among `held` that are preferred.
pub open spec fn preferred_of(held: Dictionaries, list: Seq<DictionaryId>) -> Dictionaries {
    held.restrict(Set::new(|id: DictionaryId| list.contains(id)))
}

/// What a seal starts from.
#[verifier::ext_equal]
pub struct SealPlan {
    /// The view before any page was written.
    pub start: ViewModel,
    /// The dictionaries that frames are compressed with.
    pub known: Dictionaries,
    /// The dictionary that is new.
    pub adopted: Option<DictionaryId>,
}

/// The view that a seal starts from: that of the source, or one without pages,
/// at the endpoint.
pub open spec fn seal_start(source: Option<ViewModel>, endpoint: SealEndpoint) -> ViewModel {
    let base = match source {
        Some(view) => view,
        None => ViewModel {
            database: endpoint.database,
            lineage: endpoint.lineage,
            size: endpoint.size,
            txid: endpoint.txid,
            history: endpoint.history,
            parent_seal: None,
            frames: Map::empty(),
            pages: Map::empty(),
            preferred: Seq::empty(),
        },
    };
    let moved = (ViewModel {
        size: endpoint.size,
        txid: endpoint.txid,
        history: endpoint.history,
        ..base
    }).without_above(endpoint.size.count() as u32);
    match endpoint.truncate {
        Some(last) => moved.without_above(last),
        None => moved,
    }
}

/// The view of a source.
pub open spec fn source_view(source: Option<PinModel>) -> Option<ViewModel> {
    match source {
        Some(pin) => Some(pin.metadata.view),
        None => None,
    }
}

/// What a seal starts from, where a new dictionary was adopted or none.
pub open spec fn seal_plan(
    source: Option<PinModel>,
    endpoint: SealEndpoint,
    adopted: Option<Seq<u8>>,
) -> SealPlan {
    let start = seal_start(source_view(source), endpoint);
    let held = match source {
        Some(pin) => preferred_of(pin.dictionaries, pin.metadata.view.preferred),
        None => Map::empty(),
    };
    match adopted {
        None => SealPlan { start, known: preferred_of(held, start.preferred), adopted: None },
        Some(bytes) => {
            let id = frame::id_of::<DICTIONARY>(digest::content_hash(bytes));
            let preferred = preferred_with(start.preferred, id);
            SealPlan {
                start: ViewModel { preferred, ..start },
                known: preferred_of(held.insert(id, bytes), preferred),
                adopted: Some(id),
            }
        },
    }
}

/// A view sealed onto its source, where it is newer.
pub open spec fn sealed_onto(view: ViewModel, source: Option<ViewModel>) -> ViewModel {
    let onto = match source {
        Some(base) => view.txid.value > base.txid.value,
        None => true,
    };
    if onto {
        let sealed = ViewModel {
            parent_seal: match source {
                Some(base) => Some(base.hash()),
                None => None,
            },
            ..view
        };
        ViewModel {
            history: frame::id_of(
                digest::content_hash(
                    sealed.lineage_input(digest::content_hash(sealed.content_input())),
                ),
            ),
            ..sealed
        }
    } else {
        view
    }
}

/// The view that a seal publishes.
pub open spec fn seal_view(plan: SealPlan, edits: Seq<Edit>, source: Option<PinModel>) -> ViewModel {
    sealed_onto(assembly::edited(plan.start, edits).compact(), source_view(source))
}

/// The builder that a seal publishes with.
pub open spec fn seal_builder(
    home: BackendId,
    plan: SealPlan,
    assembled: Assembled,
    source: Option<PinModel>,
    mode: ManifestMode,
) -> BuilderModel {
    let base = publication::builder_of(
        home,
        seal_view(plan, assembled.edits, source),
        match source {
            Some(pin) => Some(pin.metadata),
            None => None,
        },
    );
    BuilderModel {
        packs: base.packs + assembled.packs,
        dictionaries: match plan.adopted {
            Some(id) => base.dictionaries.insert(id),
            None => base.dictionaries,
        },
        onto: match mode {
            ManifestMode::Rollup => None,
            ManifestMode::Incremental => base.onto,
        },
        ..base
    }
}

fn preferred_set(list: &Vec<DictionaryId>) -> (keep: OrderedSet<DictionaryId>)
    ensures
        keep@ == Set::new(|id: DictionaryId| list@.contains(id)),
{
    let mut keep: OrderedSet<DictionaryId> = OrderedSet::new();
    let mut i: usize = 0;
    while i < list.len()
        invariant
            i <= list@.len(),
            keep@ == Set::new(|id: DictionaryId| list@.take(i as int).contains(id)),
        decreases list.len() - i,
    {
        keep.insert(list[i]);
        proof {
            let before = list@.take(i as int);
            let after = list@.take(i as int + 1);
            assert(after =~= before.push(list@[i as int]));
            assert forall|id: DictionaryId| after.contains(id) == (before.contains(id) || id
                == list@[i as int]) by {
                if before.contains(id) {
                    let k = choose|k: int| 0 <= k < before.len() && before[k] == id;
                    assert(after[k] == id);
                }
                assert(after[i as int] == list@[i as int]);
            }
            assert(keep@ =~= Set::new(|id: DictionaryId| after.contains(id)));
        }
        i += 1;
    }
    assert(list@.take(i as int) =~= list@);
    keep
}

/// The preferred dictionaries of a source.
fn source_dictionaries(pin: &PinnedView) -> (held: OrderedMap<DictionaryId, Vec<u8>>)
    ensures
        held@ == preferred_of(pin@.dictionaries, pin@.metadata.view.preferred),
{
    let list: &Vec<DictionaryId> = &pin.metadata().resolved().preferred;
    let mut held: OrderedMap<DictionaryId, Vec<u8>> = OrderedMap::new();
    let ghost all = pin@.dictionaries;
    let mut i: usize = 0;
    assert(held@ =~= preferred_of(all, list@.take(0)));
    while i < list.len()
        invariant
            i <= list@.len(),
            list@ == pin@.metadata.view.preferred,
            all == pin@.dictionaries,
            held@ == preferred_of(all, list@.take(i as int)),
        decreases list.len() - i,
    {
        let id: DictionaryId = list[i];
        let ghost now = held@;
        match pin.dictionaries().get(&id) {
            Some(dictionary) => {
                held.insert(id, copied(dictionary.bytes()));
            },
            None => {},
        }
        proof {
            let before = list@.take(i as int);
            let after = list@.take(i as int + 1);
            assert(after =~= before.push(id));
            assert forall|d: DictionaryId| after.contains(d) == (before.contains(d) || d == id) by {
                if before.contains(d) {
                    let k = choose|k: int| 0 <= k < before.len() && before[k] == d;
                    assert(after[k] == d);
                }
                assert(after[i as int] == id);
            }
            assert(held@ =~= preferred_of(all, after));
        }
        i += 1;
    }
    assert(list@.take(i as int) =~= list@);
    held
}

/// The view that a seal starts from.
fn draft_start(source: Option<&PinnedView>, endpoint: &SealEndpoint) -> (metadata: Result<
    ViewMetadata,
    StoreError,
>)
    requires
        endpoint.size.wf(),
    ensures
        ({
            let base = match source {
                Some(pin) => Some(pin@),
                None => None,
            };
            match metadata {
                Ok(m) => m@ == seal_start(source_view(base), *endpoint) && m.size == endpoint.size
                    && !other_database(source_view(base), *endpoint),
                Err(e) => e == StoreError::IdentityMismatch && other_database(
                    source_view(base),
                    *endpoint,
                ),
            }
        }),
{
    let mut metadata: ViewMetadata = match source {
        Some(pin) => pin.metadata().draft(),
        None => ViewMetadata::empty(
            endpoint.database,
            endpoint.lineage,
            endpoint.size,
            endpoint.txid,
            endpoint.history,
        ),
    };
    if !metadata.database.same(&endpoint.database) || !metadata.lineage.same(&endpoint.lineage) {
        return Err(StoreError::IdentityMismatch);
    }
    metadata.size = endpoint.size;
    metadata.txid = endpoint.txid;
    metadata.history = endpoint.history;
    metadata.remove_above(endpoint.size.pages());
    match endpoint.truncate {
        Some(last) => metadata.remove_above(last),
        None => {},
    }
    Ok(metadata)
}

/// A source is of another database, or of another line of it.
pub open spec fn other_database(source: Option<ViewModel>, endpoint: SealEndpoint) -> bool {
    source matches Some(view) && (view.database != endpoint.database || view.lineage
        != endpoint.lineage)
}

/// The bytes of an optional dictionary.
pub open spec fn optional_bytes(bytes: Option<Vec<u8>>) -> Option<Seq<u8>> {
    match bytes {
        Some(b) => Some(b@),
        None => None,
    }
}

/// A dictionary was installed.
pub open spec fn dictionary_installed(earlier: Seq<Event>, later: Seq<Event>, bytes: Seq<u8>) -> bool {
    later == earlier.push(
        Event::Install {
            key: crate::adapter::ObjectKey::Dictionary(
                frame::id_of::<DICTIONARY>(digest::content_hash(bytes)),
            ),
            bytes,
            reply: Ok(()),
        },
    )
}

/// What offering a new dictionary comes to: it is adopted where it could be
/// installed, and passed over else.
pub open spec fn offered(
    candidate: Option<Seq<u8>>,
    adopted: Option<Seq<u8>>,
    earlier: Seq<Event>,
    later: Seq<Event>,
) -> bool {
    match adopted {
        Some(bytes) => candidate == Some(bytes) && dictionary_installed(earlier, later, bytes),
        None => assembly::staged(earlier, later),
    }
}

/// Installs a new dictionary and prefers it. One that cannot be installed is
/// passed over.
fn adopt<B: StorageBackend>(
    backend: &mut B,
    metadata: &mut ViewMetadata,
    dictionaries: &mut OrderedMap<DictionaryId, Vec<u8>>,
    candidate: Option<Vec<u8>>,
) -> (adopted: (Option<Durable<DICTIONARY>>, Ghost<Option<Seq<u8>>>))
    ensures
        final(backend).namespace() == old(backend).namespace(),
        final(metadata).size == old(metadata).size,
        offered(
            optional_bytes(candidate),
            adopted.1@,
            old(backend).history(),
            final(backend).history(),
        ),
        assembly::staged(old(backend).history(), final(backend).history()),
        match adopted.1@ {
            None => adopted.0 is None && final(metadata)@ == old(metadata)@ && final(dictionaries)@
                == old(dictionaries)@,
            Some(bytes) => {
                let id = frame::id_of::<DICTIONARY>(digest::content_hash(bytes));
                &&& adopted.0 matches Some(receipt) && receipt.of() == id && receipt.at_home()
                    == old(backend).namespace()
                &&& final(dictionaries)@ == old(dictionaries)@.insert(id, bytes)
                &&& final(metadata)@ == (ViewModel {
                    preferred: preferred_with(old(metadata)@.preferred, id),
                    ..old(metadata)@
                })
            },
        },
{
    let bytes: Vec<u8> = match candidate {
        Some(bytes) => bytes,
        None => {
            return (None, Ghost(None));
        },
    };
    let receipt: Durable<DICTIONARY> = match install_dictionary(backend, bytes.as_slice()) {
        Ok(receipt) => receipt,
        Err(_) => {
            return (None, Ghost(None));
        },
    };
    let id: DictionaryId = receipt.id();
    let ghost kept = bytes@;
    dictionaries.insert(id, bytes);
    if !metadata.prefers(&id) {
        if metadata.preferred.len() == 4 {
            metadata.preferred.remove(1);
        }
        metadata.preferred.push(id);
    }
    assert(metadata@.preferred =~= preferred_with(old(metadata)@.preferred, id));
    (Some(receipt), Ghost(Some(kept)))
}

/// The changes within the size, by ascending pages.
fn plan_changes(changes: &Vec<PageChange>, size: LogicalBytes) -> (list: Vec<PageChange>)
    requires
        size.wf(),
    ensures
        list@ == planned(changes@, size),
{
    let last: u32 = size.pages();
    let mut within: Vec<PageChange> = Vec::new();
    let mut i: usize = 0;
    while i < changes.len()
        invariant
            i <= changes@.len(),
            last == size.count(),
            within@ == kept(changes@, size.count(), i as int),
        decreases changes.len() - i,
    {
        let change: PageChange = changes[i];
        if change.0.value <= last {
            within.push(change);
        }
        i += 1;
    }
    let order: Vec<usize> = sorted_order(within.as_slice());
    let mut list: Vec<PageChange> = Vec::new();
    let mut i: usize = 0;
    while i < order.len()
        invariant
            i <= order@.len(),
            order@.len() == within@.len(),
            order@ == sorting::order_of(within@),
            sorting::covers(order@, within@.len() as int),
            list@ == by_page(within@).take(i as int),
        decreases order.len() - i,
    {
        list.push(within[order[i]]);
        proof {
            assert(by_page(within@).take(i as int + 1) =~= by_page(within@).take(i as int).push(
                within@[order@[i as int] as int],
            ));
        }
        i += 1;
    }
    assert(by_page(within@).take(i as int) =~= by_page(within@));
    list
}

/// What a seal wrote before it published its view.
pub open spec fn seal_assembled(
    plan: SealPlan,
    endpoint: SealEndpoint,
    changes: Seq<PageChange>,
    contents: Map<PageNumber, Seq<u8>>,
    layout: LayoutPolicy,
    copies: Content,
    origin: int,
    later: Seq<Event>,
    assembled: Assembled,
    built: Content,
) -> bool {
    &&& assembled.complete(origin, later)
    &&& assembled.cut_at(layout.pack_target)
    &&& assembled.frames == copies + built
    &&& pages_written(
        planned(changes, endpoint.size),
        contents,
        endpoint.size.page_size,
        plan.known,
        layout.level as int,
        layout.frame_bytes as int,
        built,
        assembly::dropped_list(assembled.edits),
    )
}

/// A page that is to be sealed cannot be read.
pub open spec fn unreadable(
    changes: Seq<PageChange>,
    contents: Map<PageNumber, Seq<u8>>,
    size: LogicalBytes,
) -> bool {
    exists|i: int|
        0 <= i < planned(changes, size).len() && !readable(
            contents,
            size.page_size,
            (#[trigger] planned(changes, size)[i]).0,
        )
}

/// The view of some steps has a page that stands in no slot of its frames, which
/// takes two frames of one name.
pub open spec fn clashes(plan: SealPlan, edits: Seq<Edit>) -> bool {
    !assembly::edited(plan.start, edits).compact().resolvable()
}

/// Why a seal ends before its view is published.
pub open spec fn seal_refused(
    source: Option<PinModel>,
    endpoint: SealEndpoint,
    changes: Seq<PageChange>,
    contents: Map<PageNumber, Seq<u8>>,
    layout: LayoutPolicy,
    copies: Content,
    foreign: bool,
    earlier: Seq<Event>,
    later: Seq<Event>,
    error: StoreError,
) -> bool {
    ||| assembly::failed_last(earlier, later, error)
    ||| exists|n: int|
        0 <= n <= copies.len() && #[trigger] assembly::stopped(
            error,
            copies.take(n),
            earlier,
            later,
        )
    ||| exists|adopted: Option<Seq<u8>>| #[trigger]
        halted(
            error,
            copies,
            endpoint.size.page_size,
            seal_plan(source, endpoint, adopted).known,
            layout.level as int,
            contents,
            layout.frame_bytes as int,
            earlier,
            later,
        )
    ||| error == StoreError::Range && unreadable(changes, contents, endpoint.size)
    ||| error == StoreError::IdentityMismatch && foreign
    ||| error == StoreError::Corrupt(0) && exists|adopted: Option<Seq<u8>>, edits: Seq<Edit>|
        #[trigger] clashes(seal_plan(source, endpoint, adopted), edits)
}

/// A seal wrote its packs and then published its view, or failed to.
pub open spec fn seal_published(
    source: Option<PinModel>,
    home: BackendId,
    endpoint: SealEndpoint,
    changes: Seq<PageChange>,
    contents: Map<PageNumber, Seq<u8>>,
    layout: LayoutPolicy,
    copies: Content,
    mode: ManifestMode,
    adopted: Option<Seq<u8>>,
    placed: StateModel,
    after: StateModel,
    origin: int,
    middle: Seq<Event>,
    later: Seq<Event>,
    assembled: Assembled,
    built: Content,
    done: Result<(ManifestId, ValidatedModel), StoreError>,
) -> bool {
    let plan = seal_plan(source, endpoint, adopted);
    &&& seal_assembled(
        plan,
        endpoint,
        changes,
        contents,
        layout,
        copies,
        origin,
        middle,
        assembled,
        built,
    )
    &&& !clashes(plan, assembled.edits)
    &&& publication::view_published(
        seal_builder(home, plan, assembled, source, mode),
        placed,
        after,
        middle,
        later,
        done,
    )
}

/// What a seal comes to. One of another database is refused. Else a new
/// dictionary is adopted or not; then packs are written, which changes nothing
/// that readers see, and at last the view is published.
pub open spec fn sealed(
    source: Option<PinModel>,
    foreign: bool,
    home: BackendId,
    endpoint: SealEndpoint,
    changes: Seq<PageChange>,
    contents: Map<PageNumber, Seq<u8>>,
    layout: LayoutPolicy,
    copies: Content,
    mode: ManifestMode,
    candidate: Option<Seq<u8>>,
    before: StateModel,
    after: StateModel,
    earlier: Seq<Event>,
    later: Seq<Event>,
    done: Result<(ManifestId, ValidatedModel), StoreError>,
) -> bool {
    if other_database(source_view(source), endpoint) {
        done == Err::<(ManifestId, ValidatedModel), StoreError>(StoreError::IdentityMismatch)
            && after == before && later == earlier
    } else {
        ||| done matches Err(error) && seal_refused(
            source,
            endpoint,
            changes,
            contents,
            layout,
            copies,
            foreign,
            earlier,
            later,
            error,
        ) && assembly::staged(earlier, later) && pack_writer::only_places(before, after)
        ||| exists|
            adopted: Option<Seq<u8>>,
            chosen: Seq<Event>,
            middle: Seq<Event>,
            placed: StateModel,
            assembled: Assembled,
            built: Content,
        |
            #![trigger offered(candidate, adopted, earlier, chosen), seal_published(source, home, endpoint, changes, contents, layout, copies, mode, adopted, placed, after, chosen.len() as int, middle, later, assembled, built, done)]
            offered(candidate, adopted, earlier, chosen) && assembly::staged(chosen, middle)
                && pack_writer::only_places(before, placed) && seal_published(
                source,
                home,
                endpoint,
                changes,
                contents,
                layout,
                copies,
                mode,
                adopted,
                placed,
                after,
                chosen.len() as int,
                middle,
                later,
                assembled,
                built,
                done,
            )
    }
}

/// A source by what it says.
pub open spec fn source_model(source: Option<&PinnedView>) -> Option<PinModel> {
    match source {
        Some(pin) => Some(pin@),
        None => None,
    }
}

/// A source was pinned elsewhere.
pub open spec fn source_foreign(source: Option<&PinnedView>, home: BackendId) -> bool {
    source matches Some(pin) && pin.at_home() != home
}

/// What a published view came to, by what it says.
pub open spec fn published_model(view: Result<DurableView, StoreError>) -> Result<
    (ManifestId, ValidatedModel),
    StoreError,
> {
    match view {
        Ok(v) => Ok((v.of(), v.resolution())),
        Err(e) => Err(e),
    }
}

/// Seals a view onto its source, where it is newer.
fn seal_lineage(metadata: &mut ViewMetadata, source: Option<&PinnedView>) -> (done: Result<
    (),
    StoreError,
>)
    ensures
        final(metadata).size == old(metadata).size,
        match done {
            Ok(_) => old(metadata)@.resolvable() && final(metadata)@ == sealed_onto(
                old(metadata)@,
                source_view(source_model(source)),
            ) && final(metadata)@.resolvable(),
            Err(e) => e == StoreError::Corrupt(0) && !old(metadata)@.resolvable(),
        },
{
    let (onto, parent): (bool, Option<ViewHash>) = match source {
        Some(pin) => {
            let base: &ViewMetadata = pin.metadata().resolved();
            let hash: ViewHash = pin.metadata().logical_hash();
            proof {
                let view = pin@.metadata.view;
                draft::lemma_named(
                    hash,
                    view.logical_input(digest::content_hash(view.content_input())),
                );
            }
            (metadata.txid.value > base.txid.value, Some(hash))
        },
        None => (true, None),
    };
    let ghost before = metadata@;
    if onto {
        match metadata.sealed_lineage(parent) {
            Ok(unit) => {
                assert(unit == ());
            },
            Err(error) => {
                return Err(error);
            },
        }
        proof {
            let sealed = ViewModel { parent_seal: parent, ..before };
            let root = choose|root: crate::domain::ContentRoot|
                #[trigger] digest::names(root, sealed.content_input()) && digest::names(
                    metadata@.history,
                    sealed.lineage_input(root.bytes@),
                );
            draft::lemma_named(
                metadata@.history,
                sealed.lineage_input(digest::content_hash(sealed.content_input())),
            );
            assert(metadata@ == sealed_onto(before, source_view(source_model(source))));
            lemma_same_slots(before, metadata@);
        }
    } else {
        match metadata.content_root() {
            Some(_) => {},
            None => {
                return Err(StoreError::Corrupt(0));
            },
        }
    }
    Ok(())
}

proof fn lemma_same_slots(a: ViewModel, b: ViewModel)
    requires
        a.frames == b.frames,
        a.pages == b.pages,
        a.resolvable(),
    ensures
        b.resolvable(),
{
    assert forall|page: PageNumber| #[trigger] b.pages.dom().contains(page) implies b.resolves(
        b.pages[page],
    ) by {
        assert(a.pages.dom().contains(page));
        assert(a.resolves(a.pages[page]));
    }
}

/// Publishes a view with the packs and the dictionary that are new.
fn publish<'source, B: StorageBackend>(
    backend: &mut B,
    state: &mut State,
    metadata: ViewMetadata,
    source: Option<&'source PinnedView>,
    receipts: &Vec<Durable<PACK>>,
    dictionary: &Option<Durable<DICTIONARY>>,
    mode: ManifestMode,
    plan: Ghost<SealPlan>,
    assembled: Ghost<Assembled>,
) -> (view: Result<DurableView, StoreError>)
    requires
        metadata@.resolvable(),
        metadata.size.wf(),
        !source_foreign(source, old(backend).namespace()),
        metadata@ == seal_view(plan@, assembled@.edits, source_model(source)),
        assembled@.packs == assembly::receipted(receipts@),
        forall|i: int|
            0 <= i < receipts@.len() ==> (#[trigger] receipts@[i]).at_home() == old(
                backend,
            ).namespace(),
        match *dictionary {
            Some(receipt) => plan@.adopted == Some(receipt.of()) && receipt.at_home() == old(
                backend,
            ).namespace(),
            None => plan@.adopted is None,
        },
    ensures
        final(backend).namespace() == old(backend).namespace(),
        adapter::extends(old(backend).history(), final(backend).history()),
        publication::view_published(
            seal_builder(
                old(backend).namespace(),
                plan@,
                assembled@,
                source_model(source),
                mode,
            ),
            old(state)@,
            final(state)@,
            old(backend).history(),
            final(backend).history(),
            published_model(view),
        ),
{
    let home: BackendId = backend.identity();
    let mut builder: ManifestBuilder<'source> = match ManifestBuilder::new(home, metadata, source) {
        Ok(builder) => builder,
        Err(error) => {
            assert(false);
            return Err(error);
        },
    };
    let ghost base = builder@;
    let mut i: usize = 0;
    assert(base.packs + assembly::receipted(receipts@.take(0)) =~= base.packs);
    while i < receipts.len()
        invariant
            i <= receipts@.len(),
            base.home == home,
            forall|i: int|
                0 <= i < receipts@.len() ==> (#[trigger] receipts@[i]).at_home() == home,
            builder@ == (BuilderModel {
                packs: base.packs + assembly::receipted(receipts@.take(i as int)),
                ..base
            }),
        decreases receipts.len() - i,
    {
        let ghost now = builder@.packs;
        match builder.pack(&receipts[i]) {
            Ok(unit) => {
                assert(unit == ());
            },
            Err(error) => {
                assert(receipts@[i as int].at_home() == home);
                assert(false);
                return Err(error);
            },
        }
        proof {
            let before = receipts@.take(i as int);
            let after = receipts@.take(i as int + 1);
            assert(after =~= before.push(receipts@[i as int]));
            assert forall|pack: PackId| assembly::receipted(after).contains(pack) == (
            assembly::receipted(before).contains(pack) || pack == receipts@[i as int].of()) by {
                if assembly::receipted(before).contains(pack) {
                    let k = choose|k: int| 0 <= k < before.len() && (#[trigger] before[k]).of() == pack;
                    assert(after[k].of() == pack);
                }
                assert(after[i as int] == receipts@[i as int]);
                if assembly::receipted(after).contains(pack) && pack != receipts@[i as int].of() {
                    let k = choose|k: int| 0 <= k < after.len() && (#[trigger] after[k]).of() == pack;
                    assert(before[k].of() == pack);
                }
            }
            assert(builder@.packs =~= base.packs + assembly::receipted(after));
        }
        i += 1;
    }
    assert(receipts@.take(i as int) =~= receipts@);
    match dictionary {
        Some(receipt) => match builder.dictionary(receipt) {
            Ok(unit) => {
                assert(unit == ());
            },
            Err(error) => {
                assert(false);
                return Err(error);
            },
        },
        None => {},
    }
    let builder: ManifestBuilder<'source> = match mode {
        ManifestMode::Rollup => builder.checkpoint(),
        ManifestMode::Incremental => builder,
    };
    assert(builder@ =~= seal_builder(
        home,
        plan@,
        assembled@,
        source_model(source),
        mode,
    ));
    builder.finalize(backend, state)
}

/// Seals changed pages behind frames that are copied as they are. Unchanged pages
/// stay where the source has them. Pages that are all zeros are dropped; the
/// others go into frames by ascending pages.
#[verifier::rlimit(60)]
pub fn seal_with_copies<B: StorageBackend>(
    backend: &mut B,
    state: &mut State,
    source: Option<&PinnedView>,
    endpoint: &SealEndpoint,
    changes: &Vec<PageChange>,
    contents: &OrderedMap<PageNumber, Vec<u8>>,
    layout: &LayoutPolicy,
    copies: Vec<EncodedFrame>,
    mode: ManifestMode,
    candidate: Option<Vec<u8>>,
) -> (view: Result<DurableView, StoreError>)
    requires
        endpoint.size.wf(),
    ensures
        final(backend).namespace() == old(backend).namespace(),
        sealed(
            source_model(source),
            source_foreign(source, old(backend).namespace()),
            old(backend).namespace(),
            *endpoint,
            changes@,
            contents@,
            *layout,
            frames_of(copies@),
            mode,
            optional_bytes(candidate),
            old(state)@,
            final(state)@,
            old(backend).history(),
            final(backend).history(),
            published_model(view),
        ),
{
    let ghost base = source_model(source);
    let ghost home = backend.namespace();
    let ghost earlier = backend.history();
    let ghost copied_frames = frames_of(copies@);
    let mut metadata: ViewMetadata = draft_start(source, endpoint)?;
    let mut dictionaries: OrderedMap<DictionaryId, Vec<u8>> = match source {
        Some(pin) => source_dictionaries(pin),
        None => OrderedMap::new(),
    };
    let (receipt, Ghost(adopted)) = adopt(backend, &mut metadata, &mut dictionaries, candidate);
    let ghost plan = seal_plan(base, *endpoint, adopted);
    let ghost chosen = backend.history();
    let ghost origin = chosen.len() as int;
    let keep: OrderedSet<DictionaryId> = preferred_set(&metadata.preferred);
    dictionaries.retain(&keep);
    proof {
        assert(metadata@ == plan.start);
        assert(dictionaries@ =~= plan.known);
    }
    let encoder: FrameEncoder = FrameEncoder::new(layout.level, &dictionaries);
    let list: Vec<PageChange> = plan_changes(changes, endpoint.size);
    let mut assembly: Assembly<B> = match Assembly::new(backend, metadata, layout.pack_target) {
        Ok(assembly) => assembly,
        Err(error) => {
            assert(assembly::failed_last(earlier, backend.history(), error));
            return Err(error);
        },
    };
    let copying: Result<(), StoreError> = write_copies(
        &mut assembly,
        backend,
        state,
        copies,
        layout.pack_target,
        Ghost(plan.start),
        Ghost(origin),
    );
    match copying {
        Ok(unit) => {
            assert(unit == ());
        },
        Err(error) => {
            proof {
                let n = choose|n: int|
                    0 <= n <= copied_frames.len() && #[trigger] assembly::stopped(
                        error,
                        Seq::<(FrameModel, Seq<u8>)>::empty() + copied_frames.take(n),
                        chosen,
                        backend.history(),
                    );
                assert(Seq::<(FrameModel, Seq<u8>)>::empty() + copied_frames.take(n)
                    =~= copied_frames.take(n));
                assembly::lemma_stopped_since(
                    error,
                    copied_frames.take(n),
                    earlier,
                    chosen,
                    backend.history(),
                );
            }
            return Err(error);
        },
    }
    let ghost between = backend.history();
    assert(assembly.frames() =~= copied_frames);
    let writing: Result<Ghost<Content>, StoreError> = write_pages(
        &mut assembly,
        backend,
        state,
        &encoder,
        endpoint.size.page_size,
        &list,
        contents,
        layout,
        Ghost(plan.known),
        Ghost(plan.start),
        Ghost(origin),
    );
    let built: Ghost<Content> = match writing {
        Ok(built) => built,
        Err(error) => {
            proof {
                if halted(
                    error,
                    copied_frames,
                    endpoint.size.page_size,
                    plan.known,
                    layout.level as int,
                    contents@,
                    layout.frame_bytes as int,
                    between,
                    backend.history(),
                ) {
                    lemma_halted_since(
                        error,
                        copied_frames,
                        endpoint.size.page_size,
                        plan.known,
                        layout.level as int,
                        contents@,
                        layout.frame_bytes as int,
                        earlier,
                        between,
                        backend.history(),
                    );
                } else {
                    let i = choose|i: int|
                        0 <= i < list@.len() && !readable(
                            contents@,
                            endpoint.size.page_size,
                            (#[trigger] list@[i]).0,
                        );
                    assert(planned(changes@, endpoint.size)[i] == list@[i]);
                }
            }
            return Err(error);
        },
    };
    let ghost written = backend.history();
    let closing: Result<(ViewMetadata, Vec<Durable<PACK>>, Ghost<Assembled>), StoreError> =
        assembly.close(
            backend,
            state,
            Ghost(plan.start),
            Ghost(origin),
            Ghost(layout.pack_target),
        );
    let (mut metadata, receipts, Ghost(assembled)) = match closing {
        Ok(closed) => closed,
        Err(error) => {
            proof {
                assembly::lemma_stopped_since(
                    error,
                    copied_frames + built@,
                    earlier,
                    written,
                    backend.history(),
                );
                assert(halted(
                    error,
                    copied_frames,
                    endpoint.size.page_size,
                    seal_plan(base, *endpoint, adopted).known,
                    layout.level as int,
                    contents@,
                    layout.frame_bytes as int,
                    earlier,
                    backend.history(),
                ));
            }
            return Err(error);
        },
    };
    let ghost middle = backend.history();
    let ghost placed = state@;
    metadata.retain_frames();
    match seal_lineage(&mut metadata, source) {
        Ok(unit) => {
            assert(unit == ());
        },
        Err(error) => {
            assert(clashes(seal_plan(base, *endpoint, adopted), assembled.edits));
            return Err(error);
        },
    }
    match source {
        Some(pin) => {
            let here: BackendId = backend.identity();
            if !pin.same_catalog(&here) {
                return Err(StoreError::IdentityMismatch);
            }
        },
        None => {},
    }
    let view: Result<DurableView, StoreError> = publish(
        backend,
        state,
        metadata,
        source,
        &receipts,
        &receipt,
        mode,
        Ghost(plan),
        Ghost(assembled),
    );
    proof {
        assert(assembled.frames =~= copied_frames + built@);
        assert(offered(optional_bytes(candidate), adopted, earlier, chosen));
        assert(seal_published(
            base,
            home,
            *endpoint,
            changes@,
            contents@,
            *layout,
            copied_frames,
            mode,
            adopted,
            placed,
            state@,
            chosen.len() as int,
            middle,
            backend.history(),
            assembled,
            built@,
            published_model(view),
        ));
    }
    view
}

/// A reservoir once the first `count` changed pages were offered to it.
pub open spec fn sampled(
    samples: SamplesModel,
    changes: Seq<PageChange>,
    contents: Map<PageNumber, Seq<u8>>,
    count: int,
) -> SamplesModel
    decreases count,
{
    if count <= 0 {
        samples
    } else {
        sampled(samples, changes, contents, count - 1).with(contents[changes[count - 1].0])
    }
}

/// The dictionary that samples propose, if any. The trainer and the compressor
/// may fail on single choices.
pub open spec fn proposed(
    samples: SamplesModel,
    capacities: Seq<usize>,
    level: int,
    logical: int,
    existing: Seq<Seq<u8>>,
    dictionary: Option<Seq<u8>>,
) -> bool {
    if samples.ready() {
        let list = samples.list();
        exists|
            candidates: Seq<Option<Seq<u8>>>,
            tried: Seq<bool>,
            bare: bool,
            fit: Seq<bool>,
        |
            samples::trained_on(
                samples::picked(list, list.len() as int, false),
                capacities,
                candidates,
            ) && dictionary == #[trigger] samples::selected(
                samples::picked(list, list.len() as int, true),
                existing,
                candidates,
                level,
                logical,
                tried,
                bare,
                fit,
            )
    } else {
        dictionary is None
    }
}

/// The bytes of the preferred dictionaries of a source, by identity.
pub open spec fn existing_of(source: Option<PinModel>) -> Seq<Seq<u8>> {
    match source {
        Some(pin) => {
            let list = order::listing::<DictionaryId, Seq<u8>>(
                preferred_of(pin.dictionaries, pin.metadata.view.preferred),
            );
            Seq::new(list.len(), |i: int| list[i].1)
        },
        None => Seq::empty(),
    }
}

/// Offers every changed page to the reservoir, and says which new dictionary it
/// proposes. Pages that cannot be read are refused.
pub fn train(
    reservoir: &mut Samples,
    source: Option<&PinnedView>,
    endpoint: &SealEndpoint,
    changes: &Vec<PageChange>,
    contents: &OrderedMap<PageNumber, Vec<u8>>,
    layout: &LayoutPolicy,
    capacities: &Vec<usize>,
) -> (dictionary: Result<Option<Vec<u8>>, StoreError>)
    requires
        endpoint.size.wf(),
        forall|i: int| 0 <= i < capacities@.len() ==> #[trigger] capacities@[i] <= isize::MAX,
    ensures
        ({
            let base = source_view(source_model(source));
            let after = sampled(old(reservoir)@, changes@, contents@, changes@.len() as int);
            match dictionary {
                Ok(chosen) => {
                    &&& !other_database(base, *endpoint)
                    &&& forall|i: int|
                        0 <= i < changes@.len() ==> contents@.dom().contains(
                            (#[trigger] changes@[i]).0,
                        )
                    &&& proposed(
                        after,
                        capacities@,
                        layout.level as int,
                        endpoint.size.bytes as int,
                        existing_of(source_model(source)),
                        optional_bytes(chosen),
                    )
                    &&& final(reservoir)@ == if after.ready() {
                        SamplesModel { fresh: 0, dirty: true, ..after }
                    } else {
                        after
                    }
                },
                Err(e) => if other_database(base, *endpoint) {
                    e == StoreError::IdentityMismatch && final(reservoir)@ == old(reservoir)@
                } else {
                    e == StoreError::Range && exists|i: int|
                        0 <= i < changes@.len() && !contents@.dom().contains(
                            (#[trigger] changes@[i]).0,
                        ) && final(reservoir)@ == sampled(old(reservoir)@, changes@, contents@, i)
                },
            }
        }),
{
    match source {
        Some(pin) => {
            let base: &ViewMetadata = pin.metadata().resolved();
            if !base.database.same(&endpoint.database) || !base.lineage.same(&endpoint.lineage) {
                return Err(StoreError::IdentityMismatch);
            }
        },
        None => {},
    }
    let mut i: usize = 0;
    while i < changes.len()
        invariant
            i <= changes@.len(),
            reservoir@ == sampled(old(reservoir)@, changes@, contents@, i as int),
            !other_database(source_view(source_model(source)), *endpoint),
            forall|j: int| 0 <= j < i ==> contents@.dom().contains((#[trigger] changes@[j]).0),
        decreases changes.len() - i,
    {
        match contents.get(&changes[i].0) {
            Some(page) => reservoir.insert(copied(page.as_slice())),
            None => {
                assert(!contents@.dom().contains(changes@[i as int].0));
                return Err(StoreError::Range);
            },
        }
        i += 1;
    }
    let mut existing: Vec<Vec<u8>> = Vec::new();
    match source {
        Some(pin) => {
            let held: OrderedMap<DictionaryId, Vec<u8>> = source_dictionaries(pin);
            let count: usize = held.len();
            let ghost list = held.pairs();
            let mut k: usize = 0;
            while k < count
                invariant
                    k <= count,
                    count == list.len(),
                    list == held.pairs(),
                    existing@.len() == k,
                    forall|j: int| 0 <= j < k ==> (#[trigger] existing@[j])@ == list[j].1,
                decreases count - k,
            {
                existing.push(copied(held.value_at(k).as_slice()));
                k += 1;
            }
            assert(codec::samples_view(existing@) =~= existing_of(source_model(source)));
        },
        None => {
            assert(codec::samples_view(existing@) =~= existing_of(source_model(source)));
        },
    }
    match reservoir.evaluation() {
        Some(evaluation) => {
            let chosen: Option<Vec<u8>> = evaluation.select(
                capacities,
                layout.level,
                endpoint.size,
                &existing,
            );
            Ok(chosen)
        },
        None => Ok(None),
    }
}

/// Seals changed pages: as with copies, of which there are none.
pub fn seal<B: StorageBackend>(
    backend: &mut B,
    state: &mut State,
    source: Option<&PinnedView>,
    endpoint: &SealEndpoint,
    changes: &Vec<PageChange>,
    contents: &OrderedMap<PageNumber, Vec<u8>>,
    layout: &LayoutPolicy,
    mode: ManifestMode,
    candidate: Option<Vec<u8>>,
) -> (view: Result<DurableView, StoreError>)
    requires
        endpoint.size.wf(),
    ensures
        final(backend).namespace() == old(backend).namespace(),
        sealed(
            source_model(source),
            source_foreign(source, old(backend).namespace()),
            old(backend).namespace(),
            *endpoint,
            changes@,
            contents@,
            *layout,
            Seq::empty(),
            mode,
            optional_bytes(candidate),
            old(state)@,
            final(state)@,
            old(backend).history(),
            final(backend).history(),
            published_model(view),
        ),
{
    let none: Vec<EncodedFrame> = Vec::new();
    assert(frames_of(none@) =~= Seq::<(FrameModel, Seq<u8>)>::empty());
    seal_with_copies(
        backend,
        state,
        source,
        endpoint,
        changes,
        contents,
        layout,
        none,
        mode,
        candidate,
    )
}

/// A page of a view stands in a slot of a frame.
pub open spec fn stands(view: ViewModel, page: PageNumber, frame: FrameModel, slot: int) -> bool {
    view.pages.dom().contains(page) && view.pages[page] == (StoredPage {
        frame: frame.id,
        slot: crate::domain::FrameSlot { index: slot as u32 },
    })
}

/// The pages of all frames differ.
pub open spec fn apart(frames: Content) -> bool {
    forall|k: int, s: int, l: int, t: int|
        0 <= k < frames.len() && 0 <= l < frames.len() && 0 <= s < frames[k].0.pages.len() && 0 <= t
            < frames[l].0.pages.len() && (k != l || s != t) ==> (#[trigger] frames[k].0.pages[s]).page
            != (#[trigger] frames[l].0.pages[t]).page
}

/// The names of all frames differ.
pub open spec fn named_apart(frames: Content) -> bool {
    forall|k: int, l: int|
        0 <= k < l < frames.len() ==> (#[trigger] frames[k]).0.id != (#[trigger] frames[l]).0.id
}

/// Whether a page is among those of the frames.
pub open spec fn holds_page(frames: Content, page: PageNumber) -> bool {
    exists|k: int, s: int|
        0 <= k < frames.len() && 0 <= s < frames[k].0.pages.len() && (
        #[trigger] frames[k].0.pages[s]).page == page
}

/// The frames are those that the steps add.
spec fn follows(edits: Seq<Edit>, frames: Content) -> bool {
    let list = assembly::placed_list(edits);
    list.len() == frames.len() && forall|k: int|
        0 <= k < list.len() ==> (#[trigger] list[k]).frame == frames[k].0
}

proof fn lemma_placed_at(
    pages: Map<PageNumber, StoredPage>,
    frame: FrameModel,
    count: int,
    page: PageNumber,
)
    requires
        0 <= count <= frame.pages.len(),
        forall|s: int, t: int|
            0 <= s < t < frame.pages.len() ==> (#[trigger] frame.pages[s]).page != (
            #[trigger] frame.pages[t]).page,
    ensures
        forall|s: int|
            0 <= s < count ==> draft::placed(pages, frame, count).dom().contains(
                (#[trigger] frame.pages[s]).page,
            ) && draft::placed(pages, frame, count)[frame.pages[s].page] == (StoredPage {
                frame: frame.id,
                slot: crate::domain::FrameSlot { index: s as u32 },
            }),
        (forall|s: int| 0 <= s < count ==> (#[trigger] frame.pages[s]).page != page) ==> (
        draft::placed(pages, frame, count).dom().contains(page) <==> pages.dom().contains(page))
            && draft::placed(pages, frame, count)[page] == pages[page],
    decreases count,
{
    if count > 0 {
        lemma_placed_at(pages, frame, count - 1, page);
    }
}

proof fn lemma_untouched(view: ViewModel, edits: Seq<Edit>, frames: Content, page: PageNumber)
    requires
        follows(edits, frames),
        apart(frames),
        !holds_page(frames, page),
    ensures
        ({
            let after = assembly::edited(view, edits);
            if assembly::dropped_list(edits).contains(page) {
                !after.pages.dom().contains(page)
            } else {
                (after.pages.dom().contains(page) <==> view.pages.dom().contains(page))
                    && after.pages[page] == view.pages[page]
            }
        }),
    decreases edits.len(),
{
    if edits.len() > 0 {
        let fewer = edits.drop_last();
        let before = assembly::edited(view, fewer);
        match edits.last() {
            Edit::Place(location) => {
                let list = assembly::placed_list(edits);
                let less = frames.drop_last();
                assert(assembly::placed_list(fewer) =~= list.drop_last());
                assert(list.last() == location);
                assert(frames.last() == frames[list.len() - 1]);
                assert forall|k: int| 0 <= k < list.len() - 1 implies (
                #[trigger] assembly::placed_list(fewer)[k]).frame == less[k].0 by {
                    assert(list[k].frame == frames[k].0);
                }
                lemma_fewer(frames, page);
                lemma_untouched(view, fewer, less, page);
                let frame = location.frame;
                assert(list[list.len() - 1].frame == frames[list.len() - 1].0);
                lemma_last_apart(frames);
                assert forall|s: int| 0 <= s < frame.pages.len() implies (
                #[trigger] frame.pages[s]).page != page by {
                    assert(frames[frames.len() - 1].0.pages[s].page != page);
                }
                lemma_placed_at(before.pages, frame, frame.pages.len() as int, page);
            },
            Edit::Drop(dropped) => {
                lemma_untouched(view, fewer, frames, page);
                let now = assembly::dropped_list(edits);
                let earlier = assembly::dropped_list(fewer);
                assert(now =~= earlier.push(dropped));
                if page == dropped {
                    assert(now[earlier.len() as int] == page);
                } else if now.contains(page) {
                    let k = choose|k: int| 0 <= k < now.len() && now[k] == page;
                    assert(earlier[k] == page);
                } else {
                    if earlier.contains(page) {
                        let k = choose|k: int| 0 <= k < earlier.len() && earlier[k] == page;
                        assert(now[k] == page);
                    }
                }
            },
        }
    }
}

proof fn lemma_fewer(frames: Content, page: PageNumber)
    requires
        frames.len() > 0,
        apart(frames),
        !holds_page(frames, page),
    ensures
        apart(frames.drop_last()),
        !holds_page(frames.drop_last(), page),
{
    let less = frames.drop_last();
    assert forall|k: int| 0 <= k < less.len() implies #[trigger] less[k] == frames[k] by {}
    if holds_page(less, page) {
        let (k, s) = choose|k: int, s: int|
            0 <= k < less.len() && 0 <= s < less[k].0.pages.len() && (
            #[trigger] less[k].0.pages[s]).page == page;
        assert(frames[k].0.pages[s].page == page);
    }
    assert forall|k: int, s: int, l: int, t: int|
        0 <= k < less.len() && 0 <= l < less.len() && 0 <= s < less[k].0.pages.len() && 0 <= t
            < less[l].0.pages.len() && (k != l || s != t) implies (
    #[trigger] less[k].0.pages[s]).page != (#[trigger] less[l].0.pages[t]).page by {
        assert(frames[k].0.pages[s].page != frames[l].0.pages[t].page);
    }
}

proof fn lemma_last_apart(frames: Content)
    requires
        frames.len() > 0,
        apart(frames),
    ensures
        forall|s: int, t: int|
            0 <= s < t < frames.last().0.pages.len() ==> (#[trigger] frames.last().0.pages[s]).page
                != (#[trigger] frames.last().0.pages[t]).page,
        apart(frames.drop_last()),
{
    let k = frames.len() - 1;
    let less = frames.drop_last();
    assert forall|s: int, t: int| 0 <= s < t < frames.last().0.pages.len() implies (
    #[trigger] frames.last().0.pages[s]).page != (#[trigger] frames.last().0.pages[t]).page by {
        assert(frames[k].0.pages[s].page != frames[k].0.pages[t].page);
    }
    assert forall|k: int, s: int, l: int, t: int|
        0 <= k < less.len() && 0 <= l < less.len() && 0 <= s < less[k].0.pages.len() && 0 <= t
            < less[l].0.pages.len() && (k != l || s != t) implies (
    #[trigger] less[k].0.pages[s]).page != (#[trigger] less[l].0.pages[t]).page by {
        assert(frames[k].0.pages[s].page != frames[l].0.pages[t].page);
    }
}

proof fn lemma_touched(view: ViewModel, edits: Seq<Edit>, frames: Content, k: int, s: int)
    requires
        follows(edits, frames),
        apart(frames),
        0 <= k < frames.len(),
        0 <= s < frames[k].0.pages.len(),
        !assembly::dropped_list(edits).contains(frames[k].0.pages[s].page),
    ensures
        stands(assembly::edited(view, edits), frames[k].0.pages[s].page, frames[k].0, s),
    decreases edits.len(),
{
    let page = frames[k].0.pages[s].page;
    let fewer = edits.drop_last();
    let before = assembly::edited(view, fewer);
    match edits.last() {
        Edit::Place(location) => {
            let list = assembly::placed_list(edits);
            let less = frames.drop_last();
            assert(assembly::placed_list(fewer) =~= list.drop_last());
            assert(list.last() == location);
            assert(list[list.len() - 1].frame == frames[list.len() - 1].0);
            lemma_last_apart(frames);
            let frame = location.frame;
            lemma_placed_at(before.pages, frame, frame.pages.len() as int, page);
            if k < frames.len() - 1 {
                assert forall|j: int| 0 <= j < list.len() - 1 implies (
                #[trigger] assembly::placed_list(fewer)[j]).frame == less[j].0 by {
                    assert(list[j].frame == frames[j].0);
                }
                assert(less[k] == frames[k]);
                lemma_touched(view, fewer, less, k, s);
                assert forall|t: int| 0 <= t < frame.pages.len() implies (
                #[trigger] frame.pages[t]).page != page by {
                    assert(frames[frames.len() - 1].0.pages[t].page != frames[k].0.pages[s].page);
                }
            }
        },
        Edit::Drop(dropped) => {
            let now = assembly::dropped_list(edits);
            let earlier = assembly::dropped_list(fewer);
            assert(now =~= earlier.push(dropped));
            assert(now[earlier.len() as int] == dropped);
            if earlier.contains(page) {
                let j = choose|j: int| 0 <= j < earlier.len() && earlier[j] == page;
                assert(now[j] == page);
            }
            lemma_touched(view, fewer, frames, k, s);
        },
    }
}

proof fn lemma_frames_held(view: ViewModel, edits: Seq<Edit>, frames: Content, k: int)
    requires
        follows(edits, frames),
        named_apart(frames),
        0 <= k < frames.len(),
    ensures
        assembly::edited(view, edits).frames.dom().contains(frames[k].0.id),
        assembly::edited(view, edits).frames[frames[k].0.id] == assembly::placed_list(edits)[k],
    decreases edits.len(),
{
    let fewer = edits.drop_last();
    match edits.last() {
        Edit::Place(location) => {
            let list = assembly::placed_list(edits);
            let less = frames.drop_last();
            assert(assembly::placed_list(fewer) =~= list.drop_last());
            assert(list[list.len() - 1].frame == frames[list.len() - 1].0);
            if k < frames.len() - 1 {
                assert forall|j: int| 0 <= j < list.len() - 1 implies (
                #[trigger] assembly::placed_list(fewer)[j]).frame == less[j].0 by {
                    assert(list[j].frame == frames[j].0);
                }
                assert forall|j: int, l: int| 0 <= j < l < less.len() implies (
                #[trigger] less[j]).0.id != (#[trigger] less[l]).0.id by {
                    assert(frames[j].0.id != frames[l].0.id);
                }
                assert(less[k] == frames[k]);
                lemma_frames_held(view, fewer, less, k);
                assert(frames[k].0.id != frames[frames.len() - 1].0.id);
            }
        },
        Edit::Drop(dropped) => {
            lemma_frames_held(view, fewer, frames, k);
        },
    }
}

/// What was written is where the new view says: every page of every frame stands
/// in its slot, the frame is where its pack has it, the pages that were dropped
/// are gone, and every other page stands where it stood. Pages and names of
/// frames must differ.
pub proof fn law_assembled_view(
    start: ViewModel,
    assembled: Assembled,
    origin: int,
    history: Seq<Event>,
    page: PageNumber,
)
    requires
        assembled.complete(origin, history),
        apart(assembled.frames),
        named_apart(assembled.frames),
        forall|i: int|
            0 <= i < assembly::dropped_list(assembled.edits).len() ==> !holds_page(
                assembled.frames,
                #[trigger] assembly::dropped_list(assembled.edits)[i],
            ),
    ensures
        ({
            let view = assembly::edited(start, assembled.edits);
            let list = assembly::placed_list(assembled.edits);
            &&& forall|k: int, s: int|
                0 <= k < assembled.frames.len() && 0 <= s < assembled.frames[k].0.pages.len()
                    ==> stands(
                    view,
                    (#[trigger] assembled.frames[k].0.pages[s]).page,
                    assembled.frames[k].0,
                    s,
                )
            &&& forall|k: int|
                0 <= k < assembled.frames.len() ==> view.frames.dom().contains(
                    (#[trigger] assembled.frames[k]).0.id,
                ) && view.frames[assembled.frames[k].0.id] == list[k] && assembly::frame_durable(
                    origin,
                    history,
                    list[k],
                    assembled.frames[k].1,
                )
            &&& !holds_page(assembled.frames, page) ==> if assembly::dropped_list(
                assembled.edits,
            ).contains(page) {
                !view.pages.dom().contains(page)
            } else {
                (view.pages.dom().contains(page) <==> start.pages.dom().contains(page))
                    && view.pages[page] == start.pages[page]
            }
        }),
{
    reveal(assembly::settled);
    let frames = assembled.frames;
    let edits = assembled.edits;
    let list = assembly::placed_list(edits);
    assert(follows(edits, frames));
    assert forall|k: int, s: int|
        0 <= k < frames.len() && 0 <= s < frames[k].0.pages.len() implies stands(
        assembly::edited(start, edits),
        (#[trigger] frames[k].0.pages[s]).page,
        frames[k].0,
        s,
    ) by {
        let p = frames[k].0.pages[s].page;
        if assembly::dropped_list(edits).contains(p) {
            let i = choose|i: int|
                0 <= i < assembly::dropped_list(edits).len() && assembly::dropped_list(edits)[i] == p;
            assert(holds_page(frames, assembly::dropped_list(edits)[i]));
        }
        lemma_touched(start, edits, frames, k, s);
    }
    assert forall|k: int| 0 <= k < frames.len() implies assembly::edited(
        start,
        edits,
    ).frames.dom().contains((#[trigger] frames[k]).0.id) && assembly::edited(
        start,
        edits,
    ).frames[frames[k].0.id] == list[k] && assembly::frame_durable(
        origin,
        history,
        list[k],
        frames[k].1,
    ) by {
        lemma_frames_held(start, edits, frames, k);
        assert(list[k].frame == frames[k].0);
    }
    if !holds_page(frames, page) {
        lemma_untouched(start, edits, frames, page);
    }
}

/// Where a page of a frame comes among the pages of all frames.
pub open spec fn rank(frames: Content, k: int, s: int) -> int {
    frame_versions(frames.take(k)).len() + s
}

pub proof fn lemma_rank(frames: Content, k: int, s: int)
    requires
        0 <= k < frames.len(),
        0 <= s < frames[k].0.pages.len(),
    ensures
        0 <= rank(frames, k, s) < frame_versions(frames).len(),
        frame_versions(frames)[rank(frames, k, s)] == frames[k].0.pages[s],
        rank(frames, k, s) < frame_versions(frames.take(k + 1)).len(),
        frame_versions(frames.take(k + 1)).len() <= frame_versions(frames).len(),
    decreases frames.len(),
{
    let less = frames.drop_last();
    if k == frames.len() - 1 {
        assert(frames.take(k) =~= less);
        assert(frames.take(k + 1) =~= frames);
    } else {
        lemma_rank(less, k, s);
        assert(less.take(k) =~= frames.take(k));
        assert(less.take(k + 1) =~= frames.take(k + 1));
        assert(less[k] == frames[k]);
    }
}

proof fn lemma_ranks_ascend(frames: Content, k: int, l: int)
    requires
        0 <= k <= l <= frames.len(),
    ensures
        frame_versions(frames.take(k)).len() <= frame_versions(frames.take(l)).len(),
    decreases l - k,
{
    if k < l {
        lemma_ranks_ascend(frames, k, l - 1);
        assert(frames.take(l).drop_last() =~= frames.take(l - 1));
    }
}

proof fn lemma_unrank(frames: Content, q: int) -> (at: (int, int))
    requires
        0 <= q < frame_versions(frames).len(),
    ensures
        0 <= at.0 < frames.len(),
        0 <= at.1 < frames[at.0].0.pages.len(),
        frames[at.0].0.pages[at.1] == frame_versions(frames)[q],
    decreases frames.len(),
{
    let less = frames.drop_last();
    if q < frame_versions(less).len() {
        let at = lemma_unrank(less, q);
        assert(less[at.0] == frames[at.0]);
        at
    } else {
        (frames.len() - 1, q - frame_versions(less).len())
    }
}

/// The pages of a list differ.
pub open spec fn once_each(list: Seq<PageChange>) -> bool {
    forall|i: int, j: int|
        0 <= i < j < list.len() ==> (#[trigger] list[i]).0 != (#[trigger] list[j]).0
}

/// The versions are of different pages of the list, none of which is all zeros.
proof fn lemma_stored_versions(list: Seq<PageChange>, contents: Map<PageNumber, Seq<u8>>, count: int)
    requires
        0 <= count <= list.len(),
        once_each(list),
    ensures
        ({
            let versions = stored_versions(list, contents, count);
            &&& forall|q: int|
                0 <= q < versions.len() ==> exists|i: int|
                    0 <= i < count && !is_zero(contents[list[i].0]) && (#[trigger] versions[q])
                        == version_of(#[trigger] list[i], contents[list[i].0])
            &&& forall|q: int, r: int|
                0 <= q < r < versions.len() ==> (#[trigger] versions[q]).page != (
                #[trigger] versions[r]).page
            &&& forall|i: int|
                0 <= i < count && !is_zero(contents[(#[trigger] list[i]).0]) ==> exists|q: int|
                    0 <= q < versions.len() && #[trigger] versions[q] == version_of(
                        list[i],
                        contents[list[i].0],
                    )
        }),
    decreases count,
{
    if count > 0 {
        let before = stored_versions(list, contents, count - 1);
        let versions = stored_versions(list, contents, count);
        let change = list[count - 1];
        lemma_stored_versions(list, contents, count - 1);
        assert forall|q: int| 0 <= q < versions.len() implies exists|i: int|
            0 <= i < count && !is_zero(contents[list[i].0]) && (#[trigger] versions[q])
                == version_of(#[trigger] list[i], contents[list[i].0]) by {
            if q < before.len() {
                assert(versions[q] == before[q]);
                let i = choose|i: int|
                    0 <= i < count - 1 && !is_zero(contents[list[i].0]) && before[q] == version_of(
                        #[trigger] list[i],
                        contents[list[i].0],
                    );
                assert(versions[q] == version_of(list[i], contents[list[i].0]));
            } else {
                assert(versions[q] == version_of(list[count - 1], contents[change.0]));
            }
        }
        assert forall|q: int, r: int| 0 <= q < r < versions.len() implies (
        #[trigger] versions[q]).page != (#[trigger] versions[r]).page by {
            assert(versions[q] == before[q]);
            if r < before.len() {
                assert(versions[r] == before[r]);
            } else {
                let i = choose|i: int|
                    0 <= i < count - 1 && !is_zero(contents[list[i].0]) && before[q] == version_of(
                        #[trigger] list[i],
                        contents[list[i].0],
                    );
                assert(list[i].0 != list[count - 1].0);
            }
        }
        assert forall|i: int|
            0 <= i < count && !is_zero(contents[(#[trigger] list[i]).0]) implies exists|q: int|
            0 <= q < versions.len() && #[trigger] versions[q] == version_of(
                list[i],
                contents[list[i].0],
            ) by {
            if i < count - 1 {
                let q = choose|q: int|
                    0 <= q < before.len() && #[trigger] before[q] == version_of(
                        list[i],
                        contents[list[i].0],
                    );
                assert(versions[q] == before[q]);
            } else {
                assert(versions[before.len() as int] == version_of(list[i], contents[list[i].0]));
            }
        }
    }
}

/// A page is among the first `count` of the list, and all zeros.
pub open spec fn is_zero_page(
    list: Seq<PageChange>,
    contents: Map<PageNumber, Seq<u8>>,
    count: int,
    page: PageNumber,
) -> bool {
    exists|i: int|
        0 <= i < count && (#[trigger] list[i]).0 == page && is_zero(contents[list[i].0])
}

pub proof fn lemma_zero_pages(list: Seq<PageChange>, contents: Map<PageNumber, Seq<u8>>, count: int)
    requires
        0 <= count <= list.len(),
    ensures
        forall|q: int|
            0 <= q < zero_pages(list, contents, count).len() ==> is_zero_page(
                list,
                contents,
                count,
                #[trigger] zero_pages(list, contents, count)[q],
            ),
        forall|i: int|
            0 <= i < count && is_zero(contents[(#[trigger] list[i]).0]) ==> zero_pages(
                list,
                contents,
                count,
            ).contains(list[i].0),
    decreases count,
{
    if count > 0 {
        let before = zero_pages(list, contents, count - 1);
        let after = zero_pages(list, contents, count);
        lemma_zero_pages(list, contents, count - 1);
        assert forall|q: int| 0 <= q < after.len() implies is_zero_page(
            list,
            contents,
            count,
            #[trigger] after[q],
        ) by {
            if q < before.len() {
                assert(after[q] == before[q]);
                let i = choose|i: int|
                    0 <= i < count - 1 && (#[trigger] list[i]).0 == before[q] && is_zero(
                        contents[list[i].0],
                    );
                assert(list[i].0 == after[q]);
            } else {
                assert(list[count - 1].0 == after[q]);
            }
        }
        assert forall|i: int|
            0 <= i < count && is_zero(contents[(#[trigger] list[i]).0]) implies after.contains(
            list[i].0,
        ) by {
            if i < count - 1 {
                assert(before.contains(list[i].0));
                let q = choose|q: int| 0 <= q < before.len() && before[q] == list[i].0;
                assert(after[q] == list[i].0);
            } else {
                assert(after[before.len() as int] == list[i].0);
            }
        }
    }
}

/// A page of the built frames is one of the list that is not all zeros.
pub open spec fn is_listed(list: Seq<PageChange>, contents: Map<PageNumber, Seq<u8>>, page: PageNumber) -> bool {
    exists|i: int|
        0 <= i < list.len() && (#[trigger] list[i]).0 == page && !is_zero(contents[page])
}

/// The frames that are built for a list have its pages, each once.
pub proof fn lemma_built_pages(
    list: Seq<PageChange>,
    contents: Map<PageNumber, Seq<u8>>,
    built: Content,
)
    requires
        once_each(list),
        frame_versions(built) == stored_versions(list, contents, list.len() as int),
    ensures
        apart(built),
        forall|p: PageNumber| #[trigger] holds_page(built, p) ==> is_listed(list, contents, p),
{
    let versions = stored_versions(list, contents, list.len() as int);
    lemma_stored_versions(list, contents, list.len() as int);
    assert(apart(built)) by {
        assert forall|k: int, s: int, l: int, t: int|
            0 <= k < built.len() && 0 <= l < built.len() && 0 <= s < built[k].0.pages.len() && 0
                <= t < built[l].0.pages.len() && (k != l || s != t) implies (
        #[trigger] built[k].0.pages[s]).page != (#[trigger] built[l].0.pages[t]).page by {
            lemma_rank(built, k, s);
            lemma_rank(built, l, t);
            let q = rank(built, k, s);
            let r = rank(built, l, t);
            if k < l {
                lemma_ranks_ascend(built, k + 1, l);
            }
            if l < k {
                lemma_ranks_ascend(built, l + 1, k);
            }
            assert(q != r);
            if q < r {
                assert(versions[q].page != versions[r].page);
            } else {
                assert(versions[r].page != versions[q].page);
            }
        }
    }
    assert forall|p: PageNumber| #[trigger] holds_page(built, p) implies is_listed(
        list,
        contents,
        p,
    ) by {
        let (k, s) = choose|k: int, s: int|
            0 <= k < built.len() && 0 <= s < built[k].0.pages.len() && (
            #[trigger] built[k].0.pages[s]).page == p;
        lemma_rank(built, k, s);
        let q = rank(built, k, s);
        let i = choose|i: int|
            0 <= i < list.len() && !is_zero(contents[list[i].0]) && versions[q] == version_of(
                #[trigger] list[i],
                contents[list[i].0],
            );
        assert(list[i].0 == p);
    }
}

/// The built frames hold every page of a list that is not all zeros, in the
/// version of its bytes.
pub proof fn lemma_built_version(
    list: Seq<PageChange>,
    contents: Map<PageNumber, Seq<u8>>,
    built: Content,
    i: int,
) -> (at: (int, int))
    requires
        once_each(list),
        frame_versions(built) == stored_versions(list, contents, list.len() as int),
        0 <= i < list.len(),
        !is_zero(contents[list[i].0]),
    ensures
        0 <= at.0 < built.len(),
        0 <= at.1 < built[at.0].0.pages.len(),
        built[at.0].0.pages[at.1] == version_of(list[i], contents[list[i].0]),
{
    let versions = stored_versions(list, contents, list.len() as int);
    lemma_stored_versions(list, contents, list.len() as int);
    let q = choose|q: int|
        0 <= q < versions.len() && #[trigger] versions[q] == version_of(
            list[i],
            contents[list[i].0],
        );
    lemma_unrank(built, q)
}

/// A view finds a page: it stands in a slot of a durable frame whose payload
/// decodes to the bytes of the page there.
pub open spec fn finds(
    view: ViewModel,
    page: PageNumber,
    bytes: Seq<u8>,
    known: Dictionaries,
    origin: int,
    history: Seq<Event>,
) -> bool {
    view.pages.dom().contains(page) && ({
        let stored = view.pages[page];
        let location = view.frames[stored.frame];
        &&& view.frames.dom().contains(stored.frame)
        &&& stored.slot.index < location.frame.pages.len()
        &&& location.frame.pages[stored.slot.index as int].page == page
        &&& exists|payload: Seq<u8>|
            #[trigger] assembly::frame_durable(origin, history, location, payload) && (
            frame::decoded_payload(location.frame.encoding, payload, known) matches Some(raw)
                && location.frame.slot(raw, stored.slot.index as int) == bytes)
    })
}

/// No changed page is among those of the copied frames.
pub open spec fn copied_apart(list: Seq<PageChange>, copies: Content) -> bool {
    forall|i: int| 0 <= i < list.len() ==> !holds_page(copies, (#[trigger] list[i]).0)
}

proof fn lemma_both_apart(
    list: Seq<PageChange>,
    contents: Map<PageNumber, Seq<u8>>,
    copies: Content,
    built: Content,
)
    requires
        once_each(list),
        frame_versions(built) == stored_versions(list, contents, list.len() as int),
        apart(copies),
        copied_apart(list, copies),
    ensures
        apart(copies + built),
        forall|p: PageNumber| #[trigger]
            holds_page(copies + built, p) ==> holds_page(copies, p) || is_listed(list, contents, p),
{
    let all = copies + built;
    let n = copies.len() as int;
    lemma_built_pages(list, contents, built);
    assert forall|k: int, s: int|
        0 <= k < all.len() && 0 <= s < all[k].0.pages.len() implies holds_page(
        if k < n {
            copies
        } else {
            built
        },
        (#[trigger] all[k].0.pages[s]).page,
    ) by {
        if k < n {
            assert(copies[k].0.pages[s] == all[k].0.pages[s]);
        } else {
            assert(built[k - n].0.pages[s] == all[k].0.pages[s]);
        }
    }
    assert forall|p: PageNumber| #[trigger] holds_page(all, p) implies holds_page(copies, p)
        || is_listed(list, contents, p) by {
        let (k, s) = choose|k: int, s: int|
            0 <= k < all.len() && 0 <= s < all[k].0.pages.len() && (
            #[trigger] all[k].0.pages[s]).page == p;
        if k >= n {
            assert(holds_page(built, p));
        }
    }
    assert forall|k: int, s: int, l: int, t: int|
        0 <= k < all.len() && 0 <= l < all.len() && 0 <= s < all[k].0.pages.len() && 0 <= t
            < all[l].0.pages.len() && (k != l || s != t) implies (
    #[trigger] all[k].0.pages[s]).page != (#[trigger] all[l].0.pages[t]).page by {
        let p = all[k].0.pages[s].page;
        let q = all[l].0.pages[t].page;
        if k < n && l < n {
            assert(copies[k].0.pages[s].page != copies[l].0.pages[t].page);
        } else if k >= n && l >= n {
            assert(built[k - n].0.pages[s].page != built[l - n].0.pages[t].page);
        } else if p == q {
            assert(holds_page(copies, p) && holds_page(built, p));
            assert(is_listed(list, contents, p));
        }
    }
}

/// What was sealed is found again. A changed page stands in a durable frame, and
/// that frame's payload decodes to the bytes that were sealed; a changed page
/// that is all zeros is not stored; a page of a copied frame stands in that frame,
/// which is durable as it was copied; any other page stands where the source has
/// it. No page may be named twice, and the names of the frames must differ.
pub proof fn law_seal_reads_back(
    plan: SealPlan,
    endpoint: SealEndpoint,
    changes: Seq<PageChange>,
    contents: Map<PageNumber, Seq<u8>>,
    layout: LayoutPolicy,
    copies: Content,
    origin: int,
    later: Seq<Event>,
    assembled: Assembled,
    built: Content,
    page: PageNumber,
)
    requires
        seal_assembled(
            plan,
            endpoint,
            changes,
            contents,
            layout,
            copies,
            origin,
            later,
            assembled,
            built,
        ),
        once_each(planned(changes, endpoint.size)),
        apart(copies),
        copied_apart(planned(changes, endpoint.size), copies),
        named_apart(copies + built),
    ensures
        ({
            let list = planned(changes, endpoint.size);
            let view = assembly::edited(plan.start, assembled.edits);
            &&& forall|i: int|
                0 <= i < list.len() ==> if is_zero(contents[(#[trigger] list[i]).0]) {
                    !view.pages.dom().contains(list[i].0)
                } else {
                    finds(view, list[i].0, contents[list[i].0], plan.known, origin, later)
                }
            &&& forall|k: int, s: int|
                0 <= k < copies.len() && 0 <= s < copies[k].0.pages.len() ==> stands(
                    view,
                    (#[trigger] copies[k].0.pages[s]).page,
                    copies[k].0,
                    s,
                )
            &&& forall|k: int|
                0 <= k < copies.len() ==> view.frames.dom().contains(
                    (#[trigger] copies[k]).0.id,
                ) && view.frames[copies[k].0.id].frame == copies[k].0 && assembly::frame_durable(
                    origin,
                    later,
                    view.frames[copies[k].0.id],
                    copies[k].1,
                )
            &&& (forall|i: int| 0 <= i < list.len() ==> (#[trigger] list[i]).0 != page)
                && !holds_page(copies, page) ==> (view.pages.dom().contains(page)
                <==> plan.start.pages.dom().contains(page)) && view.pages[page]
                == plan.start.pages[page]
        }),
{
    let list = planned(changes, endpoint.size);
    let view = assembly::edited(plan.start, assembled.edits);
    let dropped = assembly::dropped_list(assembled.edits);
    let versions = stored_versions(list, contents, list.len() as int);
    let n = copies.len() as int;
    lemma_stored_versions(list, contents, list.len() as int);
    lemma_zero_pages(list, contents, list.len() as int);
    lemma_both_apart(list, contents, copies, built);
    assert forall|i: int| 0 <= i < dropped.len() implies !holds_page(
        assembled.frames,
        #[trigger] dropped[i],
    ) by {
        let j = choose|j: int|
            0 <= j < list.len() && (#[trigger] list[j]).0 == dropped[i] && is_zero(
                contents[list[j].0],
            );
        assert(is_zero_page(list, contents, list.len() as int, dropped[i]));
        assert(!holds_page(copies, list[j].0));
    }
    law_assembled_view(plan.start, assembled, origin, later, page);
    assert forall|i: int| 0 <= i < list.len() implies if is_zero(contents[(#[trigger] list[i]).0]) {
        !view.pages.dom().contains(list[i].0)
    } else {
        finds(view, list[i].0, contents[list[i].0], plan.known, origin, later)
    } by {
        let p = list[i].0;
        if is_zero(contents[p]) {
            law_assembled_view(plan.start, assembled, origin, later, p);
            assert(dropped.contains(p));
        } else {
            let q = choose|q: int|
                0 <= q < versions.len() && #[trigger] versions[q] == version_of(
                    list[i],
                    contents[p],
                );
            let at = lemma_unrank(built, q);
            let k = at.0;
            let s = at.1;
            let place = n + k;
            assert(assembled.frames[place] == built[k]);
            assert(assembled.frames[place].0.pages[s].page == p);
            assert(stands(view, p, built[k].0, s));
            assert(faithful(
                built[k],
                endpoint.size.page_size,
                plan.known,
                layout.level as int,
                contents,
            ));
            frame::lemma_frame_small(built[k].0);
            let location = assembly::placed_list(assembled.edits)[place];
            assert(view.frames[built[k].0.id] == location);
            assert(location.frame == built[k].0) by {
                reveal(assembly::settled);
            }
            assert(assembly::frame_durable(origin, later, location, built[k].1));
        }
    }
    assert forall|k: int| 0 <= k < copies.len() implies view.frames.dom().contains(
        (#[trigger] copies[k]).0.id,
    ) && view.frames[copies[k].0.id].frame == copies[k].0 && assembly::frame_durable(
        origin,
        later,
        view.frames[copies[k].0.id],
        copies[k].1,
    ) by {
        assert(assembled.frames[k] == copies[k]);
        let location = assembly::placed_list(assembled.edits)[k];
        assert(location.frame == copies[k].0) by {
            reveal(assembly::settled);
        }
    }
    assert forall|k: int, s: int|
        0 <= k < copies.len() && 0 <= s < copies[k].0.pages.len() implies stands(
        view,
        (#[trigger] copies[k].0.pages[s]).page,
        copies[k].0,
        s,
    ) by {
        assert(assembled.frames[k] == copies[k]);
        assert(assembled.frames[k].0.pages[s] == copies[k].0.pages[s]);
    }
    if (forall|i: int| 0 <= i < list.len() ==> (#[trigger] list[i]).0 != page) && !holds_page(
        copies,
        page,
    ) {
        assert(!is_listed(list, contents, page));
        assert(!holds_page(assembled.frames, page));
        if dropped.contains(page) {
            let q = choose|q: int| 0 <= q < dropped.len() && dropped[q] == page;
            let j = choose|j: int|
                0 <= j < list.len() && (#[trigger] list[j]).0 == dropped[q] && is_zero(
                    contents[list[j].0],
                );
            assert(is_zero_page(list, contents, list.len() as int, dropped[q]));
        }
    }
}

/// A seal writes every change of a page within the new size, and no other, by ascending
/// pages.
pub proof fn law_every_change_is_sealed(changes: Seq<PageChange>, size: LogicalBytes)
    requires
        changes.len() <= usize::MAX,
    ensures
        ({
            let list = planned(changes, size);
            &&& forall|i: int|
                0 <= i < changes.len() && (#[trigger] changes[i]).0.value <= size.count()
                    ==> list.contains(changes[i])
            &&& forall|i: int|
                0 <= i < list.len() ==> changes.contains(#[trigger] list[i]) && list[i].0.value
                    <= size.count()
            &&& forall|i: int, j: int|
                0 <= i < j < list.len() ==> (#[trigger] list[i]).0.value <= (
                #[trigger] list[j]).0.value
            &&& list.len() == changes.filter(
                |change: PageChange| change.0.value <= size.count(),
            ).len()
        }),
{
    let within = kept(changes, size.count(), changes.len() as int);
    lemma_kept_is_filtered(changes, size.count(), changes.len() as int);
    let pick = |change: PageChange| change.0.value <= size.count();
    assert(changes.take(changes.len() as int) =~= changes);
    assert(within == changes.filter(pick));
    changes.lemma_filter_len(pick);
    sorting::lemma_order_exists(within);
    let order = sorting::order_of(within);
    let list = planned(changes, size);
    assert forall|i: int| 0 <= i < changes.len() && (#[trigger] changes[i]).0.value
        <= size.count() implies list.contains(changes[i]) by {
        lemma_in_filter(changes, pick, i);
        let k = choose|k: int| 0 <= k < within.len() && within[k] == changes[i];
        assert(order.contains(sorting::place(k)));
        let j = choose|j: int| 0 <= j < order.len() && order[j] == sorting::place(k);
        assert(list[j] == changes[i]);
    }
    assert forall|i: int| 0 <= i < list.len() implies changes.contains(#[trigger] list[i])
        && list[i].0.value <= size.count() by {
        assert(list[i] == within[order[i] as int]);
        lemma_from_filter(changes, pick, order[i] as int);
    }
    assert forall|i: int, j: int| 0 <= i < j < list.len() implies (#[trigger] list[i]).0.value <= (
    #[trigger] list[j]).0.value by {
        assert(<PageChange as Ranked>::at_most(
            within[order[i] as int],
            within[order[j] as int],
        ));
    }
}

proof fn lemma_kept_is_filtered(changes: Seq<PageChange>, last: int, count: int)
    requires
        0 <= count <= changes.len(),
    ensures
        kept(changes, last, count) == changes.take(count).filter(
            |change: PageChange| change.0.value <= last,
        ),
    decreases count,
{
    reveal_with_fuel(Seq::filter, 1);
    if count > 0 {
        lemma_kept_is_filtered(changes, last, count - 1);
        assert(changes.take(count).drop_last() =~= changes.take(count - 1));
    } else {
        assert(changes.take(count) =~= Seq::<PageChange>::empty());
        assert(kept(changes, last, count) =~= Seq::<PageChange>::empty());
    }
}

proof fn lemma_in_filter(list: Seq<PageChange>, pick: spec_fn(PageChange) -> bool, i: int)
    requires
        0 <= i < list.len(),
        pick(list[i]),
    ensures
        list.filter(pick).contains(list[i]),
    decreases list.len(),
{
    reveal_with_fuel(Seq::filter, 1);
    let rest = list.drop_last();
    let all = list.filter(pick);
    if i == list.len() - 1 {
        assert(all[all.len() - 1] == list[i]);
    } else {
        lemma_in_filter(rest, pick, i);
        let k = choose|k: int| 0 <= k < rest.filter(pick).len() && rest.filter(pick)[k] == list[i];
        assert(all[k] == list[i]);
    }
}

proof fn lemma_from_filter(list: Seq<PageChange>, pick: spec_fn(PageChange) -> bool, k: int)
    requires
        0 <= k < list.filter(pick).len(),
    ensures
        list.contains(list.filter(pick)[k]),
        pick(list.filter(pick)[k]),
    decreases list.len(),
{
    reveal_with_fuel(Seq::filter, 1);
    if list.len() > 0 {
        let rest = list.drop_last();
        let all = list.filter(pick);
        if k < rest.filter(pick).len() {
            lemma_from_filter(rest, pick, k);
            let i = choose|i: int| 0 <= i < rest.len() && rest[i] == rest.filter(pick)[k];
            assert(list[i] == all[k]);
        } else {
            assert(all[k] == list.last());
            assert(list[list.len() - 1] == all[k]);
        }
    }
}

/// The version of a page that was sealed names the page, the transaction that wrote it,
/// and the digest of both with its bytes. Pages that are all zeros have none.
pub proof fn law_sealed_versions(
    list: Seq<PageChange>,
    contents: Map<PageNumber, Seq<u8>>,
    count: int,
    i: int,
)
    requires
        0 <= i < count <= list.len(),
        exists|k: int| 0 <= k < contents[list[i].0].len() && contents[list[i].0][k] != 0,
    ensures
        exists|q: int|
            0 <= q < stored_versions(list, contents, count).len() && ({
                let version = #[trigger] stored_versions(list, contents, count)[q];
                &&& version.page == list[i].0
                &&& version.txid == list[i].1
                &&& frame::sound_page(version, contents[list[i].0])
            }),
    decreases count,
{
    let all = stored_versions(list, contents, count);
    let prior = stored_versions(list, contents, count - 1);
    if i == count - 1 {
        let version = version_of(list[i], contents[list[i].0]);
        frame::lemma_id_bytes::<CHECKSUM>(
            digest::content_hash(
                frame::checksum_input(list[i].0, list[i].1, contents[list[i].0]),
            ),
        );
        assert(all[prior.len() as int] == version);
        assert(frame::sound_page(version, contents[list[i].0]));
    } else {
        law_sealed_versions(list, contents, count - 1, i);
        let q = choose|q: int|
            0 <= q < prior.len() && ({
                let version = #[trigger] prior[q];
                &&& version.page == list[i].0
                &&& version.txid == list[i].1
                &&& frame::sound_page(version, contents[list[i].0])
            });
        assert(all[q] == prior[q]);
    }
}

/// A seal starts at its endpoint with the pages of its source that neither the new size
/// nor a truncation cuts off; nothing else of the source is lost.
pub proof fn law_seal_starts_with_the_source(
    source: ViewModel,
    endpoint: SealEndpoint,
    page: PageNumber,
)
    requires
        endpoint.size.count() <= u32::MAX,
        0 <= endpoint.size.count(),
    ensures
        ({
            let start = seal_start(Some(source), endpoint);
            let cut = endpoint.truncate matches Some(last) && page.value > last;
            &&& start.pages.dom().contains(page) <==> source.pages.dom().contains(page) && page.value
                <= endpoint.size.count() && !cut
            &&& start.pages.dom().contains(page) ==> start.pages[page] == source.pages[page]
            &&& start.frames == source.frames
            &&& start.preferred == source.preferred
            &&& start.database == source.database
            &&& start.lineage == source.lineage
            &&& start.size == endpoint.size
            &&& start.txid == endpoint.txid
        }),
{
}

/// A first seal starts without pages, for the database and the lineage of its endpoint.
pub proof fn law_first_seal_starts_empty(endpoint: SealEndpoint, page: PageNumber)
    ensures
        ({
            let start = seal_start(None, endpoint);
            &&& !start.pages.dom().contains(page)
            &&& start.frames == Map::<FrameId, LocationModel>::empty()
            &&& start.database == endpoint.database
            &&& start.lineage == endpoint.lineage
            &&& start.size == endpoint.size
            &&& start.txid == endpoint.txid
            &&& start.parent_seal is None
        }),
{
}

/// A view that is newer than its source is sealed onto it: it names the source's hash as
/// its parent. One that is not keeps what it had: a rewrite at the same transaction has
/// the same parent and the same history.
pub proof fn law_only_newer_views_get_a_parent(view: ViewModel, source: ViewModel)
    ensures
        view.txid.value > source.txid.value ==> sealed_onto(view, Some(source)).parent_seal == Some(
            source.hash(),
        ),
        view.txid.value <= source.txid.value ==> sealed_onto(view, Some(source)) == view,
        sealed_onto(view, None).parent_seal is None,
        sealed_onto(view, Some(source)).pages == view.pages,
        sealed_onto(view, Some(source)).frames == view.frames,
        sealed_onto(view, Some(source)).txid == view.txid,
        sealed_onto(view, Some(source)).size == view.size,
{
}

/// A dictionary that is adopted is among the preferred ones, of which there are never
/// more than four. The first of them stays the first; where there were four, only the
/// second leaves; and none is named twice.
pub proof fn law_preferred_dictionaries(
    list: Seq<DictionaryId>,
    id: DictionaryId,
    other: DictionaryId,
)
    requires
        list.len() <= 4,
        list.no_duplicates(),
    ensures
        ({
            let after = preferred_with(list, id);
            &&& after.contains(id)
            &&& after.len() <= 4
            &&& after.no_duplicates()
            &&& list.len() > 0 ==> after[0] == list[0]
            &&& list.contains(other) && !(list.len() == 4 && !list.contains(id) && other == list[1])
                ==> after.contains(other)
            &&& after.contains(other) ==> other == id || list.contains(other)
        }),
{
    let after = preferred_with(list, id);
    if !list.contains(id) {
        assert(after[after.len() - 1] == id);
        if list.len() == 4 {
            let rest = list.remove(1);
            assert(rest =~= seq![list[0], list[2], list[3]]);
            assert(after =~= seq![list[0], list[2], list[3], id]);
            if list.contains(other) && other != list[1] {
                let k = choose|k: int| 0 <= k < list.len() && list[k] == other;
                if k == 0 {
                    assert(after[0] == other);
                } else if k == 2 {
                    assert(after[1] == other);
                } else {
                    assert(after[2] == other);
                }
            }
            if after.contains(other) {
                let k = choose|k: int| 0 <= k < after.len() && after[k] == other;
                if k == 0 {
                    assert(list[0] == other);
                } else if k == 1 {
                    assert(list[2] == other);
                } else if k == 2 {
                    assert(list[3] == other);
                }
            }
            assert forall|i: int, j: int| 0 <= i < j < after.len() implies after[i] != after[j] by {
                assert(list.contains(list[0]) && list.contains(list[2]) && list.contains(list[3]));
            }
        } else {
            if list.contains(other) {
                let k = choose|k: int| 0 <= k < list.len() && list[k] == other;
                assert(after[k] == other);
            }
            if after.contains(other) && other != id {
                let k = choose|k: int| 0 <= k < after.len() && after[k] == other;
                assert(list[k] == other);
            }
            assert forall|i: int, j: int| 0 <= i < j < after.len() implies after[i] != after[j] by {
                if j == list.len() {
                    assert(list.contains(list[i]));
                }
            }
        }
    }
}

/// The frames of a seal are filled: each holds a page at least, one that holds several
/// has no more bytes of pages than the layout says, and only the last could have taken
/// another page.
pub proof fn law_frames_are_filled(
    plan: SealPlan,
    endpoint: SealEndpoint,
    changes: Seq<PageChange>,
    contents: Map<PageNumber, Seq<u8>>,
    layout: LayoutPolicy,
    copies: Content,
    origin: int,
    later: Seq<Event>,
    assembled: Assembled,
    built: Content,
    k: int,
)
    requires
        seal_assembled(
            plan,
            endpoint,
            changes,
            contents,
            layout,
            copies,
            origin,
            later,
            assembled,
            built,
        ),
        0 <= k < built.len(),
    ensures
        ({
            let pages = built[k].0.pages.len();
            let unit = endpoint.size.page_size.value;
            &&& 1 <= pages
            &&& pages > 1 ==> pages * unit <= layout.frame_bytes
            &&& k + 1 < built.len() ==> (pages + 1) * unit > layout.frame_bytes
        }),
{
    let frame = built[k];
}

/// The packs of a seal are as long as the layout says: joined, they hold the frames that
/// were copied and then those that were built, in order. Every pack but the last has
/// reached the target, or holds eight mebibytes of metadata, and no pack had before its
/// last frame.
pub proof fn law_packs_reach_the_target(frames: Content, target: u64)
    ensures
        ({
            let packs = assembly::packs_of(frames, target);
            &&& joined(packs, packs.len() as int) == frames
            &&& forall|k: int|
                0 <= k < packs.len() ==> {
                    let pack = #[trigger] packs[k];
                    &&& pack.len() > 0
                    &&& k + 1 < packs.len() ==> pack::pack_bytes(pack).len() >= target
                        || pack_writer::metadata_size(pack) >= 8388608
                    &&& pack.len() > 1 ==> pack::pack_bytes(pack.drop_last()).len() < target
                        && pack_writer::metadata_size(pack.drop_last()) < 8388608
                }
        }),
{
    lemma_cut(frames, target);
    let (packs, open) = assembly::cut(frames, target);
    let all = assembly::packs_of(frames, target);
    if open.len() > 0 {
        assert(all =~= packs.push(open));
        lemma_joined_push(packs, open, packs.len() as int);
        assert(joined(all, all.len() as int) =~= joined(packs, packs.len() as int) + open);
    } else {
        assert(joined(packs, packs.len() as int) + open =~= joined(packs, packs.len() as int));
    }
}

/// The frames of the first `count` packs, one after the other.
pub open spec fn joined(packs: Seq<Content>, count: int) -> Content
    decreases count,
{
    if count <= 0 {
        Seq::empty()
    } else {
        joined(packs, count - 1) + packs[count - 1]
    }
}

proof fn lemma_joined_push(packs: Seq<Content>, more: Content, count: int)
    requires
        0 <= count <= packs.len(),
    ensures
        joined(packs.push(more), count) == joined(packs, count),
    decreases count,
{
    if count > 0 {
        lemma_joined_push(packs, more, count - 1);
    }
}

proof fn lemma_cut(frames: Content, target: u64)
    ensures
        ({
            let (packs, open) = assembly::cut(frames, target);
            &&& joined(packs, packs.len() as int) + open == frames
            &&& open.len() > 0 ==> !assembly::is_full(open, target)
            &&& open.len() > 1 ==> !assembly::is_full(open.drop_last(), target)
            &&& forall|k: int|
                0 <= k < packs.len() ==> {
                    let pack = #[trigger] packs[k];
                    &&& pack.len() > 0
                    &&& assembly::is_full(pack, target)
                    &&& pack.len() > 1 ==> !assembly::is_full(pack.drop_last(), target)
                }
        }),
    decreases frames.len(),
{
    if frames.len() > 0 {
        lemma_cut(frames.drop_last(), target);
        let (packs, open) = assembly::cut(frames.drop_last(), target);
        let longer = open.push(frames.last());
        assert(longer.drop_last() =~= open);
        assert(frames =~= frames.drop_last().push(frames.last()));
        assert(joined(packs, packs.len() as int) + longer =~= frames);
        if assembly::is_full(longer, target) {
            let all = packs.push(longer);
            lemma_joined_push(packs, longer, packs.len() as int);
            assert(joined(all, all.len() as int) =~= joined(packs, packs.len() as int) + longer);
            assert(joined(all, all.len() as int) + Seq::empty() =~= frames);
        }
    } else {
        assert(joined(Seq::<Content>::empty(), 0) + Seq::empty() =~= frames);
    }
}

/// Every changed page is offered to the reservoir, in the order of the changes.
pub proof fn law_changes_are_sampled(
    pool: SamplesModel,
    changes: Seq<PageChange>,
    contents: Map<PageNumber, Seq<u8>>,
    count: int,
)
    requires
        0 <= count <= changes.len(),
    ensures
        sampled(pool, changes, contents, count) == samples::offered(
            pool,
            changes.map_values(|change: PageChange| contents[change.0]),
            count,
        ),
    decreases count,
{
    if count > 0 {
        law_changes_are_sampled(pool, changes, contents, count - 1);
    }
}

} // verus!
