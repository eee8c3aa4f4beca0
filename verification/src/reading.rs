//! Reading a range of bytes of a view.

use crate::adapter;
use crate::adapter::{Event, StorageBackend};
use crate::assembly;
use crate::bytes::{append, copied};
use crate::cache;
use crate::digest;
use crate::domain::{BlobId, DictionaryId, LogicalBytes, PageNumber};
use crate::error::StoreError;
use crate::format::FRAME_HEADER_SIZE;
use crate::frame;
use crate::pack_writer;
use crate::pack_writer::Content;
use crate::page;
use crate::page::ResolvedPage;
use crate::pinned::PinnedView;
use crate::validation;
use crate::view::{LocationModel, ViewModel};
use vstd::prelude::*;
use vstd::slice::slice_subrange;

verus! {

/// The bytes of a page, which has the page size.
pub open spec fn is_page(view: ViewModel, page: PageNumber, bytes: Seq<u8>) -> bool {
    bytes.len() == view.size.page_size.value && cache::good(view, page, bytes)
}

/// Pages one after the other.
pub open spec fn joined(pages: Seq<Seq<u8>>) -> Seq<u8>
    decreases pages.len(),
{
    if pages.len() == 0 {
        Seq::empty()
    } else {
        joined(pages.drop_last()) + pages.last()
    }
}

/// The pages are those of a view from a number on.
pub open spec fn are_pages(view: ViewModel, first: int, pages: Seq<Seq<u8>>) -> bool {
    forall|i: int|
        0 <= i < pages.len() ==> is_page(
            view,
            PageNumber { value: (first + i) as u32 },
            #[trigger] pages[i],
        )
}

/// Where a range of a view ends: it stops at the size.
pub open spec fn end_of(size: LogicalBytes, offset: u64, length: usize) -> int {
    if offset + length < size.bytes {
        offset + length
    } else {
        size.bytes as int
    }
}

/// What a range of a view holds, from its pages.
pub open spec fn range_of(
    view: ViewModel,
    offset: u64,
    length: usize,
    pages: Seq<Seq<u8>>,
    bytes: Seq<u8>,
) -> bool {
    let unit = view.size.page_size.value as int;
    let end = end_of(view.size, offset, length);
    if offset >= end {
        pages.len() == 0 && bytes.len() == 0
    } else {
        let first = offset as int / unit;
        &&& pages.len() == (end - 1) / unit - first + 1
        &&& are_pages(view, first + 1, pages)
        &&& bytes == joined(pages).subrange(offset - first * unit, end - first * unit)
    }
}

/// A range of a view was read from pages of it.
pub open spec fn range_read(view: ViewModel, offset: u64, length: usize, bytes: Seq<u8>) -> bool {
    exists|pages: Seq<Seq<u8>>| #[trigger] range_of(view, offset, length, pages, bytes)
}

/// Some page of a range could not be read.
pub open spec fn range_failed(
    pin: &PinnedView,
    offset: u64,
    length: usize,
    history: Seq<Event>,
    error: StoreError,
) -> bool {
    exists|page: PageNumber, at: int|
        {
            let unit = pin@.metadata.view.size.page_size.value as int;
            &&& offset as int / unit < page.value <= (end_of(
                pin@.metadata.view.size,
                offset,
                length,
            ) - 1) / unit + 1
            &&& #[trigger] cache::read_failed(pin, page, Map::empty(), history, at, error)
        }
}

proof fn lemma_page_length(view: ViewModel, frame: frame::FrameModel, raw: Seq<u8>, slot: int)
    requires
        frame.sound(),
        frame.shape.page_size == view.size.page_size,
        0 <= slot < frame.pages.len(),
        raw.len() == frame.shape.size(),
    ensures
        frame.slot(raw, slot).len() == view.size.page_size.value,
{
    frame::lemma_slot_small(frame, slot);
}

fn read_page<B: StorageBackend>(backend: &mut B, pin: &PinnedView, page: PageNumber) -> (bytes: Result<
    Vec<u8>,
    StoreError,
>)
    ensures
        final(backend).namespace() == old(backend).namespace(),
        adapter::extends(old(backend).history(), final(backend).history()),
        adapter::quiet(old(backend).history(), final(backend).history()),
        match bytes {
            Ok(b) => is_page(pin@.metadata.view, page, b@),
            Err(e) => cache::read_failed(
                pin,
                page,
                Map::empty(),
                final(backend).history(),
                old(backend).history().len() as int,
                e,
            ),
        },
{
    let ghost view = pin@.metadata.view;
    let resolved: ResolvedPage<'_> = match pin.resolve(page) {
        Ok(resolved) => resolved,
        Err(error) => {
            return Err(error);
        },
    };
    let metadata = pin.metadata().resolved();
    let bytes: Result<Vec<u8>, StoreError> = resolved.read(backend);
    proof {
        match &resolved {
            ResolvedPage::Zero(_) => {},
            ResolvedPage::Stored(stored) => {
                assert(view.pages.dom().contains(page));
                assert(view.resolves(view.pages[page]));
                let location = stored.location();
                assert(validation::location_sound(view, view.pages[page].frame, location));
                match &bytes {
                    Ok(b) => {
                        let raw = choose|raw: Seq<u8>| #[trigger]
                            page::fetched(
                                backend.history(),
                                old(backend).history().len() as int,
                                stored,
                                Ok(raw),
                            ) && b@ == location.frame.slot(raw, stored.place().index as int);
                        lemma_page_length(view, location.frame, raw, stored.place().index as int);
                        assert(cache::is_version(view, page, view.version(view.pages[page])));
                    },
                    Err(_) => {},
                }
            },
        }
    }
    bytes
}

impl PinnedView {
    /// Reads up to `length` bytes from an offset on, as far as the view goes.
    pub fn read_at<B: StorageBackend>(&self, backend: &mut B, offset: u64, length: usize) -> (bytes:
        Result<Vec<u8>, StoreError>)
        ensures
            final(backend).namespace() == old(backend).namespace(),
            adapter::extends(old(backend).history(), final(backend).history()),
            adapter::quiet(old(backend).history(), final(backend).history()),
            match bytes {
                Ok(b) => range_read(self@.metadata.view, offset, length, b@),
                Err(e) => range_failed(self, offset, length, final(backend).history(), e),
            },
    {
        let size: LogicalBytes = self.metadata().resolved().size;
        let ghost view = self@.metadata.view;
        let unit: u64 = size.page_size.value as u64;
        let end: u64 = match offset.checked_add(length as u64) {
            Some(end) => if end < size.bytes {
                end
            } else {
                size.bytes
            },
            None => size.bytes,
        };
        assert(end == end_of(size, offset, length));
        if offset >= end {
            let none: Vec<u8> = Vec::new();
            assert(range_of(view, offset, length, Seq::empty(), none@));
            return Ok(none);
        }
        let first: u64 = offset / unit;
        let last: u64 = (end - 1) / unit;
        proof {
            lemma_places(offset as int, end as int, size, first as int, last as int);
        }
        let mut whole: Vec<u8> = Vec::new();
        let ghost mut pages = Seq::<Seq<u8>>::empty();
        let mut i: u64 = first;
        while i <= last
            invariant
                view == self@.metadata.view,
                size == view.size,
                size.wf(),
                unit == size.page_size.value,
                offset < end,
                end == end_of(size, offset, length),
                first == offset as int / unit as int,
                last == (end - 1) / unit as int,
                first <= i <= last + 1,
                last < size.count() <= u32::MAX,
                pages.len() == i - first,
                are_pages(view, first + 1, pages),
                whole@ == joined(pages),
                whole@.len() == pages.len() * unit,
                backend.namespace() == old(backend).namespace(),
                adapter::extends(old(backend).history(), backend.history()),
                adapter::quiet(old(backend).history(), backend.history()),
            decreases last + 1 - i,
        {
            let number: PageNumber = PageNumber { value: i as u32 + 1 };
            let ghost at = backend.history();
            let bytes: Vec<u8> = match read_page(backend, self, number) {
                Ok(bytes) => bytes,
                Err(error) => {
                    assert(cache::read_failed(
                        self,
                        number,
                        Map::empty(),
                        backend.history(),
                        at.len() as int,
                        error,
                    ));
                    return Err(error);
                },
            };
            append(&mut whole, bytes.as_slice());
            proof {
                let more = pages.push(bytes@);
                assert(more.drop_last() =~= pages);
                assert forall|k: int| 0 <= k < more.len() implies is_page(
                    view,
                    PageNumber { value: (first + 1 + k) as u32 },
                    #[trigger] more[k],
                ) by {
                    if k < pages.len() {
                        assert(more[k] == pages[k]);
                    }
                }
                assert(more.len() * unit == pages.len() * unit + unit) by (nonlinear_arith)
                    requires
                        more.len() == pages.len() + 1,
                ;
                pages = more;
            }
            i = i + 1;
        }
        proof {
            lemma_cut(offset as int, end as int, unit as int, first as int, last as int);
            assert(pages.len() == last + 1 - first);
            assert(end - first * unit <= whole@.len());
            assert(whole@.len() == whole.len());
        }
        let from: usize = (offset - first * unit) as usize;
        let to: usize = from + (end - offset) as usize;
        let cut: Vec<u8> = copied(slice_subrange(whole.as_slice(), from, to));
        assert(range_of(view, offset, length, pages, cut@));
        Ok(cut)
    }
}

proof fn lemma_places(offset: int, end: int, size: LogicalBytes, first: int, last: int)
    requires
        size.wf(),
        0 <= offset < end <= size.bytes,
        first == offset / size.page_size.value as int,
        last == (end - 1) / size.page_size.value as int,
    ensures
        0 <= first <= last < size.count() <= u32::MAX,
{
    let unit = size.page_size.value as int;
    let bytes = size.bytes as int;
    assert(0 <= offset / unit <= (end - 1) / unit) by (nonlinear_arith)
        requires
            0 <= offset <= end - 1,
            unit > 0,
    ;
    assert((end - 1) / unit < bytes / unit) by (nonlinear_arith)
        requires
            end <= bytes,
            bytes % unit == 0,
            unit > 0,
    ;
}

proof fn lemma_cut(offset: int, end: int, unit: int, first: int, last: int)
    requires
        0 <= offset < end,
        unit > 0,
        first == offset / unit,
        last == (end - 1) / unit,
    ensures
        0 <= first * unit <= offset,
        offset - first * unit < unit,
        end - first * unit <= (last + 1 - first) * unit,
{
    assert(0 <= first * unit <= offset && offset - first * unit < unit && end - first * unit <= (last
        + 1 - first) * unit) by (nonlinear_arith)
        requires
            0 <= offset < end,
            unit > 0,
            first == offset / unit,
            last == (end - 1) / unit,
    ;
}

/// What was sealed is what is read. Where a blob was installed with a frame whose
/// payload decodes to the frame's bytes, the record that the frame's location
/// names in that blob is not refused, and holds those bytes and no others.
pub proof fn law_sealed_frame_is_read(
    event: Event,
    blob: BlobId,
    content: Content,
    i: int,
    location: LocationModel,
    payload: Seq<u8>,
    known: Map<DictionaryId, Seq<u8>>,
    raw: Seq<u8>,
    record: Seq<u8>,
)
    requires
        assembly::frame_in(event, blob, content, i, location, payload),
        frame::decoded_payload(location.frame.encoding, payload, known) == Some(raw),
        location.frame.verifies(raw),
        record == pack_writer::pack_blob(location.pack, content).subrange(
            32 + location.payload.offset.value - FRAME_HEADER_SIZE,
            32 + location.payload.offset.value + location.payload.length.value,
        ),
    ensures
        page::record_holds(location, record, known, raw),
        forall|other: Seq<u8>| #[trigger]
            page::record_holds(location, record, known, other) ==> other == raw,
{
    pack_writer::law_payload_found(location.pack, content, i);
    let whole = pack_writer::pack_blob(location.pack, content);
    let at = 32 + location.payload.offset.value;
    assert(record.take(FRAME_HEADER_SIZE as int) =~= whole.subrange(at - FRAME_HEADER_SIZE, at));
    assert(page::record_payload(record) =~= whole.subrange(
        at as int,
        at + location.payload.length.value,
    ));
    assert(content[i].0.describes(content[i].1));
}

/// A range that is read has the bytes of the pages that it lies in: byte `i` of it is the
/// byte at `offset + i` of the pages one after the other. It stops at the size of the
/// view, and has every byte before that.
pub proof fn law_range_is_cut_out_of_pages(
    view: ViewModel,
    offset: u64,
    length: usize,
    pages: Seq<Seq<u8>>,
    bytes: Seq<u8>,
    i: int,
)
    requires
        view.size.page_size.value > 0,
        range_of(view, offset, length, pages, bytes),
    ensures
        bytes.len() == if offset >= view.size.bytes {
            0
        } else if offset + length <= view.size.bytes {
            length as int
        } else {
            view.size.bytes - offset
        },
        0 <= i < bytes.len() ==> {
            let unit = view.size.page_size.value as int;
            let k = (offset + i) / unit - offset as int / unit;
            &&& 0 <= k < pages.len()
            &&& is_page(view, PageNumber { value: ((offset + i) / unit + 1) as u32 }, pages[k])
            &&& bytes[i] == pages[k][(offset + i) % unit]
        },
{
    let unit = view.size.page_size.value as int;
    let end = end_of(view.size, offset, length);
    if offset < end {
        let first = offset as int / unit;
        let last = (end - 1) / unit;
        let whole = joined(pages);
        assert forall|k: int| 0 <= k < pages.len() implies (#[trigger] pages[k]).len() == unit by {
            assert(is_page(view, PageNumber { value: (first + 1 + k) as u32 }, pages[k]));
        }
        lemma_joined_pages(pages, unit);
        assert(first * unit <= offset < (first + 1) * unit && last * unit <= end - 1 < (last + 1) * unit)
            by {
            lemma_divided(offset as int, unit);
            lemma_divided(end - 1, unit);
        }
        assert(pages.len() * unit == (last + 1) * unit - first * unit) by (nonlinear_arith)
            requires
                pages.len() == last - first + 1,
        ;
        assert(bytes.len() == end - offset);
        if 0 <= i < bytes.len() {
            let at = offset + i;
            lemma_divided(at, unit);
            let k = at / unit - first;
            assert(0 <= k < pages.len()) by (nonlinear_arith)
                requires
                    k == at / unit - first,
                    at / unit * unit <= at < (at / unit + 1) * unit,
                    first * unit <= at,
                    at < (last + 1) * unit,
                    pages.len() == last - first + 1,
                    unit > 0,
                    at >= first * unit,
            ;
            assert(at - first * unit == k * unit + at % unit) by (nonlinear_arith)
                requires
                    k == at / unit - first,
                    at == unit * (at / unit) + at % unit,
            ;
            assert(is_page(view, PageNumber { value: (first + 1 + k) as u32 }, pages[k]));
            assert(whole[k * unit + at % unit] == pages[k][at % unit]);
            assert(bytes[i] == whole[at - first * unit]);
        }
    }
}

proof fn lemma_divided(x: int, unit: int)
    requires
        0 <= x,
        0 < unit,
    ensures
        x / unit * unit <= x < (x / unit + 1) * unit,
        x == unit * (x / unit) + x % unit,
        0 <= x % unit < unit,
        0 <= x / unit,
{
    vstd::arithmetic::div_mod::lemma_fundamental_div_mod(x, unit);
    vstd::arithmetic::div_mod::lemma_mod_bound(x, unit);
    vstd::arithmetic::div_mod::lemma_div_pos_is_pos(x, unit);
    assert(x / unit * unit <= x < (x / unit + 1) * unit) by (nonlinear_arith)
        requires
            x == unit * (x / unit) + x % unit,
            0 <= x % unit < unit,
    ;
}

proof fn lemma_joined_pages(pages: Seq<Seq<u8>>, unit: int)
    requires
        unit > 0,
        forall|k: int| 0 <= k < pages.len() ==> (#[trigger] pages[k]).len() == unit,
    ensures
        joined(pages).len() == pages.len() * unit,
        forall|k: int, r: int|
            0 <= k < pages.len() && 0 <= r < unit ==> joined(pages)[k * unit + r] == #[trigger] pages[k][r],
    decreases pages.len(),
{
    if pages.len() > 0 {
        let rest = pages.drop_last();
        assert forall|k: int| 0 <= k < rest.len() implies (#[trigger] rest[k]).len() == unit by {
            assert(rest[k] == pages[k]);
        }
        lemma_joined_pages(rest, unit);
        let n = rest.len() as int;
        assert(pages.len() * unit == n * unit + unit) by (nonlinear_arith)
            requires
                pages.len() == n + 1,
        ;
        assert(pages.last().len() == unit) by {
            assert(pages[n].len() == unit);
        }
        assert forall|k: int, r: int| 0 <= k < pages.len() && 0 <= r < unit implies joined(
            pages,
        )[k * unit + r] == #[trigger] pages[k][r] by {
            if k < n {
                assert(0 <= k * unit + r < n * unit) by (nonlinear_arith)
                    requires
                        0 <= k < n,
                        0 <= r < unit,
                ;
                assert(rest[k][r] == pages[k][r]);
            } else {
                assert(k == n);
            }
        }
    } else {
        assert(pages.len() * unit == 0) by (nonlinear_arith)
            requires
                pages.len() == 0,
        ;
    }
}

/// A page within the size of a view that nothing is stored for reads as zeros.
pub proof fn law_unstored_pages_are_zeros(view: ViewModel, page: PageNumber, bytes: Seq<u8>, i: int)
    requires
        is_page(view, page, bytes),
        !view.pages.dom().contains(page),
        0 <= i < bytes.len(),
    ensures
        bytes[i] == 0,
        bytes.len() == view.size.page_size.value,
{
}

/// A page that is stored reads as bytes that have the checksum of its one version, under
/// its number and the transaction that wrote it.
pub proof fn law_stored_pages_are_authentic(view: ViewModel, page: PageNumber, bytes: Seq<u8>)
    requires
        is_page(view, page, bytes),
        view.pages.dom().contains(page),
        view.frames[view.pages[page].frame].frame.wf(),
        validation::page_sound(view, page, view.pages[page]),
    ensures
        ({
            let version = view.version(view.pages[page]);
            &&& version.page == page
            &&& version.checksum.bytes@ == digest::content_hash(
                frame::checksum_input(page, version.txid, bytes),
            )
        }),
{
    let version = choose|version: frame::PageVersion| #[trigger]
        cache::is_version(view, page, version) && frame::sound_page(version, bytes);
    cache::law_version_is_the_pages(view, page, version);
}

} // verus!
