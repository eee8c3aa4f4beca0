//! Bounded read-ahead over the pinned places of packs.

use crate::adapter;
use crate::adapter::StorageBackend;
use crate::bytes;
use crate::bytes::{copied, less_bytes, same_bytes};
use crate::domain::{Count, PackId, StoredRange};
use crate::error::StoreError;
use crate::fetch;
use crate::fetch::Replay;
use crate::format::FRAME_HEADER_SIZE;
use crate::order;
use crate::order::{Key, OrderedSet};
use crate::pin;
use crate::pin::PlacementPin;
use crate::placement::PlacementsModel;
use crate::segment::HEADER_SIZE;
use crate::view::{FrameLocation, LocationModel};
use vstd::prelude::*;
use vstd::slice::slice_subrange;

verus! {

/// The most bytes of a window over several frames.
pub const WINDOW_BYTES: u64 = 8388608;

/// The most bytes of a window over one frame.
pub const SINGLE_FRAME_BYTES: u64 = 16777216;

/// The most bytes between two frames of a window.
pub const GAP_BYTES: u64 = 65536;

/// The most times that a window may exceed its frames.
pub const READ_AMPLIFICATION: u64 = 4;

/// Where the record of a frame stands in its pack.
#[derive(Clone, Copy, Debug, PartialEq, Eq)]
pub struct Span {
    pub pack: PackId,
    pub start: u64,
    pub end: u64,
}

impl Key for Span {
    type Model = Span;

    open spec fn model(&self) -> Span {
        *self
    }

    open spec fn precedes(a: Span, b: Span) -> bool {
        bytes::bytes_less(a.pack.bytes@, b.pack.bytes@) || (a.pack == b.pack && (a.start < b.start
            || (a.start == b.start && a.end < b.end)))
    }

    proof fn lemma_irreflexive(a: Span) {
        crate::bytes::lemma_bytes_less_irreflexive(a.pack.bytes@);
    }

    proof fn lemma_transitive(a: Span, b: Span, c: Span) {
        if bytes::bytes_less(a.pack.bytes@, b.pack.bytes@) && bytes::bytes_less(
            b.pack.bytes@,
            c.pack.bytes@,
        ) {
            crate::bytes::lemma_bytes_less_transitive(
                a.pack.bytes@,
                b.pack.bytes@,
                c.pack.bytes@,
            );
        }
    }

    proof fn lemma_total(a: Span, b: Span) {
        crate::bytes::lemma_bytes_less_total(a.pack.bytes@, b.pack.bytes@);
        if a.pack.bytes@ == b.pack.bytes@ {
            assert(a.pack.bytes =~= b.pack.bytes);
            assert(a.pack == b.pack);
        }
    }

    fn before(&self, other: &Span) -> bool {
        if less_bytes(self.pack.bytes.as_slice(), other.pack.bytes.as_slice()) {
            return true;
        }
        same_pack(self.pack, other.pack) && (self.start < other.start || (self.start == other.start
            && self.end < other.end))
    }

    fn duplicate(&self) -> Span {
        *self
    }
}

fn same_pack(a: PackId, b: PackId) -> (same: bool)
    ensures
        same == (a == b),
{
    let same: bool = same_bytes(a.bytes.as_slice(), b.bytes.as_slice());
    proof {
        if same {
            assert(a.bytes =~= b.bytes);
        }
    }
    same
}

/// Where the record of a frame stands: its metadata, its header and its payload.
pub open spec fn frame_span(location: LocationModel) -> Result<Span, StoreError> {
    let payload = location.payload;
    let prefix = location.frame.size() + 36 + FRAME_HEADER_SIZE;
    if payload.length.value != location.frame.payload_bytes || payload.offset.value - prefix
        < HEADER_SIZE {
        Err(StoreError::Range)
    } else {
        Ok(
            Span {
                pack: location.pack,
                start: (payload.offset.value - prefix) as u64,
                end: (payload.offset.value + payload.length.value) as u64,
            },
        )
    }
}

impl Span {
    /// Where the record of a frame stands.
    pub fn frame(location: &FrameLocation) -> (span: Result<Span, StoreError>)
        ensures
            span == frame_span(location@),
            span matches Ok(s) ==> s.start < s.end,
    {
        let payload = location.payload();
        let encoded: usize = location.metadata().encoded_len();
        let expected = location.metadata().payload_bytes();
        if payload.length.value != expected.value {
            return Err(StoreError::Range);
        }
        let prefix: u64 = match (encoded as u64).checked_add(36 + FRAME_HEADER_SIZE as u64) {
            Some(prefix) => prefix,
            None => {
                return Err(StoreError::Range);
            },
        };
        if payload.offset.value < prefix {
            return Err(StoreError::Range);
        }
        let start: u64 = payload.offset.value - prefix;
        if start < HEADER_SIZE as u64 {
            return Err(StoreError::Range);
        }
        Ok(Span { pack: location.pack(), start, end: payload.offset.value + payload.length.value })
    }
}

/// A read over some frames of one pack.
#[derive(Clone, Copy, Debug, PartialEq, Eq)]
pub struct Window {
    pub span: Span,
    /// The bytes of the frames themselves.
    pub frame_bytes: u64,
}

/// A frame has bytes, and not too many.
pub open spec fn readable_frame(frame: Span) -> bool {
    frame.start < frame.end <= frame.start + SINGLE_FRAME_BYTES
}

/// A window may grow to take in the next frame of its pack.
pub open spec fn takes_in(window: Window, frame: Span) -> bool {
    let length = frame.end - window.span.start;
    &&& frame.start - window.span.end <= GAP_BYTES
    &&& length <= WINDOW_BYTES
    &&& length <= READ_AMPLIFICATION * (window.frame_bytes + (frame.end - frame.start))
}

/// The windows over the frames from place `i` on, which ascend, behind those that
/// are there already; or why there are none.
pub open spec fn windows_from(frames: Seq<Span>, i: int, windows: Seq<Window>) -> Result<
    Seq<Window>,
    StoreError,
>
    decreases frames.len() - i,
{
    if i < 0 || i >= frames.len() {
        Ok(windows)
    } else {
        let frame = frames[i];
        let fresh = Window { span: frame, frame_bytes: (frame.end - frame.start) as u64 };
        let last = windows.last();
        if !readable_frame(frame) {
            Err(StoreError::Range)
        } else if windows.len() == 0 || last.span.pack != frame.pack {
            windows_from(frames, i + 1, windows.push(fresh))
        } else if frame.start < last.span.end {
            Err(StoreError::Corrupt(frame.start))
        } else if takes_in(last, frame) {
            let grown = Window {
                span: Span { end: frame.end, ..last.span },
                frame_bytes: (last.frame_bytes + (frame.end - frame.start)) as u64,
            };
            windows_from(frames, i + 1, windows.update(windows.len() - 1, grown))
        } else {
            windows_from(frames, i + 1, windows.push(fresh))
        }
    }
}

/// The windows over some frames, taken in the order of their places and each once.
pub open spec fn plan_of(frames: Seq<Span>) -> Result<Seq<Window>, StoreError> {
    windows_from(order::roll::<Span>(frames.to_set()), 0, Seq::empty())
}

/// A window's frames fit into it, and it is not too large.
pub open spec fn window_sound(window: Window) -> bool {
    let length = window.span.end - window.span.start;
    &&& 0 < window.frame_bytes <= length
    &&& length <= SINGLE_FRAME_BYTES
    &&& length <= READ_AMPLIFICATION * window.frame_bytes
    &&& length > WINDOW_BYTES ==> window.frame_bytes == length
}

/// Plans the reads over some frames.
pub fn plan(frames: Vec<Span>) -> (windows: Result<Vec<Window>, StoreError>)
    ensures
        match windows {
            Ok(w) => plan_of(frames@) == Ok::<Seq<Window>, StoreError>(w@),
            Err(e) => plan_of(frames@) == Err::<Seq<Window>, StoreError>(e),
        },
        windows matches Ok(w) ==> forall|i: int|
            0 <= i < w@.len() ==> window_sound(#[trigger] w@[i]),
{
    let mut ordered: OrderedSet<Span> = OrderedSet::new();
    let mut i: usize = 0;
    while i < frames.len()
        invariant
            i <= frames@.len(),
            ordered@ == frames@.take(i as int).to_set(),
        decreases frames.len() - i,
    {
        ordered.insert(frames[i]);
        proof {
            let before = frames@.take(i as int);
            assert(frames@.take(i as int + 1) =~= before.push(frames@[i as int]));
            assert(before.push(frames@[i as int]).to_set() =~= before.to_set().insert(
                frames@[i as int],
            )) by {
                let after = before.push(frames@[i as int]);
                assert forall|x: Span| after.contains(x) == (before.contains(x) || x == frames@[i as int]) by {
                    if before.contains(x) {
                        let k = before.index_of(x);
                        assert(after[k] == x);
                    }
                    if x == frames@[i as int] {
                        assert(after[before.len() as int] == x);
                    }
                }
            }
        }
        i += 1;
    }
    assert(frames@.take(i as int) =~= frames@);
    let ghost walk = ordered.walk();
    let mut windows: Vec<Window> = Vec::new();
    let mut k: usize = 0;
    let count: usize = ordered.len();
    assert(windows@ =~= Seq::<Window>::empty());
    while k < count
        invariant
            k <= count,
            count == walk.len(),
            walk == ordered.walk(),
            walk == order::roll::<Span>(frames@.to_set()),
            plan_of(frames@) == windows_from(walk, k as int, windows@),
            forall|j: int| 0 <= j < windows@.len() ==> window_sound(#[trigger] windows@[j]),
        decreases count - k,
    {
        let frame: Span = *ordered.at(k);
        k += 1;
        if frame.end <= frame.start || frame.end - frame.start > SINGLE_FRAME_BYTES {
            return Err(StoreError::Range);
        }
        let length: u64 = frame.end - frame.start;
        let fresh: Window = Window { span: frame, frame_bytes: length };
        let held: usize = windows.len();
        if held > 0 && same_pack(windows[held - 1].span.pack, frame.pack) {
            let last: Window = windows[held - 1];
            assert(window_sound(windows@[held - 1]));
            if frame.start < last.span.end {
                return Err(StoreError::Corrupt(frame.start));
            }
            let gap: u64 = frame.start - last.span.end;
            let whole: u64 = frame.end - last.span.start;
            let included: u64 = last.frame_bytes + length;
            if gap <= GAP_BYTES && whole <= WINDOW_BYTES && whole <= included * READ_AMPLIFICATION {
                let grown: Window = Window {
                    span: Span { pack: last.span.pack, start: last.span.start, end: frame.end },
                    frame_bytes: included,
                };
                windows.set(held - 1, grown);
                continue;
            }
        }
        windows.push(fresh);
    }
    Ok(windows)
}

/// A frame lies in a window.
pub open spec fn spans_over(window: Window, frame: Span) -> bool {
    window.span.pack == frame.pack && window.span.start <= frame.start && frame.end
        <= window.span.end
}

/// The window that starts last among those at or before a frame.
pub open spec fn window_before(windows: Seq<Window>, frame: Span, count: int) -> Option<int>
    decreases count,
{
    if count <= 0 {
        None
    } else {
        let span = windows[count - 1].span;
        if bytes::bytes_less(span.pack.bytes@, frame.pack.bytes@) || (span.pack == frame.pack
            && span.start <= frame.start) {
            Some(count - 1)
        } else {
            window_before(windows, frame, count - 1)
        }
    }
}

/// The window that holds a frame, and the frame's place; or why there is none.
pub open spec fn frame_window(windows: Seq<Window>, location: LocationModel) -> Result<
    (int, Span),
    StoreError,
> {
    match frame_span(location) {
        Err(error) => Err(error),
        Ok(frame) => match window_before(windows, frame, windows.len() as int) {
            None => Err(StoreError::Range),
            Some(index) => if spans_over(windows[index], frame) {
                Ok((index, frame))
            } else {
                Err(StoreError::Range)
            },
        },
    }
}

/// The header and the payload of a frame, out of the bytes of its window.
pub open spec fn frame_record(
    window: Window,
    content: Seq<u8>,
    location: LocationModel,
) -> Seq<u8> {
    content.subrange(
        location.payload.offset.value - FRAME_HEADER_SIZE - window.span.start,
        location.payload.offset.value + location.payload.length.value - window.span.start,
    )
}

/// Reads over the windows of some frames.
#[verifier::ext_equal]
pub struct ReadsModel {
    pub chosen: Map<PackId, PlacementsModel>,
    pub windows: Seq<Window>,
    /// The window that is held, with its bytes.
    pub cached: Option<(int, Seq<u8>)>,
}

impl ReadsModel {
    /// Where a window stands.
    pub open spec fn range(self, index: int) -> StoredRange {
        let span = self.windows[index].span;
        StoredRange {
            offset: Count { value: span.start },
            length: Count { value: (span.end - span.start) as u64 },
        }
    }
}

/// What fetching a window came to, where it is not held already.
pub open spec fn window_replay(
    history: Seq<adapter::Event>,
    at: int,
    reads: ReadsModel,
    index: int,
) -> Replay<Seq<u8>> {
    match reads.cached {
        Some((held, content)) if held == index => Replay::Done(Ok(content), at),
        _ => pin::pin_replay(
            history,
            at,
            reads.chosen,
            reads.windows[index].span.pack,
            reads.range(index),
        ),
    }
}

/// What reading a frame came to.
pub open spec fn frame_replay(
    history: Seq<adapter::Event>,
    at: int,
    reads: ReadsModel,
    location: LocationModel,
) -> Replay<Seq<u8>> {
    match frame_window(reads.windows, location) {
        Err(error) => Replay::Done(Err(error), at),
        Ok((index, _)) => match window_replay(history, at, reads, index) {
            Replay::Astray => Replay::Astray,
            Replay::Done(Err(error), next) => Replay::Done(Err(error), next),
            Replay::Done(Ok(content), next) => Replay::Done(
                Ok(frame_record(reads.windows[index], content, location)),
                next,
            ),
        },
    }
}

/// The window that is held when a frame has been read.
pub open spec fn held_after(
    history: Seq<adapter::Event>,
    at: int,
    reads: ReadsModel,
    location: LocationModel,
) -> Option<(int, Seq<u8>)> {
    match frame_window(reads.windows, location) {
        Err(_) => reads.cached,
        Ok((index, _)) => match window_replay(history, at, reads, index) {
            Replay::Done(Ok(content), _) => Some((index, content)),
            _ => None,
        },
    }
}

/// The places of some frames, or why one cannot be read.
pub open spec fn spans_from(
    chosen: Map<PackId, PlacementsModel>,
    locations: Seq<LocationModel>,
    count: int,
) -> Result<Seq<Span>, StoreError>
    decreases count,
{
    if count <= 0 {
        Ok(Seq::empty())
    } else {
        match spans_from(chosen, locations, count - 1) {
            Err(error) => Err(error),
            Ok(spans) => match frame_span(locations[count - 1]) {
                Err(error) => Err(error),
                Ok(span) => if !chosen.dom().contains(span.pack) {
                    Err(StoreError::Corrupt(0))
                } else if span.end > chosen[span.pack].length {
                    Err(StoreError::Range)
                } else {
                    Ok(spans.push(span))
                },
            },
        }
    }
}

/// The models of some locations.
pub open spec fn locations_of(locations: Seq<&FrameLocation>) -> Seq<LocationModel> {
    Seq::new(locations.len(), |i: int| locations[i]@)
}

/// Reads that hold one window at a time. Visiting frames in the order of their
/// places reads each window once. Callers authenticate what they get.
pub struct MaintenanceReads<'pin> {
    placement: &'pin PlacementPin,
    windows: Vec<Window>,
    cached: Option<(usize, Vec<u8>)>,
}

impl<'pin> View for MaintenanceReads<'pin> {
    type V = ReadsModel;

    closed spec fn view(&self) -> ReadsModel {
        ReadsModel {
            chosen: self.placement.chosen(),
            windows: self.windows@,
            cached: match self.cached {
                None => None,
                Some((index, content)) => Some((index as int, content@)),
            },
        }
    }
}

impl<'pin> MaintenanceReads<'pin> {
    #[verifier::type_invariant]
    spec fn sound(&self) -> bool {
        &&& forall|i: int| 0 <= i < self.windows@.len() ==> window_sound(#[trigger] self.windows@[i])
        &&& self.cached matches Some((index, content)) ==> {
            &&& index < self.windows@.len()
            &&& content@.len() == self.windows@[index as int].span.end
                - self.windows@[index as int].span.start
        }
    }

    /// Plans the reads of some frames.
    pub fn new(placement: &'pin PlacementPin, locations: &Vec<&FrameLocation>) -> (reads: Result<
        Self,
        StoreError,
    >)
        ensures
            ({
                let list = locations_of(locations@);
                match spans_from(placement.chosen(), list, list.len() as int) {
                    Err(error) => reads == Err::<Self, StoreError>(error),
                    Ok(spans) => match plan_of(spans) {
                        Err(error) => reads == Err::<Self, StoreError>(error),
                        Ok(windows) => reads matches Ok(r) && r@ == (ReadsModel {
                            chosen: placement.chosen(),
                            windows,
                            cached: None,
                        }),
                    },
                }
            }),
    {
        let ghost list = locations_of(locations@);
        let mut spans: Vec<Span> = Vec::new();
        let mut i: usize = 0;
        assert(spans@ =~= Seq::<Span>::empty());
        while i < locations.len()
            invariant
                i <= locations@.len(),
                list == locations_of(locations@),
                spans_from(placement.chosen(), list, i as int) == Ok::<Seq<Span>, StoreError>(
                    spans@,
                ),
            decreases locations.len() - i,
        {
            let location: &FrameLocation = locations[i];
            assert(list[i as int] == location@);
            let found: Result<Span, StoreError> = Span::frame(location);
            let measured: Result<Span, StoreError> = match found {
                Err(error) => Err(error),
                Ok(span) => match placement.length(span.pack) {
                    Err(error) => Err(error),
                    Ok(length) => if span.end > length.value {
                        Err(StoreError::Range)
                    } else {
                        Ok(span)
                    },
                },
            };
            match measured {
                Err(error) => {
                    proof {
                        lemma_spans_stop(placement.chosen(), list, i as int + 1, list.len() as int);
                    }
                    return Err(error);
                },
                Ok(span) => {
                    spans.push(span);
                },
            }
            i += 1;
        }
        let windows: Vec<Window> = plan(spans)?;
        Ok(MaintenanceReads { placement, windows, cached: None })
    }

    /// Fetches a window, where it is not held already.
    fn hold<B: StorageBackend>(&mut self, backend: &mut B, index: usize) -> (done: Result<
        (),
        StoreError,
    >)
        requires
            index < old(self)@.windows.len(),
        ensures
            final(backend).namespace() == old(backend).namespace(),
            adapter::extends(old(backend).history(), final(backend).history()),
            adapter::quiet(old(backend).history(), final(backend).history()),
            final(self)@.windows == old(self)@.windows,
            final(self)@.chosen == old(self)@.chosen,
            ({
                let replay = window_replay(
                    final(backend).history(),
                    old(backend).history().len() as int,
                    old(self)@,
                    index as int,
                );
                let end = final(backend).history().len() as int;
                match done {
                    Ok(_) => final(self)@.cached matches Some((i, content)) && i == index && replay
                        == Replay::Done(Ok::<Seq<u8>, StoreError>(content), end) && content.len()
                        == old(self)@.windows[index as int].span.end
                        - old(self)@.windows[index as int].span.start,
                    Err(e) => final(self)@.cached is None && replay == Replay::Done(
                        Err::<Seq<u8>, StoreError>(e),
                        end,
                    ),
                }
            }),
    {
        proof {
            use_type_invariant(&*self);
            assert(window_sound(self.windows@[index as int]));
        }
        let held: bool = match &self.cached {
            Some((slot, _)) => *slot == index,
            None => false,
        };
        if held {
            return Ok(());
        }
        self.cached = None;
        let span: Span = self.windows[index].span;
        let range: StoredRange = StoredRange {
            offset: Count { value: span.start },
            length: Count { value: span.end - span.start },
        };
        let result: Result<Vec<u8>, StoreError> = self.placement.read(backend, span.pack, range);
        match result {
            Err(error) => Err(error),
            Ok(content) => {
                self.cached = Some((index, content));
                Ok(())
            },
        }
    }

    /// Reads the header and the payload of a frame.
    pub fn read<B: StorageBackend>(&mut self, backend: &mut B, location: &FrameLocation) -> (record:
        Result<Vec<u8>, StoreError>)
        ensures
            final(backend).namespace() == old(backend).namespace(),
            adapter::extends(old(backend).history(), final(backend).history()),
            adapter::quiet(old(backend).history(), final(backend).history()),
            frame_replay(
                final(backend).history(),
                old(backend).history().len() as int,
                old(self)@,
                location@,
            ) == Replay::Done(fetch::seen(record), final(backend).history().len() as int),
            final(self)@ == (ReadsModel {
                cached: held_after(
                    final(backend).history(),
                    old(backend).history().len() as int,
                    old(self)@,
                    location@,
                ),
                ..old(self)@
            }),
            record matches Ok(bytes) ==> bytes@.len() == FRAME_HEADER_SIZE
                + location@.payload.length.value,
    {
        let frame: Span = Span::frame(location)?;
        let index: usize = match find_window(&self.windows, &frame) {
            Some(index) => index,
            None => {
                return Err(StoreError::Range);
            },
        };
        let window: Span = self.windows[index].span;
        if !same_pack(window.pack, frame.pack) || frame.end > window.end {
            return Err(StoreError::Range);
        }
        proof {
            lemma_window_before(self@.windows, frame, self@.windows.len() as int);
        }
        let held: Result<(), StoreError> = self.hold(backend, index);
        match held {
            Err(error) => Err(error),
            Ok(_) => {
                let payload = location.payload();
                match &self.cached {
                    None => Err(StoreError::Range),
                    Some((_, content)) => {
                        let size: usize = content.len();
                        assert(self@.cached->Some_0.1 == content@);
                        assert(size == window.end - window.start);
                        let first: u64 = payload.offset.value - FRAME_HEADER_SIZE as u64 - window.start;
                        let last: u64 = frame.end - window.start;
                        Ok(
                            copied(
                                slice_subrange(content.as_slice(), first as usize, last as usize),
                            ),
                        )
                    },
                }
            },
        }
    }
}

/// The place of the last window at or before a frame.
fn find_window(windows: &Vec<Window>, frame: &Span) -> (index: Option<usize>)
    ensures
        match index {
            Some(i) => i < windows@.len() && window_before(
                windows@,
                *frame,
                windows@.len() as int,
            ) == Some(i as int),
            None => window_before(windows@, *frame, windows@.len() as int) is None,
        },
{
    let mut count: usize = windows.len();
    while count > 0
        invariant
            count <= windows@.len(),
            window_before(windows@, *frame, count as int) == window_before(
                windows@,
                *frame,
                windows@.len() as int,
            ),
        decreases count,
    {
        let span: Span = windows[count - 1].span;
        if less_bytes(span.pack.bytes.as_slice(), frame.pack.bytes.as_slice()) || (same_pack(
            span.pack,
            frame.pack,
        ) && span.start <= frame.start) {
            return Some(count - 1);
        }
        count -= 1;
    }
    None
}

/// What fetching the windows from place `i` on, one after another, came to.
pub open spec fn windows_replay(
    history: Seq<adapter::Event>,
    at: int,
    reads: ReadsModel,
    i: int,
    so_far: Seq<Seq<u8>>,
) -> Replay<Seq<Seq<u8>>>
    decreases reads.windows.len() - i,
{
    if i >= reads.windows.len() {
        Replay::Done(Ok(so_far), at)
    } else {
        match pin::pin_replay(
            history,
            at,
            reads.chosen,
            reads.windows[i].span.pack,
            reads.range(i),
        ) {
            Replay::Astray => Replay::Astray,
            Replay::Done(Err(error), next) => Replay::Done(Err(error), next),
            Replay::Done(Ok(content), next) => windows_replay(
                history,
                next,
                reads,
                i + 1,
                so_far.push(content),
            ),
        }
    }
}

/// Windows with their bytes.
#[verifier::ext_equal]
pub struct WindowsModel {
    pub windows: Seq<Window>,
    pub contents: Seq<Seq<u8>>,
}

/// The header and the payload of a frame, out of windows that were fetched; or why
/// they are in none.
pub open spec fn record_in(fetched: WindowsModel, location: LocationModel) -> Result<
    Seq<u8>,
    StoreError,
> {
    match frame_window(fetched.windows, location) {
        Err(error) => Err(error),
        Ok((index, _)) => Ok(
            frame_record(fetched.windows[index], fetched.contents[index], location),
        ),
    }
}

/// The windows of some frames, all of them read.
pub struct FetchedWindows {
    windows: Vec<Window>,
    contents: Vec<Vec<u8>>,
}

impl View for FetchedWindows {
    type V = WindowsModel;

    closed spec fn view(&self) -> WindowsModel {
        WindowsModel {
            windows: self.windows@,
            contents: Seq::new(self.contents@.len(), |i: int| self.contents@[i]@),
        }
    }
}

impl FetchedWindows {
    #[verifier::type_invariant]
    spec fn sound(&self) -> bool {
        &&& self.contents@.len() == self.windows@.len()
        &&& forall|i: int|
            0 <= i < self.windows@.len() ==> window_sound(#[trigger] self.windows@[i])
                && self.contents@[i]@.len() == self.windows@[i].span.end
                - self.windows@[i].span.start
    }

    /// The header and the payload of a frame.
    pub fn record(&self, location: &FrameLocation) -> (record: Result<Vec<u8>, StoreError>)
        ensures
            match record {
                Ok(r) => record_in(self@, location@) == Ok::<Seq<u8>, StoreError>(r@),
                Err(e) => record_in(self@, location@) == Err::<Seq<u8>, StoreError>(e),
            },
    {
        proof {
            use_type_invariant(self);
        }
        let frame: Span = Span::frame(location)?;
        let index: usize = match find_window(&self.windows, &frame) {
            Some(index) => index,
            None => {
                return Err(StoreError::Range);
            },
        };
        let window: Span = self.windows[index].span;
        if !same_pack(window.pack, frame.pack) || frame.end > window.end {
            return Err(StoreError::Range);
        }
        proof {
            lemma_window_before(self.windows@, frame, self.windows@.len() as int);
            assert(window_sound(self.windows@[index as int]));
        }
        let payload = location.payload();
        let content: &Vec<u8> = &self.contents[index];
        let first: u64 = payload.offset.value - FRAME_HEADER_SIZE as u64 - window.start;
        let last: u64 = frame.end - window.start;
        assert(self@.contents[index as int] == content@);
        Ok(copied(slice_subrange(content.as_slice(), first as usize, last as usize)))
    }
}

impl<'pin> MaintenanceReads<'pin> {
    /// Reads every window, in the order of their places and each once.
    pub fn fetch<B: StorageBackend>(self, backend: &mut B) -> (fetched: Result<
        FetchedWindows,
        StoreError,
    >)
        ensures
            final(backend).namespace() == old(backend).namespace(),
            adapter::extends(old(backend).history(), final(backend).history()),
            adapter::quiet(old(backend).history(), final(backend).history()),
            ({
                let replay = windows_replay(
                    final(backend).history(),
                    old(backend).history().len() as int,
                    self@,
                    0,
                    Seq::empty(),
                );
                let end = final(backend).history().len() as int;
                match fetched {
                    Ok(f) => f@.windows == self@.windows && replay == Replay::Done(
                        Ok::<Seq<Seq<u8>>, StoreError>(f@.contents),
                        end,
                    ),
                    Err(e) => replay == Replay::Done(Err::<Seq<Seq<u8>>, StoreError>(e), end),
                }
            }),
    {
        let ghost reads = self@;
        let ghost start = backend.history().len() as int;
        let ghost none = Seq::<Seq<u8>>::empty();
        proof {
            use_type_invariant(&self);
        }
        let mut contents: Vec<Vec<u8>> = Vec::new();
        let mut i: usize = 0;
        assert(Seq::new(contents@.len(), |k: int| contents@[k]@) =~= none);
        while i < self.windows.len()
            invariant
                i <= self.windows@.len(),
                reads == self@,
                none == Seq::<Seq<u8>>::empty(),
                start == old(backend).history().len(),
                contents@.len() == i,
                forall|k: int|
                    0 <= k < self.windows@.len() ==> window_sound(#[trigger] self.windows@[k]),
                forall|k: int|
                    0 <= k < i ==> (#[trigger] contents@[k])@.len() == self.windows@[k].span.end
                        - self.windows@[k].span.start,
                backend.namespace() == old(backend).namespace(),
                adapter::extends(old(backend).history(), backend.history()),
                adapter::quiet(old(backend).history(), backend.history()),
                forall|later: Seq<adapter::Event>|
                    #![trigger windows_replay(later, start, reads, 0, none)]
                    adapter::extends(backend.history(), later) ==> windows_replay(
                        later,
                        start,
                        reads,
                        0,
                        none,
                    ) == windows_replay(
                        later,
                        backend.history().len() as int,
                        reads,
                        i as int,
                        Seq::new(contents@.len(), |k: int| contents@[k]@),
                    ),
            decreases self.windows.len() - i,
        {
            let ghost known = backend.history();
            let ghost before = Seq::new(contents@.len(), |k: int| contents@[k]@);
            let span: Span = self.windows[i].span;
            assert(window_sound(self.windows@[i as int]));
            let range: StoredRange = StoredRange {
                offset: Count { value: span.start },
                length: Count { value: span.end - span.start },
            };
            assert(range == reads.range(i as int));
            let result: Result<Vec<u8>, StoreError> = self.placement.read(
                backend,
                span.pack,
                range,
            );
            let ghost seen = backend.history();
            assert(adapter::extends(seen, seen));
            match result {
                Err(error) => {
                    assert(windows_replay(seen, start, reads, 0, none) == windows_replay(
                        seen,
                        known.len() as int,
                        reads,
                        i as int,
                        before,
                    ));
                    return Err(error);
                },
                Ok(content) => {
                    contents.push(content);
                },
            }
            let ghost longer = Seq::new(contents@.len(), |k: int| contents@[k]@);
            proof {
                assert(longer =~= before.push(contents@[i as int]@));
                assert forall|later: Seq<adapter::Event>|
                    #![trigger windows_replay(later, start, reads, 0, none)]
                    adapter::extends(seen, later) implies windows_replay(
                    later,
                    start,
                    reads,
                    0,
                    none,
                ) == windows_replay(later, seen.len() as int, reads, i as int + 1, longer) by {
                    assert(adapter::extends(known, later));
                    assert(windows_replay(later, start, reads, 0, none) == windows_replay(
                        later,
                        known.len() as int,
                        reads,
                        i as int,
                        before,
                    ));
                }
            }
            i += 1;
        }
        let ghost all = Seq::new(contents@.len(), |k: int| contents@[k]@);
        proof {
            let h = backend.history();
            assert(adapter::extends(h, h));
            assert(windows_replay(h, start, reads, 0, none) == windows_replay(
                h,
                h.len() as int,
                reads,
                i as int,
                all,
            ));
        }
        let fetched: FetchedWindows = FetchedWindows { windows: self.windows, contents };
        assert(fetched@.contents =~= all);
        Ok(fetched)
    }
}

proof fn lemma_window_before(windows: Seq<Window>, frame: Span, count: int)
    requires
        0 <= count <= windows.len(),
    ensures
        window_before(windows, frame, count) matches Some(i) ==> 0 <= i < count && (
        windows[i].span.pack == frame.pack ==> windows[i].span.start <= frame.start),
    decreases count,
{
    if count > 0 {
        crate::bytes::lemma_bytes_less_irreflexive(frame.pack.bytes@);
        lemma_window_before(windows, frame, count - 1);
    }
}

proof fn lemma_spans_stop(
    chosen: Map<PackId, PlacementsModel>,
    locations: Seq<LocationModel>,
    i: int,
    count: int,
)
    requires
        0 <= i <= count,
        spans_from(chosen, locations, i) is Err,
    ensures
        spans_from(chosen, locations, count) == spans_from(chosen, locations, i),
    decreases count - i,
{
    if i < count {
        lemma_spans_stop(chosen, locations, i, count - 1);
    }
}

/// A frame lies in one of some windows.
pub open spec fn covered(windows: Seq<Window>, frame: Span) -> bool {
    exists|w: int| 0 <= w < windows.len() && spans_over(#[trigger] windows[w], frame)
}

/// Every frame that was planned for lies in one of the windows.
pub proof fn law_plan_covers(frames: Seq<Span>, windows: Seq<Window>, frame: Span)
    requires
        plan_of(frames) == Ok::<Seq<Window>, StoreError>(windows),
        frames.contains(frame),
    ensures
        covered(windows, frame),
{
    let walk = order::roll::<Span>(frames.to_set());
    assert(frames.to_set().contains(frame));
    vstd::seq_lib::seq_to_set_is_finite(frames);
    order::lemma_rolled::<Span>(frames.to_set());
    assert(walk.to_set().contains(frame));
    lemma_windows_cover(walk, 0, Seq::empty());
    let k = walk.index_of(frame);
    assert(walk[k] == frame);
}

/// Two frames share no byte.
pub open spec fn apart(a: Span, b: Span) -> bool {
    a.pack != b.pack || a.end <= b.start || b.end <= a.start
}

/// Frames can be planned for together: each has bytes and not too many, and no two
/// of them share any.
pub open spec fn plannable(frames: Seq<Span>) -> bool {
    &&& forall|i: int| 0 <= i < frames.len() ==> readable_frame(#[trigger] frames[i])
    &&& forall|i: int, j: int|
        0 <= i < frames.len() && 0 <= j < frames.len() && #[trigger] frames[i]
            != #[trigger] frames[j] ==> apart(frames[i], frames[j])
}

/// Reads can be planned exactly for frames that have bytes, not too many, and share
/// none.
pub proof fn law_plan_is_exact(frames: Seq<Span>)
    ensures
        plan_of(frames) is Ok <==> plannable(frames),
{
    let walk = order::roll::<Span>(frames.to_set());
    vstd::seq_lib::seq_to_set_is_finite(frames);
    order::lemma_rolled::<Span>(frames.to_set());
    assert forall|i: int| 0 <= i < frames.len() implies walk.contains(#[trigger] frames[i]) by {
        assert(frames.to_set().contains(frames[i]));
        assert(walk.to_set().contains(frames[i]));
    }
    assert forall|k: int| 0 <= k < walk.len() implies frames.contains(#[trigger] walk[k]) by {
        assert(walk.to_set().contains(walk[k]));
        assert(frames.to_set().contains(walk[k]));
    }
    lemma_windows_exact(walk, 0, Seq::empty());
    if plannable(frames) {
        assert forall|k: int| 0 <= k < walk.len() implies in_turn(walk, k) by {
            let i = frames.index_of(walk[k]);
            assert(frames[i] == walk[k]);
            if k > 0 {
                let j = frames.index_of(walk[k - 1]);
                assert(frames[j] == walk[k - 1]);
                assert(Span::precedes(walk[k - 1], walk[k]));
                Span::lemma_irreflexive(walk[k]);
                crate::bytes::lemma_bytes_less_irreflexive(walk[k].pack.bytes@);
            }
        }
    }
    if plan_of(frames) is Ok {
        assert forall|i: int| 0 <= i < frames.len() implies readable_frame(#[trigger] frames[i]) by {
            let k = walk.index_of(frames[i]);
            assert(in_turn(walk, k));
        }
        assert forall|i: int, j: int|
            0 <= i < frames.len() && 0 <= j < frames.len() && #[trigger] frames[i]
                != #[trigger] frames[j] implies apart(frames[i], frames[j]) by {
            let a = walk.index_of(frames[i]);
            let b = walk.index_of(frames[j]);
            if a < b {
                lemma_apart(walk, a, b);
            } else {
                lemma_apart(walk, b, a);
            }
        }
    }
}

/// The frame at a place is readable, and begins where the one before it in its pack
/// has ended.
spec fn in_turn(walk: Seq<Span>, k: int) -> bool {
    readable_frame(walk[k]) && (k > 0 && walk[k - 1].pack == walk[k].pack ==> walk[k - 1].end
        <= walk[k].start)
}

proof fn lemma_apart(walk: Seq<Span>, a: int, b: int)
    requires
        0 <= a < b < walk.len(),
        forall|k: int| 0 <= k < walk.len() ==> in_turn(walk, k),
        forall|i: int, j: int|
            0 <= i < j < walk.len() ==> Span::precedes(#[trigger] walk[i], #[trigger] walk[j]),
    ensures
        walk[a].pack == walk[b].pack ==> walk[a].end <= walk[b].start,
    decreases b - a,
{
    assert(in_turn(walk, b));
    if walk[a].pack == walk[b].pack && a + 1 < b {
        let c = b - 1;
        assert(in_turn(walk, c));
        assert(Span::precedes(walk[a], walk[c]));
        assert(Span::precedes(walk[c], walk[b]));
        crate::bytes::lemma_bytes_less_irreflexive(walk[a].pack.bytes@);
        if walk[c].pack != walk[a].pack {
            crate::bytes::lemma_bytes_less_transitive(
                walk[a].pack.bytes@,
                walk[c].pack.bytes@,
                walk[b].pack.bytes@,
            );
        }
        lemma_apart(walk, a, c);
    }
}

proof fn lemma_windows_exact(walk: Seq<Span>, i: int, windows: Seq<Window>)
    requires
        0 <= i <= walk.len(),
        i == 0 <==> windows.len() == 0,
        i > 0 ==> windows.last().span.pack == walk[i - 1].pack && windows.last().span.end
            == walk[i - 1].end,
    ensures
        windows_from(walk, i, windows) is Ok <==> forall|k: int|
            i <= k < walk.len() ==> in_turn(walk, k),
    decreases walk.len() - i,
{
    if i < walk.len() {
        let frame = walk[i];
        let fresh = Window { span: frame, frame_bytes: (frame.end - frame.start) as u64 };
        let last = windows.last();
        let grown = Window {
            span: Span { end: frame.end, ..last.span },
            frame_bytes: (last.frame_bytes + (frame.end - frame.start)) as u64,
        };
        if in_turn(walk, i) {
            let next = if windows.len() == 0 || last.span.pack != frame.pack || !takes_in(
                last,
                frame,
            ) {
                windows.push(fresh)
            } else {
                windows.update(windows.len() - 1, grown)
            };
            lemma_windows_exact(walk, i + 1, next);
            assert(windows_from(walk, i, windows) == windows_from(walk, i + 1, next));
        }
    }
}

proof fn lemma_windows_cover(walk: Seq<Span>, i: int, windows: Seq<Window>)
    requires
        0 <= i <= walk.len(),
        windows_from(walk, i, windows) is Ok,
        forall|k: int| 0 <= k < i ==> covered(windows, #[trigger] walk[k]),
        forall|w: int| 0 <= w < windows.len() ==> window_sound(#[trigger] windows[w]),
    ensures
        forall|k: int|
            0 <= k < walk.len() ==> covered(windows_from(walk, i, windows)->Ok_0, #[trigger] walk[k]),
    decreases walk.len() - i,
{
    if i < walk.len() {
        let frame = walk[i];
        let fresh = Window { span: frame, frame_bytes: (frame.end - frame.start) as u64 };
        let last = windows.last();
        let grown = Window {
            span: Span { end: frame.end, ..last.span },
            frame_bytes: (last.frame_bytes + (frame.end - frame.start)) as u64,
        };
        let next = if windows.len() == 0 || last.span.pack != frame.pack || !takes_in(last, frame) {
            windows.push(fresh)
        } else {
            windows.update(windows.len() - 1, grown)
        };
        assert(windows_from(walk, i, windows) == windows_from(walk, i + 1, next));
        if windows.len() > 0 {
            assert(window_sound(windows[windows.len() - 1]));
        }
        assert forall|k: int| 0 <= k < i + 1 implies covered(next, #[trigger] walk[k]) by {
            if k < i {
                let w = choose|w: int|
                    0 <= w < windows.len() && spans_over(#[trigger] windows[w], walk[k]);
                assert(spans_over(next[w], walk[k]));
            } else {
                assert(spans_over(next[next.len() - 1], walk[k]));
            }
        }
        assert forall|w: int| 0 <= w < next.len() implies window_sound(#[trigger] next[w]) by {
            if w < windows.len() {
                assert(window_sound(windows[w]));
            }
        }
        lemma_windows_cover(walk, i + 1, next);
    } else {
        assert(windows_from(walk, i, windows)->Ok_0 == windows);
    }
}

/// A frame could not join the window before it: it stands more than sixty-four kibibytes
/// behind, or the two would take more than eight mebibytes, or more than four times what is
/// wanted of them.
pub open spec fn kept_out(window: Window, frame: Span) -> bool {
    ||| frame.start - window.span.end > 65536
    ||| frame.end - window.span.start > 8388608
    ||| frame.end - window.span.start > 4 * (window.frame_bytes + (frame.end - frame.start))
}

/// The window begins with a frame that could not join the one before it.
pub open spec fn begun_apart(walk: Seq<Span>, before: Window, after: Window) -> bool {
    before.span.pack == after.span.pack ==> exists|k: int|
        0 <= k < walk.len() && (#[trigger] walk[k]).pack == after.span.pack && walk[k].start
            == after.span.start && kept_out(before, walk[k])
}

proof fn lemma_windows_apart(walk: Seq<Span>, i: int, windows: Seq<Window>)
    requires
        0 <= i <= walk.len(),
        windows_from(walk, i, windows) is Ok,
        forall|w: int| 0 <= w < windows.len() ==> window_sound(#[trigger] windows[w]),
        forall|w: int|
            0 < w < windows.len() ==> begun_apart(walk, windows[w - 1], #[trigger] windows[w]),
    ensures
        ({
            let all = windows_from(walk, i, windows)->Ok_0;
            &&& forall|w: int| 0 <= w < all.len() ==> window_sound(#[trigger] all[w])
            &&& forall|w: int| 0 < w < all.len() ==> begun_apart(walk, all[w - 1], #[trigger] all[w])
        }),
    decreases walk.len() - i,
{
    if i < walk.len() {
        let frame = walk[i];
        let fresh = Window { span: frame, frame_bytes: (frame.end - frame.start) as u64 };
        let last = windows.last();
        let grown = Window {
            span: Span { end: frame.end, ..last.span },
            frame_bytes: (last.frame_bytes + (frame.end - frame.start)) as u64,
        };
        let next = if windows.len() == 0 || last.span.pack != frame.pack || !takes_in(last, frame) {
            windows.push(fresh)
        } else {
            windows.update(windows.len() - 1, grown)
        };
        assert(windows_from(walk, i, windows) == windows_from(walk, i + 1, next));
        if windows.len() > 0 {
            assert(window_sound(windows[windows.len() - 1]));
        }
        assert forall|w: int| 0 < w < next.len() implies begun_apart(
            walk,
            next[w - 1],
            #[trigger] next[w],
        ) by {
            if w < windows.len() {
                assert(begun_apart(walk, windows[w - 1], windows[w]));
            } else {
                assert(next[w] == fresh && next[w - 1] == last);
                assert(walk[i] == frame);
            }
        }
        lemma_windows_apart(walk, i + 1, next);
    }
}

/// Frames that stand close together are read together: a window is begun in the pack of
/// the one before it only for a frame that was planned for and could not join that one. And
/// no window is read for more than four times what is wanted of it, nor takes more than
/// eight mebibytes, but for a single frame, which takes at most sixteen.
pub proof fn law_close_frames_are_read_together(frames: Seq<Span>, windows: Seq<Window>, w: int)
    requires
        plan_of(frames) == Ok::<Seq<Window>, StoreError>(windows),
        0 <= w < windows.len(),
    ensures
        w > 0 && windows[w - 1].span.pack == windows[w].span.pack ==> exists|k: int|
            0 <= k < frames.len() && (#[trigger] frames[k]).pack == windows[w].span.pack
                && frames[k].start == windows[w].span.start && kept_out(windows[w - 1], frames[k]),
        windows[w].span.end - windows[w].span.start <= 4 * windows[w].frame_bytes,
        windows[w].span.end - windows[w].span.start <= 16777216,
        windows[w].span.end - windows[w].span.start > 8388608 ==> windows[w].frame_bytes
            == windows[w].span.end - windows[w].span.start,
{
    let walk = order::roll::<Span>(frames.to_set());
    vstd::seq_lib::seq_to_set_is_finite(frames);
    order::lemma_rolled::<Span>(frames.to_set());
    lemma_windows_apart(walk, 0, Seq::empty());
    let all = windows_from(walk, 0, Seq::empty())->Ok_0;
    assert(all == windows);
    assert(window_sound(all[w]));
    if w > 0 && windows[w - 1].span.pack == windows[w].span.pack {
        assert(begun_apart(walk, all[w - 1], all[w]));
        let k = choose|k: int|
            0 <= k < walk.len() && (#[trigger] walk[k]).pack == windows[w].span.pack && walk[k].start
                == windows[w].span.start && kept_out(windows[w - 1], walk[k]);
        assert(walk.to_set().contains(walk[k]));
        assert(frames.to_set().contains(walk[k]));
        let j = frames.index_of(walk[k]);
        assert(frames[j] == walk[k]);
    }
}

} // verus!
