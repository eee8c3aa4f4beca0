//! The encoding of runs.

use crate::bytes;
use crate::bytes::append;
use crate::codec;
use crate::digest;
use crate::domain::{
    CONTENT, ContentRoot, PageNumber, TransactionId, TransactionSpan, VIEW, ValueError, ViewHash,
};
use crate::error::{StoreError, valued};
use crate::frame;
use crate::order;
use crate::order::{Key, OrderedSet};
use crate::run::{MetadataRun, RUN_MAGIC, RUN_PREFIX, RunModel};
use crate::segment::ParentRef;
use crate::validation;
use crate::validation::ValidatedMetadata;
use crate::view::{VIEW_LIMIT, ViewMetadata, ViewModel};
use crate::view_codec;
use crate::view_codec::{read_id, read_txid};
use crate::wire;
use crate::wire::{Decoder, envelope, open_envelope, u32_bytes, u64_bytes};
use vstd::prelude::*;

verus! {

/// Page numbers one after the other, from place `i` on.
pub open spec fn numbers_bytes(pages: Seq<PageNumber>, i: int) -> Seq<u8>
    decreases pages.len() - i,
{
    if i >= pages.len() {
        Seq::empty()
    } else {
        bytes::le(pages[i].value as nat, 4) + numbers_bytes(pages, i + 1)
    }
}

impl RunModel {
    pub open spec fn removed_list(self) -> Seq<PageNumber> {
        order::roll::<PageNumber>(self.removed)
    }

    /// The fixed part of the encoding.
    pub open spec fn prefix(self) -> Seq<u8> {
        self.parent.hash.bytes@ + bytes::le(self.parent.txid.value as nat, 8) + self.root.bytes@ + bytes::le(
            self.span.begin.value as nat,
            8,
        ) + bytes::le(self.span.end.value as nat, 8) + bytes::le(self.removed_list().len(), 4)
    }

    /// The encoding of the run.
    pub open spec fn raw(self) -> Seq<u8> {
        self.prefix() + numbers_bytes(self.removed_list(), 0) + self.patch.encoding()
    }
}

/// Reading `count` page numbers, each above the one before.
pub open spec fn numbers_from(raw: Seq<u8>, position: int, count: nat, seen: Seq<PageNumber>) ->
    Result<(Seq<PageNumber>, int), StoreError>
    decreases count,
{
    if count == 0 {
        Ok((seen, position))
    } else {
        match wire::number_at(raw, position, 4) {
            Err(error) => Err(error),
            Ok((page, p)) => if page == 0 {
                Err(StoreError::Value(ValueError))
            } else if seen.len() > 0 && seen.last().value >= page {
                Err(StoreError::Corrupt(0))
            } else {
                numbers_from(
                    raw,
                    p,
                    (count - 1) as nat,
                    seen.push(PageNumber { value: page as u32 }),
                )
            },
        }
    }
}

/// The fixed part of a run: its parent, root and span, and how many pages it
/// removes.
pub open spec fn run_head_at(raw: Seq<u8>) -> Result<
    (ParentRef, ContentRoot, TransactionSpan, nat, int),
    StoreError,
> {
    match view_codec::id_at::<VIEW>(raw, 0) {
        Err(error) => Err(error),
        Ok((hash, p)) => match view_codec::txid_at(raw, p) {
            Err(error) => Err(error),
            Ok((txid, p)) => match view_codec::id_at::<CONTENT>(raw, p) {
                Err(error) => Err(error),
                Ok((root, p)) => match view_codec::txid_at(raw, p) {
                    Err(error) => Err(error),
                    Ok((begin, p)) => match view_codec::txid_at(raw, p) {
                        Err(error) => Err(error),
                        Ok((end, p)) => if begin.value > end.value {
                            Err(StoreError::Value(ValueError))
                        } else {
                            match wire::number_at(raw, p, 4) {
                                Err(error) => Err(error),
                                Ok((count, p)) => Ok(
                                    (
                                        ParentRef { hash, txid },
                                        root,
                                        TransactionSpan { begin, end },
                                        count,
                                        p,
                                    ),
                                ),
                            }
                        },
                    },
                },
            },
        },
    }
}

/// No removed page is beyond the patch's size, nor in the patch.
pub open spec fn removals_sound(removed: Seq<PageNumber>, patch: ViewModel) -> bool {
    forall|i: int|
        0 <= i < removed.len() ==> (#[trigger] removed[i]).value <= patch.size.count()
            && !patch.pages.dom().contains(removed[i])
}

/// The run that an encoding holds, or why it holds none.
pub open spec fn run_parse(raw: Seq<u8>) -> Result<RunModel, StoreError> {
    match run_head_at(raw) {
        Err(error) => Err(error),
        Ok((parent, root, span, count, p)) => if count > (raw.len() - RUN_PREFIX) / 4 {
            Err(StoreError::Range)
        } else {
            match numbers_from(raw, p, count, Seq::empty()) {
                Err(error) => Err(error),
                Ok((removed, p)) => match wire::take_at(raw, p, raw.len() - RUN_PREFIX - 4 * count) {
                    Err(error) => Err(error),
                    Ok((body, p)) => match view_codec::raw_parse(body) {
                        Err(error) => Err(error),
                        Ok(patch) => match wire::finish_at(raw, p) {
                            Err(error) => Err(error),
                            Ok(_) => if span.end != patch.txid || !removals_sound(removed, patch) {
                                Err(StoreError::Corrupt(0))
                            } else {
                                Ok(
                                    RunModel {
                                        parent,
                                        root,
                                        span,
                                        patch,
                                        decoded: body.len() as int,
                                        removed: removed.to_set(),
                                    },
                                )
                            },
                        },
                    },
                },
            }
        },
    }
}

fn read_run_head(wire: &mut Decoder) -> (head: Result<
    (ParentRef, ContentRoot, TransactionSpan, u32),
    StoreError,
>)
    requires
        old(wire).wf(),
        old(wire).position == 0,
    ensures
        final(wire).wf(),
        final(wire).bytes@ == old(wire).bytes@,
        match head {
            Ok((parent, root, span, count)) => run_head_at(old(wire).bytes@) == Ok::<
                (ParentRef, ContentRoot, TransactionSpan, nat, int),
                StoreError,
            >((parent, root, span, count as nat, final(wire).position as int))
                && final(wire).position == RUN_PREFIX,
            Err(e) => run_head_at(old(wire).bytes@) == Err::<
                (ParentRef, ContentRoot, TransactionSpan, nat, int),
                StoreError,
            >(e),
        },
{
    let hash: ViewHash = read_id(wire)?;
    let txid: TransactionId = read_txid(wire)?;
    let root: ContentRoot = read_id(wire)?;
    let begin: TransactionId = read_txid(wire)?;
    let end: TransactionId = read_txid(wire)?;
    let span: TransactionSpan = valued(TransactionSpan::new(begin, end))?;
    let count: u32 = wire.u32()?;
    Ok((ParentRef { hash, txid }, root, span, count))
}

fn read_numbers(wire: &mut Decoder, count: u32) -> (pages: Result<Vec<PageNumber>, StoreError>)
    requires
        old(wire).wf(),
    ensures
        final(wire).wf(),
        final(wire).bytes@ == old(wire).bytes@,
        match pages {
            Ok(v) => numbers_from(
                old(wire).bytes@,
                old(wire).position as int,
                count as nat,
                Seq::empty(),
            ) == Ok::<(Seq<PageNumber>, int), StoreError>((v@, final(wire).position as int))
                && final(wire).position == old(wire).position + 4 * count && v@.len() == count
                && order::climbing::<PageNumber>(v@),
            Err(e) => numbers_from(
                old(wire).bytes@,
                old(wire).position as int,
                count as nat,
                Seq::empty(),
            ) == Err::<(Seq<PageNumber>, int), StoreError>(e),
        },
{
    let mut list: Vec<PageNumber> = Vec::new();
    let mut i: u32 = 0;
    let ghost goal = numbers_from(
        wire.bytes@,
        wire.position as int,
        count as nat,
        Seq::<PageNumber>::empty(),
    );
    assert(list@ =~= Seq::<PageNumber>::empty());
    while i < count
        invariant
            i <= count,
            wire.wf(),
            wire.bytes@ == old(wire).bytes@,
            wire.position == old(wire).position + 4 * i,
            list@.len() == i,
            order::climbing::<PageNumber>(list@),
            goal == numbers_from(
                old(wire).bytes@,
                old(wire).position as int,
                count as nat,
                Seq::<PageNumber>::empty(),
            ),
            goal == numbers_from(wire.bytes@, wire.position as int, (count - i) as nat, list@),
        decreases count - i,
    {
        let page: PageNumber = valued(PageNumber::new(wire.u32()?))?;
        let length: usize = list.len();
        if length > 0 && list[length - 1].value >= page.value {
            return Err(StoreError::Corrupt(0));
        }
        let ghost before = list@;
        list.push(page);
        proof {
            assert forall|a: int, b: int| 0 <= a < b < list@.len() implies PageNumber::precedes(
                #[trigger] list@[a],
                #[trigger] list@[b],
            ) by {
                if b == before.len() && a < before.len() - 1 {
                    assert(PageNumber::precedes(before[a], before[before.len() - 1]));
                }
            }
        }
        i += 1;
    }
    Ok(list)
}

/// Whether no removed page is beyond the patch's size, nor in the patch.
fn check_removals(removed: &Vec<PageNumber>, patch: &ViewMetadata) -> (sound: bool)
    requires
        patch.size.wf(),
    ensures
        sound == removals_sound(removed@, patch@),
{
    let last: u32 = patch.size.pages();
    let mut i: usize = 0;
    while i < removed.len()
        invariant
            i <= removed@.len(),
            last == patch@.size.count(),
            forall|j: int|
                0 <= j < i ==> (#[trigger] removed@[j]).value <= patch@.size.count()
                    && !patch@.pages.dom().contains(removed@[j]),
        decreases removed.len() - i,
    {
        if removed[i].value > last || patch.pages.contains_key(&removed[i]) {
            assert(!(removed@[i as int].value <= patch@.size.count()
                && !patch@.pages.dom().contains(removed@[i as int])));
            return false;
        }
        i += 1;
    }
    true
}

fn gather(pages: &Vec<PageNumber>) -> (set: OrderedSet<PageNumber>)
    ensures
        set@ == pages@.to_set(),
{
    let mut set: OrderedSet<PageNumber> = OrderedSet::new();
    let mut i: usize = 0;
    while i < pages.len()
        invariant
            i <= pages@.len(),
            forall|p: PageNumber| #[trigger] set@.contains(p) ==> pages@.contains(p),
            forall|j: int| 0 <= j < i ==> set@.contains(#[trigger] pages@[j]),
        decreases pages.len() - i,
    {
        assert(pages@.contains(pages@[i as int]));
        set.insert(pages[i]);
        i += 1;
    }
    assert(set@ =~= pages@.to_set());
    set
}

impl MetadataRun {
    /// The run that an encoding holds.
    pub fn decode_raw(raw: &[u8]) -> (run: Result<MetadataRun, StoreError>)
        ensures
            match run {
                Ok(r) => run_parse(raw@) == Ok::<RunModel, StoreError>(r@),
                Err(e) => run_parse(raw@) == Err::<RunModel, StoreError>(e),
            },
    {
        let mut wire: Decoder = Decoder::new(raw);
        let (parent, root, span, count) = read_run_head(&mut wire)?;
        if count as usize > (raw.len() - RUN_PREFIX) / 4 {
            return Err(StoreError::Range);
        }
        let removed: Vec<PageNumber> = read_numbers(&mut wire, count)?;
        let body: usize = raw.len() - RUN_PREFIX - count as usize * 4;
        let patch: ValidatedMetadata = ViewMetadata::decode_raw(wire.take(body)?)?;
        wire.finish()?;
        if span.end.value != patch.resolved().txid.value || !check_removals(
            &removed,
            patch.resolved(),
        ) {
            return Err(StoreError::Corrupt(0));
        }
        Ok(MetadataRun::from_parts(parent, root, span, patch, gather(&removed)))
    }

    /// Encodes the run in an envelope.
    pub fn encode(&self) -> (encoded: Result<Vec<u8>, StoreError>)
        ensures
            match encoded {
                Ok(e) => {
                    let raw = self@.raw();
                    &&& raw.len() <= VIEW_LIMIT
                    &&& e@ == wire::envelope_bytes(RUN_MAGIC@, raw, codec::zstd_frame(raw, 3))
                    &&& codec::zstd_content(codec::zstd_frame(raw, 3)) == raw
                },
                Err(e) => if self@.raw().len() > VIEW_LIMIT {
                    e == StoreError::Range
                } else {
                    e is Zstd
                },
            },
    {
        let raw: Vec<u8> = self.encode_raw()?;
        envelope(&RUN_MAGIC, raw.as_slice())
    }

    fn encode_raw(&self) -> (raw: Result<Vec<u8>, StoreError>)
        ensures
            match raw {
                Ok(r) => r@ == self@.raw() && r@.len() <= VIEW_LIMIT,
                Err(e) => e == StoreError::Range && self@.raw().len() > VIEW_LIMIT,
            },
    {
        let mut raw: Vec<u8> = Vec::new();
        append(&mut raw, self.parent().hash.bytes.as_slice());
        u64_bytes(&mut raw, self.parent().txid.value);
        append(&mut raw, self.root().bytes.as_slice());
        u64_bytes(&mut raw, self.span().begin.value);
        u64_bytes(&mut raw, self.span().end.value);
        let count: usize = self.removed().len();
        let ghost list = self@.removed_list();
        proof {
            lemma_numbers_size(list, 0);
            lemma_raw_len(self@);
        }
        if count > u32::MAX as usize {
            return Err(StoreError::Range);
        }
        u32_bytes(&mut raw, count as u32);
        let ghost prefix = raw@;
        assert(prefix =~= self@.prefix());
        let mut i: usize = 0;
        assert(prefix + numbers_bytes(list, 0) =~= raw@ + numbers_bytes(list, 0));
        while i < count
            invariant
                i <= count,
                count == list.len(),
                list == self@.removed_list(),
                prefix + numbers_bytes(list, 0) == raw@ + numbers_bytes(list, i as int),
            decreases count - i,
        {
            let page: PageNumber = *self.removed().at(i);
            let ghost now = raw@;
            u32_bytes(&mut raw, page.value);
            proof {
                let rest = numbers_bytes(list, i as int + 1);
                assert(now + (bytes::le(page.value as nat, 4) + rest) =~= raw@ + rest);
            }
            i += 1;
        }
        assert(raw@ =~= prefix + numbers_bytes(list, 0));
        match self.patch().encode_raw() {
            Err(_) => {
                proof {
                    assert(self@.raw().len() > VIEW_LIMIT);
                }
                Err(StoreError::Range)
            },
            Ok(patch) => {
                append(&mut raw, patch.as_slice());
                assert(raw@ =~= self@.raw());
                if raw.len() > VIEW_LIMIT {
                    return Err(StoreError::Range);
                }
                Ok(raw)
            },
        }
    }

    /// The run that an envelope holds. The decompressor may fail on any frame.
    pub fn decode(encoded: &[u8]) -> (run: Result<MetadataRun, StoreError>)
        ensures
            match wire::envelope_parts(RUN_MAGIC@, encoded@, VIEW_LIMIT as int) {
                Err(error) => run == Err::<MetadataRun, StoreError>(error),
                Ok(parts) => {
                    let raw = codec::zstd_content(parts.frame);
                    if raw.len() != parts.length || digest::content_hash(raw) != parts.hash {
                        run matches Err(e) && (e is Zstd || e == StoreError::Corrupt(0))
                    } else {
                        match run {
                            Ok(r) => run_parse(raw) == Ok::<RunModel, StoreError>(r@),
                            Err(e) => e is Zstd || run_parse(raw) == Err::<RunModel, StoreError>(e),
                        }
                    }
                },
            },
    {
        let raw: Vec<u8> = open_envelope(&RUN_MAGIC, encoded, VIEW_LIMIT)?;
        MetadataRun::decode_raw(raw.as_slice())
    }
}

proof fn lemma_numbers_size(pages: Seq<PageNumber>, i: int)
    requires
        0 <= i <= pages.len(),
    ensures
        numbers_bytes(pages, i).len() == 4 * (pages.len() - i),
    decreases pages.len() - i,
{
    if i < pages.len() {
        crate::bytes::lemma_le_len(pages[i].value as nat, 4);
        lemma_numbers_size(pages, i + 1);
    }
}

proof fn lemma_raw_len(run: RunModel)
    ensures
        run.prefix().len() == RUN_PREFIX,
        run.raw().len() == RUN_PREFIX + 4 * run.removed_list().len() + run.patch.encoding().len(),
{
    lemma_numbers_size(run.removed_list(), 0);
    crate::bytes::lemma_le_len(run.parent.txid.value as nat, 8);
    crate::bytes::lemma_le_len(run.span.begin.value as nat, 8);
    crate::bytes::lemma_le_len(run.span.end.value as nat, 8);
    crate::bytes::lemma_le_len(run.removed_list().len(), 4);
}

proof fn lemma_numbers_parse(before: Seq<u8>, pages: Seq<PageNumber>, i: int, after: Seq<u8>)
    requires
        0 <= i <= pages.len(),
        order::climbing::<PageNumber>(pages),
        forall|j: int| 0 <= j < pages.len() ==> (#[trigger] pages[j]).wf(),
        (before + numbers_bytes(pages, i) + after).len() <= usize::MAX,
    ensures
        numbers_from(
            before + numbers_bytes(pages, i) + after,
            before.len() as int,
            (pages.len() - i) as nat,
            pages.take(i),
        ) == Ok::<(Seq<PageNumber>, int), StoreError>(
            (pages, (before.len() + numbers_bytes(pages, i).len()) as int),
        ),
    decreases pages.len() - i,
{
    let whole = before + numbers_bytes(pages, i) + after;
    if i == pages.len() {
        assert(pages.take(i) =~= pages);
    } else {
        let piece = bytes::le(pages[i].value as nat, 4);
        let rest = numbers_bytes(pages, i + 1);
        crate::bytes::lemma_le_len(pages[i].value as nat, 4);
        crate::bytes::lemma_le_bounds();
        assert(whole =~= before + piece + (rest + after));
        crate::wire::lemma_number_piece(before, pages[i].value as nat, 4, rest + after);
        assert(whole =~= (before + piece) + rest + after);
        lemma_numbers_parse(before + piece, pages, i + 1, after);
        assert(pages.take(i).push(pages[i]) =~= pages.take(i + 1));
        if i > 0 {
            assert(PageNumber::precedes(pages[i - 1], pages[i]));
            assert(pages.take(i).last() == pages[i - 1]);
        }
    }
}

/// Decoding the encoding of a run with a valid patch gives the run back.
#[verifier::rlimit(40)]
pub proof fn law_run_round_trip(run: RunModel)
    requires
        view_codec::encodable(run.patch),
        validation::view_check(run.patch) == Ok::<int, StoreError>(run.decoded),
        run.parent.txid.wf(),
        run.span.wf(),
        run.span.end == run.patch.txid,
        order::climbing::<PageNumber>(run.removed_list()),
        run.removed_list().to_set() == run.removed,
        forall|j: int|
            0 <= j < run.removed_list().len() ==> (#[trigger] run.removed_list()[j]).wf(),
        removals_sound(run.removed_list(), run.patch),
        run.raw().len() <= VIEW_LIMIT,
    ensures
        run_parse(run.raw()) == Ok::<RunModel, StoreError>(run),
{
    let whole = run.raw();
    let list = run.removed_list();
    let body = run.patch.encoding();
    let numbers = numbers_bytes(list, 0);
    let prefix = run.prefix();
    lemma_raw_len(run);
    lemma_numbers_size(list, 0);
    crate::view_codec::law_view_round_trip(run.patch);
    crate::view_codec::lemma_valid_length(run.patch);
    assert(body.len() == run.decoded);
    assert(whole =~= prefix + numbers + body);
    lemma_numbers_parse(prefix, list, 0, body);
    assert(list.take(0) =~= Seq::<PageNumber>::empty());
    let at = RUN_PREFIX + 4 * list.len();
    assert(whole.subrange(at as int, whole.len() as int) =~= body);
    lemma_run_head(run, numbers + body);
    assert(whole =~= prefix + (numbers + body));
}

proof fn lemma_run_head(run: RunModel, after: Seq<u8>)
    requires
        run.parent.txid.wf(),
        run.span.wf(),
        run.removed_list().len() <= u32::MAX,
        (run.prefix() + after).len() <= usize::MAX,
    ensures
        run_head_at(run.prefix() + after) == Ok::<
            (ParentRef, ContentRoot, TransactionSpan, nat, int),
            StoreError,
        >((run.parent, run.root, run.span, run.removed_list().len(), RUN_PREFIX as int)),
{
    let whole = run.prefix() + after;
    let tx = bytes::le(run.parent.txid.value as nat, 8);
    let be = bytes::le(run.span.begin.value as nat, 8);
    let en = bytes::le(run.span.end.value as nat, 8);
    let co = bytes::le(run.removed_list().len(), 4);
    crate::bytes::lemma_le_bounds();
    crate::bytes::lemma_le_len(run.parent.txid.value as nat, 8);
    crate::bytes::lemma_le_len(run.span.begin.value as nat, 8);
    crate::bytes::lemma_le_len(run.span.end.value as nat, 8);
    crate::bytes::lemma_le_len(run.removed_list().len(), 4);
    assert(view_codec::id_at::<VIEW>(whole, 0) == Ok::<(ViewHash, int), StoreError>((run.parent.hash, 32))) by {
        assert(whole.subrange(0, 32) =~= run.parent.hash.bytes@);
        frame::lemma_id_of(run.parent.hash);
    }
    assert(view_codec::txid_at(whole, 32) == Ok::<(TransactionId, int), StoreError>((run.parent.txid, 40))) by {
        assert(whole.subrange(32, 40) =~= tx);
        crate::bytes::law_le_round_trip(run.parent.txid.value as nat, 8);
    }
    assert(view_codec::id_at::<CONTENT>(whole, 40) == Ok::<(ContentRoot, int), StoreError>((run.root, 72))) by {
        assert(whole.subrange(40, 72) =~= run.root.bytes@);
        frame::lemma_id_of(run.root);
    }
    assert(view_codec::txid_at(whole, 72) == Ok::<(TransactionId, int), StoreError>((run.span.begin, 80))) by {
        assert(whole.subrange(72, 80) =~= be);
        crate::bytes::law_le_round_trip(run.span.begin.value as nat, 8);
    }
    assert(view_codec::txid_at(whole, 80) == Ok::<(TransactionId, int), StoreError>((run.span.end, 88))) by {
        assert(whole.subrange(80, 88) =~= en);
        crate::bytes::law_le_round_trip(run.span.end.value as nat, 8);
    }
    assert(wire::number_at(whole, 88, 4) == Ok::<(nat, int), StoreError>(
        (run.removed_list().len(), 92),
    )) by {
        assert(whole.subrange(88, 92) =~= co);
        crate::bytes::law_le_round_trip(run.removed_list().len(), 4);
    }
}

} // verus!
