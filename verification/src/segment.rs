//! Self-describing segments. A header is a hint until the digest of header and
//! footer verifies; frame payloads are authenticated separately.

use crate::bytes;
use crate::bytes::{all_zero, append, append_zeros, copied, read_le, same_bytes};
use crate::digest;
use crate::digest::identify;
use crate::domain::{
    Id, ManifestId, SegmentCoverage, TransactionId, TransactionSpan, VIEW, ValueError, ViewHash,
};
use crate::error::{StoreError, valued};
use crate::frame;
use crate::order::{Key, OrderedMap, OrderedSet};
use crate::text;
use crate::text::{parse_hex, push_hex, push_number, push_text, read_radix};
use crate::wire::u64_bytes;
use vstd::prelude::*;
use vstd::slice::slice_subrange;
use vstd::string::*;

verus! {

/// The bytes of a segment header.
pub const HEADER_SIZE: usize = 128;

/// The most bytes of a segment.
pub const SEGMENT_LIMIT: usize = 536870912;

/// `ZSEG0001`.
pub const SEGMENT_MAGIC: [u8; 8] = [90, 83, 69, 71, 48, 48, 48, 49];

/// `ZEND0001`.
pub const SEGMENT_END_MAGIC: [u8; 8] = [90, 69, 78, 68, 48, 48, 48, 49];

/// Whether these are the first bytes of a segment.
pub fn is_container(magic: &[u8]) -> (segment: bool)
    ensures
        segment == (magic@ == SEGMENT_MAGIC@),
{
    same_bytes(magic, SEGMENT_MAGIC.as_slice())
}

/// The view that a run of changes applies to: its logical hash and its last
/// transaction.
#[derive(Clone, Copy, Debug, PartialEq, Eq)]
pub struct ParentRef {
    pub hash: ViewHash,
    pub txid: TransactionId,
}

impl ParentRef {
    /// Whether two references are the same.
    pub fn same(&self, other: &ParentRef) -> (same: bool)
        ensures
            same == (*self == *other),
    {
        self.hash.same(&other.hash) && self.txid.value == other.txid.value
    }
}

/// Whether a segment stands alone or applies to a parent.
#[derive(Clone, Copy, Debug, PartialEq, Eq)]
pub enum Parent {
    Checkpoint,
    Previous(ParentRef),
}

impl Parent {
    /// Whether two parents are the same.
    pub fn same(&self, other: &Parent) -> (same: bool)
        ensures
            same == (*self == *other),
    {
        match (self, other) {
            (Parent::Checkpoint, Parent::Checkpoint) => true,
            (Parent::Previous(a), Parent::Previous(b)) => a.same(b),
            _ => false,
        }
    }

    pub fn is_checkpoint(&self) -> (checkpoint: bool)
        ensures
            checkpoint == (*self is Checkpoint),
    {
        match self {
            Parent::Checkpoint => true,
            Parent::Previous(_) => false,
        }
    }
}

/// What a segment holds.
#[derive(Clone, Copy, Debug, PartialEq, Eq)]
pub struct Header {
    pub coverage: SegmentCoverage,
    pub logical_hash: ViewHash,
    pub parent: Parent,
}

/// The represented transactions start where the parent ends: a checkpoint
/// represents all of its span, a run what comes after its parent, and a run that
/// ends with its parent its last transaction.
pub open spec fn coverage_matches(coverage: SegmentCoverage, parent: Parent) -> bool {
    match parent {
        Parent::Checkpoint => coverage.represented == coverage.full.begin,
        Parent::Previous(reference) => {
            &&& coverage.full.begin.value <= reference.txid.value <= coverage.full.end.value
            &&& coverage.represented.value == if reference.txid == coverage.full.end {
                reference.txid.value as int
            } else {
                reference.txid.value + 1
            }
        },
    }
}

impl Header {
    pub open spec fn wf(self) -> bool {
        &&& self.coverage.wf()
        &&& coverage_matches(self.coverage, self.parent)
        &&& self.parent matches Parent::Previous(reference) ==> reference.txid.wf()
    }

    pub fn new(coverage: SegmentCoverage, logical_hash: ViewHash, parent: Parent) -> (header: Result<
        Self,
        StoreError,
    >)
        ensures
            match header {
                Ok(h) => h == (Header { coverage, logical_hash, parent }) && coverage_matches(
                    coverage,
                    parent,
                ),
                Err(e) => !coverage_matches(coverage, parent) && e == StoreError::Range,
            },
    {
        let expected: TransactionId = match parent {
            Parent::Checkpoint => coverage.full.begin,
            Parent::Previous(reference) => {
                if reference.txid.value < coverage.full.begin.value || reference.txid.value
                    > coverage.full.end.value {
                    return Err(StoreError::Range);
                }
                if reference.txid.value == coverage.full.end.value {
                    reference.txid
                } else {
                    valued(reference.txid.next())?
                }
            },
        };
        if coverage.represented.value != expected.value {
            return Err(StoreError::Range);
        }
        Ok(Header { coverage, logical_hash, parent })
    }

    pub fn coverage(self) -> (coverage: SegmentCoverage)
        ensures
            coverage == self.coverage,
    {
        self.coverage
    }

    pub fn logical_hash(self) -> (hash: ViewHash)
        ensures
            hash == self.logical_hash,
    {
        self.logical_hash
    }

    pub fn parent(self) -> (parent: Parent)
        ensures
            parent == self.parent,
    {
        self.parent
    }

    pub open spec fn parent_flag(self) -> u8 {
        if self.parent is Previous {
            1
        } else {
            0
        }
    }

    pub open spec fn parent_hash(self) -> Seq<u8> {
        match self.parent {
            Parent::Checkpoint => bytes::zeros(32),
            Parent::Previous(reference) => reference.hash.bytes@,
        }
    }

    pub open spec fn parent_txid(self) -> Seq<u8> {
        match self.parent {
            Parent::Checkpoint => bytes::zeros(8),
            Parent::Previous(reference) => bytes::le(reference.txid.value as nat, 8),
        }
    }

    /// The bytes of the header.
    pub open spec fn record(self) -> Seq<u8> {
        SEGMENT_MAGIC@ + seq![0u8, self.parent_flag()] + bytes::zeros(6) + bytes::le(
            self.coverage.full.begin.value as nat,
            8,
        ) + bytes::le(self.coverage.full.end.value as nat, 8) + self.parent_hash() + bytes::le(
            self.coverage.represented.value as nat,
            8,
        ) + self.parent_txid() + self.logical_hash.bytes@ + bytes::zeros(16)
    }

    pub proof fn lemma_record(self)
        ensures
            self.record().len() == HEADER_SIZE,
            self.record().subrange(0, 8) == SEGMENT_MAGIC@,
            self.record()[8] == 0,
            self.record()[9] == self.parent_flag(),
            self.record().subrange(10, 16) == bytes::zeros(6),
            self.record().subrange(16, 24) == bytes::le(self.coverage.full.begin.value as nat, 8),
            self.record().subrange(24, 32) == bytes::le(self.coverage.full.end.value as nat, 8),
            self.record().subrange(32, 64) == self.parent_hash(),
            self.record().subrange(64, 72) == bytes::le(self.coverage.represented.value as nat, 8),
            self.record().subrange(72, 80) == self.parent_txid(),
            self.record().subrange(80, 112) == self.logical_hash.bytes@,
            self.record().subrange(112, 128) == bytes::zeros(16),
    {
        crate::bytes::lemma_le_len(self.coverage.full.begin.value as nat, 8);
        crate::bytes::lemma_le_len(self.coverage.full.end.value as nat, 8);
        crate::bytes::lemma_le_len(self.coverage.represented.value as nat, 8);
        if let Parent::Previous(reference) = self.parent {
            crate::bytes::lemma_le_len(reference.txid.value as nat, 8);
        }
        let r = self.record();
        assert(r.subrange(0, 8) =~= SEGMENT_MAGIC@);
        assert(r.subrange(10, 16) =~= bytes::zeros(6));
        assert(r.subrange(16, 24) =~= bytes::le(self.coverage.full.begin.value as nat, 8));
        assert(r.subrange(24, 32) =~= bytes::le(self.coverage.full.end.value as nat, 8));
        assert(r.subrange(32, 64) =~= self.parent_hash());
        assert(r.subrange(64, 72) =~= bytes::le(self.coverage.represented.value as nat, 8));
        assert(r.subrange(72, 80) =~= self.parent_txid());
        assert(r.subrange(80, 112) =~= self.logical_hash.bytes@);
        assert(r.subrange(112, 128) =~= bytes::zeros(16));
    }

    pub fn encode(self) -> (bytes: Vec<u8>)
        ensures
            bytes@ == self.record(),
            bytes@.len() == HEADER_SIZE,
    {
        let mut bytes: Vec<u8> = Vec::new();
        append(&mut bytes, SEGMENT_MAGIC.as_slice());
        bytes.push(0);
        match self.parent {
            Parent::Checkpoint => bytes.push(0),
            Parent::Previous(_) => bytes.push(1),
        }
        append_zeros(&mut bytes, 6);
        u64_bytes(&mut bytes, self.coverage.full.begin.value);
        u64_bytes(&mut bytes, self.coverage.full.end.value);
        match self.parent {
            Parent::Checkpoint => append_zeros(&mut bytes, 32),
            Parent::Previous(reference) => append(&mut bytes, reference.hash.bytes.as_slice()),
        }
        u64_bytes(&mut bytes, self.coverage.represented.value);
        match self.parent {
            Parent::Checkpoint => append_zeros(&mut bytes, 8),
            Parent::Previous(reference) => u64_bytes(&mut bytes, reference.txid.value),
        }
        append(&mut bytes, self.logical_hash.bytes.as_slice());
        append_zeros(&mut bytes, 16);
        proof {
            self.lemma_record();
            assert(bytes@ =~= self.record());
        }
        bytes
    }

    /// The header that these bytes record.
    pub fn decode(bytes: &[u8]) -> (header: Result<Self, StoreError>)
        requires
            bytes@.len() == HEADER_SIZE,
        ensures
            match header {
                Ok(h) => header_parse(bytes@) == Ok::<Header, StoreError>(h) && h.wf(),
                Err(e) => header_parse(bytes@) == Err::<Header, StoreError>(e),
            },
    {
        let magic: &[u8] = slice_subrange(bytes, 0, 8);
        if !is_container(magic) || bytes[8] != 0 {
            return Err(StoreError::Corrupt(0));
        }
        let low: bool = all_zero(slice_subrange(bytes, 10, 16));
        let high: bool = all_zero(slice_subrange(bytes, 112, 128));
        proof {
            lemma_zeros(bytes@.subrange(10, 16));
            lemma_zeros(bytes@.subrange(112, 128));
            lemma_zeros(bytes@.subrange(32, 64));
            lemma_zeros(bytes@.subrange(72, 80));
        }
        if !low || !high {
            return Err(StoreError::Corrupt(0));
        }
        let hash_field: &[u8] = slice_subrange(bytes, 32, 64);
        let txid_field: &[u8] = slice_subrange(bytes, 72, 80);
        let parent: Parent = if bytes[9] == 0 && all_zero(hash_field) && all_zero(txid_field) {
            Parent::Checkpoint
        } else if bytes[9] == 1 {
            let hash: ViewHash = Id::read(hash_field);
            proof {
                frame::lemma_id_of(hash);
            }
            let txid: TransactionId = valued(TransactionId::new(read_le(txid_field)))?;
            Parent::Previous(ParentRef { hash, txid })
        } else {
            return Err(StoreError::Corrupt(0));
        };
        let begin: TransactionId = valued(
            TransactionId::new(read_le(slice_subrange(bytes, 16, 24))),
        )?;
        let end: TransactionId = valued(
            TransactionId::new(read_le(slice_subrange(bytes, 24, 32))),
        )?;
        let full: TransactionSpan = valued(TransactionSpan::new(begin, end))?;
        let represented: TransactionId = valued(
            TransactionId::new(read_le(slice_subrange(bytes, 64, 72))),
        )?;
        let coverage: SegmentCoverage = valued(SegmentCoverage::new(full, represented))?;
        let logical_hash: ViewHash = Id::read(slice_subrange(bytes, 80, 112));
        proof {
            frame::lemma_id_of(logical_hash);
        }
        Header::new(coverage, logical_hash, parent)
    }
}

proof fn lemma_zeros(bytes: Seq<u8>)
    ensures
        (forall|i: int| 0 <= i < bytes.len() ==> bytes[i] == 0) <==> bytes == bytes::zeros(bytes.len()),
{
    if forall|i: int| 0 <= i < bytes.len() ==> bytes[i] == 0 {
        assert(bytes =~= bytes::zeros(bytes.len()));
    }
    if bytes == bytes::zeros(bytes.len()) {
        assert forall|i: int| 0 <= i < bytes.len() implies bytes[i] == 0 by {
            assert(bytes::zeros(bytes.len())[i] == 0);
        }
    }
}

/// The parent that 128 bytes of a header name.
pub open spec fn parent_parse(bytes: Seq<u8>) -> Result<Parent, StoreError> {
    if bytes[9] == 0 && bytes.subrange(32, 64) == bytes::zeros(32) && bytes.subrange(72, 80) == bytes::zeros(8) {
        Ok(Parent::Checkpoint)
    } else if bytes[9] == 1 {
        let txid = bytes::le_value(bytes.subrange(72, 80));
        if txid == 0 {
            Err(StoreError::Value(ValueError))
        } else {
            Ok(
                Parent::Previous(
                    ParentRef {
                        hash: frame::id_of(bytes.subrange(32, 64)),
                        txid: TransactionId { value: txid as u64 },
                    },
                ),
            )
        }
    } else {
        Err(StoreError::Corrupt(0))
    }
}

/// The header that 128 bytes record, or why they record none.
pub open spec fn header_parse(bytes: Seq<u8>) -> Result<Header, StoreError> {
    if bytes.subrange(0, 8) != SEGMENT_MAGIC@ || bytes[8] != 0 || bytes.subrange(10, 16) != bytes::zeros(6)
        || bytes.subrange(112, 128) != bytes::zeros(16) {
        Err(StoreError::Corrupt(0))
    } else {
        match parent_parse(bytes) {
            Err(error) => Err(error),
            Ok(parent) => {
                let begin = bytes::le_value(bytes.subrange(16, 24));
                let end = bytes::le_value(bytes.subrange(24, 32));
                let represented = bytes::le_value(bytes.subrange(64, 72));
                let header = Header {
                    coverage: SegmentCoverage {
                        full: TransactionSpan {
                            begin: TransactionId { value: begin as u64 },
                            end: TransactionId { value: end as u64 },
                        },
                        represented: TransactionId { value: represented as u64 },
                    },
                    logical_hash: frame::id_of(bytes.subrange(80, 112)),
                    parent,
                };
                if begin == 0 || end == 0 || begin > end || represented == 0 || !(begin
                    <= represented <= end) {
                    Err(StoreError::Value(ValueError))
                } else if !coverage_matches(header.coverage, parent) {
                    Err(StoreError::Range)
                } else {
                    Ok(header)
                }
            },
        }
    }
}

/// Reading the record of a valid header gives the header back.
pub proof fn law_header_round_trip(header: Header)
    requires
        header.wf(),
    ensures
        header_parse(header.record()) == Ok::<Header, StoreError>(header),
{
    header.lemma_record();
    crate::bytes::lemma_le_bounds();
    crate::bytes::law_le_round_trip(header.coverage.full.begin.value as nat, 8);
    crate::bytes::law_le_round_trip(header.coverage.full.end.value as nat, 8);
    crate::bytes::law_le_round_trip(header.coverage.represented.value as nat, 8);
    frame::lemma_id_of(header.logical_hash);
    if let Parent::Previous(reference) = header.parent {
        crate::bytes::law_le_round_trip(reference.txid.value as nat, 8);
        frame::lemma_id_of(reference.hash);
    }
}

/// A header is read from its own record only: no other bytes are accepted.
pub proof fn law_header_canonical(bytes: Seq<u8>, header: Header)
    requires
        bytes.len() == HEADER_SIZE,
        header_parse(bytes) == Ok::<Header, StoreError>(header),
    ensures
        header.wf(),
        header.record() == bytes,
{
    header.lemma_record();
    crate::bytes::lemma_le_bounds();
    crate::bytes::law_le_canonical(bytes.subrange(16, 24));
    crate::bytes::law_le_canonical(bytes.subrange(24, 32));
    crate::bytes::law_le_canonical(bytes.subrange(64, 72));
    crate::bytes::law_le_canonical(bytes.subrange(72, 80));
    frame::lemma_id_bytes::<VIEW>(bytes.subrange(80, 112));
    frame::lemma_id_bytes::<VIEW>(bytes.subrange(32, 64));
    let pieces = bytes.subrange(0, 8) + seq![bytes[8], bytes[9]] + bytes.subrange(10, 16)
        + bytes.subrange(16, 24) + bytes.subrange(24, 32) + bytes.subrange(32, 64)
        + bytes.subrange(64, 72) + bytes.subrange(72, 80) + bytes.subrange(80, 112)
        + bytes.subrange(112, 128);
    assert(bytes =~= pieces);
}

/// A segment taken apart.
#[derive(Debug, PartialEq, Eq)]
pub struct Container {
    pub header: Header,
    pub footer: Vec<u8>,
    pub id: ManifestId,
}

/// A segment: the header, a footer, and a trailer.
pub open spec fn segment_bytes(header: Header, footer: Seq<u8>) -> Seq<u8> {
    header.record() + footer + bytes::le(HEADER_SIZE as nat, 8) + SEGMENT_END_MAGIC@
}

/// What the identity of a segment covers.
pub open spec fn segment_input(header: Header, footer: Seq<u8>) -> Seq<u8> {
    header.record() + footer
}

/// The header and footer of a segment, or why the bytes are none.
pub open spec fn segment_parse(bytes: Seq<u8>) -> Result<(Header, Seq<u8>), StoreError> {
    let total = bytes.len() as int;
    if total < HEADER_SIZE + 16 || total > SEGMENT_LIMIT {
        Err(StoreError::Range)
    } else {
        match header_parse(bytes.take(HEADER_SIZE as int)) {
            Err(error) => Err(error),
            Ok(header) => if bytes.subrange(total - 8, total) != SEGMENT_END_MAGIC@ || bytes::le_value(
                bytes.subrange(total - 16, total - 8),
            ) != HEADER_SIZE {
                Err(StoreError::Corrupt(0))
            } else {
                Ok((header, bytes.subrange(HEADER_SIZE as int, total - 16)))
            },
        }
    }
}

/// Takes a segment apart, and names it by the digest of its header and footer.
pub fn read_bytes(bytes: &[u8]) -> (container: Result<Container, StoreError>)
    ensures
        match container {
            Ok(c) => segment_parse(bytes@) == Ok::<(Header, Seq<u8>), StoreError>(
                (c.header, c.footer@),
            ) && c.header.wf() && digest::names(c.id, segment_input(c.header, c.footer@)),
            Err(e) => segment_parse(bytes@) == Err::<(Header, Seq<u8>), StoreError>(e),
        },
{
    let total: usize = bytes.len();
    if total < HEADER_SIZE + 16 || total > SEGMENT_LIMIT {
        return Err(StoreError::Range);
    }
    let encoded: &[u8] = slice_subrange(bytes, 0, HEADER_SIZE);
    assert(encoded@ =~= bytes@.take(HEADER_SIZE as int));
    let header: Header = Header::decode(encoded)?;
    let field: &[u8] = slice_subrange(bytes, total - 16, total - 8);
    if !same_bytes(slice_subrange(bytes, total - 8, total), SEGMENT_END_MAGIC.as_slice())
        || read_le(field) != HEADER_SIZE as u64 {
        return Err(StoreError::Corrupt(0));
    }
    let footer: Vec<u8> = copied(slice_subrange(bytes, HEADER_SIZE, total - 16));
    let mut input: Vec<u8> = copied(encoded);
    append(&mut input, footer.as_slice());
    proof {
        law_header_canonical(encoded@, header);
        assert(input@ =~= segment_input(header, footer@));
    }
    let id: ManifestId = identify(input.as_slice());
    Ok(Container { header, footer, id })
}

/// Joins a segment.
pub fn write_bytes(header: Header, footer: &[u8]) -> (bytes: Vec<u8>)
    ensures
        bytes@ == segment_bytes(header, footer@),
{
    let mut bytes: Vec<u8> = header.encode();
    append(&mut bytes, footer);
    u64_bytes(&mut bytes, HEADER_SIZE as u64);
    append(&mut bytes, SEGMENT_END_MAGIC.as_slice());
    assert(bytes@ =~= segment_bytes(header, footer@));
    bytes
}

/// Taking a joined segment apart gives its header and footer back.
pub proof fn law_segment_round_trip(header: Header, footer: Seq<u8>)
    requires
        header.wf(),
        HEADER_SIZE + footer.len() + 16 <= SEGMENT_LIMIT,
    ensures
        segment_parse(segment_bytes(header, footer)) == Ok::<(Header, Seq<u8>), StoreError>(
            (header, footer),
        ),
{
    let whole = segment_bytes(header, footer);
    let total = whole.len() as int;
    header.lemma_record();
    law_header_round_trip(header);
    crate::bytes::lemma_le_len(HEADER_SIZE as nat, 8);
    crate::bytes::lemma_le_bounds();
    crate::bytes::law_le_round_trip(HEADER_SIZE as nat, 8);
    assert(whole.take(HEADER_SIZE as int) =~= header.record());
    assert(whole.subrange(total - 8, total) =~= SEGMENT_END_MAGIC@);
    assert(whole.subrange(total - 16, total - 8) =~= bytes::le(HEADER_SIZE as nat, 8));
    assert(whole.subrange(HEADER_SIZE as int, total - 16) =~= footer);
}

/// One endpoint of the catalog: where a physical segment leads.
pub struct Endpoint {
    pub physical: ManifestId,
    pub header: Header,
}

/// An entry of the catalog as an endpoint.
pub open spec fn endpoint_parse(key: Seq<u8>, value: Seq<u8>) -> Result<Endpoint, StoreError> {
    if key.len() != 32 || value.len() != HEADER_SIZE {
        Err(StoreError::Corrupt(0))
    } else {
        match header_parse(value) {
            Err(error) => Err(error),
            Ok(header) => Ok(Endpoint { physical: frame::id_of(key), header }),
        }
    }
}

/// The endpoint leads to the view that is sought, and was not tried yet.
pub open spec fn leads_to(endpoint: Endpoint, sought: ParentRef, seen: Set<ManifestId>) -> bool {
    &&& endpoint.header.logical_hash == sought.hash
    &&& endpoint.header.coverage.full.end == sought.txid
    &&& !seen.contains(endpoint.physical)
}

/// Endpoint `a` is better than `b`: it represents more transactions; of two that
/// represent the same, a checkpoint is better; then the lower identity.
pub open spec fn better(a: Endpoint, b: Endpoint) -> bool {
    let x = a.header.coverage.represented.value;
    let y = b.header.coverage.represented.value;
    let p = a.header.parent is Checkpoint;
    let q = b.header.parent is Checkpoint;
    x < y || (x == y && ((p && !q) || (p == q && ManifestId::precedes(a.physical, b.physical))))
}

/// What is found among the first `count` entries: an error at the first entry
/// that is no endpoint, or the best endpoint that leads to what is sought.
pub open spec fn endpoint_among(
    entries: Seq<(Seq<u8>, Seq<u8>)>,
    count: int,
    sought: ParentRef,
    seen: Set<ManifestId>,
) -> Result<Option<Endpoint>, StoreError>
    decreases count,
{
    if count <= 0 {
        Ok(None)
    } else {
        match endpoint_among(entries, count - 1, sought, seen) {
            Err(error) => Err(error),
            Ok(best) => match endpoint_parse(entries[count - 1].0, entries[count - 1].1) {
                Err(error) => Err(error),
                Ok(endpoint) => if !leads_to(endpoint, sought, seen) {
                    Ok(best)
                } else {
                    match best {
                        None => Ok(Some(endpoint)),
                        Some(other) => if better(endpoint, other) {
                            Ok(Some(endpoint))
                        } else {
                            Ok(Some(other))
                        },
                    }
                },
            },
        }
    }
}

/// The physical segment to resolve a logical view from: among the endpoints that
/// lead to it and were not tried, the one that represents most. What is found is
/// a hint: the caller authenticates the segment and the view.
pub fn find_endpoint(
    entries: &OrderedMap<Vec<u8>, Vec<u8>>,
    sought: ParentRef,
    seen: &OrderedSet<ManifestId>,
) -> (found: Result<Option<ManifestId>, StoreError>)
    ensures
        match found {
            Ok(f) => match endpoint_among(
                entries.pairs(),
                entries.pairs().len() as int,
                sought,
                seen@,
            ) {
                Ok(Some(endpoint)) => f == Some(endpoint.physical),
                Ok(None) => f is None,
                Err(_) => false,
            },
            Err(e) => endpoint_among(
                entries.pairs(),
                entries.pairs().len() as int,
                sought,
                seen@,
            ) == Err::<Option<Endpoint>, StoreError>(e),
        },
{
    let count: usize = entries.len();
    let ghost pairs = entries.pairs();
    let mut best: Option<(ManifestId, Header)> = None;
    let mut i: usize = 0;
    while i < count
        invariant
            i <= count,
            count == pairs.len(),
            pairs == entries.pairs(),
            match best {
                Some((physical, header)) => endpoint_among(pairs, i as int, sought, seen@) == Ok::<
                    Option<Endpoint>,
                    StoreError,
                >(Some(Endpoint { physical, header })),
                None => endpoint_among(pairs, i as int, sought, seen@) == Ok::<
                    Option<Endpoint>,
                    StoreError,
                >(None),
            },
        decreases count - i,
    {
        let key: &Vec<u8> = entries.key_at(i);
        let value: &Vec<u8> = entries.value_at(i);
        if key.len() != 32 || value.len() != HEADER_SIZE {
            proof {
                lemma_endpoint_error(pairs, i as int + 1, pairs.len() as int, sought, seen@);
            }
            return Err(StoreError::Corrupt(0));
        }
        let physical: ManifestId = Id::read(key.as_slice());
        proof {
            frame::lemma_id_of(physical);
        }
        let header: Header = match Header::decode(value.as_slice()) {
            Ok(header) => header,
            Err(error) => {
                proof {
                    lemma_endpoint_error(pairs, i as int + 1, pairs.len() as int, sought, seen@);
                }
                return Err(error);
            },
        };
        if header.logical_hash.same(&sought.hash) && header.coverage.full.end.value
            == sought.txid.value && !seen.contains(&physical) {
            let take: bool = match &best {
                None => true,
                Some((other, kept)) => {
                    let x: u64 = header.coverage.represented.value;
                    let y: u64 = kept.coverage.represented.value;
                    let p: bool = header.parent.is_checkpoint();
                    let q: bool = kept.parent.is_checkpoint();
                    x < y || (x == y && ((p && !q) || (p == q && physical.before(other))))
                },
            };
            if take {
                best = Some((physical, header));
            }
        }
        i += 1;
    }
    match best {
        Some((physical, _)) => Ok(Some(physical)),
        None => Ok(None),
    }
}

proof fn lemma_endpoint_error(
    entries: Seq<(Seq<u8>, Seq<u8>)>,
    low: int,
    high: int,
    sought: ParentRef,
    seen: Set<ManifestId>,
)
    requires
        0 <= low <= high,
        endpoint_among(entries, low, sought, seen) is Err,
    ensures
        endpoint_among(entries, high, sought, seen) == endpoint_among(entries, low, sought, seen),
    decreases high,
{
    if low < high {
        lemma_endpoint_error(entries, low, high - 1, sought, seen);
    }
}

/// As `find_endpoint`, where a parent must be found.
pub fn resolve_parent(
    entries: &OrderedMap<Vec<u8>, Vec<u8>>,
    parent: ParentRef,
    seen: &OrderedSet<ManifestId>,
) -> (found: Result<ManifestId, StoreError>)
    ensures
        match endpoint_among(entries.pairs(), entries.pairs().len() as int, parent, seen@) {
            Ok(Some(endpoint)) => found == Ok::<ManifestId, StoreError>(endpoint.physical),
            Ok(None) => found == Err::<ManifestId, StoreError>(StoreError::Corrupt(0)),
            Err(error) => found == Err::<ManifestId, StoreError>(error),
        },
{
    match find_endpoint(entries, parent, seen)? {
        Some(physical) => Ok(physical),
        None => Err(StoreError::Corrupt(0)),
    }
}

/// What is found leads to what is sought and was not tried, and no entry that
/// leads there is better.
pub proof fn law_endpoint_is_best(
    entries: Seq<(Seq<u8>, Seq<u8>)>,
    count: int,
    sought: ParentRef,
    seen: Set<ManifestId>,
    i: int,
)
    requires
        0 <= i < count <= entries.len(),
        endpoint_among(entries, count, sought, seen) is Ok,
    ensures
        endpoint_parse(entries[i].0, entries[i].1) is Ok,
        ({
            let other = endpoint_parse(entries[i].0, entries[i].1)->Ok_0;
            leads_to(other, sought, seen) ==> (endpoint_among(
                entries,
                count,
                sought,
                seen,
            )->Ok_0 matches Some(best) && leads_to(best, sought, seen) && !better(other, best))
        }),
    decreases count,
{
    law_endpoint_leads(entries, count, sought, seen);
    let now = endpoint_parse(entries[count - 1].0, entries[count - 1].1)->Ok_0;
    if i == count - 1 {
        ManifestId::lemma_irreflexive(now.physical);
        if let Some(prior) = endpoint_among(entries, count - 1, sought, seen)->Ok_0 {
            if better(now, prior) {
                lemma_better_asymmetric(now, prior);
            }
        }
    } else {
        law_endpoint_is_best(entries, count - 1, sought, seen, i);
        let other = endpoint_parse(entries[i].0, entries[i].1)->Ok_0;
        if leads_to(other, sought, seen) {
            let prior = endpoint_among(entries, count - 1, sought, seen)->Ok_0->Some_0;
            if leads_to(now, sought, seen) && better(now, prior) && better(other, now) {
                lemma_better_transitive(other, now, prior);
            }
        }
    }
}

/// What is found leads to what is sought and was not tried.
pub proof fn law_endpoint_leads(
    entries: Seq<(Seq<u8>, Seq<u8>)>,
    count: int,
    sought: ParentRef,
    seen: Set<ManifestId>,
)
    requires
        endpoint_among(entries, count, sought, seen) is Ok,
    ensures
        endpoint_among(entries, count, sought, seen)->Ok_0 matches Some(best) ==> leads_to(
            best,
            sought,
            seen,
        ),
    decreases count,
{
    if count > 0 {
        law_endpoint_leads(entries, count - 1, sought, seen);
    }
}

proof fn lemma_better_asymmetric(a: Endpoint, b: Endpoint)
    requires
        better(a, b),
    ensures
        !better(b, a),
{
    if ManifestId::precedes(a.physical, b.physical) && ManifestId::precedes(
        b.physical,
        a.physical,
    ) {
        ManifestId::lemma_transitive(a.physical, b.physical, a.physical);
        ManifestId::lemma_irreflexive(a.physical);
    }
}

proof fn lemma_better_transitive(a: Endpoint, b: Endpoint, c: Endpoint)
    requires
        better(a, b),
        better(b, c),
    ensures
        better(a, c),
{
    if ManifestId::precedes(a.physical, b.physical) && ManifestId::precedes(
        b.physical,
        c.physical,
    ) {
        ManifestId::lemma_transitive(a.physical, b.physical, c.physical);
    }
}

/// `.segment`.
pub const SEGMENT_SUFFIX: [u8; 8] = [46, 115, 101, 103, 109, 101, 110, 116];

/// The name of a segment that represents the transactions from `begin` to `end`.
pub open spec fn segment_name(begin: nat, end: nat, hash: Seq<u8>, id: Seq<u8>) -> Seq<u8> {
    text::number_text(begin, 16) + seq![45u8] + text::number_text(end, 16) + seq![45u8] + text::hex_text(hash)
        + seq![45u8] + text::hex_text(id) + SEGMENT_SUFFIX@
}

/// Place `d` holds the third of exactly three dashes, and the fields before it
/// have sixteen characters each.
pub open spec fn split_at(bare: Seq<u8>, d: int) -> bool {
    &&& 33 < d < bare.len()
    &&& bare[16] == 45 && bare[33] == 45 && bare[d] == 45
    &&& forall|i: int| 0 <= i < bare.len() && i != 16 && i != 33 && i != d ==> bare[i] != 45
}

/// The identity in the name of a segment, or why the name is none.
pub open spec fn name_parse(name: Seq<u8>) -> Result<ManifestId, StoreError> {
    let bare = name.take(name.len() - 8);
    if name.len() < 8 || name.skip(name.len() - 8) != SEGMENT_SUFFIX@ || !(exists|d: int|
        split_at(bare, d)) {
        Err(StoreError::Corrupt(0))
    } else {
        name_fields(name, bare, choose|d: int| split_at(bare, d))
    }
}

pub open spec fn name_fields(name: Seq<u8>, bare: Seq<u8>, d: int) -> Result<
    ManifestId,
    StoreError,
> {
    match text::radix_value(bare.subrange(0, 16)) {
        None => Err(StoreError::Corrupt(0)),
        Some(begin) => if begin == 0 {
            Err(StoreError::Value(ValueError))
        } else {
            match text::radix_value(bare.subrange(17, 33)) {
                None => Err(StoreError::Corrupt(0)),
                Some(end) => if end == 0 || begin > end {
                    Err(StoreError::Value(ValueError))
                } else {
                    let hash = bare.subrange(34, d);
                    let id = bare.subrange(d + 1, bare.len() as int);
                    if !text::is_hex(hash) || !text::is_hex(id) || name != segment_name(
                        begin,
                        end,
                        text::unhex(hash),
                        text::unhex(id),
                    ) {
                        Err(StoreError::Corrupt(0))
                    } else {
                        Ok(frame::id_of(text::unhex(id)))
                    }
                },
            }
        },
    }
}

proof fn lemma_split_unique(bare: Seq<u8>, d: int)
    requires
        split_at(bare, d),
    ensures
        (choose|e: int| split_at(bare, e)) == d,
{
    let e = choose|e: int| split_at(bare, e);
    assert(split_at(bare, e));
    if e != d {
        assert(bare[e] != 45);
    }
}

/// Where the third dash stands, if the fields before it are as long as they must
/// be.
fn find_split(bare: &[u8]) -> (place: Option<usize>)
    ensures
        match place {
            Some(d) => split_at(bare@, d as int),
            None => !exists|d: int| split_at(bare@, d),
        },
{
    if bare.len() < 35 || bare[16] != 45 || bare[33] != 45 {
        return None;
    }
    let mut found: Option<usize> = None;
    let mut i: usize = 0;
    while i < bare.len()
        invariant
            i <= bare@.len(),
            bare@.len() >= 35,
            bare@[16] == 45,
            bare@[33] == 45,
            match found {
                None => forall|j: int| 0 <= j < i && j != 16 && j != 33 ==> bare@[j] != 45,
                Some(d) => 33 < d < i && bare@[d as int] == 45 && forall|j: int|
                    0 <= j < i && j != 16 && j != 33 && j != d ==> bare@[j] != 45,
            },
        decreases bare.len() - i,
    {
        if bare[i] == 45 && i != 16 && i != 33 {
            proof {
                if i < 33 {
                    assert forall|d: int| !split_at(bare@, d) by {
                        if split_at(bare@, d) {
                            assert(bare@[i as int] != 45);
                        }
                    }
                }
                if let Some(e) = found {
                    assert forall|d: int| !split_at(bare@, d) by {
                        if split_at(bare@, d) {
                            if d == i {
                                assert(bare@[e as int] != 45);
                            } else {
                                assert(bare@[i as int] != 45);
                            }
                        }
                    }
                }
            }
            if i < 33 || found.is_some() {
                return None;
            }
            found = Some(i);
        }
        i += 1;
    }
    match found {
        Some(d) => {
            assert(split_at(bare@, d as int));
            Some(d)
        },
        None => {
            assert forall|d: int| !split_at(bare@, d) by {
                if split_at(bare@, d) {
                    assert(bare@[d] != 45);
                }
            }
            None
        },
    }
}

/// The text of a segment's name.
fn name_text(begin: u64, end: u64, hash: &[u8], id: &[u8]) -> (name: String)
    ensures
        text::spells(name@, segment_name(begin as nat, end as nat, hash@, id@)),
{
    let mut name: String = String::new();
    proof {
        reveal_strlit("-");
        reveal_strlit(".segment");
        assert(text::spells("-"@, seq![45u8]));
        assert(text::spells(".segment"@, SEGMENT_SUFFIX@));
        assert(text::spells(name@, Seq::<u8>::empty()));
    }
    let ghost dash = seq![45u8];
    let ghost a = Seq::<u8>::empty() + text::number_text(begin as nat, 16);
    push_number(&mut name, begin, Ghost(Seq::empty()));
    let ghost b = a + seq![45u8];
    push_text(&mut name, "-", Ghost(a), Ghost(dash));
    let ghost c = b + text::number_text(end as nat, 16);
    push_number(&mut name, end, Ghost(b));
    let ghost d = c + seq![45u8];
    push_text(&mut name, "-", Ghost(c), Ghost(dash));
    let ghost e = d + text::hex_text(hash@);
    push_hex(&mut name, hash, Ghost(d));
    let ghost f = e + seq![45u8];
    push_text(&mut name, "-", Ghost(e), Ghost(dash));
    let ghost g = f + text::hex_text(id@);
    push_hex(&mut name, id, Ghost(f));
    push_text(&mut name, ".segment", Ghost(g), Ghost(SEGMENT_SUFFIX@));
    assert(a =~= text::number_text(begin as nat, 16));
    name
}

impl Header {
    /// The name of the segment with this header and identity.
    pub fn filename(self, id: ManifestId) -> (name: String)
        ensures
            text::spells(
                name@,
                segment_name(
                    self.coverage.represented.value as nat,
                    self.coverage.full.end.value as nat,
                    self.logical_hash.bytes@,
                    id.bytes@,
                ),
            ),
    {
        name_text(
            self.coverage.represented.value,
            self.coverage.full.end.value,
            self.logical_hash.bytes.as_slice(),
            id.bytes.as_slice(),
        )
    }
}

/// The identity in the name of a segment.
pub fn parse_filename(name: &str) -> (id: Result<ManifestId, StoreError>)
    ensures
        match id {
            Ok(i) => name_parse(name.spec_bytes()) == Ok::<ManifestId, StoreError>(i),
            Err(e) => name_parse(name.spec_bytes()) == Err::<ManifestId, StoreError>(e),
        },
{
    let text: &[u8] = name.as_bytes();
    if text.len() < 8 {
        return Err(StoreError::Corrupt(0));
    }
    let tail: &[u8] = slice_subrange(text, text.len() - 8, text.len());
    assert(tail@ =~= text@.skip(text@.len() - 8));
    if !same_bytes(tail, SEGMENT_SUFFIX.as_slice()) {
        return Err(StoreError::Corrupt(0));
    }
    let bare: &[u8] = slice_subrange(text, 0, text.len() - 8);
    assert(bare@ =~= text@.take(text@.len() - 8));
    let d: usize = match find_split(bare) {
        Some(d) => d,
        None => {
            return Err(StoreError::Corrupt(0));
        },
    };
    proof {
        lemma_split_unique(bare@, d as int);
    }
    let begin: u64 = match read_radix(slice_subrange(bare, 0, 16)) {
        Some(begin) => begin,
        None => {
            return Err(StoreError::Corrupt(0));
        },
    };
    let first: TransactionId = valued(TransactionId::new(begin))?;
    let end: u64 = match read_radix(slice_subrange(bare, 17, 33)) {
        Some(end) => end,
        None => {
            return Err(StoreError::Corrupt(0));
        },
    };
    let last: TransactionId = valued(TransactionId::new(end))?;
    let span: TransactionSpan = valued(TransactionSpan::new(first, last))?;
    let hash: [u8; 32] = parse_hex(slice_subrange(bare, 34, d))?;
    let id: [u8; 32] = parse_hex(slice_subrange(bare, d + 1, bare.len()))?;
    let expected: String = name_text(begin, end, hash.as_slice(), id.as_slice());
    proof {
        crate::text::lemma_spells(
            expected@,
            segment_name(begin as nat, end as nat, hash@, id@),
        );
    }
    if !same_bytes(expected.as_str().as_bytes(), text) {
        return Err(StoreError::Corrupt(0));
    }
    let physical: ManifestId = Id { bytes: id };
    proof {
        frame::lemma_id_of(physical);
    }
    Ok(physical)
}

/// Reading the name of a segment gives its identity back.
pub proof fn law_name_round_trip(begin: nat, end: nat, hash: ViewHash, id: ManifestId)
    requires
        1 <= begin <= end <= u64::MAX,
    ensures
        name_parse(segment_name(begin, end, hash.bytes@, id.bytes@)) == Ok::<
            ManifestId,
            StoreError,
        >(id),
{
    let name = segment_name(begin, end, hash.bytes@, id.bytes@);
    let first = text::number_text(begin, 16);
    let second = text::number_text(end, 16);
    let third = text::hex_text(hash.bytes@);
    let fourth = text::hex_text(id.bytes@);
    crate::text::lemma_number_text(begin, 16);
    crate::text::lemma_number_text(end, 16);
    crate::text::lemma_hex_text(hash.bytes@);
    crate::text::lemma_hex_text(id.bytes@);
    crate::text::lemma_radix_bound_16();
    crate::text::lemma_number_digits(begin, 16);
    crate::text::lemma_number_digits(end, 16);
    crate::text::lemma_hex_text_digits(hash.bytes@);
    crate::text::lemma_hex_text_digits(id.bytes@);
    crate::text::law_hex_round_trip(hash.bytes@);
    crate::text::law_hex_round_trip(id.bytes@);
    frame::lemma_id_of(id);
    let bare = name.take(name.len() - 8);
    assert(name.len() == 171);
    assert(name.skip(163) =~= SEGMENT_SUFFIX@);
    assert(bare.subrange(0, 16) =~= first);
    assert(bare.subrange(17, 33) =~= second);
    assert(bare.subrange(34, 98) =~= third);
    assert(bare.subrange(99, 163) =~= fourth);
    assert(split_at(bare, 98)) by {
        assert forall|i: int| 0 <= i < bare.len() && i != 16 && i != 33 && i != 98 implies bare[i]
            != 45 by {
            if i < 16 {
                assert(bare.subrange(0, 16)[i] == bare[i]);
                crate::text::lemma_only_digits(first, i);
            } else if i < 33 {
                assert(bare.subrange(17, 33)[i - 17] == bare[i]);
                crate::text::lemma_only_digits(second, i - 17);
            } else if i < 98 {
                assert(bare.subrange(34, 98)[i - 34] == bare[i]);
                crate::text::lemma_only_digits(third, i - 34);
            } else {
                assert(bare.subrange(99, 163)[i - 99] == bare[i]);
                crate::text::lemma_only_digits(fourth, i - 99);
            }
        }
    }
    lemma_split_unique(bare, 98);
    crate::text::lemma_only_digits(first, 0);
    crate::text::lemma_only_digits(second, 0);
}

/// The manifest that a view is resolved through ends at that view, by its hash and its
/// last transaction, and was not tried before. No other such manifest goes back
/// further by itself, and a manifest in full is taken before one that builds on another
/// where both go back as far.
pub proof fn law_endpoint_goes_back_furthest(
    entries: Seq<(Seq<u8>, Seq<u8>)>,
    sought: ParentRef,
    seen: Set<ManifestId>,
    best: Endpoint,
    i: int,
    other: Endpoint,
)
    requires
        endpoint_among(entries, entries.len() as int, sought, seen) == Ok::<
            Option<Endpoint>,
            StoreError,
        >(Some(best)),
        0 <= i < entries.len(),
        endpoint_parse(entries[i].0, entries[i].1) == Ok::<Endpoint, StoreError>(other),
    ensures
        best.header.logical_hash == sought.hash,
        best.header.coverage.full.end == sought.txid,
        !seen.contains(best.physical),
        other.header.logical_hash == sought.hash && other.header.coverage.full.end == sought.txid
            && !seen.contains(other.physical) ==> {
            let own = best.header.coverage.represented.value;
            let its = other.header.coverage.represented.value;
            &&& own <= its
            &&& own == its && other.header.parent is Checkpoint ==> best.header.parent is Checkpoint
            &&& own == its && (other.header.parent is Checkpoint <==> best.header.parent is Checkpoint)
                ==> !bytes::bytes_less(other.physical.bytes@, best.physical.bytes@)
        },
{
    law_endpoint_leads(entries, entries.len() as int, sought, seen);
    law_endpoint_is_best(entries, entries.len() as int, sought, seen, i);
}

/// There is no manifest to resolve a view through only where none of them ends at it and
/// was not tried.
pub proof fn law_no_endpoint_is_overlooked(
    entries: Seq<(Seq<u8>, Seq<u8>)>,
    sought: ParentRef,
    seen: Set<ManifestId>,
    i: int,
    other: Endpoint,
)
    requires
        endpoint_among(entries, entries.len() as int, sought, seen) == Ok::<
            Option<Endpoint>,
            StoreError,
        >(None),
        0 <= i < entries.len(),
        endpoint_parse(entries[i].0, entries[i].1) == Ok::<Endpoint, StoreError>(other),
    ensures
        other.header.logical_hash != sought.hash || other.header.coverage.full.end != sought.txid
            || seen.contains(other.physical),
{
    law_endpoint_is_best(entries, entries.len() as int, sought, seen, i);
}

} // verus!
