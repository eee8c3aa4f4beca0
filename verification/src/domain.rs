//! Plain values of the store: identities, counts, pages and transactions.

use crate::bytes;
use crate::bytes::{less_bytes, same_bytes};
use crate::order::Key;
use vstd::prelude::*;

verus! {

/// A value lies outside its domain.
#[derive(Clone, Copy, Debug, PartialEq, Eq, Structural)]
pub struct ValueError;

/// A 32-byte identity. `KIND` keeps identities of different things apart.
#[derive(Clone, Copy, Debug, PartialEq, Eq, PartialOrd, Ord, Hash)]
pub struct Id<const KIND: u8> {
    pub bytes: [u8; 32],
}

pub const BACKEND: u8 = 0;

pub const BLOB: u8 = 1;

pub const DICTIONARY: u8 = 2;

pub const INDEX: u8 = 3;

pub const MANIFEST: u8 = 4;

pub const PACK: u8 = 5;

pub const FRAME: u8 = 6;

pub const REPRESENTATION: u8 = 7;

pub const ATTACHMENT: u8 = 8;

pub const DATABASE: u8 = 9;

pub const LINEAGE: u8 = 10;

pub const STAGING: u8 = 11;

pub const RETENTION: u8 = 12;

pub const HISTORY: u8 = 13;

pub const VIEW: u8 = 14;

pub const CONTENT: u8 = 15;

pub const CHECKSUM: u8 = 16;

pub const SAMPLE: u8 = 17;

pub type BackendId = Id<BACKEND>;

pub type BlobId = Id<BLOB>;

pub type DictionaryId = Id<DICTIONARY>;

pub type IndexId = Id<INDEX>;

pub type ManifestId = Id<MANIFEST>;

pub type PackId = Id<PACK>;

pub type FrameId = Id<FRAME>;

pub type RepresentationId = Id<REPRESENTATION>;

pub type AttachmentId = Id<ATTACHMENT>;

pub type DatabaseId = Id<DATABASE>;

pub type LineageId = Id<LINEAGE>;

pub type StagingId = Id<STAGING>;

pub type RetentionId = Id<RETENTION>;

pub type HistoryHash = Id<HISTORY>;

pub type ViewHash = Id<VIEW>;

pub type ContentRoot = Id<CONTENT>;

pub type PageChecksum = Id<CHECKSUM>;

pub type SampleId = Id<SAMPLE>;

/// Identities with the same bytes are the same.
pub proof fn lemma_id_extensional<const KIND: u8>(a: Id<KIND>, b: Id<KIND>)
    requires
        a.bytes@ == b.bytes@,
    ensures
        a == b,
{
    assert(a.bytes =~= b.bytes);
}

impl<const KIND: u8> Id<KIND> {
    pub fn from_bytes(bytes: [u8; 32]) -> (id: Self)
        ensures
            id.bytes == bytes,
    {
        Id { bytes }
    }

    pub fn as_bytes(&self) -> (bytes: &[u8; 32])
        ensures
            *bytes == self.bytes,
    {
        &self.bytes
    }

    /// Whether two identities are the same.
    pub fn same(&self, other: &Self) -> (same: bool)
        ensures
            same == (*self == *other),
    {
        let same: bool = same_bytes(self.bytes.as_slice(), other.bytes.as_slice());
        proof {
            if same {
                lemma_id_extensional(*self, *other);
            }
        }
        same
    }

    /// The identity of these bytes.
    pub fn read(bytes: &[u8]) -> (id: Self)
        requires
            bytes@.len() == 32,
        ensures
            id.bytes@ == bytes@,
    {
        Id { bytes: crate::bytes::array32(bytes) }
    }
}

impl<const KIND: u8> View for Id<KIND> {
    type V = Id<KIND>;

    open spec fn view(&self) -> Id<KIND> {
        *self
    }
}

impl<const KIND: u8> Key for Id<KIND> {
    type Model = Id<KIND>;

    open spec fn model(&self) -> Id<KIND> {
        *self
    }

    open spec fn precedes(a: Id<KIND>, b: Id<KIND>) -> bool {
        bytes::bytes_less(a.bytes@, b.bytes@)
    }

    proof fn lemma_irreflexive(a: Id<KIND>) {
        crate::bytes::lemma_bytes_less_irreflexive(a.bytes@);
    }

    proof fn lemma_transitive(a: Id<KIND>, b: Id<KIND>, c: Id<KIND>) {
        crate::bytes::lemma_bytes_less_transitive(a.bytes@, b.bytes@, c.bytes@);
    }

    proof fn lemma_total(a: Id<KIND>, b: Id<KIND>) {
        crate::bytes::lemma_bytes_less_total(a.bytes@, b.bytes@);
        if a.bytes@ == b.bytes@ {
            lemma_id_extensional(a, b);
        }
    }

    fn before(&self, other: &Id<KIND>) -> bool {
        less_bytes(self.bytes.as_slice(), other.bytes.as_slice())
    }

    fn duplicate(&self) -> Id<KIND> {
        *self
    }
}

/// A number of bytes, or a place in a file. `UNIT` keeps what is counted apart.
#[derive(Clone, Copy, Debug, PartialEq, Eq, PartialOrd, Ord, Hash)]
pub struct Count<const UNIT: u8> {
    pub value: u64,
}

pub const STORED: u8 = 0;

pub const DECODED: u8 = 1;

pub const BLOB_LENGTH: u8 = 2;

pub const BLOB_PLACE: u8 = 3;

pub const PACK_PLACE: u8 = 4;

pub const FILE_PLACE: u8 = 5;

pub const CACHED: u8 = 6;

pub type StoredBytes = Count<STORED>;

pub type DecodedBytes = Count<DECODED>;

pub type BlobBytes = Count<BLOB_LENGTH>;

pub type BlobOffset = Count<BLOB_PLACE>;

pub type PackOffset = Count<PACK_PLACE>;

pub type FileOffset = Count<FILE_PLACE>;

pub type CacheBytes = Count<CACHED>;

impl<const UNIT: u8> Count<UNIT> {
    pub fn new(value: u64) -> (count: Self)
        ensures
            count.value == value,
    {
        Count { value }
    }

    pub fn get(self) -> (value: u64)
        ensures
            value == self.value,
    {
        self.value
    }

    /// The count as an index of memory, where it fits.
    pub fn as_usize(self) -> (value: Result<usize, ValueError>)
        ensures
            match value {
                Ok(v) => v == self.value,
                Err(_) => self.value > usize::MAX,
            },
    {
        if self.value <= usize::MAX as u64 {
            Ok(self.value as usize)
        } else {
            Err(ValueError)
        }
    }
}

/// The number of a page; pages count from one.
#[derive(Clone, Copy, Debug, PartialEq, Eq, PartialOrd, Ord, Hash, Structural)]
pub struct PageNumber {
    pub value: u32,
}

impl PageNumber {
    pub open spec fn wf(self) -> bool {
        self.value != 0
    }

    pub fn new(value: u32) -> (page: Result<Self, ValueError>)
        ensures
            match page {
                Ok(p) => value != 0 && p.value == value,
                Err(_) => value == 0,
            },
    {
        if value == 0 {
            Err(ValueError)
        } else {
            Ok(PageNumber { value })
        }
    }

    pub fn get(self) -> (value: u32)
        ensures
            value == self.value,
    {
        self.value
    }
}

impl Key for PageNumber {
    type Model = PageNumber;

    open spec fn model(&self) -> PageNumber {
        *self
    }

    open spec fn precedes(a: PageNumber, b: PageNumber) -> bool {
        a.value < b.value
    }

    proof fn lemma_irreflexive(a: PageNumber) {
    }

    proof fn lemma_transitive(a: PageNumber, b: PageNumber, c: PageNumber) {
    }

    proof fn lemma_total(a: PageNumber, b: PageNumber) {
    }

    fn before(&self, other: &PageNumber) -> bool {
        self.value < other.value
    }

    fn duplicate(&self) -> PageNumber {
        *self
    }
}

/// The number of a transaction; transactions count from one.
#[derive(Clone, Copy, Debug, PartialEq, Eq, PartialOrd, Ord, Hash, Structural)]
pub struct TransactionId {
    pub value: u64,
}

impl TransactionId {
    pub open spec fn wf(self) -> bool {
        self.value != 0
    }

    pub fn new(value: u64) -> (txid: Result<Self, ValueError>)
        ensures
            match txid {
                Ok(t) => value != 0 && t.value == value,
                Err(_) => value == 0,
            },
    {
        if value == 0 {
            Err(ValueError)
        } else {
            Ok(TransactionId { value })
        }
    }

    pub fn get(self) -> (value: u64)
        ensures
            value == self.value,
    {
        self.value
    }

    /// The transaction after this one.
    pub fn next(self) -> (txid: Result<Self, ValueError>)
        ensures
            match txid {
                Ok(t) => t.value == self.value + 1,
                Err(_) => self.value == u64::MAX,
            },
    {
        if self.value == u64::MAX {
            Err(ValueError)
        } else {
            Ok(TransactionId { value: self.value + 1 })
        }
    }
}

/// An unbroken run of transactions, both ends in it.
#[derive(Clone, Copy, Debug, PartialEq, Eq, Structural)]
pub struct TransactionSpan {
    pub begin: TransactionId,
    pub end: TransactionId,
}

impl TransactionSpan {
    pub open spec fn wf(self) -> bool {
        self.begin.wf() && self.end.wf() && self.begin.value <= self.end.value
    }

    pub fn new(begin: TransactionId, end: TransactionId) -> (span: Result<Self, ValueError>)
        ensures
            match span {
                Ok(s) => begin.value <= end.value && s.begin == begin && s.end == end,
                Err(_) => begin.value > end.value,
            },
    {
        if begin.value > end.value {
            Err(ValueError)
        } else {
            Ok(TransactionSpan { begin, end })
        }
    }

    pub fn begin(self) -> (begin: TransactionId)
        ensures
            begin == self.begin,
    {
        self.begin
    }

    pub fn end(self) -> (end: TransactionId)
        ensures
            end == self.end,
    {
        self.end
    }
}

/// The span that a segment stands for, and the tail of it that the segment
/// itself represents.
#[derive(Clone, Copy, Debug, PartialEq, Eq, Structural)]
pub struct SegmentCoverage {
    pub full: TransactionSpan,
    pub represented: TransactionId,
}

impl SegmentCoverage {
    pub open spec fn wf(self) -> bool {
        &&& self.full.wf()
        &&& self.full.begin.value <= self.represented.value <= self.full.end.value
    }

    pub fn new(full: TransactionSpan, represented: TransactionId) -> (coverage: Result<
        Self,
        ValueError,
    >)
        ensures
            match coverage {
                Ok(c) => full.begin.value <= represented.value <= full.end.value && c.full == full
                    && c.represented == represented,
                Err(_) => !(full.begin.value <= represented.value <= full.end.value),
            },
    {
        if represented.value < full.begin.value || represented.value > full.end.value {
            Err(ValueError)
        } else {
            Ok(SegmentCoverage { full, represented })
        }
    }

    pub fn full(self) -> (full: TransactionSpan)
        ensures
            full == self.full,
    {
        self.full
    }

    pub fn represented(self) -> (represented: TransactionSpan)
        ensures
            represented.begin == self.represented,
            represented.end == self.full.end,
    {
        TransactionSpan { begin: self.represented, end: self.full.end }
    }
}

/// The size of a page: a power of two from 512 bytes to 64 KiB.
#[derive(Clone, Copy, Debug, PartialEq, Eq, Structural)]
pub struct PageSize {
    pub value: u32,
}

impl PageSize {
    pub open spec fn valid(value: u32) -> bool {
        value == 512 || value == 1024 || value == 2048 || value == 4096 || value == 8192 || value
            == 16384 || value == 32768 || value == 65536
    }

    pub open spec fn wf(self) -> bool {
        PageSize::valid(self.value)
    }

    pub fn new(value: u32) -> (size: Result<Self, ValueError>)
        ensures
            match size {
                Ok(s) => PageSize::valid(value) && s.value == value,
                Err(_) => !PageSize::valid(value),
            },
    {
        if value == 512 || value == 1024 || value == 2048 || value == 4096 || value == 8192 || value
            == 16384 || value == 32768 || value == 65536 {
            Ok(PageSize { value })
        } else {
            Err(ValueError)
        }
    }

    pub fn get(self) -> (value: u32)
        ensures
            value == self.value,
    {
        self.value
    }
}

/// The size of a database: a whole number of pages.
#[derive(Clone, Copy, Debug, PartialEq, Eq, Structural)]
pub struct LogicalBytes {
    pub bytes: u64,
    pub page_size: PageSize,
}

impl LogicalBytes {
    pub open spec fn valid(bytes: u64, page_size: PageSize) -> bool {
        bytes as int % page_size.value as int == 0 && bytes as int / page_size.value as int
            <= u32::MAX
    }

    pub open spec fn wf(self) -> bool {
        self.page_size.wf() && LogicalBytes::valid(self.bytes, self.page_size)
    }

    /// The number of pages.
    pub open spec fn count(self) -> int {
        self.bytes as int / self.page_size.value as int
    }

    pub fn new(bytes: u64, page_size: PageSize) -> (size: Result<Self, ValueError>)
        requires
            page_size.wf(),
        ensures
            match size {
                Ok(s) => LogicalBytes::valid(bytes, page_size) && s.bytes == bytes && s.page_size
                    == page_size,
                Err(_) => !LogicalBytes::valid(bytes, page_size),
            },
    {
        let unit: u64 = page_size.value as u64;
        if bytes % unit == 0 && bytes / unit <= u32::MAX as u64 {
            Ok(LogicalBytes { bytes, page_size })
        } else {
            Err(ValueError)
        }
    }

    pub fn get(self) -> (bytes: u64)
        ensures
            bytes == self.bytes,
    {
        self.bytes
    }

    pub fn page_size(self) -> (size: PageSize)
        ensures
            size == self.page_size,
    {
        self.page_size
    }

    pub fn pages(self) -> (pages: u32)
        requires
            self.wf(),
        ensures
            pages == self.count(),
    {
        (self.bytes / self.page_size.value as u64) as u32
    }
}

/// The largest frame, decoded.
pub const MAX_FRAME_BYTES: u64 = 8388608;

/// The pages of a frame: at least one, and no more than the largest frame holds.
#[derive(Clone, Copy, Debug, PartialEq, Eq, Structural)]
pub struct FrameShape {
    pub page_size: PageSize,
    pub pages: u32,
}

impl FrameShape {
    pub open spec fn valid(page_size: PageSize, pages: u32) -> bool {
        pages != 0 && page_size.value * pages <= MAX_FRAME_BYTES
    }

    pub open spec fn wf(self) -> bool {
        self.page_size.wf() && FrameShape::valid(self.page_size, self.pages)
    }

    /// The bytes of the frame, decoded.
    pub open spec fn size(self) -> int {
        self.page_size.value * self.pages
    }

    pub fn new(page_size: PageSize, pages: u32) -> (shape: Result<Self, ValueError>)
        ensures
            match shape {
                Ok(s) => FrameShape::valid(page_size, pages) && s.page_size == page_size && s.pages
                    == pages,
                Err(_) => !FrameShape::valid(page_size, pages),
            },
    {
        proof {
            assert(page_size.value * pages <= 0xffff_ffff * 0xffff_ffff) by (nonlinear_arith)
                requires
                    page_size.value <= 0xffff_ffffu32,
                    pages <= 0xffff_ffffu32,
            ;
        }
        if pages == 0 || page_size.value as u64 * pages as u64 > MAX_FRAME_BYTES {
            Err(ValueError)
        } else {
            Ok(FrameShape { page_size, pages })
        }
    }

    pub fn page_size(self) -> (size: PageSize)
        ensures
            size == self.page_size,
    {
        self.page_size
    }

    pub fn pages(self) -> (pages: u32)
        ensures
            pages == self.pages,
    {
        self.pages
    }

    pub fn decoded(self) -> (bytes: DecodedBytes)
        requires
            FrameShape::valid(self.page_size, self.pages),
        ensures
            bytes.value == self.size(),
    {
        Count { value: self.page_size.value as u64 * self.pages as u64 }
    }

    /// A place in the frame.
    pub fn slot(self, index: u32) -> (slot: Result<FrameSlot, ValueError>)
        ensures
            match slot {
                Ok(s) => index < self.pages && s.index == index,
                Err(_) => index >= self.pages,
            },
    {
        if index < self.pages {
            Ok(FrameSlot { index })
        } else {
            Err(ValueError)
        }
    }
}

/// A place in a frame.
#[derive(Clone, Copy, Debug, PartialEq, Eq, Structural)]
pub struct FrameSlot {
    pub index: u32,
}

/// Bytes of a stored object.
#[derive(Clone, Copy, Debug, PartialEq, Eq)]
pub struct StoredRange {
    pub offset: FileOffset,
    pub length: StoredBytes,
}

impl StoredRange {
    pub open spec fn wf(self) -> bool {
        self.offset.value + self.length.value <= u64::MAX
    }

    pub fn new(offset: FileOffset, length: StoredBytes) -> (range: Result<Self, ValueError>)
        ensures
            match range {
                Ok(r) => r.offset == offset && r.length == length && r.wf(),
                Err(_) => offset.value + length.value > u64::MAX,
            },
    {
        match offset.value.checked_add(length.value) {
            Some(_) => Ok(StoredRange { offset, length }),
            None => Err(ValueError),
        }
    }

    pub fn offset(self) -> (offset: FileOffset)
        ensures
            offset == self.offset,
    {
        self.offset
    }

    pub fn length(self) -> (length: StoredBytes)
        ensures
            length == self.length,
    {
        self.length
    }
}

/// Which dictionary a compressed payload needs.
#[derive(Clone, Copy, Debug, PartialEq, Eq)]
pub enum CompressionDictionary {
    Plain,
    Shared(DictionaryId),
}

/// How a payload is stored.
#[derive(Clone, Copy, Debug, PartialEq, Eq)]
pub enum PayloadEncoding {
    Raw,
    Zstandard(CompressionDictionary),
}

impl PayloadEncoding {
    /// The shared dictionary that the payload needs.
    pub open spec fn dictionary(self) -> Option<DictionaryId> {
        match self {
            PayloadEncoding::Zstandard(CompressionDictionary::Shared(id)) => Some(id),
            _ => None,
        }
    }

    pub fn shared(&self) -> (id: Option<DictionaryId>)
        ensures
            id == self.dictionary(),
    {
        match self {
            PayloadEncoding::Zstandard(CompressionDictionary::Shared(id)) => Some(*id),
            _ => None,
        }
    }

    /// Whether two encodings are the same.
    pub fn same(&self, other: &PayloadEncoding) -> (same: bool)
        ensures
            same == (*self == *other),
    {
        match (self, other) {
            (PayloadEncoding::Raw, PayloadEncoding::Raw) => true,
            (
                PayloadEncoding::Zstandard(CompressionDictionary::Plain),
                PayloadEncoding::Zstandard(CompressionDictionary::Plain),
            ) => true,
            (
                PayloadEncoding::Zstandard(CompressionDictionary::Shared(a)),
                PayloadEncoding::Zstandard(CompressionDictionary::Shared(b)),
            ) => a.same(b),
            _ => false,
        }
    }
}

/// The page sizes are the powers of two from the ninth to the sixteenth.
pub proof fn law_page_sizes(value: u32)
    ensures
        PageSize::valid(value) <==> exists|k: nat|
            9 <= k <= 16 && value == #[trigger] vstd::arithmetic::power2::pow2(k),
{
    vstd::arithmetic::power2::lemma2_to64();
    if PageSize::valid(value) {
        let k: nat = if value == 512 {
            9
        } else if value == 1024 {
            10
        } else if value == 2048 {
            11
        } else if value == 4096 {
            12
        } else if value == 8192 {
            13
        } else if value == 16384 {
            14
        } else if value == 32768 {
            15
        } else {
            16
        };
        assert(value == vstd::arithmetic::power2::pow2(k));
    }
}

/// A database is as many bytes as its pages are together, however many pages a page number
/// can tell apart; and bytes that make up no such number of pages are no database.
pub proof fn law_database_sizes(bytes: u64, page_size: PageSize, pages: u32)
    requires
        page_size.wf(),
    ensures
        bytes == pages * page_size.value ==> LogicalBytes::valid(bytes, page_size) && (LogicalBytes {
            bytes,
            page_size,
        }).count() == pages,
        LogicalBytes::valid(bytes, page_size) ==> bytes == (LogicalBytes { bytes, page_size }).count()
            * page_size.value && 0 <= (LogicalBytes { bytes, page_size }).count() <= 4294967295,
{
    if bytes == pages * page_size.value {
        vstd::arithmetic::div_mod::lemma_div_multiples_vanish(pages as int, page_size.value as int);
        vstd::arithmetic::div_mod::lemma_mod_multiples_basic(pages as int, page_size.value as int);
        assert(pages * page_size.value == page_size.value * pages) by (nonlinear_arith);
    }
    vstd::arithmetic::div_mod::lemma_fundamental_div_mod(bytes as int, page_size.value as int);
    assert((bytes as int / page_size.value as int) * page_size.value == page_size.value * (bytes as int
        / page_size.value as int)) by (nonlinear_arith);
}

/// A frame holds at least one page, and its pages take no more than eight mebibytes.
pub proof fn law_frame_shapes(page_size: PageSize, pages: u32)
    ensures
        FrameShape::valid(page_size, pages) <==> 1 <= pages && page_size.value * pages <= 8 * 1024
            * 1024,
{
}

} // verus!
