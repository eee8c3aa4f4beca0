//! Independently authenticated frame metadata and payloads.

use crate::bytes;
use crate::bytes::{append, same_bytes};
use crate::codec;
use crate::codec::{compress, compress_with, decompress, decompress_with, load_dictionary};
use crate::digest;
use crate::digest::{hash, identify};
use crate::domain;
use crate::domain::{
    CHECKSUM, CompressionDictionary, Count, DICTIONARY, DictionaryId, FrameId, FrameShape, Id,
    PageChecksum, PageNumber, PageSize, PayloadEncoding, StoredBytes, TransactionId, ValueError,
};
use crate::error::{StoreError, valued};
use crate::format::{Codec, FrameHeader};
use crate::order;
use crate::order::{OrderedMap, OrderedSet};
use crate::wire;
use crate::wire::{Decoder, u32_bytes, u64_bytes};
use vstd::prelude::*;
use vstd::slice::slice_subrange;

verus! {

/// `zsqlite/page/v1`.
pub const PAGE_DOMAIN: [u8; 15] = [122, 115, 113, 108, 105, 116, 101, 47, 112, 97, 103, 101, 47, 118, 49];

/// `ZFRAME01`.
pub const FRAME_MAGIC: [u8; 8] = [90, 70, 82, 65, 77, 69, 48, 49];

/// The identity with these bytes.
pub open spec fn id_of<const KIND: u8>(bytes: Seq<u8>) -> Id<KIND> {
    choose|id: Id<KIND>| id.bytes@ == bytes
}

pub proof fn lemma_id_of<const KIND: u8>(id: Id<KIND>)
    ensures
        id_of::<KIND>(id.bytes@) == id,
{
    let chosen = id_of::<KIND>(id.bytes@);
    assert(chosen.bytes@ == id.bytes@);
    domain::lemma_id_extensional(chosen, id);
}

/// The bytes of a dictionary that payloads can be decoded with.
#[derive(Debug, PartialEq, Eq)]
pub struct DecodingDictionary {
    bytes: Vec<u8>,
}

impl View for DecodingDictionary {
    type V = Seq<u8>;

    closed spec fn view(&self) -> Seq<u8> {
        self.bytes@
    }
}

impl DecodingDictionary {
    /// Takes a dictionary that the decompressor can load. Nothing is said of when
    /// it cannot.
    pub fn new(bytes: Vec<u8>) -> (dictionary: Result<Self, StoreError>)
        ensures
            match dictionary {
                Ok(d) => d@ == bytes@ && codec::zstd_loads(bytes@),
                Err(e) => e is Zstd,
            },
    {
        match load_dictionary(bytes.as_slice()) {
            Ok(_) => Ok(DecodingDictionary { bytes }),
            Err(message) => Err(StoreError::Zstd(message)),
        }
    }

    pub fn bytes(&self) -> (bytes: &[u8])
        ensures
            bytes@ == self@,
    {
        self.bytes.as_slice()
    }
}

/// One version of one page: the transaction that wrote it and the checksum of
/// its bytes.
#[derive(Clone, Copy, Debug, PartialEq, Eq)]
pub struct PageVersion {
    pub page: PageNumber,
    pub txid: TransactionId,
    pub checksum: PageChecksum,
}

/// What the checksum of a page version covers.
pub open spec fn checksum_input(page: PageNumber, txid: TransactionId, bytes: Seq<u8>) -> Seq<u8> {
    PAGE_DOMAIN@ + bytes::le(page.value as nat, 4) + bytes::le(txid.value as nat, 8) + bytes
}

/// The checksum of a page version.
pub fn checksum(page: PageNumber, txid: TransactionId, bytes: &[u8]) -> (sum: PageChecksum)
    ensures
        digest::names(sum, checksum_input(page, txid, bytes@)),
{
    let mut input: Vec<u8> = Vec::new();
    append(&mut input, PAGE_DOMAIN.as_slice());
    u32_bytes(&mut input, page.value);
    u64_bytes(&mut input, txid.value);
    append(&mut input, bytes);
    assert(input@ =~= checksum_input(page, txid, bytes@));
    identify(input.as_slice())
}

/// The checksum of `version` is that of `bytes`.
pub open spec fn sound_page(version: PageVersion, bytes: Seq<u8>) -> bool {
    digest::names(version.checksum, checksum_input(version.page, version.txid, bytes))
}

/// Whether the bytes of a page match its version.
pub fn matches_version(version: &PageVersion, bytes: &[u8]) -> (sound: bool)
    ensures
        sound == sound_page(*version, bytes@),
{
    let sum: PageChecksum = checksum(version.page, version.txid, bytes);
    same_bytes(sum.bytes.as_slice(), version.checksum.bytes.as_slice())
}

impl PageVersion {
    pub open spec fn wf(self) -> bool {
        self.page.wf() && self.txid.wf()
    }

    /// The 44 bytes of a version.
    pub open spec fn record(self) -> Seq<u8> {
        bytes::le(self.page.value as nat, 4) + bytes::le(self.txid.value as nat, 8) + self.checksum.bytes@
    }

    /// The version of a page with these bytes.
    pub fn verified(page: PageNumber, txid: TransactionId, bytes: &[u8]) -> (version: Self)
        ensures
            version.page == page,
            version.txid == txid,
            sound_page(version, bytes@),
    {
        PageVersion { page, txid, checksum: checksum(page, txid, bytes) }
    }

    pub fn encode(&self, output: &mut Vec<u8>)
        ensures
            final(output)@ == old(output)@ + self.record(),
    {
        u32_bytes(output, self.page.value);
        u64_bytes(output, self.txid.value);
        append(output, self.checksum.bytes.as_slice());
        assert(output@ =~= old(output)@ + self.record());
    }

    pub fn decode(wire: &mut Decoder) -> (version: Result<Self, StoreError>)
        requires
            old(wire).wf(),
        ensures
            final(wire).wf(),
            final(wire).bytes@ == old(wire).bytes@,
            match version {
                Ok(v) => version_at(old(wire).bytes@, old(wire).position as int) == Ok::<
                    (PageVersion, int),
                    StoreError,
                >((v, final(wire).position as int)) && v.wf(),
                Err(e) => version_at(old(wire).bytes@, old(wire).position as int) == Err::<
                    (PageVersion, int),
                    StoreError,
                >(e),
            },
    {
        let page: PageNumber = valued(PageNumber::new(wire.u32()?))?;
        let txid: TransactionId = valued(TransactionId::new(wire.u64()?))?;
        let checksum: PageChecksum = Id { bytes: wire.array()? };
        proof {
            lemma_id_of(checksum);
        }
        Ok(PageVersion { page, txid, checksum })
    }
}

/// Reading a page version.
pub open spec fn version_at(bytes: Seq<u8>, position: int) -> Result<
    (PageVersion, int),
    StoreError,
> {
    match wire::number_at(bytes, position, 4) {
        Err(error) => Err(error),
        Ok((page, p)) => if page == 0 {
            Err(StoreError::Value(ValueError))
        } else {
            match wire::number_at(bytes, p, 8) {
                Err(error) => Err(error),
                Ok((txid, p)) => if txid == 0 {
                    Err(StoreError::Value(ValueError))
                } else {
                    match wire::take_at(bytes, p, 32) {
                        Err(error) => Err(error),
                        Ok((sum, p)) => Ok(
                            (
                                PageVersion {
                                    page: PageNumber { value: page as u32 },
                                    txid: TransactionId { value: txid as u64 },
                                    checksum: id_of(sum),
                                },
                                p,
                            ),
                        ),
                    }
                },
            }
        },
    }
}

/// Some version in the list is of this page.
pub open spec fn versions_page(versions: Seq<PageVersion>, page: PageNumber) -> bool {
    exists|i: int| 0 <= i < versions.len() && (#[trigger] versions[i]).page == page
}

/// Reading `count` versions of different pages after those in `seen`.
pub open spec fn versions_from(
    bytes: Seq<u8>,
    position: int,
    count: nat,
    seen: Seq<PageVersion>,
) -> Result<(Seq<PageVersion>, int), StoreError>
    decreases count,
{
    if count == 0 {
        Ok((seen, position))
    } else {
        match version_at(bytes, position) {
            Err(error) => Err(error),
            Ok((version, p)) => if versions_page(seen, version.page) {
                Err(StoreError::Corrupt(0))
            } else {
                versions_from(bytes, p, (count - 1) as nat, seen.push(version))
            },
        }
    }
}

/// What a frame's metadata says.
#[verifier::ext_equal]
pub struct FrameModel {
    pub id: FrameId,
    pub shape: FrameShape,
    pub encoding: PayloadEncoding,
    pub payload_bytes: u64,
    pub payload_hash: Seq<u8>,
    pub pages: Seq<PageVersion>,
}

/// The bytes of an encoding: a tag, and the dictionary where it is shared.
pub open spec fn encoding_bytes(encoding: PayloadEncoding) -> Seq<u8> {
    match encoding {
        PayloadEncoding::Raw => seq![0u8],
        PayloadEncoding::Zstandard(CompressionDictionary::Plain) => seq![1u8],
        PayloadEncoding::Zstandard(CompressionDictionary::Shared(id)) => seq![2u8] + id.bytes@,
    }
}

/// The records of the versions from place `i` on.
pub open spec fn versions_bytes(versions: Seq<PageVersion>, i: int) -> Seq<u8>
    decreases versions.len() - i,
{
    if i >= versions.len() {
        Seq::empty()
    } else {
        versions[i].record() + versions_bytes(versions, i + 1)
    }
}

impl FrameModel {
    /// The encoding of the metadata.
    pub open spec fn record(self) -> Seq<u8> {
        FRAME_MAGIC@ + bytes::le(self.shape.page_size.value as nat, 4) + bytes::le(self.shape.pages as nat, 4)
            + encoding_bytes(self.encoding) + bytes::le(self.payload_bytes as nat, 8) + self.payload_hash
            + versions_bytes(self.pages, 0)
    }

    /// The payload is not empty, never longer than the frame, and as long as the
    /// frame where it is raw.
    pub open spec fn payload_fits(self) -> bool {
        payload_fits(self.shape, self.encoding, self.payload_bytes as int)
    }

    /// The shape is that of a frame, and the payload and the pages fit it.
    pub open spec fn sound(self) -> bool {
        &&& self.shape.wf()
        &&& self.payload_fits()
        &&& self.payload_hash.len() == 32
        &&& self.pages.len() == self.shape.pages
    }

    /// The metadata is structurally valid: a sound frame of different pages.
    pub open spec fn wf(self) -> bool {
        &&& self.sound()
        &&& forall|i: int| 0 <= i < self.pages.len() ==> (#[trigger] self.pages[i]).wf()
        &&& forall|i: int, j: int|
            0 <= i < j < self.pages.len() ==> (#[trigger] self.pages[i]).page
                != (#[trigger] self.pages[j]).page
    }

    /// The identity is the digest of the encoding.
    pub open spec fn authentic(self) -> bool {
        digest::names(self.id, self.record())
    }

    /// The length of the encoding.
    pub open spec fn size(self) -> int {
        57 + 44 * self.pages.len() + if self.encoding.dictionary() is Some {
            32int
        } else {
            0int
        }
    }

    /// The header of the frame's record in a pack, for valid metadata.
    pub open spec fn header(self) -> FrameHeader {
        FrameHeader {
            page_no: self.pages[0].page.value,
            codec: if self.encoding is Raw {
                Codec::Raw
            } else {
                Codec::Zstd
            },
            dictionary_index: if self.encoding.dictionary() is Some {
                0
            } else {
                0xffff
            },
            stored_len: self.payload_bytes as u32,
            raw_len: self.shape.size() as u32,
        }
    }

    /// The bytes are the payload that the metadata describes.
    pub open spec fn describes(self, payload: Seq<u8>) -> bool {
        payload.len() == self.payload_bytes && digest::content_hash(payload) == self.payload_hash
    }

    /// The bytes of the page in slot `i` of the decoded frame.
    pub open spec fn slot(self, raw: Seq<u8>, i: int) -> Seq<u8> {
        raw.subrange(
            i * self.shape.page_size.value as int,
            (i + 1) * self.shape.page_size.value as int,
        )
    }

    /// The decoded frame has its size, and every page matches its version.
    pub open spec fn verifies(self, raw: Seq<u8>) -> bool {
        raw.len() == self.shape.size() && forall|i: int|
            0 <= i < self.pages.len() ==> sound_page(#[trigger] self.pages[i], self.slot(raw, i))
    }
}

pub open spec fn payload_fits(shape: FrameShape, encoding: PayloadEncoding, length: int) -> bool {
    &&& 0 < length <= shape.size()
    &&& encoding is Raw ==> length == shape.size()
}

/// Reading the encoding of a payload.
pub open spec fn encoding_at(bytes: Seq<u8>, position: int) -> Result<
    (PayloadEncoding, int),
    StoreError,
> {
    match wire::number_at(bytes, position, 1) {
        Err(error) => Err(error),
        Ok((tag, p)) => if tag == 0 {
            Ok((PayloadEncoding::Raw, p))
        } else if tag == 1 {
            Ok((PayloadEncoding::Zstandard(CompressionDictionary::Plain), p))
        } else if tag == 2 {
            match wire::take_at(bytes, p, 32) {
                Err(error) => Err(error),
                Ok((id, p)) => Ok(
                    (PayloadEncoding::Zstandard(CompressionDictionary::Shared(id_of(id))), p),
                ),
            }
        } else {
            Err(StoreError::Corrupt(0))
        },
    }
}

/// Reading a frame's shape.
pub open spec fn shape_at(bytes: Seq<u8>, position: int) -> Result<(FrameShape, int), StoreError> {
    match wire::number_at(bytes, position, 4) {
        Err(error) => Err(error),
        Ok((size, p)) => if !PageSize::valid(size as u32) {
            Err(StoreError::Value(ValueError))
        } else {
            match wire::number_at(bytes, p, 4) {
                Err(error) => Err(error),
                Ok((pages, p)) => {
                    let shape = FrameShape {
                        page_size: PageSize { value: size as u32 },
                        pages: pages as u32,
                    };
                    if !shape.wf() {
                        Err(StoreError::Value(ValueError))
                    } else {
                        Ok((shape, p))
                    }
                },
            }
        },
    }
}

/// The metadata that an encoding holds under its expected identity, or why it
/// holds none.
#[verifier::opaque]
pub open spec fn frame_parse(bytes: Seq<u8>, expected: FrameId) -> Result<FrameModel, StoreError> {
    if !digest::names(expected, bytes) {
        Err(StoreError::Corrupt(0))
    } else {
        match wire::take_at(bytes, 0, 8) {
            Err(error) => Err(error),
            Ok((magic, p)) => if magic != FRAME_MAGIC@ {
                Err(StoreError::Corrupt(0))
            } else {
                match shape_at(bytes, p) {
                    Err(error) => Err(error),
                    Ok((shape, p)) => match encoding_at(bytes, p) {
                        Err(error) => Err(error),
                        Ok((encoding, p)) => frame_parse_payload(
                            bytes,
                            expected,
                            shape,
                            encoding,
                            p,
                        ),
                    },
                }
            },
        }
    }
}

pub open spec fn frame_parse_payload(
    bytes: Seq<u8>,
    expected: FrameId,
    shape: FrameShape,
    encoding: PayloadEncoding,
    position: int,
) -> Result<FrameModel, StoreError> {
    match wire::number_at(bytes, position, 8) {
        Err(error) => Err(error),
        Ok((length, p)) => if !payload_fits(shape, encoding, length as int) {
            Err(StoreError::Corrupt(0))
        } else {
            match wire::take_at(bytes, p, 32) {
                Err(error) => Err(error),
                Ok((sum, p)) => match versions_from(bytes, p, shape.pages as nat, Seq::empty()) {
                    Err(error) => Err(error),
                    Ok((pages, p)) => match wire::finish_at(bytes, p) {
                        Err(error) => Err(error),
                        Ok(_) => Ok(
                            FrameModel {
                                id: expected,
                                shape,
                                encoding,
                                payload_bytes: length as u64,
                                payload_hash: sum,
                                pages,
                            },
                        ),
                    },
                },
            }
        },
    }
}

/// Metadata authenticated by its identity. Nothing is said of the payload.
#[derive(Debug, PartialEq, Eq)]
pub struct FrameMetadata {
    id: FrameId,
    shape: FrameShape,
    encoding: PayloadEncoding,
    payload_bytes: StoredBytes,
    payload_hash: [u8; 32],
    pages: Vec<PageVersion>,
}

impl View for FrameMetadata {
    type V = FrameModel;

    closed spec fn view(&self) -> FrameModel {
        FrameModel {
            id: self.id,
            shape: self.shape,
            encoding: self.encoding,
            payload_bytes: self.payload_bytes.value,
            payload_hash: self.payload_hash@,
            pages: self.pages@,
        }
    }
}

impl FrameMetadata {
    #[verifier::type_invariant]
    spec fn valid(&self) -> bool {
        self@.sound()
    }

    pub fn id(&self) -> (id: FrameId)
        ensures
            id == self@.id,
    {
        self.id
    }

    pub fn shape(&self) -> (shape: FrameShape)
        ensures
            shape == self@.shape,
            self@.sound(),
    {
        proof {
            use_type_invariant(self);
        }
        self.shape
    }

    pub fn pages(&self) -> (pages: &[PageVersion])
        ensures
            pages@ == self@.pages,
            self@.sound(),
    {
        proof {
            use_type_invariant(self);
        }
        self.pages.as_slice()
    }

    pub fn encoding(&self) -> (encoding: PayloadEncoding)
        ensures
            encoding == self@.encoding,
    {
        self.encoding
    }

    pub fn payload_hash(&self) -> (sum: &[u8; 32])
        ensures
            sum@ == self@.payload_hash,
    {
        &self.payload_hash
    }

    pub fn payload_bytes(&self) -> (length: StoredBytes)
        ensures
            length.value == self@.payload_bytes,
            self@.sound(),
    {
        proof {
            use_type_invariant(self);
        }
        self.payload_bytes
    }

    /// The header of the frame's record in a pack.
    pub fn record_header(&self) -> (header: FrameHeader)
        ensures
            header == self@.header(),
            self@.sound(),
    {
        proof {
            use_type_invariant(self);
        }
        let codec: Codec = match self.encoding {
            PayloadEncoding::Raw => Codec::Raw,
            PayloadEncoding::Zstandard(_) => Codec::Zstd,
        };
        let dictionary_index: u16 = match self.encoding.shared() {
            Some(_) => 0,
            None => 0xffff,
        };
        FrameHeader {
            page_no: self.pages[0].page.value,
            codec,
            dictionary_index,
            stored_len: self.payload_bytes.value as u32,
            raw_len: self.shape.decoded().value as u32,
        }
    }

    /// The length of the encoding.
    pub fn encoded_len(&self) -> (length: usize)
        ensures
            length == self@.size(),
            length == self@.record().len(),
            self@.sound(),
    {
        proof {
            use_type_invariant(self);
            lemma_frame_size(self@);
            lemma_frame_small(self@);
        }
        let dictionary: usize = match self.encoding.shared() {
            Some(_) => 32,
            None => 0,
        };
        57 + self.pages.len() * 44 + dictionary
    }

    /// Encodes the metadata.
    pub fn encode(&self) -> (bytes: Vec<u8>)
        ensures
            bytes@ == self@.record(),
            bytes@.len() == self@.size(),
            self@.sound(),
    {
        proof {
            use_type_invariant(self);
            lemma_frame_size(self@);
        }
        let bytes: Vec<u8> = encode_parts(
            self.shape,
            &self.encoding,
            self.payload_bytes.value,
            &self.payload_hash,
            self.pages.as_slice(),
        );
        assert(bytes@ =~= self@.record());
        bytes
    }

    /// The metadata that these bytes hold under the expected identity.
    pub fn decode(bytes: &[u8], expected: FrameId) -> (metadata: Result<Self, StoreError>)
        ensures
            match metadata {
                Ok(m) => frame_parse(bytes@, expected) == Ok::<FrameModel, StoreError>(m@) && m@.wf(),
                Err(e) => frame_parse(bytes@, expected) == Err::<FrameModel, StoreError>(e),
            },
    {
        proof {
            reveal(frame_parse);
        }
        if !same_bytes(hash(bytes).as_slice(), expected.bytes.as_slice()) {
            return Err(StoreError::Corrupt(0));
        }
        let mut wire: Decoder = Decoder::new(bytes);
        if !same_bytes(wire.take(8)?, FRAME_MAGIC.as_slice()) {
            return Err(StoreError::Corrupt(0));
        }
        let shape: FrameShape = decode_shape(&mut wire)?;
        let encoding: PayloadEncoding = decode_encoding(&mut wire)?;
        let length: u64 = wire.u64()?;
        let raw: bool = match encoding {
            PayloadEncoding::Raw => true,
            PayloadEncoding::Zstandard(_) => false,
        };
        let decoded: u64 = shape.decoded().value;
        if length == 0 || length > decoded || (raw && length != decoded) {
            return Err(StoreError::Corrupt(0));
        }
        let payload_hash: [u8; 32] = wire.array()?;
        let pages: Vec<PageVersion> = decode_versions(&mut wire, shape.pages)?;
        wire.finish()?;
        let metadata = FrameMetadata {
            id: expected,
            shape,
            encoding,
            payload_bytes: Count { value: length },
            payload_hash,
            pages,
        };
        Ok(metadata)
    }

    /// Whether the bytes are the payload.
    pub fn authenticate_payload(&self, payload: &[u8]) -> (done: Result<(), StoreError>)
        ensures
            done == if self@.describes(payload@) {
                Ok::<(), StoreError>(())
            } else {
                Err::<(), StoreError>(StoreError::Corrupt(0))
            },
    {
        if payload.len() as u64 != self.payload_bytes.value || !same_bytes(
            hash(payload).as_slice(),
            self.payload_hash.as_slice(),
        ) {
            return Err(StoreError::Corrupt(0));
        }
        Ok(())
    }

    /// Admits decoded bytes only if they have the frame's size and every page
    /// matches its version. The error names the first page that does not.
    pub fn verify_pages(&self, raw: Vec<u8>) -> (frame: Result<VerifiedFrame, StoreError>)
        ensures
            match frame {
                Ok(f) => f@ == raw@ && f.of() == self@.id && self@.verifies(raw@),
                Err(e) => !self@.verifies(raw@) && pages_refused(self@, raw@, e),
            },
    {
        proof {
            use_type_invariant(self);
        }
        let decoded: u64 = self.shape.decoded().value;
        if raw.len() as u64 != decoded {
            return Err(StoreError::Corrupt(0));
        }
        let unit: usize = self.shape.page_size.value as usize;
        let mut i: usize = 0;
        let mut start: usize = 0;
        while i < self.pages.len()
            invariant
                i <= self.pages@.len(),
                self@.sound(),
                unit == self@.shape.page_size.value,
                start == i * unit,
                raw@.len() == self@.shape.size(),
                forall|j: int|
                    0 <= j < i ==> sound_page(#[trigger] self@.pages[j], self@.slot(raw@, j)),
            decreases self.pages.len() - i,
        {
            proof {
                assert((i + 1) * unit <= self@.shape.pages * unit) by (nonlinear_arith)
                    requires
                        i + 1 <= self@.shape.pages,
                        unit >= 0,
                ;
                assert((i + 1) * unit == i * unit + unit) by (nonlinear_arith);
                assert(self@.shape.size() == self@.shape.pages * unit) by (nonlinear_arith)
                    requires
                        self@.shape.size() == self@.shape.page_size.value * self@.shape.pages,
                        unit == self@.shape.page_size.value,
                ;
            }
            let page: &[u8] = slice_subrange(raw.as_slice(), start, start + unit);
            assert(page@ == self@.slot(raw@, i as int));
            if !matches_version(&self.pages[i], page) {
                assert(!sound_page(self@.pages[i as int], self@.slot(raw@, i as int)));
                assert(first_unsound(self@, raw@, i as int));
                return Err(StoreError::PageChecksum(self.pages[i].page.value));
            }
            start = start + unit;
            i += 1;
        }
        Ok(VerifiedFrame { id: self.id, bytes: raw })
    }

    /// Decodes a payload and verifies every page. The decompressor may fail on
    /// any compressed payload.
    pub fn verify_payload(
        &self,
        payload: &[u8],
        dictionaries: &OrderedMap<DictionaryId, DecodingDictionary>,
    ) -> (frame: Result<VerifiedFrame, StoreError>)
        ensures
            match frame {
                Ok(f) => self@.describes(payload@) && f.of() == self@.id && self@.verifies(f@)
                    && decoded_payload(self@.encoding, payload@, dictionaries@) == Some(f@),
                Err(e) => payload_refused(self@, payload@, dictionaries@, e),
            },
    {
        proof {
            use_type_invariant(self);
        }
        self.authenticate_payload(payload)?;
        let raw: Vec<u8> = match self.encoding {
            PayloadEncoding::Raw => crate::bytes::copied(payload),
            PayloadEncoding::Zstandard(dictionary) => {
                let capacity: usize = self.shape.decoded().value as usize;
                let decoded: Result<Vec<u8>, String> = match dictionary {
                    CompressionDictionary::Plain => decompress(payload, capacity),
                    CompressionDictionary::Shared(id) => match dictionaries.get(&id) {
                        Some(bytes) => decompress_with(bytes.bytes(), payload, capacity),
                        None => {
                            return Err(StoreError::Corrupt(0));
                        },
                    },
                };
                match decoded {
                    Ok(raw) => raw,
                    Err(message) => {
                        return Err(StoreError::Zstd(message));
                    },
                }
            },
        };
        self.verify_pages(raw)
    }

    /// Another copy of the metadata.
    pub fn duplicate(&self) -> (copy: FrameMetadata)
        ensures
            copy@ == self@,
    {
        proof {
            use_type_invariant(self);
        }
        let mut pages: Vec<PageVersion> = Vec::new();
        let mut i: usize = 0;
        while i < self.pages.len()
            invariant
                i <= self.pages@.len(),
                pages@ == self.pages@.take(i as int),
            decreases self.pages.len() - i,
        {
            pages.push(self.pages[i]);
            i += 1;
            assert(pages@ =~= self.pages@.take(i as int));
        }
        assert(pages@ =~= self.pages@);
        FrameMetadata {
            id: self.id,
            shape: self.shape,
            encoding: self.encoding,
            payload_bytes: self.payload_bytes,
            payload_hash: self.payload_hash,
            pages,
        }
    }

    /// Whether two metadata say the same.
    pub fn same(&self, other: &FrameMetadata) -> (same: bool)
        ensures
            same == (self@ == other@),
    {
        if self.pages.len() != other.pages.len() {
            return false;
        }
        let mut i: usize = 0;
        while i < self.pages.len()
            invariant
                i <= self.pages@.len(),
                self.pages@.len() == other.pages@.len(),
                forall|j: int| 0 <= j < i ==> self.pages@[j] == other.pages@[j],
            decreases self.pages.len() - i,
        {
            let a: PageVersion = self.pages[i];
            let b: PageVersion = other.pages[i];
            if a.page.value != b.page.value || a.txid.value != b.txid.value || !a.checksum.same(
                &b.checksum,
            ) {
                assert(self@.pages[i as int] != other@.pages[i as int]);
                return false;
            }
            i += 1;
        }
        assert(self.pages@ =~= other.pages@);
        self.id.same(&other.id) && self.shape.page_size.value == other.shape.page_size.value
            && self.shape.pages == other.shape.pages && self.encoding.same(&other.encoding)
            && self.payload_bytes.value == other.payload_bytes.value && same_bytes(
            self.payload_hash.as_slice(),
            other.payload_hash.as_slice(),
        )
    }
}

/// The page in a slot is the first of a frame that does not match its version.
pub open spec fn first_unsound(frame: FrameModel, raw: Seq<u8>, i: int) -> bool {
    &&& 0 <= i < frame.pages.len()
    &&& !sound_page(frame.pages[i], frame.slot(raw, i))
    &&& forall|j: int| 0 <= j < i ==> sound_page(#[trigger] frame.pages[j], frame.slot(raw, j))
}

/// Why decoded bytes are refused: they have another size than the frame, or the
/// error names the first page that does not match its version.
pub open spec fn pages_refused(frame: FrameModel, raw: Seq<u8>, error: StoreError) -> bool {
    if raw.len() != frame.shape.size() {
        error == StoreError::Corrupt(0)
    } else {
        exists|i: int| #[trigger]
            first_unsound(frame, raw, i) && error == StoreError::PageChecksum(
                frame.pages[i].page.value,
            )
    }
}

/// Why a payload is refused: it is not the one that the metadata describes, or
/// its dictionary is missing, or it does not decode to the pages of the frame.
/// The decompressor may fail on any compressed payload.
pub open spec fn payload_refused(
    frame: FrameModel,
    payload: Seq<u8>,
    dictionaries: Map<DictionaryId, Seq<u8>>,
    error: StoreError,
) -> bool {
    if !frame.describes(payload) {
        error == StoreError::Corrupt(0)
    } else {
        match decoded_payload(frame.encoding, payload, dictionaries) {
            None => error == StoreError::Corrupt(0),
            Some(raw) => (error is Zstd && !(frame.encoding is Raw)) || pages_refused(
                frame,
                raw,
                error,
            ),
        }
    }
}

/// What a payload decodes to: nothing, where its dictionary is not at hand.
pub open spec fn decoded_payload(
    encoding: PayloadEncoding,
    payload: Seq<u8>,
    dictionaries: Map<DictionaryId, Seq<u8>>,
) -> Option<Seq<u8>> {
    match encoding {
        PayloadEncoding::Raw => Some(payload),
        PayloadEncoding::Zstandard(CompressionDictionary::Plain) => Some(codec::zstd_content(payload)),
        PayloadEncoding::Zstandard(CompressionDictionary::Shared(id)) => if dictionaries.dom(
        ).contains(id) {
            Some(codec::zstd_content_with(dictionaries[id], payload))
        } else {
            None
        },
    }
}

fn decode_shape(wire: &mut Decoder) -> (shape: Result<FrameShape, StoreError>)
    requires
        old(wire).wf(),
    ensures
        final(wire).wf(),
        final(wire).bytes@ == old(wire).bytes@,
        match shape {
            Ok(s) => shape_at(old(wire).bytes@, old(wire).position as int) == Ok::<
                (FrameShape, int),
                StoreError,
            >((s, final(wire).position as int)),
            Err(e) => shape_at(old(wire).bytes@, old(wire).position as int) == Err::<
                (FrameShape, int),
                StoreError,
            >(e),
        },
{
    let size: PageSize = valued(PageSize::new(wire.u32()?))?;
    let pages: u32 = wire.u32()?;
    valued(FrameShape::new(size, pages))
}

fn decode_encoding(wire: &mut Decoder) -> (encoding: Result<PayloadEncoding, StoreError>)
    requires
        old(wire).wf(),
    ensures
        final(wire).wf(),
        final(wire).bytes@ == old(wire).bytes@,
        match encoding {
            Ok(c) => encoding_at(old(wire).bytes@, old(wire).position as int) == Ok::<
                (PayloadEncoding, int),
                StoreError,
            >((c, final(wire).position as int)),
            Err(e) => encoding_at(old(wire).bytes@, old(wire).position as int) == Err::<
                (PayloadEncoding, int),
                StoreError,
            >(e),
        },
{
    let tag: u8 = wire.u8()?;
    if tag == 0 {
        Ok(PayloadEncoding::Raw)
    } else if tag == 1 {
        Ok(PayloadEncoding::Zstandard(CompressionDictionary::Plain))
    } else if tag == 2 {
        let id: DictionaryId = Id { bytes: wire.array()? };
        proof {
            lemma_id_of(id);
        }
        Ok(PayloadEncoding::Zstandard(CompressionDictionary::Shared(id)))
    } else {
        Err(StoreError::Corrupt(0))
    }
}

fn decode_versions(wire: &mut Decoder, count: u32) -> (versions: Result<
    Vec<PageVersion>,
    StoreError,
>)
    requires
        old(wire).wf(),
    ensures
        final(wire).wf(),
        final(wire).bytes@ == old(wire).bytes@,
        match versions {
            Ok(v) => versions_from(
                old(wire).bytes@,
                old(wire).position as int,
                count as nat,
                Seq::empty(),
            ) == Ok::<(Seq<PageVersion>, int), StoreError>((v@, final(wire).position as int))
                && v@.len() == count && (forall|i: int|
                0 <= i < v@.len() ==> (#[trigger] v@[i]).wf()) && (forall|i: int, j: int|
                0 <= i < j < v@.len() ==> (#[trigger] v@[i]).page != (#[trigger] v@[j]).page),
            Err(e) => versions_from(
                old(wire).bytes@,
                old(wire).position as int,
                count as nat,
                Seq::empty(),
            ) == Err::<(Seq<PageVersion>, int), StoreError>(e),
        },
{
    let mut versions: Vec<PageVersion> = Vec::new();
    let mut distinct: OrderedSet<PageNumber> = OrderedSet::new();
    let mut i: u32 = 0;
    let ghost goal = versions_from(
        wire.bytes@,
        wire.position as int,
        count as nat,
        Seq::<PageVersion>::empty(),
    );
    assert(versions@ =~= Seq::<PageVersion>::empty());
    while i < count
        invariant
            i <= count,
            wire.wf(),
            wire.bytes@ == old(wire).bytes@,
            versions@.len() == i,
            goal == versions_from(
                old(wire).bytes@,
                old(wire).position as int,
                count as nat,
                Seq::<PageVersion>::empty(),
            ),
            goal == versions_from(
                wire.bytes@,
                wire.position as int,
                (count - i) as nat,
                versions@,
            ),
            forall|j: int| 0 <= j < i ==> (#[trigger] versions@[j]).wf(),
            forall|a: int, b: int|
                0 <= a < b < i ==> (#[trigger] versions@[a]).page != (#[trigger] versions@[b]).page,
            forall|page: PageNumber|
                #[trigger] distinct@.contains(page) <==> versions_page(versions@, page),
        decreases count - i,
    {
        let version: PageVersion = PageVersion::decode(wire)?;
        let ghost before = versions@;
        if !distinct.insert(version.page) {
            return Err(StoreError::Corrupt(0));
        }
        versions.push(version);
        i += 1;
        proof {
            assert forall|page: PageNumber|
                #[trigger] distinct@.contains(page) <==> versions_page(versions@, page) by {
                if versions_page(before, page) {
                    let j = choose|j: int| 0 <= j < before.len() && (#[trigger] before[j]).page
                        == page;
                    assert(versions@[j].page == page);
                }
                if versions_page(versions@, page) {
                    let j = choose|j: int|
                        0 <= j < versions@.len() && (#[trigger] versions@[j]).page == page;
                    if j < before.len() {
                        assert(before[j].page == page);
                    }
                }
                if page == version.page {
                    assert(versions@[before.len() as int].page == page);
                }
            }
            assert forall|a: int, b: int| 0 <= a < b < i implies (#[trigger] versions@[a]).page != (
            #[trigger] versions@[b]).page by {
                if b == i - 1 && versions@[a].page == versions@[b].page {
                    assert(before[a].page == version.page);
                    assert(versions_page(before, version.page));
                }
            }
        }
    }
    Ok(versions)
}

fn encode_parts(
    shape: FrameShape,
    encoding: &PayloadEncoding,
    length: u64,
    sum: &[u8; 32],
    pages: &[PageVersion],
) -> (bytes: Vec<u8>)
    ensures
        bytes@ == FRAME_MAGIC@ + bytes::le(shape.page_size.value as nat, 4) + bytes::le(shape.pages as nat, 4)
            + encoding_bytes(*encoding) + bytes::le(length as nat, 8) + sum@ + versions_bytes(pages@, 0),
{
    let mut bytes: Vec<u8> = Vec::new();
    append(&mut bytes, FRAME_MAGIC.as_slice());
    u32_bytes(&mut bytes, shape.page_size.value);
    u32_bytes(&mut bytes, shape.pages);
    let ghost before = bytes@;
    match encoding {
        PayloadEncoding::Raw => bytes.push(0),
        PayloadEncoding::Zstandard(CompressionDictionary::Plain) => bytes.push(1),
        PayloadEncoding::Zstandard(CompressionDictionary::Shared(id)) => {
            bytes.push(2);
            append(&mut bytes, id.bytes.as_slice());
        },
    }
    assert(bytes@ =~= before + encoding_bytes(*encoding));
    u64_bytes(&mut bytes, length);
    append(&mut bytes, sum.as_slice());
    let ghost fixed = bytes@;
    let mut i: usize = 0;
    assert(bytes@ + versions_bytes(pages@, 0) == fixed + versions_bytes(pages@, 0));
    while i < pages.len()
        invariant
            i <= pages@.len(),
            bytes@ + versions_bytes(pages@, i as int) == fixed + versions_bytes(pages@, 0),
        decreases pages.len() - i,
    {
        let ghost now = bytes@;
        pages[i].encode(&mut bytes);
        proof {
            assert(now + (pages@[i as int].record() + versions_bytes(pages@, i as int + 1))
                =~= bytes@ + versions_bytes(pages@, i as int + 1));
        }
        i += 1;
    }
    assert(bytes@ + versions_bytes(pages@, i as int) =~= bytes@);
    bytes
}

proof fn lemma_version_record(version: PageVersion)
    ensures
        version.record().len() == 44,
{
    crate::bytes::lemma_le_len(version.page.value as nat, 4);
    crate::bytes::lemma_le_len(version.txid.value as nat, 8);
}

proof fn lemma_versions_size(versions: Seq<PageVersion>, i: int)
    requires
        0 <= i <= versions.len(),
    ensures
        versions_bytes(versions, i).len() == 44 * (versions.len() - i),
    decreases versions.len() - i,
{
    if i < versions.len() {
        lemma_version_record(versions[i]);
        lemma_versions_size(versions, i + 1);
    }
}

/// The length of an encoding follows from the number of pages and whether a
/// dictionary is shared.
pub proof fn lemma_frame_size(model: FrameModel)
    requires
        model.payload_hash.len() == 32,
    ensures
        model.record().len() == model.size(),
{
    lemma_versions_size(model.pages, 0);
    crate::bytes::lemma_le_len(model.shape.page_size.value as nat, 4);
    crate::bytes::lemma_le_len(model.shape.pages as nat, 4);
    crate::bytes::lemma_le_len(model.payload_bytes as nat, 8);
}

/// A frame has at most 16384 pages, so its encoding is short.
pub proof fn lemma_payload_small(model: FrameModel)
    requires
        model.sound(),
    ensures
        model.payload_bytes <= 8388608,
{
}

/// A slot of a frame lies within the bytes of the frame.
pub proof fn lemma_slot_small(model: FrameModel, slot: int)
    requires
        model.sound(),
        0 <= slot < model.pages.len(),
    ensures
        0 <= slot * model.shape.page_size.value <= (slot + 1) * model.shape.page_size.value
            <= model.shape.size() <= 8388608,
        (slot + 1) * model.shape.page_size.value == slot * model.shape.page_size.value
            + model.shape.page_size.value,
{
    let size = model.shape.page_size.value as int;
    let pages = model.shape.pages as int;
    assert(0 <= slot * size <= (slot + 1) * size <= size * pages && (slot + 1) * size == slot * size
        + size) by (nonlinear_arith)
        requires
            0 <= slot < pages,
            size >= 512,
    ;
}

pub proof fn lemma_frame_small(model: FrameModel)
    requires
        model.sound(),
    ensures
        model.pages.len() <= 16384,
        model.size() <= 1048576,
{
    assert(512 * model.shape.pages <= model.shape.page_size.value * model.shape.pages)
        by (nonlinear_arith)
        requires
            model.shape.page_size.value >= 512,
    ;
}

/// Bytes admitted only after the payload and every page verified.
#[derive(Debug, PartialEq, Eq)]
pub struct VerifiedFrame {
    id: FrameId,
    bytes: Vec<u8>,
}

impl View for VerifiedFrame {
    type V = Seq<u8>;

    closed spec fn view(&self) -> Seq<u8> {
        self.bytes@
    }
}

impl VerifiedFrame {
    pub closed spec fn of(&self) -> FrameId {
        self.id
    }

    pub fn id(&self) -> (id: FrameId)
        ensures
            id == self.of(),
    {
        self.id
    }

    pub fn bytes(&self) -> (bytes: &[u8])
        ensures
            bytes@ == self@,
    {
        self.bytes.as_slice()
    }
}

/// Stored bytes authenticated against their metadata. They may be copied as they
/// are; only a verified frame may be read.
#[derive(Debug, PartialEq, Eq)]
pub struct EncodedFrame {
    metadata: FrameMetadata,
    payload: Vec<u8>,
}

impl EncodedFrame {
    pub closed spec fn about(&self) -> FrameModel {
        self.metadata@
    }

    pub closed spec fn stored(&self) -> Seq<u8> {
        self.payload@
    }

    #[verifier::type_invariant]
    spec fn authentic(&self) -> bool {
        self.metadata@.describes(self.payload@)
    }

    /// The metadata and the payload that it describes.
    pub fn into_parts(self) -> (parts: (FrameMetadata, Vec<u8>))
        ensures
            parts.0@ == self.about(),
            parts.1@ == self.stored(),
            parts.0@.describes(parts.1@),
    {
        proof {
            use_type_invariant(&self);
        }
        (self.metadata, self.payload)
    }

    pub fn payload(&self) -> (payload: &[u8])
        ensures
            payload@ == self.stored(),
    {
        self.payload.as_slice()
    }

    /// A payload that its metadata describes, without decoding it.
    pub fn authenticated(metadata: FrameMetadata, payload: Vec<u8>) -> (frame: Result<
        Self,
        StoreError,
    >)
        ensures
            match frame {
                Ok(f) => metadata@.describes(payload@) && f.about() == metadata@ && f.stored()
                    == payload@,
                Err(e) => !metadata@.describes(payload@) && e == StoreError::Corrupt(0),
            },
    {
        metadata.authenticate_payload(payload.as_slice())?;
        Ok(EncodedFrame { metadata, payload })
    }

    /// A payload that decodes to pages that match their versions, and those
    /// pages.
    pub fn verified(
        metadata: FrameMetadata,
        payload: Vec<u8>,
        dictionaries: &OrderedMap<DictionaryId, DecodingDictionary>,
    ) -> (frame: Result<(Self, VerifiedFrame), StoreError>)
        ensures
            match frame {
                Ok((f, v)) => metadata@.describes(payload@) && f.about() == metadata@ && f.stored()
                    == payload@ && v.of() == metadata@.id && metadata@.verifies(v@)
                    && decoded_payload(metadata@.encoding, payload@, dictionaries@) == Some(v@),
                Err(e) => payload_refused(metadata@, payload@, dictionaries@, e),
            },
    {
        let decoded: VerifiedFrame = metadata.verify_payload(payload.as_slice(), dictionaries)?;
        Ok((EncodedFrame { metadata, payload }, decoded))
    }
}

/// A payload that was compressed, and the dictionary that it needs.
#[derive(Debug, PartialEq, Eq)]
pub struct Candidate {
    pub dictionary: CompressionDictionary,
    pub payload: Vec<u8>,
}

/// The bytes that a candidate costs: naming a dictionary takes 32.
pub open spec fn candidate_cost(candidate: Candidate) -> int {
    candidate.payload@.len() + if candidate.dictionary is Shared {
        32int
    } else {
        0int
    }
}

/// Candidate `i` is the first of the cheapest, and cheaper than `raw` bytes.
pub open spec fn cheapest(candidates: Seq<Candidate>, raw: int, i: int) -> bool {
    &&& 0 <= i < candidates.len()
    &&& candidate_cost(candidates[i]) < raw
    &&& forall|j: int|
        0 <= j < candidates.len() ==> candidate_cost(candidates[i]) <= candidate_cost(
            #[trigger] candidates[j],
        )
    &&& forall|j: int|
        0 <= j < i ==> candidate_cost(candidates[i]) < candidate_cost(#[trigger] candidates[j])
}

/// Picks the cheapest way to store a frame: raw, unless a candidate is cheaper.
pub fn choose_payload(raw: &[u8], candidates: Vec<Candidate>) -> (chosen: (
    PayloadEncoding,
    Vec<u8>,
))
    ensures
        ({
            ||| chosen.0 is Raw && chosen.1@ == raw@ && forall|i: int|
                0 <= i < candidates@.len() ==> raw@.len() <= candidate_cost(
                    #[trigger] candidates@[i],
                )
            ||| exists|i: int|
                #[trigger] cheapest(candidates@, raw@.len() as int, i) && chosen.0
                    == PayloadEncoding::Zstandard(candidates@[i].dictionary) && chosen.1@
                    == candidates@[i].payload@
        }),
{
    let mut best: Option<usize> = None;
    let mut cost: usize = raw.len();
    let mut i: usize = 0;
    while i < candidates.len()
        invariant
            i <= candidates@.len(),
            match best {
                None => cost == raw@.len() && forall|j: int|
                    0 <= j < i ==> raw@.len() <= candidate_cost(#[trigger] candidates@[j]),
                Some(b) => b < i && cost == candidate_cost(candidates@[b as int]) && cost
                    < raw@.len() && (forall|j: int|
                    0 <= j < i ==> cost <= candidate_cost(#[trigger] candidates@[j])) && forall|
                    j: int,
                |
                    0 <= j < b ==> cost < candidate_cost(#[trigger] candidates@[j]),
            },
        decreases candidates.len() - i,
    {
        let overhead: usize = match candidates[i].dictionary {
            CompressionDictionary::Shared(_) => 32,
            CompressionDictionary::Plain => 0,
        };
        let candidate: usize = candidates[i].payload.len().saturating_add(overhead);
        if candidate < cost {
            cost = candidate;
            best = Some(i);
        }
        i += 1;
    }
    match best {
        None => (PayloadEncoding::Raw, crate::bytes::copied(raw)),
        Some(b) => {
            assert(cheapest(candidates@, raw@.len() as int, b as int));
            (
                PayloadEncoding::Zstandard(candidates[b].dictionary),
                crate::bytes::copied(candidates[b].payload.as_slice()),
            )
        },
    }
}

/// A way to store raw bytes: as they are, compressed plainly, or compressed with one
/// of some dictionaries.
pub open spec fn way(
    raw: Seq<u8>,
    known: Seq<(DictionaryId, Seq<u8>)>,
    level: int,
    i: int,
) -> (PayloadEncoding, Seq<u8>) {
    if i <= 0 {
        (PayloadEncoding::Raw, raw)
    } else if i == 1 {
        (
            PayloadEncoding::Zstandard(CompressionDictionary::Plain),
            codec::zstd_frame(raw, level),
        )
    } else {
        (
            PayloadEncoding::Zstandard(CompressionDictionary::Shared(known[i - 2].0)),
            codec::zstd_frame_with(known[i - 2].1, raw, level),
        )
    }
}

/// The bytes that a way costs: naming a dictionary takes 32.
pub open spec fn way_cost(way: (PayloadEncoding, Seq<u8>)) -> int {
    way.1.len() + match way.0 {
        PayloadEncoding::Zstandard(CompressionDictionary::Shared(_)) => 32int,
        _ => 0int,
    }
}

/// The first of the cheapest of the first `count` ways.
pub open spec fn best_way(
    raw: Seq<u8>,
    known: Seq<(DictionaryId, Seq<u8>)>,
    level: int,
    count: int,
) -> (PayloadEncoding, Seq<u8>)
    decreases count,
{
    if count <= 1 {
        way(raw, known, level, 0)
    } else {
        let prior = best_way(raw, known, level, count - 1);
        let own = way(raw, known, level, count - 1);
        if way_cost(own) < way_cost(prior) {
            own
        } else {
            prior
        }
    }
}

/// How raw bytes are stored where some dictionaries are at hand.
pub open spec fn best_payload(
    raw: Seq<u8>,
    known: Seq<(DictionaryId, Seq<u8>)>,
    level: int,
) -> (PayloadEncoding, Seq<u8>) {
    best_way(raw, known, level, known.len() as int + 2)
}

/// A way is the best one where none before it is as cheap and none is cheaper.
proof fn lemma_best_way(
    raw: Seq<u8>,
    known: Seq<(DictionaryId, Seq<u8>)>,
    level: int,
    count: int,
    i: int,
)
    requires
        0 <= i < count,
        forall|j: int|
            0 <= j < i ==> way_cost(way(raw, known, level, i)) < way_cost(
                #[trigger] way(raw, known, level, j),
            ),
        forall|j: int|
            0 <= j < count ==> way_cost(way(raw, known, level, i)) <= way_cost(
                #[trigger] way(raw, known, level, j),
            ),
    ensures
        best_way(raw, known, level, count) == way(raw, known, level, i),
    decreases count,
{
    if count > 1 {
        let own = way(raw, known, level, count - 1);
        if i < count - 1 {
            lemma_best_way(raw, known, level, count - 1, i);
        } else {
            lemma_best_among(raw, known, level, count - 1);
        }
    }
}

proof fn lemma_best_among(
    raw: Seq<u8>,
    known: Seq<(DictionaryId, Seq<u8>)>,
    level: int,
    count: int,
)
    requires
        count >= 1,
    ensures
        exists|j: int|
            0 <= j < count && best_way(raw, known, level, count) == #[trigger] way(
                raw,
                known,
                level,
                j,
            ),
    decreases count,
{
    if count > 1 {
        lemma_best_among(raw, known, level, count - 1);
        let j = choose|j: int|
            0 <= j < count - 1 && best_way(raw, known, level, count - 1) == #[trigger] way(
                raw,
                known,
                level,
                j,
            );
        if best_way(raw, known, level, count) == best_way(raw, known, level, count - 1) {
            assert(best_way(raw, known, level, count) == way(raw, known, level, j));
        } else {
            assert(best_way(raw, known, level, count) == way(raw, known, level, count - 1));
        }
    } else {
        assert(best_way(raw, known, level, count) == way(raw, known, level, 0));
    }
}

/// The joined bytes of the first `count` pages.
pub open spec fn joined_pages(pages: Seq<(PageVersion, Vec<u8>)>, count: int) -> Seq<u8>
    decreases count,
{
    if count <= 0 {
        Seq::empty()
    } else {
        joined_pages(pages, count - 1) + pages[count - 1].1@
    }
}

/// A page has the page size and matches its version.
pub open spec fn admissible_page(size: PageSize, page: (PageVersion, Vec<u8>)) -> bool {
    page.1@.len() == size.value && sound_page(page.0, page.1@)
}

/// Compresses frames: plainly, and with each of some dictionaries.
#[derive(Debug, PartialEq, Eq)]
pub struct FrameEncoder {
    level: i32,
    dictionaries: Vec<(DictionaryId, Vec<u8>)>,
}

impl FrameEncoder {
    pub closed spec fn effort(&self) -> int {
        self.level as int
    }

    /// The dictionaries in the order in which they are tried.
    pub closed spec fn known(&self) -> Seq<(DictionaryId, Seq<u8>)> {
        Seq::new(
            self.dictionaries@.len(),
            |i: int| (self.dictionaries@[i].0, self.dictionaries@[i].1@),
        )
    }

    /// An encoder at a compression level with some dictionaries, tried in the
    /// order of their identities.
    pub fn new(level: i32, dictionaries: &OrderedMap<DictionaryId, Vec<u8>>) -> (encoder: Self)
        ensures
            encoder.effort() == level,
            encoder.known() == dictionaries.pairs(),
            order::ascending::<DictionaryId, Seq<u8>>(encoder.known()),
            order::mapped::<DictionaryId, Seq<u8>>(encoder.known()) == dictionaries@,
    {
        let count: usize = dictionaries.len();
        let mut known: Vec<(DictionaryId, Vec<u8>)> = Vec::new();
        let mut i: usize = 0;
        while i < count
            invariant
                i <= count,
                count == dictionaries.pairs().len(),
                known@.len() == i,
                forall|j: int|
                    0 <= j < i ==> (#[trigger] known@[j]).0 == dictionaries.pairs()[j].0
                        && known@[j].1@ == dictionaries.pairs()[j].1,
            decreases count - i,
        {
            known.push(
                (
                    *dictionaries.key_at(i),
                    crate::bytes::copied(dictionaries.value_at(i).as_slice()),
                ),
            );
            i += 1;
        }
        let encoder = FrameEncoder { level, dictionaries: known };
        assert(encoder.known() =~= dictionaries.pairs());
        encoder
    }

    /// The frames that the compressor makes of `raw`: plain, then one for each
    /// dictionary.
    pub open spec fn compressed(&self, raw: Seq<u8>, candidates: Seq<Candidate>) -> bool {
        &&& candidates.len() == self.known().len() + 1
        &&& candidates[0].dictionary is Plain
        &&& candidates[0].payload@ == codec::zstd_frame(raw, self.effort())
        &&& codec::zstd_content(candidates[0].payload@) == raw
        &&& forall|i: int|
            0 <= i < candidates.len() ==> (#[trigger] candidates[i]).payload@.len() > 0
        &&& forall|i: int|
            1 <= i < candidates.len() ==> (#[trigger] candidates[i]).dictionary
                == CompressionDictionary::Shared(self.known()[i - 1].0) && candidates[i].payload@
                == codec::zstd_frame_with(self.known()[i - 1].1, raw, self.effort())
                && codec::zstd_content_with(self.known()[i - 1].1, candidates[i].payload@) == raw
    }

    fn candidates(&self, raw: &[u8]) -> (candidates: Result<Vec<Candidate>, StoreError>)
        ensures
            match candidates {
                Ok(c) => self.compressed(raw@, c@),
                Err(e) => e is Zstd,
            },
    {
        let mut candidates: Vec<Candidate> = Vec::new();
        match compress(raw, self.level) {
            Ok(payload) => candidates.push(
                Candidate { dictionary: CompressionDictionary::Plain, payload },
            ),
            Err(message) => {
                return Err(StoreError::Zstd(message));
            },
        }
        let mut i: usize = 0;
        while i < self.dictionaries.len()
            invariant
                i <= self.dictionaries@.len(),
                candidates@.len() == i + 1,
                candidates@[0].dictionary is Plain,
                candidates@[0].payload@ == codec::zstd_frame(raw@, self.effort()),
                codec::zstd_content(candidates@[0].payload@) == raw@,
                forall|j: int|
                    0 <= j < candidates@.len() ==> (#[trigger] candidates@[j]).payload@.len() > 0,
                forall|j: int|
                    1 <= j < candidates@.len() ==> (#[trigger] candidates@[j]).dictionary
                        == CompressionDictionary::Shared(self.known()[j - 1].0)
                        && candidates@[j].payload@ == codec::zstd_frame_with(
                        self.known()[j - 1].1,
                        raw@,
                        self.effort(),
                    ) && codec::zstd_content_with(self.known()[j - 1].1, candidates@[j].payload@) == raw@,
            decreases self.dictionaries.len() - i,
        {
            match compress_with(self.dictionaries[i].1.as_slice(), raw, self.level) {
                Ok(payload) => candidates.push(
                    Candidate {
                        dictionary: CompressionDictionary::Shared(self.dictionaries[i].0),
                        payload,
                    },
                ),
                Err(message) => {
                    return Err(StoreError::Zstd(message));
                },
            }
            i += 1;
        }
        Ok(candidates)
    }

    /// What is chosen among the compressed candidates is the best payload.
    proof fn lemma_chosen(
        &self,
        raw: Seq<u8>,
        candidates: Seq<Candidate>,
        encoding: PayloadEncoding,
        payload: Seq<u8>,
    )
        requires
            self.compressed(raw, candidates),
            (encoding is Raw && payload == raw && forall|i: int|
                0 <= i < candidates.len() ==> raw.len() <= candidate_cost(#[trigger] candidates[i]))
                || exists|i: int|
                #[trigger] cheapest(candidates, raw.len() as int, i) && encoding
                    == PayloadEncoding::Zstandard(candidates[i].dictionary) && payload
                    == candidates[i].payload@,
        ensures
            (encoding, payload) == best_payload(raw, self.known(), self.effort()),
    {
        let known = self.known();
        let level = self.effort();
        let count = known.len() + 2;
        assert forall|j: int| 1 <= j < count implies way_cost(#[trigger] way(raw, known, level, j))
            == candidate_cost(candidates[j - 1]) && way(raw, known, level, j) == (
            PayloadEncoding::Zstandard(candidates[j - 1].dictionary),
            candidates[j - 1].payload@,
        ) by {
            assert(candidates[j - 1].payload@.len() > 0);
        }
        if encoding is Raw && payload == raw && forall|i: int|
            0 <= i < candidates.len() ==> raw.len() <= candidate_cost(#[trigger] candidates[i]) {
            lemma_best_way(raw, known, level, count as int, 0);
        } else {
            let i = choose|i: int|
                #[trigger] cheapest(candidates, raw.len() as int, i) && encoding
                    == PayloadEncoding::Zstandard(candidates[i].dictionary) && payload
                    == candidates[i].payload@;
            lemma_best_way(raw, known, level, count as int, i + 1);
        }
    }

    /// Encodes a frame of pages: it refuses a number of pages that no frame
    /// holds, then the first page that has another size or does not match its
    /// version. The compressor may fail. The frame is stored in the cheapest
    /// way, and is named by the digest of its metadata.
    pub fn build(&self, size: PageSize, pages: Vec<(PageVersion, Vec<u8>)>) -> (frame: Result<
        EncodedFrame,
        StoreError,
    >)
        requires
            size.wf(),
        ensures
            match frame {
                Ok(f) => {
                    let raw = joined_pages(pages@, pages@.len() as int);
                    &&& pages@.len() <= u32::MAX && FrameShape::valid(size, pages@.len() as u32)
                    &&& forall|i: int|
                        0 <= i < pages@.len() ==> admissible_page(size, #[trigger] pages@[i])
                    &&& f.about().sound() && f.about().authentic() && f.about().describes(
                        f.stored(),
                    )
                    &&& f.about().shape == (FrameShape {
                        page_size: size,
                        pages: pages@.len() as u32,
                    })
                    &&& f.about().pages == Seq::new(pages@.len(), |i: int| pages@[i].0)
                    &&& f.about().verifies(raw)
                    &&& exists|c: Seq<Candidate>|
                        #![trigger self.compressed(raw, c)]
                        self.compressed(raw, c) && ({
                            ||| f.about().encoding is Raw && f.stored() == raw && forall|i: int|
                                0 <= i < c.len() ==> raw.len() <= candidate_cost(#[trigger] c[i])
                            ||| exists|i: int|
                                #[trigger] cheapest(c, raw.len() as int, i) && f.about().encoding
                                    == PayloadEncoding::Zstandard(c[i].dictionary) && f.stored()
                                    == c[i].payload@
                        })
                    &&& (f.about().encoding, f.stored()) == best_payload(
                        raw,
                        self.known(),
                        self.effort(),
                    )
                },
                Err(e) => if pages@.len() > u32::MAX {
                    e == StoreError::Range
                } else if !FrameShape::valid(size, pages@.len() as u32) {
                    e == StoreError::Value(ValueError)
                } else {
                    ||| e is Zstd && forall|i: int|
                        0 <= i < pages@.len() ==> admissible_page(size, #[trigger] pages@[i])
                    ||| exists|i: int|
                        0 <= i < pages@.len() && e == StoreError::PageChecksum(
                            (#[trigger] pages@[i]).0.page.value,
                        ) && !admissible_page(size, pages@[i]) && forall|j: int|
                            0 <= j < i ==> admissible_page(size, #[trigger] pages@[j])
                },
            },
    {
        if pages.len() as u64 > u32::MAX as u64 {
            return Err(StoreError::Range);
        }
        let shape: FrameShape = valued(FrameShape::new(size, pages.len() as u32))?;
        let unit: usize = size.value as usize;
        let mut raw: Vec<u8> = Vec::new();
        let mut versions: Vec<PageVersion> = Vec::new();
        let mut i: usize = 0;
        while i < pages.len()
            invariant
                i <= pages@.len(),
                unit == size.value,
                pages@.len() <= u32::MAX,
                FrameShape::valid(size, pages@.len() as u32),
                versions@.len() == i,
                raw@ == joined_pages(pages@, i as int),
                raw@.len() == i * unit,
                forall|j: int| 0 <= j < i ==> #[trigger] versions@[j] == pages@[j].0,
                forall|j: int| 0 <= j < i ==> admissible_page(size, #[trigger] pages@[j]),
                forall|j: int|
                    0 <= j < i ==> sound_page(
                        #[trigger] versions@[j],
                        raw@.subrange(j * unit as int, (j + 1) * unit as int),
                    ),
            decreases pages.len() - i,
        {
            let version: PageVersion = pages[i].0;
            if pages[i].1.len() != unit || !matches_version(&version, pages[i].1.as_slice()) {
                assert(!admissible_page(size, pages@[i as int]));
                return Err(StoreError::PageChecksum(version.page.value));
            }
            let ghost before = raw@;
            append(&mut raw, pages[i].1.as_slice());
            versions.push(version);
            proof {
                assert((i + 1) * unit == i * unit + unit) by (nonlinear_arith);
                assert forall|j: int| 0 <= j < i + 1 implies sound_page(
                    #[trigger] versions@[j],
                    raw@.subrange(j * unit as int, (j + 1) * unit as int),
                ) by {
                    assert((j + 1) * unit <= (i + 1) * unit) by (nonlinear_arith)
                        requires
                            j + 1 <= i + 1,
                            unit >= 0,
                    ;
                    assert(0 <= j * unit <= (j + 1) * unit) by (nonlinear_arith)
                        requires
                            j >= 0,
                            unit >= 0,
                    ;
                    if j < i {
                        assert((j + 1) * unit <= i * unit) by (nonlinear_arith)
                            requires
                                j + 1 <= i,
                                unit >= 0,
                        ;
                        assert(raw@.subrange(j * unit as int, (j + 1) * unit as int)
                            =~= before.subrange(j * unit as int, (j + 1) * unit as int));
                    } else {
                        assert(raw@.subrange(j * unit as int, (j + 1) * unit as int)
                            =~= pages@[i as int].1@);
                    }
                }
            }
            i += 1;
        }
        let candidates: Vec<Candidate> = self.candidates(raw.as_slice())?;
        let ghost made = candidates@;
        let (encoding, payload) = choose_payload(raw.as_slice(), candidates);
        let length: u64 = payload.len() as u64;
        let payload_hash: [u8; 32] = hash(payload.as_slice());
        let encoded: Vec<u8> = encode_parts(
            shape,
            &encoding,
            length,
            &payload_hash,
            versions.as_slice(),
        );
        let id: FrameId = identify(encoded.as_slice());
        proof {
            assert(raw@.len() == shape.size()) by {
                assert(raw@.len() == pages@.len() * unit);
                assert(pages@.len() * unit == unit * pages@.len()) by (nonlinear_arith);
            }
            assert(shape.size() > 0) by (nonlinear_arith)
                requires
                    shape.size() == shape.page_size.value * shape.pages,
                    shape.page_size.value >= 512,
                    shape.pages >= 1,
            ;
            if !(encoding is Raw) {
                let k = choose|k: int|
                    #[trigger] cheapest(made, raw@.len() as int, k) && encoding
                        == PayloadEncoding::Zstandard(made[k].dictionary) && payload@
                        == made[k].payload@;
                assert(made[k].payload@.len() > 0);
            }
        }
        let metadata = FrameMetadata {
            id,
            shape,
            encoding,
            payload_bytes: Count { value: length },
            payload_hash,
            pages: versions,
        };
        proof {
            let about = metadata@;
            assert(about.record() =~= encoded@);
            assert(about.pages =~= Seq::new(pages@.len(), |i: int| pages@[i].0));
            assert forall|j: int| 0 <= j < about.pages.len() implies sound_page(
                #[trigger] about.pages[j],
                about.slot(raw@, j),
            ) by {
                assert(versions@[j] == about.pages[j]);
            }
            assert(self.compressed(raw@, made));
            self.lemma_chosen(raw@, made, encoding, payload@);
        }
        Ok(EncodedFrame { metadata, payload })
    }
}

proof fn lemma_version_parse(before: Seq<u8>, version: PageVersion, after: Seq<u8>)
    requires
        version.wf(),
        (before + version.record() + after).len() <= usize::MAX,
    ensures
        version_at(before + version.record() + after, before.len() as int) == Ok::<
            (PageVersion, int),
            StoreError,
        >((version, before.len() as int + 44)),
{
    let whole = before + version.record() + after;
    let page = bytes::le(version.page.value as nat, 4);
    let txid = bytes::le(version.txid.value as nat, 8);
    let sum = version.checksum.bytes@;
    crate::bytes::lemma_le_len(version.page.value as nat, 4);
    crate::bytes::lemma_le_len(version.txid.value as nat, 8);
    crate::bytes::lemma_le_bounds();
    assert(whole =~= before + page + (txid + sum + after));
    wire::lemma_number_piece(before, version.page.value as nat, 4, txid + sum + after);
    assert(whole =~= (before + page) + txid + (sum + after));
    wire::lemma_number_piece(before + page, version.txid.value as nat, 8, sum + after);
    assert(whole =~= (before + page + txid) + sum + after);
    wire::lemma_take_piece(before + page + txid, sum, after);
    lemma_id_of(version.checksum);
}

proof fn lemma_versions_parse(
    before: Seq<u8>,
    versions: Seq<PageVersion>,
    i: int,
    after: Seq<u8>,
)
    requires
        0 <= i <= versions.len(),
        forall|j: int| 0 <= j < versions.len() ==> (#[trigger] versions[j]).wf(),
        forall|a: int, b: int|
            0 <= a < b < versions.len() ==> (#[trigger] versions[a]).page != (
            #[trigger] versions[b]).page,
        (before + versions_bytes(versions, i) + after).len() <= usize::MAX,
    ensures
        versions_from(
            before + versions_bytes(versions, i) + after,
            before.len() as int,
            (versions.len() - i) as nat,
            versions.take(i),
        ) == Ok::<(Seq<PageVersion>, int), StoreError>(
            (versions, (before.len() + versions_bytes(versions, i).len()) as int),
        ),
    decreases versions.len() - i,
{
    let whole = before + versions_bytes(versions, i) + after;
    if i == versions.len() {
        assert(versions.take(i) =~= versions);
    } else {
        let version = versions[i];
        let rest = versions_bytes(versions, i + 1);
        assert(whole =~= before + version.record() + (rest + after));
        lemma_version_parse(before, version, rest + after);
        lemma_version_record(version);
        assert(whole =~= (before + version.record()) + rest + after);
        lemma_versions_parse(before + version.record(), versions, i + 1, after);
        assert(versions.take(i).push(version) =~= versions.take(i + 1));
        if versions_page(versions.take(i), version.page) {
            let j = choose|j: int|
                0 <= j < i && (#[trigger] versions.take(i)[j]).page == version.page;
            assert(versions[j].page == versions[i].page);
        }
    }
}

/// Decoding the encoding of valid metadata under its identity gives the
/// metadata back.
pub proof fn law_frame_round_trip(model: FrameModel)
    requires
        model.wf(),
        model.authentic(),
    ensures
        frame_parse(model.record(), model.id) == Ok::<FrameModel, StoreError>(model),
{
    reveal(frame_parse);
    let whole = model.record();
    lemma_frame_size(model);
    lemma_frame_small(model);
    crate::bytes::lemma_le_bounds();
    let size = bytes::le(model.shape.page_size.value as nat, 4);
    let count = bytes::le(model.shape.pages as nat, 4);
    let tag = encoding_bytes(model.encoding);
    let length = bytes::le(model.payload_bytes as nat, 8);
    let sum = model.payload_hash;
    let versions = versions_bytes(model.pages, 0);
    crate::bytes::lemma_le_len(model.shape.page_size.value as nat, 4);
    crate::bytes::lemma_le_len(model.shape.pages as nat, 4);
    crate::bytes::lemma_le_len(model.payload_bytes as nat, 8);
    let none = Seq::<u8>::empty();
    let a = FRAME_MAGIC@;
    let b = a + size;
    let c = b + count;
    let d = c + tag;
    let e = d + length;
    let f = e + sum;
    assert(whole == f + versions);
    assert(wire::take_at(whole, 0, 8) == Ok::<(Seq<u8>, int), StoreError>((a, 8))) by {
        assert(whole.subrange(0, 8) =~= a);
    }
    assert(wire::number_at(whole, 8, 4) == Ok::<(nat, int), StoreError>(
        (model.shape.page_size.value as nat, 12),
    )) by {
        crate::bytes::law_le_round_trip(model.shape.page_size.value as nat, 4);
        assert(whole.subrange(8, 12) =~= size);
    }
    assert(wire::number_at(whole, 12, 4) == Ok::<(nat, int), StoreError>(
        (model.shape.pages as nat, 16),
    )) by {
        crate::bytes::law_le_round_trip(model.shape.pages as nat, 4);
        assert(whole.subrange(12, 16) =~= count);
    }
    assert(encoding_at(whole, 16) == Ok::<(PayloadEncoding, int), StoreError>(
        (model.encoding, d.len() as int),
    )) by {
        let after = length + sum + versions;
        assert(whole =~= c + tag + after);
        lemma_encoding_parse(c, model.encoding, after);
    }
    assert(wire::number_at(whole, d.len() as int, 8) == Ok::<(nat, int), StoreError>(
        (model.payload_bytes as nat, e.len() as int),
    )) by {
        crate::bytes::law_le_round_trip(model.payload_bytes as nat, 8);
        assert(whole.subrange(d.len() as int, e.len() as int) =~= length);
    }
    assert(wire::take_at(whole, e.len() as int, 32) == Ok::<(Seq<u8>, int), StoreError>(
        (sum, f.len() as int),
    )) by {
        assert(whole.subrange(e.len() as int, f.len() as int) =~= sum);
    }
    assert(versions_from(
        whole,
        f.len() as int,
        model.shape.pages as nat,
        Seq::<PageVersion>::empty(),
    ) == Ok::<(Seq<PageVersion>, int), StoreError>((model.pages, whole.len() as int))) by {
        assert(whole =~= f + versions + none);
        lemma_versions_parse(f, model.pages, 0, none);
        assert(model.pages.take(0) =~= Seq::<PageVersion>::empty());
    }
    assert(shape_at(whole, 8) == Ok::<(FrameShape, int), StoreError>((model.shape, 16)));
}

proof fn lemma_encoding_parse(before: Seq<u8>, encoding: PayloadEncoding, after: Seq<u8>)
    requires
        (before + encoding_bytes(encoding) + after).len() <= usize::MAX,
    ensures
        encoding_at(before + encoding_bytes(encoding) + after, before.len() as int) == Ok::<
            (PayloadEncoding, int),
            StoreError,
        >((encoding, (before.len() + encoding_bytes(encoding).len()) as int)),
{
    let whole = before + encoding_bytes(encoding) + after;
    match encoding {
        PayloadEncoding::Raw => {
            assert(bytes::le(0, 1) =~= seq![0u8]) by {
                reveal_with_fuel(bytes::le, 2);
            }
            crate::bytes::lemma_le_bound_monotonic(0, 1);
            wire::lemma_number_piece(before, 0, 1, after);
        },
        PayloadEncoding::Zstandard(CompressionDictionary::Plain) => {
            assert(bytes::le(1, 1) =~= seq![1u8]) by {
                reveal_with_fuel(bytes::le, 2);
            }
            assert(crate::bytes::le_bound(1) == 256) by {
                reveal_with_fuel(crate::bytes::le_bound, 2);
            }
            wire::lemma_number_piece(before, 1, 1, after);
        },
        PayloadEncoding::Zstandard(CompressionDictionary::Shared(id)) => {
            assert(bytes::le(2, 1) =~= seq![2u8]) by {
                reveal_with_fuel(bytes::le, 2);
            }
            assert(crate::bytes::le_bound(1) == 256) by {
                reveal_with_fuel(crate::bytes::le_bound, 2);
            }
            assert(whole =~= before + bytes::le(2, 1) + (id.bytes@ + after));
            wire::lemma_number_piece(before, 2, 1, id.bytes@ + after);
            assert(whole =~= (before + seq![2u8]) + id.bytes@ + after);
            wire::lemma_take_piece(before + seq![2u8], id.bytes@, after);
            lemma_id_of(id);
        },
    }
}

proof fn lemma_versions_canonical(
    bytes: Seq<u8>,
    position: int,
    count: nat,
    seen: Seq<PageVersion>,
)
    requires
        0 <= position <= bytes.len() <= usize::MAX,
        versions_from(bytes, position, count, seen) is Ok,
    ensures
        ({
            let (versions, end) = versions_from(bytes, position, count, seen)->Ok_0;
            &&& versions.len() == seen.len() + count
            &&& versions.take(seen.len() as int) == seen
            &&& position <= end <= bytes.len()
            &&& bytes.subrange(position, end) == versions_bytes(versions, seen.len() as int)
        }),
    decreases count,
{
    let (versions, end) = versions_from(bytes, position, count, seen)->Ok_0;
    if count == 0 {
        assert(versions.take(seen.len() as int) =~= seen);
        assert(bytes.subrange(position, end) =~= versions_bytes(versions, seen.len() as int));
    } else {
        let (version, next) = version_at(bytes, position)->Ok_0;
        lemma_versions_canonical(bytes, next, (count - 1) as nat, seen.push(version));
        lemma_version_canonical(bytes, position);
        let n = seen.len() as int;
        assert(versions.take(n + 1)[n] == version);
        assert(versions[n] == version);
        assert(versions.take(n) =~= seen) by {
            assert(versions.take(n) =~= versions.take(n + 1).take(n));
            assert(seen.push(version).take(n) =~= seen);
        }
        assert(bytes.subrange(position, end) =~= bytes.subrange(position, next) + bytes.subrange(
            next,
            end,
        ));
    }
}

proof fn lemma_version_canonical(bytes: Seq<u8>, position: int)
    requires
        0 <= position <= bytes.len() <= usize::MAX,
        version_at(bytes, position) is Ok,
    ensures
        ({
            let (version, next) = version_at(bytes, position)->Ok_0;
            &&& position < next <= bytes.len()
            &&& version.wf()
            &&& bytes.subrange(position, next) == version.record()
        }),
{
    let page = bytes.subrange(position, position + 4);
    let txid = bytes.subrange(position + 4, position + 12);
    let sum = bytes.subrange(position + 12, position + 44);
    crate::bytes::law_le_canonical(page);
    crate::bytes::law_le_canonical(txid);
    crate::bytes::lemma_le_bounds();
    let (version, next) = version_at(bytes, position)->Ok_0;
    lemma_id_bytes::<CHECKSUM>(sum);
    assert(bytes.subrange(position, next) =~= page + txid + sum);
}

/// Every 32 bytes are the bytes of an identity.
pub proof fn lemma_id_bytes<const KIND: u8>(bytes: Seq<u8>)
    requires
        bytes.len() == 32,
    ensures
        id_of::<KIND>(bytes).bytes@ == bytes,
{
    let array: [u8; 32] = [
        bytes[0], bytes[1], bytes[2], bytes[3], bytes[4], bytes[5], bytes[6], bytes[7], bytes[8], bytes[9], bytes[10], bytes[11], bytes[12], bytes[13], bytes[14], bytes[15], bytes[16], bytes[17], bytes[18], bytes[19], bytes[20], bytes[21], bytes[22], bytes[23], bytes[24], bytes[25], bytes[26], bytes[27], bytes[28], bytes[29], bytes[30], bytes[31],
    ];
    assert(array@ =~= bytes);
    assert((Id::<KIND> { bytes: array }).bytes@ == bytes);
}

/// Metadata is decoded from its own encoding only: no other bytes are accepted.
pub proof fn law_frame_canonical(bytes: Seq<u8>, expected: FrameId, model: FrameModel)
    requires
        bytes.len() <= usize::MAX,
        frame_parse(bytes, expected) == Ok::<FrameModel, StoreError>(model),
    ensures
        model.record() == bytes,
        model.id == expected,
        model.authentic(),
{
    reveal(frame_parse);
    let magic = bytes.subrange(0, 8);
    let size = bytes.subrange(8, 12);
    let count = bytes.subrange(12, 16);
    crate::bytes::law_le_canonical(size);
    crate::bytes::law_le_canonical(count);
    crate::bytes::lemma_le_bounds();
    let (shape, p) = shape_at(bytes, 8)->Ok_0;
    assert(p == 16);
    let (encoding, q) = encoding_at(bytes, 16)->Ok_0;
    assert(16 < q <= bytes.len() && bytes.subrange(16, q) == encoding_bytes(encoding)) by {
        lemma_encoding_canonical(bytes, 16);
    }
    let length = bytes.subrange(q, q + 8);
    crate::bytes::law_le_canonical(length);
    let sum = bytes.subrange(q + 8, q + 40);
    lemma_versions_canonical(bytes, q + 40, shape.pages as nat, Seq::empty());
    let (versions, end) = versions_from(bytes, q + 40, shape.pages as nat, Seq::empty())->Ok_0;
    assert(end == bytes.len());
    let tail = bytes.subrange(q + 40, end);
    assert(model.record() =~= magic + size + count + bytes.subrange(16, q) + length + sum + tail);
    assert(bytes =~= magic + size + count + bytes.subrange(16, q) + length + sum + tail);
}

proof fn lemma_encoding_canonical(bytes: Seq<u8>, position: int)
    requires
        0 <= position <= bytes.len() <= usize::MAX,
        encoding_at(bytes, position) is Ok,
    ensures
        ({
            let (encoding, next) = encoding_at(bytes, position)->Ok_0;
            &&& position < next <= bytes.len()
            &&& bytes.subrange(position, next) == encoding_bytes(encoding)
        }),
{
    let (encoding, next) = encoding_at(bytes, position)->Ok_0;
    let tag = bytes.subrange(position, position + 1);
    assert(tag.skip(1).len() == 0);
    assert(crate::bytes::le_value(tag) == tag[0] as nat) by {
        reveal_with_fuel(crate::bytes::le_value, 2);
    }
    if tag[0] == 2 {
        let id = bytes.subrange(position + 1, position + 33);
        lemma_id_bytes::<DICTIONARY>(id);
        assert(bytes.subrange(position, next) =~= seq![2u8] + id);
    } else {
        assert(bytes.subrange(position, next) =~= seq![tag[0]]);
    }
}

/// Bytes are stored the cheapest way: as they are, compressed, or compressed with one of
/// the dictionaries at hand, which costs the thirty-two bytes of its name besides.
pub proof fn law_payload_is_the_cheapest(
    raw: Seq<u8>,
    known: Seq<(DictionaryId, Seq<u8>)>,
    level: int,
)
    ensures
        ({
            let (encoding, stored) = best_payload(raw, known, level);
            let cost = stored.len() + if encoding.dictionary() is Some {
                32int
            } else {
                0
            };
            &&& cost <= raw.len()
            &&& cost <= codec::zstd_frame(raw, level).len()
            &&& forall|i: int|
                0 <= i < known.len() ==> cost <= codec::zstd_frame_with(
                    (#[trigger] known[i]).1,
                    raw,
                    level,
                ).len() + 32
            &&& match encoding {
                PayloadEncoding::Raw => stored == raw,
                PayloadEncoding::Zstandard(CompressionDictionary::Plain) => stored
                    == codec::zstd_frame(raw, level),
                PayloadEncoding::Zstandard(CompressionDictionary::Shared(id)) => exists|i: int|
                    0 <= i < known.len() && (#[trigger] known[i]).0 == id && stored
                        == codec::zstd_frame_with(known[i].1, raw, level),
            }
        }),
{
    lemma_cheapest_way(raw, known, level, known.len() as int + 2);
    assert(way_cost(best_payload(raw, known, level)) <= way_cost(way(raw, known, level, 0)));
    assert(way_cost(best_payload(raw, known, level)) <= way_cost(way(raw, known, level, 1)));
    assert forall|i: int| 0 <= i < known.len() implies way_cost(best_payload(raw, known, level))
        <= codec::zstd_frame_with((#[trigger] known[i]).1, raw, level).len() + 32 by {
        assert(way_cost(best_payload(raw, known, level)) <= way_cost(
            way(raw, known, level, i + 2),
        ));
    }
}

proof fn lemma_cheapest_way(
    raw: Seq<u8>,
    known: Seq<(DictionaryId, Seq<u8>)>,
    level: int,
    count: int,
)
    requires
        1 <= count <= known.len() + 2,
    ensures
        forall|i: int|
            0 <= i < count ==> way_cost(best_way(raw, known, level, count)) <= way_cost(
                #[trigger] way(raw, known, level, i),
            ),
        exists|i: int|
            0 <= i < count && best_way(raw, known, level, count) == #[trigger] way(
                raw,
                known,
                level,
                i,
            ),
    decreases count,
{
    if count == 1 {
        assert(best_way(raw, known, level, count) == way(raw, known, level, 0));
    } else {
        lemma_cheapest_way(raw, known, level, count - 1);
        let own = way(raw, known, level, count - 1);
        assert(way_cost(best_way(raw, known, level, count)) <= way_cost(own));
    }
}

/// Naming a dictionary takes as many bytes in a frame's record as it is charged with.
pub proof fn law_dictionary_name_is_charged(
    plain: FrameModel,
    shared: FrameModel,
)
    requires
        plain.pages.len() == shared.pages.len(),
        plain.encoding == PayloadEncoding::Zstandard(CompressionDictionary::Plain),
        shared.encoding.dictionary() is Some,
        plain.sound(),
        shared.sound(),
    ensures
        shared.record().len() == plain.record().len() + 32,
{
    lemma_frame_size(plain);
    lemma_frame_size(shared);
}

} // verus!
