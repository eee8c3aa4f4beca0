//! Fixed-size records: the header of a frame in a pack, and the header of an
//! active page file.

use crate::bytes;
use crate::bytes::{all_zero, append, append_zeros, array32, push_le, read_le, same_bytes};
use crate::digest;
use crate::digest::hash;
use crate::error::StoreError;
use vstd::prelude::*;
use vstd::slice::slice_subrange;

verus! {

/// The bytes of a frame header.
pub const FRAME_HEADER_SIZE: usize = 16;

/// How the payload of a frame record is stored.
#[derive(Clone, Copy, Debug, PartialEq, Eq, Structural)]
pub enum Codec {
    Raw,
    Zstd,
}

impl Codec {
    pub open spec fn tag(self) -> u8 {
        match self {
            Codec::Raw => 0,
            Codec::Zstd => 1,
        }
    }
}

/// What stands before the payload of a frame in a pack.
#[derive(Clone, Copy, Debug, PartialEq, Eq, Structural)]
pub struct FrameHeader {
    pub page_no: u32,
    pub codec: Codec,
    pub dictionary_index: u16,
    pub stored_len: u32,
    pub raw_len: u32,
}

impl FrameHeader {
    /// The sixteen bytes of the header.
    pub open spec fn record(self) -> Seq<u8> {
        bytes::le(self.page_no as nat, 4) + bytes::le(self.stored_len as nat, 4) + bytes::le(self.raw_len as nat, 4) + bytes::le(
            self.dictionary_index as nat,
            2,
        ) + seq![self.codec.tag()] + seq![0u8]
    }

    pub fn encode(&self) -> (bytes: Vec<u8>)
        ensures
            bytes@ == self.record(),
            bytes@.len() == FRAME_HEADER_SIZE,
    {
        let mut bytes: Vec<u8> = Vec::new();
        push_le(&mut bytes, self.page_no as u64, 4);
        push_le(&mut bytes, self.stored_len as u64, 4);
        push_le(&mut bytes, self.raw_len as u64, 4);
        push_le(&mut bytes, self.dictionary_index as u64, 2);
        match self.codec {
            Codec::Raw => bytes.push(0),
            Codec::Zstd => bytes.push(1),
        }
        bytes.push(0);
        proof {
            self.lemma_record();
            assert(bytes@ =~= self.record());
        }
        bytes
    }

    pub proof fn lemma_record(self)
        ensures
            self.record().len() == FRAME_HEADER_SIZE,
    {
        crate::bytes::lemma_le_len(self.page_no as nat, 4);
        crate::bytes::lemma_le_len(self.stored_len as nat, 4);
        crate::bytes::lemma_le_len(self.raw_len as nat, 4);
        crate::bytes::lemma_le_len(self.dictionary_index as nat, 2);
    }

    /// The header that these bytes record; any other bytes are corrupt.
    pub fn decode(bytes: &[u8]) -> (header: Result<FrameHeader, StoreError>)
        ensures
            match header {
                Ok(h) => bytes@ == h.record(),
                Err(e) => e == StoreError::Corrupt(0) && forall|h: FrameHeader|
                    bytes@ != #[trigger] h.record(),
            },
    {
        if bytes.len() != FRAME_HEADER_SIZE {
            proof {
                assert forall|h: FrameHeader| bytes@ != #[trigger] h.record() by {
                    h.lemma_record();
                }
            }
            return Err(StoreError::Corrupt(0));
        }
        let codec: Codec = if bytes[14] == 0 {
            Codec::Raw
        } else {
            Codec::Zstd
        };
        if bytes[14] > 1 || bytes[15] != 0 {
            proof {
                assert forall|h: FrameHeader| bytes@ != #[trigger] h.record() by {
                    h.lemma_parts();
                }
            }
            return Err(StoreError::Corrupt(0));
        }
        let page_no: &[u8] = slice_subrange(bytes, 0, 4);
        let stored_len: &[u8] = slice_subrange(bytes, 4, 8);
        let raw_len: &[u8] = slice_subrange(bytes, 8, 12);
        let dictionary_index: &[u8] = slice_subrange(bytes, 12, 14);
        proof {
            crate::bytes::law_le_canonical(page_no@);
            crate::bytes::law_le_canonical(stored_len@);
            crate::bytes::law_le_canonical(raw_len@);
            crate::bytes::law_le_canonical(dictionary_index@);
            crate::bytes::lemma_le_bounds();
        }
        let header = FrameHeader {
            page_no: read_le(page_no) as u32,
            codec,
            dictionary_index: read_le(dictionary_index) as u16,
            stored_len: read_le(stored_len) as u32,
            raw_len: read_le(raw_len) as u32,
        };
        proof {
            header.lemma_record();
            assert(bytes@ =~= header.record());
        }
        Ok(header)
    }

    proof fn lemma_parts(self)
        ensures
            self.record()[14] == self.codec.tag(),
            self.record()[15] == 0,
            self.record().subrange(0, 4) == bytes::le(self.page_no as nat, 4),
            self.record().subrange(4, 8) == bytes::le(self.stored_len as nat, 4),
            self.record().subrange(8, 12) == bytes::le(self.raw_len as nat, 4),
            self.record().subrange(12, 14) == bytes::le(self.dictionary_index as nat, 2),
    {
        self.lemma_record();
        crate::bytes::lemma_le_len(self.page_no as nat, 4);
        crate::bytes::lemma_le_len(self.stored_len as nat, 4);
        crate::bytes::lemma_le_len(self.raw_len as nat, 4);
        crate::bytes::lemma_le_len(self.dictionary_index as nat, 2);
        assert(self.record().subrange(0, 4) =~= bytes::le(self.page_no as nat, 4));
        assert(self.record().subrange(4, 8) =~= bytes::le(self.stored_len as nat, 4));
        assert(self.record().subrange(8, 12) =~= bytes::le(self.raw_len as nat, 4));
        assert(self.record().subrange(12, 14) =~= bytes::le(self.dictionary_index as nat, 2));
    }

    /// Two headers with one record are the same: reading a record gives back
    /// the header that was written.
    pub proof fn law_record_determines_header(a: FrameHeader, b: FrameHeader)
        requires
            a.record() == b.record(),
        ensures
            a == b,
    {
        a.lemma_parts();
        b.lemma_parts();
        crate::bytes::lemma_le_bounds();
        crate::bytes::law_le_round_trip(a.page_no as nat, 4);
        crate::bytes::law_le_round_trip(b.page_no as nat, 4);
        crate::bytes::law_le_round_trip(a.stored_len as nat, 4);
        crate::bytes::law_le_round_trip(b.stored_len as nat, 4);
        crate::bytes::law_le_round_trip(a.raw_len as nat, 4);
        crate::bytes::law_le_round_trip(b.raw_len as nat, 4);
        crate::bytes::law_le_round_trip(a.dictionary_index as nat, 2);
        crate::bytes::law_le_round_trip(b.dictionary_index as nat, 2);
    }
}

/// The bytes of an active header.
pub const ACTIVE_HEADER_SIZE: usize = 256;

/// The header of a local page file: which attachment of which database it is,
/// and the sealed view that it starts from. The policy is carried unread.
#[derive(Clone, Copy, Debug, PartialEq, Eq)]
pub struct ActiveHeader {
    pub database_id: [u8; 32],
    pub attachment_id: [u8; 32],
    pub base_history: [u8; 32],
    pub parent_physical_digest: [u8; 32],
    pub start_txid: u64,
    pub base_logical_size: u64,
    pub page_size: u32,
    pub policy: [u8; 32],
}

/// `ZACTIVE1`.
pub const ACTIVE_MAGIC: [u8; 8] = [90, 65, 67, 84, 73, 86, 69, 49];

impl ActiveHeader {
    /// The bytes that the checksum covers.
    pub open spec fn body(self) -> Seq<u8> {
        ACTIVE_MAGIC@ + self.database_id@ + self.attachment_id@ + self.base_history@
            + self.parent_physical_digest@ + bytes::le(self.start_txid as nat, 8) + bytes::le(
            self.base_logical_size as nat,
            8,
        ) + bytes::le(self.page_size as nat, 4) + self.policy@ + bytes::zeros(36)
    }

    /// The bytes of the header.
    pub open spec fn record(self) -> Seq<u8> {
        self.body() + digest::content_hash(self.body())
    }

    pub proof fn lemma_record(self)
        ensures
            self.body().len() == 224,
            self.record().len() == ACTIVE_HEADER_SIZE,
            self.record().subrange(0, 8) == ACTIVE_MAGIC@,
            self.record().subrange(8, 40) == self.database_id@,
            self.record().subrange(40, 72) == self.attachment_id@,
            self.record().subrange(72, 104) == self.base_history@,
            self.record().subrange(104, 136) == self.parent_physical_digest@,
            self.record().subrange(136, 144) == bytes::le(self.start_txid as nat, 8),
            self.record().subrange(144, 152) == bytes::le(self.base_logical_size as nat, 8),
            self.record().subrange(152, 156) == bytes::le(self.page_size as nat, 4),
            self.record().subrange(156, 188) == self.policy@,
            self.record().subrange(188, 224) == bytes::zeros(36),
            self.record().subrange(0, 224) == self.body(),
            self.record().subrange(224, 256) == digest::content_hash(self.body()),
    {
        crate::bytes::lemma_le_len(self.start_txid as nat, 8);
        crate::bytes::lemma_le_len(self.base_logical_size as nat, 8);
        crate::bytes::lemma_le_len(self.page_size as nat, 4);
        let r = self.record();
        assert(r.subrange(0, 8) =~= ACTIVE_MAGIC@);
        assert(r.subrange(8, 40) =~= self.database_id@);
        assert(r.subrange(40, 72) =~= self.attachment_id@);
        assert(r.subrange(72, 104) =~= self.base_history@);
        assert(r.subrange(104, 136) =~= self.parent_physical_digest@);
        assert(r.subrange(136, 144) =~= bytes::le(self.start_txid as nat, 8));
        assert(r.subrange(144, 152) =~= bytes::le(self.base_logical_size as nat, 8));
        assert(r.subrange(152, 156) =~= bytes::le(self.page_size as nat, 4));
        assert(r.subrange(156, 188) =~= self.policy@);
        assert(r.subrange(188, 224) =~= bytes::zeros(36));
        assert(r.subrange(0, 224) =~= self.body());
        assert(r.subrange(224, 256) =~= digest::content_hash(self.body()));
    }

    pub fn encode(&self) -> (bytes: Vec<u8>)
        ensures
            bytes@ == self.record(),
            bytes@.len() == ACTIVE_HEADER_SIZE,
    {
        let mut bytes: Vec<u8> = Vec::new();
        append(&mut bytes, ACTIVE_MAGIC.as_slice());
        append(&mut bytes, self.database_id.as_slice());
        append(&mut bytes, self.attachment_id.as_slice());
        append(&mut bytes, self.base_history.as_slice());
        append(&mut bytes, self.parent_physical_digest.as_slice());
        push_le(&mut bytes, self.start_txid, 8);
        push_le(&mut bytes, self.base_logical_size, 8);
        push_le(&mut bytes, self.page_size as u64, 4);
        append(&mut bytes, self.policy.as_slice());
        append_zeros(&mut bytes, 36);
        assert(bytes@ =~= self.body());
        let sum: [u8; 32] = hash(bytes.as_slice());
        append(&mut bytes, sum.as_slice());
        proof {
            self.lemma_record();
            assert(bytes@ =~= self.record());
        }
        bytes
    }

    /// The header that these bytes record; any other bytes are corrupt.
    pub fn decode(bytes: &[u8]) -> (header: Result<ActiveHeader, StoreError>)
        ensures
            match header {
                Ok(h) => bytes@ == h.record(),
                Err(e) => e == StoreError::Corrupt(0) && forall|h: ActiveHeader|
                    bytes@ != #[trigger] h.record(),
            },
    {
        if bytes.len() != ACTIVE_HEADER_SIZE {
            proof {
                assert forall|h: ActiveHeader| bytes@ != #[trigger] h.record() by {
                    h.lemma_record();
                }
            }
            return Err(StoreError::Corrupt(0));
        }
        let magic: &[u8] = slice_subrange(bytes, 0, 8);
        let padding: &[u8] = slice_subrange(bytes, 188, 224);
        let body: &[u8] = slice_subrange(bytes, 0, 224);
        let sum: &[u8] = slice_subrange(bytes, 224, 256);
        let calm: bool = all_zero(padding);
        proof {
            assert(calm ==> padding@ =~= bytes::zeros(36));
            assert(padding@ == bytes::zeros(36) ==> calm) by {
                if padding@ == bytes::zeros(36) {
                    assert forall|i: int| 0 <= i < padding@.len() implies padding@[i] == 0 by {
                        assert(bytes::zeros(36)[i] == 0);
                    }
                }
            }
        }
        if !same_bytes(magic, ACTIVE_MAGIC.as_slice()) || !calm || !same_bytes(
            hash(body).as_slice(),
            sum,
        ) {
            proof {
                assert forall|h: ActiveHeader| bytes@ != #[trigger] h.record() by {
                    h.lemma_record();
                }
            }
            return Err(StoreError::Corrupt(0));
        }
        let start_txid: &[u8] = slice_subrange(bytes, 136, 144);
        let base_logical_size: &[u8] = slice_subrange(bytes, 144, 152);
        let page_size: &[u8] = slice_subrange(bytes, 152, 156);
        proof {
            crate::bytes::law_le_canonical(start_txid@);
            crate::bytes::law_le_canonical(base_logical_size@);
            crate::bytes::law_le_canonical(page_size@);
            crate::bytes::lemma_le_bounds();
        }
        let header = ActiveHeader {
            database_id: array32(slice_subrange(bytes, 8, 40)),
            attachment_id: array32(slice_subrange(bytes, 40, 72)),
            base_history: array32(slice_subrange(bytes, 72, 104)),
            parent_physical_digest: array32(slice_subrange(bytes, 104, 136)),
            start_txid: read_le(start_txid),
            base_logical_size: read_le(base_logical_size),
            page_size: read_le(page_size) as u32,
            policy: array32(slice_subrange(bytes, 156, 188)),
        };
        proof {
            header.lemma_record();
            assert(body@ =~= header.body());
            assert(bytes@ =~= body@ + sum@);
            assert(bytes@ =~= header.record());
        }
        Ok(header)
    }

    /// Two headers with one record are the same: reading a record gives back
    /// the header that was written.
    pub proof fn law_record_determines_header(a: ActiveHeader, b: ActiveHeader)
        requires
            a.record() == b.record(),
        ensures
            a == b,
    {
        a.lemma_record();
        b.lemma_record();
        crate::bytes::lemma_le_bounds();
        crate::bytes::law_le_round_trip(a.start_txid as nat, 8);
        crate::bytes::law_le_round_trip(b.start_txid as nat, 8);
        crate::bytes::law_le_round_trip(a.base_logical_size as nat, 8);
        crate::bytes::law_le_round_trip(b.base_logical_size as nat, 8);
        crate::bytes::law_le_round_trip(a.page_size as nat, 4);
        crate::bytes::law_le_round_trip(b.page_size as nat, 4);
        assert(a.database_id =~= b.database_id);
        assert(a.attachment_id =~= b.attachment_id);
        assert(a.base_history =~= b.base_history);
        assert(a.parent_physical_digest =~= b.parent_physical_digest);
        assert(a.policy =~= b.policy);
    }

    /// Whether two headers are the same.
    pub fn same(&self, other: &ActiveHeader) -> (same: bool)
        ensures
            same == (*self == *other),
    {
        let same: bool = same_bytes(self.encode().as_slice(), other.encode().as_slice());
        proof {
            if same {
                ActiveHeader::law_record_determines_header(*self, *other);
            }
        }
        same
    }
}

/// The bytes of an active state.
pub const ACTIVE_STATE_SIZE: usize = 160;

/// The bytes of a local page file before its pages: the header, and room for two
/// states.
pub const ACTIVE_METADATA_SIZE: usize = 12288;

/// `ZSTATE01`.
pub const STATE_MAGIC: [u8; 8] = [90, 83, 84, 65, 84, 69, 48, 49];

/// Where a local page file stands: its last publication, and what that came to.
#[derive(Clone, Copy, Debug, PartialEq, Eq)]
pub struct ActiveState {
    pub database_id: [u8; 32],
    pub sequence: u64,
    pub txid: u64,
    pub logical_size: u64,
    pub page_size: u32,
    pub history: [u8; 32],
    pub commit_unix: u64,
    pub record_count: u64,
    pub truncate_pages: Option<u32>,
}

/// An optional number: whether there is one, and the number.
pub open spec fn optional_le(value: Option<u32>) -> Seq<u8> {
    match value {
        None => seq![0u8] + bytes::le(0, 4),
        Some(value) => seq![1u8] + bytes::le(value as nat, 4),
    }
}

impl ActiveState {
    /// The bytes that the checksum covers.
    pub open spec fn body(self) -> Seq<u8> {
        STATE_MAGIC@ + self.database_id@ + self.history@ + bytes::le(self.sequence as nat, 8)
            + bytes::le(self.txid as nat, 8) + bytes::le(self.logical_size as nat, 8) + bytes::le(
            self.commit_unix as nat,
            8,
        ) + bytes::le(self.record_count as nat, 8) + bytes::le(self.page_size as nat, 4)
            + optional_le(self.truncate_pages) + bytes::zeros(7)
    }

    /// The bytes of the state.
    pub open spec fn record(self) -> Seq<u8> {
        self.body() + digest::content_hash(self.body())
    }

    pub fn encode(&self) -> (bytes: Vec<u8>)
        ensures
            bytes@ == self.record(),
            bytes@.len() == ACTIVE_STATE_SIZE,
    {
        let mut bytes: Vec<u8> = Vec::new();
        append(&mut bytes, STATE_MAGIC.as_slice());
        append(&mut bytes, self.database_id.as_slice());
        append(&mut bytes, self.history.as_slice());
        push_le(&mut bytes, self.sequence, 8);
        push_le(&mut bytes, self.txid, 8);
        push_le(&mut bytes, self.logical_size, 8);
        push_le(&mut bytes, self.commit_unix, 8);
        push_le(&mut bytes, self.record_count, 8);
        push_le(&mut bytes, self.page_size as u64, 4);
        let (tag, value): (u8, u32) = match self.truncate_pages {
            None => (0, 0),
            Some(value) => (1, value),
        };
        bytes.push(tag);
        push_le(&mut bytes, value as u64, 4);
        append_zeros(&mut bytes, 7);
        assert(bytes@ =~= self.body());
        let sum: [u8; 32] = hash(bytes.as_slice());
        append(&mut bytes, sum.as_slice());
        proof {
            self.lemma_record();
            assert(bytes@ =~= self.record());
        }
        bytes
    }

    proof fn lemma_record(self)
        ensures
            self.record().len() == ACTIVE_STATE_SIZE,
            self.record().subrange(8, 40) == self.database_id@,
            self.record().subrange(40, 72) == self.history@,
            self.record().subrange(72, 80) == bytes::le(self.sequence as nat, 8),
            self.record().subrange(80, 88) == bytes::le(self.txid as nat, 8),
            self.record().subrange(88, 96) == bytes::le(self.logical_size as nat, 8),
            self.record().subrange(96, 104) == bytes::le(self.commit_unix as nat, 8),
            self.record().subrange(104, 112) == bytes::le(self.record_count as nat, 8),
            self.record().subrange(112, 116) == bytes::le(self.page_size as nat, 4),
            self.record().subrange(116, 121) == optional_le(self.truncate_pages),
    {
        crate::bytes::lemma_le_len(self.sequence as nat, 8);
        crate::bytes::lemma_le_len(self.txid as nat, 8);
        crate::bytes::lemma_le_len(self.logical_size as nat, 8);
        crate::bytes::lemma_le_len(self.commit_unix as nat, 8);
        crate::bytes::lemma_le_len(self.record_count as nat, 8);
        crate::bytes::lemma_le_len(self.page_size as nat, 4);
        crate::bytes::lemma_le_len(0, 4);
        match self.truncate_pages {
            Some(value) => crate::bytes::lemma_le_len(value as nat, 4),
            None => {},
        }
        let r = self.record();
        assert(r.subrange(8, 40) =~= self.database_id@);
        assert(r.subrange(40, 72) =~= self.history@);
        assert(r.subrange(72, 80) =~= bytes::le(self.sequence as nat, 8));
        assert(r.subrange(80, 88) =~= bytes::le(self.txid as nat, 8));
        assert(r.subrange(88, 96) =~= bytes::le(self.logical_size as nat, 8));
        assert(r.subrange(96, 104) =~= bytes::le(self.commit_unix as nat, 8));
        assert(r.subrange(104, 112) =~= bytes::le(self.record_count as nat, 8));
        assert(r.subrange(112, 116) =~= bytes::le(self.page_size as nat, 4));
        assert(r.subrange(116, 121) =~= optional_le(self.truncate_pages));
    }

    /// Two states with one record are the same.
    pub proof fn law_record_determines_state(a: ActiveState, b: ActiveState)
        requires
            a.record() == b.record(),
        ensures
            a == b,
    {
        a.lemma_record();
        b.lemma_record();
        crate::bytes::lemma_le_bounds();
        crate::bytes::law_le_round_trip(a.sequence as nat, 8);
        crate::bytes::law_le_round_trip(b.sequence as nat, 8);
        crate::bytes::law_le_round_trip(a.txid as nat, 8);
        crate::bytes::law_le_round_trip(b.txid as nat, 8);
        crate::bytes::law_le_round_trip(a.logical_size as nat, 8);
        crate::bytes::law_le_round_trip(b.logical_size as nat, 8);
        crate::bytes::law_le_round_trip(a.commit_unix as nat, 8);
        crate::bytes::law_le_round_trip(b.commit_unix as nat, 8);
        crate::bytes::law_le_round_trip(a.record_count as nat, 8);
        crate::bytes::law_le_round_trip(b.record_count as nat, 8);
        crate::bytes::law_le_round_trip(a.page_size as nat, 4);
        crate::bytes::law_le_round_trip(b.page_size as nat, 4);
        assert(a.database_id =~= b.database_id);
        assert(a.history =~= b.history);
        let x = optional_le(a.truncate_pages);
        let y = optional_le(b.truncate_pages);
        assert(x == y);
        assert(x[0] == y[0]);
        if let (Some(m), Some(n)) = (a.truncate_pages, b.truncate_pages) {
            assert(x.skip(1) =~= bytes::le(m as nat, 4));
            assert(y.skip(1) =~= bytes::le(n as nat, 4));
            crate::bytes::law_le_round_trip(m as nat, 4);
            crate::bytes::law_le_round_trip(n as nat, 4);
        }
    }
}

} // verus!
