use zsqlite::adapter::{BackendError, ObjectKey};
use zsqlite::catalog::{validate_head, Head};
use zsqlite::digest::hash;
use zsqlite::directory::{decode_root, encode_root, list_names};
use zsqlite::domain::{
    AttachmentId, BlobId, DatabaseId, DictionaryId, HistoryHash, LineageId, LogicalBytes,
    PackId, PackOffset, PageNumber, PageSize, RetentionId, StoredBytes, TransactionId, ViewHash,
};
use zsqlite::error::StoreError;
use zsqlite::format::{ActiveHeader, ActiveState, Codec, FrameHeader, ACTIVE_STATE_SIZE};
use zsqlite::frame::{checksum, FrameEncoder, PageVersion};
use zsqlite::handle::{head_directory, is_standard, pagefile};
use zsqlite::keys::CatalogKey;
use zsqlite::order::OrderedMap;
use zsqlite::pack::{authenticate, header};
use zsqlite::placement::PackRange;
use zsqlite::retention::{Retained, RetentionName};
use zsqlite::text::hex;
use zsqlite::view::{FrameLocation, ViewMetadata, VIEW_LIMIT};
use zsqlite::wire::{envelope, open_envelope};

fn view() -> ViewMetadata {
    let size = PageSize::new(4096).unwrap();
    let number = PageNumber::new(1).unwrap();
    let txid = TransactionId::new(1).unwrap();
    let bytes = vec![7; 4096];
    let version = PageVersion {
        page: number,
        txid,
        checksum: checksum(number, txid, &bytes),
    };
    let frame = FrameEncoder::new(3, &OrderedMap::new())
        .build(size, vec![(version, bytes)])
        .unwrap();
    let (metadata, _payload) = frame.into_parts();
    let mut view = ViewMetadata::empty(
        DatabaseId::from_bytes([1; 32]),
        LineageId::from_bytes([2; 32]),
        LogicalBytes::new(4096, size).unwrap(),
        txid,
        HistoryHash::from_bytes([3; 32]),
    );
    let payload = PackRange::new(PackOffset::new(4096), metadata.payload_bytes()).unwrap();
    view.insert(FrameLocation::new(
        PackId::from_bytes([4; 32]),
        payload,
        metadata,
    ))
    .unwrap();
    view
}

fn encoded_view() -> Vec<u8> {
    view().encode().unwrap()
}

#[test]
fn drafts_validate_without_serialization_and_standalone_manifests_are_rejected() {
    let encoded = encoded_view();
    let decoded = ViewMetadata::decode(&encoded).unwrap();
    let draft = decoded.draft();
    let length = draft.encode_raw().unwrap().len();
    assert_eq!(
        draft.duplicate().validate().unwrap().decoded_bytes().get(),
        length as u64
    );
    let mut invalid = draft;
    let id = *invalid.frames.key_at(0);
    let frame = invalid.frames.value_at(0).duplicate();
    invalid.frames.insert(
        id,
        FrameLocation::new(
            frame.pack(),
            PackRange::new(frame.payload().offset(), StoredBytes::new(1)).unwrap(),
            frame.metadata().duplicate(),
        ),
    );
    assert!(invalid.validate().is_err());
    let mut invalid = encoded;
    invalid[..8].copy_from_slice(b"BADVIEW!");
    assert!(ViewMetadata::decode(&invalid).is_err());
    assert!(CatalogKey::parse(&format!("{}.view", "00".repeat(32))).is_err());
}

#[test]
fn decoder_rejects_hostile_counts_references_slots_and_trailing_data() {
    let encoded = encoded_view();
    assert!(ViewMetadata::decode(&encoded).is_ok());
    let original = open_envelope(b"ZVIEW001", &encoded, VIEW_LIMIT).unwrap();
    for offset in [148, 152, original.len() - 44, original.len() - 4] {
        let mut raw = original.clone();
        raw[offset..offset + 4].copy_from_slice(&u32::MAX.to_le_bytes());
        assert!(
            ViewMetadata::decode(&envelope(b"ZVIEW001", &raw).unwrap()).is_err(),
            "offset {offset}"
        );
    }
    let mut raw = original.clone();
    let length = raw.len();
    raw[length - 36] ^= 1; // page map references an unknown frame
    assert!(ViewMetadata::decode(&envelope(b"ZVIEW001", &raw).unwrap()).is_err());
    let mut raw = original;
    raw.push(0);
    assert!(ViewMetadata::decode(&envelope(b"ZVIEW001", &raw).unwrap()).is_err());
    for length in [0, 8, 16, encoded.len() - 1] {
        assert!(ViewMetadata::decode(&encoded[..length]).is_err());
    }
}

#[test]
fn invalid_pack_headers_are_rejected() {
    assert_eq!(&header()[..8], b"ZPACK001");
    for magic in [b"BADPACK!", b"PACKBAD!"] {
        let mut bytes = header();
        bytes[..8].copy_from_slice(magic);
        assert!(authenticate(&bytes).is_err());
        assert!(authenticate(magic).is_err());
    }
}

#[test]
fn envelopes_hold_what_was_put_in() {
    let raw: Vec<u8> = (0..100_000_u32).map(|i| (i / 100) as u8).collect();
    let sealed = envelope(b"ZINDEX01", &raw).unwrap();
    assert!(sealed.len() < raw.len() / 10);
    assert_eq!(&sealed[..8], b"ZINDEX01");
    assert_eq!(&sealed[8..16], &100_000_u64.to_le_bytes());
    assert_eq!(&sealed[16..48], &hash(&raw));
    assert_eq!(open_envelope(b"ZINDEX01", &sealed, 100_000).unwrap(), raw);
    assert_eq!(
        open_envelope(b"ZINDEX01", &sealed, 99_999),
        Err(StoreError::Range)
    );
    assert_eq!(
        open_envelope(b"ZINDEX02", &sealed, 100_000),
        Err(StoreError::Corrupt(0))
    );
    let mut damaged = sealed.clone();
    damaged[20] ^= 1;
    assert_eq!(
        open_envelope(b"ZINDEX01", &damaged, 100_000),
        Err(StoreError::Corrupt(0))
    );
    damaged = sealed;
    let last = damaged.len() - 1;
    damaged.truncate(last);
    assert!(matches!(
        open_envelope(b"ZINDEX01", &damaged, 100_000),
        Err(StoreError::Zstd(_))
    ));
}

#[test]
fn digests_are_blake3() {
    assert_eq!(
        hex(&BlobId::from_bytes(hash(b""))),
        "af1349b9f5f9a1a6a0404dea36dcc9499bcb25c9adc112b7cc9a93cae41f3262"
    );
}

#[test]
fn headers_of_frames_and_pagefiles_decode() {
    let frame = FrameHeader {
        page_no: 0,
        codec: Codec::Zstd,
        dictionary_index: 3,
        stored_len: 100,
        raw_len: 4096,
    };
    let bytes = frame.encode();
    assert_eq!(bytes.len(), 16);
    assert_eq!(FrameHeader::decode(&bytes).unwrap(), frame);
    assert!(FrameHeader::decode(&bytes[..15]).is_err());
    let active = header_of([5; 32]);
    let bytes = active.encode();
    assert_eq!(bytes.len(), 256);
    assert_eq!(ActiveHeader::decode(&bytes).unwrap(), active);
    let mut damaged = bytes.clone();
    damaged[40] ^= 1;
    assert!(ActiveHeader::decode(&damaged).is_err());
    assert!(ActiveHeader::decode(&bytes[..255]).is_err());
}

#[test]
fn a_new_pagefile_starts_before_its_first_transaction() {
    let sealed = ActiveHeader {
        start_txid: 8,
        base_logical_size: 4096,
        ..header_of([5; 32])
    };
    let (header, first) = pagefile(&sealed, [6; 32]).unwrap();
    assert_eq!(header.attachment_id, [6; 32]);
    assert_eq!((first.sequence, first.txid, first.logical_size), (1, 7, 4096));
    let bytes = first.encode();
    assert_eq!(bytes.len(), ACTIVE_STATE_SIZE);
    assert_eq!(&bytes[..8], b"ZSTATE01");
    assert_eq!(&bytes[8..40], &sealed.database_id);
    assert_eq!(&bytes[40..72], &sealed.base_history);
    assert_eq!(&bytes[72..80], &1_u64.to_le_bytes());
    assert_eq!(&bytes[80..88], &7_u64.to_le_bytes());
    assert_eq!(&bytes[116..121], &[0; 5]);
    assert_eq!(&bytes[128..], &hash(&bytes[..128]));
    let cut = ActiveState {
        truncate_pages: Some(3),
        ..first
    };
    assert_eq!(&cut.encode()[116..121], &[1, 3, 0, 0, 0]);
    let none = ActiveHeader {
        start_txid: 0,
        ..sealed
    };
    assert!(matches!(pagefile(&none, [6; 32]), Err(StoreError::Range)));
}

fn header_of(policy: [u8; 32]) -> ActiveHeader {
    ActiveHeader {
        database_id: [1; 32],
        attachment_id: [2; 32],
        base_history: [3; 32],
        parent_physical_digest: [4; 32],
        start_txid: 17,
        base_logical_size: 8192,
        page_size: 4096,
        policy,
    }
}

#[test]
fn heads_decode_for_their_database_only() {
    let head = Head {
        attachment: Some(AttachmentId::from_bytes([2; 32])),
        sealed: Some(header_of([5; 32])),
        pending: None,
    };
    let bytes = head.encode();
    let database = Some(DatabaseId::from_bytes([1; 32]));
    let found = Head::decode(&bytes, &database).unwrap();
    assert_eq!(found.sealed, head.sealed);
    assert_eq!(found.attachment, head.attachment);
    assert!(found.pending.is_none());
    assert!(matches!(
        Head::decode(&bytes, &Some(DatabaseId::from_bytes([9; 32]))),
        Err(StoreError::IdentityMismatch)
    ));
    // Every byte belongs to the record, and nothing follows it.
    for end in 0..bytes.len() {
        assert!(Head::decode(&bytes[..end], &database).is_err());
    }
    let mut longer = bytes.clone();
    longer.push(0);
    assert!(Head::decode(&longer, &database).is_err());
}

#[test]
fn names_follow_their_rules() {
    for name in ["main", "a", "x.y_z-9"] {
        assert!(validate_head(name.as_bytes()).is_ok());
    }
    for name in ["", "no/slash", "blank here"] {
        assert!(matches!(
            validate_head(name.as_bytes()),
            Err(StoreError::InvalidConfiguration(_))
        ));
    }
    assert!(validate_head(&[b'a'; 128]).is_ok());
    assert!(validate_head(&[b'a'; 129]).is_err());
    assert!(RetentionName::new("a".repeat(64)).is_ok());
    assert!(RetentionName::new("a".repeat(65)).is_err());
    assert!(RetentionName::new("dot.ted".to_owned()).is_err());
    assert_eq!(
        RetentionName::new("fork-1_b".to_owned()).unwrap().as_str(),
        "fork-1_b"
    );
    assert_eq!(head_directory(b"main").unwrap(), None);
    assert_eq!(
        head_directory(b"fork").unwrap(),
        Some(hex(&BlobId::from_bytes(hash(b"fork"))))
    );
    assert!(head_directory(b"").is_err());
}

#[test]
fn retained_roots_decode() {
    let root = Retained {
        database: DatabaseId::from_bytes([1; 32]),
        hash: ViewHash::from_bytes([2; 32]),
        txid: TransactionId::new(9).unwrap(),
        revision: RetentionId::from_bytes([3; 32]),
    };
    let bytes = root.encode();
    assert_eq!(bytes.len(), 144);
    assert!(Retained::decode(&bytes).unwrap().same(&root));
    for at in [0, 8, 72, 143] {
        let mut damaged = bytes.clone();
        damaged[at] ^= 1;
        assert!(Retained::decode(&damaged).is_err(), "byte {at}");
    }
}

#[test]
fn a_root_file_reads_back() {
    let file = encode_root(&[6; 32], b"the root");
    let root = decode_root(&file).unwrap();
    assert_eq!(root.revision().bytes(), &[6; 32]);
    assert_eq!(root.bytes(), b"the root");
    let mut damaged = file.clone();
    damaged[45] ^= 1;
    assert_eq!(decode_root(&damaged), Err(BackendError::InvalidData));
    assert_eq!(decode_root(&file[..71]), Err(BackendError::InvalidData));
    assert_eq!(
        decode_root(&encode_root(&[6; 32], &vec![0; 65537])),
        Err(BackendError::Range)
    );
}

#[test]
fn a_directory_lists_its_objects_in_order() {
    let keys: Vec<ObjectKey> = vec![
        ObjectKey::Blob(BlobId::from_bytes([1; 32])),
        ObjectKey::Blob(BlobId::from_bytes([2; 32])),
        ObjectKey::Dictionary(DictionaryId::from_bytes([1; 32])),
    ];
    let mut names: Vec<String> = keys.iter().rev().map(|key| key.name()).collect();
    names.push(".staging-x".to_owned());
    assert_eq!(list_names(&names, None, 4096).unwrap(), keys);
    assert_eq!(list_names(&names, None, 2).unwrap(), keys[..2]);
    assert_eq!(list_names(&names, Some(keys[0]), 1).unwrap(), keys[1..2]);
    assert!(list_names(&names, Some(keys[2]), 1).unwrap().is_empty());
    assert_eq!(list_names(&names, None, 0), Err(BackendError::Range));
    assert_eq!(list_names(&names, None, 4097), Err(BackendError::Range));
    names.push("stray".to_owned());
    assert_eq!(
        list_names(&names, None, 4096),
        Err(BackendError::InvalidData)
    );
}

#[test]
fn the_first_page_says_what_it_is() {
    let mut page = vec![0; 4096];
    assert!(!is_standard(&page, 4096));
    page[..16].copy_from_slice(b"SQLite format 3\0");
    page[16..18].copy_from_slice(&4096_u16.to_be_bytes());
    assert!(is_standard(&page, 4096));
    assert!(!is_standard(&page, 8192));
    assert!(!is_standard(&page[..99], 4096));
    page[16..18].copy_from_slice(&1_u16.to_be_bytes());
    assert!(is_standard(&page, 65536));
}
