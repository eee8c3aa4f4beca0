use zsqlite::digest::hash;
use zsqlite::domain::{
    CompressionDictionary, DictionaryId, PageNumber, PageSize, PayloadEncoding, TransactionId,
};
use zsqlite::error::StoreError;
use zsqlite::frame::{DecodingDictionary, EncodedFrame, FrameEncoder, PageVersion};
use zsqlite::order::OrderedMap;

#[test]
fn authenticated_copy_preserves_dictionary_frames_without_decoding() {
    let size = PageSize::new(4096).unwrap();
    let mut state = 17_u32;
    let raw: Vec<u8> = (0..4096)
        .map(|_| {
            state ^= state << 13;
            state ^= state >> 17;
            state ^= state << 5;
            state.to_le_bytes()[0]
        })
        .collect();
    let dictionary = DictionaryId::from_bytes(hash(&raw));
    let mut choices = OrderedMap::new();
    choices.insert(dictionary, raw.clone());
    let encoder = FrameEncoder::new(3, &choices);
    let version = PageVersion::verified(
        PageNumber::new(1).unwrap(),
        TransactionId::new(1).unwrap(),
        &raw,
    );
    let frame = encoder.build(size, vec![(version, raw.clone())]).unwrap();
    let (metadata, payload) = frame.into_parts();
    assert_eq!(
        metadata.encoding(),
        PayloadEncoding::Zstandard(CompressionDictionary::Shared(dictionary))
    );

    // A copy needs no decoding dictionary, unlike a verified plaintext read.
    let copied = EncodedFrame::authenticated(metadata.duplicate(), payload.clone()).unwrap();
    let (same_metadata, same_payload) = copied.into_parts();
    assert!(same_metadata.same(&metadata));
    assert_eq!(same_payload, payload);
    assert!(matches!(
        EncodedFrame::verified(metadata.duplicate(), payload.clone(), &OrderedMap::new()),
        Err(StoreError::Corrupt(_))
    ));
    let mut dictionaries = OrderedMap::new();
    dictionaries.insert(dictionary, DecodingDictionary::new(raw.clone()).unwrap());
    let (_, verified) =
        EncodedFrame::verified(metadata.duplicate(), payload.clone(), &dictionaries).unwrap();
    assert_eq!(verified.bytes(), raw);

    let mut damaged = payload.clone();
    damaged[0] ^= 1;
    assert!(matches!(
        EncodedFrame::authenticated(metadata.duplicate(), damaged),
        Err(StoreError::Corrupt(_))
    ));
    assert!(matches!(
        EncodedFrame::authenticated(metadata, payload[..payload.len() - 1].to_vec()),
        Err(StoreError::Corrupt(_))
    ));
}
