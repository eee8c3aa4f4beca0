use zsqlite::domain::{
    BackendId, ManifestId, SegmentCoverage, TransactionId, TransactionSpan, ViewHash,
};
use zsqlite::index::Index;
use zsqlite::memory::MemoryBackend;
use zsqlite::order::OrderedSet;
use zsqlite::retention::pin;
use zsqlite::segment::{parse_filename, read_bytes, resolve_parent, Header, Parent, ParentRef};
use zsqlite::state::State;
use zsqlite::text::hex;

#[test]
fn names_and_headers_are_validated() {
    let first = TransactionId::new(3).unwrap();
    let last = TransactionId::new(27).unwrap();
    assert!(TransactionSpan::new(last, first).is_err());
    let id = ManifestId::from_bytes([7; 32]);
    let span = TransactionSpan::new(first, last).unwrap();
    let header = Header::new(
        SegmentCoverage::new(span, first.next().unwrap()).unwrap(),
        ViewHash::from_bytes([11; 32]),
        Parent::Previous(ParentRef { hash: ViewHash::from_bytes([7; 32]), txid: first }),
    )
    .unwrap();
    assert!(Header::new(header.coverage, header.logical_hash, Parent::Checkpoint).is_err());
    for parent_txid in
        [TransactionId::new(2).unwrap(), TransactionId::new(4).unwrap(), last.next().unwrap()]
    {
        assert!(
            Header::new(
                header.coverage,
                header.logical_hash,
                Parent::Previous(ParentRef { hash: header.logical_hash, txid: parent_txid }),
            )
            .is_err()
        );
    }
    assert_eq!(parse_filename(&header.filename(id)).unwrap(), id);
    let decoded = Header::decode(&header.encode()).unwrap();
    assert_eq!(decoded.parent, header.parent);
    assert_eq!(decoded.coverage, header.coverage);
    assert!(!header.filename(id).starts_with('L'));
    assert_eq!(&header.encode()[..8], b"ZSEG0001");
    assert_eq!(header.encode()[8], 0);
    for offset in [0, 8, 9, 10, 112, 127] {
        let mut bytes = header.encode();
        bytes[offset] = 255;
        assert!(Header::decode(&bytes).is_err(), "offset {offset}");
    }
    for invalid in [
        "L00-0000000000000003-000000000000001b",
        "L63-0000000000000003-000000000000001b",
        "000000000000001b-0000000000000003",
        "3-27",
    ] {
        let name = format!("{invalid}-{}-{}.segment", hex(&header.logical_hash), hex(&id));
        assert!(parse_filename(&name).is_err());
    }
}

#[test]
fn lookup_uses_coverage_not_rewrite_recency() {
    let hash = ViewHash::from_bytes([11; 32]);
    let end = TransactionId::new(20).unwrap();
    let mut endpoints = Index::empty();
    let mut add = |endpoints: &mut Index, begin: u64, last: TransactionId, hash: ViewHash, physical: u8| {
        let span = TransactionSpan::new(TransactionId::new(begin).unwrap(), last).unwrap();
        let header = Header::new(
            SegmentCoverage::new(span, span.begin()).unwrap(),
            hash,
            Parent::Checkpoint,
        )
        .unwrap();
        let id = ManifestId::from_bytes([physical; 32]);
        endpoints.insert(id.as_bytes().to_vec(), header.encode());
        id
    };
    let old = add(&mut endpoints, 10, end, hash, 1);
    // A newer file with equal coverage earns no preference.
    let _newer = add(&mut endpoints, 10, end, hash, 2);
    let parent = ParentRef { hash, txid: end };
    let mut seen = OrderedSet::new();
    assert_eq!(resolve_parent(endpoints.entries(), parent, &seen).unwrap(), old);
    let wide = add(&mut endpoints, 5, end, hash, 3);
    assert_eq!(resolve_parent(endpoints.entries(), parent, &seen).unwrap(), wide);
    let _wrong_hash = add(&mut endpoints, 1, end, ViewHash::from_bytes([12; 32]), 4);
    let _wrong_end = add(&mut endpoints, 1, end.next().unwrap(), hash, 5);
    assert_eq!(resolve_parent(endpoints.entries(), parent, &seen).unwrap(), wide);
    seen.insert(wide);
    assert_eq!(resolve_parent(endpoints.entries(), parent, &seen).unwrap(), old);
    // Discovery hints cannot establish validity: these lack a manifest and must
    // never yield validated dependencies.
    let mut backend = MemoryBackend::with_identity(BackendId::from_bytes([1; 32]));
    let mut state = State::load_for(&mut backend, b"main").unwrap();
    state.endpoints = endpoints;
    assert!(pin(&mut backend, &state, old).is_err());
    // Nor does the hint alone make a container.
    let hint = state.endpoints.entries().get(&old.as_bytes().to_vec()).unwrap();
    assert!(read_bytes(hint).is_err());
}
