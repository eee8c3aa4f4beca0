use zsqlite::domain::{BlobId, Count, PackId};
use zsqlite::placement::{BlobExtent, PackRange, Placements, Representation};

#[test]
fn placement_ranges_reject_overflow_containment_and_length_mismatch() {
    let blob = BlobId::from_bytes([1; 32]);
    assert!(PackRange::new(Count::new(u64::MAX), Count::new(1)).is_err());
    assert!(PackRange::new(Count::new(0), Count::new(0)).is_err());
    for (offset, length, blob_length, pack_length) in [
        (u64::MAX, 1, u64::MAX, 1),
        (32, 8, 39, 8),
        (32, 8, 40, 7),
        (32, 0, 40, 0),
    ] {
        assert!(
            BlobExtent::new(
                blob,
                Count::new(offset),
                Count::new(length),
                Count::new(blob_length),
                Count::new(pack_length)
            )
            .is_err()
        );
    }
}

#[test]
fn a_placement_is_exactly_its_record() {
    let pack = PackId::from_bytes([3; 32]);
    let extent = BlobExtent::new(
        BlobId::from_bytes([1; 32]),
        Count::new(32),
        Count::new(8),
        Count::new(40),
        Count::new(8),
    )
    .unwrap();
    let placements = Placements {
        pack,
        length: Count::new(8),
        cohort: [4; 32],
        representations: vec![Representation::new(pack, extent)],
    };
    let bytes = placements.encode();
    assert_eq!(Placements::decode(pack, &bytes).unwrap(), placements);
    for end in 0..bytes.len() {
        assert!(Placements::decode(pack, &bytes[..end]).is_err());
    }
    let mut longer = bytes.clone();
    longer.push(0);
    assert!(Placements::decode(pack, &longer).is_err());
    assert!(Placements::decode(PackId::from_bytes([5; 32]), &bytes).is_err());
}
