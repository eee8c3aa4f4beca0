use zsqlite::adapter::{BackendError, ObjectKey};
use zsqlite::domain::Id;
use zsqlite::keys::CatalogKey;

#[test]
fn object_names_round_trip() {
    let id = "07".repeat(32);
    for (key, name) in [
        (ObjectKey::Blob(Id { bytes: [7; 32] }), format!("{id}.blob")),
        (ObjectKey::Manifest(Id { bytes: [7; 32] }), format!("{id}.segment")),
        (ObjectKey::Dictionary(Id { bytes: [7; 32] }), format!("{id}.dict")),
        (ObjectKey::Index(Id { bytes: [7; 32] }), format!("{id}.index")),
    ] {
        assert_eq!(key.name(), name);
        assert_eq!(ObjectKey::parse(&name), Ok(key));
    }
    for invalid in ["blob", "07.blob", ".blob", ""] {
        assert_eq!(ObjectKey::parse(invalid), Err(BackendError::InvalidData));
    }
    assert!(ObjectKey::parse(&format!("{id}.pack")).is_err());
    assert!(ObjectKey::parse(&format!("{}.blob", "0G".repeat(32))).is_err());
}

#[test]
fn lease_names_round_trip() {
    let id = "0a".repeat(32);
    for (key, name) in [
        (CatalogKey::Manifest(Id { bytes: [10; 32] }), format!("{id}.view")),
        (CatalogKey::Pack(Id { bytes: [10; 32] }), format!("{id}.pack")),
        (CatalogKey::Dictionary(Id { bytes: [10; 32] }), format!("{id}.dict")),
    ] {
        assert_eq!(key.lease_name().unwrap(), name);
        assert_eq!(CatalogKey::parse_lease(&name).unwrap(), key);
    }
    let staging = CatalogKey::Staging(Id { bytes: [10; 32] });
    assert!(staging.lease_name().is_err());
    assert_eq!(CatalogKey::parse(&format!("{id}.pending")).unwrap(), staging);
    assert!(CatalogKey::parse(&format!("{id}.view")).is_err());
}
