use crustdb_core::index::manifest::{is_clean, manifest_path, mark_clean, mark_dirty};

#[test]
fn missing_manifest_is_not_clean() {
    assert!(!is_clean(None));
}

#[test]
fn manifest_tracks_dirty_and_clean_state() {
    let dirty = mark_dirty();
    assert!(!is_clean(Some(&dirty)));

    let clean = mark_clean();
    assert!(is_clean(Some(&clean)));
}

#[test]
fn manifest_bytes_and_path() {
    assert_eq!(manifest_path(), "indexes/manifest.crustix");
    assert_eq!(mark_clean(), b"CRUSTIXM\x01\x00".to_vec());
    assert_eq!(mark_dirty(), b"CRUSTIXM\x01\x01".to_vec());
    assert!(!is_clean(Some(b"CRUSTIXM\x02\x00")));
    assert!(!is_clean(Some(b"CRUSTIXM\x01\x00\x00")));
    assert!(!is_clean(Some(b"CRUSTIXN\x01\x00")));
}
