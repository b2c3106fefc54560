use notepad_pro_core::types::api::{format_tab_id, LoadedFileData, WindowGeometry};

#[test]
fn loaded_file_failure_carries_the_message() {
    let f = LoadedFileData::failed("/tmp/x", "boom");
    assert!(!f.ok);
    assert_eq!(f.error, "boom");
    assert_eq!(f.path, "/tmp/x");
    assert_eq!(f.content, "");
}

#[test]
fn tab_ids_are_prefixed_hex() {
    assert_eq!(format_tab_id(0x1f, 0), "tab-1f-0");
    assert!(format_tab_id(123_456_789, 7).starts_with("tab-"));
    assert_ne!(format_tab_id(5, 1), format_tab_id(5, 2));
}

#[test]
fn default_geometry_is_1200_by_800() {
    let g = WindowGeometry::default();
    assert_eq!((g.width, g.height), (1200, 800));
}
