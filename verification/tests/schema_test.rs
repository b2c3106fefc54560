use notepad_pro_core::db::schema::{INIT_SQL, INIT_SQL_WITHOUT_FTS, META_SQL, SCHEMA_VERSION};

#[test]
fn ddl_creates_every_required_column() {
    for column in [
        "id",
        "title",
        "content",
        "html",
        "highlights_json",
        "list_structure_json",
        "file_path",
        "pinned",
        "created_at",
        "modified_at",
    ] {
        assert!(INIT_SQL.contains(column), "missing column {column}");
        assert!(INIT_SQL_WITHOUT_FTS.contains(column), "missing column {column}");
    }
}

#[test]
fn both_ddl_variants_create_the_indexes() {
    for ddl in [INIT_SQL, INIT_SQL_WITHOUT_FTS] {
        assert!(ddl.contains("idx_modified"));
        assert!(ddl.contains("idx_pinned"));
    }
}

#[test]
fn ddl_is_idempotent() {
    assert!(INIT_SQL.contains("IF NOT EXISTS"));
    assert!(META_SQL.contains("IF NOT EXISTS"));
    assert_eq!(SCHEMA_VERSION, 1);
}
