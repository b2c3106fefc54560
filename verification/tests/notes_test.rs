use notepad_pro_core::db::notes::{like_pattern, list_sql, rank_hits, SortOrder};

#[test]
fn sort_order_keys_roundtrip() {
    for order in [SortOrder::Modified, SortOrder::Title, SortOrder::Created] {
        assert_eq!(SortOrder::from_key(order.key()), order);
    }
    assert_eq!(SortOrder::from_key("nonsense"), SortOrder::Modified);
}

#[test]
fn like_patterns_escape_the_wildcards() {
    assert_eq!(like_pattern("50%_off"), "%50\\%\\_off%");
    assert_eq!(like_pattern("plain"), "%plain%");
}

#[test]
fn listing_sql_follows_the_sort_order() {
    assert_eq!(list_sql(false, SortOrder::Created), "SELECT * FROM notes ORDER BY pinned DESC, created_at ASC");
    assert!(list_sql(true, SortOrder::Title).ends_with("ORDER BY pinned DESC, title COLLATE NOCASE ASC"));
    assert!(list_sql(true, SortOrder::Modified).contains("LIKE ?1 ESCAPE '\\'"));
}

#[test]
fn hits_rank_pins_then_exact_then_prefix_matches() {
    let titles: Vec<String> = ["other cat", "Cat", "catalogue", "cat", "Dog cat"]
        .iter()
        .map(|s| s.to_string())
        .collect();
    let pinned = [false, false, false, false, true];
    let order = rank_hits(&titles, &pinned, "CAT");
    assert_eq!(order, vec![4, 1, 3, 2, 0]);
}
