use std::path::Path;

use notepad_pro_core::config::settings::{
    add_custom_colour, clamp_autosave_interval, clamp_font_size, clean_recent_files, data_dir,
    data_dir_from, db_path_in, session_path_in, settings_path_in,
    db_path, extract_order_or_default, font_family_or_default, remember_file, session_path,
    settings_path, sidebar_sort_or_default, theme_or_default, to_camel_case,
};
use notepad_pro_core::types::note::CustomColour;

#[test]
fn camel_case_conversion_handles_both_separators() {
    assert_eq!(to_camel_case("sidebar_sort"), "sidebarSort");
    assert_eq!(to_camel_case("sidebar-sort"), "sidebarSort");
    assert_eq!(to_camel_case("theme"), "theme");
    assert_eq!(to_camel_case("autosave_interval_secs"), "autosaveIntervalSecs");
}

#[test]
fn remember_file_deduplicates_and_caps() {
    let mut files: Vec<String> = Vec::new();
    for i in 0..30 {
        remember_file(&mut files, &format!("/tmp/{i}.txt"));
    }
    assert_eq!(files.len(), 20);
    assert_eq!(files[0], "/tmp/29.txt");
    remember_file(&mut files, "/tmp/0.txt");
    assert_eq!(files[0], "/tmp/0.txt");
    assert_eq!(files.len(), 20, "no duplicate added");
    assert_eq!(files.iter().filter(|p| *p == "/tmp/0.txt").count(), 1);
}

#[test]
fn remember_file_ignores_blank_paths() {
    let mut files: Vec<String> = Vec::new();
    remember_file(&mut files, "   ");
    assert!(files.is_empty());
}

#[test]
fn custom_colours_are_deduplicated_by_hex() {
    let mut palette: Vec<CustomColour> = Vec::new();
    add_custom_colour(&mut palette, CustomColour::new("A", "#ff8800"));
    add_custom_colour(&mut palette, CustomColour::new("B", "#ff8800"));
    assert_eq!(palette.len(), 1);
    assert_eq!(palette[0].name, "B");
}

#[test]
fn the_custom_palette_is_capped() {
    let mut palette: Vec<CustomColour> = Vec::new();
    for i in 0..70 {
        add_custom_colour(&mut palette, CustomColour::new("c", &format!("#0000{:02x}", i)));
    }
    assert_eq!(palette.len(), 64);
}

#[test]
fn values_are_kept_in_range() {
    assert_eq!(clamp_font_size(255), 72);
    assert_eq!(clamp_font_size(2), 8);
    assert_eq!(clamp_font_size(14), 14);
    assert_eq!(clamp_autosave_interval(0), 1);
    assert_eq!(clamp_autosave_interval(99_999), 3600);
    assert_eq!(theme_or_default("solarised-ultra"), "light");
    assert_eq!(theme_or_default(""), "light");
    assert_eq!(theme_or_default("clay-dark"), "clay-dark");
    assert_eq!(font_family_or_default("   "), "Consolas");
    assert_eq!(font_family_or_default("Fira Code"), "Fira Code");
    assert_eq!(extract_order_or_default("grouped"), "grouped");
    assert_eq!(extract_order_or_default("chaos"), "document");
    assert_eq!(sidebar_sort_or_default("title"), "title");
    assert_eq!(sidebar_sort_or_default("random"), "modified");
}

#[test]
fn recent_files_drop_blanks_and_are_capped() {
    let mut files: Vec<String> = vec!["a".into(), "  ".into(), "b".into(), "".into()];
    clean_recent_files(&mut files);
    assert_eq!(files, vec!["a".to_string(), "b".to_string()]);
    let mut many: Vec<String> = (0..25).map(|i| format!("f{i}")).collect();
    clean_recent_files(&mut many);
    assert_eq!(many.len(), 20);
    assert_eq!(many[19], "f19");
}

#[test]
fn data_paths_live_under_one_directory() {
    let dir = data_dir();
    assert_eq!(Path::new(&settings_path()).parent().unwrap(), Path::new(&dir));
    assert_eq!(Path::new(&session_path()).parent().unwrap(), Path::new(&dir));
    assert_eq!(Path::new(&db_path()).parent().unwrap(), Path::new(&dir));
    assert_eq!(Path::new(&db_path()).file_name().unwrap(), "notes.db");
    assert!(dir.ends_with("NotePadPro"));
}

#[test]
fn the_data_directory_prefers_data_then_home_then_the_working_directory() {
    let d = data_dir_from(Some("/data".to_string()), Some("/home/u".to_string()));
    assert_eq!(Path::new(&d), Path::new("/data/NotePadPro"));
    let h = data_dir_from(None, Some("/home/u".to_string()));
    assert_eq!(Path::new(&h), Path::new("/home/u/NotePadPro"));
    let w = data_dir_from(None, None);
    assert_eq!(Path::new(&w), Path::new("./NotePadPro"));
}

#[test]
fn the_three_files_live_in_the_directory_given() {
    assert_eq!(Path::new(&settings_path_in("/x")), Path::new("/x/settings.json"));
    assert_eq!(Path::new(&session_path_in("/x")), Path::new("/x/session.json"));
    assert_eq!(Path::new(&db_path_in("/x")), Path::new("/x/notes.db"));
}
