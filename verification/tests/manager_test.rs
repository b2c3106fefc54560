use std::path::Path;

use notepad_pro_core::files::line_endings::LineEnding;
use notepad_pro_core::files::manager::{
    file_name, load_refusal, loaded_from_bytes, temp_sibling, temp_sibling_at, with_extension,
    MAX_FILE_BYTES,
};

#[test]
fn file_name_extracts_the_last_component() {
    assert_eq!(file_name("/tmp/a/b/notes.txt"), "notes.txt");
    assert_eq!(file_name("notes.txt"), "notes.txt");
}

#[test]
fn with_extension_only_adds_when_missing() {
    let added = with_extension("/tmp/notes", "npro");
    assert_eq!(Path::new(&added).file_name().unwrap(), "notes.npro");
    let kept = with_extension("/tmp/notes.txt", "npro");
    assert_eq!(Path::new(&kept).file_name().unwrap(), "notes.txt");
}

#[test]
fn temp_sibling_is_hidden_and_unique() {
    let a = temp_sibling("/tmp/notes.txt");
    let b = temp_sibling("/tmp/notes.txt");
    let a_path = Path::new(&a);
    assert!(a_path.file_name().unwrap().to_string_lossy().starts_with('.'));
    assert!(a.ends_with(".tmp"));
    assert_eq!(a_path.parent(), Some(Path::new("/tmp")), "the temp file must sit next to the original");
    assert_ne!(a, b, "consecutive temps must not collide");
}

#[test]
fn temp_sibling_handles_a_bare_file_name() {
    let t = temp_sibling("notes.txt");
    assert!(t.ends_with(".tmp"));
    assert!(Path::new(&t).parent().unwrap().as_os_str().is_empty());
}

#[test]
fn temp_names_carry_the_clock_in_hex() {
    assert_eq!(temp_sibling_at("/tmp/notes.txt", 255), "/tmp/.notes.txt.ff.tmp");
    assert_eq!(temp_sibling_at("notes.txt", 0), ".notes.txt.0.tmp");
    assert_eq!(temp_sibling_at("/", 16), ".file.10.tmp");
}

#[test]
fn oversized_files_and_directories_are_refused() {
    assert_eq!(load_refusal("/tmp/d", true, 0).as_deref(), Some("/tmp/d is a directory"));
    assert_eq!(
        load_refusal("/tmp/big.txt", false, MAX_FILE_BYTES + 1).as_deref(),
        Some("/tmp/big.txt is 16 MiB, above the 16 MiB limit")
    );
    assert_eq!(
        load_refusal("/tmp/huge.txt", false, 40 * 1024 * 1024).as_deref(),
        Some("/tmp/huge.txt is 40 MiB, above the 16 MiB limit")
    );
    assert!(load_refusal("/tmp/ok.txt", false, MAX_FILE_BYTES).is_none());
}

#[test]
fn loaded_bytes_are_decoded_and_normalised_to_lf() {
    let f = loaded_from_bytes("/tmp/a.txt", b"\xEF\xBB\xBFone\r\ntwo\r\n");
    assert_eq!(f.content, "one\ntwo\n");
    assert_eq!(f.line_ending, LineEnding::Crlf);
    assert_eq!(f.encoding, "utf-8");
    assert!(f.had_bom);
    assert_eq!(f.byte_size, 13);
    assert_eq!(f.path, "/tmp/a.txt");
}

#[test]
fn loading_an_empty_buffer_yields_empty_text() {
    let f = loaded_from_bytes("e.txt", b"");
    assert_eq!(f.content, "");
    assert_eq!(f.line_ending, LineEnding::Lf);
    assert!(!f.had_bom);
}
