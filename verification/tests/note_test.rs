use notepad_pro_core::types::note::{snippet_of, CustomColour};

#[test]
fn snippet_takes_first_non_empty_line() {
    let content = "\n\n   \nMeeting notes\nsecond line";
    assert_eq!(snippet_of(content), "Meeting notes");
}

#[test]
fn snippet_is_clamped_to_120_chars() {
    let content = "x".repeat(400);
    let snippet = snippet_of(&content);
    assert_eq!(snippet.chars().count(), 120);
    assert!(snippet.ends_with("..."));
}

#[test]
fn snippet_of_empty_content_is_empty() {
    assert_eq!(snippet_of(""), "");
    assert_eq!(snippet_of("\n\n"), "");
}

#[test]
fn custom_colour_packs_hex_into_rgba() {
    let c = CustomColour::new("Sunset", "#ff8800");
    assert_eq!(c.rgba, 0xff88_00ff);
    assert_eq!(c.hex, "#ff8800");
}

#[test]
fn snippet_trims_and_keeps_exactly_120_characters() {
    let line = format!("  {}  \nnext", "y".repeat(120));
    assert_eq!(snippet_of(&line), "y".repeat(120));
    let crlf = "\r\n  title line \r\nbody";
    assert_eq!(snippet_of(crlf), "title line");
}

#[test]
fn an_unreadable_hex_gives_opaque_black() {
    let c = CustomColour::new("Bad", "#nothex");
    assert_eq!(c.rgba, 0x0000_00ff);
    assert_eq!(c.name, "Bad");
}
