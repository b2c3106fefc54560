use notepad_pro_core::files::line_endings::LineEnding;

#[test]
fn detects_each_style() {
    assert_eq!(LineEnding::detect("a\r\nb\r\nc"), LineEnding::Crlf);
    assert_eq!(LineEnding::detect("a\nb\nc"), LineEnding::Lf);
    assert_eq!(LineEnding::detect("a\rb\rc"), LineEnding::Cr);
}

#[test]
fn single_line_text_defaults_to_lf() {
    assert_eq!(LineEnding::detect("no breaks here"), LineEnding::Lf);
    assert_eq!(LineEnding::detect(""), LineEnding::Lf);
}

#[test]
fn mixed_endings_pick_the_majority() {
    assert_eq!(LineEnding::detect("a\r\nb\r\nc\nd"), LineEnding::Crlf);
    assert_eq!(LineEnding::detect("a\nb\nc\r\nd"), LineEnding::Lf);
    assert_eq!(LineEnding::detect("a\rb\rc\nd"), LineEnding::Cr);
}

#[test]
fn crlf_is_not_double_counted_as_cr_and_lf() {
    assert_eq!(LineEnding::detect("a\r\nb"), LineEnding::Crlf);
}

#[test]
fn apply_normalises_to_the_target_style() {
    let mixed = "a\r\nb\nc\rd";
    assert_eq!(LineEnding::Lf.apply(mixed), "a\nb\nc\nd");
    assert_eq!(LineEnding::Crlf.apply(mixed), "a\r\nb\r\nc\r\nd");
    assert_eq!(LineEnding::Cr.apply(mixed), "a\rb\rc\rd");
}

#[test]
fn apply_is_idempotent() {
    let text = "a\r\nb\r\nc";
    assert_eq!(LineEnding::Crlf.apply(text), text);
    assert_eq!(LineEnding::Crlf.apply(&LineEnding::Crlf.apply(text)), text);
}

#[test]
fn labels_roundtrip() {
    for ending in [LineEnding::Lf, LineEnding::Crlf, LineEnding::Cr] {
        assert_eq!(LineEnding::from_label(ending.label()), ending);
    }
    assert_eq!(LineEnding::from_label("crlf"), LineEnding::Crlf);
    assert_eq!(LineEnding::from_label("nonsense"), LineEnding::Lf);
}

#[test]
fn sequences_match_the_labels() {
    assert_eq!(LineEnding::Lf.sequence(), "\n");
    assert_eq!(LineEnding::Crlf.sequence(), "\r\n");
    assert_eq!(LineEnding::Cr.sequence(), "\r");
}

#[test]
fn converting_between_styles_keeps_every_break() {
    let mixed = "a\r\r\nb\n\rc";
    for first in [LineEnding::Lf, LineEnding::Crlf, LineEnding::Cr] {
        for second in [LineEnding::Lf, LineEnding::Crlf, LineEnding::Cr] {
            assert_eq!(second.apply(&first.apply(mixed)), second.apply(mixed));
        }
    }
    assert_eq!(LineEnding::Lf.apply(mixed), "a\n\nb\n\nc");
}

#[test]
fn ties_go_to_crlf_then_lf() {
    assert_eq!(LineEnding::detect("a\r\nb\nc"), LineEnding::Crlf);
    assert_eq!(LineEnding::detect("a\nb\rc"), LineEnding::Lf);
    assert_eq!(LineEnding::default(), LineEnding::Lf);
}

#[test]
fn converted_text_is_detected_as_its_new_style() {
    let t = "a\r\nb\nc\rd";
    for e in [LineEnding::Lf, LineEnding::Crlf, LineEnding::Cr] {
        assert_eq!(LineEnding::detect(&e.apply(t)), e);
    }
}
