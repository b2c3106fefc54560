use notepad_pro_core::types::line::{EditorLine, LineColour, ListType, MAX_INDENT};

#[test]
fn default_line_is_plain_and_unhighlighted() {
    let line = EditorLine::default();
    assert_eq!(line.text, "");
    assert_eq!(line.colour, LineColour::NoColour);
    assert_eq!(line.list_type, ListType::NoList);
    assert_eq!(line.indent, 0);
    assert!(!line.checked);
    assert!(!line.colour.is_highlighted());
}

#[test]
fn colour_key_roundtrips_for_every_builtin() {
    for colour in [
        LineColour::NoColour,
        LineColour::Yellow,
        LineColour::Green,
        LineColour::Pink,
        LineColour::Blue,
        LineColour::Orange,
        LineColour::Purple,
    ] {
        assert_eq!(LineColour::from_key(&colour.key()), colour);
    }
}

#[test]
fn custom_colour_key_roundtrips_through_hex() {
    let colour = LineColour::Custom(0x1234_56ff);
    assert_eq!(colour.key(), "#123456");
    assert_eq!(LineColour::from_key(&colour.key()), colour);
}

#[test]
fn unknown_key_maps_to_none() {
    assert_eq!(LineColour::from_key("chartreuse"), LineColour::NoColour);
    assert_eq!(LineColour::from_key(""), LineColour::NoColour);
}

#[test]
fn every_builtin_has_an_opaque_swatch() {
    for colour in [
        LineColour::Yellow,
        LineColour::Green,
        LineColour::Pink,
        LineColour::Blue,
        LineColour::Orange,
        LineColour::Purple,
    ] {
        assert_eq!(colour.builtin_rgba() & 0xff, 0xff, "{:?}", colour);
    }
}

#[test]
fn normalise_clamps_indent_and_clears_orphan_flags() {
    let mut line = EditorLine {
        indent: 200,
        list_type: ListType::NoList,
        checked: true,
        ..Default::default()
    };
    line.normalise();
    assert_eq!(line.indent, 0, "indent resets when the marker is removed");
    assert!(!line.checked);
}

#[test]
fn counts_are_measured_in_chars_not_bytes() {
    let line = EditorLine::new("café résumé");
    assert_eq!(line.char_len(), 11);
    assert_eq!(line.word_count(), 2);
    assert!(line.text.len() > line.char_len());
}

#[test]
fn normalise_keeps_a_list_depth_within_the_maximum() {
    let mut line = EditorLine {
        indent: 9,
        list_type: ListType::Bullet,
        checked: true,
        ..Default::default()
    };
    line.normalise();
    assert_eq!(line.indent, MAX_INDENT);
    assert!(!line.checked, "only checkbox lines keep a tick");
}

#[test]
fn display_names_and_list_keys() {
    assert_eq!(LineColour::Purple.display_name(), "Purple");
    assert_eq!(LineColour::NoColour.display_name(), "None");
    assert_eq!(LineColour::Custom(0xff88_00ff).display_name(), "#ff8800");
    assert_eq!(ListType::Check.key(), "check");
    assert_eq!(ListType::from_key("bullet"), ListType::Bullet);
    assert_eq!(ListType::from_key("weird"), ListType::NoList);
    for t in [ListType::NoList, ListType::Bullet, ListType::Number, ListType::Check] {
        assert_eq!(ListType::from_key(t.key()), t);
    }
}

#[test]
fn a_translucent_custom_key_comes_back_opaque() {
    // The key carries no alpha, so reading it back restores a full alpha byte.
    let colour = LineColour::Custom(0x1234_5600);
    assert_eq!(LineColour::from_key(&colour.key()), LineColour::Custom(0x1234_56ff));
}
