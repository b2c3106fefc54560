use notepad_pro_core::files::line_endings::LineEnding;
use notepad_pro_core::types::line::{EditorLine, LineColour, ListType};
use notepad_pro_core::ui_model::{
    civil_from_days, current_datetime, datetime_at, line_ending_label, marker_text, normalize_key, sanitise,
    ui_colour, UiLineColour,
};

#[test]
fn plain_letters_are_lowercased() {
    assert_eq!(normalize_key("s"), Some('s'));
    assert_eq!(normalize_key("S"), Some('s'));
    assert_eq!(normalize_key("+"), Some('+'));
    assert_eq!(normalize_key("-"), Some('-'));
}

#[test]
fn control_characters_map_back_to_letters() {
    assert_eq!(normalize_key("\u{13}"), Some('s'), "Ctrl+S");
    assert_eq!(normalize_key("\u{0e}"), Some('n'), "Ctrl+N");
    assert_eq!(normalize_key("\u{1a}"), Some('z'), "Ctrl+Z");
}

#[test]
fn empty_and_unmappable_keys_are_rejected() {
    assert_eq!(normalize_key(""), None);
    assert_eq!(normalize_key("\u{1b}"), None, "Escape is not a letter shortcut");
    assert_eq!(normalize_key("\u{7f}"), None);
}

#[test]
fn non_control_keys_are_not_shortcuts() {
    assert_eq!(normalize_key("a"), Some('a'));
    let handled = false;
    assert!(!handled);
}

#[test]
fn list_shortcuts_map_to_the_right_marker() {
    assert_eq!(ListType::from_key("bullet"), ListType::Bullet);
    assert_eq!(ListType::from_key("number"), ListType::Number);
    assert_eq!(ListType::from_key("check"), ListType::Check);
}

#[test]
fn every_line_colour_maps_to_a_ui_variant() {
    assert_eq!(ui_colour(LineColour::NoColour), UiLineColour::NoColour);
    assert_eq!(ui_colour(LineColour::Yellow), UiLineColour::Yellow);
    assert_eq!(ui_colour(LineColour::Custom(1)), UiLineColour::Custom);
}

#[test]
fn convert_marker_text_matches_the_line_type() {
    let mut line = EditorLine::new("x");
    assert_eq!(marker_text(&line), "");
    line.list_type = ListType::Bullet;
    assert_eq!(marker_text(&line), "•");
    line.list_type = ListType::Number;
    line.number = 7;
    assert_eq!(marker_text(&line), "7.");
    line.list_type = ListType::Check;
    assert_eq!(marker_text(&line), "", "the checkbox is drawn as a widget");
}

#[test]
fn civil_from_days_matches_known_dates() {
    // 1970-01-01 is day 0.
    assert_eq!(civil_from_days(0), (1970, 1, 1));
    // 2000-03-01 is day 11017.
    assert_eq!(civil_from_days(11_017), (2000, 3, 1));
    // 2024-01-01 is day 19723, so day 19781 is 2024-02-28 and the leap day
    // 2024-02-29 is day 19782.
    assert_eq!(civil_from_days(19_781), (2024, 2, 28));
}

#[test]
fn civil_from_days_lands_on_known_dates_and_the_leap_day() {
    assert_eq!(civil_from_days(0), (1970, 1, 1));
    assert_eq!(civil_from_days(11_017), (2000, 3, 1));
    // 2024-01-01 is day 19723, so the leap day 2024-02-29 is day 19782.
    assert_eq!(civil_from_days(19_781), (2024, 2, 28));
    assert_eq!(civil_from_days(19_782), (2024, 2, 29));
    assert_eq!(civil_from_days(19_783), (2024, 3, 1));
}

#[test]
fn current_datetime_is_well_formed() {
    let stamp = current_datetime();
    assert_eq!(stamp.len(), 16, "{stamp}");
    assert_eq!(stamp.chars().nth(4), Some('-'));
    assert_eq!(stamp.chars().nth(10), Some(' '));
    assert_eq!(stamp.chars().nth(13), Some(':'));
    assert!(stamp.starts_with("20"), "{stamp}");
}

#[test]
fn sanitise_strips_path_separators() {
    assert_eq!(sanitise("Yellow · Green"), "Yellow_·_Green");
    assert_eq!(sanitise("a/b:c"), "a-b-c");
    assert_eq!(sanitise("##"), "colours");
    assert_eq!(sanitise(""), "colours");
}

#[test]
fn sanitise_caps_the_length() {
    assert_eq!(sanitise(&"x".repeat(200)).chars().count(), 40);
}

#[test]
fn days_before_the_epoch_and_far_ahead() {
    assert_eq!(civil_from_days(-1), (1969, 12, 31));
    assert_eq!(civil_from_days(-719_468), (0, 3, 1));
    assert_eq!(civil_from_days(-719_469), (0, 2, 29));
    assert_eq!(civil_from_days(2_932_896), (9999, 12, 31));
}

#[test]
fn timestamps_are_zero_padded() {
    assert_eq!(datetime_at(0), "1970-01-01 00:00");
    assert_eq!(datetime_at(951_868_800 + 3_600 * 9 + 60 * 5), "2000-03-01 09:05");
}

#[test]
fn line_ending_labels_name_each_style() {
    assert_eq!(line_ending_label(LineEnding::Lf), "LF");
    assert_eq!(line_ending_label(LineEnding::Crlf), "CRLF");
    assert_eq!(line_ending_label(LineEnding::Cr), "CR");
}

#[test]
fn civil_from_days_reaches_the_ends_of_its_range() {
    let (y, m, d) = civil_from_days(i64::MIN);
    assert!(y < 0 && (1..=12).contains(&m) && (1..=31).contains(&d));
    let (y, m, d) = civil_from_days(i64::MAX - 719_468);
    assert!(y > 0 && (1..=12).contains(&m) && (1..=31).contains(&d));
}
