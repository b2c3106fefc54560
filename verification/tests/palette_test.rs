use notepad_pro_core::highlight::palette::{
    apply_highlight_members, apply_highlights_json,
    apply_list_records, apply_list_structure_json, channels, chips_from_highlights_json,
    chips_from_members, dark_twin, hex_from_rgba,
    highlights_json_for, is_known_theme, light_themes, list_structure_json_for, rgba_from_hex,
    themes, Palette,
};
use notepad_pro_core::json::{parse_usize, JsonScalar};
use notepad_pro_core::types::line::{EditorLine, LineColour, ListType, MAX_INDENT};
use notepad_pro_core::types::note::CustomColour;

#[test]
fn there_are_six_builtin_colours() {
    assert_eq!(Palette::builtin_entries().len(), 6);
    assert_eq!(Palette::default().entries().len(), 6);
}

#[test]
fn every_builtin_is_opaque_and_matches_its_hex() {
    for e in Palette::builtin_entries() {
        assert_eq!(e.rgba & 0xff, 0xff, "{} must be opaque", e.key);
        assert_eq!(hex_from_rgba(e.rgba), e.hex);
    }
}

#[test]
fn hex_parsing_accepts_three_six_and_eight_digits() {
    assert_eq!(rgba_from_hex("#fff"), Some(0xffff_ffff));
    assert_eq!(rgba_from_hex("#ff8800"), Some(0xff88_00ff));
    assert_eq!(rgba_from_hex("#ff880080"), Some(0xff88_0080));
    assert_eq!(rgba_from_hex("ff8800"), Some(0xff88_00ff), "bare hex works");
}

#[test]
fn hex_parsing_rejects_garbage() {
    assert_eq!(rgba_from_hex("#zzzzzz"), None);
    assert_eq!(rgba_from_hex("#12345"), None);
    assert_eq!(rgba_from_hex(""), None);
    assert_eq!(rgba_from_hex("#"), None);
}

#[test]
fn hex_roundtrips_through_rgba() {
    for e in Palette::builtin_entries() {
        assert_eq!(rgba_from_hex(&e.hex), Some(e.rgba));
    }
}

#[test]
fn channels_split_a_packed_colour() {
    assert_eq!(channels(0x1122_3344), (0x11, 0x22, 0x33, 0x44));
}

#[test]
fn theme_list_has_seven_entries() {
    assert_eq!(themes().len(), 7);
    for theme in themes() {
        assert!(is_known_theme(theme));
    }
    assert!(!is_known_theme("solarised"));
}

#[test]
fn light_and_dark_twins_are_symmetric() {
    for light in light_themes() {
        let dark = dark_twin(light);
        assert_ne!(light, dark);
        assert!(is_known_theme(dark));
        assert_eq!(dark_twin(dark), light, "{light} <-> {dark} must round-trip");
    }
}

#[test]
fn dark_twin_of_a_dark_theme_is_its_light_partner() {
    assert_eq!(dark_twin("dark"), "light");
    assert_eq!(dark_twin("clay-dark"), "clay-light");
    assert_eq!(dark_twin("neu-dark"), "neu-light");
}

#[test]
fn dark_twin_of_an_unknown_theme_is_dark() {
    assert_eq!(dark_twin("nonsense"), "dark");
}

#[test]
fn glass_dark_returns_to_light() {
    assert_eq!(dark_twin("glass-dark"), "light");
}

#[test]
fn palette_resolves_builtins_by_name() {
    let palette = Palette::default();
    let (name, rgba) = palette.resolve(LineColour::Yellow);
    assert_eq!(name, "Yellow");
    assert_eq!(rgba, 0xffe2_7aff);
}

#[test]
fn palette_resolves_custom_colours_from_the_hex() {
    let palette = Palette::new(vec![CustomColour::new("Sunset", "#ff8800")]);
    let (name, rgba) = palette.resolve(LineColour::Custom(0xff88_00ff));
    assert_eq!(name, "#ff8800");
    assert_eq!(rgba, 0xff88_00ff);
}

#[test]
fn palette_resolves_none_to_zero() {
    let (name, rgba) = Palette::default().resolve(LineColour::NoColour);
    assert_eq!(name, "None");
    assert_eq!(rgba, 0);
}

#[test]
fn palette_entries_are_builtins_then_custom() {
    let palette = Palette::new(vec![CustomColour::new("Sunset", "#ff8800")]);
    let entries = palette.entries();
    assert_eq!(entries.len(), 7);
    assert!(entries[..6].iter().all(|e| e.builtin));
    assert!(!entries[6].builtin);
    assert_eq!(entries[6].key, "#ff8800");
}

#[test]
fn find_maps_keys_back_to_colours() {
    let palette = Palette::new(vec![CustomColour::new("Sunset", "#ff8800")]);
    assert_eq!(palette.find("yellow"), Some(LineColour::Yellow));
    assert_eq!(palette.find("#ff8800"), Some(LineColour::Custom(0xff88_00ff)));
    assert_eq!(palette.find("none"), Some(LineColour::NoColour));
    assert_eq!(palette.find("magenta"), None);
}

#[test]
fn add_custom_deduplicates_by_hex() {
    let mut palette = Palette::default();
    palette.add_custom(CustomColour::new("A", "#123456"));
    palette.add_custom(CustomColour::new("B", "#123456"));
    assert_eq!(palette.custom_colours().len(), 1);
    assert_eq!(palette.custom_colours()[0].name, "B");
}

#[test]
fn selectable_keys_cover_the_whole_palette() {
    let palette = Palette::new(vec![CustomColour::new("Sunset", "#ff8800")]);
    assert_eq!(palette.selectable_keys().len(), 7);
}

#[test]
fn builtin_names_are_capitalised_keys() {
    let names: Vec<String> = Palette::builtin_entries().into_iter().map(|e| e.name).collect();
    assert_eq!(names, vec!["Yellow", "Green", "Pink", "Blue", "Orange", "Purple"]);
    let keys: Vec<String> = Palette::default().selectable_keys();
    assert_eq!(keys, vec!["yellow", "green", "pink", "blue", "orange", "purple"]);
}

#[test]
fn a_colour_written_as_hex_reads_back_with_full_alpha() {
    assert_eq!(hex_from_rgba(0x1234_5678), "#123456");
    assert_eq!(rgba_from_hex(&hex_from_rgba(0x1234_5678)), Some(0x1234_56ff));
    assert_eq!(rgba_from_hex(&hex_from_rgba(0x0000_00ff)), Some(0x0000_00ff));
}

#[test]
fn a_new_swatch_goes_last_and_replaces_its_hex() {
    let mut palette = Palette::new(vec![
        CustomColour::new("A", "#111111"),
        CustomColour::new("B", "#222222"),
    ]);
    palette.add_custom(CustomColour::new("C", "#111111"));
    let names: Vec<&str> = palette.custom_colours().iter().map(|c| c.name.as_str()).collect();
    assert_eq!(names, vec!["B", "C"]);
    let cloned = palette.clone();
    assert_eq!(cloned, palette);
}

#[test]
fn chips_are_distinct_and_capped() {
    let json = r#"{"0":"yellow","1":"yellow","2":"green","3":"pink",
                   "4":"blue","5":"orange","6":"purple"}"#;
    let chips = chips_from_highlights_json(json);
    assert_eq!(chips.len(), 4);
    let unique: std::collections::HashSet<_> = chips.iter().collect();
    assert_eq!(unique.len(), chips.len());
}

#[test]
fn chips_follow_line_order_not_key_order() {
    let json = r#"{"2":"green","0":"yellow","1":"green","10":"blue"}"#;
    let chips = chips_from_highlights_json(json);
    assert_eq!(chips, vec![0xffe2_7aff, 0xa8e6_a1ff, 0xa3d5_ffff]);
}

#[test]
fn chips_ignore_none_and_bad_input() {
    assert!(chips_from_highlights_json("{}").is_empty());
    assert!(chips_from_highlights_json("not json").is_empty());
    assert!(chips_from_highlights_json("[1,2,3]").is_empty());
    assert!(chips_from_highlights_json(r#"{"0":"none"}"#).is_empty());
}

#[test]
fn highlights_json_roundtrips() {
    let mut lines = vec![EditorLine::new("a"), EditorLine::new("b"), EditorLine::new("c")];
    lines[0].colour = LineColour::Yellow;
    lines[2].colour = LineColour::Custom(0xff88_00ff);
    let json = highlights_json_for(&lines);
    assert_eq!(json, r##"{"0":"yellow","2":"#ff8800"}"##);

    let mut target = vec![EditorLine::new("a"), EditorLine::new("b"), EditorLine::new("c")];
    assert_eq!(apply_highlights_json(&mut target, &json), 2);
    assert_eq!(target[0].colour, LineColour::Yellow);
    assert_eq!(target[1].colour, LineColour::NoColour);
    assert_eq!(target[2].colour, LineColour::Custom(0xff88_00ff));
}

#[test]
fn apply_highlights_ignores_out_of_range_indices() {
    let mut lines = vec![EditorLine::new("a")];
    assert_eq!(apply_highlights_json(&mut lines, r#"{"9":"yellow"}"#), 0);
    assert_eq!(lines[0].colour, LineColour::NoColour);
}

#[test]
fn list_structure_json_roundtrips() {
    let mut lines = vec![EditorLine::new("a"), EditorLine::new("b")];
    lines[0].list_type = ListType::Bullet;
    lines[0].indent = 2;
    lines[1].list_type = ListType::Check;
    lines[1].checked = true;
    let json = list_structure_json_for(&lines);

    let mut target = vec![EditorLine::new("a"), EditorLine::new("b")];
    assert_eq!(apply_list_structure_json(&mut target, &json), 2);
    assert_eq!(target[0].list_type, ListType::Bullet);
    assert_eq!(target[0].indent, 2);
    assert_eq!(target[1].list_type, ListType::Check);
    assert!(target[1].checked);
}

#[test]
fn list_structure_rejects_a_checked_flag_on_non_check_items() {
    let mut lines = vec![EditorLine::new("a")];
    apply_list_structure_json(&mut lines, r#"[{"i":0,"t":"bullet","d":1,"c":true}]"#);
    assert!(!lines[0].checked);
}

#[test]
fn list_structure_clamps_the_indent() {
    let mut lines = vec![EditorLine::new("a")];
    apply_list_structure_json(&mut lines, r#"[{"i":0,"t":"bullet","d":99}]"#);
    assert_eq!(lines[0].indent, MAX_INDENT);
}

#[test]
fn malformed_json_is_ignored_rather_than_panic() {
    let mut lines = vec![EditorLine::new("a")];
    assert_eq!(apply_list_structure_json(&mut lines, "nonsense"), 0);
    assert_eq!(apply_highlights_json(&mut lines, "nonsense"), 0);
    assert_eq!(lines[0].list_type, ListType::NoList);
}

#[test]
fn the_list_blob_holds_one_record_per_list_line() {
    let mut lines = vec![EditorLine::new("a"), EditorLine::new("b"), EditorLine::new("c")];
    lines[2].list_type = ListType::Number;
    lines[2].indent = 1;
    assert_eq!(list_structure_json_for(&lines), r#"[{"c":false,"d":1,"i":2,"t":"number"}]"#);
    assert_eq!(list_structure_json_for(&lines[..2]), "[]");
    assert_eq!(highlights_json_for(&lines), "{}");
}

#[test]
fn chips_read_members_in_line_order_and_skip_non_strings() {
    let members = vec![
        ("10".to_string(), JsonScalar::Str("blue".to_string())),
        ("x".to_string(), JsonScalar::Str("pink".to_string())),
        ("2".to_string(), JsonScalar::Str("green".to_string())),
        ("3".to_string(), JsonScalar::Unsigned(7)),
        ("+1".to_string(), JsonScalar::Str("#102030".to_string())),
    ];
    assert_eq!(chips_from_members(&members), vec![0x1020_30ff, 0xa8e6_a1ff, 0xa3d5_ffff, 0xffb3_d1ff]);
}

#[test]
fn a_colour_key_that_is_not_hex_reads_as_no_colour() {
    // Three bytes but two characters: not three hex digits.
    let json = "{\"0\":\"#\\u00e91\"}";
    assert_eq!(chips_from_highlights_json(json), Vec::<u32>::new());
    let mut lines = vec![EditorLine::new("a")];
    assert_eq!(apply_highlights_json(&mut lines, json), 1);
    assert_eq!(lines[0].colour, LineColour::NoColour);
    assert_eq!(apply_highlights_json(&mut lines, r#"{"0":"pink"}"#), 1);
    assert_eq!(lines[0].colour, LineColour::Pink);
}

#[test]
fn hex_accepts_exactly_three_six_or_eight_digits() {
    assert_eq!(rgba_from_hex("#+fffff"), None, "no sign before the digits");
    assert_eq!(rgba_from_hex("+ffffff"), None);
    assert_eq!(rgba_from_hex("#\u{e9}1"), None, "non-ASCII input reads as None");
    assert_eq!(rgba_from_hex("#\u{e9}\u{e9}\u{e9}"), None);
    assert_eq!(rgba_from_hex("#1234567"), None);
    assert_eq!(rgba_from_hex("#ABC"), Some(0xaabb_ccff));
}

#[test]
fn members_and_records_apply_in_order() {
    let mut lines = vec![EditorLine::new("a"), EditorLine::new("b")];
    let members = vec![
        ("1".to_string(), JsonScalar::Str("blue".to_string())),
        ("1".to_string(), JsonScalar::Str("green".to_string())),
        ("0".to_string(), JsonScalar::Bool(true)),
        ("5".to_string(), JsonScalar::Str("pink".to_string())),
    ];
    assert_eq!(apply_highlight_members(&mut lines, &members), 2);
    assert_eq!(lines[1].colour, LineColour::Green);
    assert_eq!(lines[0].colour, LineColour::NoColour);

    let items = vec![
        None,
        Some(vec![
            ("t".to_string(), JsonScalar::Str("check".to_string())),
            ("i".to_string(), JsonScalar::Unsigned(0)),
            ("c".to_string(), JsonScalar::Bool(true)),
        ]),
        Some(vec![("i".to_string(), JsonScalar::Unsigned(1))]),
    ];
    assert_eq!(apply_list_records(&mut lines, &items), 1);
    assert_eq!(lines[0].list_type, ListType::Check);
    assert!(lines[0].checked);
    assert_eq!(lines[1].list_type, ListType::NoList);
}

#[test]
fn line_indices_read_like_usize_from_str() {
    assert_eq!(parse_usize("42"), Some(42));
    assert_eq!(parse_usize("+7"), Some(7));
    assert_eq!(parse_usize("007"), Some(7));
    assert_eq!(parse_usize(""), None);
    assert_eq!(parse_usize("+"), None);
    assert_eq!(parse_usize("-1"), None);
    assert_eq!(parse_usize("1a"), None);
    assert_eq!(parse_usize("18446744073709551616"), None);
    assert_eq!(parse_usize("18446744073709551615"), Some(usize::MAX));
}
