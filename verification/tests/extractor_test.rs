use notepad_pro_core::highlight::extractor::{
    colours_present, document_order, extract, extract_text, grouped, ExtractionOrder,
};
use notepad_pro_core::types::line::{EditorLine, LineColour};

fn line(text: &str, colour: LineColour) -> EditorLine {
    EditorLine {
        text: text.into(),
        colour,
        ..Default::default()
    }
}

fn sample() -> Vec<EditorLine> {
    vec![
        line("Yellow line 1", LineColour::Yellow),
        line("plain line", LineColour::NoColour),
        line("Pink line 3", LineColour::Pink),
        line("Yellow line 4", LineColour::Yellow),
    ]
}

#[test]
fn document_order_preserves_the_original_sequence() {
    let result = extract(&sample(), &[LineColour::Pink, LineColour::Yellow], ExtractionOrder::Document);
    assert_eq!(result.text, "Yellow line 1\nPink line 3\nYellow line 4");
}

#[test]
fn document_order_is_not_ordered_by_frequency() {
    let result = extract(&sample(), &[LineColour::Pink, LineColour::Yellow], ExtractionOrder::Document);
    assert!(result.text.starts_with("Yellow line 1"));
    assert!(result.text.contains("Pink line 3"));
}

#[test]
fn unhighlighted_lines_are_never_extracted() {
    let result = extract(&sample(), &[LineColour::NoColour], ExtractionOrder::Document);
    assert_eq!(result.text, "");
    assert_eq!(result.line_count, 0);
}

#[test]
fn counts_are_reported() {
    let result = extract(&sample(), &[LineColour::Yellow], ExtractionOrder::Document);
    assert_eq!(result.line_count, 2);
    assert_eq!(result.char_count, "Yellow line 1\nYellow line 4".chars().count());
    assert_eq!(result.per_colour, vec![(LineColour::Yellow, 2)]);
}

#[test]
fn grouped_output_has_a_heading_per_colour() {
    let result = extract(&sample(), &[LineColour::Yellow, LineColour::Pink], ExtractionOrder::GroupByColour);
    assert_eq!(result.text, "# Yellow\nYellow line 1\nYellow line 4\n\n# Pink\nPink line 3");
}

#[test]
fn grouped_output_follows_the_requested_colour_order() {
    let result = extract(&sample(), &[LineColour::Pink, LineColour::Yellow], ExtractionOrder::GroupByColour);
    assert!(result.text.starts_with("# Pink"));
}

#[test]
fn grouped_output_skips_empty_sections() {
    let result = extract(&sample(), &[LineColour::Green, LineColour::Yellow], ExtractionOrder::GroupByColour);
    assert!(!result.text.contains("# Green"));
    assert!(result.text.contains("# Yellow"));
}

#[test]
fn empty_colour_list_yields_empty_text() {
    let result = extract(&sample(), &[], ExtractionOrder::Document);
    assert_eq!(result.text, "");
    assert_eq!(result.line_count, 0);
    assert_eq!(result.char_count, 0);
}

#[test]
fn extracting_from_an_empty_document_is_safe() {
    let result = extract(&[], &[LineColour::Yellow], ExtractionOrder::Document);
    assert_eq!(result.text, "");
    assert_eq!(result.per_colour, vec![(LineColour::Yellow, 0)]);
}

#[test]
fn custom_colours_can_be_extracted() {
    let lines = vec![
        line("custom", LineColour::Custom(0xff88_00ff)),
        line("yellow", LineColour::Yellow),
    ];
    let result = extract(&lines, &[LineColour::Custom(0xff88_00ff)], ExtractionOrder::Document);
    assert_eq!(result.text, "custom");
}

#[test]
fn blank_highlighted_lines_are_kept() {
    let lines = vec![line("", LineColour::Yellow), line("x", LineColour::Yellow)];
    let result = extract(&lines, &[LineColour::Yellow], ExtractionOrder::Document);
    assert_eq!(result.text, "\nx");
    assert_eq!(result.line_count, 2);
}

#[test]
fn duplicate_colours_in_the_request_do_not_duplicate_output() {
    let result = extract(&sample(), &[LineColour::Yellow, LineColour::Yellow], ExtractionOrder::Document);
    assert_eq!(result.text.matches("Yellow line 1").count(), 1);
}

#[test]
fn extract_text_helper_matches_the_struct_api() {
    let plain = extract_text(&sample(), &[LineColour::Yellow], false);
    let via_struct = extract(&sample(), &[LineColour::Yellow], ExtractionOrder::Document);
    assert_eq!(plain, via_struct.text);
}

#[test]
fn colours_present_is_in_first_appearance_order() {
    assert_eq!(colours_present(&sample()), vec![LineColour::Yellow, LineColour::Pink]);
}

#[test]
fn colours_present_ignores_none() {
    let lines = vec![line("a", LineColour::NoColour)];
    assert!(colours_present(&lines).is_empty());
}

#[test]
fn extraction_order_keys_roundtrip() {
    assert_eq!(ExtractionOrder::from_key(ExtractionOrder::Document.key()), ExtractionOrder::Document);
    assert_eq!(
        ExtractionOrder::from_key(ExtractionOrder::GroupByColour.key()),
        ExtractionOrder::GroupByColour
    );
    assert_eq!(ExtractionOrder::from_key("bogus"), ExtractionOrder::Document);
    assert!(ExtractionOrder::GroupByColour.is_grouped());
    assert!(!ExtractionOrder::Document.is_grouped());
}

#[test]
fn unicode_is_counted_in_chars_not_bytes() {
    let lines = vec![line("café", LineColour::Yellow)];
    let result = extract(&lines, &[LineColour::Yellow], ExtractionOrder::Document);
    assert_eq!(result.char_count, 4);
}

#[test]
fn a_colour_asked_twice_is_counted_once() {
    let result = extract(&sample(), &[LineColour::Yellow, LineColour::NoColour, LineColour::Yellow], ExtractionOrder::Document);
    assert_eq!(result.per_colour, vec![(LineColour::Yellow, 2), (LineColour::Yellow, 0)]);
}

#[test]
fn grouped_output_drops_trailing_whitespace() {
    let lines = vec![line("end  ", LineColour::Blue)];
    assert_eq!(grouped(&lines, &[LineColour::Blue]), "# Blue\nend");
    assert_eq!(document_order(&lines, &[LineColour::Blue]), "end  ");
}

#[test]
fn request_order_does_not_change_document_order() {
    let a = document_order(&sample(), &[LineColour::Pink, LineColour::Yellow]);
    let b = document_order(&sample(), &[LineColour::Yellow, LineColour::Pink, LineColour::Yellow]);
    assert_eq!(a, b);
}

#[test]
fn grouping_spellings_are_all_accepted() {
    for key in ["grouped", "group", "colour", "color"] {
        assert!(ExtractionOrder::from_key(key).is_grouped(), "{key}");
    }
    assert_eq!(ExtractionOrder::default(), ExtractionOrder::Document);
}
