use notepad_pro_core::highlight::palette::Palette;
use notepad_pro_core::editor::line_model::Document;
use notepad_pro_core::highlight::stats::{breakdown, colour_counts, colour_entries, compute};
use notepad_pro_core::types::line::{EditorLine, LineColour};
use notepad_pro_core::types::note::CustomColour;

fn line(colour: LineColour) -> EditorLine {
    EditorLine {
        text: "x".into(),
        colour,
        ..Default::default()
    }
}

#[test]
fn counts_each_colour_separately() {
    let lines = vec![
        line(LineColour::Yellow),
        line(LineColour::NoColour),
        line(LineColour::Yellow),
        line(LineColour::Green),
    ];
    let b = breakdown(&lines, &Palette::default());
    assert_eq!(b.total_lines, 4);
    assert_eq!(b.highlighted_lines, 3);
    assert_eq!(b.counts.len(), 2);
    assert_eq!(b.counts[0].colour, LineColour::Yellow);
    assert_eq!(b.counts[0].count, 2);
    assert_eq!(b.counts[1].colour, LineColour::Green);
    assert_eq!(b.counts[1].count, 1);
}

#[test]
fn counts_appear_in_first_appearance_order() {
    let lines = vec![line(LineColour::Pink), line(LineColour::Yellow), line(LineColour::Pink)];
    let b = breakdown(&lines, &Palette::default());
    assert_eq!(b.counts[0].colour, LineColour::Pink);
    assert_eq!(b.counts[1].colour, LineColour::Yellow);
}

#[test]
fn an_unhighlighted_document_is_empty() {
    let b = breakdown(&[line(LineColour::NoColour)], &Palette::default());
    assert!(b.is_empty());
    assert_eq!(b.total_lines, 1);
    assert_eq!(b.summary(), "");
}

#[test]
fn summary_is_human_readable() {
    let lines = vec![line(LineColour::Yellow), line(LineColour::Yellow), line(LineColour::Green)];
    let b = breakdown(&lines, &Palette::default());
    assert_eq!(b.summary(), "Yellow 2 \u{00b7} Green 1");
}

#[test]
fn api_struct_carries_the_same_numbers() {
    let lines = vec![line(LineColour::Yellow), line(LineColour::NoColour)];
    let api = compute(&lines, &Palette::default());
    assert_eq!(api.total_lines, 2);
    assert_eq!(api.highlighted, 1);
    assert_eq!(api.summary, "Yellow 1");
}

#[test]
fn custom_colours_are_named_by_hex() {
    let palette = Palette::new(vec![CustomColour::new("Sunset", "#ff8800")]);
    let b = breakdown(&[line(LineColour::Custom(0xff88_00ff))], &palette);
    assert_eq!(b.counts[0].name, "#ff8800");
    assert_eq!(b.counts[0].rgba, 0xff88_00ff);
}

#[test]
fn colour_counts_pairs_colours_with_totals() {
    let lines = vec![line(LineColour::Blue), line(LineColour::Blue)];
    let counts = colour_counts(&lines, &Palette::default());
    assert_eq!(counts, vec![(LineColour::Blue, 2)]);
}

#[test]
fn an_empty_document_reports_zero_lines() {
    let b = breakdown(&[], &Palette::default());
    assert_eq!(b.total_lines, 0);
    assert_eq!(b.highlighted_lines, 0);
    assert!(b.is_empty());
}

#[test]
fn the_tallies_add_up_to_the_highlighted_lines() {
    let lines = vec![
        line(LineColour::Pink),
        line(LineColour::NoColour),
        line(LineColour::Custom(0x0102_03ff)),
        line(LineColour::Pink),
        line(LineColour::Orange),
    ];
    let b = breakdown(&lines, &Palette::default());
    let sum: usize = b.counts.iter().map(|c| c.count).sum();
    assert_eq!(sum, b.highlighted_lines);
    assert_eq!(b.summary(), "Pink 2 \u{00b7} #010203 1 \u{00b7} Orange 1");
}

#[test]
fn colour_entries_mark_the_active_key_and_count_lines() {
    let doc = Document::from_lines(vec![
        EditorLine {
            colour: LineColour::Yellow,
            ..Default::default()
        },
        EditorLine {
            colour: LineColour::Yellow,
            ..Default::default()
        },
        EditorLine::default(),
    ]);
    let model = colour_entries(&Palette::default(), &doc.lines, &["yellow".to_string()]);
    assert_eq!(model.len(), 6);
    let yellow = &model[0];
    assert_eq!(yellow.key.as_str(), "yellow");
    assert!(yellow.active);
    assert_eq!(yellow.line_count, 2);
    assert_eq!(yellow.count_label.as_str(), "2 lines");
    assert!(!model[1].active);
}

#[test]
fn singular_count_label_reads_well() {
    let doc = Document::from_lines(vec![EditorLine {
        colour: LineColour::Pink,
        ..Default::default()
    }]);
    let model = colour_entries(&Palette::default(), &doc.lines, &[]);
    let pink = &model[2];
    assert_eq!(pink.key.as_str(), "pink");
    assert_eq!(pink.count_label.as_str(), "1 line");
}
