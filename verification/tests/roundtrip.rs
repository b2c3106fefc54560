use notepad_pro_core::editor::list_engine::EnterOutcome;
use notepad_pro_core::editor::{Document, FindEngine, ListEngine};
use notepad_pro_core::highlight::extractor::{extract, ExtractionOrder};
use notepad_pro_core::highlight::palette::Palette;
use notepad_pro_core::highlight::stats::breakdown;
use notepad_pro_core::types::line::{EditorLine, LineColour, ListType};

const DOCUMENT: &str = "\
Sprint review
- ship the highlight feature
- fix the CRLF bug
[] remember to sign the build
1. write the release notes
2. tag v1.0.2
blocked on legal review
done: packaging";

#[test]
fn markdown_shortcuts_then_enter_produces_a_nested_list() {
    let mut doc = Document::from_lines(vec![EditorLine::default()]);

    doc.set_text(0, "- top level");
    assert_eq!(doc.lines[0].list_type, ListType::Bullet);

    let caret = doc.lines[0].char_len();
    match ListEngine::handle_enter(&mut doc.lines, 0, caret) {
        EnterOutcome::MoveTo(i) => assert_eq!(i, 1),
        other => panic!("expected MoveTo, got {other:?}"),
    }
    doc.lines[1].list_type = ListType::Bullet;
    doc.set_text(1, "nested");
    doc.change_indent(1, 1, 1);

    ListEngine::renumber(&mut doc.lines);
    assert_eq!(doc.lines[0].indent, 0);
    assert_eq!(doc.lines[1].indent, 1);
    assert_eq!(ListEngine::marker_text(&doc.lines[0]).as_deref(), Some("•"));
    assert_eq!(ListEngine::marker_text(&doc.lines[1]).as_deref(), Some("◦"));
}

#[test]
fn numbered_lists_renumber_after_an_insert() {
    let mut doc = Document::from_lines(vec![
        EditorLine {
            text: "one".into(),
            list_type: ListType::Number,
            ..Default::default()
        },
        EditorLine {
            text: "two".into(),
            list_type: ListType::Number,
            ..Default::default()
        },
        EditorLine {
            text: "three".into(),
            list_type: ListType::Number,
            ..Default::default()
        },
    ]);
    assert_eq!(doc.lines.iter().map(|l| l.number).collect::<Vec<_>>(), vec![1, 2, 3]);

    doc.mutate(|lines| {
        lines.insert(
            1,
            EditorLine {
                text: "inserted".into(),
                list_type: ListType::Number,
                ..Default::default()
            },
        )
    });
    assert_eq!(doc.lines.iter().map(|l| l.number).collect::<Vec<_>>(), vec![1, 2, 3, 4]);

    doc.mutate(|lines| lines.insert(2, EditorLine::new("a paragraph")));
    assert_eq!(doc.lines.iter().map(|l| l.number).collect::<Vec<_>>(), vec![1, 2, 0, 1, 2]);
}

#[test]
fn find_replace_then_undo_restores_the_document() {
    let mut doc = Document::from_plain_text("the cat sat on the cat mat\nanother cat");

    let mut engine = FindEngine::new();
    engine.set_query("cat");
    engine.set_replacement("dog");
    engine.search(&doc.lines);
    assert_eq!(engine.match_count(), 3);

    let replaced = engine.replace_all(&mut doc.lines);
    assert_eq!(replaced, 3);
    assert_eq!(doc.lines[0].text, "the dog sat on the dog mat");
    assert_eq!(doc.lines[1].text, "another dog");
    doc.mutate(|_| {});

    assert!(doc.undo(), "the replace must be undoable");
    assert_eq!(doc.lines[0].text, "the cat sat on the cat mat");
    assert_eq!(doc.lines[1].text, "another cat");

    assert!(doc.redo(), "and redoable");
    assert_eq!(doc.lines[0].text, "the dog sat on the dog mat");
}

#[test]
fn every_builtin_colour_can_be_applied_extracted_and_cleared() {
    for entry in Palette::builtin_entries() {
        let key = entry.key;
        let colour = LineColour::from_key(&key);
        let mut doc = Document::from_plain_text("one\ntwo\nthree");
        assert!(doc.toggle_highlight(0, 2, colour));

        let result = extract(&doc.lines, &[colour], ExtractionOrder::Document);
        assert_eq!(result.text, "one\ntwo\nthree", "colour {key}");

        assert!(!doc.toggle_highlight(0, 2, colour), "second toggle clears");
        assert_eq!(doc.highlighted_count(), 0, "colour {key}");
    }
}

#[test]
fn documents_are_never_left_with_zero_lines() {
    let mut doc = Document::from_plain_text("only line");
    doc.remove_line(0);
    assert_eq!(doc.line_count(), 1);
    assert_eq!(doc.plain_text(), "");
}

#[test]
fn highlight_extract_pipeline_keeps_document_order() {
    let mut doc = Document::from_plain_text(DOCUMENT);
    let mut yellow = Vec::new();
    let mut pink = Vec::new();
    for (index, line) in doc.lines.iter().enumerate() {
        if line.text.starts_with("- ") {
            yellow.push(index);
        } else if line.text.starts_with("[] ") || line.text.starts_with("1. ") {
            pink.push(index);
        }
    }
    assert!(!yellow.is_empty() && !pink.is_empty());
    for i in &yellow {
        doc.highlight_lines(*i, *i, LineColour::Yellow);
    }
    for i in &pink {
        doc.highlight_lines(*i, *i, LineColour::Pink);
    }
    let b = breakdown(&doc.lines, &Palette::default());
    assert_eq!(b.highlighted_lines, yellow.len() + pink.len());
    assert_eq!(b.counts.len(), 2);
    let result = extract(&doc.lines, &[LineColour::Pink, LineColour::Yellow], ExtractionOrder::Document);
    let first_yellow = doc.lines[yellow[0]].text.clone();
    assert!(result.text.starts_with(&first_yellow));
    assert_eq!(result.line_count, yellow.len() + pink.len());
    let grouped = extract(&doc.lines, &[LineColour::Pink, LineColour::Yellow], ExtractionOrder::GroupByColour);
    assert!(grouped.text.starts_with("# Pink"));
}
