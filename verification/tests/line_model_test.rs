use notepad_pro_core::editor::line_model::Document;
use notepad_pro_core::types::line::{EditorLine, LineColour, ListType, MAX_INDENT};

fn doc(texts: &[&str]) -> Document {
    Document::from_lines(texts.iter().map(|t| EditorLine::new(t)).collect())
}

#[test]
fn new_document_has_one_blank_line() {
    let d = Document::new();
    assert_eq!(d.line_count(), 1);
    assert_eq!(d.plain_text(), "");
    assert!(!d.dirty);
}

#[test]
fn from_plain_text_preserves_every_line_including_trailing_blank() {
    let d = Document::from_plain_text("a\nb\n");
    assert_eq!(d.line_count(), 3);
    assert_eq!(d.lines[0].text, "a");
    assert_eq!(d.lines[2].text, "");
}

#[test]
fn plain_text_roundtrips() {
    let original = "one\ntwo\nthree";
    assert_eq!(Document::from_plain_text(original).plain_text(), original);
}

#[test]
fn from_plain_text_normalises_crlf() {
    let d = Document::from_plain_text("a\r\nb\r\n");
    assert_eq!(d.lines[0].text, "a");
    assert_eq!(d.lines[1].text, "b");
}

#[test]
fn empty_input_yields_one_line_not_zero() {
    assert_eq!(Document::from_plain_text("").line_count(), 1);
    assert_eq!(Document::from_lines(vec![]).line_count(), 1);
}

#[test]
fn metrics_count_words_chars_and_lines() {
    let d = doc(&["hello world", "again", ""]);
    assert_eq!(d.line_count(), 3);
    assert_eq!(d.word_count(), 3);
    assert_eq!(d.char_count(), 11 + 5 + 0);
}

#[test]
fn highlight_applies_to_the_whole_range() {
    let mut d = doc(&["a", "b", "c", "d"]);
    d.highlight_lines(1, 2, LineColour::Yellow);
    let colours: Vec<LineColour> = d.lines.iter().map(|l| l.colour).collect();
    assert_eq!(
        colours,
        vec![
            LineColour::NoColour,
            LineColour::Yellow,
            LineColour::Yellow,
            LineColour::NoColour
        ]
    );
    assert_eq!(d.highlighted_count(), 2);
    assert!(d.dirty);
}

#[test]
fn highlight_range_is_clamped_not_panicked() {
    let mut d = doc(&["a", "b"]);
    d.highlight_lines(0, 99, LineColour::Pink);
    assert_eq!(d.highlighted_count(), 2);
    d.highlight_lines(50, 60, LineColour::Blue);
    assert_eq!(d.lines[1].colour, LineColour::Blue);
}

#[test]
fn remove_highlight_clears_the_range() {
    let mut d = doc(&["a", "b"]);
    d.highlight_lines(0, 1, LineColour::Green);
    d.remove_highlight(0, 1);
    assert_eq!(d.highlighted_count(), 0);
}

#[test]
fn toggle_highlight_applies_then_removes() {
    let mut d = doc(&["a", "b"]);
    assert!(d.toggle_highlight(0, 1, LineColour::Blue));
    assert_eq!(d.highlighted_count(), 2);
    assert!(!d.toggle_highlight(0, 1, LineColour::Blue));
    assert_eq!(d.highlighted_count(), 0);
}

#[test]
fn toggle_highlight_over_a_mixed_range_applies() {
    let mut d = doc(&["a", "b"]);
    d.highlight_lines(0, 0, LineColour::Blue);
    assert!(d.toggle_highlight(0, 1, LineColour::Blue));
    assert_eq!(d.highlighted_count(), 2);
}

#[test]
fn toggle_with_a_different_colour_replaces_it() {
    let mut d = doc(&["a"]);
    d.highlight_lines(0, 0, LineColour::Blue);
    assert!(d.toggle_highlight(0, 0, LineColour::Yellow));
    assert_eq!(d.lines[0].colour, LineColour::Yellow);
}

#[test]
fn set_list_type_marks_the_range() {
    let mut d = doc(&["a", "b", "c"]);
    d.set_list_type(0, 1, ListType::Bullet);
    assert_eq!(d.lines[0].list_type, ListType::Bullet);
    assert_eq!(d.lines[2].list_type, ListType::NoList);
}

#[test]
fn clearing_the_list_type_resets_indent_and_checked() {
    let mut d = doc(&["a"]);
    d.set_list_type(0, 0, ListType::Check);
    d.change_indent(0, 0, 3);
    d.toggle_checked(0);
    assert!(d.lines[0].checked);
    d.set_list_type(0, 0, ListType::NoList);
    assert_eq!(d.lines[0].indent, 0);
    assert!(!d.lines[0].checked);
}

#[test]
fn indent_is_clamped_in_both_directions() {
    let mut d = doc(&["a"]);
    d.set_list_type(0, 0, ListType::Bullet);
    d.change_indent(0, 0, 100);
    assert_eq!(d.lines[0].indent, MAX_INDENT);
    d.change_indent(0, 0, -100);
    assert_eq!(d.lines[0].indent, 0);
}

#[test]
fn toggle_checked_only_works_on_check_lines() {
    let mut d = doc(&["a"]);
    assert_eq!(d.toggle_checked(0), Some(false), "plain line stays unchecked");
    d.set_list_type(0, 0, ListType::Check);
    assert_eq!(d.toggle_checked(0), Some(true));
    assert_eq!(d.toggle_checked(99), None);
}

#[test]
fn set_text_updates_and_dirties_the_document() {
    let mut d = doc(&["a"]);
    assert!(d.set_text(0, "hello"));
    assert_eq!(d.plain_text(), "hello");
    assert!(d.dirty);
    assert!(!d.set_text(0, "hello"), "no-op edit returns false");
    assert!(!d.set_text(99, "x"), "out of range returns false");
}

#[test]
fn typing_a_markdown_prefix_converts_the_line() {
    let mut d = doc(&[""]);
    d.set_text(0, "- task");
    assert_eq!(d.lines[0].list_type, ListType::Bullet);
    assert_eq!(d.lines[0].text, "task");
}

#[test]
fn a_typing_burst_is_one_undo_step() {
    let mut d = doc(&[""]);
    for text in ["h", "he", "hel", "hell", "hello"] {
        d.set_text(0, text);
    }
    assert_eq!(d.undo_depth(), 1);
    assert!(d.undo());
    assert_eq!(d.plain_text(), "");
    assert!(!d.can_undo());
}

#[test]
fn switching_lines_starts_a_new_undo_step() {
    let mut d = doc(&["", ""]);
    d.set_text(0, "a");
    d.set_text(1, "b");
    assert_eq!(d.undo_depth(), 2);
}

#[test]
fn undo_and_redo_restore_highlight_state() {
    let mut d = doc(&["a", "b"]);
    d.toggle_highlight(0, 1, LineColour::Green);
    assert!(d.undo());
    assert_eq!(d.highlighted_count(), 0);
    assert!(d.redo());
    assert_eq!(d.highlighted_count(), 2);
}

#[test]
fn undo_on_a_fresh_document_returns_false() {
    let mut d = doc(&["a"]);
    assert!(!d.undo());
    assert!(!d.redo());
}

#[test]
fn structural_edit_breaks_the_typing_coalescing() {
    let mut d = doc(&["a"]);
    d.set_text(0, "ab");
    d.set_text(0, "abc");
    d.insert_line_after(0);
    d.set_text(0, "abcd");
    assert_eq!(d.undo_depth(), 3);
}

#[test]
fn insert_line_after_returns_the_new_index() {
    let mut d = doc(&["a", "b"]);
    assert_eq!(d.insert_line_after(0), 1);
    assert_eq!(d.line_count(), 3);
    assert_eq!(d.lines[1].text, "");
}

#[test]
fn insert_line_after_clamps_the_index() {
    let mut d = doc(&["a"]);
    assert_eq!(d.insert_line_after(99), 1);
    assert_eq!(d.line_count(), 2);
}

#[test]
fn remove_line_returns_the_removed_line() {
    let mut d = doc(&["a", "b"]);
    let removed = d.remove_line(0).unwrap();
    assert_eq!(removed.text, "a");
    assert_eq!(d.plain_text(), "b");
    assert!(d.remove_line(42).is_none());
}

#[test]
fn removing_the_last_line_leaves_one_blank() {
    let mut d = doc(&["a"]);
    d.remove_line(0);
    assert_eq!(d.line_count(), 1);
    assert_eq!(d.plain_text(), "");
}

#[test]
fn join_with_previous_merges_text() {
    let mut d = doc(&["hello", "world"]);
    assert_eq!(d.join_with_previous(1), Some((0, 5)));
    assert_eq!(d.plain_text(), "helloworld");
    assert!(d.join_with_previous(0).is_none());
}

#[test]
fn replace_in_line_swaps_the_matched_range() {
    let mut d = doc(&["the cat sat"]);
    assert!(d.replace_in_line(0, 4, 7, "dog"));
    assert_eq!(d.plain_text(), "the dog sat");
}

#[test]
fn replace_in_line_clamps_invalid_offsets() {
    let mut d = doc(&["café"]);
    assert!(d.replace_in_line(0, 4, 5, "!"));
    assert!(!d.replace_in_line(9, 0, 1, "x"));
}

#[test]
fn mark_saved_clears_the_dirty_flag() {
    let mut d = doc(&["a"]);
    d.set_text(0, "b");
    assert!(d.dirty);
    d.mark_saved();
    assert!(!d.dirty);
}

#[test]
fn mark_saved_drops_the_undo_history() {
    let mut d = doc(&["a"]);
    d.set_text(0, "b");
    d.commit();
    assert!(d.can_undo());
    d.mark_saved();
    assert!(!d.can_undo());
    assert!(!d.can_redo());
    assert_eq!(d.lines[0].text, "b");
}

#[test]
fn clear_history_resets_the_undo_baseline() {
    let mut d = doc(&["a"]);
    d.set_text(0, "b");
    d.clear_history();
    assert!(!d.can_undo());
}

#[test]
fn commit_records_direct_buffer_edits() {
    let mut d = doc(&["a"]);
    d.lines.push(EditorLine::new("b"));
    d.commit();
    assert!(d.dirty);
    assert!(d.undo_depth() == 1);
    assert!(d.undo());
    assert_eq!(d.line_count(), 1);
}

#[test]
fn commit_guarantees_at_least_one_line() {
    let mut d = doc(&["a"]);
    d.lines.clear();
    d.commit();
    assert_eq!(d.line_count(), 1);
    assert_eq!(d.plain_text(), "");
}

#[test]
fn from_lines_normalises_untrusted_indent() {
    let d = Document::from_lines(vec![EditorLine {
        indent: 99,
        list_type: ListType::Bullet,
        text: "x".into(),
        ..Default::default()
    }]);
    assert_eq!(d.lines[0].indent, MAX_INDENT);
}

#[test]
fn is_empty_ignores_blank_lines() {
    let mut d = doc(&["", "  "]);
    assert!(!d.is_empty());
    d.set_text(1, "");
    assert!(d.is_empty());
}

#[test]
fn an_edit_is_undone_back_to_the_exact_lines() {
    let mut d = doc(&["alpha", "beta"]);
    d.highlight_lines(0, 0, LineColour::Pink);
    d.set_list_type(1, 1, ListType::Number);
    let before: Vec<(String, LineColour, ListType)> =
        d.lines.iter().map(|l| (l.text.clone(), l.colour, l.list_type)).collect();
    d.remove_line(0);
    assert!(d.undo());
    let after: Vec<(String, LineColour, ListType)> =
        d.lines.iter().map(|l| (l.text.clone(), l.colour, l.list_type)).collect();
    assert_eq!(before, after);
}

#[test]
fn writing_out_a_read_text_gives_it_back() {
    for text in ["", "\n", "a\n\nb", "trailing\n", "x y z"] {
        assert_eq!(Document::from_plain_text(text).plain_text(), text);
    }
}
