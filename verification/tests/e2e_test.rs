use notepad_pro_core::editor::list_engine::{EnterOutcome, ListEngine};
use notepad_pro_core::files::line_endings::LineEnding;
use notepad_pro_core::highlight::extractor::ExtractionOrder;
use notepad_pro_core::highlight::{extractor, palette::Palette, stats};
use notepad_pro_core::state::{note_count_label, AppState};
use notepad_pro_core::types::line::{EditorLine, LineColour, ListType};

fn app() -> AppState {
    AppState::new(Vec::new())
}

fn line(text: &str, colour: LineColour) -> EditorLine {
    EditorLine {
        text: text.into(),
        colour,
        ..Default::default()
    }
}

#[test]
fn extract_grouped_adds_colour_headings() {
    let lines = vec![line("a", LineColour::Yellow), line("b", LineColour::Green)];
    let out = extractor::grouped(&lines, &[LineColour::Yellow, LineColour::Green]);
    assert!(out.contains('#'), "grouped output should carry headings: {out}");
}

#[test]
fn extract_grouped_skips_empty_sections() {
    let lines = vec![line("a", LineColour::Yellow)];
    let out = extractor::grouped(&lines, &[LineColour::Yellow, LineColour::Green]);
    assert!(!out.contains("Green"), "empty sections must be skipped: {out}");
}

#[test]
fn stats_summary_lists_counts_in_first_appearance_order() {
    let lines = vec![line("a", LineColour::Green), line("b", LineColour::Yellow), line("c", LineColour::Green)];
    let b = stats::breakdown(&lines, &Palette::default());
    let summary = b.summary();
    let green_at = summary.find("Green").unwrap();
    let yellow_at = summary.find("Yellow").unwrap();
    assert!(green_at < yellow_at, "first-appearance order, got: {summary}");
}

#[test]
fn stats_count_highlights() {
    let lines = vec![line("a", LineColour::Yellow), line("b", LineColour::NoColour)];
    let b = stats::breakdown(&lines, &Palette::default());
    assert_eq!(b.highlighted_lines, 1);
    assert_eq!(b.total_lines, 2);
}

#[test]
fn bullet_glyphs_follow_depth() {
    assert_eq!(ListEngine::bullet_glyph(0), "•");
    assert_eq!(ListEngine::bullet_glyph(1), "◦");
    assert_eq!(ListEngine::bullet_glyph(2), "▪");
    assert_eq!(ListEngine::bullet_glyph(3), "‣");
}

#[test]
fn bullet_glyph_clamps_past_max_depth() {
    assert_eq!(ListEngine::bullet_glyph(9), "‣");
}

#[test]
fn renumber_resets_on_non_number_line() {
    let mut lines = vec![
        {
            let mut l = line("one", LineColour::NoColour);
            l.list_type = ListType::Number;
            l
        },
        line("break", LineColour::NoColour),
        {
            let mut l = line("again", LineColour::NoColour);
            l.list_type = ListType::Number;
            l
        },
    ];
    ListEngine::renumber(&mut lines);
    assert_eq!(lines[0].number, 1);
    assert_eq!(lines[2].number, 1, "counter resets after a plain line");
}

#[test]
fn markdown_check_shortcut() {
    let mut l = line("[] ", LineColour::NoColour);
    l.text = "[] todo".into();
    assert!(ListEngine::try_markdown_shortcut(&mut l));
    assert_eq!(l.list_type, ListType::Check);
}

#[test]
fn line_ending_detect_crlf() {
    assert_eq!(LineEnding::detect("a\r\nb"), LineEnding::Crlf);
}

#[test]
fn line_ending_detect_cr() {
    assert_eq!(LineEnding::detect("a\rb"), LineEnding::Cr);
}

#[test]
fn line_ending_apply_crlf() {
    assert_eq!(LineEnding::Crlf.apply("a\nb"), "a\r\nb");
}

#[test]
fn line_ending_labels_roundtrip() {
    for ending in [LineEnding::Lf, LineEnding::Crlf, LineEnding::Cr] {
        assert_eq!(LineEnding::from_label(ending.label()), ending);
    }
}

#[test]
fn utf16le_bom_is_detected() {
    let raw = [0xFF, 0xFE, b'A', 0x00];
    let info = notepad_pro_core::files::encoding::detect_encoding(&raw);
    assert_eq!(info.label, "utf-16le");
    assert!(info.has_bom);
}

// ── Through the editing state ─────────────────────────────────────────────

#[test]
fn starts_with_one_untitled_tab() {
    let s = app();
    assert_eq!(s.tabs.len(), 1);
    assert_eq!(s.active, 0);
}

#[test]
fn new_tab_is_added_and_selected() {
    let mut s = app();
    let idx = s.new_tab();
    assert_eq!(idx, 1);
    assert_eq!(s.active, 1);
    assert_eq!(s.tabs.len(), 2);
}

#[test]
fn select_tab_switches_active() {
    let mut s = app();
    s.new_tab();
    assert!(s.select_tab(0));
    assert_eq!(s.active, 0);
}

#[test]
fn close_tab_never_leaves_zero_tabs() {
    let mut s = app();
    s.close_tab(0);
    assert!(!s.tabs.is_empty());
}

#[test]
fn close_last_dirty_tab_replaces_with_fresh() {
    let mut s = app();
    s.load_text("t.txt", "x", None);
    s.set_line_text(0, "dirty");
    s.close_tab(0);
    assert_eq!(s.tabs.len(), 1);
    assert!(!s.tab().is_dirty());
}

#[test]
fn cycle_tab_wraps_forward() {
    let mut s = app();
    s.new_tab();
    s.cycle_tab(true);
    assert_eq!(s.active, 0);
}

#[test]
fn cycle_tab_wraps_backward() {
    let mut s = app();
    s.new_tab();
    s.select_tab(1);
    s.cycle_tab(false);
    assert_eq!(s.active, 0);
}

#[test]
fn any_dirty_reports_unsaved_tabs() {
    let mut s = app();
    assert!(!s.any_dirty());
    s.load_text("t.txt", "a", None);
    s.set_line_text(0, "changed");
    assert!(s.any_dirty());
}

#[test]
fn load_text_splits_lines() {
    let mut s = app();
    s.load_text("t.txt", "a\nb\nc", None);
    assert_eq!(s.doc().line_count(), 3);
}

#[test]
fn set_line_text_marks_dirty() {
    let mut s = app();
    s.load_text("t.txt", "a", None);
    assert!(s.set_line_text(0, "b"));
    assert!(s.is_dirty());
}

#[test]
fn set_line_text_ignores_out_of_range() {
    let mut s = app();
    s.load_text("t.txt", "a", None);
    assert!(!s.set_line_text(5, "x"));
}

#[test]
fn press_enter_on_plain_line_is_insert_blank() {
    let mut s = app();
    s.load_text("t.txt", "one", None);
    assert_eq!(s.press_enter(), EnterOutcome::InsertBlank);
}

#[test]
fn insert_blank_line_grows_document() {
    let mut s = app();
    s.load_text("t.txt", "a", None);
    s.insert_blank_line();
    assert_eq!(s.doc().line_count(), 2);
}

#[test]
fn set_list_type_bullet() {
    let mut s = app();
    s.load_text("t.txt", "a", None);
    s.set_list_type(ListType::Bullet);
    assert_eq!(s.doc().lines[0].list_type, ListType::Bullet);
}

#[test]
fn set_list_type_number_assigns_counter() {
    let mut s = app();
    s.load_text("t.txt", "a\nb", None);
    s.set_list_type(ListType::Number);
    assert_eq!(s.doc().lines[0].number, 1);
    assert_eq!(s.doc().lines[1].number, 2);
}

#[test]
fn set_list_type_check() {
    let mut s = app();
    s.load_text("t.txt", "a", None);
    s.set_list_type(ListType::Check);
    assert_eq!(s.doc().lines[0].list_type, ListType::Check);
}

#[test]
fn toggle_checked_flips() {
    let mut s = app();
    s.load_text("t.txt", "a", None);
    s.set_list_type(ListType::Check);
    assert!(s.toggle_checked(0));
    assert!(s.doc().lines[0].checked);
}

#[test]
fn indent_clamps_at_max() {
    let mut s = app();
    s.load_text("t.txt", "- a", None);
    for _ in 0..10 {
        s.indent(true);
    }
    assert!(s.doc().lines[0].indent <= 5);
}

#[test]
fn outdent_clamps_at_zero() {
    let mut s = app();
    s.load_text("t.txt", "- a", None);
    s.indent(false);
    assert_eq!(s.doc().lines[0].indent, 0);
}

#[test]
fn markdown_bullet_shortcut() {
    let mut s = app();
    s.load_text("t.txt", "", None);
    s.set_line_text(0, "- ");
    s.set_line_text(0, "- first");
    assert_eq!(s.doc().lines[0].list_type, ListType::Bullet);
}

#[test]
fn undo_reverts_edit() {
    let mut s = app();
    s.load_text("t.txt", "a", None);
    s.set_line_text(0, "b");
    assert!(s.undo());
    assert_eq!(s.doc().lines[0].text, "a");
}

#[test]
fn redo_reapplies_edit() {
    let mut s = app();
    s.load_text("t.txt", "a", None);
    s.set_line_text(0, "b");
    s.undo();
    assert!(s.redo());
    assert_eq!(s.doc().lines[0].text, "b");
}

#[test]
fn undo_on_empty_history_is_false() {
    let mut s = app();
    assert!(!s.undo());
}

#[test]
fn undo_history_is_capped() {
    let mut s = app();
    s.load_text("t.txt", "a", None);
    for i in 0..250 {
        s.set_line_text(0, &format!("v{i}"));
    }
    let mut reverted = 0;
    while s.undo() {
        reverted += 1;
    }
    assert!(reverted <= 200);
}

#[test]
fn toggle_highlight_yellow() {
    let mut s = app();
    s.load_text("t.txt", "a", None);
    assert_eq!(s.toggle_highlight_key("yellow"), Some(true));
    assert_eq!(s.doc().lines[0].colour, LineColour::Yellow);
}

#[test]
fn toggle_highlight_twice_clears() {
    let mut s = app();
    s.load_text("t.txt", "a", None);
    s.toggle_highlight_key("yellow");
    assert_eq!(s.toggle_highlight_key("yellow"), Some(false));
    assert_eq!(s.doc().lines[0].colour, LineColour::NoColour);
}

#[test]
fn toggle_unknown_key_is_none() {
    let mut s = app();
    s.load_text("t.txt", "a", None);
    assert_eq!(s.toggle_highlight_key("nope"), None);
}

#[test]
fn apply_highlight_overwrites() {
    let mut s = app();
    s.load_text("t.txt", "a", None);
    s.apply_highlight_key("green");
    assert_eq!(s.doc().lines[0].colour, LineColour::Green);
}

#[test]
fn clear_highlight_removes_all() {
    let mut s = app();
    s.load_text("t.txt", "a\nb", None);
    s.apply_highlight_key("pink");
    s.clear_highlight();
    assert_eq!(s.doc().lines[0].colour, LineColour::NoColour);
}

#[test]
fn add_custom_colour_valid() {
    let mut s = app();
    s.load_text("t.txt", "a", None);
    assert!(s.add_custom_colour("mint", "#a1e6c1").is_some());
}

#[test]
fn add_custom_colour_invalid_hex() {
    let mut s = app();
    s.load_text("t.txt", "a", None);
    assert!(s.add_custom_colour("bad", "notahex").is_none());
}

#[test]
fn colour_for_key_resolves_builtin() {
    let mut s = app();
    assert_eq!(s.colour_for_key("blue"), Some(LineColour::Blue));
}

#[test]
fn extract_empty_selection_is_empty() {
    let mut s = app();
    s.load_text("t.txt", "a", None);
    s.apply_highlight_key("yellow");
    s.extract_selected.clear();
    assert_eq!(s.extract(ExtractionOrder::Document).text, "");
}

#[test]
fn extract_document_order() {
    let mut s = app();
    s.load_text("t.txt", "a\nb\nc", None);
    s.doc_mut().highlight_lines(0, 0, LineColour::Yellow);
    s.doc_mut().highlight_lines(2, 2, LineColour::Green);
    s.extract_selected = vec!["yellow".into(), "green".into()];
    let r = s.extract(ExtractionOrder::Document);
    assert_eq!(r.line_count, 2);
    assert!(r.text.contains('a'));
}

#[test]
fn extract_counts_lines_and_chars() {
    let mut s = app();
    s.load_text("t.txt", "hello", None);
    s.doc_mut().highlight_lines(0, 0, LineColour::Yellow);
    s.extract_selected = vec!["yellow".into()];
    let r = s.extract(ExtractionOrder::Document);
    assert_eq!(r.line_count, 1);
    assert_eq!(r.char_count, 5);
}

#[test]
fn toggle_extract_colour() {
    let mut s = app();
    s.load_text("t.txt", "a", None);
    s.extract_selected.clear();
    assert!(s.toggle_extract_colour("yellow"));
    assert!(s.extract_selected.contains(&"yellow".to_string()));
}

#[test]
fn find_next_locates_match() {
    let mut s = app();
    s.load_text("t.txt", "foo bar foo", None);
    s.set_find_query("foo");
    assert!(s.find_next().is_some());
}

#[test]
fn find_next_respects_case() {
    let mut s = app();
    s.load_text("t.txt", "Foo", None);
    s.set_find_query("foo");
    s.find.case_sensitive = true;
    s.invalidate_find();
    assert!(s.find_next().is_none());
}

#[test]
fn find_next_respects_word() {
    let mut s = app();
    s.load_text("t.txt", "foobar", None);
    s.set_find_query("foo");
    s.find.whole_word = true;
    s.invalidate_find();
    assert!(s.find_next().is_none());
}

#[test]
fn find_prev_wraps() {
    let mut s = app();
    s.load_text("t.txt", "foo foo", None);
    s.set_find_query("foo");
    assert!(s.find_prev().is_some());
}

#[test]
fn replace_one_replaces_single() {
    let mut s = app();
    s.load_text("t.txt", "foo foo", None);
    s.set_find_query("foo");
    s.set_find_replacement("bar");
    assert!(s.replace_one());
    assert!(s.doc().plain_text().contains("bar"));
}

#[test]
fn replace_all_replaces_every_match() {
    let mut s = app();
    s.load_text("t.txt", "foo foo foo", None);
    s.set_find_query("foo");
    s.set_find_replacement("x");
    let n = s.replace_all();
    assert_eq!(n, 3);
    assert!(!s.doc().plain_text().contains("foo"));
}

#[test]
fn status_counts_words() {
    let mut s = app();
    s.load_text("t.txt", "hello world", None);
    let st = s.compute_status(100);
    assert!(st.word_count >= 2);
    assert!(st.metrics_text.contains('2') || st.word_count == 2);
}

#[test]
fn window_title_shows_dirty_dot() {
    let mut s = app();
    s.load_text("t.txt", "a", None);
    s.set_line_text(0, "dirty");
    assert!(s.window_title().contains('\u{25cf}'));
}

#[test]
fn window_title_clean_has_no_dot() {
    let mut s = app();
    s.load_text("t.txt", "a", None);
    assert!(!s.window_title().contains('\u{25cf}'));
}

#[test]
fn session_roundtrips_tabs() {
    let mut s = app();
    s.load_text("a.txt", "alpha", None);
    s.new_tab();
    s.load_text("b.txt", "beta", None);
    let session = s.build_session();
    let mut t = app();
    t.restore_session(&session);
    assert_eq!(t.tabs.len(), 2);
}

#[test]
fn session_preserves_highlights() {
    let mut s = app();
    s.load_text("a.txt", "alpha", None);
    s.doc_mut().highlight_lines(0, 0, LineColour::Yellow);
    let session = s.build_session();
    let mut t = app();
    t.restore_session(&session);
    assert_eq!(t.doc().lines[0].colour, LineColour::Yellow);
}

#[test]
fn chips_for_returns_up_to_four() {
    let s = app();
    let json = "[{\"line\":0,\"colour\":\"yellow\"},{\"line\":1,\"colour\":\"green\"}]";
    let chips = s.chips_for(json);
    assert!(chips.len() <= 4);
}

#[test]
fn toast_seq_is_monotonic() {
    let mut s = app();
    let a = s.next_toast_seq();
    let b = s.next_toast_seq();
    assert!(b > a);
}

#[test]
fn note_count_label_formats() {
    let label = note_count_label(3, 0);
    assert!(label.contains('3'), "label should mention the shown count: {label}");
}
