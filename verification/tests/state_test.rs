use notepad_pro_core::api::{Session, TabState};
use notepad_pro_core::config::session::SESSION_VERSION;
use notepad_pro_core::editor::list_engine::EnterOutcome;
use notepad_pro_core::files::line_endings::LineEnding;
use notepad_pro_core::files::manager::LoadedFile;
use notepad_pro_core::highlight::extractor::ExtractionOrder;
use notepad_pro_core::state::{
    blank_session, describe, detect_enter_split, effective_list_type, first_line_or_untitled,
    note_count_label,
    shortcut_for, AppState, Cursor, PendingAction, Shortcut,
};
use notepad_pro_core::types::line::{EditorLine, LineColour, ListType};
use notepad_pro_core::types::note::CustomColour;
use notepad_pro_core::ui_model::current_datetime;

fn state() -> AppState {
    AppState::new(Vec::new())
}

fn state_with(text: &str) -> AppState {
    let mut s = state();
    s.load_text("test.txt", text, None);
    s
}

// ── tabs ──────────────────────────────────────────────────────────────────

#[test]
fn starts_with_one_clean_untitled_tab() {
    let s = state();
    assert_eq!(s.tabs.len(), 1);
    assert_eq!(s.tab().state.name, "Untitled");
    assert!(!s.any_dirty());
}

#[test]
fn new_tab_becomes_active() {
    let mut s = state();
    let index = s.new_tab();
    assert_eq!(index, 1);
    assert_eq!(s.active, 1);
    assert_eq!(s.tabs.len(), 2);
}

#[test]
fn closing_a_tab_moves_the_active_index_back() {
    let mut s = state();
    s.new_tab();
    s.new_tab();
    assert_eq!(s.active, 2);
    s.close_tab(1);
    assert_eq!(s.active, 1);
    assert_eq!(s.tabs.len(), 2);
}

#[test]
fn closing_the_active_last_tab_shifts_left() {
    let mut s = state();
    s.new_tab();
    s.close_tab(1);
    assert_eq!(s.active, 0);
    assert_eq!(s.tabs.len(), 1);
}

#[test]
fn the_last_tab_is_never_removed() {
    let mut s = state();
    s.load_text("a.txt", "content", None);
    s.close_tab(0);
    assert_eq!(s.tabs.len(), 1);
    assert_eq!(s.tab().state.name, "Untitled");
    assert_eq!(s.doc().plain_text(), "");
}

#[test]
fn closing_an_out_of_range_index_is_harmless() {
    let mut s = state();
    s.close_tab(42);
    assert_eq!(s.tabs.len(), 1);
}

#[test]
fn cycle_tab_wraps_both_ways() {
    let mut s = state();
    s.new_tab();
    s.new_tab();
    assert_eq!(s.active, 2);
    s.cycle_tab(true);
    assert_eq!(s.active, 0);
    s.cycle_tab(false);
    assert_eq!(s.active, 2);
}

#[test]
fn select_tab_restores_the_caret() {
    let mut s = state();
    s.load_text("a.txt", "one\ntwo\nthree", None);
    s.cursor = Cursor { line: 2, col: 3 };
    s.stash_cursor();
    s.new_tab();
    assert_eq!(s.cursor.line, 0);
    s.select_tab(0);
    assert_eq!(s.cursor.line, 2);
    assert_eq!(s.cursor.col, 3);
}

#[test]
fn select_tab_rejects_the_same_index() {
    let mut s = state();
    assert!(!s.select_tab(0));
}

#[test]
fn any_dirty_detects_a_modified_tab() {
    let mut s = state();
    assert!(!s.any_dirty());
    s.set_line_text(0, "hello");
    assert!(s.any_dirty());
}

// ── caret & selection ─────────────────────────────────────────────────────

#[test]
fn cursor_is_clamped_into_the_document() {
    let mut s = state_with("a\nb");
    s.cursor = Cursor { line: 99, col: 99 };
    s.clamp_cursor();
    assert_eq!(s.cursor.line, 1);
    assert_eq!(s.cursor.col, 1);
}

#[test]
fn selection_defaults_to_a_single_line() {
    let mut s = state_with("a\nb\nc");
    s.cursor.line = 1;
    assert_eq!(s.selection_range(), (1, 1));
}

#[test]
fn anchor_extends_the_selection_in_both_directions() {
    let mut s = state_with("a\nb\nc\nd");
    s.anchor = Some(3);
    s.cursor.line = 1;
    assert_eq!(s.selection_range(), (1, 3));
    s.anchor = Some(0);
    s.cursor.line = 2;
    assert_eq!(s.selection_range(), (0, 2));
}

#[test]
fn selected_chars_counts_text_plus_newlines() {
    let mut s = state_with("abc\nde\nf");
    s.anchor = Some(0);
    s.cursor.line = 2;
    assert_eq!(s.selected_chars(), 8);
}

#[test]
fn a_plain_caret_selects_nothing() {
    let s = state_with("abc");
    assert_eq!(s.selected_chars(), 0);
}

// ── editing ───────────────────────────────────────────────────────────────

#[test]
fn editing_marks_the_tab_dirty() {
    let mut s = state();
    assert!(s.set_line_text(0, "hello"));
    assert!(s.tab().is_dirty());
    assert!(s.tab().state.dirty);
}

#[test]
fn enter_continues_a_list_and_moves_the_caret() {
    let mut s = state();
    s.set_line_text(0, "- first");
    assert_eq!(s.doc().lines[0].list_type, ListType::Bullet);
    s.cursor.col = s.doc().lines[0].char_len();
    assert_eq!(s.press_enter(), EnterOutcome::MoveTo(1));
    assert_eq!(s.cursor.line, 1);
    assert_eq!(s.doc().line_count(), 2);
}

#[test]
fn indent_and_outdent_apply_to_the_selection() {
    let mut s = state_with("a\nb");
    s.set_list_type(ListType::Bullet);
    s.anchor = Some(0);
    s.cursor.line = 1;
    s.indent(true);
    assert_eq!(s.doc().lines[0].indent, 1);
    assert_eq!(s.doc().lines[1].indent, 1);
    s.indent(false);
    assert_eq!(s.doc().lines[0].indent, 0);
}

#[test]
fn checkbox_toggling_only_works_on_check_lines() {
    let mut s = state_with("task");
    assert!(!s.toggle_checked(0));
    s.set_list_type(ListType::Check);
    assert!(s.toggle_checked(0));
}

#[test]
fn undo_and_redo_move_the_document() {
    let mut s = state_with("a");
    s.toggle_highlight_key("yellow");
    assert_eq!(s.doc().highlighted_count(), 1);
    assert!(s.undo());
    assert_eq!(s.doc().highlighted_count(), 0);
    assert!(s.redo());
    assert_eq!(s.doc().highlighted_count(), 1);
}

#[test]
fn undo_clamps_a_caret_left_outside_the_document() {
    let mut s = state_with("a\nb\nc");
    s.cursor.line = 2;
    s.doc_mut().mutate(|lines| {
        lines.clear();
        lines.push(EditorLine::new("only"));
    });
    s.undo();
    assert!(s.cursor.line < s.doc().line_count());
}

// ── highlighting ──────────────────────────────────────────────────────────

#[test]
fn highlight_toggle_applies_then_removes() {
    let mut s = state_with("a\nb");
    s.anchor = Some(0);
    s.cursor.line = 1;
    assert_eq!(s.toggle_highlight_key("yellow"), Some(true));
    assert_eq!(s.doc().highlighted_count(), 2);
    assert_eq!(s.toggle_highlight_key("yellow"), Some(false));
    assert_eq!(s.doc().highlighted_count(), 0);
}

#[test]
fn highlighting_the_none_key_clears_the_range() {
    let mut s = state_with("a");
    s.apply_highlight_key("blue");
    assert_eq!(s.toggle_highlight_key("none"), Some(false));
    assert_eq!(s.doc().highlighted_count(), 0);
}

#[test]
fn an_unknown_colour_key_is_rejected() {
    let mut s = state_with("a");
    assert_eq!(s.toggle_highlight_key("magenta"), None);
    assert!(!s.apply_highlight_key("magenta"));
}

#[test]
fn a_hex_key_creates_a_custom_colour_on_the_fly() {
    let mut s = state_with("a");
    assert_eq!(s.toggle_highlight_key("#ff8800"), Some(true));
    assert_eq!(s.doc().lines[0].colour, LineColour::Custom(0xff88_00ff));
}

#[test]
fn armed_colour_tracks_the_last_choice() {
    let mut s = state_with("a");
    assert_eq!(s.armed_colour, "yellow");
    s.apply_highlight_key("green");
    assert_eq!(s.armed_colour, "green");
}

#[test]
fn clear_highlight_removes_everything_in_range() {
    let mut s = state_with("a\nb");
    s.anchor = Some(0);
    s.cursor.line = 1;
    s.apply_highlight_key("pink");
    s.clear_highlight();
    assert_eq!(s.doc().highlighted_count(), 0);
}

// ── extraction ────────────────────────────────────────────────────────────

#[test]
fn extraction_uses_the_ticked_colours() {
    let mut s = state_with("a\nb\nc");
    s.doc_mut().highlight_lines(0, 0, LineColour::Yellow);
    s.doc_mut().highlight_lines(2, 2, LineColour::Pink);
    s.extract_selected = vec!["yellow".into(), "pink".into()];
    let result = s.extract(ExtractionOrder::Document);
    assert_eq!(result.text, "a\nc");
}

#[test]
fn toggling_an_extract_colour_adds_and_removes_it() {
    let mut s = state();
    assert_eq!(s.extract_selected, vec!["yellow".to_string()]);
    assert!(!s.toggle_extract_colour("yellow"));
    assert!(s.extract_selected.is_empty());
    assert!(s.toggle_extract_colour("green"));
    assert_eq!(s.extract_selected, vec!["green".to_string()]);
}

#[test]
fn grouped_extraction_follows_the_setting() {
    let mut s = state_with("a\nb");
    s.doc_mut().highlight_lines(0, 1, LineColour::Blue);
    s.extract_selected = vec!["blue".into()];
    assert_eq!(s.extract(ExtractionOrder::from_key("document")).text, "a\nb");
    assert!(s.extract(ExtractionOrder::from_key("grouped")).text.starts_with("# Blue"));
}

// ── find & replace ────────────────────────────────────────────────────────

#[test]
fn find_counts_matches_and_moves_the_caret() {
    let mut s = state_with("cat cat\ncat");
    s.set_find_query("cat");
    assert_eq!(s.find.match_count(), 3);
    let m = s.find_next().unwrap();
    assert_eq!((m.line, m.start), (0, 4), "next advances to the second match");
    assert_eq!(s.cursor.line, 0);
}

#[test]
fn replace_all_updates_the_document() {
    let mut s = state_with("cat cat");
    s.set_find_query("cat");
    s.set_find_replacement("dog");
    assert_eq!(s.replace_all(), 2);
    assert_eq!(s.doc().plain_text(), "dog dog");
    assert!(s.tab().is_dirty());
}

#[test]
fn replace_one_reports_failure_when_there_is_no_match() {
    let mut s = state_with("cat");
    s.set_find_query("zebra");
    assert!(!s.replace_one());
}

// ── status ────────────────────────────────────────────────────────────────

#[test]
fn status_reports_caret_metrics_and_encoding() {
    let mut s = state_with("hello world\nsecond");
    s.cursor = Cursor { line: 1, col: 3 };
    let status = s.compute_status(100);
    assert_eq!(status.caret_text, "Ln 2, Col 4");
    assert_eq!(status.metrics_text, "3 words \u{00b7} 17 chars \u{00b7} 2 lines");
    assert_eq!(status.line_count, 2);
    assert_eq!(status.encoding, "utf-8");
    assert_eq!(status.line_ending, "LF");
    assert_eq!(status.zoom_text, "100%");
    assert_eq!(status.saved_text, "Saved");
}

#[test]
fn status_shows_the_selection_and_dirty_flag() {
    let mut s = state_with("abc\nde");
    s.anchor = Some(0);
    s.cursor.line = 1;
    s.set_line_text(0, "abcd");
    let status = s.compute_status(100);
    assert!(status.caret_text.contains("selected"));
    assert_eq!(status.selected_chars, 7);
    assert!(status.dirty);
    assert_eq!(status.saved_text, "Unsaved changes");
}

#[test]
fn status_counts_highlights() {
    let mut s = state_with("a\nb\nc");
    s.doc_mut().highlight_lines(0, 1, LineColour::Yellow);
    let status = s.compute_status(100);
    assert_eq!(status.highlight_count, 2);
    assert_eq!(status.highlight_text, "2 highlights");
}

#[test]
fn window_title_shows_the_tab_name_and_app() {
    let mut s = state_with("x");
    assert_eq!(s.window_title(), "test.txt \u{2014} NotePad Pro");
    s.set_line_text(0, "changed");
    assert!(s.window_title().starts_with("test.txt \u{25cf}"));
}

// ── session ───────────────────────────────────────────────────────────────

#[test]
fn session_roundtrips_tabs_highlights_and_caret() {
    let mut s = state_with("one\ntwo");
    s.doc_mut().highlight_lines(0, 0, LineColour::Yellow);
    s.cursor = Cursor { line: 1, col: 2 };
    s.stash_cursor();
    s.new_tab();
    s.load_text("second.txt", "other", None);
    let session = s.build_session();

    let mut restored = state();
    restored.restore_session(&session);
    assert_eq!(restored.tabs.len(), 2);
    assert_eq!(restored.active, 1);
    assert_eq!(restored.tabs[0].doc.plain_text(), "one\ntwo");
    assert_eq!(restored.tabs[0].doc.lines[0].colour, LineColour::Yellow);
    restored.select_tab(0);
    assert_eq!(restored.cursor.line, 1);
    assert_eq!(restored.cursor.col, 2);
}

#[test]
fn restoring_an_empty_session_keeps_the_current_tabs() {
    let mut s = state_with("keep me");
    s.restore_session(&Session::default());
    assert_eq!(s.tabs.len(), 1);
    assert_eq!(s.doc().plain_text(), "keep me");
}

#[test]
fn restored_tabs_start_clean() {
    let mut s = state_with("x");
    s.set_line_text(0, "dirty");
    let session = s.build_session();
    let mut restored = state();
    restored.restore_session(&session);
    assert!(!restored.any_dirty());
}

#[test]
fn first_line_or_untitled_prefers_real_text() {
    assert_eq!(first_line_or_untitled("\n\nhello"), "hello");
    assert_eq!(first_line_or_untitled(""), "Untitled");
    let long = "x".repeat(100);
    assert_eq!(first_line_or_untitled(&long).chars().count(), 48);
}

// ── tab state ─────────────────────────────────────────────────────────────

#[test]
fn tab_display_name_marks_dirty_tabs() {
    let mut tab = TabState::new("notes.txt", 0);
    assert_eq!(tab.display_name(), "notes.txt");
    tab.dirty = true;
    assert_eq!(tab.display_name(), "notes.txt *");
}

#[test]
fn tab_ids_are_unique() {
    let a = TabState::new("a", 0);
    let b = TabState::new("b", 1);
    assert_ne!(a.id, b.id);
    assert!(a.id.starts_with("tab-"));
}

// ── confirm dialog ────────────────────────────────────────────────────────

#[test]
fn close_tab_message_names_the_tab() {
    let mut s = state();
    s.load_text("report.txt", "x", None);
    let (title, message, label, destructive) = describe(&PendingAction::CloseTab(0), &s);
    assert_eq!(title, "Discard unsaved changes?");
    assert!(message.contains("report.txt"));
    assert_eq!(label, "Discard");
    assert!(destructive);
}

#[test]
fn missing_tab_index_falls_back_to_generic_wording() {
    let s = state();
    let (_, message, _, _) = describe(&PendingAction::CloseTab(99), &s);
    assert!(message.contains("this tab"));
}

#[test]
fn every_action_has_copy() {
    let s = state();
    for action in [
        PendingAction::CloseApp,
        PendingAction::DeleteNote(1),
        PendingAction::OverwriteFile("/tmp/a".into()),
        PendingAction::RevertTab(0),
    ] {
        let (title, message, label, _) = describe(&action, &s);
        assert!(!title.is_empty());
        assert!(!message.is_empty());
        assert!(!label.is_empty());
    }
}

#[test]
fn delete_message_includes_the_note_id() {
    let s = state();
    let (_, message, _, _) = describe(&PendingAction::DeleteNote(42), &s);
    assert!(message.contains("#42"));
}

// ── session callbacks ─────────────────────────────────────────────────────

#[test]
fn blank_session_has_no_tabs() {
    let s = blank_session();
    assert!(s.tabs.is_empty());
    assert_eq!(s.version, SESSION_VERSION);
}

#[test]
fn build_session_captures_every_tab() {
    let mut s = state();
    s.load_text("a.txt", "alpha", None);
    s.new_tab();
    s.load_text("b.txt", "beta", None);
    let session = s.build_session();
    assert_eq!(session.tabs.len(), 2);
    assert_eq!(session.documents, vec!["alpha".to_string(), "beta".to_string()]);
    assert_eq!(session.active_tab, 1);
}

#[test]
fn restore_roundtrips_through_state() {
    let mut s = state();
    s.load_text("a.txt", "alpha", None);
    s.doc_mut().highlight_lines(0, 0, LineColour::Yellow);
    let session = s.build_session();

    let mut other = state();
    other.restore_session(&session);
    assert_eq!(other.doc().plain_text(), "alpha");
    assert_eq!(other.doc().lines[0].colour, LineColour::Yellow);
}

// ── highlight callbacks ───────────────────────────────────────────────────

#[test]
fn appending_a_timestamp_keeps_existing_text() {
    let mut s = state();
    s.load_text("t.txt", "Meeting", None);
    s.cursor.line = 0;
    let existing = s.doc().lines[0].text.clone();
    let joined = format!("{existing} {}", current_datetime());
    s.set_line_text(0, &joined);
    assert!(s.doc().lines[0].text.starts_with("Meeting 20"));
}

#[test]
fn a_timestamp_goes_after_the_caret_line_and_moves_the_caret() {
    let mut s = state_with("Meeting\n");
    s.append_at_caret_line("2024-05-01 09:30");
    assert_eq!(s.doc().lines[0].text, "Meeting 2024-05-01 09:30");
    assert_eq!(s.cursor.col, "Meeting 2024-05-01 09:30".len());
    s.cursor.line = 1;
    s.append_at_caret_line("x");
    assert_eq!(s.doc().lines[1].text, "x");
    assert_eq!(s.cursor.col, 1);
}

#[test]
fn toggle_armed_uses_the_last_chosen_colour() {
    let mut s = state();
    s.load_text("t.txt", "a\nb", None);
    s.armed_colour = "green".into();
    assert_eq!(s.toggle_highlight_key("green"), Some(true));
    assert_eq!(s.doc().lines[0].colour, LineColour::Green);
}

#[test]
fn the_armed_toggle_falls_back_to_yellow() {
    let mut s = state_with("a");
    s.armed_colour = "green".into();
    assert_eq!(s.toggle_armed(), ("green".to_string(), Some(true)));
    assert_eq!(s.doc().lines[0].colour, LineColour::Green);
    s.armed_colour.clear();
    assert_eq!(s.toggle_armed(), ("yellow".to_string(), Some(true)));
    assert_eq!(s.doc().lines[0].colour, LineColour::Yellow);
}

#[test]
fn extraction_of_an_unticked_palette_is_empty() {
    let mut s = state();
    s.load_text("t.txt", "a", None);
    s.extract_selected.clear();
    assert_eq!(s.extract(ExtractionOrder::Document).text, "");
}

// ── window callbacks ──────────────────────────────────────────────────────

#[test]
fn enter_on_a_plain_line_inserts_a_blank_line() {
    let mut s = state();
    s.load_text("t.txt", "one\ntwo", None);
    s.cursor.line = 0;
    assert_eq!(s.press_enter(), EnterOutcome::InsertBlank);
    assert_eq!(s.doc().line_count(), 2);
}

#[test]
fn close_panels_only_clears_open_ones() {
    let mut s = state();
    s.find_open = true;
    s.extract_open = true;
    assert!(s.close_panels());
    assert!(!s.find_open);
    assert!(!s.extract_open);
    assert!(!s.close_panels());
}

#[test]
fn cycle_tab_wraps() {
    let mut s = state();
    s.new_tab();
    assert_eq!(s.active, 1);
    s.cycle_tab(true);
    assert_eq!(s.active, 0);
}

#[test]
fn undo_on_an_empty_history_is_reported() {
    let mut s = state();
    assert!(!s.undo());
    assert!(!s.redo());
}

fn v(parts: &[&str]) -> Vec<String> {
    parts.iter().map(|s| s.to_string()).collect()
}

#[test]
fn enter_in_the_middle_of_a_line_is_found() {
    let old = v(&["alpha", "beta"]);
    let new = v(&["al", "pha", "beta"]);
    assert_eq!(detect_enter_split(&old, &new, 0), Some(0));
}

#[test]
fn enter_on_a_later_line_is_found() {
    let old = v(&["a", "bcd", "z"]);
    let new = v(&["a", "b", "cd", "z"]);
    assert_eq!(detect_enter_split(&old, &new, 1), Some(1));
}

#[test]
fn enter_at_the_end_of_a_line_is_found() {
    let old = v(&["abc"]);
    let new = v(&["abc", ""]);
    assert_eq!(detect_enter_split(&old, &new, 0), Some(0));
}

#[test]
fn plain_typing_is_not_mistaken_for_enter() {
    let old = v(&["alpha", "beta"]);
    let new = v(&["alphabet", "beta"]);
    assert_eq!(detect_enter_split(&old, &new, 0), None);
}

#[test]
fn a_two_line_paste_is_not_an_enter_split() {
    let old = v(&["alpha"]);
    let new = v(&["alpha", "x", "y"]);
    assert_eq!(detect_enter_split(&old, &new, 0), None);
}

#[test]
fn a_deletion_is_not_an_enter_split() {
    let old = v(&["a", "b", "c"]);
    let new = v(&["a", "c"]);
    assert_eq!(detect_enter_split(&old, &new, 0), None);
}

#[test]
fn an_empty_line_split_prefers_the_line_near_the_caret() {
    let old = v(&["", "", ""]);
    let new = v(&["", "", "", ""]);
    assert_eq!(detect_enter_split(&old, &new, 2), Some(2));
    assert_eq!(detect_enter_split(&old, &new, 0), Some(0));
}

#[test]
fn multi_byte_text_splits_on_byte_boundaries() {
    let old = v(&["éé"]);
    let new = v(&["é", "é"]);
    assert_eq!(detect_enter_split(&old, &new, 0), Some(0));
}

#[test]
fn no_caret_restore_when_the_model_matches_the_surface() {
    let mut s = state();
    s.load_text("t.txt", "one\ntwo", None);
    assert_eq!(s.caret_restore_offset("one\ntwo", None), None);
}

#[test]
fn the_caret_offset_counts_utf8_bytes() {
    let mut s = state();
    s.load_text("t.txt", "é\nb", None);
    s.cursor.line = 1;
    s.cursor.col = 1;
    assert_eq!(s.caret_restore_offset("é\nx", None), Some(4));
}

// ── shortcuts ─────────────────────────────────────────────────────────────

#[test]
fn shortcuts_need_ctrl_and_a_known_key() {
    assert_eq!(shortcut_for("s", false, false), None);
    assert_eq!(shortcut_for("s", true, false), Some(Shortcut::Save));
    assert_eq!(shortcut_for("S", true, true), Some(Shortcut::SaveAs));
    assert_eq!(shortcut_for("\u{13}", true, false), Some(Shortcut::Save));
    assert_eq!(shortcut_for("z", true, true), Some(Shortcut::Redo));
    assert_eq!(shortcut_for("y", true, false), Some(Shortcut::Redo));
    assert_eq!(shortcut_for("8", true, true), Some(Shortcut::BulletList));
    assert_eq!(shortcut_for("+", true, false), Some(Shortcut::ZoomIn));
    assert_eq!(shortcut_for("q", true, false), None);
    assert_eq!(shortcut_for("", true, false), None);
}

// ── files & notes ─────────────────────────────────────────────────────────

#[test]
fn a_loaded_file_reuses_the_pristine_tab_then_opens_new_ones() {
    let mut s = state();
    let first = LoadedFile {
        path: "/tmp/notes.txt".to_string(),
        content: "one\ntwo".to_string(),
        encoding: "utf-8".to_string(),
        line_ending: LineEnding::Crlf,
        had_bom: false,
        byte_size: 8,
    };
    assert_eq!(s.open_loaded(first), 0);
    assert_eq!(s.doc().plain_text(), "one\ntwo");
    assert_eq!(s.tab().state.name, "notes.txt");
    assert_eq!(s.tab().state.line_ending, "CRLF");
    assert_eq!(s.tab().line_ending, LineEnding::Crlf);
    assert!(!s.tab().is_dirty());
    s.new_tab();
    assert_eq!(s.focus_open_path("/tmp/notes.txt"), Some(0));
    assert_eq!(s.active, 0);
    assert_eq!(s.focus_open_path("/tmp/other.txt"), None);
    let second = LoadedFile {
        path: "/tmp/b.txt".to_string(),
        content: "b".to_string(),
        encoding: "utf-8".to_string(),
        line_ending: LineEnding::Lf,
        had_bom: true,
        byte_size: 1,
    };
    assert_eq!(s.open_loaded(second), 2);
    assert_eq!(s.tabs.len(), 3);
    assert!(s.tab().had_bom);
}

#[test]
fn saving_names_the_tab_after_the_file() {
    let mut s = state_with("a\nb");
    s.set_line_text(0, "changed");
    s.mark_saved_as("/tmp/dir/out.txt");
    assert_eq!(s.tab().state.name, "out.txt");
    assert_eq!(s.tab().state.path.as_deref(), Some("/tmp/dir/out.txt"));
    assert!(!s.tab().is_dirty());
    assert!(!s.tab().state.dirty);
}

#[test]
fn notes_open_with_their_highlights_and_lists_and_unlink_when_deleted() {
    let mut s = state();
    assert_eq!(s.note_title(), "Untitled");
    s.set_line_text(0, "  shopping list  ");
    assert_eq!(s.note_title(), "shopping list");
    s.link_note(7);
    assert_eq!(s.tab().state.note_id, Some(7));
    assert_eq!(s.selected_note_id, 7);
    s.open_note_text(9, "", "a\nb", r#"{"1":"pink"}"#, r#"[{"i":0,"t":"check","d":0,"c":true}]"#, None);
    assert_eq!(s.tab().state.name, "Untitled");
    assert_eq!(s.doc().lines[1].colour, LineColour::Pink);
    assert_eq!(s.doc().lines[0].list_type, ListType::Check);
    assert!(s.doc().lines[0].checked);
    assert!(!s.tab().is_dirty());
    assert_eq!(s.selected_note_id, 9);
    s.unlink_note(9);
    assert_eq!(s.tab().state.note_id, None);
    assert_eq!(s.selected_note_id, -1);
}

#[test]
fn note_counts_read_naturally() {
    assert_eq!(note_count_label(2, 2), "2 notes");
    assert_eq!(note_count_label(1, 2), "1 of 2 notes");
    assert_eq!(note_count_label(1, 1), "1 note");
    assert_eq!(note_count_label(0, 1), "0 of 1 note");
}

#[test]
fn a_pasted_block_splits_into_lines_continuing_the_list() {
    let mut s = state_with("item");
    s.set_list_type(ListType::Bullet);
    assert!(s.set_line_text(0, "one\ntwo\nthree"));
    assert_eq!(s.doc().line_count(), 3);
    assert_eq!(s.doc().lines[1].text, "two");
    assert_eq!(s.doc().lines[2].list_type, ListType::Bullet);
    assert_eq!(s.cursor, Cursor { line: 2, col: 5 });
    assert!(s.tab().state.dirty);
}

#[test]
fn a_hex_key_adds_one_swatch_to_the_palette() {
    let mut s = AppState::new(vec![CustomColour::new("Sunset", "#ff8800")]);
    assert_eq!(s.colour_for_key("#ff8800"), Some(LineColour::Custom(0xff88_00ff)));
    assert_eq!(s.palette.custom_colours().len(), 1);
    assert_eq!(s.colour_for_key("#abc"), Some(LineColour::Custom(0xaabb_ccff)));
    assert_eq!(s.palette.custom_colours().len(), 2);
    assert_eq!(s.palette.custom_colours()[1].hex, "#aabbcc");
    assert_eq!(s.colour_for_key("#12345678"), Some(LineColour::Custom(0x1234_5678)));
    assert_eq!(s.palette.custom_colours()[2].name, "#12345678");
    assert_eq!(s.palette.custom_colours()[2].hex, "#123456");
    assert_eq!(s.colour_for_key("#xyz"), None);
    assert_eq!(s.colour_for_key("#1234"), None);
}

#[test]
fn choosing_the_caret_lines_own_list_style_clears_it() {
    assert_eq!(effective_list_type(Some(ListType::Bullet), ListType::Bullet), ListType::NoList);
    assert_eq!(effective_list_type(Some(ListType::Bullet), ListType::Check), ListType::Check);
    assert_eq!(effective_list_type(Some(ListType::NoList), ListType::NoList), ListType::NoList);
    assert_eq!(effective_list_type(None, ListType::Number), ListType::Number);

    let mut s = state();
    s.load_text("t.txt", "a", None);
    assert_eq!(s.list_type_to_apply(ListType::Bullet), ListType::Bullet);
    s.set_list_type(ListType::Bullet);
    assert_eq!(s.list_type_to_apply(ListType::Bullet), ListType::NoList);
    assert_eq!(s.list_type_to_apply(ListType::Number), ListType::Number);
}
