use notepad_pro_core::state::AppState;
use notepad_pro_core::types::api::WindowStateData;
use notepad_pro_core::ui_model::normalize_key;

fn state() -> AppState {
    AppState::new(Vec::new())
}

#[test]
fn normalize_maps_ascii_control_to_letter() {
    // Ctrl+F delivers 0x06 on platforms that still fill `text`.
    assert_eq!(normalize_key("\u{6}"), Some('f'));
}

#[test]
fn normalize_lowercases_plain_letters() {
    assert_eq!(normalize_key("S"), Some('s'));
}

#[test]
fn normalize_empty_is_none() {
    assert_eq!(normalize_key(""), None);
}

#[test]
fn mirror_defaults_are_false() {
    let s = state();
    assert!(!s.window_minimised);
    assert!(!s.window_maximised);
    assert!(!s.window_fullscreen);
}

#[test]
fn window_state_data_carries_the_mirror() {
    let mut g = state();
    g.window_maximised = true;
    g.window_minimised = false;
    g.window_fullscreen = true;
    let ws = WindowStateData {
        maximised: g.window_maximised,
        minimised: g.window_minimised,
        fullscreen: g.window_fullscreen,
    };
    assert!(ws.maximised);
    assert!(!ws.minimised);
    assert!(ws.fullscreen);
}

#[test]
fn window_title_gains_a_dirty_dot() {
    let mut s = state();
    s.load_text("t.txt", "a", None);
    s.set_line_text(0, "dirty");
    assert!(s.window_title().contains('\u{25cf}'));
}

#[test]
fn closing_the_only_tab_leaves_a_fresh_one() {
    let mut s = state();
    s.close_tab(0);
    assert_eq!(s.tabs.len(), 1);
}

#[test]
fn window_controls_test_cycle_tab_wraps() {
    let mut s = state();
    s.new_tab();
    s.cycle_tab(true);
    assert_eq!(s.active, 0);
}

#[test]
fn any_dirty_tracks_unsaved_edits() {
    let mut s = state();
    assert!(!s.any_dirty());
    s.load_text("t.txt", "a", None);
    s.set_line_text(0, "x");
    assert!(s.any_dirty());
}
