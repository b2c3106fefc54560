use notepad_pro_core::editor::list_engine::{EnterOutcome, ListEngine};
use notepad_pro_core::types::line::{EditorLine, ListType, MAX_INDENT};

fn bullet(text: &str, indent: u8) -> EditorLine {
    EditorLine {
        text: text.into(),
        list_type: ListType::Bullet,
        indent,
        ..Default::default()
    }
}

fn numbered(text: &str, indent: u8) -> EditorLine {
    EditorLine {
        text: text.into(),
        list_type: ListType::Number,
        indent,
        ..Default::default()
    }
}

#[test]
fn enter_on_a_plain_line_asks_the_caller_to_insert_blank() {
    let mut lines = vec![EditorLine::new("hello")];
    assert_eq!(ListEngine::handle_enter(&mut lines, 0, 5), EnterOutcome::InsertBlank);
    assert_eq!(lines.len(), 1);
}

#[test]
fn enter_continues_a_bullet_and_keeps_the_marker() {
    let mut lines = vec![bullet("First item", 0)];
    let outcome = ListEngine::handle_enter(&mut lines, 0, 10);
    assert_eq!(outcome, EnterOutcome::MoveTo(1));
    assert_eq!(lines.len(), 2);
    assert_eq!(lines[1].list_type, ListType::Bullet);
    assert_eq!(lines[1].indent, 0);
}

#[test]
fn enter_splits_the_line_at_the_caret() {
    let mut lines = vec![bullet("onetwo", 0)];
    ListEngine::handle_enter(&mut lines, 0, 3);
    assert_eq!(lines[0].text, "one");
    assert_eq!(lines[1].text, "two");
}

#[test]
fn enter_splits_on_a_multibyte_boundary_safely() {
    let mut lines = vec![bullet("café au lait", 0)];
    ListEngine::handle_enter(&mut lines, 0, 4);
    assert_eq!(lines[0].text, "café");
    assert_eq!(lines[1].text, " au lait");
}

#[test]
fn caret_beyond_end_of_line_is_clamped() {
    let mut lines = vec![bullet("ab", 0)];
    ListEngine::handle_enter(&mut lines, 0, 99);
    assert_eq!(lines[0].text, "ab");
    assert_eq!(lines[1].text, "");
}

#[test]
fn enter_on_empty_top_level_item_exits_the_list() {
    let mut lines = vec![bullet("", 0)];
    assert_eq!(ListEngine::handle_enter(&mut lines, 0, 0), EnterOutcome::Consumed);
    assert_eq!(lines.len(), 1);
    assert_eq!(lines[0].list_type, ListType::NoList);
}

#[test]
fn enter_on_empty_nested_item_outdents() {
    let mut lines = vec![bullet("", 2)];
    assert_eq!(ListEngine::handle_enter(&mut lines, 0, 0), EnterOutcome::Consumed);
    assert_eq!(lines[0].indent, 1);
    assert_eq!(lines[0].list_type, ListType::Bullet);
}

#[test]
fn checked_state_does_not_propagate_to_the_new_item() {
    let mut lines = vec![EditorLine {
        text: "done".into(),
        list_type: ListType::Check,
        checked: true,
        ..Default::default()
    }];
    ListEngine::handle_enter(&mut lines, 0, 4);
    assert!(lines[0].checked);
    assert!(!lines[1].checked);
    assert_eq!(lines[1].list_type, ListType::Check);
}

#[test]
fn enter_on_an_out_of_range_index_is_harmless() {
    let mut lines = vec![EditorLine::new("a")];
    assert_eq!(ListEngine::handle_enter(&mut lines, 42, 0), EnterOutcome::InsertBlank);
    assert_eq!(lines.len(), 1);
}

#[test]
fn tab_indents_and_shift_tab_outdents() {
    let mut lines = vec![bullet("a", 0)];
    assert!(ListEngine::handle_tab(&mut lines, 0, true));
    assert_eq!(lines[0].indent, 1);
    assert!(ListEngine::handle_tab(&mut lines, 0, false));
    assert_eq!(lines[0].indent, 0);
}

#[test]
fn tab_is_clamped_to_the_maximum_depth() {
    let mut lines = vec![bullet("a", MAX_INDENT)];
    assert!(!ListEngine::handle_tab(&mut lines, 0, true));
    assert_eq!(lines[0].indent, MAX_INDENT);
}

#[test]
fn outdent_at_zero_is_a_noop() {
    let mut lines = vec![bullet("a", 0)];
    assert!(!ListEngine::handle_tab(&mut lines, 0, false));
    assert_eq!(lines[0].indent, 0);
}

#[test]
fn tab_does_nothing_on_plain_lines() {
    let mut lines = vec![EditorLine::new("plain")];
    assert!(!ListEngine::handle_tab(&mut lines, 0, true));
    assert_eq!(lines[0].indent, 0);
}

#[test]
fn renumber_numbers_a_flat_list_from_one() {
    let mut lines = vec![numbered("a", 0), numbered("b", 0), numbered("c", 0)];
    ListEngine::renumber(&mut lines);
    let numbers: Vec<u32> = lines.iter().map(|l| l.number).collect();
    assert_eq!(numbers, vec![1, 2, 3]);
}

#[test]
fn renumber_gives_each_depth_its_own_counter() {
    let mut lines = vec![
        numbered("a", 0),
        numbered("a1", 1),
        numbered("a2", 1),
        numbered("b", 0),
        numbered("b1", 1),
    ];
    ListEngine::renumber(&mut lines);
    let numbers: Vec<u32> = lines.iter().map(|l| l.number).collect();
    assert_eq!(numbers, vec![1, 1, 2, 2, 1]);
}

#[test]
fn renumber_resets_after_a_plain_paragraph() {
    let mut lines = vec![
        numbered("a", 0),
        numbered("b", 0),
        EditorLine::new("paragraph"),
        numbered("c", 0),
    ];
    ListEngine::renumber(&mut lines);
    let numbers: Vec<u32> = lines.iter().map(|l| l.number).collect();
    assert_eq!(numbers, vec![1, 2, 0, 1]);
}

#[test]
fn renumber_clears_stale_numbers_on_non_number_lines() {
    let mut lines = vec![EditorLine {
        list_type: ListType::Bullet,
        number: 99,
        text: "x".into(),
        ..Default::default()
    }];
    ListEngine::renumber(&mut lines);
    assert_eq!(lines[0].number, 0);
}

#[test]
fn renumber_tolerates_out_of_range_indent() {
    let mut lines = vec![EditorLine {
        list_type: ListType::Number,
        indent: 200,
        ..Default::default()
    }];
    ListEngine::renumber(&mut lines);
    assert_eq!(lines[0].number, 1);
}

#[test]
fn markdown_dash_becomes_a_bullet() {
    let mut line = EditorLine::new("- buy milk");
    assert!(ListEngine::try_markdown_shortcut(&mut line));
    assert_eq!(line.list_type, ListType::Bullet);
    assert_eq!(line.text, "buy milk");
}

#[test]
fn markdown_asterisk_and_plus_become_bullets() {
    for prefix in ["* ", "+ "] {
        let mut line = EditorLine::new(&format!("{prefix}item"));
        assert!(ListEngine::try_markdown_shortcut(&mut line));
        assert_eq!(line.list_type, ListType::Bullet);
        assert_eq!(line.text, "item");
    }
}

#[test]
fn markdown_brackets_become_a_checkbox() {
    let mut line = EditorLine::new("[] ship it");
    assert!(ListEngine::try_markdown_shortcut(&mut line));
    assert_eq!(line.list_type, ListType::Check);
    assert!(!line.checked);
    assert_eq!(line.text, "ship it");
}

#[test]
fn markdown_digits_become_a_numbered_item() {
    let mut line = EditorLine::new("1. first");
    assert!(ListEngine::try_markdown_shortcut(&mut line));
    assert_eq!(line.list_type, ListType::Number);
    assert_eq!(line.text, "first");
}

#[test]
fn markdown_shortcut_rejects_loose_matches() {
    for text in ["-no space", "1.no space", "1234. too many digits", "plain text", "-"] {
        let mut line = EditorLine::new(text);
        assert!(!ListEngine::try_markdown_shortcut(&mut line), "{text:?}");
        assert_eq!(line.list_type, ListType::NoList);
    }
}

#[test]
fn markdown_shortcut_does_not_reconvert_list_lines() {
    let mut line = EditorLine {
        text: "- already a bullet".into(),
        list_type: ListType::Bullet,
        ..Default::default()
    };
    assert!(!ListEngine::try_markdown_shortcut(&mut line));
    assert_eq!(line.text, "- already a bullet");
}

#[test]
fn toggle_checked_only_applies_to_check_items() {
    let mut check = EditorLine {
        list_type: ListType::Check,
        ..Default::default()
    };
    assert!(ListEngine::toggle_checked(&mut check));
    assert!(!ListEngine::toggle_checked(&mut check));

    let mut bullet = bullet("x", 0);
    assert!(!ListEngine::toggle_checked(&mut bullet));
}

#[test]
fn bullet_glyph_varies_with_depth() {
    assert_eq!(ListEngine::bullet_glyph(0), "•");
    assert_eq!(ListEngine::bullet_glyph(1), "◦");
    assert_eq!(ListEngine::bullet_glyph(2), "▪");
    assert_eq!(ListEngine::bullet_glyph(5), "‣");
}

#[test]
fn list_engine_marker_text_matches_the_line_type() {
    assert_eq!(ListEngine::marker_text(&EditorLine::default()), None);
    assert_eq!(ListEngine::marker_text(&bullet("x", 0)).as_deref(), Some("•"));
    let mut n = numbered("x", 0);
    n.number = 3;
    assert_eq!(ListEngine::marker_text(&n).as_deref(), Some("3."));
    let c = EditorLine {
        list_type: ListType::Check,
        checked: true,
        ..Default::default()
    };
    assert_eq!(ListEngine::marker_text(&c).as_deref(), Some("☑"));
}

#[test]
fn renumbering_twice_changes_nothing() {
    let mut lines = vec![
        numbered("a", 0),
        numbered("a1", 1),
        EditorLine::new("p"),
        numbered("b", 0),
    ];
    ListEngine::renumber(&mut lines);
    let once: Vec<u32> = lines.iter().map(|l| l.number).collect();
    ListEngine::renumber(&mut lines);
    let twice: Vec<u32> = lines.iter().map(|l| l.number).collect();
    assert_eq!(once, twice);
    assert_eq!(once, vec![1, 1, 0, 1]);
}
