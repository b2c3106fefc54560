use notepad_pro_core::editor::find_replace::{find_all, replace_once, FindEngine, Match};
use notepad_pro_core::types::line::EditorLine;

fn engine(query: &str) -> FindEngine {
    let mut e = FindEngine::new();
    e.set_query(query);
    e
}

fn lines_of(texts: &[&str]) -> Vec<EditorLine> {
    texts.iter().map(|t| EditorLine::new(t)).collect()
}

#[test]
fn empty_query_produces_no_matches() {
    let mut e = engine("");
    e.search(&lines_of(&["anything"]));
    assert_eq!(e.match_count(), 0);
    assert!(!e.has_matches());
    assert_eq!(e.position(), 0);
}

#[test]
fn finds_every_occurrence_across_lines() {
    let mut e = engine("cat");
    e.search(&lines_of(&["cat and cat", "no match", "a cat"]));
    assert_eq!(e.match_count(), 3);
    assert_eq!(e.matches[0].line, 0);
    assert_eq!(e.matches[1].line, 0);
    assert_eq!(e.matches[2].line, 2);
}

#[test]
fn search_is_case_insensitive_by_default() {
    let mut e = engine("cat");
    e.search(&lines_of(&["Cat cAt CAT"]));
    assert_eq!(e.match_count(), 3);
}

#[test]
fn case_sensitive_mode_respects_case() {
    let mut e = engine("cat");
    e.case_sensitive = true;
    e.search(&lines_of(&["Cat cat CAT"]));
    assert_eq!(e.match_count(), 1);
}

#[test]
fn whole_word_mode_skips_substrings() {
    let mut e = engine("cat");
    e.whole_word = true;
    e.search(&lines_of(&["cat catalogue a cat."]));
    assert_eq!(e.match_count(), 2);
}

#[test]
fn whole_word_treats_underscore_as_part_of_the_word() {
    let mut e = engine("cat");
    e.whole_word = true;
    e.search(&lines_of(&["cat _cat cat_"]));
    assert_eq!(e.match_count(), 1);
}

#[test]
fn overlapping_candidates_do_not_double_count() {
    let mut e = engine("aa");
    e.search(&lines_of(&["aaaa"]));
    assert_eq!(e.match_count(), 2);
}

#[test]
fn multibyte_offsets_land_on_char_boundaries() {
    let mut e = engine("café");
    e.search(&lines_of(&["le café est bon"]));
    assert_eq!(e.match_count(), 1);
    let m = e.current_match().unwrap();
    assert_eq!(m.slice("le café est bon"), Some("café"));
}

#[test]
fn case_insensitive_match_on_a_multibyte_char_is_safe() {
    let mut e = engine("É");
    e.search(&lines_of(&["café"]));
    assert_eq!(e.match_count(), 1);
    let m = e.current_match().unwrap();
    assert!(m.slice("café").is_some());
}

#[test]
fn next_wraps_around() {
    let mut e = engine("a");
    e.search(&lines_of(&["aaa"]));
    assert_eq!(e.position(), 1);
    assert_eq!(e.next().unwrap().start, 1);
    assert_eq!(e.position(), 2);
    e.next();
    assert_eq!(e.position(), 3);
    e.next();
    assert_eq!(e.position(), 1, "wrapped to the first match");
}

#[test]
fn prev_wraps_backwards() {
    let mut e = engine("a");
    e.search(&lines_of(&["aaa"]));
    let m = e.prev().unwrap();
    assert_eq!(m.start, 2);
    assert_eq!(e.position(), 3);
}

#[test]
fn next_and_prev_on_no_matches_return_none() {
    let mut e = engine("zzz");
    e.search(&lines_of(&["abc"]));
    assert!(e.next().is_none());
    assert!(e.prev().is_none());
    assert!(e.current_match().is_none());
}

#[test]
fn focus_line_jumps_to_the_first_later_match() {
    let mut e = engine("x");
    e.search(&lines_of(&["x", "x", "x"]));
    let m = e.focus_line(2).unwrap();
    assert_eq!(m.line, 2);
    let m = e.focus_line(99).unwrap();
    assert_eq!(m.line, 0);
}

#[test]
fn replace_current_swaps_one_match() {
    let mut e = engine("cat");
    e.set_replacement("dog");
    let mut lines = lines_of(&["the cat sat"]);
    e.search(&lines);
    assert!(e.replace_current(&mut lines));
    assert_eq!(lines[0].text, "the dog sat");
}

#[test]
fn replace_current_keeps_the_cursor_in_range() {
    let mut e = engine("a");
    e.set_replacement("b");
    let mut lines = lines_of(&["aaa"]);
    e.search(&lines);
    e.next();
    e.next();
    assert!(e.replace_current(&mut lines));
    assert!(e.current < e.match_count());
}

#[test]
fn replace_current_on_no_matches_is_false() {
    let mut e = engine("zzz");
    e.set_replacement("b");
    let mut lines = lines_of(&["abc"]);
    e.search(&lines);
    assert!(!e.replace_current(&mut lines));
}

#[test]
fn replace_all_counts_every_substitution() {
    let mut e = engine("cat");
    e.set_replacement("dog");
    let mut lines = lines_of(&["cat cat", "cat"]);
    e.search(&lines);
    assert_eq!(e.replace_all(&mut lines), 3);
    assert_eq!(lines[0].text, "dog dog");
    assert_eq!(lines[1].text, "dog");
    assert_eq!(e.match_count(), 0);
}

#[test]
fn replace_all_handles_multibyte_text() {
    let mut e = engine("café");
    e.set_replacement("tea");
    let mut lines = lines_of(&["café café"]);
    e.search(&lines);
    assert_eq!(e.replace_all(&mut lines), 2);
    assert_eq!(lines[0].text, "tea tea");
}

#[test]
fn replace_all_with_an_empty_needle_is_a_noop() {
    let mut e = engine("");
    e.set_replacement("x");
    let mut lines = lines_of(&["abc"]);
    e.search(&lines);
    assert_eq!(e.replace_all(&mut lines), 0);
    assert_eq!(lines[0].text, "abc");
}

#[test]
fn replace_with_empty_string_deletes_the_match() {
    let mut e = engine("na");
    e.set_replacement("");
    let mut lines = lines_of(&["banana"]);
    e.search(&lines);
    assert_eq!(e.replace_all(&mut lines), 2);
    assert_eq!(lines[0].text, "ba");
}

#[test]
fn replacing_with_a_longer_string_keeps_later_offsets_valid() {
    let mut e = engine("a");
    e.set_replacement("xxxx");
    let mut lines = lines_of(&["a a a"]);
    e.search(&lines);
    assert_eq!(e.replace_all(&mut lines), 3);
    assert_eq!(lines[0].text, "xxxx xxxx xxxx");
}

#[test]
fn clear_resets_the_engine() {
    let mut e = engine("cat");
    e.search(&lines_of(&["cat"]));
    e.clear();
    assert_eq!(e.match_count(), 0);
    assert_eq!(e.query, "");
}

#[test]
fn stale_offsets_are_rejected_instead_of_panicking() {
    assert!(!replace_once(&mut "café".to_string(), 4, 5, "x"));
    assert!(!replace_once(&mut "abc".to_string(), 5, 2, "x"));
    let m = Match {
        line: 0,
        start: 3,
        end: 4,
    };
    assert!(m.slice("café").is_none());
}

#[test]
fn find_all_returns_empty_for_an_empty_needle() {
    assert!(find_all("abc", "", false, false).is_empty());
}

#[test]
fn matches_come_left_to_right_without_overlap() {
    let found = find_all("abababab", "aba", true, false);
    assert_eq!(found, vec![(0, 3), (4, 7)]);
    for pair in found.windows(2) {
        assert!(pair[0].1 <= pair[1].0);
    }
}

#[test]
fn case_sensitive_matches_are_the_query_itself() {
    let text = "Cat cat cAt cat";
    for (s, e) in find_all(text, "cat", true, false) {
        assert_eq!(&text[s..e], "cat");
    }
}

#[test]
fn replace_all_after_a_search_replaces_every_match() {
    let mut lines = lines_of(&["a\u{e9}a a", "xa", "none"]);
    let mut e = engine("a");
    e.set_replacement("aa");
    e.search(&lines);
    let found = e.match_count();
    assert_eq!(found, 4);
    assert_eq!(e.replace_all(&mut lines), found);
    assert_eq!(lines[0].text, "aa\u{e9}aa aa");
    assert_eq!(lines[1].text, "xaa");
    // The replacement holds the query, so a fresh search finds it again.
    assert_eq!(e.match_count(), 8);
}
