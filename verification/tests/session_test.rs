use notepad_pro_core::config::session::{repair_session, SessionStore, TabInfo, SESSION_VERSION};
use notepad_pro_core::config::settings::session_path;
use notepad_pro_core::types::api::{Session, TabState};

fn tab(id: &str, name: &str, path: Option<&str>) -> TabInfo {
    TabInfo {
        id: id.into(),
        name: name.into(),
        path: path.map(|p| p.to_string()),
    }
}

#[test]
fn session_store_paths_are_consistent() {
    assert_eq!(SessionStore::new(&session_path()).path(), session_path());
}

#[test]
fn repair_pads_truncated_parallel_vectors() {
    let tabs = vec![tab("t1", "a.txt", None)];
    let mut active = 0usize;
    let mut documents: Vec<String> = vec![];
    let mut highlights: Vec<String> = vec![];
    let mut lists: Vec<String> = vec![];
    let kept = repair_session(&tabs, &mut active, &mut documents, &mut highlights, &mut lists);
    assert_eq!(kept.len(), 1);
    assert_eq!(documents, vec!["".to_string()]);
    assert_eq!(highlights, vec!["{}".to_string()]);
    assert_eq!(lists, vec!["[]".to_string()]);
}

#[test]
fn repair_clamps_an_out_of_range_active_tab() {
    let tabs = vec![tab("t1", "a", None), tab("t2", "b", None)];
    let mut active = 99usize;
    let mut d: Vec<String> = vec!["alpha".into(), "beta".into()];
    let mut h: Vec<String> = vec!["{}".into(), "{}".into()];
    let mut l: Vec<String> = vec!["[]".into(), "[]".into()];
    repair_session(&tabs, &mut active, &mut d, &mut h, &mut l);
    assert_eq!(active, 1);
}

#[test]
fn repair_drops_tabs_without_an_id() {
    let tabs = vec![tab("t1", "a", None), tab("", "ghost", None), tab("t3", "c", None)];
    let mut active = 0usize;
    let mut d: Vec<String> = vec!["alpha".into(), "ghost".into(), "gamma".into(), "extra".into()];
    let mut h: Vec<String> = vec!["{}".into(); 3];
    let mut l: Vec<String> = vec!["[]".into(); 3];
    let kept = repair_session(&tabs, &mut active, &mut d, &mut h, &mut l);
    let positions: Vec<usize> = kept.iter().map(|(i, _)| *i).collect();
    assert_eq!(positions, vec![0, 2]);
    assert_eq!(d, vec!["alpha".to_string(), "gamma".to_string()]);
    assert!(d.iter().all(|x| x != "ghost"));
    assert_eq!(h.len(), 2);
}

#[test]
fn repair_renames_blank_tabs_from_their_path() {
    let tabs = vec![tab("t1", "  ", Some("/tmp/report.txt")), tab("t2", "", None)];
    let mut active = 0usize;
    let mut d: Vec<String> = vec![];
    let mut h: Vec<String> = vec![];
    let mut l: Vec<String> = vec![];
    let kept = repair_session(&tabs, &mut active, &mut d, &mut h, &mut l);
    assert_eq!(kept[0].1, "report.txt");
    assert_eq!(kept[1].1, "Untitled");
}

#[test]
fn repair_on_an_empty_session_is_a_noop() {
    let mut session = Session::default();
    session.repair();
    assert!(session.is_empty());
    assert_eq!(session.active_tab, 0);
}

#[test]
fn a_session_repairs_its_tabs_and_parallel_lists() {
    let mut ghost = TabState::new("ghost", 2);
    ghost.id = String::new();
    let mut blank = TabState::new("  ", 0);
    blank.path = Some("/tmp/report.txt".into());
    let mut session = Session::default();
    session.version = SESSION_VERSION;
    session.active_tab = 99;
    session.tabs = vec![blank, TabState::new("b.txt", 1), ghost];
    session.documents = vec!["alpha".into(), "beta".into(), "ghost".into()];
    session.highlights = vec![];
    session.list_structures = vec!["[]".into()];
    session.repair();
    assert_eq!(session.tabs.len(), 2);
    assert_eq!(session.tabs[0].name, "report.txt");
    assert_eq!(session.tabs[1].name, "b.txt");
    assert_eq!(session.documents, vec!["alpha".to_string(), "beta".to_string()]);
    assert_eq!(session.highlights, vec!["{}".to_string(), "{}".to_string()]);
    assert_eq!(session.list_structures, vec!["[]".to_string(), "[]".to_string()]);
    assert_eq!(session.active_tab, 1);
}

#[test]
fn repairing_twice_changes_nothing() {
    let tabs = vec![tab("t1", " ", Some("/x/y.txt")), tab("", "g", None), tab("t3", "c", None)];
    let mut active = 7usize;
    let mut d: Vec<String> = vec!["1".into()];
    let mut h: Vec<String> = vec![];
    let mut l: Vec<String> = vec!["a".into(), "b".into(), "c".into(), "d".into()];
    let kept = repair_session(&tabs, &mut active, &mut d, &mut h, &mut l);
    let again: Vec<TabInfo> = kept
        .iter()
        .map(|(i, name)| TabInfo { name: name.clone(), ..tab(&tabs[*i].id, "", None) })
        .map(|t| TabInfo { path: tabs.iter().find(|o| o.id == t.id).unwrap().path.clone(), ..t })
        .collect();
    let (d1, h1, l1, a1) = (d.clone(), h.clone(), l.clone(), active);
    let kept2 = repair_session(&again, &mut active, &mut d, &mut h, &mut l);
    assert_eq!((d, h, l, active), (d1, h1, l1, a1));
    let names: Vec<String> = kept2.into_iter().map(|(_, n)| n).collect();
    assert_eq!(names, vec!["y.txt".to_string(), "c".to_string()]);
}

#[test]
fn session_repair_clamps_active_tab_and_vectors() {
    let mut s = Session {
        version: 2,
        active_tab: 99,
        tabs: vec![TabState::new("a", 0)],
        documents: vec![],
        highlights: vec![],
        list_structures: vec![],
        window: Default::default(),
    };
    s.repair();
    assert_eq!(s.documents.len(), 1);
    assert_eq!(s.highlights.len(), 1);
    assert_eq!(s.active_tab, 0, "active must clamp to the last tab");
}

#[test]
fn session_repair_drops_idless_tabs() {
    let mut s = Session {
        version: 2,
        active_tab: 0,
        tabs: vec![TabState::new("ok", 0), TabState { id: String::new(), ..TabState::new("bad", 1) }],
        documents: vec!["a".into(), "b".into()],
        highlights: vec!["{}".into(), "{}".into()],
        list_structures: vec!["[]".into(), "[]".into()],
        window: Default::default(),
    };
    s.repair();
    assert_eq!(s.tabs.len(), 1);
    assert_eq!(s.documents.len(), 1);
}

#[test]
fn session_defaults_to_a_single_tab_geometry() {
    let s = Session::default();
    assert_eq!(s.tabs.len(), 0);
    assert_eq!(s.window.width, 1200);
    assert_eq!(s.version, 0);
}
