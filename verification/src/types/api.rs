//! Typed payloads exchanged between the UI layer and the core.

use vstd::prelude::*;

use crate::files::line_endings::{ending_label, LineEnding};
use crate::files::manager::clock_nanos;
use crate::text::{push_str, to_owned_string};

verus! {

/// Reported by the `app-info()` API method.
#[derive(Debug, Clone, PartialEq)]
pub struct AppInfo {
    pub name: String,
    pub version: String,
    pub data_dir: String,
    pub slint_backend: String,
}

/// Per-tab state, as the UI shows it and the session stores it.
#[derive(Debug, PartialEq, Eq)]
pub struct TabState {
    pub id: String,
    pub name: String,
    pub path: Option<String>,
    pub dirty: bool,
    pub note_id: Option<i64>,
    pub line_ending: String,
    pub encoding: String,
    pub cursor_line: usize,
    pub cursor_col: usize,
}

/// The mathematical content of a [`TabState`].
pub struct TabStateView {
    pub id: Seq<char>,
    pub name: Seq<char>,
    pub path: Option<Seq<char>>,
    pub dirty: bool,
    pub note_id: Option<i64>,
    pub line_ending: Seq<char>,
    pub encoding: Seq<char>,
    pub cursor_line: usize,
    pub cursor_col: usize,
}

/// The view of an optional string.
pub open spec fn opt_view(o: Option<String>) -> Option<Seq<char>> {
    match o {
        Some(s) => Some(s@),
        None => None,
    }
}

impl View for TabState {
    type V = TabStateView;

    open spec fn view(&self) -> TabStateView {
        TabStateView {
            id: self.id@,
            name: self.name@,
            path: opt_view(self.path),
            dirty: self.dirty,
            note_id: self.note_id,
            line_ending: self.line_ending@,
            encoding: self.encoding@,
            cursor_line: self.cursor_line,
            cursor_col: self.cursor_col,
        }
    }
}

/// A copy of an optional string.
pub fn clone_opt(o: &Option<String>) -> (r: Option<String>)
    ensures
        opt_view(r) == opt_view(*o),
{
    match o {
        Some(s) => Some(s.clone()),
        None => None,
    }
}

impl Clone for TabState {
    fn clone(&self) -> (r: Self)
        ensures
            r@ == self@,
    {
        TabState {
            id: self.id.clone(),
            name: self.name.clone(),
            path: clone_opt(&self.path),
            dirty: self.dirty,
            note_id: self.note_id,
            line_ending: self.line_ending.clone(),
            encoding: self.encoding.clone(),
            cursor_line: self.cursor_line,
            cursor_col: self.cursor_col,
        }
    }
}

/// A fresh tab's state under `name` and `id`: no path, clean, not a
/// note, LF endings, UTF-8, caret at the start.
pub open spec fn fresh_tab_state(name: Seq<char>, id: Seq<char>) -> TabStateView {
    TabStateView {
        id: id,
        name: name,
        path: None,
        dirty: false,
        note_id: None,
        line_ending: ending_label(LineEnding::Lf),
        encoding: "utf-8"@,
        cursor_line: 0,
        cursor_col: 0,
    }
}

impl TabState {
    /// A fresh tab named `name`. Its id is `tab-`, the clock in hex, `-`
    /// and `seq` in hex, so tabs made with distinct `seq` differ.
    pub fn new(name: &str, seq: u64) -> (t: Self)
        ensures
            exists|nanos: u64| t@ == fresh_tab_state(name@, tab_id_text(nanos, seq)),
    {
        let nanos = clock_nanos() as u64;
        let t = TabState {
            id: format_tab_id(nanos, seq),
            name: to_owned_string(name),
            path: None,
            dirty: false,
            note_id: None,
            line_ending: to_owned_string(LineEnding::Lf.label()),
            encoding: to_owned_string("utf-8"),
            cursor_line: 0,
            cursor_col: 0,
        };
        assert(t@ == fresh_tab_state(name@, tab_id_text(nanos, seq)));
        t
    }

    /// Display name with the unsaved-changes marker.
    pub fn display_name(&self) -> (s: String)
        ensures
            s@ == if self.dirty {
                self.name@ + " *"@
            } else {
                self.name@
            },
    {
        let mut s = self.name.clone();
        if self.dirty {
            push_str(&mut s, " *");
        }
        s
    }
}

/// Result of `load-file()`.
#[derive(Debug, Clone, PartialEq)]
pub struct LoadedFileData {
    pub ok: bool,
    pub error: String,
    pub path: String,
    pub content: String,
    pub encoding: String,
    pub line_ending: String,
}

impl LoadedFileData {
    /// A failed load: the path and the message, everything else empty.
    pub fn failed(path: &str, error: &str) -> (r: Self)
        ensures
            !r.ok,
            r.error@ == error@,
            r.path@ == path@,
            r.content@ == Seq::<char>::empty(),
            r.encoding@ == Seq::<char>::empty(),
            r.line_ending@ == Seq::<char>::empty(),
    {
        LoadedFileData {
            ok: false,
            error: to_owned_string(error),
            path: to_owned_string(path),
            content: String::new(),
            encoding: String::new(),
            line_ending: String::new(),
        }
    }
}

/// Summary returned by `highlight-stats()`.
#[derive(Debug, Clone, PartialEq)]
pub struct HighlightStats {
    pub total_lines: i32,
    pub highlighted: i32,
    /// "Yellow 3 · Green 1", pre-formatted.
    pub summary: String,
}

impl Default for HighlightStats {
    fn default() -> (r: Self)
        ensures
            r.total_lines == 0,
            r.highlighted == 0,
            r.summary@ == Seq::<char>::empty(),
    {
        HighlightStats { total_lines: 0, highlighted: 0, summary: String::new() }
    }
}

/// One row of the extract panel's colour list.
#[derive(Debug, Clone, PartialEq)]
pub struct ColourEntry {
    /// Lookup key understood by `LineColour::from_key`.
    pub key: String,
    pub name: String,
    /// Packed `0xRRGGBBAA`.
    pub rgba: u32,
    pub line_count: i32,
    /// "3 lines", pre-formatted.
    pub count_label: String,
    pub active: bool,
}

/// Result of `load-session()`.
#[derive(Debug, Clone, Copy, PartialEq, Eq, Default)]
pub struct SessionData {
    pub ok: bool,
    pub tab_count: i32,
    pub active_tab: i32,
}

/// Result of `window-state()`.
#[derive(Debug, Clone, Copy, PartialEq, Eq, Default)]
pub struct WindowStateData {
    pub maximised: bool,
    pub minimised: bool,
    pub fullscreen: bool,
}

/// The saved window size.
#[derive(Debug, Clone, Copy, PartialEq, Eq)]
pub struct WindowGeometry {
    pub width: u32,
    pub height: u32,
}

impl Default for WindowGeometry {
    fn default() -> (r: Self)
        ensures
            r.width == 1200,
            r.height == 800,
    {
        WindowGeometry { width: 1200, height: 800 }
    }
}

/// The status bar's contents. The zoom factor itself is the window's; its
/// percentage text is here.
#[derive(Debug, PartialEq, Eq)]
pub struct StatusData {
    pub caret_text: String,
    pub metrics_text: String,
    pub highlight_text: String,
    pub zoom_text: String,
    pub line_ending: String,
    pub encoding: String,
    pub dirty: bool,
    pub saved_text: String,
    pub cursor_line: i32,
    pub cursor_col: i32,
    pub selected_chars: i32,
    pub word_count: i32,
    pub char_count: i32,
    pub line_count: i32,
    pub highlight_count: i32,
}

/// Everything needed to rebuild the session on next launch.
#[derive(Debug, PartialEq, Eq)]
pub struct Session {
    pub version: u32,
    pub active_tab: usize,
    pub tabs: Vec<TabState>,
    /// Plain text of each tab, index-aligned with `tabs`.
    pub documents: Vec<String>,
    /// Highlight maps, index-aligned with `tabs`.
    pub highlights: Vec<String>,
    /// List structure, index-aligned with `tabs`.
    pub list_structures: Vec<String>,
    pub window: WindowGeometry,
}

impl Default for Session {
    /// A session with no tabs.
    fn default() -> (s: Self)
        ensures
            s.version == 0,
            s.active_tab == 0,
            s.tabs@.len() == 0,
            s.documents@.len() == 0,
            s.highlights@.len() == 0,
            s.list_structures@.len() == 0,
            s.window == (WindowGeometry { width: 1200, height: 800 }),
    {
        Session {
            version: 0,
            active_tab: 0,
            tabs: Vec::new(),
            documents: Vec::new(),
            highlights: Vec::new(),
            list_structures: Vec::new(),
            window: WindowGeometry { width: 1200, height: 800 },
        }
    }
}

impl Session {
    pub fn is_empty(&self) -> (r: bool)
        ensures
            r == (self.tabs@.len() == 0),
    {
        self.tabs.len() == 0
    }
}

/// A tab id: `tab-` then the clock reading and the sequence number in hex,
/// joined by `-`.
pub open spec fn tab_id_text(nanos: u64, seq: u64) -> Seq<char> {
    "tab-"@ + crate::text::hex_digits(nanos as nat) + "-"@ + crate::text::hex_digits(seq as nat)
}

/// Format a tab id from a clock reading and a per-process sequence number.
pub fn format_tab_id(nanos: u64, seq: u64) -> (s: String)
    ensures
        s@ == tab_id_text(nanos, seq),
{
    let mut s = to_owned_string("tab-");
    crate::text::push_hex(&mut s, nanos as u128);
    crate::text::push_str(&mut s, "-");
    crate::text::push_hex(&mut s, seq as u128);
    s
}

} // verus!
