//! What the editor window works on: the open tabs with their documents, the
//! caret and line selection, the palette, the find engine and the
//! extraction picks. Settings and the note store live beside it in the
//! application; everything here is plain data.

use vstd::prelude::*;

use crate::editor::find_replace::{apply_match, apply_rev, FindEngine, Match};
use crate::config::settings::strs;
use crate::editor::line_model::{
    all_coloured, blank_doc, clamp_range, highlighted_in, join_nl, lemma_split_join, prepared,
    text_lines, texts, trim_cr,
    total_words, commit_view, recoloured, edit_then_commit, redo_result, reindented, relisted,
    undo_result, fresh_doc, lemma_doc_fields, lemma_doc_lines_only,
    set_text_result, split_nl,
    total_chars, DocView, Document,
};
use crate::editor::list_engine::{enter_result, renumbered, toggled_check, EnterOutcome, ListEngine};
use crate::config::session::SESSION_VERSION;
use crate::files::line_endings::{ending_from_label, ending_label, LineEnding};
use crate::files::manager::{display_file_name, file_name, LoadedFile};
use crate::highlight::palette::{
    apply_highlights_json, apply_list_structure_json, byte_len_upto9, chips_from_highlights_json,
    colours_restored, highlighted_count, lemma_highlight_members_reapply, list_line_count,
    lists_restored, opaque_customs,
    chips_of, highlight_members,
    highlights_json_for, list_records, list_structure_json_for, custom_views, found_colour,
    has_key, highlights_applied, list_structure_applied, palette_rows,
    hex_from_rgba, hex_of_rgba, lemma_hex_roundtrip, parse_radix16, radix16,
    rgba_from_hex, rgba_of_hex, with_custom, Palette,
};
use crate::text::{byte_len, decimal, lemma_byte_len_bounds};
use crate::highlight::extractor::{
    extract, extracted_text, highlighted_only, line_count_of, per_colour_counts, ExtractionOrder,
    ExtractionResult,
};
use crate::json::{json_text, ShapeView};
use crate::types::api::{
    fresh_tab_state, opt_view, tab_id_text, Session, StatusData, TabState, TabStateView, WindowGeometry,
};
use crate::APP_NAME;
use crate::types::line::{colour_from_key, MAX_INDENT, plain_line, views, LineColour, LineView, ListType};
use crate::ui_model::{normalize_key, normalized_key};
use crate::types::note::{
    first_nonblank, first_nonblank_of, swatch_rgba, CustomColour, CustomColourView,
};

verus! {

/// An action waiting behind a confirm dialog.
#[derive(Debug, PartialEq, Eq)]
pub enum PendingAction {
    CloseTab(usize),
    CloseApp,
    DeleteNote(i64),
    /// Re-save a file that changed on disk since it was opened.
    OverwriteFile(String),
    /// Discard edits and reload from the note store.
    RevertTab(usize),
}

/// One open document plus what is needed to write it back.
pub struct Tab {
    pub state: TabState,
    pub doc: Document,
    pub encoding: String,
    pub line_ending: LineEnding,
    pub had_bom: bool,
}

/// `t` is a fresh untitled tab whose id carries `seq`.
pub open spec fn is_untitled(t: Tab, seq: u64) -> bool {
    &&& exists|nanos: u64| t.state@ == fresh_tab_state("Untitled"@, tab_id_text(nanos, seq))
    &&& t.doc.wf()
    &&& t.doc@ == fresh_doc(blank_doc())
    &&& t.encoding@ == "utf-8"@
    &&& t.line_ending == LineEnding::Lf
    &&& !t.had_bom
}

impl Tab {
    /// An empty, clean tab named `Untitled`.
    pub fn untitled(seq: u64) -> (t: Self)
        ensures
            is_untitled(t, seq),
    {
        Tab {
            state: TabState::new("Untitled", seq),
            doc: Document::new(),
            encoding: crate::text::to_owned_string("utf-8"),
            line_ending: LineEnding::Lf,
            had_bom: false,
        }
    }

    pub fn is_dirty(&self) -> (r: bool)
        ensures
            r == self.doc@.dirty,
    {
        proof {
            lemma_doc_fields(&self.doc);
        }
        self.doc.dirty
    }
}

/// Caret position.
#[derive(Debug, Clone, Copy, PartialEq, Eq, Default)]
pub struct Cursor {
    pub line: usize,
    pub col: usize,
}

/// The whole editing state of the window.
pub struct AppState {
    pub tabs: Vec<Tab>,
    pub active: usize,
    pub cursor: Cursor,
    /// Set while Shift+Up/Down extends a line selection.
    pub anchor: Option<usize>,
    pub palette: Palette,
    /// Colour key currently armed in the toolbar ("" when none).
    pub armed_colour: String,
    pub find: FindEngine,
    pub find_open: bool,
    pub replace_open: bool,
    pub extract_open: bool,
    pub extract_selected: Vec<String>,
    pub note_query: String,
    pub selected_note_id: i64,
    pub startup_files: Vec<String>,
    pub pending: Option<PendingAction>,
    pub picker_hex: String,
    pub picker_name: String,
    /// Mirror of the window geometry the app asked for.
    pub window_minimised: bool,
    pub window_maximised: bool,
    pub window_fullscreen: bool,
    /// Monotonic counter used to keep toast messages distinct.
    pub toast_seq: u64,
    /// Sequence number for the next tab id.
    pub tab_seq: u64,
}

/// The last line index of a document of `n` lines (0 when empty).
pub open spec fn last_line(n: nat) -> int {
    if n == 0 {
        0
    } else {
        n - 1
    }
}

/// The smaller of two integers.
pub open spec fn min_of(a: int, b: int) -> int {
    if a < b {
        a
    } else {
        b
    }
}

/// Everything but the tabs, the active index, the caret, the selection,
/// the find engine and the tab sequence is as in `b`.
pub open spec fn same_panels(a: AppState, b: AppState) -> bool {
    &&& a.palette == b.palette
    &&& a.armed_colour == b.armed_colour
    &&& a.find_open == b.find_open
    &&& a.replace_open == b.replace_open
    &&& a.extract_open == b.extract_open
    &&& a.extract_selected == b.extract_selected
    &&& a.note_query == b.note_query
    &&& a.selected_note_id == b.selected_note_id
    &&& a.startup_files == b.startup_files
    &&& a.pending == b.pending
    &&& a.picker_hex == b.picker_hex
    &&& a.picker_name == b.picker_name
    &&& a.window_minimised == b.window_minimised
    &&& a.window_maximised == b.window_maximised
    &&& a.window_fullscreen == b.window_fullscreen
    &&& a.toast_seq == b.toast_seq
}

/// A caret pulled onto the last line of `ls` at most, and onto that line's
/// end at most.
pub open spec fn clamped(c: Cursor, ls: Seq<LineView>) -> Cursor {
    let line = min_of(c.line as int, last_line(ls.len()));
    let cols = if line < ls.len() {
        ls[line].text.len() as int
    } else {
        0
    };
    Cursor { line: line as usize, col: min_of(c.col as int, cols) as usize }
}

/// The inclusive line range a caret on `line` and an optional anchor
/// select in a document of `n` lines, both clamped onto its last line.
pub open spec fn selection_of(n: nat, line: usize, anchor: Option<usize>) -> (usize, usize) {
    let last = last_line(n);
    let l = min_of(line as int, last) as usize;
    match anchor {
        Some(a) => {
            let a2 = min_of(a as int, last) as usize;
            if l < a2 {
                (l, a2)
            } else {
                (a2, l)
            }
        },
        None => (l, l),
    }
}

/// Characters of lines `r.0..=r.1` plus one per line break between them; 0
/// for a single line.
pub open spec fn selected_count(ls: Seq<LineView>, r: (usize, usize)) -> nat {
    if r.0 == r.1 {
        0
    } else {
        total_chars(ls.subrange(r.0 as int, r.1 + 1)) + (r.1 - r.0) as nat
    }
}

proof fn lemma_total_chars_concat(a: Seq<LineView>, b: Seq<LineView>)
    ensures
        total_chars(a + b) == total_chars(a) + total_chars(b),
    decreases b.len(),
{
    if b.len() == 0 {
        assert(a + b =~= a);
    } else {
        lemma_total_chars_concat(a, b.drop_last());
        assert((a + b).drop_last() =~= a + b.drop_last());
    }
}

proof fn lemma_total_chars_range(ls: Seq<LineView>, s: int, e: int)
    requires
        0 <= s <= e <= ls.len(),
    ensures
        total_chars(ls.subrange(s, e)) <= total_chars(ls),
{
    lemma_total_chars_concat(ls.subrange(0, s), ls.subrange(s, ls.len() as int));
    assert(ls.subrange(0, s) + ls.subrange(s, ls.len() as int) =~= ls);
    let rest = ls.subrange(s, ls.len() as int);
    lemma_total_chars_concat(rest.subrange(0, e - s), rest.subrange(e - s, rest.len() as int));
    assert(rest.subrange(0, e - s) + rest.subrange(e - s, rest.len() as int) =~= rest);
    assert(rest.subrange(0, e - s) =~= ls.subrange(s, e));
}

proof fn lemma_total_chars_range_mono(ls: Seq<LineView>, s: int, i: int, e: int)
    requires
        0 <= s <= i <= e <= ls.len(),
    ensures
        total_chars(ls.subrange(s, i)) <= total_chars(ls.subrange(s, e)),
{
    let r = ls.subrange(s, e);
    lemma_total_chars_range(r, 0, i - s);
    assert(r.subrange(0, i - s) =~= ls.subrange(s, i));
}

proof fn lemma_bytes_before_mono(ts: Seq<Seq<char>>, a: int, b: int)
    requires
        0 <= a <= b,
    ensures
        bytes_before(ts, a) <= bytes_before(ts, b),
    decreases b - a,
{
    if a < b {
        lemma_bytes_before_mono(ts, a, b - 1);
    }
}

proof fn lemma_search_len(f: &FindEngine)
    requires
        f.current == 0,
    ensures
        f.current <= f.matches@.len(),
{
}

/// `new` is `old` with the active tab's document now viewed as `d`; when
/// `mark` the tab's dirty flag follows the document, otherwise the tab's
/// state is untouched. Every other tab is unchanged.
pub open spec fn doc_replaced(new: Seq<Tab>, old: Seq<Tab>, a: int, d: DocView, mark: bool) -> bool {
    &&& new.len() == old.len()
    &&& forall|i: int| 0 <= i < old.len() && i != a ==> #[trigger] new[i] == old[i]
    &&& new[a].doc.wf()
    &&& new[a].doc@ == d
    &&& new[a].state@ == (if mark {
        TabStateView { dirty: d.dirty, ..old[a].state@ }
    } else {
        old[a].state@
    })
    &&& new[a].encoding == old[a].encoding
    &&& new[a].line_ending == old[a].line_ending
    &&& new[a].had_bom == old[a].had_bom
}

/// One more piece of a multi-line paste: a blank line goes in after `at`
/// (clamped onto the last line), takes the piece as its text, and carries
/// on the list type and depth of the line the paste started on.
pub open spec fn split_step(d: DocView, at: int, piece: Seq<char>, t: ListType, depth: u8) -> (
    DocView,
    int,
) {
    let at2 = (if at < d.lines.len() - 1 {
        at
    } else {
        d.lines.len() - 1
    }) + 1;
    let d1 = edit_then_commit(d, d.lines.insert(at2, plain_line(Seq::empty())));
    let d2 = set_text_result(d1, at2, piece).0;
    let d3 = if t is NoList {
        d2
    } else {
        DocView {
            lines: d2.lines.update(at2, LineView { list_type: t, indent: depth, ..d2.lines[at2] }),
            ..d2
        }
    };
    (d3, at2)
}

/// The pieces after the first, one after another.
pub open spec fn split_fold(d: DocView, at: int, pieces: Seq<Seq<char>>, t: ListType, depth: u8) -> (
    DocView,
    int,
)
    decreases pieces.len(),
{
    if pieces.len() == 0 {
        (d, at)
    } else {
        let (d1, at1) = split_fold(d, at, pieces.drop_last(), t, depth);
        split_step(d1, at1, pieces.last(), t, depth)
    }
}

/// The list type and depth a paste into line `index` carries on.
pub open spec fn paste_list(ls: Seq<LineView>, index: int) -> (ListType, u8) {
    if 0 <= index < ls.len() {
        (ls[index].list_type, ls[index].indent)
    } else {
        (ListType::NoList, 0)
    }
}

/// A multi-line text typed into line `index`: the first piece replaces the
/// line's text, every further piece gets a line of its own below, and the
/// result is committed. Also the line the caret ends on.
pub open spec fn split_result(d: DocView, index: int, text: Seq<char>) -> (DocView, int) {
    let pieces = split_nl(text);
    let (t, depth) = paste_list(d.lines, index);
    let d1 = set_text_result(d, index, pieces[0]).0;
    let (d2, at) = split_fold(d1, index, pieces.drop_first(), t, depth);
    (commit_view(d2), at)
}

fn split_text(text: &str) -> (v: Vec<String>)
    ensures
        strs(v@) == split_nl(text@),
{
    let cs = crate::text::chars_of(text);
    let mut v: Vec<String> = Vec::new();
    let mut piece: Vec<char> = Vec::new();
    let mut i: usize = 0;
    assert(cs@.subrange(0, 0) =~= Seq::<char>::empty());
    assert(split_nl(Seq::<char>::empty()) =~= strs(v@).push(piece@));
    while i < cs.len()
        invariant
            cs@ == text@,
            i <= cs@.len(),
            split_nl(cs@.subrange(0, i as int)) == strs(v@).push(piece@),
        decreases cs@.len() - i,
    {
        let ghost nxt = cs@.subrange(0, i + 1);
        assert(nxt.drop_last() =~= cs@.subrange(0, i as int));
        if cs[i] == '\n' {
            v.push(crate::text::string_from_chars(&piece));
            piece = Vec::new();
            assert(split_nl(nxt) =~= strs(v@).push(piece@));
        } else {
            piece.push(cs[i]);
            assert(split_nl(nxt) =~= strs(v@).push(piece@));
        }
        i += 1;
    }
    v.push(crate::text::string_from_chars(&piece));
    assert(cs@.subrange(0, cs@.len() as int) =~= cs@);
    v
}

fn has_newline(text: &str) -> (r: bool)
    ensures
        r == text@.contains('\n'),
{
    let cs = crate::text::chars_of(text);
    let mut i: usize = 0;
    while i < cs.len()
        invariant
            cs@ == text@,
            i <= cs@.len(),
            forall|j: int| 0 <= j < i ==> cs@[j] != '\n',
        decreases cs@.len() - i,
    {
        if cs[i] == '\n' {
            assert(text@[i as int] == '\n');
            return true;
        }
        i += 1;
    }
    false
}

proof fn lemma_split_len(t: Seq<char>)
    ensures
        split_nl(t).len() >= 1,
        t.contains('\n') ==> split_nl(t).len() >= 2,
    decreases t.len(),
{
    if t.len() > 0 {
        lemma_split_len(t.drop_last());
        if t.contains('\n') && t.last() != '\n' {
            let k = choose|k: int| 0 <= k < t.len() && t[k] == '\n';
            assert(t.drop_last()[k] == '\n');
        }
    }
}

/// The digits of a `#` key as a custom colour reads them: doubled when
/// they take three bytes.
pub open spec fn expanded_hex(hex: Seq<char>) -> Seq<char> {
    if byte_len(hex) == 3 {
        Seq::new(hex.len() * 2, |i: int| hex[i / 2])
    } else {
        hex
    }
}

/// The packed colour a `#rgb`, `#rrggbb` or `#rrggbbaa` key (lengths in
/// bytes) names, when its digits read as hex.
pub open spec fn key_custom_rgba(key: Seq<char>) -> Option<u32> {
    if key.len() > 0 && key[0] == '#' {
        let hex = key.drop_first();
        let n = byte_len(hex);
        if n == 3 || n == 6 || n == 8 {
            let e = expanded_hex(hex);
            match radix16(e) {
                Some(v) => Some(
                    if byte_len(e) == 6 {
                        ((v as u32) << 8u32) | 0xffu32
                    } else {
                        v as u32
                    },
                ),
                None => None,
            }
        } else {
            None
        }
    } else {
        None
    }
}

/// The swatch a `#` key adds to the palette: named by `#` and its
/// expanded digits, with the first six of them as its hex.
pub open spec fn key_swatch(key: Seq<char>, rgba: u32) -> CustomColourView {
    let e = expanded_hex(key.drop_first());
    CustomColourView {
        name: seq!['#'] + e,
        hex: seq!['#'] + e.subrange(0, min_of(6, e.len() as int)),
        rgba: rgba,
    }
}

/// The colour a toolbar key names, and the palette afterwards: a palette
/// key reads as its colour; an unknown `#` key whose digits read becomes a
/// custom colour, added to the palette unless a swatch already has it.
pub open spec fn key_colour(palette: Seq<CustomColourView>, key: Seq<char>) -> (
    Option<LineColour>,
    Seq<CustomColourView>,
) {
    match found_colour(palette, key) {
        Some(c) => (Some(c), palette),
        None => match key_custom_rgba(key) {
            Some(rgba) => (
                Some(LineColour::Custom(rgba)),
                if exists|i: int| 0 <= i < palette.len() && (#[trigger] palette[i]).rgba == rgba {
                    palette
                } else {
                    with_custom(palette, key_swatch(key, rgba))
                },
            ),
            None => (None, palette),
        },
    }
}

/// The highlight colours among extraction keys, in order.
pub open spec fn extract_colours(keys: Seq<Seq<char>>) -> Seq<LineColour>
    decreases keys.len(),
{
    if keys.len() == 0 {
        Seq::empty()
    } else {
        let p = extract_colours(keys.drop_last());
        let c = colour_from_key(keys.last());
        if c is NoColour {
            p
        } else {
            p.push(c)
        }
    }
}

/// The active lines after the find engine replaced its matches, if it
/// replaced any: `(lines, count)`.
pub open spec fn replaced_all(f: FindEngine, ls: Seq<LineView>) -> (Seq<LineView>, nat) {
    if f.matches@.len() == 0 || f.query@.len() == 0 {
        (ls, 0)
    } else {
        apply_rev(ls, f.matches@, f.replacement@)
    }
}

/// The window title: the active tab's name, a dot when it has unsaved
/// changes, a dash and the application name.
pub open spec fn title_text(name: Seq<char>, dirty: bool) -> Seq<char> {
    if dirty {
        name + " \u{25cf} \u{2014} "@ + APP_NAME@
    } else {
        name + " \u{2014} "@ + APP_NAME@
    }
}

/// The only tab is clean and blank, so a file can take its place.
pub open spec fn pristine(tabs: Seq<Tab>) -> bool {
    &&& tabs.len() == 1
    &&& !tabs[0].doc@.dirty
    &&& forall|i: int| 0 <= i < tabs[0].doc@.lines.len() ==> (#[trigger] tabs[0].doc@.lines[i]).text.len() == 0
}

/// A tab state after a file was loaded into it.
pub open spec fn loaded_state(base: TabStateView, f: LoadedFileView) -> TabStateView {
    TabStateView {
        name: display_file_name(f.path),
        path: Some(f.path),
        dirty: false,
        encoding: f.encoding,
        line_ending: ending_label(f.line_ending),
        ..base
    }
}

/// What the editor keeps of a loaded file.
pub struct LoadedFileView {
    pub path: Seq<char>,
    pub content: Seq<char>,
    pub encoding: Seq<char>,
    pub line_ending: LineEnding,
    pub had_bom: bool,
}

/// The view of a loaded file.
pub open spec fn loaded_view(f: LoadedFile) -> LoadedFileView {
    LoadedFileView {
        path: f.path@,
        content: f.content@,
        encoding: f.encoding@,
        line_ending: f.line_ending,
        had_bom: f.had_bom,
    }
}

/// The title a note gets from its text: the first line that is not blank,
/// trimmed and cut to 45 characters plus `...` when longer than 48;
/// `Untitled` when every line is blank.
pub open spec fn note_title_of(text: Seq<char>) -> Seq<char> {
    let first = first_nonblank(split_nl(text));
    if first.len() == 0 {
        "Untitled"@
    } else if first.len() > 48 {
        first.subrange(0, 45) + "..."@
    } else {
        first
    }
}

/// The lines a stored note opens as: its text, then its highlights and
/// list structure re-applied, then renumbered.
pub open spec fn note_lines(content: Seq<char>, highlights: Seq<char>, lists: Seq<char>) -> Seq<LineView> {
    let base = prepared(text_lines(content));
    let with_colours = highlights_applied(base, highlights).0;
    renumbered(list_structure_applied(with_colours, lists).0)
}

/// "N notes" when every note is shown, "S of N notes" when a search hides
/// some; "note" when there is one in all.
pub open spec fn count_label(shown: nat, total: nat) -> Seq<char> {
    let noun = if total == 1 {
        "note"@
    } else {
        "notes"@
    };
    if shown == total {
        decimal(total) + " "@ + noun
    } else {
        decimal(shown) + " of "@ + decimal(total) + " "@ + noun
    }
}

/// A session with no tabs, stamped with the current format version.
pub fn blank_session() -> (s: Session)
    ensures
        s.version == SESSION_VERSION,
        s.active_tab == 0,
        s.tabs@.len() == 0,
        s.documents@.len() == 0,
        s.highlights@.len() == 0,
        s.list_structures@.len() == 0,
        s.window == (WindowGeometry { width: 1200, height: 800 }),
{
    let mut s = Session::default();
    s.version = SESSION_VERSION;
    s
}

/// The title for a note made from `text`.
pub fn first_line_or_untitled(text: &str) -> (t: String)
    ensures
        t@ == note_title_of(text@),
{
    let first = first_nonblank_of(text);
    if first.len() == 0 {
        crate::text::to_owned_string("Untitled")
    } else if first.len() > 48 {
        let mut head: Vec<char> = Vec::new();
        let mut j: usize = 0;
        while j < 45
            invariant
                j <= 45,
                first@.len() > 48,
                head@ == first@.subrange(0, j as int),
            decreases 45 - j,
        {
            head.push(first[j]);
            j += 1;
        }
        let mut t = crate::text::string_from_chars(&head);
        crate::text::push_str(&mut t, "...");
        t
    } else {
        crate::text::string_from_chars(&first)
    }
}

/// A highlight blob and a list blob read back onto lines as many as `ls`
/// as the colours and list fields of `ls`.
pub open spec fn read_back_as(hl: Seq<char>, lst: Seq<char>, ls: Seq<LineView>) -> bool {
    &&& forall|target: Seq<LineView>|
        target.len() == ls.len() ==> #[trigger] highlights_applied(target, hl) == (
            colours_restored(target, ls),
            highlighted_count(ls),
        )
    &&& forall|target: Seq<LineView>|
        target.len() == ls.len() ==> #[trigger] list_structure_applied(target, lst) == (
            lists_restored(target, ls),
            list_line_count(ls),
        )
}

/// What [`AppState::open_note_text`] and [`AppState::restore_session`]
/// read back of lines `ls` stored as their plain text, their highlight blob
/// and their list blob: the same texts, the same list types, depths (capped
/// at [`MAX_INDENT`]) and ticks (on check items only), and the same colours
/// when custom colours are opaque.
pub proof fn lemma_reopen_restores(ls: Seq<LineView>, doc: Seq<char>, hl: Seq<char>, lst: Seq<char>)
    requires
        0 < ls.len() <= usize::MAX,
        forall|j: int|
            0 <= j < ls.len() ==> !(#[trigger] ls[j]).text.contains('\n') && !ls[j].text.contains('\r'),
        doc == join_nl(texts(ls)),
        read_back_as(hl, lst, ls),
    ensures
        note_lines(doc, hl, lst).len() == ls.len(),
        forall|j: int|
            0 <= j < ls.len() ==> {
                let r = #[trigger] note_lines(doc, hl, lst)[j];
                &&& r.text == ls[j].text
                &&& r.list_type == ls[j].list_type
                &&& r.indent == (if ls[j].list_type is NoList {
                    0
                } else {
                    min_of(ls[j].indent as int, MAX_INDENT as int)
                })
                &&& r.checked == (ls[j].checked && ls[j].list_type is Check)
                &&& opaque_customs(ls) ==> r.colour == ls[j].colour
            },
{
    let ts = texts(ls);
    assert forall|k: int| 0 <= k < ts.len() implies !(#[trigger] ts[k]).contains('\n') by {
        assert(ts[k] == ls[k].text);
    }
    lemma_split_join(ts);
    let base = prepared(text_lines(doc));
    assert(base.len() == ls.len());
    assert forall|j: int| 0 <= j < ls.len() implies {
        let b = #[trigger] base[j];
        &&& b.text == ls[j].text
        &&& b.colour == LineColour::NoColour
        &&& b.list_type == ListType::NoList
        &&& b.indent == 0
        &&& !b.checked
    } by {
        let p = ts[j];
        assert(p == ls[j].text);
        assert(trim_cr(p) == p) by {
            if p.len() > 0 {
                assert(p.last() == p[p.len() - 1]);
                assert(!ls[j].text.contains('\r'));
                if p.last() == '\r' {
                    assert(ls[j].text[p.len() - 1] == '\r');
                }
            }
        }
    }
    let l1 = colours_restored(base, ls);
    let l2 = lists_restored(l1, ls);
    lemma_highlight_members_reapply(base, ls);
    assert(note_lines(doc, hl, lst) == renumbered(l2));
}

/// The count shown above the note list.
pub fn note_count_label(shown: usize, total: usize) -> (s: String)
    ensures
        s@ == count_label(shown as nat, total as nat),
{
    let noun = if total == 1 {
        "note"
    } else {
        "notes"
    };
    let mut s = String::new();
    if shown != total {
        crate::text::push_decimal(&mut s, shown as u64);
        crate::text::push_str(&mut s, " of ");
    }
    crate::text::push_decimal(&mut s, total as u64);
    crate::text::push_str(&mut s, " ");
    crate::text::push_str(&mut s, noun);
    s
}

/// The decimal form of a signed number.
pub open spec fn signed_decimal(n: int) -> Seq<char> {
    if n < 0 {
        seq!['-'] + decimal((-n) as nat)
    } else {
        decimal(n as nat)
    }
}

/// Append the decimal form of a signed number.
fn push_signed(s: &mut String, n: i64)
    ensures
        final(s)@ == old(s)@ + signed_decimal(n as int),
{
    if n < 0 {
        s.push('-');
        let m: u64 = if n == i64::MIN {
            9223372036854775808u64
        } else {
            (-n) as u64
        };
        crate::text::push_decimal(s, m);
        assert(final(s)@ =~= old(s)@ + signed_decimal(n as int));
    } else {
        crate::text::push_decimal(s, n as u64);
    }
}

/// `Ln L, Col C` (both from 1), and how many characters are selected when
/// any are.
pub open spec fn caret_text(line: nat, col: nat, selected: nat) -> Seq<char> {
    let base = "Ln "@ + decimal(line + 1) + ", Col "@ + decimal(col + 1);
    if selected > 0 {
        base + "    "@ + decimal(selected) + " selected"@
    } else {
        base
    }
}

/// `W words · C chars · L lines`.
pub open spec fn metrics_text(words: nat, chars: nat, lines: nat) -> Seq<char> {
    decimal(words) + " words \u{00b7} "@ + decimal(chars) + " chars \u{00b7} "@ + decimal(lines) + " lines"@
}

/// Nothing, `1 highlight`, or `N highlights`.
pub open spec fn highlight_text(n: nat) -> Seq<char> {
    if n == 0 {
        Seq::empty()
    } else if n == 1 {
        "1 highlight"@
    } else {
        decimal(n) + " highlights"@
    }
}

/// The name a confirm dialog gives tab `i`.
pub open spec fn tab_name_or(tabs: Seq<Tab>, i: int) -> Seq<char> {
    if 0 <= i < tabs.len() {
        tabs[i].state.name@
    } else {
        "this tab"@
    }
}

/// What the confirm dialog says for an action: title, message, the
/// confirming button's label, and whether it is destructive.
pub open spec fn described(action: PendingAction, tabs: Seq<Tab>) -> (Seq<char>, Seq<char>, Seq<char>, bool) {
    match action {
        PendingAction::CloseTab(i) => (
            "Discard unsaved changes?"@,
            tab_name_or(tabs, i as int) + " has unsaved changes. Close it anyway?"@,
            "Discard"@,
            true,
        ),
        PendingAction::CloseApp => (
            "Quit NotePad Pro?"@,
            "Some tabs have unsaved changes. Quit anyway?"@,
            "Quit"@,
            true,
        ),
        PendingAction::DeleteNote(id) => (
            "Delete note?"@,
            "Note #"@ + signed_decimal(id as int) + " will be removed from the database. This cannot be undone."@,
            "Delete"@,
            true,
        ),
        PendingAction::OverwriteFile(path) => (
            "File changed on disk"@,
            path@ + "\n\nOverwrite it with your version?"@,
            "Overwrite"@,
            true,
        ),
        PendingAction::RevertTab(i) => (
            "Discard unsaved changes?"@,
            tab_name_or(tabs, i as int) + " will be reloaded from the stored note."@,
            "Discard"@,
            true,
        ),
    }
}

/// The text of the confirm dialog for a pending action.
pub fn describe(action: &PendingAction, state: &AppState) -> (r: (String, String, String, bool))
    ensures
        (r.0@, r.1@, r.2@, r.3) == described(*action, state.tabs@),
{
    match action {
        PendingAction::CloseTab(index) => {
            let mut message = tab_name(state, *index);
            crate::text::push_str(&mut message, " has unsaved changes. Close it anyway?");
            (
                crate::text::to_owned_string("Discard unsaved changes?"),
                message,
                crate::text::to_owned_string("Discard"),
                true,
            )
        },
        PendingAction::CloseApp => (
            crate::text::to_owned_string("Quit NotePad Pro?"),
            crate::text::to_owned_string("Some tabs have unsaved changes. Quit anyway?"),
            crate::text::to_owned_string("Quit"),
            true,
        ),
        PendingAction::DeleteNote(id) => {
            let mut message = crate::text::to_owned_string("Note #");
            push_signed(&mut message, *id);
            crate::text::push_str(&mut message, " will be removed from the database. This cannot be undone.");
            (
                crate::text::to_owned_string("Delete note?"),
                message,
                crate::text::to_owned_string("Delete"),
                true,
            )
        },
        PendingAction::OverwriteFile(path) => {
            let mut message = path.clone();
            crate::text::push_str(&mut message, "\n\nOverwrite it with your version?");
            (
                crate::text::to_owned_string("File changed on disk"),
                message,
                crate::text::to_owned_string("Overwrite"),
                true,
            )
        },
        PendingAction::RevertTab(index) => {
            let mut message = tab_name(state, *index);
            crate::text::push_str(&mut message, " will be reloaded from the stored note.");
            (
                crate::text::to_owned_string("Discard unsaved changes?"),
                message,
                crate::text::to_owned_string("Discard"),
                true,
            )
        },
    }
}

fn tab_name(state: &AppState, index: usize) -> (s: String)
    ensures
        s@ == tab_name_or(state.tabs@, index as int),
{
    if index < state.tabs.len() {
        state.tabs[index].state.name.clone()
    } else {
        crate::text::to_owned_string("this tab")
    }
}

/// The lines tab `i` of a saved session opens with: its text (empty when
/// missing), its highlights and list structure re-applied when present,
/// renumbered.
pub open spec fn restored_lines(docs: Seq<String>, hls: Seq<String>, lists: Seq<String>, i: int) -> Seq<
    LineView,
> {
    let content = if i < docs.len() {
        docs[i]@
    } else {
        Seq::empty()
    };
    let base = prepared(text_lines(content));
    let l1 = if i < hls.len() {
        highlights_applied(base, hls[i]@).0
    } else {
        base
    };
    let l2 = if i < lists.len() {
        list_structure_applied(l1, lists[i]@).0
    } else {
        l1
    };
    renumbered(l2)
}

/// The text of tab `i` of a saved session, empty when missing.
pub open spec fn restored_text(docs: Seq<String>, i: int) -> Seq<char> {
    if i < docs.len() {
        docs[i]@
    } else {
        Seq::empty()
    }
}

/// Line `i` of `old` was split in two by Enter to give `new`: everything
/// before and after it is unchanged, and its text is the two new lines'
/// texts joined.
pub open spec fn split_at_line(old: Seq<Seq<char>>, new: Seq<Seq<char>>, i: int) -> bool {
    &&& 0 <= i < old.len()
    &&& new.len() == old.len() + 1
    &&& new.subrange(0, i) == old.subrange(0, i)
    &&& new.subrange(i + 2, new.len() as int) == old.subrange(i + 1, old.len() as int)
    &&& old[i] == new[i] + new[i + 1]
}

/// How far line `i` is from the caret's line.
pub open spec fn distance(i: int, hint: int) -> int {
    if i < hint {
        hint - i
    } else {
        i - hint
    }
}

/// The line that Enter split to turn `old` into `new`: of the lines whose
/// split explains the change, the nearest to the caret, the first of equally
/// near ones; `None` when no split explains it.
pub open spec fn enter_split_ok(old: Seq<Seq<char>>, new: Seq<Seq<char>>, hint: int, r: Option<usize>) -> bool {
    match r {
        None => forall|i: int| 0 <= i < old.len() ==> !#[trigger] split_at_line(old, new, i),
        Some(i) => {
            &&& split_at_line(old, new, i as int)
            &&& forall|j: int|
                0 <= j < old.len() && #[trigger] split_at_line(old, new, j) ==> distance(i as int, hint) <= distance(
                    j,
                    hint,
                )
            &&& forall|j: int|
                0 <= j < i && #[trigger] split_at_line(old, new, j) ==> distance(i as int, hint) < distance(j, hint)
        },
    }
}

fn strings_eq(a: &[String], b: &[String], a0: usize, b0: usize, n: usize) -> (r: bool)
    requires
        a0 + n <= a@.len(),
        b0 + n <= b@.len(),
    ensures
        r == (strs(a@).subrange(a0 as int, a0 + n) == strs(b@).subrange(b0 as int, b0 + n)),
{
    let la = a.len();
    let lb = b.len();
    let mut k: usize = 0;
    while k < n
        invariant
            k <= n,
            a0 + n <= a@.len(),
            b0 + n <= b@.len(),
            la == a@.len(),
            lb == b@.len(),
            forall|j: int|
                0 <= j < k ==> strs(a@).subrange(a0 as int, a0 + n)[j] == #[trigger] strs(b@).subrange(
                    b0 as int,
                    b0 + n,
                )[j],
        decreases n - k,
    {
        if !crate::text::str_eq(a[a0 + k].as_str(), b[b0 + k].as_str()) {
            assert(strs(a@).subrange(a0 as int, a0 + n)[k as int] != strs(b@).subrange(b0 as int, b0 + n)[k as int]);
            return false;
        }
        k += 1;
    }
    assert(strs(a@).subrange(a0 as int, a0 + n) =~= strs(b@).subrange(b0 as int, b0 + n));
    true
}

fn joins_to(whole: &str, head: &str, tail: &str) -> (r: bool)
    ensures
        r == (whole@ == head@ + tail@),
{
    let w = crate::text::chars_of(whole);
    let h = crate::text::chars_of(head);
    let t = crate::text::chars_of(tail);
    if h.len() > w.len() || w.len() - h.len() != t.len() {
        assert(whole@.len() != (head@ + tail@).len());
        return false;
    }
    let mut k: usize = 0;
    while k < w.len()
        invariant
            k <= w@.len(),
            w@.len() == h@.len() + t@.len(),
            w@ == whole@,
            h@ == head@,
            t@ == tail@,
            forall|j: int| 0 <= j < k ==> w@[j] == (h@ + t@)[j],
        decreases w@.len() - k,
    {
        let c = if k < h.len() {
            h[k]
        } else {
            t[k - h.len()]
        };
        if w[k] != c {
            assert(whole@[k as int] != (head@ + tail@)[k as int]);
            return false;
        }
        k += 1;
    }
    assert(whole@ =~= head@ + tail@);
    true
}

/// Find the line that Enter split, by comparing the lines before and after;
/// the caret's line breaks ties between equally good candidates.
pub fn detect_enter_split(old: &[String], new: &[String], caret_hint: usize) -> (r: Option<usize>)
    ensures
        enter_split_ok(strs(old@), strs(new@), caret_hint as int, r),
{
    let ghost o = strs(old@);
    let ghost nw = strs(new@);
    let n_new = new.len();
    if n_new == 0 || n_new - 1 != old.len() {
        return None;
    }
    let mut best: Option<(usize, usize)> = None;
    let mut i: usize = 0;
    while i < old.len()
        invariant
            i <= old@.len(),
            n_new == new@.len(),
            new@.len() == old@.len() + 1,
            o == strs(old@),
            nw == strs(new@),
            match best {
                None => forall|j: int| 0 <= j < i ==> !#[trigger] split_at_line(o, nw, j),
                Some((d, b)) => {
                    &&& b < i
                    &&& d == distance(b as int, caret_hint as int)
                    &&& split_at_line(o, nw, b as int)
                    &&& forall|j: int|
                        0 <= j < i && #[trigger] split_at_line(o, nw, j) ==> d <= distance(j, caret_hint as int)
                    &&& forall|j: int|
                        0 <= j < b && #[trigger] split_at_line(o, nw, j) ==> d < distance(j, caret_hint as int)
                },
            },
        decreases old@.len() - i,
    {
        let same_before = strings_eq(new, old, 0, 0, i);
        let same_after = strings_eq(new, old, i + 2, i + 1, old.len() - i - 1);
        let joined = joins_to(old[i].as_str(), new[i].as_str(), new[i + 1].as_str());
        proof {
            assert(nw.subrange(0, i as int) =~= strs(new@).subrange(0, i as int));
            assert(o[i as int] == old@[i as int]@);
            assert(nw[i as int] == new@[i as int]@);
            assert(nw[i + 1] == new@[i + 1]@);
        }
        if same_before && same_after && joined {
            let d = if i < caret_hint {
                caret_hint - i
            } else {
                i - caret_hint
            };
            let better = match best {
                Some((bd, _)) => d < bd,
                None => true,
            };
            if better {
                best = Some((d, i));
            }
        }
        i += 1;
    }
    match best {
        Some((_, b)) => Some(b),
        None => None,
    }
}

/// The first position where two lists of lines differ, over their common
/// length.
pub open spec fn first_diff(a: Seq<Seq<char>>, b: Seq<Seq<char>>) -> Option<int> {
    if exists|k: int| 0 <= k < a.len() && k < b.len() && a[k] != b[k] {
        Some(choose|k: int| 0 <= k < a.len() && k < b.len() && a[k] != b[k] && forall|j: int| 0 <= j < k ==> a[j] == b[j])
    } else {
        None
    }
}

/// Bytes of the lines before line `n`, one more each for its line break.
pub open spec fn bytes_before(ts: Seq<Seq<char>>, n: int) -> nat
    decreases n,
{
    if n <= 0 {
        0
    } else {
        bytes_before(ts, n - 1) + byte_len(ts[n - 1]) + 1
    }
}

/// Where the native caret goes back to after the surface is rewritten from
/// the model: `None` when the model's text is what the surface shows;
/// otherwise the byte offset of the caret's column (clamped) on the line
/// after a split, or else on the first line that differs, or else on the
/// caret's line (clamped onto the last line).
pub open spec fn restore_offset(ts: Seq<Seq<char>>, surface: Seq<char>, split: Option<usize>, c: Cursor) -> Option<
    nat,
> {
    if join_nl(ts) == surface {
        None
    } else {
        let line0 = match split {
            Some(i) => i + 1,
            None => match first_diff(split_nl(surface), ts) {
                Some(k) => k,
                None => c.line as int,
            },
        };
        let line = min_of(line0, last_line(ts.len()));
        let col = min_of(c.col as int, ts[line].len() as int);
        Some(bytes_before(ts, line) + byte_len(ts[line].subrange(0, col)))
    }
}

/// The list type a click applies when the caret line has `current`: the
/// same type again clears the marker, anything else is applied.
pub open spec fn toggled_list_type(current: Option<ListType>, requested: ListType) -> ListType {
    if !(requested is NoList) && current == Some(requested) {
        ListType::NoList
    } else {
        requested
    }
}

/// See [`toggled_list_type`].
pub fn effective_list_type(current: Option<ListType>, requested: ListType) -> (r: ListType)
    ensures
        r == toggled_list_type(current, requested),
{
    let same = match current {
        Some(c) => c == requested,
        None => false,
    };
    if !matches!(requested, ListType::NoList) && same {
        ListType::NoList
    } else {
        requested
    }
}

/// The action a Ctrl shortcut stands for.
#[derive(Debug, Clone, Copy, PartialEq, Eq)]
pub enum Shortcut {
    NewTab,
    Open,
    Save,
    SaveAs,
    SaveToNotes,
    CloseTab,
    Undo,
    Redo,
    Find,
    Replace,
    BulletList,
    NumberedList,
    CheckList,
    ToggleArmedHighlight,
    ToggleExtractPanel,
    ToggleSidebar,
    ToggleDarkTwin,
    ZoomIn,
    ZoomOut,
    ZoomReset,
    InsertDateTime,
}

/// The shortcut for a key (already normalised) with or without Shift.
pub open spec fn shortcut_of(key: char, shift: bool) -> Option<Shortcut> {
    if !shift {
        if key == 'n' {
            Some(Shortcut::NewTab)
        } else if key == 'o' {
            Some(Shortcut::Open)
        } else if key == 's' {
            Some(Shortcut::Save)
        } else if key == 'w' {
            Some(Shortcut::CloseTab)
        } else if key == 'z' {
            Some(Shortcut::Undo)
        } else if key == 'y' {
            Some(Shortcut::Redo)
        } else if key == 'f' {
            Some(Shortcut::Find)
        } else if key == 'h' {
            Some(Shortcut::Replace)
        } else if key == 'b' {
            Some(Shortcut::ToggleSidebar)
        } else if key == '=' || key == '+' {
            Some(Shortcut::ZoomIn)
        } else if key == '-' {
            Some(Shortcut::ZoomOut)
        } else if key == '0' {
            Some(Shortcut::ZoomReset)
        } else {
            None
        }
    } else {
        if key == 's' {
            Some(Shortcut::SaveAs)
        } else if key == 'n' {
            Some(Shortcut::SaveToNotes)
        } else if key == 'z' {
            Some(Shortcut::Redo)
        } else if key == '8' {
            Some(Shortcut::BulletList)
        } else if key == '7' {
            Some(Shortcut::NumberedList)
        } else if key == '9' {
            Some(Shortcut::CheckList)
        } else if key == 'h' {
            Some(Shortcut::ToggleArmedHighlight)
        } else if key == 'e' {
            Some(Shortcut::ToggleExtractPanel)
        } else if key == 'd' {
            Some(Shortcut::ToggleDarkTwin)
        } else if key == 't' {
            Some(Shortcut::InsertDateTime)
        } else {
            None
        }
    }
}

/// The shortcut a key event stands for: only with Ctrl held, and only for
/// keys that read as one (see [`normalize_key`]).
pub fn shortcut_for(text: &str, ctrl: bool, shift: bool) -> (r: Option<Shortcut>)
    ensures
        r == if !ctrl {
            None
        } else {
            match normalized_key(text@) {
                Some(k) => shortcut_of(k, shift),
                None => None,
            }
        },
{
    if !ctrl {
        return None;
    }
    let key = match normalize_key(text) {
        Some(k) => k,
        None => {
            return None;
        },
    };
    if !shift {
        if key == 'n' {
            Some(Shortcut::NewTab)
        } else if key == 'o' {
            Some(Shortcut::Open)
        } else if key == 's' {
            Some(Shortcut::Save)
        } else if key == 'w' {
            Some(Shortcut::CloseTab)
        } else if key == 'z' {
            Some(Shortcut::Undo)
        } else if key == 'y' {
            Some(Shortcut::Redo)
        } else if key == 'f' {
            Some(Shortcut::Find)
        } else if key == 'h' {
            Some(Shortcut::Replace)
        } else if key == 'b' {
            Some(Shortcut::ToggleSidebar)
        } else if key == '=' || key == '+' {
            Some(Shortcut::ZoomIn)
        } else if key == '-' {
            Some(Shortcut::ZoomOut)
        } else if key == '0' {
            Some(Shortcut::ZoomReset)
        } else {
            None
        }
    } else if key == 's' {
        Some(Shortcut::SaveAs)
    } else if key == 'n' {
        Some(Shortcut::SaveToNotes)
    } else if key == 'z' {
        Some(Shortcut::Redo)
    } else if key == '8' {
        Some(Shortcut::BulletList)
    } else if key == '7' {
        Some(Shortcut::NumberedList)
    } else if key == '9' {
        Some(Shortcut::CheckList)
    } else if key == 'h' {
        Some(Shortcut::ToggleArmedHighlight)
    } else if key == 'e' {
        Some(Shortcut::ToggleExtractPanel)
    } else if key == 'd' {
        Some(Shortcut::ToggleDarkTwin)
    } else if key == 't' {
        Some(Shortcut::InsertDateTime)
    } else {
        None
    }
}

impl AppState {
    /// Well-formedness: at least one tab, the active one among them, every
    /// document well formed, the find position on or past its matches.
    pub open spec fn wf(&self) -> bool {
        &&& self.tabs@.len() > 0
        &&& self.active < self.tabs@.len()
        &&& forall|i: int| 0 <= i < self.tabs@.len() ==> (#[trigger] self.tabs@[i]).doc.wf()
        &&& self.find.current <= self.find.matches@.len()
    }

    /// The active document's lines.
    pub open spec fn lines(&self) -> Seq<LineView> {
        self.tabs@[self.active as int].doc@.lines
    }

    /// The view of the active document.
    pub open spec fn lines_doc(&self) -> DocView {
        self.tabs@[self.active as int].doc@
    }

    /// The find engine holds exactly the matches of its query over the
    /// active document, with the first one current.
    pub open spec fn find_fresh(&self) -> bool {
        &&& self.find.searched(self.lines())
        &&& self.find.current == 0
    }

    /// One clean untitled tab, the caret at the start, `yellow` armed and
    /// picked for extraction, the given custom colours in the palette.
    pub fn new(custom_palette: Vec<CustomColour>) -> (s: Self)
        ensures
            s.wf(),
            s.tabs@.len() == 1,
            is_untitled(s.tabs@[0], 0),
            s.active == 0,
            s.cursor == (Cursor { line: 0, col: 0 }),
            s.anchor is None,
            s.palette@ == custom_views(custom_palette@),
            s.armed_colour@ == "yellow"@,
            !s.find_open && !s.replace_open && !s.extract_open,
            s.extract_selected@.len() == 1 && s.extract_selected@[0]@ == "yellow"@,
            s.note_query@.len() == 0,
            s.selected_note_id == -1,
            s.startup_files@.len() == 0,
            s.pending is None,
            s.picker_hex@ == "#ffe27a"@,
            s.picker_name@ == "Custom"@,
            !s.window_minimised && !s.window_maximised && !s.window_fullscreen,
            s.toast_seq == 0,
            s.tab_seq == 1,
            s.find.query@.len() == 0 && s.find.matches@.len() == 0 && s.find.current == 0,
    {
        let mut tabs: Vec<Tab> = Vec::new();
        tabs.push(Tab::untitled(0));
        let mut extract_selected: Vec<String> = Vec::new();
        extract_selected.push(crate::text::to_owned_string("yellow"));
        AppState {
            tabs,
            active: 0,
            cursor: Cursor { line: 0, col: 0 },
            anchor: None,
            palette: Palette::new(custom_palette),
            armed_colour: crate::text::to_owned_string("yellow"),
            find: FindEngine::new(),
            find_open: false,
            replace_open: false,
            extract_open: false,
            extract_selected,
            note_query: String::new(),
            selected_note_id: -1,
            startup_files: Vec::new(),
            pending: None,
            picker_hex: crate::text::to_owned_string("#ffe27a"),
            picker_name: crate::text::to_owned_string("Custom"),
            window_minimised: false,
            window_maximised: false,
            window_fullscreen: false,
            toast_seq: 0,
            tab_seq: 1,
        }
    }
    // ── Tabs ──────────────────────────────────────────────────────────────

    pub fn tab(&self) -> (t: &Tab)
        requires
            self.wf(),
        ensures
            *t == self.tabs@[self.active as int],
    {
        &self.tabs[self.active]
    }

    pub fn doc(&self) -> (d: &Document)
        requires
            self.wf(),
        ensures
            *d == self.tabs@[self.active as int].doc,
    {
        &self.tabs[self.active].doc
    }

    /// The active document, for editing in place.
    pub fn doc_mut(&mut self) -> (d: &mut Document)
        requires
            old(self).wf(),
        ensures
            *d == old(self).tabs@[old(self).active as int].doc,
            final(self).tabs@ == old(self).tabs@.update(
                old(self).active as int,
                Tab { doc: *final(d), ..old(self).tabs@[old(self).active as int] },
            ),
            final(self).active == old(self).active,
            final(self).cursor == old(self).cursor,
            final(self).anchor == old(self).anchor,
            final(self).find == old(self).find,
            final(self).tab_seq == old(self).tab_seq,
            same_panels(*final(self), *old(self)),
    {
        let a = self.active;
        &mut self.tabs[a].doc
    }

    /// The active tab has unsaved changes.
    pub fn is_dirty(&self) -> (r: bool)
        requires
            self.wf(),
        ensures
            r == self.lines_doc().dirty,
    {
        self.tabs[self.active].is_dirty()
    }

    /// The sidebar chips of a stored highlight blob.
    pub fn chips_for(&self, highlights_json: &str) -> (chips: Vec<u32>)
        ensures
            chips@ == chips_of(highlights_json@),
    {
        chips_from_highlights_json(highlights_json)
    }

    /// Some tab has unsaved changes.
    pub fn any_dirty(&self) -> (r: bool)
        ensures
            r == exists|i: int| 0 <= i < self.tabs@.len() && (#[trigger] self.tabs@[i]).doc@.dirty,
    {
        let mut i: usize = 0;
        while i < self.tabs.len()
            invariant
                i <= self.tabs@.len(),
                forall|j: int| 0 <= j < i ==> !(#[trigger] self.tabs@[j]).doc@.dirty,
            decreases self.tabs@.len() - i,
        {
            if self.tabs[i].is_dirty() {
                return true;
            }
            i += 1;
        }
        false
    }

    /// The state of every tab, in order.
    pub fn tab_states(&self) -> (v: Vec<TabState>)
        ensures
            v@.len() == self.tabs@.len(),
            forall|i: int| 0 <= i < v@.len() ==> (#[trigger] v@[i])@ == self.tabs@[i].state@,
    {
        let mut v: Vec<TabState> = Vec::new();
        let mut i: usize = 0;
        while i < self.tabs.len()
            invariant
                i <= self.tabs@.len(),
                v@.len() == i,
                forall|j: int| 0 <= j < i ==> (#[trigger] v@[j])@ == self.tabs@[j].state@,
            decreases self.tabs@.len() - i,
        {
            v.push(self.tabs[i].state.clone());
            i += 1;
        }
        v
    }

    /// Re-run the search over the active document.
    pub fn invalidate_find(&mut self)
        requires
            old(self).wf(),
        ensures
            final(self).wf(),
            final(self).find_fresh(),
            final(self).find.query == old(self).find.query,
            final(self).find.replacement == old(self).find.replacement,
            final(self).find.case_sensitive == old(self).find.case_sensitive,
            final(self).find.whole_word == old(self).find.whole_word,
            final(self).tabs == old(self).tabs,
            final(self).active == old(self).active,
            final(self).cursor == old(self).cursor,
            final(self).anchor == old(self).anchor,
            final(self).tab_seq == old(self).tab_seq,
            same_panels(*final(self), *old(self)),
    {
        let a = self.active;
        proof {
            lemma_doc_fields(&self.tabs@[a as int].doc);
        }
        self.find.search(&self.tabs[a].doc.lines);
        proof {
            lemma_search_len(&self.find);
        }
    }

    /// Open a new untitled tab after the others and make it active.
    pub fn new_tab(&mut self) -> (index: usize)
        requires
            old(self).wf(),
        ensures
            final(self).wf(),
            index == old(self).tabs@.len(),
            final(self).tabs@.len() == index + 1,
            final(self).tabs@.subrange(0, index as int) == old(self).tabs@,
            is_untitled(final(self).tabs@[index as int], old(self).tab_seq),
            final(self).tab_seq == old(self).tab_seq.wrapping_add(1),
            final(self).active == index,
            final(self).cursor == (Cursor { line: 0, col: 0 }),
            final(self).anchor is None,
            final(self).find_fresh(),
            same_panels(*final(self), *old(self)),
    {
        let index = self.tabs.len();
        let ghost before = self.tabs@;
        self.tabs.push(Tab::untitled(self.tab_seq));
        self.tab_seq = self.tab_seq.wrapping_add(1);
        assert(self.tabs@.subrange(0, index as int) =~= before);
        self.active = index;
        self.cursor = Cursor { line: 0, col: 0 };
        self.anchor = None;
        self.invalidate_find();
        index
    }

    /// Close a tab. The last one is never removed: it is replaced by a fresh
    /// untitled tab. Out-of-range indices change nothing.
    pub fn close_tab(&mut self, index: usize)
        requires
            old(self).wf(),
        ensures
            final(self).wf(),
            index >= old(self).tabs@.len() ==> *final(self) == *old(self),
            index < old(self).tabs@.len() ==> {
                &&& final(self).cursor == (Cursor { line: 0, col: 0 })
                &&& final(self).anchor is None
                &&& final(self).find_fresh()
                &&& same_panels(*final(self), *old(self))
            },
            index < old(self).tabs@.len() && old(self).tabs@.len() == 1 ==> {
                &&& final(self).tabs@.len() == 1
                &&& is_untitled(final(self).tabs@[0], old(self).tab_seq)
                &&& final(self).tab_seq == old(self).tab_seq.wrapping_add(1)
                &&& final(self).active == 0
            },
            index < old(self).tabs@.len() && old(self).tabs@.len() > 1 ==> {
                &&& final(self).tabs@ == old(self).tabs@.remove(index as int)
                &&& final(self).tab_seq == old(self).tab_seq
                &&& final(self).active == if old(self).active >= final(self).tabs@.len() {
                    final(self).tabs@.len() - 1
                } else if old(self).active > index {
                    old(self).active - 1
                } else {
                    old(self).active as int
                }
            },
    {
        if index >= self.tabs.len() {
            return;
        }
        if self.tabs.len() == 1 {
            self.tabs.set(0, Tab::untitled(self.tab_seq));
            self.tab_seq = self.tab_seq.wrapping_add(1);
            self.active = 0;
        } else {
            let ghost before = self.tabs@;
            let _ = self.tabs.remove(index);
            assert forall|i: int| 0 <= i < self.tabs@.len() implies (#[trigger] self.tabs@[i]).doc.wf() by {
                if i < index {
                    assert(self.tabs@[i] == before[i]);
                } else {
                    assert(self.tabs@[i] == before[i + 1]);
                }
            }
            if self.active >= self.tabs.len() {
                self.active = self.tabs.len() - 1;
            } else if self.active > index {
                self.active = self.active - 1;
            }
        }
        self.cursor = Cursor { line: 0, col: 0 };
        self.anchor = None;
        self.invalidate_find();
    }

    /// Switch to another tab, bringing back the caret it was left with.
    /// Selecting the active tab, or a tab that does not exist, does nothing
    /// and returns `false`.
    pub fn select_tab(&mut self, index: usize) -> (switched: bool)
        requires
            old(self).wf(),
        ensures
            final(self).wf(),
            switched == (index < old(self).tabs@.len() && index != old(self).active),
            !switched ==> *final(self) == *old(self),
            switched ==> {
                &&& final(self).tabs == old(self).tabs
                &&& final(self).active == index
                &&& final(self).cursor == (Cursor {
                    line: old(self).tabs@[index as int].state.cursor_line,
                    col: old(self).tabs@[index as int].state.cursor_col,
                })
                &&& final(self).anchor is None
                &&& final(self).find_fresh()
                &&& final(self).tab_seq == old(self).tab_seq
                &&& same_panels(*final(self), *old(self))
            },
    {
        if index >= self.tabs.len() || index == self.active {
            return false;
        }
        self.active = index;
        let line = self.tabs[index].state.cursor_line;
        let col = self.tabs[index].state.cursor_col;
        self.cursor = Cursor { line, col };
        self.anchor = None;
        self.invalidate_find();
        true
    }

    /// Switch to the next (or previous) tab, wrapping around. Nothing
    /// happens with fewer than two tabs.
    pub fn cycle_tab(&mut self, forward: bool)
        requires
            old(self).wf(),
        ensures
            final(self).wf(),
            old(self).tabs@.len() < 2 ==> *final(self) == *old(self),
            old(self).tabs@.len() >= 2 ==> {
                let n = old(self).tabs@.len() as int;
                let next = if forward {
                    (old(self).active + 1) % n
                } else {
                    (old(self).active + n - 1) % n
                };
                &&& final(self).tabs == old(self).tabs
                &&& final(self).active == next
                &&& final(self).cursor == (Cursor {
                    line: old(self).tabs@[next].state.cursor_line,
                    col: old(self).tabs@[next].state.cursor_col,
                })
                &&& final(self).anchor is None
                &&& final(self).find_fresh()
                &&& same_panels(*final(self), *old(self))
            },
    {
        let n = self.tabs.len();
        if n < 2 {
            return;
        }
        let a = self.active;
        let next = if forward {
            if a + 1 == n {
                0
            } else {
                a + 1
            }
        } else if a == 0 {
            n - 1
        } else {
            a - 1
        };
        assert(next == if forward {
            (a + 1) % (n as int)
        } else {
            (a + n - 1) % (n as int)
        }) by (nonlinear_arith)
            requires
                a < n,
                next == if forward {
                    if a + 1 == n {
                        0
                    } else {
                        a + 1
                    }
                } else if a == 0 {
                    n - 1
                } else {
                    a - 1
                },
        ;
        self.select_tab(next);
    }

    /// Remember the caret (and the dirty flag) in the active tab's state so
    /// that they survive a tab switch.
    pub fn stash_cursor(&mut self)
        requires
            old(self).wf(),
        ensures
            final(self).wf(),
            ({
                let a = old(self).active as int;
                let t = old(self).tabs@[a];
                final(self).tabs@ == old(self).tabs@.update(
                    a,
                    Tab {
                        state: TabState {
                            cursor_line: old(self).cursor.line,
                            cursor_col: old(self).cursor.col,
                            dirty: t.doc@.dirty,
                            ..t.state
                        },
                        ..t
                    },
                )
            }),
            final(self).active == old(self).active,
            final(self).cursor == old(self).cursor,
            final(self).anchor == old(self).anchor,
            final(self).find == old(self).find,
            final(self).tab_seq == old(self).tab_seq,
            same_panels(*final(self), *old(self)),
    {
        let a = self.active;
        let line = self.cursor.line;
        let col = self.cursor.col;
        let dirty = self.tabs[a].is_dirty();
        let ghost before = self.tabs@;
        self.tabs[a].state.cursor_line = line;
        self.tabs[a].state.cursor_col = col;
        self.tabs[a].state.dirty = dirty;
        assert forall|i: int| 0 <= i < self.tabs@.len() implies (#[trigger] self.tabs@[i]).doc.wf() by {
            if i != a {
                assert(self.tabs@[i] == before[i]);
            }
        }
    }

    // ── Caret & selection ─────────────────────────────────────────────────

    /// Pull the caret back into the active document: onto its last line at
    /// most, and onto that line's end at most.
    pub fn clamp_cursor(&mut self)
        requires
            old(self).wf(),
        ensures
            final(self).wf(),
            final(self).cursor == clamped(old(self).cursor, old(self).lines()),
            final(self).tabs == old(self).tabs,
            final(self).active == old(self).active,
            final(self).anchor == old(self).anchor,
            final(self).find == old(self).find,
            final(self).tab_seq == old(self).tab_seq,
            same_panels(*final(self), *old(self)),
    {
        let a = self.active;
        proof {
            lemma_doc_fields(&self.tabs@[a as int].doc);
        }
        let n = self.tabs[a].doc.line_count();
        let last = if n == 0 {
            0
        } else {
            n - 1
        };
        if self.cursor.line > last {
            self.cursor.line = last;
        }
        let cols = if self.cursor.line < n {
            self.tabs[a].doc.lines[self.cursor.line].char_len()
        } else {
            0
        };
        if self.cursor.col > cols {
            self.cursor.col = cols;
        }
    }

    /// Inclusive line range covered by the current selection.
    pub fn selection_range(&self) -> (r: (usize, usize))
        requires
            self.wf(),
        ensures
            r == selection_of(self.lines().len(), self.cursor.line, self.anchor),
    {
        let n = self.tabs[self.active].doc.line_count();
        let last = if n == 0 {
            0
        } else {
            n - 1
        };
        let line = if self.cursor.line < last {
            self.cursor.line
        } else {
            last
        };
        match self.anchor {
            Some(anchor) => {
                let a = if anchor < last {
                    anchor
                } else {
                    last
                };
                if line < a {
                    (line, a)
                } else {
                    (a, line)
                }
            },
            None => (line, line),
        }
    }

    /// Characters in a multi-line selection, counting one per line break;
    /// 0 for a plain caret.
    pub fn selected_chars(&self) -> (n: usize)
        requires
            self.wf(),
            total_chars(self.lines()) + self.lines().len() <= usize::MAX,
        ensures
            n == selected_count(self.lines(), selection_of(self.lines().len(), self.cursor.line, self.anchor)),
    {
        let (start, end) = self.selection_range();
        if start == end {
            return 0;
        }
        let a = self.active;
        let ghost ls = self.lines();
        proof {
            lemma_doc_fields(&self.tabs@[a as int].doc);
            lemma_total_chars_range(ls, start as int, end as int + 1);
        }
        let mut total: usize = 0;
        let mut i: usize = start;
        while i <= end
            invariant
                start <= i <= end + 1,
                start < end < ls.len(),
                ls == views(self.tabs@[a as int].doc.lines@),
                a == self.active,
                a < self.tabs@.len(),
                total == total_chars(ls.subrange(start as int, i as int)),
                total_chars(ls.subrange(start as int, end + 1)) + ls.len() <= usize::MAX,
            decreases end + 1 - i,
        {
            proof {
                assert(ls.subrange(start as int, i + 1).drop_last() =~= ls.subrange(start as int, i as int));
                lemma_total_chars_range_mono(ls, start as int, i + 1, end + 1);
            }
            total = total + self.tabs[a].doc.lines[i].char_len();
            i += 1;
        }
        total + (end - start)
    }
    // ── Editing ───────────────────────────────────────────────────────────

    /// Copy the active document's dirty flag into its tab state.
    fn mark_dirty(&mut self)
        requires
            old(self).wf(),
        ensures
            final(self).wf(),
            doc_replaced(final(self).tabs@, old(self).tabs@, old(self).active as int, old(self).lines_doc(), true),
            final(self).active == old(self).active,
            final(self).cursor == old(self).cursor,
            final(self).anchor == old(self).anchor,
            final(self).find == old(self).find,
            final(self).tab_seq == old(self).tab_seq,
            same_panels(*final(self), *old(self)),
    {
        let a = self.active;
        let dirty = self.tabs[a].is_dirty();
        let ghost before = self.tabs@;
        self.tabs[a].state.dirty = dirty;
        assert forall|i: int| 0 <= i < self.tabs@.len() implies (#[trigger] self.tabs@[i]).doc.wf() by {
            if i != a {
                assert(self.tabs@[i] == before[i]);
            }
        }
    }

    /// Type `text` into line `index`. A text holding line breaks is split:
    /// its first piece replaces the line, each further piece gets a line of
    /// its own below (continuing the line's list type and depth), and the
    /// caret lands at the end of the last piece. Returns whether anything
    /// changed.
    pub fn set_line_text(&mut self, index: usize, text: &str) -> (changed: bool)
        requires
            old(self).wf(),
            text@.contains('\n') ==> old(self).lines().len() > 0,
        ensures
            final(self).wf(),
            final(self).active == old(self).active,
            final(self).anchor == old(self).anchor,
            final(self).tab_seq == old(self).tab_seq,
            same_panels(*final(self), *old(self)),
            !text@.contains('\n') ==> {
                let (d, ch) = set_text_result(old(self).lines_doc(), index as int, text@);
                &&& changed == ch
                &&& ch ==> doc_replaced(final(self).tabs@, old(self).tabs@, old(self).active as int, d, true)
                    && final(self).find_fresh()
                    && final(self).cursor == old(self).cursor
                &&& !ch ==> doc_replaced(
                    final(self).tabs@,
                    old(self).tabs@,
                    old(self).active as int,
                    old(self).lines_doc(),
                    false,
                ) && final(self).find == old(self).find && final(self).cursor == old(self).cursor
            },
            text@.contains('\n') ==> {
                let (d, at) = split_result(old(self).lines_doc(), index as int, text@);
                &&& changed
                &&& doc_replaced(final(self).tabs@, old(self).tabs@, old(self).active as int, d, true)
                &&& final(self).cursor == (Cursor {
                    line: at as usize,
                    col: split_nl(text@).last().len() as usize,
                })
                &&& final(self).find_fresh()
            },
    {
        if has_newline(text) {
            return self.split_line_text(index, text);
        }
        let a = self.active;
        let ghost before = self.tabs@;
        let changed = self.tabs[a].doc.set_text(index, text);
        assert forall|i: int| 0 <= i < self.tabs@.len() implies (#[trigger] self.tabs@[i]).doc.wf() by {
            if i != a {
                assert(self.tabs@[i] == before[i]);
            }
        }
        if changed {
            self.mark_dirty();
            self.invalidate_find();
        }
        changed
    }

    fn split_line_text(&mut self, index: usize, text: &str) -> (changed: bool)
        requires
            old(self).wf(),
            text@.contains('\n'),
            old(self).lines().len() > 0,
        ensures
            final(self).wf(),
            final(self).active == old(self).active,
            final(self).anchor == old(self).anchor,
            final(self).tab_seq == old(self).tab_seq,
            same_panels(*final(self), *old(self)),
            ({
                let (d, at) = split_result(old(self).lines_doc(), index as int, text@);
                &&& changed
                &&& doc_replaced(final(self).tabs@, old(self).tabs@, old(self).active as int, d, true)
                &&& final(self).cursor == (Cursor {
                    line: at as usize,
                    col: split_nl(text@).last().len() as usize,
                })
                &&& final(self).find_fresh()
            }),
    {
        let a = self.active;
        let ghost d0 = self.lines_doc();
        let ghost tabs0 = self.tabs@;
        proof {
            lemma_doc_fields(&self.tabs@[a as int].doc);
            lemma_split_len(text@);
        }
        let (orig_type, orig_indent) = if index < self.tabs[a].doc.lines.len() {
            (self.tabs[a].doc.lines[index].list_type, self.tabs[a].doc.lines[index].indent)
        } else {
            (ListType::NoList, 0u8)
        };
        let parts = split_text(text);
        let ghost pieces = split_nl(text@);
        assert(parts@[0]@ == pieces[0]);
        let _ = self.tabs[a].doc.set_text(index, parts[0].as_str());
        let ghost d1 = self.tabs@[a as int].doc@;
        let ghost rest = pieces.drop_first();
        let mut at: usize = index;
        let mut k: usize = 1;
        assert(rest.subrange(0, 0) =~= Seq::<Seq<char>>::empty());
        while k < parts.len()
            invariant
                1 <= k <= parts@.len(),
                strs(parts@) == pieces,
                pieces.len() >= 2,
                rest == pieces.drop_first(),
                a == self.active,
                a < self.tabs@.len(),
                self.tabs@.len() == tabs0.len(),
                forall|i: int| 0 <= i < tabs0.len() && i != a ==> #[trigger] self.tabs@[i] == tabs0[i],
                self.tabs@[a as int].doc.wf(),
                self.tabs@[a as int].doc@.lines.len() > 0,
                (self.tabs@[a as int].doc@, at as int) == split_fold(
                    d1,
                    index as int,
                    rest.subrange(0, k - 1),
                    orig_type,
                    orig_indent,
                ),
                self.tabs@[a as int].state == tabs0[a as int].state,
                self.tabs@[a as int].encoding == tabs0[a as int].encoding,
                self.tabs@[a as int].line_ending == tabs0[a as int].line_ending,
                self.tabs@[a as int].had_bom == tabs0[a as int].had_bom,
                self.active == old(self).active,
                self.anchor == old(self).anchor,
                self.tab_seq == old(self).tab_seq,
                self.find == old(self).find,
                same_panels(*self, *old(self)),
            decreases parts@.len() - k,
        {
            let ghost dk = self.tabs@[a as int].doc@;
            let new = self.tabs[a].doc.insert_line_after(at);
            assert(self.tabs@[a as int].doc@.lines.len() == dk.lines.len() + 1);
            assert(parts@[k as int]@ == rest[k - 1]);
            let _ = self.tabs[a].doc.set_text(new, parts[k].as_str());
            assert(self.tabs@[a as int].doc@.lines.len() == dk.lines.len() + 1);
            assert(new < self.tabs@[a as int].doc@.lines.len());
            if orig_type != ListType::NoList {
                proof {
                    lemma_doc_fields(&self.tabs@[a as int].doc);
                }
                let ghost dm = self.tabs@[a as int].doc@;
                let ghost docm = self.tabs@[a as int].doc;
                self.tabs[a].doc.lines[new].list_type = orig_type;
                self.tabs[a].doc.lines[new].indent = orig_indent;
                proof {
                    lemma_doc_lines_only(&docm, &self.tabs@[a as int].doc);
                    assert(self.tabs@[a as int].doc@ =~= DocView {
                        lines: dm.lines.update(
                            new as int,
                            LineView { list_type: orig_type, indent: orig_indent, ..dm.lines[new as int] },
                        ),
                        ..dm
                    });
                }
            }
            proof {
                let sub = rest.subrange(0, k as int);
                assert(sub.drop_last() =~= rest.subrange(0, k - 1));
                assert(sub.last() == rest[k - 1]);
            }
            at = new;
            k += 1;
        }
        assert(rest.subrange(0, parts@.len() - 1) =~= rest);
        self.tabs[a].doc.commit();
        let last = parts.len() - 1;
        let col = crate::text::chars_of(parts[last].as_str()).len();
        assert(parts@[last as int]@ == pieces.last());
        self.cursor = Cursor { line: at, col };
        assert forall|i: int| 0 <= i < self.tabs@.len() implies (#[trigger] self.tabs@[i]).doc.wf() by {
            if i != a {
                assert(self.tabs@[i] == tabs0[i]);
            }
        }
        self.mark_dirty();
        self.invalidate_find();
        true
    }
    /// Enter at the caret: list lines continue, exit or outdent the list
    /// (see [`ListEngine::handle_enter`]); the result is committed and the
    /// caret follows a new line.
    pub fn press_enter(&mut self) -> (outcome: EnterOutcome)
        requires
            old(self).wf(),
        ensures
            final(self).wf(),
            ({
                let (ls, out) = enter_result(old(self).lines(), old(self).cursor.line as int, old(self).cursor.col as int);
                &&& outcome == out
                &&& doc_replaced(
                    final(self).tabs@,
                    old(self).tabs@,
                    old(self).active as int,
                    commit_view(DocView { lines: ls, ..old(self).lines_doc() }),
                    false,
                )
                &&& final(self).cursor == match out {
                    EnterOutcome::MoveTo(i) => Cursor { line: i, col: 0 },
                    _ => old(self).cursor,
                }
            }),
            final(self).find_fresh(),
            final(self).active == old(self).active,
            final(self).anchor == old(self).anchor,
            final(self).tab_seq == old(self).tab_seq,
            same_panels(*final(self), *old(self)),
    {
        let a = self.active;
        let line = self.cursor.line;
        let col = self.cursor.col;
        let ghost tabs0 = self.tabs@;
        let ghost doc0 = self.tabs@[a as int].doc;
        proof {
            lemma_doc_fields(&doc0);
        }
        let outcome = ListEngine::handle_enter(&mut self.tabs[a].doc.lines, line, col);
        proof {
            lemma_doc_lines_only(&doc0, &self.tabs@[a as int].doc);
        }
        self.tabs[a].doc.commit();
        if let EnterOutcome::MoveTo(index) = outcome {
            self.cursor = Cursor { line: index, col: 0 };
        }
        assert forall|i: int| 0 <= i < self.tabs@.len() implies (#[trigger] self.tabs@[i]).doc.wf() by {
            if i != a {
                assert(self.tabs@[i] == tabs0[i]);
            }
        }
        self.invalidate_find();
        outcome
    }

    /// A blank line below the caret's line; the caret moves onto it.
    pub fn insert_blank_line(&mut self)
        requires
            old(self).wf(),
            old(self).lines().len() > 0,
        ensures
            final(self).wf(),
            ({
                let ls = old(self).lines();
                let at = min_of(old(self).cursor.line as int, ls.len() - 1) + 1;
                &&& doc_replaced(
                    final(self).tabs@,
                    old(self).tabs@,
                    old(self).active as int,
                    edit_then_commit(old(self).lines_doc(), ls.insert(at, plain_line(Seq::empty()))),
                    false,
                )
                &&& final(self).cursor == (Cursor { line: at as usize, col: 0 })
            }),
            final(self).find_fresh(),
            final(self).active == old(self).active,
            final(self).anchor == old(self).anchor,
            final(self).tab_seq == old(self).tab_seq,
            same_panels(*final(self), *old(self)),
    {
        let a = self.active;
        let line = self.cursor.line;
        let ghost tabs0 = self.tabs@;
        let index = self.tabs[a].doc.insert_line_after(line);
        self.cursor = Cursor { line: index, col: 0 };
        assert forall|i: int| 0 <= i < self.tabs@.len() implies (#[trigger] self.tabs@[i]).doc.wf() by {
            if i != a {
                assert(self.tabs@[i] == tabs0[i]);
            }
        }
        self.invalidate_find();
    }

    /// The list type a click on `requested` applies: the caret line's own
    /// type again clears it, any other choice is applied as it is.
    pub fn list_type_to_apply(&self, requested: ListType) -> (r: ListType)
        requires
            self.wf(),
        ensures
            r == toggled_list_type(
                if self.cursor.line < self.lines().len() {
                    Some(self.lines()[self.cursor.line as int].list_type)
                } else {
                    None
                },
                requested,
            ),
    {
        let doc = self.doc();
        proof {
            lemma_doc_fields(doc);
        }
        let current = if self.cursor.line < doc.lines.len() {
            Some(doc.lines[self.cursor.line].list_type)
        } else {
            None
        };
        proof {
            if self.cursor.line < doc.lines@.len() {
                assert(views(doc.lines@)[self.cursor.line as int] == doc.lines@[self.cursor.line as int]@);
            }
        }
        effective_list_type(current, requested)
    }

    /// Give the selected lines a list type.
    pub fn set_list_type(&mut self, list_type: ListType)
        requires
            old(self).wf(),
        ensures
            final(self).wf(),
            ({
                let ls = old(self).lines();
                let (s, e) = selection_of(ls.len(), old(self).cursor.line, old(self).anchor);
                let (s2, e2) = clamp_range(ls.len(), s as int, e as int);
                doc_replaced(
                    final(self).tabs@,
                    old(self).tabs@,
                    old(self).active as int,
                    edit_then_commit(old(self).lines_doc(), relisted(ls, s2, e2, list_type)),
                    true,
                )
            }),
            final(self).find == old(self).find,
            final(self).cursor == old(self).cursor,
            final(self).active == old(self).active,
            final(self).anchor == old(self).anchor,
            final(self).tab_seq == old(self).tab_seq,
            same_panels(*final(self), *old(self)),
    {
        let (start, end) = self.selection_range();
        let a = self.active;
        let ghost tabs0 = self.tabs@;
        self.tabs[a].doc.set_list_type(start, end, list_type);
        assert forall|i: int| 0 <= i < self.tabs@.len() implies (#[trigger] self.tabs@[i]).doc.wf() by {
            if i != a {
                assert(self.tabs@[i] == tabs0[i]);
            }
        }
        self.mark_dirty();
    }

    /// Indent (`deeper`) or outdent the selected lines by one step.
    pub fn indent(&mut self, deeper: bool)
        requires
            old(self).wf(),
        ensures
            final(self).wf(),
            ({
                let ls = old(self).lines();
                let (s, e) = selection_of(ls.len(), old(self).cursor.line, old(self).anchor);
                let (s2, e2) = clamp_range(ls.len(), s as int, e as int);
                doc_replaced(
                    final(self).tabs@,
                    old(self).tabs@,
                    old(self).active as int,
                    edit_then_commit(
                        old(self).lines_doc(),
                        reindented(ls, s2, e2, if deeper { 1i8 } else { -1i8 }),
                    ),
                    true,
                )
            }),
            final(self).find == old(self).find,
            final(self).cursor == old(self).cursor,
            final(self).active == old(self).active,
            final(self).anchor == old(self).anchor,
            final(self).tab_seq == old(self).tab_seq,
            same_panels(*final(self), *old(self)),
    {
        let (start, end) = self.selection_range();
        let a = self.active;
        let ghost tabs0 = self.tabs@;
        self.tabs[a].doc.change_indent(start, end, if deeper { 1 } else { -1 });
        assert forall|i: int| 0 <= i < self.tabs@.len() implies (#[trigger] self.tabs@[i]).doc.wf() by {
            if i != a {
                assert(self.tabs@[i] == tabs0[i]);
            }
        }
        self.mark_dirty();
    }

    /// Tick or untick a check item; `false` when the line is no check item
    /// or does not exist.
    pub fn toggle_checked(&mut self, index: usize) -> (r: bool)
        requires
            old(self).wf(),
        ensures
            final(self).wf(),
            ({
                let ls = old(self).lines();
                &&& index < ls.len() ==> r == toggled_check(ls[index as int]).checked && doc_replaced(
                    final(self).tabs@,
                    old(self).tabs@,
                    old(self).active as int,
                    edit_then_commit(
                        old(self).lines_doc(),
                        ls.update(index as int, toggled_check(ls[index as int])),
                    ),
                    true,
                )
                &&& index >= ls.len() ==> !r && doc_replaced(
                    final(self).tabs@,
                    old(self).tabs@,
                    old(self).active as int,
                    old(self).lines_doc(),
                    true,
                )
            }),
            final(self).find == old(self).find,
            final(self).cursor == old(self).cursor,
            final(self).active == old(self).active,
            final(self).anchor == old(self).anchor,
            final(self).tab_seq == old(self).tab_seq,
            same_panels(*final(self), *old(self)),
    {
        let a = self.active;
        let ghost tabs0 = self.tabs@;
        let r = match self.tabs[a].doc.toggle_checked(index) {
            Some(v) => v,
            None => false,
        };
        assert forall|i: int| 0 <= i < self.tabs@.len() implies (#[trigger] self.tabs@[i]).doc.wf() by {
            if i != a {
                assert(self.tabs@[i] == tabs0[i]);
            }
        }
        self.mark_dirty();
        r
    }

    /// Step back in the active document's history; the caret is pulled
    /// back into the document. `false` when there is nothing to undo.
    pub fn undo(&mut self) -> (r: bool)
        requires
            old(self).wf(),
        ensures
            final(self).wf(),
            ({
                let (d, ok) = undo_result(old(self).lines_doc());
                &&& r == ok
                &&& ok ==> doc_replaced(final(self).tabs@, old(self).tabs@, old(self).active as int, d, true)
                    && final(self).cursor == clamped(old(self).cursor, d.lines) && final(self).find_fresh()
                &&& !ok ==> doc_replaced(
                    final(self).tabs@,
                    old(self).tabs@,
                    old(self).active as int,
                    old(self).lines_doc(),
                    false,
                ) && final(self).cursor == old(self).cursor && final(self).find == old(self).find
            }),
            final(self).active == old(self).active,
            final(self).anchor == old(self).anchor,
            final(self).tab_seq == old(self).tab_seq,
            same_panels(*final(self), *old(self)),
    {
        let a = self.active;
        let ghost tabs0 = self.tabs@;
        let ok = self.tabs[a].doc.undo();
        assert forall|i: int| 0 <= i < self.tabs@.len() implies (#[trigger] self.tabs@[i]).doc.wf() by {
            if i != a {
                assert(self.tabs@[i] == tabs0[i]);
            }
        }
        if ok {
            self.clamp_cursor();
            self.mark_dirty();
            self.invalidate_find();
        }
        ok
    }

    /// Step forward in the active document's history; the caret is pulled
    /// back into the document. `false` when there is nothing to redo.
    pub fn redo(&mut self) -> (r: bool)
        requires
            old(self).wf(),
        ensures
            final(self).wf(),
            ({
                let (d, ok) = redo_result(old(self).lines_doc());
                &&& r == ok
                &&& ok ==> doc_replaced(final(self).tabs@, old(self).tabs@, old(self).active as int, d, true)
                    && final(self).cursor == clamped(old(self).cursor, d.lines) && final(self).find_fresh()
                &&& !ok ==> doc_replaced(
                    final(self).tabs@,
                    old(self).tabs@,
                    old(self).active as int,
                    old(self).lines_doc(),
                    false,
                ) && final(self).cursor == old(self).cursor && final(self).find == old(self).find
            }),
            final(self).active == old(self).active,
            final(self).anchor == old(self).anchor,
            final(self).tab_seq == old(self).tab_seq,
            same_panels(*final(self), *old(self)),
    {
        let a = self.active;
        let ghost tabs0 = self.tabs@;
        let ok = self.tabs[a].doc.redo();
        assert forall|i: int| 0 <= i < self.tabs@.len() implies (#[trigger] self.tabs@[i]).doc.wf() by {
            if i != a {
                assert(self.tabs@[i] == tabs0[i]);
            }
        }
        if ok {
            self.clamp_cursor();
            self.mark_dirty();
            self.invalidate_find();
        }
        ok
    }
    // ── Highlighting ──────────────────────────────────────────────────────

    /// Read a toolbar key as a colour, adding unknown `#rgb` / `#rrggbb` /
    /// `#rrggbbaa` keys to the palette on the fly.
    pub fn colour_for_key(&mut self, key: &str) -> (r: Option<LineColour>)
        ensures
            (r, final(self).palette@) == key_colour(old(self).palette@, key@),
            final(self).tabs == old(self).tabs,
            final(self).active == old(self).active,
            final(self).cursor == old(self).cursor,
            final(self).anchor == old(self).anchor,
            final(self).find == old(self).find,
            final(self).tab_seq == old(self).tab_seq,
            final(self).armed_colour == old(self).armed_colour,
            final(self).extract_selected == old(self).extract_selected,
            final(self).toast_seq == old(self).toast_seq,
            final(self).pending == old(self).pending,
    {
        if let Some(found) = self.palette.find(key) {
            return Some(found);
        }
        let cs = crate::text::chars_of(key);
        if cs.len() == 0 || cs[0] != '#' {
            return None;
        }
        let mut hex: Vec<char> = Vec::new();
        let mut i: usize = 1;
        while i < cs.len()
            invariant
                1 <= i <= cs@.len(),
                hex@ == cs@.subrange(1, i as int),
            decreases cs@.len() - i,
        {
            hex.push(cs[i]);
            i += 1;
        }
        assert(hex@ =~= key@.drop_first());
        let n = byte_len_upto9(&hex);
        if !(n == 3 || n == 6 || n == 8) {
            return None;
        }
        let expanded: Vec<char> = if n == 3 {
            let mut e: Vec<char> = Vec::new();
            let mut j: usize = 0;
            proof {
                lemma_byte_len_bounds(hex@);
            }
            while j < hex.len()
                invariant
                    j <= hex@.len() <= 3,
                    e@ == Seq::new((j * 2) as nat, |k: int| hex@[k / 2]),
                decreases hex@.len() - j,
            {
                e.push(hex[j]);
                e.push(hex[j]);
                assert(e@ =~= Seq::new(((j + 1) * 2) as nat, |k: int| hex@[k / 2]));
                j += 1;
            }
            e
        } else {
            hex
        };
        assert(expanded@ == expanded_hex(key@.drop_first()));
        proof {
            lemma_byte_len_bounds(expanded@);
        }
        let v = match parse_radix16(&expanded) {
            Some(v) => v,
            None => {
                return None;
            },
        };
        let rgba = if byte_len_upto9(&expanded) == 6 {
            (v << 8u32) | 0xffu32
        } else {
            v
        };
        assert(key_custom_rgba(key@) == Some(rgba));
        let customs = self.palette.custom_colours();
        let mut seen = false;
        let mut k: usize = 0;
        while k < customs.len()
            invariant
                k <= customs@.len(),
                custom_views(customs@) == self.palette@,
                seen <==> exists|j: int| 0 <= j < k && (#[trigger] customs@[j]).rgba == rgba,
            decreases customs@.len() - k,
        {
            if customs[k].rgba == rgba {
                seen = true;
            }
            k += 1;
        }
        proof {
            let pv = self.palette@;
            if seen {
                let j = choose|j: int| 0 <= j < customs@.len() && (#[trigger] customs@[j]).rgba == rgba;
                assert(pv[j].rgba == rgba);
            } else {
                assert forall|j: int| 0 <= j < pv.len() implies (#[trigger] pv[j]).rgba != rgba by {
                    assert(pv[j] == customs@[j]@);
                }
            }
        }
        if !seen {
            let mut name = String::new();
            name.push('#');
            let mut hex_text = String::new();
            hex_text.push('#');
            let mut j: usize = 0;
            while j < expanded.len()
                invariant
                    j <= expanded@.len(),
                    name@ == seq!['#'] + expanded@.subrange(0, j as int),
                    hex_text@ == seq!['#'] + expanded@.subrange(0, min_of(6, j as int)),
                decreases expanded@.len() - j,
            {
                name.push(expanded[j]);
                if j < 6 {
                    hex_text.push(expanded[j]);
                }
                assert(name@ =~= seq!['#'] + expanded@.subrange(0, j + 1));
                assert(hex_text@ =~= seq!['#'] + expanded@.subrange(0, min_of(6, j + 1)));
                j += 1;
            }
            assert(expanded@.subrange(0, expanded@.len() as int) =~= expanded@);
            let swatch = CustomColour { name, hex: hex_text, rgba };
            assert(swatch@ == key_swatch(key@, rgba));
            self.palette.add_custom(swatch);
        }
        Some(LineColour::Custom(rgba))
    }
    /// Toggle a colour on the selected lines: remove it when every selected
    /// line has it, else apply it to all of them. The `none` key clears the
    /// selection's colour and disarms the toolbar; any other key is armed.
    /// `None` when the key names no colour; `Some(true)` when the colour was
    /// applied, `Some(false)` when removed.
    pub fn toggle_highlight_key(&mut self, key: &str) -> (r: Option<bool>)
        requires
            old(self).wf(),
            old(self).lines().len() > 0,
        ensures
            final(self).wf(),
            ({
                let (c, p) = key_colour(old(self).palette@, key@);
                let ls = old(self).lines();
                let (s, e) = selection_of(ls.len(), old(self).cursor.line, old(self).anchor);
                let (s2, e2) = clamp_range(ls.len(), s as int, e as int);
                &&& final(self).palette@ == p
                &&& c is None ==> r is None && final(self).tabs == old(self).tabs
                    && final(self).armed_colour == old(self).armed_colour
                &&& c == Some(LineColour::NoColour) ==> r == Some(false) && doc_replaced(
                    final(self).tabs@,
                    old(self).tabs@,
                    old(self).active as int,
                    edit_then_commit(old(self).lines_doc(), recoloured(ls, s2, e2, LineColour::NoColour)),
                    true,
                ) && final(self).armed_colour@.len() == 0
                &&& (c is Some && c->0 != LineColour::NoColour) ==> {
                    let col = c->0;
                    let applied = !all_coloured(ls, s2, e2, col);
                    &&& r == Some(applied)
                    &&& doc_replaced(
                        final(self).tabs@,
                        old(self).tabs@,
                        old(self).active as int,
                        edit_then_commit(
                            old(self).lines_doc(),
                            recoloured(ls, s2, e2, if applied { col } else { LineColour::NoColour }),
                        ),
                        true,
                    )
                    &&& final(self).armed_colour@ == key@
                }
            }),
            final(self).active == old(self).active,
            final(self).cursor == old(self).cursor,
            final(self).anchor == old(self).anchor,
            final(self).find == old(self).find,
            final(self).tab_seq == old(self).tab_seq,
            final(self).extract_selected == old(self).extract_selected,
            final(self).toast_seq == old(self).toast_seq,
            final(self).pending == old(self).pending,
    {
        let colour = match self.colour_for_key(key) {
            Some(c) => c,
            None => {
                return None;
            },
        };
        let (start, end) = self.selection_range();
        let a = self.active;
        let ghost tabs0 = self.tabs@;
        if !colour.is_highlighted() {
            self.tabs[a].doc.remove_highlight(start, end);
            self.armed_colour = String::new();
            assert forall|i: int| 0 <= i < self.tabs@.len() implies (#[trigger] self.tabs@[i]).doc.wf() by {
                if i != a {
                    assert(self.tabs@[i] == tabs0[i]);
                }
            }
            self.mark_dirty();
            return Some(false);
        }
        self.armed_colour = crate::text::to_owned_string(key);
        let applied = self.tabs[a].doc.toggle_highlight(start, end, colour);
        assert forall|i: int| 0 <= i < self.tabs@.len() implies (#[trigger] self.tabs@[i]).doc.wf() by {
            if i != a {
                assert(self.tabs@[i] == tabs0[i]);
            }
        }
        self.mark_dirty();
        Some(applied)
    }

    /// Put a colour on the selected lines (no toggling) and arm its key.
    /// `false`, with nothing changed but the palette, when the key names no
    /// colour.
    pub fn apply_highlight_key(&mut self, key: &str) -> (r: bool)
        requires
            old(self).wf(),
        ensures
            final(self).wf(),
            ({
                let (c, p) = key_colour(old(self).palette@, key@);
                let ls = old(self).lines();
                let (s, e) = selection_of(ls.len(), old(self).cursor.line, old(self).anchor);
                let (s2, e2) = clamp_range(ls.len(), s as int, e as int);
                &&& final(self).palette@ == p
                &&& r == c is Some
                &&& c is None ==> final(self).tabs == old(self).tabs
                    && final(self).armed_colour == old(self).armed_colour
                &&& c is Some ==> doc_replaced(
                    final(self).tabs@,
                    old(self).tabs@,
                    old(self).active as int,
                    edit_then_commit(old(self).lines_doc(), recoloured(ls, s2, e2, c->0)),
                    true,
                ) && final(self).armed_colour@ == key@
            }),
            final(self).active == old(self).active,
            final(self).cursor == old(self).cursor,
            final(self).anchor == old(self).anchor,
            final(self).find == old(self).find,
            final(self).tab_seq == old(self).tab_seq,
            final(self).extract_selected == old(self).extract_selected,
            final(self).toast_seq == old(self).toast_seq,
            final(self).pending == old(self).pending,
    {
        let colour = match self.colour_for_key(key) {
            Some(c) => c,
            None => {
                return false;
            },
        };
        let (start, end) = self.selection_range();
        let a = self.active;
        let ghost tabs0 = self.tabs@;
        self.tabs[a].doc.highlight_lines(start, end, colour);
        self.armed_colour = crate::text::to_owned_string(key);
        assert forall|i: int| 0 <= i < self.tabs@.len() implies (#[trigger] self.tabs@[i]).doc.wf() by {
            if i != a {
                assert(self.tabs@[i] == tabs0[i]);
            }
        }
        self.mark_dirty();
        true
    }

    /// Remove the colour of the selected lines.
    pub fn clear_highlight(&mut self)
        requires
            old(self).wf(),
        ensures
            final(self).wf(),
            ({
                let ls = old(self).lines();
                let (s, e) = selection_of(ls.len(), old(self).cursor.line, old(self).anchor);
                let (s2, e2) = clamp_range(ls.len(), s as int, e as int);
                doc_replaced(
                    final(self).tabs@,
                    old(self).tabs@,
                    old(self).active as int,
                    edit_then_commit(old(self).lines_doc(), recoloured(ls, s2, e2, LineColour::NoColour)),
                    true,
                )
            }),
            final(self).active == old(self).active,
            final(self).cursor == old(self).cursor,
            final(self).anchor == old(self).anchor,
            final(self).find == old(self).find,
            final(self).tab_seq == old(self).tab_seq,
            same_panels(*final(self), *old(self)),
    {
        let (start, end) = self.selection_range();
        let a = self.active;
        let ghost tabs0 = self.tabs@;
        self.tabs[a].doc.remove_highlight(start, end);
        assert forall|i: int| 0 <= i < self.tabs@.len() implies (#[trigger] self.tabs@[i]).doc.wf() by {
            if i != a {
                assert(self.tabs@[i] == tabs0[i]);
            }
        }
        self.mark_dirty();
    }
    // ── Extraction ────────────────────────────────────────────────────────

    /// The highlight colours ticked for extraction, in order.
    pub fn selected_extract_colours(&self) -> (v: Vec<LineColour>)
        ensures
            v@ == extract_colours(strs(self.extract_selected@)),
    {
        let ghost keys = strs(self.extract_selected@);
        let mut v: Vec<LineColour> = Vec::new();
        let mut i: usize = 0;
        while i < self.extract_selected.len()
            invariant
                i <= keys.len(),
                keys == strs(self.extract_selected@),
                v@ == extract_colours(keys.subrange(0, i as int)),
            decreases keys.len() - i,
        {
            assert(keys.subrange(0, i + 1).drop_last() =~= keys.subrange(0, i as int));
            let c = LineColour::from_key(self.extract_selected[i].as_str());
            if c.is_highlighted() {
                v.push(c);
            }
            i += 1;
        }
        assert(keys.subrange(0, keys.len() as int) =~= keys);
        v
    }

    /// The ticked colours' lines of the active document, in `order`.
    pub fn extract(&self, order: ExtractionOrder) -> (r: ExtractionResult)
        requires
            self.wf(),
        ensures
            ({
                let cs = extract_colours(strs(self.extract_selected@));
                &&& r.text@ == extracted_text(self.lines(), cs, order)
                &&& r.line_count == line_count_of(r.text@)
                &&& r.char_count == r.text@.len()
                &&& r.per_colour@ == per_colour_counts(self.lines(), highlighted_only(cs))
            }),
    {
        let colours = self.selected_extract_colours();
        let a = self.active;
        proof {
            lemma_doc_fields(&self.tabs@[a as int].doc);
        }
        extract(self.tabs[a].doc.lines.as_slice(), colours.as_slice(), order)
    }

    /// Tick a colour for extraction, or untick it when it is ticked; `true`
    /// when it was ticked.
    pub fn toggle_extract_colour(&mut self, key: &str) -> (ticked: bool)
        ensures
            ({
                let keys = strs(old(self).extract_selected@);
                &&& ticked == !keys.contains(key@)
                &&& ticked ==> strs(final(self).extract_selected@) == keys.push(key@)
                &&& !ticked ==> exists|i: int|
                    0 <= i < keys.len() && keys[i] == key@ && (forall|j: int| 0 <= j < i ==> keys[j] != key@)
                        && strs(final(self).extract_selected@) == #[trigger] keys.remove(i)
            }),
            final(self).tabs == old(self).tabs,
            final(self).active == old(self).active,
            final(self).cursor == old(self).cursor,
            final(self).anchor == old(self).anchor,
            final(self).find == old(self).find,
            final(self).palette == old(self).palette,
            final(self).tab_seq == old(self).tab_seq,
            final(self).armed_colour == old(self).armed_colour,
            final(self).toast_seq == old(self).toast_seq,
    {
        let ghost keys = strs(self.extract_selected@);
        let mut i: usize = 0;
        while i < self.extract_selected.len()
            invariant
                i <= keys.len(),
                keys == strs(self.extract_selected@),
                forall|j: int| 0 <= j < i ==> keys[j] != key@,
                *self == *old(self),
            decreases keys.len() - i,
        {
            if crate::text::str_eq(self.extract_selected[i].as_str(), key) {
                assert(keys[i as int] == key@);
                let _ = self.extract_selected.remove(i);
                assert(strs(self.extract_selected@) =~= keys.remove(i as int));
                return false;
            }
            i += 1;
        }
        self.extract_selected.push(crate::text::to_owned_string(key));
        assert(strs(self.extract_selected@) =~= keys.push(key@));
        true
    }

    // ── Find & replace ────────────────────────────────────────────────────

    /// Search the active document for `query`.
    pub fn set_find_query(&mut self, query: &str)
        requires
            old(self).wf(),
        ensures
            final(self).wf(),
            final(self).find.query@ == query@,
            final(self).find.replacement == old(self).find.replacement,
            final(self).find.case_sensitive == old(self).find.case_sensitive,
            final(self).find.whole_word == old(self).find.whole_word,
            final(self).find_fresh(),
            final(self).tabs == old(self).tabs,
            final(self).active == old(self).active,
            final(self).cursor == old(self).cursor,
            final(self).anchor == old(self).anchor,
            final(self).tab_seq == old(self).tab_seq,
            same_panels(*final(self), *old(self)),
    {
        self.find.set_query(query);
        self.invalidate_find();
    }

    pub fn set_find_replacement(&mut self, replacement: &str)
        requires
            old(self).wf(),
        ensures
            final(self).wf(),
            final(self).find.replacement@ == replacement@,
            final(self).find.query == old(self).find.query,
            final(self).find.case_sensitive == old(self).find.case_sensitive,
            final(self).find.whole_word == old(self).find.whole_word,
            final(self).find.matches == old(self).find.matches,
            final(self).find.current == old(self).find.current,
            final(self).tabs == old(self).tabs,
            final(self).active == old(self).active,
            final(self).cursor == old(self).cursor,
            final(self).anchor == old(self).anchor,
            final(self).tab_seq == old(self).tab_seq,
            same_panels(*final(self), *old(self)),
    {
        self.find.set_replacement(replacement);
    }

    /// Move to the next match; the caret goes to its line and the
    /// selection is dropped.
    pub fn find_next(&mut self) -> (r: Option<Match>)
        requires
            old(self).wf(),
        ensures
            final(self).wf(),
            old(self).find.matches@.len() == 0 ==> r is None && *final(self) == *old(self),
            old(self).find.matches@.len() > 0 ==> {
                let c = (old(self).find.current + 1) % (old(self).find.matches@.len() as int);
                &&& final(self).find.current == c
                &&& r == Some(old(self).find.matches@[c])
                &&& final(self).cursor == (Cursor { line: old(self).find.matches@[c].line, ..old(self).cursor })
                &&& final(self).anchor is None
            },
            final(self).find.matches == old(self).find.matches,
            final(self).find.query == old(self).find.query,
            final(self).find.replacement == old(self).find.replacement,
            final(self).tabs == old(self).tabs,
            final(self).active == old(self).active,
            final(self).tab_seq == old(self).tab_seq,
            same_panels(*final(self), *old(self)),
    {
        let ghost c0 = self.find.current as int;
        let m = match self.find.next() {
            Some(m) => m,
            None => {
                return None;
            },
        };
        proof {
            let n = self.find.matches@.len() as int;
            let c = self.find.current as int;
            assert(c < n) by (nonlinear_arith)
                requires
                    c == (c0 + 1) % n,
                    n > 0,
            ;
        }
        self.cursor.line = m.line;
        self.anchor = None;
        Some(m)
    }

    /// Move to the previous match; the caret goes to its line and the
    /// selection is dropped.
    pub fn find_prev(&mut self) -> (r: Option<Match>)
        requires
            old(self).wf(),
        ensures
            final(self).wf(),
            old(self).find.matches@.len() == 0 ==> r is None && *final(self) == *old(self),
            old(self).find.matches@.len() > 0 ==> {
                let c = if old(self).find.current == 0 {
                    old(self).find.matches@.len() - 1
                } else {
                    old(self).find.current - 1
                };
                &&& final(self).find.current == c
                &&& r == Some(old(self).find.matches@[c])
                &&& final(self).cursor == (Cursor { line: old(self).find.matches@[c].line, ..old(self).cursor })
                &&& final(self).anchor is None
            },
            final(self).find.matches == old(self).find.matches,
            final(self).find.query == old(self).find.query,
            final(self).find.replacement == old(self).find.replacement,
            final(self).tabs == old(self).tabs,
            final(self).active == old(self).active,
            final(self).tab_seq == old(self).tab_seq,
            same_panels(*final(self), *old(self)),
    {
        let m = match self.find.prev() {
            Some(m) => m,
            None => {
                return None;
            },
        };
        self.cursor.line = m.line;
        self.anchor = None;
        Some(m)
    }

    /// Replace the current match; the document is committed and searched
    /// again. `false`, with nothing changed, when there is no current match
    /// or it no longer fits its line.
    pub fn replace_one(&mut self) -> (applied: bool)
        requires
            old(self).wf(),
        ensures
            final(self).wf(),
            ({
                let f = old(self).find;
                let ok = f.current < f.matches@.len() && apply_match(
                    old(self).lines(),
                    f.matches@[f.current as int],
                    f.replacement@,
                ).1;
                &&& applied == ok
                &&& ok ==> doc_replaced(
                    final(self).tabs@,
                    old(self).tabs@,
                    old(self).active as int,
                    commit_view(
                        DocView {
                            lines: apply_match(old(self).lines(), f.matches@[f.current as int], f.replacement@).0,
                            ..old(self).lines_doc()
                        },
                    ),
                    false,
                ) && final(self).find_fresh()
                &&& !ok ==> doc_replaced(
                    final(self).tabs@,
                    old(self).tabs@,
                    old(self).active as int,
                    old(self).lines_doc(),
                    false,
                ) && final(self).find == old(self).find
            }),
            final(self).find.query == old(self).find.query,
            final(self).find.replacement == old(self).find.replacement,
            final(self).active == old(self).active,
            final(self).cursor == old(self).cursor,
            final(self).anchor == old(self).anchor,
            final(self).tab_seq == old(self).tab_seq,
            same_panels(*final(self), *old(self)),
    {
        let a = self.active;
        let ghost tabs0 = self.tabs@;
        let ghost doc0 = self.tabs@[a as int].doc;
        proof {
            lemma_doc_fields(&doc0);
        }
        let applied = self.find.replace_current(&mut self.tabs[a].doc.lines);
        proof {
            lemma_doc_lines_only(&doc0, &self.tabs@[a as int].doc);
        }
        if applied {
            self.tabs[a].doc.commit();
        }
        assert forall|i: int| 0 <= i < self.tabs@.len() implies (#[trigger] self.tabs@[i]).doc.wf() by {
            if i != a {
                assert(self.tabs@[i] == tabs0[i]);
            }
        }
        if applied {
            self.invalidate_find();
        }
        applied
    }

    /// Replace every match; the document is committed when anything was
    /// replaced. Returns how many were.
    pub fn replace_all(&mut self) -> (count: usize)
        requires
            old(self).wf(),
        ensures
            final(self).wf(),
            ({
                let (ls, c) = replaced_all(old(self).find, old(self).lines());
                let d = DocView { lines: ls, ..old(self).lines_doc() };
                &&& count == c
                &&& doc_replaced(
                    final(self).tabs@,
                    old(self).tabs@,
                    old(self).active as int,
                    if count > 0 { commit_view(d) } else { d },
                    false,
                )
                &&& (old(self).find.matches@.len() == 0 || old(self).find.query@.len() == 0) ==> final(self).find
                    == old(self).find
                &&& !(old(self).find.matches@.len() == 0 || old(self).find.query@.len() == 0) ==> (final(self).find.searched(ls)
                    && final(self).find.current == 0)
            }),
            final(self).find.query == old(self).find.query,
            final(self).find.replacement == old(self).find.replacement,
            final(self).active == old(self).active,
            final(self).cursor == old(self).cursor,
            final(self).anchor == old(self).anchor,
            final(self).tab_seq == old(self).tab_seq,
            same_panels(*final(self), *old(self)),
    {
        let a = self.active;
        let ghost tabs0 = self.tabs@;
        let ghost doc0 = self.tabs@[a as int].doc;
        proof {
            lemma_doc_fields(&doc0);
        }
        let count = self.find.replace_all(&mut self.tabs[a].doc.lines);
        proof {
            lemma_doc_lines_only(&doc0, &self.tabs@[a as int].doc);
        }
        if count > 0 {
            self.tabs[a].doc.commit();
        }
        assert forall|i: int| 0 <= i < self.tabs@.len() implies (#[trigger] self.tabs@[i]).doc.wf() by {
            if i != a {
                assert(self.tabs@[i] == tabs0[i]);
            }
        }
        count
    }

    // ── Loading & titles ──────────────────────────────────────────────────

    /// Load text into the active tab as a clean document named `name`.
    pub fn load_text(&mut self, name: &str, content: &str, path: Option<String>)
        requires
            old(self).wf(),
        ensures
            final(self).wf(),
            ({
                let a = old(self).active as int;
                let t = old(self).tabs@[a];
                &&& final(self).tabs@.len() == old(self).tabs@.len()
                &&& forall|i: int| 0 <= i < old(self).tabs@.len() && i != a ==> #[trigger] final(self).tabs@[i]
                    == old(self).tabs@[i]
                &&& final(self).tabs@[a].doc@ == fresh_doc(prepared(text_lines(content@)))
                &&& final(self).tabs@[a].state@ == (TabStateView {
                    name: name@,
                    path: opt_view(path),
                    dirty: false,
                    ..t.state@
                })
                &&& final(self).tabs@[a].encoding == t.encoding
                &&& final(self).tabs@[a].line_ending == t.line_ending
                &&& final(self).tabs@[a].had_bom == t.had_bom
            }),
            final(self).cursor == (Cursor { line: 0, col: 0 }),
            final(self).anchor is None,
            final(self).find_fresh(),
            final(self).active == old(self).active,
            final(self).tab_seq == old(self).tab_seq,
            same_panels(*final(self), *old(self)),
    {
        let a = self.active;
        let ghost tabs0 = self.tabs@;
        let ghost path_v = opt_view(path);
        self.tabs[a].doc = Document::from_plain_text(content);
        self.tabs[a].state.name = crate::text::to_owned_string(name);
        self.tabs[a].state.path = path;
        self.tabs[a].state.dirty = false;
        self.tabs[a].doc.mark_saved();
        self.cursor = Cursor { line: 0, col: 0 };
        self.anchor = None;
        assert forall|i: int| 0 <= i < self.tabs@.len() implies (#[trigger] self.tabs@[i]).doc.wf() by {
            if i != a {
                assert(self.tabs@[i] == tabs0[i]);
            }
        }
        self.invalidate_find();
    }

    /// The window title for the active tab.
    pub fn window_title(&self) -> (t: String)
        requires
            self.wf(),
        ensures
            t@ == title_text(self.tabs@[self.active as int].state.name@, self.lines_doc().dirty),
    {
        let a = self.active;
        let mut t = self.tabs[a].state.name.clone();
        if self.tabs[a].is_dirty() {
            crate::text::push_str(&mut t, " \u{25cf} \u{2014} ");
        } else {
            crate::text::push_str(&mut t, " \u{2014} ");
        }
        crate::text::push_str(&mut t, APP_NAME);
        t
    }

    /// The next toast number.
    pub fn next_toast_seq(&mut self) -> (n: u64)
        requires
            old(self).toast_seq < u64::MAX,
        ensures
            n == old(self).toast_seq + 1,
            final(self).toast_seq == n,
            final(self).tabs == old(self).tabs,
            final(self).active == old(self).active,
            final(self).cursor == old(self).cursor,
            final(self).anchor == old(self).anchor,
            final(self).find == old(self).find,
            final(self).palette == old(self).palette,
            final(self).tab_seq == old(self).tab_seq,
    {
        self.toast_seq = self.toast_seq + 1;
        self.toast_seq
    }
    // ── Files ─────────────────────────────────────────────────────────────

    /// Focus the first tab already showing `path`, caret at its start.
    /// `None`, with nothing changed, when no tab shows it.
    pub fn focus_open_path(&mut self, path: &str) -> (r: Option<usize>)
        requires
            old(self).wf(),
        ensures
            final(self).wf(),
            r is None <==> forall|i: int|
                0 <= i < old(self).tabs@.len() ==> opt_view((#[trigger] old(self).tabs@[i]).state.path) != Some(
                    path@,
                ),
            r is None ==> *final(self) == *old(self),
            r is Some ==> {
                let i = r->0 as int;
                &&& i < old(self).tabs@.len()
                &&& opt_view(old(self).tabs@[i].state.path) == Some(path@)
                &&& forall|j: int| 0 <= j < i ==> opt_view((#[trigger] old(self).tabs@[j]).state.path) != Some(path@)
                &&& final(self).tabs == old(self).tabs
                &&& final(self).active == i
                &&& final(self).cursor == (Cursor { line: 0, col: 0 })
                &&& final(self).anchor == old(self).anchor
                &&& final(self).find_fresh()
                &&& final(self).tab_seq == old(self).tab_seq
                &&& same_panels(*final(self), *old(self))
            },
    {
        let mut i: usize = 0;
        while i < self.tabs.len()
            invariant
                i <= self.tabs@.len(),
                *self == *old(self),
                self.wf(),
                forall|j: int| 0 <= j < i ==> opt_view((#[trigger] self.tabs@[j]).state.path) != Some(path@),
            decreases self.tabs@.len() - i,
        {
            let same = match &self.tabs[i].state.path {
                Some(p) => crate::text::str_eq(p.as_str(), path),
                None => false,
            };
            if same {
                self.active = i;
                self.cursor = Cursor { line: 0, col: 0 };
                self.invalidate_find();
                return Some(i);
            }
            i += 1;
        }
        None
    }

    /// Show a loaded file: in the only tab when that one is clean and
    /// blank, otherwise in a new tab after the others. The tab is named
    /// after the file, clean, and keeps the file's encoding, line ending
    /// and byte-order mark for saving. Returns the tab's index.
    pub fn open_loaded(&mut self, loaded: LoadedFile) -> (index: usize)
        requires
            old(self).wf(),
        ensures
            final(self).wf(),
            ({
                let reuse = pristine(old(self).tabs@);
                let f = loaded_view(loaded);
                let t = final(self).tabs@[index as int];
                &&& index == if reuse { 0 } else { old(self).tabs@.len() }
                &&& final(self).tabs@.len() == if reuse { 1 } else { old(self).tabs@.len() + 1 }
                &&& forall|i: int| 0 <= i < old(self).tabs@.len() && i != index ==> #[trigger] final(self).tabs@[i]
                    == old(self).tabs@[i]
                &&& final(self).tab_seq == if reuse { old(self).tab_seq } else { old(self).tab_seq.wrapping_add(1) }
                &&& reuse ==> t.state@ == loaded_state(old(self).tabs@[0].state@, f)
                &&& !reuse ==> exists|nanos: u64| t.state@ == loaded_state(
                    fresh_tab_state("Untitled"@, tab_id_text(nanos, old(self).tab_seq)),
                    f,
                )
                &&& t.doc@ == fresh_doc(prepared(text_lines(f.content)))
                &&& t.encoding@ == f.encoding
                &&& t.line_ending == f.line_ending
                &&& t.had_bom == f.had_bom
            }),
            final(self).active == index,
            final(self).cursor == (Cursor { line: 0, col: 0 }),
            final(self).anchor is None,
            final(self).find_fresh(),
            same_panels(*final(self), *old(self)),
    {
        let ghost reuse = pristine(self.tabs@);
        let ghost tabs0 = self.tabs@;
        let keep = self.tabs.len() == 1 && !self.tabs[0].is_dirty() && self.tabs[0].doc.is_empty();
        assert(keep == reuse);
        if !keep {
            self.tabs.push(Tab::untitled(self.tab_seq));
            self.tab_seq = self.tab_seq.wrapping_add(1);
            self.active = self.tabs.len() - 1;
        }
        let a = self.active;
        let ghost tabs1 = self.tabs@;
        let LoadedFile { path, content, encoding, line_ending, had_bom, byte_size: _ } = loaded;
        self.tabs[a].doc = Document::from_plain_text(content.as_str());
        self.tabs[a].state.name = file_name(path.as_str());
        self.tabs[a].state.path = Some(path);
        self.tabs[a].state.dirty = false;
        self.tabs[a].state.encoding = encoding.clone();
        self.tabs[a].state.line_ending = crate::text::to_owned_string(line_ending.label());
        self.tabs[a].encoding = encoding;
        self.tabs[a].line_ending = line_ending;
        self.tabs[a].had_bom = had_bom;
        self.tabs[a].doc.mark_saved();
        self.cursor = Cursor { line: 0, col: 0 };
        self.anchor = None;
        assert forall|i: int| 0 <= i < self.tabs@.len() implies (#[trigger] self.tabs@[i]).doc.wf() by {
            if i != a {
                assert(self.tabs@[i] == tabs1[i]);
            }
        }
        self.invalidate_find();
        a
    }

    /// After the active tab was written to `path`: it is named after the
    /// file, remembers the path and is clean.
    pub fn mark_saved_as(&mut self, path: &str)
        requires
            old(self).wf(),
        ensures
            final(self).wf(),
            ({
                let a = old(self).active as int;
                let t = old(self).tabs@[a];
                &&& final(self).tabs@.len() == old(self).tabs@.len()
                &&& forall|i: int| 0 <= i < old(self).tabs@.len() && i != a ==> #[trigger] final(self).tabs@[i]
                    == old(self).tabs@[i]
                &&& final(self).tabs@[a].doc@ == fresh_doc(t.doc@.lines)
                &&& final(self).tabs@[a].state@ == (TabStateView {
                    name: display_file_name(path@),
                    path: Some(path@),
                    dirty: false,
                    ..t.state@
                })
                &&& final(self).tabs@[a].encoding == t.encoding
                &&& final(self).tabs@[a].line_ending == t.line_ending
                &&& final(self).tabs@[a].had_bom == t.had_bom
            }),
            final(self).active == old(self).active,
            final(self).cursor == old(self).cursor,
            final(self).anchor == old(self).anchor,
            final(self).find == old(self).find,
            final(self).tab_seq == old(self).tab_seq,
            same_panels(*final(self), *old(self)),
    {
        let a = self.active;
        let ghost tabs0 = self.tabs@;
        self.tabs[a].state.path = Some(crate::text::to_owned_string(path));
        self.tabs[a].state.name = file_name(path);
        self.tabs[a].state.dirty = false;
        self.tabs[a].doc.mark_saved();
        assert forall|i: int| 0 <= i < self.tabs@.len() implies (#[trigger] self.tabs@[i]).doc.wf() by {
            if i != a {
                assert(self.tabs@[i] == tabs0[i]);
            }
        }
    }

    // ── Notes ─────────────────────────────────────────────────────────────

    /// The title the active tab is stored under: its name, or for an
    /// untitled tab the first line of its text.
    pub fn note_title(&self) -> (t: String)
        requires
            self.wf(),
        ensures
            t@ == if self.tabs@[self.active as int].state.name@ == "Untitled"@ {
                note_title_of(join_nl(texts(self.lines())))
            } else {
                self.tabs@[self.active as int].state.name@
            },
    {
        let a = self.active;
        if crate::text::str_eq(self.tabs[a].state.name.as_str(), "Untitled") {
            let text = self.tabs[a].doc.plain_text();
            first_line_or_untitled(text.as_str())
        } else {
            self.tabs[a].state.name.clone()
        }
    }

    /// The active tab is now stored as note `id`, which the sidebar selects.
    pub fn link_note(&mut self, id: i64)
        requires
            old(self).wf(),
        ensures
            final(self).wf(),
            ({
                let a = old(self).active as int;
                let t = old(self).tabs@[a];
                &&& final(self).tabs@.len() == old(self).tabs@.len()
                &&& forall|i: int| 0 <= i < old(self).tabs@.len() && i != a ==> #[trigger] final(self).tabs@[i]
                    == old(self).tabs@[i]
                &&& final(self).tabs@[a] == (Tab { state: TabState { note_id: Some(id), ..t.state }, ..t })
            }),
            final(self).selected_note_id == id,
            final(self).active == old(self).active,
            final(self).cursor == old(self).cursor,
            final(self).anchor == old(self).anchor,
            final(self).find == old(self).find,
            final(self).tab_seq == old(self).tab_seq,
            final(self).palette == old(self).palette,
            final(self).pending == old(self).pending,
    {
        let a = self.active;
        let ghost tabs0 = self.tabs@;
        self.tabs[a].state.note_id = Some(id);
        self.selected_note_id = id;
        assert forall|i: int| 0 <= i < self.tabs@.len() implies (#[trigger] self.tabs@[i]).doc.wf() by {
            if i != a {
                assert(self.tabs@[i] == tabs0[i]);
            }
        }
    }

    /// Open a stored note in the active tab: its text with its highlights
    /// and list structure, clean, named by its title (`Untitled` when the
    /// title is empty), linked to the note and its file.
    pub fn open_note_text(
        &mut self,
        id: i64,
        title: &str,
        content: &str,
        highlights_json: &str,
        list_structure_json: &str,
        file_path: Option<String>,
    )
        requires
            old(self).wf(),
        ensures
            final(self).wf(),
            ({
                let a = old(self).active as int;
                let t = old(self).tabs@[a];
                &&& final(self).tabs@.len() == old(self).tabs@.len()
                &&& forall|i: int| 0 <= i < old(self).tabs@.len() && i != a ==> #[trigger] final(self).tabs@[i]
                    == old(self).tabs@[i]
                &&& final(self).tabs@[a].doc@ == fresh_doc(
                    note_lines(content@, highlights_json@, list_structure_json@),
                )
                &&& final(self).tabs@[a].state@ == (TabStateView {
                    name: if title@.len() == 0 { "Untitled"@ } else { title@ },
                    note_id: Some(id),
                    path: opt_view(file_path),
                    dirty: false,
                    ..t.state@
                })
                &&& final(self).tabs@[a].encoding == t.encoding
                &&& final(self).tabs@[a].line_ending == t.line_ending
                &&& final(self).tabs@[a].had_bom == t.had_bom
            }),
            final(self).selected_note_id == id,
            final(self).cursor == (Cursor { line: 0, col: 0 }),
            final(self).anchor == old(self).anchor,
            final(self).find_fresh(),
            final(self).active == old(self).active,
            final(self).tab_seq == old(self).tab_seq,
            final(self).palette == old(self).palette,
            final(self).pending == old(self).pending,
            final(self).extract_selected == old(self).extract_selected,
    {
        let mut doc = Document::from_plain_text(content);
        let ghost d0 = doc;
        proof {
            lemma_doc_fields(&doc);
        }
        let _ = apply_highlights_json(doc.lines.as_mut_slice(), highlights_json);
        let _ = apply_list_structure_json(doc.lines.as_mut_slice(), list_structure_json);
        ListEngine::renumber(&mut doc.lines);
        proof {
            lemma_doc_lines_only(&d0, &doc);
        }
        let a = self.active;
        let ghost tabs0 = self.tabs@;
        let ghost path_v = opt_view(file_path);
        self.tabs[a].doc = doc;
        self.tabs[a].doc.mark_saved();
        self.tabs[a].state.name = if title.is_empty() {
            crate::text::to_owned_string("Untitled")
        } else {
            crate::text::to_owned_string(title)
        };
        self.tabs[a].state.note_id = Some(id);
        self.tabs[a].state.path = file_path;
        self.tabs[a].state.dirty = false;
        self.selected_note_id = id;
        self.cursor = Cursor { line: 0, col: 0 };
        assert forall|i: int| 0 <= i < self.tabs@.len() implies (#[trigger] self.tabs@[i]).doc.wf() by {
            if i != a {
                assert(self.tabs@[i] == tabs0[i]);
            }
        }
        self.invalidate_find();
    }

    /// Note `id` was deleted: the sidebar no longer selects it and no tab
    /// stays linked to it.
    pub fn unlink_note(&mut self, id: i64)
        requires
            old(self).wf(),
        ensures
            final(self).wf(),
            final(self).selected_note_id == if old(self).selected_note_id == id {
                -1i64
            } else {
                old(self).selected_note_id
            },
            final(self).tabs@.len() == old(self).tabs@.len(),
            forall|i: int|
                0 <= i < old(self).tabs@.len() ==> #[trigger] final(self).tabs@[i] == if old(self).tabs@[i].state.note_id
                    == Some(id) {
                    Tab { state: TabState { note_id: None, ..old(self).tabs@[i].state }, ..old(self).tabs@[i] }
                } else {
                    old(self).tabs@[i]
                },
            final(self).active == old(self).active,
            final(self).cursor == old(self).cursor,
            final(self).anchor == old(self).anchor,
            final(self).find == old(self).find,
            final(self).tab_seq == old(self).tab_seq,
            final(self).palette == old(self).palette,
            final(self).pending == old(self).pending,
    {
        if self.selected_note_id == id {
            self.selected_note_id = -1;
        }
        let ghost tabs0 = self.tabs@;
        let mut i: usize = 0;
        while i < self.tabs.len()
            invariant
                i <= self.tabs@.len(),
                self.tabs@.len() == tabs0.len(),
                forall|j: int| 0 <= j < i ==> #[trigger] self.tabs@[j] == if tabs0[j].state.note_id == Some(id) {
                    Tab { state: TabState { note_id: None, ..tabs0[j].state }, ..tabs0[j] }
                } else {
                    tabs0[j]
                },
                forall|j: int| i <= j < tabs0.len() ==> #[trigger] self.tabs@[j] == tabs0[j],
                self.active == old(self).active,
                self.cursor == old(self).cursor,
                self.anchor == old(self).anchor,
                self.find == old(self).find,
                self.tab_seq == old(self).tab_seq,
                self.palette == old(self).palette,
                self.pending == old(self).pending,
                self.selected_note_id == if old(self).selected_note_id == id {
                    -1i64
                } else {
                    old(self).selected_note_id
                },
                tabs0 == old(self).tabs@,
            decreases self.tabs@.len() - i,
        {
            if self.tabs[i].state.note_id == Some(id) {
                self.tabs[i].state.note_id = None;
            }
            i += 1;
        }
        assert forall|i: int| 0 <= i < self.tabs@.len() implies (#[trigger] self.tabs@[i]).doc.wf() by {
            assert(self.tabs@[i].doc == tabs0[i].doc);
        }
    }
    // ── Status ────────────────────────────────────────────────────────────

    /// The status bar for the active tab; `zoom_percent` is the window's
    /// zoom, rounded to a percentage.
    pub fn compute_status(&self, zoom_percent: i32) -> (st: StatusData)
        requires
            self.wf(),
            self.cursor.line < usize::MAX,
            self.cursor.col < usize::MAX,
            total_chars(self.lines()) + self.lines().len() <= usize::MAX,
            total_words(self.lines()) <= usize::MAX,
        ensures
            ({
                let ls = self.lines();
                let sel = selected_count(ls, selection_of(ls.len(), self.cursor.line, self.anchor));
                let t = self.tabs@[self.active as int];
                &&& st.caret_text@ == caret_text(self.cursor.line as nat, self.cursor.col as nat, sel)
                &&& st.metrics_text@ == metrics_text(total_words(ls), total_chars(ls), ls.len())
                &&& st.highlight_text@ == highlight_text(highlighted_in(ls))
                &&& st.zoom_text@ == signed_decimal(zoom_percent as int) + "%"@
                &&& st.line_ending@ == ending_label(t.line_ending)
                &&& st.encoding@ == t.encoding@
                &&& st.dirty == t.doc@.dirty
                &&& st.saved_text@ == if t.doc@.dirty { "Unsaved changes"@ } else { "Saved"@ }
                &&& st.cursor_line == (self.cursor.line + 1) as i32
                &&& st.cursor_col == (self.cursor.col + 1) as i32
                &&& st.selected_chars == sel as i32
                &&& st.word_count == total_words(ls) as i32
                &&& st.char_count == total_chars(ls) as i32
                &&& st.line_count == ls.len() as i32
                &&& st.highlight_count == highlighted_in(ls) as i32
            }),
    {
        let a = self.active;
        let doc = &self.tabs[a].doc;
        proof {
            lemma_doc_fields(doc);
        }
        let highlighted = doc.highlighted_count();
        let selected = self.selected_chars();
        let words = doc.word_count();
        let chars = doc.char_count();
        let lines = doc.line_count();
        let mut caret = crate::text::to_owned_string("Ln ");
        crate::text::push_decimal(&mut caret, (self.cursor.line + 1) as u64);
        crate::text::push_str(&mut caret, ", Col ");
        crate::text::push_decimal(&mut caret, (self.cursor.col + 1) as u64);
        if selected > 0 {
            crate::text::push_str(&mut caret, "    ");
            crate::text::push_decimal(&mut caret, selected as u64);
            crate::text::push_str(&mut caret, " selected");
        }
        let mut metrics = String::new();
        crate::text::push_decimal(&mut metrics, words as u64);
        crate::text::push_str(&mut metrics, " words \u{00b7} ");
        crate::text::push_decimal(&mut metrics, chars as u64);
        crate::text::push_str(&mut metrics, " chars \u{00b7} ");
        crate::text::push_decimal(&mut metrics, lines as u64);
        crate::text::push_str(&mut metrics, " lines");
        let highlight = if highlighted == 0 {
            String::new()
        } else if highlighted == 1 {
            crate::text::to_owned_string("1 highlight")
        } else {
            let mut h = String::new();
            crate::text::push_decimal(&mut h, highlighted as u64);
            crate::text::push_str(&mut h, " highlights");
            h
        };
        let mut zoom = String::new();
        push_signed(&mut zoom, zoom_percent as i64);
        crate::text::push_str(&mut zoom, "%");
        let dirty = doc.dirty;
        StatusData {
            caret_text: caret,
            metrics_text: metrics,
            highlight_text: highlight,
            zoom_text: zoom,
            line_ending: crate::text::to_owned_string(self.tabs[a].line_ending.label()),
            encoding: self.tabs[a].encoding.clone(),
            dirty,
            saved_text: if dirty {
                crate::text::to_owned_string("Unsaved changes")
            } else {
                crate::text::to_owned_string("Saved")
            },
            cursor_line: (self.cursor.line + 1) as i32,
            cursor_col: (self.cursor.col + 1) as i32,
            selected_chars: selected as i32,
            word_count: words as i32,
            char_count: chars as i32,
            line_count: lines as i32,
            highlight_count: highlighted as i32,
        }
    }

    // ── Session ───────────────────────────────────────────────────────────

    /// Everything needed to bring the tabs back on the next launch.
    pub fn build_session(&self) -> (s: Session)
        requires
            self.wf(),
        ensures
            s.version == SESSION_VERSION,
            s.active_tab == self.active,
            s.tabs@.len() == self.tabs@.len(),
            s.documents@.len() == self.tabs@.len(),
            s.highlights@.len() == self.tabs@.len(),
            s.list_structures@.len() == self.tabs@.len(),
            forall|i: int|
                0 <= i < self.tabs@.len() ==> {
                    let ls = (#[trigger] self.tabs@[i]).doc@.lines;
                    &&& s.tabs@[i]@ == self.tabs@[i].state@
                    &&& s.documents@[i]@ == join_nl(texts(ls))
                    &&& s.highlights@[i]@ == json_text(ShapeView::Object(highlight_members(ls)))
                    &&& s.list_structures@[i]@ == json_text(ShapeView::Array(list_records(ls)))
                    &&& read_back_as(s.highlights@[i]@, s.list_structures@[i]@, ls)
                },
            s.window == (WindowGeometry { width: 1200, height: 800 }),
    {
        let tabs = self.tab_states();
        let mut documents: Vec<String> = Vec::new();
        let mut highlights: Vec<String> = Vec::new();
        let mut lists: Vec<String> = Vec::new();
        let mut i: usize = 0;
        while i < self.tabs.len()
            invariant
                i <= self.tabs@.len(),
                documents@.len() == i,
                highlights@.len() == i,
                lists@.len() == i,
                forall|j: int|
                    0 <= j < i ==> {
                        let ls = (#[trigger] self.tabs@[j]).doc@.lines;
                        &&& documents@[j]@ == join_nl(texts(ls))
                        &&& highlights@[j]@ == json_text(ShapeView::Object(highlight_members(ls)))
                        &&& lists@[j]@ == json_text(ShapeView::Array(list_records(ls)))
                        &&& read_back_as(highlights@[j]@, lists@[j]@, ls)
                    },
            decreases self.tabs@.len() - i,
        {
            let doc = &self.tabs[i].doc;
            proof {
                lemma_doc_fields(doc);
            }
            documents.push(doc.plain_text());
            highlights.push(highlights_json_for(doc.lines.as_slice()));
            lists.push(list_structure_json_for(doc.lines.as_slice()));
            i += 1;
        }
        Session {
            version: SESSION_VERSION,
            active_tab: self.active,
            tabs,
            documents,
            highlights,
            list_structures: lists,
            window: WindowGeometry { width: 1200, height: 800 },
        }
    }

    /// Bring back the tabs of a saved session, all clean, with the caret of
    /// the active one pulled into its document. An empty session changes
    /// nothing.
    pub fn restore_session(&mut self, session: &Session)
        requires
            old(self).wf(),
        ensures
            final(self).wf(),
            session.tabs@.len() == 0 ==> *final(self) == *old(self),
            session.tabs@.len() > 0 ==> {
                let n = session.tabs@.len();
                &&& final(self).tabs@.len() == n
                &&& forall|i: int|
                    0 <= i < n ==> {
                        let t = #[trigger] final(self).tabs@[i];
                        &&& t.doc@ == fresh_doc(
                            restored_lines(session.documents@, session.highlights@, session.list_structures@, i),
                        )
                        &&& t.state@ == (TabStateView { dirty: false, ..session.tabs@[i]@ })
                        &&& t.encoding@ == session.tabs@[i].encoding@
                        &&& t.line_ending == ending_from_label(session.tabs@[i].line_ending@)
                        &&& !t.had_bom
                    }
                &&& final(self).active == min_of(session.active_tab as int, n - 1)
                &&& final(self).cursor == clamped(
                    Cursor {
                        line: session.tabs@[final(self).active as int].cursor_line,
                        col: session.tabs@[final(self).active as int].cursor_col,
                    },
                    final(self).lines(),
                )
                &&& final(self).find_fresh()
                &&& final(self).anchor == old(self).anchor
                &&& final(self).tab_seq == old(self).tab_seq
                &&& same_panels(*final(self), *old(self))
            },
    {
        let n = session.tabs.len();
        if n == 0 {
            return;
        }
        let mut tabs: Vec<Tab> = Vec::new();
        let mut i: usize = 0;
        while i < n
            invariant
                i <= n,
                n == session.tabs@.len(),
                tabs@.len() == i,
                forall|j: int|
                    0 <= j < i ==> {
                        let t = #[trigger] tabs@[j];
                        &&& t.doc.wf()
                        &&& t.doc@ == fresh_doc(
                            restored_lines(session.documents@, session.highlights@, session.list_structures@, j),
                        )
                        &&& t.state@ == (TabStateView { dirty: false, ..session.tabs@[j]@ })
                        &&& t.encoding@ == session.tabs@[j].encoding@
                        &&& t.line_ending == ending_from_label(session.tabs@[j].line_ending@)
                        &&& !t.had_bom
                    },
            decreases n - i,
        {
            let content: &str = if i < session.documents.len() {
                session.documents[i].as_str()
            } else {
                ""
            };
            proof {
                if i >= session.documents@.len() {
                    reveal_strlit("");
                }
            }
            assert(content@ == restored_text(session.documents@, i as int));
            let mut doc = Document::from_plain_text(content);
            let ghost d0 = doc;
            proof {
                lemma_doc_fields(&doc);
            }
            if i < session.highlights.len() {
                let _ = apply_highlights_json(doc.lines.as_mut_slice(), session.highlights[i].as_str());
            }
            if i < session.list_structures.len() {
                let _ = apply_list_structure_json(doc.lines.as_mut_slice(), session.list_structures[i].as_str());
            }
            ListEngine::renumber(&mut doc.lines);
            proof {
                lemma_doc_lines_only(&d0, &doc);
            }
            doc.mark_saved();
            let mut state = session.tabs[i].clone();
            state.dirty = false;
            let encoding = state.encoding.clone();
            let line_ending = LineEnding::from_label(state.line_ending.as_str());
            tabs.push(Tab { encoding, line_ending, had_bom: false, state, doc });
            i += 1;
        }
        self.tabs = tabs;
        self.active = if session.active_tab < n - 1 {
            session.active_tab
        } else {
            n - 1
        };
        let a = self.active;
        self.cursor = Cursor { line: self.tabs[a].state.cursor_line, col: self.tabs[a].state.cursor_col };
        proof {
            assert(self.tabs@[a as int].state@.cursor_line == session.tabs@[a as int].cursor_line);
        }
        self.clamp_cursor();
        self.invalidate_find();
    }
    // ── Window helpers ────────────────────────────────────────────────────

    /// Escape: close the find and extraction panels; `true` when one was
    /// open.
    pub fn close_panels(&mut self) -> (closed: bool)
        ensures
            closed == (old(self).find_open || old(self).extract_open),
            !final(self).extract_open,
            old(self).find_open ==> !final(self).find_open && !final(self).replace_open,
            !old(self).find_open ==> final(self).find_open == old(self).find_open && final(self).replace_open
                == old(self).replace_open,
            final(self).tabs == old(self).tabs,
            final(self).active == old(self).active,
            final(self).cursor == old(self).cursor,
            final(self).anchor == old(self).anchor,
            final(self).find == old(self).find,
            final(self).palette == old(self).palette,
            final(self).tab_seq == old(self).tab_seq,
            final(self).extract_selected == old(self).extract_selected,
    {
        let mut closed = false;
        if self.find_open {
            self.find_open = false;
            self.replace_open = false;
            closed = true;
        }
        if self.extract_open {
            self.extract_open = false;
            closed = true;
        }
        closed
    }

    /// Ctrl+Shift+H: toggle the armed colour (yellow when none is armed) on
    /// the selection. Returns the key used and what the toggle reported.
    pub fn toggle_armed(&mut self) -> (r: (String, Option<bool>))
        requires
            old(self).wf(),
            old(self).lines().len() > 0,
        ensures
            final(self).wf(),
            r.0@ == if old(self).armed_colour@.len() == 0 {
                "yellow"@
            } else {
                old(self).armed_colour@
            },
    {
        proof {
            reveal_strlit("yellow");
        }
        let key = if self.armed_colour.as_str().is_empty() {
            crate::text::to_owned_string("yellow")
        } else {
            self.armed_colour.clone()
        };
        let result = self.toggle_highlight_key(key.as_str());
        (key, result)
    }

    /// Append `stamp` to the caret's line (after a space when the line has
    /// text) and put the caret at the end of the line.
    pub fn append_at_caret_line(&mut self, stamp: &str)
        requires
            old(self).wf(),
            old(self).cursor.line < old(self).lines().len(),
            !stamp@.contains('\n'),
            !old(self).lines()[old(self).cursor.line as int].text.contains('\n'),
        ensures
            final(self).wf(),
            ({
                let line = old(self).cursor.line as int;
                let existing = old(self).lines()[line].text;
                let joined = if existing.len() == 0 { stamp@ } else { existing + seq![' '] + stamp@ };
                let (d, ch) = set_text_result(old(self).lines_doc(), line, joined);
                &&& ch ==> doc_replaced(final(self).tabs@, old(self).tabs@, old(self).active as int, d, true)
                    && final(self).find_fresh()
                &&& !ch ==> doc_replaced(
                    final(self).tabs@,
                    old(self).tabs@,
                    old(self).active as int,
                    old(self).lines_doc(),
                    false,
                ) && final(self).find == old(self).find
                &&& final(self).cursor == (Cursor { col: joined.len() as usize, ..old(self).cursor })
            }),
            final(self).active == old(self).active,
            final(self).anchor == old(self).anchor,
            final(self).tab_seq == old(self).tab_seq,
            same_panels(*final(self), *old(self)),
    {
        let a = self.active;
        let index = self.cursor.line;
        proof {
            lemma_doc_fields(&self.tabs@[a as int].doc);
        }
        let ghost existing = self.lines()[index as int].text;
        let mut joined = self.tabs[a].doc.lines[index].text.clone();
        if joined.as_str().is_empty() {
            joined = crate::text::to_owned_string(stamp);
        } else {
            joined.push(' ');
            crate::text::push_str(&mut joined, stamp);
            assert(joined@ =~= existing + seq![' '] + stamp@);
        }
        proof {
            let existing = self.lines()[index as int].text;
            if existing.len() > 0 {
                assert(!(existing + seq![' '] + stamp@).contains('\n')) by {
                    if (existing + seq![' '] + stamp@).contains('\n') {
                        let k = choose|k: int| 0 <= k < (existing + seq![' '] + stamp@).len() && (existing + seq![' '] + stamp@)[k] == '\n';
                        if k < existing.len() {
                            assert(existing[k] == '\n');
                        } else if k > existing.len() {
                            assert(stamp@[k - existing.len() - 1] == '\n');
                        }
                    }
                }
            }
        }
        let _ = self.set_line_text(index, joined.as_str());
        let col = crate::text::chars_of(joined.as_str()).len();
        self.cursor.col = col;
    }

    /// Where the native caret goes back to after the surface showing
    /// `surface` is rewritten from the model (see [`restore_offset`]).
    pub fn caret_restore_offset(&self, surface: &str, split: Option<usize>) -> (r: Option<usize>)
        requires
            self.wf(),
            self.lines().len() > 0,
            split != Some(usize::MAX),
            bytes_before(texts(self.lines()), self.lines().len() as int) <= usize::MAX,
        ensures
            match (r, restore_offset(texts(self.lines()), surface@, split, self.cursor)) {
                (Some(n), Some(m)) => n == m,
                (None, None) => true,
                _ => false,
            },
    {
        let a = self.active;
        let doc = &self.tabs[a].doc;
        let ghost ts = texts(self.lines());
        proof {
            lemma_doc_fields(doc);
        }
        let text = doc.plain_text();
        if crate::text::str_eq(text.as_str(), surface) {
            return None;
        }
        let n = doc.lines.len();
        let line0: usize = match split {
            Some(i) => i + 1,
            None => {
                let pieces = split_text(surface);
                let mut k: usize = 0;
                let mut found: Option<usize> = None;
                while k < pieces.len() && k < n
                    invariant_except_break
                        found is None,
                    invariant
                        k <= pieces@.len(),
                        n == ts.len(),
                        ts == texts(views(doc.lines@)),
                        strs(pieces@) == split_nl(surface@),
                        forall|j: int| 0 <= j < k ==> strs(pieces@)[j] == ts[j],
                    ensures
                        match found {
                            Some(f) => f < pieces@.len() && f < n && strs(pieces@)[f as int] != ts[f as int]
                                && forall|j: int| 0 <= j < f ==> strs(pieces@)[j] == ts[j],
                            None => forall|j: int| 0 <= j < pieces@.len() && j < n ==> strs(pieces@)[j] == ts[j],
                        },
                    decreases pieces@.len() - k,
                {
                    assert(ts[k as int] == doc.lines@[k as int].text@);
                    if !crate::text::str_eq(pieces[k].as_str(), doc.lines[k].text.as_str()) {
                        found = Some(k);
                        break;
                    }
                    k += 1;
                }
                proof {
                    let sp = split_nl(surface@);
                    match found {
                        Some(f) => {
                            assert(sp[f as int] != ts[f as int]);
                            let c = choose|k: int| 0 <= k < sp.len() && k < ts.len() && sp[k] != ts[k] && forall|j: int| 0 <= j < k ==> sp[j] == ts[j];
                            if c < f {
                                assert(sp[c] == ts[c]);
                            } else if c > f {
                                assert(sp[f as int] == ts[f as int]);
                            }
                            assert(first_diff(sp, ts) == Some(f as int));
                        },
                        None => {
                            assert(first_diff(sp, ts) is None);
                        },
                    }
                }
                match found {
                    Some(f) => f,
                    None => self.cursor.line,
                }
            },
        };
        let line = if line0 < n - 1 {
            line0
        } else {
            n - 1
        };
        let cs = crate::text::chars_of(doc.lines[line].text.as_str());
        let col = if self.cursor.col < cs.len() {
            self.cursor.col
        } else {
            cs.len()
        };
        let mut offset: usize = 0;
        let mut k: usize = 0;
        while k < line
            invariant
                k <= line < n,
                n == ts.len(),
                ts == texts(views(doc.lines@)),
                offset == bytes_before(ts, k as int),
                bytes_before(ts, n as int) <= usize::MAX,
            decreases line - k,
        {
            proof {
                lemma_bytes_before_mono(ts, k + 1, n as int);
            }
            assert(ts[k as int] == doc.lines@[k as int].text@);
            offset = offset + crate::text::byte_length(doc.lines[k].text.as_str()) + 1;
            k += 1;
        }
        proof {
            lemma_bytes_before_mono(ts, line + 1, n as int);
            crate::text::lemma_byte_at_mono(cs@, col as int, cs@.len() as int);
            assert(cs@.subrange(0, cs@.len() as int) =~= cs@);
            assert(ts[line as int] == cs@);
        }
        let within = crate::text::byte_offset(&cs, col);
        Some(offset + within)
    }
    /// Add a named custom colour to the palette. The hex is read and
    /// written back as `#rrggbb`; returns the swatch added (for the
    /// settings to keep), `None` when the hex does not read.
    pub fn add_custom_colour(&mut self, name: &str, hex: &str) -> (r: Option<CustomColour>)
        ensures
            rgba_of_hex(hex@) is None ==> r is None && final(self).palette == old(self).palette,
            rgba_of_hex(hex@) matches Some(v) ==> {
                let c = CustomColourView {
                    name: name@,
                    hex: hex_of_rgba(v),
                    rgba: swatch_rgba(hex_of_rgba(v)),
                };
                &&& r is Some
                &&& r->0@ == c
                &&& final(self).palette@ == with_custom(old(self).palette@, c)
            },
            final(self).tabs == old(self).tabs,
            final(self).active == old(self).active,
            final(self).cursor == old(self).cursor,
            final(self).anchor == old(self).anchor,
            final(self).find == old(self).find,
            final(self).tab_seq == old(self).tab_seq,
            final(self).armed_colour == old(self).armed_colour,
            final(self).extract_selected == old(self).extract_selected,
    {
        let rgba = match rgba_from_hex(hex) {
            Some(v) => v,
            None => {
                return None;
            },
        };
        let text = hex_from_rgba(rgba);
        proof {
            lemma_hex_roundtrip(rgba);
        }
        let colour = CustomColour::new(name, text.as_str());
        self.palette.add_custom(colour.clone());
        Some(colour)
    }
}

} // verus!
