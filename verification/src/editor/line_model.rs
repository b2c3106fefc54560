//! The document: an ordered list of [`EditorLine`]s plus undo history.

use vstd::prelude::*;

use crate::editor::list_engine::{
    after_markdown, lemma_renumbered_well_numbered, renumbered, toggled_check, well_numbered, ListEngine,
};
use crate::editor::undo::{undo_pushed, undo_wf, UndoStack, UndoView};
use crate::types::line::{
    clone_lines, normalised, plain_line, views, EditorLine, LineColour, LineView, ListType,
    MAX_INDENT,
};

verus! {

/// A single open document.
pub struct Document {
    pub lines: Vec<EditorLine>,
    pub dirty: bool,
    /// The undo history; see [`Document::wf`].
    pub undo: UndoStack,
    /// Set while the user is typing in one line so keystrokes coalesce into a
    /// single undo step. Cleared by any structural edit.
    pub typing_in: Option<usize>,
}

/// The mathematical content of a [`Document`].
#[verifier::ext_equal]
pub struct DocView {
    pub lines: Seq<LineView>,
    pub dirty: bool,
    pub history: UndoView,
    pub typing_in: Option<usize>,
}

impl View for Document {
    type V = DocView;

    closed spec fn view(&self) -> DocView {
        DocView {
            lines: views(self.lines@),
            dirty: self.dirty,
            history: self.undo@,
            typing_in: self.typing_in,
        }
    }
}

/// The one blank line an empty document holds.
pub open spec fn blank_doc() -> Seq<LineView> {
    seq![plain_line(Seq::empty())]
}

/// Lines as [`Document::commit`] leaves them: never zero lines, numbers
/// recomputed.
pub open spec fn committed(ls: Seq<LineView>) -> Seq<LineView> {
    renumbered(
        if ls.len() == 0 {
            blank_doc()
        } else {
            ls
        },
    )
}

/// The document after [`Document::commit`]: the buffer is recorded as a new
/// undo step and marked dirty.
pub open spec fn commit_view(d: DocView) -> DocView {
    let ls = committed(d.lines);
    DocView { lines: ls, dirty: true, history: undo_pushed(d.history, ls), typing_in: None }
}

/// A document view with its lines replaced and then committed.
pub open spec fn edit_then_commit(d: DocView, ls: Seq<LineView>) -> DocView {
    commit_view(DocView { lines: ls, ..d })
}

/// `(start, end)` clamped into `0..len` with `start <= end`.
pub open spec fn clamp_range(len: nat, start: int, end: int) -> (int, int) {
    let last = if len == 0 {
        0
    } else {
        len - 1
    };
    let s = if start < last {
        start
    } else {
        last
    };
    let e0 = if end < last {
        end
    } else {
        last
    };
    let e = if e0 < s {
        s
    } else {
        e0
    };
    (s, e)
}

/// Every line in `start..=end` recoloured.
pub open spec fn recoloured(ls: Seq<LineView>, start: int, end: int, c: LineColour) -> Seq<LineView> {
    Seq::new(
        ls.len(),
        |i: int|
            if start <= i <= end {
                LineView { colour: c, ..ls[i] }
            } else {
                ls[i]
            },
    )
}

/// What [`Document::set_list_type`] does to one line.
pub open spec fn with_list_type(l: LineView, t: ListType) -> LineView {
    normalised(
        LineView {
            list_type: t,
            indent: if t is NoList {
                0u8
            } else {
                l.indent
            },
            checked: if t is Check {
                l.checked
            } else {
                false
            },
            ..l
        },
    )
}

/// Every line in `start..=end` given list type `t`.
pub open spec fn relisted(ls: Seq<LineView>, start: int, end: int, t: ListType) -> Seq<LineView> {
    Seq::new(
        ls.len(),
        |i: int|
            if start <= i <= end {
                with_list_type(ls[i], t)
            } else {
                ls[i]
            },
    )
}

/// `indent + delta` clamped into `0..=MAX_INDENT`.
pub open spec fn shifted_indent(indent: u8, delta: i8) -> u8 {
    let n = indent + delta;
    if n < 0 {
        0
    } else if n > MAX_INDENT {
        MAX_INDENT
    } else {
        n as u8
    }
}

/// Every line in `start..=end` indented by `delta`.
pub open spec fn reindented(ls: Seq<LineView>, start: int, end: int, delta: i8) -> Seq<LineView> {
    Seq::new(
        ls.len(),
        |i: int|
            if start <= i <= end {
                LineView { indent: shifted_indent(ls[i].indent, delta), ..ls[i] }
            } else {
                ls[i]
            },
    )
}

/// `true` when every line in `start..=end` has colour `c`.
pub open spec fn all_coloured(ls: Seq<LineView>, start: int, end: int, c: LineColour) -> bool {
    forall|i: int| start <= i <= end ==> #[trigger] ls[i].colour == c
}


/// A text split on `\n` (an empty text is one empty piece).
pub open spec fn split_nl(t: Seq<char>) -> Seq<Seq<char>>
    decreases t.len(),
{
    if t.len() == 0 {
        seq![Seq::empty()]
    } else {
        let rest = split_nl(t.drop_last());
        if t.last() == '\n' {
            rest.push(Seq::empty())
        } else {
            rest.update(rest.len() - 1, rest.last().push(t.last()))
        }
    }
}

/// `s` without its trailing `\r` characters.
pub open spec fn trim_cr(s: Seq<char>) -> Seq<char>
    decreases s.len(),
{
    if s.len() > 0 && s.last() == '\r' {
        trim_cr(s.drop_last())
    } else {
        s
    }
}

/// Pieces joined with `\n`.
pub open spec fn join_nl(ps: Seq<Seq<char>>) -> Seq<char>
    decreases ps.len(),
{
    if ps.len() == 0 {
        Seq::empty()
    } else if ps.len() == 1 {
        ps[0]
    } else {
        join_nl(ps.drop_last()).push('\n') + ps.last()
    }
}

/// The texts of a document's lines.
pub open spec fn texts(ls: Seq<LineView>) -> Seq<Seq<char>> {
    ls.map_values(|l: LineView| l.text)
}

/// Lines as [`Document::from_lines`] prepares them: never zero lines,
/// normalised, numbered.
pub open spec fn prepared(ls: Seq<LineView>) -> Seq<LineView> {
    renumbered(
        (if ls.len() == 0 {
            blank_doc()
        } else {
            ls
        }).map_values(|l: LineView| normalised(l)),
    )
}

/// The plain lines of a text: split on `\n`, trailing `\r`s dropped.
pub open spec fn text_lines(t: Seq<char>) -> Seq<LineView> {
    split_nl(t).map_values(|p: Seq<char>| plain_line(trim_cr(p)))
}

/// A freshly built document over `ls`: clean, one undo state.
pub open spec fn fresh_doc(ls: Seq<LineView>) -> DocView {
    DocView {
        lines: ls,
        dirty: false,
        history: UndoView { states: seq![ls], index: 0 },
        typing_in: None,
    }
}

/// Total number of characters over all lines.
pub open spec fn total_chars(ls: Seq<LineView>) -> nat
    decreases ls.len(),
{
    if ls.len() == 0 {
        0
    } else {
        total_chars(ls.drop_last()) + ls.last().text.len()
    }
}

/// Total number of words over all lines.
pub open spec fn total_words(ls: Seq<LineView>) -> nat
    decreases ls.len(),
{
    if ls.len() == 0 {
        0
    } else {
        total_words(ls.drop_last()) + crate::types::line::word_count_of(ls.last().text)
    }
}

/// Number of highlighted lines.
pub open spec fn highlighted_in(ls: Seq<LineView>) -> nat
    decreases ls.len(),
{
    if ls.len() == 0 {
        0
    } else {
        highlighted_in(ls.drop_last()) + if ls.last().colour is NoColour {
            0nat
        } else {
            1nat
        }
    }
}

/// What typing `text` into line `index` does: the markdown shortcut may fold
/// a prefix into a list marker, numbers are recomputed, and keystrokes into
/// the same line coalesce into the current undo step.
pub open spec fn set_text_result(d: DocView, index: int, text: Seq<char>) -> (DocView, bool) {
    if index < 0 || index >= d.lines.len() || d.lines[index].text == text {
        (d, false)
    } else {
        let coalesce = d.typing_in == Some(index as usize) && 0 <= d.history.index
            < d.history.states.len();
        let l = after_markdown(LineView { text, ..d.lines[index] });
        let ls = renumbered(d.lines.update(index, l));
        let h = if coalesce {
            UndoView {
                states: d.history.states.update(d.history.index, ls),
                index: d.history.index,
            }
        } else {
            undo_pushed(d.history, ls)
        };
        (DocView { lines: ls, dirty: true, history: h, typing_in: Some(index as usize) }, true)
    }
}

/// What [`Document::undo`] does.
pub open spec fn undo_result(d: DocView) -> (DocView, bool) {
    if d.history.index == 0 {
        (d, false)
    } else {
        let h = UndoView { index: d.history.index - 1, ..d.history };
        (DocView { lines: h.states[h.index], dirty: true, history: h, typing_in: None }, true)
    }
}

/// What [`Document::redo`] does.
pub open spec fn redo_result(d: DocView) -> (DocView, bool) {
    if d.history.index + 1 >= d.history.states.len() {
        (d, false)
    } else {
        let h = UndoView { index: d.history.index + 1, ..d.history };
        (DocView { lines: h.states[h.index], dirty: true, history: h, typing_in: None }, true)
    }
}

/// The text of line `line` after replacing bytes `start..end` (both snapped
/// back onto character boundaries) with `rep`.
pub open spec fn replaced_text(t: Seq<char>, start: int, end: int, rep: Seq<char>) -> Seq<char> {
    let ks = crate::text::floor_chars(t, start);
    let bs = crate::text::byte_len(t.subrange(0, ks as int));
    let ke = crate::text::floor_chars(t, if end > bs { end } else { bs as int });
    t.subrange(0, ks as int) + rep + t.subrange(ke as int, t.len() as int)
}

impl Document {
    /// Well-formedness: the undo history is well formed.
    pub closed spec fn wf(&self) -> bool {
        self.undo.wf()
    }

    /// An empty document containing one blank line.
    pub fn new() -> (d: Self)
        ensures
            d.wf(),
            d@ == (DocView {
                lines: blank_doc(),
                dirty: false,
                history: UndoView { states: seq![blank_doc()], index: 0 },
                typing_in: None,
            }),
    {
        let mut lines: Vec<EditorLine> = Vec::new();
        lines.push(EditorLine::default());
        let snapshot = clone_lines(&lines);
        let d = Document { undo: UndoStack::new(snapshot), lines, dirty: false, typing_in: None };
        assert(views(d.lines@) =~= blank_doc());
        d
    }

    /// Record the current buffer as a new undo step and mark the document
    /// dirty.
    ///
    /// Call this after mutating `lines` directly.
    pub fn commit(&mut self)
        requires
            old(self).wf(),
        ensures
            final(self).wf(),
            final(self)@ == commit_view(old(self)@),
    {
        let ghost d0 = self@;
        if self.lines.len() == 0 {
            self.lines.push(EditorLine::default());
            assert(views(self.lines@) =~= blank_doc());
        }
        ListEngine::renumber(&mut self.lines);
        self.typing_in = None;
        let snapshot = clone_lines(&self.lines);
        self.undo.push(snapshot);
        self.dirty = true;
        assert(self@ =~= commit_view(d0));
    }

    /// Apply `f` to the line buffer, then renumber and record history.
    pub fn mutate<F>(&mut self, f: F)
        where
            F: FnOnce(&mut Vec<EditorLine>),
        requires
            old(self).wf(),
            forall|v: &mut Vec<EditorLine>| f.requires((v,)),
        ensures
            final(self).wf(),
            exists|ls: Seq<LineView>| final(self)@ == edit_then_commit(old(self)@, ls),
    {
        let ghost d0 = self@;
        f(&mut self.lines);
        let ghost mid = self@.lines;
        assert(self@ =~= DocView { lines: mid, ..d0 });
        self.commit();
        assert(self@ == edit_then_commit(d0, mid));
    }

    /// Build from an existing line vector.
    pub fn from_lines(lines: Vec<EditorLine>) -> (d: Self)
        ensures
            d.wf(),
            d@ == fresh_doc(prepared(views(lines@))),
    {
        let ghost ls0 = views(lines@);
        let mut lines = lines;
        if lines.len() == 0 {
            lines.push(EditorLine::default());
            assert(views(lines@) =~= blank_doc());
        }
        let ghost base = views(lines@);
        let mut i: usize = 0;
        while i < lines.len()
            invariant
                i <= base.len(),
                views(lines@).len() == base.len(),
                forall|j: int| 0 <= j < i ==> #[trigger] views(lines@)[j] == normalised(base[j]),
                forall|j: int| i <= j < base.len() ==> #[trigger] views(lines@)[j] == base[j],
            decreases base.len() - i,
        {
            let ghost before = lines@;
            assert(views(before)[i as int] == base[i as int]);
            lines[i].normalise();
            assert(views(lines@)[i as int] == normalised(base[i as int]));
            proof {
                assert forall|j: int| 0 <= j < base.len() && j != i implies #[trigger] views(lines@)[j]
                    == views(before)[j] by {
                    assert(lines@[j] == before[j]);
                }
            }
            i += 1;
        }
        assert(views(lines@) =~= base.map_values(|l: LineView| normalised(l)));
        ListEngine::renumber(&mut lines);
        let snapshot = clone_lines(&lines);
        let d = Document { lines, dirty: false, undo: UndoStack::new(snapshot), typing_in: None };
        assert(d@ =~= fresh_doc(prepared(ls0)));
        d
    }

    /// Parse plain text. Never produces a zero-line document.
    pub fn from_plain_text(text: &str) -> (d: Self)
        ensures
            d.wf(),
            d@ == fresh_doc(prepared(text_lines(text@))),
    {
        let cs = crate::text::chars_of(text);
        let mut lines: Vec<EditorLine> = Vec::new();
        let mut piece: Vec<char> = Vec::new();
        let ghost mut pieces: Seq<Seq<char>> = Seq::empty();
        let mut i: usize = 0;
        assert(cs@.subrange(0, 0) =~= Seq::<char>::empty());
        assert(split_nl(Seq::<char>::empty()) =~= pieces.push(piece@));
        while i < cs.len()
            invariant
                cs@ == text@,
                i <= cs@.len(),
                split_nl(cs@.subrange(0, i as int)) == pieces.push(piece@),
                pieces.len() == lines@.len(),
                forall|j: int| 0 <= j < lines@.len() ==> #[trigger] lines@[j]@ == plain_line(
                    trim_cr(pieces[j]),
                ),
            decreases cs@.len() - i,
        {
            let ghost pre = cs@.subrange(0, i as int);
            let ghost nxt = cs@.subrange(0, i + 1);
            assert(nxt.drop_last() =~= pre);
            if cs[i] == '\n' {
                let line = EditorLine::new(trimmed_cr(&piece).as_str());
                lines.push(line);
                proof {
                    pieces = pieces.push(piece@);
                }
                piece = Vec::new();
                assert(split_nl(nxt) =~= pieces.push(piece@));
            } else {
                piece.push(cs[i]);
                let ghost old_pieces = pieces;
                assert(split_nl(nxt) =~= pieces.push(piece@));
            }
            i += 1;
        }
        lines.push(EditorLine::new(trimmed_cr(&piece).as_str()));
        proof {
            pieces = pieces.push(piece@);
            assert(cs@.subrange(0, cs@.len() as int) =~= cs@);
            assert(views(lines@) =~= text_lines(text@));
        }
        Self::from_lines(lines)
    }

    /// Serialise to plain text, dropping all metadata.
    pub fn plain_text(&self) -> (s: String)
        ensures
            s@ == join_nl(texts(self@.lines)),
    {
        let mut s = String::new();
        let mut i: usize = 0;
        while i < self.lines.len()
            invariant
                i <= self.lines@.len(),
                s@ == join_nl(texts(views(self.lines@.subrange(0, i as int)))),
            decreases self.lines@.len() - i,
        {
            let ghost pre = texts(views(self.lines@.subrange(0, i as int)));
            let ghost nxt = texts(views(self.lines@.subrange(0, i + 1)));
            assert(nxt.drop_last() =~= pre);
            if i > 0 {
                s.push('\n');
            }
            crate::text::push_str(&mut s, self.lines[i].text.as_str());
            proof {
                if i == 0 {
                    assert(nxt.len() == 1);
                } else {
                    assert(nxt.last() == self.lines@[i as int].text@);
                }
            }
            i += 1;
        }
        assert(self.lines@.subrange(0, self.lines@.len() as int) =~= self.lines@);
        s
    }

    // ── Undo ──────────────────────────────────────────────────────────────

    pub fn undo(&mut self) -> (r: bool)
        requires
            old(self).wf(),
        ensures
            final(self).wf(),
            (final(self)@, r) == undo_result(old(self)@),
    {
        let ghost d0 = self@;
        match self.undo.undo() {
            Some(prev) => {
                self.lines = prev;
                self.dirty = true;
                self.typing_in = None;
                assert(self@ =~= undo_result(d0).0);
                true
            },
            None => false,
        }
    }

    pub fn redo(&mut self) -> (r: bool)
        requires
            old(self).wf(),
        ensures
            final(self).wf(),
            (final(self)@, r) == redo_result(old(self)@),
    {
        let ghost d0 = self@;
        match self.undo.redo() {
            Some(next) => {
                self.lines = next;
                self.dirty = true;
                self.typing_in = None;
                assert(self@ =~= redo_result(d0).0);
                true
            },
            None => false,
        }
    }

    pub fn can_undo(&self) -> (r: bool)
        ensures
            r == (self@.history.index > 0),
    {
        self.undo.can_undo()
    }

    pub fn can_redo(&self) -> (r: bool)
        requires
            self.wf(),
        ensures
            r == (self@.history.index + 1 < self@.history.states.len()),
    {
        self.undo.can_redo()
    }

    /// Drop the undo history and mark the document clean. Called after
    /// save: the saved buffer becomes the only state.
    pub fn mark_saved(&mut self)
        requires
            old(self).wf(),
        ensures
            final(self).wf(),
            final(self)@ == (DocView {
                dirty: false,
                typing_in: None,
                history: UndoView { states: seq![old(self)@.lines], index: 0 },
                ..old(self)@
            }),
    {
        self.dirty = false;
        self.clear_history();
    }

    /// Drop the undo history, keeping the current buffer as the baseline.
    pub fn clear_history(&mut self)
        ensures
            final(self).wf(),
            final(self)@ == (DocView {
                history: UndoView { states: seq![old(self)@.lines], index: 0 },
                typing_in: None,
                ..old(self)@
            }),
    {
        let snapshot = clone_lines(&self.lines);
        self.undo.reset(snapshot);
        self.typing_in = None;
    }

    pub fn undo_depth(&self) -> (n: usize)
        ensures
            n == self@.history.index,
    {
        self.undo.undo_depth()
    }

    // ── Metrics ───────────────────────────────────────────────────────────

    pub fn line_count(&self) -> (n: usize)
        ensures
            n == self@.lines.len(),
    {
        self.lines.len()
    }

    /// Characters over all lines (not counting line breaks).
    pub fn char_count(&self) -> (n: usize)
        requires
            total_chars(self@.lines) <= usize::MAX,
        ensures
            n == total_chars(self@.lines),
    {
        let ghost ls = self@.lines;
        let mut n: usize = 0;
        let mut i: usize = 0;
        while i < self.lines.len()
            invariant
                ls == views(self.lines@),
                i <= ls.len(),
                n == total_chars(ls.subrange(0, i as int)),
                total_chars(ls) <= usize::MAX,
            decreases ls.len() - i,
        {
            assert(ls.subrange(0, i + 1).drop_last() =~= ls.subrange(0, i as int));
            proof {
                lemma_total_chars_prefix(ls, i + 1);
            }
            n = n + self.lines[i].char_len();
            i += 1;
        }
        assert(ls.subrange(0, ls.len() as int) =~= ls);
        n
    }

    /// Words over all lines.
    pub fn word_count(&self) -> (n: usize)
        requires
            total_words(self@.lines) <= usize::MAX,
        ensures
            n == total_words(self@.lines),
    {
        let ghost ls = self@.lines;
        let mut n: usize = 0;
        let mut i: usize = 0;
        while i < self.lines.len()
            invariant
                ls == views(self.lines@),
                i <= ls.len(),
                n == total_words(ls.subrange(0, i as int)),
                total_words(ls) <= usize::MAX,
            decreases ls.len() - i,
        {
            assert(ls.subrange(0, i + 1).drop_last() =~= ls.subrange(0, i as int));
            proof {
                lemma_total_words_prefix(ls, i + 1);
            }
            n = n + self.lines[i].word_count();
            i += 1;
        }
        assert(ls.subrange(0, ls.len() as int) =~= ls);
        n
    }

    pub fn highlighted_count(&self) -> (n: usize)
        ensures
            n == highlighted_in(self@.lines),
    {
        let ghost ls = self@.lines;
        let mut n: usize = 0;
        let mut i: usize = 0;
        while i < self.lines.len()
            invariant
                ls == views(self.lines@),
                i <= ls.len(),
                n == highlighted_in(ls.subrange(0, i as int)),
                n <= i,
            decreases ls.len() - i,
        {
            assert(ls.subrange(0, i + 1).drop_last() =~= ls.subrange(0, i as int));
            if self.lines[i].colour.is_highlighted() {
                n += 1;
            }
            i += 1;
        }
        assert(ls.subrange(0, ls.len() as int) =~= ls);
        n
    }

    /// `true` when every line's text is empty.
    pub fn is_empty(&self) -> (r: bool)
        ensures
            r == (forall|i: int| 0 <= i < self@.lines.len() ==> #[trigger] self@.lines[i].text.len()
                == 0),
    {
        let mut i: usize = 0;
        while i < self.lines.len()
            invariant
                i <= self.lines@.len(),
                forall|j: int| 0 <= j < i ==> #[trigger] self.lines@[j].text@.len() == 0,
            decreases self.lines@.len() - i,
        {
            if !self.lines[i].is_empty() {
                assert(self@.lines[i as int].text.len() != 0);
                return false;
            }
            i += 1;
        }
        assert forall|i: int| 0 <= i < self@.lines.len() implies #[trigger] self@.lines[i].text.len()
            == 0 by {
            assert(self@.lines[i] == self.lines@[i]@);
        }
        true
    }

    // ── Editing primitives ────────────────────────────────────────────────

    /// Replace a line's text. Keystrokes in the same line coalesce into one
    /// undo step; the first keystroke of a burst creates the step.
    pub fn set_text(&mut self, index: usize, text: &str) -> (changed: bool)
        requires
            old(self).wf(),
        ensures
            final(self).wf(),
            (final(self)@, changed) == set_text_result(old(self)@, index as int, text@),
            changed ==> well_numbered(final(self)@.lines),
    {
        let ghost d0 = self@;
        proof {
            lemma_typing_keeps_numbers(d0, index as int, text@);
        }
        if index >= self.lines.len() {
            return false;
        }
        if crate::text::str_eq(self.lines[index].text.as_str(), text) {
            return false;
        }
        let coalesce = self.typing_in == Some(index) && self.undo.can_replace_top();
        self.lines[index].text = crate::text::to_owned_string(text);
        ListEngine::try_markdown_shortcut(&mut self.lines[index]);
        assert(views(self.lines@) =~= d0.lines.update(
            index as int,
            after_markdown(LineView { text: text@, ..d0.lines[index as int] }),
        ));
        ListEngine::renumber(&mut self.lines);
        let snapshot = clone_lines(&self.lines);
        if coalesce {
            self.undo.replace_top(snapshot);
        } else {
            self.undo.push(snapshot);
        }
        self.typing_in = Some(index);
        self.dirty = true;
        assert(self@ =~= set_text_result(d0, index as int, text@).0);
        true
    }

    /// Insert a blank line after `index` (clamped to the last line) and
    /// return its index.
    pub fn insert_line_after(&mut self, index: usize) -> (at: usize)
        requires
            old(self).wf(),
            old(self)@.lines.len() > 0,
        ensures
            final(self).wf(),
            at == (if index < old(self)@.lines.len() - 1 {
                index as int
            } else {
                old(self)@.lines.len() - 1
            }) + 1,
            final(self)@ == edit_then_commit(
                old(self)@,
                old(self)@.lines.insert(at as int, plain_line(Seq::empty())),
            ),
    {
        let ghost d0 = self@;
        let last = self.lines.len() - 1;
        let at = if index < last {
            index
        } else {
            last
        };
        self.lines.insert(at + 1, EditorLine::default());
        assert(self@ =~= DocView {
            lines: d0.lines.insert(at + 1, plain_line(Seq::empty())),
            ..d0
        });
        self.commit();
        at + 1
    }

    /// Remove line `index`. The document always keeps at least one line.
    pub fn remove_line(&mut self, index: usize) -> (removed: Option<EditorLine>)
        requires
            old(self).wf(),
        ensures
            final(self).wf(),
            index >= old(self)@.lines.len() ==> removed is None && final(self)@ == old(self)@,
            index < old(self)@.lines.len() ==> removed is Some && removed->0@ == old(
                self,
            )@.lines[index as int] && final(self)@ == edit_then_commit(
                old(self)@,
                old(self)@.lines.remove(index as int),
            ),
    {
        let ghost d0 = self@;
        if index >= self.lines.len() {
            return None;
        }
        let removed = self.lines.remove(index);
        assert(self@ =~= DocView { lines: d0.lines.remove(index as int), ..d0 });
        self.commit();
        Some(removed)
    }

    /// Delete a line and append its text to the previous one (backspace at
    /// column 0). Returns `(line, char_column)` for the caret.
    pub fn join_with_previous(&mut self, index: usize) -> (r: Option<(usize, usize)>)
        requires
            old(self).wf(),
        ensures
            final(self).wf(),
            (index == 0 || index >= old(self)@.lines.len()) ==> r is None && final(self)@ == old(
                self,
            )@,
            (0 < index < old(self)@.lines.len()) ==> r == Some(
                ((index - 1) as usize, old(self)@.lines[index - 1].text.len() as usize),
            ) && final(self)@ == edit_then_commit(
                old(self)@,
                old(self)@.lines.update(
                    index - 1,
                    LineView {
                        text: old(self)@.lines[index - 1].text + old(self)@.lines[index as int].text,
                        ..old(self)@.lines[index - 1]
                    },
                ).remove(index as int),
            ),
    {
        let ghost d0 = self@;
        if index == 0 || index >= self.lines.len() {
            return None;
        }
        let caret_col = self.lines[index - 1].char_len();
        let mut joined = self.lines[index - 1].text.clone();
        crate::text::push_str(&mut joined, self.lines[index].text.as_str());
        self.lines[index - 1].text = joined;
        self.lines.remove(index);
        assert(self@ =~= DocView {
            lines: d0.lines.update(
                index - 1,
                LineView {
                    text: d0.lines[index - 1].text + d0.lines[index as int].text,
                    ..d0.lines[index - 1]
                },
            ).remove(index as int),
            ..d0
        });
        self.commit();
        Some((index - 1, caret_col))
    }

    // ── Highlighting ──────────────────────────────────────────────────────

    /// Apply a colour to an inclusive range of lines. Out-of-range indices
    /// are clamped, never panicking.
    pub fn highlight_lines(&mut self, start: usize, end: usize, colour: LineColour)
        requires
            old(self).wf(),
        ensures
            final(self).wf(),
            final(self)@ == edit_then_commit(
                old(self)@,
                recoloured(
                    old(self)@.lines,
                    clamp_range(old(self)@.lines.len(), start as int, end as int).0,
                    clamp_range(old(self)@.lines.len(), start as int, end as int).1,
                    colour,
                ),
            ),
    {
        let ghost d0 = self@;
        let (s, e) = self.clamp_range(start, end);
        let mut i: usize = s;
        while i < self.lines.len() && i <= e
            invariant
                s <= i,
                views(self.lines@).len() == d0.lines.len(),
                self@.history == d0.history,
                self@.dirty == d0.dirty,
                self@.typing_in == d0.typing_in,
                self.wf(),
                forall|j: int|
                    0 <= j < d0.lines.len() ==> #[trigger] views(self.lines@)[j] == (if s <= j < i
                        && j <= e {
                        LineView { colour: colour, ..d0.lines[j] }
                    } else {
                        d0.lines[j]
                    }),
            decreases self.lines@.len() - i,
        {
            let ghost before = self.lines@;
            assert(views(before)[i as int] == d0.lines[i as int]);
            self.lines[i].colour = colour;
            proof {
                assert(views(self.lines@)[i as int] =~= LineView { colour: colour, ..d0.lines[i as int] });
                assert forall|j: int| 0 <= j < d0.lines.len() && j != i implies #[trigger] views(self.lines@)[j]
                    == views(before)[j] by {
                    assert(self.lines@[j] == before[j]);
                }
            }
            i += 1;
        }
        assert(views(self.lines@) =~= recoloured(d0.lines, s as int, e as int, colour));
        assert(self@ =~= DocView {
            lines: recoloured(d0.lines, s as int, e as int, colour),
            ..d0
        });
        self.commit();
    }

    pub fn remove_highlight(&mut self, start: usize, end: usize)
        requires
            old(self).wf(),
        ensures
            final(self).wf(),
            final(self)@ == edit_then_commit(
                old(self)@,
                recoloured(
                    old(self)@.lines,
                    clamp_range(old(self)@.lines.len(), start as int, end as int).0,
                    clamp_range(old(self)@.lines.len(), start as int, end as int).1,
                    LineColour::NoColour,
                ),
            ),
    {
        self.highlight_lines(start, end, LineColour::NoColour);
    }

    /// Toggle. Removes the colour when *every* line in the range already has
    /// it, otherwise applies it to the whole range.
    ///
    /// Returns `true` when the colour was applied, `false` when it was removed.
    pub fn toggle_highlight(&mut self, start: usize, end: usize, colour: LineColour) -> (applied:
        bool)
        requires
            old(self).wf(),
            old(self)@.lines.len() > 0,
        ensures
            final(self).wf(),
            ({
                let (s, e) = clamp_range(old(self)@.lines.len(), start as int, end as int);
                &&& applied == !all_coloured(old(self)@.lines, s, e, colour)
                &&& final(self)@ == edit_then_commit(
                    old(self)@,
                    recoloured(
                        old(self)@.lines,
                        s,
                        e,
                        if applied {
                            colour
                        } else {
                            LineColour::NoColour
                        },
                    ),
                )
            }),
    {
        let ghost d0 = self@;
        let (s, e) = self.clamp_range(start, end);
        let n = self.lines.len();
        let mut all = true;
        let mut i: usize = s;
        while i <= e
            invariant
                s <= i <= e + 1,
                e < n,
                n == self.lines@.len(),
                self@ == d0,
                all == all_coloured(d0.lines, s as int, i - 1, colour),
            decreases e + 1 - i,
        {
            if self.lines[i].colour != colour {
                all = false;
            }
            assert(d0.lines[i as int] == self.lines@[i as int]@);
            i += 1;
        }
        if all {
            self.remove_highlight(start, end);
            false
        } else {
            self.highlight_lines(start, end, colour);
            true
        }
    }

    // ── Lists ─────────────────────────────────────────────────────────────

    pub fn set_list_type(&mut self, start: usize, end: usize, list_type: ListType)
        requires
            old(self).wf(),
        ensures
            final(self).wf(),
            final(self)@ == edit_then_commit(
                old(self)@,
                relisted(
                    old(self)@.lines,
                    clamp_range(old(self)@.lines.len(), start as int, end as int).0,
                    clamp_range(old(self)@.lines.len(), start as int, end as int).1,
                    list_type,
                ),
            ),
    {
        let ghost d0 = self@;
        let (s, e) = self.clamp_range(start, end);
        let mut i: usize = s;
        while i < self.lines.len() && i <= e
            invariant
                s <= i,
                views(self.lines@).len() == d0.lines.len(),
                self@.history == d0.history,
                self@.dirty == d0.dirty,
                self@.typing_in == d0.typing_in,
                self.wf(),
                forall|j: int|
                    0 <= j < d0.lines.len() ==> #[trigger] views(self.lines@)[j] == (if s <= j < i
                        && j <= e {
                        with_list_type(d0.lines[j], list_type)
                    } else {
                        d0.lines[j]
                    }),
            decreases self.lines@.len() - i,
        {
            let ghost before = self.lines@;
            assert(views(before)[i as int] == d0.lines[i as int]);
            self.lines[i].list_type = list_type;
            if list_type == ListType::NoList {
                self.lines[i].indent = 0;
                self.lines[i].checked = false;
            }
            if list_type != ListType::Check {
                self.lines[i].checked = false;
            }
            self.lines[i].normalise();
            assert(views(self.lines@)[i as int] =~= with_list_type(d0.lines[i as int], list_type));
            proof {
                assert forall|j: int| 0 <= j < d0.lines.len() && j != i implies #[trigger] views(self.lines@)[j]
                    == views(before)[j] by {
                    assert(self.lines@[j] == before[j]);
                }
            }
            i += 1;
        }
        assert(views(self.lines@) =~= relisted(d0.lines, s as int, e as int, list_type));
        assert(self@ =~= DocView {
            lines: relisted(d0.lines, s as int, e as int, list_type),
            ..d0
        });
        self.commit();
    }

    /// Indent (`delta > 0`) or outdent a range, clamped to `0..=MAX_INDENT`.
    pub fn change_indent(&mut self, start: usize, end: usize, delta: i8)
        requires
            old(self).wf(),
        ensures
            final(self).wf(),
            final(self)@ == edit_then_commit(
                old(self)@,
                reindented(
                    old(self)@.lines,
                    clamp_range(old(self)@.lines.len(), start as int, end as int).0,
                    clamp_range(old(self)@.lines.len(), start as int, end as int).1,
                    delta,
                ),
            ),
    {
        let ghost d0 = self@;
        let (s, e) = self.clamp_range(start, end);
        let mut i: usize = s;
        while i < self.lines.len() && i <= e
            invariant
                s <= i,
                views(self.lines@).len() == d0.lines.len(),
                self@.history == d0.history,
                self@.dirty == d0.dirty,
                self@.typing_in == d0.typing_in,
                self.wf(),
                forall|j: int|
                    0 <= j < d0.lines.len() ==> #[trigger] views(self.lines@)[j] == (if s <= j < i
                        && j <= e {
                        LineView { indent: shifted_indent(d0.lines[j].indent, delta), ..d0.lines[j] }
                    } else {
                        d0.lines[j]
                    }),
            decreases self.lines@.len() - i,
        {
            let ghost before = self.lines@;
            assert(views(before)[i as int] == d0.lines[i as int]);
            let n: i16 = self.lines[i].indent as i16 + delta as i16;
            let next: u8 = if n < 0 {
                0
            } else if n > MAX_INDENT as i16 {
                MAX_INDENT
            } else {
                n as u8
            };
            self.lines[i].indent = next;
            proof {
                assert(views(self.lines@)[i as int] =~= LineView {
                    indent: shifted_indent(d0.lines[i as int].indent, delta),
                    ..d0.lines[i as int]
                });
                assert forall|j: int| 0 <= j < d0.lines.len() && j != i implies #[trigger] views(self.lines@)[j]
                    == views(before)[j] by {
                    assert(self.lines@[j] == before[j]);
                }
            }
            i += 1;
        }
        assert(views(self.lines@) =~= reindented(d0.lines, s as int, e as int, delta));
        assert(self@ =~= DocView {
            lines: reindented(d0.lines, s as int, e as int, delta),
            ..d0
        });
        self.commit();
    }

    pub fn toggle_checked(&mut self, index: usize) -> (r: Option<bool>)
        requires
            old(self).wf(),
        ensures
            final(self).wf(),
            index >= old(self)@.lines.len() ==> r is None && final(self)@ == old(self)@,
            index < old(self)@.lines.len() ==> r == Some(
                toggled_check(old(self)@.lines[index as int]).checked,
            ) && final(self)@ == edit_then_commit(
                old(self)@,
                old(self)@.lines.update(index as int, toggled_check(old(self)@.lines[index as int])),
            ),
    {
        let ghost d0 = self@;
        if index >= self.lines.len() {
            return None;
        }
        let state = ListEngine::toggle_checked(&mut self.lines[index]);
        assert(self@ =~= DocView {
            lines: d0.lines.update(index as int, toggled_check(d0.lines[index as int])),
            ..d0
        });
        self.commit();
        Some(state)
    }

    // ── Find & replace support ────────────────────────────────────────────

    /// Replace one match given byte offsets, snapping them back onto
    /// character boundaries.
    pub fn replace_in_line(&mut self, line: usize, start: usize, end: usize, replacement: &str) -> (r:
        bool)
        requires
            old(self).wf(),
        ensures
            final(self).wf(),
            r == (line < old(self)@.lines.len()),
            !r ==> final(self)@ == old(self)@,
            r ==> final(self)@ == edit_then_commit(
                old(self)@,
                old(self)@.lines.update(
                    line as int,
                    LineView {
                        text: replaced_text(
                            old(self)@.lines[line as int].text,
                            start as int,
                            end as int,
                            replacement@,
                        ),
                        ..old(self)@.lines[line as int]
                    },
                ),
            ),
    {
        let ghost d0 = self@;
        if line >= self.lines.len() {
            return false;
        }
        let cs = crate::text::chars_of(self.lines[line].text.as_str());
        let _total = crate::text::byte_length(self.lines[line].text.as_str());
        let ks = crate::text::floor_char_index(cs.as_slice(), start);
        proof {
            lemma_byte_len_prefix_mono(cs@, ks as int, cs@.len() as int);
            assert(cs@.subrange(0, cs@.len() as int) =~= cs@);
        }
        let bs = prefix_bytes(&cs, ks);
        let ke = crate::text::floor_char_index(cs.as_slice(), if end > bs { end } else { bs });
        proof {
            lemma_floor_mono(cs@, bs as int, if end > bs { end as int } else { bs as int });
            lemma_floor_of_prefix(cs@, ks as int);
        }
        let mut replaced = crate::text::string_of_range(cs.as_slice(), 0, ks);
        crate::text::push_str(&mut replaced, replacement);
        let tail = crate::text::string_of_range(cs.as_slice(), ke, cs.len());
        crate::text::push_str(&mut replaced, tail.as_str());
        self.lines[line].text = replaced;
        assert(self@ =~= DocView {
            lines: d0.lines.update(
                line as int,
                LineView {
                    text: replaced_text(d0.lines[line as int].text, start as int, end as int, replacement@),
                    ..d0.lines[line as int]
                },
            ),
            ..d0
        });
        self.commit();
        true
    }

    fn clamp_range(&self, start: usize, end: usize) -> (r: (usize, usize))
        ensures
            r.0 == clamp_range(self@.lines.len(), start as int, end as int).0,
            r.1 == clamp_range(self@.lines.len(), start as int, end as int).1,
            self@.lines.len() > 0 ==> r.1 < self@.lines.len(),
            r.0 <= r.1,
    {
        let last = if self.lines.len() == 0 {
            0
        } else {
            self.lines.len() - 1
        };
        let s = if start < last {
            start
        } else {
            last
        };
        let e0 = if end < last {
            end
        } else {
            last
        };
        let e = if e0 < s {
            s
        } else {
            e0
        };
        (s, e)
    }
}

} // verus!

verus! {

/// The texts of a slice of lines.
pub open spec fn views_texts(ls: Seq<EditorLine>) -> Seq<Seq<char>> {
    ls.map_values(|l: EditorLine| l.text@)
}

/// `piece` without its trailing `\r` characters, as a `String`.
fn trimmed_cr(piece: &Vec<char>) -> (s: String)
    ensures
        s@ == trim_cr(piece@),
{
    let mut n = piece.len();
    assert(piece@.subrange(0, n as int) =~= piece@);
    while n > 0 && piece[n - 1] == '\r'
        invariant
            n <= piece@.len(),
            trim_cr(piece@) == trim_cr(piece@.subrange(0, n as int)),
        decreases n,
    {
        assert(piece@.subrange(0, n as int).drop_last() =~= piece@.subrange(0, n - 1));
        n -= 1;
    }
    crate::text::string_of_range(piece.as_slice(), 0, n)
}

} // verus!

verus! {

proof fn lemma_total_chars_prefix(ls: Seq<LineView>, k: int)
    requires
        0 <= k <= ls.len(),
    ensures
        total_chars(ls.subrange(0, k)) <= total_chars(ls),
    decreases ls.len() - k,
{
    if k < ls.len() {
        lemma_total_chars_prefix(ls, k + 1);
        assert(ls.subrange(0, k + 1).drop_last() =~= ls.subrange(0, k));
    } else {
        assert(ls.subrange(0, k) =~= ls);
    }
}

proof fn lemma_total_words_prefix(ls: Seq<LineView>, k: int)
    requires
        0 <= k <= ls.len(),
    ensures
        total_words(ls.subrange(0, k)) <= total_words(ls),
    decreases ls.len() - k,
{
    if k < ls.len() {
        lemma_total_words_prefix(ls, k + 1);
        assert(ls.subrange(0, k + 1).drop_last() =~= ls.subrange(0, k));
    } else {
        assert(ls.subrange(0, k) =~= ls);
    }
}

} // verus!

verus! {

/// Byte length of the first `k` characters.
fn prefix_bytes(cs: &Vec<char>, k: usize) -> (n: usize)
    requires
        k <= cs@.len(),
        crate::text::byte_len(cs@.subrange(0, k as int)) <= usize::MAX,
    ensures
        n == crate::text::byte_len(cs@.subrange(0, k as int)),
{
    let mut n: usize = 0;
    let mut i: usize = 0;
    while i < k
        invariant
            i <= k <= cs@.len(),
            n == crate::text::byte_len(cs@.subrange(0, i as int)),
            crate::text::byte_len(cs@.subrange(0, k as int)) <= usize::MAX,
        decreases k - i,
    {
        proof {
            crate::text::lemma_byte_len_push(cs@, i as int);
            lemma_byte_len_prefix_mono(cs@, i + 1, k as int);
        }
        n = n + crate::text::char_width(cs[i]);
        i += 1;
    }
    n
}

proof fn lemma_byte_len_prefix_mono(s: Seq<char>, a: int, b: int)
    requires
        0 <= a <= b <= s.len(),
    ensures
        crate::text::byte_len(s.subrange(0, a)) <= crate::text::byte_len(s.subrange(0, b)),
    decreases b - a,
{
    if a < b {
        lemma_byte_len_prefix_mono(s, a, b - 1);
        crate::text::lemma_byte_len_push(s, b - 1);
    }
}

proof fn lemma_floor_mono(s: Seq<char>, x: int, y: int)
    requires
        x <= y,
    ensures
        crate::text::floor_chars(s, x) <= crate::text::floor_chars(s, y),
    decreases s.len(),
{
    if s.len() > 0 && crate::text::utf8_width(s[0]) <= x {
        lemma_floor_mono(s.drop_first(), x - crate::text::utf8_width(s[0]), y
            - crate::text::utf8_width(s[0]));
    }
}

proof fn lemma_floor_of_prefix(s: Seq<char>, k: int)
    requires
        0 <= k <= s.len(),
    ensures
        crate::text::floor_chars(s, crate::text::byte_len(s.subrange(0, k)) as int) >= k,
    decreases k,
{
    if k > 0 {
        let w = crate::text::utf8_width(s[0]);
        assert(s.subrange(0, k) =~= seq![s[0]] + s.drop_first().subrange(0, k - 1));
        crate::text::lemma_byte_len_concat(seq![s[0]], s.drop_first().subrange(0, k - 1));
        assert(seq![s[0]].drop_last() =~= Seq::<char>::empty());
        assert(crate::text::byte_len(seq![s[0]]) == w) by {
            reveal_with_fuel(crate::text::byte_len, 2);
        }
        lemma_floor_of_prefix(s.drop_first(), k - 1);
    }
}

} // verus!

verus! {

// ── Laws ─────────────────────────────────────────────────────────────────

/// The buffer is the undo stack's current state: true after every commit,
/// undo, redo and keystroke.
pub open spec fn synced(d: DocView) -> bool {
    &&& undo_wf(d.history)
    &&& d.history.states[d.history.index] == d.lines
}

/// Committing records the buffer as the current undo state.
/// The view of a document holds its public lines and flag.
pub proof fn lemma_doc_fields(d: &Document)
    ensures
        d@.lines == views(d.lines@),
        d@.dirty == d.dirty,
{
}

/// Two documents that differ at most in their lines have the same history
/// and well-formedness.
pub proof fn lemma_doc_lines_only(a: &Document, b: &Document)
    requires
        a.undo == b.undo,
        a.typing_in == b.typing_in,
        a.dirty == b.dirty,
    ensures
        a.wf() == b.wf(),
        b@ == (DocView { lines: views(b.lines@), ..a@ }),
{
}

pub proof fn lemma_commit_syncs(d: DocView)
    requires
        undo_wf(d.history),
    ensures
        synced(commit_view(d)),
{
}

/// Typing, undo and redo keep the buffer and the undo stack in step.
pub proof fn lemma_steps_keep_sync(d: DocView, index: int, text: Seq<char>)
    requires
        synced(d),
    ensures
        synced(set_text_result(d, index, text).0),
        synced(undo_result(d).0),
        synced(redo_result(d).0),
{
}

/// An edit that changes the buffer can be undone: one undo step gives back
/// exactly the lines from before the edit, and a redo reapplies it.
pub proof fn lemma_edit_then_undo(d: DocView, ls: Seq<LineView>)
    requires
        synced(d),
        committed(ls) != d.lines,
    ensures
        undo_result(edit_then_commit(d, ls)).1,
        undo_result(edit_then_commit(d, ls)).0.lines == d.lines,
        redo_result(undo_result(edit_then_commit(d, ls)).0).0.lines == committed(ls),
{
}

/// Undo followed by redo restores the buffer.
pub proof fn lemma_undo_then_redo(d: DocView)
    requires
        synced(d),
        d.history.index > 0,
    ensures
        redo_result(undo_result(d).0).1,
        redo_result(undo_result(d).0).0.lines == d.lines,
{
}

proof fn lemma_split_nonempty(t: Seq<char>)
    ensures
        split_nl(t).len() >= 1,
    decreases t.len(),
{
    if t.len() > 0 {
        lemma_split_nonempty(t.drop_last());
    }
}

proof fn lemma_join_push(ps: Seq<Seq<char>>, c: char)
    requires
        ps.len() >= 1,
    ensures
        join_nl(ps.update(ps.len() - 1, ps.last().push(c))) == join_nl(ps).push(c),
{
    let q = ps.update(ps.len() - 1, ps.last().push(c));
    if ps.len() > 1 {
        assert(q.drop_last() =~= ps.drop_last());
        assert(join_nl(ps.drop_last()).push('\n') + ps.last().push(c) =~= (join_nl(
            ps.drop_last(),
        ).push('\n') + ps.last()).push(c));
    }
}

/// Splitting on `\n` and joining again gives the text back.
pub proof fn lemma_join_split(t: Seq<char>)
    ensures
        join_nl(split_nl(t)) == t,
    decreases t.len(),
{
    if t.len() > 0 {
        let p = t.drop_last();
        lemma_join_split(p);
        lemma_split_nonempty(p);
        let rest = split_nl(p);
        if t.last() == '\n' {
            assert(rest.push(Seq::<char>::empty()).drop_last() =~= rest);
            assert(join_nl(rest).push('\n') + Seq::<char>::empty() =~= t);
        } else {
            lemma_join_push(rest, t.last());
            assert(p.push(t.last()) =~= t);
        }
    }
}

proof fn lemma_split_no_cr(t: Seq<char>)
    requires
        forall|i: int| 0 <= i < t.len() ==> t[i] != '\r',
    ensures
        forall|k: int, j: int|
            0 <= k < split_nl(t).len() && 0 <= j < split_nl(t)[k].len() ==> #[trigger] split_nl(
                t,
            )[k][j] != '\r',
    decreases t.len(),
{
    if t.len() > 0 {
        let p = t.drop_last();
        lemma_split_no_cr(p);
        lemma_split_nonempty(p);
        let rest = split_nl(p);
        assert forall|k: int, j: int|
            0 <= k < split_nl(t).len() && 0 <= j < split_nl(t)[k].len() implies #[trigger] split_nl(
            t,
        )[k][j] != '\r' by {
            if t.last() != '\n' && k == rest.len() - 1 && j == rest.last().len() {
                assert(split_nl(t)[k] == rest.last().push(t.last()));
            } else if t.last() != '\n' && k == rest.len() - 1 {
                assert(split_nl(t)[k][j] == rest[k][j]);
            } else if k < rest.len() {
                assert(split_nl(t)[k] == rest[k]);
            }
        }
    }
}

proof fn lemma_split_append(x: Seq<char>, y: Seq<char>)
    requires
        !y.contains('\n'),
    ensures
        split_nl(x.push('\n') + y) == split_nl(x).push(y),
    decreases y.len(),
{
    if y.len() == 0 {
        let t = x.push('\n');
        assert(x.push('\n') + y =~= t);
        assert(t.drop_last() =~= x);
        assert(t.last() == '\n');
        assert(y =~= Seq::<char>::empty());
    } else {
        let y0 = y.drop_last();
        assert(!y0.contains('\n')) by {
            if y0.contains('\n') {
                let k = choose|k: int| 0 <= k < y0.len() && y0[k] == '\n';
                assert(y[k] == '\n');
            }
        }
        lemma_split_append(x, y0);
        let t = x.push('\n') + y;
        assert(t.drop_last() =~= x.push('\n') + y0);
        assert(t.last() == y.last());
        assert(y.last() != '\n') by {
            assert(y[y.len() - 1] == y.last());
        }
        let rest = split_nl(t.drop_last());
        assert(rest == split_nl(x).push(y0));
        assert(rest.last() == y0);
        assert(split_nl(t) == rest.update(rest.len() - 1, rest.last().push(t.last())));
        assert(y0.push(y.last()) =~= y);
        assert(rest.update(rest.len() - 1, y) =~= split_nl(x).push(y));
    }
}

proof fn lemma_split_single(t: Seq<char>)
    requires
        !t.contains('\n'),
    ensures
        split_nl(t) == seq![t],
    decreases t.len(),
{
    if t.len() > 0 {
        let p = t.drop_last();
        assert(!p.contains('\n')) by {
            if p.contains('\n') {
                let k = choose|k: int| 0 <= k < p.len() && p[k] == '\n';
                assert(t[k] == '\n');
            }
        }
        lemma_split_single(p);
        assert(t.last() != '\n') by {
            assert(t[t.len() - 1] == t.last());
        }
        assert(p.push(t.last()) =~= t);
        let rest = split_nl(p);
        assert(rest.last() == p);
        assert(split_nl(t) == rest.update(rest.len() - 1, rest.last().push(t.last())));
        assert(seq![p].update(0, p.push(t.last())) =~= seq![t]);
    } else {
        assert(t =~= Seq::<char>::empty());
    }
}

/// Joining pieces with `\n` and splitting again gives the pieces back, when
/// none holds a `\n`.
pub proof fn lemma_split_join(ps: Seq<Seq<char>>)
    requires
        ps.len() >= 1,
        forall|k: int| 0 <= k < ps.len() ==> !(#[trigger] ps[k]).contains('\n'),
    ensures
        split_nl(join_nl(ps)) == ps,
    decreases ps.len(),
{
    if ps.len() == 1 {
        lemma_split_single(ps[0]);
        assert(seq![ps[0]] =~= ps);
    } else {
        let q = ps.drop_last();
        lemma_split_join(q);
        lemma_split_append(join_nl(q), ps.last());
        assert(q.push(ps.last()) =~= ps);
    }
}

/// Reading a text without carriage returns into a document and writing the
/// document back out gives the same text.
pub proof fn lemma_plain_text_roundtrip(t: Seq<char>)
    requires
        forall|i: int| 0 <= i < t.len() ==> t[i] != '\r',
    ensures
        join_nl(texts(prepared(text_lines(t)))) == t,
{
    let ps = split_nl(t);
    lemma_split_nonempty(t);
    lemma_split_no_cr(t);
    lemma_join_split(t);
    assert forall|k: int| 0 <= k < ps.len() implies trim_cr(#[trigger] ps[k]) == ps[k] by {
        if ps[k].len() > 0 {
            assert(ps[k].last() == ps[k][ps[k].len() - 1]);
        }
    }
    assert(texts(prepared(text_lines(t))) =~= ps);
}


/// Typing into a line leaves every line showing the number a numbered
/// list shows there, also when the typing turns the line into a numbered
/// item through a markdown shortcut.
pub proof fn lemma_typing_keeps_numbers(d: DocView, index: int, text: Seq<char>)
    ensures
        set_text_result(d, index, text).1 ==> well_numbered(set_text_result(d, index, text).0.lines),
{
    if set_text_result(d, index, text).1 {
        let l = after_markdown(LineView { text, ..d.lines[index] });
        lemma_renumbered_well_numbered(d.lines.update(index, l));
    }
}

} // verus!
