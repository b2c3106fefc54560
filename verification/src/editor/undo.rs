//! A bounded undo/redo stack over whole-document snapshots.
//!
//! Semantics: `states[0]` is the oldest retained document, `states[i]` is the
//! document *after* edit `i`, and `index` always points at the current state.

use vstd::prelude::*;

use crate::types::line::{clone_lines, lines_eq, views, EditorLine, LineView};

verus! {

/// Maximum number of retained states.
pub const MAX_STATES: usize = 200;

/// A document snapshot as the undo stack sees it.
pub type Snapshot = Seq<LineView>;

/// The mathematical content of an [`UndoStack`].
#[verifier::ext_equal]
pub struct UndoView {
    pub states: Seq<Snapshot>,
    pub index: int,
}

pub struct UndoStack {
    states: Vec<Vec<EditorLine>>,
    index: usize,
}

/// Stack well-formedness: at least one state, at most [`MAX_STATES`], and the
/// cursor on one of them.
pub open spec fn undo_wf(s: UndoView) -> bool {
    1 <= s.states.len() <= MAX_STATES && 0 <= s.index < s.states.len()
}

/// What recording `next` does to the stack: identical states are ignored,
/// redo history above the cursor is discarded, and the oldest state falls off
/// once the bound is exceeded.
pub open spec fn undo_pushed(s: UndoView, next: Snapshot) -> UndoView {
    if s.states[s.index] == next {
        s
    } else {
        let kept = s.states.subrange(0, s.index + 1).push(next);
        if kept.len() > MAX_STATES {
            UndoView { states: kept.drop_first(), index: kept.len() - 2 }
        } else {
            UndoView { states: kept, index: kept.len() - 1 }
        }
    }
}

/// The stack after one step back; unchanged at the oldest state.
pub open spec fn undone(s: UndoView) -> UndoView {
    if s.index > 0 {
        UndoView { index: s.index - 1, ..s }
    } else {
        s
    }
}

/// The stack after one step forward; unchanged at the newest state.
pub open spec fn redone(s: UndoView) -> UndoView {
    if s.index + 1 < s.states.len() {
        UndoView { index: s.index + 1, ..s }
    } else {
        s
    }
}

impl View for UndoStack {
    type V = UndoView;

    closed spec fn view(&self) -> UndoView {
        UndoView {
            states: self.states@.map_values(|v: Vec<EditorLine>| views(v@)),
            index: self.index as int,
        }
    }
}

impl UndoStack {
    /// The stack is well formed.
    pub open spec fn wf(&self) -> bool {
        undo_wf(self@)
    }

    /// Create a stack whose current state is `initial`.
    pub fn new(initial: Vec<EditorLine>) -> (s: Self)
        ensures
            s.wf(),
            s@ == (UndoView { states: seq![views(initial@)], index: 0 }),
    {
        let mut states: Vec<Vec<EditorLine>> = Vec::new();
        let ghost v = views(initial@);
        states.push(initial);
        let s = UndoStack { states, index: 0 };
        assert(s@.states =~= seq![v]);
        s
    }

    /// Record a new state produced by an edit.
    ///
    /// Redo history above the cursor is discarded. A no-op edit (state equal
    /// to the current one) is ignored so the stack is not polluted.
    pub fn push(&mut self, next: Vec<EditorLine>)
        requires
            old(self).wf(),
        ensures
            final(self).wf(),
            final(self)@ == undo_pushed(old(self)@, views(next@)),
    {
        let ghost s0 = self@;
        let ghost nv = views(next@);
        if lines_eq(&self.states[self.index], &next) {
            return;
        }
        self.states.truncate(self.index + 1);
        let ghost s1 = self@;
        assert(s1.states =~= s0.states.subrange(0, s0.index + 1));
        self.states.push(next);
        let ghost kept = s0.states.subrange(0, s0.index + 1).push(nv);
        assert(self@.states =~= kept);
        if self.states.len() > MAX_STATES {
            self.states.remove(0);
            assert(self@.states =~= kept.drop_first());
        }
        self.index = self.states.len() - 1;
    }

    /// Overwrite the current state in place.
    ///
    /// Used to coalesce a burst of keystrokes in the same line into a single
    /// undo step.
    pub fn replace_top(&mut self, state: Vec<EditorLine>)
        requires
            old(self).wf(),
        ensures
            final(self).wf(),
            final(self)@ == (UndoView {
                states: old(self)@.states.update(old(self)@.index, views(state@)),
                index: old(self)@.index,
            }),
    {
        let ghost s0 = self@;
        let ghost sv = views(state@);
        if self.index < self.states.len() {
            self.states.set(self.index, state);
        }
        assert(self@.states =~= s0.states.update(s0.index, sv));
    }

    pub fn can_replace_top(&self) -> (r: bool)
        ensures
            r == (0 <= self@.index < self@.states.len()),
    {
        self.index < self.states.len()
    }

    /// Step back one state and hand out a copy of it.
    pub fn undo(&mut self) -> (r: Option<Vec<EditorLine>>)
        requires
            old(self).wf(),
        ensures
            final(self).wf(),
            final(self)@ == undone(old(self)@),
            r is Some <==> old(self)@.index > 0,
            r is Some ==> views(r->0@) == old(self)@.states[old(self)@.index - 1],
    {
        if self.index == 0 {
            return None;
        }
        self.index -= 1;
        let out = clone_lines(&self.states[self.index]);
        Some(out)
    }

    /// Step forward one state and hand out a copy of it.
    pub fn redo(&mut self) -> (r: Option<Vec<EditorLine>>)
        requires
            old(self).wf(),
        ensures
            final(self).wf(),
            final(self)@ == redone(old(self)@),
            r is Some <==> old(self)@.index + 1 < old(self)@.states.len(),
            r is Some ==> views(r->0@) == old(self)@.states[old(self)@.index + 1],
    {
        if self.index + 1 >= self.states.len() {
            return None;
        }
        self.index += 1;
        let out = clone_lines(&self.states[self.index]);
        Some(out)
    }

    pub fn can_undo(&self) -> (r: bool)
        ensures
            r == (self@.index > 0),
    {
        self.index > 0
    }

    pub fn can_redo(&self) -> (r: bool)
        requires
            self.wf(),
        ensures
            r == (self@.index + 1 < self@.states.len()),
    {
        self.index + 1 < self.states.len()
    }

    /// Discard all history, keeping `state` as the new baseline.
    pub fn reset(&mut self, state: Vec<EditorLine>)
        ensures
            final(self).wf(),
            final(self)@ == (UndoView { states: seq![views(state@)], index: 0 }),
    {
        *self = UndoStack::new(state);
    }

    /// Number of retained states (including the baseline).
    pub fn len(&self) -> (n: usize)
        ensures
            n == self@.states.len(),
    {
        self.states.len()
    }

    pub fn is_empty(&self) -> (r: bool)
        ensures
            r == (self@.states.len() == 0),
    {
        self.states.len() == 0
    }

    /// Depth of the undo history from the current position.
    pub fn undo_depth(&self) -> (n: usize)
        ensures
            n == self@.index,
    {
        self.index
    }
}

// ── Laws ─────────────────────────────────────────────────────────────────

/// Recording a state keeps the stack well formed: never empty, never more
/// than [`MAX_STATES`] states, cursor in range.
pub proof fn lemma_push_keeps_wf(s: UndoView, next: Snapshot)
    requires
        undo_wf(s),
    ensures
        undo_wf(undo_pushed(s, next)),
{
}

/// Recording an identical state changes nothing.
pub proof fn lemma_push_identical_is_noop(s: UndoView)
    requires
        undo_wf(s),
    ensures
        undo_pushed(s, s.states[s.index]) == s,
{
}

/// After recording a new state it is the current one, nothing is left to
/// redo, and one undo step gives back the state that was current before.
pub proof fn lemma_push_then_undo(s: UndoView, next: Snapshot)
    requires
        undo_wf(s),
        s.states[s.index] != next,
    ensures
        ({
            let t = undo_pushed(s, next);
            &&& t.states[t.index] == next
            &&& t.index + 1 == t.states.len()
            &&& t.index > 0
            &&& undone(t).states[undone(t).index] == s.states[s.index]
        }),
{
}

/// Undo followed by redo, or redo followed by undo, returns to the same
/// stack whenever the first step moved.
pub proof fn lemma_undo_redo_inverse(s: UndoView)
    requires
        undo_wf(s),
    ensures
        s.index > 0 ==> redone(undone(s)) == s,
        s.index + 1 < s.states.len() ==> undone(redone(s)) == s,
{
}

} // verus!
