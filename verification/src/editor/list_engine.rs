//! List behaviour: Enter, Tab/Shift+Tab, renumbering, markdown shortcuts.

use vstd::prelude::*;

use crate::text::{chars_of, decimal, decimal_string, is_prefix, starts_with, string_from_chars};
use crate::types::line::{views, EditorLine, InlineSpan, LineColour, LineView, ListType, MAX_INDENT};

verus! {

/// What the caller should do after [`ListEngine::handle_enter`].
#[derive(Debug, Clone, Copy, PartialEq, Eq, Structural)]
pub enum EnterOutcome {
    /// Not a list line — the caller inserts a blank line normally.
    InsertBlank,
    /// The Enter key exited the list or outdented; no new line was created.
    Consumed,
    /// Move the caret to this line index.
    MoveTo(usize),
}

pub struct ListEngine;

// ── Numbering ────────────────────────────────────────────────────────────

/// Counter slot of a line: its indent, capped at [`MAX_INDENT`].
pub open spec fn depth_of(l: LineView) -> int {
    if l.indent > MAX_INDENT {
        MAX_INDENT as int
    } else {
        l.indent as int
    }
}

/// `x + 1`, saturating at `u32::MAX`.
pub open spec fn sat_inc(x: u32) -> u32 {
    if x == u32::MAX {
        x
    } else {
        (x + 1) as u32
    }
}

/// One counter per depth, all zero.
pub open spec fn zero_counters() -> Seq<u32> {
    Seq::new((MAX_INDENT + 1) as nat, |k: int| 0u32)
}

/// Counters after a numbered item at depth `d`: that depth counts up and
/// every deeper counter restarts.
pub open spec fn bumped(c: Seq<u32>, d: int) -> Seq<u32> {
    Seq::new(
        (MAX_INDENT + 1) as nat,
        |k: int|
            if k < d {
                c[k]
            } else if k == d {
                sat_inc(c[d])
            } else {
                0u32
            },
    )
}

/// Counter state after walking `ls`: each depth has its own counter and any
/// non-number line restarts them all.
pub open spec fn counters_after(ls: Seq<LineView>) -> Seq<u32>
    decreases ls.len(),
{
    if ls.len() == 0 {
        zero_counters()
    } else {
        let c = counters_after(ls.drop_last());
        let l = ls.last();
        if l.list_type is Number {
            bumped(c, depth_of(l))
        } else {
            zero_counters()
        }
    }
}

/// The display number line `i` receives.
pub open spec fn number_at(ls: Seq<LineView>, i: int) -> u32 {
    if ls[i].list_type is Number {
        counters_after(ls.subrange(0, i + 1))[depth_of(ls[i])]
    } else {
        0
    }
}

/// `ls` with every display number recomputed.
pub open spec fn renumbered(ls: Seq<LineView>) -> Seq<LineView> {
    Seq::new(ls.len(), |i: int| LineView { number: number_at(ls, i), ..ls[i] })
}

// ── Enter / Tab ──────────────────────────────────────────────────────────

/// The new line created when Enter splits a list item: it keeps the colour,
/// marker and depth, never the checked state.
pub open spec fn continued_line(template: LineView, tail: Seq<char>) -> LineView {
    LineView {
        text: tail,
        colour: template.colour,
        list_type: template.list_type,
        indent: template.indent,
        checked: false,
        number: 0,
        spans: Seq::empty(),
    }
}

/// Lines and outcome of Enter at character offset `col` on line `index`.
pub open spec fn enter_result(ls: Seq<LineView>, index: int, col: int) -> (
    Seq<LineView>,
    EnterOutcome,
) {
    if index < 0 || index >= ls.len() || ls[index].list_type is NoList {
        (ls, EnterOutcome::InsertBlank)
    } else if ls[index].text.len() == 0 && ls[index].indent == 0 {
        (
            ls.update(index, LineView { list_type: ListType::NoList, checked: false, ..ls[index] }),
            EnterOutcome::Consumed,
        )
    } else if ls[index].text.len() == 0 {
        (
            ls.update(index, LineView { indent: (ls[index].indent - 1) as u8, ..ls[index] }),
            EnterOutcome::Consumed,
        )
    } else {
        let t = ls[index].text;
        let at = if col < t.len() {
            col
        } else {
            t.len() as int
        };
        let head = LineView { text: t.subrange(0, at), ..ls[index] };
        let tail = continued_line(ls[index], t.subrange(at, t.len() as int));
        (
            renumbered(ls.update(index, head).insert(index + 1, tail)),
            EnterOutcome::MoveTo((index + 1) as usize),
        )
    }
}

/// Indent after Tab (`deeper`) or Shift+Tab.
pub open spec fn tabbed_indent(indent: u8, deeper: bool) -> u8 {
    if deeper {
        if indent + 1 > MAX_INDENT {
            MAX_INDENT
        } else {
            (indent + 1) as u8
        }
    } else if indent == 0 {
        0
    } else {
        (indent - 1) as u8
    }
}

/// Lines and result of Tab / Shift+Tab on line `index`.
pub open spec fn tab_result(ls: Seq<LineView>, index: int, deeper: bool) -> (Seq<LineView>, bool) {
    if index < 0 || index >= ls.len() || ls[index].list_type is NoList {
        (ls, false)
    } else {
        let next = tabbed_indent(ls[index].indent, deeper);
        if next == ls[index].indent {
            (ls, false)
        } else {
            (renumbered(ls.update(index, LineView { indent: next, ..ls[index] })), true)
        }
    }
}

// ── Markdown shortcuts ───────────────────────────────────────────────────

/// Length of the run of ASCII digits at the start of `t`.
pub open spec fn leading_digits(t: Seq<char>) -> nat
    decreases t.len(),
{
    if t.len() > 0 && '0' <= t[0] && t[0] <= '9' {
        1 + leading_digits(t.drop_first())
    } else {
        0
    }
}

/// What the markdown shortcut turns a line into, if anything.
pub open spec fn markdown_result(l: LineView) -> Option<LineView> {
    let t = l.text;
    if !(l.list_type is NoList) {
        None
    } else if is_prefix("- "@, t) || is_prefix("* "@, t) || is_prefix("+ "@, t) {
        Some(LineView { text: t.subrange(2, t.len() as int), list_type: ListType::Bullet, ..l })
    } else if is_prefix("[] "@, t) {
        Some(
            LineView {
                text: t.subrange(3, t.len() as int),
                list_type: ListType::Check,
                checked: false,
                ..l
            },
        )
    } else if is_prefix("[ ] "@, t) {
        Some(
            LineView {
                text: t.subrange(4, t.len() as int),
                list_type: ListType::Check,
                checked: false,
                ..l
            },
        )
    } else {
        let n = leading_digits(t);
        if 1 <= n <= 3 && is_prefix(". "@, t.subrange(n as int, t.len() as int)) {
            Some(
                LineView {
                    text: t.subrange(n as int + 2, t.len() as int),
                    list_type: ListType::Number,
                    ..l
                },
            )
        } else {
            None
        }
    }
}

/// The line a markdown shortcut leaves behind.
pub open spec fn after_markdown(l: LineView) -> LineView {
    match markdown_result(l) {
        Some(m) => m,
        None => l,
    }
}

/// What toggling a checkbox does to a line.
pub open spec fn toggled_check(l: LineView) -> LineView {
    if l.list_type is Check {
        LineView { checked: !l.checked, ..l }
    } else {
        l
    }
}

// ── Markers ──────────────────────────────────────────────────────────────

/// Glyph for a bullet at a given depth.
pub open spec fn bullet_glyph_of(indent: u8) -> Seq<char> {
    if indent == 0 {
        "\u{2022}"@
    } else if indent == 1 {
        "\u{25e6}"@
    } else if indent == 2 {
        "\u{25aa}"@
    } else {
        "\u{2023}"@
    }
}

/// Marker text for a line, or `None` when no marker is drawn.
pub open spec fn marker_of(l: LineView) -> Option<Seq<char>> {
    match l.list_type {
        ListType::NoList => None,
        ListType::Bullet => Some(bullet_glyph_of(l.indent)),
        ListType::Number => Some(decimal(l.number as nat).push('.')),
        ListType::Check => Some(
            if l.checked {
                "\u{2611}"@
            } else {
                "\u{2610}"@
            },
        ),
    }
}

proof fn lemma_counters_len(ls: Seq<LineView>)
    ensures
        counters_after(ls).len() == MAX_INDENT + 1,
    decreases ls.len(),
{
    if ls.len() > 0 {
        lemma_counters_len(ls.drop_last());
    }
}

/// Split a character sequence at a character offset.
fn split_chars(s: &str, char_index: usize) -> (r: (String, String))
    requires
        char_index <= s@.len(),
    ensures
        r.0@ == s@.subrange(0, char_index as int),
        r.1@ == s@.subrange(char_index as int, s@.len() as int),
{
    let cs = chars_of(s);
    let mut head: Vec<char> = Vec::new();
    let mut tail: Vec<char> = Vec::new();
    let mut i: usize = 0;
    while i < cs.len()
        invariant
            cs@ == s@,
            char_index <= cs@.len(),
            i <= cs@.len(),
            head@ == cs@.subrange(0, if i < char_index { i as int } else { char_index as int }),
            tail@ == if i < char_index {
                Seq::<char>::empty()
            } else {
                cs@.subrange(char_index as int, i as int)
            },
        decreases cs@.len() - i,
    {
        if i < char_index {
            head.push(cs[i]);
        } else {
            tail.push(cs[i]);
        }
        i += 1;
    }
    (string_from_chars(&head), string_from_chars(&tail))
}

impl ListEngine {
    /// Recompute display numbers. Each indent depth has its own counter and a
    /// non-number line interrupts the run.
    pub fn renumber(lines: &mut Vec<EditorLine>)
        ensures
            views(final(lines)@) == renumbered(views(old(lines)@)),
            well_numbered(views(final(lines)@)),
    {
        let ghost ls = views(lines@);
        proof {
            lemma_renumbered_well_numbered(ls);
        }
        let mut counters: Vec<u32> = Vec::new();
        let mut k: usize = 0;
        while k <= MAX_INDENT as usize
            invariant
                k <= MAX_INDENT + 1,
                counters@ == Seq::new(k as nat, |j: int| 0u32),
            decreases MAX_INDENT + 1 - k,
        {
            counters.push(0);
            k += 1;
        }
        assert(counters@ =~= zero_counters());
        let mut i: usize = 0;
        while i < lines.len()
            invariant
                views(lines@).len() == ls.len(),
                i <= ls.len(),
                counters@ == counters_after(ls.subrange(0, i as int)),
                forall|j: int| 0 <= j < i ==> #[trigger] views(lines@)[j] == renumbered(ls)[j],
                forall|j: int| i <= j < ls.len() ==> #[trigger] views(lines@)[j] == ls[j],
            decreases ls.len() - i,
        {
            proof {
                lemma_counters_len(ls.subrange(0, i as int));
                assert(ls.subrange(0, i + 1).drop_last() =~= ls.subrange(0, i as int));
            }
            let ghost before = lines@;
            assert(views(before)[i as int] == ls[i as int]);
            if lines[i].list_type == ListType::Number {
                let d: usize = if lines[i].indent > MAX_INDENT {
                    MAX_INDENT as usize
                } else {
                    lines[i].indent as usize
                };
                let cur = counters[d];
                let next = if cur == u32::MAX {
                    cur
                } else {
                    cur + 1
                };
                counters.set(d, next);
                let mut k: usize = d + 1;
                while k <= MAX_INDENT as usize
                    invariant
                        d < k <= MAX_INDENT + 1,
                        counters@.len() == MAX_INDENT + 1,
                        forall|j: int| 0 <= j < k ==> #[trigger] counters@[j] == bumped(counters_after(ls.subrange(0, i as int)), d as int)[j],
                    decreases MAX_INDENT + 1 - k,
                {
                    counters.set(k, 0);
                    k += 1;
                }
                assert(counters@ =~= bumped(counters_after(ls.subrange(0, i as int)), d as int));
                lines[i].number = counters[d];
            } else {
                lines[i].number = 0;
                let mut k: usize = 0;
                while k <= MAX_INDENT as usize
                    invariant
                        k <= MAX_INDENT + 1,
                        counters@.len() == MAX_INDENT + 1,
                        forall|j: int| 0 <= j < k ==> #[trigger] counters@[j] == 0u32,
                    decreases MAX_INDENT + 1 - k,
                {
                    counters.set(k, 0);
                    k += 1;
                }
                assert(counters@ =~= zero_counters());
            }
            proof {
                assert forall|j: int| 0 <= j < ls.len() && j != i implies #[trigger] views(lines@)[j]
                    == views(before)[j] by {
                    assert(lines@[j] == before[j]);
                }
                assert(views(lines@)[i as int] =~= renumbered(ls)[i as int]);
            }
            i += 1;
        }
        assert(views(lines@) =~= renumbered(ls));
    }

    /// Handle Enter pressed at character offset `col` on line `index`.
    pub fn handle_enter(lines: &mut Vec<EditorLine>, index: usize, col: usize) -> (r: EnterOutcome)
        ensures
            (views(final(lines)@), r) == enter_result(views(old(lines)@), index as int, col as int),
            r is MoveTo ==> well_numbered(views(final(lines)@)),
    {
        let ghost ls = views(lines@);
        proof {
            lemma_enter_split_numbers(ls, index as int, col as int);
        }
        if index >= lines.len() {
            return EnterOutcome::InsertBlank;
        }
        if lines[index].list_type == ListType::NoList {
            return EnterOutcome::InsertBlank;
        }
        if lines[index].text.as_str().is_empty() && lines[index].indent == 0 {
            lines[index].list_type = ListType::NoList;
            lines[index].checked = false;
            proof {
                assert(views(lines@) =~= ls.update(
                    index as int,
                    LineView { list_type: ListType::NoList, checked: false, ..ls[index as int] },
                ));
            }
            return EnterOutcome::Consumed;
        }
        if lines[index].text.as_str().is_empty() && lines[index].indent > 0 {
            lines[index].indent = lines[index].indent - 1;
            proof {
                assert(views(lines@) =~= ls.update(
                    index as int,
                    LineView { indent: (ls[index as int].indent - 1) as u8, ..ls[index as int] },
                ));
            }
            return EnterOutcome::Consumed;
        }
        let n = lines[index].char_len();
        let split_at = if col < n {
            col
        } else {
            n
        };
        let (head, tail) = split_chars(lines[index].text.as_str(), split_at);
        let template = lines[index].clone();
        lines[index].text = head;
        let ghost mid = views(lines@);
        let new_line = EditorLine {
            text: tail,
            colour: template.colour,
            list_type: template.list_type,
            indent: template.indent,
            checked: false,
            number: 0,
            inline_spans: Vec::new(),
        };
        lines.insert(index + 1, new_line);
        proof {
            let t = ls[index as int].text;
            let head_v = LineView { text: t.subrange(0, split_at as int), ..ls[index as int] };
            let tail_v = continued_line(ls[index as int], t.subrange(split_at as int, t.len() as int));
            assert(mid =~= ls.update(index as int, head_v));
            assert(new_line@ =~= tail_v);
            assert(views(lines@) =~= ls.update(index as int, head_v).insert(index + 1, tail_v));
        }
        Self::renumber(lines);
        EnterOutcome::MoveTo(index + 1)
    }

    /// Handle Tab (indent) / Shift+Tab (outdent). No-op for plain lines.
    pub fn handle_tab(lines: &mut Vec<EditorLine>, index: usize, indent: bool) -> (changed: bool)
        requires
            index < old(lines)@.len() && indent ==> old(lines)@[index as int].indent < u8::MAX,
        ensures
            (views(final(lines)@), changed) == tab_result(views(old(lines)@), index as int, indent),
    {
        let ghost ls = views(lines@);
        if index >= lines.len() {
            return false;
        }
        if lines[index].list_type == ListType::NoList {
            return false;
        }
        let before = lines[index].indent;
        let next = if indent {
            if before + 1 > MAX_INDENT {
                MAX_INDENT
            } else {
                before + 1
            }
        } else if before == 0 {
            0
        } else {
            before - 1
        };
        if next == before {
            return false;
        }
        lines[index].indent = next;
        proof {
            assert(views(lines@) =~= ls.update(
                index as int,
                LineView { indent: next, ..ls[index as int] },
            ));
        }
        Self::renumber(lines);
        true
    }

    /// Convert a markdown-style prefix typed by the user. Returns `true` when
    /// the line was converted.
    pub fn try_markdown_shortcut(line: &mut EditorLine) -> (converted: bool)
        ensures
            converted == (markdown_result(old(line)@) is Some),
            final(line)@ == after_markdown(old(line)@),
    {
        proof {
            reveal_strlit("- ");
            reveal_strlit("* ");
            reveal_strlit("+ ");
            reveal_strlit("[] ");
            reveal_strlit("[ ] ");
            reveal_strlit(". ");
        }
        if line.list_type != ListType::NoList {
            return false;
        }
        let cs = chars_of(line.text.as_str());
        let ghost t = line.text@;
        if starts_with(line.text.as_str(), "- ") || starts_with(line.text.as_str(), "* ")
            || starts_with(line.text.as_str(), "+ ") {
            line.text = string_from_chars(slice_from(&cs, 2).as_slice());
            line.list_type = ListType::Bullet;
            return true;
        }
        if starts_with(line.text.as_str(), "[] ") {
            line.text = string_from_chars(slice_from(&cs, 3).as_slice());
            line.list_type = ListType::Check;
            line.checked = false;
            return true;
        }
        if starts_with(line.text.as_str(), "[ ] ") {
            line.text = string_from_chars(slice_from(&cs, 4).as_slice());
            line.list_type = ListType::Check;
            line.checked = false;
            return true;
        }
        let digits = count_leading_digits(&cs);
        if digits == 0 || digits > 3 {
            return false;
        }
        let rest = slice_from(&cs, digits);
        let rest_s = string_from_chars(rest.as_slice());
        if starts_with(rest_s.as_str(), ". ") {
            assert(rest@.len() >= 2);
            line.text = string_from_chars(slice_from(&cs, digits + 2).as_slice());
            line.list_type = ListType::Number;
            proof {
                assert(rest@.subrange(2, rest@.len() as int) =~= t.subrange(digits + 2, t.len() as int));
            }
            return true;
        }
        false
    }

    /// Toggle a checkbox line; returns the new state.
    pub fn toggle_checked(line: &mut EditorLine) -> (state: bool)
        ensures
            final(line)@ == toggled_check(old(line)@),
            state == final(line).checked,
    {
        if line.list_type == ListType::Check {
            line.checked = !line.checked;
        }
        line.checked
    }

    /// Glyph for a bullet at a given depth.
    pub fn bullet_glyph(indent: u8) -> (s: &'static str)
        ensures
            s@ == bullet_glyph_of(indent),
    {
        if indent == 0 {
            "\u{2022}"
        } else if indent == 1 {
            "\u{25e6}"
        } else if indent == 2 {
            "\u{25aa}"
        } else {
            "\u{2023}"
        }
    }

    /// Marker text for a line, or `None` when no marker is drawn.
    pub fn marker_text(line: &EditorLine) -> (r: Option<String>)
        ensures
            match (r, marker_of(line@)) {
                (Some(s), Some(m)) => s@ == m,
                (None, None) => true,
                _ => false,
            },
    {
        match line.list_type {
            ListType::NoList => None,
            ListType::Bullet => Some(crate::text::to_owned_string(Self::bullet_glyph(line.indent))),
            ListType::Number => {
                let mut s = decimal_string(line.number as u64);
                s.push('.');
                Some(s)
            },
            ListType::Check => Some(
                if line.checked {
                    crate::text::to_owned_string("\u{2611}")
                } else {
                    crate::text::to_owned_string("\u{2610}")
                },
            ),
        }
    }
}

} // verus!

verus! {

/// The characters of `cs` from position `from` on.
fn slice_from(cs: &Vec<char>, from: usize) -> (r: Vec<char>)
    requires
        from <= cs@.len(),
    ensures
        r@ == cs@.subrange(from as int, cs@.len() as int),
{
    let mut r: Vec<char> = Vec::new();
    let mut i = from;
    while i < cs.len()
        invariant
            from <= i <= cs@.len(),
            r@ == cs@.subrange(from as int, i as int),
        decreases cs@.len() - i,
    {
        r.push(cs[i]);
        i += 1;
    }
    r
}

proof fn lemma_leading_digits_prefix(t: Seq<char>, i: int)
    requires
        0 <= i <= t.len(),
        forall|j: int| 0 <= j < i ==> '0' <= #[trigger] t[j] && t[j] <= '9',
    ensures
        leading_digits(t) >= i,
        i < t.len() && !('0' <= t[i] && t[i] <= '9') ==> leading_digits(t) == i,
    decreases i,
{
    if i > 0 {
        assert forall|j: int| 0 <= j < i - 1 implies '0' <= #[trigger] t.drop_first()[j]
            && t.drop_first()[j] <= '9' by {
            assert(t.drop_first()[j] == t[j + 1]);
        }
        lemma_leading_digits_prefix(t.drop_first(), i - 1);
    }
}

/// Length of the run of ASCII digits at the start of `cs`.
fn count_leading_digits(cs: &Vec<char>) -> (n: usize)
    ensures
        n == leading_digits(cs@),
        n <= cs@.len(),
{
    let mut i: usize = 0;
    while i < cs.len() && '0' <= cs[i] && cs[i] <= '9'
        invariant
            i <= cs@.len(),
            forall|j: int| 0 <= j < i ==> '0' <= #[trigger] cs@[j] && cs@[j] <= '9',
        decreases cs@.len() - i,
    {
        i += 1;
    }
    proof {
        lemma_leading_digits_prefix(cs@, i as int);
        lemma_leading_digits_le(cs@);
        if i == cs@.len() {
            lemma_leading_digits_all(cs@);
        }
    }
    i
}

proof fn lemma_leading_digits_le(t: Seq<char>)
    ensures
        leading_digits(t) <= t.len(),
    decreases t.len(),
{
    if t.len() > 0 {
        lemma_leading_digits_le(t.drop_first());
    }
}

proof fn lemma_leading_digits_all(t: Seq<char>)
    requires
        forall|j: int| 0 <= j < t.len() ==> '0' <= #[trigger] t[j] && t[j] <= '9',
    ensures
        leading_digits(t) == t.len(),
    decreases t.len(),
{
    if t.len() > 0 {
        assert forall|j: int| 0 <= j < t.len() - 1 implies '0' <= #[trigger] t.drop_first()[j]
            && t.drop_first()[j] <= '9' by {
            assert(t.drop_first()[j] == t[j + 1]);
        }
        lemma_leading_digits_all(t.drop_first());
    }
}

} // verus!

verus! {

// ── Laws ─────────────────────────────────────────────────────────────────

/// Numbering reads only the list types and depths of the lines.
proof fn lemma_counters_same_shape(a: Seq<LineView>, b: Seq<LineView>)
    requires
        a.len() == b.len(),
        forall|i: int|
            0 <= i < a.len() ==> (#[trigger] a[i]).list_type == b[i].list_type && a[i].indent
                == b[i].indent,
    ensures
        counters_after(a) == counters_after(b),
    decreases a.len(),
{
    if a.len() > 0 {
        lemma_counters_same_shape(a.drop_last(), b.drop_last());
        assert(a.last() == a[a.len() - 1]);
    }
}

/// Renumbering keeps everything but the display numbers, and doing it twice
/// is the same as doing it once.
pub proof fn lemma_renumber_idempotent(ls: Seq<LineView>)
    ensures
        renumbered(ls).len() == ls.len(),
        forall|i: int|
            0 <= i < ls.len() ==> (#[trigger] renumbered(ls)[i]) == (LineView {
                number: renumbered(ls)[i].number,
                ..ls[i]
            }),
        renumbered(renumbered(ls)) == renumbered(ls),
{
    let r = renumbered(ls);
    assert forall|i: int| 0 <= i < ls.len() implies #[trigger] number_at(r, i) == number_at(
        ls,
        i,
    ) by {
        let a = r.subrange(0, i + 1);
        let b = ls.subrange(0, i + 1);
        assert forall|j: int| 0 <= j < a.len() implies (#[trigger] a[j]).list_type
            == b[j].list_type && a[j].indent == b[j].indent by {
            assert(a[j] == r[j] && b[j] == ls[j]);
        }
        lemma_counters_same_shape(a, b);
    }
    assert(renumbered(r) =~= r);
}


/// A numbered item nested deeper than depth `d`.
pub open spec fn deeper_item(l: LineView, d: int) -> bool {
    l.list_type is Number && depth_of(l) > d
}

/// The display numbers of `ls` are the ones a numbered list shows: a line
/// that is not a numbered item shows none; a numbered item at depth `d`
/// looks back past the items nested deeper than it, and shows one more
/// than the item it finds there when that is a numbered item at its own
/// depth, else 1 (after a shallower item, after any other line, or at the
/// top of the document).
pub open spec fn well_numbered(ls: Seq<LineView>) -> bool {
    forall|i: int|
        0 <= i < ls.len() ==> {
            let l = #[trigger] ls[i];
            let d = depth_of(l);
            &&& !(l.list_type is Number) ==> l.number == 0
            &&& (l.list_type is Number && forall|j: int| 0 <= j < i ==> deeper_item(ls[j], d)) ==> l.number
                == 1
            &&& forall|p: int|
                0 <= p < i && l.list_type is Number && !deeper_item(#[trigger] ls[p], d) && (forall|j: int|
                    p < j < i ==> deeper_item(ls[j], d)) ==> if ls[p].list_type is Number && depth_of(ls[p])
                    == d {
                    ls[p].number < u32::MAX ==> l.number == ls[p].number + 1
                } else {
                    l.number == 1
                }
        }
}

/// Walking items nested deeper than `d` leaves the counter of depth `d`.
proof fn lemma_counter_kept(ls: Seq<LineView>, d: int, p: int, i: int)
    requires
        0 <= d <= MAX_INDENT,
        0 <= p <= i <= ls.len(),
        forall|j: int| p <= j < i ==> deeper_item(#[trigger] ls[j], d),
    ensures
        counters_after(ls.subrange(0, i))[d] == counters_after(ls.subrange(0, p))[d],
    decreases i - p,
{
    if i > p {
        lemma_counter_kept(ls, d, p, i - 1);
        assert(ls.subrange(0, i).drop_last() =~= ls.subrange(0, i - 1));
        assert(ls.subrange(0, i).last() == ls[i - 1]);
        assert(deeper_item(ls[i - 1], d));
        lemma_counters_len(ls.subrange(0, i - 1));
    }
}

/// After renumbering, every line shows the number a numbered list shows
/// there.
pub proof fn lemma_renumbered_well_numbered(ls: Seq<LineView>)
    ensures
        well_numbered(renumbered(ls)),
{
    let r = renumbered(ls);
    assert forall|i: int| 0 <= i < r.len() implies {
        let l = #[trigger] r[i];
        let d = depth_of(l);
        &&& !(l.list_type is Number) ==> l.number == 0
        &&& (l.list_type is Number && forall|j: int| 0 <= j < i ==> deeper_item(r[j], d)) ==> l.number == 1
        &&& forall|p: int|
            0 <= p < i && l.list_type is Number && !deeper_item(#[trigger] r[p], d) && (forall|j: int|
                p < j < i ==> deeper_item(r[j], d)) ==> if r[p].list_type is Number && depth_of(r[p]) == d {
                r[p].number < u32::MAX ==> l.number == r[p].number + 1
            } else {
                l.number == 1
            }
    } by {
        let l = r[i];
        let d = depth_of(ls[i]);
        assert(l.list_type == ls[i].list_type && l.indent == ls[i].indent);
        if ls[i].list_type is Number {
            let pre = ls.subrange(0, i);
            assert(ls.subrange(0, i + 1).drop_last() =~= pre);
            assert(ls.subrange(0, i + 1).last() == ls[i]);
            lemma_counters_len(pre);
            // number == sat_inc(counters_after(pre)[d])
            if forall|j: int| 0 <= j < i ==> deeper_item(r[j], d) {
                assert forall|j: int| 0 <= j < i implies deeper_item(#[trigger] ls[j], d) by {
                    assert(deeper_item(r[j], d));
                }
                lemma_counter_kept(ls, d, 0, i);
                assert(ls.subrange(0, 0) =~= Seq::<LineView>::empty());
            }
            assert forall|p: int|
                0 <= p < i && l.list_type is Number && !deeper_item(#[trigger] r[p], d) && (forall|j: int|
                    p < j < i ==> deeper_item(r[j], d)) implies if r[p].list_type is Number && depth_of(r[p])
                == d {
                r[p].number < u32::MAX ==> l.number == r[p].number + 1
            } else {
                l.number == 1
            } by {
                assert(r[p].list_type == ls[p].list_type && r[p].indent == ls[p].indent);
                assert forall|j: int| p + 1 <= j < i implies deeper_item(#[trigger] ls[j], d) by {
                    assert(deeper_item(r[j], d));
                }
                lemma_counter_kept(ls, d, p + 1, i);
                let upto = ls.subrange(0, p + 1);
                assert(upto.drop_last() =~= ls.subrange(0, p));
                assert(upto.last() == ls[p]);
                lemma_counters_len(ls.subrange(0, p));
            }
        }
    }
}

/// Enter that splits a list item leaves every line showing the number a
/// numbered list shows there.
pub proof fn lemma_enter_split_numbers(ls: Seq<LineView>, index: int, col: int)
    ensures
        enter_result(ls, index, col).1 is MoveTo ==> well_numbered(enter_result(ls, index, col).0),
{
    if enter_result(ls, index, col).1 is MoveTo {
        let t = ls[index].text;
        let at = if col < t.len() {
            col
        } else {
            t.len() as int
        };
        let head = LineView { text: t.subrange(0, at), ..ls[index] };
        let tail = continued_line(ls[index], t.subrange(at, t.len() as int));
        lemma_renumbered_well_numbered(ls.update(index, head).insert(index + 1, tail));
    }
}

} // verus!
