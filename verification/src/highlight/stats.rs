//! Highlight statistics for the status bar and extract panel.

use vstd::prelude::*;

use crate::editor::line_model::highlighted_in;
use crate::highlight::extractor::{colours_present, count_colour, count_lines_with, present};
use crate::config::settings::strs;
use crate::highlight::palette::{entry_views, palette_rows, resolved, EntryView, Palette};
use crate::text::{decimal, push_decimal, push_str};
use crate::types::api::{ColourEntry, HighlightStats};
use crate::types::line::{colour_from_key, views, EditorLine, LineColour, LineView};

verus! {

/// Per-colour tally.
#[derive(Debug, PartialEq, Eq)]
pub struct ColourCount {
    pub colour: LineColour,
    pub name: String,
    pub rgba: u32,
    pub count: usize,
}

/// The mathematical content of a [`ColourCount`].
pub struct ColourCountView {
    pub colour: LineColour,
    pub name: Seq<char>,
    pub rgba: u32,
    pub count: nat,
}

impl View for ColourCount {
    type V = ColourCountView;

    open spec fn view(&self) -> ColourCountView {
        ColourCountView {
            colour: self.colour,
            name: self.name@,
            rgba: self.rgba,
            count: self.count as nat,
        }
    }
}

impl Clone for ColourCount {
    fn clone(&self) -> (r: Self)
        ensures
            r@ == self@,
    {
        ColourCount {
            colour: self.colour,
            name: self.name.clone(),
            rgba: self.rgba,
            count: self.count,
        }
    }
}

/// Full breakdown of a document.
#[derive(Debug, PartialEq, Eq)]
pub struct HighlightBreakdown {
    pub total_lines: usize,
    pub highlighted_lines: usize,
    /// Counts in first-appearance order.
    pub counts: Vec<ColourCount>,
}

impl Default for HighlightBreakdown {
    fn default() -> (r: Self)
        ensures
            r.total_lines == 0,
            r.highlighted_lines == 0,
            r.counts@ == Seq::<ColourCount>::empty(),
    {
        HighlightBreakdown { total_lines: 0, highlighted_lines: 0, counts: Vec::new() }
    }
}

/// The views of a list of tallies.
pub open spec fn count_views(v: Seq<ColourCount>) -> Seq<ColourCountView> {
    v.map_values(|c: ColourCount| c@)
}

/// The tally row of colour `c` in document `ls`.
pub open spec fn tally(ls: Seq<LineView>, c: LineColour) -> ColourCountView {
    ColourCountView {
        colour: c,
        name: resolved(c).0,
        rgba: resolved(c).1,
        count: count_colour(ls, c),
    }
}

/// One tally per highlight colour present, in first-appearance order.
pub open spec fn tallies(ls: Seq<LineView>) -> Seq<ColourCountView> {
    present(ls).map_values(|c: LineColour| tally(ls, c))
}

/// `"{name} {count}"` joined with `" · "`.
pub open spec fn summary_text(cs: Seq<ColourCountView>) -> Seq<char>
    decreases cs.len(),
{
    if cs.len() == 0 {
        Seq::empty()
    } else {
        let item = cs.last().name + " "@ + decimal(cs.last().count);
        if cs.len() == 1 {
            item
        } else {
            summary_text(cs.drop_last()) + " \u{00b7} "@ + item
        }
    }
}

impl HighlightBreakdown {
    pub fn is_empty(&self) -> (r: bool)
        ensures
            r == (self.highlighted_lines == 0),
    {
        self.highlighted_lines == 0
    }

    /// "Yellow 3 · Green 1", or an empty string when nothing is highlighted.
    pub fn summary(&self) -> (s: String)
        ensures
            s@ == summary_text(count_views(self.counts@)),
    {
        let mut s = String::new();
        let mut i: usize = 0;
        while i < self.counts.len()
            invariant
                i <= self.counts@.len(),
                s@ == summary_text(count_views(self.counts@.subrange(0, i as int))),
            decreases self.counts@.len() - i,
        {
            let ghost pre = count_views(self.counts@.subrange(0, i as int));
            let ghost nxt = count_views(self.counts@.subrange(0, i + 1));
            assert(nxt.drop_last() =~= pre);
            if i > 0 {
                push_str(&mut s, " \u{00b7} ");
            }
            push_str(&mut s, self.counts[i].name.as_str());
            push_str(&mut s, " ");
            push_decimal(&mut s, self.counts[i].count as u64);
            proof {
                if i > 0 {
                    assert(s@ =~= summary_text(pre) + " \u{00b7} "@ + (nxt.last().name + " "@
                        + decimal(nxt.last().count)));
                } else {
                    assert(s@ =~= nxt.last().name + " "@ + decimal(nxt.last().count));
                }
            }
            i += 1;
        }
        assert(self.counts@.subrange(0, self.counts@.len() as int) =~= self.counts@);
        s
    }

    pub fn to_api(&self) -> (r: HighlightStats)
        ensures
            r.total_lines == self.total_lines as i32,
            r.highlighted == self.highlighted_lines as i32,
            r.summary@ == summary_text(count_views(self.counts@)),
    {
        HighlightStats {
            total_lines: self.total_lines as i32,
            highlighted: self.highlighted_lines as i32,
            summary: self.summary(),
        }
    }
}

proof fn lemma_highlighted_le(ls: Seq<LineView>)
    ensures
        highlighted_in(ls) <= ls.len(),
    decreases ls.len(),
{
    if ls.len() > 0 {
        lemma_highlighted_le(ls.drop_last());
    }
}

/// Number of highlighted lines.
fn count_highlighted(lines: &[EditorLine]) -> (n: usize)
    ensures
        n == highlighted_in(views(lines@)),
{
    let mut n: usize = 0;
    let mut i: usize = 0;
    while i < lines.len()
        invariant
            i <= lines@.len(),
            n == highlighted_in(views(lines@.subrange(0, i as int))),
            n <= i,
        decreases lines@.len() - i,
    {
        assert(views(lines@.subrange(0, i + 1)).drop_last() =~= views(lines@.subrange(0, i as int)));
        if lines[i].colour.is_highlighted() {
            n += 1;
        }
        i += 1;
    }
    assert(lines@.subrange(0, lines@.len() as int) =~= lines@);
    n
}

/// Count highlighted lines per colour, in first-appearance order.
pub fn breakdown(lines: &[EditorLine], palette: &Palette) -> (b: HighlightBreakdown)
    ensures
        b.total_lines == lines@.len(),
        b.highlighted_lines == highlighted_in(views(lines@)),
        count_views(b.counts@) == tallies(views(lines@)),
{
    let ghost ls = views(lines@);
    let seen = colours_present(lines);
    let mut counts: Vec<ColourCount> = Vec::new();
    let mut i: usize = 0;
    while i < seen.len()
        invariant
            i <= seen@.len(),
            ls == views(lines@),
            seen@ == present(ls),
            count_views(counts@) == present(ls).subrange(0, i as int).map_values(
                |c: LineColour| tally(ls, c),
            ),
        decreases seen@.len() - i,
    {
        let c = seen[i];
        let (name, rgba) = palette.resolve(c);
        let n = count_lines_with(lines, c);
        counts.push(ColourCount { colour: c, name, rgba, count: n });
        assert(present(ls).subrange(0, i + 1).map_values(|c: LineColour| tally(ls, c))
            =~= present(ls).subrange(0, i as int).map_values(|c: LineColour| tally(ls, c)).push(
            tally(ls, c),
        ));
        assert(count_views(counts@) =~= count_views(counts@.drop_last()).push(counts@.last()@));
        i += 1;
    }
    assert(present(ls).subrange(0, present(ls).len() as int) =~= present(ls));
    HighlightBreakdown {
        total_lines: lines.len(),
        highlighted_lines: count_highlighted(lines),
        counts,
    }
}

/// Shortcut for the status bar.
pub fn compute(lines: &[EditorLine], palette: &Palette) -> (r: HighlightStats)
    ensures
        r.total_lines == lines@.len() as i32,
        r.highlighted == highlighted_in(views(lines@)) as i32,
        r.summary@ == summary_text(tallies(views(lines@))),
{
    breakdown(lines, palette).to_api()
}

/// Distinct highlight colours present, with their counts. Used to pre-tick
/// the extract panel checkboxes.
pub fn colour_counts(lines: &[EditorLine], palette: &Palette) -> (r: Vec<(LineColour, usize)>)
    ensures
        r@.len() == present(views(lines@)).len(),
        forall|i: int|
            0 <= i < r@.len() ==> #[trigger] r@[i].0 == present(views(lines@))[i] && r@[i].1
                == count_colour(views(lines@), present(views(lines@))[i]),
{
    let b = breakdown(lines, palette);
    assert(count_views(b.counts@).len() == b.counts@.len());
    let mut r: Vec<(LineColour, usize)> = Vec::new();
    let mut i: usize = 0;
    while i < b.counts.len()
        invariant
            i <= b.counts@.len(),
            count_views(b.counts@) == tallies(views(lines@)),
            b.counts@.len() == present(views(lines@)).len(),
            r@.len() == i,
            forall|j: int|
                0 <= j < i ==> #[trigger] r@[j].0 == present(views(lines@))[j] && r@[j].1
                    == count_colour(views(lines@), present(views(lines@))[j]),
        decreases b.counts@.len() - i,
    {
        assert(count_views(b.counts@)[i as int] == b.counts@[i as int]@);
        assert(tallies(views(lines@))[i as int] == tally(views(lines@), present(views(lines@))[i as int]));
        r.push((b.counts[i].colour, b.counts[i].count));
        i += 1;
    }
    r
}

/// `1 line` or `N lines`.
pub open spec fn lines_label(n: nat) -> Seq<char> {
    if n == 1 {
        "1 line"@
    } else {
        decimal(n) + " lines"@
    }
}

/// The extract-panel row of a palette entry: how many lines carry its
/// colour, and whether its key is ticked.
pub open spec fn entry_row(e: EntryView, ls: Seq<LineView>, active: Seq<Seq<char>>) -> (Seq<char>, Seq<char>, u32, int, Seq<char>, bool) {
    let c = colour_from_key(e.key);
    let n = if c is NoColour {
        0
    } else {
        count_colour(ls, c)
    };
    (e.key, e.name, e.rgba, n as i32 as int, lines_label(n), active.contains(e.key))
}

/// The view of an extract-panel row.
pub open spec fn row_view(r: ColourEntry) -> (Seq<char>, Seq<char>, u32, int, Seq<char>, bool) {
    (r.key@, r.name@, r.rgba, r.line_count as int, r.count_label@, r.active)
}

/// The extract panel's rows: one per palette entry (built-ins, then
/// customs), each with the number of lines in its colour and whether it is
/// ticked in `active`.
pub fn colour_entries(palette: &Palette, lines: &[EditorLine], active: &[String]) -> (rows: Vec<ColourEntry>)
    ensures
        rows@.len() == palette_rows(palette@).len(),
        forall|i: int|
            0 <= i < rows@.len() ==> row_view(#[trigger] rows@[i]) == entry_row(
                palette_rows(palette@)[i],
                views(lines@),
                strs(active@),
            ),
{
    let entries = palette.entries();
    let ghost ev = entry_views(entries@);
    let mut rows: Vec<ColourEntry> = Vec::new();
    let mut i: usize = 0;
    while i < entries.len()
        invariant
            i <= entries@.len(),
            ev == entry_views(entries@),
            ev == palette_rows(palette@),
            rows@.len() == i,
            forall|j: int|
                0 <= j < i ==> row_view(#[trigger] rows@[j]) == entry_row(ev[j], views(lines@), strs(active@)),
        decreases entries@.len() - i,
    {
        let e = &entries[i];
        assert(ev[i as int] == e@);
        assert(e@.key == e.key@);
        let colour = LineColour::from_key(e.key.as_str());
        let count = if colour.is_highlighted() {
            count_lines_with(lines, colour)
        } else {
            0
        };
        let label = if count == 1 {
            crate::text::to_owned_string("1 line")
        } else {
            let mut t = String::new();
            push_decimal(&mut t, count as u64);
            push_str(&mut t, " lines");
            t
        };
        let mut ticked = false;
        let mut k: usize = 0;
        while k < active.len()
            invariant
                k <= active@.len(),
                ticked <==> exists|j: int| 0 <= j < k && (#[trigger] active@[j])@ == e.key@,
            decreases active@.len() - k,
        {
            if crate::text::str_eq(active[k].as_str(), e.key.as_str()) {
                ticked = true;
            }
            k += 1;
        }
        proof {
            let sa = strs(active@);
            if ticked {
                let j = choose|j: int| 0 <= j < active@.len() && (#[trigger] active@[j])@ == e.key@;
                assert(sa[j] == e.key@);
            } else {
                assert forall|j: int| 0 <= j < sa.len() implies sa[j] != e.key@ by {
                    assert(sa[j] == active@[j]@);
                }
            }
        }
        rows.push(
            ColourEntry {
                key: e.key.clone(),
                name: e.name.clone(),
                rgba: e.rgba,
                line_count: count as i32,
                count_label: label,
                active: ticked,
            },
        );
        i += 1;
    }
    rows
}

} // verus!
