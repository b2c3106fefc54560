//! Extract lines by highlight colour.

use vstd::prelude::*;

use crate::editor::line_model::join_nl;
use crate::text::{chars_of, push_str, string_from_chars, trim_end, trim_end_chars};
use crate::types::line::{colour_name, views, EditorLine, LineColour, LineView};

verus! {

/// Ordering of the extracted text.
#[derive(Debug, Clone, Copy, PartialEq, Eq, Structural)]
pub enum ExtractionOrder {
    /// Keep the original document order.
    Document,
    /// Group under a `# Colour` heading per colour.
    GroupByColour,
}

impl Default for ExtractionOrder {
    fn default() -> (r: Self)
        ensures
            r == ExtractionOrder::Document,
    {
        ExtractionOrder::Document
    }
}

/// Stable identifier of an ordering.
pub open spec fn order_key(o: ExtractionOrder) -> Seq<char> {
    match o {
        ExtractionOrder::Document => "document"@,
        ExtractionOrder::GroupByColour => "grouped"@,
    }
}

/// Ordering named by a key: the grouped spellings, everything else is
/// document order.
pub open spec fn order_from_key(k: Seq<char>) -> ExtractionOrder {
    if k == "grouped"@ || k == "group"@ || k == "colour"@ || k == "color"@ {
        ExtractionOrder::GroupByColour
    } else {
        ExtractionOrder::Document
    }
}

impl ExtractionOrder {
    pub fn key(self) -> (s: &'static str)
        ensures
            s@ == order_key(self),
    {
        match self {
            ExtractionOrder::Document => "document",
            ExtractionOrder::GroupByColour => "grouped",
        }
    }

    pub fn from_key(key: &str) -> (o: Self)
        ensures
            o == order_from_key(key@),
    {
        use_str_eq(key)
    }

    pub fn is_grouped(self) -> (r: bool)
        ensures
            r == (self is GroupByColour),
    {
        match self {
            ExtractionOrder::GroupByColour => true,
            ExtractionOrder::Document => false,
        }
    }
}

fn use_str_eq(key: &str) -> (o: ExtractionOrder)
    ensures
        o == order_from_key(key@),
{
    if crate::text::str_eq(key, "grouped") || crate::text::str_eq(key, "group")
        || crate::text::str_eq(key, "colour") || crate::text::str_eq(key, "color") {
        ExtractionOrder::GroupByColour
    } else {
        ExtractionOrder::Document
    }
}

/// Reading an ordering's key gives the ordering back.
pub proof fn lemma_order_key_roundtrip(o: ExtractionOrder)
    ensures
        order_from_key(order_key(o)) == o,
{
    reveal_strlit("document");
    reveal_strlit("grouped");
    reveal_strlit("group");
    reveal_strlit("colour");
    reveal_strlit("color");
    assert("document"@.len() == 8 && "group"@.len() == 5 && "colour"@.len() == 6);
    assert("color"@.len() == 5 && "document"@[0] == 'd');
}

// ── The extraction model ─────────────────────────────────────────────────

/// The requested colours that carry a highlight, in request order.
pub open spec fn highlighted_only(cs: Seq<LineColour>) -> Seq<LineColour>
    decreases cs.len(),
{
    if cs.len() == 0 {
        Seq::empty()
    } else {
        let p = highlighted_only(cs.drop_last());
        if cs.last() is NoColour {
            p
        } else {
            p.push(cs.last())
        }
    }
}

/// Number of lines with colour `c`.
pub open spec fn count_colour(ls: Seq<LineView>, c: LineColour) -> nat
    decreases ls.len(),
{
    if ls.len() == 0 {
        0
    } else {
        count_colour(ls.drop_last(), c) + if ls.last().colour == c {
            1nat
        } else {
            0nat
        }
    }
}

/// Texts of the lines whose colour is one of `cs`, in document order.
pub open spec fn picked_texts(ls: Seq<LineView>, cs: Seq<LineColour>) -> Seq<Seq<char>>
    decreases ls.len(),
{
    if ls.len() == 0 {
        Seq::empty()
    } else {
        let p = picked_texts(ls.drop_last(), cs);
        if cs.contains(ls.last().colour) {
            p.push(ls.last().text)
        } else {
            p
        }
    }
}

/// Document-order extraction: the picked lines joined with `\n`.
pub open spec fn document_text(ls: Seq<LineView>, cs: Seq<LineColour>) -> Seq<char> {
    join_nl(picked_texts(ls, cs))
}

/// Every line of colour `c`, each followed by `\n`.
pub open spec fn member_block(ls: Seq<LineView>, c: LineColour) -> Seq<char>
    decreases ls.len(),
{
    if ls.len() == 0 {
        Seq::empty()
    } else {
        member_block(ls.drop_last(), c) + if ls.last().colour == c {
            ls.last().text.push('\n')
        } else {
            Seq::empty()
        }
    }
}

/// A `# Colour` heading followed by the colour's lines.
pub open spec fn section(ls: Seq<LineView>, c: LineColour) -> Seq<char> {
    "# "@ + colour_name(c) + "\n"@ + member_block(ls, c)
}

/// The sections of the requested colours, in request order, separated by a
/// blank line; colours with no line are skipped.
pub open spec fn grouped_raw(ls: Seq<LineView>, cs: Seq<LineColour>) -> Seq<char>
    decreases cs.len(),
{
    if cs.len() == 0 {
        Seq::empty()
    } else {
        let prev = grouped_raw(ls, cs.drop_last());
        let c = cs.last();
        if count_colour(ls, c) == 0 {
            prev
        } else {
            (if prev.len() > 0 {
                prev.push('\n')
            } else {
                prev
            }) + section(ls, c)
        }
    }
}

/// Grouped extraction: the sections with trailing whitespace removed.
pub open spec fn grouped_text(ls: Seq<LineView>, cs: Seq<LineColour>) -> Seq<char> {
    trim_end(grouped_raw(ls, cs))
}

/// The text an extraction produces.
pub open spec fn extracted_text(ls: Seq<LineView>, cs: Seq<LineColour>, o: ExtractionOrder) -> Seq<
    char,
> {
    let sel = highlighted_only(cs);
    if sel.len() == 0 {
        Seq::empty()
    } else if o is Document {
        document_text(ls, sel)
    } else {
        grouped_text(ls, sel)
    }
}

/// Number of `\n` characters.
pub open spec fn newlines(t: Seq<char>) -> nat
    decreases t.len(),
{
    if t.len() == 0 {
        0
    } else {
        newlines(t.drop_last()) + if t.last() == '\n' {
            1nat
        } else {
            0nat
        }
    }
}

/// `str::lines().count()`: a trailing `\n` does not start another line.
pub open spec fn line_count_of(t: Seq<char>) -> nat {
    if t.len() == 0 {
        0
    } else if t.last() == '\n' {
        newlines(t)
    } else {
        newlines(t) + 1
    }
}

/// Per requested colour, the number of its lines; a colour requested twice
/// is counted at its first mention only.
pub open spec fn per_colour_counts(ls: Seq<LineView>, sel: Seq<LineColour>) -> Seq<(LineColour, usize)> {
    Seq::new(
        sel.len(),
        |i: int|
            (
                sel[i],
                if sel.subrange(0, i).contains(sel[i]) {
                    0usize
                } else {
                    count_colour(ls, sel[i]) as usize
                },
            ),
    )
}

/// Distinct highlight colours in first-appearance order.
pub open spec fn present(ls: Seq<LineView>) -> Seq<LineColour>
    decreases ls.len(),
{
    if ls.len() == 0 {
        Seq::empty()
    } else {
        let p = present(ls.drop_last());
        let c = ls.last().colour;
        if !(c is NoColour) && !p.contains(c) {
            p.push(c)
        } else {
            p
        }
    }
}

/// Result of an extraction.
#[derive(Debug, PartialEq, Eq)]
pub struct ExtractionResult {
    pub text: String,
    pub line_count: usize,
    pub char_count: usize,
    /// How many lines each colour contributed, in the order the colours were
    /// requested.
    pub per_colour: Vec<(LineColour, usize)>,
}

impl Default for ExtractionResult {
    fn default() -> (r: Self)
        ensures
            r.text@ == Seq::<char>::empty(),
            r.line_count == 0,
            r.char_count == 0,
            r.per_colour@ == Seq::<(LineColour, usize)>::empty(),
    {
        ExtractionResult { text: String::new(), line_count: 0, char_count: 0, per_colour: Vec::new() }
    }
}

// ── Executable parts ─────────────────────────────────────────────────────

proof fn lemma_count_le(ls: Seq<LineView>, c: LineColour)
    ensures
        count_colour(ls, c) <= ls.len(),
    decreases ls.len(),
{
    if ls.len() > 0 {
        lemma_count_le(ls.drop_last(), c);
    }
}

/// Number of lines with colour `c`.
pub fn count_lines_with(lines: &[EditorLine], c: LineColour) -> (n: usize)
    ensures
        n == count_colour(views(lines@), c),
{
    let mut n: usize = 0;
    let mut i: usize = 0;
    while i < lines.len()
        invariant
            i <= lines@.len(),
            n == count_colour(views(lines@.subrange(0, i as int)), c),
            n <= i,
        decreases lines@.len() - i,
    {
        assert(views(lines@.subrange(0, i + 1)).drop_last() =~= views(lines@.subrange(0, i as int)));
        if lines[i].colour == c {
            n += 1;
        }
        i += 1;
    }
    assert(lines@.subrange(0, lines@.len() as int) =~= lines@);
    n
}

fn contains_colour(cs: &[LineColour], c: LineColour) -> (r: bool)
    ensures
        r == cs@.contains(c),
{
    let mut i: usize = 0;
    while i < cs.len()
        invariant
            i <= cs@.len(),
            forall|j: int| 0 <= j < i ==> cs@[j] != c,
        decreases cs@.len() - i,
    {
        if cs[i] == c {
            assert(cs@[i as int] == c);
            return true;
        }
        i += 1;
    }
    false
}

fn contains_before(cs: &[LineColour], end: usize, c: LineColour) -> (r: bool)
    requires
        end <= cs@.len(),
    ensures
        r == cs@.subrange(0, end as int).contains(c),
{
    let mut i: usize = 0;
    while i < end
        invariant
            i <= end <= cs@.len(),
            forall|j: int| 0 <= j < i ==> cs@[j] != c,
        decreases end - i,
    {
        if cs[i] == c {
            assert(cs@.subrange(0, end as int)[i as int] == c);
            return true;
        }
        i += 1;
    }
    assert(!cs@.subrange(0, end as int).contains(c)) by {
        if cs@.subrange(0, end as int).contains(c) {
            let k = choose|k: int| 0 <= k < end && cs@.subrange(0, end as int)[k] == c;
            assert(cs@[k] == c);
        }
    }
    false
}

fn select_highlighted(colours: &[LineColour]) -> (sel: Vec<LineColour>)
    ensures
        sel@ == highlighted_only(colours@),
{
    let mut sel: Vec<LineColour> = Vec::new();
    let mut i: usize = 0;
    while i < colours.len()
        invariant
            i <= colours@.len(),
            sel@ == highlighted_only(colours@.subrange(0, i as int)),
        decreases colours@.len() - i,
    {
        assert(colours@.subrange(0, i + 1).drop_last() =~= colours@.subrange(0, i as int));
        if colours[i].is_highlighted() {
            sel.push(colours[i]);
        }
        i += 1;
    }
    assert(colours@.subrange(0, colours@.len() as int) =~= colours@);
    sel
}

/// Plain concatenation preserving document order.
pub fn document_order(lines: &[EditorLine], colours: &[LineColour]) -> (s: String)
    ensures
        s@ == document_text(views(lines@), colours@),
{
    let mut s = String::new();
    let mut any = false;
    let mut i: usize = 0;
    while i < lines.len()
        invariant
            i <= lines@.len(),
            s@ == join_nl(picked_texts(views(lines@.subrange(0, i as int)), colours@)),
            any == (picked_texts(views(lines@.subrange(0, i as int)), colours@).len() > 0),
        decreases lines@.len() - i,
    {
        let ghost pre = views(lines@.subrange(0, i as int));
        let ghost nxt = views(lines@.subrange(0, i + 1));
        assert(nxt.drop_last() =~= pre);
        if contains_colour(colours, lines[i].colour) {
            let ghost ps = picked_texts(pre, colours@);
            if any {
                s.push('\n');
            }
            push_str(&mut s, lines[i].text.as_str());
            any = true;
            assert(picked_texts(nxt, colours@) == ps.push(lines@[i as int].text@));
            assert(ps.push(lines@[i as int].text@).drop_last() =~= ps);
        }
        i += 1;
    }
    assert(lines@.subrange(0, lines@.len() as int) =~= lines@);
    s
}

proof fn lemma_block_empty(ls: Seq<LineView>, c: LineColour)
    ensures
        (member_block(ls, c).len() == 0) == (count_colour(ls, c) == 0),
    decreases ls.len(),
{
    if ls.len() > 0 {
        lemma_block_empty(ls.drop_last(), c);
    }
}

fn member_block_of(lines: &[EditorLine], c: LineColour) -> (s: Vec<char>)
    ensures
        s@ == member_block(views(lines@), c),
{
    let mut s: Vec<char> = Vec::new();
    let mut i: usize = 0;
    while i < lines.len()
        invariant
            i <= lines@.len(),
            s@ == member_block(views(lines@.subrange(0, i as int)), c),
        decreases lines@.len() - i,
    {
        let ghost pre = views(lines@.subrange(0, i as int));
        let ghost nxt = views(lines@.subrange(0, i + 1));
        assert(nxt.drop_last() =~= pre);
        if lines[i].colour == c {
            let t = chars_of(lines[i].text.as_str());
            let mut k: usize = 0;
            let ghost s0 = s@;
            while k < t.len()
                invariant
                    k <= t@.len(),
                    s@ == s0 + t@.subrange(0, k as int),
                decreases t@.len() - k,
            {
                s.push(t[k]);
                k += 1;
            }
            s.push('\n');
            assert(s@ =~= s0 + t@.push('\n'));
        } else {
            assert(s@ =~= s@ + Seq::<char>::empty());
        }
        i += 1;
    }
    assert(lines@.subrange(0, lines@.len() as int) =~= lines@);
    s
}

/// One `# Colour` section per requested colour, in the requested order.
/// Empty sections are skipped.
pub fn grouped(lines: &[EditorLine], colours: &[LineColour]) -> (s: String)
    ensures
        s@ == grouped_text(views(lines@), colours@),
{
    let ghost ls = views(lines@);
    let mut out: Vec<char> = Vec::new();
    let mut i: usize = 0;
    while i < colours.len()
        invariant
            i <= colours@.len(),
            ls == views(lines@),
            out@ == grouped_raw(ls, colours@.subrange(0, i as int)),
        decreases colours@.len() - i,
    {
        let c = colours[i];
        assert(colours@.subrange(0, i + 1).drop_last() =~= colours@.subrange(0, i as int));
        let block = member_block_of(lines, c);
        proof {
            lemma_block_empty(ls, c);
        }
        if block.len() > 0 {
            let ghost prev = out@;
            if out.len() > 0 {
                out.push('\n');
            }
            let ghost sep = out@;
            let name = chars_of(c.display_name().as_str());
            let mut head: Vec<char> = vec!['#', ' '];
            let mut k: usize = 0;
            while k < name.len()
                invariant
                    k <= name@.len(),
                    head@ == seq!['#', ' '] + name@.subrange(0, k as int),
                decreases name@.len() - k,
            {
                head.push(name[k]);
                k += 1;
            }
            head.push('\n');
            let mut k2: usize = 0;
            while k2 < block.len()
                invariant
                    k2 <= block@.len(),
                    head@ == seq!['#', ' '] + name@ + seq!['\n'] + block@.subrange(0, k2 as int),
                decreases block@.len() - k2,
            {
                head.push(block[k2]);
                k2 += 1;
            }
            proof {
                reveal_strlit("# ");
                reveal_strlit("\n");
                assert(name@.subrange(0, name@.len() as int) =~= name@);
                assert(block@.subrange(0, block@.len() as int) =~= block@);
                assert(head@ =~= section(ls, c));
            }
            out.append(&mut head);
            assert(out@ =~= sep + section(ls, c));
        }
        i += 1;
    }
    assert(colours@.subrange(0, colours@.len() as int) =~= colours@);
    let t = trim_end_chars(&out);
    string_from_chars(&t)
}

proof fn lemma_newlines_le(t: Seq<char>)
    ensures
        newlines(t) <= t.len(),
    decreases t.len(),
{
    if t.len() > 0 {
        lemma_newlines_le(t.drop_last());
    }
}

fn line_count(cs: &[char]) -> (n: usize)
    ensures
        n == line_count_of(cs@),
{
    if cs.len() == 0 {
        return 0;
    }
    let mut n: usize = 0;
    let mut i: usize = 0;
    while i < cs.len()
        invariant
            i <= cs@.len(),
            n == newlines(cs@.subrange(0, i as int)),
            n <= i,
        decreases cs@.len() - i,
    {
        assert(cs@.subrange(0, i + 1).drop_last() =~= cs@.subrange(0, i as int));
        if cs[i] == '\n' {
            n += 1;
        }
        i += 1;
    }
    assert(cs@.subrange(0, cs@.len() as int) =~= cs@);
    if cs[cs.len() - 1] == '\n' {
        n
    } else {
        proof {
            lemma_newlines_le(cs@.drop_last());
        }
        n + 1
    }
}

/// Extract every line whose colour is in `colours`.
///
/// Colours are matched in the order given; lines are emitted in document
/// order unless `order` is [`ExtractionOrder::GroupByColour`].
pub fn extract(lines: &[EditorLine], colours: &[LineColour], order: ExtractionOrder) -> (r:
    ExtractionResult)
    ensures
        r.text@ == extracted_text(views(lines@), colours@, order),
        r.line_count == line_count_of(r.text@),
        r.char_count == r.text@.len(),
        r.per_colour@ == per_colour_counts(views(lines@), highlighted_only(colours@)),
{
    let selected = select_highlighted(colours);
    let ghost sel = selected@;
    let mut per_colour: Vec<(LineColour, usize)> = Vec::new();
    let mut i: usize = 0;
    while i < selected.len()
        invariant
            i <= sel.len(),
            sel == selected@,
            per_colour@ == per_colour_counts(views(lines@), sel).subrange(0, i as int),
        decreases sel.len() - i,
    {
        let c = selected[i];
        let earlier = contains_before(&selected, i, c);
        let n = if earlier {
            0
        } else {
            count_lines_with(lines, c)
        };
        per_colour.push((c, n));
        assert(per_colour@ =~= per_colour_counts(views(lines@), sel).subrange(0, i + 1));
        i += 1;
    }
    let text = if selected.len() == 0 {
        String::new()
    } else {
        match order {
            ExtractionOrder::Document => document_order(lines, &selected),
            ExtractionOrder::GroupByColour => grouped(lines, &selected),
        }
    };
    let cs = chars_of(text.as_str());
    let line_count = line_count(&cs);
    ExtractionResult { text, line_count, char_count: cs.len(), per_colour }
}

/// Convenience: extract into a plain `String`.
pub fn extract_text(lines: &[EditorLine], colours: &[LineColour], grouped: bool) -> (s: String)
    ensures
        s@ == extracted_text(
            views(lines@),
            colours@,
            if grouped {
                ExtractionOrder::GroupByColour
            } else {
                ExtractionOrder::Document
            },
        ),
{
    let order = if grouped {
        ExtractionOrder::GroupByColour
    } else {
        ExtractionOrder::Document
    };
    extract(lines, colours, order).text
}

/// Colours actually present in the document, in first-appearance order.
pub fn colours_present(lines: &[EditorLine]) -> (seen: Vec<LineColour>)
    ensures
        seen@ == present(views(lines@)),
{
    let mut seen: Vec<LineColour> = Vec::new();
    let mut i: usize = 0;
    while i < lines.len()
        invariant
            i <= lines@.len(),
            seen@ == present(views(lines@.subrange(0, i as int))),
        decreases lines@.len() - i,
    {
        assert(views(lines@.subrange(0, i + 1)).drop_last() =~= views(lines@.subrange(0, i as int)));
        let c = lines[i].colour;
        if c.is_highlighted() && !contains_colour(&seen, c) {
            seen.push(c);
        }
        i += 1;
    }
    assert(lines@.subrange(0, lines@.len() as int) =~= lines@);
    seen
}

} // verus!

verus! {

// ── Laws ─────────────────────────────────────────────────────────────────

/// Document-order extraction depends only on which colours are requested,
/// not on their order or on repeats: asking for a colour twice never
/// duplicates a line.
pub proof fn lemma_document_text_ignores_request_order(
    ls: Seq<LineView>,
    a: Seq<LineColour>,
    b: Seq<LineColour>,
)
    requires
        forall|c: LineColour| a.contains(c) <==> b.contains(c),
    ensures
        document_text(ls, a) == document_text(ls, b),
{
    lemma_picked_same(ls, a, b);
}

proof fn lemma_picked_same(ls: Seq<LineView>, a: Seq<LineColour>, b: Seq<LineColour>)
    requires
        forall|c: LineColour| a.contains(c) <==> b.contains(c),
    ensures
        picked_texts(ls, a) == picked_texts(ls, b),
    decreases ls.len(),
{
    if ls.len() > 0 {
        lemma_picked_same(ls.drop_last(), a, b);
        assert(a.contains(ls.last().colour) <==> b.contains(ls.last().colour));
    }
}

/// Document-order extraction of one colour yields exactly that colour's
/// lines.
pub proof fn lemma_single_colour_line_count(ls: Seq<LineView>, c: LineColour)
    ensures
        picked_texts(ls, seq![c]).len() == count_colour(ls, c),
    decreases ls.len(),
{
    if ls.len() > 0 {
        lemma_single_colour_line_count(ls.drop_last(), c);
        assert(seq![c].contains(ls.last().colour) <==> ls.last().colour == c) by {
            if ls.last().colour == c {
                assert(seq![c][0] == c);
            }
        }
    }
}

/// The colours present are distinct highlight colours, and a highlight
/// colour is listed exactly when some line carries it.
pub proof fn lemma_present_exact(ls: Seq<LineView>)
    ensures
        forall|i: int, j: int|
            0 <= i < j < present(ls).len() ==> #[trigger] present(ls)[i] != #[trigger] present(
                ls,
            )[j],
        forall|c: LineColour|
            #[trigger] present(ls).contains(c) <==> !(c is NoColour) && exists|k: int|
                0 <= k < ls.len() && (#[trigger] ls[k]).colour == c,
    decreases ls.len(),
{
    if ls.len() > 0 {
        let p = ls.drop_last();
        lemma_present_exact(p);
        let q = present(p);
        let l = ls.last().colour;
        assert forall|c: LineColour| #[trigger] present(ls).contains(c) <==> !(c is NoColour)
            && exists|k: int| 0 <= k < ls.len() && (#[trigger] ls[k]).colour == c by {
            if present(ls).contains(c) {
                let i = choose|i: int| 0 <= i < present(ls).len() && present(ls)[i] == c;
                if i < q.len() {
                    assert(present(ls)[i] == q[i]);
                    assert(q.contains(c));
                    let k = choose|k: int| 0 <= k < p.len() && (#[trigger] p[k]).colour == c;
                    assert(ls[k] == p[k]);
                } else {
                    assert(ls[ls.len() - 1].colour == c);
                }
            }
            if !(c is NoColour) && exists|k: int| 0 <= k < ls.len() && (#[trigger] ls[k]).colour
                == c {
                let k = choose|k: int| 0 <= k < ls.len() && (#[trigger] ls[k]).colour == c;
                if k < p.len() {
                    assert(p[k] == ls[k]);
                    assert(q.contains(c));
                    let i = choose|i: int| 0 <= i < q.len() && q[i] == c;
                    assert(present(ls)[i] == c);
                } else if !q.contains(c) {
                    assert(present(ls)[q.len() as int] == c);
                } else {
                    let i = choose|i: int| 0 <= i < q.len() && q[i] == c;
                    assert(present(ls)[i] == c);
                }
            }
        }
    }
}

} // verus!
