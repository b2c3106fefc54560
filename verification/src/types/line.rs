//! The line model — the single most important data structure in the app.
//!
//! A document is a `Vec<EditorLine>`. Every line owns its own text, highlight
//! colour, list marker and indent depth, which is what makes per-line colour
//! bands, list markers and colour extraction trivial.

use vstd::prelude::*;

use crate::highlight::palette::{hex_from_rgba, hex_of_rgba, rgba_from_hex, rgba_of_hex};
use crate::text::{is_white_space, str_eq, to_owned_string};

verus! {

/// Maximum nesting depth for list items (0..=5).
pub const MAX_INDENT: u8 = 5;

/// The highlight colour of a single line.
///
/// `NoColour` is the default and stays the first variant.
#[derive(Debug, Clone, Copy, PartialEq, Eq, Hash, Structural)]
pub enum LineColour {
    NoColour,
    Yellow,
    Green,
    Pink,
    Blue,
    Orange,
    Purple,
    /// A user defined colour, stored as packed `0xRRGGBBAA`.
    Custom(u32),
}

impl Default for LineColour {
    fn default() -> (r: Self)
        ensures
            r == LineColour::NoColour,
    {
        LineColour::NoColour
    }
}

/// Stable, lower-case identifier of a colour; custom colours are named by
/// their `#rrggbb` hex.
pub open spec fn colour_key(c: LineColour) -> Seq<char> {
    match c {
        LineColour::NoColour => "none"@,
        LineColour::Yellow => "yellow"@,
        LineColour::Green => "green"@,
        LineColour::Pink => "pink"@,
        LineColour::Blue => "blue"@,
        LineColour::Orange => "orange"@,
        LineColour::Purple => "purple"@,
        LineColour::Custom(rgba) => hex_of_rgba(rgba),
    }
}

/// Inverse of [`colour_key`]; unknown keys map to `None`.
pub open spec fn colour_from_key(k: Seq<char>) -> LineColour {
    if k == "yellow"@ {
        LineColour::Yellow
    } else if k == "green"@ {
        LineColour::Green
    } else if k == "pink"@ {
        LineColour::Pink
    } else if k == "blue"@ {
        LineColour::Blue
    } else if k == "orange"@ {
        LineColour::Orange
    } else if k == "purple"@ {
        LineColour::Purple
    } else if k.len() > 0 && k[0] == '#' {
        match rgba_of_hex(k) {
            Some(v) => LineColour::Custom(v),
            None => LineColour::NoColour,
        }
    } else {
        LineColour::NoColour
    }
}

/// Packed swatch of a colour.
pub open spec fn colour_rgba(c: LineColour) -> u32 {
    match c {
        LineColour::NoColour => 0x0000_0000,
        LineColour::Yellow => 0xffe2_7aff,
        LineColour::Green => 0xa8e6_a1ff,
        LineColour::Pink => 0xffb3_d1ff,
        LineColour::Blue => 0xa3d5_ffff,
        LineColour::Orange => 0xffc0_8aff,
        LineColour::Purple => 0xd5b3_ffff,
        LineColour::Custom(rgba) => rgba,
    }
}

/// Display name of a colour.
pub open spec fn colour_name(c: LineColour) -> Seq<char> {
    match c {
        LineColour::NoColour => "None"@,
        LineColour::Yellow => "Yellow"@,
        LineColour::Green => "Green"@,
        LineColour::Pink => "Pink"@,
        LineColour::Blue => "Blue"@,
        LineColour::Orange => "Orange"@,
        LineColour::Purple => "Purple"@,
        LineColour::Custom(rgba) => hex_of_rgba(rgba),
    }
}

impl LineColour {
    /// `true` when the line carries a visible highlight band.
    pub fn is_highlighted(self) -> (r: bool)
        ensures
            r == !(self is NoColour),
    {
        match self {
            LineColour::NoColour => false,
            _ => true,
        }
    }

    /// Stable, lower-case identifier used in settings and the UI.
    ///
    /// Custom colours are identified by their hex value, e.g. `#ff8800`.
    pub fn key(self) -> (s: String)
        ensures
            s@ == colour_key(self),
    {
        match self {
            LineColour::NoColour => to_owned_string("none"),
            LineColour::Yellow => to_owned_string("yellow"),
            LineColour::Green => to_owned_string("green"),
            LineColour::Pink => to_owned_string("pink"),
            LineColour::Blue => to_owned_string("blue"),
            LineColour::Orange => to_owned_string("orange"),
            LineColour::Purple => to_owned_string("purple"),
            LineColour::Custom(rgba) => hex_from_rgba(rgba),
        }
    }

    /// Parse the inverse of [`LineColour::key`]. Unknown keys map to `None`.
    pub fn from_key(key: &str) -> (c: LineColour)
        ensures
            c == colour_from_key(key@),
    {
        if str_eq(key, "yellow") {
            LineColour::Yellow
        } else if str_eq(key, "green") {
            LineColour::Green
        } else if str_eq(key, "pink") {
            LineColour::Pink
        } else if str_eq(key, "blue") {
            LineColour::Blue
        } else if str_eq(key, "orange") {
            LineColour::Orange
        } else if str_eq(key, "purple") {
            LineColour::Purple
        } else if crate::text::starts_with(key, "#") {
            proof {
                reveal_strlit("#");
                assert(key@[0] == key@.subrange(0, 1)[0]);
            }
            match rgba_from_hex(key) {
                Some(v) => LineColour::Custom(v),
                None => LineColour::NoColour,
            }
        } else {
            proof {
                reveal_strlit("#");
                if key@.len() > 0 && key@[0] == '#' {
                    assert(key@.subrange(0, 1) =~= "#"@);
                }
            }
            LineColour::NoColour
        }
    }

    /// Built-in swatch colours as packed `0xRRGGBBAA`. Custom colours are
    /// returned unchanged.
    pub fn builtin_rgba(self) -> (r: u32)
        ensures
            r == colour_rgba(self),
    {
        match self {
            LineColour::NoColour => 0x0000_0000,
            LineColour::Yellow => 0xffe2_7aff,
            LineColour::Green => 0xa8e6_a1ff,
            LineColour::Pink => 0xffb3_d1ff,
            LineColour::Blue => 0xa3d5_ffff,
            LineColour::Orange => 0xffc0_8aff,
            LineColour::Purple => 0xd5b3_ffff,
            LineColour::Custom(rgba) => rgba,
        }
    }

    /// Display name used in the extract panel and status summaries.
    pub fn display_name(self) -> (s: String)
        ensures
            s@ == colour_name(self),
    {
        match self {
            LineColour::NoColour => to_owned_string("None"),
            LineColour::Yellow => to_owned_string("Yellow"),
            LineColour::Green => to_owned_string("Green"),
            LineColour::Pink => to_owned_string("Pink"),
            LineColour::Blue => to_owned_string("Blue"),
            LineColour::Orange => to_owned_string("Orange"),
            LineColour::Purple => to_owned_string("Purple"),
            LineColour::Custom(rgba) => hex_from_rgba(rgba),
        }
    }
}

/// The list marker drawn in front of a line.
#[derive(Debug, Clone, Copy, PartialEq, Eq, Hash, Structural)]
pub enum ListType {
    NoList,
    Bullet,
    Number,
    Check,
}

impl Default for ListType {
    fn default() -> (r: Self)
        ensures
            r == ListType::NoList,
    {
        ListType::NoList
    }
}

/// Stable identifier of a list type.
pub open spec fn list_key(t: ListType) -> Seq<char> {
    match t {
        ListType::NoList => "none"@,
        ListType::Bullet => "bullet"@,
        ListType::Number => "number"@,
        ListType::Check => "check"@,
    }
}

/// Inverse of [`list_key`]; unknown keys map to `None`.
pub open spec fn list_from_key(k: Seq<char>) -> ListType {
    if k == "bullet"@ {
        ListType::Bullet
    } else if k == "number"@ {
        ListType::Number
    } else if k == "check"@ {
        ListType::Check
    } else {
        ListType::NoList
    }
}

impl ListType {
    pub fn key(self) -> (s: &'static str)
        ensures
            s@ == list_key(self),
    {
        match self {
            ListType::NoList => "none",
            ListType::Bullet => "bullet",
            ListType::Number => "number",
            ListType::Check => "check",
        }
    }

    pub fn from_key(key: &str) -> (t: ListType)
        ensures
            t == list_from_key(key@),
    {
        if str_eq(key, "bullet") {
            ListType::Bullet
        } else if str_eq(key, "number") {
            ListType::Number
        } else if str_eq(key, "check") {
            ListType::Check
        } else {
            ListType::NoList
        }
    }
}

/// A coloured span *inside* a line. Spans are persisted and round-tripped but
/// rendered as the full-line colour band.
#[derive(Debug, Clone, Copy, PartialEq, Eq, Structural)]
pub struct InlineSpan {
    /// Byte offset of the first character.
    pub start: usize,
    /// Byte offset just past the last character.
    pub end: usize,
    pub colour: LineColour,
}

/// One line of a document.
#[derive(Debug, PartialEq)]
pub struct EditorLine {
    pub text: String,
    pub colour: LineColour,
    pub list_type: ListType,
    /// Nesting depth, clamped to `0..=MAX_INDENT`.
    pub indent: u8,
    /// Only meaningful for [`ListType::Check`].
    pub checked: bool,
    /// Resolved display number for [`ListType::Number`].
    pub number: u32,
    pub inline_spans: Vec<InlineSpan>,
}

/// The mathematical content of an [`EditorLine`].
#[verifier::ext_equal]
pub struct LineView {
    pub text: Seq<char>,
    pub colour: LineColour,
    pub list_type: ListType,
    pub indent: u8,
    pub checked: bool,
    pub number: u32,
    pub spans: Seq<InlineSpan>,
}

impl View for EditorLine {
    type V = LineView;

    open spec fn view(&self) -> LineView {
        LineView {
            text: self.text@,
            colour: self.colour,
            list_type: self.list_type,
            indent: self.indent,
            checked: self.checked,
            number: self.number,
            spans: self.inline_spans@,
        }
    }
}

/// A plain line holding `text`.
pub open spec fn plain_line(text: Seq<char>) -> LineView {
    LineView {
        text,
        colour: LineColour::NoColour,
        list_type: ListType::NoList,
        indent: 0,
        checked: false,
        number: 0,
        spans: Seq::empty(),
    }
}

/// The views of a slice of lines.
pub open spec fn views(lines: Seq<EditorLine>) -> Seq<LineView> {
    lines.map_values(|l: EditorLine| l@)
}

impl Clone for EditorLine {
    fn clone(&self) -> (r: Self)
        ensures
            r@ == self@,
    {
        let spans = self.inline_spans.clone();
        assert(spans@ =~= self.inline_spans@);
        EditorLine {
            text: self.text.clone(),
            colour: self.colour,
            list_type: self.list_type,
            indent: self.indent,
            checked: self.checked,
            number: self.number,
            inline_spans: spans,
        }
    }
}

impl Default for EditorLine {
    fn default() -> (r: Self)
        ensures
            r@ == plain_line(Seq::empty()),
    {
        proof {
            reveal_strlit("");
        }
        EditorLine::new("")
    }
}

/// Count of maximal runs of non-whitespace characters.
pub open spec fn word_count_of(s: Seq<char>) -> nat
    decreases s.len(),
{
    if s.len() == 0 {
        0
    } else {
        let starts_word = !is_white_space(s.last()) && (s.len() == 1 || is_white_space(
            s[s.len() - 2],
        ));
        word_count_of(s.drop_last()) + if starts_word {
            1nat
        } else {
            0nat
        }
    }
}

/// What [`EditorLine::normalise`] does to a line.
pub open spec fn normalised(l: LineView) -> LineView {
    let indent = if l.list_type is NoList {
        0u8
    } else if l.indent > MAX_INDENT {
        MAX_INDENT
    } else {
        l.indent
    };
    LineView { indent, checked: l.checked && l.list_type is Check, ..l }
}

/// Word count of a character sequence, the status bar's rule.
pub fn count_words(cs: &[char]) -> (n: usize)
    ensures
        n == word_count_of(cs@),
{
    let mut n: usize = 0;
    let mut i: usize = 0;
    let mut prev_ws = true;
    while i < cs.len()
        invariant
            i <= cs@.len(),
            n == word_count_of(cs@.subrange(0, i as int)),
            n <= i,
            prev_ws == (i == 0 || is_white_space(cs@[i - 1])),
        decreases cs@.len() - i,
    {
        let ws = crate::text::is_whitespace(cs[i]);
        let ghost pre = cs@.subrange(0, i + 1);
        assert(pre.drop_last() =~= cs@.subrange(0, i as int));
        if i > 0 {
            assert(pre[pre.len() - 2] == cs@[i - 1]);
        }
        if !ws && prev_ws {
            n += 1;
        }
        prev_ws = ws;
        i += 1;
    }
    assert(cs@.subrange(0, cs@.len() as int) =~= cs@);
    n
}

impl EditorLine {
    /// A plain line with the given text.
    pub fn new(text: &str) -> (l: Self)
        ensures
            l@ == plain_line(text@),
    {
        let spans: Vec<InlineSpan> = Vec::new();
        let l = EditorLine {
            text: to_owned_string(text),
            colour: LineColour::NoColour,
            list_type: ListType::NoList,
            indent: 0,
            checked: false,
            number: 0,
            inline_spans: spans,
        };
        assert(l@ =~= plain_line(text@));
        l
    }

    pub fn is_empty(&self) -> (r: bool)
        ensures
            r == (self.text@.len() == 0),
    {
        self.text.as_str().is_empty()
    }

    /// Character length (not byte length) — used for the status bar column.
    pub fn char_len(&self) -> (n: usize)
        ensures
            n == self.text@.len(),
    {
        crate::text::chars_of(self.text.as_str()).len()
    }

    /// Word count using the same rule as the status bar.
    pub fn word_count(&self) -> (n: usize)
        ensures
            n == word_count_of(self.text@),
    {
        let cs = crate::text::chars_of(self.text.as_str());
        count_words(&cs)
    }

    /// Clamp the indent into range and clear flags that only list lines (or
    /// only checkbox lines) may carry.
    pub fn normalise(&mut self)
        ensures
            final(self)@ == normalised(old(self)@),
    {
        if self.indent > MAX_INDENT {
            self.indent = MAX_INDENT;
        }
        if self.list_type == ListType::NoList {
            self.indent = 0;
            self.checked = false;
        }
        if self.list_type != ListType::Check {
            self.checked = false;
        }
    }
}

} // verus!

verus! {

/// Field-by-field equality of two lines (their views agree).
pub fn line_eq(a: &EditorLine, b: &EditorLine) -> (r: bool)
    ensures
        r == (a@ == b@),
{
    if a.text != b.text || a.colour != b.colour || a.list_type != b.list_type || a.indent
        != b.indent || a.checked != b.checked || a.number != b.number {
        return false;
    }
    if a.inline_spans.len() != b.inline_spans.len() {
        return false;
    }
    let mut i: usize = 0;
    while i < a.inline_spans.len()
        invariant
            a.inline_spans@.len() == b.inline_spans@.len(),
            i <= a.inline_spans@.len(),
            forall|j: int| 0 <= j < i ==> a.inline_spans@[j] == b.inline_spans@[j],
        decreases a.inline_spans@.len() - i,
    {
        if a.inline_spans[i] != b.inline_spans[i] {
            return false;
        }
        i += 1;
    }
    assert(a.inline_spans@ =~= b.inline_spans@);
    assert(a@ =~= b@);
    true
}

/// Equality of two documents, line by line.
pub fn lines_eq(a: &[EditorLine], b: &[EditorLine]) -> (r: bool)
    ensures
        r == (views(a@) == views(b@)),
{
    if a.len() != b.len() {
        assert(views(a@).len() != views(b@).len());
        return false;
    }
    let mut i: usize = 0;
    while i < a.len()
        invariant
            a@.len() == b@.len(),
            i <= a@.len(),
            forall|j: int| 0 <= j < i ==> a@[j]@ == b@[j]@,
        decreases a@.len() - i,
    {
        if !line_eq(&a[i], &b[i]) {
            assert(views(a@)[i as int] != views(b@)[i as int]);
            return false;
        }
        i += 1;
    }
    assert(views(a@) =~= views(b@));
    true
}

/// A deep copy of a document.
pub fn clone_lines(v: &[EditorLine]) -> (r: Vec<EditorLine>)
    ensures
        views(r@) == views(v@),
        r@.len() == v@.len(),
{
    let mut r: Vec<EditorLine> = Vec::new();
    let mut i: usize = 0;
    while i < v.len()
        invariant
            i <= v@.len(),
            r@.len() == i,
            forall|j: int| 0 <= j < i ==> r@[j]@ == v@[j]@,
        decreases v@.len() - i,
    {
        r.push(v[i].clone());
        i += 1;
    }
    assert(views(r@) =~= views(v@));
    r
}

} // verus!

verus! {

/// Reading a colour's key gives the colour back; a custom colour needs a
/// full alpha byte, because its key (`#rrggbb`) carries no alpha.
pub proof fn lemma_colour_key_roundtrip(c: LineColour)
    requires
        c matches LineColour::Custom(v) ==> v % 256 == 255,
    ensures
        colour_from_key(colour_key(c)) == c,
{
    reveal_strlit("none");
    reveal_strlit("yellow");
    reveal_strlit("green");
    reveal_strlit("pink");
    reveal_strlit("blue");
    reveal_strlit("orange");
    reveal_strlit("purple");
    assert("none"@.len() == 4 && "yellow"@.len() == 6 && "green"@.len() == 5);
    assert("pink"@.len() == 4 && "blue"@.len() == 4 && "orange"@.len() == 6);
    assert("purple"@.len() == 6);
    assert("none"@[0] == 'n' && "pink"@[0] == 'p' && "blue"@[0] == 'b');
    assert("yellow"@[0] == 'y' && "orange"@[0] == 'o' && "purple"@[0] == 'p');
    assert("pink"@[1] == 'i' && "purple"@[1] == 'u');
    if let LineColour::Custom(v) = c {
        crate::highlight::palette::lemma_hex_roundtrip(v);
        let h = hex_of_rgba(v);
        assert(h[0] == '#');
        assert(h.len() == 7);
    }
}

/// Reading a list type's key gives the list type back.
pub proof fn lemma_list_key_roundtrip(t: ListType)
    ensures
        list_from_key(list_key(t)) == t,
{
    reveal_strlit("none");
    reveal_strlit("bullet");
    reveal_strlit("number");
    reveal_strlit("check");
    assert("none"@.len() == 4 && "bullet"@.len() == 6 && "number"@.len() == 6);
    assert("check"@.len() == 5 && "bullet"@[0] == 'b' && "number"@[0] == 'n');
}

} // verus!
