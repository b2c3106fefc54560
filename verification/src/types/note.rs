//! Values attached to stored notes: user defined swatches and the sidebar
//! snippet of a note body.

use vstd::prelude::*;

use crate::editor::line_model::split_nl;
use crate::highlight::palette::{rgba_from_hex, rgba_of_hex};
use crate::text::{string_from_chars, to_owned_string, trimmed, trimmed_chars};

verus! {

/// A user defined swatch colour.
#[derive(Debug, PartialEq, Eq)]
pub struct CustomColour {
    pub name: String,
    /// `#rrggbb`
    pub hex: String,
    /// Packed `0xRRGGBBAA`.
    pub rgba: u32,
}

/// The mathematical content of a [`CustomColour`].
pub struct CustomColourView {
    pub name: Seq<char>,
    pub hex: Seq<char>,
    pub rgba: u32,
}

impl View for CustomColour {
    type V = CustomColourView;

    open spec fn view(&self) -> CustomColourView {
        CustomColourView { name: self.name@, hex: self.hex@, rgba: self.rgba }
    }
}

impl Clone for CustomColour {
    fn clone(&self) -> (r: Self)
        ensures
            r@ == self@,
    {
        CustomColour { name: self.name.clone(), hex: self.hex.clone(), rgba: self.rgba }
    }
}

/// The packed colour a swatch gets from its hex; unreadable hex falls back
/// to opaque black.
pub open spec fn swatch_rgba(hex: Seq<char>) -> u32 {
    match rgba_of_hex(hex) {
        Some(v) => v,
        None => 0x0000_00ff,
    }
}

impl CustomColour {
    pub fn new(name: &str, hex: &str) -> (c: Self)
        ensures
            c@ == (CustomColourView { name: name@, hex: hex@, rgba: swatch_rgba(hex@) }),
    {
        let rgba = match rgba_from_hex(hex) {
            Some(v) => v,
            None => 0x0000_00ff,
        };
        CustomColour { name: to_owned_string(name), hex: to_owned_string(hex), rgba }
    }
}

// ── Snippets ─────────────────────────────────────────────────────────────

/// The first piece that is not blank, trimmed; empty when every piece is.
pub open spec fn first_nonblank(ps: Seq<Seq<char>>) -> Seq<char>
    decreases ps.len(),
{
    if ps.len() == 0 {
        Seq::empty()
    } else if trimmed(ps[0]).len() > 0 {
        trimmed(ps[0])
    } else {
        first_nonblank(ps.drop_first())
    }
}

/// The sidebar snippet: the first non-blank line, trimmed, and cut to 117
/// characters plus `...` when it is longer than 120.
pub open spec fn snippet(content: Seq<char>) -> Seq<char> {
    let first = first_nonblank(split_nl(content));
    if first.len() <= 120 {
        first
    } else {
        first.subrange(0, 117) + "..."@
    }
}

/// The first line of `content` that is not blank, trimmed.
pub fn first_nonblank_of(content: &str) -> (first: Vec<char>)
    ensures
        first@ == first_nonblank(split_nl(content@)),
{
    let cs = crate::text::chars_of(content);
    let mut pieces: Vec<Vec<char>> = Vec::new();
    let mut piece: Vec<char> = Vec::new();
    let mut i: usize = 0;
    assert(cs@.subrange(0, 0) =~= Seq::<char>::empty());
    assert(split_nl(Seq::<char>::empty()) =~= pieces@.map_values(|p: Vec<char>| p@).push(piece@));
    while i < cs.len()
        invariant
            cs@ == content@,
            i <= cs@.len(),
            split_nl(cs@.subrange(0, i as int)) == pieces@.map_values(|p: Vec<char>| p@).push(
                piece@,
            ),
        decreases cs@.len() - i,
    {
        let ghost pre = cs@.subrange(0, i as int);
        let ghost nxt = cs@.subrange(0, i + 1);
        assert(nxt.drop_last() =~= pre);
        let ghost before = pieces@.map_values(|p: Vec<char>| p@);
        if cs[i] == '\n' {
            pieces.push(piece);
            piece = Vec::new();
            assert(pieces@.map_values(|p: Vec<char>| p@) =~= before.push(
                pieces@[pieces@.len() - 1]@,
            ));
            assert(split_nl(nxt) =~= pieces@.map_values(|p: Vec<char>| p@).push(piece@));
        } else {
            piece.push(cs[i]);
            assert(split_nl(nxt) =~= pieces@.map_values(|p: Vec<char>| p@).push(piece@));
        }
        i += 1;
    }
    pieces.push(piece);
    let ghost all = pieces@.map_values(|p: Vec<char>| p@);
    assert(cs@.subrange(0, cs@.len() as int) =~= cs@);
    assert(all =~= split_nl(content@));
    let mut first: Vec<char> = Vec::new();
    let mut k: usize = 0;
    assert(all.subrange(0, all.len() as int) =~= all);
    while k < pieces.len()
        invariant_except_break
            k <= pieces@.len(),
            first_nonblank(all) == first_nonblank(all.subrange(k as int, all.len() as int)),
            first@ == Seq::<char>::empty(),
        invariant
            all == pieces@.map_values(|p: Vec<char>| p@),
        ensures
            first@ == first_nonblank(all),
        decreases pieces@.len() - k,
    {
        let t = trimmed_chars(&pieces[k]);
        let ghost tail = all.subrange(k as int, all.len() as int);
        assert(tail[0] == pieces@[k as int]@);
        if k + 1 == pieces.len() {
            assert(tail.drop_first() =~= Seq::<Seq<char>>::empty());
        }
        if t.len() > 0 {
            first = t;
            break;
        }
        assert(tail.drop_first() =~= all.subrange(k + 1, all.len() as int));
        k += 1;
    }
    first
}

/// First non-empty line, trimmed and clamped to 120 characters.
pub fn snippet_of(content: &str) -> (s: String)
    ensures
        s@ == snippet(content@),
{
    let first = first_nonblank_of(content);
    if first.len() <= 120 {
        string_from_chars(&first)
    } else {
        let mut head: Vec<char> = Vec::new();
        let mut j: usize = 0;
        while j < 117
            invariant
                j <= 117,
                first@.len() > 120,
                head@ == first@.subrange(0, j as int),
            decreases 117 - j,
        {
            head.push(first[j]);
            j += 1;
        }
        let mut s = string_from_chars(&head);
        crate::text::push_str(&mut s, "...");
        s
    }
}

} // verus!
