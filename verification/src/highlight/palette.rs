//! The highlight palette: six built-ins plus unlimited custom colours, and
//! the `#rrggbb` <-> packed `0xRRGGBBAA` conversions.

use vstd::prelude::*;

use crate::json::{
    items_view, json_shape, json_text, keys_distinct, lemma_decimal_parses, lemma_lookup_member,
    lemma_lookup_same_members, lookup,
    members_view, parse_json, parse_usize, parsed_usize, render_json, same_members, JsonScalar,
    JsonShape, ScalarView, ShapeView,
};
use crate::text::{byte_len, chars_of, decimal, decimal_string, str_eq, to_owned_string, utf8_width};
use crate::types::line::{
    colour_from_key, colour_key, colour_name, colour_rgba, list_from_key, list_key,
    lemma_colour_key_roundtrip, lemma_list_key_roundtrip, views, EditorLine, LineColour, LineView,
    ListType, MAX_INDENT,
};
use crate::types::note::{CustomColour, CustomColourView};

verus! {

// ── Hex digits ───────────────────────────────────────────────────────────

/// Lower-case hex digit for `d` in `0..16`.
pub open spec fn hex_char(d: int) -> char {
    if d == 0 {
        '0'
    } else if d == 1 {
        '1'
    } else if d == 2 {
        '2'
    } else if d == 3 {
        '3'
    } else if d == 4 {
        '4'
    } else if d == 5 {
        '5'
    } else if d == 6 {
        '6'
    } else if d == 7 {
        '7'
    } else if d == 8 {
        '8'
    } else if d == 9 {
        '9'
    } else if d == 10 {
        'a'
    } else if d == 11 {
        'b'
    } else if d == 12 {
        'c'
    } else if d == 13 {
        'd'
    } else if d == 14 {
        'e'
    } else {
        'f'
    }
}

/// The lower-case hex digit for `d` in `0..16`.
pub fn hex_digit_char(d: u32) -> (c: char)
    requires
        d < 16,
    ensures
        c == hex_char(d as int),
{
    if d == 0 {
        '0'
    } else if d == 1 {
        '1'
    } else if d == 2 {
        '2'
    } else if d == 3 {
        '3'
    } else if d == 4 {
        '4'
    } else if d == 5 {
        '5'
    } else if d == 6 {
        '6'
    } else if d == 7 {
        '7'
    } else if d == 8 {
        '8'
    } else if d == 9 {
        '9'
    } else if d == 10 {
        'a'
    } else if d == 11 {
        'b'
    } else if d == 12 {
        'c'
    } else if d == 13 {
        'd'
    } else if d == 14 {
        'e'
    } else {
        'f'
    }
}

/// `true` for `0-9`, `a-f` and `A-F`.
pub open spec fn is_hex_digit(c: char) -> bool {
    ('0' <= c && c <= '9') || ('a' <= c && c <= 'f') || ('A' <= c && c <= 'F')
}

/// Numeric value of a hex digit.
pub open spec fn hex_val(c: char) -> int {
    if '0' <= c && c <= '9' {
        c as int - '0' as int
    } else if 'a' <= c && c <= 'f' {
        c as int - 'a' as int + 10
    } else {
        c as int - 'A' as int + 10
    }
}

/// Every character is a hex digit.
pub open spec fn all_hex(s: Seq<char>) -> bool {
    forall|i: int| 0 <= i < s.len() ==> is_hex_digit(#[trigger] s[i])
}

/// Big-endian value of a run of hex digits.
pub open spec fn hex_number(s: Seq<char>) -> int
    decreases s.len(),
{
    if s.len() == 0 {
        0
    } else {
        hex_number(s.drop_last()) * 16 + hex_val(s.last())
    }
}

/// `u32::from_str_radix(s, 16)` on at most eight characters: an optional
/// leading `+`, then one or more hex digits.
pub open spec fn radix16(s: Seq<char>) -> Option<int> {
    let body = if s.len() > 1 && s[0] == '+' {
        s.drop_first()
    } else {
        s
    };
    if body.len() > 0 && all_hex(body) {
        Some(hex_number(body))
    } else {
        None
    }
}

proof fn lemma_hex_number_bound(s: Seq<char>)
    requires
        all_hex(s),
    ensures
        0 <= hex_number(s) < pow16(s.len()),
    decreases s.len(),
{
    if s.len() > 0 {
        assert(all_hex(s.drop_last())) by {
            assert forall|i: int| 0 <= i < s.drop_last().len() implies is_hex_digit(
                #[trigger] s.drop_last()[i],
            ) by {
                assert(s.drop_last()[i] == s[i]);
            }
        }
        lemma_hex_number_bound(s.drop_last());
        assert(is_hex_digit(s[s.len() - 1]));
        assert(pow16(s.len()) == pow16((s.len() - 1) as nat) * 16);
    }
}

/// `16^n`.
pub open spec fn pow16(n: nat) -> int
    decreases n,
{
    if n == 0 {
        1
    } else {
        pow16((n - 1) as nat) * 16
    }
}

/// Parse at most eight characters the way `u32::from_str_radix(_, 16)` does.
pub(crate) fn parse_radix16(s: &[char]) -> (r: Option<u32>)
    requires
        s@.len() <= 8,
    ensures
        match radix16(s@) {
            Some(v) => r == Some(v as u32) && v < 0x1_0000_0000,
            None => r is None,
        },
{
    let start: usize = if s.len() > 1 && s[0] == '+' {
        1
    } else {
        0
    };
    let ghost body = s@.subrange(start as int, s@.len() as int);
    proof {
        if s@.len() > 1 && s@[0] == '+' {
            assert(body =~= s@.drop_first());
        } else {
            assert(body =~= s@);
        }
    }
    if start >= s.len() {
        return None;
    }
    let mut acc: u32 = 0;
    let mut i: usize = start;
    while i < s.len()
        invariant
            start <= i <= s@.len(),
            s@.len() <= 8,
            start == (if s@.len() > 1 && s@[0] == '+' { 1usize } else { 0usize }),
            body == s@.subrange(start as int, s@.len() as int),
            all_hex(s@.subrange(start as int, i as int)),
            acc as int == hex_number(s@.subrange(start as int, i as int)),
            acc < pow16((i - start) as nat),
        decreases s@.len() - i,
    {
        let c = s[i];
        let ghost prev = s@.subrange(start as int, i as int);
        let ghost next = s@.subrange(start as int, i + 1);
        assert(next.drop_last() =~= prev);
        let d: u32 = if '0' <= c && c <= '9' {
            (c as u32) - ('0' as u32)
        } else if 'a' <= c && c <= 'f' {
            (c as u32) - ('a' as u32) + 10
        } else if 'A' <= c && c <= 'F' {
            (c as u32) - ('A' as u32) + 10
        } else {
            proof {
                assert(!is_hex_digit(body[i - start]));
                assert(!all_hex(body));
                if s@.len() > 1 && s@[0] == '+' {
                    assert(body =~= s@.drop_first());
                } else {
                    assert(body =~= s@);
                }
                assert(radix16(s@) is None);
            }
            return None;
        };
        assert(pow16((i + 1 - start) as nat) == pow16((i - start) as nat) * 16);
        assert(pow16((i - start) as nat) <= pow16(7)) by {
            lemma_pow16_mono((i - start) as nat, 7);
        }
        assert(pow16(7) == 0x1000_0000) by {
            reveal_with_fuel(pow16, 8);
        }
        acc = acc * 16 + d;
        i += 1;
        assert(all_hex(next)) by {
            assert forall|j: int| 0 <= j < next.len() implies is_hex_digit(#[trigger] next[j]) by {
                if j < prev.len() {
                    assert(next[j] == prev[j]);
                }
            }
        }
    }
    assert(s@.subrange(start as int, s@.len() as int) == body);
    assert(pow16((s@.len() - start) as nat) <= pow16(8)) by {
        lemma_pow16_mono((s@.len() - start) as nat, 8);
    }
    assert(pow16(8) == 0x1_0000_0000) by {
        reveal_with_fuel(pow16, 9);
    }
    Some(acc)
}

proof fn lemma_pow16_mono(a: nat, b: nat)
    requires
        a <= b,
    ensures
        pow16(a) <= pow16(b),
        pow16(a) >= 1,
    decreases b,
{
    if a < b {
        lemma_pow16_mono(a, (b - 1) as nat);
    } else if a > 0 {
        lemma_pow16_mono((a - 1) as nat, (a - 1) as nat);
    }
}

} // verus!

verus! {

// ── Packed colours ───────────────────────────────────────────────────────

/// `#rrggbb` for a packed `0xRRGGBBAA` (the alpha byte is dropped).
pub open spec fn hex_of_rgba(rgba: u32) -> Seq<char> {
    let v = rgba as int / 256;
    seq![
        '#',
        hex_char(v / 0x100000 % 16),
        hex_char(v / 0x10000 % 16),
        hex_char(v / 0x1000 % 16),
        hex_char(v / 0x100 % 16),
        hex_char(v / 0x10 % 16),
        hex_char(v % 16),
    ]
}

/// `0xRRGGBBAA` -> `#rrggbb`.
pub fn hex_from_rgba(rgba: u32) -> (s: String)
    ensures
        s@ == hex_of_rgba(rgba),
{
    let v = rgba / 256;
    let mut s = String::new();
    s.push('#');
    s.push(hex_digit_char(v / 0x100000 % 16));
    s.push(hex_digit_char(v / 0x10000 % 16));
    s.push(hex_digit_char(v / 0x1000 % 16));
    s.push(hex_digit_char(v / 0x100 % 16));
    s.push(hex_digit_char(v / 0x10 % 16));
    s.push(hex_digit_char(v % 16));
    assert(s@ =~= hex_of_rgba(rgba));
    s
}

/// The text after an optional leading `#`.
pub open spec fn strip_hash(s: Seq<char>) -> Seq<char> {
    if s.len() > 0 && s[0] == '#' {
        s.drop_first()
    } else {
        s
    }
}

/// `#rgb`, `#rrggbb` or `#rrggbbaa` (the `#` optional) to packed
/// `0xRRGGBBAA`: exactly 3, 6 or 8 hex digits, anything else is `None`.
pub open spec fn rgba_of_hex(s: Seq<char>) -> Option<u32> {
    let d = strip_hash(s);
    if !all_hex(d) {
        None
    } else if d.len() == 3 {
        Some(
            (hex_val(d[0]) * 17 * 0x100_0000 + hex_val(d[1]) * 17 * 0x1_0000 + hex_val(d[2]) * 17
                * 0x100 + 0xff) as u32,
        )
    } else if d.len() == 6 {
        Some((hex_number(d) * 256 + 255) as u32)
    } else if d.len() == 8 {
        Some(hex_number(d) as u32)
    } else {
        None
    }
}

fn hex_digit_value(c: char) -> (r: Option<u32>)
    ensures
        is_hex_digit(c) ==> r == Some(hex_val(c) as u32) && hex_val(c) < 16,
        !is_hex_digit(c) ==> r is None,
{
    if '0' <= c && c <= '9' {
        Some((c as u32) - ('0' as u32))
    } else if 'a' <= c && c <= 'f' {
        Some((c as u32) - ('a' as u32) + 10)
    } else if 'A' <= c && c <= 'F' {
        Some((c as u32) - ('A' as u32) + 10)
    } else {
        None
    }
}

/// Byte length of `cs`, saturated at 9 (enough to tell 3, 6 and 8 apart).
pub(crate) fn byte_len_upto9(cs: &[char]) -> (n: usize)
    ensures
        n == if byte_len(cs@) < 9 { byte_len(cs@) } else { 9 },
{
    let mut n: usize = 0;
    let mut i: usize = 0;
    while i < cs.len()
        invariant
            i <= cs@.len(),
            n == byte_len(cs@.subrange(0, i as int)),
            n < 9,
        decreases cs@.len() - i,
    {
        proof {
            crate::text::lemma_byte_len_push(cs@, i as int);
        }
        n = n + crate::text::char_width(cs[i]);
        i += 1;
        if n >= 9 {
            proof {
                let full = cs@;
                assert(full =~= full.subrange(0, i as int) + full.subrange(i as int, full.len() as int));
                crate::text::lemma_byte_len_concat(full.subrange(0, i as int), full.subrange(i as int, full.len() as int));
            }
            return 9;
        }
    }
    assert(cs@.subrange(0, cs@.len() as int) =~= cs@);
    n
}

/// `#rgb`, `#rrggbb` or `#rrggbbaa` -> `0xRRGGBBAA`.
pub fn rgba_from_hex(hex: &str) -> (r: Option<u32>)
    ensures
        r == rgba_of_hex(hex@),
{
    let all = chars_of(hex);
    let digits: Vec<char> = if all.len() > 0 && all[0] == '#' {
        let mut d: Vec<char> = Vec::new();
        let mut i: usize = 1;
        while i < all.len()
            invariant
                1 <= i <= all@.len(),
                d@ == all@.subrange(1, i as int),
            decreases all@.len() - i,
        {
            d.push(all[i]);
            i += 1;
        }
        d
    } else {
        all.clone()
    };
    assert(digits@ =~= strip_hash(hex@));
    let n = digits.len();
    if n != 3 && n != 6 && n != 8 {
        return None;
    }
    let mut i: usize = 0;
    while i < n
        invariant
            i <= n == digits@.len(),
            digits@ == strip_hash(hex@),
            n == 3 || n == 6 || n == 8,
            forall|j: int| 0 <= j < i ==> is_hex_digit(#[trigger] digits@[j]),
        decreases n - i,
    {
        if hex_digit_value(digits[i]).is_none() {
            assert(!all_hex(digits@));
            return None;
        }
        i += 1;
    }
    assert(all_hex(digits@));
    if n == 3 {
        let r = hex_digit_value(digits[0]).unwrap();
        let g = hex_digit_value(digits[1]).unwrap();
        let b = hex_digit_value(digits[2]).unwrap();
        Some(r * 17 * 0x100_0000 + g * 17 * 0x1_0000 + b * 17 * 0x100 + 0xff)
    } else {
        proof {
            assert(is_hex_digit(digits@[0]));
            assert(radix16(digits@) == Some(hex_number(digits@)));
            lemma_hex_number_bound(digits@);
            if n == 6 {
                assert(pow16(6) == 0x100_0000) by {
                    reveal_with_fuel(pow16, 7);
                }
            }
        }
        match parse_radix16(&digits) {
            Some(v) => if n == 6 {
                Some(v * 256 + 255)
            } else {
                Some(v)
            },
            None => None,
        }
    }
}

/// Split a packed colour into 0-255 channels.
pub open spec fn channels_of(rgba: u32) -> (u8, u8, u8, u8) {
    (
        (rgba as int / 0x100_0000 % 256) as u8,
        (rgba as int / 0x1_0000 % 256) as u8,
        (rgba as int / 0x100 % 256) as u8,
        (rgba as int % 256) as u8,
    )
}

/// Split a packed colour into 0-255 channels.
pub fn channels(rgba: u32) -> (r: (u8, u8, u8, u8))
    ensures
        r == channels_of(rgba),
{
    (
        (rgba / 0x100_0000 % 256) as u8,
        (rgba / 0x1_0000 % 256) as u8,
        (rgba / 0x100 % 256) as u8,
        (rgba % 256) as u8,
    )
}

} // verus!

verus! {

// ── Themes ───────────────────────────────────────────────────────────────

/// The seven themes, in menu order.
pub open spec fn theme_names() -> Seq<Seq<char>> {
    seq![
        "light"@,
        "dark"@,
        "glass-dark"@,
        "clay-light"@,
        "clay-dark"@,
        "neu-light"@,
        "neu-dark"@,
    ]
}

/// The light-family themes, which the dark-twin toggle starts from.
pub open spec fn light_theme_names() -> Seq<Seq<char>> {
    seq!["light"@, "clay-light"@, "neu-light"@]
}

/// The seven themes, in menu order.
pub fn themes() -> (v: Vec<&'static str>)
    ensures
        v@.map_values(|s: &str| s@) == theme_names(),
{
    let v = vec!["light", "dark", "glass-dark", "clay-light", "clay-dark", "neu-light", "neu-dark"];
    assert(v@.map_values(|s: &str| s@) =~= theme_names());
    v
}

/// The light-family themes.
pub fn light_themes() -> (v: Vec<&'static str>)
    ensures
        v@.map_values(|s: &str| s@) == light_theme_names(),
{
    let v = vec!["light", "clay-light", "neu-light"];
    assert(v@.map_values(|s: &str| s@) =~= light_theme_names());
    v
}

pub fn is_known_theme(name: &str) -> (r: bool)
    ensures
        r == theme_names().contains(name@),
{
    let all = themes();
    let ghost names = theme_names();
    let mut i: usize = 0;
    while i < all.len()
        invariant
            i <= all@.len(),
            all@.map_values(|s: &str| s@) == names,
            names == theme_names(),
            forall|j: int| 0 <= j < i ==> names[j] != name@,
        decreases all@.len() - i,
    {
        if crate::text::str_eq(all[i], name) {
            assert(names[i as int] == name@);
            return true;
        }
        i += 1;
    }
    assert(!names.contains(name@)) by {
        if names.contains(name@) {
            let j = choose|j: int| 0 <= j < names.len() && names[j] == name@;
            assert(names[j] != name@);
        }
    }
    false
}

/// The light/dark partner of a theme; unknown themes go to `dark`.
pub open spec fn twin_of(current: Seq<char>) -> Seq<char> {
    if current == "light"@ {
        "dark"@
    } else if current == "dark"@ {
        "light"@
    } else if current == "glass-dark"@ {
        "light"@
    } else if current == "clay-light"@ {
        "clay-dark"@
    } else if current == "clay-dark"@ {
        "clay-light"@
    } else if current == "neu-light"@ {
        "neu-dark"@
    } else if current == "neu-dark"@ {
        "neu-light"@
    } else {
        "dark"@
    }
}

/// The light/dark twin of a theme, for Ctrl+Shift+D.
pub fn dark_twin(current: &str) -> (r: &'static str)
    ensures
        r@ == twin_of(current@),
{
    if str_eq(current, "light") {
        "dark"
    } else if str_eq(current, "dark") {
        "light"
    } else if str_eq(current, "glass-dark") {
        "light"
    } else if str_eq(current, "clay-light") {
        "clay-dark"
    } else if str_eq(current, "clay-dark") {
        "clay-light"
    } else if str_eq(current, "neu-light") {
        "neu-dark"
    } else if str_eq(current, "neu-dark") {
        "neu-light"
    } else {
        "dark"
    }
}

/// Every light theme has a distinct, known dark twin whose twin is the
/// light theme again.
pub proof fn lemma_twins_are_symmetric(t: Seq<char>)
    requires
        light_theme_names().contains(t),
    ensures
        twin_of(t) != t,
        theme_names().contains(twin_of(t)),
        twin_of(twin_of(t)) == t,
{
    reveal_strlit("light");
    reveal_strlit("dark");
    reveal_strlit("glass-dark");
    reveal_strlit("clay-light");
    reveal_strlit("clay-dark");
    reveal_strlit("neu-light");
    reveal_strlit("neu-dark");
    assert("light"@.len() == 5 && "dark"@.len() == 4 && "glass-dark"@.len() == 10);
    assert("clay-light"@.len() == 10 && "clay-dark"@.len() == 9 && "neu-light"@.len() == 9);
    assert("neu-dark"@.len() == 8);
    assert("glass-dark"@[0] == 'g' && "clay-light"@[0] == 'c' && "clay-dark"@[0] == 'c');
    assert("neu-light"@[0] == 'n');
    let ls = light_theme_names();
    let all = theme_names();
    let j = choose|j: int| 0 <= j < ls.len() && ls[j] == t;
    if j == 0 {
        assert(all[1] == twin_of(t));
    } else if j == 1 {
        assert(all[4] == twin_of(t));
    } else {
        assert(all[6] == twin_of(t));
    }
}

} // verus!

verus! {

// ── The palette ──────────────────────────────────────────────────────────

/// One selectable row in the colour UI.
#[derive(Debug, PartialEq, Eq)]
pub struct PaletteEntry {
    pub key: String,
    pub name: String,
    pub hex: String,
    pub rgba: u32,
    pub builtin: bool,
}

/// The mathematical content of a [`PaletteEntry`].
pub struct EntryView {
    pub key: Seq<char>,
    pub name: Seq<char>,
    pub hex: Seq<char>,
    pub rgba: u32,
    pub builtin: bool,
}

impl View for PaletteEntry {
    type V = EntryView;

    open spec fn view(&self) -> EntryView {
        EntryView {
            key: self.key@,
            name: self.name@,
            hex: self.hex@,
            rgba: self.rgba,
            builtin: self.builtin,
        }
    }
}

impl Clone for PaletteEntry {
    fn clone(&self) -> (r: Self)
        ensures
            r@ == self@,
    {
        PaletteEntry {
            key: self.key.clone(),
            name: self.name.clone(),
            hex: self.hex.clone(),
            rgba: self.rgba,
            builtin: self.builtin,
        }
    }
}

/// The six built-in swatches, in menu order.
pub open spec fn builtin_colours() -> Seq<LineColour> {
    seq![
        LineColour::Yellow,
        LineColour::Green,
        LineColour::Pink,
        LineColour::Blue,
        LineColour::Orange,
        LineColour::Purple,
    ]
}

/// The palette row of a built-in swatch.
pub open spec fn builtin_entry(c: LineColour) -> EntryView {
    EntryView {
        key: colour_key(c),
        name: colour_name(c),
        hex: hex_of_rgba(colour_rgba(c)),
        rgba: colour_rgba(c),
        builtin: true,
    }
}

/// The palette row of a custom swatch: keyed by its hex.
pub open spec fn custom_entry(c: CustomColourView) -> EntryView {
    EntryView { key: c.hex, name: c.name, hex: c.hex, rgba: c.rgba, builtin: false }
}

/// The rows of all built-in swatches.
pub open spec fn builtin_rows() -> Seq<EntryView> {
    builtin_colours().map_values(|c: LineColour| builtin_entry(c))
}

/// The rows of a list of custom swatches.
pub open spec fn custom_rows(custom: Seq<CustomColourView>) -> Seq<EntryView> {
    custom.map_values(|c: CustomColourView| custom_entry(c))
}

/// Every row of a palette: built-ins first, then the custom swatches.
pub open spec fn palette_rows(custom: Seq<CustomColourView>) -> Seq<EntryView> {
    builtin_rows() + custom_rows(custom)
}

/// The views of a list of entries.
pub open spec fn entry_views(v: Seq<PaletteEntry>) -> Seq<EntryView> {
    v.map_values(|e: PaletteEntry| e@)
}

/// The views of a list of custom swatches.
pub open spec fn custom_views(v: Seq<CustomColour>) -> Seq<CustomColourView> {
    v.map_values(|c: CustomColour| c@)
}

/// What [`Palette::resolve`] answers: display name and packed colour.
pub open spec fn resolved(c: LineColour) -> (Seq<char>, u32) {
    match c {
        LineColour::NoColour => ("None"@, 0),
        LineColour::Custom(rgba) => (hex_of_rgba(rgba), rgba),
        _ => (colour_name(c), colour_rgba(c)),
    }
}

/// `true` when some row of `rows` has key `key`.
pub open spec fn has_key(rows: Seq<EntryView>, key: Seq<char>) -> bool {
    exists|i: int| 0 <= i < rows.len() && (#[trigger] rows[i]).key == key
}

/// What [`Palette::find`] answers for `key`.
pub open spec fn found_colour(custom: Seq<CustomColourView>, key: Seq<char>) -> Option<LineColour> {
    if key == "none"@ {
        Some(LineColour::NoColour)
    } else if has_key(palette_rows(custom), key) {
        Some(colour_from_key(key))
    } else {
        None
    }
}

/// The custom list after adding `c`: any swatch with the same hex is
/// replaced, and `c` goes last.
pub open spec fn with_custom(custom: Seq<CustomColourView>, c: CustomColourView) -> Seq<
    CustomColourView,
> {
    custom.filter(|x: CustomColourView| x.hex != c.hex).push(c)
}

/// No two swatches share a hex.
pub open spec fn distinct_hexes(custom: Seq<CustomColourView>) -> bool {
    forall|i: int, j: int|
        0 <= i < custom.len() && 0 <= j < custom.len() && i != j ==> #[trigger] custom[i].hex
            != #[trigger] custom[j].hex
}

/// The palette: built-ins followed by the user's custom colours.
#[derive(Debug, PartialEq)]
pub struct Palette {
    custom: Vec<CustomColour>,
}

impl View for Palette {
    type V = Seq<CustomColourView>;

    closed spec fn view(&self) -> Seq<CustomColourView> {
        custom_views(self.custom@)
    }
}

fn clone_customs(v: &[CustomColour]) -> (r: Vec<CustomColour>)
    ensures
        custom_views(r@) == custom_views(v@),
{
    let mut r: Vec<CustomColour> = Vec::new();
    let mut i: usize = 0;
    while i < v.len()
        invariant
            i <= v@.len(),
            custom_views(r@) == custom_views(v@.subrange(0, i as int)),
        decreases v@.len() - i,
    {
        r.push(v[i].clone());
        assert(custom_views(v@.subrange(0, i + 1)) =~= custom_views(v@.subrange(0, i as int)).push(
            v@[i as int]@,
        ));
        i += 1;
    }
    assert(v@.subrange(0, v@.len() as int) =~= v@);
    r
}

impl Clone for Palette {
    fn clone(&self) -> (r: Self)
        ensures
            r@ == self@,
    {
        Palette { custom: clone_customs(self.custom.as_slice()) }
    }
}

impl Default for Palette {
    fn default() -> (r: Self)
        ensures
            r@ == Seq::<CustomColourView>::empty(),
    {
        let r = Palette { custom: Vec::new() };
        assert(r@ =~= Seq::<CustomColourView>::empty());
        r
    }
}

fn builtin_row(c: LineColour) -> (e: PaletteEntry)
    ensures
        e@ == builtin_entry(c),
{
    PaletteEntry {
        key: c.key(),
        name: c.display_name(),
        hex: hex_from_rgba(c.builtin_rgba()),
        rgba: c.builtin_rgba(),
        builtin: true,
    }
}

impl Palette {
    pub fn new(custom: Vec<CustomColour>) -> (p: Self)
        ensures
            p@ == custom_views(custom@),
    {
        Palette { custom }
    }

    pub fn builtin_entries() -> (v: Vec<PaletteEntry>)
        ensures
            entry_views(v@) == builtin_rows(),
    {
        let cs = vec![
            LineColour::Yellow,
            LineColour::Green,
            LineColour::Pink,
            LineColour::Blue,
            LineColour::Orange,
            LineColour::Purple,
        ];
        assert(cs@ =~= builtin_colours());
        let mut v: Vec<PaletteEntry> = Vec::new();
        let mut i: usize = 0;
        while i < cs.len()
            invariant
                i <= cs@.len(),
                cs@ == builtin_colours(),
                entry_views(v@) == builtin_colours().subrange(0, i as int).map_values(
                    |c: LineColour| builtin_entry(c),
                ),
            decreases cs@.len() - i,
        {
            v.push(builtin_row(cs[i]));
            assert(builtin_colours().subrange(0, i + 1).map_values(|c: LineColour| builtin_entry(c))
                =~= builtin_colours().subrange(0, i as int).map_values(
                |c: LineColour| builtin_entry(c),
            ).push(builtin_entry(cs@[i as int])));
            assert(entry_views(v@) =~= entry_views(v@.drop_last()).push(v@.last()@));
            i += 1;
        }
        assert(builtin_colours().subrange(0, 6) =~= builtin_colours());
        v
    }

    pub fn custom_entries(&self) -> (v: Vec<PaletteEntry>)
        ensures
            entry_views(v@) == custom_rows(self@),
    {
        let mut v: Vec<PaletteEntry> = Vec::new();
        let mut i: usize = 0;
        while i < self.custom.len()
            invariant
                i <= self.custom@.len(),
                entry_views(v@) == custom_rows(custom_views(self.custom@.subrange(0, i as int))),
            decreases self.custom@.len() - i,
        {
            let c = &self.custom[i];
            v.push(
                PaletteEntry {
                    key: c.hex.clone(),
                    name: c.name.clone(),
                    hex: c.hex.clone(),
                    rgba: c.rgba,
                    builtin: false,
                },
            );
            assert(custom_rows(custom_views(self.custom@.subrange(0, i + 1))) =~= custom_rows(
                custom_views(self.custom@.subrange(0, i as int)),
            ).push(custom_entry(self.custom@[i as int]@)));
            assert(entry_views(v@) =~= entry_views(v@.drop_last()).push(v@.last()@));
            i += 1;
        }
        assert(self.custom@.subrange(0, self.custom@.len() as int) =~= self.custom@);
        v
    }

    pub fn entries(&self) -> (v: Vec<PaletteEntry>)
        ensures
            entry_views(v@) == palette_rows(self@),
    {
        let mut out = Self::builtin_entries();
        let mut more = self.custom_entries();
        let ghost a = out@;
        let ghost b = more@;
        out.append(&mut more);
        assert(entry_views(out@) =~= entry_views(a) + entry_views(b));
        out
    }

    /// Resolve a [`LineColour`] to `(display name, packed rgba)`.
    pub fn resolve(&self, colour: LineColour) -> (r: (String, u32))
        ensures
            r.0@ == resolved(colour).0,
            r.1 == resolved(colour).1,
    {
        match colour {
            LineColour::NoColour => (to_owned_string("None"), 0),
            LineColour::Custom(rgba) => (hex_from_rgba(rgba), rgba),
            other => (other.display_name(), other.builtin_rgba()),
        }
    }

    /// Look a colour up by the key used in the UI.
    pub fn find(&self, key: &str) -> (r: Option<LineColour>)
        ensures
            r == found_colour(self@, key@),
    {
        if str_eq(key, "none") {
            return Some(LineColour::NoColour);
        }
        let rows = self.entries();
        let mut i: usize = 0;
        while i < rows.len()
            invariant
                i <= rows@.len(),
                entry_views(rows@) == palette_rows(self@),
                key@ != "none"@,
                forall|j: int| 0 <= j < i ==> (#[trigger] rows@[j])@.key != key@,
            decreases rows@.len() - i,
        {
            if str_eq(rows[i].key.as_str(), key) {
                assert(entry_views(rows@)[i as int].key == key@);
                assert(palette_rows(self@)[i as int].key == key@);
                return Some(LineColour::from_key(key));
            }
            i += 1;
        }
        assert(!has_key(palette_rows(self@), key@)) by {
            if has_key(palette_rows(self@), key@) {
                let j = choose|j: int|
                    0 <= j < palette_rows(self@).len() && (#[trigger] palette_rows(self@)[j]).key
                        == key@;
                assert(entry_views(rows@)[j] == rows@[j]@);
            }
        }
        None
    }

    pub fn custom_colours(&self) -> (r: &[CustomColour])
        ensures
            custom_views(r@) == self@,
    {
        self.custom.as_slice()
    }

    pub fn add_custom(&mut self, colour: CustomColour)
        ensures
            final(self)@ == with_custom(old(self)@, colour@),
    {
        let ghost old_v = self@;
        let ghost pred = |x: CustomColourView| x.hex != colour@.hex;
        let mut kept: Vec<CustomColour> = Vec::new();
        let mut i: usize = 0;
        while i < self.custom.len()
            invariant
                i <= self.custom@.len(),
                old_v == custom_views(self.custom@),
                pred == (|x: CustomColourView| x.hex != colour@.hex),
                custom_views(kept@) == old_v.subrange(0, i as int).filter(pred),
            decreases self.custom@.len() - i,
        {
            let ghost pre = old_v.subrange(0, i as int);
            let ghost nxt = old_v.subrange(0, i + 1);
            assert(nxt.drop_last() =~= pre);
            assert(nxt.filter(pred) == if pred(nxt.last()) {
                pre.filter(pred).push(nxt.last())
            } else {
                pre.filter(pred)
            }) by {
                reveal(Seq::filter);
            }
            if !str_eq(self.custom[i].hex.as_str(), colour.hex.as_str()) {
                kept.push(self.custom[i].clone());
                assert(custom_views(kept@) =~= custom_views(kept@.drop_last()).push(
                    kept@.last()@,
                ));
            }
            i += 1;
        }
        assert(old_v.subrange(0, old_v.len() as int) =~= old_v);
        kept.push(colour);
        assert(custom_views(kept@) =~= custom_views(kept@.drop_last()).push(kept@.last()@));
        self.custom = kept;
    }

    /// Every key the colour UI can offer.
    pub fn selectable_keys(&self) -> (v: Vec<String>)
        ensures
            v@.map_values(|s: String| s@) == palette_rows(self@).map_values(|e: EntryView| e.key),
    {
        let rows = self.entries();
        let mut v: Vec<String> = Vec::new();
        let mut i: usize = 0;
        while i < rows.len()
            invariant
                i <= rows@.len(),
                entry_views(rows@) == palette_rows(self@),
                v@.map_values(|s: String| s@) == entry_views(rows@).subrange(0, i as int).map_values(
                    |e: EntryView| e.key,
                ),
            decreases rows@.len() - i,
        {
            v.push(rows[i].key.clone());
            assert(entry_views(rows@).subrange(0, i + 1).map_values(|e: EntryView| e.key)
                =~= entry_views(rows@).subrange(0, i as int).map_values(|e: EntryView| e.key).push(
                rows@[i as int]@.key,
            ));
            assert(v@.map_values(|s: String| s@) =~= v@.drop_last().map_values(|s: String| s@).push(
                v@.last()@,
            ));
            i += 1;
        }
        assert(entry_views(rows@).subrange(0, rows@.len() as int) =~= entry_views(rows@));
        v
    }
}

} // verus!

verus! {

// ── Laws ─────────────────────────────────────────────────────────────────

proof fn lemma_hex_char(x: int)
    requires
        0 <= x < 16,
    ensures
        is_hex_digit(hex_char(x)),
        hex_val(hex_char(x)) == x,
        (hex_char(x) as u32) < 0x80,
        hex_char(x) != '+',
        hex_char(x) != '#',
{
}

proof fn lemma_six_digits(w: int)
    requires
        0 <= w < 0x100_0000,
    ensures
        ((((w / 0x100000 % 16 * 16 + w / 0x10000 % 16) * 16 + w / 0x1000 % 16) * 16 + w / 0x100
            % 16) * 16 + w / 0x10 % 16) * 16 + w % 16 == w,
{
    let w5 = w / 0x10;
    let w4 = w / 0x100;
    let w3 = w / 0x1000;
    let w2 = w / 0x10000;
    let w1 = w / 0x100000;
    assert(w == w5 * 16 + w % 16) by (nonlinear_arith)
        requires
            w5 == w / 0x10,
    ;
    assert(w5 == w4 * 16 + w / 0x10 % 16) by (nonlinear_arith)
        requires
            w5 == w / 0x10,
            w4 == w / 0x100,
            w >= 0,
    ;
    assert(w4 == w3 * 16 + w / 0x100 % 16) by (nonlinear_arith)
        requires
            w4 == w / 0x100,
            w3 == w / 0x1000,
            w >= 0,
    ;
    assert(w3 == w2 * 16 + w / 0x1000 % 16) by (nonlinear_arith)
        requires
            w3 == w / 0x1000,
            w2 == w / 0x10000,
            w >= 0,
    ;
    assert(w2 == w1 * 16 + w / 0x10000 % 16) by (nonlinear_arith)
        requires
            w2 == w / 0x10000,
            w1 == w / 0x100000,
            w >= 0,
    ;
    assert(w1 == w / 0x100000 % 16) by (nonlinear_arith)
        requires
            w1 == w / 0x100000,
            0 <= w < 0x100_0000,
    ;
}

/// ASCII letters upper-cased, everything else kept.
pub open spec fn upper_ascii(s: Seq<char>) -> Seq<char> {
    s.map_values(|c: char| if 'a' <= c && c <= 'z' { ((c as u32) - 32) as char } else { c })
}

/// ASCII letters lower-cased, everything else kept.
pub open spec fn lower_ascii(s: Seq<char>) -> Seq<char> {
    s.map_values(|c: char| if 'A' <= c && c <= 'Z' { ((c as u32) + 32) as char } else { c })
}

/// Changing the case of one character keeps whether it is a hex digit and
/// its value.
proof fn lemma_case_char(c: char, u: char)
    requires
        u == (if 'a' <= c && c <= 'z' { ((c as u32) - 32) as char } else { c }) || u == (if 'A' <= c
            && c <= 'Z' { ((c as u32) + 32) as char } else { c }),
    ensures
        is_hex_digit(u) == is_hex_digit(c),
        is_hex_digit(c) ==> hex_val(u) == hex_val(c),
        c == '#' ==> u == '#',
{
    if 'a' <= c && c <= 'z' && u != c {
        vstd::utf8::char_u32_cast(u, (c as u32 - 32) as u32);
        assert(u as u32 == c as u32 - 32);
    }
    if 'A' <= c && c <= 'Z' && u != c {
        assert(u as u32 == c as u32 + 32);
    }
}

/// The value of hex digits does not depend on their case.
proof fn lemma_hex_number_case(d: Seq<char>, e: Seq<char>)
    requires
        d.len() == e.len(),
        all_hex(d),
        forall|i: int| 0 <= i < d.len() ==> is_hex_digit(#[trigger] e[i]) && hex_val(e[i]) == hex_val(d[i]),
    ensures
        hex_number(e) == hex_number(d),
    decreases d.len(),
{
    if d.len() > 0 {
        assert(all_hex(d.drop_last())) by {
            assert forall|i: int| 0 <= i < d.drop_last().len() implies is_hex_digit(#[trigger] d.drop_last()[i]) by {
                assert(d.drop_last()[i] == d[i]);
            }
        }
        assert forall|i: int| 0 <= i < d.drop_last().len() implies is_hex_digit(#[trigger] e.drop_last()[i])
            && hex_val(e.drop_last()[i]) == hex_val(d.drop_last()[i]) by {
            assert(e.drop_last()[i] == e[i] && d.drop_last()[i] == d[i]);
        }
        lemma_hex_number_case(d.drop_last(), e.drop_last());
        assert(is_hex_digit(d[d.len() - 1]));
    }
}

/// Reading a colour does not depend on the case of its letters: the
/// upper-cased and the lower-cased text read as the text itself.
pub proof fn lemma_hex_case_blind(s: Seq<char>)
    ensures
        rgba_of_hex(upper_ascii(s)) == rgba_of_hex(s),
        rgba_of_hex(lower_ascii(s)) == rgba_of_hex(s),
{
    lemma_hex_case_to(s, upper_ascii(s), true);
    lemma_hex_case_to(s, lower_ascii(s), false);
}

proof fn lemma_hex_case_to(s: Seq<char>, t: Seq<char>, up: bool)
    requires
        up ==> t == upper_ascii(s),
        !up ==> t == lower_ascii(s),
    ensures
        rgba_of_hex(t) == rgba_of_hex(s),
{
    assert(t.len() == s.len());
    assert forall|i: int| 0 <= i < s.len() implies (is_hex_digit(#[trigger] t[i]) == is_hex_digit(s[i]))
        && (is_hex_digit(s[i]) ==> hex_val(t[i]) == hex_val(s[i])) && (s[i] == '#' ==> t[i] == '#') by {
        lemma_case_char(s[i], t[i]);
    }
    let d = strip_hash(s);
    let e = strip_hash(t);
    if s.len() > 0 && s[0] == '#' {
        assert(t[0] == '#');
        assert(d =~= s.drop_first());
        assert(e =~= t.drop_first());
    } else if s.len() > 0 {
        lemma_case_char(s[0], t[0]);
        assert(t[0] != '#');
        assert(e =~= t);
    }
    assert(e.len() == d.len());
    assert forall|i: int| 0 <= i < d.len() implies (is_hex_digit(#[trigger] e[i]) == is_hex_digit(d[i]))
        && (is_hex_digit(d[i]) ==> hex_val(e[i]) == hex_val(d[i])) by {
        if s.len() > 0 && s[0] == '#' {
            assert(e[i] == t[i + 1] && d[i] == s[i + 1]);
        } else {
            assert(e[i] == t[i] && d[i] == s[i]);
        }
    }
    if all_hex(d) {
        assert(all_hex(e));
        lemma_hex_number_case(d, e);
        if d.len() == 3 {
            assert(hex_val(e[0]) == hex_val(d[0]) && hex_val(e[1]) == hex_val(d[1]) && hex_val(e[2])
                == hex_val(d[2]));
        }
    } else {
        let k = choose|k: int| 0 <= k < d.len() && !is_hex_digit(d[k]);
        assert(!is_hex_digit(e[k]));
    }
}

/// Three, six or eight hex digits, with or without `#` and in any case,
/// always read as a colour.
pub proof fn lemma_hex_digits_read(d: Seq<char>)
    requires
        d.len() == 3 || d.len() == 6 || d.len() == 8,
        forall|i: int| 0 <= i < d.len() ==> is_hex_digit(#[trigger] d[i]),
    ensures
        rgba_of_hex(d) is Some,
        rgba_of_hex(seq!['#'] + d) is Some,
{
    assert(d[0] != '#');
    assert((seq!['#'] + d).drop_first() =~= d);
}

/// Reading back the hex written for a packed colour gives the colour with
/// a full alpha byte; an opaque colour comes back unchanged.
pub proof fn lemma_hex_roundtrip(rgba: u32)
    ensures
        rgba_of_hex(hex_of_rgba(rgba)) == Some(((rgba as int / 256) * 256 + 255) as u32),
        rgba % 256 == 255 ==> rgba_of_hex(hex_of_rgba(rgba)) == Some(rgba),
{
    let w = rgba as int / 256;
    let h = hex_of_rgba(rgba);
    let d = strip_hash(h);
    lemma_hex_char(w / 0x100000 % 16);
    lemma_hex_char(w / 0x10000 % 16);
    lemma_hex_char(w / 0x1000 % 16);
    lemma_hex_char(w / 0x100 % 16);
    lemma_hex_char(w / 0x10 % 16);
    lemma_hex_char(w % 16);
    assert(d =~= h.subrange(1, 7));
    assert(d.len() == 6);
    assert(crate::text::all_ascii(d));
    crate::text::lemma_byte_len_bounds(d);
    assert(all_hex(d));
    assert(hex_number(d) == w) by {
        reveal_with_fuel(hex_number, 7);
        assert(d.drop_last().drop_last().drop_last().drop_last().drop_last().drop_last().len()
            == 0);
        lemma_six_digits(w);
    }
    assert(rgba % 256 == 255 ==> w * 256 + 255 == rgba) by (nonlinear_arith)
        requires
            w == rgba as int / 256,
    ;
}

/// Every built-in swatch is opaque, and its hex reads back as its packed
/// colour.
pub proof fn lemma_builtins_opaque(i: int)
    requires
        0 <= i < 6,
    ensures
        builtin_rows()[i].rgba % 256 == 255,
        rgba_of_hex(builtin_rows()[i].hex) == Some(builtin_rows()[i].rgba),
{
    let c = builtin_colours()[i];
    assert(builtin_rows()[i] == builtin_entry(c));
    lemma_hex_roundtrip(colour_rgba(c));
}

/// After adding a swatch the palette holds it exactly once, last, and
/// the hexes stay distinct when they were.
pub proof fn lemma_add_custom_dedups(custom: Seq<CustomColourView>, c: CustomColourView)
    requires
        distinct_hexes(custom),
    ensures
        distinct_hexes(with_custom(custom, c)),
        with_custom(custom, c).last() == c,
        forall|i: int|
            0 <= i < with_custom(custom, c).len() - 1 ==> (#[trigger] with_custom(custom, c)[i]).hex
                != c.hex,
{
    let pred = |x: CustomColourView| x.hex != c.hex;
    let f = custom.filter(pred);
    let r = with_custom(custom, c);
    assert forall|i: int| 0 <= i < f.len() implies pred(#[trigger] f[i]) by {
        custom.lemma_filter_pred(pred, i);
    }
    lemma_filter_distinct(custom, pred);
    assert forall|i: int, j: int|
        0 <= i < r.len() && 0 <= j < r.len() && i != j implies #[trigger] r[i].hex
        != #[trigger] r[j].hex by {
        if i < f.len() && j < f.len() {
            assert(r[i] == f[i] && r[j] == f[j]);
        } else if i < f.len() {
            assert(r[i] == f[i]);
            assert(pred(f[i]));
        } else if j < f.len() {
            assert(r[j] == f[j]);
            assert(pred(f[j]));
        }
    }
    assert forall|i: int| 0 <= i < r.len() - 1 implies (#[trigger] r[i]).hex != c.hex by {
        assert(r[i] == f[i]);
        assert(pred(f[i]));
    }
}

proof fn lemma_filter_distinct(s: Seq<CustomColourView>, pred: spec_fn(CustomColourView) -> bool)
    requires
        distinct_hexes(s),
    ensures
        distinct_hexes(s.filter(pred)),
    decreases s.len(),
{
    reveal(Seq::filter);
    if s.len() > 0 {
        let p = s.drop_last();
        assert(distinct_hexes(p)) by {
            assert forall|i: int, j: int|
                0 <= i < p.len() && 0 <= j < p.len() && i != j implies #[trigger] p[i].hex
                != #[trigger] p[j].hex by {
                assert(p[i] == s[i] && p[j] == s[j]);
            }
        }
        lemma_filter_distinct(p, pred);
        let f = p.filter(pred);
        if pred(s.last()) {
            let g = f.push(s.last());
            assert forall|i: int| 0 <= i < f.len() implies #[trigger] f[i].hex != s.last().hex by {
                assert(f.contains(f[i]));
                p.lemma_filter_contains_rev(pred, f[i]);
                let k = choose|k: int| 0 <= k < p.len() && p[k] == f[i];
                assert(s[k] == p[k]);
                assert(s[k].hex != s[s.len() - 1].hex);
            }
            assert forall|i: int, j: int|
                0 <= i < g.len() && 0 <= j < g.len() && i != j implies #[trigger] g[i].hex
                != #[trigger] g[j].hex by {
                if i < f.len() && j < f.len() {
                    assert(g[i] == f[i] && g[j] == f[j]);
                } else if i < f.len() {
                    assert(g[i] == f[i]);
                } else {
                    assert(g[j] == f[j]);
                }
            }
        }
    }
}

} // verus!

verus! {

// ── Stored highlight and list blobs ──────────────────────────────────────

/// Where a member sorts among the chips: its key read as a line index, keys
/// that are not one after every line.
pub open spec fn line_rank(key: Seq<char>) -> usize {
    match parsed_usize(key) {
        Some(n) => n,
        None => usize::MAX,
    }
}

/// `m` placed after every member of `sorted` whose rank is at most its own,
/// looking from the back.
pub open spec fn insert_by_rank(
    sorted: Seq<(Seq<char>, ScalarView)>,
    m: (Seq<char>, ScalarView),
) -> Seq<(Seq<char>, ScalarView)>
    decreases sorted.len(),
{
    if sorted.len() == 0 {
        seq![m]
    } else if line_rank(sorted.last().0) <= line_rank(m.0) {
        sorted.push(m)
    } else {
        insert_by_rank(sorted.drop_last(), m).push(sorted.last())
    }
}

/// Members in a stable order by line rank.
pub open spec fn by_line(ms: Seq<(Seq<char>, ScalarView)>) -> Seq<(Seq<char>, ScalarView)>
    decreases ms.len(),
{
    if ms.len() == 0 {
        Seq::empty()
    } else {
        insert_by_rank(by_line(ms.drop_last()), ms.last())
    }
}

/// The chips after reading one more member value: its swatch is added when
/// it names a highlight colour not taken yet.
pub open spec fn chip_step(c: Seq<u32>, v: ScalarView) -> Seq<u32> {
    match v {
        ScalarView::Str(k) => {
            let colour = colour_from_key(k);
            if colour is NoColour || c.contains(colour_rgba(colour)) {
                c
            } else {
                c.push(colour_rgba(colour))
            }
        },
        _ => c,
    }
}

/// The chips of members taken in order: the swatch of each member whose
/// value names a highlight colour, skipping swatches already taken, and
/// nothing more once four are taken.
pub open spec fn chips_scan(ms: Seq<(Seq<char>, ScalarView)>) -> Seq<u32>
    decreases ms.len(),
{
    if ms.len() == 0 {
        Seq::empty()
    } else {
        let c = chips_scan(ms.drop_last());
        if c.len() >= 4 {
            c
        } else {
            chip_step(c, ms.last().1)
        }
    }
}

/// The sidebar chips of a stored highlight blob.
pub open spec fn chips_of(json: Seq<char>) -> Seq<u32> {
    match json_shape(json) {
        ShapeView::Object(ms) => chips_scan(by_line(ms)),
        _ => Seq::empty(),
    }
}

proof fn lemma_insert_at(
    sorted: Seq<(Seq<char>, ScalarView)>,
    m: (Seq<char>, ScalarView),
    p: int,
)
    requires
        0 <= p <= sorted.len(),
        forall|j: int| p <= j < sorted.len() ==> line_rank((#[trigger] sorted[j]).0) > line_rank(m.0),
        p > 0 ==> line_rank(sorted[p - 1].0) <= line_rank(m.0),
    ensures
        insert_by_rank(sorted, m) == sorted.subrange(0, p).push(m) + sorted.subrange(
            p,
            sorted.len() as int,
        ),
    decreases sorted.len(),
{
    if sorted.len() == 0 {
        assert(sorted.subrange(0, p).push(m) + sorted.subrange(p, sorted.len() as int) =~= seq![m]);
    } else if p == sorted.len() {
        assert(sorted.subrange(0, p) =~= sorted);
        assert(sorted.subrange(0, p).push(m) + sorted.subrange(p, sorted.len() as int) =~= sorted.push(m));
    } else {
        let d = sorted.drop_last();
        assert(line_rank(sorted.last().0) > line_rank(m.0)) by {
            assert(sorted.last() == sorted[sorted.len() - 1]);
        }
        assert forall|j: int| p <= j < d.len() implies line_rank((#[trigger] d[j]).0) > line_rank(m.0) by {
            assert(d[j] == sorted[j]);
        }
        lemma_insert_at(d, m, p);
        assert(d.subrange(0, p) =~= sorted.subrange(0, p));
        assert((d.subrange(0, p).push(m) + d.subrange(p, d.len() as int)).push(sorted.last())
            =~= sorted.subrange(0, p).push(m) + sorted.subrange(p, sorted.len() as int));
    }
}

proof fn lemma_insert_len(sorted: Seq<(Seq<char>, ScalarView)>, m: (Seq<char>, ScalarView))
    ensures
        insert_by_rank(sorted, m).len() == sorted.len() + 1,
    decreases sorted.len(),
{
    if sorted.len() > 0 {
        lemma_insert_len(sorted.drop_last(), m);
    }
}

proof fn lemma_by_line_len(ms: Seq<(Seq<char>, ScalarView)>)
    ensures
        by_line(ms).len() == ms.len(),
    decreases ms.len(),
{
    if ms.len() > 0 {
        lemma_by_line_len(ms.drop_last());
        lemma_insert_len(by_line(ms.drop_last()), ms.last());
    }
}

proof fn lemma_chips_settle(ms: Seq<(Seq<char>, ScalarView)>, k: int)
    requires
        0 <= k <= ms.len(),
        chips_scan(ms.subrange(0, k)).len() >= 4,
    ensures
        chips_scan(ms) == chips_scan(ms.subrange(0, k)),
    decreases ms.len() - k,
{
    if k < ms.len() {
        let nxt = ms.subrange(0, k + 1);
        assert(nxt.drop_last() =~= ms.subrange(0, k));
        lemma_chips_settle(ms, k + 1);
    } else {
        assert(ms.subrange(0, k) =~= ms);
    }
}

proof fn lemma_chips_shape(ms: Seq<(Seq<char>, ScalarView)>)
    ensures
        chips_scan(ms).len() <= 4,
        chips_scan(ms).no_duplicates(),
    decreases ms.len(),
{
    if ms.len() > 0 {
        lemma_chips_shape(ms.drop_last());
    }
}

/// The members of `ms` in a stable order by line rank.
fn sorted_by_line(ms: &Vec<(String, JsonScalar)>) -> (order: Vec<usize>)
    ensures
        order@.len() == ms@.len(),
        forall|j: int| 0 <= j < order@.len() ==> #[trigger] order@[j] < ms@.len(),
        order@.map_values(|i: usize| members_view(ms@)[i as int]) == by_line(members_view(ms@)),
{
    let ghost mv = members_view(ms@);
    let mut order: Vec<usize> = Vec::new();
    let mut ranks: Vec<usize> = Vec::new();
    let mut k: usize = 0;
    while k < ms.len()
        invariant
            k <= ms@.len(),
            mv == members_view(ms@),
            order@.len() == k,
            ranks@.len() == k,
            forall|j: int| 0 <= j < k ==> #[trigger] order@[j] < ms@.len(),
            forall|j: int| 0 <= j < k ==> #[trigger] ranks@[j] == line_rank(mv[order@[j] as int].0),
            order@.map_values(|i: usize| mv[i as int]) == by_line(mv.subrange(0, k as int)),
        decreases ms@.len() - k,
    {
        let r = match parse_usize(ms[k].0.as_str()) {
            Some(n) => n,
            None => usize::MAX,
        };
        assert(mv[k as int] == (ms@[k as int].0@, ms@[k as int].1@));
        let ghost before = order@.map_values(|i: usize| mv[i as int]);
        let mut p: usize = k;
        while p > 0 && ranks[p - 1] > r
            invariant
                p <= k,
                ranks@.len() == k,
                order@.len() == k,
                forall|j: int| p <= j < k ==> #[trigger] ranks@[j] > r,
            decreases p,
        {
            p -= 1;
        }
        proof {
            let sub = mv.subrange(0, k + 1);
            assert(sub.drop_last() =~= mv.subrange(0, k as int));
            assert(sub.last() == mv[k as int]);
            assert forall|j: int| p <= j < before.len() implies line_rank((#[trigger] before[j]).0) > line_rank(
                mv[k as int].0,
            ) by {
                assert(ranks@[j] > r);
            }
            if p > 0 {
                assert(ranks@[p - 1] <= r);
            }
            lemma_insert_at(before, mv[k as int], p as int);
        }
        let ghost ranks0 = ranks@;
        order.insert(p, k);
        ranks.insert(p, r);
        proof {
            let after = order@.map_values(|i: usize| mv[i as int]);
            assert(after =~= before.subrange(0, p as int).push(mv[k as int]) + before.subrange(
                p as int,
                before.len() as int,
            ));
            assert forall|j: int| 0 <= j < k + 1 implies #[trigger] ranks@[j] == line_rank(
                mv[order@[j] as int].0,
            ) by {
                if j < p {
                } else if j == p {
                } else {
                    assert(ranks@[j] == ranks0[j - 1]);
                }
            }
        }
        k += 1;
    }
    assert(mv.subrange(0, ms@.len() as int) =~= mv);
    order
}

fn contains_u32(v: &Vec<u32>, x: u32) -> (r: bool)
    ensures
        r == v@.contains(x),
{
    let mut j: usize = 0;
    while j < v.len()
        invariant
            j <= v@.len(),
            forall|i: int| 0 <= i < j ==> v@[i] != x,
        decreases v@.len() - j,
    {
        if v[j] == x {
            assert(v@.contains(x)) by {
                assert(v@[j as int] == x);
            }
            return true;
        }
        j += 1;
    }
    false
}

fn take_chip(chips: &mut Vec<u32>, value: &JsonScalar)
    ensures
        final(chips)@ == chip_step(old(chips)@, value@),
{
    if let JsonScalar::Str(name) = value {
        let colour = LineColour::from_key(name.as_str());
        if colour.is_highlighted() {
            let rgba = colour.builtin_rgba();
            if !contains_u32(chips, rgba) {
                chips.push(rgba);
            }
        }
    }
}

/// The sidebar chips of parsed highlight members: distinct swatches in line
/// order, at most four.
pub fn chips_from_members(ms: &Vec<(String, JsonScalar)>) -> (chips: Vec<u32>)
    ensures
        chips@ == chips_scan(by_line(members_view(ms@))),
        chips@.len() <= 4,
        chips@.no_duplicates(),
{
    let ghost mv = members_view(ms@);
    let order = sorted_by_line(ms);
    let ghost s = by_line(mv);
    proof {
        lemma_by_line_len(mv);
        lemma_chips_shape(s);
    }
    let mut chips: Vec<u32> = Vec::new();
    let mut k: usize = 0;
    while k < order.len() && chips.len() < 4
        invariant
            k <= order@.len(),
            order@.len() == ms@.len(),
            forall|j: int| 0 <= j < order@.len() ==> #[trigger] order@[j] < ms@.len(),
            mv == members_view(ms@),
            s == by_line(mv),
            s.len() == order@.len(),
            order@.map_values(|i: usize| mv[i as int]) == s,
            chips@ == chips_scan(s.subrange(0, k as int)),
        decreases order@.len() - k,
    {
        let ghost sub = s.subrange(0, k + 1);
        assert(sub.drop_last() =~= s.subrange(0, k as int));
        let idx = order[k];
        assert(s[k as int] == mv[idx as int]);
        assert(sub.last() == s[k as int]);
        assert(mv[idx as int] == (ms@[idx as int].0@, ms@[idx as int].1@));
        take_chip(&mut chips, &ms[idx].1);
        k += 1;
    }
    if k < order.len() {
        proof {
            lemma_chips_settle(s, k as int);
        }
    }
    assert(s.subrange(0, s.len() as int) =~= s);
    chips
}

/// The sidebar chips of a stored highlight blob: the distinct swatches of
/// its highlighted lines in line order (keys read as line indices), at most
/// four; none when the blob is not a JSON object.
pub fn chips_from_highlights_json(json: &str) -> (chips: Vec<u32>)
    ensures
        chips@ == chips_of(json@),
{
    match parse_json(json) {
        JsonShape::Object(ms) => chips_from_members(&ms),
        _ => Vec::new(),
    }
}

/// The members of the stored highlight object: each highlighted line's
/// index, in decimal, with its colour key.
pub open spec fn highlight_members(ls: Seq<LineView>) -> Seq<(Seq<char>, ScalarView)>
    decreases ls.len(),
{
    if ls.len() == 0 {
        Seq::empty()
    } else {
        let p = highlight_members(ls.drop_last());
        let l = ls.last();
        if l.colour is NoColour {
            p
        } else {
            p.push((decimal((ls.len() - 1) as nat), ScalarView::Str(colour_key(l.colour))))
        }
    }
}

proof fn lemma_highlights_read_back(target: Seq<LineView>, ls: Seq<LineView>, r: Seq<(Seq<char>, ScalarView)>)
    requires
        ls.len() == target.len(),
        ls.len() <= usize::MAX,
        keys_distinct(r),
        r.to_set() == highlight_members(ls).to_set(),
    ensures
        applied_highlights(target, r) == (colours_restored(target, ls), highlighted_count(ls)),
{
    let ms = highlight_members(ls);
    lemma_highlight_members_reapply(target, ls);
    lemma_highlight_members_shape(ls);
    assert forall|k: int| 0 <= k < r.len() implies (exists|k2: int| 0 <= k2 < ms.len() && ms[k2] == #[trigger] r[k]) by {
        assert(r.to_set().contains(r[k]));
        assert(ms.contains(r[k]));
    }
    assert forall|a: int, b: int| 0 <= a < b < r.len() && (#[trigger] hit_line(r[a])) is Some implies hit_line(r[a])
        != #[trigger] hit_line(r[b]) by {
        let ka = choose|k2: int| 0 <= k2 < ms.len() && ms[k2] == r[a];
        let kb = choose|k2: int| 0 <= k2 < ms.len() && ms[k2] == r[b];
        let m_a = ms[ka];
        let m_b = ms[kb];
        let ja = choose|j: int|
            0 <= j < ls.len() && !(ls[j].colour is NoColour) && m_a == (
                decimal(j as nat),
                ScalarView::Str(colour_key(ls[j].colour)),
            );
        let jb = choose|j: int|
            0 <= j < ls.len() && !(ls[j].colour is NoColour) && m_b == (
                decimal(j as nat),
                ScalarView::Str(colour_key(ls[j].colour)),
            );
        lemma_decimal_parses(ja as nat);
        lemma_decimal_parses(jb as nat);
        assert(r[a].0 != r[b].0);
    }
    lemma_applied_same_members(target, r, ms);
}

/// Build the `highlights_json` blob from a document's lines. Reading it
/// back onto lines of the same number re-colours exactly the highlighted
/// lines (see [`lemma_highlight_members_reapply`]).
pub fn highlights_json_for(lines: &[EditorLine]) -> (s: String)
    ensures
        s@ == json_text(ShapeView::Object(highlight_members(views(lines@)))),
        forall|target: Seq<LineView>|
            target.len() == lines@.len() ==> #[trigger] highlights_applied(target, s@) == (
                colours_restored(target, views(lines@)),
                highlighted_count(views(lines@)),
            ),
{
    let mut members: Vec<(String, JsonScalar)> = Vec::new();
    let mut i: usize = 0;
    while i < lines.len()
        invariant
            i <= lines@.len(),
            members_view(members@) == highlight_members(views(lines@.subrange(0, i as int))),
        decreases lines@.len() - i,
    {
        assert(views(lines@.subrange(0, i + 1)).drop_last() =~= views(lines@.subrange(0, i as int)));
        if lines[i].colour.is_highlighted() {
            let key = decimal_string(i as u64);
            let value = JsonScalar::Str(lines[i].colour.key());
            members.push((key, value));
            assert(members_view(members@) =~= members_view(members@.drop_last()).push(
                (members@.last().0@, members@.last().1@),
            ));
        }
        i += 1;
    }
    assert(lines@.subrange(0, lines@.len() as int) =~= lines@);
    let s = render_json(&JsonShape::Object(members));
    proof {
        let ls = views(lines@);
        let ms = highlight_members(ls);
        lemma_highlight_members_reapply(ls, ls);
        lemma_highlight_members_shape(ls);
        assert(keys_distinct(ms)) by {
            assert forall|a: int, b: int| 0 <= a < b < ms.len() implies (#[trigger] ms[a]).0 != (#[trigger] ms[b]).0 by {
                let ja = choose|j: int|
                    0 <= j < ls.len() && !(ls[j].colour is NoColour) && ms[a] == (
                        decimal(j as nat),
                        ScalarView::Str(colour_key(ls[j].colour)),
                    );
                lemma_decimal_parses(ja as nat);
                assert(hit_line(ms[a]) is Some);
                assert(hit_line(ms[a]) != hit_line(ms[b]));
            }
        }
        if let ShapeView::Object(r) = json_shape(s@) {
            lemma_highlights_read_back(ls, ls, r);
            assert forall|target: Seq<LineView>| target.len() == lines@.len() implies #[trigger] highlights_applied(target, s@) == (
                colours_restored(target, views(lines@)),
                highlighted_count(views(lines@)),
            ) by {
                lemma_highlights_read_back(target, ls, r);
            }
        }
    }
    s
}

/// The stored record of a list line: index, list type key, depth and tick.
pub open spec fn list_record(i: int, l: LineView) -> Seq<(Seq<char>, ScalarView)> {
    seq![
        ("i"@, ScalarView::Unsigned(i as u64)),
        ("t"@, ScalarView::Str(list_key(l.list_type))),
        ("d"@, ScalarView::Unsigned(l.indent as u64)),
        ("c"@, ScalarView::Bool(l.checked)),
    ]
}

/// The records of every line that carries a list marker, in order.
pub open spec fn list_records(ls: Seq<LineView>) -> Seq<Option<Seq<(Seq<char>, ScalarView)>>>
    decreases ls.len(),
{
    if ls.len() == 0 {
        Seq::empty()
    } else {
        let p = list_records(ls.drop_last());
        let l = ls.last();
        if l.list_type is NoList {
            p
        } else {
            p.push(Some(list_record(ls.len() - 1, l)))
        }
    }
}

/// Build the `list_structure_json` blob from a document's lines. Reading
/// it back onto lines of the same number restores the list fields of
/// exactly the list lines (see [`lemma_list_records_reapply`]).
pub fn list_structure_json_for(lines: &[EditorLine]) -> (s: String)
    ensures
        s@ == json_text(ShapeView::Array(list_records(views(lines@)))),
        forall|target: Seq<LineView>|
            target.len() == lines@.len() ==> #[trigger] list_structure_applied(target, s@) == (
                lists_restored(target, views(lines@)),
                list_line_count(views(lines@)),
            ),
{
    let mut items: Vec<Option<Vec<(String, JsonScalar)>>> = Vec::new();
    let mut i: usize = 0;
    assert(items_view(items@) =~= list_records(views(lines@.subrange(0, 0))));
    while i < lines.len()
        invariant
            i <= lines@.len(),
            items_view(items@) == list_records(views(lines@.subrange(0, i as int))),
        decreases lines@.len() - i,
    {
        let ghost pre = views(lines@.subrange(0, i as int));
        assert(views(lines@.subrange(0, i + 1)).drop_last() =~= pre);
        if lines[i].list_type != ListType::NoList {
            let l = &lines[i];
            let record = vec![
                (to_owned_string("i"), JsonScalar::Unsigned(i as u64)),
                (to_owned_string("t"), JsonScalar::Str(to_owned_string(l.list_type.key()))),
                (to_owned_string("d"), JsonScalar::Unsigned(l.indent as u64)),
                (to_owned_string("c"), JsonScalar::Bool(l.checked)),
            ];
            assert(members_view(record@) =~= list_record(i as int, lines@[i as int]@));
            let ghost before = items@;
            items.push(Some(record));
            assert(items_view(items@) =~= items_view(before).push(
                Some(list_record(i as int, lines@[i as int]@)),
            ));
        }
        i += 1;
    }
    assert(lines@.subrange(0, lines@.len() as int) =~= lines@);
    let s = render_json(&JsonShape::Array(items));
    proof {
        let written = list_records(views(lines@));
        lemma_list_records_distinct(views(lines@));
        if let ShapeView::Array(read) = json_shape(s@) {
            assert forall|target: Seq<LineView>| target.len() == lines@.len() implies #[trigger] list_structure_applied(target, s@) == (
                lists_restored(target, views(lines@)),
                list_line_count(views(lines@)),
            ) by {
                lemma_records_read_back(target, written, read);
                lemma_list_records_reapply(target, views(lines@));
            }
        }
    }
    s
}

/// The lines after re-applying highlight members in order, and how many
/// were applied: a member counts when its key is a line index in range and
/// its value a string, which is read as a colour key.
pub open spec fn applied_highlights(ls: Seq<LineView>, ms: Seq<(Seq<char>, ScalarView)>) -> (
    Seq<LineView>,
    nat,
)
    decreases ms.len(),
{
    if ms.len() == 0 {
        (ls, 0)
    } else {
        let (ls2, n) = applied_highlights(ls, ms.drop_last());
        let m = ms.last();
        match (parsed_usize(m.0), m.1) {
            (Some(i), ScalarView::Str(v)) => if (i as int) < ls2.len() {
                (ls2.update(i as int, LineView { colour: colour_from_key(v), ..ls2[i as int] }), n + 1)
            } else {
                (ls2, n)
            },
            _ => (ls2, n),
        }
    }
}

/// What re-applying a stored highlight blob does.
pub open spec fn highlights_applied(ls: Seq<LineView>, json: Seq<char>) -> (Seq<LineView>, nat) {
    match json_shape(json) {
        ShapeView::Object(ms) => applied_highlights(ls, ms),
        _ => (ls, 0),
    }
}

proof fn lemma_applied_len(ls: Seq<LineView>, ms: Seq<(Seq<char>, ScalarView)>)
    ensures
        applied_highlights(ls, ms).0.len() == ls.len(),
        applied_highlights(ls, ms).1 <= ms.len(),
    decreases ms.len(),
{
    if ms.len() > 0 {
        lemma_applied_len(ls, ms.drop_last());
    }
}

/// A line given the colour a key reads as.
pub open spec fn recoloured(l: LineView, key: Seq<char>) -> LineView {
    LineView { colour: colour_from_key(key), ..l }
}

/// `target` with every highlighted line of `ls` given the colour its key
/// reads back as.
pub open spec fn colours_restored(target: Seq<LineView>, ls: Seq<LineView>) -> Seq<LineView> {
    Seq::new(
        target.len(),
        |i: int|
            if i < ls.len() && !(ls[i].colour is NoColour) {
                recoloured(target[i], colour_key(ls[i].colour))
            } else {
                target[i]
            },
    )
}

/// Every custom colour among the lines has a full alpha byte.
pub open spec fn opaque_customs(ls: Seq<LineView>) -> bool {
    forall|i: int|
        0 <= i < ls.len() ==> ((#[trigger] ls[i]).colour matches LineColour::Custom(v) ==> v % 256 == 255)
}

/// The colour of `from` when it is highlighted, else that of `target`.
pub open spec fn kept_colour(target: LineView, from: LineView) -> LineColour {
    if from.colour is NoColour {
        target.colour
    } else {
        from.colour
    }
}

/// How many lines are highlighted.
pub open spec fn highlighted_count(ls: Seq<LineView>) -> nat
    decreases ls.len(),
{
    if ls.len() == 0 {
        0
    } else {
        highlighted_count(ls.drop_last()) + if ls.last().colour is NoColour {
            0nat
        } else {
            1nat
        }
    }
}

/// The line a member re-colours when it names one: its key read as an
/// index, its value a string.
pub open spec fn hit_line(m: (Seq<char>, ScalarView)) -> Option<int> {
    match (parsed_usize(m.0), m.1) {
        (Some(j), ScalarView::Str(_)) => Some(j as int),
        _ => None,
    }
}

/// No two members re-colour the same line.
pub open spec fn unique_hits(ms: Seq<(Seq<char>, ScalarView)>) -> bool {
    forall|a: int, b: int|
        0 <= a < b < ms.len() && (#[trigger] hit_line(ms[a])) is Some ==> hit_line(ms[a]) != #[trigger] hit_line(ms[b])
}

/// Some member re-colours line `i`.
pub open spec fn is_hit(ms: Seq<(Seq<char>, ScalarView)>, i: int) -> bool {
    exists|k: int| 0 <= k < ms.len() && #[trigger] hit_line(ms[k]) == Some(i)
}

/// How many of the lines below `m` some member re-colours.
pub open spec fn hits_below(ms: Seq<(Seq<char>, ScalarView)>, m: int) -> nat
    decreases m,
{
    if m <= 0 {
        0
    } else {
        hits_below(ms, m - 1) + if is_hit(ms, m - 1) {
            1nat
        } else {
            0nat
        }
    }
}

proof fn lemma_hits_below_push(q: Seq<(Seq<char>, ScalarView)>, x: (Seq<char>, ScalarView), m: int)
    ensures
        hits_below(q.push(x), m) == hits_below(q, m) + if hit_line(x) matches Some(j) && 0 <= j < m
            && !is_hit(q, j) {
            1nat
        } else {
            0nat
        },
    decreases m,
{
    if m > 0 {
        lemma_hits_below_push(q, x, m - 1);
        let ms = q.push(x);
        if is_hit(ms, m - 1) {
            let k = choose|k: int| 0 <= k < ms.len() && #[trigger] hit_line(ms[k]) == Some(m - 1);
            if k < q.len() {
                assert(ms[k] == q[k]);
            }
        }
        if is_hit(q, m - 1) {
            let k = choose|k: int| 0 <= k < q.len() && #[trigger] hit_line(q[k]) == Some(m - 1);
            assert(ms[k] == q[k]);
        }
        if hit_line(x) == Some(m - 1) {
            assert(ms[q.len() as int] == x);
        }
    }
}

proof fn lemma_hits_below_same(a: Seq<(Seq<char>, ScalarView)>, b: Seq<(Seq<char>, ScalarView)>, m: int)
    requires
        a.to_set() == b.to_set(),
    ensures
        hits_below(a, m) == hits_below(b, m),
    decreases m,
{
    if m > 0 {
        lemma_hits_below_same(a, b, m - 1);
        lemma_is_hit_same(a, b, m - 1);
        lemma_is_hit_same(b, a, m - 1);
    }
}

proof fn lemma_is_hit_same(a: Seq<(Seq<char>, ScalarView)>, b: Seq<(Seq<char>, ScalarView)>, i: int)
    requires
        a.to_set() == b.to_set(),
    ensures
        is_hit(a, i) ==> is_hit(b, i),
{
    if is_hit(a, i) {
        let k = choose|k: int| 0 <= k < a.len() && #[trigger] hit_line(a[k]) == Some(i);
        assert(a.to_set().contains(a[k]));
        assert(b.contains(a[k]));
        let k2 = choose|k2: int| 0 <= k2 < b.len() && b[k2] == a[k];
        assert(hit_line(b[k2]) == Some(i));
    }
}

/// Re-applying members that re-colour distinct lines: each re-coloured
/// line takes the colour of the member naming it, every other line stays,
/// and the count is the number of re-coloured lines in range.
pub proof fn lemma_applied_pointwise(ls: Seq<LineView>, ms: Seq<(Seq<char>, ScalarView)>)
    requires
        unique_hits(ms),
    ensures
        applied_highlights(ls, ms).0.len() == ls.len(),
        forall|k: int, i: int|
            0 <= k < ms.len() && 0 <= i < ls.len() && #[trigger] hit_line(ms[k]) == Some(i)
                ==> #[trigger] applied_highlights(ls, ms).0[i] == recoloured(ls[i], ms[k].1->Str_0),
        forall|i: int|
            0 <= i < ls.len() && !is_hit(ms, i) ==> #[trigger] applied_highlights(ls, ms).0[i] == ls[i],
        applied_highlights(ls, ms).1 == hits_below(ms, ls.len() as int),
    decreases ms.len(),
{
    if ms.len() == 0 {
        lemma_hits_below_zero(ms, ls.len() as int);
    } else {
        let q = ms.drop_last();
        let x = ms.last();
        assert(unique_hits(q)) by {
            assert forall|a: int, b: int| 0 <= a < b < q.len() && (#[trigger] hit_line(q[a])) is Some implies hit_line(
                q[a],
            ) != #[trigger] hit_line(q[b]) by {
                assert(q[a] == ms[a] && q[b] == ms[b]);
            }
        }
        lemma_applied_pointwise(ls, q);
        lemma_hits_below_push(q, x, ls.len() as int);
        assert(q.push(x) =~= ms);
        let r = applied_highlights(ls, q).0;
        assert forall|k: int| 0 <= k < q.len() implies #[trigger] q[k] == ms[k] by {}
        if let Some(j) = hit_line(x) {
            assert(!is_hit(q, j)) by {
                if is_hit(q, j) {
                    let k = choose|k: int| 0 <= k < q.len() && #[trigger] hit_line(q[k]) == Some(j);
                    assert(hit_line(ms[k]) == hit_line(ms[ms.len() - 1]));
                }
            }
        }
        assert forall|k: int, i: int|
            0 <= k < ms.len() && 0 <= i < ls.len() && #[trigger] hit_line(ms[k]) == Some(i) implies #[trigger] applied_highlights(
            ls,
            ms,
        ).0[i] == recoloured(ls[i], ms[k].1->Str_0) by {
            if k < q.len() {
                assert(hit_line(q[k]) == Some(i));
                if hit_line(x) == Some(i) {
                    assert(hit_line(ms[k]) == hit_line(ms[ms.len() - 1]));
                }
            }
        }
        assert forall|i: int| 0 <= i < ls.len() && !is_hit(ms, i) implies #[trigger] applied_highlights(
            ls,
            ms,
        ).0[i] == ls[i] by {
            if is_hit(q, i) {
                let k = choose|k: int| 0 <= k < q.len() && #[trigger] hit_line(q[k]) == Some(i);
                assert(hit_line(ms[k]) == Some(i));
            }
            if hit_line(x) == Some(i) {
                assert(hit_line(ms[ms.len() - 1]) == Some(i));
            }
        }
    }
}

proof fn lemma_hits_below_zero(ms: Seq<(Seq<char>, ScalarView)>, m: int)
    requires
        ms.len() == 0,
    ensures
        hits_below(ms, m) == 0,
    decreases m,
{
    if m > 0 {
        lemma_hits_below_zero(ms, m - 1);
    }
}

proof fn lemma_highlight_members_shape(ls: Seq<LineView>)
    ensures
        forall|k: int|
            0 <= k < highlight_members(ls).len() ==> exists|j: int|
                0 <= j < ls.len() && !(ls[j].colour is NoColour) && #[trigger] highlight_members(ls)[k] == (
                    decimal(j as nat),
                    ScalarView::Str(colour_key(ls[j].colour)),
                ),
    decreases ls.len(),
{
    if ls.len() > 0 {
        let p = ls.drop_last();
        lemma_highlight_members_shape(p);
        let hp = highlight_members(p);
        let h = highlight_members(ls);
        assert forall|k: int| 0 <= k < h.len() implies exists|j: int|
            0 <= j < ls.len() && !(ls[j].colour is NoColour) && #[trigger] h[k] == (
                decimal(j as nat),
                ScalarView::Str(colour_key(ls[j].colour)),
            ) by {
            if k < hp.len() {
                assert(h[k] == hp[k]);
                let j = choose|j: int|
                    0 <= j < p.len() && !(p[j].colour is NoColour) && hp[k] == (
                        decimal(j as nat),
                        ScalarView::Str(colour_key(p[j].colour)),
                    );
                assert(ls[j] == p[j]);
            } else {
                assert(ls[ls.len() - 1] == ls.last());
            }
        }
    }
}

/// Re-applying the members that [`highlights_json_for`] writes for `ls` to
/// lines at least as many re-colours exactly the highlighted lines, each
/// with the colour its key reads back as (the colour itself when custom
/// colours are opaque), and counts them.
pub proof fn lemma_highlight_members_reapply(target: Seq<LineView>, ls: Seq<LineView>)
    requires
        ls.len() <= target.len(),
        ls.len() <= usize::MAX,
    ensures
        unique_hits(highlight_members(ls)),
        applied_highlights(target, highlight_members(ls)) == (
            colours_restored(target, ls),
            highlighted_count(ls),
        ),
        opaque_customs(ls) ==> forall|i: int|
            0 <= i < ls.len() ==> (#[trigger] colours_restored(target, ls)[i]).colour == kept_colour(
                target[i],
                ls[i],
            ),
    decreases ls.len(),
{
    if ls.len() == 0 {
        assert(colours_restored(target, ls) =~= target);
    } else {
        let p = ls.drop_last();
        lemma_highlight_members_reapply(target, p);
        let n = ls.len() - 1;
        let l = ls.last();
        let hp = highlight_members(p);
        let h = highlight_members(ls);
        if !(l.colour is NoColour) {
            lemma_decimal_parses(n as nat);
            assert(h =~= hp.push((decimal(n as nat), ScalarView::Str(colour_key(l.colour)))));
            assert(h.drop_last() =~= hp);
            assert(colours_restored(target, ls) =~= colours_restored(target, p).update(
                n,
                recoloured(target[n], colour_key(l.colour)),
            ));
            lemma_highlight_members_shape(p);
            assert forall|a: int, b: int| 0 <= a < b < h.len() && (#[trigger] hit_line(h[a])) is Some implies hit_line(
                h[a],
            ) != #[trigger] hit_line(h[b]) by {
                assert(h[a] == hp[a]);
                let j = choose|j: int|
                    0 <= j < p.len() && !(p[j].colour is NoColour) && hp[a] == (
                        decimal(j as nat),
                        ScalarView::Str(colour_key(p[j].colour)),
                    );
                lemma_decimal_parses(j as nat);
                if b < hp.len() {
                    assert(h[b] == hp[b]);
                } else {
                    assert(hit_line(h[b]) == Some(n));
                }
            }
        } else {
            assert(h =~= hp);
            assert(colours_restored(target, ls) =~= colours_restored(target, p));
        }
        if opaque_customs(ls) {
            assert forall|i: int| 0 <= i < ls.len() implies (#[trigger] colours_restored(target, ls)[i]).colour
                == kept_colour(target[i], ls[i]) by {
                lemma_colour_key_roundtrip(ls[i].colour);
            }
        }
    }
}

/// Reading back members that hold the same members as others, re-colouring
/// distinct lines, does what re-applying those does.
proof fn lemma_applied_same_members(
    ls: Seq<LineView>,
    a: Seq<(Seq<char>, ScalarView)>,
    b: Seq<(Seq<char>, ScalarView)>,
)
    requires
        unique_hits(a),
        unique_hits(b),
        a.to_set() == b.to_set(),
    ensures
        applied_highlights(ls, a) == applied_highlights(ls, b),
{
    lemma_applied_pointwise(ls, a);
    lemma_applied_pointwise(ls, b);
    lemma_hits_below_same(a, b, ls.len() as int);
    let ra = applied_highlights(ls, a).0;
    let rb = applied_highlights(ls, b).0;
    assert forall|i: int| 0 <= i < ls.len() implies ra[i] == rb[i] by {
        lemma_is_hit_same(a, b, i);
        lemma_is_hit_same(b, a, i);
        if is_hit(a, i) {
            let k = choose|k: int| 0 <= k < a.len() && #[trigger] hit_line(a[k]) == Some(i);
            assert(a.to_set().contains(a[k]));
            assert(b.contains(a[k]));
            let k2 = choose|k2: int| 0 <= k2 < b.len() && b[k2] == a[k];
            assert(hit_line(b[k2]) == Some(i));
        }
    }
    assert(ra =~= rb);
}

/// Re-apply parsed highlight members to a document's lines, in order: a
/// member whose key is a line index in range and whose value is a string
/// sets that line's colour from the key.
pub fn apply_highlight_members(lines: &mut [EditorLine], ms: &Vec<(String, JsonScalar)>) -> (applied: usize)
    ensures
        (views(final(lines)@), applied as nat) == applied_highlights(views(old(lines)@), members_view(ms@)),
{
    let ghost ls0 = views(lines@);
    let ghost mv = members_view(ms@);
    let mut applied: usize = 0;
    let mut k: usize = 0;
    while k < ms.len()
        invariant
            k <= ms@.len(),
            mv == members_view(ms@),
            lines@.len() == ls0.len(),
            (views(lines@), applied as nat) == applied_highlights(ls0, mv.subrange(0, k as int)),
            applied <= k,
        decreases ms@.len() - k,
    {
        let ghost sub = mv.subrange(0, k + 1);
        assert(sub.drop_last() =~= mv.subrange(0, k as int));
        assert(sub.last() == mv[k as int]);
        let (key, value) = &ms[k];
        assert(mv[k as int] == (key@, value@));
        match parse_usize(key.as_str()) {
            Some(index) => match value {
                JsonScalar::Str(name) => {
                    let colour = LineColour::from_key(name.as_str());
                    if index < lines.len() {
                        let ghost before = lines@;
                        lines[index].colour = colour;
                        applied += 1;
                        assert(views(lines@) =~= views(before).update(
                            index as int,
                            LineView { colour: colour, ..views(before)[index as int] },
                        ));
                    }
                },
                _ => {},
            },
            None => {},
        }
        k += 1;
    }
    assert(mv.subrange(0, ms@.len() as int) =~= mv);
    applied
}

/// Re-apply a `highlights_json` blob to a document's lines.
pub fn apply_highlights_json(lines: &mut [EditorLine], json: &str) -> (applied: usize)
    ensures
        (views(final(lines)@), applied as nat) == highlights_applied(views(old(lines)@), json@),
{
    match parse_json(json) {
        JsonShape::Object(ms) => apply_highlight_members(lines, &ms),
        _ => 0,
    }
}

/// One list record re-applied to `ls`, or `None` when it does not name a
/// line in range with a list type.
pub open spec fn record_applied(ls: Seq<LineView>, ms: Seq<(Seq<char>, ScalarView)>) -> Option<
    Seq<LineView>,
> {
    match (lookup(ms, "i"@), lookup(ms, "t"@)) {
        (Some(ScalarView::Unsigned(i)), Some(ScalarView::Str(t))) => if ((i as usize) as int)
            < ls.len() {
            let idx = (i as usize) as int;
            let lt = list_from_key(t);
            let l1 = LineView { list_type: lt, ..ls[idx] };
            let l2 = match lookup(ms, "d"@) {
                Some(ScalarView::Unsigned(d)) => LineView {
                    indent: if (d as u8) < MAX_INDENT {
                        d as u8
                    } else {
                        MAX_INDENT
                    },
                    ..l1
                },
                _ => l1,
            };
            let l3 = match lookup(ms, "c"@) {
                Some(ScalarView::Bool(c)) => LineView { checked: c && lt is Check, ..l2 },
                _ => l2,
            };
            Some(ls.update(idx, l3))
        } else {
            None
        },
        _ => None,
    }
}

/// The lines after re-applying list records in order, and how many were
/// applied.
pub open spec fn applied_records(
    ls: Seq<LineView>,
    items: Seq<Option<Seq<(Seq<char>, ScalarView)>>>,
) -> (Seq<LineView>, nat)
    decreases items.len(),
{
    if items.len() == 0 {
        (ls, 0)
    } else {
        let (ls2, n) = applied_records(ls, items.drop_last());
        match items.last() {
            Some(ms) => match record_applied(ls2, ms) {
                Some(ls3) => (ls3, n + 1),
                None => (ls2, n),
            },
            None => (ls2, n),
        }
    }
}

/// What re-applying a stored list blob does.
pub open spec fn list_structure_applied(ls: Seq<LineView>, json: Seq<char>) -> (Seq<LineView>, nat) {
    match json_shape(json) {
        ShapeView::Array(items) => applied_records(ls, items),
        _ => (ls, 0),
    }
}

fn lookup_member<'a>(ms: &'a Vec<(String, JsonScalar)>, key: &str) -> (r: Option<&'a JsonScalar>)
    ensures
        match (r, lookup(members_view(ms@), key@)) {
            (Some(v), Some(w)) => v@ == w,
            (None, None) => true,
            _ => false,
        },
{
    let ghost mv = members_view(ms@);
    let mut k: usize = 0;
    assert(mv.subrange(0, mv.len() as int) =~= mv);
    while k < ms.len()
        invariant
            k <= ms@.len(),
            mv == members_view(ms@),
            lookup(mv, key@) == lookup(mv.subrange(k as int, mv.len() as int), key@),
        decreases ms@.len() - k,
    {
        let ghost rest = mv.subrange(k as int, mv.len() as int);
        assert(rest[0] == mv[k as int]);
        assert(rest.drop_first() =~= mv.subrange(k + 1, mv.len() as int));
        if str_eq(ms[k].0.as_str(), key) {
            return Some(&ms[k].1);
        }
        k += 1;
    }
    None
}

/// Re-apply parsed list records to a document's lines, in order: a record
/// with an `i` in range and a `t` sets that line's list type, then its depth
/// from `d` (capped) and its tick from `c` (only on check items).
pub fn apply_list_records(
    lines: &mut [EditorLine],
    items: &Vec<Option<Vec<(String, JsonScalar)>>>,
) -> (applied: usize)
    ensures
        (views(final(lines)@), applied as nat) == applied_records(views(old(lines)@), items_view(items@)),
{
    let ghost ls0 = views(lines@);
    let ghost iv = items_view(items@);
    let mut applied: usize = 0;
    let mut k: usize = 0;
    while k < items.len()
        invariant
            k <= items@.len(),
            iv == items_view(items@),
            lines@.len() == ls0.len(),
            (views(lines@), applied as nat) == applied_records(ls0, iv.subrange(0, k as int)),
            applied <= k,
        decreases items@.len() - k,
    {
        let ghost sub = iv.subrange(0, k + 1);
        assert(sub.drop_last() =~= iv.subrange(0, k as int));
        assert(sub.last() == iv[k as int]);
        let ghost ls1 = views(lines@);
        if let Some(ms) = &items[k] {
            let index = lookup_member(ms, "i");
            let kind = lookup_member(ms, "t");
            if let (Some(JsonScalar::Unsigned(i)), Some(JsonScalar::Str(t))) = (index, kind) {
                let idx = *i as usize;
                if idx < lines.len() {
                    let lt = ListType::from_key(t.as_str());
                    lines[idx].list_type = lt;
                    if let Some(JsonScalar::Unsigned(d)) = lookup_member(ms, "d") {
                        let depth = *d as u8;
                        lines[idx].indent = if depth < MAX_INDENT {
                            depth
                        } else {
                            MAX_INDENT
                        };
                    }
                    if let Some(JsonScalar::Bool(c)) = lookup_member(ms, "c") {
                        lines[idx].checked = *c && lt == ListType::Check;
                    }
                    applied += 1;
                    proof {
                        let r = record_applied(ls1, members_view(ms@));
                        assert(r is Some);
                        assert(views(lines@) =~= r->0);
                    }
                }
            }
        }
        k += 1;
    }
    assert(iv.subrange(0, items@.len() as int) =~= iv);
    applied
}

/// A line's list fields as a stored record gives them back: list type,
/// depth capped at [`MAX_INDENT`], and the tick only on check items.
pub open spec fn list_restored(target: LineView, from: LineView) -> LineView {
    LineView {
        list_type: from.list_type,
        indent: if from.indent < MAX_INDENT {
            from.indent
        } else {
            MAX_INDENT
        },
        checked: from.checked && from.list_type is Check,
        ..target
    }
}

/// `target` with the list fields of every list line of `ls` restored.
pub open spec fn lists_restored(target: Seq<LineView>, ls: Seq<LineView>) -> Seq<LineView> {
    Seq::new(
        target.len(),
        |i: int|
            if i < ls.len() && !(ls[i].list_type is NoList) {
                list_restored(target[i], ls[i])
            } else {
                target[i]
            },
    )
}

/// How many lines carry a list marker.
pub open spec fn list_line_count(ls: Seq<LineView>) -> nat
    decreases ls.len(),
{
    if ls.len() == 0 {
        0
    } else {
        list_line_count(ls.drop_last()) + if ls.last().list_type is NoList {
            0nat
        } else {
            1nat
        }
    }
}

proof fn lemma_record_keys()
    ensures
        "i"@ != "t"@ && "i"@ != "d"@ && "i"@ != "c"@ && "t"@ != "d"@ && "t"@ != "c"@ && "d"@ != "c"@,
{
    reveal_strlit("i");
    reveal_strlit("t");
    reveal_strlit("d");
    reveal_strlit("c");
    assert("i"@[0] != "t"@[0] && "i"@[0] != "d"@[0] && "i"@[0] != "c"@[0]);
    assert("t"@[0] != "d"@[0] && "t"@[0] != "c"@[0] && "d"@[0] != "c"@[0]);
}

/// Re-applying the records that [`list_structure_json_for`] writes for `ls`
/// to lines at least as many restores the list fields of exactly the list
/// lines, and counts them.
pub proof fn lemma_list_records_reapply(target: Seq<LineView>, ls: Seq<LineView>)
    requires
        ls.len() <= target.len(),
        ls.len() <= usize::MAX,
    ensures
        applied_records(target, list_records(ls)) == (lists_restored(target, ls), list_line_count(ls)),
    decreases ls.len(),
{
    if ls.len() == 0 {
        assert(lists_restored(target, ls) =~= target);
    } else {
        let p = ls.drop_last();
        lemma_list_records_reapply(target, p);
        let n = ls.len() - 1;
        let l = ls.last();
        if !(l.list_type is NoList) {
            let rec = list_record(n, l);
            lemma_record_keys();
            assert(keys_distinct(rec));
            assert(rec[0] == ("i"@, ScalarView::Unsigned(n as u64)));
            assert(rec[1] == ("t"@, ScalarView::Str(list_key(l.list_type))));
            assert(rec[2] == ("d"@, ScalarView::Unsigned(l.indent as u64)));
            assert(rec[3] == ("c"@, ScalarView::Bool(l.checked)));
            lemma_lookup_member(rec, "i"@, ScalarView::Unsigned(n as u64));
            lemma_lookup_member(rec, "t"@, ScalarView::Str(list_key(l.list_type)));
            lemma_lookup_member(rec, "d"@, ScalarView::Unsigned(l.indent as u64));
            lemma_lookup_member(rec, "c"@, ScalarView::Bool(l.checked));
            lemma_list_key_roundtrip(l.list_type);
            assert(list_records(ls) =~= list_records(p).push(Some(rec)));
            assert(list_records(ls).drop_last() =~= list_records(p));
            assert(((n as u64) as usize) as int == n);
            assert(((l.indent as u64) as u8) == l.indent);
            assert(lists_restored(target, ls) =~= lists_restored(target, p).update(
                n,
                list_restored(target[n], l),
            ));
        } else {
            assert(list_records(ls) =~= list_records(p));
            assert(lists_restored(target, ls) =~= lists_restored(target, p));
        }
    }
}

proof fn lemma_list_records_distinct(ls: Seq<LineView>)
    ensures
        forall|i: int|
            0 <= i < list_records(ls).len() ==> (#[trigger] list_records(ls)[i]) is Some && keys_distinct(
                list_records(ls)[i]->0,
            ),
    decreases ls.len(),
{
    if ls.len() > 0 {
        lemma_list_records_distinct(ls.drop_last());
        lemma_record_keys();
        let p = list_records(ls.drop_last());
        assert forall|i: int| 0 <= i < list_records(ls).len() implies (#[trigger] list_records(ls)[i]) is Some
            && keys_distinct(list_records(ls)[i]->0) by {
            if i < p.len() {
                assert(list_records(ls)[i] == p[i]);
            }
        }
    }
}

proof fn lemma_records_read_back(
    target: Seq<LineView>,
    written: Seq<Option<Seq<(Seq<char>, ScalarView)>>>,
    read: Seq<Option<Seq<(Seq<char>, ScalarView)>>>,
)
    requires
        read.len() == written.len(),
        forall|i: int| 0 <= i < written.len() && (#[trigger] written[i]) is Some ==> keys_distinct(written[i]->0),
        forall|i: int|
            0 <= i < written.len() ==> match (#[trigger] written[i], read[i]) {
                (Some(a), Some(b)) => same_members(a, b),
                (None, None) => true,
                _ => false,
            },
    ensures
        applied_records(target, read) == applied_records(target, written),
    decreases written.len(),
{
    if written.len() > 0 {
        let n = written.len() - 1;
        assert forall|i: int| 0 <= i < written.drop_last().len() && (#[trigger] written.drop_last()[i]) is Some
            implies keys_distinct(written.drop_last()[i]->0) by {
            assert(written.drop_last()[i] == written[i]);
        }
        assert forall|i: int| 0 <= i < written.drop_last().len() implies match (#[trigger] written.drop_last()[i], read.drop_last()[i]) {
                (Some(a), Some(b)) => same_members(a, b),
                (None, None) => true,
                _ => false,
            } by {
            assert(written.drop_last()[i] == written[i]);
            assert(read.drop_last()[i] == read[i]);
            assert(written[i] == written[i]);
        }
        lemma_records_read_back(target, written.drop_last(), read.drop_last());
        let prior = applied_records(target, written.drop_last()).0;
        assert(written[n] == written[n]);
        if let Some(a) = written.last() {
            let b = read.last()->0;
            lemma_lookup_same_members(a, b, "i"@);
            lemma_lookup_same_members(a, b, "t"@);
            lemma_lookup_same_members(a, b, "d"@);
            lemma_lookup_same_members(a, b, "c"@);
            assert(record_applied(prior, a) == record_applied(prior, b));
        }
    }
}

/// Re-apply a `list_structure_json` blob to a document's lines.
pub fn apply_list_structure_json(lines: &mut [EditorLine], json: &str) -> (applied: usize)
    ensures
        (views(final(lines)@), applied as nat) == list_structure_applied(views(old(lines)@), json@),
{
    match parse_json(json) {
        JsonShape::Array(items) => apply_list_records(lines, &items),
        _ => 0,
    }
}

} // verus!
