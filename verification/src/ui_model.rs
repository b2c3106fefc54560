//! What the window layer asks of the core: the UI variants of a line, its
//! marker text, key normalisation for shortcuts, timestamps and export
//! file names.

use vstd::prelude::*;

use crate::editor::list_engine::{bullet_glyph_of, ListEngine};
use crate::files::line_endings::{ending_label, LineEnding};
use crate::text::{chars_of, decimal, push_decimal, to_owned_string};
use crate::types::line::{EditorLine, LineColour, ListType};

verus! {

// ── Line presentation ────────────────────────────────────────────────────

/// The colour variants the window knows; every custom colour is drawn with
/// its own accent under one variant.
#[derive(Debug, Clone, Copy, PartialEq, Eq, Structural)]
pub enum UiLineColour {
    NoColour,
    Yellow,
    Green,
    Pink,
    Blue,
    Orange,
    Purple,
    Custom,
}

/// The list variants the window knows.
#[derive(Debug, Clone, Copy, PartialEq, Eq, Structural)]
pub enum UiListType {
    NoList,
    Bullet,
    Number,
    Check,
}

/// The window variant of a line colour.
pub open spec fn ui_colour_of(c: LineColour) -> UiLineColour {
    match c {
        LineColour::NoColour => UiLineColour::NoColour,
        LineColour::Yellow => UiLineColour::Yellow,
        LineColour::Green => UiLineColour::Green,
        LineColour::Pink => UiLineColour::Pink,
        LineColour::Blue => UiLineColour::Blue,
        LineColour::Orange => UiLineColour::Orange,
        LineColour::Purple => UiLineColour::Purple,
        LineColour::Custom(_) => UiLineColour::Custom,
    }
}

pub fn ui_colour(colour: LineColour) -> (r: UiLineColour)
    ensures
        r == ui_colour_of(colour),
{
    match colour {
        LineColour::NoColour => UiLineColour::NoColour,
        LineColour::Yellow => UiLineColour::Yellow,
        LineColour::Green => UiLineColour::Green,
        LineColour::Pink => UiLineColour::Pink,
        LineColour::Blue => UiLineColour::Blue,
        LineColour::Orange => UiLineColour::Orange,
        LineColour::Purple => UiLineColour::Purple,
        LineColour::Custom(_) => UiLineColour::Custom,
    }
}

pub fn ui_list_type(list_type: ListType) -> (r: UiListType)
    ensures
        r == match list_type {
            ListType::NoList => UiListType::NoList,
            ListType::Bullet => UiListType::Bullet,
            ListType::Number => UiListType::Number,
            ListType::Check => UiListType::Check,
        },
{
    match list_type {
        ListType::NoList => UiListType::NoList,
        ListType::Bullet => UiListType::Bullet,
        ListType::Number => UiListType::Number,
        ListType::Check => UiListType::Check,
    }
}

/// The marker drawn before a line: the bullet glyph for its depth, the
/// number and a dot, or nothing (checkboxes are drawn as a widget).
pub open spec fn ui_marker(list_type: ListType, indent: u8, number: u32) -> Seq<char> {
    match list_type {
        ListType::Bullet => bullet_glyph_of(indent),
        ListType::Number => decimal(number as nat).push('.'),
        _ => Seq::empty(),
    }
}

/// The status bar's name for a line ending.
pub fn line_ending_label(ending: LineEnding) -> (s: String)
    ensures
        s@ == ending_label(ending),
{
    to_owned_string(ending.label())
}

/// Marker glyph or number text for the window.
pub fn marker_text(line: &EditorLine) -> (s: String)
    ensures
        s@ == ui_marker(line.list_type, line.indent, line.number),
{
    match line.list_type {
        ListType::Bullet => to_owned_string(ListEngine::bullet_glyph(line.indent)),
        ListType::Number => {
            let mut s = String::new();
            push_decimal(&mut s, line.number as u64);
            s.push('.');
            s
        },
        _ => String::new(),
    }
}

// ── Keys ─────────────────────────────────────────────────────────────────

/// Unicode general category `Cc`: U+0000..U+001F and U+007F..U+009F.
pub open spec fn is_control_char(c: char) -> bool {
    (c as u32) < 0x20 || (0x7f <= (c as u32) && (c as u32) <= 0x9f)
}

/// Whether the character is a control code (`Cc`), as `char::is_control`
/// answers.
fn is_control(c: char) -> (r: bool)
    ensures
        r == is_control_char(c),
{
    let v = c as u32;
    v < 0x20 || (0x7f <= v && v <= 0x9f)
}

/// ASCII upper-case letters lowered, everything else kept.
pub open spec fn ascii_lower(c: char) -> char {
    if 'A' <= c && c <= 'Z' {
        ((c as u32) + 32) as char
    } else {
        c
    }
}

/// The character a shortcut cares about: a control character `0x00..=0x1a`
/// maps back onto `@`, `a..z`; any other control character is not a
/// shortcut; anything else is lower-cased (ASCII only).
pub open spec fn normalized_key(text: Seq<char>) -> Option<char> {
    if text.len() == 0 {
        None
    } else if is_control_char(text[0]) {
        if (text[0] as u32) <= 0x1a {
            Some(((text[0] as u32) + 0x60) as char)
        } else {
            None
        }
    } else {
        Some(ascii_lower(text[0]))
    }
}

fn char_from_ascii(v: u32) -> (c: char)
    requires
        v < 0x80,
    ensures
        c == v as char,
{
    (v as u8) as char
}

/// Normalise a key event's text into the character a shortcut cares
/// about. Platforms differ: some deliver `"s"` with Ctrl held, others the
/// raw control character `"\u{13}"`; both are accepted.
pub fn normalize_key(text: &str) -> (r: Option<char>)
    ensures
        r == normalized_key(text@),
{
    let cs = chars_of(text);
    if cs.len() == 0 {
        return None;
    }
    let first = cs[0];
    if is_control(first) {
        if (first as u32) <= 0x1a {
            Some(char_from_ascii((first as u32) + 0x60))
        } else {
            None
        }
    } else if 'A' <= first && first <= 'Z' {
        Some(char_from_ascii((first as u32) + 32))
    } else {
        Some(first)
    }
}

// ── Timestamps ───────────────────────────────────────────────────────────

/// The civil date `days` days after 1970-01-01 (proleptic Gregorian), by
/// Howard Hinnant's `civil_from_days` (`era` is the floor of `z / 146097`).
pub open spec fn civil_of(days: int) -> (int, int, int) {
    let z = days + 719468;
    let era = z / 146097;
    let doe = z - era * 146097;
    let yoe = (doe - doe / 1460 + doe / 36524 - doe / 146096) / 365;
    let y = yoe + era * 400;
    let doy = doe - (365 * yoe + yoe / 4 - yoe / 100);
    let mp = (5 * doy + 2) / 153;
    let d = doy - (153 * mp + 2) / 5 + 1;
    let m = if mp < 10 {
        mp + 3
    } else {
        mp - 9
    };
    (if m <= 2 {
        y + 1
    } else {
        y
    }, m, d)
}

/// Days since the epoch to `(year, month, day)`.
pub fn civil_from_days(days: i64) -> (r: (i64, u32, u32))
    requires
        days <= i64::MAX - 719_468,
    ensures
        (r.0 as int, r.1 as int, r.2 as int) == civil_of(days as int),
        1 <= r.1 <= 12,
        1 <= r.2 <= 31,
        days >= 0 ==> r.0 >= 1600,
{
    let z = days + 719_468;
    // Floor division, kept on non-negative operands.
    let era = if z >= 0 {
        z / 146_097
    } else {
        -((146_096 - z) / 146_097)
    };
    proof {
        if z < 0 {
            let q = (146096 - z) / 146097;
            assert(-q == (z as int) / 146097) by (nonlinear_arith)
                requires
                    z < 0,
                    q == (146096 - z) / 146097,
            ;
        }
        assert(era as int == (z as int) / 146097);
        assert(0 <= z - era * 146097 < 146097) by (nonlinear_arith)
            requires
                era as int == (z as int) / 146097,
        ;
    }
    proof {
        if days >= 0 {
            assert(era >= 4) by (nonlinear_arith)
                requires
                    z >= 719468,
                    era as int == z / 146097,
            ;
        }
    }
    let doe_i = z - era * 146_097;
    let doe = doe_i as u64;
    let yoe = (doe - doe / 1_460 + doe / 36_524 - doe / 146_096) / 365;
    proof {
        assert(yoe <= 399) by (nonlinear_arith)
            requires
                doe < 146097,
                yoe == (doe - doe / 1460 + doe / 36524 - doe / 146096) / 365,
        ;
        assert(365 * yoe + yoe / 4 - yoe / 100 <= doe) by (nonlinear_arith)
            requires
                doe < 146097,
                yoe == (doe - doe / 1460 + doe / 36524 - doe / 146096) / 365,
        ;
    }
    let y = (yoe as i64) + era * 400;
    let doy = doe - (365 * yoe + yoe / 4 - yoe / 100);
    proof {
        assert(doy <= 365) by (nonlinear_arith)
            requires
                doe < 146097,
                yoe == (doe - doe / 1460 + doe / 36524 - doe / 146096) / 365,
                doy == doe - (365 * yoe + yoe / 4 - yoe / 100),
        ;
    }
    let mp = (5 * doy + 2) / 153;
    proof {
        assert(mp <= 11 && (153 * mp + 2) / 5 <= doy) by (nonlinear_arith)
            requires
                doy <= 365,
                mp == (5 * doy + 2) / 153,
        ;
        assert(doy - (153 * mp + 2) / 5 <= 30) by (nonlinear_arith)
            requires
                doy <= 365,
                mp == (5 * doy + 2) / 153,
        ;
    }
    let d = (doy - (153 * mp + 2) / 5 + 1) as u32;
    let m = (if mp < 10 {
        mp + 3
    } else {
        mp - 9
    }) as u32;
    (if m <= 2 {
        y + 1
    } else {
        y
    }, m, d)
}

/// Seconds since the Unix epoch from `SystemTime::now`, `0` when the clock
/// reads before the epoch. The reading depends on the time of the call;
/// nothing is promised of it.
#[verifier::external_body]
fn clock_secs() -> (r: u64) {
    std::time::SystemTime::now().duration_since(std::time::UNIX_EPOCH).map(|d| d.as_secs()).unwrap_or(0)
}

/// `n` in decimal, left-padded with zeros to `width` digits.
pub open spec fn padded(n: nat, width: nat) -> Seq<char> {
    let digits = decimal(n);
    if digits.len() >= width {
        digits
    } else {
        Seq::new((width - digits.len()) as nat, |i: int| '0') + digits
    }
}

fn push_padded(s: &mut String, n: u64, width: usize)
    ensures
        final(s)@ == old(s)@ + padded(n as nat, width as nat),
{
    let digits = crate::text::decimal_string(n);
    let dc = chars_of(digits.as_str());
    let mut k: usize = dc.len();
    let ghost start = s@;
    let mut zeros: usize = 0;
    while k < width
        invariant
            dc@.len() <= k <= width || (dc@.len() > width && k == dc@.len()),
            zeros == k - dc@.len(),
            s@ == start + Seq::new(zeros as nat, |i: int| '0'),
        decreases width - k,
    {
        s.push('0');
        assert(s@ =~= start + Seq::new((zeros + 1) as nat, |i: int| '0'));
        zeros += 1;
        k += 1;
    }
    let ghost mid = s@;
    crate::text::push_str(s, digits.as_str());
    proof {
        if dc@.len() >= width {
            assert(zeros == 0);
            assert(mid =~= start);
        }
        assert(s@ =~= start + padded(n as nat, width as nat));
    }
}

/// `YYYY-MM-DD HH:MM` for `secs` seconds after the epoch (UTC).
pub open spec fn stamp_of(secs: u64) -> Seq<char> {
    let (y, m, d) = civil_of(secs as int / 86400);
    padded(y as nat, 4) + "-"@ + padded(m as nat, 2) + "-"@ + padded(d as nat, 2) + " "@ + padded(
        (secs as int % 86400 / 3600) as nat,
        2,
    ) + ":"@ + padded((secs as int % 3600 / 60) as nat, 2)
}

/// The timestamp of `secs` seconds after the epoch.
pub fn datetime_at(secs: u64) -> (s: String)
    ensures
        s@ == stamp_of(secs),
{
    let (y, m, d) = civil_from_days((secs / 86_400) as i64);
    let hh = (secs % 86_400) / 3_600;
    let mm = (secs % 3_600) / 60;
    let mut s = String::new();
    push_padded(&mut s, y as u64, 4);
    crate::text::push_str(&mut s, "-");
    push_padded(&mut s, m as u64, 2);
    crate::text::push_str(&mut s, "-");
    push_padded(&mut s, d as u64, 2);
    crate::text::push_str(&mut s, " ");
    push_padded(&mut s, hh, 2);
    crate::text::push_str(&mut s, ":");
    push_padded(&mut s, mm, 2);
    s
}

/// The current date and time, `YYYY-MM-DD HH:MM` (UTC).
pub fn current_datetime() -> (s: String)
    ensures
        exists|secs: u64| s@ == stamp_of(secs),
{
    datetime_at(clock_secs())
}

// ── Export names ─────────────────────────────────────────────────────────

/// A character of an export label as it may appear in a file name: path
/// and shell punctuation become `-`, spaces `_`.
pub open spec fn safe_char(c: char) -> char {
    if c == '/' || c == '\\' || c == ':' || c == '*' || c == '?' || c == '"' || c == '<' || c
        == '>' || c == '|' || c == '#' {
        '-'
    } else if c == ' ' {
        '_'
    } else {
        c
    }
}

/// `s` without leading and trailing `c`.
pub open spec fn trim_char(s: Seq<char>, c: char) -> Seq<char>
    decreases s.len(),
{
    if s.len() > 0 && s[0] == c {
        trim_char(s.drop_first(), c)
    } else if s.len() > 0 && s.last() == c {
        trim_char(s.drop_last(), c)
    } else {
        s
    }
}

/// A file-name-safe form of an export label: unsafe characters replaced,
/// `-` then `_` trimmed from both ends, at most 40 characters, and
/// `colours` when nothing is left.
pub open spec fn sanitised(label: Seq<char>) -> Seq<char> {
    let cleaned = label.map_values(|c: char| safe_char(c));
    let t = trim_char(trim_char(cleaned, '-'), '_');
    if t.len() == 0 {
        "colours"@
    } else if t.len() <= 40 {
        t
    } else {
        t.subrange(0, 40)
    }
}

fn trim_char_exec(s: &Vec<char>, c: char) -> (r: Vec<char>)
    ensures
        r@ == trim_char(s@, c),
{
    let n = s.len();
    let mut a: usize = 0;
    let mut b: usize = n;
    assert(s@.subrange(0, n as int) =~= s@);
    while a < b && s[a] == c
        invariant
            a <= b <= n,
            n == s@.len(),
            b == n,
            trim_char(s@, c) == trim_char(s@.subrange(a as int, b as int), c),
        decreases b - a,
    {
        assert(s@.subrange(a as int, b as int).drop_first() =~= s@.subrange(a + 1, b as int));
        a += 1;
    }
    while a < b && s[b - 1] == c
        invariant
            a <= b <= n,
            n == s@.len(),
            trim_char(s@, c) == trim_char(s@.subrange(a as int, b as int), c),
            a == b || s@[a as int] != c,
        decreases b - a,
    {
        let ghost t = s@.subrange(a as int, b as int);
        assert(t.drop_last() =~= s@.subrange(a as int, b - 1));
        b -= 1;
        proof {
            if a < b {
                assert(s@.subrange(a as int, b as int)[0] == s@[a as int]);
            }
        }
    }
    let mut r: Vec<char> = Vec::new();
    let mut i: usize = a;
    while i < b
        invariant
            a <= i <= b <= n,
            n == s@.len(),
            r@ == s@.subrange(a as int, i as int),
        decreases b - i,
    {
        r.push(s[i]);
        i += 1;
    }
    proof {
        let t = s@.subrange(a as int, b as int);
        if t.len() > 0 {
            assert(t[0] == s@[a as int]);
            assert(t.last() == s@[b - 1]);
        }
    }
    r
}

/// A file-name-safe form of an export label.
pub fn sanitise(label: &str) -> (s: String)
    ensures
        s@ == sanitised(label@),
{
    let cs = chars_of(label);
    let mut cleaned: Vec<char> = Vec::new();
    let mut i: usize = 0;
    while i < cs.len()
        invariant
            i <= cs@.len(),
            cs@ == label@,
            cleaned@ == cs@.subrange(0, i as int).map_values(|c: char| safe_char(c)),
        decreases cs@.len() - i,
    {
        let c = cs[i];
        let m = if c == '/' || c == '\\' || c == ':' || c == '*' || c == '?' || c == '"' || c
            == '<' || c == '>' || c == '|' || c == '#' {
            '-'
        } else if c == ' ' {
            '_'
        } else {
            c
        };
        cleaned.push(m);
        assert(cleaned@ =~= cs@.subrange(0, i + 1).map_values(|c: char| safe_char(c)));
        i += 1;
    }
    assert(cs@.subrange(0, cs@.len() as int) =~= cs@);
    let t1 = trim_char_exec(&cleaned, '-');
    let t = trim_char_exec(&t1, '_');
    if t.len() == 0 {
        to_owned_string("colours")
    } else if t.len() <= 40 {
        crate::text::string_from_chars(&t)
    } else {
        let mut head: Vec<char> = Vec::new();
        let mut k: usize = 0;
        while k < 40
            invariant
                k <= 40 < t@.len(),
                head@ == t@.subrange(0, k as int),
            decreases 40 - k,
        {
            head.push(t[k]);
            k += 1;
        }
        crate::text::string_from_chars(&head)
    }
}

} // verus!
