//! The rules of the application settings: where they live, the ranges
//! every value is kept in, the recent-files list and the custom palette.
//! Reading and writing `settings.json` is the application's work.

use vstd::prelude::*;

use crate::files::manager::{join_path, path_joined};
use crate::highlight::palette::{is_known_theme, theme_names};
use crate::text::{chars_of, str_eq, to_owned_string, trimmed};
use crate::types::note::{CustomColour, CustomColourView};

verus! {

/// Most recently opened files kept.
pub const MAX_RECENT_FILES: usize = 20;

/// Custom swatches kept.
pub const MAX_CUSTOM_COLOURS: usize = 64;

// ── Where the files live ─────────────────────────────────────────────────

/// `dirs::data_dir`, converted to a `String`. The answer depends on the
/// platform and the environment; nothing is promised of it.
#[verifier::external_body]
fn platform_data_dir() -> (r: Option<String>) {
    dirs::data_dir().map(|p| p.to_string_lossy().into_owned())
}

/// `dirs::home_dir`, converted to a `String`. The answer depends on the
/// platform and the environment; nothing is promised of it.
#[verifier::external_body]
fn platform_home_dir() -> (r: Option<String>) {
    dirs::home_dir().map(|p| p.to_string_lossy().into_owned())
}

/// The application directory below a base directory.
pub open spec fn app_dir(base: Seq<char>) -> Seq<char> {
    path_joined(base, "NotePadPro"@)
}

/// The base directory chosen from the platform data directory and the
/// home directory: the data directory, else home, else `.`.
pub open spec fn base_dir(data: Option<Seq<char>>, home: Option<Seq<char>>) -> Seq<char> {
    match data {
        Some(b) => b,
        None => match home {
            Some(h) => h,
            None => "."@,
        },
    }
}

/// The application directory for the platform data directory `data` and
/// the home directory `home`: `NotePadPro` below the data directory, else
/// below home, else below `.`.
pub fn data_dir_from(data: Option<String>, home: Option<String>) -> (d: String)
    ensures
        d@ == app_dir(base_dir(crate::types::api::opt_view(data), crate::types::api::opt_view(home))),
{
    let base = match data {
        Some(b) => b,
        None => match home {
            Some(h) => h,
            None => to_owned_string("."),
        },
    };
    join_path(base.as_str(), "NotePadPro")
}

/// Directory holding settings.json, session.json and notes.db: the
/// platform data directory, else the home directory, else `.`, with
/// `NotePadPro` appended. The home directory is asked for only when the
/// platform has no data directory.
pub fn data_dir() -> (d: String)
    ensures
        exists|data: Option<Seq<char>>, home: Option<Seq<char>>| d@ == app_dir(base_dir(data, home)),
{
    let data = platform_data_dir();
    let home = if data.is_none() {
        platform_home_dir()
    } else {
        None
    };
    let ghost dv = crate::types::api::opt_view(data);
    let ghost hv = crate::types::api::opt_view(home);
    let d = data_dir_from(data, home);
    assert(d@ == app_dir(base_dir(dv, hv)));
    d
}

/// The file `name` in the application directory below some base.
pub open spec fn in_app_dir(p: Seq<char>, name: Seq<char>) -> bool {
    exists|data: Option<Seq<char>>, home: Option<Seq<char>>| p == path_joined(app_dir(base_dir(data, home)), name)
}

/// `settings.json` in the directory `dir`.
pub fn settings_path_in(dir: &str) -> (p: String)
    ensures
        p@ == path_joined(dir@, "settings.json"@),
{
    join_path(dir, "settings.json")
}

/// `session.json` in the directory `dir`.
pub fn session_path_in(dir: &str) -> (p: String)
    ensures
        p@ == path_joined(dir@, "session.json"@),
{
    join_path(dir, "session.json")
}

/// `notes.db` in the directory `dir`.
pub fn db_path_in(dir: &str) -> (p: String)
    ensures
        p@ == path_joined(dir@, "notes.db"@),
{
    join_path(dir, "notes.db")
}

pub fn settings_path() -> (p: String)
    ensures
        in_app_dir(p@, "settings.json"@),
{
    settings_path_in(data_dir().as_str())
}

pub fn session_path() -> (p: String)
    ensures
        in_app_dir(p@, "session.json"@),
{
    session_path_in(data_dir().as_str())
}

pub fn db_path() -> (p: String)
    ensures
        in_app_dir(p@, "notes.db"@),
{
    db_path_in(data_dir().as_str())
}

// ── Value ranges ─────────────────────────────────────────────────────────

/// `x` clamped into `lo..=hi`.
pub open spec fn clamped(x: int, lo: int, hi: int) -> int {
    if x < lo {
        lo
    } else if x > hi {
        hi
    } else {
        x
    }
}

/// Font size kept in `8..=72`.
pub fn clamp_font_size(size: u8) -> (r: u8)
    ensures
        r == clamped(size as int, 8, 72),
{
    if size < 8 {
        8
    } else if size > 72 {
        72
    } else {
        size
    }
}

/// Autosave interval kept in `1..=3600` seconds.
pub fn clamp_autosave_interval(secs: u32) -> (r: u32)
    ensures
        r == clamped(secs as int, 1, 3600),
{
    if secs < 1 {
        1
    } else if secs > 3600 {
        3600
    } else {
        secs
    }
}

/// The theme kept: a known theme, else `light`.
pub open spec fn kept_theme(t: Seq<char>) -> Seq<char> {
    if t.len() > 0 && theme_names().contains(t) {
        t
    } else {
        "light"@
    }
}

pub fn theme_or_default(theme: &str) -> (r: String)
    ensures
        r@ == kept_theme(theme@),
{
    if !theme.is_empty() && is_known_theme(theme) {
        to_owned_string(theme)
    } else {
        to_owned_string("light")
    }
}

/// The font family kept: `Consolas` when blank.
pub open spec fn kept_font_family(f: Seq<char>) -> Seq<char> {
    if trimmed(f).len() == 0 {
        "Consolas"@
    } else {
        f
    }
}

pub fn font_family_or_default(family: &str) -> (r: String)
    ensures
        r@ == kept_font_family(family@),
{
    let cs = chars_of(family);
    let t = crate::text::trimmed_chars(&cs);
    if t.len() == 0 {
        to_owned_string("Consolas")
    } else {
        to_owned_string(family)
    }
}

/// The extract order kept: `document` or `grouped`, else `document`.
pub open spec fn kept_extract_order(o: Seq<char>) -> Seq<char> {
    if o == "document"@ || o == "grouped"@ {
        o
    } else {
        "document"@
    }
}

pub fn extract_order_or_default(order: &str) -> (r: String)
    ensures
        r@ == kept_extract_order(order@),
{
    if str_eq(order, "document") || str_eq(order, "grouped") {
        to_owned_string(order)
    } else {
        to_owned_string("document")
    }
}

/// The sidebar sort kept: `modified`, `title` or `created`, else
/// `modified`.
pub open spec fn kept_sidebar_sort(s: Seq<char>) -> Seq<char> {
    if s == "modified"@ || s == "title"@ || s == "created"@ {
        s
    } else {
        "modified"@
    }
}

pub fn sidebar_sort_or_default(sort: &str) -> (r: String)
    ensures
        r@ == kept_sidebar_sort(sort@),
{
    if str_eq(sort, "modified") || str_eq(sort, "title") || str_eq(sort, "created") {
        to_owned_string(sort)
    } else {
        to_owned_string("modified")
    }
}

// ── Recent files ─────────────────────────────────────────────────────────

/// The views of a list of strings.
pub open spec fn strs(v: Seq<String>) -> Seq<Seq<char>> {
    v.map_values(|s: String| s@)
}

/// The first `n` items (all of them when there are fewer).
pub open spec fn first_n<A>(s: Seq<A>, n: nat) -> Seq<A> {
    if s.len() <= n {
        s
    } else {
        s.subrange(0, n as int)
    }
}

/// The recent list without blank entries, capped at [`MAX_RECENT_FILES`].
pub open spec fn cleaned_recent(files: Seq<Seq<char>>) -> Seq<Seq<char>> {
    first_n(files.filter(|p: Seq<char>| trimmed(p).len() > 0), MAX_RECENT_FILES as nat)
}

/// The recent list after opening `path`: the path moves to the front, no
/// duplicate, capped at [`MAX_RECENT_FILES`]; a blank path changes nothing.
pub open spec fn remembered_files(files: Seq<Seq<char>>, path: Seq<char>) -> Seq<Seq<char>> {
    if trimmed(path).len() == 0 {
        files
    } else {
        first_n(seq![path] + files.filter(|p: Seq<char>| p != path), MAX_RECENT_FILES as nat)
    }
}

fn truncate_strings(v: &mut Vec<String>, n: usize)
    ensures
        strs(final(v)@) == first_n(strs(old(v)@), n as nat),
{
    if v.len() > n {
        v.truncate(n);
        assert(strs(v@) =~= strs(old(v)@).subrange(0, n as int));
    }
}

fn is_blank(s: &str) -> (r: bool)
    ensures
        r == (trimmed(s@).len() == 0),
{
    let cs = chars_of(s);
    crate::text::trimmed_chars(&cs).len() == 0
}

/// Drop blank entries and cap the list.
pub fn clean_recent_files(files: &mut Vec<String>)
    ensures
        strs(final(files)@) == cleaned_recent(strs(old(files)@)),
{
    let ghost pred = |p: Seq<char>| trimmed(p).len() > 0;
    let ghost orig = strs(files@);
    let mut kept: Vec<String> = Vec::new();
    let mut i: usize = 0;
    while i < files.len()
        invariant
            i <= files@.len(),
            orig == strs(files@),
            pred == (|p: Seq<char>| trimmed(p).len() > 0),
            strs(kept@) == orig.subrange(0, i as int).filter(pred),
        decreases files@.len() - i,
    {
        let ghost pre = orig.subrange(0, i as int);
        let ghost nxt = orig.subrange(0, i + 1);
        assert(nxt.drop_last() =~= pre);
        assert(nxt.filter(pred) == if pred(nxt.last()) {
            pre.filter(pred).push(nxt.last())
        } else {
            pre.filter(pred)
        }) by {
            reveal(Seq::filter);
        }
        if !is_blank(files[i].as_str()) {
            kept.push(files[i].clone());
            assert(strs(kept@) =~= strs(kept@.drop_last()).push(kept@.last()@));
        }
        i += 1;
    }
    assert(orig.subrange(0, orig.len() as int) =~= orig);
    truncate_strings(&mut kept, MAX_RECENT_FILES);
    *files = kept;
}

/// Push a path onto the recent list, de-duplicating and capping it.
pub fn remember_file(files: &mut Vec<String>, path: &str)
    ensures
        strs(final(files)@) == remembered_files(strs(old(files)@), path@),
{
    if is_blank(path) {
        return;
    }
    let ghost pred = |p: Seq<char>| p != path@;
    let ghost orig = strs(files@);
    let mut out: Vec<String> = Vec::new();
    out.push(to_owned_string(path));
    let mut i: usize = 0;
    assert(strs(out@) =~= seq![path@] + orig.subrange(0, 0).filter(pred)) by {
        reveal(Seq::filter);
    }
    while i < files.len()
        invariant
            i <= files@.len(),
            orig == strs(files@),
            pred == (|p: Seq<char>| p != path@),
            strs(out@) == seq![path@] + orig.subrange(0, i as int).filter(pred),
        decreases files@.len() - i,
    {
        let ghost pre = orig.subrange(0, i as int);
        let ghost nxt = orig.subrange(0, i + 1);
        assert(nxt.drop_last() =~= pre);
        assert(nxt.filter(pred) == if pred(nxt.last()) {
            pre.filter(pred).push(nxt.last())
        } else {
            pre.filter(pred)
        }) by {
            reveal(Seq::filter);
        }
        assert(nxt.last() == files@[i as int]@);
        let ghost out0 = out@;
        if !str_eq(files[i].as_str(), path) {
            out.push(files[i].clone());
            assert(out@.drop_last() =~= out0);
            assert(strs(out@) =~= strs(out@.drop_last()).push(out@.last()@));
            assert(strs(out@) =~= seq![path@] + pre.filter(pred).push(nxt.last()));
        }
        i += 1;
    }
    assert(orig.subrange(0, orig.len() as int) =~= orig);
    truncate_strings(&mut out, MAX_RECENT_FILES);
    *files = out;
}

// ── Custom palette ───────────────────────────────────────────────────────

/// The views of a list of custom swatches.
pub open spec fn swatches(v: Seq<CustomColour>) -> Seq<CustomColourView> {
    v.map_values(|c: CustomColour| c@)
}

/// The custom palette after adding `c`: a swatch with the same hex is
/// replaced, `c` goes last, and the list is capped at
/// [`MAX_CUSTOM_COLOURS`].
pub open spec fn palette_after_adding(custom: Seq<CustomColourView>, c: CustomColourView) -> Seq<
    CustomColourView,
> {
    first_n(custom.filter(|x: CustomColourView| x.hex != c.hex).push(c), MAX_CUSTOM_COLOURS as nat)
}

/// Add a swatch to the saved custom palette.
pub fn add_custom_colour(custom: &mut Vec<CustomColour>, colour: CustomColour)
    ensures
        swatches(final(custom)@) == palette_after_adding(swatches(old(custom)@), colour@),
{
    let ghost pred = |x: CustomColourView| x.hex != colour@.hex;
    let ghost orig = swatches(custom@);
    let mut kept: Vec<CustomColour> = Vec::new();
    let mut i: usize = 0;
    while i < custom.len()
        invariant
            i <= custom@.len(),
            orig == swatches(custom@),
            pred == (|x: CustomColourView| x.hex != colour@.hex),
            swatches(kept@) == orig.subrange(0, i as int).filter(pred),
        decreases custom@.len() - i,
    {
        let ghost pre = orig.subrange(0, i as int);
        let ghost nxt = orig.subrange(0, i + 1);
        assert(nxt.drop_last() =~= pre);
        assert(nxt.filter(pred) == if pred(nxt.last()) {
            pre.filter(pred).push(nxt.last())
        } else {
            pre.filter(pred)
        }) by {
            reveal(Seq::filter);
        }
        if !str_eq(custom[i].hex.as_str(), colour.hex.as_str()) {
            kept.push(custom[i].clone());
            assert(swatches(kept@) =~= swatches(kept@.drop_last()).push(kept@.last()@));
        }
        i += 1;
    }
    assert(orig.subrange(0, orig.len() as int) =~= orig);
    kept.push(colour);
    assert(swatches(kept@) =~= swatches(kept@.drop_last()).push(kept@.last()@));
    if kept.len() > MAX_CUSTOM_COLOURS {
        let ghost before = swatches(kept@);
        kept.truncate(MAX_CUSTOM_COLOURS);
        assert(swatches(kept@) =~= before.subrange(0, MAX_CUSTOM_COLOURS as int));
    }
    *custom = kept;
}

// ── Keys from the UI ─────────────────────────────────────────────────────

/// What `char::to_uppercase` yields for a character.
pub uninterp spec fn upper_chars(c: char) -> Seq<char>;

/// `char::to_uppercase`, collected. An ASCII lower-case letter becomes its
/// capital and any other ASCII character stays as it is; elsewhere the
/// Unicode mapping (possibly several characters) is only named.
#[verifier::external_body]
fn upper_of(c: char) -> (r: Vec<char>)
    ensures
        r@ == upper_chars(c),
        ('a' <= c && c <= 'z') ==> r@.len() == 1 && r@[0] as u32 == c as u32 - 32,
        ((c as u32) < 0x80 && !('a' <= c && c <= 'z')) ==> r@ == seq![c],
{
    c.to_uppercase().collect()
}

/// `snake_case` or `kebab-case` to `camelCase`: each `_` or `-` is dropped
/// and the character after it upper-cased.
pub open spec fn camel_from(s: Seq<char>, upper_next: bool) -> Seq<char>
    decreases s.len(),
{
    if s.len() == 0 {
        Seq::empty()
    } else if s[0] == '_' || s[0] == '-' {
        camel_from(s.drop_first(), true)
    } else if upper_next {
        upper_chars(s[0]) + camel_from(s.drop_first(), false)
    } else {
        seq![s[0]] + camel_from(s.drop_first(), false)
    }
}

/// `sidebar_sort` -> `sidebarSort` (accepts both spellings from the UI).
pub fn to_camel_case(key: &str) -> (out: String)
    ensures
        out@ == camel_from(key@, false),
{
    let cs = chars_of(key);
    let n = cs.len();
    let mut out = String::new();
    let mut upper_next = false;
    let mut i: usize = 0;
    assert(cs@.subrange(0, n as int) =~= cs@);
    while i < n
        invariant
            i <= n,
            n == cs@.len(),
            cs@ == key@,
            out@ + camel_from(cs@.subrange(i as int, n as int), upper_next) == camel_from(key@, false),
        decreases n - i,
    {
        let c = cs[i];
        let ghost rest = cs@.subrange(i as int, n as int);
        assert(rest.drop_first() =~= cs@.subrange(i + 1, n as int));
        let ghost before = out@;
        if c == '_' || c == '-' {
            upper_next = true;
        } else if upper_next {
            let u = upper_of(c);
            let mut k: usize = 0;
            while k < u.len()
                invariant
                    k <= u@.len(),
                    out@ == before + u@.subrange(0, k as int),
                decreases u@.len() - k,
            {
                out.push(u[k]);
                k += 1;
            }
            assert(u@.subrange(0, u@.len() as int) =~= u@);
            assert(before + camel_from(rest, true) =~= out@ + camel_from(
                cs@.subrange(i + 1, n as int),
                false,
            ));
            upper_next = false;
        } else {
            out.push(c);
            assert(before + camel_from(rest, false) =~= out@ + camel_from(
                cs@.subrange(i + 1, n as int),
                false,
            ));
        }
        i += 1;
    }
    assert(cs@.subrange(n as int, n as int) =~= Seq::<char>::empty());
    assert(out@ + Seq::<char>::empty() =~= out@);
    out
}

} // verus!
