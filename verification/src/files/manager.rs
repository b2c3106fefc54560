//! Documents on disk: what a loaded file holds, and the path rules for
//! saving. The reads and writes themselves are the application's.

use vstd::prelude::*;

use crate::files::encoding::{decode, decoded_text, detect_encoding, label_in_use, sniffed};
use crate::files::line_endings::{break_seq, converted, detected, LineEnding};
use crate::text::{hex_digits, push_hex, push_str, to_owned_string};

verus! {

/// Largest file the editor will open (16 MiB of text). Beyond that the
/// per-line model would be unusable, so it is refused with a clear message.
pub const MAX_FILE_BYTES: u64 = 16 * 1024 * 1024;

/// A file read from disk, fully decoded.
#[derive(Debug, PartialEq)]
pub struct LoadedFile {
    pub path: String,
    pub content: String,
    pub encoding: String,
    pub line_ending: LineEnding,
    pub had_bom: bool,
    pub byte_size: usize,
}

// ── Paths ────────────────────────────────────────────────────────────────

/// The last component of a path as `Path::file_name` reports it.
pub uninterp spec fn path_file_name(path: Seq<char>) -> Option<Seq<char>>;

/// `Path::file_name`, converted to a `String`: the final normal component,
/// `None` for a path that ends in `..` or is a root or empty.
#[verifier::external_body]
fn final_component(path: &str) -> (r: Option<String>)
    ensures
        r matches Some(s) ==> path_file_name(path@) == Some(s@),
        r is None ==> path_file_name(path@) is None,
{
    std::path::Path::new(path).file_name().map(|s| s.to_string_lossy().into_owned())
}

/// Whether `Path::extension` finds an extension.
pub uninterp spec fn path_has_extension(path: Seq<char>) -> bool;

/// `Path::extension().is_some()`.
#[verifier::external_body]
fn has_extension(path: &str) -> (r: bool)
    ensures
        r == path_has_extension(path@),
{
    std::path::Path::new(path).extension().is_some()
}

/// What `Path::with_extension` makes of a path and an extension.
pub uninterp spec fn path_with_extension(path: Seq<char>, ext: Seq<char>) -> Seq<char>;

/// An extension `Path::with_extension` accepts: it panics on one holding
/// a path separator (`/`, and on Windows also `\`), so both are left out
/// on every platform.
pub open spec fn plain_extension(ext: Seq<char>) -> bool {
    !ext.contains('/') && !ext.contains('\\')
}

/// `Path::with_extension`, converted to a `String`.
#[verifier::external_body]
fn replace_extension(path: &str, ext: &str) -> (r: String)
    requires
        plain_extension(ext@),
    ensures
        r@ == path_with_extension(path@, ext@),
{
    std::path::Path::new(path).with_extension(ext).to_string_lossy().into_owned()
}

/// The parent of a path as `Path::parent` reports it.
pub uninterp spec fn path_parent(path: Seq<char>) -> Option<Seq<char>>;

/// `Path::parent`, converted to a `String`.
#[verifier::external_body]
fn parent_of(path: &str) -> (r: Option<String>)
    ensures
        r matches Some(s) ==> path_parent(path@) == Some(s@),
        r is None ==> path_parent(path@) is None,
{
    std::path::Path::new(path).parent().map(|p| p.to_string_lossy().into_owned())
}

/// What `Path::join` makes of a base and a further component.
pub uninterp spec fn path_joined(base: Seq<char>, name: Seq<char>) -> Seq<char>;

/// `Path::join`, converted to a `String`.
#[verifier::external_body]
pub(crate) fn join_path(base: &str, name: &str) -> (r: String)
    ensures
        r@ == path_joined(base@, name@),
{
    std::path::Path::new(base).join(name).to_string_lossy().into_owned()
}

/// Nanoseconds since the Unix epoch from `SystemTime::now`, `0` when the
/// clock reads before the epoch. The reading depends on the time of the call;
/// nothing is promised of it.
#[verifier::external_body]
pub(crate) fn clock_nanos() -> (r: u128) {
    std::time::SystemTime::now().duration_since(std::time::UNIX_EPOCH).map(|d| d.as_nanos()).unwrap_or(0)
}

/// Display name used for tab titles: the last component, or the whole
/// path when there is none.
pub open spec fn display_file_name(path: Seq<char>) -> Seq<char> {
    match path_file_name(path) {
        Some(n) => n,
        None => path,
    }
}

/// Display name used for tab titles.
pub fn file_name(path: &str) -> (s: String)
    ensures
        s@ == display_file_name(path@),
{
    match final_component(path) {
        Some(n) => n,
        None => to_owned_string(path),
    }
}

/// The path with `extension` added when it has none.
pub open spec fn extended(path: Seq<char>, ext: Seq<char>) -> Seq<char> {
    if path_has_extension(path) {
        path
    } else {
        path_with_extension(path, ext)
    }
}

/// Ensure the path carries `extension`, adding it when missing.
pub fn with_extension(path: &str, extension: &str) -> (s: String)
    requires
        plain_extension(extension@),
    ensures
        s@ == extended(path@, extension@),
{
    if has_extension(path) {
        to_owned_string(path)
    } else {
        replace_extension(path, extension)
    }
}

/// The hidden temporary name for `path` at clock reading `nanos`:
/// `.{name}.{nanos in hex}.tmp`, next to the original when it has a
/// parent directory.
pub open spec fn temp_name(path: Seq<char>, nanos: u128) -> Seq<char> {
    let name = match path_file_name(path) {
        Some(n) => n,
        None => "file"@,
    };
    let unique = "."@ + name + "."@ + hex_digits(nanos as nat) + ".tmp"@;
    match path_parent(path) {
        Some(p) => if p.len() > 0 {
            path_joined(p, unique)
        } else {
            unique
        },
        None => unique,
    }
}

/// The temporary write target for `path` at clock reading `nanos`.
pub fn temp_sibling_at(path: &str, nanos: u128) -> (s: String)
    ensures
        s@ == temp_name(path@, nanos),
{
    let name = match final_component(path) {
        Some(n) => n,
        None => to_owned_string("file"),
    };
    let mut unique = to_owned_string(".");
    push_str(&mut unique, name.as_str());
    push_str(&mut unique, ".");
    push_hex(&mut unique, nanos);
    push_str(&mut unique, ".tmp");
    match parent_of(path) {
        Some(p) => {
            if p.as_str().is_empty() {
                unique
            } else {
                join_path(p.as_str(), unique.as_str())
            }
        },
        None => unique,
    }
}

/// A unique hidden sibling used as the write target: its name carries the
/// current clock reading.
pub fn temp_sibling(path: &str) -> (s: String)
    ensures
        exists|nanos: u128| s@ == temp_name(path@, nanos),
{
    let nanos = clock_nanos();
    temp_sibling_at(path, nanos)
}

// ── Loading ──────────────────────────────────────────────────────────────

/// The message for a file that may not be opened, or `None` when it may:
/// `{path} is a directory`, or `{path} is {n} MiB, above the 16 MiB limit`.
pub fn load_refusal(path: &str, is_dir: bool, len: u64) -> (r: Option<String>)
    ensures
        r is Some <==> (is_dir || len > MAX_FILE_BYTES),
        is_dir ==> (r matches Some(m) && m@ == path@ + " is a directory"@),
        !is_dir && len > MAX_FILE_BYTES ==> (r matches Some(m) && m@ == path@ + " is "@
            + crate::text::decimal((len as int / 1048576) as nat) + " MiB, above the "@
            + crate::text::decimal((MAX_FILE_BYTES as int / 1048576) as nat) + " MiB limit"@),
{
    if is_dir {
        let mut m = to_owned_string(path);
        push_str(&mut m, " is a directory");
        Some(m)
    } else if len > MAX_FILE_BYTES {
        let mut m = to_owned_string(path);
        push_str(&mut m, " is ");
        crate::text::push_decimal(&mut m, len / (1024 * 1024));
        push_str(&mut m, " MiB, above the ");
        crate::text::push_decimal(&mut m, MAX_FILE_BYTES / (1024 * 1024));
        push_str(&mut m, " MiB limit");
        Some(m)
    } else {
        None
    }
}

/// The decoded text of a file's bytes: the BOM skipped, the rest decoded
/// in the sniffed encoding.
pub open spec fn decoded_file(raw: Seq<u8>) -> Seq<char> {
    let info = sniffed(raw);
    let offset = if info.bom_len < raw.len() {
        info.bom_len as int
    } else {
        raw.len() as int
    };
    decoded_text(label_in_use(info.label), raw.subrange(offset, raw.len() as int))
}

/// Decode the bytes read from `path`: sniff the encoding, decode, note the
/// dominant line ending and normalise the text to LF in memory (the
/// original style is restored on save).
pub fn loaded_from_bytes(path: &str, raw: &[u8]) -> (f: LoadedFile)
    requires
        raw@.len() <= usize::MAX / 4,
    ensures
        f.path@ == path@,
        f.encoding@ == sniffed(raw@).label,
        f.had_bom == sniffed(raw@).has_bom,
        f.line_ending == detected(decoded_file(raw@)),
        f.content@ == converted(decoded_file(raw@), break_seq(LineEnding::Lf)),
        f.byte_size == raw@.len(),
{
    let info = detect_encoding(raw);
    let text = decode(raw, &info);
    let line_ending = LineEnding::detect(text.as_str());
    let content = LineEnding::Lf.apply(text.as_str());
    LoadedFile {
        path: to_owned_string(path),
        content,
        encoding: info.label,
        line_ending,
        had_bom: info.has_bom,
        byte_size: raw.len(),
    }
}

} // verus!
