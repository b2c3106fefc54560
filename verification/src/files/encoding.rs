//! Character-set detection.
//!
//! Order of precedence: UTF-8 BOM, UTF-32 and UTF-16 BOMs, strict UTF-8
//! validation, then a statistical guess via `chardet`. The returned label is
//! always one `encoding_rs` understands, so the caller never has to guess
//! twice.

use vstd::prelude::*;

use crate::text::to_owned_string;

verus! {

/// IEEE-754 bits of the `f32` value `1.0`: full confidence.
pub const FULL_CONFIDENCE_BITS: u32 = 0x3F80_0000;

/// Result of sniffing a byte buffer.
#[derive(Debug, PartialEq, Eq)]
pub struct EncodingInfo {
    /// `encoding_rs` label, e.g. `utf-8`, `utf-16le`, `windows-1252`.
    pub label: String,
    /// `true` when a byte-order mark was found and must be skipped.
    pub has_bom: bool,
    /// Length of the BOM in bytes.
    pub bom_len: usize,
    /// Detection confidence in `0.0..=1.0`, held as the bits of an `f32`;
    /// [`FULL_CONFIDENCE_BITS`] for BOM and UTF-8 hits.
    pub confidence_bits: u32,
}

/// The mathematical content of an [`EncodingInfo`].
pub struct EncodingInfoView {
    pub label: Seq<char>,
    pub has_bom: bool,
    pub bom_len: nat,
    pub confidence_bits: u32,
}

impl View for EncodingInfo {
    type V = EncodingInfoView;

    open spec fn view(&self) -> EncodingInfoView {
        EncodingInfoView {
            label: self.label@,
            has_bom: self.has_bom,
            bom_len: self.bom_len as nat,
            confidence_bits: self.confidence_bits,
        }
    }
}

impl EncodingInfo {
    pub fn is_utf8(&self) -> (r: bool)
        ensures
            r == (self.label@ == "utf-8"@),
    {
        crate::text::str_eq(self.label.as_str(), "utf-8")
    }
}

// ── Outside calls ────────────────────────────────────────────────────────

/// `std::str::from_utf8(raw).is_ok()`: the bytes are well-formed UTF-8
/// (no stray continuation byte, no overlong form, no surrogate, nothing
/// above U+10FFFF).
#[verifier::external_body]
fn is_valid_utf8(raw: &[u8]) -> (r: bool)
    ensures
        r == vstd::utf8::valid_utf8(raw@),
{
    std::str::from_utf8(raw).is_ok()
}

/// What `chardet::detect` answers for a buffer: the charset name and the
/// bits of its `f32` confidence.
pub uninterp spec fn chardet_guess(raw: Seq<u8>) -> (Seq<char>, u32);

/// Inputs on which chardet's detector finishes: some byte with the high
/// bit set other than 0xA0 (the detector then runs its statistical
/// probers), or no escape byte 0x1B at all (it then reports `ascii`). On
/// the rest it runs its escape-sequence prober and, when that finds
/// nothing, reaches an `unreachable!()` when it closes.
pub open spec fn chardet_safe(raw: Seq<u8>) -> bool {
    (exists|i: int| 0 <= i < raw.len() && #[trigger] raw[i] >= 0x80 && raw[i] != 0xA0)
        || (forall|i: int| 0 <= i < raw.len() ==> #[trigger] raw[i] != 0x1B)
}

/// `chardet::detect`: a statistical guess of the charset. The guess is a
/// function of the bytes alone; nothing more is said of it here. The
/// language name it also reports is dropped.
#[verifier::external_body]
fn chardet_detect(raw: &[u8]) -> (r: (String, u32))
    requires
        chardet_safe(raw@),
    ensures
        (r.0@, r.1) == chardet_guess(raw@),
{
    let (charset, confidence, _language) = chardet::detect(raw);
    (charset, confidence.to_bits())
}

/// `chardet::charset2encoding`: three charset names are renamed for
/// `encoding_rs`, every other name passes through.
pub open spec fn charset_encoding_name(charset: Seq<char>) -> Seq<char> {
    if charset == "CP932"@ {
        "windows-31j"@
    } else if charset == "CP949"@ {
        "windows-949"@
    } else if charset == "MacCyrillic"@ {
        "x-mac-cyrillic"@
    } else {
        charset
    }
}

/// `chardet::charset2encoding`, which maps `CP932`, `CP949` and
/// `MacCyrillic` to their `encoding_rs` names and returns any other name
/// unchanged.
#[verifier::external_body]
fn charset_to_encoding(charset: &String) -> (r: String)
    ensures
        r@ == charset_encoding_name(charset@),
{
    chardet::charset2encoding(charset).to_string()
}

/// Whether `encoding_rs` knows a label.
pub uninterp spec fn known_label(label: Seq<char>) -> bool;

/// `encoding_rs::Encoding::for_label(label).is_some()`. `utf-8` is one of
/// the labels it knows.
#[verifier::external_body]
fn label_is_known(label: &str) -> (r: bool)
    ensures
        r == known_label(label@),
        label@ == "utf-8"@ ==> r,
{
    encoding_rs::Encoding::for_label(label.as_bytes()).is_some()
}

/// The canonical `encoding_rs` name of the encoding a known label names.
pub uninterp spec fn encoding_name(label: Seq<char>) -> Seq<char>;

/// `Encoding::name` of `Encoding::for_label(label)`, for a label
/// `encoding_rs` knows. `utf-8` names `UTF-8`.
#[verifier::external_body]
fn canonical_name(label: &str) -> (r: String)
    requires
        known_label(label@),
    ensures
        r@ == encoding_name(label@),
        label@ == "utf-8"@ ==> r@ == "UTF-8"@,
{
    match encoding_rs::Encoding::for_label(label.as_bytes()) {
        Some(e) => e.name().to_string(),
        None => String::new(),
    }
}

/// The text `encoding_rs` decodes from `bytes` in the encoding a known
/// label names.
pub uninterp spec fn decoded_text(label: Seq<char>, bytes: Seq<u8>) -> Seq<char>;

/// `Encoding::decode` in the encoding a known label names. The decoder
/// honours a BOM at the start of the bytes and replaces malformed
/// sequences with U+FFFD; the text is a function of the label and the
/// bytes. It panics only when its buffer size overflows `usize`, which the
/// length bound rules out.
#[verifier::external_body]
fn decode_bytes(label: &str, bytes: &[u8]) -> (r: String)
    requires
        known_label(label@),
        bytes@.len() <= usize::MAX / 4,
    ensures
        r@ == decoded_text(label@, bytes@),
{
    match encoding_rs::Encoding::for_label(label.as_bytes()) {
        Some(e) => e.decode(bytes).0.into_owned(),
        None => String::new(),
    }
}

/// The label the library hands `encoding_rs`: the label itself when
/// `encoding_rs` knows it, `utf-8` otherwise.
pub open spec fn label_in_use(label: Seq<char>) -> Seq<char> {
    if known_label(label) {
        label
    } else {
        "utf-8"@
    }
}

/// The canonical name of the encoding used for a label: unknown labels
/// fall back to UTF-8.
pub open spec fn encoding_used(label: Seq<char>) -> Seq<char> {
    if known_label(label) {
        encoding_name(label)
    } else {
        "UTF-8"@
    }
}

fn label_to_use<'a>(label: &'a str) -> (r: &'a str)
    ensures
        r@ == label_in_use(label@),
        known_label(r@),
{
    if label_is_known(label) {
        label
    } else {
        let u: &'a str = "utf-8";
        proof {
            reveal_strlit("utf-8");
        }
        let known = label_is_known(u);
        assert(known);
        u
    }
}

/// The canonical name of the encoding a label resolves to; labels that
/// `encoding_rs` does not know fall back to `UTF-8`.
pub fn encoding_for_label(label: &str) -> (r: String)
    ensures
        r@ == encoding_used(label@),
{
    let used = label_to_use(label);
    proof {
        reveal_strlit("utf-8");
    }
    canonical_name(used)
}

// ── Detection ────────────────────────────────────────────────────────────

/// `raw` begins with `prefix`.
pub open spec fn starts_with_bytes(raw: Seq<u8>, prefix: Seq<u8>) -> bool {
    prefix.len() <= raw.len() && raw.subrange(0, prefix.len() as int) == prefix
}

/// The label of the statistical fallback: the `encoding_rs` spelling of
/// chardet's charset, `windows-1252` when chardet has none.
pub open spec fn fallback_label(raw: Seq<u8>) -> Seq<char> {
    let mapped = charset_encoding_name(chardet_guess(raw).0);
    if mapped.len() == 0 {
        "windows-1252"@
    } else {
        mapped
    }
}

/// What [`detect_encoding`] reports for `raw`.
pub open spec fn sniffed(raw: Seq<u8>) -> EncodingInfoView {
    if starts_with_bytes(raw, seq![0xEFu8, 0xBBu8, 0xBFu8]) {
        EncodingInfoView { label: "utf-8"@, has_bom: true, bom_len: 3, confidence_bits: FULL_CONFIDENCE_BITS }
    } else if starts_with_bytes(raw, seq![0xFFu8, 0xFEu8, 0x00u8, 0x00u8]) {
        EncodingInfoView { label: "utf-32le"@, has_bom: true, bom_len: 4, confidence_bits: FULL_CONFIDENCE_BITS }
    } else if starts_with_bytes(raw, seq![0x00u8, 0x00u8, 0xFEu8, 0xFFu8]) {
        EncodingInfoView { label: "utf-32be"@, has_bom: true, bom_len: 4, confidence_bits: FULL_CONFIDENCE_BITS }
    } else if starts_with_bytes(raw, seq![0xFFu8, 0xFEu8]) {
        EncodingInfoView { label: "utf-16le"@, has_bom: true, bom_len: 2, confidence_bits: FULL_CONFIDENCE_BITS }
    } else if starts_with_bytes(raw, seq![0xFEu8, 0xFFu8]) {
        EncodingInfoView { label: "utf-16be"@, has_bom: true, bom_len: 2, confidence_bits: FULL_CONFIDENCE_BITS }
    } else if raw.len() == 0 || vstd::utf8::valid_utf8(raw) {
        EncodingInfoView { label: "utf-8"@, has_bom: false, bom_len: 0, confidence_bits: FULL_CONFIDENCE_BITS }
    } else if !chardet_safe(raw) {
        EncodingInfoView { label: "windows-1252"@, has_bom: false, bom_len: 0, confidence_bits: 0 }
    } else {
        EncodingInfoView {
            label: fallback_label(raw),
            has_bom: false,
            bom_len: 0,
            confidence_bits: chardet_guess(raw).1,
        }
    }
}

fn has_prefix(raw: &[u8], prefix: &[u8]) -> (r: bool)
    ensures
        r == starts_with_bytes(raw@, prefix@),
{
    if prefix.len() > raw.len() {
        return false;
    }
    let mut i: usize = 0;
    while i < prefix.len()
        invariant
            i <= prefix@.len() <= raw@.len(),
            forall|j: int| 0 <= j < i ==> raw@[j] == prefix@[j],
        decreases prefix@.len() - i,
    {
        if raw[i] != prefix[i] {
            assert(raw@.subrange(0, prefix@.len() as int)[i as int] != prefix@[i as int]);
            return false;
        }
        i += 1;
    }
    assert(raw@.subrange(0, prefix@.len() as int) =~= prefix@);
    true
}

fn info(label: &str, has_bom: bool, bom_len: usize) -> (r: EncodingInfo)
    ensures
        r@ == (EncodingInfoView {
            label: label@,
            has_bom,
            bom_len: bom_len as nat,
            confidence_bits: FULL_CONFIDENCE_BITS,
        }),
{
    EncodingInfo { label: to_owned_string(label), has_bom, bom_len, confidence_bits: FULL_CONFIDENCE_BITS }
}

/// Whether [`chardet_detect`] may be called on `raw`.
fn chardet_can_read(raw: &[u8]) -> (r: bool)
    ensures
        r == chardet_safe(raw@),
{
    let mut has_high = false;
    let mut has_esc = false;
    let mut i: usize = 0;
    while i < raw.len()
        invariant
            i <= raw@.len(),
            has_high == exists|j: int| 0 <= j < i && #[trigger] raw@[j] >= 0x80 && raw@[j] != 0xA0,
            has_esc == exists|j: int| 0 <= j < i && #[trigger] raw@[j] == 0x1B,
        decreases raw@.len() - i,
    {
        let b = raw[i];
        if b >= 0x80 && b != 0xA0 {
            has_high = true;
        }
        if b == 0x1B {
            has_esc = true;
        }
        i += 1;
    }
    has_high || !has_esc
}

/// Guess the encoding of `raw`. A buffer that is not UTF-8 and whose only
/// high byte is 0xA0 while it holds an escape byte reads as
/// `windows-1252`: chardet cannot close its detector on such a buffer.
pub fn detect_encoding(raw: &[u8]) -> (r: EncodingInfo)
    ensures
        r@ == sniffed(raw@),
{
    let utf8_bom: [u8; 3] = [0xEF, 0xBB, 0xBF];
    let utf32le_bom: [u8; 4] = [0xFF, 0xFE, 0x00, 0x00];
    let utf32be_bom: [u8; 4] = [0x00, 0x00, 0xFE, 0xFF];
    let utf16le_bom: [u8; 2] = [0xFF, 0xFE];
    let utf16be_bom: [u8; 2] = [0xFE, 0xFF];
    assert(utf8_bom@ =~= seq![0xEFu8, 0xBBu8, 0xBFu8]);
    assert(utf32le_bom@ =~= seq![0xFFu8, 0xFEu8, 0x00u8, 0x00u8]);
    assert(utf32be_bom@ =~= seq![0x00u8, 0x00u8, 0xFEu8, 0xFFu8]);
    assert(utf16le_bom@ =~= seq![0xFFu8, 0xFEu8]);
    assert(utf16be_bom@ =~= seq![0xFEu8, 0xFFu8]);
    if has_prefix(raw, &utf8_bom) {
        return info("utf-8", true, 3);
    }
    if has_prefix(raw, &utf32le_bom) {
        return info("utf-32le", true, 4);
    }
    if has_prefix(raw, &utf32be_bom) {
        return info("utf-32be", true, 4);
    }
    if has_prefix(raw, &utf16le_bom) {
        return info("utf-16le", true, 2);
    }
    if has_prefix(raw, &utf16be_bom) {
        return info("utf-16be", true, 2);
    }
    if raw.len() == 0 {
        return info("utf-8", false, 0);
    }
    if is_valid_utf8(raw) {
        return info("utf-8", false, 0);
    }
    if !chardet_can_read(raw) {
        // chardet's detector would reach its `unreachable!()` here; such a
        // buffer reads as the same single-byte fallback chardet's own
        // empty answer gets.
        return EncodingInfo {
            label: to_owned_string("windows-1252"),
            has_bom: false,
            bom_len: 0,
            confidence_bits: 0,
        };
    }
    let (charset, confidence_bits) = chardet_detect(raw);
    let mapped = charset_to_encoding(&charset);
    let label = if mapped.as_str().is_empty() {
        to_owned_string("windows-1252")
    } else {
        mapped
    };
    EncodingInfo { label, has_bom: false, bom_len: 0, confidence_bits }
}

/// Decode bytes to a `String`, skipping any BOM.
pub fn decode(raw: &[u8], info: &EncodingInfo) -> (s: String)
    requires
        raw@.len() <= usize::MAX / 4,
    ensures
        s@ == decoded_text(
            label_in_use(info.label@),
            raw@.subrange(
                if info.bom_len < raw@.len() {
                    info.bom_len as int
                } else {
                    raw@.len() as int
                },
                raw@.len() as int,
            ),
        ),
{
    let offset = if info.bom_len < raw.len() {
        info.bom_len
    } else {
        raw.len()
    };
    let mut rest: Vec<u8> = Vec::new();
    let mut i: usize = offset;
    while i < raw.len()
        invariant
            offset <= i <= raw@.len(),
            rest@ == raw@.subrange(offset as int, i as int),
        decreases raw@.len() - i,
    {
        rest.push(raw[i]);
        i += 1;
    }
    decode_bytes(label_to_use(info.label.as_str()), rest.as_slice())
}

/// The BOM an encoding writes, by its canonical name; empty for encodings
/// without one.
pub open spec fn bom_of(name: Seq<char>) -> Seq<u8> {
    if name == "UTF-8"@ {
        seq![0xEFu8, 0xBBu8, 0xBFu8]
    } else if name == "UTF-16LE"@ {
        seq![0xFFu8, 0xFEu8]
    } else if name == "UTF-16BE"@ {
        seq![0xFEu8, 0xFFu8]
    } else if name == "UTF-32LE"@ {
        seq![0xFFu8, 0xFEu8, 0x00u8, 0x00u8]
    } else if name == "UTF-32BE"@ {
        seq![0x00u8, 0x00u8, 0xFEu8, 0xFFu8]
    } else {
        Seq::empty()
    }
}

/// The BOM bytes an encoding uses; empty for encodings without a BOM.
pub fn bom_bytes(label: &str) -> (b: Vec<u8>)
    ensures
        b@ == bom_of(encoding_used(label@)),
{
    let name = encoding_for_label(label);
    let n = name.as_str();
    let b: Vec<u8> = if crate::text::str_eq(n, "UTF-8") {
        vec![0xEF, 0xBB, 0xBF]
    } else if crate::text::str_eq(n, "UTF-16LE") {
        vec![0xFF, 0xFE]
    } else if crate::text::str_eq(n, "UTF-16BE") {
        vec![0xFE, 0xFF]
    } else if crate::text::str_eq(n, "UTF-32LE") {
        vec![0xFF, 0xFE, 0x00, 0x00]
    } else if crate::text::str_eq(n, "UTF-32BE") {
        vec![0x00, 0x00, 0xFE, 0xFF]
    } else {
        Vec::new()
    };
    assert(b@ =~= bom_of(encoding_used(label@)));
    b
}

// ── Encoding ─────────────────────────────────────────────────────────────

/// The bytes `encoding_rs` writes for `text` in the encoding a known label
/// names.
pub uninterp spec fn encoded_bytes(label: Seq<char>, text: Seq<char>) -> Seq<u8>;

/// `encoding_rs::Encoding::encode` in the encoding a known label names.
/// Characters the encoding cannot hold become
/// decimal numeric character references; the bytes are a function of the
/// label and the text. encoding_rs writes UTF-8 for the UTF-16 labels and
/// for `replacement` (their output encoding), which is why [`encode`] does
/// not send UTF-16 here. The call panics only when its buffer size
/// overflows `usize`, which the length bound rules out.
#[verifier::external_body]
fn encode_bytes(label: &str, text: &str) -> (r: Vec<u8>)
    requires
        known_label(label@),
        text@.len() <= usize::MAX / 64,
    ensures
        r@ == encoded_bytes(label@, text@),
{
    match encoding_rs::Encoding::for_label(label.as_bytes()) {
        Some(e) => e.encode(text).0.into_owned(),
        None => Vec::new(),
    }
}

/// The UTF-16 code units of a character: itself below U+10000, else a
/// surrogate pair.
pub open spec fn utf16_units(c: char) -> Seq<int> {
    let v = (c as u32) as int;
    if v < 0x10000 {
        seq![v]
    } else {
        seq![0xD800 + (v - 0x10000) / 0x400, 0xDC00 + (v - 0x10000) % 0x400]
    }
}

/// The two bytes of a code unit, most significant first when `big_endian`.
pub open spec fn unit_bytes(u: int, big_endian: bool) -> Seq<u8> {
    if big_endian {
        seq![(u / 256) as u8, (u % 256) as u8]
    } else {
        seq![(u % 256) as u8, (u / 256) as u8]
    }
}

/// The UTF-16 bytes of one character.
pub open spec fn utf16_char_bytes(c: char, big_endian: bool) -> Seq<u8> {
    let us = utf16_units(c);
    if us.len() == 1 {
        unit_bytes(us[0], big_endian)
    } else {
        unit_bytes(us[0], big_endian) + unit_bytes(us[1], big_endian)
    }
}

/// The UTF-16 bytes of a text, without a BOM.
pub open spec fn utf16_bytes(text: Seq<char>, big_endian: bool) -> Seq<u8>
    decreases text.len(),
{
    if text.len() == 0 {
        Seq::empty()
    } else {
        utf16_bytes(text.drop_last(), big_endian) + utf16_char_bytes(text.last(), big_endian)
    }
}

/// Code unit `k` of UTF-16 bytes in the given byte order.
pub open spec fn unit_read(b: Seq<u8>, k: int, big_endian: bool) -> int {
    if big_endian {
        b[2 * k] as int * 256 + b[2 * k + 1] as int
    } else {
        b[2 * k + 1] as int * 256 + b[2 * k] as int
    }
}

/// The code units of UTF-16 bytes in the given byte order.
pub open spec fn units_read(b: Seq<u8>, big_endian: bool) -> Seq<int> {
    Seq::new(b.len() / 2, |k: int| unit_read(b, k, big_endian))
}

/// The text UTF-16 code units stand for: a high surrogate followed by a low
/// one is one character, any other unit is the character of that value.
pub open spec fn utf16_text(us: Seq<int>) -> Seq<char>
    decreases us.len(),
{
    if us.len() == 0 {
        Seq::empty()
    } else if us.len() >= 2 && 0xDC00 <= us.last() <= 0xDFFF && 0xD800 <= us[us.len() - 2] <= 0xDBFF {
        utf16_text(us.subrange(0, us.len() - 2)).push(
            (((us[us.len() - 2] - 0xD800) * 0x400 + (us.last() - 0xDC00) + 0x10000) as u32) as char,
        )
    } else {
        utf16_text(us.drop_last()).push((us.last() as u32) as char)
    }
}

proof fn lemma_unit_read_back(u: int, big_endian: bool)
    requires
        0 <= u < 0x10000,
    ensures
        units_read(unit_bytes(u, big_endian), big_endian) == seq![u],
{
    let b = unit_bytes(u, big_endian);
    assert(u / 256 < 256);
    assert(((u / 256) as u8) as int == u / 256);
    assert(((u % 256) as u8) as int == u % 256);
    assert(units_read(b, big_endian) =~= seq![u]);
}

proof fn lemma_units_concat(a: Seq<u8>, b: Seq<u8>, big_endian: bool)
    requires
        a.len() % 2 == 0,
        b.len() % 2 == 0,
    ensures
        units_read(a + b, big_endian) == units_read(a, big_endian) + units_read(b, big_endian),
{
    let m = a.len() / 2;
    let r = units_read(a + b, big_endian);
    let l = units_read(a, big_endian) + units_read(b, big_endian);
    assert(r.len() == l.len());
    assert forall|k: int| 0 <= k < r.len() implies r[k] == l[k] by {
        if k < m {
            assert((a + b)[2 * k] == a[2 * k] && (a + b)[2 * k + 1] == a[2 * k + 1]);
        } else {
            assert((a + b)[2 * k] == b[2 * (k - m)] && (a + b)[2 * k + 1] == b[2 * (k - m) + 1]);
        }
    }
    assert(r =~= l);
}

/// The code units and bytes one character is written as.
proof fn lemma_char_units(c: char, big_endian: bool)
    ensures
        utf16_char_bytes(c, big_endian).len() % 2 == 0,
        units_read(utf16_char_bytes(c, big_endian), big_endian) == utf16_units(c),
        utf16_units(c).len() == 1 ==> !(0xDC00 <= utf16_units(c)[0] <= 0xDFFF) && (utf16_units(c)[0] as u32)
            as char == c,
        utf16_units(c).len() == 2 ==> 0xD800 <= utf16_units(c)[0] <= 0xDBFF && 0xDC00 <= utf16_units(c)[1]
            <= 0xDFFF && ((((utf16_units(c)[0] - 0xD800) * 0x400 + (utf16_units(c)[1] - 0xDC00) + 0x10000)
            as u32) as char) == c,
{
    vstd::utf8::char_is_scalar(c);
    let v = (c as u32) as int;
    let us = utf16_units(c);
    if v < 0x10000 {
        lemma_unit_read_back(v, big_endian);
        vstd::utf8::char_u32_cast(c, c as u32);
    } else {
        let w = v - 0x10000;
        assert(w < 0x100000);
        assert(w / 0x400 < 0x400);
        lemma_unit_read_back(us[0], big_endian);
        lemma_unit_read_back(us[1], big_endian);
        lemma_units_concat(unit_bytes(us[0], big_endian), unit_bytes(us[1], big_endian), big_endian);
        assert(seq![us[0]] + seq![us[1]] =~= us);
        assert((w / 0x400) * 0x400 + w % 0x400 == w);
        assert(((w / 0x400) * 0x400 + w % 0x400 + 0x10000) as u32 == c as u32);
        vstd::utf8::char_u32_cast(c, c as u32);
    }
}

/// Reading the UTF-16 bytes of a text back as code units of the same byte
/// order gives the text.
pub proof fn lemma_utf16_reads_back(text: Seq<char>, big_endian: bool)
    ensures
        utf16_bytes(text, big_endian).len() % 2 == 0,
        utf16_text(units_read(utf16_bytes(text, big_endian), big_endian)) == text,
    decreases text.len(),
{
    if text.len() > 0 {
        let p = text.drop_last();
        let c = text.last();
        lemma_utf16_reads_back(p, big_endian);
        lemma_char_units(c, big_endian);
        let b0 = utf16_bytes(p, big_endian);
        let cb = utf16_char_bytes(c, big_endian);
        lemma_units_concat(b0, cb, big_endian);
        let u0 = units_read(b0, big_endian);
        let us = u0 + utf16_units(c);
        if utf16_units(c).len() == 1 {
            assert(us.drop_last() =~= u0);
        } else {
            assert(us.subrange(0, us.len() - 2) =~= u0);
            assert(us[us.len() - 2] == utf16_units(c)[0]);
        }
        assert(p.push(c) =~= text);
    }
}

/// Text saved under a UTF-16 label reads back as the same text when its
/// bytes (after the BOM) are read as code units in that label's byte order:
/// most significant byte first for UTF-16BE, least significant first for
/// UTF-16LE.
pub proof fn lemma_utf16_save_reads_back(text: Seq<char>, label: Seq<char>)
    ensures
        encoding_used(label) == "UTF-16BE"@ ==> utf16_text(
            units_read(encoded_as(encoding_used(label), label, text), true),
        ) == text,
        encoding_used(label) == "UTF-16LE"@ ==> utf16_text(
            units_read(encoded_as(encoding_used(label), label, text), false),
        ) == text,
{
    lemma_utf16_reads_back(text, true);
    lemma_utf16_reads_back(text, false);
    reveal_strlit("UTF-16BE");
    reveal_strlit("UTF-16LE");
    assert("UTF-16BE"@ != "UTF-16LE"@) by {
        assert("UTF-16BE"@[6] != "UTF-16LE"@[6]);
    }
}

/// The bytes of `text` in the encoding named `name` (the canonical name
/// `label` resolves to): real UTF-16 for the two UTF-16 encodings, what
/// `encoding_rs` writes for every other one.
pub open spec fn encoded_as(name: Seq<char>, label: Seq<char>, text: Seq<char>) -> Seq<u8> {
    if name == "UTF-16LE"@ {
        utf16_bytes(text, false)
    } else if name == "UTF-16BE"@ {
        utf16_bytes(text, true)
    } else {
        encoded_bytes(label_in_use(label), text)
    }
}

/// Appends the bytes of one code unit.
fn push_unit(out: &mut Vec<u8>, u: u32, big_endian: bool)
    requires
        u < 0x10000,
    ensures
        final(out)@ == old(out)@ + unit_bytes(u as int, big_endian),
{
    let hi = (u / 256) as u8;
    let lo = (u % 256) as u8;
    if big_endian {
        out.push(hi);
        out.push(lo);
    } else {
        out.push(lo);
        out.push(hi);
    }
    assert(final(out)@ =~= old(out)@ + unit_bytes(u as int, big_endian));
}

/// Appends the UTF-16 bytes of `text`.
fn push_utf16(out: &mut Vec<u8>, text: &str, big_endian: bool)
    ensures
        final(out)@ == old(out)@ + utf16_bytes(text@, big_endian),
{
    let cs = crate::text::chars_of(text);
    let mut i: usize = 0;
    while i < cs.len()
        invariant
            i <= cs@.len(),
            cs@ == text@,
            out@ == old(out)@ + utf16_bytes(cs@.subrange(0, i as int), big_endian),
        decreases cs@.len() - i,
    {
        let c = cs[i];
        let v: u32 = c as u32;
        proof {
            vstd::utf8::char_is_scalar(c);
            assert(cs@.subrange(0, i + 1).drop_last() =~= cs@.subrange(0, i as int));
            assert(cs@.subrange(0, i + 1).last() == c);
        }
        if v < 0x10000 {
            push_unit(out, v, big_endian);
        } else {
            let w = v - 0x10000;
            push_unit(out, 0xD800 + w / 0x400, big_endian);
            push_unit(out, 0xDC00 + w % 0x400, big_endian);
        }
        assert(out@ =~= old(out)@ + utf16_bytes(cs@.subrange(0, i + 1), big_endian));
        i += 1;
    }
    assert(cs@.subrange(0, cs@.len() as int) =~= cs@);
}

/// Encode a text, prepending the encoding's BOM when `with_bom` is set.
/// UTF-16 is written as real UTF-16 in the requested byte order; every
/// other encoding is written by `encoding_rs`.
pub fn encode(text: &str, label: &str, with_bom: bool) -> (b: Vec<u8>)
    requires
        text@.len() <= usize::MAX / 64,
    ensures
        b@ == (if with_bom { bom_of(encoding_used(label@)) } else { Seq::<u8>::empty() })
            + encoded_as(encoding_used(label@), label@, text@),
{
    let name = encoding_for_label(label);
    let mut out: Vec<u8> = if with_bom { bom_bytes(label) } else { Vec::new() };
    let ghost start = out@;
    if crate::text::str_eq(name.as_str(), "UTF-16LE") {
        push_utf16(&mut out, text, false);
    } else if crate::text::str_eq(name.as_str(), "UTF-16BE") {
        push_utf16(&mut out, text, true);
    } else {
        let body = encode_bytes(label_to_use(label), text);
        let mut i: usize = 0;
        while i < body.len()
            invariant
                i <= body@.len(),
                out@ == start + body@.subrange(0, i as int),
            decreases body@.len() - i,
        {
            out.push(body[i]);
            i += 1;
            assert(out@ =~= start + body@.subrange(0, i as int));
        }
        assert(body@.subrange(0, body@.len() as int) =~= body@);
    }
    out
}

/// The labels offered in the Save / Reopen-with dialogs.
pub open spec fn offered_labels() -> Seq<Seq<char>> {
    seq![
        "utf-8"@,
        "utf-16le"@,
        "utf-16be"@,
        "windows-1252"@,
        "iso-8859-1"@,
        "shift_jis"@,
        "gbk"@,
        "big5"@,
        "euc-kr"@,
        "koi8-r"@,
    ]
}

/// The list offered in the Save / Reopen-with dialogs.
pub fn offered_encodings() -> (v: Vec<&'static str>)
    ensures
        v@.map_values(|s: &str| s@) == offered_labels(),
{
    let v = vec![
        "utf-8",
        "utf-16le",
        "utf-16be",
        "windows-1252",
        "iso-8859-1",
        "shift_jis",
        "gbk",
        "big5",
        "euc-kr",
        "koi8-r",
    ];
    assert(v@.map_values(|s: &str| s@) =~= offered_labels());
    v
}

} // verus!
