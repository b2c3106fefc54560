//! Find & replace.
//!
//! Offsets are byte offsets into `EditorLine::text`. They are produced by a
//! walk over the characters, so they always land on character boundaries,
//! also when case folding compares characters of different widths.

use vstd::prelude::*;

use crate::text::{
    byte_at, byte_len, byte_offset, chars_of, fold_char, floor_chars, is_boundary, lower_first,
    unicode_alphanumeric,
};
use crate::types::line::{views, EditorLine, LineView};

verus! {

/// One occurrence of the query.
#[derive(Debug, Clone, Copy, PartialEq, Eq, Structural)]
pub struct Match {
    pub line: usize,
    /// Byte offset of the first matched byte.
    pub start: usize,
    /// Byte offset just past the last matched byte.
    pub end: usize,
}

// ── Matching model ───────────────────────────────────────────────────────

/// A letter, digit or `_`: the characters a whole word is made of.
pub open spec fn word_char(c: char) -> bool {
    unicode_alphanumeric(c) || c == '_'
}

/// Neither neighbour of the character range `i..j` is a word character.
pub open spec fn word_ok(h: Seq<char>, i: int, j: int) -> bool {
    (i == 0 || !word_char(h[i - 1])) && (j >= h.len() || !word_char(h[j]))
}

/// Two characters match: exactly, or after the per-character case fold.
pub open spec fn chars_match(a: char, b: char, case_sensitive: bool) -> bool {
    if case_sensitive {
        a == b
    } else {
        lower_first(a) == lower_first(b)
    }
}

/// The needle occurs at character index `i` of `h`.
pub open spec fn matches_at(h: Seq<char>, n: Seq<char>, i: int, case_sensitive: bool) -> bool {
    0 <= i && i + n.len() <= h.len() && forall|t: int|
        0 <= t < n.len() ==> chars_match(#[trigger] h[i + t], n[t], case_sensitive)
}

/// Character ranges of all non-overlapping occurrences at or after `i`,
/// scanning left to right.
pub open spec fn scan(h: Seq<char>, n: Seq<char>, cs: bool, ww: bool, i: int) -> Seq<(int, int)>
    decreases h.len() - i,
{
    if n.len() == 0 || i < 0 || i + n.len() > h.len() {
        Seq::empty()
    } else if matches_at(h, n, i, cs) && (!ww || word_ok(h, i, i + n.len())) {
        seq![(i, i + n.len())] + scan(h, n, cs, ww, i + n.len())
    } else {
        scan(h, n, cs, ww, i + 1)
    }
}

/// All occurrences as byte offsets.
pub open spec fn find_all_spec(h: Seq<char>, n: Seq<char>, cs: bool, ww: bool) -> Seq<(usize, usize)> {
    scan(h, n, cs, ww, 0).map_values(
        |r: (int, int)| (byte_at(h, r.0) as usize, byte_at(h, r.1) as usize),
    )
}

/// Matches of the query over every line, in document order.
pub open spec fn matches_in(ls: Seq<LineView>, q: Seq<char>, cs: bool, ww: bool) -> Seq<Match>
    decreases ls.len(),
{
    if ls.len() == 0 {
        Seq::empty()
    } else {
        let k = (ls.len() - 1) as usize;
        matches_in(ls.drop_last(), q, cs, ww) + find_all_spec(ls.last().text, q, cs, ww).map_values(
            |r: (usize, usize)| Match { line: k, start: r.0, end: r.1 },
        )
    }
}

proof fn lemma_scan_props(h: Seq<char>, n: Seq<char>, cs: bool, ww: bool, i: int)
    requires
        0 <= i,
    ensures
        forall|k: int|
            0 <= k < scan(h, n, cs, ww, i).len() ==> {
                let r = #[trigger] scan(h, n, cs, ww, i)[k];
                &&& i <= r.0 < r.1 <= h.len()
                &&& r.1 == r.0 + n.len()
                &&& matches_at(h, n, r.0, cs)
                &&& (ww ==> word_ok(h, r.0, r.1))
            },
    decreases h.len() - i,
{
    if n.len() == 0 || i + n.len() > h.len() {
    } else if matches_at(h, n, i, cs) && (!ww || word_ok(h, i, i + n.len())) {
        lemma_scan_props(h, n, cs, ww, i + n.len());
        let rest = scan(h, n, cs, ww, i + n.len());
        assert forall|k: int| 0 <= k < scan(h, n, cs, ww, i).len() implies {
            let r = #[trigger] scan(h, n, cs, ww, i)[k];
            &&& i <= r.0 < r.1 <= h.len()
            &&& r.1 == r.0 + n.len()
            &&& matches_at(h, n, r.0, cs)
            &&& (ww ==> word_ok(h, r.0, r.1))
        } by {
            if k > 0 {
                assert(scan(h, n, cs, ww, i)[k] == rest[k - 1]);
            }
        }
    } else {
        lemma_scan_props(h, n, cs, ww, i + 1);
        assert(scan(h, n, cs, ww, i) == scan(h, n, cs, ww, i + 1));
    }
}

/// Case-fold one character the way search compares them.
fn same_char(a: char, b: char, case_sensitive: bool) -> (r: bool)
    ensures
        r == chars_match(a, b, case_sensitive),
{
    if case_sensitive {
        a == b
    } else {
        fold_char(a) == fold_char(b)
    }
}

fn is_word_char(c: char) -> (r: bool)
    ensures
        r == word_char(c),
{
    crate::text::is_alphanumeric(c) || c == '_'
}

fn matches_at_exec(h: &Vec<char>, n: &Vec<char>, i: usize, case_sensitive: bool) -> (r: bool)
    requires
        i + n@.len() <= h@.len(),
    ensures
        r == matches_at(h@, n@, i as int, case_sensitive),
{
    let hl = h.len();
    let mut t: usize = 0;
    while t < n.len()
        invariant
            hl == h@.len(),
            i + n@.len() <= h@.len(),
            t <= n@.len(),
            forall|u: int| 0 <= u < t ==> chars_match(#[trigger] h@[i + u], n@[u], case_sensitive),
        decreases n@.len() - t,
    {
        if !same_char(h[i + t], n[t], case_sensitive) {
            assert(!chars_match(h@[i + t as int], n@[t as int], case_sensitive));
            return false;
        }
        t += 1;
    }
    true
}

fn word_ok_exec(h: &Vec<char>, i: usize, j: usize) -> (r: bool)
    requires
        i <= j <= h@.len(),
    ensures
        r == word_ok(h@, i as int, j as int),
{
    let before_ok = i == 0 || !is_word_char(h[i - 1]);
    let after_ok = j >= h.len() || !is_word_char(h[j]);
    before_ok && after_ok
}

/// All non-overlapping occurrences of `needle` in `haystack`, as byte
/// offsets into `haystack`.
///
/// Case-insensitive matching compares folded characters one at a time, so
/// offsets always refer to the *original* string.
pub fn find_all(haystack: &str, needle: &str, case_sensitive: bool, whole_word: bool) -> (r: Vec<
    (usize, usize),
>)
    ensures
        r@ == find_all_spec(haystack@, needle@, case_sensitive, whole_word),
{
    let h = chars_of(haystack);
    let n = chars_of(needle);
    let _bytes = crate::text::byte_length(haystack);
    let mut out: Vec<(usize, usize)> = Vec::new();
    if n.len() == 0 || h.len() < n.len() {
        return out;
    }
    let mut i: usize = 0;
    let hl = h.len();
    let last = hl - n.len();
    while i <= last
        invariant
            hl == h@.len(),
            last == h@.len() - n@.len(),
            h@ == haystack@,
            n@ == needle@,
            n@.len() > 0,
            byte_len(h@) <= usize::MAX,
            i <= h@.len(),
            find_all_spec(h@, n@, case_sensitive, whole_word) == out@ + scan(
                h@,
                n@,
                case_sensitive,
                whole_word,
                i as int,
            ).map_values(|r: (int, int)| (byte_at(h@, r.0) as usize, byte_at(h@, r.1) as usize)),
        decreases h@.len() - i,
    {
        let ghost rest = scan(h@, n@, case_sensitive, whole_word, i as int);
        let m = n.len();
        if matches_at_exec(&h, &n, i, case_sensitive) && (!whole_word || word_ok_exec(&h, i, i + m)) {
            let s = byte_offset(h.as_slice(), i);
            let e = byte_offset(h.as_slice(), i + m);
            out.push((s, e));
            proof {
                let f = |r: (int, int)| (byte_at(h@, r.0) as usize, byte_at(h@, r.1) as usize);
                let next = scan(h@, n@, case_sensitive, whole_word, i + m);
                assert(rest == seq![(i as int, i + m)] + next);
                assert(rest.map_values(f) =~= seq![(s, e)] + next.map_values(f));
            }
            i = i + m;
        } else {
            i = i + 1;
        }
    }
    proof {
        assert(scan(h@, n@, case_sensitive, whole_word, i as int) =~= Seq::empty());
    }
    assert(out@ =~= find_all_spec(haystack@, needle@, case_sensitive, whole_word));
    out
}

} // verus!

verus! {

/// Neither neighbour of the byte range `start..end` is a letter, digit or `_`.
pub fn is_word_boundary(text: &str, start: usize, end: usize) -> (r: bool)
    requires
        is_boundary(text@, start as int),
        is_boundary(text@, end as int),
    ensures
        r == word_ok(text@, floor_chars(text@, start as int) as int, floor_chars(text@, end as int) as int),
{
    let h = chars_of(text);
    let ks = crate::text::floor_char_index(h.as_slice(), start);
    let ke = crate::text::floor_char_index(h.as_slice(), end);
    let before_ok = ks == 0 || !is_word_char(h[ks - 1]);
    let after_ok = ke >= h.len() || !is_word_char(h[ke]);
    before_ok && after_ok
}

/// The text with bytes `start..end` replaced, when both offsets are
/// character boundaries and `start <= end`; `None` for stale offsets.
pub open spec fn replace_once_spec(t: Seq<char>, start: int, end: int, rep: Seq<char>) -> Option<
    Seq<char>,
> {
    if start <= end && is_boundary(t, start) && is_boundary(t, end) {
        Some(
            t.subrange(0, floor_chars(t, start) as int) + rep + t.subrange(
                floor_chars(t, end) as int,
                t.len() as int,
            ),
        )
    } else {
        None
    }
}

/// `Some(k)` when byte `b` is a character boundary of `cs`, `k` being the
/// number of characters before it.
fn boundary_index(cs: &Vec<char>, b: usize) -> (r: Option<usize>)
    requires
        byte_len(cs@) <= usize::MAX,
    ensures
        is_boundary(cs@, b as int) ==> r == Some(floor_chars(cs@, b as int) as usize),
        !is_boundary(cs@, b as int) ==> r is None,
        floor_chars(cs@, b as int) <= cs@.len(),
{
    let k = crate::text::floor_char_index(cs.as_slice(), b);
    let at = byte_offset(cs.as_slice(), k);
    if at == b {
        Some(k)
    } else {
        None
    }
}

/// Replace bytes `start..end` of `text` with `replacement`, refusing offsets
/// that are out of order or not on character boundaries.
pub fn replace_once(text: &mut String, start: usize, end: usize, replacement: &str) -> (r: bool)
    ensures
        r == (replace_once_spec(old(text)@, start as int, end as int, replacement@) is Some),
        r ==> final(text)@ == replace_once_spec(old(text)@, start as int, end as int, replacement@)->0,
        !r ==> final(text)@ == old(text)@,
{
    let cs = chars_of(text.as_str());
    let _n = crate::text::byte_length(text.as_str());
    if start > end {
        return false;
    }
    let ks = match boundary_index(&cs, start) {
        Some(k) => k,
        None => {
            return false;
        },
    };
    let ke = match boundary_index(&cs, end) {
        Some(k) => k,
        None => {
            return false;
        },
    };
    let mut out = crate::text::string_of_range(cs.as_slice(), 0, ks);
    crate::text::push_str(&mut out, replacement);
    let tail = crate::text::string_of_range(cs.as_slice(), ke, cs.len());
    crate::text::push_str(&mut out, tail.as_str());
    *text = out;
    true
}

impl Match {
    /// Extract the matched substring, guarding against stale offsets.
    pub fn slice<'a>(&self, text: &'a str) -> (r: Option<&'a str>)
        ensures
            (self.start <= self.end && is_boundary(text@, self.start as int) && is_boundary(
                text@,
                self.end as int,
            )) ==> r is Some && r->0@ == text@.subrange(
                floor_chars(text@, self.start as int) as int,
                floor_chars(text@, self.end as int) as int,
            ),
            !(self.start <= self.end && is_boundary(text@, self.start as int) && is_boundary(
                text@,
                self.end as int,
            )) ==> r is None,
    {
        let cs = chars_of(text);
        let _n = crate::text::byte_length(text);
        if self.start > self.end {
            return None;
        }
        let ks = match boundary_index(&cs, self.start) {
            Some(k) => k,
            None => {
                return None;
            },
        };
        let ke = match boundary_index(&cs, self.end) {
            Some(k) => k,
            None => {
                return None;
            },
        };
        proof {
            crate::text::lemma_floor_at_boundary(cs@, ks as int);
            crate::text::lemma_floor_at_boundary(cs@, ke as int);
        }
        if ks > ke {
            proof {
                crate::text::lemma_byte_at_mono(cs@, ke as int, ks as int);
            }
            return None;
        }
        Some(vstd::string::StrSliceExecFns::substring_char(text, ks, ke))
    }
}

} // verus!

verus! {

/// What replacing one match does to a document's lines.
pub open spec fn apply_match(ls: Seq<LineView>, m: Match, rep: Seq<char>) -> (Seq<LineView>, bool) {
    if m.line < ls.len() {
        match replace_once_spec(ls[m.line as int].text, m.start as int, m.end as int, rep) {
            Some(t) => (ls.update(m.line as int, LineView { text: t, ..ls[m.line as int] }), true),
            None => (ls, false),
        }
    } else {
        (ls, false)
    }
}

/// Replace every match, last one first, counting the substitutions made.
pub open spec fn apply_rev(ls: Seq<LineView>, ms: Seq<Match>, rep: Seq<char>) -> (Seq<LineView>, nat)
    decreases ms.len(),
{
    if ms.len() == 0 {
        (ls, 0)
    } else {
        let (l1, ok) = apply_match(ls, ms.last(), rep);
        let (l2, c) = apply_rev(l1, ms.drop_last(), rep);
        (
            l2,
            c + if ok {
                1nat
            } else {
                0nat
            },
        )
    }
}

/// The search state.
pub struct FindEngine {
    pub query: String,
    pub replacement: String,
    pub case_sensitive: bool,
    pub whole_word: bool,
    pub matches: Vec<Match>,
    /// Index into `matches` of the current match.
    pub current: usize,
}

impl FindEngine {
    /// The engine's matches are exactly those of its query over `ls`.
    pub open spec fn searched(&self, ls: Seq<LineView>) -> bool {
        self.matches@ == matches_in(ls, self.query@, self.case_sensitive, self.whole_word)
    }

    pub fn new() -> (e: Self)
        ensures
            e.query@.len() == 0,
            e.replacement@.len() == 0,
            !e.case_sensitive,
            !e.whole_word,
            e.matches@.len() == 0,
            e.current == 0,
    {
        FindEngine {
            query: String::new(),
            replacement: String::new(),
            case_sensitive: false,
            whole_word: false,
            matches: Vec::new(),
            current: 0,
        }
    }

    pub fn set_query(&mut self, query: &str)
        ensures
            final(self).query@ == query@,
            final(self).replacement == old(self).replacement,
            final(self).case_sensitive == old(self).case_sensitive,
            final(self).whole_word == old(self).whole_word,
            final(self).matches == old(self).matches,
            final(self).current == old(self).current,
    {
        self.query = crate::text::to_owned_string(query);
    }

    pub fn set_replacement(&mut self, replacement: &str)
        ensures
            final(self).replacement@ == replacement@,
            final(self).query == old(self).query,
            final(self).case_sensitive == old(self).case_sensitive,
            final(self).whole_word == old(self).whole_word,
            final(self).matches == old(self).matches,
            final(self).current == old(self).current,
    {
        self.replacement = crate::text::to_owned_string(replacement);
    }

    /// Recompute all matches for the document. Resets the cursor to 0.
    pub fn search(&mut self, lines: &[EditorLine])
        ensures
            final(self).searched(views(lines@)),
            final(self).current == 0,
            final(self).query == old(self).query,
            final(self).replacement == old(self).replacement,
            final(self).case_sensitive == old(self).case_sensitive,
            final(self).whole_word == old(self).whole_word,
    {
        self.matches = Vec::new();
        self.current = 0;
        let ghost ls = views(lines@);
        let mut k: usize = 0;
        while k < lines.len()
            invariant
                ls == views(lines@),
                k <= ls.len(),
                self.matches@ == matches_in(ls.subrange(0, k as int), self.query@, self.case_sensitive, self.whole_word),
                self.current == 0,
                self.query == old(self).query,
                self.replacement == old(self).replacement,
                self.case_sensitive == old(self).case_sensitive,
                self.whole_word == old(self).whole_word,
            decreases ls.len() - k,
        {
            let found = find_all(lines[k].text.as_str(), self.query.as_str(), self.case_sensitive, self.whole_word);
            let ghost prefix = self.matches@;
            let mut j: usize = 0;
            while j < found.len()
                invariant
                    j <= found@.len(),
                    self.matches@ == prefix + found@.subrange(0, j as int).map_values(
                        |r: (usize, usize)| Match { line: k, start: r.0, end: r.1 },
                    ),
                    self.current == 0,
                    self.query == old(self).query,
                    self.replacement == old(self).replacement,
                    self.case_sensitive == old(self).case_sensitive,
                    self.whole_word == old(self).whole_word,
                decreases found@.len() - j,
            {
                let (s, e) = found[j];
                self.matches.push(Match { line: k, start: s, end: e });
                assert(self.matches@ =~= prefix + found@.subrange(0, j + 1).map_values(
                    |r: (usize, usize)| Match { line: k, start: r.0, end: r.1 },
                ));
                j += 1;
            }
            proof {
                let nxt = ls.subrange(0, k + 1);
                assert(nxt.drop_last() =~= ls.subrange(0, k as int));
                assert(found@.subrange(0, found@.len() as int) =~= found@);
                assert(nxt.last() == lines@[k as int]@);
            }
            k += 1;
        }
        assert(ls.subrange(0, ls.len() as int) =~= ls);
    }

    pub fn match_count(&self) -> (n: usize)
        ensures
            n == self.matches@.len(),
    {
        self.matches.len()
    }

    pub fn has_matches(&self) -> (r: bool)
        ensures
            r == (self.matches@.len() > 0),
    {
        self.matches.len() > 0
    }

    pub fn current_match(&self) -> (r: Option<&Match>)
        ensures
            self.current < self.matches@.len() ==> r == Some(&self.matches@[self.current as int]),
            self.current >= self.matches@.len() ==> r is None,
    {
        if self.current < self.matches.len() {
            Some(&self.matches[self.current])
        } else {
            None
        }
    }

    /// Advance to the next match, wrapping around. Returns the new position.
    pub fn next(&mut self) -> (r: Option<Match>)
        ensures
            final(self).matches == old(self).matches,
            final(self).query == old(self).query,
            final(self).replacement == old(self).replacement,
            final(self).case_sensitive == old(self).case_sensitive,
            final(self).whole_word == old(self).whole_word,
            old(self).matches@.len() == 0 ==> r is None && final(self).current == old(self).current,
            old(self).matches@.len() > 0 ==> final(self).current == (old(self).current + 1) % (old(
                self,
            ).matches@.len() as int) && r == Some(final(self).matches@[final(self).current as int]),
    {
        if self.matches.len() == 0 {
            return None;
        }
        self.current = ((self.current as u128 + 1) % (self.matches.len() as u128)) as usize;
        Some(self.matches[self.current])
    }

    /// Step back one match, wrapping around.
    pub fn prev(&mut self) -> (r: Option<Match>)
        requires
            old(self).current <= old(self).matches@.len(),
        ensures
            final(self).matches == old(self).matches,
            final(self).query == old(self).query,
            final(self).replacement == old(self).replacement,
            final(self).case_sensitive == old(self).case_sensitive,
            final(self).whole_word == old(self).whole_word,
            old(self).matches@.len() == 0 ==> r is None && final(self).current == old(self).current,
            old(self).matches@.len() > 0 ==> final(self).current == (if old(self).current == 0 {
                old(self).matches@.len() - 1
            } else {
                old(self).current - 1
            }) && r == Some(final(self).matches@[final(self).current as int]),
    {
        if self.matches.len() == 0 {
            return None;
        }
        self.current = if self.current == 0 {
            self.matches.len() - 1
        } else {
            self.current - 1
        };
        Some(self.matches[self.current])
    }

    /// 1-based position for the "3/17" indicator, or 0 when there are none.
    pub fn position(&self) -> (p: usize)
        requires
            self.current < usize::MAX,
        ensures
            p == if self.matches@.len() == 0 {
                0
            } else {
                self.current + 1
            },
    {
        if self.matches.len() == 0 {
            0
        } else {
            self.current + 1
        }
    }

    /// Move the cursor to the first match at or after `line` (the first match
    /// overall when there is none).
    pub fn focus_line(&mut self, line: usize) -> (r: Option<Match>)
        ensures
            final(self).matches == old(self).matches,
            final(self).query == old(self).query,
            final(self).replacement == old(self).replacement,
            final(self).case_sensitive == old(self).case_sensitive,
            final(self).whole_word == old(self).whole_word,
            old(self).matches@.len() == 0 ==> r is None && final(self).current == old(self).current,
            old(self).matches@.len() > 0 ==> {
                let ms = old(self).matches@;
                let c = final(self).current as int;
                &&& r == Some(ms[c])
                &&& 0 <= c < ms.len()
                &&& forall|j: int| 0 <= j < c ==> #[trigger] ms[j].line < line
                &&& (ms[c].line >= line || (c == 0 && forall|j: int|
                    0 <= j < ms.len() ==> #[trigger] ms[j].line < line))
            },
    {
        if self.matches.len() == 0 {
            return None;
        }
        let mut idx: usize = 0;
        while idx < self.matches.len() && self.matches[idx].line < line
            invariant
                idx <= self.matches@.len(),
                forall|j: int| 0 <= j < idx ==> #[trigger] self.matches@[j].line < line,
            decreases self.matches@.len() - idx,
        {
            idx += 1;
        }
        if idx == self.matches.len() {
            idx = 0;
        }
        self.current = idx;
        Some(self.matches[idx])
    }

    pub fn clear(&mut self)
        ensures
            final(self).matches@.len() == 0,
            final(self).current == 0,
            final(self).query@.len() == 0,
            final(self).replacement == old(self).replacement,
            final(self).case_sensitive == old(self).case_sensitive,
            final(self).whole_word == old(self).whole_word,
    {
        self.matches = Vec::new();
        self.current = 0;
        self.query = String::new();
    }

    /// Replace the current match. Returns `true` when a replacement happened;
    /// matches are then recomputed and the cursor stays on the same slot.
    pub fn replace_current(&mut self, lines: &mut Vec<EditorLine>) -> (applied: bool)
        ensures
            final(self).query == old(self).query,
            final(self).replacement == old(self).replacement,
            final(self).case_sensitive == old(self).case_sensitive,
            final(self).whole_word == old(self).whole_word,
            ({
                let ok = old(self).current < old(self).matches@.len() && apply_match(
                    views(old(lines)@),
                    old(self).matches@[old(self).current as int],
                    old(self).replacement@,
                ).1;
                &&& applied == ok
                &&& !ok ==> views(final(lines)@) == views(old(lines)@) && final(self).matches
                    == old(self).matches && final(self).current == old(self).current
                &&& ok ==> views(final(lines)@) == apply_match(
                    views(old(lines)@),
                    old(self).matches@[old(self).current as int],
                    old(self).replacement@,
                ).0 && final(self).searched(views(final(lines)@)) && final(self).current == (if final(self).matches@.len() == 0 {
                    0
                } else if old(self).current < final(self).matches@.len() {
                    old(self).current as int
                } else {
                    final(self).matches@.len() - 1
                })
            }),
    {
        if self.current >= self.matches.len() {
            return false;
        }
        let m = self.matches[self.current];
        if m.line >= lines.len() {
            return false;
        }
        let ghost ls = views(lines@);
        let ghost rep = self.replacement@;
        let replacement = self.replacement.clone();
        let applied = replace_once(&mut lines[m.line].text, m.start, m.end, replacement.as_str());
        if !applied {
            assert(views(lines@) =~= ls);
            return false;
        }
        assert(views(lines@) =~= apply_match(ls, m, rep).0);
        let keep = self.current;
        self.search(lines);
        if self.matches.len() > 0 {
            self.current = if keep < self.matches.len() {
                keep
            } else {
                self.matches.len() - 1
            };
        }
        true
    }

    /// Replace every match, last first so earlier offsets stay valid.
    /// Returns how many replacements were made.
    pub fn replace_all(&mut self, lines: &mut Vec<EditorLine>) -> (count: usize)
        ensures
            final(self).query == old(self).query,
            final(self).replacement == old(self).replacement,
            final(self).case_sensitive == old(self).case_sensitive,
            final(self).whole_word == old(self).whole_word,
            (old(self).matches@.len() == 0 || old(self).query@.len() == 0) ==> count == 0
                && views(final(lines)@) == views(old(lines)@) && final(self).matches
                == old(self).matches && final(self).current == old(self).current,
            !(old(self).matches@.len() == 0 || old(self).query@.len() == 0) ==> {
                let (ls, c) = apply_rev(views(old(lines)@), old(self).matches@, old(self).replacement@);
                &&& count == c
                &&& views(final(lines)@) == ls
                &&& final(self).searched(ls)
                &&& final(self).current == 0
            },
            old(self).searched(views(old(lines)@)) && lines_fit(views(old(lines)@)) ==> count
                == old(self).matches@.len(),
    {
        proof {
            vstd::std_specs::vec::axiom_spec_len(lines);
            assert(views(lines@).len() == lines@.len());
            if self.searched(views(lines@)) {
                lemma_empty_query_finds_nothing(views(lines@), self.query@, self.case_sensitive, self.whole_word);
            }
            if self.searched(views(lines@)) && lines_fit(views(lines@)) {
                lemma_replace_all_after_search(
                    views(lines@),
                    self.query@,
                    self.case_sensitive,
                    self.whole_word,
                    self.replacement@,
                );
            }
        }
        if self.matches.len() == 0 || self.query.as_str().is_empty() {
            return 0;
        }
        let ghost ms = self.matches@;
        let ghost rep = self.replacement@;
        let ghost ls0 = views(lines@);
        let replacement = self.replacement.clone();
        let mut count: usize = 0;
        let mut k = self.matches.len();
        let total = k;
        assert(ms.subrange(0, k as int) =~= ms);
        while k > 0
            invariant
                k <= ms.len(),
                total == ms.len(),
                ms == self.matches@,
                replacement@ == rep,
                count <= ms.len() - k,
                apply_rev(ls0, ms, rep).0 == apply_rev(views(lines@), ms.subrange(0, k as int), rep).0,
                apply_rev(ls0, ms, rep).1 == count + apply_rev(views(lines@), ms.subrange(0, k as int), rep).1,
            decreases k,
        {
            let m = self.matches[k - 1];
            let ghost cur = views(lines@);
            let ghost sub = ms.subrange(0, k as int);
            assert(sub.last() == m);
            assert(sub.drop_last() =~= ms.subrange(0, k - 1));
            if m.line < lines.len() {
                let ok = replace_once(&mut lines[m.line].text, m.start, m.end, replacement.as_str());
                if ok {
                    count += 1;
                    assert(views(lines@) =~= apply_match(cur, m, rep).0);
                } else {
                    assert(views(lines@) =~= cur);
                }
            }
            k -= 1;
        }
        self.search(lines);
        count
    }
}

} // verus!

verus! {

// ── Laws ─────────────────────────────────────────────────────────────────

proof fn lemma_scan_sorted(h: Seq<char>, n: Seq<char>, cs: bool, ww: bool, i: int)
    requires
        0 <= i,
    ensures
        forall|k: int|
            0 <= k < scan(h, n, cs, ww, i).len() ==> i <= #[trigger] scan(h, n, cs, ww, i)[k].0,
        forall|a: int, b: int|
            0 <= a < b < scan(h, n, cs, ww, i).len() ==> #[trigger] scan(h, n, cs, ww, i)[a].1
                <= #[trigger] scan(h, n, cs, ww, i)[b].0,
    decreases h.len() - i,
{
    if n.len() == 0 || i + n.len() > h.len() {
    } else if matches_at(h, n, i, cs) && (!ww || word_ok(h, i, i + n.len())) {
        lemma_scan_sorted(h, n, cs, ww, i + n.len());
        let s = scan(h, n, cs, ww, i);
        let rest = scan(h, n, cs, ww, i + n.len());
        assert forall|k: int| 0 <= k < s.len() implies i <= #[trigger] s[k].0 by {
            if k > 0 {
                assert(s[k] == rest[k - 1]);
            }
        }
        assert forall|a: int, b: int| 0 <= a < b < s.len() implies #[trigger] s[a].1
            <= #[trigger] s[b].0 by {
            assert(s[b] == rest[b - 1]);
            assert(i + n.len() <= rest[b - 1].0);
            if a > 0 {
                assert(s[a] == rest[a - 1]);
            }
        }
    } else {
        lemma_scan_sorted(h, n, cs, ww, i + 1);
        assert(scan(h, n, cs, ww, i) == scan(h, n, cs, ww, i + 1));
    }
}

/// Every match is an occurrence of the query (the exact characters when
/// the search is case sensitive, on word boundaries for whole-word search),
/// and the matches come left to right without overlapping.
pub proof fn lemma_matches_exact_and_ordered(h: Seq<char>, n: Seq<char>, cs: bool, ww: bool)
    ensures
        forall|k: int|
            0 <= k < scan(h, n, cs, ww, 0).len() ==> {
                let r = #[trigger] scan(h, n, cs, ww, 0)[k];
                &&& 0 <= r.0 < r.1 <= h.len()
                &&& r.1 == r.0 + n.len()
                &&& matches_at(h, n, r.0, cs)
                &&& (cs ==> h.subrange(r.0, r.1) == n)
                &&& (ww ==> word_ok(h, r.0, r.1))
            },
        forall|a: int, b: int|
            0 <= a < b < scan(h, n, cs, ww, 0).len() ==> #[trigger] scan(h, n, cs, ww, 0)[a].1
                <= #[trigger] scan(h, n, cs, ww, 0)[b].0,
{
    lemma_scan_props(h, n, cs, ww, 0);
    lemma_scan_sorted(h, n, cs, ww, 0);
    assert forall|k: int| 0 <= k < scan(h, n, cs, ww, 0).len() implies {
        let r = #[trigger] scan(h, n, cs, ww, 0)[k];
        cs ==> h.subrange(r.0, r.1) == n
    } by {
        let r = scan(h, n, cs, ww, 0)[k];
        if cs {
            assert forall|t: int| 0 <= t < n.len() implies h.subrange(r.0, r.1)[t] == n[t] by {
                assert(chars_match(h[r.0 + t], n[t], cs));
            }
            assert(h.subrange(r.0, r.1) =~= n);
        }
    }
}

} // verus!

verus! {

// ── Replacing every match ────────────────────────────────────────────────

/// `m` names a line of `ls` and two character boundaries of its text, in
/// order: replacing it succeeds.
pub open spec fn match_valid(ls: Seq<LineView>, m: Match) -> bool {
    &&& m.line < ls.len()
    &&& m.start <= m.end
    &&& is_boundary(ls[m.line as int].text, m.start as int)
    &&& is_boundary(ls[m.line as int].text, m.end as int)
}

/// Matches in document order: by line, and left to right without
/// overlapping within a line.
pub open spec fn in_document_order(ms: Seq<Match>) -> bool {
    forall|a: int, b: int|
        0 <= a < b < ms.len() ==> #[trigger] ms[a].line < #[trigger] ms[b].line || (ms[a].line == ms[b].line
            && ms[a].end <= ms[b].start)
}

/// Every line's text fits in `usize` bytes, as a `String`'s always does.
pub open spec fn lines_fit(ls: Seq<LineView>) -> bool {
    forall|i: int| 0 <= i < ls.len() ==> byte_len(#[trigger] ls[i].text) <= usize::MAX
}

/// A boundary below the first `p` characters stays a boundary when those
/// characters are kept.
proof fn lemma_boundary_kept(t: Seq<char>, t1: Seq<char>, p: int, b: int)
    requires
        0 <= p <= t.len(),
        p <= t1.len(),
        t1.subrange(0, p) == t.subrange(0, p),
        is_boundary(t, b),
        b <= byte_at(t, p),
    ensures
        is_boundary(t1, b),
{
    let k = floor_chars(t, b) as int;
    crate::text::lemma_floor_chars_bound(t, b);
    if k > p {
        crate::text::lemma_byte_at_mono(t, p, k);
    }
    assert(t1.subrange(0, k) =~= t1.subrange(0, p).subrange(0, k));
    assert(t.subrange(0, k) =~= t.subrange(0, p).subrange(0, k));
    crate::text::lemma_floor_at_boundary(t1, k);
}

/// Replacing matches that are valid and in document order, last first,
/// replaces every one of them.
proof fn lemma_apply_rev_all(ls: Seq<LineView>, ms: Seq<Match>, rep: Seq<char>)
    requires
        forall|j: int| 0 <= j < ms.len() ==> match_valid(ls, #[trigger] ms[j]),
        in_document_order(ms),
    ensures
        apply_rev(ls, ms, rep).1 == ms.len(),
    decreases ms.len(),
{
    if ms.len() > 0 {
        let m = ms.last();
        assert(match_valid(ls, ms[ms.len() - 1]));
        let t = ls[m.line as int].text;
        let fs = floor_chars(t, m.start as int) as int;
        let t1 = t.subrange(0, fs) + rep + t.subrange(floor_chars(t, m.end as int) as int, t.len() as int);
        let l1 = ls.update(m.line as int, LineView { text: t1, ..ls[m.line as int] });
        crate::text::lemma_floor_chars_bound(t, m.start as int);
        assert(apply_match(ls, m, rep) == (l1, true));
        let rest = ms.drop_last();
        assert forall|j: int| 0 <= j < rest.len() implies match_valid(l1, #[trigger] rest[j]) by {
            let mj = rest[j];
            assert(mj == ms[j]);
            assert(match_valid(ls, ms[j]));
            if mj.line == m.line {
                assert(mj.end <= m.start) by {
                    assert(ms[j].line < ms[ms.len() - 1].line || (ms[j].line == ms[ms.len() - 1].line
                        && ms[j].end <= ms[ms.len() - 1].start));
                }
                assert(t1.subrange(0, fs) =~= t.subrange(0, fs));
                assert(byte_at(t, fs) == m.start);
                lemma_boundary_kept(t, t1, fs, mj.start as int);
                lemma_boundary_kept(t, t1, fs, mj.end as int);
            }
        }
        assert(in_document_order(rest)) by {
            assert forall|a: int, b: int| 0 <= a < b < rest.len() implies #[trigger] rest[a].line
                < #[trigger] rest[b].line || (rest[a].line == rest[b].line && rest[a].end <= rest[b].start) by {
                assert(rest[a] == ms[a] && rest[b] == ms[b]);
            }
        }
        lemma_apply_rev_all(l1, rest, rep);
    }
}

/// The matches of one line, as `Match`es on line `k`.
proof fn lemma_line_matches(h: Seq<char>, q: Seq<char>, cs: bool, ww: bool, k: usize)
    requires
        byte_len(h) <= usize::MAX,
    ensures
        ({
            let f = find_all_spec(h, q, cs, ww).map_values(
                |r: (usize, usize)| Match { line: k, start: r.0, end: r.1 },
            );
            &&& forall|j: int|
                0 <= j < f.len() ==> (#[trigger] f[j]).line == k && f[j].start <= f[j].end
                    && is_boundary(h, f[j].start as int) && is_boundary(h, f[j].end as int)
            &&& forall|a: int, b: int| 0 <= a < b < f.len() ==> #[trigger] f[a].end <= #[trigger] f[b].start
        }),
{
    let sc = scan(h, q, cs, ww, 0);
    lemma_scan_props(h, q, cs, ww, 0);
    lemma_scan_sorted(h, q, cs, ww, 0);
    let f = find_all_spec(h, q, cs, ww).map_values(
        |r: (usize, usize)| Match { line: k, start: r.0, end: r.1 },
    );
    assert(h.subrange(0, h.len() as int) =~= h);
    assert forall|j: int| 0 <= j < f.len() implies (#[trigger] f[j]).line == k && f[j].start <= f[j].end
        && is_boundary(h, f[j].start as int) && is_boundary(h, f[j].end as int) by {
        let r = sc[j];
        crate::text::lemma_byte_at_mono(h, r.0, r.1);
        crate::text::lemma_byte_at_mono(h, r.1, h.len() as int);
        crate::text::lemma_floor_at_boundary(h, r.0);
        crate::text::lemma_floor_at_boundary(h, r.1);
    }
    assert forall|a: int, b: int| 0 <= a < b < f.len() implies #[trigger] f[a].end <= #[trigger] f[b].start by {
        let ra = sc[a];
        let rb = sc[b];
        crate::text::lemma_byte_at_mono(h, ra.1, rb.0);
        crate::text::lemma_byte_at_mono(h, rb.0, h.len() as int);
        crate::text::lemma_byte_at_mono(h, ra.1, h.len() as int);
    }
}

/// What a search finds is valid and in document order.
proof fn lemma_search_results(ls: Seq<LineView>, q: Seq<char>, cs: bool, ww: bool)
    requires
        lines_fit(ls),
        ls.len() <= usize::MAX,
    ensures
        forall|j: int|
            0 <= j < matches_in(ls, q, cs, ww).len() ==> match_valid(ls, #[trigger] matches_in(ls, q, cs, ww)[j]),
        in_document_order(matches_in(ls, q, cs, ww)),
    decreases ls.len(),
{
    if ls.len() > 0 {
        let p = ls.drop_last();
        assert(lines_fit(p)) by {
            assert forall|i: int| 0 <= i < p.len() implies byte_len(#[trigger] p[i].text) <= usize::MAX by {
                assert(p[i] == ls[i]);
            }
        }
        lemma_search_results(p, q, cs, ww);
        lemma_matches_in_lines(p, q, cs, ww);
        let k = (ls.len() - 1) as usize;
        let h = ls.last().text;
        assert(byte_len(ls[ls.len() - 1].text) <= usize::MAX);
        lemma_line_matches(h, q, cs, ww, k);
        let pm = matches_in(p, q, cs, ww);
        let f = find_all_spec(h, q, cs, ww).map_values(
            |r: (usize, usize)| Match { line: k, start: r.0, end: r.1 },
        );
        let all = matches_in(ls, q, cs, ww);
        assert(all == pm + f);
        assert forall|j: int| 0 <= j < all.len() implies match_valid(ls, #[trigger] all[j]) by {
            if j < pm.len() {
                assert(all[j] == pm[j]);
                assert(match_valid(p, pm[j]));
                assert(ls[pm[j].line as int] == p[pm[j].line as int]);
            } else {
                assert(all[j] == f[j - pm.len()]);
            }
        }
        assert forall|a: int, b: int| 0 <= a < b < all.len() implies #[trigger] all[a].line
            < #[trigger] all[b].line || (all[a].line == all[b].line && all[a].end <= all[b].start) by {
            if b < pm.len() {
                assert(all[a] == pm[a] && all[b] == pm[b]);
            } else if a < pm.len() {
                assert(all[a] == pm[a] && all[b] == f[b - pm.len()]);
            } else {
                assert(all[a] == f[a - pm.len()] && all[b] == f[b - pm.len()]);
            }
        }
    }
}

proof fn lemma_matches_in_lines(ls: Seq<LineView>, q: Seq<char>, cs: bool, ww: bool)
    requires
        ls.len() <= usize::MAX,
    ensures
        forall|j: int| 0 <= j < matches_in(ls, q, cs, ww).len() ==> (#[trigger] matches_in(ls, q, cs, ww)[j]).line
            < ls.len(),
    decreases ls.len(),
{
    if ls.len() > 0 {
        let p = ls.drop_last();
        lemma_matches_in_lines(p, q, cs, ww);
        let pm = matches_in(p, q, cs, ww);
        let all = matches_in(ls, q, cs, ww);
        assert forall|j: int| 0 <= j < all.len() implies (#[trigger] all[j]).line < ls.len() by {
            if j < pm.len() {
                assert(all[j] == pm[j]);
            }
        }
    }
}

/// An empty query finds nothing.
proof fn lemma_empty_query_finds_nothing(ls: Seq<LineView>, q: Seq<char>, cs: bool, ww: bool)
    ensures
        q.len() == 0 ==> matches_in(ls, q, cs, ww).len() == 0,
    decreases ls.len(),
{
    if ls.len() > 0 {
        lemma_empty_query_finds_nothing(ls.drop_last(), q, cs, ww);
    }
}

/// Replacing all right after a search replaces every match it found: the
/// count reported is the number of matches, so no replacement fails.
pub proof fn lemma_replace_all_after_search(ls: Seq<LineView>, q: Seq<char>, cs: bool, ww: bool, rep: Seq<char>)
    requires
        lines_fit(ls),
        ls.len() <= usize::MAX,
    ensures
        apply_rev(ls, matches_in(ls, q, cs, ww), rep).1 == matches_in(ls, q, cs, ww).len(),
{
    lemma_search_results(ls, q, cs, ww);
    lemma_apply_rev_all(ls, matches_in(ls, q, cs, ww), rep);
}

} // verus!
