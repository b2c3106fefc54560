//! Line ending detection and normalisation.

use vstd::prelude::*;

use crate::text::chars_of;

verus! {

#[derive(Debug, Clone, Copy, PartialEq, Eq, Structural)]
pub enum LineEnding {
    /// `\n`: Unix, modern macOS, Linux.
    Lf,
    /// `\r\n`: Windows.
    Crlf,
    /// `\r`: classic Mac OS.
    Cr,
}

impl Default for LineEnding {
    fn default() -> (r: Self)
        ensures
            r == LineEnding::Lf,
    {
        LineEnding::Lf
    }
}

// ── Model ────────────────────────────────────────────────────────────────

/// Number of `\r\n` pairs.
pub open spec fn crlf_count(t: Seq<char>) -> nat
    decreases t.len(),
{
    if t.len() < 2 {
        0
    } else {
        crlf_count(t.drop_last()) + if t.last() == '\n' && t[t.len() - 2] == '\r' {
            1nat
        } else {
            0nat
        }
    }
}

/// Number of occurrences of `c`.
pub open spec fn char_count(t: Seq<char>, c: char) -> nat
    decreases t.len(),
{
    if t.len() == 0 {
        0
    } else {
        char_count(t.drop_last(), c) + if t.last() == c {
            1nat
        } else {
            0nat
        }
    }
}

/// The dominant line ending: `\r\n` pairs count once, not as a `\r` and a
/// `\n`. Ties go to CRLF, then LF, then CR; a text without breaks is LF.
pub open spec fn detected(t: Seq<char>) -> LineEnding {
    let crlf = crlf_count(t) as int;
    let cr = char_count(t, '\r') - crlf;
    let lf = char_count(t, '\n') - crlf;
    if crlf >= lf && crlf >= cr && crlf > 0 {
        LineEnding::Crlf
    } else if cr > lf && cr > 0 {
        LineEnding::Cr
    } else {
        LineEnding::Lf
    }
}

/// The characters written for a line break.
pub open spec fn break_seq(e: LineEnding) -> Seq<char> {
    match e {
        LineEnding::Lf => seq!['\n'],
        LineEnding::Crlf => seq!['\r', '\n'],
        LineEnding::Cr => seq!['\r'],
    }
}

/// `t` with every line break (`\r\n`, a lone `\r`, or `\n`) written as
/// `sq`.
pub open spec fn converted(t: Seq<char>, sq: Seq<char>) -> Seq<char>
    decreases t.len(),
{
    if t.len() == 0 {
        Seq::empty()
    } else if t[0] == '\r' && t.len() >= 2 && t[1] == '\n' {
        sq + converted(t.subrange(2, t.len() as int), sq)
    } else if t[0] == '\r' || t[0] == '\n' {
        sq + converted(t.drop_first(), sq)
    } else {
        seq![t[0]] + converted(t.drop_first(), sq)
    }
}

/// The label shown in the status bar.
pub open spec fn ending_label(e: LineEnding) -> Seq<char> {
    match e {
        LineEnding::Lf => "LF"@,
        LineEnding::Crlf => "CRLF"@,
        LineEnding::Cr => "CR"@,
    }
}

/// ASCII letters upper-cased, everything else unchanged.
pub open spec fn ascii_upper(s: Seq<char>) -> Seq<char> {
    s.map_values(
        |c: char|
            if 'a' <= c && c <= 'z' {
                ((c as u32) - 32) as char
            } else {
                c
            },
    )
}

/// The line ending a label names, ignoring ASCII case; unknown labels are
/// LF.
pub open spec fn ending_from_label(l: Seq<char>) -> LineEnding {
    if ascii_upper(l) == "CRLF"@ {
        LineEnding::Crlf
    } else if ascii_upper(l) == "CR"@ {
        LineEnding::Cr
    } else {
        LineEnding::Lf
    }
}

// ── Executable ───────────────────────────────────────────────────────────

fn upper_char(c: char) -> (r: char)
    ensures
        r == (if 'a' <= c && c <= 'z' {
            ((c as u32) - 32) as char
        } else {
            c
        }),
{
    if 'a' <= c && c <= 'z' {
        let v = (c as u32) - 32;
        assert(0x41 <= v <= 0x5a);
        char_of_ascii(v)
    } else {
        c
    }
}

fn char_of_ascii(v: u32) -> (c: char)
    requires
        v < 0x80,
    ensures
        c as u32 == v,
        c == v as char,
{
    let b = v as u8;
    b as char
}

fn seq_eq(a: &[char], b: &str) -> (r: bool)
    ensures
        r == (a@ == b@),
{
    let bs = chars_of(b);
    if a.len() != bs.len() {
        return false;
    }
    let mut i: usize = 0;
    while i < a.len()
        invariant
            i <= a@.len(),
            a@.len() == bs@.len(),
            bs@ == b@,
            forall|j: int| 0 <= j < i ==> a@[j] == bs@[j],
        decreases a@.len() - i,
    {
        if a[i] != bs[i] {
            return false;
        }
        i += 1;
    }
    assert(a@ =~= bs@);
    true
}

impl LineEnding {
    /// Infer the dominant line ending. Ties resolve towards CRLF first, then
    /// LF, then CR.
    pub fn detect(text: &str) -> (e: Self)
        ensures
            e == detected(text@),
    {
        let cs = chars_of(text);
        let mut crlf: usize = 0;
        let mut cr_total: usize = 0;
        let mut lf_total: usize = 0;
        let mut i: usize = 0;
        while i < cs.len()
            invariant
                i <= cs@.len(),
                cs@ == text@,
                crlf == crlf_count(cs@.subrange(0, i as int)),
                cr_total == char_count(cs@.subrange(0, i as int), '\r'),
                lf_total == char_count(cs@.subrange(0, i as int), '\n'),
                crlf <= lf_total <= i,
                crlf <= cr_total <= i,
                crlf + (if i > 0 && cs@[i - 1] == '\r' {
                    1int
                } else {
                    0int
                }) <= cr_total,
            decreases cs@.len() - i,
        {
            let ghost pre = cs@.subrange(0, i as int);
            let ghost nxt = cs@.subrange(0, i + 1);
            assert(nxt.drop_last() =~= pre);
            if cs[i] == '\r' {
                cr_total += 1;
            }
            if cs[i] == '\n' {
                lf_total += 1;
                if i > 0 && cs[i - 1] == '\r' {
                    crlf += 1;
                }
            }
            proof {
                if i > 0 {
                    assert(nxt[nxt.len() - 2] == cs@[i - 1]);
                }
            }
            i += 1;
        }
        assert(cs@.subrange(0, cs@.len() as int) =~= cs@);
        let cr = cr_total - crlf;
        let lf = lf_total - crlf;
        if crlf >= lf && crlf >= cr && crlf > 0 {
            LineEnding::Crlf
        } else if cr > lf && cr > 0 {
            LineEnding::Cr
        } else {
            LineEnding::Lf
        }
    }

    /// Rewrite every line ending in `text` to this style.
    pub fn apply(self, text: &str) -> (s: String)
        ensures
            s@ == converted(text@, break_seq(self)),
    {
        let cs = chars_of(text);
        let n = cs.len();
        let mut s = String::new();
        let mut i: usize = 0;
        let ghost sq = break_seq(self);
        assert(cs@.subrange(0, n as int) =~= cs@);
        while i < n
            invariant
                i <= n,
                n == cs@.len(),
                cs@ == text@,
                sq == break_seq(self),
                s@ + converted(cs@.subrange(i as int, n as int), sq) == converted(text@, sq),
            decreases n - i,
        {
            let ghost rest = cs@.subrange(i as int, n as int);
            let ghost before = s@;
            if cs[i] == '\r' || cs[i] == '\n' {
                self.push_break(&mut s);
                if cs[i] == '\r' && i + 1 < n && cs[i + 1] == '\n' {
                    assert(rest.subrange(2, rest.len() as int) =~= cs@.subrange(i + 2, n as int));
                    i += 2;
                } else {
                    assert(rest.drop_first() =~= cs@.subrange(i + 1, n as int));
                    i += 1;
                }
                assert(before + converted(rest, sq) =~= s@ + converted(
                    cs@.subrange(i as int, n as int),
                    sq,
                ));
            } else {
                s.push(cs[i]);
                assert(rest.drop_first() =~= cs@.subrange(i + 1, n as int));
                i += 1;
                assert(before + converted(rest, sq) =~= s@ + converted(
                    cs@.subrange(i as int, n as int),
                    sq,
                ));
            }
        }
        assert(cs@.subrange(n as int, n as int) =~= Seq::<char>::empty());
        assert(s@ + Seq::<char>::empty() =~= s@);
        s
    }

    fn push_break(self, s: &mut String)
        ensures
            final(s)@ == old(s)@ + break_seq(self),
    {
        match self {
            LineEnding::Lf => {
                s.push('\n');
            },
            LineEnding::Crlf => {
                s.push('\r');
                s.push('\n');
            },
            LineEnding::Cr => {
                s.push('\r');
            },
        }
        assert(final(s)@ =~= old(s)@ + break_seq(self));
    }

    pub fn label(self) -> (s: &'static str)
        ensures
            s@ == ending_label(self),
    {
        match self {
            LineEnding::Lf => "LF",
            LineEnding::Crlf => "CRLF",
            LineEnding::Cr => "CR",
        }
    }

    pub fn from_label(label: &str) -> (e: Self)
        ensures
            e == ending_from_label(label@),
    {
        let cs = chars_of(label);
        let mut up: Vec<char> = Vec::new();
        let mut i: usize = 0;
        while i < cs.len()
            invariant
                i <= cs@.len(),
                cs@ == label@,
                up@ == ascii_upper(cs@.subrange(0, i as int)),
            decreases cs@.len() - i,
        {
            up.push(upper_char(cs[i]));
            assert(up@ =~= ascii_upper(cs@.subrange(0, i + 1)));
            i += 1;
        }
        assert(cs@.subrange(0, cs@.len() as int) =~= cs@);
        if seq_eq(&up, "CRLF") {
            LineEnding::Crlf
        } else if seq_eq(&up, "CR") {
            LineEnding::Cr
        } else {
            LineEnding::Lf
        }
    }

    /// The literal sequence written to disk.
    pub fn sequence(self) -> (s: &'static str)
        ensures
            s@ == break_seq(self),
    {
        proof {
            reveal_strlit("\n");
            reveal_strlit("\r\n");
            reveal_strlit("\r");
        }
        match self {
            LineEnding::Lf => "\n",
            LineEnding::Crlf => "\r\n",
            LineEnding::Cr => "\r",
        }
    }
}

} // verus!

verus! {

// ── Laws ─────────────────────────────────────────────────────────────────

proof fn lemma_break_then_rest(e1: LineEnding, x: Seq<char>, sq: Seq<char>)
    requires
        e1 is Cr ==> (x.len() > 0 ==> x[0] != '\n'),
    ensures
        converted(break_seq(e1) + x, sq) == sq + converted(x, sq),
{
    let t = break_seq(e1) + x;
    match e1 {
        LineEnding::Crlf => {
            assert(t[0] == '\r' && t[1] == '\n');
            assert(t.subrange(2, t.len() as int) =~= x);
        },
        _ => {
            assert(t.drop_first() =~= x);
            if e1 is Cr && x.len() > 0 {
                assert(t[1] == x[0]);
            }
        },
    }
}

/// Converting to one style and then to another is the same as converting
/// straight to the second: a conversion never adds or loses a line break.
/// Converting twice to the same style changes nothing the second time.
pub proof fn lemma_apply_twice(t: Seq<char>, e1: LineEnding, e2: LineEnding)
    ensures
        converted(converted(t, break_seq(e1)), break_seq(e2)) == converted(t, break_seq(e2)),
    decreases t.len(),
{
    let s1 = break_seq(e1);
    let s2 = break_seq(e2);
    if t.len() > 0 {
        let r = if t[0] == '\r' && t.len() >= 2 && t[1] == '\n' {
            t.subrange(2, t.len() as int)
        } else {
            t.drop_first()
        };
        lemma_apply_twice(r, e1, e2);
        let x = converted(r, s1);
        if e1 is Cr && x.len() > 0 {
            if r[0] == '\r' && r.len() >= 2 && r[1] == '\n' {
                assert(x[0] == s1[0]);
            } else if r[0] == '\r' || r[0] == '\n' {
                assert(x[0] == s1[0]);
            } else {
                assert(x[0] == r[0]);
            }
        }
        if t[0] == '\r' || t[0] == '\n' {
            lemma_break_then_rest(e1, x, s2);
        } else {
            let y = seq![t[0]] + x;
            assert(y.drop_first() =~= x);
        }
    }
}

/// Number of line breaks in `t`, a `\r\n` pair counting once.
pub open spec fn break_count(t: Seq<char>) -> nat
    decreases t.len(),
{
    if t.len() == 0 {
        0
    } else if t[0] == '\r' && t.len() >= 2 && t[1] == '\n' {
        1 + break_count(t.subrange(2, t.len() as int))
    } else if t[0] == '\r' || t[0] == '\n' {
        1 + break_count(t.drop_first())
    } else {
        break_count(t.drop_first())
    }
}

proof fn lemma_char_count_concat(a: Seq<char>, b: Seq<char>, c: char)
    ensures
        char_count(a + b, c) == char_count(a, c) + char_count(b, c),
    decreases b.len(),
{
    if b.len() == 0 {
        assert(a + b =~= a);
    } else {
        lemma_char_count_concat(a, b.drop_last(), c);
        assert((a + b).drop_last() =~= a + b.drop_last());
    }
}

proof fn lemma_crlf_concat(a: Seq<char>, b: Seq<char>)
    ensures
        crlf_count(a + b) == crlf_count(a) + crlf_count(b) + if a.len() > 0 && b.len() > 0 && a.last()
            == '\r' && b[0] == '\n' {
            1nat
        } else {
            0nat
        },
    decreases b.len(),
{
    if b.len() == 0 {
        assert(a + b =~= a);
    } else if b.len() == 1 {
        assert((a + b).drop_last() =~= a);
        if a.len() > 0 {
            assert((a + b)[(a + b).len() - 2] == a.last());
        }
    } else {
        lemma_crlf_concat(a, b.drop_last());
        assert((a + b).drop_last() =~= a + b.drop_last());
        assert((a + b)[(a + b).len() - 2] == b[b.len() - 2]);
    }
}

proof fn lemma_counts_of_single(x: char)
    ensures
        crlf_count(seq![x]) == 0,
        char_count(seq![x], '\r') == if x == '\r' { 1nat } else { 0nat },
        char_count(seq![x], '\n') == if x == '\n' { 1nat } else { 0nat },
{
    let e = Seq::<char>::empty();
    assert(seq![x].drop_last() =~= e);
    assert(char_count(e, '\r') == 0);
    assert(char_count(e, '\n') == 0);
    assert(seq![x].last() == x);
}

proof fn lemma_counts_of_pair()
    ensures
        crlf_count(seq!['\r', '\n']) == 1,
        char_count(seq!['\r', '\n'], '\r') == 1,
        char_count(seq!['\r', '\n'], '\n') == 1,
{
    let p = seq!['\r', '\n'];
    assert(p.drop_last() =~= seq!['\r']);
    lemma_counts_of_single('\r');
}

/// The break counts of `t` written with `e`'s breaks.
proof fn lemma_converted_counts(t: Seq<char>, e: LineEnding)
    ensures
        ({
            let u = converted(t, break_seq(e));
            let n = break_count(t);
            &&& e is Lf ==> char_count(u, '\r') == 0 && char_count(u, '\n') == n && crlf_count(u) == 0
            &&& e is Cr ==> char_count(u, '\n') == 0 && char_count(u, '\r') == n && crlf_count(u) == 0
                && (u.len() > 0 ==> u[0] != '\n')
            &&& e is Crlf ==> char_count(u, '\r') == n && char_count(u, '\n') == n && crlf_count(u) == n
        }),
    decreases t.len(),
{
    let sq = break_seq(e);
    if t.len() == 0 {
        assert(converted(t, sq) =~= Seq::<char>::empty());
    } else {
        let r = if t[0] == '\r' && t.len() >= 2 && t[1] == '\n' {
            t.subrange(2, t.len() as int)
        } else {
            t.drop_first()
        };
        lemma_converted_counts(r, e);
        let x = converted(r, sq);
        let head = if t[0] == '\r' || t[0] == '\n' {
            sq
        } else {
            seq![t[0]]
        };
        assert(converted(t, sq) == head + x);
        lemma_char_count_concat(head, x, '\r');
        lemma_char_count_concat(head, x, '\n');
        lemma_crlf_concat(head, x);
        lemma_counts_of_single(t[0]);
        lemma_counts_of_single('\r');
        lemma_counts_of_single('\n');
        lemma_counts_of_pair();
        if e is Cr && x.len() > 0 {
            assert(x[0] != '\n');
        }
    }
}

proof fn lemma_breaks_counted(t: Seq<char>)
    requires
        t.contains('\r') || t.contains('\n'),
    ensures
        break_count(t) > 0,
    decreases t.len(),
{
    if !(t[0] == '\r' || t[0] == '\n') {
        let i = if t.contains('\r') {
            choose|i: int| 0 <= i < t.len() && t[i] == '\r'
        } else {
            choose|i: int| 0 <= i < t.len() && t[i] == '\n'
        };
        assert(i > 0);
        assert(t.drop_first()[i - 1] == t[i]);
        lemma_breaks_counted(t.drop_first());
    }
}

/// A text with at least one line break, converted to a style, is detected
/// as that style.
pub proof fn lemma_convert_then_detect(t: Seq<char>, e: LineEnding)
    requires
        t.contains('\r') || t.contains('\n'),
    ensures
        detected(converted(t, break_seq(e))) == e,
{
    lemma_converted_counts(t, e);
    lemma_breaks_counted(t);
}

/// Reading a line ending's label gives the line ending back.
pub proof fn lemma_label_roundtrip(e: LineEnding)
    ensures
        ending_from_label(ending_label(e)) == e,
{
    reveal_strlit("LF");
    reveal_strlit("CRLF");
    reveal_strlit("CR");
    assert(ascii_upper("LF"@) =~= "LF"@);
    assert(ascii_upper("CRLF"@) =~= "CRLF"@);
    assert(ascii_upper("CR"@) =~= "CR"@);
    assert("LF"@.len() == 2 && "CR"@.len() == 2 && "CRLF"@.len() == 4);
    assert("LF"@[0] == 'L' && "CR"@[0] == 'C');
}

} // verus!
