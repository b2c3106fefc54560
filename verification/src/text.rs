//! Character-level helpers: UTF-8 widths, char sequences and the few
//! Unicode classifications the editor relies on.

use vstd::prelude::*;
use vstd::std_specs::iter::IteratorSpec;

verus! {

/// Number of bytes the UTF-8 encoding of `c` occupies.
pub open spec fn utf8_width(c: char) -> nat {
    if (c as u32) < 0x80 {
        1
    } else if (c as u32) < 0x800 {
        2
    } else if (c as u32) < 0x10000 {
        3
    } else {
        4
    }
}

/// Byte length of the UTF-8 encoding of a character sequence.
pub open spec fn byte_len(s: Seq<char>) -> nat
    decreases s.len(),
{
    if s.len() == 0 {
        0
    } else {
        byte_len(s.drop_last()) + utf8_width(s.last())
    }
}

/// Executable counterpart of [`utf8_width`].
pub fn char_width(c: char) -> (w: usize)
    ensures
        w == utf8_width(c),
        1 <= w <= 4,
{
    let v = c as u32;
    if v < 0x80 {
        1
    } else if v < 0x800 {
        2
    } else if v < 0x10000 {
        3
    } else {
        4
    }
}

} // verus!

verus! {

/// The characters of `s`, in order.
pub fn chars_of(s: &str) -> (v: Vec<char>)
    ensures
        v@ == s@,
{
    broadcast use vstd::string::group_string_axioms;
    let mut it = s.chars();
    let mut v: Vec<char> = Vec::new();
    loop
        invariant
            it.obeys_prophetic_iter_laws(),
            v@ + it.remaining() == s@,
            it.decrease() is Some,
        ensures
            v@ == s@,
        decreases it.decrease()->0,
    {
        match it.next() {
            Some(c) => {
                v.push(c);
            },
            None => {
                break;
            },
        }
    }
    v
}

} // verus!

verus! {

/// `String::push` appends one character.
pub assume_specification[ String::push ](s: &mut String, ch: char)
    ensures
        final(s)@ == old(s)@.push(ch),
;

/// A `String` holding exactly the characters of `v`.
pub fn string_from_chars(v: &[char]) -> (s: String)
    ensures
        s@ == v@,
{
    let mut s = String::new();
    let mut i: usize = 0;
    while i < v.len()
        invariant
            i <= v@.len(),
            s@ == v@.subrange(0, i as int),
        decreases v@.len() - i,
    {
        s.push(v[i]);
        i += 1;
    }
    s
}

/// Append every character of `t` to `s`.
pub fn push_str(s: &mut String, t: &str)
    ensures
        final(s)@ == old(s)@ + t@,
{
    let cs = chars_of(t);
    let mut i: usize = 0;
    while i < cs.len()
        invariant
            i <= cs@.len(),
            cs@ == t@,
            s@ == old(s)@ + cs@.subrange(0, i as int),
        decreases cs@.len() - i,
    {
        s.push(cs[i]);
        i += 1;
    }
}

/// A fresh `String` equal to `t`.
pub fn to_owned_string(t: &str) -> (s: String)
    ensures
        s@ == t@,
{
    let mut s = String::new();
    push_str(&mut s, t);
    s
}

} // verus!

verus! {

/// Character-wise equality of two strings.
pub fn str_eq(a: &str, b: &str) -> (r: bool)
    ensures
        r == (a@ == b@),
{
    let x = chars_of(a);
    let y = chars_of(b);
    if x.len() != y.len() {
        return false;
    }
    let mut i: usize = 0;
    while i < x.len()
        invariant
            x@ == a@,
            y@ == b@,
            x@.len() == y@.len(),
            i <= x@.len(),
            forall|j: int| 0 <= j < i ==> x@[j] == y@[j],
        decreases x@.len() - i,
    {
        if x[i] != y[i] {
            return false;
        }
        i += 1;
    }
    assert(x@ =~= y@);
    true
}

/// `true` when `p` is a prefix of `s`.
pub open spec fn is_prefix(p: Seq<char>, s: Seq<char>) -> bool {
    p.len() <= s.len() && s.subrange(0, p.len() as int) == p
}

/// `str::starts_with` for a string prefix.
pub fn starts_with(s: &str, p: &str) -> (r: bool)
    ensures
        r == is_prefix(p@, s@),
{
    let x = chars_of(s);
    let y = chars_of(p);
    if y.len() > x.len() {
        return false;
    }
    let mut i: usize = 0;
    while i < y.len()
        invariant
            x@ == s@,
            y@ == p@,
            y@.len() <= x@.len(),
            i <= y@.len(),
            forall|j: int| 0 <= j < i ==> x@[j] == y@[j],
        decreases y@.len() - i,
    {
        if x[i] != y[i] {
            return false;
        }
        i += 1;
    }
    assert(x@.subrange(0, y@.len() as int) =~= y@);
    true
}

/// Unicode `White_Space`, the property `char::is_whitespace` tests.
pub open spec fn is_white_space(c: char) -> bool {
    let v = c as u32;
    ||| 0x09 <= v <= 0x0d
    ||| v == 0x20
    ||| v == 0x85
    ||| v == 0xa0
    ||| v == 0x1680
    ||| 0x2000 <= v <= 0x200a
    ||| v == 0x2028
    ||| v == 0x2029
    ||| v == 0x202f
    ||| v == 0x205f
    ||| v == 0x3000
}

/// Whether `c` has the Unicode `White_Space` property, the set
/// `char::is_whitespace` tests.
pub(crate) fn is_whitespace(c: char) -> (r: bool)
    ensures
        r == is_white_space(c),
{
    let v = c as u32;
    (0x09 <= v && v <= 0x0d) || v == 0x20 || v == 0x85 || v == 0xa0 || v == 0x1680 || (0x2000 <= v
        && v <= 0x200a) || v == 0x2028 || v == 0x2029 || v == 0x202f || v == 0x205f || v == 0x3000
}

/// What `char::is_alphanumeric` answers: the Unicode `Alphabetic` or
/// `Numeric` property.
pub uninterp spec fn unicode_alphanumeric(c: char) -> bool;

/// `char::is_alphanumeric`. Outside ASCII the answer comes from Unicode
/// tables and is only named; on ASCII it is exactly the letters and digits.
#[verifier::external_body]
pub(crate) fn is_alphanumeric(c: char) -> (r: bool)
    ensures
        r == unicode_alphanumeric(c),
        (c as u32) < 0x80 ==> (r <==> (('a' <= c && c <= 'z') || ('A' <= c && c <= 'Z') || ('0'
            <= c && c <= '9'))),
{
    c.is_alphanumeric()
}

/// The first character of `char::to_lowercase`, the per-character case fold
/// used by case-insensitive search.
pub uninterp spec fn lower_first(c: char) -> char;

/// `c.to_lowercase().next()`, falling back to `c`. ASCII letters map to their
/// lower-case form and every other ASCII character to itself; elsewhere the
/// result follows Unicode's case tables and is only named.
#[verifier::external_body]
pub(crate) fn fold_char(c: char) -> (r: char)
    ensures
        r == lower_first(c),
        ('A' <= c && c <= 'Z') ==> r as u32 == c as u32 + 32,
        ((c as u32) < 0x80 && !('A' <= c && c <= 'Z')) ==> r == c,
{
    c.to_lowercase().next().unwrap_or(c)
}

} // verus!

verus! {

/// `str::len`: the byte length of the UTF-8 encoding.
#[verifier::external_body]
pub(crate) fn byte_length(s: &str) -> (n: usize)
    ensures
        n == byte_len(s@),
{
    s.len()
}

/// Every character is ASCII (encodes to one byte).
pub open spec fn all_ascii(s: Seq<char>) -> bool {
    forall|i: int| 0 <= i < s.len() ==> (#[trigger] s[i] as u32) < 0x80
}

/// A character sequence is never longer than its UTF-8 encoding, and the two
/// lengths agree exactly when every character is ASCII.
pub proof fn lemma_byte_len_bounds(s: Seq<char>)
    ensures
        s.len() <= byte_len(s) <= 4 * s.len(),
        byte_len(s) == s.len() <==> all_ascii(s),
    decreases s.len(),
{
    if s.len() > 0 {
        lemma_byte_len_bounds(s.drop_last());
        if all_ascii(s) {
            assert forall|i: int| 0 <= i < s.drop_last().len() implies (
            #[trigger] s.drop_last()[i] as u32) < 0x80 by {
                assert(s.drop_last()[i] == s[i]);
            }
            assert((s[s.len() - 1] as u32) < 0x80);
        }
        if byte_len(s) == s.len() {
            assert forall|i: int| 0 <= i < s.len() implies (#[trigger] s[i] as u32) < 0x80 by {
                if i < s.len() - 1 {
                    assert(s.drop_last()[i] == s[i]);
                }
            }
        }
    }
}

/// Byte length of a prefix grows by the width of the next character.
pub proof fn lemma_byte_len_push(s: Seq<char>, i: int)
    requires
        0 <= i < s.len(),
    ensures
        byte_len(s.subrange(0, i + 1)) == byte_len(s.subrange(0, i)) + utf8_width(s[i]),
{
    assert(s.subrange(0, i + 1).drop_last() =~= s.subrange(0, i));
}

/// Byte length of a concatenation is the sum of the byte lengths.
pub proof fn lemma_byte_len_concat(a: Seq<char>, b: Seq<char>)
    ensures
        byte_len(a + b) == byte_len(a) + byte_len(b),
    decreases b.len(),
{
    if b.len() == 0 {
        assert(a + b =~= a);
    } else {
        assert((a + b).drop_last() =~= a + b.drop_last());
        lemma_byte_len_concat(a, b.drop_last());
    }
}

} // verus!

verus! {

/// Decimal digits of `n`, most significant first (`"0"` for zero).
pub open spec fn decimal(n: nat) -> Seq<char>
    decreases n,
{
    if n < 10 {
        seq![digit_char(n as int)]
    } else {
        decimal(n / 10).push(digit_char((n % 10) as int))
    }
}

/// The ASCII digit for `d` in `0..10`.
pub open spec fn digit_char(d: int) -> char {
    (d + 48) as char
}

fn digit_char_exec(d: u32) -> (c: char)
    requires
        d < 10,
    ensures
        c == digit_char(d as int),
{
    if d == 0 {
        '0'
    } else if d == 1 {
        '1'
    } else if d == 2 {
        '2'
    } else if d == 3 {
        '3'
    } else if d == 4 {
        '4'
    } else if d == 5 {
        '5'
    } else if d == 6 {
        '6'
    } else if d == 7 {
        '7'
    } else if d == 8 {
        '8'
    } else {
        '9'
    }
}

/// Append the decimal form of `n` to `s` (what `write!(s, "{}", n)` does).
pub fn push_decimal(s: &mut String, n: u64)
    ensures
        final(s)@ == old(s)@ + decimal(n as nat),
    decreases n,
{
    if n < 10 {
        s.push(digit_char_exec(n as u32));
        assert(decimal(n as nat) =~= seq![digit_char(n as int)]);
    } else {
        push_decimal(s, n / 10);
        s.push(digit_char_exec((n % 10) as u32));
        assert(old(s)@ + decimal(n as nat) =~= old(s)@ + decimal((n / 10) as nat) + seq![
            digit_char((n % 10) as int),
        ]);
    }
}

/// The decimal form of `n`.
pub fn decimal_string(n: u64) -> (s: String)
    ensures
        s@ == decimal(n as nat),
{
    let mut s = String::new();
    push_decimal(&mut s, n);
    assert(s@ =~= decimal(n as nat));
    s
}

} // verus!

verus! {

/// Number of leading characters of `s` whose encoding fits in `idx` bytes:
/// the character index of the last char boundary at or before byte `idx`.
pub open spec fn floor_chars(s: Seq<char>, idx: int) -> nat
    decreases s.len(),
{
    if s.len() == 0 || utf8_width(s[0]) > idx {
        0
    } else {
        1 + floor_chars(s.drop_first(), idx - utf8_width(s[0]))
    }
}

pub(crate) proof fn lemma_floor_chars_bound(s: Seq<char>, idx: int)
    ensures
        floor_chars(s, idx) <= s.len(),
    decreases s.len(),
{
    if s.len() > 0 && utf8_width(s[0]) <= idx {
        lemma_floor_chars_bound(s.drop_first(), idx - utf8_width(s[0]));
    }
}

proof fn lemma_floor_chars_step(s: Seq<char>, k: int, idx: int)
    requires
        0 <= k < s.len(),
        k <= floor_chars(s, idx),
    ensures
        (k < floor_chars(s, idx)) <==> byte_len(s.subrange(0, k + 1)) <= idx,
    decreases k,
{
    let w = utf8_width(s[0]);
    assert(seq![s[0]].drop_last() =~= Seq::<char>::empty());
    assert(byte_len(seq![s[0]]) == w) by {
        reveal_with_fuel(byte_len, 2);
    }
    if k == 0 {
        assert(s.subrange(0, 1) =~= seq![s[0]]);
        if w <= idx {
            assert(floor_chars(s, idx) == 1 + floor_chars(s.drop_first(), idx - w));
        } else {
            assert(floor_chars(s, idx) == 0);
        }
    } else {
        assert(w <= idx);
        assert(floor_chars(s, idx) == 1 + floor_chars(s.drop_first(), idx - w));
        lemma_floor_chars_step(s.drop_first(), k - 1, idx - w);
        let a = s.subrange(0, k + 1);
        assert(a =~= seq![s[0]] + s.drop_first().subrange(0, k));
        lemma_byte_len_concat(seq![s[0]], s.drop_first().subrange(0, k));
    }
}

/// Character index of the last char boundary at or before byte `idx`
/// (every character when `idx` is past the end).
pub fn floor_char_index(cs: &[char], idx: usize) -> (k: usize)
    ensures
        k == floor_chars(cs@, idx as int),
        k <= cs@.len(),
{
    let mut k: usize = 0;
    let mut bytes: usize = 0;
    proof {
        lemma_floor_chars_bound(cs@, idx as int);
    }
    while k < cs.len()
        invariant
            k <= cs@.len(),
            k <= floor_chars(cs@, idx as int),
            floor_chars(cs@, idx as int) <= cs@.len(),
            bytes == byte_len(cs@.subrange(0, k as int)),
            bytes <= idx,
        decreases cs@.len() - k,
    {
        let w = char_width(cs[k]);
        proof {
            lemma_floor_chars_step(cs@, k as int, idx as int);
            lemma_byte_len_push(cs@, k as int);
        }
        if w > idx - bytes {
            return k;
        }
        bytes = bytes + w;
        k += 1;
    }
    k
}

/// The subsequence `from..to` of `cs` as a `String`.
pub fn string_of_range(cs: &[char], from: usize, to: usize) -> (s: String)
    requires
        from <= to <= cs@.len(),
    ensures
        s@ == cs@.subrange(from as int, to as int),
{
    let mut s = String::new();
    let mut i = from;
    while i < to
        invariant
            from <= i <= to <= cs@.len(),
            s@ == cs@.subrange(from as int, i as int),
        decreases to - i,
    {
        s.push(cs[i]);
        i += 1;
    }
    s
}

} // verus!

verus! {

/// `b` is a character boundary of `s`: some prefix of `s` encodes to exactly
/// `b` bytes.
pub open spec fn is_boundary(s: Seq<char>, b: int) -> bool {
    byte_len(s.subrange(0, floor_chars(s, b) as int)) == b
}

/// Byte offset of the first `k` characters.
pub open spec fn byte_at(s: Seq<char>, k: int) -> nat {
    byte_len(s.subrange(0, k))
}

pub proof fn lemma_byte_at_mono(s: Seq<char>, a: int, b: int)
    requires
        0 <= a <= b <= s.len(),
    ensures
        byte_at(s, a) <= byte_at(s, b),
        a < b ==> byte_at(s, a) < byte_at(s, b),
    decreases b - a,
{
    if a < b {
        lemma_byte_at_mono(s, a, b - 1);
        lemma_byte_len_push(s, b - 1);
    }
}

/// The character index whose prefix ends exactly at byte `byte_at(s, k)` is
/// `k` itself.
pub proof fn lemma_floor_at_boundary(s: Seq<char>, k: int)
    requires
        0 <= k <= s.len(),
    ensures
        floor_chars(s, byte_at(s, k) as int) == k,
    decreases k,
{
    if k == 0 {
        if s.len() > 0 {
            assert(s.subrange(0, 0) =~= Seq::<char>::empty());
        }
    } else {
        let w = utf8_width(s[0]);
        assert(s.subrange(0, k) =~= seq![s[0]] + s.drop_first().subrange(0, k - 1));
        lemma_byte_len_concat(seq![s[0]], s.drop_first().subrange(0, k - 1));
        assert(seq![s[0]].drop_last() =~= Seq::<char>::empty());
        assert(byte_len(seq![s[0]]) == w) by {
            reveal_with_fuel(byte_len, 2);
        }
        lemma_floor_at_boundary(s.drop_first(), k - 1);
        if k - 1 < s.len() - 1 {
            let t = s.drop_first();
            lemma_byte_len_push(t, k - 1);
        }
    }
}

/// Byte offset of the first `k` characters, computed.
pub fn byte_offset(cs: &[char], k: usize) -> (n: usize)
    requires
        k <= cs@.len(),
        byte_len(cs@) <= usize::MAX,
    ensures
        n == byte_at(cs@, k as int),
{
    let mut n: usize = 0;
    let mut i: usize = 0;
    proof {
        lemma_byte_at_mono(cs@, k as int, cs@.len() as int);
        assert(cs@.subrange(0, cs@.len() as int) =~= cs@);
    }
    while i < k
        invariant
            i <= k <= cs@.len(),
            n == byte_at(cs@, i as int),
            byte_at(cs@, k as int) <= usize::MAX,
        decreases k - i,
    {
        proof {
            lemma_byte_len_push(cs@, i as int);
            lemma_byte_at_mono(cs@, i + 1, k as int);
        }
        n = n + char_width(cs[i]);
        i += 1;
    }
    n
}

} // verus!

verus! {

// ── Trimming ──────────────────────────────────────────────────────────────

/// `s` without its leading whitespace.
pub open spec fn trim_start(s: Seq<char>) -> Seq<char>
    decreases s.len(),
{
    if s.len() > 0 && is_white_space(s[0]) {
        trim_start(s.drop_first())
    } else {
        s
    }
}

/// `s` without its trailing whitespace.
pub open spec fn trim_end(s: Seq<char>) -> Seq<char>
    decreases s.len(),
{
    if s.len() > 0 && is_white_space(s.last()) {
        trim_end(s.drop_last())
    } else {
        s
    }
}

/// `str::trim`: whitespace removed from both ends.
pub open spec fn trimmed(s: Seq<char>) -> Seq<char> {
    trim_end(trim_start(s))
}

/// `p` with whitespace removed from both ends.
pub fn trimmed_chars(p: &[char]) -> (r: Vec<char>)
    ensures
        r@ == trimmed(p@),
{
    let n = p.len();
    let mut a: usize = 0;
    assert(p@.subrange(0, n as int) =~= p@);
    while a < n
        invariant
            n == p@.len(),
            a <= n,
            trim_start(p@) == trim_start(p@.subrange(a as int, n as int)),
        ensures
            a == n || !is_white_space(p@[a as int]),
        decreases n - a,
    {
        if !is_whitespace(p[a]) {
            break;
        }
        assert(p@.subrange(a as int, n as int).drop_first() =~= p@.subrange(a + 1, n as int));
        a += 1;
    }
    let ghost rest = p@.subrange(a as int, n as int);
    assert(trim_start(rest) == rest);
    let mut b: usize = n;
    while b > a
        invariant
            n == p@.len(),
            a <= b <= n,
            trim_start(p@) == p@.subrange(a as int, n as int),
            trim_end(trim_start(p@)) == trim_end(p@.subrange(a as int, b as int)),
        ensures
            b == a || !is_white_space(p@[b - 1]),
        decreases b - a,
    {
        if !is_whitespace(p[b - 1]) {
            break;
        }
        assert(p@.subrange(a as int, b as int).drop_last() =~= p@.subrange(a as int, b - 1));
        b -= 1;
    }
    let mut r: Vec<char> = Vec::new();
    let mut i: usize = a;
    while i < b
        invariant
            a <= i <= b <= n,
            n == p@.len(),
            r@ == p@.subrange(a as int, i as int),
        decreases b - i,
    {
        r.push(p[i]);
        i += 1;
    }
    assert(trim_end(p@.subrange(a as int, b as int)) == p@.subrange(a as int, b as int));
    r
}

/// `p` without its trailing whitespace.
pub fn trim_end_chars(p: &[char]) -> (r: Vec<char>)
    ensures
        r@ == trim_end(p@),
{
    let n = p.len();
    let mut b: usize = n;
    assert(p@.subrange(0, n as int) =~= p@);
    while b > 0
        invariant
            n == p@.len(),
            b <= n,
            trim_end(p@) == trim_end(p@.subrange(0, b as int)),
        ensures
            b == 0 || !is_white_space(p@[b - 1]),
        decreases b,
    {
        if !is_whitespace(p[b - 1]) {
            break;
        }
        assert(p@.subrange(0, b as int).drop_last() =~= p@.subrange(0, b - 1));
        b -= 1;
    }
    let mut r: Vec<char> = Vec::new();
    let mut i: usize = 0;
    while i < b
        invariant
            i <= b <= n,
            n == p@.len(),
            r@ == p@.subrange(0, i as int),
        decreases b - i,
    {
        r.push(p[i]);
        i += 1;
    }
    r
}

} // verus!

verus! {

/// Lower-case hex digits of `n`, without leading zeros.
pub open spec fn hex_digits(n: nat) -> Seq<char>
    decreases n,
{
    if n < 16 {
        seq![crate::highlight::palette::hex_char(n as int)]
    } else {
        hex_digits(n / 16).push(crate::highlight::palette::hex_char((n % 16) as int))
    }
}

/// Append the lower-case hex digits of `n` (`{:x}`).
pub fn push_hex(s: &mut String, n: u128)
    ensures
        final(s)@ == old(s)@ + hex_digits(n as nat),
    decreases n,
{
    if n < 16 {
        s.push(crate::highlight::palette::hex_digit_char(n as u32));
        assert(hex_digits(n as nat) =~= seq![crate::highlight::palette::hex_char(n as int)]);
    } else {
        push_hex(s, n / 16);
        s.push(crate::highlight::palette::hex_digit_char((n % 16) as u32));
        assert(old(s)@ + hex_digits(n as nat) =~= old(s)@ + hex_digits((n / 16) as nat) + seq![
            crate::highlight::palette::hex_char((n % 16) as int),
        ]);
    }
}

} // verus!
