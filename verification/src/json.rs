//! The two JSON shapes the editor stores: an object of per-line values and
//! an array of small per-line records. Parsing and printing JSON text is
//! `serde_json`'s work; this module holds what the editor reads of it.

use vstd::prelude::*;

use serde_json::Value;

use crate::text::{chars_of, decimal, digit_char};

verus! {

/// A JSON value as the editor reads it: a string, a non-negative integer
/// that fits a `u64`, a boolean, or anything else.
#[derive(Debug, PartialEq, Eq)]
pub enum JsonScalar {
    Str(String),
    Unsigned(u64),
    Bool(bool),
    Other,
}

/// A JSON document as the editor reads it: an object of members, an array
/// whose items are objects (`None` for any other item), or anything else.
#[derive(Debug, PartialEq, Eq)]
pub enum JsonShape {
    Object(Vec<(String, JsonScalar)>),
    Array(Vec<Option<Vec<(String, JsonScalar)>>>),
    Other,
}

/// The mathematical content of a [`JsonScalar`].
pub enum ScalarView {
    Str(Seq<char>),
    Unsigned(u64),
    Bool(bool),
    Other,
}

/// The mathematical content of a [`JsonShape`].
pub enum ShapeView {
    Object(Seq<(Seq<char>, ScalarView)>),
    Array(Seq<Option<Seq<(Seq<char>, ScalarView)>>>),
    Other,
}

impl View for JsonScalar {
    type V = ScalarView;

    open spec fn view(&self) -> ScalarView {
        match self {
            JsonScalar::Str(s) => ScalarView::Str(s@),
            JsonScalar::Unsigned(n) => ScalarView::Unsigned(*n),
            JsonScalar::Bool(b) => ScalarView::Bool(*b),
            JsonScalar::Other => ScalarView::Other,
        }
    }
}

/// The views of the members of an object.
pub open spec fn members_view(m: Seq<(String, JsonScalar)>) -> Seq<(Seq<char>, ScalarView)> {
    m.map_values(|p: (String, JsonScalar)| (p.0@, p.1@))
}

/// The view of one array item: its members when it is an object.
pub open spec fn item_view(i: Option<Vec<(String, JsonScalar)>>) -> Option<
    Seq<(Seq<char>, ScalarView)>,
> {
    match i {
        Some(m) => Some(members_view(m@)),
        None => None,
    }
}

/// The views of the items of an array.
pub open spec fn items_view(items: Seq<Option<Vec<(String, JsonScalar)>>>) -> Seq<
    Option<Seq<(Seq<char>, ScalarView)>>,
> {
    items.map_values(|i: Option<Vec<(String, JsonScalar)>>| item_view(i))
}

impl View for JsonShape {
    type V = ShapeView;

    open spec fn view(&self) -> ShapeView {
        match self {
            JsonShape::Object(m) => ShapeView::Object(members_view(m@)),
            JsonShape::Array(items) => ShapeView::Array(items_view(items@)),
            JsonShape::Other => ShapeView::Other,
        }
    }
}

/// What `serde_json` reads from a JSON text: the shape of the parsed value,
/// `Other` when the text is not JSON or is neither an object nor an array.
/// Object members come in the order of `serde_json::Map` (by key).
pub uninterp spec fn json_shape(text: Seq<char>) -> ShapeView;

/// `serde_json::from_str::<serde_json::Value>`, with the value converted to
/// a [`JsonShape`]: members as `(key, scalar)` pairs, strings, `u64`
/// numbers (`Value::as_u64`) and booleans kept, everything else `Other`.
/// The result is a function of the text alone.
#[verifier::external_body]
pub(crate) fn parse_json(text: &str) -> (r: JsonShape)
    ensures
        r@ == json_shape(text@),
{
    let object = |m: &serde_json::Map<String, Value>| {
        m.iter().map(|(k, v)| (k.clone(), match v {
            Value::String(s) => JsonScalar::Str(s.clone()),
            Value::Bool(b) => JsonScalar::Bool(*b),
            Value::Number(n) => n.as_u64().map_or(JsonScalar::Other, JsonScalar::Unsigned),
            _ => JsonScalar::Other,
        })).collect()
    };
    match serde_json::from_str(text) {
        Ok(Value::Object(m)) => JsonShape::Object(object(&m)),
        Ok(Value::Array(a)) => JsonShape::Array(a.iter().map(|e| e.as_object().map(object)).collect()),
        _ => JsonShape::Other,
    }
}

/// The compact text `serde_json` prints for a shape.
pub uninterp spec fn json_text(shape: ShapeView) -> Seq<char>;

/// No two members share a key.
pub open spec fn keys_distinct(ms: Seq<(Seq<char>, ScalarView)>) -> bool {
    forall|i: int, j: int| 0 <= i < j < ms.len() ==> (#[trigger] ms[i]).0 != (#[trigger] ms[j]).0
}

/// `b` holds the members of `a`, each once, in some order.
pub open spec fn same_members(a: Seq<(Seq<char>, ScalarView)>, b: Seq<(Seq<char>, ScalarView)>) -> bool {
    keys_distinct(b) && b.to_set() == a.to_set()
}

/// `read` is what parsing the text of `written` gives back: an object with
/// distinct keys comes back with the same members (in the map's order), an
/// array of such objects item for item, anything else as `Other`.
pub open spec fn reads_back(written: ShapeView, read: ShapeView) -> bool {
    match written {
        ShapeView::Object(ms) => keys_distinct(ms) ==> (read matches ShapeView::Object(r) && same_members(ms, r)),
        ShapeView::Array(items) => (forall|i: int|
            0 <= i < items.len() && (#[trigger] items[i]) is Some ==> keys_distinct(items[i]->0)) ==> (
        read matches ShapeView::Array(r) && r.len() == items.len() && forall|i: int|
            0 <= i < items.len() ==> match (#[trigger] items[i], r[i]) {
                (Some(a), Some(b)) => same_members(a, b),
                (None, None) => true,
                _ => false,
            }),
        ShapeView::Other => read is Other,
    }
}

/// `serde_json::Value::to_string` of the value a shape describes: objects
/// become `serde_json::Map`s (keys in map order, a repeated key keeping its
/// last value), `Other` becomes `null`. The text is a function of the shape
/// alone, and `serde_json::from_str` reads it back as the same value: the
/// same members (strings, `u64` numbers and booleans are printed exactly,
/// `Other` as `null`), so [`parse_json`] gives the shape back up to the
/// order of object members.
#[verifier::external_body]
pub(crate) fn render_json(shape: &JsonShape) -> (r: String)
    ensures
        r@ == json_text(shape@),
        reads_back(shape@, json_shape(r@)),
{
    let scalar = |s: &JsonScalar| match s {
        JsonScalar::Str(t) => Value::from(t.as_str()),
        JsonScalar::Unsigned(n) => Value::from(*n),
        JsonScalar::Bool(b) => Value::from(*b),
        JsonScalar::Other => Value::Null,
    };
    let object = |m: &Vec<(String, JsonScalar)>| Value::Object(m.iter().map(|(k, v)| (k.clone(), scalar(v))).collect());
    match shape {
        JsonShape::Object(m) => object(m),
        JsonShape::Array(items) => Value::Array(items.iter().map(|i| i.as_ref().map_or(Value::Null, object)).collect()),
        JsonShape::Other => Value::Null,
    }.to_string()
}

/// The first value stored under `key`.
pub open spec fn lookup(ms: Seq<(Seq<char>, ScalarView)>, key: Seq<char>) -> Option<ScalarView>
    decreases ms.len(),
{
    if ms.len() == 0 {
        None
    } else if ms[0].0 == key {
        Some(ms[0].1)
    } else {
        lookup(ms.drop_first(), key)
    }
}

/// With distinct keys, a member is in `ms` exactly when looking up its key
/// finds its value.
pub proof fn lemma_lookup_member(ms: Seq<(Seq<char>, ScalarView)>, key: Seq<char>, v: ScalarView)
    requires
        keys_distinct(ms),
    ensures
        ms.contains((key, v)) <==> lookup(ms, key) == Some(v),
        lookup(ms, key) is None <==> forall|k: int| 0 <= k < ms.len() ==> (#[trigger] ms[k]).0 != key,
    decreases ms.len(),
{
    if ms.len() > 0 {
        let rest = ms.drop_first();
        assert(keys_distinct(rest)) by {
            assert forall|i: int, j: int| 0 <= i < j < rest.len() implies (#[trigger] rest[i]).0 != (
            #[trigger] rest[j]).0 by {
                assert(rest[i] == ms[i + 1] && rest[j] == ms[j + 1]);
            }
        }
        lemma_lookup_member(rest, key, v);
        if ms.contains((key, v)) {
            let k = choose|k: int| 0 <= k < ms.len() && ms[k] == (key, v);
            if k > 0 {
                assert(rest[k - 1] == ms[k]);
                assert(ms[0].0 != ms[k].0);
            }
        }
        if lookup(ms, key) == Some(v) && ms[0].0 != key {
            assert(rest.contains((key, v)));
            let k = choose|k: int| 0 <= k < rest.len() && rest[k] == (key, v);
            assert(ms[k + 1] == rest[k]);
        }
        assert forall|k: int| 0 < k < ms.len() implies (#[trigger] ms[k]) == rest[k - 1] by {}
    }
}

/// Looking a key up gives the same value in two orders of the same members.
pub proof fn lemma_lookup_same_members(
    a: Seq<(Seq<char>, ScalarView)>,
    b: Seq<(Seq<char>, ScalarView)>,
    key: Seq<char>,
)
    requires
        keys_distinct(a),
        same_members(a, b),
    ensures
        lookup(a, key) == lookup(b, key),
{
    match lookup(a, key) {
        Some(v) => {
            lemma_lookup_member(a, key, v);
            assert(a.to_set().contains((key, v)));
            assert(b.to_set().contains((key, v)));
            lemma_lookup_member(b, key, v);
        },
        None => {
            lemma_lookup_member(a, key, ScalarView::Other);
            match lookup(b, key) {
                Some(w) => {
                    lemma_lookup_member(b, key, w);
                    assert(b.to_set().contains((key, w)));
                    assert(a.to_set().contains((key, w)));
                    lemma_lookup_member(a, key, w);
                },
                None => {},
            }
        },
    }
}

// ── Reading keys ─────────────────────────────────────────────────────────

/// Value of a run of decimal digits.
pub open spec fn digits_value(s: Seq<char>) -> int
    decreases s.len(),
{
    if s.len() == 0 {
        0
    } else {
        digits_value(s.drop_last()) * 10 + (s.last() as int - '0' as int)
    }
}

/// Every character is a decimal digit.
pub open spec fn all_digits(s: Seq<char>) -> bool {
    forall|i: int| 0 <= i < s.len() ==> '0' <= #[trigger] s[i] && s[i] <= '9'
}

/// `usize::from_str`: an optional `+`, then one or more digits, the value
/// fitting `usize`.
pub open spec fn parsed_usize(s: Seq<char>) -> Option<usize> {
    let body = if s.len() > 0 && s[0] == '+' {
        s.drop_first()
    } else {
        s
    };
    if body.len() > 0 && all_digits(body) && digits_value(body) <= usize::MAX {
        Some(digits_value(body) as usize)
    } else {
        None
    }
}

proof fn lemma_digits_monotone(s: Seq<char>, k: int)
    requires
        0 <= k <= s.len(),
        all_digits(s),
    ensures
        0 <= digits_value(s.subrange(0, k)) <= digits_value(s),
    decreases s.len() - k,
{
    if k < s.len() {
        lemma_digits_monotone(s, k + 1);
        let p = s.subrange(0, k + 1);
        assert(p.drop_last() =~= s.subrange(0, k));
        assert('0' <= s[k] && s[k] <= '9');
    } else {
        assert(s.subrange(0, k) =~= s);
        lemma_digits_nonneg(s);
    }
}

proof fn lemma_digits_nonneg(s: Seq<char>)
    requires
        all_digits(s),
    ensures
        digits_value(s) >= 0,
    decreases s.len(),
{
    if s.len() > 0 {
        assert(all_digits(s.drop_last())) by {
            assert forall|i: int| 0 <= i < s.drop_last().len() implies '0' <= #[trigger] s.drop_last()[i]
                && s.drop_last()[i] <= '9' by {
                assert(s.drop_last()[i] == s[i]);
            }
        }
        lemma_digits_nonneg(s.drop_last());
        assert('0' <= s[s.len() - 1]);
    }
}

proof fn lemma_decimal_digits(n: nat)
    ensures
        decimal(n).len() > 0,
        all_digits(decimal(n)),
        digits_value(decimal(n)) == n,
    decreases n,
{
    let s = decimal(n);
    if n < 10 {
        assert(s.drop_last() =~= Seq::<char>::empty());
        assert(s[0] == digit_char(n as int));
        assert((s[0] as int) == n + 48);
        assert(('0' as int) == 48);
        assert(s.last() == s[0]);
        assert(digits_value(s.drop_last()) == 0);
    } else {
        lemma_decimal_digits(n / 10);
        let p = decimal(n / 10);
        assert(s.drop_last() =~= p);
        assert((s.last() as int) == n % 10 + 48);
        assert forall|i: int| 0 <= i < s.len() implies '0' <= #[trigger] s[i] && s[i] <= '9' by {
            if i < s.len() - 1 {
                assert(s[i] == p[i]);
            }
        }
        assert((n / 10) * 10 + n % 10 == n);
        assert(('0' as int) == 48);
        assert(digits_value(s) == digits_value(p) * 10 + (s.last() as int - '0' as int));
    }
}

/// The decimal form of an index reads back as that index.
pub proof fn lemma_decimal_parses(n: nat)
    requires
        n <= usize::MAX,
    ensures
        parsed_usize(decimal(n)) == Some(n as usize),
{
    lemma_decimal_digits(n);
    let s = decimal(n);
    assert('0' <= s[0]);
}

/// Read a decimal `usize` the way `str::parse::<usize>` does.
pub fn parse_usize(s: &str) -> (r: Option<usize>)
    ensures
        r == parsed_usize(s@),
{
    let cs = chars_of(s);
    let start: usize = if cs.len() > 0 && cs[0] == '+' {
        1
    } else {
        0
    };
    let ghost body = if cs@.len() > 0 && cs@[0] == '+' {
        cs@.drop_first()
    } else {
        cs@
    };
    assert(body =~= cs@.subrange(start as int, cs@.len() as int));
    if start >= cs.len() {
        return None;
    }
    let mut v: usize = 0;
    let mut i: usize = start;
    while i < cs.len()
        invariant
            start <= i <= cs@.len(),
            cs@ == s@,
            body == cs@.subrange(start as int, cs@.len() as int),
            body == (if s@.len() > 0 && s@[0] == '+' {
                s@.drop_first()
            } else {
                s@
            }),
            body.len() > 0,
            all_digits(cs@.subrange(start as int, i as int)),
            v as int == digits_value(cs@.subrange(start as int, i as int)),
        decreases cs@.len() - i,
    {
        let c = cs[i];
        let ghost pre = cs@.subrange(start as int, i as int);
        let ghost nxt = cs@.subrange(start as int, i + 1);
        assert(nxt.drop_last() =~= pre);
        if !('0' <= c && c <= '9') {
            assert(body[i - start] == c);
            return None;
        }
        let d = (c as u32 - '0' as u32) as usize;
        assert(digits_value(nxt) == v * 10 + d);
        assert(all_digits(nxt)) by {
            assert forall|j: int| 0 <= j < nxt.len() implies '0' <= #[trigger] nxt[j] && nxt[j]
                <= '9' by {
                if j < pre.len() {
                    assert(nxt[j] == pre[j]);
                }
            }
        }
        if v > (usize::MAX - d) / 10 {
            proof {
                // The rest of the digits can only make the value larger.
                assert(v * 10 + d > usize::MAX) by (nonlinear_arith)
                    requires
                        v > (usize::MAX - d) / 10,
                        d <= 9,
                ;
                if all_digits(body) {
                    lemma_digits_monotone(body, (i + 1 - start) as int);
                    assert(body.subrange(0, (i + 1 - start) as int) =~= nxt);
                }
            }
            return None;
        }
        v = v * 10 + d;
        i += 1;
    }
    assert(cs@.subrange(start as int, cs@.len() as int) =~= body);
    Some(v)
}

} // verus!
