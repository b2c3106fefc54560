//! The notes store's own rules: sort orders, search patterns and the
//! ranking of search hits. The queries themselves run in the application.

use vstd::prelude::*;

use crate::text::{chars_of, push_str, str_eq, to_owned_string};

verus! {

/// Sort order of the notes list.
#[derive(Debug, Clone, Copy, PartialEq, Eq, Structural)]
pub enum SortOrder {
    /// Most recently modified first, pins always on top.
    Modified,
    /// Alphabetical by title, pins always on top.
    Title,
    /// Oldest first.
    Created,
}

/// Stable identifier of a sort order.
pub open spec fn sort_key(s: SortOrder) -> Seq<char> {
    match s {
        SortOrder::Modified => "modified"@,
        SortOrder::Title => "title"@,
        SortOrder::Created => "created"@,
    }
}

/// The sort order a key names; unknown keys sort by modification.
pub open spec fn sort_from_key(k: Seq<char>) -> SortOrder {
    if k == "title"@ {
        SortOrder::Title
    } else if k == "created"@ {
        SortOrder::Created
    } else {
        SortOrder::Modified
    }
}

/// The SQL `ORDER BY` clause of a sort order.
pub open spec fn order_clause(s: SortOrder) -> Seq<char> {
    match s {
        SortOrder::Modified => "ORDER BY pinned DESC, modified_at DESC"@,
        SortOrder::Title => "ORDER BY pinned DESC, title COLLATE NOCASE ASC"@,
        SortOrder::Created => "ORDER BY pinned DESC, created_at ASC"@,
    }
}

impl SortOrder {
    pub fn key(self) -> (s: &'static str)
        ensures
            s@ == sort_key(self),
    {
        match self {
            SortOrder::Modified => "modified",
            SortOrder::Title => "title",
            SortOrder::Created => "created",
        }
    }

    pub fn from_key(key: &str) -> (s: Self)
        ensures
            s == sort_from_key(key@),
    {
        if str_eq(key, "title") {
            SortOrder::Title
        } else if str_eq(key, "created") {
            SortOrder::Created
        } else {
            SortOrder::Modified
        }
    }

    /// The SQL `ORDER BY` clause for this order.
    pub fn order_by(self) -> (s: &'static str)
        ensures
            s@ == order_clause(self),
    {
        match self {
            SortOrder::Modified => "ORDER BY pinned DESC, modified_at DESC",
            SortOrder::Title => "ORDER BY pinned DESC, title COLLATE NOCASE ASC",
            SortOrder::Created => "ORDER BY pinned DESC, created_at ASC",
        }
    }
}

/// Reading a sort order's key gives the sort order back.
pub proof fn lemma_sort_key_roundtrip(s: SortOrder)
    ensures
        sort_from_key(sort_key(s)) == s,
{
    reveal_strlit("modified");
    reveal_strlit("title");
    reveal_strlit("created");
    assert("modified"@.len() == 8 && "title"@.len() == 5 && "created"@.len() == 7);
}

/// `%`, `_` and the other characters of a search query for `LIKE ... ESCAPE
/// '\'`: the two wildcards are escaped, everything else is kept.
pub open spec fn like_escaped(q: Seq<char>) -> Seq<char>
    decreases q.len(),
{
    if q.len() == 0 {
        Seq::empty()
    } else {
        like_escaped(q.drop_last()) + if q.last() == '%' || q.last() == '_' {
            seq!['\\', q.last()]
        } else {
            seq![q.last()]
        }
    }
}

/// The `LIKE` pattern that finds `q` anywhere in a column.
pub open spec fn like_pattern_of(q: Seq<char>) -> Seq<char> {
    seq!['%'] + like_escaped(q) + seq!['%']
}

/// The `LIKE` pattern for an (already trimmed) search query.
pub fn like_pattern(query: &str) -> (p: String)
    ensures
        p@ == like_pattern_of(query@),
{
    let cs = chars_of(query);
    let mut p = String::new();
    p.push('%');
    let mut i: usize = 0;
    while i < cs.len()
        invariant
            i <= cs@.len(),
            cs@ == query@,
            p@ == seq!['%'] + like_escaped(cs@.subrange(0, i as int)),
        decreases cs@.len() - i,
    {
        assert(cs@.subrange(0, i + 1).drop_last() =~= cs@.subrange(0, i as int));
        if cs[i] == '%' || cs[i] == '_' {
            p.push('\\');
        }
        p.push(cs[i]);
        assert(p@ =~= seq!['%'] + like_escaped(cs@.subrange(0, i + 1)));
        i += 1;
    }
    assert(cs@.subrange(0, cs@.len() as int) =~= cs@);
    p.push('%');
    p
}

/// The `SELECT` a listing runs: every note, or the notes whose title or
/// content matches the `LIKE` pattern bound to `?1`, in the given order.
pub open spec fn list_sql_of(searching: bool, s: SortOrder) -> Seq<char> {
    if searching {
        "SELECT * FROM notes WHERE title LIKE ?1 ESCAPE '\\' OR content LIKE ?1 ESCAPE '\\' "@
            + order_clause(s)
    } else {
        "SELECT * FROM notes "@ + order_clause(s)
    }
}

/// The `SELECT` a listing runs.
pub fn list_sql(searching: bool, sort: SortOrder) -> (q: String)
    ensures
        q@ == list_sql_of(searching, sort),
{
    let mut q = if searching {
        to_owned_string(
            "SELECT * FROM notes WHERE title LIKE ?1 ESCAPE '\\' OR content LIKE ?1 ESCAPE '\\' ",
        )
    } else {
        to_owned_string("SELECT * FROM notes ")
    };
    push_str(&mut q, sort.order_by());
    q
}

// ── Ranking search hits ──────────────────────────────────────────────────

/// What `str::to_lowercase` makes of a string.
pub uninterp spec fn lowercase(s: Seq<char>) -> Seq<char>;

/// `str::to_lowercase`: the full Unicode lower-case mapping, which may
/// change the length of the text; only named here.
#[verifier::external_body]
fn to_lower(s: &str) -> (r: String)
    ensures
        r@ == lowercase(s@),
{
    s.to_lowercase()
}

/// How well a title matches a query (both lower-cased): `0` for the whole
/// title, `1` for a prefix, `2` otherwise.
pub open spec fn title_rank(title: Seq<char>, needle: Seq<char>) -> nat {
    if title == needle {
        0
    } else if crate::text::is_prefix(needle, title) {
        1
    } else {
        2
    }
}

/// The sort key of a hit: pinned notes before the others, then by title
/// rank.
pub open spec fn hit_key(title: Seq<char>, pinned: bool, query: Seq<char>) -> nat {
    (if pinned {
        0nat
    } else {
        3nat
    }) + title_rank(lowercase(title), lowercase(query))
}

/// Positions `i` with `keys[i] == k`, in increasing order.
pub open spec fn bucket(keys: Seq<nat>, k: nat) -> Seq<usize>
    decreases keys.len(),
{
    if keys.len() == 0 {
        Seq::empty()
    } else {
        let p = bucket(keys.drop_last(), k);
        if keys.last() == k {
            p.push((keys.len() - 1) as usize)
        } else {
            p
        }
    }
}

/// Positions ordered by key (`0..6`), equal keys in their original order.
pub open spec fn by_key(keys: Seq<nat>, upto: nat) -> Seq<usize>
    decreases upto,
{
    if upto == 0 {
        Seq::empty()
    } else {
        by_key(keys, (upto - 1) as nat) + bucket(keys, (upto - 1) as nat)
    }
}

/// The keys of a list of hits.
pub open spec fn hit_keys(titles: Seq<Seq<char>>, pinned: Seq<bool>, query: Seq<char>) -> Seq<nat> {
    Seq::new(titles.len(), |i: int| hit_key(titles[i], pinned[i], query))
}

/// The order in which search hits are shown, as positions into the list
/// the query returned: pinned notes first; within each group an exact
/// title match, then a title that starts with the query, then the rest;
/// ties keep the query's order.
pub fn rank_hits(titles: &[String], pinned: &[bool], query: &str) -> (order: Vec<usize>)
    requires
        titles@.len() == pinned@.len(),
    ensures
        order@ == by_key(
            hit_keys(titles@.map_values(|t: String| t@), pinned@, query@),
            6,
        ),
{
    let needle = to_lower(query);
    let n = titles.len();
    let ghost tv = titles@.map_values(|t: String| t@);
    let ghost want = hit_keys(tv, pinned@, query@);
    let mut keys: Vec<u8> = Vec::new();
    let mut i: usize = 0;
    while i < n
        invariant
            i <= n,
            n == titles@.len(),
            n == pinned@.len(),
            needle@ == lowercase(query@),
            tv == titles@.map_values(|t: String| t@),
            want == hit_keys(tv, pinned@, query@),
            keys@.len() == i,
            forall|j: int| 0 <= j < i ==> keys@[j] as nat == #[trigger] want[j],
        decreases n - i,
    {
        let t = to_lower(titles[i].as_str());
        let rank: u8 = if str_eq(t.as_str(), needle.as_str()) {
            0
        } else if crate::text::starts_with(t.as_str(), needle.as_str()) {
            1
        } else {
            2
        };
        let base: u8 = if pinned[i] {
            0
        } else {
            3
        };
        keys.push(base + rank);
        assert(tv[i as int] == titles@[i as int]@);
        i += 1;
    }
    let ghost kv = keys@.map_values(|k: u8| k as nat);
    assert(kv =~= want);
    let mut order: Vec<usize> = Vec::new();
    let mut k: u8 = 0;
    while k < 6
        invariant
            k <= 6,
            n == keys@.len(),
            kv == keys@.map_values(|k: u8| k as nat),
            order@ == by_key(kv, k as nat),
        decreases 6 - k,
    {
        let mut j: usize = 0;
        let ghost before = order@;
        while j < n
            invariant
                j <= n,
                n == keys@.len(),
                kv == keys@.map_values(|k: u8| k as nat),
                order@ == before + bucket(kv.subrange(0, j as int), k as nat),
            decreases n - j,
        {
            assert(kv.subrange(0, j + 1).drop_last() =~= kv.subrange(0, j as int));
            if keys[j] == k {
                order.push(j);
            }
            j += 1;
        }
        assert(kv.subrange(0, n as int) =~= kv);
        k += 1;
    }
    order
}

} // verus!
