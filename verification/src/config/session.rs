//! Session repair: what survives a hand-edited or half-written
//! `session.json`. Reading and writing the file is the application's work.

use vstd::prelude::*;

use crate::config::settings::strs;
use crate::files::manager::{display_file_name, file_name};
use crate::text::{is_white_space, to_owned_string, trimmed};
use crate::types::api::{clone_opt, Session, TabState, TabStateView};

verus! {

/// Current on-disk session format.
pub const SESSION_VERSION: u32 = 2;

/// Reads and writes `session.json` at one path.
#[derive(Debug)]
pub struct SessionStore {
    path: String,
}

impl View for SessionStore {
    type V = Seq<char>;

    closed spec fn view(&self) -> Seq<char> {
        self.path@
    }
}

impl Clone for SessionStore {
    fn clone(&self) -> (r: Self)
        ensures
            r@ == self@,
    {
        SessionStore { path: self.path.clone() }
    }
}

impl SessionStore {
    pub fn new(path: &str) -> (s: Self)
        ensures
            s@ == path@,
    {
        SessionStore { path: to_owned_string(path) }
    }

    pub fn path(&self) -> (p: &str)
        ensures
            p@ == self@,
    {
        self.path.as_str()
    }
}

/// What repair reads of a saved tab.
#[derive(Debug, PartialEq, Eq)]
pub struct TabInfo {
    pub id: String,
    pub name: String,
    pub path: Option<String>,
}

/// The mathematical content of a [`TabInfo`].
pub struct TabInfoView {
    pub id: Seq<char>,
    pub name: Seq<char>,
    pub path: Option<Seq<char>>,
}

impl View for TabInfo {
    type V = TabInfoView;

    open spec fn view(&self) -> TabInfoView {
        TabInfoView {
            id: self.id@,
            name: self.name@,
            path: match self.path {
                Some(p) => Some(p@),
                None => None,
            },
        }
    }
}

/// The views of a list of tabs.
pub open spec fn tab_views(tabs: Seq<TabInfo>) -> Seq<TabInfoView> {
    tabs.map_values(|t: TabInfo| t@)
}

/// `Vec::resize`: cut to `n` items, or padded with `fill` up to `n`.
pub open spec fn resized(v: Seq<Seq<char>>, n: nat, fill: Seq<char>) -> Seq<Seq<char>> {
    if v.len() >= n {
        v.subrange(0, n as int)
    } else {
        v + Seq::new((n - v.len()) as nat, |i: int| fill)
    }
}

/// Positions of the tabs that have an id, in order.
pub open spec fn kept_tabs(tabs: Seq<TabInfoView>) -> Seq<usize>
    decreases tabs.len(),
{
    if tabs.len() == 0 {
        Seq::empty()
    } else {
        let p = kept_tabs(tabs.drop_last());
        if tabs.last().id.len() > 0 {
            p.push((tabs.len() - 1) as usize)
        } else {
            p
        }
    }
}

/// A tab's name after repair: a blank name is replaced by the file name of
/// its path, or `Untitled`.
pub open spec fn repaired_name(t: TabInfoView) -> Seq<char> {
    if trimmed(t.name).len() == 0 {
        match t.path {
            Some(p) => display_file_name(p),
            None => "Untitled"@,
        }
    } else {
        t.name
    }
}

/// The active tab after repair: pulled back onto the last tab when it
/// points past the end.
pub open spec fn repaired_active(active: nat, n: nat) -> nat {
    if active >= n {
        if n == 0 {
            0
        } else {
            (n - 1) as nat
        }
    } else {
        active
    }
}

/// A per-tab list after repair: padded or cut to one entry per tab, then
/// only the entries of the tabs that survive.
pub open spec fn repaired_list(v: Seq<Seq<char>>, tabs: Seq<TabInfoView>, fill: Seq<char>) -> Seq<
    Seq<char>,
> {
    let padded = resized(v, tabs.len(), fill);
    kept_tabs(tabs).map_values(|j: usize| padded[j as int])
}

fn resize_strings(v: &mut Vec<String>, n: usize, fill: &str)
    ensures
        strs(final(v)@) == resized(strs(old(v)@), n as nat, fill@),
{
    let ghost orig = strs(v@);
    if v.len() >= n {
        v.truncate(n);
        assert(strs(v@) =~= orig.subrange(0, n as int));
    } else {
        let ghost start = v@.len();
        while v.len() < n
            invariant
                start <= v@.len() <= n,
                start == orig.len(),
                start < n,
                strs(v@) == orig + Seq::new((v@.len() - start) as nat, |i: int| fill@),
            decreases n - v@.len(),
        {
            let ghost prev = strs(v@);
            v.push(to_owned_string(fill));
            assert(strs(v@) =~= prev.push(fill@));
            assert(strs(v@) =~= orig + Seq::new((v@.len() - start) as nat, |i: int| fill@));
        }
    }
}

proof fn lemma_kept_bounds(tabs: Seq<TabInfoView>)
    ensures
        kept_tabs(tabs).len() <= tabs.len(),
        forall|i: int| 0 <= i < kept_tabs(tabs).len() ==> #[trigger] kept_tabs(tabs)[i] < tabs.len(),
    decreases tabs.len(),
{
    if tabs.len() > 0 {
        lemma_kept_bounds(tabs.drop_last());
    }
}

fn pick(v: &Vec<String>, idx: &Vec<usize>) -> (r: Vec<String>)
    requires
        forall|i: int| 0 <= i < idx@.len() ==> #[trigger] idx@[i] < v@.len(),
    ensures
        strs(r@) == idx@.map_values(|j: usize| strs(v@)[j as int]),
{
    let mut r: Vec<String> = Vec::new();
    let mut i: usize = 0;
    while i < idx.len()
        invariant
            i <= idx@.len(),
            forall|k: int| 0 <= k < idx@.len() ==> #[trigger] idx@[k] < v@.len(),
            strs(r@) == idx@.subrange(0, i as int).map_values(|j: usize| strs(v@)[j as int]),
        decreases idx@.len() - i,
    {
        let ghost prev = strs(r@);
        let item = v[idx[i]].clone();
        assert(item@ == strs(v@)[idx@[i as int] as int]);
        r.push(item);
        assert(strs(r@) =~= prev.push(item@));
        assert(strs(r@) =~= idx@.subrange(0, i + 1).map_values(|j: usize| strs(v@)[j as int]));
        i += 1;
    }
    assert(idx@.subrange(0, idx@.len() as int) =~= idx@);
    r
}

/// Fix up anything that a hand-edited or partially written session could
/// have broken: the per-tab lists are made one entry per tab, tabs without
/// an id are dropped along with their entries, the active tab is pulled
/// back into range and blank tab names are filled in. Returns, for each
/// surviving tab in order, its position in `tabs` and its repaired name.
pub fn repair_session(
    tabs: &[TabInfo],
    active_tab: &mut usize,
    documents: &mut Vec<String>,
    highlights: &mut Vec<String>,
    list_structures: &mut Vec<String>,
) -> (kept: Vec<(usize, String)>)
    ensures
        kept@.len() == kept_tabs(tab_views(tabs@)).len(),
        forall|i: int|
            0 <= i < kept@.len() ==> #[trigger] kept@[i].0 == kept_tabs(tab_views(tabs@))[i]
                && kept@[i].1@ == repaired_name(tab_views(tabs@)[kept@[i].0 as int]),
        strs(final(documents)@) == repaired_list(strs(old(documents)@), tab_views(tabs@), ""@),
        strs(final(highlights)@) == repaired_list(strs(old(highlights)@), tab_views(tabs@), "{}"@),
        strs(final(list_structures)@) == repaired_list(
            strs(old(list_structures)@),
            tab_views(tabs@),
            "[]"@,
        ),
        *final(active_tab) == repaired_active(
            *old(active_tab) as nat,
            kept_tabs(tab_views(tabs@)).len(),
        ),
{
    let ghost tv = tab_views(tabs@);
    let n = tabs.len();
    resize_strings(documents, n, "");
    resize_strings(highlights, n, "{}");
    resize_strings(list_structures, n, "[]");
    assert(strs(documents@).len() == documents@.len());
    assert(strs(highlights@).len() == highlights@.len());
    assert(strs(list_structures@).len() == list_structures@.len());
    let mut keep: Vec<usize> = Vec::new();
    let mut i: usize = 0;
    while i < n
        invariant
            i <= n,
            n == tabs@.len(),
            tv == tab_views(tabs@),
            keep@ == kept_tabs(tv.subrange(0, i as int)),
        decreases n - i,
    {
        assert(tv.subrange(0, i + 1).drop_last() =~= tv.subrange(0, i as int));
        assert(tv[i as int] == tabs@[i as int]@);
        if !tabs[i].id.as_str().is_empty() {
            keep.push(i);
        }
        i += 1;
    }
    assert(tv.subrange(0, n as int) =~= tv);
    proof {
        lemma_kept_bounds(tv);
    }
    let new_docs = pick(documents, &keep);
    let new_high = pick(highlights, &keep);
    let new_lists = pick(list_structures, &keep);
    *documents = new_docs;
    *highlights = new_high;
    *list_structures = new_lists;
    if *active_tab >= keep.len() {
        *active_tab = if keep.len() == 0 {
            0
        } else {
            keep.len() - 1
        };
    }
    let mut kept: Vec<(usize, String)> = Vec::new();
    let mut k: usize = 0;
    while k < keep.len()
        invariant
            k <= keep@.len(),
            keep@ == kept_tabs(tv),
            tv == tab_views(tabs@),
            forall|j: int| 0 <= j < keep@.len() ==> #[trigger] keep@[j] < tabs@.len(),
            kept@.len() == k,
            forall|j: int|
                0 <= j < k ==> #[trigger] kept@[j].0 == keep@[j] && kept@[j].1@ == repaired_name(
                    tv[kept@[j].0 as int],
                ),
        decreases keep@.len() - k,
    {
        let t = &tabs[keep[k]];
        assert(tv[keep@[k as int] as int] == t@);
        let name = if crate::text::trimmed_chars(&crate::text::chars_of(t.name.as_str())).len()
            == 0 {
            match &t.path {
                Some(p) => file_name(p.as_str()),
                None => to_owned_string("Untitled"),
            }
        } else {
            t.name.clone()
        };
        kept.push((keep[k], name));
        k += 1;
    }
    kept
}

} // verus!

verus! {

/// The tabs that survive repair, with their repaired names.
pub open spec fn repaired_tabs(tabs: Seq<TabInfoView>) -> Seq<TabInfoView> {
    kept_tabs(tabs).map_values(
        |j: usize| TabInfoView { name: repaired_name(tabs[j as int]), ..tabs[j as int] },
    )
}

proof fn lemma_kept_props(tabs: Seq<TabInfoView>)
    requires
        tabs.len() <= usize::MAX,
    ensures
        forall|i: int|
            0 <= i < kept_tabs(tabs).len() ==> #[trigger] kept_tabs(tabs)[i] < tabs.len()
                && tabs[kept_tabs(tabs)[i] as int].id.len() > 0,
    decreases tabs.len(),
{
    if tabs.len() > 0 {
        let p = kept_tabs(tabs.drop_last());
        lemma_kept_props(tabs.drop_last());
        if tabs.last().id.len() > 0 {
            assert(kept_tabs(tabs) == p.push((tabs.len() - 1) as usize));
        } else {
            assert(kept_tabs(tabs) == p);
        }
        assert forall|i: int| 0 <= i < kept_tabs(tabs).len() implies #[trigger] kept_tabs(tabs)[i]
            < tabs.len() && tabs[kept_tabs(tabs)[i] as int].id.len() > 0 by {
            if i < p.len() {
                assert(kept_tabs(tabs)[i] == p[i]);
                assert(tabs.drop_last()[p[i] as int] == tabs[p[i] as int]);
            } else {
                assert(tabs.last() == tabs[tabs.len() - 1]);
            }
        }
    }
}

proof fn lemma_kept_all(tabs: Seq<TabInfoView>)
    requires
        tabs.len() <= usize::MAX,
        forall|i: int| 0 <= i < tabs.len() ==> (#[trigger] tabs[i]).id.len() > 0,
    ensures
        kept_tabs(tabs) == Seq::new(tabs.len(), |i: int| i as usize),
    decreases tabs.len(),
{
    if tabs.len() > 0 {
        let p = tabs.drop_last();
        assert forall|i: int| 0 <= i < p.len() implies (#[trigger] p[i]).id.len() > 0 by {
            assert(p[i] == tabs[i]);
        }
        lemma_kept_all(p);
        assert(tabs.last() == tabs[tabs.len() - 1]);
        assert(kept_tabs(tabs) =~= Seq::new(tabs.len(), |i: int| i as usize));
    }
}

proof fn lemma_untitled_not_blank()
    ensures
        trimmed("Untitled"@).len() > 0,
{
    let u = "Untitled"@;
    reveal_strlit("Untitled");
    assert(u.len() == 8);
    assert(!is_white_space(u[0]));
    assert(crate::text::trim_start(u) == u);
    assert(!is_white_space(u.last()));
}

proof fn lemma_name_settles(t: TabInfoView)
    ensures
        repaired_name(TabInfoView { name: repaired_name(t), ..t }) == repaired_name(t),
{
    lemma_untitled_not_blank();
}

proof fn lemma_repaired_shape(tabs: Seq<TabInfoView>)
    requires
        tabs.len() <= usize::MAX,
    ensures
        repaired_tabs(tabs).len() == kept_tabs(tabs).len(),
        forall|i: int| 0 <= i < repaired_tabs(tabs).len() ==> (#[trigger] repaired_tabs(tabs)[i]).id.len() > 0,
        forall|i: int|
            0 <= i < repaired_tabs(tabs).len() ==> repaired_name(#[trigger] repaired_tabs(tabs)[i])
                == repaired_tabs(tabs)[i].name,
{
    let k = kept_tabs(tabs);
    let t2 = repaired_tabs(tabs);
    lemma_kept_props(tabs);
    assert forall|i: int| 0 <= i < t2.len() implies (#[trigger] t2[i]).id.len() > 0
        && repaired_name(t2[i]) == t2[i].name by {
        let t = tabs[k[i] as int];
        assert(k[i] < tabs.len());
        assert(t2[i] == TabInfoView { name: repaired_name(t), ..t });
        lemma_name_settles(t);
    }
}

/// Repairing a repaired session changes nothing: every surviving tab has an
/// id and a settled name, the per-tab lists already have one entry per tab,
/// and the active tab is in range.
pub proof fn lemma_repair_idempotent(
    tabs: Seq<TabInfoView>,
    list: Seq<Seq<char>>,
    fill: Seq<char>,
    active: nat,
)
    requires
        tabs.len() <= usize::MAX,
    ensures
        kept_tabs(repaired_tabs(tabs)).len() == kept_tabs(tabs).len(),
        repaired_tabs(repaired_tabs(tabs)) == repaired_tabs(tabs),
        repaired_list(repaired_list(list, tabs, fill), repaired_tabs(tabs), fill) == repaired_list(
            list,
            tabs,
            fill,
        ),
        repaired_active(
            repaired_active(active, kept_tabs(tabs).len()),
            kept_tabs(repaired_tabs(tabs)).len(),
        ) == repaired_active(active, kept_tabs(tabs).len()),
{
    let t2 = repaired_tabs(tabs);
    lemma_repaired_shape(tabs);
    lemma_kept_bounds(tabs);
    lemma_kept_all(t2);
    let ident = kept_tabs(t2);
    assert forall|i: int| 0 <= i < t2.len() implies #[trigger] repaired_tabs(t2)[i] == t2[i] by {
        assert(ident[i] == i as usize);
    }
    assert(repaired_tabs(t2) =~= t2);
    let l1 = repaired_list(list, tabs, fill);
    assert(resized(l1, t2.len(), fill) =~= l1);
    assert forall|i: int| 0 <= i < l1.len() implies #[trigger] repaired_list(l1, t2, fill)[i] == l1[i] by {
        assert(ident[i] == i as usize);
    }
    assert(repaired_list(l1, t2, fill) =~= l1);
}

/// What repair reads of a tab's state.
pub open spec fn info_of(t: TabStateView) -> TabInfoView {
    TabInfoView { id: t.id, name: t.name, path: t.path }
}

/// What repair reads of a session's tabs.
pub open spec fn infos_of(tabs: Seq<TabState>) -> Seq<TabInfoView> {
    tabs.map_values(|t: TabState| info_of(t@))
}

impl Session {
    /// Fix up anything that a hand-edited or partially written file could
    /// have broken: tabs without an id are dropped with their entries, the
    /// per-tab lists get one entry per surviving tab, the active tab is
    /// pulled into range and blank names are filled in.
    pub fn repair(&mut self)
        requires
            old(self).tabs@.len() <= usize::MAX,
        ensures
            ({
                let tv = infos_of(old(self).tabs@);
                let keep = kept_tabs(tv);
                &&& final(self).tabs@.len() == keep.len()
                &&& forall|k: int|
                    0 <= k < keep.len() ==> (#[trigger] final(self).tabs@[k])@ == (TabStateView {
                        name: repaired_name(tv[keep[k] as int]),
                        ..old(self).tabs@[keep[k] as int]@
                    })
                &&& strs(final(self).documents@) == repaired_list(strs(old(self).documents@), tv, ""@)
                &&& strs(final(self).highlights@) == repaired_list(strs(old(self).highlights@), tv, "{}"@)
                &&& strs(final(self).list_structures@) == repaired_list(
                    strs(old(self).list_structures@),
                    tv,
                    "[]"@,
                )
                &&& final(self).active_tab == repaired_active(old(self).active_tab as nat, keep.len())
                &&& final(self).version == old(self).version
                &&& final(self).window == old(self).window
            }),
    {
        let ghost tv = infos_of(self.tabs@);
        let mut infos: Vec<TabInfo> = Vec::new();
        let mut i: usize = 0;
        while i < self.tabs.len()
            invariant
                i <= self.tabs@.len(),
                tv == infos_of(self.tabs@),
                infos@.len() == i,
                forall|j: int| 0 <= j < i ==> (#[trigger] infos@[j])@ == tv[j],
            decreases self.tabs@.len() - i,
        {
            let t = &self.tabs[i];
            infos.push(TabInfo { id: t.id.clone(), name: t.name.clone(), path: clone_opt(&t.path) });
            i += 1;
        }
        assert(tab_views(infos@) =~= tv);
        let kept = repair_session(
            &infos,
            &mut self.active_tab,
            &mut self.documents,
            &mut self.highlights,
            &mut self.list_structures,
        );
        proof {
            lemma_kept_bounds(tv);
        }
        let mut tabs: Vec<TabState> = Vec::new();
        let mut k: usize = 0;
        while k < kept.len()
            invariant
                k <= kept@.len(),
                kept@.len() == kept_tabs(tv).len(),
                tv == infos_of(self.tabs@),
                forall|j: int|
                    0 <= j < kept@.len() ==> #[trigger] kept@[j].0 == kept_tabs(tv)[j]
                        && kept@[j].1@ == repaired_name(tv[kept@[j].0 as int]),
                forall|j: int| 0 <= j < kept_tabs(tv).len() ==> #[trigger] kept_tabs(tv)[j] < tv.len(),
                tabs@.len() == k,
                forall|j: int|
                    0 <= j < k ==> (#[trigger] tabs@[j])@ == (TabStateView {
                        name: repaired_name(tv[kept_tabs(tv)[j] as int]),
                        ..self.tabs@[kept_tabs(tv)[j] as int]@
                    }),
            decreases kept@.len() - k,
        {
            let index = kept[k].0;
            let mut t = self.tabs[index].clone();
            t.name = kept[k].1.clone();
            tabs.push(t);
            k += 1;
        }
        self.tabs = tabs;
    }
}

} // verus!
