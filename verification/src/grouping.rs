//! The grouping engine: diagnostics are partitioned by owning component
//! and, within a component, by message identity. Components and groups
//! are kept in ascending lexicographic order, and every group's
//! occurrence list is exactly the subsequence of the input that carries
//! the group's component and identity.

use vstd::prelude::*;

use crate::diag::{DiagView, Diagnostic};
use crate::text;
use vstd::multiset::Multiset;

verus! {

/// One deduplicated message: its identity and every occurrence, in
/// input order.
pub struct Group {
    pub identity: String,
    pub occurrences: Vec<Diagnostic>,
}

/// Mathematical image of a `Group`.
pub struct GroupView {
    pub identity: Seq<char>,
    pub occurrences: Seq<DiagView>,
}

impl DeepView for Group {
    type V = GroupView;

    open spec fn deep_view(&self) -> GroupView {
        GroupView { identity: self.identity@, occurrences: self.occurrences.deep_view() }
    }
}

/// One component together with its groups, ordered by identity.
pub struct ComponentGroups {
    pub key: String,
    pub groups: Vec<Group>,
}

/// Mathematical image of a `ComponentGroups`.
pub struct ComponentView {
    pub key: Seq<char>,
    pub groups: Seq<GroupView>,
}

impl DeepView for ComponentGroups {
    type V = ComponentView;

    open spec fn deep_view(&self) -> ComponentView {
        ComponentView { key: self.key@, groups: self.groups.deep_view() }
    }
}

/// The grouping of a whole run: components in ascending key order.
pub struct Grouping {
    pub components: Vec<ComponentGroups>,
}

impl Grouping {
    /// Number of distinct components that own at least one diagnostic.
    pub fn component_count(&self) -> (r: usize)
        ensures
            r == self.components.deep_view().len(),
    {
        self.components.len()
    }
}

/// The diagnostic belongs to this component and carries this identity.
pub open spec fn matches_key(d: DiagView, key: Seq<char>, id: Seq<char>) -> bool {
    d.component == key && d.identity == id
}

/// A group is non-empty and all of its occurrences carry the owning
/// component's key and the group's identity.
pub open spec fn group_wf(g: GroupView, key: Seq<char>) -> bool {
    g.occurrences.len() > 0 && (forall|i: int|
        0 <= i < g.occurrences.len() ==> matches_key(#[trigger] g.occurrences[i], key, g.identity))
}

/// A component's groups are well formed and strictly ascending by
/// identity.
pub open spec fn component_wf(c: ComponentView) -> bool {
    (forall|i: int| 0 <= i < c.groups.len() ==> group_wf(#[trigger] c.groups[i], c.key)) && (forall|
        i: int,
        j: int,
    |
        0 <= i < j < c.groups.len() ==> text::lex_cmp(c.groups[i].identity, c.groups[j].identity)
            < 0)
}

/// The components are well formed and strictly ascending by key.
pub open spec fn grouping_wf(cs: Seq<ComponentView>) -> bool {
    (forall|i: int| 0 <= i < cs.len() ==> component_wf(#[trigger] cs[i])) && (forall|i: int, j: int|
        0 <= i < j < cs.len() ==> text::lex_cmp(cs[i].key, cs[j].key) < 0)
}

/// Some component with this key holds a group with this identity.
pub open spec fn has_pair(cs: Seq<ComponentView>, key: Seq<char>, id: Seq<char>) -> bool {
    exists|c: int, j: int|
        0 <= c < cs.len() && 0 <= j < cs[c].groups.len() && cs[c].key == key && (#[trigger] cs[
            c
        ].groups[j]).identity == id
}

/// The predicate that selects the diagnostics of one group: those with
/// this component key and this identity.
pub open spec fn key_pred(key: Seq<char>, id: Seq<char>) -> spec_fn(DiagView) -> bool {
    |d: DiagView| matches_key(d, key, id)
}

/// The grouping holds exactly the diagnostics of `ds`: every group's
/// occurrences are the subsequence of `ds` that matches its component
/// and identity, and every diagnostic of `ds` has its group.
pub open spec fn grouping_matches(cs: Seq<ComponentView>, ds: Seq<DiagView>) -> bool {
    (forall|c: int, j: int|
        0 <= c < cs.len() && 0 <= j < cs[c].groups.len() ==> (#[trigger] cs[c].groups[j]).occurrences
            == ds.filter(key_pred(cs[c].key, cs[c].groups[j].identity))) && (forall|x: int|
        0 <= x < ds.len() ==> has_pair(cs, (#[trigger] ds[x]).component, ds[x].identity))
}

/// All occurrences of a component's groups, as a multiset.
pub open spec fn groups_multiset(gs: Seq<GroupView>) -> Multiset<DiagView>
    decreases gs.len(),
{
    if gs.len() == 0 {
        Multiset::empty()
    } else {
        groups_multiset(gs.drop_last()).add(gs.last().occurrences.to_multiset())
    }
}

/// All occurrences of a grouping, as a multiset.
pub open spec fn grouping_multiset(cs: Seq<ComponentView>) -> Multiset<DiagView>
    decreases cs.len(),
{
    if cs.len() == 0 {
        Multiset::empty()
    } else {
        grouping_multiset(cs.drop_last()).add(groups_multiset(cs.last().groups))
    }
}

pub proof fn lemma_filter_push<A>(s: Seq<A>, x: A, p: spec_fn(A) -> bool)
    ensures
        p(x) ==> s.push(x).filter(p) == s.filter(p).push(x),
        !p(x) ==> s.push(x).filter(p) == s.filter(p),
{
    reveal(Seq::filter);
    assert(s.push(x).drop_last() =~= s);
    assert(s.push(x).last() == x);
}

proof fn lemma_filter_no_match<A>(s: Seq<A>, p: spec_fn(A) -> bool)
    requires
        forall|i: int| 0 <= i < s.len() ==> !p(#[trigger] s[i]),
    ensures
        s.filter(p) == Seq::<A>::empty(),
    decreases s.len(),
{
    reveal(Seq::filter);
    if s.len() > 0 {
        lemma_filter_no_match(s.drop_last(), p);
        assert(!p(s.last()));
    }
    assert(s.filter(p) =~= Seq::<A>::empty());
}

proof fn lemma_groups_multiset_insert(gs: Seq<GroupView>, j: int, g: GroupView)
    requires
        0 <= j <= gs.len(),
    ensures
        groups_multiset(gs.insert(j, g)) == groups_multiset(gs).add(g.occurrences.to_multiset()),
    decreases gs.len(),
{
    if j == gs.len() {
        assert(gs.insert(j, g) =~= gs.push(g));
        assert(gs.push(g).drop_last() =~= gs);
    } else {
        lemma_groups_multiset_insert(gs.drop_last(), j, g);
        assert(gs.insert(j, g).drop_last() =~= gs.drop_last().insert(j, g));
        assert(gs.insert(j, g).last() == gs.last());
        assert(groups_multiset(gs.drop_last()).add(g.occurrences.to_multiset()).add(
            gs.last().occurrences.to_multiset(),
        ) =~= groups_multiset(gs.drop_last()).add(gs.last().occurrences.to_multiset()).add(
            g.occurrences.to_multiset(),
        ));
    }
}

proof fn lemma_groups_multiset_push(gs: Seq<GroupView>, j: int, g2: GroupView, d: DiagView)
    requires
        0 <= j < gs.len(),
        g2.occurrences == gs[j].occurrences.push(d),
    ensures
        groups_multiset(gs.update(j, g2)) == groups_multiset(gs).insert(d),
    decreases gs.len(),
{
    gs[j].occurrences.to_multiset_ensures();
    if j == gs.len() - 1 {
        assert(gs.update(j, g2).drop_last() =~= gs.drop_last());
        assert(gs.update(j, g2).last() == g2);
        assert(g2.occurrences.to_multiset() =~= gs[j].occurrences.to_multiset().insert(d));
        assert(groups_multiset(gs.drop_last()).add(gs[j].occurrences.to_multiset().insert(d))
            =~= groups_multiset(gs.drop_last()).add(gs[j].occurrences.to_multiset()).insert(d));
    } else {
        lemma_groups_multiset_push(gs.drop_last(), j, g2, d);
        assert(gs.update(j, g2).drop_last() =~= gs.drop_last().update(j, g2));
        assert(gs.update(j, g2).last() == gs.last());
        assert(groups_multiset(gs.drop_last().update(j, g2)).add(gs.last().occurrences.to_multiset())
            =~= groups_multiset(gs.drop_last()).add(gs.last().occurrences.to_multiset()).insert(d));
    }
}

proof fn lemma_grouping_multiset_insert_empty(cs: Seq<ComponentView>, ci: int, c: ComponentView)
    requires
        0 <= ci <= cs.len(),
        c.groups.len() == 0,
    ensures
        grouping_multiset(cs.insert(ci, c)) == grouping_multiset(cs),
    decreases cs.len(),
{
    assert(groups_multiset(c.groups) =~= Multiset::<DiagView>::empty());
    if ci == cs.len() {
        assert(cs.insert(ci, c) =~= cs.push(c));
        assert(cs.push(c).drop_last() =~= cs);
        assert(grouping_multiset(cs).add(Multiset::<DiagView>::empty()) =~= grouping_multiset(cs));
    } else {
        lemma_grouping_multiset_insert_empty(cs.drop_last(), ci, c);
        assert(cs.insert(ci, c).drop_last() =~= cs.drop_last().insert(ci, c));
        assert(cs.insert(ci, c).last() == cs.last());
    }
}

proof fn lemma_grouping_multiset_update(
    cs: Seq<ComponentView>,
    ci: int,
    c2: ComponentView,
    d: DiagView,
)
    requires
        0 <= ci < cs.len(),
        groups_multiset(c2.groups) == groups_multiset(cs[ci].groups).insert(d),
    ensures
        grouping_multiset(cs.update(ci, c2)) == grouping_multiset(cs).insert(d),
    decreases cs.len(),
{
    if ci == cs.len() - 1 {
        assert(cs.update(ci, c2).drop_last() =~= cs.drop_last());
        assert(cs.update(ci, c2).last() == c2);
        assert(grouping_multiset(cs.drop_last()).add(groups_multiset(cs[ci].groups).insert(d))
            =~= grouping_multiset(cs.drop_last()).add(groups_multiset(cs[ci].groups)).insert(d));
    } else {
        lemma_grouping_multiset_update(cs.drop_last(), ci, c2, d);
        assert(cs.update(ci, c2).drop_last() =~= cs.drop_last().update(ci, c2));
        assert(cs.update(ci, c2).last() == cs.last());
        assert(grouping_multiset(cs.drop_last().update(ci, c2)).add(
            groups_multiset(cs.last().groups),
        ) =~= grouping_multiset(cs.drop_last()).add(groups_multiset(cs.last().groups)).insert(d));
    }
}

/// Position of `key` among the components, or its insertion point.
fn find_component(components: &Vec<ComponentGroups>, key: &str) -> (r: (usize, bool))
    requires
        grouping_wf(components.deep_view()),
    ensures
        ({
            let cs = components.deep_view();
            &&& r.0 <= cs.len()
            &&& r.1 ==> r.0 < cs.len() && cs[r.0 as int].key == key@
            &&& !r.1 ==> (forall|k: int| 0 <= k < r.0 ==> text::lex_cmp(cs[k].key, key@) < 0)
                && (forall|k: int| r.0 <= k < cs.len() ==> text::lex_cmp(key@, cs[k].key) < 0)
        }),
{
    let ghost cs = components.deep_view();
    let n = components.len();
    let mut i: usize = 0;
    while i < n
        invariant
            0 <= i <= n,
            n == components.len(),
            cs == components.deep_view(),
            grouping_wf(cs),
            forall|k: int| 0 <= k < i ==> text::lex_cmp(cs[k].key, key@) < 0,
        decreases n - i,
    {
        let c = text::str_cmp(components[i].key.as_str(), key);
        proof {
            assert(cs[i as int] == components@[i as int].deep_view());
            text::lemma_lex_cmp_eq(cs[i as int].key, key@);
        }
        if c == 0 {
            return (i, true);
        }
        if c > 0 {
            proof {
                text::lemma_lex_cmp_antisym(cs[i as int].key, key@);
                assert forall|k: int| i <= k < cs.len() implies text::lex_cmp(key@, cs[k].key)
                    < 0 by {
                    if k > i {
                        text::lemma_lex_cmp_trans(key@, cs[i as int].key, cs[k].key);
                    }
                }
            }
            return (i, false);
        }
        i = i + 1;
    }
    (i, false)
}

/// Position of `id` among a component's groups, or its insertion point.
fn find_group(groups: &Vec<Group>, id: &str) -> (r: (usize, bool))
    requires
        forall|i: int, j: int|
            0 <= i < j < groups.deep_view().len() ==> text::lex_cmp(
                groups.deep_view()[i].identity,
                groups.deep_view()[j].identity,
            ) < 0,
    ensures
        ({
            let gs = groups.deep_view();
            &&& r.0 <= gs.len()
            &&& r.1 ==> r.0 < gs.len() && gs[r.0 as int].identity == id@
            &&& !r.1 ==> (forall|k: int| 0 <= k < r.0 ==> text::lex_cmp(gs[k].identity, id@) < 0)
                && (forall|k: int| r.0 <= k < gs.len() ==> text::lex_cmp(id@, gs[k].identity) < 0)
        }),
{
    let ghost gs = groups.deep_view();
    let n = groups.len();
    let mut i: usize = 0;
    while i < n
        invariant
            0 <= i <= n,
            n == groups.len(),
            gs == groups.deep_view(),
            forall|x: int, j: int|
                0 <= x < j < gs.len() ==> text::lex_cmp(gs[x].identity, gs[j].identity) < 0,
            forall|k: int| 0 <= k < i ==> text::lex_cmp(gs[k].identity, id@) < 0,
        decreases n - i,
    {
        let c = text::str_cmp(groups[i].identity.as_str(), id);
        proof {
            assert(gs[i as int] == groups@[i as int].deep_view());
            text::lemma_lex_cmp_eq(gs[i as int].identity, id@);
        }
        if c == 0 {
            return (i, true);
        }
        if c > 0 {
            proof {
                text::lemma_lex_cmp_antisym(gs[i as int].identity, id@);
                assert forall|k: int| i <= k < gs.len() implies text::lex_cmp(id@, gs[k].identity)
                    < 0 by {
                    if k > i {
                        text::lemma_lex_cmp_trans(id@, gs[i as int].identity, gs[k].identity);
                    }
                }
            }
            return (i, false);
        }
        i = i + 1;
    }
    (i, false)
}

proof fn lemma_stage_insert_component(
    cs: Seq<ComponentView>,
    ds: Seq<DiagView>,
    ci: int,
    c: ComponentView,
)
    requires
        grouping_wf(cs),
        grouping_matches(cs, ds),
        0 <= ci <= cs.len(),
        c.groups.len() == 0,
        forall|k: int| 0 <= k < ci ==> text::lex_cmp(cs[k].key, c.key) < 0,
        forall|k: int| ci <= k < cs.len() ==> text::lex_cmp(c.key, cs[k].key) < 0,
    ensures
        grouping_wf(cs.insert(ci, c)),
        grouping_matches(cs.insert(ci, c), ds),
        grouping_multiset(cs.insert(ci, c)) == grouping_multiset(cs),
        cs.insert(ci, c)[ci].key == c.key,
        cs.insert(ci, c)[ci].groups.len() == 0,
{
    let cs2 = cs.insert(ci, c);
    cs.insert_ensures(ci, c);
    assert(component_wf(c));
    assert forall|i: int, j: int| 0 <= i < j < cs2.len() implies text::lex_cmp(
        cs2[i].key,
        cs2[j].key,
    ) < 0 by {
        if i < ci && j < ci {
        } else if i < ci && j == ci {
        } else if i < ci && j > ci {
            assert(cs2[j] == cs[j - 1]);
        } else if i == ci {
            assert(cs2[j] == cs[j - 1]);
        } else {
            assert(cs2[i] == cs[i - 1] && cs2[j] == cs[j - 1]);
        }
    }
    assert forall|cc: int, j: int|
        0 <= cc < cs2.len() && 0 <= j < cs2[cc].groups.len() implies (#[trigger] cs2[cc].groups[j]).occurrences
        == ds.filter(key_pred(cs2[cc].key, cs2[cc].groups[j].identity)) by {
        if cc < ci {
            assert(cs2[cc] == cs[cc]);
        } else if cc == ci {
            assert(false);
        } else {
            assert(cs2[cc] == cs[cc - 1]);
        }
    }
    assert forall|x: int| 0 <= x < ds.len() implies has_pair(
        cs2,
        (#[trigger] ds[x]).component,
        ds[x].identity,
    ) by {
        let (c0, j0): (int, int) = choose|c0: int, j0: int|
            0 <= c0 < cs.len() && 0 <= j0 < cs[c0].groups.len() && cs[c0].key == ds[x].component
                && (#[trigger] cs[c0].groups[j0]).identity == ds[x].identity;
        if c0 < ci {
            assert(cs2[c0] == cs[c0]);
            assert(cs2[c0].groups[j0].identity == ds[x].identity);
        } else {
            assert(cs2[c0 + 1] == cs[c0]);
            assert(cs2[c0 + 1].groups[j0].identity == ds[x].identity);
        }
    }
    lemma_grouping_multiset_insert_empty(cs, ci, c);
}

proof fn lemma_keys_unique(cs: Seq<ComponentView>, i: int, j: int)
    requires
        grouping_wf(cs),
        0 <= i < cs.len(),
        0 <= j < cs.len(),
        i != j,
    ensures
        cs[i].key != cs[j].key,
{
    if i < j {
        text::lemma_lex_cmp_eq(cs[i].key, cs[j].key);
    } else {
        text::lemma_lex_cmp_eq(cs[j].key, cs[i].key);
    }
}

proof fn lemma_ids_unique(c: ComponentView, i: int, j: int)
    requires
        component_wf(c),
        0 <= i < c.groups.len(),
        0 <= j < c.groups.len(),
        i != j,
    ensures
        c.groups[i].identity != c.groups[j].identity,
{
    if i < j {
        text::lemma_lex_cmp_eq(c.groups[i].identity, c.groups[j].identity);
    } else {
        text::lemma_lex_cmp_eq(c.groups[j].identity, c.groups[i].identity);
    }
}

proof fn lemma_stage_new_group(
    cs: Seq<ComponentView>,
    ds: Seq<DiagView>,
    ci: int,
    gi: int,
    g: GroupView,
    d: DiagView,
    c2: ComponentView,
)
    requires
        grouping_wf(cs),
        grouping_matches(cs, ds),
        0 <= ci < cs.len(),
        0 <= gi <= cs[ci].groups.len(),
        g.identity == d.identity,
        g.occurrences == seq![d],
        c2.key == cs[ci].key,
        c2.groups == cs[ci].groups.insert(gi, g),
        d.component == cs[ci].key,
        !has_pair(cs, cs[ci].key, d.identity),
        forall|k: int| 0 <= k < gi ==> text::lex_cmp(cs[ci].groups[k].identity, d.identity) < 0,
        forall|k: int|
            gi <= k < cs[ci].groups.len() ==> text::lex_cmp(d.identity, cs[ci].groups[k].identity)
                < 0,
    ensures
        grouping_wf(cs.update(ci, c2)),
        grouping_matches(cs.update(ci, c2), ds.push(d)),
        grouping_multiset(cs.update(ci, c2)) == grouping_multiset(cs).insert(d),
{
    let cs2 = cs.update(ci, c2);
    let gs = cs[ci].groups;
    gs.insert_ensures(gi, g);
    // well-formedness
    assert(group_wf(g, c2.key));
    assert forall|j: int| 0 <= j < c2.groups.len() implies group_wf(
        #[trigger] c2.groups[j],
        c2.key,
    ) by {
        if j < gi {
            assert(c2.groups[j] == gs[j]);
        } else if j > gi {
            assert(c2.groups[j] == gs[j - 1]);
        }
    }
    assert forall|i: int, j: int| 0 <= i < j < c2.groups.len() implies text::lex_cmp(
        c2.groups[i].identity,
        c2.groups[j].identity,
    ) < 0 by {
        if i < gi && j < gi {
        } else if i < gi && j == gi {
        } else if i < gi && j > gi {
            assert(c2.groups[j] == gs[j - 1]);
        } else if i == gi {
            assert(c2.groups[j] == gs[j - 1]);
        } else {
            assert(c2.groups[i] == gs[i - 1] && c2.groups[j] == gs[j - 1]);
        }
    }
    assert(component_wf(c2));
    assert forall|i: int| 0 <= i < cs2.len() implies component_wf(#[trigger] cs2[i]) by {
        if i != ci {
            assert(cs2[i] == cs[i]);
        }
    }
    // no diagnostic of ds matches the new pair
    let p = key_pred(cs[ci].key, d.identity);
    assert forall|x: int| 0 <= x < ds.len() implies !p(#[trigger] ds[x]) by {
        if p(ds[x]) {
            assert(has_pair(cs, ds[x].component, ds[x].identity));
        }
    }
    lemma_filter_no_match(ds, p);
    // occurrence clause
    assert forall|cc: int, j: int|
        0 <= cc < cs2.len() && 0 <= j < cs2[cc].groups.len() implies (#[trigger] cs2[cc].groups[j]).occurrences
        == ds.push(d).filter(key_pred(cs2[cc].key, cs2[cc].groups[j].identity)) by {
        if cc != ci {
            assert(cs2[cc] == cs[cc]);
            lemma_keys_unique(cs, cc, ci);
            lemma_filter_push(ds, d, key_pred(cs[cc].key, cs[cc].groups[j].identity));
        } else {
            if j == gi {
                lemma_filter_push(ds, d, p);
                assert(Seq::<DiagView>::empty().push(d) =~= seq![d]);
            } else if j < gi {
                assert(cs2[cc].groups[j] == gs[j]);
                text::lemma_lex_cmp_eq(gs[j].identity, d.identity);
                lemma_filter_push(ds, d, key_pred(cs[ci].key, gs[j].identity));
            } else {
                assert(cs2[cc].groups[j] == gs[j - 1]);
                text::lemma_lex_cmp_eq(d.identity, gs[j - 1].identity);
                lemma_filter_push(ds, d, key_pred(cs[ci].key, gs[j - 1].identity));
            }
        }
    }
    // completeness
    assert forall|x: int| 0 <= x < ds.push(d).len() implies has_pair(
        cs2,
        (#[trigger] ds.push(d)[x]).component,
        ds.push(d)[x].identity,
    ) by {
        if x < ds.len() {
            assert(ds.push(d)[x] == ds[x]);
            let (c0, j0): (int, int) = choose|c0: int, j0: int|
                0 <= c0 < cs.len() && 0 <= j0 < cs[c0].groups.len() && cs[c0].key == ds[x].component
                    && (#[trigger] cs[c0].groups[j0]).identity == ds[x].identity;
            if c0 != ci {
                assert(cs2[c0] == cs[c0]);
                assert(cs2[c0].groups[j0].identity == ds[x].identity);
            } else {
                if j0 < gi {
                    assert(cs2[ci].groups[j0] == gs[j0]);
                    assert(cs2[ci].groups[j0].identity == ds[x].identity);
                } else {
                    assert(cs2[ci].groups[j0 + 1] == gs[j0]);
                    assert(cs2[ci].groups[j0 + 1].identity == ds[x].identity);
                }
            }
        } else {
            assert(ds.push(d)[x] == d);
            assert(cs2[ci].groups[gi].identity == d.identity);
        }
    }
    // multiset
    lemma_groups_multiset_insert(gs, gi, g);
    seq![d].to_multiset_ensures();
    Seq::<DiagView>::empty().to_multiset_ensures();
    assert(Seq::<DiagView>::empty().push(d) =~= seq![d]);
    assert(seq![d].to_multiset() =~= Multiset::<DiagView>::empty().insert(d));
    assert(groups_multiset(gs).add(Multiset::<DiagView>::empty().insert(d)) =~= groups_multiset(
        gs,
    ).insert(d));
    lemma_grouping_multiset_update(cs, ci, c2, d);
}

proof fn lemma_stage_push_existing(
    cs: Seq<ComponentView>,
    ds: Seq<DiagView>,
    ci: int,
    gi: int,
    g2: GroupView,
    d: DiagView,
    c2: ComponentView,
)
    requires
        grouping_wf(cs),
        grouping_matches(cs, ds),
        0 <= ci < cs.len(),
        0 <= gi < cs[ci].groups.len(),
        d.component == cs[ci].key,
        d.identity == cs[ci].groups[gi].identity,
        g2.identity == cs[ci].groups[gi].identity,
        g2.occurrences == cs[ci].groups[gi].occurrences.push(d),
        c2.key == cs[ci].key,
        c2.groups == cs[ci].groups.update(gi, g2),
    ensures
        grouping_wf(cs.update(ci, c2)),
        grouping_matches(cs.update(ci, c2), ds.push(d)),
        grouping_multiset(cs.update(ci, c2)) == grouping_multiset(cs).insert(d),
{
    let cs2 = cs.update(ci, c2);
    let gs = cs[ci].groups;
    // well-formedness
    assert forall|j: int| 0 <= j < c2.groups.len() implies group_wf(
        #[trigger] c2.groups[j],
        c2.key,
    ) by {
        if j != gi {
            assert(c2.groups[j] == gs[j]);
        } else {
            assert(group_wf(gs[gi], cs[ci].key));
            assert forall|i: int| 0 <= i < g2.occurrences.len() implies matches_key(
                #[trigger] g2.occurrences[i],
                c2.key,
                g2.identity,
            ) by {
                if i < g2.occurrences.len() - 1 {
                    assert(g2.occurrences[i] == gs[gi].occurrences[i]);
                } else {
                    assert(g2.occurrences[i] == d);
                }
            }
        }
    }
    assert forall|i: int, j: int| 0 <= i < j < c2.groups.len() implies text::lex_cmp(
        c2.groups[i].identity,
        c2.groups[j].identity,
    ) < 0 by {
        assert(c2.groups[i].identity == gs[i].identity);
        assert(c2.groups[j].identity == gs[j].identity);
    }
    assert(component_wf(c2));
    assert forall|i: int| 0 <= i < cs2.len() implies component_wf(#[trigger] cs2[i]) by {
        if i != ci {
            assert(cs2[i] == cs[i]);
        }
    }
    // occurrence clause
    assert forall|cc: int, j: int|
        0 <= cc < cs2.len() && 0 <= j < cs2[cc].groups.len() implies (#[trigger] cs2[cc].groups[j]).occurrences
        == ds.push(d).filter(key_pred(cs2[cc].key, cs2[cc].groups[j].identity)) by {
        if cc != ci {
            assert(cs2[cc] == cs[cc]);
            lemma_keys_unique(cs, cc, ci);
            lemma_filter_push(ds, d, key_pred(cs[cc].key, cs[cc].groups[j].identity));
        } else {
            if j == gi {
                lemma_filter_push(ds, d, key_pred(cs[ci].key, d.identity));
                assert(cs2[ci].groups[gi] == g2);
            } else {
                assert(cs2[ci].groups[j] == gs[j]);
                lemma_ids_unique(cs[ci], j, gi);
                lemma_filter_push(ds, d, key_pred(cs[ci].key, gs[j].identity));
            }
        }
    }
    // completeness
    assert forall|x: int| 0 <= x < ds.push(d).len() implies has_pair(
        cs2,
        (#[trigger] ds.push(d)[x]).component,
        ds.push(d)[x].identity,
    ) by {
        if x < ds.len() {
            assert(ds.push(d)[x] == ds[x]);
            let (c0, j0): (int, int) = choose|c0: int, j0: int|
                0 <= c0 < cs.len() && 0 <= j0 < cs[c0].groups.len() && cs[c0].key == ds[x].component
                    && (#[trigger] cs[c0].groups[j0]).identity == ds[x].identity;
            if c0 != ci {
                assert(cs2[c0] == cs[c0]);
                assert(cs2[c0].groups[j0].identity == ds[x].identity);
            } else {
                assert(cs2[ci].groups[j0].identity == gs[j0].identity);
            }
        } else {
            assert(ds.push(d)[x] == d);
            assert(cs2[ci].groups[gi].identity == d.identity);
        }
    }
    // multiset
    lemma_groups_multiset_push(gs, gi, g2, d);
    lemma_grouping_multiset_update(cs, ci, c2, d);
}

proof fn lemma_filter_to_multiset<A>(s: Seq<A>, p: spec_fn(A) -> bool)
    ensures
        s.filter(p).to_multiset() == s.to_multiset().filter(p),
    decreases s.len(),
{
    reveal(Seq::filter);
    if s.len() == 0 {
        s.to_multiset_ensures();
        assert(s.filter(p) =~= s);
        assert forall|v: A| true implies s.to_multiset().count(v) == 0 by {
            assert(s.to_multiset().count(v) <= s.to_multiset().len());
        }
        assert(s.filter(p).to_multiset() =~= s.to_multiset().filter(p));
    } else {
        let dl = s.drop_last();
        lemma_filter_to_multiset(dl, p);
        dl.to_multiset_ensures();
        dl.filter(p).to_multiset_ensures();
        assert(dl.push(s.last()) =~= s);
        assert(dl.push(s.last()).to_multiset() == dl.to_multiset().insert(s.last()));
        if p(s.last()) {
            assert(s.filter(p) == dl.filter(p).push(s.last()));
            assert(dl.filter(p).push(s.last()).to_multiset() == dl.filter(p).to_multiset().insert(
                s.last(),
            ));
            assert(s.filter(p).to_multiset() =~= s.to_multiset().filter(p));
        } else {
            assert(s.filter(p) == dl.filter(p));
            assert(s.filter(p).to_multiset() =~= s.to_multiset().filter(p));
        }
    }
}

proof fn lemma_filter_member<A>(s: Seq<A>, p: spec_fn(A) -> bool)
    requires
        s.filter(p).len() > 0,
    ensures
        exists|x: int| 0 <= x < s.len() && p(#[trigger] s[x]),
    decreases s.len(),
{
    reveal(Seq::filter);
    if s.len() > 0 {
        if p(s.last()) {
            assert(p(s[s.len() - 1]));
        } else {
            lemma_filter_member(s.drop_last(), p);
            let x = choose|x: int| 0 <= x < s.drop_last().len() && p(#[trigger] s.drop_last()[x]);
            assert(s.drop_last()[x] == s[x]);
        }
    }
}

/// Grouping is insensitive to the order of its input: two inputs that
/// are permutations of each other (equal as multisets) produce
/// groupings with the same component/identity pairs, and for each pair
/// the same multiset of occurrences.
pub proof fn lemma_grouping_order_insensitive(
    cs1: Seq<ComponentView>,
    ds1: Seq<DiagView>,
    cs2: Seq<ComponentView>,
    ds2: Seq<DiagView>,
)
    requires
        grouping_wf(cs1),
        grouping_matches(cs1, ds1),
        grouping_wf(cs2),
        grouping_matches(cs2, ds2),
        ds1.to_multiset() == ds2.to_multiset(),
    ensures
        forall|key: Seq<char>, id: Seq<char>| has_pair(cs1, key, id) <==> has_pair(cs2, key, id),
        forall|c1: int, j1: int, c2: int, j2: int|
            0 <= c1 < cs1.len() && 0 <= j1 < cs1[c1].groups.len() && 0 <= c2 < cs2.len() && 0 <= j2
                < cs2[c2].groups.len() && cs1[c1].key == cs2[c2].key && (#[trigger] cs1[c1].groups[j1]).identity
                == (#[trigger] cs2[c2].groups[j2]).identity ==> cs1[c1].groups[j1].occurrences.to_multiset()
                == cs2[c2].groups[j2].occurrences.to_multiset(),
{
    ds1.to_multiset_ensures();
    ds2.to_multiset_ensures();
    assert forall|key: Seq<char>, id: Seq<char>|
        has_pair(cs1, key, id) implies has_pair(cs2, key, id) by {
        lemma_pair_carries_over(cs1, ds1, cs2, ds2, key, id);
    }
    assert forall|key: Seq<char>, id: Seq<char>|
        has_pair(cs2, key, id) implies has_pair(cs1, key, id) by {
        lemma_pair_carries_over(cs2, ds2, cs1, ds1, key, id);
    }
    assert forall|c1: int, j1: int, c2: int, j2: int|
        0 <= c1 < cs1.len() && 0 <= j1 < cs1[c1].groups.len() && 0 <= c2 < cs2.len() && 0 <= j2
            < cs2[c2].groups.len() && cs1[c1].key == cs2[c2].key && (#[trigger] cs1[c1].groups[j1]).identity
            == (#[trigger] cs2[c2].groups[j2]).identity implies cs1[c1].groups[j1].occurrences.to_multiset()
        == cs2[c2].groups[j2].occurrences.to_multiset() by {
        let p = key_pred(cs1[c1].key, cs1[c1].groups[j1].identity);
        assert(cs1[c1].groups[j1].occurrences == ds1.filter(p));
        assert(cs2[c2].groups[j2].occurrences == ds2.filter(p));
        lemma_filter_to_multiset(ds1, p);
        lemma_filter_to_multiset(ds2, p);
    }
}

proof fn lemma_pair_carries_over(
    cs1: Seq<ComponentView>,
    ds1: Seq<DiagView>,
    cs2: Seq<ComponentView>,
    ds2: Seq<DiagView>,
    key: Seq<char>,
    id: Seq<char>,
)
    requires
        grouping_wf(cs1),
        grouping_matches(cs1, ds1),
        grouping_wf(cs2),
        grouping_matches(cs2, ds2),
        ds1.to_multiset() == ds2.to_multiset(),
        has_pair(cs1, key, id),
    ensures
        has_pair(cs2, key, id),
{
    ds1.to_multiset_ensures();
    ds2.to_multiset_ensures();
    let (c0, j0): (int, int) = choose|c0: int, j0: int|
        0 <= c0 < cs1.len() && 0 <= j0 < cs1[c0].groups.len() && cs1[c0].key == key && (
        #[trigger] cs1[c0].groups[j0]).identity == id;
    let p = key_pred(key, id);
    assert(cs1[c0].groups[j0].occurrences == ds1.filter(p));
    assert(group_wf(cs1[c0].groups[j0], cs1[c0].key));
    lemma_filter_member(ds1, p);
    let x = choose|x: int| 0 <= x < ds1.len() && p(#[trigger] ds1[x]);
    assert(ds1.contains(ds1[x]));
    assert(ds2.to_multiset().count(ds1[x]) > 0);
    assert(ds2.contains(ds1[x]));
    let y = choose|y: int| 0 <= y < ds2.len() && ds2[y] == ds1[x];
    assert(has_pair(cs2, ds2[y].component, ds2[y].identity));
}

/// Partitions the diagnostics by owning component and, within each
/// component, by identity. Components come out strictly ascending by
/// key and groups strictly ascending by identity; each group's
/// occurrence list is exactly the subsequence of the input that carries
/// its component and identity; and the union of all groups, as a
/// multiset, is exactly the input.
pub fn group_diagnostics(diags: &Vec<Diagnostic>) -> (g: Grouping)
    ensures
        grouping_wf(g.components.deep_view()),
        grouping_matches(g.components.deep_view(), diags.deep_view()),
        grouping_multiset(g.components.deep_view()) == diags.deep_view().to_multiset(),
{
    let ghost ds = diags.deep_view();
    let mut components: Vec<ComponentGroups> = Vec::new();
    let mut x: usize = 0;
    proof {
        assert(ds.take(0) =~= Seq::<DiagView>::empty());
        assert(components.deep_view() =~= Seq::<ComponentView>::empty());
        Seq::<DiagView>::empty().to_multiset_ensures();
        assert(grouping_multiset(components.deep_view()) =~= ds.take(0).to_multiset());
    }
    while x < diags.len()
        invariant
            0 <= x <= diags.len(),
            ds == diags.deep_view(),
            ds.len() == diags.len(),
            grouping_wf(components.deep_view()),
            grouping_matches(components.deep_view(), ds.take(x as int)),
            grouping_multiset(components.deep_view()) == ds.take(x as int).to_multiset(),
        decreases diags.len() - x,
    {
        let d = diags[x].clone();
        let ghost dv = d.deep_view();
        let ghost t = ds.take(x as int);
        proof {
            assert(dv == ds[x as int]);
        }
        let (ci, cfound) = find_component(&components, d.component.as_str());
        let ghost cs0 = components.deep_view();
        if !cfound {
            let newc = ComponentGroups { key: d.component.clone(), groups: Vec::new() };
            let ghost ncv = newc.deep_view();
            proof {
                assert(ncv.groups =~= Seq::<GroupView>::empty());
                lemma_stage_insert_component(cs0, t, ci as int, ncv);
            }
            components.insert(ci, newc);
            proof {
                assert(components.deep_view() =~= cs0.insert(ci as int, ncv));
            }
        }
        let ghost cs1 = components.deep_view();
        proof {
            assert(cs1[ci as int].key == dv.component);
        }
        let mut comp = components.remove(ci);
        proof {
            assert(comp.deep_view() == cs1[ci as int]);
        }
        let ghost gs = comp.deep_view().groups;
        let (gi, gfound) = find_group(&comp.groups, d.identity.as_str());
        if gfound {
            let mut grp = comp.groups.remove(gi);
            let ghost g0 = grp.deep_view();
            grp.occurrences.push(d);
            let ghost g2 = grp.deep_view();
            proof {
                assert(g2.occurrences =~= g0.occurrences.push(dv));
            }
            comp.groups.insert(gi, grp);
            let ghost c2 = comp.deep_view();
            proof {
                assert(c2.groups =~= gs.update(gi as int, g2));
            }
            components.insert(ci, comp);
            proof {
                assert(components.deep_view() =~= cs1.update(ci as int, c2));
                lemma_stage_push_existing(cs1, t, ci as int, gi as int, g2, dv, c2);
            }
        } else {
            proof {
                // the pair is new: the only component with this key has
                // no group with this identity
                if has_pair(cs1, cs1[ci as int].key, dv.identity) {
                    let (c0, j0): (int, int) = choose|c0: int, j0: int|
                        0 <= c0 < cs1.len() && 0 <= j0 < cs1[c0].groups.len() && cs1[c0].key == cs1[
                            ci as int
                        ].key && (#[trigger] cs1[c0].groups[j0]).identity == dv.identity;
                    if c0 != ci as int {
                        lemma_keys_unique(cs1, c0, ci as int);
                    }
                    text::lemma_lex_cmp_eq(cs1[ci as int].groups[j0].identity, dv.identity);
                    if j0 < gi as int {
                        assert(text::lex_cmp(gs[j0].identity, dv.identity) < 0);
                    } else {
                        assert(text::lex_cmp(dv.identity, gs[j0].identity) < 0);
                        text::lemma_lex_cmp_antisym(dv.identity, gs[j0].identity);
                    }
                    assert(false);
                }
            }
            let ident = d.identity.clone();
            let mut occ: Vec<Diagnostic> = Vec::new();
            occ.push(d);
            let newg = Group { identity: ident, occurrences: occ };
            let ghost ngv = newg.deep_view();
            proof {
                assert(ngv.occurrences =~= seq![dv]);
            }
            comp.groups.insert(gi, newg);
            let ghost c2 = comp.deep_view();
            proof {
                assert(c2.groups =~= gs.insert(gi as int, ngv));
            }
            components.insert(ci, comp);
            proof {
                assert(components.deep_view() =~= cs1.update(ci as int, c2));
                lemma_stage_new_group(cs1, t, ci as int, gi as int, ngv, dv, c2);
            }
        }
        x = x + 1;
        proof {
            assert(ds.take(x as int) =~= t.push(dv));
            t.to_multiset_ensures();
        }
    }
    proof {
        assert(ds.take(diags.len() as int) =~= ds);
    }
    Grouping { components }
}

} // verus!
