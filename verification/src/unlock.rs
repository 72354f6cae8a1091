//! Dependency-aware talent unlocking.
//!
//! The talent and blueprint trees form a graph: a row's `required_talents`
//! may name other storable rows, rows the game grants by default, or
//! invisible connector rows that only exist to draw the tree. Save files
//! never hold connector rows, so the cascade treats rows that a save does
//! not store as transparent: it never writes them, but walks on through
//! their own requirements.
//!
//! Talents also grant `UnlockedFlags` entries through their per-rank
//! rewards. Every mutation ends with a full resync: flags that some talent
//! could grant are derived from the current talent list, while flags outside
//! that universe are left untouched.

use vstd::prelude::*;
use crate::catalog::{
    Catalog, find_last, is_node, node_of, nodes_of, req_nodes, dep_nodes, seq_set, dep_list,
    lemma_find_last, lemma_name_resolves,
};
use crate::graph::{
    closure, is_closed, lists_exactly, marked, newly_marked, count_unset, lemma_closure_empty,
    lemma_closure_single, lemma_closure_single_avoided, lemma_closure_union, lemma_closure_avoids, lemma_count_unset,
    lemma_lists_concat, lemma_newly_marked_trans, lemma_closure_mono, lemma_closure_agree,
};
use crate::model::{Category, ResolvedTalent};
use crate::owner::{
    TalentOwner, FlagOwner, holds, without, without_names, after_set, with_rank, first_with,
    lemma_without_names_insert, lemma_without_names_empty, lemma_first_with, storable_fn,
    lemma_without_names_union, lemma_holds_without_names, Shadow, lemma_shadow_storable,
};
use crate::sync::{rewards_ok, rewards_ready, synced, flag_universe, desired_flags, sync_granted_flags};
use crate::catalog::lemma_seq_set_push;

verus! {

/// Whether the prerequisite walk continues past node `i`: a row that is
/// neither granted by default nor already held (rows the save does not
/// store are looked through).
pub open spec fn prereq_expands(
    ts: Seq<ResolvedTalent>,
    st: spec_fn(Category) -> bool,
    held: Seq<(Seq<char>, i64)>,
) -> spec_fn(int) -> bool {
    |i: int|
        is_node(ts, i) && !ts[i].default_unlocked && (!st(ts[i].category) || !holds(
            held,
            ts[i].name@,
        ))
}

/// The requirement edges of the catalogue.
pub open spec fn prereq_succ(ts: Seq<ResolvedTalent>) -> spec_fn(int) -> Set<int> {
    |i: int| req_nodes(ts, i)
}

/// The nodes a prerequisite walk from `seeds` reaches.
pub open spec fn prereq_closure(
    ts: Seq<ResolvedTalent>,
    st: spec_fn(Category) -> bool,
    held: Seq<(Seq<char>, i64)>,
    seeds: Set<int>,
    avoid: Set<int>,
) -> Set<int> {
    closure(seeds, avoid, prereq_expands(ts, st, held), prereq_succ(ts))
}

/// Resolving a prefix one name longer adds that name's node.
proof fn lemma_nodes_of_step(ts: Seq<ResolvedTalent>, names: Seq<String>, k: int)
    requires
        0 <= k < names.len(),
    ensures
        nodes_of(ts, names.take(k + 1)) == nodes_of(ts, names.take(k)).union(node_of(ts, names[k]@)),
{
    let a = nodes_of(ts, names.take(k + 1));
    let b = nodes_of(ts, names.take(k)).union(node_of(ts, names[k]@));
    assert forall|j: int| a.contains(j) implies b.contains(j) by {
        let q = choose|q: int| 0 <= q < k + 1 && find_last(ts, #[trigger] names.take(k + 1)[q]@) == Some(j);
        if q < k {
            assert(names.take(k)[q] == names.take(k + 1)[q]);
            assert(nodes_of(ts, names.take(k)).contains(j));
        }
    }
    assert forall|j: int| b.contains(j) implies a.contains(j) by {
        if nodes_of(ts, names.take(k)).contains(j) {
            let q = choose|q: int| 0 <= q < k && find_last(ts, #[trigger] names.take(k)[q]@) == Some(j);
            assert(names.take(k)[q] == names.take(k + 1)[q]);
        } else {
            assert(names.take(k + 1)[k] == names[k]);
        }
    }
    assert(a =~= b);
}

/// Marks grow along a walk.
pub open spec fn grows(before: Seq<bool>, after: Seq<bool>) -> bool {
    &&& after.len() == before.len()
    &&& forall|i: int| 0 <= i < before.len() && #[trigger] before[i] ==> after[i]
}

/// `after` extends `before` by a part that lists exactly `d`.
pub open spec fn extends_listing(before: Seq<usize>, after: Seq<usize>, d: Set<int>) -> bool {
    &&& after.len() >= before.len()
    &&& after.subrange(0, before.len() as int) == before
    &&& lists_exactly(after.subrange(before.len() as int, after.len() as int), d)
}

proof fn lemma_extends_trans(
    o0: Seq<usize>,
    o1: Seq<usize>,
    o2: Seq<usize>,
    d1: Set<int>,
    d2: Set<int>,
)
    requires
        extends_listing(o0, o1, d1),
        extends_listing(o1, o2, d2),
        d1.disjoint(d2),
    ensures
        extends_listing(o0, o2, d1.union(d2)),
{
    let p1 = o1.subrange(o0.len() as int, o1.len() as int);
    let p2 = o2.subrange(o1.len() as int, o2.len() as int);
    lemma_lists_concat(p1, p2, d1, d2);
    assert(o2.subrange(o0.len() as int, o2.len() as int) =~= p1 + p2);
    assert(o2.subrange(0, o0.len() as int) =~= o1.subrange(0, o0.len() as int));
}

proof fn lemma_lists_single(i: usize)
    ensures
        lists_exactly(seq![i], set![i as int]),
{
    let s = seq![i];
    assert(s[0] == i);
    assert forall|n: int| set![i as int].contains(n) implies exists|k: int| 0 <= k < s.len() && #[trigger] s[k] as int == n by {
        assert(s[0] as int == n);
    }
}

/// The texts of some row names.
pub open spec fn name_views(s: Seq<String>) -> Seq<Seq<char>> {
    s.map_values(|r: String| r@)
}

/// The prerequisite walk from row name `name`, depth first, as the unlock
/// code makes it: the row `name` resolves to, unless there is none or it is
/// already marked in `v`, is marked and listed; when the walk continues past
/// it (`prereq_expands`), its requirements are walked in the order the row
/// lists them. Gives the marks afterwards and the rows listed, in visiting
/// order. `fuel` bounds the depth: any fuel of at least the number of
/// unmarked rows gives the whole walk.
pub open spec fn prereq_walk(
    ts: Seq<ResolvedTalent>,
    st: spec_fn(Category) -> bool,
    held: Seq<(Seq<char>, i64)>,
    name: Seq<char>,
    v: Seq<bool>,
    fuel: nat,
) -> (Seq<bool>, Seq<usize>)
    decreases fuel, 0nat,
{
    match find_last(ts, name) {
        None => (v, Seq::empty()),
        Some(i) => if fuel == 0 || i < 0 || i >= v.len() || v[i] {
            (v, Seq::empty())
        } else if prereq_expands(ts, st, held)(i) {
            let r = prereq_walk_list(
                ts,
                st,
                held,
                name_views(ts[i].required_talents@),
                ts[i].required_talents@.len(),
                v.update(i, true),
                (fuel - 1) as nat,
            );
            (r.0, seq![i as usize] + r.1)
        } else {
            (v.update(i, true), seq![i as usize])
        },
    }
}

/// The prerequisite walks from the first `k` of `names`, one after the
/// other, sharing the marks (see `prereq_walk`).
pub open spec fn prereq_walk_list(
    ts: Seq<ResolvedTalent>,
    st: spec_fn(Category) -> bool,
    held: Seq<(Seq<char>, i64)>,
    names: Seq<Seq<char>>,
    k: nat,
    v: Seq<bool>,
    fuel: nat,
) -> (Seq<bool>, Seq<usize>)
    decreases fuel, k + 1,
{
    if k == 0 || k > names.len() {
        (v, Seq::empty())
    } else {
        let a = prereq_walk_list(ts, st, held, names, (k - 1) as nat, v, fuel);
        let b = prereq_walk(ts, st, held, names[k - 1], a.0, fuel);
        (b.0, a.1 + b.1)
    }
}

/// The rows the prerequisite walks from `names` list, in visiting order,
/// starting with nothing marked.
pub open spec fn prereq_order(
    ts: Seq<ResolvedTalent>,
    st: spec_fn(Category) -> bool,
    held: Seq<(Seq<char>, i64)>,
    names: Seq<Seq<char>>,
) -> Seq<usize> {
    prereq_walk_list(ts, st, held, names, names.len(), Seq::new(ts.len(), |i: int| false), ts.len()).1
}

/// Walks the prerequisites of `name`: marks every node a prerequisite walk
/// from `name` reaches and appends them to `order` in visiting order.
fn prereq_visit<T: TalentOwner>(
    owner: &T,
    catalog: &Catalog,
    name: &str,
    visited: &mut Vec<bool>,
    order: &mut Vec<usize>,
)
    requires
        catalog.wf(),
        old(visited)@.len() == catalog.rows().len(),
    ensures
        grows(old(visited)@, final(visited)@),
        newly_marked(old(visited)@, final(visited)@) == prereq_closure(
            catalog.rows(),
            storable_fn::<T>(),
            owner.talents_view(),
            node_of(catalog.rows(), name@),
            marked(old(visited)@),
        ),
        extends_listing(old(order)@, final(order)@, newly_marked(old(visited)@, final(visited)@)),
        forall|f: nat|
            f >= count_unset(old(visited)@) ==> #[trigger] prereq_walk(catalog.rows(), storable_fn::<T>(), owner.talents_view(), name@, old(visited)@, f) == (
                final(visited)@,
                final(order)@.skip(old(order)@.len() as int),
            ),
    decreases count_unset(old(visited)@),
{
    let ghost ts = catalog.rows();
    let ghost st = storable_fn::<T>();
    let ghost e = prereq_expands(ts, st, owner.talents_view());
    let ghost sc = prereq_succ(ts);
    let ghost v0 = visited@;
    let ghost o0 = order@;
    proof {
        lemma_find_last(ts, name@);
    }
    match catalog.lookup(name) {
        None => {
            proof {
                assert(node_of(ts, name@) =~= Set::<int>::empty());
                lemma_closure_empty(marked(v0), e, sc);
                assert(newly_marked(v0, visited@) =~= Set::<int>::empty());
                assert(order@.subrange(o0.len() as int, order@.len() as int) =~= Seq::<usize>::empty());
                assert(order@.subrange(0, o0.len() as int) =~= o0);
                assert(order@.skip(o0.len() as int) =~= Seq::<usize>::empty());
            }
        },
        Some(i) => {
            if visited[i] {
                proof {
                    assert(node_of(ts, name@) == set![i as int]);
                    assert(marked(v0).contains(i as int));
                    lemma_closure_single_avoided(i as int, marked(v0), e, sc);
                    assert(newly_marked(v0, visited@) =~= Set::<int>::empty());
                    assert(order@.subrange(o0.len() as int, order@.len() as int) =~= Seq::<
                        usize,
                    >::empty());
                    assert(order@.subrange(0, o0.len() as int) =~= o0);
                    assert(order@.skip(o0.len() as int) =~= Seq::<usize>::empty());
                }
                return ;
            }
            visited.set(i, true);
            order.push(i);
            let ghost v1 = visited@;
            let ghost o1 = order@;
            proof {
                assert(grows(v0, v1));
                assert(node_of(ts, name@) == set![i as int]);
                assert(is_node(ts, i as int));
                assert(newly_marked(v0, v1) =~= set![i as int]);
                lemma_count_unset(v0, v1, i as int);
                assert(o1.subrange(o0.len() as int, o1.len() as int) =~= seq![i]);
                assert(o1.subrange(0, o0.len() as int) =~= o0);
                lemma_lists_single(i);
                assert(!marked(v0).contains(i as int));
                lemma_closure_single(i as int, marked(v0), e, sc);
                assert(v1 == v0.update(i as int, true));
                assert(o1.skip(o0.len() as int) =~= seq![i]);
            }
            let t = catalog.talent(i);
            let expands = !t.default_unlocked && !(T::storable(t.category) && owner.has_talent(
                t.name.as_str(),
            ));
            if !expands {
                proof {
                    assert(!e(i as int));
                    assert forall|f: nat| f >= count_unset(v0) implies #[trigger] prereq_walk(
                        ts,
                        st,
                        owner.talents_view(),
                        name@,
                        v0,
                        f,
                    ) == (visited@, order@.skip(o0.len() as int)) by {}
                }
                return ;
            }
            proof {
                assert(e(i as int));
            }
            let ghost reqs = t.required_talents@;
            let ghost names = name_views(reqs);
            let m = t.required_talents.len();
            proof {
                assert(order@.skip(o1.len() as int) =~= Seq::<usize>::empty());
                assert(reqs.take(0) =~= Seq::<String>::empty());
                assert(nodes_of(ts, reqs.take(0)) =~= Set::<int>::empty());
                lemma_closure_empty(marked(v1), e, sc);
                assert(newly_marked(v1, visited@) =~= Set::<int>::empty());
                assert(order@.subrange(o1.len() as int, order@.len() as int) =~= Seq::<usize>::empty());
                assert(order@.subrange(0, o1.len() as int) =~= o1);
            }
            let mut k: usize = 0;
            while k < m
                invariant
                    k <= m,
                    catalog.wf(),
                    ts == catalog.rows(),
                    e == prereq_expands(ts, st, owner.talents_view()),
                    st == storable_fn::<T>(),
                    sc == prereq_succ(ts),
                    m == reqs.len(),
                    i < ts.len(),
                    *t == ts[i as int],
                    reqs == t.required_talents@,
                    v0 == old(visited)@,
                    grows(v0, v1),
                    grows(v1, visited@),
                    v1.len() == ts.len(),
                    count_unset(visited@) < count_unset(v0),
                    newly_marked(v1, visited@) == closure(nodes_of(ts, reqs.take(k as int)), marked(v1), e, sc),
                    extends_listing(o1, order@, newly_marked(v1, visited@)),
                    names == name_views(reqs),
                    forall|f: nat|
                        f >= count_unset(v1) ==> #[trigger] prereq_walk_list(
                            ts,
                            st,
                            owner.talents_view(),
                            names,
                            k as nat,
                            v1,
                            f,
                        ) == (visited@, order@.skip(o1.len() as int)),
                decreases m - k,
            {
                let ghost vc = visited@;
                let ghost oc = order@;
                assert(count_unset(vc) < count_unset(v0));
                assert forall|f: nat| f >= count_unset(v1) implies #[trigger] prereq_walk_list(
                    ts,
                    st,
                    owner.talents_view(),
                    names,
                    k as nat,
                    v1,
                    f,
                ) == (vc, oc.skip(o1.len() as int)) by {}
                prereq_visit(owner, catalog, t.required_talents[k].as_str(), visited, order);
                proof {
                    lemma_newly_marked_trans(v1, vc, visited@);
                    lemma_count_unset(vc, visited@, -1);
                    lemma_nodes_of_step(ts, reqs, k as int);
                    lemma_closure_union(
                        nodes_of(ts, reqs.take(k as int)),
                        node_of(ts, reqs[k as int]@),
                        marked(v1),
                        e,
                        sc,
                    );
                    lemma_extends_trans(o1, oc, order@, newly_marked(v1, vc), newly_marked(vc, visited@));
                    lemma_count_unset(v1, vc, -1);
                    assert(names[k as int] == reqs[k as int]@);
                }
                let ghost kn: nat = (k + 1) as nat;
                proof {
                    assert forall|f: nat| f >= count_unset(v1) implies #[trigger] prereq_walk_list(
                        ts,
                        st,
                        owner.talents_view(),
                        names,
                        kn,
                        v1,
                        f,
                    ) == (visited@, order@.skip(o1.len() as int)) by {
                        let a = prereq_walk_list(ts, st, owner.talents_view(), names, k as nat, v1, f);
                        assert(a == (vc, oc.skip(o1.len() as int)));
                        assert(prereq_walk(ts, st, owner.talents_view(), names[k as int], vc, f) == (
                            visited@,
                            order@.skip(oc.len() as int),
                        ));
                        assert(oc.skip(o1.len() as int) + order@.skip(oc.len() as int) =~= order@.skip(
                            o1.len() as int,
                        ));
                    }
                }
                k = k + 1;
                assert(k as nat == kn);
            }
            proof {
                assert(reqs.take(m as int) =~= reqs);
                assert(nodes_of(ts, reqs) == req_nodes(ts, i as int));
                lemma_newly_marked_trans(v0, v1, visited@);
                lemma_closure_avoids(nodes_of(ts, reqs), marked(v1), e, sc);
                lemma_extends_trans(o0, o1, order@, newly_marked(v0, v1), newly_marked(v1, visited@));
                assert(marked(v1) =~= marked(v0).insert(i as int));
                assert forall|j: int| 0 <= j < v0.len() && #[trigger] v0[j] implies visited@[j] by {
                    assert(v1[j]);
                }
                assert(reqs.len() == ts[i as int].required_talents@.len());
                assert forall|f: nat| f >= count_unset(v0) implies #[trigger] prereq_walk(
                    ts,
                    st,
                    owner.talents_view(),
                    name@,
                    v0,
                    f,
                ) == (visited@, order@.skip(o0.len() as int)) by {
                    assert(e(i as int));
                    assert((f - 1) as nat >= count_unset(v1));
                    assert(k == m);
                    let r = prereq_walk_list(ts, st, owner.talents_view(), names, m as nat, v1, (f - 1) as nat);
                    assert(r == (visited@, order@.skip(o1.len() as int)));
                    assert(find_last(ts, name@) == Some(i as int));
                    assert(!v0[i as int]);
                    assert(v0.update(i as int, true) =~= v1);
                    assert(names == name_views(ts[i as int].required_talents@));
                    assert(m == ts[i as int].required_talents@.len());
                    assert(seq![i] + order@.skip(o1.len() as int) =~= order@.skip(o0.len() as int));
                }
            }
        },
    }
}

/// Whether the dependents walk continues past node `i`: a row the save
/// holds, or one it does not store (looked through).
pub open spec fn dependents_expands(
    ts: Seq<ResolvedTalent>,
    st: spec_fn(Category) -> bool,
    held: Seq<(Seq<char>, i64)>,
) -> spec_fn(int) -> bool {
    |i: int| is_node(ts, i) && (!st(ts[i].category) || holds(held, ts[i].name@))
}

/// The reverse requirement edges: from a row to the rows that require it.
pub open spec fn dependents_succ(ts: Seq<ResolvedTalent>) -> spec_fn(int) -> Set<int> {
    |i: int| dep_nodes(ts, ts[i].name@)
}

/// The nodes a dependents walk from `seeds` reaches.
pub open spec fn dependents_closure(
    ts: Seq<ResolvedTalent>,
    st: spec_fn(Category) -> bool,
    held: Seq<(Seq<char>, i64)>,
    seeds: Set<int>,
    avoid: Set<int>,
) -> Set<int> {
    closure(seeds, avoid, dependents_expands(ts, st, held), dependents_succ(ts))
}

/// The set of nodes is closed under both kinds of edges.
proof fn lemma_nodes_closed(ts: Seq<ResolvedTalent>)
    ensures
        forall|i: int, j: int| #[trigger] req_nodes(ts, i).contains(j) ==> is_node(ts, j),
        forall|n: Seq<char>, j: int| #[trigger] dep_nodes(ts, n).contains(j) ==> is_node(ts, j),
        forall|n: Seq<char>, j: int| #[trigger] node_of(ts, n).contains(j) ==> is_node(ts, j),
{
    assert forall|i: int, j: int| #[trigger] req_nodes(ts, i).contains(j) implies is_node(ts, j) by {
        let k = choose|k: int|
            0 <= k < ts[i].required_talents@.len() && find_last(ts, #[trigger] ts[i].required_talents@[k]@)
                == Some(j);
        lemma_find_last(ts, ts[i].required_talents@[k]@);
    }
    assert forall|n: Seq<char>, j: int| #[trigger] dep_nodes(ts, n).contains(j) implies is_node(ts, j) by {
        let (k, r) = choose|k: int, r: int|
            0 <= k < ts.len() && 0 <= r < ts[k].required_talents@.len()
                && #[trigger] ts[k].required_talents@[r]@ == n && find_last(ts, ts[k].name@) == Some(j);
        lemma_find_last(ts, ts[k].name@);
    }
    assert forall|n: Seq<char>, j: int| #[trigger] node_of(ts, n).contains(j) implies is_node(ts, j) by {
        lemma_find_last(ts, n);
    }
}

/// Everything a walk reaches is a node.
proof fn lemma_closure_nodes(
    ts: Seq<ResolvedTalent>,
    seeds: Set<int>,
    avoid: Set<int>,
    e: spec_fn(int) -> bool,
    sc: spec_fn(int) -> Set<int>,
)
    requires
        forall|j: int| #[trigger] seeds.contains(j) ==> is_node(ts, j),
        forall|i: int, j: int| #[trigger] sc(i).contains(j) ==> is_node(ts, j),
    ensures
        forall|j: int| #[trigger] closure(seeds, avoid, e, sc).contains(j) ==> is_node(ts, j),
{
    let nodes = Set::new(|j: int| is_node(ts, j));
    assert(is_closed(seeds, avoid, e, sc, nodes));
    crate::graph::lemma_closure_least(seeds, avoid, e, sc, nodes);
}

/// Every node a prerequisite walk from a talent's requirements reaches is
/// a catalogue position.
pub proof fn lemma_prereqs_in_range(
    ts: Seq<ResolvedTalent>,
    st: spec_fn(Category) -> bool,
    held: Seq<(Seq<char>, i64)>,
    i: int,
)
    ensures
        forall|j: int| #[trigger] prereq_closure(ts, st, held, req_nodes(ts, i), Set::empty()).contains(j) ==> 0 <= j
            < ts.len(),
{
    lemma_nodes_closed(ts);
    lemma_closure_nodes(ts, req_nodes(ts, i), Set::empty(), prereq_expands(ts, st, held), prereq_succ(ts));
}

/// Every node a dependents walk from the rows requiring `name` reaches is
/// a catalogue position.
pub proof fn lemma_dependents_in_range(
    ts: Seq<ResolvedTalent>,
    st: spec_fn(Category) -> bool,
    held: Seq<(Seq<char>, i64)>,
    name: Seq<char>,
)
    ensures
        forall|j: int| #[trigger] dependents_closure(ts, st, held, dep_nodes(ts, name), Set::empty()).contains(j) ==> 0
            <= j < ts.len(),
{
    lemma_nodes_closed(ts);
    lemma_closure_nodes(ts, dep_nodes(ts, name), Set::empty(), dependents_expands(ts, st, held), dependents_succ(ts));
}

/// The dependents walk the lock code makes over the first `k` of `deps`,
/// depth first: each row, unless already marked, is marked and listed, and
/// when the walk continues past it (`dependents_expands`) the rows that
/// require it are walked in bundle order (`dep_list`). Gives the marks
/// afterwards and the rows listed, in visiting order. `fuel` bounds the
/// depth: any fuel of at least the number of unmarked rows gives the whole
/// walk.
pub open spec fn dependents_walk(
    ts: Seq<ResolvedTalent>,
    st: spec_fn(Category) -> bool,
    held: Seq<(Seq<char>, i64)>,
    deps: Seq<usize>,
    k: nat,
    v: Seq<bool>,
    fuel: nat,
) -> (Seq<bool>, Seq<usize>)
    decreases fuel, k,
{
    if k == 0 || k > deps.len() {
        (v, Seq::empty())
    } else {
        let a = dependents_walk(ts, st, held, deps, (k - 1) as nat, v, fuel);
        let d = deps[k - 1] as int;
        if fuel == 0 || d >= a.0.len() || a.0[d] {
            a
        } else if dependents_expands(ts, st, held)(d) {
            let nd = dep_list(ts, ts[d].name@, ts.len() as int);
            let b = dependents_walk(ts, st, held, nd, nd.len(), a.0.update(d, true), (fuel - 1) as nat);
            (b.0, a.1.push(d as usize) + b.1)
        } else {
            (a.0.update(d, true), a.1.push(d as usize))
        }
    }
}

/// The rows the dependents walk from `name` lists, in visiting order,
/// starting with nothing marked.
pub open spec fn dependents_order(
    ts: Seq<ResolvedTalent>,
    st: spec_fn(Category) -> bool,
    held: Seq<(Seq<char>, i64)>,
    name: Seq<char>,
) -> Seq<usize> {
    let deps = dep_list(ts, name, ts.len() as int);
    dependents_walk(ts, st, held, deps, deps.len(), Seq::new(ts.len(), |i: int| false), ts.len()).1
}

/// Walks the dependents of `name`: marks every node a dependents walk from
/// the rows requiring `name` reaches and appends them to `order` in visiting
/// order. `name` itself is not marked.
fn dependents_visit<T: TalentOwner>(
    owner: &T,
    catalog: &Catalog,
    name: &str,
    visited: &mut Vec<bool>,
    order: &mut Vec<usize>,
)
    requires
        catalog.wf(),
        old(visited)@.len() == catalog.rows().len(),
    ensures
        grows(old(visited)@, final(visited)@),
        newly_marked(old(visited)@, final(visited)@) == dependents_closure(
            catalog.rows(),
            storable_fn::<T>(),
            owner.talents_view(),
            dep_nodes(catalog.rows(), name@),
            marked(old(visited)@),
        ),
        extends_listing(old(order)@, final(order)@, newly_marked(old(visited)@, final(visited)@)),
        forall|f: nat|
            f >= count_unset(old(visited)@) ==> #[trigger] dependents_walk(
                catalog.rows(),
                storable_fn::<T>(),
                owner.talents_view(),
                dep_list(catalog.rows(), name@, catalog.rows().len() as int),
                dep_list(catalog.rows(), name@, catalog.rows().len() as int).len(),
                old(visited)@,
                f,
            ) == (final(visited)@, final(order)@.skip(old(order)@.len() as int)),
    decreases count_unset(old(visited)@),
{
    let ghost ts = catalog.rows();
    let ghost st = storable_fn::<T>();
    let ghost e = dependents_expands(ts, st, owner.talents_view());
    let ghost sc = dependents_succ(ts);
    let ghost v0 = visited@;
    let ghost o0 = order@;
    let deps = catalog.dependents(name);
    let nd = deps.len();
    proof {
        assert(deps@.take(0) =~= Seq::<usize>::empty());
        assert(seq_set(deps@.take(0)) =~= Set::<int>::empty());
        lemma_closure_empty(marked(v0), e, sc);
        assert(newly_marked(v0, visited@) =~= Set::<int>::empty());
        assert(order@.subrange(o0.len() as int, order@.len() as int) =~= Seq::<usize>::empty());
        assert(order@.subrange(0, o0.len() as int) =~= o0);
    }
    proof {
        assert(order@.skip(o0.len() as int) =~= Seq::<usize>::empty());
    }
    let mut k: usize = 0;
    while k < nd
        invariant
            k <= nd,
            deps@ == dep_list(ts, name@, ts.len() as int),
            forall|f: nat|
                f >= count_unset(v0) ==> #[trigger] dependents_walk(
                    ts,
                    st,
                    owner.talents_view(),
                    deps@,
                    k as nat,
                    v0,
                    f,
                ) == (visited@, order@.skip(o0.len() as int)),
            catalog.wf(),
            ts == catalog.rows(),
            e == dependents_expands(ts, st, owner.talents_view()),
            st == storable_fn::<T>(),
            sc == dependents_succ(ts),
            nd == deps@.len(),
            forall|q: int| 0 <= q < deps@.len() ==> is_node(ts, #[trigger] deps@[q] as int),
            v0 == old(visited)@,
            v0.len() == ts.len(),
            grows(v0, visited@),
            newly_marked(v0, visited@) == closure(seq_set(deps@.take(k as int)), marked(v0), e, sc),
            extends_listing(o0, order@, newly_marked(v0, visited@)),
        decreases nd - k,
    {
        let d = deps[k];
        let ghost vc = visited@;
        let ghost oc = order@;
        let ghost kn: nat = (k + 1) as nat;
        proof {
            assert(deps@[k as int] == d);
            assert forall|f: nat| f >= count_unset(v0) implies #[trigger] dependents_walk(
                ts,
                st,
                owner.talents_view(),
                deps@,
                k as nat,
                v0,
                f,
            ) == (vc, oc.skip(o0.len() as int)) by {}
        }
        proof {
            assert(deps@.take(k + 1) =~= deps@.take(k as int).push(d));
            lemma_seq_set_push(deps@.take(k as int), d);
            lemma_closure_union(seq_set(deps@.take(k as int)), set![d as int], marked(v0), e, sc);
            lemma_newly_marked_trans(v0, vc, vc);
            assert(seq_set(deps@.take(k as int)).insert(d as int) =~= seq_set(deps@.take(k as int)).union(
                set![d as int],
            ));
        }
        if !visited[d] {
            visited.set(d, true);
            order.push(d);
            let ghost v1 = visited@;
            let ghost o1 = order@;
            proof {
                assert(grows(vc, v1));
                assert(newly_marked(vc, v1) =~= set![d as int]);
                lemma_count_unset(vc, v1, d as int);
                lemma_count_unset(v0, vc, -1);
                assert(o1.subrange(oc.len() as int, o1.len() as int) =~= seq![d]);
                assert(o1.subrange(0, oc.len() as int) =~= oc);
                lemma_lists_single(d);
                assert(!marked(vc).contains(d as int));
                lemma_closure_single(d as int, marked(vc), e, sc);
            }
            let t = catalog.talent(d);
            let expands = !T::storable(t.category) || owner.has_talent(t.name.as_str());
            if expands {
                proof {
                    assert(e(d as int));
                    assert(count_unset(v1) < count_unset(v0));
                }
                dependents_visit(owner, catalog, t.name.as_str(), visited, order);
                proof {
                    assert forall|f: nat| f >= count_unset(v0) implies #[trigger] dependents_walk(
                        ts,
                        st,
                        owner.talents_view(),
                        deps@,
                        kn,
                        v0,
                        f,
                    ) == (visited@, order@.skip(o0.len() as int)) by {
                        let a = dependents_walk(ts, st, owner.talents_view(), deps@, k as nat, v0, f);
                        assert(a == (vc, oc.skip(o0.len() as int)));
                        assert((kn - 1) as nat == k as nat);
                        assert(deps@[kn - 1] == d);
                        assert(f >= 1);
                        assert((f - 1) as nat >= count_unset(v1));
                        assert(vc.update(d as int, true) =~= v1);
                        assert(t.name@ == ts[d as int].name@);
                        assert(e(d as int));
                        let nd = dep_list(ts, ts[d as int].name@, ts.len() as int);
                        let b = dependents_walk(ts, st, owner.talents_view(), nd, nd.len(), v1, (f - 1) as nat);
                        assert(b == (visited@, order@.skip(o1.len() as int)));
                        assert(oc.skip(o0.len() as int).push(d) + order@.skip(o1.len() as int) =~= order@.skip(
                            o0.len() as int,
                        )) by {
                            assert(order@.subrange(0, o1.len() as int) == o1);
                            assert(o1 == oc.push(d));
                            assert(oc.subrange(0, o0.len() as int) == o0);
                            assert(order@.len() >= o1.len());
                            let lhs = oc.skip(o0.len() as int).push(d) + order@.skip(o1.len() as int);
                            let rhs = order@.skip(o0.len() as int);
                            assert forall|j: int| 0 <= j < rhs.len() implies lhs[j] == rhs[j] by {
                                if j < o1.len() - o0.len() {
                                    assert(order@.subrange(0, o1.len() as int)[o0.len() + j] == o1[o0.len() + j]);
                                }
                            }
                        }
                    }
                    assert(sc(d as int) == dep_nodes(ts, t.name@));
                    assert(marked(v1) =~= marked(vc).insert(d as int));
                    lemma_newly_marked_trans(vc, v1, visited@);
                    lemma_extends_trans(oc, o1, order@, newly_marked(vc, v1), newly_marked(v1, visited@));
                }
            } else {
                proof {
                    assert(!e(d as int));
                    lemma_newly_marked_trans(vc, v1, visited@);
                    assert(newly_marked(v1, visited@) =~= Set::<int>::empty());
                    assert forall|f: nat| f >= count_unset(v0) implies #[trigger] dependents_walk(
                        ts,
                        st,
                        owner.talents_view(),
                        deps@,
                        kn,
                        v0,
                        f,
                    ) == (visited@, order@.skip(o0.len() as int)) by {
                        let a = dependents_walk(ts, st, owner.talents_view(), deps@, k as nat, v0, f);
                        assert(a == (vc, oc.skip(o0.len() as int)));
                        assert((kn - 1) as nat == k as nat);
                        assert(deps@[kn - 1] == d);
                        assert(f >= 1);
                        assert(vc.update(d as int, true) =~= v1);
                        assert(oc.skip(o0.len() as int).push(d) =~= order@.skip(o0.len() as int));
                    }
                }
            }
            proof {
                lemma_newly_marked_trans(v0, vc, visited@);
                lemma_extends_trans(o0, oc, order@, newly_marked(v0, vc), newly_marked(vc, visited@));
                assert forall|j: int| 0 <= j < v0.len() && #[trigger] v0[j] implies visited@[j] by {
                    assert(vc[j]);
                    assert(v1[j]);
                }
                assert(marked(vc) == marked(v0).union(newly_marked(v0, vc)));
            }
        } else {
            proof {
                assert(marked(vc) == marked(v0).union(newly_marked(v0, vc)));
                lemma_closure_single_avoided(d as int, marked(vc), e, sc);
                assert forall|f: nat| f >= count_unset(v0) implies #[trigger] dependents_walk(
                        ts,
                        st,
                        owner.talents_view(),
                        deps@,
                        kn,
                        v0,
                        f,
                    ) == (visited@, order@.skip(o0.len() as int)) by {
                        let a = dependents_walk(ts, st, owner.talents_view(), deps@, k as nat, v0, f);
                        assert(a == (vc, oc.skip(o0.len() as int)));
                        assert((kn - 1) as nat == k as nat);
                        assert(deps@[kn - 1] == d);
                        assert(vc[d as int]);
                    }
            }
        }
        k = k + 1;
        assert(k as nat == kn);
    }
    proof {
        assert(deps@.take(nd as int) =~= deps@);
    }
}

/// The entries unlocking appends for the nodes of `o`, in order: each row
/// the save stores that is neither granted by default nor already held, at
/// rank 1.
pub open spec fn additions(
    ts: Seq<ResolvedTalent>,
    st: spec_fn(Category) -> bool,
    held: Seq<(Seq<char>, i64)>,
    o: Seq<usize>,
) -> Seq<(Seq<char>, i64)>
    decreases o.len(),
{
    if o.len() == 0 {
        Seq::empty()
    } else {
        let prev = additions(ts, st, held, o.drop_last());
        let i = o.last() as int;
        if !ts[i].default_unlocked && st(ts[i].category) && !holds(held, ts[i].name@) {
            prev.push((ts[i].name@, 1i64))
        } else {
            prev
        }
    }
}

proof fn lemma_additions_names(
    ts: Seq<ResolvedTalent>,
    st: spec_fn(Category) -> bool,
    held: Seq<(Seq<char>, i64)>,
    o: Seq<usize>,
)
    ensures
        forall|q: int|
            #![trigger additions(ts, st, held, o)[q]]
            0 <= q < additions(ts, st, held, o).len() ==> exists|p: int|
                0 <= p < o.len() && #[trigger] additions(ts, st, held, o)[q].0 == ts[o[p] as int].name@
                    && !ts[o[p] as int].default_unlocked && st(ts[o[p] as int].category),
    decreases o.len(),
{
    if o.len() > 0 {
        let d = o.drop_last();
        lemma_additions_names(ts, st, held, d);
        let a = additions(ts, st, held, o);
        let prev = additions(ts, st, held, d);
        assert forall|q: int| #![trigger a[q]] 0 <= q < a.len() implies exists|p: int|
            0 <= p < o.len() && #[trigger] a[q].0 == ts[o[p] as int].name@
                && !ts[o[p] as int].default_unlocked && st(ts[o[p] as int].category) by {
            if q < prev.len() {
                assert(a[q] == prev[q]);
                let p = choose|p: int|
                    0 <= p < d.len() && #[trigger] prev[q].0 == ts[d[p] as int].name@
                        && !ts[d[p] as int].default_unlocked && st(ts[d[p] as int].category);
                assert(o[p] == d[p]);
            } else {
                assert(a[q].0 == ts[o[o.len() - 1] as int].name@);
            }
        }
    }
}

/// Unlocks `name` and, through the prerequisite walk, every prerequisite it
/// reaches that is neither held nor granted by default.
fn unlock_with_deps<T: TalentOwner>(owner: &mut T, catalog: &Catalog, name: &str, visited: &mut Vec<bool>)
    requires
        catalog.wf(),
        old(visited)@.len() == catalog.rows().len(),
    ensures
        grows(old(visited)@, final(visited)@),
        newly_marked(old(visited)@, final(visited)@) == prereq_closure(
            catalog.rows(),
            storable_fn::<T>(),
            old(owner).talents_view(),
            node_of(catalog.rows(), name@),
            marked(old(visited)@),
        ),
        exists|o: Seq<usize>|
            #[trigger] lists_exactly(o, newly_marked(old(visited)@, final(visited)@))
                && final(owner).talents_view() == old(owner).talents_view() + additions(
                catalog.rows(),
                storable_fn::<T>(),
                old(owner).talents_view(),
                o,
            ),
        final(owner).flags_view() == old(owner).flags_view(),
        old(owner).same_rest(*final(owner)),
        forall|f: nat|
            f >= count_unset(old(visited)@) ==> final(owner).talents_view() == old(owner).talents_view()
                + additions(
                catalog.rows(),
                storable_fn::<T>(),
                old(owner).talents_view(),
                #[trigger] prereq_walk(catalog.rows(), storable_fn::<T>(), old(owner).talents_view(), name@, old(visited)@, f).1,
            ),
{
    let ghost ts = catalog.rows();
    let ghost st = storable_fn::<T>();
    let ghost held0 = owner.talents_view();
    let mut order: Vec<usize> = Vec::new();
    prereq_visit(&*owner, catalog, name, visited, &mut order);
    let ghost d = newly_marked(old(visited)@, visited@);
    proof {
        assert(order@.subrange(0, order@.len() as int) =~= order@);
        lemma_nodes_closed(ts);
        lemma_closure_nodes(
            ts,
            node_of(ts, name@),
            marked(old(visited)@),
            prereq_expands(ts, st, held0),
            prereq_succ(ts),
        );
    }
    let m = order.len();
    proof {
        assert(order@.take(0) =~= Seq::<usize>::empty());
        assert(owner.talents_view() =~= held0 + additions(ts, st, held0, order@.take(0)));
        T::lemma_same_rest_refl(*owner);
    }
    for k in 0..m
        invariant
            ts == catalog.rows(),
            st == storable_fn::<T>(),
            m == order@.len(),
            lists_exactly(order@, d),
            forall|j: int| #[trigger] d.contains(j) ==> is_node(ts, j),
            owner.talents_view() == held0 + additions(ts, st, held0, order@.take(k as int)),
            owner.flags_view() == old(owner).flags_view(),
            old(owner).same_rest(*owner),
    {
        let i = order[k];
        proof {
            assert(d.contains(i as int));
        }
        let t = catalog.talent(i);
        let ghost prefix = order@.take(k as int);
        proof {
            assert(order@.take(k + 1) =~= prefix.push(i));
            assert(order@.take(k + 1).drop_last() =~= prefix);
            lemma_additions_names(ts, st, held0, prefix);
            let adds = additions(ts, st, held0, prefix);
            let cur = owner.talents_view();
            // the name of node `i` is not among the entries added so far
            assert forall|q: int| 0 <= q < adds.len() implies #[trigger] adds[q].0 != ts[i as int].name@ by {
                let p = choose|p: int|
                    0 <= p < prefix.len() && #[trigger] adds[q].0 == ts[prefix[p] as int].name@
                        && !ts[prefix[p] as int].default_unlocked && st(ts[prefix[p] as int].category);
                assert(prefix[p] == order@[p]);
                assert(order@[p] != order@[k as int]);
                assert(d.contains(prefix[p] as int));
                if adds[q].0 == ts[i as int].name@ {
                    crate::catalog::lemma_node_names_distinct(ts, prefix[p] as int, i as int);
                }
            }
            assert(holds(cur, ts[i as int].name@) == holds(held0, ts[i as int].name@)) by {
                if holds(cur, ts[i as int].name@) {
                    let q = choose|q: int| 0 <= q < cur.len() && #[trigger] cur[q].0 == ts[i as int].name@;
                    if q >= held0.len() {
                        assert(cur[q] == adds[q - held0.len()]);
                    } else {
                        assert(cur[q] == held0[q]);
                    }
                }
                if holds(held0, ts[i as int].name@) {
                    let q = choose|q: int| 0 <= q < held0.len() && #[trigger] held0[q].0 == ts[i as int].name@;
                    assert(cur[q] == held0[q]);
                }
            }
        }
        if !t.default_unlocked && T::storable(t.category) {
            let ghost before = *owner;
            owner.set_talent(t.name.as_str(), true);
            proof {
                T::lemma_same_rest_trans(*old(owner), before, *owner);
                let adds = additions(ts, st, held0, prefix);
                if !holds(held0, ts[i as int].name@) {
                    assert(owner.talents_view() =~= held0 + adds.push((ts[i as int].name@, 1i64)));
                }
            }
        }
    }
    proof {
        assert(order@.take(m as int) =~= order@);
        assert(order@.skip(0) =~= order@);
    }
}

/// Removes every held row the dependents walk from `name` reaches.
fn remove_dependents<T: TalentOwner>(
    owner: &mut T,
    catalog: &Catalog,
    name: &str,
    visited: &mut Vec<bool>,
)
    requires
        catalog.wf(),
        old(visited)@.len() == catalog.rows().len(),
    ensures
        grows(old(visited)@, final(visited)@),
        newly_marked(old(visited)@, final(visited)@) == dependents_closure(
            catalog.rows(),
            storable_fn::<T>(),
            old(owner).talents_view(),
            dep_nodes(catalog.rows(), name@),
            marked(old(visited)@),
        ),
        final(owner).talents_view() == without_names(
            old(owner).talents_view(),
            stored_names(
                catalog.rows(),
                storable_fn::<T>(),
                newly_marked(old(visited)@, final(visited)@),
            ),
        ),
        final(owner).flags_view() == old(owner).flags_view(),
        old(owner).same_rest(*final(owner)),
{
    let ghost ts = catalog.rows();
    let ghost st = storable_fn::<T>();
    let ghost held0 = owner.talents_view();
    let mut order: Vec<usize> = Vec::new();
    dependents_visit(&*owner, catalog, name, visited, &mut order);
    let ghost d = newly_marked(old(visited)@, visited@);
    proof {
        assert(order@.subrange(0, order@.len() as int) =~= order@);
        lemma_nodes_closed(ts);
        lemma_closure_nodes(
            ts,
            dep_nodes(ts, name@),
            marked(old(visited)@),
            dependents_expands(ts, st, held0),
            dependents_succ(ts),
        );
        assert(seq_set(order@.take(0)) =~= Set::<int>::empty());
        assert(stored_names(ts, st, Set::<int>::empty()) =~= Set::<Seq<char>>::empty());
        lemma_without_names_empty(held0);
        T::lemma_same_rest_refl(*owner);
    }
    let m = order.len();
    for k in 0..m
        invariant
            ts == catalog.rows(),
            st == storable_fn::<T>(),
            m == order@.len(),
            lists_exactly(order@, d),
            forall|j: int| #[trigger] d.contains(j) ==> is_node(ts, j),
            owner.talents_view() == without_names(held0, stored_names(ts, st, seq_set(order@.take(k as int)))),
            owner.flags_view() == old(owner).flags_view(),
            old(owner).same_rest(*owner),
    {
        let i = order[k];
        proof {
            assert(d.contains(i as int));
        }
        let t = catalog.talent(i);
        let ghost prefix = order@.take(k as int);
        proof {
            assert(order@.take(k + 1) =~= prefix.push(i));
            lemma_seq_set_push(prefix, i);
        }
        if T::storable(t.category) {
            let ghost before = *owner;
            owner.set_talent(t.name.as_str(), false);
            proof {
                T::lemma_same_rest_trans(*old(owner), before, *owner);
                lemma_without_names_insert(held0, stored_names(ts, st, seq_set(prefix)), ts[i as int].name@);
                assert(stored_names(ts, st, seq_set(prefix)).insert(ts[i as int].name@) =~= stored_names(
                    ts,
                    st,
                    seq_set(prefix).insert(i as int),
                ));
            }
        } else {
            proof {
                assert(stored_names(ts, st, seq_set(prefix)) =~= stored_names(
                    ts,
                    st,
                    seq_set(prefix).insert(i as int),
                ));
            }
        }
    }
    proof {
        assert(order@.take(m as int) =~= order@);
        assert(seq_set(order@) =~= d);
    }
}

/// The row names of the nodes in `d` that a save of this kind stores.
pub open spec fn stored_names(ts: Seq<ResolvedTalent>, st: spec_fn(Category) -> bool, d: Set<int>) -> Set<
    Seq<char>,
> {
    Set::new(|n: Seq<char>| exists|i: int| d.contains(i) && st(ts[i].category) && #[trigger] ts[i].name@ == n)
}

/// A fresh visited set over `n` nodes.
fn unmarked(n: usize) -> (r: Vec<bool>)
    ensures
        r@.len() == n,
        marked(r@) == Set::<int>::empty(),
        r@ == Seq::new(n as nat, |i: int| false),
        count_unset(r@) <= n,
{
    let mut r: Vec<bool> = Vec::new();
    for k in 0..n
        invariant
            r@.len() == k,
            forall|j: int| 0 <= j < k ==> !#[trigger] r@[j],
    {
        r.push(false);
    }
    assert(marked(r@) =~= Set::<int>::empty());
    assert(r@ =~= Seq::new(n as nat, |i: int| false));
    proof {
        lemma_count_unset_len(r@);
    }
    r
}

proof fn lemma_count_unset_len(s: Seq<bool>)
    ensures
        count_unset(s) <= s.len(),
    decreases s.len(),
{
    if s.len() > 0 {
        lemma_count_unset_len(s.drop_last());
    }
}

/// Filtering by two tests that agree on the listed rows keeps the same rows.
proof fn lemma_kept_agree(o: Seq<usize>, k1: spec_fn(int) -> bool, k2: spec_fn(int) -> bool)
    requires
        forall|j: int| 0 <= j < o.len() ==> k1(#[trigger] o[j] as int) == k2(o[j] as int),
    ensures
        kept_in(o, k1) == kept_in(o, k2),
    decreases o.len(),
{
    if o.len() > 0 {
        assert(k1(o[o.len() - 1] as int) == k2(o[o.len() - 1] as int));
        lemma_kept_agree(o.drop_last(), k1, k2);
    }
}

/// Every entry of `v` whose row resolves has a reward tier, given the same
/// of every entry of `w` and that each entry of `v` is one of `w`'s.
proof fn lemma_rewards_ok_sub(ts: Seq<ResolvedTalent>, v: Seq<(Seq<char>, i64)>, w: Seq<(Seq<char>, i64)>)
    requires
        rewards_ok(ts, w),
        forall|q: int|
            #![trigger v[q]]
            0 <= q < v.len() ==> exists|p: int| 0 <= p < w.len() && #[trigger] w[p].0 == v[q].0,
    ensures
        rewards_ok(ts, v),
{
    assert forall|k: int| 0 <= k < v.len() && #[trigger] find_last(ts, v[k].0) is Some implies ts[find_last(
        ts,
        v[k].0,
    ).unwrap()].rewards@.len() >= 1 by {
        let p = choose|p: int| 0 <= p < w.len() && #[trigger] w[p].0 == v[k].0;
        assert(find_last(ts, w[p].0) is Some);
    }
}

/// Setting a rank keeps every entry's row name.
proof fn lemma_with_rank_names(v: Seq<(Seq<char>, i64)>, n: Seq<char>, rank: i64)
    ensures
        with_rank(v, n, rank).len() == v.len(),
        forall|q: int| 0 <= q < v.len() ==> #[trigger] with_rank(v, n, rank)[q].0 == v[q].0,
{
    lemma_first_with(v, n);
}

/// What a save's talent list becomes when `name` is unlocked with its
/// prerequisites: the old list, then one rank-1 entry for each row the
/// prerequisite walk from `name` reaches that the save stores and that is
/// neither granted by default nor already held, in some visiting order.
pub open spec fn unlocked_with_prereqs(
    ts: Seq<ResolvedTalent>,
    st: spec_fn(Category) -> bool,
    held: Seq<(Seq<char>, i64)>,
    seeds: Set<int>,
    after: Seq<(Seq<char>, i64)>,
) -> bool {
    exists|o: Seq<usize>|
        #[trigger] lists_exactly(o, prereq_closure(ts, st, held, seeds, Set::empty())) && after == held
            + additions(ts, st, held, o)
}

/// What a save's talent list becomes when `name` is locked with everything
/// that depends on it: `name` is removed, then every stored row the
/// dependents walk from `name` reaches.
pub open spec fn locked_with_dependents(
    ts: Seq<ResolvedTalent>,
    st: spec_fn(Category) -> bool,
    held: Seq<(Seq<char>, i64)>,
    name: Seq<char>,
) -> Seq<(Seq<char>, i64)> {
    let h1 = without(held, name);
    without_names(h1, stored_names(ts, st, dependents_closure(ts, st, h1, dep_nodes(ts, name), Set::empty())))
}

/// Every row an unlock walk from `seeds` would add has a reward tier.
pub open spec fn unlock_rewards_ok(
    ts: Seq<ResolvedTalent>,
    st: spec_fn(Category) -> bool,
    held: Seq<(Seq<char>, i64)>,
    seeds: Set<int>,
) -> bool {
    forall|i: int|
        #[trigger] prereq_closure(ts, st, held, seeds, Set::empty()).contains(i) && st(ts[i].category)
            && !ts[i].default_unlocked ==> ts[i].rewards@.len() >= 1
}

/// Unlocks or locks `name`, cascading through the dependency graph, then
/// resyncs the talent-granted flags. An unlock appends the rows it adds in
/// the order the prerequisite walk visits them (`prereq_order`), at rank 1.
pub fn set_talent_cascading<T: FlagOwner>(owner: &mut T, catalog: &Catalog, name: &str, unlocked: bool)
    requires
        catalog.wf(),
        unlocked ==> rewards_ok(catalog.rows(), old(owner).talents_view()),
        !unlocked ==> rewards_ok(
            catalog.rows(),
            locked_with_dependents(catalog.rows(), storable_fn::<T>(), old(owner).talents_view(), name@),
        ),
        unlocked ==> unlock_rewards_ok(
            catalog.rows(),
            storable_fn::<T>(),
            old(owner).talents_view(),
            node_of(catalog.rows(), name@),
        ),
    ensures
        unlocked ==> unlocked_with_prereqs(
            catalog.rows(),
            storable_fn::<T>(),
            old(owner).talents_view(),
            node_of(catalog.rows(), name@),
            final(owner).talents_view(),
        ),
        unlocked ==> final(owner).talents_view() == old(owner).talents_view() + additions(
            catalog.rows(),
            storable_fn::<T>(),
            old(owner).talents_view(),
            prereq_order(catalog.rows(), storable_fn::<T>(), old(owner).talents_view(), seq![name@]),
        ),
        !unlocked ==> final(owner).talents_view() == locked_with_dependents(
            catalog.rows(),
            storable_fn::<T>(),
            old(owner).talents_view(),
            name@,
        ),
        !unlocked ==> dependents_closure(
            catalog.rows(),
            storable_fn::<T>(),
            final(owner).talents_view(),
            dep_nodes(catalog.rows(), name@),
            Set::empty(),
        ).filter(held_stored(catalog.rows(), storable_fn::<T>(), final(owner).talents_view()))
            == Set::<int>::empty(),
        unlocked ==> forall|t: int, i: int|
            is_node(catalog.rows(), t) && catalog.rows()[t].name@ == name@ && !catalog.rows()[t].default_unlocked
                && storable_fn::<T>()(catalog.rows()[t].category) && !holds(old(owner).talents_view(), name@)
                && #[trigger] closure(
                req_nodes(catalog.rows(), t),
                Set::empty(),
                transparent(catalog.rows(), storable_fn::<T>()),
                prereq_succ(catalog.rows()),
            ).contains(i) ==> met(catalog.rows(), storable_fn::<T>(), final(owner).talents_view())(i),
        synced(
            old(owner).flags_view(),
            final(owner).flags_view(),
            flag_universe(catalog.rows(), |n: Seq<char>| T::spec_flag_index(catalog, n)),
            desired_flags(
                catalog.rows(),
                |n: Seq<char>| T::spec_flag_index(catalog, n),
                final(owner).talents_view(),
            ),
        ),
        old(owner).same_rest(*final(owner)),
{
    let ghost ts = catalog.rows();
    let ghost st = storable_fn::<T>();
    let ghost held0 = owner.talents_view();
    let ghost o0 = *owner;
    let mut visited = unmarked(catalog.len());
    if unlocked {
        let ghost fresh = visited@;
        unlock_with_deps(owner, catalog, name, &mut visited);
        proof {
            let w = prereq_walk(ts, st, held0, name@, fresh, ts.len());
            assert(owner.talents_view() == held0 + additions(ts, st, held0, w.1));
            let names = seq![name@];
            assert(names[0] == name@);
            let l0 = prereq_walk_list(ts, st, held0, names, 0, fresh, ts.len());
            assert(l0 == (fresh, Seq::<usize>::empty()));
            assert(prereq_walk_list(ts, st, held0, names, 1, fresh, ts.len()).1 =~= w.1);
            assert(fresh == Seq::new(ts.len(), |i: int| false));
            let d = prereq_closure(ts, st, held0, node_of(ts, name@), Set::empty());
            let o = choose|o: Seq<usize>|
                #[trigger] lists_exactly(o, d) && owner.talents_view() == held0 + additions(ts, st, held0, o);
            lemma_additions_names(ts, st, held0, o);
            let adds = additions(ts, st, held0, o);
            assert forall|k: int|
                0 <= k < owner.talents_view().len() && #[trigger] find_last(ts, owner.talents_view()[k].0) is Some
                    implies ts[find_last(ts, owner.talents_view()[k].0).unwrap()].rewards@.len() >= 1 by {
                let v = owner.talents_view();
                if k < held0.len() {
                    assert(v[k] == held0[k]);
                } else {
                    assert(v[k] == adds[k - held0.len()]);
                    let p = choose|p: int|
                        0 <= p < o.len() && #[trigger] adds[k - held0.len()].0 == ts[o[p] as int].name@
                            && !ts[o[p] as int].default_unlocked && st(ts[o[p] as int].category);
                    assert(d.contains(o[p] as int));
                    lemma_nodes_closed(ts);
                    lemma_closure_nodes(ts, node_of(ts, name@), Set::empty(), prereq_expands(ts, st, held0), prereq_succ(ts));
                }
            }
        }
    } else {
        lock_cascade(owner, catalog, name);
    }
    let ghost o1 = *owner;
    sync_granted_flags(owner, catalog);
    proof {
        T::lemma_same_rest_trans(o0, o1, *owner);
        if unlocked {
            assert forall|t: int, i: int|
                is_node(ts, t) && ts[t].name@ == name@ && !ts[t].default_unlocked && st(ts[t].category) && !holds(
                    held0,
                    name@,
                ) && #[trigger] closure(req_nodes(ts, t), Set::empty(), transparent(ts, st), prereq_succ(ts)).contains(
                    i,
                ) implies met(ts, st, owner.talents_view())(i) by {
                crate::unlock_laws::law_cascade_unlock_meets_requirements(ts, st, held0, t, owner.talents_view());
            }
        } else {
            crate::unlock_laws::law_cascade_lock_leaves_no_dependents(ts, st, held0, name@);
        }
    }
}

/// Locks `name` and every stored row that depends on it, leaving the flags
/// as they are.
fn lock_cascade<T: TalentOwner>(owner: &mut T, catalog: &Catalog, name: &str)
    requires
        catalog.wf(),
    ensures
        final(owner).talents_view() == locked_with_dependents(
            catalog.rows(),
            storable_fn::<T>(),
            old(owner).talents_view(),
            name@,
        ),
        final(owner).flags_view() == old(owner).flags_view(),
        old(owner).same_rest(*final(owner)),
{
    let mut visited = unmarked(catalog.len());
    owner.set_talent(name, false);
    let ghost o1 = *owner;
    remove_dependents(owner, catalog, name, &mut visited);
    proof {
        T::lemma_same_rest_trans(*old(owner), o1, *owner);
    }
}

/// Whether locking `name` with its dependents meets
/// `set_talent_cascading`'s demand that every row left has a reward tier.
pub fn lock_ready<T: TalentOwner>(owner: &T, catalog: &Catalog, name: &str) -> (r: bool)
    requires
        catalog.wf(),
    ensures
        r == rewards_ok(
            catalog.rows(),
            locked_with_dependents(catalog.rows(), storable_fn::<T>(), owner.talents_view(), name@),
        ),
{
    let mut shadow = Shadow::<T>::of(owner);
    lock_cascade(&mut shadow, catalog, name);
    proof {
        lemma_shadow_storable::<T>();
    }
    rewards_ready(&shadow, catalog)
}

/// Unlocks or locks `name` alone, with no cascade, then resyncs the flags.
pub fn set_talent_only<T: FlagOwner>(owner: &mut T, catalog: &Catalog, name: &str, unlocked: bool)
    requires
        catalog.wf(),
        rewards_ok(catalog.rows(), after_set(old(owner).talents_view(), name@, unlocked)),
    ensures
        final(owner).talents_view() == after_set(old(owner).talents_view(), name@, unlocked),
        synced(
            old(owner).flags_view(),
            final(owner).flags_view(),
            flag_universe(catalog.rows(), |n: Seq<char>| T::spec_flag_index(catalog, n)),
            desired_flags(
                catalog.rows(),
                |n: Seq<char>| T::spec_flag_index(catalog, n),
                final(owner).talents_view(),
            ),
        ),
        old(owner).same_rest(*final(owner)),
{
    owner.set_talent(name, unlocked);
    let ghost o1 = *owner;
    sync_granted_flags(owner, catalog);
    proof {
        T::lemma_same_rest_trans(*old(owner), o1, *owner);
    }
}

/// Changes a talent's rank, then resyncs the flags (higher ranks can grant
/// more flags).
pub fn set_talent_rank_synced<T: FlagOwner>(owner: &mut T, catalog: &Catalog, name: &str, rank: i64)
    requires
        catalog.wf(),
        rewards_ok(catalog.rows(), old(owner).talents_view()),
    ensures
        final(owner).talents_view() == with_rank(old(owner).talents_view(), name@, rank),
        synced(
            old(owner).flags_view(),
            final(owner).flags_view(),
            flag_universe(catalog.rows(), |n: Seq<char>| T::spec_flag_index(catalog, n)),
            desired_flags(
                catalog.rows(),
                |n: Seq<char>| T::spec_flag_index(catalog, n),
                final(owner).talents_view(),
            ),
        ),
        old(owner).same_rest(*final(owner)),
{
    let ghost held0 = owner.talents_view();
    owner.set_talent_rank(name, rank);
    proof {
        lemma_with_rank_names(held0, name@, rank);
        assert forall|q: int| #![trigger owner.talents_view()[q]] 0 <= q < owner.talents_view().len() implies exists|p: int|
            0 <= p < held0.len() && #[trigger] held0[p].0 == owner.talents_view()[q].0 by {
            assert(held0[q].0 == owner.talents_view()[q].0);
        }
        lemma_rewards_ok_sub(catalog.rows(), owner.talents_view(), held0);
    }
    let ghost o1 = *owner;
    sync_granted_flags(owner, catalog);
    proof {
        T::lemma_same_rest_trans(*old(owner), o1, *owner);
    }
}

/// The members of `d` listed in `o`, in `o`'s order, that satisfy `keep`.
pub open spec fn kept_in(o: Seq<usize>, keep: spec_fn(int) -> bool) -> Seq<usize>
    decreases o.len(),
{
    if o.len() == 0 {
        o
    } else if keep(o.last() as int) {
        kept_in(o.drop_last(), keep).push(o.last())
    } else {
        kept_in(o.drop_last(), keep)
    }
}

proof fn lemma_kept_lists(o: Seq<usize>, d: Set<int>, keep: spec_fn(int) -> bool)
    requires
        lists_exactly(o, d),
    ensures
        lists_exactly(kept_in(o, keep), d.filter(keep)),
    decreases o.len(),
{
    if o.len() > 0 {
        let p = o.drop_last();
        let x = o.last() as int;
        let dp = d.remove(x);
        assert forall|k: int| 0 <= k < p.len() implies dp.contains(#[trigger] p[k] as int) by {
            assert(o[k] == p[k]);
            assert(o[k] != o[o.len() - 1]);
        }
        assert forall|n: int| dp.contains(n) implies exists|k: int| 0 <= k < p.len() && #[trigger] p[k] as int == n by {
            let k = choose|k: int| 0 <= k < o.len() && #[trigger] o[k] as int == n;
            assert(k != o.len() - 1);
            assert(p[k] == o[k]);
        }
        assert forall|k1: int, k2: int| 0 <= k1 < k2 < p.len() implies #[trigger] p[k1] != #[trigger] p[k2] by {
            assert(p[k1] == o[k1] && p[k2] == o[k2]);
        }
        lemma_kept_lists(p, dp, keep);
        let kp = kept_in(p, keep);
        if keep(x) {
            assert(d.filter(keep) =~= dp.filter(keep).insert(x));
            lemma_lists_single(o.last());
            assert(x == o.last() as int);
            assert(dp.filter(keep).disjoint(set![x]));
            lemma_lists_concat(kp, seq![o.last()], dp.filter(keep), set![x]);
            assert(kp + seq![o.last()] =~= kp.push(o.last()));
            assert(dp.filter(keep).union(set![x]) =~= d.filter(keep));
        } else {
            assert(d.filter(keep) =~= dp.filter(keep));
        }
    }
}

/// Keeps the entries of `o` that satisfy `keep`, in order.
fn keep_listed(o: &Vec<usize>, keep: &Vec<bool>) -> (r: Vec<usize>)
    requires
        forall|k: int| 0 <= k < o@.len() ==> (#[trigger] o@[k] as int) < keep@.len(),
    ensures
        r@ == kept_in(o@, |i: int| keep@[i]),
{
    let mut r: Vec<usize> = Vec::new();
    let n = o.len();
    for k in 0..n
        invariant
            n == o@.len(),
            forall|j: int| 0 <= j < o@.len() ==> (#[trigger] o@[j] as int) < keep@.len(),
            r@ == kept_in(o@.take(k as int), |i: int| keep@[i]),
    {
        assert(o@.take(k + 1).drop_last() =~= o@.take(k as int));
        assert(o@[k as int] < keep@.len());
        if keep[o[k]] {
            r.push(o[k]);
        }
    }
    assert(o@.take(n as int) =~= o@);
    r
}

/// Whether a locked storable row blocks: not granted by default, stored by
/// this kind of save, and not held.
pub open spec fn locked_stored(
    ts: Seq<ResolvedTalent>,
    st: spec_fn(Category) -> bool,
    held: Seq<(Seq<char>, i64)>,
) -> spec_fn(int) -> bool {
    |i: int| !ts[i].default_unlocked && st(ts[i].category) && !holds(held, ts[i].name@)
}

/// For each node, whether it satisfies `pred` over the current owner:
/// whether it is a stored, non-default row the owner lacks.
fn locked_stored_flags<T: TalentOwner>(owner: &T, catalog: &Catalog) -> (r: Vec<bool>)
    ensures
        r@.len() == catalog.rows().len(),
        forall|i: int|
            0 <= i < r@.len() ==> #[trigger] r@[i] == locked_stored(
                catalog.rows(),
                storable_fn::<T>(),
                owner.talents_view(),
            )(i),
{
    let mut r: Vec<bool> = Vec::new();
    let n = catalog.len();
    for i in 0..n
        invariant
            n == catalog.rows().len(),
            r@.len() == i,
            forall|j: int|
                0 <= j < i ==> #[trigger] r@[j] == locked_stored(
                    catalog.rows(),
                    storable_fn::<T>(),
                    owner.talents_view(),
                )(j),
    {
        let t = catalog.talent(i);
        r.push(!t.default_unlocked && T::storable(t.category) && !owner.has_talent(t.name.as_str()));
    }
    r
}

/// Whether a node is a stored row the owner holds.
pub open spec fn held_stored(
    ts: Seq<ResolvedTalent>,
    st: spec_fn(Category) -> bool,
    held: Seq<(Seq<char>, i64)>,
) -> spec_fn(int) -> bool {
    |i: int| st(ts[i].category) && holds(held, ts[i].name@)
}

fn held_stored_flags<T: TalentOwner>(owner: &T, catalog: &Catalog) -> (r: Vec<bool>)
    ensures
        r@.len() == catalog.rows().len(),
        forall|i: int|
            0 <= i < r@.len() ==> #[trigger] r@[i] == held_stored(
                catalog.rows(),
                storable_fn::<T>(),
                owner.talents_view(),
            )(i),
{
    let mut r: Vec<bool> = Vec::new();
    let n = catalog.len();
    for i in 0..n
        invariant
            n == catalog.rows().len(),
            r@.len() == i,
            forall|j: int|
                0 <= j < i ==> #[trigger] r@[j] == held_stored(
                    catalog.rows(),
                    storable_fn::<T>(),
                    owner.talents_view(),
                )(j),
    {
        let t = catalog.talent(i);
        r.push(T::storable(t.category) && owner.has_talent(t.name.as_str()));
    }
    r
}

/// Walks the prerequisites named in `reqs`, sharing one visited set.
fn prereq_visit_all<T: TalentOwner>(
    owner: &T,
    catalog: &Catalog,
    reqs: &Vec<String>,
    visited: &mut Vec<bool>,
    order: &mut Vec<usize>,
)
    requires
        catalog.wf(),
        old(visited)@.len() == catalog.rows().len(),
    ensures
        grows(old(visited)@, final(visited)@),
        newly_marked(old(visited)@, final(visited)@) == prereq_closure(
            catalog.rows(),
            storable_fn::<T>(),
            owner.talents_view(),
            nodes_of(catalog.rows(), reqs@),
            marked(old(visited)@),
        ),
        extends_listing(old(order)@, final(order)@, newly_marked(old(visited)@, final(visited)@)),
        forall|f: nat|
            f >= count_unset(old(visited)@) ==> #[trigger] prereq_walk_list(
                catalog.rows(),
                storable_fn::<T>(),
                owner.talents_view(),
                name_views(reqs@),
                reqs@.len(),
                old(visited)@,
                f,
            ) == (final(visited)@, final(order)@.skip(old(order)@.len() as int)),
{
    let ghost ts = catalog.rows();
    let ghost st = storable_fn::<T>();
    let ghost e = prereq_expands(ts, st, owner.talents_view());
    let ghost sc = prereq_succ(ts);
    let ghost v0 = visited@;
    let ghost o0 = order@;
    let m = reqs.len();
    proof {
        assert(reqs@.take(0) =~= Seq::<String>::empty());
        assert(nodes_of(ts, reqs@.take(0)) =~= Set::<int>::empty());
        lemma_closure_empty(marked(v0), e, sc);
        assert(newly_marked(v0, visited@) =~= Set::<int>::empty());
        assert(order@.subrange(o0.len() as int, order@.len() as int) =~= Seq::<usize>::empty());
        assert(order@.subrange(0, o0.len() as int) =~= o0);
        assert(order@.skip(o0.len() as int) =~= Seq::<usize>::empty());
    }
    let ghost names = name_views(reqs@);
    let mut k: usize = 0;
    while k < m
        invariant
            k <= m,
            names == name_views(reqs@),
            forall|f: nat|
                f >= count_unset(v0) ==> #[trigger] prereq_walk_list(
                    ts,
                    st,
                    owner.talents_view(),
                    names,
                    k as nat,
                    v0,
                    f,
                ) == (visited@, order@.skip(o0.len() as int)),
            catalog.wf(),
            ts == catalog.rows(),
            e == prereq_expands(ts, st, owner.talents_view()),
            st == storable_fn::<T>(),
            sc == prereq_succ(ts),
            m == reqs@.len(),
            v0 == old(visited)@,
            v0.len() == ts.len(),
            grows(v0, visited@),
            newly_marked(v0, visited@) == closure(nodes_of(ts, reqs@.take(k as int)), marked(v0), e, sc),
            extends_listing(o0, order@, newly_marked(v0, visited@)),
        decreases m - k,
    {
        let ghost vc = visited@;
        let ghost oc = order@;
        prereq_visit(owner, catalog, reqs[k].as_str(), visited, order);
        proof {
            lemma_newly_marked_trans(v0, vc, visited@);
            lemma_nodes_of_step(ts, reqs@, k as int);
            lemma_closure_union(nodes_of(ts, reqs@.take(k as int)), node_of(ts, reqs@[k as int]@), marked(v0), e, sc);
            lemma_extends_trans(o0, oc, order@, newly_marked(v0, vc), newly_marked(vc, visited@));
            assert forall|j: int| 0 <= j < v0.len() && #[trigger] v0[j] implies visited@[j] by {
                assert(vc[j]);
            }
            lemma_count_unset(v0, vc, -1);
            assert(names[k as int] == reqs@[k as int]@);
        }
        let ghost kn: nat = (k + 1) as nat;
        proof {
            assert forall|f: nat| f >= count_unset(v0) implies #[trigger] prereq_walk_list(
                ts,
                st,
                owner.talents_view(),
                names,
                kn,
                v0,
                f,
            ) == (visited@, order@.skip(o0.len() as int)) by {
                let a = prereq_walk_list(ts, st, owner.talents_view(), names, k as nat, v0, f);
                assert(a == (vc, oc.skip(o0.len() as int)));
                assert(prereq_walk(ts, st, owner.talents_view(), names[k as int], vc, f) == (
                    visited@,
                    order@.skip(oc.len() as int),
                ));
                assert(oc.skip(o0.len() as int) + order@.skip(oc.len() as int) =~= order@.skip(o0.len() as int));
            }
        }
        k = k + 1;
        assert(k as nat == kn);
    }
    proof {
        assert(reqs@.take(m as int) =~= reqs@);
    }
}

/// Every storable prerequisite of `talent` (transitively, looking through
/// rows the save does not store) that is neither held nor granted by
/// default, in the order the walk visits them (`prereq_order`). Empty
/// means the talent can be unlocked without touching anything else.
pub fn locked_prerequisites<T: TalentOwner>(owner: &T, catalog: &Catalog, talent: usize) -> (r: Vec<usize>)
    requires
        catalog.wf(),
        talent < catalog.rows().len(),
    ensures
        lists_exactly(
            r@,
            prereq_closure(
                catalog.rows(),
                storable_fn::<T>(),
                owner.talents_view(),
                req_nodes(catalog.rows(), talent as int),
                Set::empty(),
            ).filter(
                locked_stored(catalog.rows(), storable_fn::<T>(), owner.talents_view()),
            ),
        ),
        r@ == kept_in(
            prereq_order(
                catalog.rows(),
                storable_fn::<T>(),
                owner.talents_view(),
                name_views(catalog.rows()[talent as int].required_talents@),
            ),
            locked_stored(catalog.rows(), storable_fn::<T>(), owner.talents_view()),
        ),
{
    let mut visited = unmarked(catalog.len());
    let mut order: Vec<usize> = Vec::new();
    let t = catalog.talent(talent);
    prereq_visit_all(owner, catalog, &t.required_talents, &mut visited, &mut order);
    let keep = locked_stored_flags(owner, catalog);
    proof {
        let ts = catalog.rows();
        let st = storable_fn::<T>();
        let d = prereq_closure(ts, st, owner.talents_view(), req_nodes(ts, talent as int), Set::empty());
        assert(order@.subrange(0, order@.len() as int) =~= order@);
        lemma_nodes_closed(ts);
        lemma_closure_nodes(ts, req_nodes(ts, talent as int), Set::empty(), prereq_expands(ts, st, owner.talents_view()), prereq_succ(ts));
        assert forall|k: int| 0 <= k < order@.len() implies (#[trigger] order@[k] as int) < keep@.len() by {
            assert(d.contains(order@[k] as int));
        }
        let lk = locked_stored(ts, st, owner.talents_view());
        lemma_kept_lists(order@, d, |i: int| keep@[i]);
        assert(d.filter(|i: int| keep@[i]) =~= d.filter(lk));
        let names = name_views(t.required_talents@);
        assert(prereq_walk_list(ts, st, owner.talents_view(), names, names.len(), Seq::new(ts.len(), |i: int| false), ts.len())
            == (visited@, order@.skip(0)));
        assert(order@.skip(0) =~= order@);
        lemma_kept_agree(order@, |i: int| keep@[i], lk);
    }
    keep_listed(&order, &keep)
}

/// Every held storable row that (transitively, looking through rows the
/// save does not store) requires `name`, in the order the walk visits
/// them (`dependents_order`). Empty means locking `name` strands nothing.
pub fn unlocked_dependents<T: TalentOwner>(owner: &T, catalog: &Catalog, name: &str) -> (r: Vec<usize>)
    requires
        catalog.wf(),
    ensures
        lists_exactly(
            r@,
            dependents_closure(
                catalog.rows(),
                storable_fn::<T>(),
                owner.talents_view(),
                dep_nodes(catalog.rows(), name@),
                Set::empty(),
            ).filter(held_stored(catalog.rows(), storable_fn::<T>(), owner.talents_view())),
        ),
        r@ == kept_in(
            dependents_order(catalog.rows(), storable_fn::<T>(), owner.talents_view(), name@),
            held_stored(catalog.rows(), storable_fn::<T>(), owner.talents_view()),
        ),
{
    let mut visited = unmarked(catalog.len());
    let mut order: Vec<usize> = Vec::new();
    dependents_visit(owner, catalog, name, &mut visited, &mut order);
    let keep = held_stored_flags(owner, catalog);
    proof {
        let ts = catalog.rows();
        let st = storable_fn::<T>();
        let d = dependents_closure(ts, st, owner.talents_view(), dep_nodes(ts, name@), Set::empty());
        assert(order@.subrange(0, order@.len() as int) =~= order@);
        lemma_nodes_closed(ts);
        lemma_closure_nodes(ts, dep_nodes(ts, name@), Set::empty(), dependents_expands(ts, st, owner.talents_view()), dependents_succ(ts));
        assert forall|k: int| 0 <= k < order@.len() implies (#[trigger] order@[k] as int) < keep@.len() by {
            assert(d.contains(order@[k] as int));
        }
        lemma_kept_lists(order@, d, |i: int| keep@[i]);
        assert(d.filter(|i: int| keep@[i]) =~= d.filter(held_stored(ts, st, owner.talents_view())));
        let deps = dep_list(ts, name@, ts.len() as int);
        assert(dependents_walk(ts, st, owner.talents_view(), deps, deps.len(), Seq::new(ts.len(), |i: int| false), ts.len())
            == (visited@, order@.skip(0)));
        assert(order@.skip(0) =~= order@);
        lemma_kept_agree(order@, |i: int| keep@[i], held_stored(ts, st, owner.talents_view()));
    }
    keep_listed(&order, &keep)
}

/// Whether the requirement walk looks through node `i`: a row neither
/// granted by default nor stored by this kind of save.
pub open spec fn transparent(ts: Seq<ResolvedTalent>, st: spec_fn(Category) -> bool) -> spec_fn(int) -> bool {
    |i: int| is_node(ts, i) && !ts[i].default_unlocked && !st(ts[i].category)
}

/// Whether node `i` counts as met: granted by default, not stored by this
/// kind of save, or held.
pub open spec fn met(
    ts: Seq<ResolvedTalent>,
    st: spec_fn(Category) -> bool,
    held: Seq<(Seq<char>, i64)>,
) -> spec_fn(int) -> bool {
    |i: int| ts[i].default_unlocked || !st(ts[i].category) || holds(held, ts[i].name@)
}

/// Checks the requirement `name`: true when every row the walk reaches
/// from it is met. Stops at the first row that is not.
fn dep_satisfied<T: TalentOwner>(owner: &T, catalog: &Catalog, name: &str, visited: &mut Vec<bool>) -> (r: bool)
    requires
        catalog.wf(),
        old(visited)@.len() == catalog.rows().len(),
    ensures
        grows(old(visited)@, final(visited)@),
        r ==> newly_marked(old(visited)@, final(visited)@) == closure(
            node_of(catalog.rows(), name@),
            marked(old(visited)@),
            transparent(catalog.rows(), storable_fn::<T>()),
            prereq_succ(catalog.rows()),
        ),
        r ==> forall|i: int|
            #[trigger] newly_marked(old(visited)@, final(visited)@).contains(i) ==> met(
                catalog.rows(),
                storable_fn::<T>(),
                owner.talents_view(),
            )(i),
        !r ==> exists|i: int|
            #[trigger] closure(
                node_of(catalog.rows(), name@),
                marked(old(visited)@),
                transparent(catalog.rows(), storable_fn::<T>()),
                prereq_succ(catalog.rows()),
            ).contains(i) && !met(catalog.rows(), storable_fn::<T>(), owner.talents_view())(i),
    decreases count_unset(old(visited)@),
{
    let ghost ts = catalog.rows();
    let ghost st = storable_fn::<T>();
    let ghost e = transparent(ts, st);
    let ghost ok = met(ts, st, owner.talents_view());
    let ghost sc = prereq_succ(ts);
    let ghost v0 = visited@;
    proof {
        lemma_find_last(ts, name@);
    }
    match catalog.lookup(name) {
        None => {
            proof {
                assert(node_of(ts, name@) =~= Set::<int>::empty());
                lemma_closure_empty(marked(v0), e, sc);
                assert(newly_marked(v0, visited@) =~= Set::<int>::empty());
            }
            true
        },
        Some(i) => {
            if visited[i] {
                proof {
                    assert(node_of(ts, name@) == set![i as int]);
                    assert(marked(v0).contains(i as int));
                    lemma_closure_single_avoided(i as int, marked(v0), e, sc);
                    assert(newly_marked(v0, visited@) =~= Set::<int>::empty());
                }
                return true;
            }
            visited.set(i, true);
            let ghost v1 = visited@;
            proof {
                assert(grows(v0, v1));
                assert(node_of(ts, name@) == set![i as int]);
                assert(is_node(ts, i as int));
                assert(newly_marked(v0, v1) =~= set![i as int]);
                lemma_count_unset(v0, v1, i as int);
                assert(!marked(v0).contains(i as int));
                lemma_closure_single(i as int, marked(v0), e, sc);
            }
            let t = catalog.talent(i);
            if t.default_unlocked {
                return true;
            }
            if T::storable(t.category) {
                let h = owner.has_talent(t.name.as_str());
                proof {
                    assert(!e(i as int));
                    assert(h == ok(i as int));
                    assert(closure(set![i as int], marked(v0), e, sc).contains(i as int));
                }
                return h;
            }
            proof {
                assert(e(i as int));
            }
            let ghost reqs = t.required_talents@;
            let m = t.required_talents.len();
            proof {
                assert(reqs.take(0) =~= Seq::<String>::empty());
                assert(nodes_of(ts, reqs.take(0)) =~= Set::<int>::empty());
                lemma_closure_empty(marked(v1), e, sc);
                assert(newly_marked(v1, visited@) =~= Set::<int>::empty());
            }
            for k in 0..m
                invariant
                    catalog.wf(),
                    ts == catalog.rows(),
                    e == transparent(ts, st),
                    ok == met(ts, st, owner.talents_view()),
                    st == storable_fn::<T>(),
                    sc == prereq_succ(ts),
                    m == reqs.len(),
                    i < ts.len(),
                    *t == ts[i as int],
                    reqs == t.required_talents@,
                    e(i as int),
                    ok(i as int),
                    node_of(ts, name@) == set![i as int],
                    v0 == old(visited)@,
                    grows(v0, v1),
                    grows(v1, visited@),
                    v1.len() == ts.len(),
                    marked(v1) == marked(v0).insert(i as int),
                    closure(set![i as int], marked(v0), e, sc) == set![i as int].union(
                        closure(sc(i as int), marked(v0).insert(i as int), e, sc),
                    ),
                    count_unset(visited@) < count_unset(v0),
                    newly_marked(v1, visited@) == closure(nodes_of(ts, reqs.take(k as int)), marked(v1), e, sc),
                    forall|j: int| #[trigger] newly_marked(v1, visited@).contains(j) ==> ok(j),
            {
                let ghost vc = visited@;
                assert(count_unset(vc) < count_unset(v0));
                let sat = dep_satisfied(owner, catalog, t.required_talents[k].as_str(), visited);
                proof {
                    lemma_newly_marked_trans(v1, vc, visited@);
                    lemma_count_unset(vc, visited@, -1);
                    lemma_nodes_of_step(ts, reqs, k as int);
                    lemma_closure_union(
                        nodes_of(ts, reqs.take(k as int)),
                        node_of(ts, reqs[k as int]@),
                        marked(v1),
                        e,
                        sc,
                    );
                }
                if !sat {
                    proof {
                        let child = closure(node_of(ts, reqs[k as int]@), marked(vc), e, sc);
                        let bad = choose|b: int| #[trigger] child.contains(b) && !ok(b);
                        assert(reqs.take(m as int) =~= reqs);
                        assert(nodes_of(ts, reqs) == req_nodes(ts, i as int));
                        lemma_nodes_of_sub(ts, reqs, k + 1);
                        lemma_closure_mono(nodes_of(ts, reqs.take(k + 1)), req_nodes(ts, i as int), marked(v1), e, sc);
                        assert(closure(set![i as int], marked(v0), e, sc).contains(bad));
                        assert forall|j: int| 0 <= j < v0.len() && #[trigger] v0[j] implies visited@[j] by {
                            assert(v1[j]);
                        }
                    }
                    return false;
                }
            }
            proof {
                assert(reqs.take(m as int) =~= reqs);
                assert(nodes_of(ts, reqs) == req_nodes(ts, i as int));
                lemma_newly_marked_trans(v0, v1, visited@);
                assert forall|j: int| 0 <= j < v0.len() && #[trigger] v0[j] implies visited@[j] by {
                    assert(v1[j]);
                }
            }
            true
        },
    }
}

/// Resolving a prefix of a name list gives a subset of resolving all of it.
proof fn lemma_nodes_of_sub(ts: Seq<ResolvedTalent>, names: Seq<String>, k: int)
    requires
        0 <= k <= names.len(),
    ensures
        nodes_of(ts, names.take(k)).subset_of(nodes_of(ts, names)),
{
    assert forall|j: int| nodes_of(ts, names.take(k)).contains(j) implies nodes_of(ts, names).contains(j) by {
        let q = choose|q: int| 0 <= q < k && find_last(ts, #[trigger] names.take(k)[q]@) == Some(j);
        assert(names.take(k)[q] == names[q]);
    }
}

/// Whether all of a talent's requirements are met: every row the walk
/// reaches from its requirements, looking through rows the save does not
/// store, is granted by default, not stored, or held.
pub fn requirements_met<T: TalentOwner>(owner: &T, catalog: &Catalog, talent: usize) -> (r: bool)
    requires
        catalog.wf(),
        talent < catalog.rows().len(),
    ensures
        r == forall|i: int|
            #[trigger] closure(
                req_nodes(catalog.rows(), talent as int),
                Set::empty(),
                transparent(catalog.rows(), storable_fn::<T>()),
                prereq_succ(catalog.rows()),
            ).contains(i) ==> met(catalog.rows(), storable_fn::<T>(), owner.talents_view())(
                i,
            ),
{
    let ghost ts = catalog.rows();
    let ghost st = storable_fn::<T>();
    let ghost e = transparent(ts, st);
    let ghost ok = met(ts, st, owner.talents_view());
    let ghost sc = prereq_succ(ts);
    let mut visited = unmarked(catalog.len());
    let ghost v0 = visited@;
    let t = catalog.talent(talent);
    let ghost reqs = t.required_talents@;
    let m = t.required_talents.len();
    proof {
        assert(reqs.take(0) =~= Seq::<String>::empty());
        assert(nodes_of(ts, reqs.take(0)) =~= Set::<int>::empty());
        lemma_closure_empty(marked(v0), e, sc);
        assert(newly_marked(v0, visited@) =~= Set::<int>::empty());
        assert(reqs.take(m as int) =~= reqs);
        assert(nodes_of(ts, reqs) == req_nodes(ts, talent as int));
    }
    for k in 0..m
        invariant
            catalog.wf(),
            ts == catalog.rows(),
            e == transparent(ts, st),
            ok == met(ts, st, owner.talents_view()),
            st == storable_fn::<T>(),
            sc == prereq_succ(ts),
            m == reqs.len(),
            *t == ts[talent as int],
            reqs == t.required_talents@,
            nodes_of(ts, reqs) == req_nodes(ts, talent as int),
            marked(v0) == Set::<int>::empty(),
            grows(v0, visited@),
            v0.len() == ts.len(),
            newly_marked(v0, visited@) == closure(nodes_of(ts, reqs.take(k as int)), marked(v0), e, sc),
            forall|j: int| #[trigger] newly_marked(v0, visited@).contains(j) ==> ok(j),
    {
        let ghost vc = visited@;
        let sat = dep_satisfied(owner, catalog, t.required_talents[k].as_str(), &mut visited);
        proof {
            lemma_newly_marked_trans(v0, vc, visited@);
            lemma_nodes_of_step(ts, reqs, k as int);
            lemma_closure_union(nodes_of(ts, reqs.take(k as int)), node_of(ts, reqs[k as int]@), marked(v0), e, sc);
        }
        if !sat {
            proof {
                let child = closure(node_of(ts, reqs[k as int]@), marked(vc), e, sc);
                let bad = choose|b: int| #[trigger] child.contains(b) && !ok(b);
                lemma_nodes_of_sub(ts, reqs, k + 1);
                lemma_closure_mono(nodes_of(ts, reqs.take(k + 1)), req_nodes(ts, talent as int), marked(v0), e, sc);
                assert(closure(req_nodes(ts, talent as int), marked(v0), e, sc).contains(bad));
            }
            return false;
        }
    }
    proof {
        assert(reqs.take(m as int) =~= reqs);
    }
    true
}

/// The node set of the talents at positions `roots`: what their names resolve to.
pub open spec fn root_nodes(ts: Seq<ResolvedTalent>, roots: Seq<usize>) -> Set<int> {
    Set::new(
        |j: int| exists|k: int| 0 <= k < roots.len() && find_last(ts, #[trigger] ts[roots[k] as int].name@) == Some(j),
    )
}

/// The highest rank of talent `i`: one per reward tier, at least 1.
pub open spec fn max_rank(ts: Seq<ResolvedTalent>, i: int) -> int {
    if ts[i].rewards@.len() > 1 {
        ts[i].rewards@.len() as int
    } else {
        1
    }
}

/// The talent list after raising each listed talent that has more than one
/// rank and is held to its highest rank, in list order.
pub open spec fn rank_ups(ts: Seq<ResolvedTalent>, v: Seq<(Seq<char>, i64)>, roots: Seq<usize>) -> Seq<
    (Seq<char>, i64),
>
    decreases roots.len(),
{
    if roots.len() == 0 {
        v
    } else {
        let v1 = rank_ups(ts, v, roots.drop_last());
        let i = roots.last() as int;
        if max_rank(ts, i) > 1 && holds(v1, ts[i].name@) {
            with_rank(v1, ts[i].name@, max_rank(ts, i) as i64)
        } else {
            v1
        }
    }
}

/// The row names of the talents at positions `roots`, in order.
pub open spec fn root_name_views(ts: Seq<ResolvedTalent>, roots: Seq<usize>) -> Seq<Seq<char>> {
    roots.map_values(|q: usize| ts[q as int].name@)
}

/// The row names of the listed rows, whose nodes are the roots.
fn root_names(catalog: &Catalog, talents: &[usize]) -> (names: Vec<String>)
    requires
        forall|k: int| 0 <= k < talents@.len() ==> (#[trigger] talents@[k] as int) < catalog.rows().len(),
    ensures
        nodes_of(catalog.rows(), names@) == root_nodes(catalog.rows(), talents@),
        name_views(names@) == root_name_views(catalog.rows(), talents@),
{
    let ghost ts = catalog.rows();
    let mut names: Vec<String> = Vec::new();
    let nr = talents.len();
    for k in 0..nr
        invariant
            nr == talents@.len(),
            ts == catalog.rows(),
            forall|q: int| 0 <= q < talents@.len() ==> (#[trigger] talents@[q] as int) < ts.len(),
            names@.len() == k,
            forall|q: int| 0 <= q < k ==> #[trigger] names@[q]@ == ts[talents@[q] as int].name@,
    {
        let t = catalog.talent(talents[k]);
        names.push(t.name.clone());
    }
    assert(nodes_of(ts, names@) =~= root_nodes(ts, talents@)) by {
        assert forall|j: int| nodes_of(ts, names@).contains(j) implies root_nodes(ts, talents@).contains(j) by {
            let q = choose|q: int| 0 <= q < names@.len() && find_last(ts, #[trigger] names@[q]@) == Some(j);
            assert(names@[q]@ == ts[talents@[q] as int].name@);
        }
        assert forall|j: int| root_nodes(ts, talents@).contains(j) implies nodes_of(ts, names@).contains(j) by {
            let q = choose|q: int| 0 <= q < talents@.len() && find_last(ts, #[trigger] ts[talents@[q] as int].name@) == Some(j);
            assert(names@[q]@ == ts[talents@[q] as int].name@);
        }
    }
    names
}

/// Whether every listed row that a save of this kind stores, and that is not
/// unlocked by default, has a reward tier.
fn listed_rewards_ok<T: TalentOwner>(catalog: &Catalog, order: &Vec<usize>) -> (r: bool)
    requires
        forall|k: int| 0 <= k < order@.len() ==> (#[trigger] order@[k] as int) < catalog.rows().len(),
    ensures
        r == forall|k: int|
            0 <= k < order@.len() && storable_fn::<T>()(catalog.rows()[#[trigger] order@[k] as int].category)
                && !catalog.rows()[order@[k] as int].default_unlocked ==> catalog.rows()[order@[k] as int].rewards@.len() >= 1,
{
    let ghost ts = catalog.rows();
    let m = order.len();
    for k in 0..m
        invariant
            ts == catalog.rows(),
            m == order@.len(),
            forall|q: int| 0 <= q < order@.len() ==> (#[trigger] order@[q] as int) < ts.len(),
            forall|q: int|
                0 <= q < k && storable_fn::<T>()(ts[#[trigger] order@[q] as int].category)
                    && !ts[order@[q] as int].default_unlocked ==> ts[order@[q] as int].rewards@.len() >= 1,
    {
        let t = catalog.talent(order[k]);
        if T::storable(t.category) && !t.default_unlocked && t.rewards.len() == 0 {
            assert(ts[order@[k as int] as int].rewards@.len() == 0);
            return false;
        }
    }
    true
}

/// Whether `unlock_rewards_ok` holds for an unlock walk from `seeds`, given
/// a listing of that walk.
proof fn lemma_listed_rewards<T: TalentOwner>(catalog: &Catalog, held: Seq<(Seq<char>, i64)>, seeds: Set<int>, order: Seq<usize>)
    requires
        lists_exactly(order, prereq_closure(catalog.rows(), storable_fn::<T>(), held, seeds, Set::empty())),
    ensures
        unlock_rewards_ok(catalog.rows(), storable_fn::<T>(), held, seeds) == forall|k: int|
            0 <= k < order.len() && storable_fn::<T>()(catalog.rows()[#[trigger] order[k] as int].category)
                && !catalog.rows()[order[k] as int].default_unlocked ==> catalog.rows()[order[k] as int].rewards@.len() >= 1,
{
    let ts = catalog.rows();
    let st = storable_fn::<T>();
    let d = prereq_closure(ts, st, held, seeds, Set::empty());
    if unlock_rewards_ok(ts, st, held, seeds) {
        assert forall|k: int|
            0 <= k < order.len() && st(ts[#[trigger] order[k] as int].category)
                && !ts[order[k] as int].default_unlocked implies ts[order[k] as int].rewards@.len() >= 1 by {
            assert(d.contains(order[k] as int));
        }
    } else {
        let i = choose|i: int|
            !(#[trigger] d.contains(i) && st(ts[i].category) && !ts[i].default_unlocked ==> ts[i].rewards@.len() >= 1);
        let k = choose|k: int| 0 <= k < order.len() && #[trigger] order[k] as int == i;
        assert(!(0 <= k < order.len() && st(ts[order[k] as int].category) && !ts[order[k] as int].default_unlocked
            ==> ts[order[k] as int].rewards@.len() >= 1));
    }
}

/// Whether unlocking `name` with its prerequisites meets
/// `set_talent_cascading`'s demand that every row it adds has a reward tier.
pub fn unlock_ready<T: TalentOwner>(owner: &T, catalog: &Catalog, name: &str) -> (r: bool)
    requires
        catalog.wf(),
    ensures
        r == unlock_rewards_ok(catalog.rows(), storable_fn::<T>(), owner.talents_view(), node_of(catalog.rows(), name@)),
{
    let mut visited = unmarked(catalog.len());
    let mut order: Vec<usize> = Vec::new();
    prereq_visit(owner, catalog, name, &mut visited, &mut order);
    proof {
        assert(order@.subrange(0, order@.len() as int) =~= order@);
        assert forall|q: int| 0 <= q < order@.len() implies (#[trigger] order@[q] as int) < catalog.rows().len() by {
            assert(order@.subrange(0, order@.len() as int)[q] == order@[q]);
        }
        lemma_listed_rewards::<T>(catalog, owner.talents_view(), node_of(catalog.rows(), name@), order@);
    }
    listed_rewards_ok::<T>(catalog, &order)
}

/// Whether bulk-unlocking the listed rows meets `unlock_all`'s demand that
/// every row it adds has a reward tier.
pub fn unlock_all_ready<T: TalentOwner>(owner: &T, catalog: &Catalog, talents: &[usize]) -> (r: bool)
    requires
        catalog.wf(),
        forall|k: int| 0 <= k < talents@.len() ==> (#[trigger] talents@[k] as int) < catalog.rows().len(),
    ensures
        r == unlock_rewards_ok(catalog.rows(), storable_fn::<T>(), owner.talents_view(), root_nodes(catalog.rows(), talents@)),
{
    let names = root_names(catalog, talents);
    let mut visited = unmarked(catalog.len());
    let mut order: Vec<usize> = Vec::new();
    prereq_visit_all(owner, catalog, &names, &mut visited, &mut order);
    proof {
        assert(order@.subrange(0, order@.len() as int) =~= order@);
        assert forall|q: int| 0 <= q < order@.len() implies (#[trigger] order@[q] as int) < catalog.rows().len() by {
            assert(order@.subrange(0, order@.len() as int)[q] == order@[q]);
        }
        lemma_listed_rewards::<T>(catalog, owner.talents_view(), root_nodes(catalog.rows(), talents@), order@);
    }
    listed_rewards_ok::<T>(catalog, &order)
}

/// Bulk-unlocks every listed talent at its highest rank, with its
/// prerequisites (as a single unlock would), then resyncs the flags once.
/// Prerequisites pulled in from outside the list stay at rank 1. The rows
/// added come in the order the prerequisite walks visit them.
pub fn unlock_all<T: FlagOwner>(owner: &mut T, catalog: &Catalog, talents: &[usize])
    requires
        catalog.wf(),
        forall|k: int| 0 <= k < talents@.len() ==> (#[trigger] talents@[k] as int) < catalog.rows().len(),
        rewards_ok(catalog.rows(), old(owner).talents_view()),
        unlock_rewards_ok(
            catalog.rows(),
            storable_fn::<T>(),
            old(owner).talents_view(),
            root_nodes(catalog.rows(), talents@),
        ),
    ensures
        exists|o: Seq<usize>|
            #[trigger] lists_exactly(
                o,
                prereq_closure(
                    catalog.rows(),
                    storable_fn::<T>(),
                    old(owner).talents_view(),
                    root_nodes(catalog.rows(), talents@),
                    Set::empty(),
                ),
            ) && final(owner).talents_view() == rank_ups(
                catalog.rows(),
                old(owner).talents_view() + additions(
                    catalog.rows(),
                    storable_fn::<T>(),
                    old(owner).talents_view(),
                    o,
                ),
                talents@,
            ),
        final(owner).talents_view() == rank_ups(
            catalog.rows(),
            old(owner).talents_view() + additions(
                catalog.rows(),
                storable_fn::<T>(),
                old(owner).talents_view(),
                prereq_order(
                    catalog.rows(),
                    storable_fn::<T>(),
                    old(owner).talents_view(),
                    root_name_views(catalog.rows(), talents@),
                ),
            ),
            talents@,
        ),
        synced(
            old(owner).flags_view(),
            final(owner).flags_view(),
            flag_universe(catalog.rows(), |n: Seq<char>| T::spec_flag_index(catalog, n)),
            desired_flags(
                catalog.rows(),
                |n: Seq<char>| T::spec_flag_index(catalog, n),
                final(owner).talents_view(),
            ),
        ),
        old(owner).same_rest(*final(owner)),
{
    let ghost ts = catalog.rows();
    let ghost st = storable_fn::<T>();
    let ghost held0 = owner.talents_view();
    let names = root_names(catalog, talents);
    let nr = talents.len();
    let mut visited = unmarked(catalog.len());
    let ghost fresh = visited@;
    let mut order: Vec<usize> = Vec::new();
    prereq_visit_all(&*owner, catalog, &names, &mut visited, &mut order);
    proof {
        assert(order@.skip(0) =~= order@);
        assert(fresh == Seq::new(ts.len(), |i: int| false));
        assert(name_views(names@).len() == names@.len());
        assert(root_name_views(ts, talents@).len() == talents@.len());
        assert(order@ == prereq_order(ts, st, held0, root_name_views(ts, talents@)));
    }
    let ghost d = prereq_closure(ts, st, held0, root_nodes(ts, talents@), Set::empty());
    proof {
        assert(order@.subrange(0, order@.len() as int) =~= order@);
        lemma_nodes_closed(ts);
        assert forall|j: int| #[trigger] root_nodes(ts, talents@).contains(j) implies is_node(ts, j) by {
            let q = choose|q: int| 0 <= q < talents@.len() && find_last(ts, #[trigger] ts[talents@[q] as int].name@) == Some(j);
            lemma_find_last(ts, ts[talents@[q] as int].name@);
        }
        lemma_closure_nodes(ts, root_nodes(ts, talents@), Set::empty(), prereq_expands(ts, st, held0), prereq_succ(ts));
    }
    let m = order.len();
    proof {
        assert(order@.take(0) =~= Seq::<usize>::empty());
        assert(owner.talents_view() =~= held0 + additions(ts, st, held0, order@.take(0)));
        T::lemma_same_rest_refl(*owner);
    }
    for k in 0..m
        invariant
            ts == catalog.rows(),
            st == storable_fn::<T>(),
            m == order@.len(),
            lists_exactly(order@, d),
            forall|j: int| #[trigger] d.contains(j) ==> is_node(ts, j),
            owner.talents_view() == held0 + additions(ts, st, held0, order@.take(k as int)),
            owner.flags_view() == old(owner).flags_view(),
            old(owner).same_rest(*owner),
    {
        let i = order[k];
        proof {
            assert(d.contains(i as int));
        }
        let t = catalog.talent(i);
        let ghost prefix = order@.take(k as int);
        proof {
            assert(order@.take(k + 1) =~= prefix.push(i));
            assert(order@.take(k + 1).drop_last() =~= prefix);
            lemma_additions_names(ts, st, held0, prefix);
            let adds = additions(ts, st, held0, prefix);
            let cur = owner.talents_view();
            assert forall|q: int| 0 <= q < adds.len() implies #[trigger] adds[q].0 != ts[i as int].name@ by {
                let p = choose|p: int|
                    0 <= p < prefix.len() && #[trigger] adds[q].0 == ts[prefix[p] as int].name@
                        && !ts[prefix[p] as int].default_unlocked && st(ts[prefix[p] as int].category);
                assert(prefix[p] == order@[p]);
                assert(order@[p] != order@[k as int]);
                assert(d.contains(prefix[p] as int));
                if adds[q].0 == ts[i as int].name@ {
                    crate::catalog::lemma_node_names_distinct(ts, prefix[p] as int, i as int);
                }
            }
            assert(holds(cur, ts[i as int].name@) == holds(held0, ts[i as int].name@)) by {
                if holds(cur, ts[i as int].name@) {
                    let q = choose|q: int| 0 <= q < cur.len() && #[trigger] cur[q].0 == ts[i as int].name@;
                    if q >= held0.len() {
                        assert(cur[q] == adds[q - held0.len()]);
                    } else {
                        assert(cur[q] == held0[q]);
                    }
                }
                if holds(held0, ts[i as int].name@) {
                    let q = choose|q: int| 0 <= q < held0.len() && #[trigger] held0[q].0 == ts[i as int].name@;
                    assert(cur[q] == held0[q]);
                }
            }
        }
        if !t.default_unlocked && T::storable(t.category) {
            let ghost o1 = *owner;
            owner.set_talent(t.name.as_str(), true);
            proof {
                T::lemma_same_rest_trans(*old(owner), o1, *owner);
                let adds = additions(ts, st, held0, prefix);
                if !holds(held0, ts[i as int].name@) {
                    assert(owner.talents_view() =~= held0 + adds.push((ts[i as int].name@, 1i64)));
                }
            }
        }
    }
    let ghost added = owner.talents_view();
    proof {
        assert(order@.take(m as int) =~= order@);
        // every entry is held or one of the additions, which all have a reward tier
        lemma_additions_names(ts, st, held0, order@);
        let adds = additions(ts, st, held0, order@);
        assert forall|k: int|
            0 <= k < added.len() && #[trigger] find_last(ts, added[k].0) is Some implies ts[find_last(
                ts,
                added[k].0,
            ).unwrap()].rewards@.len() >= 1 by {
            if k < held0.len() {
                assert(added[k] == held0[k]);
            } else {
                assert(added[k] == adds[k - held0.len()]);
                let p = choose|p: int|
                    0 <= p < order@.len() && #[trigger] adds[k - held0.len()].0 == ts[order@[p] as int].name@
                        && !ts[order@[p] as int].default_unlocked && st(ts[order@[p] as int].category);
                assert(d.contains(order@[p] as int));
            }
        }
        assert(talents@.take(0) =~= Seq::<usize>::empty());
    }
    // raise the listed talents to their highest rank
    for k in 0..nr
        invariant
            nr == talents@.len(),
            ts == catalog.rows(),
            forall|q: int| 0 <= q < talents@.len() ==> (#[trigger] talents@[q] as int) < ts.len(),
            rewards_ok(ts, owner.talents_view()),
            owner.talents_view() == rank_ups(ts, added, talents@.take(k as int)),
            owner.flags_view() == old(owner).flags_view(),
            old(owner).same_rest(*owner),
    {
        let t = catalog.talent(talents[k]);
        let n = t.rewards.len();
        let top: usize = if n > 1 {
            n
        } else {
            1
        };
        proof {
            assert(talents@.take(k + 1).drop_last() =~= talents@.take(k as int));
            assert(talents@.take(k + 1).last() == talents@[k as int]);
        }
        if top > 1 && owner.has_talent(t.name.as_str()) {
            let ghost before = owner.talents_view();
            let ghost o1 = *owner;
            owner.set_talent_rank(t.name.as_str(), top as i64);
            proof {
                T::lemma_same_rest_trans(*old(owner), o1, *owner);
                lemma_with_rank_names(before, t.name@, top as i64);
                assert forall|q: int| #![trigger owner.talents_view()[q]] 0 <= q < owner.talents_view().len() implies exists|p: int|
                    0 <= p < before.len() && #[trigger] before[p].0 == owner.talents_view()[q].0 by {
                    assert(before[q].0 == owner.talents_view()[q].0);
                }
                lemma_rewards_ok_sub(ts, owner.talents_view(), before);
            }
        }
    }
    proof {
        assert(talents@.take(nr as int) =~= talents@);
    }
    let ghost o2 = *owner;
    sync_granted_flags(owner, catalog);
    proof {
        T::lemma_same_rest_trans(*old(owner), o2, *owner);
    }
}

/// The names of the talents at positions `roots`.
pub open spec fn root_name_set(ts: Seq<ResolvedTalent>, roots: Seq<usize>) -> Set<Seq<char>> {
    Set::new(|n: Seq<char>| exists|k: int| 0 <= k < roots.len() && #[trigger] ts[roots[k] as int].name@ == n)
}

/// The rows requiring any of the talents at positions `roots`.
pub open spec fn root_dep_seeds(ts: Seq<ResolvedTalent>, roots: Seq<usize>) -> Set<int> {
    Set::new(
        |j: int| exists|k: int| 0 <= k < roots.len() && #[trigger] dep_nodes(ts, ts[roots[k] as int].name@).contains(j),
    )
}

/// What a save's talent list becomes when the talents at `roots` are all
/// locked with everything depending on any of them: the listed names are
/// removed, then every stored row the dependents walk from them reaches.
pub open spec fn locked_all(
    ts: Seq<ResolvedTalent>,
    st: spec_fn(Category) -> bool,
    held: Seq<(Seq<char>, i64)>,
    roots: Seq<usize>,
) -> Seq<(Seq<char>, i64)> {
    let h1 = without_names(held, root_name_set(ts, roots));
    without_names(h1, stored_names(ts, st, dependents_closure(ts, st, h1, root_dep_seeds(ts, roots), Set::empty())))
}

/// Bulk-locks every listed talent and everything depending on any of them,
/// then resyncs the flags once.
pub fn lock_all<T: FlagOwner>(owner: &mut T, catalog: &Catalog, talents: &[usize])
    requires
        catalog.wf(),
        forall|k: int| 0 <= k < talents@.len() ==> (#[trigger] talents@[k] as int) < catalog.rows().len(),
        rewards_ok(catalog.rows(), locked_all(catalog.rows(), storable_fn::<T>(), old(owner).talents_view(), talents@)),
    ensures
        final(owner).talents_view() == locked_all(
            catalog.rows(),
            storable_fn::<T>(),
            old(owner).talents_view(),
            talents@,
        ),
        forall|k: int|
            #![trigger talents@[k]]
            0 <= k < talents@.len() ==> dependents_closure(
                catalog.rows(),
                storable_fn::<T>(),
                final(owner).talents_view(),
                dep_nodes(catalog.rows(), catalog.rows()[talents@[k] as int].name@),
                Set::empty(),
            ).filter(held_stored(catalog.rows(), storable_fn::<T>(), final(owner).talents_view()))
                == Set::<int>::empty(),
        synced(
            old(owner).flags_view(),
            final(owner).flags_view(),
            flag_universe(catalog.rows(), |n: Seq<char>| T::spec_flag_index(catalog, n)),
            desired_flags(
                catalog.rows(),
                |n: Seq<char>| T::spec_flag_index(catalog, n),
                final(owner).talents_view(),
            ),
        ),
        old(owner).same_rest(*final(owner)),
{
    let ghost held0 = owner.talents_view();
    lock_all_talents(owner, catalog, talents);
    let ghost o1 = *owner;
    sync_granted_flags(owner, catalog);
    proof {
        T::lemma_same_rest_trans(*old(owner), o1, *owner);
        assert forall|k: int| #![trigger talents@[k]] 0 <= k < talents@.len() implies dependents_closure(
            catalog.rows(),
            storable_fn::<T>(),
            owner.talents_view(),
            dep_nodes(catalog.rows(), catalog.rows()[talents@[k] as int].name@),
            Set::empty(),
        ).filter(held_stored(catalog.rows(), storable_fn::<T>(), owner.talents_view())) == Set::<int>::empty() by {
            crate::unlock_laws::law_lock_all_leaves_no_dependents(
                catalog.rows(),
                storable_fn::<T>(),
                held0,
                talents@,
                k,
            );
        }
    }
}

/// Whether bulk-locking the listed rows meets `lock_all`'s demand that every
/// row left has a reward tier.
pub fn lock_all_ready<T: TalentOwner>(owner: &T, catalog: &Catalog, talents: &[usize]) -> (r: bool)
    requires
        catalog.wf(),
        forall|k: int| 0 <= k < talents@.len() ==> (#[trigger] talents@[k] as int) < catalog.rows().len(),
    ensures
        r == rewards_ok(catalog.rows(), locked_all(catalog.rows(), storable_fn::<T>(), owner.talents_view(), talents@)),
{
    let mut shadow = Shadow::<T>::of(owner);
    lock_all_talents(&mut shadow, catalog, talents);
    proof {
        lemma_shadow_storable::<T>();
    }
    rewards_ready(&shadow, catalog)
}

/// Locks every listed talent and everything depending on any of them,
/// leaving the flags as they are.
fn lock_all_talents<T: TalentOwner>(owner: &mut T, catalog: &Catalog, talents: &[usize])
    requires
        catalog.wf(),
        forall|k: int| 0 <= k < talents@.len() ==> (#[trigger] talents@[k] as int) < catalog.rows().len(),
    ensures
        final(owner).talents_view() == locked_all(
            catalog.rows(),
            storable_fn::<T>(),
            old(owner).talents_view(),
            talents@,
        ),
        final(owner).flags_view() == old(owner).flags_view(),
        old(owner).same_rest(*final(owner)),
{
    let ghost ts = catalog.rows();
    let ghost st = storable_fn::<T>();
    let ghost held0 = owner.talents_view();
    let nr = talents.len();
    proof {
        assert(root_name_set(ts, talents@.take(0)) =~= Set::<Seq<char>>::empty());
        lemma_without_names_empty(held0);
        T::lemma_same_rest_refl(*owner);
    }
    for k in 0..nr
        invariant
            nr == talents@.len(),
            ts == catalog.rows(),
            forall|q: int| 0 <= q < talents@.len() ==> (#[trigger] talents@[q] as int) < ts.len(),
            owner.talents_view() == without_names(held0, root_name_set(ts, talents@.take(k as int))),
            owner.flags_view() == old(owner).flags_view(),
            old(owner).same_rest(*owner),
    {
        let t = catalog.talent(talents[k]);
        let ghost o1 = *owner;
        owner.set_talent(t.name.as_str(), false);
        proof {
            T::lemma_same_rest_trans(*old(owner), o1, *owner);
        }
        proof {
            lemma_without_names_insert(held0, root_name_set(ts, talents@.take(k as int)), t.name@);
            assert(root_name_set(ts, talents@.take(k as int)).insert(t.name@) =~= root_name_set(
                ts,
                talents@.take(k + 1),
            )) by {
                assert forall|n: Seq<char>| root_name_set(ts, talents@.take(k + 1)).contains(n) implies root_name_set(ts, talents@.take(k as int)).insert(t.name@).contains(n) by {
                    let q = choose|q: int| 0 <= q < k + 1 && #[trigger] ts[talents@.take(k + 1)[q] as int].name@ == n;
                    if q < k {
                        assert(talents@.take(k as int)[q] == talents@.take(k + 1)[q]);
                    }
                }
                assert forall|n: Seq<char>| root_name_set(ts, talents@.take(k as int)).insert(t.name@).contains(n) implies root_name_set(ts, talents@.take(k + 1)).contains(n) by {
                    if n == t.name@ {
                        assert(talents@.take(k + 1)[k as int] == talents@[k as int]);
                    } else {
                        let q = choose|q: int| 0 <= q < k && #[trigger] ts[talents@.take(k as int)[q] as int].name@ == n;
                        assert(talents@.take(k as int)[q] == talents@.take(k + 1)[q]);
                    }
                }
            }
        }
    }
    let ghost h1 = owner.talents_view();
    proof {
        assert(talents@.take(nr as int) =~= talents@);
    }
    let mut visited = unmarked(catalog.len());
    let ghost v0 = visited@;
    let ghost e1 = dependents_expands(ts, st, h1);
    let ghost sc = dependents_succ(ts);
    proof {
        assert(root_dep_seeds(ts, talents@.take(0)) =~= Set::<int>::empty());
        lemma_closure_empty(Set::empty(), e1, sc);
        assert(newly_marked(v0, visited@) =~= Set::<int>::empty());
        assert(stored_names(ts, st, Set::<int>::empty()) =~= Set::<Seq<char>>::empty());
        lemma_without_names_empty(h1);
        lemma_nodes_closed(ts);
    }
    for k in 0..nr
        invariant
            nr == talents@.len(),
            catalog.wf(),
            ts == catalog.rows(),
            st == storable_fn::<T>(),
            e1 == dependents_expands(ts, st, h1),
            sc == dependents_succ(ts),
            forall|q: int| 0 <= q < talents@.len() ==> (#[trigger] talents@[q] as int) < ts.len(),
            v0.len() == ts.len(),
            marked(v0) == Set::<int>::empty(),
            grows(v0, visited@),
            newly_marked(v0, visited@) == closure(root_dep_seeds(ts, talents@.take(k as int)), Set::empty(), e1, sc),
            forall|j: int| #[trigger] newly_marked(v0, visited@).contains(j) ==> is_node(ts, j),
            owner.talents_view() == without_names(h1, stored_names(ts, st, newly_marked(v0, visited@))),
            owner.flags_view() == old(owner).flags_view(),
            old(owner).same_rest(*owner),
            forall|i: int, j: int| #[trigger] req_nodes(ts, i).contains(j) ==> is_node(ts, j),
            forall|n: Seq<char>, j: int| #[trigger] dep_nodes(ts, n).contains(j) ==> is_node(ts, j),
    {
        let t = catalog.talent(talents[k]);
        let ghost vc = visited@;
        let ghost cur = owner.talents_view();
        let ghost dc = newly_marked(v0, vc);
        proof {
            lemma_newly_marked_trans(v0, vc, vc);
            assert(marked(vc) =~= dc);
            // outside what was reached so far, the current list holds what `h1` holds
            assert forall|m: int| !marked(vc).contains(m) implies dependents_expands(ts, st, cur)(m) == e1(m) by {
                if is_node(ts, m) {
                    lemma_holds_without_names(h1, stored_names(ts, st, dc), ts[m].name@);
                    if stored_names(ts, st, dc).contains(ts[m].name@) {
                        let i = choose|i: int| dc.contains(i) && st(ts[i].category) && #[trigger] ts[i].name@ == ts[m].name@;
                        crate::catalog::lemma_node_names_distinct(ts, i, m);
                    }
                }
            }
            lemma_closure_agree(dep_nodes(ts, t.name@), marked(vc), dependents_expands(ts, st, cur), e1, sc);
        }
        let ghost o2 = *owner;
        remove_dependents(owner, catalog, t.name.as_str(), &mut visited);
        proof {
            T::lemma_same_rest_trans(*old(owner), o2, *owner);
        }
        proof {
            let seeds_k = root_dep_seeds(ts, talents@.take(k as int));
            let seeds_k1 = root_dep_seeds(ts, talents@.take(k + 1));
            assert(seeds_k1 =~= seeds_k.union(dep_nodes(ts, t.name@))) by {
                assert forall|j: int| seeds_k1.contains(j) implies seeds_k.union(dep_nodes(ts, t.name@)).contains(j) by {
                    let q = choose|q: int| 0 <= q < k + 1 && #[trigger] dep_nodes(ts, ts[talents@.take(k + 1)[q] as int].name@).contains(j);
                    if q < k {
                        assert(talents@.take(k as int)[q] == talents@.take(k + 1)[q]);
                    }
                }
                assert forall|j: int| seeds_k.union(dep_nodes(ts, t.name@)).contains(j) implies seeds_k1.contains(j) by {
                    if seeds_k.contains(j) {
                        let q = choose|q: int| 0 <= q < k && #[trigger] dep_nodes(ts, ts[talents@.take(k as int)[q] as int].name@).contains(j);
                        assert(talents@.take(k as int)[q] == talents@.take(k + 1)[q]);
                    } else {
                        assert(talents@.take(k + 1)[k as int] == talents@[k as int]);
                    }
                }
            }
            lemma_closure_union(seeds_k, dep_nodes(ts, t.name@), Set::empty(), e1, sc);
            assert(Set::<int>::empty().union(dc) =~= marked(vc));
            lemma_newly_marked_trans(v0, vc, visited@);
            lemma_closure_nodes(ts, dep_nodes(ts, t.name@), marked(vc), e1, sc);
            lemma_without_names_union(h1, stored_names(ts, st, dc), stored_names(ts, st, newly_marked(vc, visited@)));
            assert(stored_names(ts, st, dc).union(stored_names(ts, st, newly_marked(vc, visited@))) =~= stored_names(
                ts,
                st,
                newly_marked(v0, visited@),
            ));
            assert forall|j: int| 0 <= j < v0.len() && #[trigger] v0[j] implies visited@[j] by {
                assert(vc[j]);
            }
        }
    }
    proof {
        assert(talents@.take(nr as int) =~= talents@);
    }
}

} // verus!
