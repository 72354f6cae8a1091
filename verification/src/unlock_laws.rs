//! What the unlock operations promise of each other.

use vstd::prelude::*;
use crate::catalog::{is_node, node_of, req_nodes, dep_nodes, find_last, lemma_find_last};
use crate::graph::{
    closure, is_closed, lemma_closure_is_closed, lemma_closure_least, lemma_closure_single,
    lemma_closure_avoids,
};
use crate::model::{Category, ResolvedTalent};
use crate::owner::{
    holds, without, without_names, lemma_holds_without_names, lemma_without_names_union, first_with, rank_of,
    with_rank, lemma_first_with,
};
use crate::sync::{synced, strip, iset, no_dups, desired_flags};
use crate::unlock::{
    prereq_closure, prereq_expands, prereq_succ, dependents_closure, dependents_expands,
    dependents_succ, locked_stored, held_stored, transparent, met, additions, unlocked_with_prereqs,
    locked_with_dependents, stored_names, locked_all, root_dep_seeds, rank_ups,
};
use crate::graph::lists_exactly;

verus! {

/// Avoiding more reaches no more.
proof fn lemma_closure_avoid_mono(
    seeds: Set<int>,
    a1: Set<int>,
    a2: Set<int>,
    e: spec_fn(int) -> bool,
    sc: spec_fn(int) -> Set<int>,
)
    requires
        a1.subset_of(a2),
    ensures
        closure(seeds, a2, e, sc).subset_of(closure(seeds, a1, e, sc)),
{
    let c1 = closure(seeds, a1, e, sc);
    lemma_closure_is_closed(seeds, a1, e, sc);
    assert(is_closed(seeds, a2, e, sc, c1));
    lemma_closure_least(seeds, a2, e, sc, c1);
}

/// A walk that expands fewer nodes reaches no more.
proof fn lemma_closure_expand_mono(
    seeds: Set<int>,
    avoid: Set<int>,
    e1: spec_fn(int) -> bool,
    e2: spec_fn(int) -> bool,
    sc: spec_fn(int) -> Set<int>,
)
    requires
        forall|m: int| #[trigger] e1(m) ==> e2(m),
    ensures
        closure(seeds, avoid, e1, sc).subset_of(closure(seeds, avoid, e2, sc)),
{
    let c2 = closure(seeds, avoid, e2, sc);
    lemma_closure_is_closed(seeds, avoid, e2, sc);
    assert(is_closed(seeds, avoid, e1, sc, c2));
    lemma_closure_least(seeds, avoid, e1, sc, c2);
}

/// From an expanding node, the walk reaches the node itself and what its
/// successors reach, whether or not the successors' walk may come back to it.
proof fn lemma_closure_from_expanding(
    t: int,
    e: spec_fn(int) -> bool,
    sc: spec_fn(int) -> Set<int>,
)
    requires
        e(t),
    ensures
        closure(set![t], Set::empty(), e, sc) == closure(sc(t), Set::empty(), e, sc).insert(t),
{
    lemma_closure_single(t, Set::empty(), e, sc);
    let back = closure(sc(t), Set::<int>::empty().insert(t), e, sc);
    let all = closure(sc(t), Set::empty(), e, sc);
    lemma_closure_avoid_mono(sc(t), Set::empty(), Set::<int>::empty().insert(t), e, sc);
    lemma_closure_is_closed(sc(t), Set::<int>::empty().insert(t), e, sc);
    let c = back.insert(t);
    assert(is_closed(sc(t), Set::empty(), e, sc, c)) by {
        assert forall|m: int, n: int|
            #[trigger] c.contains(m) && e(m) && #[trigger] sc(m).contains(n) && !Set::<int>::empty().contains(n)
                implies c.contains(n) by {
            if n != t && m != t {
                assert(back.contains(m));
            }
        }
    }
    lemma_closure_least(sc(t), Set::empty(), e, sc, c);
    assert(set![t].union(back) =~= all.insert(t));
}

/// Unlocking a talent with its prerequisites unlocks exactly the talent
/// itself and the rows `locked_prerequisites` lists for it: when a
/// storable, locked talent has no locked prerequisites, the cascade
/// unlocks it alone.
pub proof fn law_cascade_unlock_adds_locked_prerequisites(
    ts: Seq<ResolvedTalent>,
    st: spec_fn(Category) -> bool,
    held: Seq<(Seq<char>, i64)>,
    t: int,
)
    requires
        is_node(ts, t),
        !ts[t].default_unlocked,
        st(ts[t].category),
        !holds(held, ts[t].name@),
    ensures
        prereq_closure(ts, st, held, node_of(ts, ts[t].name@), Set::empty()).filter(
            locked_stored(ts, st, held),
        ) == prereq_closure(ts, st, held, req_nodes(ts, t), Set::empty()).filter(
            locked_stored(ts, st, held),
        ).insert(t),
{
    let e = prereq_expands(ts, st, held);
    let sc = prereq_succ(ts);
    assert(node_of(ts, ts[t].name@) == set![t]);
    assert(e(t));
    lemma_closure_from_expanding(t, e, sc);
    assert(sc(t) == req_nodes(ts, t));
    assert(locked_stored(ts, st, held)(t));
    assert(prereq_closure(ts, st, held, node_of(ts, ts[t].name@), Set::empty()).filter(
        locked_stored(ts, st, held),
    ) =~= prereq_closure(ts, st, held, req_nodes(ts, t), Set::empty()).filter(
        locked_stored(ts, st, held),
    ).insert(t));
}

proof fn lemma_additions_hold(
    ts: Seq<ResolvedTalent>,
    st: spec_fn(Category) -> bool,
    held: Seq<(Seq<char>, i64)>,
    o: Seq<usize>,
    p: int,
)
    requires
        0 <= p < o.len(),
        locked_stored(ts, st, held)(o[p] as int),
    ensures
        holds(additions(ts, st, held, o), ts[o[p] as int].name@),
    decreases o.len(),
{
    let a = additions(ts, st, held, o);
    let prev = additions(ts, st, held, o.drop_last());
    if p == o.len() - 1 {
        assert(a[a.len() - 1].0 == ts[o[p] as int].name@);
    } else {
        assert(o.drop_last()[p] == o[p]);
        lemma_additions_hold(ts, st, held, o.drop_last(), p);
        let q = choose|q: int| 0 <= q < prev.len() && #[trigger] prev[q].0 == ts[o[p] as int].name@;
        assert(a[q] == prev[q]);
    }
}

/// After unlocking a storable, locked talent with its prerequisites, all of
/// its requirements are met: every row the requirement walk reaches is
/// granted by default, not stored, or now held.
pub proof fn law_cascade_unlock_meets_requirements(
    ts: Seq<ResolvedTalent>,
    st: spec_fn(Category) -> bool,
    held: Seq<(Seq<char>, i64)>,
    t: int,
    after: Seq<(Seq<char>, i64)>,
)
    requires
        is_node(ts, t),
        !ts[t].default_unlocked,
        st(ts[t].category),
        !holds(held, ts[t].name@),
        unlocked_with_prereqs(ts, st, held, node_of(ts, ts[t].name@), after),
    ensures
        forall|i: int|
            #[trigger] closure(req_nodes(ts, t), Set::empty(), transparent(ts, st), prereq_succ(ts)).contains(i)
                ==> met(ts, st, after)(i),
{
    let e = prereq_expands(ts, st, held);
    let sc = prereq_succ(ts);
    let d = prereq_closure(ts, st, held, node_of(ts, ts[t].name@), Set::empty());
    let o = choose|o: Seq<usize>| #[trigger] lists_exactly(o, d) && after == held + additions(ts, st, held, o);
    assert(node_of(ts, ts[t].name@) == set![t]);
    lemma_closure_from_expanding(t, e, sc);
    lemma_closure_expand_mono(req_nodes(ts, t), Set::empty(), transparent(ts, st), e, sc);
    assert forall|i: int|
        #[trigger] closure(req_nodes(ts, t), Set::empty(), transparent(ts, st), prereq_succ(ts)).contains(i)
            implies met(ts, st, after)(i) by {
        assert(d.contains(i));
        if !ts[i].default_unlocked && st(ts[i].category) {
            if holds(held, ts[i].name@) {
                let q = choose|q: int| 0 <= q < held.len() && #[trigger] held[q].0 == ts[i].name@;
                assert(after[q] == held[q]);
            } else {
                let p = choose|p: int| 0 <= p < o.len() && #[trigger] o[p] as int == i;
                lemma_additions_hold(ts, st, held, o, p);
                let a = additions(ts, st, held, o);
                let q = choose|q: int| 0 <= q < a.len() && #[trigger] a[q].0 == ts[i].name@;
                assert(after[held.len() + q] == a[q]);
            }
        }
    }
}

/// Two name sets that agree on every name of the list strip it alike.
proof fn lemma_without_names_agree(v: Seq<(Seq<char>, i64)>, s1: Set<Seq<char>>, s2: Set<Seq<char>>)
    requires
        forall|k: int| 0 <= k < v.len() ==> (s1.contains(#[trigger] v[k].0) == s2.contains(v[k].0)),
    ensures
        without_names(v, s1) == without_names(v, s2),
    decreases v.len(),
{
    if v.len() > 0 {
        let d = v.drop_last();
        assert forall|k: int| 0 <= k < d.len() implies (s1.contains(#[trigger] d[k].0) == s2.contains(d[k].0)) by {
            assert(d[k] == v[k]);
        }
        lemma_without_names_agree(d, s1, s2);
        assert(s1.contains(v[v.len() - 1].0) == s2.contains(v[v.len() - 1].0));
    }
}

proof fn lemma_without_as_names(v: Seq<(Seq<char>, i64)>, n: Seq<char>)
    ensures
        without(v, n) == without_names(v, set![n]),
    decreases v.len(),
{
    if v.len() > 0 {
        lemma_without_as_names(v.drop_last(), n);
    }
}

/// Locking a talent with everything that depends on it removes exactly the
/// talent and the rows `unlocked_dependents` lists for it (computed before
/// the lock): when nothing held depends on it, the cascade locks it alone.
pub proof fn law_cascade_lock_removes_unlocked_dependents(
    ts: Seq<ResolvedTalent>,
    st: spec_fn(Category) -> bool,
    held: Seq<(Seq<char>, i64)>,
    n: Seq<char>,
)
    ensures
        locked_with_dependents(ts, st, held, n) == without_names(
            held,
            Set::new(
                |x: Seq<char>|
                    exists|i: int|
                        dependents_closure(ts, st, held, dep_nodes(ts, n), Set::empty()).filter(
                            held_stored(ts, st, held),
                        ).contains(i) && #[trigger] ts[i].name@ == x,
            ).insert(n),
        ),
{
    let h1 = without(held, n);
    let sc = dependents_succ(ts);
    let e0 = dependents_expands(ts, st, held);
    let e1 = dependents_expands(ts, st, h1);
    let seeds = dep_nodes(ts, n);
    let c0 = closure(seeds, Set::empty(), e0, sc);
    let c1 = closure(seeds, Set::empty(), e1, sc);
    lemma_without_as_names(held, n);
    // the walk over the list without `n` reaches what the walk over the full list reaches
    assert forall|m: int| #[trigger] e1(m) implies e0(m) by {
        lemma_holds_without_names(held, set![n], ts[m].name@);
    }
    lemma_closure_expand_mono(seeds, Set::empty(), e1, e0, sc);
    lemma_closure_is_closed(seeds, Set::empty(), e1, sc);
    assert(is_closed(seeds, Set::empty(), e0, sc, c1)) by {
        assert forall|m: int, x: int|
            #[trigger] c1.contains(m) && e0(m) && #[trigger] sc(m).contains(x) && !Set::<int>::empty().contains(x)
                implies c1.contains(x) by {
            lemma_holds_without_names(held, set![n], ts[m].name@);
            if ts[m].name@ == n {
                assert(sc(m) == seeds);
            } else {
                assert(e1(m));
            }
        }
    }
    lemma_closure_least(seeds, Set::empty(), e0, sc, c1);
    assert(c0 =~= c1);
    // stripping the stored names of the walk strips the held ones of them, plus `n`
    let s_held = Set::new(
        |x: Seq<char>| exists|i: int| c0.filter(held_stored(ts, st, held)).contains(i) && #[trigger] ts[i].name@ == x,
    );
    let stored = stored_names(ts, st, c1);
    lemma_without_names_union(held, set![n], stored);
    assert forall|k: int| 0 <= k < held.len() implies (set![n].union(stored).contains(#[trigger] held[k].0)
        == s_held.insert(n).contains(held[k].0)) by {
        let x = held[k].0;
        if stored.contains(x) && x != n {
            let i = choose|i: int| c1.contains(i) && st(ts[i].category) && #[trigger] ts[i].name@ == x;
            assert(holds(held, ts[i].name@));
            assert(c0.filter(held_stored(ts, st, held)).contains(i));
        }
        if s_held.contains(x) && x != n {
            let i = choose|i: int| c0.filter(held_stored(ts, st, held)).contains(i) && #[trigger] ts[i].name@ == x;
            assert(stored.contains(x));
        }
    }
    lemma_without_names_agree(held, set![n].union(stored), s_held.insert(n));
}

/// Bringing the flags in line makes each flag of the universe present
/// exactly when desired, and leaves every other flag's presence as it was.
pub proof fn law_synced_flags(before: Seq<i64>, after: Seq<i64>, universe: Set<i64>, desired: Set<i64>)
    requires
        synced(before, after, universe, desired),
    ensures
        forall|x: i64|
            #[trigger] after.contains(x) == if universe.contains(x) {
                desired.contains(x)
            } else {
                before.contains(x)
            },
{
    let app = choose|app: Seq<i64>|
        {
            &&& after == strip(before, universe.difference(desired)) + app
            &&& no_dups(app)
            &&& iset(app) == universe.intersect(desired).difference(iset(before))
        };
    let s = strip(before, universe.difference(desired));
    assert forall|x: i64| #[trigger] after.contains(x) == if universe.contains(x) {
        desired.contains(x)
    } else {
        before.contains(x)
    } by {
        crate::sync::lemma_strip_contains(before, universe.difference(desired), x);
        if after.contains(x) {
            let k = choose|k: int| 0 <= k < after.len() && after[k] == x;
            if k < s.len() {
                assert(s[k] == x);
            } else {
                assert(app[k - s.len()] == x);
                assert(iset(app).contains(x));
            }
        }
        if s.contains(x) {
            let k = choose|k: int| 0 <= k < s.len() && s[k] == x;
            assert(after[k] == x);
        }
        if iset(app).contains(x) {
            let k = choose|k: int| 0 <= k < app.len() && app[k] == x;
            assert(after[s.len() + k] == x);
        }
        if universe.contains(x) && desired.contains(x) && !before.contains(x) {
            assert(universe.intersect(desired).difference(iset(before)).contains(x));
        }
    }
}


/// A talent has no locked prerequisites exactly when its requirements are
/// met: the prerequisites `locked_prerequisites` lists are none just when
/// `requirements_met` holds.
pub proof fn law_no_locked_prerequisites_iff_met(
    ts: Seq<ResolvedTalent>,
    st: spec_fn(Category) -> bool,
    held: Seq<(Seq<char>, i64)>,
    t: int,
)
    ensures
        prereq_closure(ts, st, held, req_nodes(ts, t), Set::empty()).filter(locked_stored(ts, st, held))
            =~= Set::<int>::empty() <==> forall|i: int|
            #[trigger] closure(req_nodes(ts, t), Set::empty(), transparent(ts, st), prereq_succ(ts)).contains(i)
                ==> met(ts, st, held)(i),
{
    let seeds = req_nodes(ts, t);
    let e1 = prereq_expands(ts, st, held);
    let e2 = transparent(ts, st);
    let sc = prereq_succ(ts);
    let p = prereq_closure(ts, st, held, seeds, Set::empty());
    let r = closure(seeds, Set::empty(), e2, sc);
    let ls = locked_stored(ts, st, held);
    lemma_closure_is_closed(seeds, Set::empty(), e1, sc);
    lemma_closure_is_closed(seeds, Set::empty(), e2, sc);
    if p.filter(ls) =~= Set::<int>::empty() {
        // the requirement walk stays inside the prerequisite walk
        assert(is_closed(seeds, Set::empty(), e2, sc, p)) by {
            assert forall|m: int, n: int|
                #[trigger] p.contains(m) && e2(m) && #[trigger] sc(m).contains(n) && !Set::<int>::empty().contains(n)
                    implies p.contains(n) by {
                assert(e1(m));
            }
        }
        lemma_closure_least(seeds, Set::empty(), e2, sc, p);
        assert forall|i: int| #[trigger] r.contains(i) implies met(ts, st, held)(i) by {
            assert(p.contains(i));
            assert(!p.filter(ls).contains(i));
        }
    }
    if forall|i: int| #[trigger] r.contains(i) ==> met(ts, st, held)(i) {
        // the prerequisite walk stays inside the requirement walk
        assert(is_closed(seeds, Set::empty(), e1, sc, r)) by {
            assert forall|m: int, n: int|
                #[trigger] r.contains(m) && e1(m) && #[trigger] sc(m).contains(n) && !Set::<int>::empty().contains(n)
                    implies r.contains(n) by {
                assert(met(ts, st, held)(m));
                assert(e2(m));
            }
        }
        lemma_closure_least(seeds, Set::empty(), e1, sc, r);
        assert forall|i: int| !p.filter(ls).contains(i) by {
            if p.contains(i) {
                assert(r.contains(i));
                assert(met(ts, st, held)(i));
            }
        }
    }
}


/// Removing the stored rows a dependents walk from `big` reaches leaves
/// nothing held that a walk from fewer seeds reaches over what is left.
proof fn lemma_nothing_left_depends(
    ts: Seq<ResolvedTalent>,
    st: spec_fn(Category) -> bool,
    h1: Seq<(Seq<char>, i64)>,
    big: Set<int>,
    small: Set<int>,
)
    requires
        small.subset_of(big),
    ensures
        ({
            let left = without_names(h1, stored_names(ts, st, dependents_closure(ts, st, h1, big, Set::empty())));
            dependents_closure(ts, st, left, small, Set::empty()).filter(held_stored(ts, st, left))
                =~= Set::<int>::empty()
        }),
{
    let sc = dependents_succ(ts);
    let d1 = dependents_closure(ts, st, h1, big, Set::empty());
    let names = stored_names(ts, st, d1);
    let left = without_names(h1, names);
    let e1 = dependents_expands(ts, st, h1);
    let e2 = dependents_expands(ts, st, left);
    lemma_closure_is_closed(big, Set::empty(), e1, sc);
    assert(is_closed(small, Set::empty(), e2, sc, d1)) by {
        assert forall|m: int, n: int|
            #[trigger] d1.contains(m) && e2(m) && #[trigger] sc(m).contains(n) && !Set::<int>::empty().contains(n)
                implies d1.contains(n) by {
            lemma_holds_without_names(h1, names, ts[m].name@);
            assert(e1(m));
        }
    }
    lemma_closure_least(small, Set::empty(), e2, sc, d1);
    let d2 = dependents_closure(ts, st, left, small, Set::empty());
    assert forall|i: int| !d2.filter(held_stored(ts, st, left)).contains(i) by {
        if d2.contains(i) && st(ts[i].category) {
            assert(d1.contains(i));
            assert(names.contains(ts[i].name@));
            lemma_holds_without_names(h1, names, ts[i].name@);
        }
    }
}

/// After locking a talent with everything that depends on it, nothing held
/// depends on it any more: `unlocked_dependents` lists no row.
pub proof fn law_cascade_lock_leaves_no_dependents(
    ts: Seq<ResolvedTalent>,
    st: spec_fn(Category) -> bool,
    held: Seq<(Seq<char>, i64)>,
    name: Seq<char>,
)
    ensures
        ({
            let after = locked_with_dependents(ts, st, held, name);
            dependents_closure(ts, st, after, dep_nodes(ts, name), Set::empty()).filter(held_stored(ts, st, after))
                =~= Set::<int>::empty()
        }),
{
    lemma_nothing_left_depends(ts, st, without(held, name), dep_nodes(ts, name), dep_nodes(ts, name));
}

/// After locking the listed talents with everything that depends on any of
/// them, nothing held depends on any listed talent: `unlocked_dependents`
/// lists no row for any of them.
pub proof fn law_lock_all_leaves_no_dependents(
    ts: Seq<ResolvedTalent>,
    st: spec_fn(Category) -> bool,
    held: Seq<(Seq<char>, i64)>,
    roots: Seq<usize>,
    k: int,
)
    requires
        0 <= k < roots.len(),
    ensures
        ({
            let after = locked_all(ts, st, held, roots);
            dependents_closure(ts, st, after, dep_nodes(ts, ts[roots[k] as int].name@), Set::empty()).filter(
                held_stored(ts, st, after),
            ) =~= Set::<int>::empty()
        }),
{
    let seeds = root_dep_seeds(ts, roots);
    let small = dep_nodes(ts, ts[roots[k] as int].name@);
    assert(small.subset_of(seeds));
    lemma_nothing_left_depends(
        ts,
        st,
        without_names(held, crate::unlock::root_name_set(ts, roots)),
        seeds,
        small,
    );
}


/// Two lists with the same row names, position by position, find a name at
/// the same position.
proof fn lemma_first_with_same_names(v: Seq<(Seq<char>, i64)>, w: Seq<(Seq<char>, i64)>, n: Seq<char>)
    requires
        v.len() == w.len(),
        forall|p: int| 0 <= p < v.len() ==> #[trigger] v[p].0 == w[p].0,
    ensures
        first_with(v, n) == first_with(w, n),
    decreases v.len(),
{
    if v.len() > 0 {
        assert(v[0].0 == w[0].0);
        let (dv, dw) = (v.drop_first(), w.drop_first());
        assert forall|p: int| 0 <= p < dv.len() implies #[trigger] dv[p].0 == dw[p].0 by {
            assert(dv[p] == v[p + 1] && dw[p] == w[p + 1]);
        }
        lemma_first_with_same_names(dv, dw, n);
    }
}

/// Setting the rank of `n` changes the first entry of `n` alone: names stay,
/// `n` reads the new rank when held, and every other name reads as before.
proof fn lemma_with_rank_reads(v: Seq<(Seq<char>, i64)>, n: Seq<char>, rank: i64)
    ensures
        with_rank(v, n, rank).len() == v.len(),
        forall|p: int| 0 <= p < v.len() ==> #[trigger] with_rank(v, n, rank)[p].0 == v[p].0,
        forall|p: int| 0 <= p < v.len() && v[p].0 != n ==> #[trigger] with_rank(v, n, rank)[p] == v[p],
        holds(v, n) ==> rank_of(with_rank(v, n, rank), n) == Some(rank),
        forall|m: Seq<char>| m != n ==> #[trigger] rank_of(with_rank(v, n, rank), m) == rank_of(v, m),
{
    let w = with_rank(v, n, rank);
    lemma_first_with(v, n);
    assert forall|p: int| 0 <= p < v.len() implies #[trigger] w[p].0 == v[p].0 by {}
    assert forall|m: Seq<char>| m != n implies #[trigger] rank_of(w, m) == rank_of(v, m) by {
        lemma_first_with_same_names(v, w, m);
        lemma_first_with(v, m);
    }
    if holds(v, n) {
        let k = choose|k: int| 0 <= k < v.len() && #[trigger] v[k].0 == n;
        assert(first_with(v, n) is Some);
        lemma_first_with_same_names(v, w, n);
    }
}

/// Bulk unlocking raises each listed talent that is held and has more than
/// one reward tier to its highest rank, its number of reward tiers (the
/// last listing of a name decides); it changes no other entry and keeps
/// every entry's row name in place.
pub proof fn law_unlock_all_raises_to_top_rank(
    ts: Seq<ResolvedTalent>,
    v: Seq<(Seq<char>, i64)>,
    roots: Seq<usize>,
)
    requires
        forall|q: int| 0 <= q < roots.len() ==> (#[trigger] roots[q] as int) < ts.len(),
    ensures
        rank_ups(ts, v, roots).len() == v.len(),
        forall|p: int| 0 <= p < v.len() ==> #[trigger] rank_ups(ts, v, roots)[p].0 == v[p].0,
        forall|p: int|
            0 <= p < v.len() && (forall|q: int| 0 <= q < roots.len() ==> ts[#[trigger] roots[q] as int].name@ != v[p].0)
                ==> #[trigger] rank_ups(ts, v, roots)[p] == v[p],
        forall|k: int|
            #![trigger roots[k]]
            0 <= k < roots.len() && holds(v, ts[roots[k] as int].name@) && ts[roots[k] as int].rewards@.len() > 1
                && (forall|j: int| k < j < roots.len() ==> ts[#[trigger] roots[j] as int].name@ != ts[roots[k] as int].name@)
                ==> rank_of(rank_ups(ts, v, roots), ts[roots[k] as int].name@) == Some(
                ts[roots[k] as int].rewards@.len() as i64,
            ),
    decreases roots.len(),
{
    if roots.len() > 0 {
        let init = roots.drop_last();
        assert forall|q: int| 0 <= q < init.len() implies (#[trigger] init[q] as int) < ts.len() by {
            assert(init[q] == roots[q]);
        }
        law_unlock_all_raises_to_top_rank(ts, v, init);
        let v1 = rank_ups(ts, v, init);
        let i = roots.last() as int;
        let n = ts[i].name@;
        let after = rank_ups(ts, v, roots);
        assert(roots[roots.len() - 1] == roots.last());
        lemma_with_rank_reads(v1, n, crate::unlock::max_rank(ts, i) as i64);
        assert forall|p: int|
            0 <= p < v.len() && (forall|q: int| 0 <= q < roots.len() ==> ts[#[trigger] roots[q] as int].name@ != v[p].0)
                implies #[trigger] after[p] == v[p] by {
            assert forall|q: int| 0 <= q < init.len() implies ts[#[trigger] init[q] as int].name@ != v[p].0 by {
                assert(init[q] == roots[q]);
            }
            assert(ts[roots[roots.len() - 1] as int].name@ != v[p].0);
        }
        assert forall|k: int|
            #![trigger roots[k]]
            0 <= k < roots.len() && holds(v, ts[roots[k] as int].name@) && ts[roots[k] as int].rewards@.len() > 1
                && (forall|j: int| k < j < roots.len() ==> ts[#[trigger] roots[j] as int].name@ != ts[roots[k] as int].name@)
                implies rank_of(after, ts[roots[k] as int].name@) == Some(ts[roots[k] as int].rewards@.len() as i64) by {
            let m = ts[roots[k] as int].name@;
            let kp = choose|kp: int| 0 <= kp < v.len() && #[trigger] v[kp].0 == m;
            assert(v1[kp].0 == m);
            assert(holds(v1, m));
            if k == roots.len() - 1 {
                assert(m == n);
            } else {
                assert(init[k] == roots[k]);
                assert forall|j: int| k < j < init.len() implies ts[#[trigger] init[j] as int].name@ != m by {
                    assert(init[j] == roots[j]);
                }
                assert(rank_of(v1, m) == Some(ts[init[k] as int].rewards@.len() as i64));
                assert(ts[roots[roots.len() - 1] as int].name@ != m);
            }
        }
    }
}


/// A flag is wanted exactly when some held entry whose row resolves to a
/// talent has earned a reward tier granting it: tier `q` (counting from 0)
/// is earned once the entry's rank exceeds `q`, and the first tier always
/// is. A talent held at rank 1 turns on no flag that only its second tier
/// grants.
pub proof fn law_flags_follow_earned_tiers(
    ts: Seq<ResolvedTalent>,
    fi: spec_fn(Seq<char>) -> Option<i64>,
    held: Seq<(Seq<char>, i64)>,
    idx: i64,
)
    ensures
        desired_flags(ts, fi, held).contains(idx) <==> exists|k: int, q: int, g: int|
            #![trigger held[k], ts[find_last(ts, held[k].0).unwrap()].rewards@[q].granted_flags@[g]]
            0 <= k < held.len() && find_last(ts, held[k].0) is Some
                && 0 <= q < ts[find_last(ts, held[k].0).unwrap()].rewards@.len() && (q == 0 || q < held[k].1)
                && 0 <= g < ts[find_last(ts, held[k].0).unwrap()].rewards@[q].granted_flags@.len()
                && fi(ts[find_last(ts, held[k].0).unwrap()].rewards@[q].granted_flags@[g]@) == Some(idx),
{
    if desired_flags(ts, fi, held).contains(idx) {
        let k = choose|k: int|
            0 <= k < held.len() && #[trigger] find_last(ts, held[k].0) is Some && crate::sync::grants(
                ts,
                fi,
                find_last(ts, held[k].0).unwrap(),
                crate::sync::tiers_at(held[k].1, ts[find_last(ts, held[k].0).unwrap()].rewards@.len() as int),
                idx,
            );
        let i = find_last(ts, held[k].0).unwrap();
        let (q, g) = choose|q: int, g: int|
            0 <= q < crate::sync::tiers_at(held[k].1, ts[i].rewards@.len() as int) && q < ts[i].rewards@.len()
                && 0 <= g < ts[i].rewards@[q].granted_flags@.len() && fi(
                #[trigger] ts[i].rewards@[q].granted_flags@[g]@,
            ) == Some(idx);
        assert(held[k] == held[k]);
        assert(ts[i].rewards@[q].granted_flags@[g] == ts[i].rewards@[q].granted_flags@[g]);
    }
    if exists|k: int, q: int, g: int|
        #![trigger held[k], ts[find_last(ts, held[k].0).unwrap()].rewards@[q].granted_flags@[g]]
        0 <= k < held.len() && find_last(ts, held[k].0) is Some
            && 0 <= q < ts[find_last(ts, held[k].0).unwrap()].rewards@.len() && (q == 0 || q < held[k].1)
            && 0 <= g < ts[find_last(ts, held[k].0).unwrap()].rewards@[q].granted_flags@.len()
            && fi(ts[find_last(ts, held[k].0).unwrap()].rewards@[q].granted_flags@[g]@) == Some(idx) {
        let (k, q, g) = choose|k: int, q: int, g: int|
            #![trigger held[k], ts[find_last(ts, held[k].0).unwrap()].rewards@[q].granted_flags@[g]]
            0 <= k < held.len() && find_last(ts, held[k].0) is Some
                && 0 <= q < ts[find_last(ts, held[k].0).unwrap()].rewards@.len() && (q == 0 || q < held[k].1)
                && 0 <= g < ts[find_last(ts, held[k].0).unwrap()].rewards@[q].granted_flags@.len()
                && fi(ts[find_last(ts, held[k].0).unwrap()].rewards@[q].granted_flags@[g]@) == Some(idx);
        let i = find_last(ts, held[k].0).unwrap();
        assert(fi(ts[i].rewards@[q].granted_flags@[g]@) == Some(idx));
        assert(crate::sync::grants(
            ts,
            fi,
            i,
            crate::sync::tiers_at(held[k].1, ts[i].rewards@.len() as int),
            idx,
        ));
    }
}


/// An unlock adds each row at rank 1; it adds exactly the visited rows that
/// the save stores, that are not granted by default and that were not held.
pub proof fn law_unlock_adds_at_rank_one(
    ts: Seq<ResolvedTalent>,
    st: spec_fn(Category) -> bool,
    held: Seq<(Seq<char>, i64)>,
    o: Seq<usize>,
)
    ensures
        forall|p: int| 0 <= p < additions(ts, st, held, o).len() ==> #[trigger] additions(ts, st, held, o)[p].1 == 1,
        forall|p: int|
            #![trigger additions(ts, st, held, o)[p]]
            0 <= p < additions(ts, st, held, o).len() ==> exists|q: int|
                0 <= q < o.len() && #[trigger] ts[o[q] as int].name@ == additions(ts, st, held, o)[p].0
                    && !ts[o[q] as int].default_unlocked && st(ts[o[q] as int].category) && !holds(
                    held,
                    ts[o[q] as int].name@,
                ),
        forall|q: int|
            #![trigger o[q]]
            0 <= q < o.len() && !ts[o[q] as int].default_unlocked && st(ts[o[q] as int].category)
                ==> holds(held, ts[o[q] as int].name@) || holds(additions(ts, st, held, o), ts[o[q] as int].name@),
    decreases o.len(),
{
    if o.len() > 0 {
        let init = o.drop_last();
        law_unlock_adds_at_rank_one(ts, st, held, init);
        let prev = additions(ts, st, held, init);
        let a = additions(ts, st, held, o);
        assert forall|p: int| 0 <= p < a.len() implies #[trigger] a[p].1 == 1 by {
            if p < prev.len() {
                assert(a[p] == prev[p]);
            }
        }
        assert forall|p: int| #![trigger a[p]] 0 <= p < a.len() implies exists|q: int|
            0 <= q < o.len() && #[trigger] ts[o[q] as int].name@ == a[p].0 && !ts[o[q] as int].default_unlocked
                && st(ts[o[q] as int].category) && !holds(held, ts[o[q] as int].name@) by {
            if p < prev.len() {
                assert(a[p] == prev[p]);
                let q = choose|q: int|
                    0 <= q < init.len() && #[trigger] ts[init[q] as int].name@ == prev[p].0
                        && !ts[init[q] as int].default_unlocked && st(ts[init[q] as int].category) && !holds(
                        held,
                        ts[init[q] as int].name@,
                    );
                assert(o[q] == init[q]);
            } else {
                assert(o[o.len() - 1] == o.last());
            }
        }
        assert forall|q: int|
            #![trigger o[q]]
            0 <= q < o.len() && !ts[o[q] as int].default_unlocked && st(ts[o[q] as int].category)
                implies holds(held, ts[o[q] as int].name@) || holds(a, ts[o[q] as int].name@) by {
            if !holds(held, ts[o[q] as int].name@) {
                lemma_additions_hold(ts, st, held, o, q);
            }
        }
    }
}

} // verus!
