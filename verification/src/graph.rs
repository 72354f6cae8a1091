//! Reachability in the talent dependency graph, stated as least closed sets.
//!
//! Nodes are catalogue positions. A walk starts from some seed nodes, never
//! enters nodes it has already marked, and continues past a node only when
//! that node "expands". The set of nodes such a walk marks is the least set
//! that holds every unmarked seed and every unmarked successor of each
//! expanding member.

use vstd::prelude::*;

verus! {

/// `c` holds every seed outside `avoid`, and every successor outside `avoid`
/// of each of its members that expands.
pub open spec fn is_closed(
    seeds: Set<int>,
    avoid: Set<int>,
    expand: spec_fn(int) -> bool,
    succ: spec_fn(int) -> Set<int>,
    c: Set<int>,
) -> bool {
    &&& forall|n: int| #[trigger] seeds.contains(n) && !avoid.contains(n) ==> c.contains(n)
    &&& forall|m: int, n: int|
        #[trigger] c.contains(m) && expand(m) && #[trigger] succ(m).contains(n) && !avoid.contains(n)
            ==> c.contains(n)
}

/// The nodes a walk from `seeds` reaches while avoiding `avoid`: the least
/// closed set.
pub open spec fn closure(
    seeds: Set<int>,
    avoid: Set<int>,
    expand: spec_fn(int) -> bool,
    succ: spec_fn(int) -> Set<int>,
) -> Set<int> {
    Set::new(
        |n: int|
            forall|c: Set<int>| #[trigger] is_closed(seeds, avoid, expand, succ, c) ==> c.contains(n),
    )
}

/// The closure is itself closed.
pub proof fn lemma_closure_is_closed(
    seeds: Set<int>,
    avoid: Set<int>,
    expand: spec_fn(int) -> bool,
    succ: spec_fn(int) -> Set<int>,
)
    ensures
        is_closed(seeds, avoid, expand, succ, closure(seeds, avoid, expand, succ)),
{
    let cl = closure(seeds, avoid, expand, succ);
    assert forall|n: int| #[trigger] seeds.contains(n) && !avoid.contains(n) implies cl.contains(n) by {
        assert forall|c: Set<int>| #[trigger] is_closed(seeds, avoid, expand, succ, c) implies c.contains(
            n,
        ) by {}
    }
    assert forall|m: int, n: int|
        #[trigger] cl.contains(m) && expand(m) && #[trigger] succ(m).contains(n) && !avoid.contains(
            n,
        ) implies cl.contains(n) by {
        assert forall|c: Set<int>| #[trigger] is_closed(seeds, avoid, expand, succ, c) implies c.contains(
            n,
        ) by {
            assert(c.contains(m));
        }
    }
}

/// The closure lies inside every closed set.
pub proof fn lemma_closure_least(
    seeds: Set<int>,
    avoid: Set<int>,
    expand: spec_fn(int) -> bool,
    succ: spec_fn(int) -> Set<int>,
    c: Set<int>,
)
    requires
        is_closed(seeds, avoid, expand, succ, c),
    ensures
        closure(seeds, avoid, expand, succ).subset_of(c),
{
}

/// The closure holds no avoided node.
pub proof fn lemma_closure_avoids(
    seeds: Set<int>,
    avoid: Set<int>,
    expand: spec_fn(int) -> bool,
    succ: spec_fn(int) -> Set<int>,
)
    ensures
        closure(seeds, avoid, expand, succ).disjoint(avoid),
{
    let outside = Set::new(|n: int| !avoid.contains(n));
    assert(is_closed(seeds, avoid, expand, succ, outside));
    lemma_closure_least(seeds, avoid, expand, succ, outside);
}

/// A closed set that lies inside every closed set is the closure.
pub proof fn lemma_closure_exact(
    seeds: Set<int>,
    avoid: Set<int>,
    expand: spec_fn(int) -> bool,
    succ: spec_fn(int) -> Set<int>,
    d: Set<int>,
)
    requires
        is_closed(seeds, avoid, expand, succ, d),
        forall|c: Set<int>| #[trigger] is_closed(seeds, avoid, expand, succ, c) ==> d.subset_of(c),
    ensures
        d == closure(seeds, avoid, expand, succ),
{
    let cl = closure(seeds, avoid, expand, succ);
    lemma_closure_is_closed(seeds, avoid, expand, succ);
    assert(d.subset_of(cl));
    lemma_closure_least(seeds, avoid, expand, succ, d);
    assert(d =~= cl);
}

/// Nothing is reached from no seeds.
pub proof fn lemma_closure_empty(
    avoid: Set<int>,
    expand: spec_fn(int) -> bool,
    succ: spec_fn(int) -> Set<int>,
)
    ensures
        closure(Set::empty(), avoid, expand, succ) == Set::<int>::empty(),
{
    assert(is_closed(Set::empty(), avoid, expand, succ, Set::empty()));
    lemma_closure_least(Set::empty(), avoid, expand, succ, Set::empty());
    assert(closure(Set::empty(), avoid, expand, succ) =~= Set::<int>::empty());
}

/// Walking from two seed sets one after the other, the second avoiding what
/// the first reached, reaches what a walk from both at once reaches.
pub proof fn lemma_closure_union(
    s1: Set<int>,
    s2: Set<int>,
    avoid: Set<int>,
    expand: spec_fn(int) -> bool,
    succ: spec_fn(int) -> Set<int>,
)
    ensures
        closure(s1.union(s2), avoid, expand, succ) == closure(s1, avoid, expand, succ).union(
            closure(s2, avoid.union(closure(s1, avoid, expand, succ)), expand, succ),
        ),
{
    let a = closure(s1, avoid, expand, succ);
    let av2 = avoid.union(a);
    let b = closure(s2, av2, expand, succ);
    let c = closure(s1.union(s2), avoid, expand, succ);
    lemma_closure_is_closed(s1.union(s2), avoid, expand, succ);
    lemma_closure_is_closed(s1, avoid, expand, succ);
    lemma_closure_is_closed(s2, av2, expand, succ);
    // the joint walk reaches everything either part reaches
    assert(is_closed(s1, avoid, expand, succ, c)) by {
        assert forall|n: int| #[trigger] s1.contains(n) && !avoid.contains(n) implies c.contains(n) by {
            assert(s1.union(s2).contains(n));
        }
    }
    lemma_closure_least(s1, avoid, expand, succ, c);
    assert(is_closed(s2, av2, expand, succ, c)) by {
        assert forall|n: int| #[trigger] s2.contains(n) && !av2.contains(n) implies c.contains(n) by {
            assert(s1.union(s2).contains(n));
        }
        assert forall|m: int, n: int|
            #[trigger] c.contains(m) && expand(m) && #[trigger] succ(m).contains(n)
                && !av2.contains(n) implies c.contains(n) by {}
    }
    lemma_closure_least(s2, av2, expand, succ, c);
    // and the two parts together are closed for the joint walk
    let ab = a.union(b);
    assert(is_closed(s1.union(s2), avoid, expand, succ, ab)) by {
        assert forall|n: int| #[trigger] s1.union(s2).contains(n) && !avoid.contains(n) implies ab.contains(
            n,
        ) by {
            if s1.contains(n) {
                assert(a.contains(n));
            } else if !a.contains(n) {
                assert(s2.contains(n));
                assert(b.contains(n));
            }
        }
        assert forall|m: int, n: int|
            #[trigger] ab.contains(m) && expand(m) && #[trigger] succ(m).contains(n) && !avoid.contains(
                n,
            ) implies ab.contains(n) by {
            if a.contains(m) {
                assert(a.contains(n));
            } else if !a.contains(n) {
                assert(b.contains(m));
                assert(b.contains(n));
            }
        }
    }
    lemma_closure_least(s1.union(s2), avoid, expand, succ, ab);
    assert(c =~= ab);
}

/// Reaching from one unavoided node: the node itself and, when it expands,
/// whatever its successors reach without coming back to it.
pub proof fn lemma_closure_single(
    n: int,
    avoid: Set<int>,
    expand: spec_fn(int) -> bool,
    succ: spec_fn(int) -> Set<int>,
)
    requires
        !avoid.contains(n),
    ensures
        closure(set![n], avoid, expand, succ) == (if expand(n) {
            set![n].union(closure(succ(n), avoid.insert(n), expand, succ))
        } else {
            set![n]
        }),
{
    let c = closure(set![n], avoid, expand, succ);
    lemma_closure_is_closed(set![n], avoid, expand, succ);
    assert(set![n].contains(n));
    assert(c.contains(n));
    if expand(n) {
        let av2 = avoid.insert(n);
        let b = closure(succ(n), av2, expand, succ);
        lemma_closure_is_closed(succ(n), av2, expand, succ);
        assert(is_closed(succ(n), av2, expand, succ, c)) by {
            assert forall|s: int| #[trigger] succ(n).contains(s) && !av2.contains(s) implies c.contains(
                s,
            ) by {}
            assert forall|m: int, s: int|
                #[trigger] c.contains(m) && expand(m) && #[trigger] succ(m).contains(s)
                    && !av2.contains(s) implies c.contains(s) by {}
        }
        lemma_closure_least(succ(n), av2, expand, succ, c);
        let nb = set![n].union(b);
        assert(is_closed(set![n], avoid, expand, succ, nb)) by {
            assert forall|m: int, s: int|
                #[trigger] nb.contains(m) && expand(m) && #[trigger] succ(m).contains(s)
                    && !avoid.contains(s) implies nb.contains(s) by {
                if s != n {
                    if m == n {
                        assert(b.contains(s));
                    } else {
                        assert(b.contains(m));
                        assert(b.contains(s));
                    }
                }
            }
        }
        lemma_closure_least(set![n], avoid, expand, succ, nb);
        assert(c =~= nb);
    } else {
        assert(is_closed(set![n], avoid, expand, succ, set![n]));
        lemma_closure_least(set![n], avoid, expand, succ, set![n]);
        assert(c =~= set![n]);
    }
}

/// An avoided seed reaches nothing.
pub proof fn lemma_closure_single_avoided(
    n: int,
    avoid: Set<int>,
    expand: spec_fn(int) -> bool,
    succ: spec_fn(int) -> Set<int>,
)
    requires
        avoid.contains(n),
    ensures
        closure(set![n], avoid, expand, succ) == Set::<int>::empty(),
{
    assert(is_closed(set![n], avoid, expand, succ, Set::empty()));
    lemma_closure_least(set![n], avoid, expand, succ, Set::empty());
    assert(closure(set![n], avoid, expand, succ) =~= Set::<int>::empty());
}

/// Two expansion rules that agree outside `avoid` reach the same nodes.
pub proof fn lemma_closure_agree(
    seeds: Set<int>,
    avoid: Set<int>,
    e1: spec_fn(int) -> bool,
    e2: spec_fn(int) -> bool,
    succ: spec_fn(int) -> Set<int>,
)
    requires
        forall|m: int| !avoid.contains(m) ==> e1(m) == e2(m),
    ensures
        closure(seeds, avoid, e1, succ) == closure(seeds, avoid, e2, succ),
{
    lemma_closure_one_way(seeds, avoid, e1, e2, succ);
    lemma_closure_one_way(seeds, avoid, e2, e1, succ);
    assert(closure(seeds, avoid, e1, succ) =~= closure(seeds, avoid, e2, succ));
}

proof fn lemma_closure_one_way(
    seeds: Set<int>,
    avoid: Set<int>,
    e1: spec_fn(int) -> bool,
    e2: spec_fn(int) -> bool,
    succ: spec_fn(int) -> Set<int>,
)
    requires
        forall|m: int| !avoid.contains(m) ==> e1(m) == e2(m),
    ensures
        closure(seeds, avoid, e1, succ).subset_of(closure(seeds, avoid, e2, succ)),
{
    let c2 = closure(seeds, avoid, e2, succ);
    lemma_closure_is_closed(seeds, avoid, e2, succ);
    lemma_closure_avoids(seeds, avoid, e2, succ);
    assert(is_closed(seeds, avoid, e1, succ, c2)) by {
        assert forall|m: int, n: int|
            #[trigger] c2.contains(m) && e1(m) && #[trigger] succ(m).contains(n) && !avoid.contains(
                n,
            ) implies c2.contains(n) by {
            assert(!avoid.contains(m));
        }
    }
    lemma_closure_least(seeds, avoid, e1, succ, c2);
}

/// Seeds or successors that differ only on avoided nodes reach the same nodes.
pub proof fn lemma_closure_seeds_agree(
    s1: Set<int>,
    s2: Set<int>,
    avoid: Set<int>,
    expand: spec_fn(int) -> bool,
    succ: spec_fn(int) -> Set<int>,
)
    requires
        forall|n: int| !avoid.contains(n) ==> (s1.contains(n) == s2.contains(n)),
    ensures
        closure(s1, avoid, expand, succ) == closure(s2, avoid, expand, succ),
{
    let c1 = closure(s1, avoid, expand, succ);
    let c2 = closure(s2, avoid, expand, succ);
    lemma_closure_is_closed(s1, avoid, expand, succ);
    lemma_closure_is_closed(s2, avoid, expand, succ);
    assert(is_closed(s1, avoid, expand, succ, c2));
    assert(is_closed(s2, avoid, expand, succ, c1));
    lemma_closure_least(s1, avoid, expand, succ, c2);
    lemma_closure_least(s2, avoid, expand, succ, c1);
    assert(c1 =~= c2);
}

/// How many entries of `s` are unset.
pub open spec fn count_unset(s: Seq<bool>) -> nat
    decreases s.len(),
{
    if s.len() == 0 {
        0
    } else {
        count_unset(s.drop_last()) + if s.last() {
            0nat
        } else {
            1nat
        }
    }
}

/// Setting more entries never raises the count of unset ones, and setting
/// an unset one lowers it.
pub proof fn lemma_count_unset(s1: Seq<bool>, s2: Seq<bool>, i: int)
    requires
        s1.len() == s2.len(),
        forall|k: int| 0 <= k < s1.len() && #[trigger] s1[k] ==> s2[k],
    ensures
        count_unset(s2) <= count_unset(s1),
        0 <= i < s1.len() && !s1[i] && s2[i] ==> count_unset(s2) < count_unset(s1),
    decreases s1.len(),
{
    if s1.len() > 0 {
        let n = s1.len() - 1;
        assert forall|k: int| 0 <= k < s1.drop_last().len() && #[trigger] s1.drop_last()[k] implies s2.drop_last()[k] by {
            assert(s1[k]);
        }
        if i == n {
            lemma_count_unset(s1.drop_last(), s2.drop_last(), -1);
        } else {
            lemma_count_unset(s1.drop_last(), s2.drop_last(), i);
        }
    }
}

/// The set positions of `s`.
pub open spec fn marked(s: Seq<bool>) -> Set<int> {
    Set::new(|i: int| 0 <= i < s.len() && s[i])
}

/// The positions set in `after` but not in `before`.
pub open spec fn newly_marked(before: Seq<bool>, after: Seq<bool>) -> Set<int> {
    Set::new(|i: int| 0 <= i < after.len() && after[i] && !before[i])
}

/// `s` lists exactly the members of `d`, each once.
pub open spec fn lists_exactly(s: Seq<usize>, d: Set<int>) -> bool {
    &&& forall|k: int| 0 <= k < s.len() ==> d.contains(#[trigger] s[k] as int)
    &&& forall|n: int| d.contains(n) ==> exists|k: int| 0 <= k < s.len() && #[trigger] s[k] as int == n
    &&& forall|k1: int, k2: int| 0 <= k1 < k2 < s.len() ==> #[trigger] s[k1] != #[trigger] s[k2]
}

/// More seeds reach at least as much.
pub proof fn lemma_closure_mono(
    s1: Set<int>,
    s2: Set<int>,
    avoid: Set<int>,
    expand: spec_fn(int) -> bool,
    succ: spec_fn(int) -> Set<int>,
)
    requires
        s1.subset_of(s2),
    ensures
        closure(s1, avoid, expand, succ).subset_of(closure(s2, avoid, expand, succ)),
{
    let c2 = closure(s2, avoid, expand, succ);
    lemma_closure_is_closed(s2, avoid, expand, succ);
    assert(is_closed(s1, avoid, expand, succ, c2));
    lemma_closure_least(s1, avoid, expand, succ, c2);
}

/// Listing two disjoint sets one after the other lists their union.
pub proof fn lemma_lists_concat(a: Seq<usize>, b: Seq<usize>, da: Set<int>, db: Set<int>)
    requires
        lists_exactly(a, da),
        lists_exactly(b, db),
        da.disjoint(db),
    ensures
        lists_exactly(a + b, da.union(db)),
{
    let s = a + b;
    assert forall|k: int| 0 <= k < s.len() implies da.union(db).contains(#[trigger] s[k] as int) by {
        if k < a.len() {
            assert(s[k] == a[k]);
        } else {
            assert(s[k] == b[k - a.len()]);
        }
    }
    assert forall|n: int| da.union(db).contains(n) implies exists|k: int|
        0 <= k < s.len() && #[trigger] s[k] as int == n by {
        if da.contains(n) {
            let k = choose|k: int| 0 <= k < a.len() && #[trigger] a[k] as int == n;
            assert(s[k] == a[k]);
        } else {
            let k = choose|k: int| 0 <= k < b.len() && #[trigger] b[k] as int == n;
            assert(s[k + a.len()] == b[k]);
        }
    }
    assert forall|k1: int, k2: int| 0 <= k1 < k2 < s.len() implies #[trigger] s[k1] != #[trigger] s[k2] by {
        if k2 < a.len() {
            assert(s[k1] == a[k1] && s[k2] == a[k2]);
        } else if k1 >= a.len() {
            assert(s[k1] == b[k1 - a.len()] && s[k2] == b[k2 - a.len()]);
        } else {
            assert(s[k1] == a[k1] && s[k2] == b[k2 - a.len()]);
            assert(da.contains(s[k1] as int));
            assert(db.contains(s[k2] as int));
        }
    }
}

/// Marks only ever get added: positions newly marked over two steps are
/// those newly marked in either step.
pub proof fn lemma_newly_marked_trans(v0: Seq<bool>, v1: Seq<bool>, v2: Seq<bool>)
    requires
        v0.len() == v1.len() == v2.len(),
        forall|i: int| 0 <= i < v0.len() && #[trigger] v0[i] ==> v1[i],
        forall|i: int| 0 <= i < v1.len() && #[trigger] v1[i] ==> v2[i],
    ensures
        newly_marked(v0, v2) == newly_marked(v0, v1).union(newly_marked(v1, v2)),
        newly_marked(v0, v1).disjoint(newly_marked(v1, v2)),
        marked(v1) == marked(v0).union(newly_marked(v0, v1)),
{
    assert(newly_marked(v0, v2) =~= newly_marked(v0, v1).union(newly_marked(v1, v2)));
    assert(marked(v1) =~= marked(v0).union(newly_marked(v0, v1)));
}

} // verus!
