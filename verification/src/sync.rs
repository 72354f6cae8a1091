//! Talent-granted `UnlockedFlags`: which flags the talent list grants, and
//! bringing the flag list back in line with it.

use vstd::prelude::*;
use crate::catalog::{Catalog, find_last, is_node, lemma_find_last};
use crate::levels::clamp_int;
use crate::model::ResolvedTalent;
use crate::owner::{TalentOwner, FlagOwner, flags_after, entries_view};

verus! {

/// The list without any element of `s`, the rest in order.
pub open spec fn strip(f: Seq<i64>, s: Set<i64>) -> Seq<i64>
    decreases f.len(),
{
    if f.len() == 0 {
        f
    } else if s.contains(f.last()) {
        strip(f.drop_last(), s)
    } else {
        strip(f.drop_last(), s).push(f.last())
    }
}

/// The members of a list, as a set.
pub open spec fn iset(f: Seq<i64>) -> Set<i64> {
    Set::new(|x: i64| f.contains(x))
}

/// No value occurs twice.
pub open spec fn no_dups(f: Seq<i64>) -> bool {
    forall|a: int, b: int| 0 <= a < b < f.len() ==> f[a] != f[b]
}

/// `after` is `before` brought in line with `desired` over `universe`: the
/// members of `before` are kept, in order, unless they lie in the universe
/// and are not desired; then each desired member of the universe that was
/// missing is appended once.
pub open spec fn synced(before: Seq<i64>, after: Seq<i64>, universe: Set<i64>, desired: Set<i64>) -> bool {
    exists|app: Seq<i64>|
        {
            &&& after == strip(before, universe.difference(desired)) + app
            &&& no_dups(app)
            &&& iset(app) == universe.intersect(desired).difference(iset(before))
        }
}

/// Talent `i`'s first `tiers` reward tiers grant the flag with index `idx`
/// (a flag name resolving to `idx` through `fi`).
pub open spec fn grants(
    ts: Seq<ResolvedTalent>,
    fi: spec_fn(Seq<char>) -> Option<i64>,
    i: int,
    tiers: int,
    idx: i64,
) -> bool {
    exists|q: int, g: int|
        0 <= q < tiers && q < ts[i].rewards@.len() && 0 <= g < ts[i].rewards@[q].granted_flags@.len()
            && fi(#[trigger] ts[i].rewards@[q].granted_flags@[g]@) == Some(idx)
}

/// How many reward tiers a talent at `rank` has earned, out of `n`.
pub open spec fn tiers_at(rank: i64, n: int) -> int {
    clamp_int(rank as int, 1, n)
}

/// The flags the held talents grant: for each entry whose row resolves, the
/// flags of the reward tiers up to its rank.
pub open spec fn desired_flags(
    ts: Seq<ResolvedTalent>,
    fi: spec_fn(Seq<char>) -> Option<i64>,
    held: Seq<(Seq<char>, i64)>,
) -> Set<i64> {
    Set::new(
        |idx: i64|
            exists|k: int|
                0 <= k < held.len() && #[trigger] find_last(ts, held[k].0) is Some && grants(
                    ts,
                    fi,
                    find_last(ts, held[k].0).unwrap(),
                    tiers_at(held[k].1, ts[find_last(ts, held[k].0).unwrap()].rewards@.len() as int),
                    idx,
                ),
    )
}

/// The flags some talent could grant at some rank.
pub open spec fn flag_universe(ts: Seq<ResolvedTalent>, fi: spec_fn(Seq<char>) -> Option<i64>) -> Set<
    i64,
> {
    Set::new(
        |idx: i64|
            exists|i: int| #[trigger] is_node(ts, i) && grants(ts, fi, i, ts[i].rewards@.len() as int, idx),
    )
}

/// Every held entry whose row resolves has at least one reward tier.
pub open spec fn rewards_ok(ts: Seq<ResolvedTalent>, held: Seq<(Seq<char>, i64)>) -> bool {
    forall|k: int|
        0 <= k < held.len() && #[trigger] find_last(ts, held[k].0) is Some ==> ts[find_last(
            ts,
            held[k].0,
        ).unwrap()].rewards@.len() >= 1
}

/// Appending a value adds it to the set.
pub proof fn lemma_iset_push(s: Seq<i64>, x: i64)
    ensures
        iset(s.push(x)) == iset(s).insert(x),
{
    let t = s.push(x);
    assert forall|y: i64| iset(t).contains(y) implies iset(s).insert(x).contains(y) by {
        let k = choose|k: int| 0 <= k < t.len() && t[k] == y;
        if k < s.len() {
            assert(s[k] == y);
        }
    }
    assert forall|y: i64| iset(s).insert(x).contains(y) implies iset(t).contains(y) by {
        if y == x {
            assert(t[s.len() as int] == y);
        } else {
            let k = choose|k: int| 0 <= k < s.len() && s[k] == y;
            assert(t[k] == y);
        }
    }
    assert(iset(t) =~= iset(s).insert(x));
}

proof fn lemma_strip_single(f: Seq<i64>, x: i64)
    ensures
        flags_after(f, x, false) == strip(f, set![x]),
    decreases f.len(),
{
    if f.len() > 0 {
        lemma_strip_single(f.drop_last(), x);
    }
}

proof fn lemma_strip_strip(f: Seq<i64>, s1: Set<i64>, s2: Set<i64>)
    ensures
        strip(strip(f, s1), s2) == strip(f, s1.union(s2)),
    decreases f.len(),
{
    if f.len() > 0 {
        lemma_strip_strip(f.drop_last(), s1, s2);
        let a = strip(f.drop_last(), s1);
        if !s1.contains(f.last()) {
            assert(a.push(f.last()).drop_last() =~= a);
        }
    }
}

proof fn lemma_strip_concat(a: Seq<i64>, b: Seq<i64>, s: Set<i64>)
    ensures
        strip(a + b, s) == strip(a, s) + strip(b, s),
    decreases b.len(),
{
    if b.len() == 0 {
        assert(a + b =~= a);
        assert(strip(a, s) + strip(b, s) =~= strip(a, s));
    } else {
        lemma_strip_concat(a, b.drop_last(), s);
        assert((a + b).drop_last() =~= a + b.drop_last());
        assert((a + b).last() == b.last());
        if !s.contains(b.last()) {
            assert(strip(a, s) + strip(b.drop_last(), s).push(b.last()) =~= (strip(a, s) + strip(
                b.drop_last(),
                s,
            )).push(b.last()));
        }
    }
}

proof fn lemma_strip_none(b: Seq<i64>, s: Set<i64>)
    requires
        forall|k: int| 0 <= k < b.len() ==> !s.contains(#[trigger] b[k]),
    ensures
        strip(b, s) == b,
    decreases b.len(),
{
    if b.len() > 0 {
        lemma_strip_none(b.drop_last(), s);
        assert(b.drop_last().push(b.last()) =~= b);
    }
}

/// A stripped list holds a value exactly when the list did and the value
/// was not stripped.
pub(crate) proof fn lemma_strip_contains(f: Seq<i64>, s: Set<i64>, x: i64)
    ensures
        strip(f, s).contains(x) == (f.contains(x) && !s.contains(x)),
    decreases f.len(),
{
    if f.len() > 0 {
        lemma_strip_contains(f.drop_last(), s, x);
        let d = f.drop_last();
        if f.contains(x) && !s.contains(x) {
            let k = choose|k: int| 0 <= k < f.len() && f[k] == x;
            if k < f.len() - 1 {
                assert(d[k] == x);
            }
        }
        if d.contains(x) {
            let k = choose|k: int| 0 <= k < d.len() && d[k] == x;
            assert(f[k] == x);
        }
        if !s.contains(f.last()) {
            let r = strip(d, s);
            if r.push(f.last()).contains(x) && x != f.last() {
                let k = choose|k: int| 0 <= k < r.len() + 1 && r.push(f.last())[k] == x;
                assert(r[k] == x);
            }
            if r.contains(x) {
                let k = choose|k: int| 0 <= k < r.len() && r[k] == x;
                assert(r.push(f.last())[k] == x);
            }
            assert(r.push(f.last())[r.len() as int] == f.last());
        }
    }
}

/// One step of bringing the flag list in line: switching `x` on when it is
/// desired and off when it is not keeps the list synced over the grown
/// processed set.
proof fn lemma_sync_step(
    f0: Seq<i64>,
    cur: Seq<i64>,
    app: Seq<i64>,
    p: Set<i64>,
    d: Set<i64>,
    x: i64,
) -> (app2: Seq<i64>)
    requires
        cur == strip(f0, p.difference(d)) + app,
        no_dups(app),
        iset(app) == p.intersect(d).difference(iset(f0)),
    ensures
        flags_after(cur, x, d.contains(x)) == strip(f0, p.insert(x).difference(d)) + app2,
        no_dups(app2),
        iset(app2) == p.insert(x).intersect(d).difference(iset(f0)),
{
    let s = strip(f0, p.difference(d));
    lemma_strip_contains(f0, p.difference(d), x);
    if d.contains(x) {
        assert(p.insert(x).difference(d) =~= p.difference(d));
        let in_app = app.contains(x);
        if in_app {
            let k = choose|k: int| 0 <= k < app.len() && app[k] == x;
            assert(cur[s.len() + k] == x);
        }
        if s.contains(x) {
            let k = choose|k: int| 0 <= k < s.len() && s[k] == x;
            assert(cur[k] == x);
        }
        if cur.contains(x) {
            let k = choose|k: int| 0 <= k < cur.len() && cur[k] == x;
            if k < s.len() {
                assert(s[k] == x);
            } else {
                assert(app[k - s.len()] == x);
            }
            assert(iset(app) =~= p.insert(x).intersect(d).difference(iset(f0)));
            app
        } else {
            assert(!iset(app).contains(x));
            let app2 = app.push(x);
            assert(cur.push(x) =~= s + app2);
            lemma_iset_push(app, x);
            assert(iset(app2) =~= p.insert(x).intersect(d).difference(iset(f0)));
            assert forall|a: int, b: int| 0 <= a < b < app2.len() implies app2[a] != app2[b] by {
                if b == app.len() {
                    assert(app.contains(app[a]));
                }
            }
            app2
        }
    } else {
        lemma_strip_single(cur, x);
        lemma_strip_concat(s, app, set![x]);
        lemma_strip_strip(f0, p.difference(d), set![x]);
        assert(p.difference(d).union(set![x]) =~= p.insert(x).difference(d));
        assert forall|k: int| 0 <= k < app.len() implies !set![x].contains(#[trigger] app[k]) by {
            assert(iset(app).contains(app[k]));
        }
        lemma_strip_none(app, set![x]);
        assert(iset(app) =~= p.insert(x).intersect(d).difference(iset(f0)));
        app
    }
}

/// Whether `v` holds `x`.
pub fn contains_i64(v: &Vec<i64>, x: i64) -> (r: bool)
    ensures
        r == v@.contains(x),
{
    let n = v.len();
    for k in 0..n
        invariant
            n == v@.len(),
            forall|j: int| 0 <= j < k ==> v@[j] != x,
    {
        if v[k] == x {
            return true;
        }
    }
    false
}

/// The flags tiers below `q` grant, plus those of tier `q`'s first `g` flags.
pub open spec fn grants_upto(
    ts: Seq<ResolvedTalent>,
    fi: spec_fn(Seq<char>) -> Option<i64>,
    i: int,
    q: int,
    g: int,
) -> Set<i64> {
    Set::new(
        |idx: i64|
            exists|qq: int, gg: int|
                0 <= qq < ts[i].rewards@.len() && 0 <= gg < ts[i].rewards@[qq].granted_flags@.len()
                    && (qq < q || (qq == q && gg < g)) && fi(
                    #[trigger] ts[i].rewards@[qq].granted_flags@[gg]@,
                ) == Some(idx),
    )
}

/// Appends the flags that the first `tiers` reward tiers of talent `i` grant.
fn push_grants<T: TalentOwner>(catalog: &Catalog, i: usize, tiers: usize, out: &mut Vec<i64>)
    requires
        i < catalog.rows().len(),
        tiers <= catalog.rows()[i as int].rewards@.len(),
    ensures
        iset(final(out)@) == iset(old(out)@).union(
            Set::new(
                |idx: i64|
                    grants(
                        catalog.rows(),
                        |n: Seq<char>| T::spec_flag_index(catalog, n),
                        i as int,
                        tiers as int,
                        idx,
                    ),
            ),
        ),
{
    let ghost ts = catalog.rows();
    let ghost fi = |n: Seq<char>| T::spec_flag_index(catalog, n);
    let t = catalog.talent(i);
    let ghost o0 = out@;
    assert(grants_upto(ts, fi, i as int, 0, 0) =~= Set::<i64>::empty());
    assert(iset(out@) =~= iset(o0).union(grants_upto(ts, fi, i as int, 0, 0)));
    for q in 0..tiers
        invariant
            ts == catalog.rows(),
            fi == (|n: Seq<char>| T::spec_flag_index(catalog, n)),
            i < ts.len(),
            *t == ts[i as int],
            tiers <= ts[i as int].rewards@.len(),
            iset(out@) == iset(o0).union(grants_upto(ts, fi, i as int, q as int, 0)),
    {
        let r = &t.rewards[q];
        let m = r.granted_flags.len();
        for g in 0..m
            invariant
                ts == catalog.rows(),
                fi == (|n: Seq<char>| T::spec_flag_index(catalog, n)),
                i < ts.len(),
                *t == ts[i as int],
                q < tiers <= ts[i as int].rewards@.len(),
                *r == ts[i as int].rewards@[q as int],
                m == r.granted_flags@.len(),
                iset(out@) == iset(o0).union(grants_upto(ts, fi, i as int, q as int, g as int)),
        {
            let ghost before = out@;
            match T::flag_index(catalog, r.granted_flags[g].as_str()) {
                Some(idx) => {
                    out.push(idx);
                    proof {
                        lemma_iset_push(before, idx);
                    }
                },
                None => {},
            }
            proof {
                let nxt = grants_upto(ts, fi, i as int, q as int, g + 1);
                let cur = grants_upto(ts, fi, i as int, q as int, g as int);
                let flag = ts[i as int].rewards@[q as int].granted_flags@[g as int]@;
                assert forall|x: i64| nxt.contains(x) implies cur.contains(x) || fi(flag) == Some(x) by {
                    let (qq, gg) = choose|qq: int, gg: int|
                        0 <= qq < ts[i as int].rewards@.len() && 0 <= gg < ts[i as int].rewards@[qq].granted_flags@.len()
                            && (qq < q || (qq == q && gg < g + 1)) && fi(
                            #[trigger] ts[i as int].rewards@[qq].granted_flags@[gg]@,
                        ) == Some(x);
                    if !(qq == q && gg == g) {
                        assert(cur.contains(x));
                    }
                }
                assert forall|x: i64| cur.contains(x) || fi(flag) == Some(x) implies nxt.contains(x) by {
                    if fi(flag) == Some(x) {
                        assert(fi(ts[i as int].rewards@[q as int].granted_flags@[g as int]@) == Some(x));
                    }
                }
                assert(iset(out@) =~= iset(o0).union(nxt));
            }
        }
        proof {
            assert(grants_upto(ts, fi, i as int, q as int, m as int) =~= grants_upto(
                ts,
                fi,
                i as int,
                q + 1,
                0,
            ));
        }
    }
    proof {
        assert(grants_upto(ts, fi, i as int, tiers as int, 0) =~= Set::new(
            |idx: i64| grants(ts, fi, i as int, tiers as int, idx),
        ));
    }
}

/// The flags that the first `k` entries of `held` grant.
pub open spec fn desired_upto(
    ts: Seq<ResolvedTalent>,
    fi: spec_fn(Seq<char>) -> Option<i64>,
    held: Seq<(Seq<char>, i64)>,
    k: int,
) -> Set<i64> {
    Set::new(
        |idx: i64|
            exists|kk: int|
                0 <= kk < k && kk < held.len() && #[trigger] find_last(ts, held[kk].0) is Some && grants(
                    ts,
                    fi,
                    find_last(ts, held[kk].0).unwrap(),
                    tiers_at(held[kk].1, ts[find_last(ts, held[kk].0).unwrap()].rewards@.len() as int),
                    idx,
                ),
    )
}

/// The flags that nodes before position `i` could grant.
pub open spec fn universe_upto(ts: Seq<ResolvedTalent>, fi: spec_fn(Seq<char>) -> Option<i64>, i: int) -> Set<
    i64,
> {
    Set::new(
        |idx: i64|
            exists|j: int| 0 <= j < i && #[trigger] is_node(ts, j) && grants(ts, fi, j, ts[j].rewards@.len() as int, idx),
    )
}

/// Whether every held entry whose row resolves has a reward tier: the
/// condition under which the flag resync is defined.
pub fn rewards_ready<T: TalentOwner>(owner: &T, catalog: &Catalog) -> (r: bool)
    requires
        catalog.wf(),
    ensures
        r == rewards_ok(catalog.rows(), owner.talents_view()),
{
    let ghost ts = catalog.rows();
    let ghost held = owner.talents_view();
    let entries = owner.talent_entries();
    let n = entries.len();
    for k in 0..n
        invariant
            catalog.wf(),
            ts == catalog.rows(),
            held == owner.talents_view(),
            held == entries_view(entries@),
            n == entries@.len(),
            forall|j: int|
                0 <= j < k && #[trigger] find_last(ts, held[j].0) is Some ==> ts[find_last(
                    ts,
                    held[j].0,
                ).unwrap()].rewards@.len() >= 1,
    {
        assert(held[k as int].0 == entries@[k as int].row_name@);
        match catalog.lookup(entries[k].row_name.as_str()) {
            Some(i) => {
                proof {
                    lemma_find_last(ts, held[k as int].0);
                }
                if catalog.talent(i).rewards.len() == 0 {
                    assert(find_last(ts, held[k as int].0) == Some(i as int));
                    assert(ts[i as int].rewards@.len() == 0);
                    assert(!rewards_ok(ts, held));
                    return false;
                }
            },
            None => {},
        }
    }
    true
}

/// Recomputes the talent-granted part of `UnlockedFlags` from the current
/// talent list; flags that no talent can grant are left as they are.
pub fn sync_granted_flags<T: FlagOwner>(owner: &mut T, catalog: &Catalog)
    requires
        catalog.wf(),
        rewards_ok(catalog.rows(), old(owner).talents_view()),
    ensures
        final(owner).talents_view() == old(owner).talents_view(),
        old(owner).same_rest(*final(owner)),
        synced(
            old(owner).flags_view(),
            final(owner).flags_view(),
            flag_universe(catalog.rows(), |n: Seq<char>| T::spec_flag_index(catalog, n)),
            desired_flags(
                catalog.rows(),
                |n: Seq<char>| T::spec_flag_index(catalog, n),
                old(owner).talents_view(),
            ),
        ),
{
    let ghost ts = catalog.rows();
    let ghost fi = |n: Seq<char>| T::spec_flag_index(catalog, n);
    let ghost held = owner.talents_view();
    // Which flags should be on: the union over held talents of the flags
    // granted by the reward tiers up to their rank.
    let mut desired: Vec<i64> = Vec::new();
    let entries = owner.talent_entries();
    let n = entries.len();
    proof {
        assert(desired_upto(ts, fi, held, 0) =~= Set::<i64>::empty());
        assert(iset(desired@) =~= Set::<i64>::empty());
    }
    for k in 0..n
        invariant
            ts == catalog.rows(),
            fi == (|n: Seq<char>| T::spec_flag_index(catalog, n)),
            held == entries_view(entries@),
            n == entries@.len(),
            rewards_ok(ts, held),
            iset(desired@) == desired_upto(ts, fi, held, k as int),
    {
        let ghost before = desired@;
        assert(held[k as int].0 == entries@[k as int].row_name@);
        match catalog.lookup(entries[k].row_name.as_str()) {
            Some(i) => {
                proof {
                    lemma_find_last(ts, held[k as int].0);
                }
                let len = catalog.talent(i).rewards.len();
                let rank = entries[k].rank;
                assert(len >= 1);
                let tiers: usize = if rank < 1 {
                    1
                } else if rank as u64 >= len as u64 {
                    len
                } else {
                    rank as usize
                };
                assert(tiers as int == tiers_at(held[k as int].1, len as int));
                push_grants::<T>(catalog, i, tiers, &mut desired);
                proof {
                    assert(desired_upto(ts, fi, held, k + 1) =~= desired_upto(ts, fi, held, k as int).union(
                        Set::new(|idx: i64| grants(ts, fi, i as int, tiers as int, idx)),
                    ));
                }
            },
            None => {
                proof {
                    assert(desired_upto(ts, fi, held, k + 1) =~= desired_upto(ts, fi, held, k as int));
                }
            },
        }
    }
    proof {
        assert(desired_upto(ts, fi, held, n as int) =~= desired_flags(ts, fi, held));
    }
    // The universe of flags some talent could grant.
    let mut universe: Vec<i64> = Vec::new();
    let count = catalog.len();
    proof {
        assert(universe_upto(ts, fi, 0) =~= Set::<i64>::empty());
        assert(iset(universe@) =~= Set::<i64>::empty());
    }
    for i in 0..count
        invariant
            catalog.wf(),
            ts == catalog.rows(),
            fi == (|n: Seq<char>| T::spec_flag_index(catalog, n)),
            count == ts.len(),
            iset(universe@) == universe_upto(ts, fi, i as int),
    {
        if catalog.is_node(i) {
            let tiers = catalog.talent(i).rewards.len();
            push_grants::<T>(catalog, i, tiers, &mut universe);
            proof {
                assert(universe_upto(ts, fi, i + 1) =~= universe_upto(ts, fi, i as int).union(
                    Set::new(|idx: i64| grants(ts, fi, i as int, tiers as int, idx)),
                ));
            }
        } else {
            proof {
                assert(universe_upto(ts, fi, i + 1) =~= universe_upto(ts, fi, i as int));
            }
        }
    }
    proof {
        assert(universe_upto(ts, fi, count as int) =~= flag_universe(ts, fi));
    }
    // Bring every flag of the universe in line.
    let ghost f0 = owner.flags_view();
    let ghost d = desired_flags(ts, fi, held);
    let ghost mut app: Seq<i64> = Seq::empty();
    let u = universe.len();
    proof {
        assert(iset(universe@.take(0)) =~= Set::<i64>::empty());
        assert(Set::<i64>::empty().difference(d) =~= Set::<i64>::empty());
        lemma_strip_none(f0, Set::<i64>::empty());
        assert(owner.flags_view() =~= strip(f0, iset(universe@.take(0)).difference(d)) + app);
        assert(iset(app) =~= iset(universe@.take(0)).intersect(d).difference(iset(f0)));
        T::lemma_same_rest_refl(*owner);
    }
    for k in 0..u
        invariant
            u == universe@.len(),
            iset(desired@) == d,
            owner.talents_view() == held,
            old(owner).same_rest(*owner),
            owner.flags_view() == strip(f0, iset(universe@.take(k as int)).difference(d)) + app,
            no_dups(app),
            iset(app) == iset(universe@.take(k as int)).intersect(d).difference(iset(f0)),
    {
        let x = universe[k];
        let on = contains_i64(&desired, x);
        assert(on == d.contains(x));
        proof {
            app = lemma_sync_step(f0, owner.flags_view(), app, iset(universe@.take(k as int)), d, x);
            assert(universe@.take(k + 1) =~= universe@.take(k as int).push(x));
            lemma_iset_push(universe@.take(k as int), x);
        }
        let ghost before = *owner;
        owner.set_flag(x, on);
        proof {
            T::lemma_same_rest_trans(*old(owner), before, *owner);
        }
    }
    proof {
        assert(universe@.take(u as int) =~= universe@);
        assert(iset(universe@) == flag_universe(ts, fi));
    }
}

} // verus!
