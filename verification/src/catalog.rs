//! The resolved talent catalogue: lookup by row name, the reverse
//! dependency index, and the flag tables.

use vstd::prelude::*;
use crate::model::{ResolvedTalent, ResolvedFlag};
use crate::text::str_eq;

verus! {

/// The position of the last talent named `name`: where a name occurs more
/// than once, the later row shadows the earlier ones.
pub open spec fn find_last(ts: Seq<ResolvedTalent>, name: Seq<char>) -> Option<int>
    decreases ts.len(),
{
    if ts.len() == 0 {
        None
    } else if ts.last().name@ == name {
        Some(ts.len() - 1)
    } else {
        find_last(ts.drop_last(), name)
    }
}

/// Position `i` holds the row that its name resolves to.
pub open spec fn is_node(ts: Seq<ResolvedTalent>, i: int) -> bool {
    0 <= i < ts.len() && find_last(ts, ts[i].name@) == Some(i)
}

/// The node a row name resolves to, if any.
pub open spec fn node_of(ts: Seq<ResolvedTalent>, name: Seq<char>) -> Set<int> {
    match find_last(ts, name) {
        Some(i) => set![i],
        None => Set::empty(),
    }
}

/// The nodes that the row names in `names` resolve to.
pub open spec fn nodes_of(ts: Seq<ResolvedTalent>, names: Seq<String>) -> Set<int> {
    Set::new(
        |j: int| exists|k: int| 0 <= k < names.len() && find_last(ts, #[trigger] names[k]@) == Some(j),
    )
}

/// The nodes that talent `i` requires.
pub open spec fn req_nodes(ts: Seq<ResolvedTalent>, i: int) -> Set<int> {
    nodes_of(ts, ts[i].required_talents@)
}

/// The nodes of every row that lists `name` among its requirements.
pub open spec fn dep_nodes(ts: Seq<ResolvedTalent>, name: Seq<char>) -> Set<int> {
    Set::new(
        |j: int|
            exists|k: int, r: int|
                0 <= k < ts.len() && 0 <= r < ts[k].required_talents@.len()
                    && #[trigger] ts[k].required_talents@[r]@ == name && find_last(ts, ts[k].name@)
                    == Some(j),
    )
}

/// The nodes of row `k`, once for each of its first `r` requirements that
/// names `name`.
pub open spec fn dep_row(ts: Seq<ResolvedTalent>, name: Seq<char>, k: int, r: int) -> Seq<usize>
    decreases r,
{
    if r <= 0 {
        Seq::empty()
    } else {
        dep_row(ts, name, k, r - 1) + if ts[k].required_talents@[r - 1]@ == name {
            seq![find_last(ts, ts[k].name@).unwrap() as usize]
        } else {
            Seq::empty()
        }
    }
}

/// The nodes of the first `k` rows that require `name`, in bundle order,
/// once for each time a row lists it.
pub open spec fn dep_list(ts: Seq<ResolvedTalent>, name: Seq<char>, k: int) -> Seq<usize>
    decreases k,
{
    if k <= 0 {
        Seq::empty()
    } else {
        dep_list(ts, name, k - 1) + dep_row(ts, name, k - 1, ts[k - 1].required_talents@.len() as int)
    }
}

/// The members of a sequence of positions, as a set.
pub open spec fn seq_set(s: Seq<usize>) -> Set<int> {
    Set::new(|j: int| exists|q: int| 0 <= q < s.len() && s[q] as int == j)
}

/// Appending a position adds it to the set.
pub proof fn lemma_seq_set_push(s: Seq<usize>, j: usize)
    ensures
        seq_set(s.push(j)) == seq_set(s).insert(j as int),
{
    let t = s.push(j);
    assert forall|x: int| seq_set(t).contains(x) implies seq_set(s).insert(j as int).contains(x) by {
        let q = choose|q: int| 0 <= q < t.len() && t[q] as int == x;
        if q < s.len() {
            assert(s[q] as int == x);
        }
    }
    assert forall|x: int| seq_set(s).insert(j as int).contains(x) implies seq_set(t).contains(x) by {
        if x == j as int {
            assert(t[s.len() as int] as int == x);
        } else {
            let q = choose|q: int| 0 <= q < s.len() && s[q] as int == x;
            assert(t[q] as int == x);
        }
    }
    assert(seq_set(t) =~= seq_set(s).insert(j as int));
}

/// The dependents of `name` among the rows before row `k`, plus those from
/// the first `r` requirements of row `k`.
pub open spec fn dep_nodes_upto(ts: Seq<ResolvedTalent>, name: Seq<char>, k: int, r: int) -> Set<int> {
    Set::new(
        |j: int|
            exists|kk: int, rr: int|
                #![trigger ts[kk].required_talents@[rr]]
                ((0 <= kk < k && 0 <= rr < ts[kk].required_talents@.len()) || (kk == k && 0 <= rr < r
                    && rr < ts[kk].required_talents@.len())) && ts[kk].required_talents@[rr]@ == name
                    && find_last(ts, ts[kk].name@) == Some(j),
    )
}

proof fn lemma_dep_nodes_upto_step(ts: Seq<ResolvedTalent>, name: Seq<char>, k: int, r: int)
    requires
        0 <= k < ts.len(),
        0 <= r < ts[k].required_talents@.len(),
    ensures
        ts[k].required_talents@[r]@ == name ==> dep_nodes_upto(ts, name, k, r + 1) == dep_nodes_upto(
            ts,
            name,
            k,
            r,
        ).insert(find_last(ts, ts[k].name@).unwrap()),
        ts[k].required_talents@[r]@ != name ==> dep_nodes_upto(ts, name, k, r + 1) == dep_nodes_upto(
            ts,
            name,
            k,
            r,
        ),
{
    lemma_name_resolves(ts, k);
    let a = dep_nodes_upto(ts, name, k, r + 1);
    let b = dep_nodes_upto(ts, name, k, r);
    if ts[k].required_talents@[r]@ == name {
        let j = find_last(ts, ts[k].name@).unwrap();
        assert forall|x: int| a.contains(x) implies b.insert(j).contains(x) by {
            let (kk, rr) = choose|kk: int, rr: int|
                #![trigger ts[kk].required_talents@[rr]]
                ((0 <= kk < k && 0 <= rr < ts[kk].required_talents@.len()) || (kk == k && 0 <= rr < r
                    + 1 && rr < ts[kk].required_talents@.len())) && ts[kk].required_talents@[rr]@ == name
                    && find_last(ts, ts[kk].name@) == Some(x);
            if !(kk == k && rr == r) {
                assert(b.contains(x));
            }
        }
        assert forall|x: int| b.insert(j).contains(x) implies a.contains(x) by {
            if x == j {
                assert(ts[k].required_talents@[r]@ == name);
            }
        }
        assert(a =~= b.insert(j));
    } else {
        assert forall|x: int| a.contains(x) implies b.contains(x) by {
            let (kk, rr) = choose|kk: int, rr: int|
                #![trigger ts[kk].required_talents@[rr]]
                ((0 <= kk < k && 0 <= rr < ts[kk].required_talents@.len()) || (kk == k && 0 <= rr < r
                    + 1 && rr < ts[kk].required_talents@.len())) && ts[kk].required_talents@[rr]@ == name
                    && find_last(ts, ts[kk].name@) == Some(x);
            assert(!(kk == k && rr == r));
        }
        assert(a =~= b);
    }
}

proof fn lemma_dep_nodes_upto_row(ts: Seq<ResolvedTalent>, name: Seq<char>, k: int)
    requires
        0 <= k < ts.len(),
    ensures
        dep_nodes_upto(ts, name, k, ts[k].required_talents@.len() as int) == dep_nodes_upto(
            ts,
            name,
            k + 1,
            0,
        ),
{
    assert(dep_nodes_upto(ts, name, k, ts[k].required_talents@.len() as int) =~= dep_nodes_upto(
        ts,
        name,
        k + 1,
        0,
    ));
}

/// The index the last flag named `name` carries.
pub open spec fn flag_index_in(flags: Seq<ResolvedFlag>, name: Seq<char>) -> Option<i64>
    decreases flags.len(),
{
    if flags.len() == 0 {
        None
    } else if flags.last().name@ == name {
        Some(flags.last().index as i64)
    } else {
        flag_index_in(flags.drop_last(), name)
    }
}

/// What `find_last` finds: the last row of that name, or no row of that name.
pub proof fn lemma_find_last(ts: Seq<ResolvedTalent>, name: Seq<char>)
    ensures
        find_last(ts, name) matches Some(i) ==> 0 <= i < ts.len() && ts[i].name@ == name && forall|
            j: int,
        | i < j < ts.len() ==> #[trigger] ts[j].name@ != name,
        find_last(ts, name) is None ==> forall|j: int| 0 <= j < ts.len() ==> #[trigger] ts[j].name@ != name,
    decreases ts.len(),
{
    if ts.len() > 0 {
        let d = ts.drop_last();
        lemma_find_last(d, name);
        if ts.last().name@ != name {
            assert forall|j: int| 0 <= j < ts.len() - 1 implies #[trigger] ts[j] == d[j] by {}
            if let Some(i) = find_last(ts, name) {
                assert forall|j: int| i < j < ts.len() implies #[trigger] ts[j].name@ != name by {
                    if j < ts.len() - 1 {
                        assert(ts[j] == d[j]);
                    }
                }
            } else {
                assert forall|j: int| 0 <= j < ts.len() implies #[trigger] ts[j].name@ != name by {
                    if j < ts.len() - 1 {
                        assert(ts[j] == d[j]);
                    }
                }
            }
        }
    }
}

/// Every row's name resolves to a node, and nodes with the same name are the same node.
pub proof fn lemma_name_resolves(ts: Seq<ResolvedTalent>, k: int)
    requires
        0 <= k < ts.len(),
    ensures
        find_last(ts, ts[k].name@) is Some,
        is_node(ts, find_last(ts, ts[k].name@).unwrap()),
        find_last(ts, ts[k].name@).unwrap() >= k,
{
    lemma_find_last(ts, ts[k].name@);
    let i = find_last(ts, ts[k].name@).unwrap();
    lemma_find_last(ts, ts[i].name@);
}

/// Nodes with equal names are equal.
pub proof fn lemma_node_names_distinct(ts: Seq<ResolvedTalent>, i: int, j: int)
    requires
        is_node(ts, i),
        is_node(ts, j),
        ts[i].name@ == ts[j].name@,
    ensures
        i == j,
{
}

/// The talent catalogue the editor works against, with the reverse
/// dependency index and the two flag tables.
pub struct Catalog {
    talents: Vec<ResolvedTalent>,
    last_of: Vec<usize>,
    character_flags: Vec<ResolvedFlag>,
    account_flags: Vec<ResolvedFlag>,
}

impl Catalog {
    /// The talent rows, in bundle order.
    pub closed spec fn rows(&self) -> Seq<ResolvedTalent> {
        self.talents@
    }

    /// The character flag table.
    pub closed spec fn char_flags(&self) -> Seq<ResolvedFlag> {
        self.character_flags@
    }

    /// The account flag table.
    pub closed spec fn acct_flags(&self) -> Seq<ResolvedFlag> {
        self.account_flags@
    }

    /// The internal index agrees with the rows.
    pub closed spec fn wf(&self) -> bool {
        &&& self.last_of@.len() == self.talents@.len()
        &&& forall|k: int|
            0 <= k < self.talents@.len() ==> find_last(self.talents@, self.talents@[k].name@) == Some(
                #[trigger] self.last_of@[k] as int,
            )
    }

    /// Builds the catalogue from the bundle's talents and flag tables.
    pub fn new(
        talents: Vec<ResolvedTalent>,
        character_flags: Vec<ResolvedFlag>,
        account_flags: Vec<ResolvedFlag>,
    ) -> (r: Catalog)
        ensures
            r.wf(),
            r.rows() == talents@,
            r.char_flags() == character_flags@,
            r.acct_flags() == account_flags@,
    {
        let mut last_of: Vec<usize> = Vec::new();
        let n = talents.len();
        for k in 0..n
            invariant
                n == talents@.len(),
                last_of@.len() == k,
                forall|j: int|
                    0 <= j < k ==> find_last(talents@, talents@[j].name@) == Some(
                        #[trigger] last_of@[j] as int,
                    ),
        {
            let found = find_in(&talents, talents[k].name.as_str());
            proof {
                lemma_name_resolves(talents@, k as int);
            }
            match found {
                Some(i) => last_of.push(i),
                None => {
                    assert(false);
                    last_of.push(k);
                },
            }
        }
        Catalog { talents, last_of, character_flags, account_flags }
    }

    /// Number of talent rows.
    pub fn len(&self) -> (r: usize)
        ensures
            r == self.rows().len(),
    {
        self.talents.len()
    }

    /// Talent row `i`.
    pub fn talent(&self, i: usize) -> (r: &ResolvedTalent)
        requires
            i < self.rows().len(),
        ensures
            *r == self.rows()[i as int],
    {
        &self.talents[i]
    }

    /// The row a name resolves to.
    pub fn lookup(&self, name: &str) -> (r: Option<usize>)
        ensures
            r matches Some(i) ==> find_last(self.rows(), name@) == Some(i as int),
            r is None ==> find_last(self.rows(), name@) is None,
    {
        find_in(&self.talents, name)
    }

    /// Whether row `i` is the one its name resolves to.
    pub fn is_node(&self, i: usize) -> (r: bool)
        requires
            self.wf(),
            i < self.rows().len(),
        ensures
            r == is_node(self.rows(), i as int),
    {
        self.last_of[i] == i
    }

    /// The nodes of the rows that require `name`, one entry for each time a
    /// row lists it, in bundle order.
    pub fn dependents(&self, name: &str) -> (r: Vec<usize>)
        requires
            self.wf(),
        ensures
            forall|k: int| 0 <= k < r@.len() ==> is_node(self.rows(), #[trigger] r@[k] as int),
            seq_set(r@) == dep_nodes(self.rows(), name@),
            r@ == dep_list(self.rows(), name@, self.rows().len() as int),
    {
        let ghost ts = self.talents@;
        let mut out: Vec<usize> = Vec::new();
        let n = self.talents.len();
        proof {
            assert(seq_set(out@) =~= dep_nodes_upto(ts, name@, 0, 0));
        }
        for k in 0..n
            invariant
                n == ts.len(),
                ts == self.talents@,
                self.wf(),
                forall|q: int| 0 <= q < out@.len() ==> is_node(ts, #[trigger] out@[q] as int),
                seq_set(out@) == dep_nodes_upto(ts, name@, k as int, 0),
                out@ == dep_list(ts, name@, k as int),
        {
            let t = &self.talents[k];
            let m = t.required_talents.len();
            for r in 0..m
                invariant
                    n == ts.len(),
                    ts == self.talents@,
                    self.wf(),
                    0 <= k < n,
                    *t == ts[k as int],
                    m == t.required_talents@.len(),
                    forall|q: int| 0 <= q < out@.len() ==> is_node(ts, #[trigger] out@[q] as int),
                    seq_set(out@) == dep_nodes_upto(ts, name@, k as int, r as int),
                    out@ == dep_list(ts, name@, k as int) + dep_row(ts, name@, k as int, r as int),
            {
                let hit = str_eq(t.required_talents[r].as_str(), name);
                let ghost before = out@;
                if hit {
                    let j = self.last_of[k];
                    proof {
                        lemma_name_resolves(ts, k as int);
                        lemma_seq_set_push(out@, j);
                    }
                    out.push(j);
                }
                proof {
                    assert(t.required_talents@[r as int] == ts[k as int].required_talents@[r as int]);
                    assert(out@ =~= dep_list(ts, name@, k as int) + dep_row(ts, name@, k as int, r + 1));
                }
                proof {
                    lemma_dep_nodes_upto_step(ts, name@, k as int, r as int);
                }
            }
            proof {
                lemma_dep_nodes_upto_row(ts, name@, k as int);
                assert(out@ =~= dep_list(ts, name@, k + 1));
            }
        }
        proof {
            assert(dep_nodes_upto(ts, name@, n as int, 0) =~= dep_nodes(ts, name@));
        }
        out
    }

    /// Index of a flag in the character flag table.
    pub fn character_flag_index(&self, name: &str) -> (r: Option<i64>)
        ensures
            r == flag_index_in(self.char_flags(), name@),
    {
        flag_index_of(&self.character_flags, name)
    }

    /// Index of a flag in the account flag table.
    pub fn account_flag_index(&self, name: &str) -> (r: Option<i64>)
        ensures
            r == flag_index_in(self.acct_flags(), name@),
    {
        flag_index_of(&self.account_flags, name)
    }
}

fn find_in(ts: &Vec<ResolvedTalent>, name: &str) -> (r: Option<usize>)
    ensures
        r matches Some(i) ==> find_last(ts@, name@) == Some(i as int),
        r is None ==> find_last(ts@, name@) is None,
{
    let mut i = ts.len();
    assert(ts@.take(i as int) =~= ts@);
    while i > 0
        invariant
            i <= ts@.len(),
            find_last(ts@, name@) == find_last(ts@.take(i as int), name@),
        decreases i,
    {
        assert(ts@.take(i as int).drop_last() =~= ts@.take(i - 1));
        if str_eq(ts[i - 1].name.as_str(), name) {
            return Some(i - 1);
        }
        i = i - 1;
    }
    None
}

fn flag_index_of(flags: &Vec<ResolvedFlag>, name: &str) -> (r: Option<i64>)
    ensures
        r == flag_index_in(flags@, name@),
{
    let mut i = flags.len();
    assert(flags@.take(i as int) =~= flags@);
    while i > 0
        invariant
            i <= flags@.len(),
            flag_index_in(flags@, name@) == flag_index_in(flags@.take(i as int), name@),
        decreases i,
    {
        assert(flags@.take(i as int).drop_last() =~= flags@.take(i - 1));
        if str_eq(flags[i - 1].name.as_str(), name) {
            return Some(flags[i - 1].index as i64);
        }
        i = i - 1;
    }
    None
}

} // verus!
