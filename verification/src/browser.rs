//! The talent browser's decisions: which rows a section lists, the text a
//! card shows, and what a click on a card does.

use vstd::prelude::*;
use crate::catalog::{Catalog, find_last};
use crate::owner::{TalentOwner, holds, rank_of, storable_fn};
use crate::pak::{find_from, find_in_chars};
use crate::unlock::{locked_prerequisites, unlocked_dependents, prereq_closure, locked_stored, dependents_closure, held_stored, max_rank, kept_in, prereq_order, name_views, dependents_order};
use crate::graph::lists_exactly;
use crate::catalog::req_nodes;
use crate::json_fmt::{decimal, int_text, push_decimal, push_signed};
use crate::labels::{prettified, prettify_row_name};
use crate::model::{Category, RequirementRef, ResolvedTalent, ResolvedTree};
use crate::text::{lemma_seq_less_asymmetric, lemma_seq_less_irreflexive, lemma_seq_less_total,
    lemma_seq_less_transitive, push_str, seq_less, str_less, to_string};

verus! {

/// The texts of a list of strings.
pub open spec fn texts(v: Seq<String>) -> Seq<Seq<char>> {
    v.map_values(|s: String| s@)
}

/// Whether each text sorts before every later one.
pub open spec fn strictly_sorted(s: Seq<Seq<char>>) -> bool {
    forall|i: int, j: int| 0 <= i < j < s.len() ==> seq_less(#[trigger] s[i], #[trigger] s[j])
}

/// Inserts `x` into a strictly sorted list, unless it is there already.
pub(crate) fn insert_sorted(v: &mut Vec<String>, x: String)
    requires
        strictly_sorted(texts(old(v)@)),
    ensures
        strictly_sorted(texts(final(v)@)),
        texts(final(v)@).to_set() == texts(old(v)@).to_set().insert(x@),
{
    let ghost old_t = texts(v@);
    let n = v.len();
    let mut p: usize = 0;
    while p < n && str_less(v[p].as_str(), x.as_str())
        invariant
            n == v@.len(),
            old_t == texts(v@),
            strictly_sorted(old_t),
            p <= n,
            forall|i: int| 0 <= i < p ==> seq_less(#[trigger] old_t[i], x@),
        decreases n - p,
    {
        p = p + 1;
    }
    if p < n && crate::text::str_eq(v[p].as_str(), x.as_str()) {
        assert(old_t.to_set().insert(x@) =~= old_t.to_set()) by {
            assert(old_t[p as int] == x@);
        }
        return;
    }
    proof {
        if p < n {
            lemma_seq_less_total(old_t[p as int], x@);
            assert(seq_less(x@, old_t[p as int]));
        }
    }
    v.insert(p, x);
    let ghost new_t = texts(v@);
    assert(new_t =~= old_t.insert(p as int, x@));
    assert forall|i: int, j: int| 0 <= i < j < new_t.len() implies seq_less(
        #[trigger] new_t[i],
        #[trigger] new_t[j],
    ) by {
        if j < p {
        } else if j == p {
        } else {
            assert(new_t[j] == old_t[j - 1]);
            if j - 1 > p {
                lemma_seq_less_transitive(x@, old_t[p as int], old_t[j - 1]);
            }
            assert(seq_less(x@, old_t[j - 1]));
            if i < p {
                lemma_seq_less_transitive(new_t[i], x@, new_t[j]);
            } else if i > p {
                assert(new_t[i] == old_t[i - 1]);
            }
        }
    }
    assert(new_t.to_set() =~= old_t.to_set().insert(x@)) by {
        assert forall|s: Seq<char>| new_t.to_set().contains(s) implies old_t.to_set().insert(x@).contains(s) by {
            let k = choose|k: int| 0 <= k < new_t.len() && new_t[k] == s;
            if k < p {
                assert(old_t[k] == s);
            } else if k > p {
                assert(old_t[k - 1] == s);
            }
        }
        assert forall|s: Seq<char>| old_t.to_set().insert(x@).contains(s) implies new_t.to_set().contains(s) by {
            if s == x@ {
                assert(new_t[p as int] == s);
            } else {
                let k = choose|k: int| 0 <= k < old_t.len() && old_t[k] == s;
                if k < p {
                    assert(new_t[k] == s);
                } else {
                    assert(new_t[k + 1] == s);
                }
            }
        }
    }
}

/// The names shown for a requirement row at a given depth of expansion:
/// its display name; for a row without one that requires others (a
/// transparent connector), the names of those, a few levels deep at most;
/// otherwise the prettified row name.
pub open spec fn names_for(ts: Seq<ResolvedTalent>, row: Seq<char>, depth: int) -> Set<Seq<char>>
    decreases 5 - depth, 0int,
{
    if depth > 4 || depth < 0 {
        Set::empty()
    } else {
        match find_last(ts, row) {
            Some(i) => if 0 <= i < ts.len() && ts[i].display_name@.len() > 0 {
                set![ts[i].display_name@]
            } else if 0 <= i < ts.len() && ts[i].required_talents@.len() > 0 {
                names_for_list(
                    ts,
                    ts[i].required_talents@,
                    depth + 1,
                    ts[i].required_talents@.len() as int,
                )
            } else {
                set![prettified(row)]
            },
            None => set![prettified(row)],
        }
    }
}

/// The names shown for the first `k` rows of a requirement list.
pub open spec fn names_for_list(ts: Seq<ResolvedTalent>, rows: Seq<String>, depth: int, k: int) -> Set<
    Seq<char>,
>
    decreases 5 - depth, k + 1,
{
    if k <= 0 || k > rows.len() || depth > 5 {
        Set::empty()
    } else {
        names_for_list(ts, rows, depth, k - 1).union(names_for(ts, rows[k - 1]@, depth))
    }
}

fn push_names(catalog: &Catalog, row: &str, depth: usize, out: &mut Vec<String>)
    requires
        catalog.wf(),
        depth <= 5,
        strictly_sorted(texts(old(out)@)),
    ensures
        strictly_sorted(texts(final(out)@)),
        texts(final(out)@).to_set() == texts(old(out)@).to_set().union(
            names_for(catalog.rows(), row@, depth as int),
        ),
    decreases 5 - depth, 0int,
{
    let ghost ts = catalog.rows();
    if depth > 4 {
        assert(texts(out@).to_set().union(Set::empty()) =~= texts(out@).to_set());
        return;
    }
    match catalog.lookup(row) {
        Some(i) => {
            proof {
                crate::catalog::lemma_find_last(ts, row@);
            }
            let t = catalog.talent(i);
            if t.display_name.unicode_len() != 0 {
                let ghost before = texts(out@).to_set();
                insert_sorted(out, t.display_name.clone());
                assert(before.insert(t.display_name@) =~= before.union(set![t.display_name@]));
            } else if t.required_talents.len() != 0 {
                let reqs = &t.required_talents;
                let m = reqs.len();
                let ghost start = texts(out@).to_set();
                for k in 0..m
                    invariant
                        catalog.wf(),
                        ts == catalog.rows(),
                        depth <= 4,
                        m == reqs@.len(),
                        strictly_sorted(texts(out@)),
                        texts(out@).to_set() == start.union(names_for_list(ts, reqs@, depth + 1, k as int)),
                {
                    push_names(catalog, reqs[k].as_str(), depth + 1, out);
                    assert(start.union(names_for_list(ts, reqs@, depth + 1, k as int)).union(
                        names_for(ts, reqs@[k as int]@, depth + 1),
                    ) =~= start.union(names_for_list(ts, reqs@, depth + 1, k + 1)));
                }
            } else {
                let ghost before = texts(out@).to_set();
                insert_sorted(out, prettify_row_name(row));
                assert(before.insert(prettified(row@)) =~= before.union(set![prettified(row@)]));
            }
        },
        None => {
            let ghost before = texts(out@).to_set();
            insert_sorted(out, prettify_row_name(row));
            assert(before.insert(prettified(row@)) =~= before.union(set![prettified(row@)]));
        },
    }
}

/// Readable names for a talent's direct requirements, sorted and without
/// repeats. Transparent connector rows have no display name of their own,
/// so they are expanded into their own requirements instead.
pub fn requirement_names(catalog: &Catalog, talent: usize) -> (r: Vec<String>)
    requires
        catalog.wf(),
        talent < catalog.rows().len(),
    ensures
        strictly_sorted(texts(r@)),
        texts(r@).to_set() == names_for_list(
            catalog.rows(),
            catalog.rows()[talent as int].required_talents@,
            0,
            catalog.rows()[talent as int].required_talents@.len() as int,
        ),
{
    let ghost ts = catalog.rows();
    let t = catalog.talent(talent);
    let reqs = &t.required_talents;
    let m = reqs.len();
    let mut names: Vec<String> = Vec::new();
    assert(texts(names@).to_set() =~= Set::<Seq<char>>::empty());
    for k in 0..m
        invariant
            catalog.wf(),
            ts == catalog.rows(),
            m == reqs@.len(),
            strictly_sorted(texts(names@)),
            texts(names@).to_set() == names_for_list(ts, reqs@, 0, k as int),
    {
        push_names(catalog, reqs[k].as_str(), 0, &mut names);
        assert(names_for_list(ts, reqs@, 0, k as int).union(names_for(ts, reqs@[k as int]@, 0))
            =~= names_for_list(ts, reqs@, 0, (k + 1) as int));
    }
    names
}

/// The parts joined, `sep` between each two.
pub open spec fn joined(parts: Seq<Seq<char>>, sep: Seq<char>) -> Seq<char>
    decreases parts.len(),
{
    if parts.len() == 0 {
        Seq::empty()
    } else if parts.len() == 1 {
        parts[0]
    } else {
        joined(parts.drop_last(), sep) + sep + parts.last()
    }
}

/// The parts joined, `sep` between each two.
pub fn join(parts: &[String], sep: &str) -> (r: String)
    ensures
        r@ == joined(texts(parts@), sep@),
{
    let mut out = String::new();
    let n = parts.len();
    let ghost tv = texts(parts@);
    assert(tv.take(0) =~= Seq::<Seq<char>>::empty());
    for i in 0..n
        invariant
            n == parts@.len(),
            tv == texts(parts@),
            out@ == joined(tv.take(i as int), sep@),
    {
        if i > 0 {
            push_str(&mut out, sep);
        }
        push_str(&mut out, parts[i].as_str());
        assert(tv.take(i + 1).drop_last() =~= tv.take(i as int));
        if i == 0 {
            assert(out@ =~= joined(tv.take(1), sep@));
        }
    }
    assert(tv.take(n as int) =~= tv);
    out
}

/// The requirement line of a card: the required rank, the required level
/// (when above zero) and the names of the required talents (when any),
/// each only when present, separated by a middle dot.
pub open spec fn requirement_line(rank: Option<Seq<char>>, level: int, names: Seq<Seq<char>>) -> Seq<char> {
    let a: Seq<Seq<char>> = match rank {
        Some(r) => seq!["Rank: "@ + r],
        None => Seq::empty(),
    };
    let b: Seq<Seq<char>> = if level > 0 {
        a.push("Level "@ + decimal(level as nat))
    } else {
        a
    };
    let c: Seq<Seq<char>> = if names.len() > 0 {
        b.push("Requires: "@ + joined(names, ", "@))
    } else {
        b
    };
    joined(c, "  \u{b7}  "@)
}

/// The requirement line of a card (see `requirement_line`), given the
/// names of its required talents.
pub fn requirement_text(required_rank: &Option<RequirementRef>, required_level: i64, names: &[String]) -> (r:
    String)
    ensures
        r@ == requirement_line(
            match required_rank {
                Some(x) => Some(x.display_name@),
                None => None,
            },
            required_level as int,
            texts(names@),
        ),
{
    let mut parts: Vec<String> = Vec::new();
    match required_rank {
        Some(rank) => {
            let mut p = to_string("Rank: ");
            push_str(&mut p, rank.display_name.as_str());
            parts.push(p);
        },
        None => {},
    }
    if required_level > 0 {
        let mut p = to_string("Level ");
        push_decimal(&mut p, required_level as u64);
        parts.push(p);
    }
    if names.len() != 0 {
        let mut p = to_string("Requires: ");
        let j = join(names, ", ");
        push_str(&mut p, j.as_str());
        parts.push(p);
    }
    let ghost a: Seq<Seq<char>> = match required_rank {
        Some(r) => seq!["Rank: "@ + r.display_name@],
        None => Seq::empty(),
    };
    let ghost b: Seq<Seq<char>> = if required_level > 0 {
        a.push("Level "@ + decimal(required_level as nat))
    } else {
        a
    };
    let ghost c: Seq<Seq<char>> = if names@.len() > 0 {
        b.push("Requires: "@ + joined(texts(names@), ", "@))
    } else {
        b
    };
    assert(texts(parts@) =~= c);
    join(parts.as_slice(), "  \u{b7}  ")
}

/// The names listed in a confirmation: all of them, or the first six and
/// how many more there are.
pub open spec fn shown_names(names: Seq<Seq<char>>) -> Seq<char> {
    if names.len() > 6 {
        joined(names.take(6), ", "@) + ", \u{2026} and "@ + decimal((names.len() - 6) as nat) + " more"@
    } else {
        joined(names, ", "@)
    }
}

/// The question asked before a change that touches other talents: the
/// locked prerequisites an unlock would pull in, or the unlocked
/// dependents a lock would strand.
pub open spec fn confirm_text(is_unlock: bool, names: Seq<Seq<char>>) -> Seq<char> {
    if is_unlock {
        "This needs "@ + decimal(names.len()) + " locked prerequisite(s): "@ + shown_names(names)
    } else {
        decimal(names.len()) + " unlocked item(s) depend on this: "@ + shown_names(names)
    }
}

/// The question asked before a change that touches other talents (see
/// `confirm_text`).
pub fn confirm_message(is_unlock: bool, names: &[String]) -> (r: String)
    ensures
        r@ == confirm_text(is_unlock, texts(names@)),
{
    let n = names.len();
    let shown = if n > 6 {
        let first: Vec<String> = names_prefix(names, 6);
        let mut s = join(first.as_slice(), ", ");
        push_str(&mut s, ", \u{2026} and ");
        push_decimal(&mut s, (n - 6) as u64);
        push_str(&mut s, " more");
        s
    } else {
        join(names, ", ")
    };
    let mut out = if is_unlock {
        to_string("This needs ")
    } else {
        String::new()
    };
    push_decimal(&mut out, n as u64);
    if is_unlock {
        push_str(&mut out, " locked prerequisite(s): ");
    } else {
        push_str(&mut out, " unlocked item(s) depend on this: ");
    }
    push_str(&mut out, shown.as_str());
    out
}

/// The first `k` strings.
fn names_prefix(names: &[String], k: usize) -> (r: Vec<String>)
    requires
        k <= names@.len(),
    ensures
        texts(r@) == texts(names@).take(k as int),
{
    let mut out: Vec<String> = Vec::new();
    for i in 0..k
        invariant
            k <= names@.len(),
            texts(out@) == texts(names@).take(i as int),
    {
        let ghost before = out@;
        out.push(names[i].clone());
        assert(out@ =~= before.push(names@[i as int]));
        assert(texts(names@).take(i + 1) =~= texts(names@).take(i as int).push(names@[i as int]@));
        assert(texts(out@) =~= texts(before).push(names@[i as int]@));
    }
    out
}

/// `s` in lowercase, as `str::to_lowercase` gives it.
pub uninterp spec fn lowercase(s: Seq<char>) -> Seq<char>;

/// An ASCII letter in lowercase; any other character as it is.
pub open spec fn ascii_lower(c: char) -> char {
    if 'A' <= c <= 'Z' {
        ((c as int) + 32) as char
    } else {
        c
    }
}

/// `s` in lowercase: an ASCII string with its capitals lowered, any other
/// as `str::to_lowercase` gives it.
pub open spec fn lowered(s: Seq<char>) -> Seq<char> {
    if forall|i: int| 0 <= i < s.len() ==> (#[trigger] s[i] as int) < 128 {
        s.map_values(|c: char| ascii_lower(c))
    } else {
        lowercase(s)
    }
}

/// `s` in lowercase.
///
/// Trusted: calls `str::to_lowercase`, documented to map each character to
/// its Unicode lowercase. The contract names the result `lowercase` and
/// states that an ASCII string just has its capitals lowered.
#[verifier::external_body]
fn to_lowercase(s: &str) -> (r: String)
    ensures
        r@ == lowercase(s@),
        (forall|i: int| 0 <= i < s@.len() ==> (#[trigger] s@[i] as int) < 128) ==> r@ == s@.map_values(
            |c: char| ascii_lower(c),
        ),
{
    s.to_lowercase()
}

/// Whether `q` occurs in `s`.
pub open spec fn contains_text(s: Seq<char>, q: Seq<char>) -> bool {
    find_from(s, q, 0) is Some
}

/// Whether `q` occurs in `s`.
fn contains(s: &str, q: &str) -> (r: bool)
    ensures
        r == contains_text(s@, q@),
{
    let sc = crate::text::chars_of(s);
    let qc = crate::text::chars_of(q);
    find_in_chars(&sc, &qc).is_some()
}

/// Whether a talent is listed under the browser's filters: its category is
/// stored by the save kind, matches the selected tab (if any), and the
/// (lowercase) query is empty or occurs in its lowercased name or
/// description.
pub open spec fn passes(t: ResolvedTalent, storable: bool, category: Option<Category>, query: Seq<char>) -> bool {
    &&& storable
    &&& match category {
        Some(c) => t.category == c,
        None => true,
    }
    &&& (query.len() == 0 || contains_text(lowered(t.display_name@), query) || contains_text(
        lowered(t.description@),
        query,
    ))
}

/// Whether a talent passes the browser's filters (see `passes`). The
/// section list and each section's contents use this one test, so they
/// cannot disagree about what is on screen.
pub fn passes_filters<T: TalentOwner>(t: &ResolvedTalent, category: Option<Category>, query: &str) -> (r: bool)
    ensures
        r == passes(*t, T::spec_storable(t.category), category, query@),
{
    if !T::storable(t.category) {
        return false;
    }
    match category {
        Some(c) => {
            if t.category != c {
                return false;
            }
        },
        None => {},
    }
    if query.unicode_len() == 0 {
        return true;
    }
    contains(to_lowercase(t.display_name.as_str()).as_str(), query) || contains(
        to_lowercase(t.description.as_str()).as_str(),
        query,
    )
}

/// Whether row `i` is listed in the section of `tree`.
pub open spec fn in_section(
    ts: Seq<ResolvedTalent>,
    st: spec_fn(Category) -> bool,
    tree: Seq<char>,
    category: Option<Category>,
    query: Seq<char>,
    i: int,
) -> bool {
    ts[i].tree@ == tree && passes(ts[i], st(ts[i].category), category, query)
}

/// The rows among the first `k` that the section of `tree` lists, in order.
pub open spec fn section_rows(
    ts: Seq<ResolvedTalent>,
    st: spec_fn(Category) -> bool,
    tree: Seq<char>,
    category: Option<Category>,
    query: Seq<char>,
    k: int,
) -> Seq<usize>
    decreases k,
{
    if k <= 0 {
        Seq::empty()
    } else {
        let before = section_rows(ts, st, tree, category, query, k - 1);
        if in_section(ts, st, tree, category, query, k - 1) {
            before.push((k - 1) as usize)
        } else {
            before
        }
    }
}

/// The talents one tree section lists: its rows that pass the filters, in
/// catalogue order.
pub fn filtered_items<T: TalentOwner>(catalog: &Catalog, tree: &str, category: Option<Category>, query: &str) -> (r:
    Vec<usize>)
    ensures
        r@ == section_rows(catalog.rows(), storable_fn::<T>(), tree@, category, query@, catalog.rows().len() as int),
{
    let ghost ts = catalog.rows();
    let n = catalog.len();
    let mut out: Vec<usize> = Vec::new();
    for i in 0..n
        invariant
            n == catalog.rows().len(),
            ts == catalog.rows(),
            out@ == section_rows(ts, storable_fn::<T>(), tree@, category, query@, i as int),
    {
        let t = catalog.talent(i);
        if crate::text::str_eq(t.tree.as_str(), tree) && passes_filters::<T>(t, category, query) {
            out.push(i);
        }
    }
    out
}

/// The keys of a list of pairs.
pub open spec fn keys(v: Seq<(String, String)>) -> Seq<Seq<char>> {
    v.map_values(|p: (String, String)| p.0@)
}

/// The heading of a tree section: the tree's display name, prettified when
/// it is a raw row name (blueprint trees have no localized names).
pub open spec fn section_heading(t: ResolvedTalent) -> Seq<char> {
    if t.tree_display_name@.contains('_') {
        prettified(t.tree_display_name@)
    } else {
        t.tree_display_name@
    }
}

/// Whether row `i` passes the filters at all.
pub open spec fn listed(
    ts: Seq<ResolvedTalent>,
    st: spec_fn(Category) -> bool,
    category: Option<Category>,
    query: Seq<char>,
    i: int,
) -> bool {
    passes(ts[i], st(ts[i].category), category, query)
}

/// Row `i` is the first listed row of its tree.
pub open spec fn first_of_tree(
    ts: Seq<ResolvedTalent>,
    st: spec_fn(Category) -> bool,
    category: Option<Category>,
    query: Seq<char>,
    i: int,
) -> bool {
    &&& 0 <= i < ts.len()
    &&& listed(ts, st, category, query, i)
    &&& forall|j: int| 0 <= j < i && #[trigger] ts[j].tree@ == ts[i].tree@ ==> !listed(ts, st, category, query, j)
}

/// Whether `c` occurs in `s`.
fn has_char(s: &str, c: char) -> (r: bool)
    ensures
        r == s@.contains(c),
{
    let cs = crate::text::chars_of(s);
    let n = cs.len();
    for i in 0..n
        invariant
            n == cs@.len(),
            cs@ == s@,
            forall|j: int| 0 <= j < i ==> cs@[j] != c,
    {
        if cs[i] == c {
            return true;
        }
    }
    false
}

/// The heading of a tree section (see `section_heading`).
fn heading_of(t: &ResolvedTalent) -> (r: String)
    ensures
        r@ == section_heading(*t),
{
    if has_char(t.tree_display_name.as_str(), '_') {
        prettify_row_name(t.tree_display_name.as_str())
    } else {
        t.tree_display_name.clone()
    }
}

/// A strictly sorted sequence stays strictly sorted, and gains exactly `x`,
/// when `x` goes in where everything before sorts below it and everything
/// after above it.
proof fn lemma_sorted_insert(ko: Seq<Seq<char>>, p: int, x: Seq<char>)
    requires
        strictly_sorted(ko),
        0 <= p <= ko.len(),
        forall|q: int| 0 <= q < p ==> seq_less(#[trigger] ko[q], x),
        p < ko.len() ==> seq_less(x, ko[p]),
    ensures
        strictly_sorted(ko.insert(p, x)),
        ko.insert(p, x).to_set() == ko.to_set().insert(x),
        forall|k: int| 0 <= k < p ==> #[trigger] ko.insert(p, x)[k] == ko[k],
        forall|k: int| p < k <= ko.len() ==> #[trigger] ko.insert(p, x)[k] == ko[k - 1],
        ko.insert(p, x)[p] == x,
{
    let kn = ko.insert(p, x);
    assert forall|a: int, b: int| 0 <= a < b < kn.len() implies seq_less(#[trigger] kn[a], #[trigger] kn[b]) by {
        if b < p {
        } else if b == p {
        } else {
            assert(kn[b] == ko[b - 1]);
            if b - 1 > p {
                lemma_seq_less_transitive(x, ko[p], ko[b - 1]);
            }
            if a < p {
                lemma_seq_less_transitive(kn[a], x, kn[b]);
            } else if a > p {
                assert(kn[a] == ko[a - 1]);
            }
        }
    }
    assert(kn.to_set() =~= ko.to_set().insert(x)) by {
        assert forall|s: Seq<char>| kn.to_set().contains(s) implies ko.to_set().insert(x).contains(s) by {
            let k = choose|k: int| 0 <= k < kn.len() && kn[k] == s;
            if k < p {
                assert(ko[k] == s);
            } else if k > p {
                assert(ko[k - 1] == s);
            }
        }
        assert forall|s: Seq<char>| ko.to_set().insert(x).contains(s) implies kn.to_set().contains(s) by {
            if s == x {
                assert(kn[p] == s);
            } else {
                let k = choose|k: int| 0 <= k < ko.len() && ko[k] == s;
                if k < p {
                    assert(kn[k] == s);
                } else {
                    assert(kn[k + 1] == s);
                }
            }
        }
    }
}

/// Row `j`, among the first `bound`, is the first listed row of a tree
/// whose name is `key` and whose heading is `heading`.
pub open spec fn heads_section(
    ts: Seq<ResolvedTalent>,
    st: spec_fn(Category) -> bool,
    category: Option<Category>,
    query: Seq<char>,
    key: Seq<char>,
    heading: Seq<char>,
    bound: int,
) -> bool {
    exists|j: int|
        0 <= j < bound && #[trigger] first_of_tree(ts, st, category, query, j) && key == ts[j].tree@
            && heading == section_heading(ts[j])
}

/// The sections the browser shows: each tree with at least one listed row,
/// by tree name, with the heading of its first listed row.
pub fn tree_sections<T: TalentOwner>(catalog: &Catalog, category: Option<Category>, query: &str) -> (r: Vec<
    (String, String),
>)
    ensures
        strictly_sorted(keys(r@)),
        forall|k: int|
            0 <= k < r@.len() ==> heads_section(
                catalog.rows(),
                storable_fn::<T>(),
                category,
                query@,
                #[trigger] r@[k].0@,
                r@[k].1@,
                catalog.rows().len() as int,
            ),
        forall|i: int|
            0 <= i < catalog.rows().len() && listed(catalog.rows(), storable_fn::<T>(), category, query@, i)
                ==> #[trigger] keys(r@).contains(catalog.rows()[i].tree@),
{
    let ghost ts = catalog.rows();
    let ghost st = storable_fn::<T>();
    let n = catalog.len();
    let mut out: Vec<(String, String)> = Vec::new();
    for i in 0..n
        invariant
            n == ts.len(),
            ts == catalog.rows(),
            st == storable_fn::<T>(),
            strictly_sorted(keys(out@)),
            forall|k: int|
                0 <= k < out@.len() ==> heads_section(ts, st, category, query@, #[trigger] out@[k].0@, out@[k].1@, i as int),
            forall|j: int| 0 <= j < i && listed(ts, st, category, query@, j) ==> #[trigger] keys(out@).contains(
                ts[j].tree@,
            ),
    {
        let ghost before = out@;
        let ghost ko = keys(before);
        let t = catalog.talent(i);
        if passes_filters::<T>(t, category, query) {
            let m = out.len();
            let mut p: usize = 0;
            while p < m && str_less(out[p].0.as_str(), t.tree.as_str())
                invariant
                    m == out@.len(),
                    out@ == before,
                    ko == keys(before),
                    p <= m,
                    forall|q: int| 0 <= q < p ==> seq_less(#[trigger] ko[q], t.tree@),
                decreases m - p,
            {
                p = p + 1;
            }
            if p < m && crate::text::str_eq(out[p].0.as_str(), t.tree.as_str()) {
                assert(ko[p as int] == ts[i as int].tree@);
            } else {
                proof {
                    if p < m {
                        lemma_seq_less_total(ko[p as int], t.tree@);
                    }
                    assert forall|j: int| 0 <= j < i && #[trigger] ts[j].tree@ == ts[i as int].tree@ implies !listed(
                        ts,
                        st,
                        category,
                        query@,
                        j,
                    ) by {
                        if listed(ts, st, category, query@, j) {
                            assert(ko.contains(ts[j].tree@));
                            let k = choose|k: int| 0 <= k < ko.len() && ko[k] == ts[j].tree@;
                            if k < p {
                                lemma_seq_less_irreflexive(t.tree@);
                            } else if k > p {
                                lemma_seq_less_transitive(t.tree@, ko[p as int], ko[k]);
                                lemma_seq_less_irreflexive(t.tree@);
                            }
                        }
                    }
                    assert(first_of_tree(ts, st, category, query@, i as int));
                    lemma_sorted_insert(ko, p as int, t.tree@);
                }
                let entry = (t.tree.clone(), heading_of(t));
                out.insert(p, entry);
                assert(keys(out@) =~= ko.insert(p as int, t.tree@));
                assert forall|k: int| 0 <= k < out@.len() implies heads_section(
                    ts,
                    st,
                    category,
                    query@,
                    #[trigger] out@[k].0@,
                    out@[k].1@,
                    i + 1,
                ) by {
                    if k < p {
                        assert(out@[k] == before[k]);
                        assert(heads_section(ts, st, category, query@, before[k].0@, before[k].1@, i as int));
                    } else if k > p {
                        assert(out@[k] == before[k - 1]);
                        assert(heads_section(ts, st, category, query@, before[k - 1].0@, before[k - 1].1@, i as int));
                    } else {
                        assert(first_of_tree(ts, st, category, query@, i as int));
                    }
                }
                assert forall|j: int| 0 <= j < i + 1 && listed(ts, st, category, query@, j) implies #[trigger] keys(
                    out@,
                ).contains(ts[j].tree@) by {
                    if j < i {
                        assert(ko.to_set().contains(ts[j].tree@));
                        assert(keys(out@).to_set().contains(ts[j].tree@));
                    } else {
                        assert(keys(out@)[p as int] == ts[j].tree@);
                    }
                }
            }
        }
        assert forall|k: int| 0 <= k < out@.len() implies heads_section(
            ts,
            st,
            category,
            query@,
            #[trigger] out@[k].0@,
            out@[k].1@,
            i + 1,
        ) by {
            if out@ == before {
                assert(heads_section(ts, st, category, query@, before[k].0@, before[k].1@, i as int));
            }
        }
    }
    out
}

/// What a card shows of a talent: its rank when held (rank 1 when the
/// entry gives none), nothing when locked.
pub open spec fn card_state(v: Seq<(Seq<char>, i64)>, name: Seq<char>) -> Option<i64> {
    if holds(v, name) {
        match rank_of(v, name) {
            Some(r) => Some(r),
            None => Some(1),
        }
    } else {
        None
    }
}

/// The display names of the listed rows, in order.
pub open spec fn display_names(ts: Seq<ResolvedTalent>, o: Seq<usize>) -> Seq<Seq<char>> {
    o.map_values(|i: usize| ts[i as int].display_name@)
}

/// What a click on a card does. One click walks the cycle locked, rank 1,
/// rank 2, ..., highest rank, locked again; a step that would change other
/// talents too asks first, and a click while a question is open dismisses
/// it.
pub enum ClickAction {
    /// Close the open question.
    Dismiss,
    /// Raise the talent to this rank.
    RaiseRank(i64),
    /// Unlock just this talent.
    Unlock,
    /// Ask before unlocking: these locked prerequisites would come too.
    ConfirmUnlock(Vec<String>),
    /// Lock just this talent.
    Lock,
    /// Ask before locking: these unlocked dependents would be stranded.
    ConfirmLock(Vec<String>),
}

fn names_of_rows(catalog: &Catalog, rows: &Vec<usize>) -> (r: Vec<String>)
    requires
        forall|k: int| 0 <= k < rows@.len() ==> (#[trigger] rows@[k] as int) < catalog.rows().len(),
    ensures
        texts(r@) == display_names(catalog.rows(), rows@),
{
    let mut out: Vec<String> = Vec::new();
    let n = rows.len();
    for k in 0..n
        invariant
            n == rows@.len(),
            forall|q: int| 0 <= q < rows@.len() ==> (#[trigger] rows@[q] as int) < catalog.rows().len(),
            texts(out@) == display_names(catalog.rows(), rows@.take(k as int)),
    {
        let ghost before = out@;
        out.push(catalog.talent(rows[k]).display_name.clone());
        assert(texts(out@) =~= texts(before).push(catalog.rows()[rows@[k as int] as int].display_name@));
        assert(rows@.take(k + 1) =~= rows@.take(k as int).push(rows@[k as int]));
        assert(display_names(catalog.rows(), rows@.take(k + 1)) =~= display_names(catalog.rows(), rows@.take(k as int)).push(
            catalog.rows()[rows@[k as int] as int].display_name@,
        ));
    }
    assert(rows@.take(n as int) =~= rows@);
    out
}

/// The listed rows are catalogue positions.
proof fn lemma_listed_in_range(o: Seq<usize>, d: Set<int>, n: int)
    requires
        lists_exactly(o, d),
        forall|i: int| d.contains(i) ==> 0 <= i < n,
    ensures
        forall|k: int| 0 <= k < o.len() ==> (#[trigger] o[k] as int) < n,
{
    assert forall|k: int| 0 <= k < o.len() implies (#[trigger] o[k] as int) < n by {
        assert(crate::catalog::seq_set(o).contains(o[k] as int));
    }
}

/// Decides what a click on the card of `talent` does (see `ClickAction`),
/// given whether a question is open.
pub fn click_action<T: TalentOwner>(owner: &T, catalog: &Catalog, talent: usize, pending: bool) -> (r: ClickAction)
    requires
        catalog.wf(),
        talent < catalog.rows().len(),
        catalog.rows()[talent as int].rewards@.len() <= i64::MAX,
    ensures
        pending ==> r is Dismiss,
        !pending ==> match card_state(owner.talents_view(), catalog.rows()[talent as int].name@) {
            Some(rank) => if rank < max_rank(catalog.rows(), talent as int) {
                r == ClickAction::RaiseRank((rank + 1) as i64)
            } else {
                let o = kept_in(
                    dependents_order(
                        catalog.rows(),
                        storable_fn::<T>(),
                        owner.talents_view(),
                        catalog.rows()[talent as int].name@,
                    ),
                    held_stored(catalog.rows(), storable_fn::<T>(), owner.talents_view()),
                );
                &&& lists_exactly(
                    o,
                    dependents_closure(
                        catalog.rows(),
                        storable_fn::<T>(),
                        owner.talents_view(),
                        crate::catalog::dep_nodes(catalog.rows(), catalog.rows()[talent as int].name@),
                        Set::empty(),
                    ).filter(held_stored(catalog.rows(), storable_fn::<T>(), owner.talents_view())),
                )
                &&& if o.len() == 0 {
                    r is Lock
                } else {
                    r matches ClickAction::ConfirmLock(ns) && texts(ns@) == display_names(catalog.rows(), o)
                }
            },
            None => {
                let o = kept_in(
                    prereq_order(
                        catalog.rows(),
                        storable_fn::<T>(),
                        owner.talents_view(),
                        name_views(catalog.rows()[talent as int].required_talents@),
                    ),
                    locked_stored(catalog.rows(), storable_fn::<T>(), owner.talents_view()),
                );
                &&& lists_exactly(
                    o,
                    prereq_closure(
                        catalog.rows(),
                        storable_fn::<T>(),
                        owner.talents_view(),
                        req_nodes(catalog.rows(), talent as int),
                        Set::empty(),
                    ).filter(locked_stored(catalog.rows(), storable_fn::<T>(), owner.talents_view())),
                )
                &&& if o.len() == 0 {
                    r is Unlock
                } else {
                    r matches ClickAction::ConfirmUnlock(ns) && texts(ns@) == display_names(catalog.rows(), o)
                }
            },
        },
{
    if pending {
        return ClickAction::Dismiss;
    }
    let ghost ts = catalog.rows();
    let t = catalog.talent(talent);
    let name = t.name.as_str();
    let n_rewards = t.rewards.len();
    let highest: usize = if n_rewards > 1 {
        n_rewards
    } else {
        1
    };
    if owner.has_talent(name) {
        let rank = match owner.talent_rank(name) {
            Some(r) => r,
            None => 1,
        };
        if (rank as i128) < (highest as i128) {
            return ClickAction::RaiseRank(rank + 1);
        }
        let stranded = unlocked_dependents(owner, catalog, name);
        proof {
            crate::unlock::lemma_dependents_in_range(ts, storable_fn::<T>(), owner.talents_view(), t.name@);
            lemma_listed_in_range(
                stranded@,
                dependents_closure(ts, storable_fn::<T>(), owner.talents_view(), crate::catalog::dep_nodes(ts, t.name@), Set::empty()).filter(
                    held_stored(ts, storable_fn::<T>(), owner.talents_view()),
                ),
                ts.len() as int,
            );
        }
        if stranded.len() == 0 {
            ClickAction::Lock
        } else {
            ClickAction::ConfirmLock(names_of_rows(catalog, &stranded))
        }
    } else {
        let missing = locked_prerequisites(owner, catalog, talent);
        proof {
            crate::unlock::lemma_prereqs_in_range(ts, storable_fn::<T>(), owner.talents_view(), talent as int);
            lemma_listed_in_range(
                missing@,
                prereq_closure(ts, storable_fn::<T>(), owner.talents_view(), req_nodes(ts, talent as int), Set::empty()).filter(
                    locked_stored(ts, storable_fn::<T>(), owner.talents_view()),
                ),
                ts.len() as int,
            );
        }
        if missing.len() == 0 {
            ClickAction::Unlock
        } else {
            ClickAction::ConfirmUnlock(names_of_rows(catalog, &missing))
        }
    }
}

/// The position of the reward tier whose effects a card shows: its rank
/// when held (rank 1 as a preview while locked), kept within 1 and the
/// highest rank. Tiers are totals, so one tier is the whole story.
pub fn effect_tier(state: Option<i64>, max_rank: i64) -> (r: usize)
    requires
        1 <= max_rank <= usize::MAX,
    ensures
        r == crate::levels::clamp_int(
            match state {
                Some(k) => k as int,
                None => 1,
            },
            1,
            max_rank as int,
        ) - 1,
{
    let rank = match state {
        Some(k) => k,
        None => 1,
    };
    let tier = if rank < 1 {
        1
    } else if rank > max_rank {
        max_rank
    } else {
        rank
    };
    (tier - 1) as usize
}

/// The rank badge of a card: the held rank (0 while locked) out of the
/// highest rank.
pub open spec fn badge_text(state: Option<i64>, max_rank: int) -> Seq<char> {
    int_text(
        match state {
            Some(k) => k as int,
            None => 0,
        },
    ) + " / "@ + int_text(max_rank)
}

/// The rank badge of a card (see `badge_text`).
pub fn rank_badge(state: Option<i64>, max_rank: i64) -> (r: String)
    ensures
        r@ == badge_text(state, max_rank as int),
{
    let mut out = String::new();
    let shown = match state {
        Some(k) => k,
        None => 0,
    };
    push_signed(&mut out, shown);
    push_str(&mut out, " / ");
    push_signed(&mut out, max_rank);
    out
}

/// How many of the first `k` listed rows the save holds.
pub open spec fn held_count(ts: Seq<ResolvedTalent>, v: Seq<(Seq<char>, i64)>, items: Seq<usize>, k: int) -> nat
    decreases k,
{
    if k <= 0 {
        0
    } else {
        held_count(ts, v, items, k - 1) + if holds(v, ts[items[k - 1] as int].name@) {
            1nat
        } else {
            0nat
        }
    }
}

/// How many of a section's rows the save holds.
pub fn unlocked_count<T: TalentOwner>(owner: &T, catalog: &Catalog, items: &[usize]) -> (r: usize)
    requires
        forall|k: int| 0 <= k < items@.len() ==> (#[trigger] items@[k] as int) < catalog.rows().len(),
    ensures
        r == held_count(catalog.rows(), owner.talents_view(), items@, items@.len() as int),
{
    let mut count: usize = 0;
    let n = items.len();
    for k in 0..n
        invariant
            n == items@.len(),
            forall|q: int| 0 <= q < items@.len() ==> (#[trigger] items@[q] as int) < catalog.rows().len(),
            count == held_count(catalog.rows(), owner.talents_view(), items@, k as int),
            count <= k,
    {
        if owner.has_talent(catalog.talent(items[k]).name.as_str()) {
            count = count + 1;
        }
    }
    count
}

/// The share of a section held, in whole percent (0 for an empty
/// section).
pub fn progress_pct(unlocked: usize, count: usize) -> (r: usize)
    requires
        unlocked * 100 <= usize::MAX,
    ensures
        r == (if count == 0 {
            0
        } else {
            (unlocked * 100) / (count as int)
        }),
{
    if count == 0 {
        0
    } else {
        (unlocked * 100) / count
    }
}

/// Whether a section starts open: when it lists at most a dozen rows.
pub fn starts_open(count: usize) -> (r: bool)
    ensures
        r == (count <= 12),
{
    count <= 12
}

/// How many of the first `k` trees use icon file `f`.
pub open spec fn icon_uses(trees: Seq<ResolvedTree>, f: Seq<char>, k: int) -> nat
    decreases k,
{
    if k <= 0 {
        0
    } else {
        icon_uses(trees, f, k - 1) + match trees[k - 1].icon_file {
            Some(g) => if g@ == f {
                1nat
            } else {
                0nat
            },
            None => 0nat,
        }
    }
}

/// The last tree named `name`.
pub open spec fn last_tree(trees: Seq<ResolvedTree>, name: Seq<char>) -> Option<int>
    decreases trees.len(),
{
    if trees.len() == 0 {
        None
    } else if trees.last().name@ == name {
        Some(trees.len() - 1)
    } else {
        last_tree(trees.drop_last(), name)
    }
}

/// The icon file of the first listed row that has one.
pub open spec fn first_icon_file(ts: Seq<ResolvedTalent>, items: Seq<usize>) -> Option<Seq<char>>
    decreases items.len(),
{
    if items.len() == 0 {
        None
    } else {
        match ts[items[0] as int].icon_file {
            Some(f) => Some(f@),
            None => first_icon_file(ts, items.drop_first()),
        }
    }
}

/// The icon of a tree section's header: the tree's own icon file, unless
/// more than two trees share it (placeholder art, such as the pickaxe of
/// every workshop tree); else the icon file of the first of its rows that
/// has one.
pub open spec fn section_icon(trees: Seq<ResolvedTree>, ts: Seq<ResolvedTalent>, tree: Seq<char>, items: Seq<usize>) -> Option<
    Seq<char>,
> {
    let own = match last_tree(trees, tree) {
        Some(i) => match trees[i].icon_file {
            Some(f) => if icon_uses(trees, f@, trees.len() as int) > 2 {
                None
            } else {
                Some(f@)
            },
            None => None,
        },
        None => None,
    };
    match own {
        Some(f) => Some(f),
        None => first_icon_file(ts, items),
    }
}

proof fn lemma_last_tree(trees: Seq<ResolvedTree>, name: Seq<char>)
    ensures
        last_tree(trees, name) matches Some(i) ==> 0 <= i < trees.len() && trees[i].name@ == name && forall|j: int|
            i < j < trees.len() ==> trees[j].name@ != name,
        last_tree(trees, name) is None ==> forall|j: int| 0 <= j < trees.len() ==> trees[j].name@ != name,
    decreases trees.len(),
{
    if trees.len() > 0 {
        lemma_last_tree(trees.drop_last(), name);
        assert(forall|j: int| 0 <= j < trees.len() - 1 ==> trees.drop_last()[j] == trees[j]);
    }
}

/// The icon of a tree section's header (see `section_icon`); `items` are
/// the tree's rows.
pub fn tree_icon_file(trees: &[ResolvedTree], catalog: &Catalog, tree_row_name: &str, items: &[usize]) -> (r: Option<
    String,
>)
    requires
        forall|k: int| 0 <= k < items@.len() ==> (#[trigger] items@[k] as int) < catalog.rows().len(),
    ensures
        opt_texts(r) == section_icon(trees@, catalog.rows(), tree_row_name@, items@),
{
    let ghost tv = trees@;
    let n = trees.len();
    let mut found: Option<usize> = None;
    for i in 0..n
        invariant
            n == tv.len(),
            tv == trees@,
            match found {
                Some(f) => f < i && last_tree(tv.take(i as int), tree_row_name@) == Some(f as int),
                None => last_tree(tv.take(i as int), tree_row_name@) is None,
            },
    {
        assert(tv.take(i + 1).drop_last() =~= tv.take(i as int));
        if crate::text::str_eq(trees[i].name.as_str(), tree_row_name) {
            found = Some(i);
        }
    }
    assert(tv.take(n as int) =~= tv);
    let own: Option<String> = match found {
        Some(f) => match &trees[f].icon_file {
            Some(file) => {
                let mut uses: usize = 0;
                for k in 0..n
                    invariant
                        n == tv.len(),
                        tv == trees@,
                        uses == icon_uses(tv, file@, k as int),
                        uses <= k,
                {
                    match &trees[k].icon_file {
                        Some(g) => {
                            if crate::text::str_eq(g.as_str(), file.as_str()) {
                                uses = uses + 1;
                            }
                        },
                        None => {},
                    }
                }
                if uses > 2 {
                    None
                } else {
                    Some(file.clone())
                }
            },
            None => None,
        },
        None => None,
    };
    proof {
        lemma_last_tree(tv, tree_row_name@);
    }
    match own {
        Some(f) => Some(f),
        None => {
            let ghost sec = section_icon(trees@, catalog.rows(), tree_row_name@, items@);
            assert(sec == first_icon_file(catalog.rows(), items@));
            let m = items.len();
            assert(items@.skip(0) =~= items@);
            for k in 0..m
                invariant
                    sec == first_icon_file(catalog.rows(), items@),
                    sec == section_icon(trees@, catalog.rows(), tree_row_name@, items@),
                    m == items@.len(),
                    forall|q: int| 0 <= q < items@.len() ==> (#[trigger] items@[q] as int) < catalog.rows().len(),
                    first_icon_file(catalog.rows(), items@) == first_icon_file(catalog.rows(), items@.skip(k as int)),
            {
                assert(items@.skip(k as int)[0] == items@[k as int]);
                match &catalog.talent(items[k]).icon_file {
                    Some(f) => {
                        return Some(f.clone());
                    },
                    None => {},
                }
                assert(items@.skip(k as int).drop_first() =~= items@.skip(k + 1));
            }
            assert(items@.skip(m as int).len() == 0);
            None
        },
    }
}

/// A string option as a value of specifications.
pub open spec fn opt_texts(o: Option<String>) -> Option<Seq<char>> {
    match o {
        Some(s) => Some(s@),
        None => None,
    }
}

} // verus!
