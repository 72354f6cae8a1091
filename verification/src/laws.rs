//! What the library promises across its operations.

use vstd::prelude::*;
use crate::json::{Json, jget, lookup};
use crate::owner::{
    after_set, clamp_currency, first_with, holds, lemma_first_with, rank_of, with_currency, with_rank,
};
use crate::pak::{merged_entries, spec_content_relative, lemma_merge_keeps_and_covers};
use crate::table::{key_position, insert_member, merge_members, merged, sanitized, unescaped, is_json_escape};
use crate::levels::{spent, entry_cost};
use crate::model::{Category, ResolvedTalent};
use crate::resolve::classified;
use crate::text::has_prefix;
use crate::json::{JsonValue, JsonNumber};
use crate::json_fmt::{written, number_text, number_items, json_quoted};
use crate::texture::{argb_to_rgba, bgra_to_rgba};

verus! {

/// Reading a currency right after setting it gives the amount set, clamped
/// into what the editor writes; every other currency reads as before.
pub proof fn law_currency_read_after_write(v: Seq<(Seq<char>, i64)>, row: Seq<char>, count: i64, other: Seq<char>)
    ensures
        rank_of(with_currency(v, row, count), row) == Some(clamp_currency(count)),
        other != row ==> rank_of(with_currency(v, row, count), other) == rank_of(v, other),
{
    lemma_first_with(v, row);
    lemma_first_with(v, other);
    let w = with_currency(v, row, count);
    lemma_first_with(w, row);
    lemma_first_with(w, other);
    match first_with(v, row) {
        Some(k) => {
            assert(w[k].0 == row);
            if let Some(j) = first_with(w, row) {
                assert(j == k);
            }
            if other != row {
                if let Some(j) = first_with(v, other) {
                    assert(w[j] == v[j]);
                    if let Some(j2) = first_with(w, other) {
                        assert(j2 == j);
                    }
                } else {
                    assert(forall|j: int| 0 <= j < w.len() ==> #[trigger] w[j].0 != other);
                }
            }
        },
        None => {
            assert(w[v.len() as int].0 == row);
            if let Some(j) = first_with(w, row) {
                assert(j == v.len());
            }
            if other != row {
                if let Some(j) = first_with(v, other) {
                    assert(w[j] == v[j]);
                    if let Some(j2) = first_with(w, other) {
                        assert(j2 == j);
                    }
                } else {
                    assert(forall|j: int| 0 <= j < w.len() ==> #[trigger] w[j].0 != other);
                }
            }
        },
    }
}

/// After unlocking a talent the save holds it; after locking it, it does
/// not.
pub proof fn law_unlock_then_lock(v: Seq<(Seq<char>, i64)>, name: Seq<char>)
    ensures
        holds(after_set(v, name, true), name),
        !holds(after_set(v, name, false), name),
{
    if !holds(v, name) {
        assert(after_set(v, name, true)[v.len() as int].0 == name);
    }
    lemma_without_drops(v, name);
}

proof fn lemma_without_drops(v: Seq<(Seq<char>, i64)>, name: Seq<char>)
    ensures
        !holds(crate::owner::without(v, name), name),
    decreases v.len(),
{
    if v.len() > 0 {
        lemma_without_drops(v.drop_last(), name);
        let a = crate::owner::without(v.drop_last(), name);
        if v.last().0 != name {
            assert forall|k: int| 0 <= k < a.push(v.last()).len() implies #[trigger] a.push(v.last())[k].0 != name by {
                if k < a.len() {
                    assert(a.push(v.last())[k] == a[k]);
                }
            }
        }
    }
}

/// Reading a held talent's rank right after setting it gives the rank set.
pub proof fn law_rank_read_after_write(v: Seq<(Seq<char>, i64)>, name: Seq<char>, rank: i64)
    requires
        holds(v, name),
    ensures
        rank_of(with_rank(v, name, rank), name) == Some(rank),
{
    lemma_first_with(v, name);
    let k = first_with(v, name).unwrap();
    let w = with_rank(v, name, rank);
    lemma_first_with(w, name);
    assert(w == v.update(k, (name, rank)));
    assert(w[k].0 == name);
    if let Some(j) = first_with(w, name) {
        if j < k {
            assert(w[j] == v[j]);
        }
        assert(j == k);
    }
}

/// Whether no two members share a key.
pub open spec fn unique_keys(ms: Seq<(Seq<char>, Json)>) -> bool {
    forall|i: int, j: int| 0 <= i < j < ms.len() ==> #[trigger] ms[i].0 != #[trigger] ms[j].0
}

proof fn lemma_lookup_at(ms: Seq<(Seq<char>, Json)>, i: int)
    requires
        unique_keys(ms),
        0 <= i < ms.len(),
    ensures
        lookup(ms, ms[i].0) == Some(ms[i].1),
    decreases ms.len(),
{
    if i > 0 {
        assert(ms[0].0 != ms[i].0);
        let d = ms.drop_first();
        assert(unique_keys(d)) by {
            assert forall|a: int, b: int| 0 <= a < b < d.len() implies #[trigger] d[a].0 != #[trigger] d[b].0 by {
                assert(d[a] == ms[a + 1] && d[b] == ms[b + 1]);
            }
        }
        lemma_lookup_at(d, i - 1);
    }
}

proof fn lemma_lookup_absent(ms: Seq<(Seq<char>, Json)>, key: Seq<char>)
    requires
        forall|i: int| 0 <= i < ms.len() ==> #[trigger] ms[i].0 != key,
    ensures
        lookup(ms, key) is None,
    decreases ms.len(),
{
    if ms.len() > 0 {
        let d = ms.drop_first();
        assert forall|i: int| 0 <= i < d.len() implies #[trigger] d[i].0 != key by {
            assert(d[i] == ms[i + 1]);
        }
        lemma_lookup_absent(d, key);
    }
}

proof fn lemma_lookup_unique(ms: Seq<(Seq<char>, Json)>, key: Seq<char>)
    requires
        unique_keys(ms),
    ensures
        lookup(ms, key) matches Some(v) ==> exists|i: int| 0 <= i < ms.len() && ms[i] == (key, v),
        lookup(ms, key) is None ==> forall|i: int| 0 <= i < ms.len() ==> #[trigger] ms[i].0 != key,
{
    if exists|i: int| 0 <= i < ms.len() && ms[i].0 == key {
        let i = choose|i: int| 0 <= i < ms.len() && ms[i].0 == key;
        lemma_lookup_at(ms, i);
    } else {
        lemma_lookup_absent(ms, key);
    }
}

/// Members after the merge: the keys stay unique, and each key holds the
/// row's value where the row has one, else the defaults' value.
proof fn lemma_merge_lookup(dm: Seq<(Seq<char>, Json)>, rm: Seq<(Seq<char>, Json)>, key: Seq<char>)
    requires
        unique_keys(dm),
        unique_keys(rm),
    ensures
        unique_keys(merge_members(dm, rm)),
        lookup(merge_members(dm, rm), key) == (match lookup(rm, key) {
            Some(v) => Some(v),
            None => lookup(dm, key),
        }),
    decreases rm.len(),
{
    if rm.len() == 0 {
        lemma_lookup_absent(rm, key);
    } else {
        let init = rm.drop_last();
        assert(unique_keys(init)) by {
            assert forall|a: int, b: int| 0 <= a < b < init.len() implies #[trigger] init[a].0 != #[trigger] init[b].0 by {
                assert(init[a] == rm[a] && init[b] == rm[b]);
            }
        }
        lemma_merge_lookup(dm, init, key);
        let before = merge_members(dm, init);
        let (k, v) = rm.last();
        let after = insert_member(before, k, v);
        assert(merge_members(dm, rm) == after);
        crate::table::lemma_key_position(before, k);
        lemma_lookup_unique(before, key);
        // the keys stay unique
        assert(unique_keys(after)) by {
            match key_position(before, k) {
                Some(p) => {
                    assert forall|a: int, b: int| 0 <= a < b < after.len() implies #[trigger] after[a].0
                        != #[trigger] after[b].0 by {
                        assert(after[a].0 == before[a].0);
                        assert(after[b].0 == before[b].0);
                    }
                },
                None => {
                    assert(forall|i: int| 0 <= i < before.len() ==> #[trigger] before[i].0 != k) by {
                        if exists|i: int| 0 <= i < before.len() && before[i].0 == k {
                            let i = choose|i: int| 0 <= i < before.len() && before[i].0 == k;
                            lemma_key_pos_found(before, k, i);
                        }
                    }
                },
            }
        }
        lemma_lookup_unique(after, key);
        lemma_lookup_unique(rm, key);
        lemma_lookup_unique(init, key);
        if key == k {
            assert(lookup(rm, key) == Some(v)) by {
                lemma_lookup_at(rm, rm.len() - 1);
            }
            match key_position(before, k) {
                Some(p) => lemma_lookup_at(after, p),
                None => lemma_lookup_at(after, before.len() as int),
            }
        } else {
            if let Some(w) = lookup(init, key) {
                let i = choose|i: int| 0 <= i < init.len() && init[i] == (key, w);
                assert(rm[i] == init[i]);
                lemma_lookup_at(rm, i);
            } else {
                assert forall|i: int| 0 <= i < rm.len() implies #[trigger] rm[i].0 != key by {
                    if i < init.len() {
                        assert(rm[i] == init[i]);
                    }
                }
                lemma_lookup_absent(rm, key);
            }
            match lookup(before, key) {
                Some(w) => {
                    let i = choose|i: int| 0 <= i < before.len() && before[i] == (key, w);
                    assert(after[i] == before[i]);
                    lemma_lookup_at(after, i);
                },
                None => {
                    assert forall|i: int| 0 <= i < after.len() implies #[trigger] after[i].0 != key by {
                        if i < before.len() {
                        }
                    }
                    lemma_lookup_absent(after, key);
                },
            }
        }
    }
}

proof fn lemma_key_pos_found(ms: Seq<(Seq<char>, Json)>, k: Seq<char>, i: int)
    requires
        0 <= i < ms.len(),
        ms[i].0 == k,
    ensures
        key_position(ms, k) is Some,
    decreases ms.len(),
{
    if i < ms.len() - 1 {
        lemma_key_pos_found(ms.drop_last(), k, i);
    }
}

/// A row found in a table reads, field by field, as the row where the row
/// has the field and as the table's defaults where it does not (for rows
/// and defaults that are objects without repeated keys, as parsed JSON
/// objects are).
pub proof fn law_merged_field(defaults: Json, row: Json, field: Seq<char>)
    requires
        defaults matches Json::Object(dm) && unique_keys(dm),
        row matches Json::Object(rm) && unique_keys(rm),
    ensures
        jget(merged(defaults, row), field) == (match jget(row, field) {
            Some(v) => Some(v),
            None => jget(defaults, field),
        }),
{
    if let (Json::Object(dm), Json::Object(rm)) = (defaults, row) {
        lemma_merge_lookup(dm, rm, field);
    }
}

/// Text without backslashes passes the escape repair unchanged.
pub proof fn law_sanitize_plain_text(s: Seq<char>)
    requires
        !s.contains('\\'),
    ensures
        sanitized(s) == s,
    decreases s.len(),
{
    if s.len() > 0 {
        assert(s[0] != '\\') by {
            if s[0] == '\\' {
                assert(s.contains(s[0]));
            }
        }
        let d = s.drop_first();
        assert(!d.contains('\\')) by {
            if d.contains('\\') {
                let i = choose|i: int| 0 <= i < d.len() && d[i] == '\\';
                assert(s[i + 1] == '\\');
            }
        }
        law_sanitize_plain_text(d);
        assert(s =~= seq![s[0]] + d);
    }
}

/// Text without backslashes passes the unescaping unchanged.
pub proof fn law_unescape_plain_text(s: Seq<char>)
    requires
        !s.contains('\\'),
    ensures
        unescaped(s) == s,
    decreases s.len(),
{
    if s.len() > 0 {
        assert(s[0] != '\\') by {
            if s[0] == '\\' {
                assert(s.contains(s[0]));
            }
        }
        let d = s.drop_first();
        assert(!d.contains('\\')) by {
            if d.contains('\\') {
                let i = choose|i: int| 0 <= i < d.len() && d[i] == '\\';
                assert(s[i + 1] == '\\');
            }
        }
        law_unescape_plain_text(d);
        assert(s =~= seq![s[0]] + d);
    }
}

/// Merging a pak into the index moves no content path another pak already
/// claimed; afterwards every file of the pak resolves to a pak; and a path
/// the pak newly claims points at this pak and at one of its files that
/// rebases onto that path.
pub proof fn law_pak_merge(
    m: Map<Seq<char>, (usize, Seq<char>)>,
    pak: usize,
    mount_point: Seq<char>,
    files: Seq<Seq<char>>,
)
    ensures
        forall|k: Seq<char>| #[trigger] m.contains_key(k) ==> merged_entries(m, pak, mount_point, files).contains_key(k)
            && merged_entries(m, pak, mount_point, files)[k] == m[k],
        forall|i: int| 0 <= i < files.len() ==> merged_entries(m, pak, mount_point, files).contains_key(
            #[trigger] spec_content_relative(mount_point, files[i]),
        ),
        forall|k: Seq<char>| #[trigger] merged_entries(m, pak, mount_point, files).contains_key(k) ==> m.contains_key(k)
            || (merged_entries(m, pak, mount_point, files)[k].0 == pak
                && exists|i: int| 0 <= i < files.len() && files[i] == merged_entries(m, pak, mount_point, files)[k].1
                    && spec_content_relative(mount_point, files[i]) == k),
{
    lemma_merge_keeps_and_covers(m, pak, mount_point, files);
}


/// The first of `files`, in order, whose content path under `mount_point`
/// is `path`.
pub open spec fn first_file(mount_point: Seq<char>, files: Seq<Seq<char>>, path: Seq<char>) -> Option<Seq<char>>
    decreases files.len(),
{
    if files.len() == 0 {
        None
    } else {
        match first_file(mount_point, files.drop_last(), path) {
            Some(f) => Some(f),
            None => if spec_content_relative(mount_point, files.last()) == path {
                Some(files.last())
            } else {
                None
            },
        }
    }
}

/// The first of the paks (mount point and entry paths each), in order,
/// holding an entry whose content path is `path`: its number, and its
/// first such entry.
pub open spec fn first_claim(paks: Seq<(Seq<char>, Seq<Seq<char>>)>, path: Seq<char>) -> Option<(int, Seq<char>)>
    decreases paks.len(),
{
    if paks.len() == 0 {
        None
    } else {
        match first_claim(paks.drop_last(), path) {
            Some(c) => Some(c),
            None => match first_file(paks.last().0, paks.last().1, path) {
                Some(f) => Some((paks.len() - 1, f)),
                None => None,
            },
        }
    }
}

/// The index after merging the paks in order, the first as pak 0, as
/// `PakIndex::add_pak` merges them.
pub open spec fn index_of_paks(paks: Seq<(Seq<char>, Seq<Seq<char>>)>) -> Map<Seq<char>, (usize, Seq<char>)>
    decreases paks.len(),
{
    if paks.len() == 0 {
        Map::empty()
    } else {
        merged_entries(index_of_paks(paks.drop_last()), (paks.len() - 1) as usize, paks.last().0, paks.last().1)
    }
}

proof fn lemma_merged_lookup(
    m: Map<Seq<char>, (usize, Seq<char>)>,
    pak: usize,
    mount_point: Seq<char>,
    files: Seq<Seq<char>>,
    path: Seq<char>,
)
    ensures
        merged_entries(m, pak, mount_point, files).contains_key(path) == (m.contains_key(path) || first_file(
            mount_point,
            files,
            path,
        ) is Some),
        merged_entries(m, pak, mount_point, files).contains_key(path) ==> merged_entries(m, pak, mount_point, files)[path]
            == if m.contains_key(path) {
            m[path]
        } else {
            (pak, first_file(mount_point, files, path).unwrap())
        },
    decreases files.len(),
{
    if files.len() > 0 {
        lemma_merged_lookup(m, pak, mount_point, files.drop_last(), path);
    }
}

/// Merging the paks in order, a content path resolves to the first pak
/// holding an entry with that path, and to that pak's first such entry: a
/// later pak never wins a collision. A path no pak holds is not found.
pub proof fn law_first_pak_wins(paks: Seq<(Seq<char>, Seq<Seq<char>>)>, path: Seq<char>)
    requires
        paks.len() <= usize::MAX,
    ensures
        index_of_paks(paks).contains_key(path) == first_claim(paks, path) is Some,
        first_claim(paks, path) matches Some(c) ==> index_of_paks(paks)[path] == (c.0 as usize, c.1),
    decreases paks.len(),
{
    if paks.len() > 0 {
        law_first_pak_wins(paks.drop_last(), path);
        lemma_merged_lookup(
            index_of_paks(paks.drop_last()),
            (paks.len() - 1) as usize,
            paks.last().0,
            paks.last().1,
            path,
        );
    }
}

/// The points of two talent lists one after the other are the sums of
/// their points, pool by pool; an empty list costs nothing.
pub proof fn law_spent_concat(ts: Seq<ResolvedTalent>, a: Seq<(Seq<char>, i64)>, b: Seq<(Seq<char>, i64)>)
    ensures
        spent(ts, a + b).0 == spent(ts, a).0 + spent(ts, b).0,
        spent(ts, a + b).1 == spent(ts, a).1 + spent(ts, b).1,
        spent(ts, a + b).2 == spent(ts, a).2 + spent(ts, b).2,
        spent(ts, Seq::empty()) == (0int, 0int, 0int),
    decreases b.len(),
{
    if b.len() == 0 {
        assert(a + b =~= a);
    } else {
        law_spent_concat(ts, a, b.drop_last());
        assert((a + b).drop_last() =~= a + b.drop_last());
        assert((a + b).last() == b.last());
    }
}

/// The points a talent list costs do not depend on the order of its
/// entries.
pub proof fn law_spent_any_order(ts: Seq<ResolvedTalent>, v: Seq<(Seq<char>, i64)>, w: Seq<(Seq<char>, i64)>)
    requires
        v.to_multiset() == w.to_multiset(),
    ensures
        spent(ts, v) == spent(ts, w),
    decreases v.len(),
{
    broadcast use vstd::seq_lib::group_to_multiset_ensures;
    broadcast use vstd::multiset::group_multiset_axioms;

    if v.len() == 0 {
        assert(w.to_multiset().len() == 0);
        assert(w =~= Seq::<(Seq<char>, i64)>::empty());
        assert(v =~= w);
    } else {
        let x = v.last();
        let vd = v.drop_last();
        assert(vd.push(x) =~= v);
        assert(v.to_multiset() =~= vd.to_multiset().insert(x));
        assert(w.to_multiset().count(x) > 0);
        assert(w.contains(x));
        let j = choose|j: int| 0 <= j < w.len() && w[j] == x;
        let wr = w.remove(j);
        assert(wr.to_multiset() == w.to_multiset().remove(w[j]));
        assert(wr.to_multiset() =~= vd.to_multiset());
        law_spent_any_order(ts, vd, wr);
        let w0 = w.take(j);
        let w1 = w.skip(j + 1);
        assert(w =~= w0 + seq![x] + w1);
        assert(wr =~= w0 + w1);
        law_spent_concat(ts, w0 + seq![x], w1);
        law_spent_concat(ts, w0, seq![x]);
        law_spent_concat(ts, w0, w1);
        assert(seq![x].drop_last() =~= Seq::<(Seq<char>, i64)>::empty());
        assert(spent(ts, seq![x]) == entry_cost(ts, x));
    }
}


/// Repairing the escapes twice gives what repairing once gives.
pub proof fn law_sanitize_idempotent(s: Seq<char>)
    ensures
        sanitized(sanitized(s)) == sanitized(s),
    decreases s.len(),
{
    if s.len() == 0 {
    } else if s[0] != '\\' {
        let x = sanitized(s.drop_first());
        law_sanitize_idempotent(s.drop_first());
        let out = seq![s[0]] + x;
        assert(out[0] == s[0]);
        assert(out.drop_first() =~= x);
    } else if s.len() == 1 {
        let out = seq!['\\'];
        assert(out.len() == 1 && out[0] == '\\');
    } else if is_json_escape(s[1]) {
        let x = sanitized(s.skip(2));
        law_sanitize_idempotent(s.skip(2));
        let out = seq!['\\', s[1]] + x;
        assert(out[0] == '\\' && out[1] == s[1] && out.len() >= 2);
        assert(out.skip(2) =~= x);
    } else if s[1] == 'u' {
        if s.len() < 6 {
            let out = seq!['\\', 'u'] + s.subrange(2, s.len() as int) + sanitized(s.skip(s.len() as int));
            assert(s.skip(s.len() as int) =~= Seq::<char>::empty());
            assert(out =~= seq!['\\', 'u'] + s.subrange(2, s.len() as int));
            assert(out[0] == '\\' && out[1] == 'u' && out.len() == s.len());
            assert(out.subrange(2, out.len() as int) =~= s.subrange(2, s.len() as int));
            assert(out.skip(out.len() as int) =~= Seq::<char>::empty());
        } else {
            let x = sanitized(s.skip(6));
            law_sanitize_idempotent(s.skip(6));
            let out = seq!['\\', 'u'] + s.subrange(2, 6) + x;
            assert(out[0] == '\\' && out[1] == 'u' && out.len() >= 6);
            assert(out.subrange(2, 6) =~= s.subrange(2, 6));
            assert(out.skip(6) =~= x);
        }
    } else {
        let x = sanitized(s.skip(2));
        law_sanitize_idempotent(s.skip(2));
        let out = seq![s[1]] + x;
        assert(s[1] != '\\');
        assert(out[0] == s[1]);
        assert(out.drop_first() =~= x);
    }
}


/// `s` is `p` followed by something.
pub open spec fn begins_with(s: Seq<char>, p: Seq<char>) -> bool {
    exists|rest: Seq<char>| #[trigger] (p + rest) == s
}

proof fn lemma_begins_with(s: Seq<char>, p: Seq<char>)
    ensures
        has_prefix(s, p) == begins_with(s, p),
{
    if has_prefix(s, p) {
        assert(p + s.skip(p.len() as int) =~= s);
    }
    if begins_with(s, p) {
        let rest = choose|rest: Seq<char>| #[trigger] (p + rest) == s;
        assert(s.take(p.len() as int) =~= p);
    }
}

/// A row with display data is a blueprint, a workshop item, a mission, a
/// creature or a plain talent by its tree's archetype, tested in that
/// order: `Blueprint_...`; `Workshop_...`; `Prospect_...`, `Outpost` or
/// `GreatHunt_...`; `Creature_...`; anything else. A row without display
/// data only connects others.
pub proof fn law_category_by_archetype(a: Seq<char>, has_display_data: bool)
    ensures
        !has_display_data ==> classified(a, has_display_data) == Category::Connector,
        has_display_data && begins_with(a, "Blueprint_"@) ==> classified(a, has_display_data)
            == Category::Blueprint,
        has_display_data && !begins_with(a, "Blueprint_"@) && begins_with(a, "Workshop_"@) ==> classified(
            a,
            has_display_data,
        ) == Category::Workshop,
        has_display_data && !begins_with(a, "Blueprint_"@) && !begins_with(a, "Workshop_"@) && (begins_with(
            a,
            "Prospect_"@,
        ) || a == "Outpost"@ || begins_with(a, "GreatHunt_"@)) ==> classified(a, has_display_data)
            == Category::Mission,
        has_display_data && !begins_with(a, "Blueprint_"@) && !begins_with(a, "Workshop_"@) && !begins_with(
            a,
            "Prospect_"@,
        ) && a != "Outpost"@ && !begins_with(a, "GreatHunt_"@) && begins_with(a, "Creature_"@) ==> classified(
            a,
            has_display_data,
        ) == Category::Creature,
        has_display_data && !begins_with(a, "Blueprint_"@) && !begins_with(a, "Workshop_"@) && !begins_with(
            a,
            "Prospect_"@,
        ) && a != "Outpost"@ && !begins_with(a, "GreatHunt_"@) && !begins_with(a, "Creature_"@) ==> classified(
            a,
            has_display_data,
        ) == Category::Talent,
{
    lemma_begins_with(a, "Blueprint_"@);
    lemma_begins_with(a, "Workshop_"@);
    lemma_begins_with(a, "Prospect_"@);
    lemma_begins_with(a, "GreatHunt_"@);
    lemma_begins_with(a, "Creature_"@);
}


proof fn lemma_number_items_prefix(s1: Seq<JsonValue>, s2: Seq<JsonValue>, k: int)
    requires
        0 <= k <= s1.len(),
        k <= s2.len(),
        forall|i: int| 0 <= i < k ==> s1[i] == s2[i],
    ensures
        number_items(s1, k) == number_items(s2, k),
    decreases k,
{
    if k > 0 {
        lemma_number_items_prefix(s1, s2, k - 1);
    }
}

/// A non-empty array of numbers is written on one line, the same at every
/// depth: a single number `n` as `[ n ]`, and one more number `x` after the
/// others goes in before the closing ` ]`, after `, `.
pub proof fn law_number_arrays_inline(
    a: Vec<JsonValue>,
    b: Vec<JsonValue>,
    n: JsonNumber,
    x: JsonNumber,
    d1: nat,
    d2: nat,
)
    ensures
        a@ == seq![JsonValue::Number(n)] ==> written(JsonValue::Array(a), d1) == "[ "@ + number_text(n) + " ]"@,
        a@.len() >= 1 && (forall|i: int| 0 <= i < a@.len() ==> #[trigger] a@[i] is Number) && b@ == a@.push(
            JsonValue::Number(x),
        ) ==> written(JsonValue::Array(b), d1) == written(JsonValue::Array(a), d2).drop_last().drop_last()
            + ", "@ + number_text(x) + " ]"@,
{
    if a@ == seq![JsonValue::Number(n)] {
        assert(a@[0] is Number);
        assert(crate::json_fmt::all_numbers(a@));
        assert(number_items(a@, 0) == Seq::<char>::empty());
        assert(number_items(a@, 1) =~= crate::json_fmt::value_number_text(a@[0]));
        assert(written(JsonValue::Array(a), d1) =~= "[ "@ + number_text(n) + " ]"@);
    }
    if a@.len() >= 1 && (forall|i: int| 0 <= i < a@.len() ==> #[trigger] a@[i] is Number) && b@ == a@.push(
        JsonValue::Number(x),
    ) {
        let k = a@.len() as int;
        assert(crate::json_fmt::all_numbers(a@));
        assert forall|i: int| 0 <= i < b@.len() implies #[trigger] b@[i] is Number by {
            if i < k {
                assert(b@[i] == a@[i]);
            }
        }
        assert(crate::json_fmt::all_numbers(b@));
        lemma_number_items_prefix(a@, b@, k);
        assert(b@[k] == JsonValue::Number(x));
        assert(number_items(b@, k + 1) == number_items(a@, k) + ", "@ + number_text(x));
        let wa = written(JsonValue::Array(a), d2);
        reveal_strlit(" ]");
        assert(wa == "[ "@ + number_items(a@, k) + " ]"@);
        assert(wa.drop_last().drop_last() =~= "[ "@ + number_items(a@, k));
        assert(written(JsonValue::Array(b), d1) =~= wa.drop_last().drop_last() + ", "@ + number_text(x) + " ]"@);
    }
}


/// A decoded pixel packed as `0xAARRGGBB` becomes four bytes in RGBA order:
/// red (bits 16 to 23) first, then green (bits 8 to 15), blue (bits 0 to 7)
/// and alpha (bits 24 to 31); pixel `i` fills bytes `4 * i` to `4 * i + 3`.
pub proof fn law_packed_pixels_to_rgba(px: Seq<u32>, i: int)
    requires
        0 <= i < px.len(),
    ensures
        argb_to_rgba(px).len() == 4 * px.len(),
        argb_to_rgba(px)[4 * i] == ((px[i] >> 16u32) & 0xffu32) as u8,
        argb_to_rgba(px)[4 * i + 1] == ((px[i] >> 8u32) & 0xffu32) as u8,
        argb_to_rgba(px)[4 * i + 2] == (px[i] & 0xffu32) as u8,
        argb_to_rgba(px)[4 * i + 3] == (px[i] >> 24u32) as u8,
{
    let v = px[i];
    assert((v >> 16u32) & 0xffu32 == (v / 0x10000) % 0x100) by (bit_vector);
    assert((v >> 8u32) & 0xffu32 == (v / 0x100) % 0x100) by (bit_vector);
    assert(v & 0xffu32 == v % 0x100) by (bit_vector);
    assert(v >> 24u32 == v / 0x100_0000) by (bit_vector);
    assert((4 * i) / 4 == i && (4 * i) % 4 == 0);
    assert((4 * i + 1) / 4 == i && (4 * i + 1) % 4 == 1);
    assert((4 * i + 2) / 4 == i && (4 * i + 2) % 4 == 2);
    assert((4 * i + 3) / 4 == i && (4 * i + 3) % 4 == 3);
}

/// An uncompressed pixel stored blue, green, red, alpha becomes red, green,
/// blue, alpha: pixel `i` fills bytes `4 * i` to `4 * i + 3`.
pub proof fn law_bgra_pixels_to_rgba(data: Seq<u8>, n: int, i: int)
    requires
        0 <= i < n,
        4 * n <= data.len(),
    ensures
        bgra_to_rgba(data, n).len() == 4 * n,
        bgra_to_rgba(data, n)[4 * i] == data[4 * i + 2],
        bgra_to_rgba(data, n)[4 * i + 1] == data[4 * i + 1],
        bgra_to_rgba(data, n)[4 * i + 2] == data[4 * i],
        bgra_to_rgba(data, n)[4 * i + 3] == data[4 * i + 3],
{
    assert((4 * i) / 4 == i && (4 * i) % 4 == 0);
    assert((4 * i + 1) / 4 == i && (4 * i + 1) % 4 == 1);
    assert((4 * i + 2) / 4 == i && (4 * i + 2) % 4 == 2);
    assert((4 * i + 3) / 4 == i && (4 * i + 3) % 4 == 3);
}


/// Empty arrays and objects are written `[]` and `{}`; an object of one
/// member is written over three lines: `{`, then the member indented one
/// tab deeper than the object, its quoted key, `: ` and its value written
/// one level deeper, then `}` at the object's own indentation, the lines
/// ending in CR LF.
pub proof fn law_object_layout(a: Vec<JsonValue>, m: Vec<(String, JsonValue)>, d: nat)
    ensures
        a@.len() == 0 ==> written(JsonValue::Array(a), d) == "[]"@,
        m@.len() == 0 ==> written(JsonValue::Object(m), d) == "{}"@,
        m@.len() == 1 ==> written(JsonValue::Object(m), d) == "{\r\n"@ + Seq::new(d + 1, |i: int| '\t')
            + json_quoted(m@[0].0@) + ": "@ + written(m@[0].1, d + 1) + "\r\n"@ + Seq::new(d, |i: int| '\t')
            + "}"@,
{
    if m@.len() == 1 {
        let ms = m@;
        assert(crate::json_fmt::object_items(ms, d, 0) == Seq::<char>::empty());
        assert(crate::json_fmt::object_items(ms, d, 1) =~= Seq::new(d + 1, |i: int| '\t') + json_quoted(
            ms[0].0@,
        ) + ": "@ + written(ms[0].1, d + 1) + "\r\n"@);
        assert(written(JsonValue::Object(m), d) =~= "{\r\n"@ + Seq::new(d + 1, |i: int| '\t') + json_quoted(
            m@[0].0@,
        ) + ": "@ + written(m@[0].1, d + 1) + "\r\n"@ + Seq::new(d, |i: int| '\t') + "}"@);
    }
}

} // verus!
