//! Save records that hold a `Talents: [{RowName, Rank}]` list and an
//! `UnlockedFlags: [int]` list: characters and the profile.

use vstd::prelude::*;
use crate::catalog::{Catalog, flag_index_in};
use crate::model::{Category, CharacterSave, ProfileSave, TalentEntry, MetaResourceEntry, CURRENCY_MAX};
use crate::text::str_eq;

verus! {

/// A talent entry as (row name, rank).
pub open spec fn entry_view(e: TalentEntry) -> (Seq<char>, i64) {
    (e.row_name@, e.rank)
}

/// A talent list as (row name, rank) pairs.
pub open spec fn entries_view(s: Seq<TalentEntry>) -> Seq<(Seq<char>, i64)> {
    s.map_values(|e: TalentEntry| entry_view(e))
}

/// Whether some entry has row name `name`.
pub open spec fn holds(v: Seq<(Seq<char>, i64)>, name: Seq<char>) -> bool {
    exists|k: int| 0 <= k < v.len() && #[trigger] v[k].0 == name
}

/// The list without any entry of row name `name`, the rest in order.
pub open spec fn without(v: Seq<(Seq<char>, i64)>, name: Seq<char>) -> Seq<(Seq<char>, i64)>
    decreases v.len(),
{
    if v.len() == 0 {
        v
    } else if v.last().0 == name {
        without(v.drop_last(), name)
    } else {
        without(v.drop_last(), name).push(v.last())
    }
}

/// The list without any entry whose row name is in `names`, the rest in order.
pub open spec fn without_names(v: Seq<(Seq<char>, i64)>, names: Set<Seq<char>>) -> Seq<(Seq<char>, i64)>
    decreases v.len(),
{
    if v.len() == 0 {
        v
    } else if names.contains(v.last().0) {
        without_names(v.drop_last(), names)
    } else {
        without_names(v.drop_last(), names).push(v.last())
    }
}

/// Removing one more name from a list already stripped of some names.
pub proof fn lemma_without_names_insert(v: Seq<(Seq<char>, i64)>, names: Set<Seq<char>>, n: Seq<char>)
    ensures
        without(without_names(v, names), n) == without_names(v, names.insert(n)),
    decreases v.len(),
{
    if v.len() > 0 {
        lemma_without_names_insert(v.drop_last(), names, n);
        let a = without_names(v.drop_last(), names);
        if !names.contains(v.last().0) {
            assert(a.push(v.last()).drop_last() =~= a);
        }
    }
}

/// Stripping two name sets one after the other strips their union.
pub proof fn lemma_without_names_union(v: Seq<(Seq<char>, i64)>, s1: Set<Seq<char>>, s2: Set<Seq<char>>)
    ensures
        without_names(without_names(v, s1), s2) == without_names(v, s1.union(s2)),
    decreases v.len(),
{
    if v.len() > 0 {
        lemma_without_names_union(v.drop_last(), s1, s2);
        let a = without_names(v.drop_last(), s1);
        if !s1.contains(v.last().0) {
            assert(a.push(v.last()).drop_last() =~= a);
        }
    }
}

/// A stripped list holds a name exactly when the list did and the name was not stripped.
pub proof fn lemma_holds_without_names(v: Seq<(Seq<char>, i64)>, s: Set<Seq<char>>, n: Seq<char>)
    ensures
        holds(without_names(v, s), n) == (holds(v, n) && !s.contains(n)),
    decreases v.len(),
{
    if v.len() > 0 {
        let d = v.drop_last();
        lemma_holds_without_names(d, s, n);
        let r = without_names(d, s);
        if holds(v, n) && !s.contains(n) {
            let k = choose|k: int| 0 <= k < v.len() && #[trigger] v[k].0 == n;
            if k < v.len() - 1 {
                assert(d[k].0 == n);
            } else if !s.contains(v.last().0) {
                assert(r.push(v.last())[r.len() as int].0 == n);
            }
        }
        if holds(d, n) {
            let k = choose|k: int| 0 <= k < d.len() && #[trigger] d[k].0 == n;
            assert(v[k].0 == n);
        }
        if !s.contains(v.last().0) {
            let w = r.push(v.last());
            if holds(w, n) {
                let k = choose|k: int| 0 <= k < w.len() && #[trigger] w[k].0 == n;
                if k < r.len() {
                    assert(r[k].0 == n);
                } else {
                    assert(v[v.len() - 1].0 == n);
                }
            }
            if holds(r, n) {
                let k = choose|k: int| 0 <= k < r.len() && #[trigger] r[k].0 == n;
                assert(w[k].0 == n);
            }
        }
        if holds(v, n) && !holds(d, n) {
            let k = choose|k: int| 0 <= k < v.len() && #[trigger] v[k].0 == n;
            if k < v.len() - 1 {
                assert(d[k].0 == n);
            }
        }
    }
}

/// Stripping no names changes nothing.
pub proof fn lemma_without_names_empty(v: Seq<(Seq<char>, i64)>)
    ensures
        without_names(v, Set::empty()) == v,
    decreases v.len(),
{
    if v.len() > 0 {
        lemma_without_names_empty(v.drop_last());
        assert(v.drop_last().push(v.last()) =~= v);
    }
}

/// The position of the first entry of row name `name`.
pub open spec fn first_with(v: Seq<(Seq<char>, i64)>, name: Seq<char>) -> Option<int>
    decreases v.len(),
{
    if v.len() == 0 {
        None
    } else if v[0].0 == name {
        Some(0)
    } else {
        match first_with(v.drop_first(), name) {
            Some(k) => Some(k + 1),
            None => None,
        }
    }
}

/// The rank of the first entry of row name `name`.
pub open spec fn rank_of(v: Seq<(Seq<char>, i64)>, name: Seq<char>) -> Option<i64> {
    match first_with(v, name) {
        Some(k) => Some(v[k].1),
        None => None,
    }
}

/// The list with the first entry of row name `name` set to `rank`.
pub open spec fn with_rank(v: Seq<(Seq<char>, i64)>, name: Seq<char>, rank: i64) -> Seq<
    (Seq<char>, i64),
> {
    match first_with(v, name) {
        Some(k) => v.update(k, (name, rank)),
        None => v,
    }
}

/// The talent list after unlocking (`true`) or locking (`false`) `name`:
/// unlocking appends it at rank 1 unless already present; locking removes
/// every entry of that name.
pub open spec fn after_set(v: Seq<(Seq<char>, i64)>, name: Seq<char>, unlocked: bool) -> Seq<
    (Seq<char>, i64),
> {
    if unlocked {
        if holds(v, name) {
            v
        } else {
            v.push((name, 1))
        }
    } else {
        without(v, name)
    }
}

/// The flag list after switching `index` on (appended unless present) or
/// off (every occurrence removed).
pub open spec fn flags_after(f: Seq<i64>, index: i64, on: bool) -> Seq<i64>
    decreases f.len(),
{
    if on {
        if f.contains(index) {
            f
        } else {
            f.push(index)
        }
    } else if f.len() == 0 {
        f
    } else if f.last() == index {
        flags_after(f.drop_last(), index, false)
    } else {
        flags_after(f.drop_last(), index, false).push(f.last())
    }
}

/// Anything that has a `Talents: [{RowName, Rank}]` list. Implemented by
/// characters and by the profile (orbital workshop research).
pub trait TalentOwner: Sized {
    /// The talent list as (row name, rank) pairs.
    spec fn talents_view(&self) -> Seq<(Seq<char>, i64)>;

    /// The `UnlockedFlags` list.
    spec fn flags_view(&self) -> Seq<i64>;

    /// Whether this kind of save stores rows of `category`.
    spec fn spec_storable(category: Category) -> bool;

    /// The index of flag `name` in this kind of save's flag table.
    spec fn spec_flag_index(catalog: &Catalog, name: Seq<char>) -> Option<i64>;

    /// Whether `other` agrees with this save on everything but the talent
    /// list and the flags.
    spec fn same_rest(&self, other: Self) -> bool;

    proof fn lemma_same_rest_refl(a: Self)
        ensures
            a.same_rest(a),
    ;

    proof fn lemma_same_rest_trans(a: Self, b: Self, c: Self)
        requires
            a.same_rest(b),
            b.same_rest(c),
        ensures
            a.same_rest(c),
    ;

    fn has_talent(&self, row_name: &str) -> (r: bool)
        ensures
            r == holds(self.talents_view(), row_name@),
    ;

    fn set_talent(&mut self, row_name: &str, unlocked: bool)
        ensures
            final(self).talents_view() == after_set(old(self).talents_view(), row_name@, unlocked),
            final(self).flags_view() == old(self).flags_view(),
            old(self).same_rest(*final(self)),
    ;

    fn talent_rank(&self, row_name: &str) -> (r: Option<i64>)
        ensures
            r == rank_of(self.talents_view(), row_name@),
    ;

    fn set_talent_rank(&mut self, row_name: &str, rank: i64)
        ensures
            final(self).talents_view() == with_rank(old(self).talents_view(), row_name@, rank),
            final(self).flags_view() == old(self).flags_view(),
            old(self).same_rest(*final(self)),
    ;

    fn talent_entries(&self) -> (r: &[TalentEntry])
        ensures
            entries_view(r@) == self.talents_view(),
    ;

    /// Whether this kind of save stores rows of `category` in its talent list.
    fn storable(category: Category) -> (r: bool)
        ensures
            r == Self::spec_storable(category),
    ;

    /// Index of a flag row name in this kind of save's flag table.
    fn flag_index(catalog: &Catalog, name: &str) -> (r: Option<i64>)
        ensures
            r == Self::spec_flag_index(catalog, name@),
    ;
}

/// Whether a save of kind `T` stores rows of a category, as a function.
pub open spec fn storable_fn<T: TalentOwner>() -> spec_fn(Category) -> bool {
    |c: Category| T::spec_storable(c)
}

/// Anything with an integer-indexed `UnlockedFlags: [int]` list.
pub trait FlagOwner: TalentOwner {
    fn set_flag(&mut self, index: i64, on: bool)
        ensures
            final(self).flags_view() == flags_after(old(self).flags_view(), index, on),
            final(self).talents_view() == old(self).talents_view(),
            old(self).same_rest(*final(self)),
    ;
}

fn has_in(talents: &Vec<TalentEntry>, row_name: &str) -> (r: bool)
    ensures
        r == holds(entries_view(talents@), row_name@),
{
    let n = talents.len();
    for k in 0..n
        invariant
            n == talents@.len(),
            forall|j: int| 0 <= j < k ==> #[trigger] talents@[j].row_name@ != row_name@,
    {
        if str_eq(talents[k].row_name.as_str(), row_name) {
            assert(entries_view(talents@)[k as int].0 == row_name@);
            return true;
        }
    }
    assert forall|j: int| 0 <= j < n implies #[trigger] entries_view(talents@)[j].0 != row_name@ by {
        assert(talents@[j].row_name@ != row_name@);
    }
    false
}

fn set_in(talents: &mut Vec<TalentEntry>, row_name: &str, unlocked: bool)
    ensures
        entries_view(final(talents)@) == after_set(entries_view(old(talents)@), row_name@, unlocked),
{
    if unlocked {
        if !has_in(talents, row_name) {
            talents.push(TalentEntry { row_name: row_name.to_owned(), rank: 1 });
            assert(entries_view(talents@) =~= entries_view(old(talents)@).push((row_name@, 1)));
        }
    } else {
        let mut kept: Vec<TalentEntry> = Vec::new();
        let n = talents.len();
        for k in 0..n
            invariant
                n == talents@.len(),
                talents@ == old(talents)@,
                entries_view(kept@) == without(entries_view(talents@).take(k as int), row_name@),
        {
            let ghost before = entries_view(talents@).take(k as int);
            assert(entries_view(talents@).take(k + 1).drop_last() =~= before);
            if !str_eq(talents[k].row_name.as_str(), row_name) {
                let e = TalentEntry { row_name: talents[k].row_name.clone(), rank: talents[k].rank };
                kept.push(e);
                assert(entries_view(kept@) =~= without(before, row_name@).push(
                    entry_view(talents@[k as int]),
                ));
            }
        }
        assert(entries_view(talents@).take(n as int) =~= entries_view(talents@));
        *talents = kept;
    }
}

pub proof fn lemma_first_with(v: Seq<(Seq<char>, i64)>, name: Seq<char>)
    ensures
        first_with(v, name) matches Some(k) ==> 0 <= k < v.len() && v[k].0 == name && forall|
            j: int,
        | 0 <= j < k ==> #[trigger] v[j].0 != name,
        first_with(v, name) is None ==> forall|j: int| 0 <= j < v.len() ==> #[trigger] v[j].0 != name,
    decreases v.len(),
{
    if v.len() > 0 {
        let d = v.drop_first();
        lemma_first_with(d, name);
        assert forall|j: int| 0 < j < v.len() implies #[trigger] v[j] == d[j - 1] by {}
        if v[0].0 != name {
            if let Some(k) = first_with(v, name) {
                assert forall|j: int| 0 <= j < k implies #[trigger] v[j].0 != name by {
                    if j > 0 {
                        assert(v[j] == d[j - 1]);
                    }
                }
            } else {
                assert forall|j: int| 0 <= j < v.len() implies #[trigger] v[j].0 != name by {
                    if j > 0 {
                        assert(v[j] == d[j - 1]);
                    }
                }
            }
        }
    }
}

fn first_in(talents: &Vec<TalentEntry>, row_name: &str) -> (r: Option<usize>)
    ensures
        r matches Some(k) ==> first_with(entries_view(talents@), row_name@) == Some(k as int) && k
            < talents@.len(),
        r is None ==> first_with(entries_view(talents@), row_name@) is None,
{
    let ghost v = entries_view(talents@);
    proof {
        lemma_first_with(v, row_name@);
    }
    let n = talents.len();
    for k in 0..n
        invariant
            n == talents@.len(),
            v == entries_view(talents@),
            forall|j: int| 0 <= j < k ==> #[trigger] v[j].0 != row_name@,
            first_with(v, row_name@) matches Some(q) ==> 0 <= q < v.len() && v[q].0 == row_name@
                && forall|j: int| 0 <= j < q ==> #[trigger] v[j].0 != row_name@,
            first_with(v, row_name@) is None ==> forall|j: int|
                0 <= j < v.len() ==> #[trigger] v[j].0 != row_name@,
    {
        if str_eq(talents[k].row_name.as_str(), row_name) {
            assert(v[k as int].0 == row_name@);
            return Some(k);
        }
    }
    None
}

fn rank_in(talents: &Vec<TalentEntry>, row_name: &str) -> (r: Option<i64>)
    ensures
        r == rank_of(entries_view(talents@), row_name@),
{
    match first_in(talents, row_name) {
        Some(k) => Some(talents[k].rank),
        None => None,
    }
}

fn set_rank_in(talents: &mut Vec<TalentEntry>, row_name: &str, rank: i64)
    ensures
        entries_view(final(talents)@) == with_rank(entries_view(old(talents)@), row_name@, rank),
{
    match first_in(talents, row_name) {
        Some(k) => {
            let e = TalentEntry { row_name: talents[k].row_name.clone(), rank };
            proof {
                lemma_first_with(entries_view(talents@), row_name@);
            }
            talents.set(k, e);
            assert(entries_view(talents@) =~= with_rank(entries_view(old(talents)@), row_name@, rank));
        },
        None => {},
    }
}

fn set_flag_in(flags: &mut Vec<i64>, index: i64, on: bool)
    ensures
        final(flags)@ == flags_after(old(flags)@, index, on),
{
    if on {
        let n = flags.len();
        let mut found = false;
        for k in 0..n
            invariant
                n == flags@.len(),
                flags@ == old(flags)@,
                found == exists|j: int| 0 <= j < k && flags@[j] == index,
        {
            if flags[k] == index {
                found = true;
            }
        }
        if !found {
            flags.push(index);
        } else {
            proof {
                let j = choose|j: int| 0 <= j < n && flags@[j] == index;
                assert(flags@.contains(index));
            }
        }
    } else {
        let mut kept: Vec<i64> = Vec::new();
        let n = flags.len();
        for k in 0..n
            invariant
                n == flags@.len(),
                flags@ == old(flags)@,
                kept@ == flags_after(flags@.take(k as int), index, false),
        {
            assert(flags@.take(k + 1).drop_last() =~= flags@.take(k as int));
            if flags[k] != index {
                kept.push(flags[k]);
            }
        }
        assert(flags@.take(n as int) =~= flags@);
        *flags = kept;
    }
}

impl TalentOwner for CharacterSave {
    open spec fn talents_view(&self) -> Seq<(Seq<char>, i64)> {
        entries_view(self.talents@)
    }

    open spec fn flags_view(&self) -> Seq<i64> {
        self.unlocked_flags@
    }

    /// Characters store talents and blueprints only.
    open spec fn spec_storable(category: Category) -> bool {
        category == Category::Talent || category == Category::Blueprint
    }

    open spec fn spec_flag_index(catalog: &Catalog, name: Seq<char>) -> Option<i64> {
        flag_index_in(catalog.char_flags(), name)
    }

    /// Everything but `Talents` and `UnlockedFlags`.
    open spec fn same_rest(&self, other: Self) -> bool {
        &&& self.character_name == other.character_name
        &&& self.chr_slot == other.chr_slot
        &&& self.xp == other.xp
        &&& self.xp_debt == other.xp_debt
        &&& self.is_dead == other.is_dead
        &&& self.is_abandoned == other.is_abandoned
        &&& self.last_prospect_id == other.last_prospect_id
        &&& self.location == other.location
        &&& self.meta_resources == other.meta_resources
        &&& self.cosmetic == other.cosmetic
        &&& self.time_last_played == other.time_last_played
        &&& self.extra == other.extra
    }

    proof fn lemma_same_rest_refl(a: Self) {
    }

    proof fn lemma_same_rest_trans(a: Self, b: Self, c: Self) {
    }

    fn has_talent(&self, row_name: &str) -> (r: bool) {
        has_in(&self.talents, row_name)
    }

    fn set_talent(&mut self, row_name: &str, unlocked: bool) {
        set_in(&mut self.talents, row_name, unlocked);
    }

    fn talent_rank(&self, row_name: &str) -> (r: Option<i64>) {
        rank_in(&self.talents, row_name)
    }

    fn set_talent_rank(&mut self, row_name: &str, rank: i64) {
        set_rank_in(&mut self.talents, row_name, rank);
    }

    fn talent_entries(&self) -> (r: &[TalentEntry]) {
        self.talents.as_slice()
    }

    fn storable(category: Category) -> (r: bool) {
        match category {
            Category::Talent | Category::Blueprint => true,
            _ => false,
        }
    }

    fn flag_index(catalog: &Catalog, name: &str) -> (r: Option<i64>) {
        catalog.character_flag_index(name)
    }
}

impl FlagOwner for CharacterSave {
    fn set_flag(&mut self, index: i64, on: bool) {
        set_flag_in(&mut self.unlocked_flags, index, on);
    }
}

impl TalentOwner for ProfileSave {
    open spec fn talents_view(&self) -> Seq<(Seq<char>, i64)> {
        entries_view(self.talents@)
    }

    open spec fn flags_view(&self) -> Seq<i64> {
        self.unlocked_flags@
    }

    /// The profile stores orbital workshop rows only.
    open spec fn spec_storable(category: Category) -> bool {
        category == Category::Workshop
    }

    open spec fn spec_flag_index(catalog: &Catalog, name: Seq<char>) -> Option<i64> {
        flag_index_in(catalog.acct_flags(), name)
    }

    /// Everything but `Talents` and `UnlockedFlags`.
    open spec fn same_rest(&self, other: Self) -> bool {
        &&& self.user_id == other.user_id
        &&& self.meta_resources == other.meta_resources
        &&& self.next_chr_slot == other.next_chr_slot
        &&& self.data_version == other.data_version
        &&& self.extra == other.extra
    }

    proof fn lemma_same_rest_refl(a: Self) {
    }

    proof fn lemma_same_rest_trans(a: Self, b: Self, c: Self) {
    }

    fn has_talent(&self, row_name: &str) -> (r: bool) {
        has_in(&self.talents, row_name)
    }

    fn set_talent(&mut self, row_name: &str, unlocked: bool) {
        set_in(&mut self.talents, row_name, unlocked);
    }

    fn talent_rank(&self, row_name: &str) -> (r: Option<i64>) {
        rank_in(&self.talents, row_name)
    }

    fn set_talent_rank(&mut self, row_name: &str, rank: i64) {
        set_rank_in(&mut self.talents, row_name, rank);
    }

    fn talent_entries(&self) -> (r: &[TalentEntry]) {
        self.talents.as_slice()
    }

    fn storable(category: Category) -> (r: bool) {
        match category {
            Category::Workshop => true,
            _ => false,
        }
    }

    fn flag_index(catalog: &Catalog, name: &str) -> (r: Option<i64>) {
        catalog.account_flag_index(name)
    }
}

impl FlagOwner for ProfileSave {
    fn set_flag(&mut self, index: i64, on: bool) {
        set_flag_in(&mut self.unlocked_flags, index, on);
    }
}

/// A bare talent list that answers as a save of kind `T` would: lets an
/// edit be worked out without touching the save itself.
pub(crate) struct Shadow<T> {
    pub(crate) talents: Vec<TalentEntry>,
    pub(crate) kind: core::marker::PhantomData<T>,
}

impl<T: TalentOwner> Shadow<T> {
    /// A copy of `owner`'s talent list.
    pub(crate) fn of(owner: &T) -> (r: Self)
        ensures
            r.talents_view() == owner.talents_view(),
    {
        let entries = owner.talent_entries();
        let n = entries.len();
        let mut talents: Vec<TalentEntry> = Vec::new();
        for k in 0..n
            invariant
                n == entries@.len(),
                talents@.len() == k,
                entries_view(talents@) == entries_view(entries@).take(k as int),
        {
            let e = TalentEntry { row_name: entries[k].row_name.clone(), rank: entries[k].rank };
            assert(entry_view(e) == entries_view(entries@)[k as int]);
            let ghost before = talents@;
            talents.push(e);
            assert(talents@ == before.push(e));
            assert forall|j: int| 0 <= j < k implies #[trigger] entries_view(talents@)[j] == entries_view(entries@)[j] by {
                assert(talents@[j] == before[j]);
                assert(entries_view(before)[j] == entries_view(entries@).take(k as int)[j]);
            }
            assert(entries_view(talents@) =~= entries_view(entries@).take(k + 1));
        }
        assert(entries_view(entries@).take(n as int) =~= entries_view(entries@));
        Shadow { talents, kind: core::marker::PhantomData }
    }
}

impl<T: TalentOwner> TalentOwner for Shadow<T> {
    closed spec fn talents_view(&self) -> Seq<(Seq<char>, i64)> {
        entries_view(self.talents@)
    }

    closed spec fn flags_view(&self) -> Seq<i64> {
        Seq::empty()
    }

    closed spec fn spec_storable(category: Category) -> bool {
        T::spec_storable(category)
    }

    closed spec fn spec_flag_index(catalog: &Catalog, name: Seq<char>) -> Option<i64> {
        T::spec_flag_index(catalog, name)
    }

    closed spec fn same_rest(&self, other: Self) -> bool {
        true
    }

    proof fn lemma_same_rest_refl(a: Self) {
    }

    proof fn lemma_same_rest_trans(a: Self, b: Self, c: Self) {
    }

    fn has_talent(&self, row_name: &str) -> (r: bool) {
        has_in(&self.talents, row_name)
    }

    fn set_talent(&mut self, row_name: &str, unlocked: bool) {
        set_in(&mut self.talents, row_name, unlocked);
    }

    fn talent_rank(&self, row_name: &str) -> (r: Option<i64>) {
        rank_in(&self.talents, row_name)
    }

    fn set_talent_rank(&mut self, row_name: &str, rank: i64) {
        set_rank_in(&mut self.talents, row_name, rank);
    }

    fn talent_entries(&self) -> (r: &[TalentEntry]) {
        self.talents.as_slice()
    }

    fn storable(category: Category) -> (r: bool) {
        T::storable(category)
    }

    fn flag_index(catalog: &Catalog, name: &str) -> (r: Option<i64>) {
        T::flag_index(catalog, name)
    }
}

/// A shadow of a save of kind `T` stores what such a save stores.
pub(crate) proof fn lemma_shadow_storable<T: TalentOwner>()
    ensures
        storable_fn::<Shadow<T>>() == storable_fn::<T>(),
{
    assert(storable_fn::<Shadow<T>>() =~= storable_fn::<T>());
}

/// A profile's currency balances as (currency row, count) pairs.
pub open spec fn meta_view(s: Seq<MetaResourceEntry>) -> Seq<(Seq<char>, i64)> {
    s.map_values(|e: MetaResourceEntry| (e.meta_row@, e.count))
}

impl ProfileSave {
    /// The balance of currency `meta_row`: the first entry's count, or 0
    /// when the profile has none.
    pub fn currency(&self, meta_row: &str) -> (r: i64)
        ensures
            r == match rank_of(meta_view(self.meta_resources@), meta_row@) {
                Some(c) => c,
                None => 0,
            },
    {
        let ghost v = meta_view(self.meta_resources@);
        proof {
            lemma_first_with(v, meta_row@);
        }
        let n = self.meta_resources.len();
        for k in 0..n
            invariant
                n == self.meta_resources@.len(),
                v == meta_view(self.meta_resources@),
                forall|j: int| 0 <= j < k ==> #[trigger] v[j].0 != meta_row@,
                first_with(v, meta_row@) matches Some(q) ==> 0 <= q < v.len() && v[q].0 == meta_row@
                    && forall|j: int| 0 <= j < q ==> #[trigger] v[j].0 != meta_row@,
                first_with(v, meta_row@) is None ==> forall|j: int|
                    0 <= j < v.len() ==> #[trigger] v[j].0 != meta_row@,
        {
            if str_eq(self.meta_resources[k].meta_row.as_str(), meta_row) {
                assert(v[k as int].0 == meta_row@);
                return self.meta_resources[k].count;
            }
        }
        0
    }

    /// Sets currency `meta_row` to `count` clamped into `[0, CURRENCY_MAX]`:
    /// the first entry of that currency is updated, or a new entry appended.
    /// The rest of the profile is unchanged.
    pub fn set_currency(&mut self, meta_row: &str, count: i64)
        ensures
            meta_view(final(self).meta_resources@) == with_currency(
                meta_view(old(self).meta_resources@),
                meta_row@,
                count,
            ),
            final(self).user_id == old(self).user_id,
            final(self).unlocked_flags == old(self).unlocked_flags,
            final(self).talents == old(self).talents,
            final(self).next_chr_slot == old(self).next_chr_slot,
            final(self).data_version == old(self).data_version,
            final(self).extra == old(self).extra,
    {
        let c: i64 = if count < 0 {
            0
        } else if count > CURRENCY_MAX {
            CURRENCY_MAX
        } else {
            count
        };
        let ghost v = meta_view(self.meta_resources@);
        proof {
            lemma_first_with(v, meta_row@);
        }
        let n = self.meta_resources.len();
        let mut found: Option<usize> = None;
        for k in 0..n
            invariant
                n == self.meta_resources@.len(),
                v == meta_view(self.meta_resources@),
                found is None ==> forall|j: int| 0 <= j < k ==> #[trigger] v[j].0 != meta_row@,
                found matches Some(q) ==> q < n && v[q as int].0 == meta_row@ && forall|j: int|
                    0 <= j < q ==> #[trigger] v[j].0 != meta_row@,
        {
            if found.is_none() && str_eq(self.meta_resources[k].meta_row.as_str(), meta_row) {
                found = Some(k);
            }
        }
        match found {
            Some(k) => {
                let e = MetaResourceEntry { meta_row: self.meta_resources[k].meta_row.clone(), count: c };
                self.meta_resources.set(k, e);
                proof {
                    if first_with(v, meta_row@) != Some(k as int) {
                        let q = first_with(v, meta_row@).unwrap();
                        assert(q < k || k < q);
                    }
                }
                assert(meta_view(self.meta_resources@) =~= v.update(k as int, (meta_row@, c)));
            },
            None => {
                self.meta_resources.push(MetaResourceEntry { meta_row: meta_row.to_owned(), count: c });
                assert(meta_view(self.meta_resources@) =~= v.push((meta_row@, c)));
            },
        }
    }
}

/// The balances after setting currency `row` to `count` clamped: the
/// first entry of that currency updated, or a new entry appended.
pub open spec fn with_currency(v: Seq<(Seq<char>, i64)>, row: Seq<char>, count: i64) -> Seq<(Seq<char>, i64)> {
    match first_with(v, row) {
        Some(k) => v.update(k, (row, clamp_currency(count))),
        None => v.push((row, clamp_currency(count))),
    }
}

/// A currency amount clamped into what the editor writes.
pub open spec fn clamp_currency(count: i64) -> i64 {
    if count < 0 {
        0
    } else if count > CURRENCY_MAX {
        CURRENCY_MAX
    } else {
        count
    }
}

} // verus!
