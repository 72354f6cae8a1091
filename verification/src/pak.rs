//! Paths inside the game's `.pak` archives, and the merged index that maps
//! a content path to the pak holding it.

use vstd::prelude::*;
use vstd::hash_map::StringHashMap;
use crate::text::{chars_of, string_of_range, push_str, to_string};

verus! {

/// The first position at or after `i` where `p` occurs in `s`.
pub open spec fn find_from(s: Seq<char>, p: Seq<char>, i: int) -> Option<int>
    decreases s.len() + 1 - i,
{
    if i < 0 || i + p.len() > s.len() {
        None
    } else if s.subrange(i, i + p.len()) == p {
        Some(i)
    } else {
        find_from(s, p, i + 1)
    }
}

/// A found position leaves room for the whole pattern.
pub proof fn lemma_find_from_bounds(s: Seq<char>, p: Seq<char>, i: int)
    ensures
        find_from(s, p, i) matches Some(at) ==> i <= at && at + p.len() <= s.len() && s.subrange(at, at + p.len()) == p,
    decreases s.len() + 1 - i,
{
    if !(i < 0 || i + p.len() > s.len()) && s.subrange(i, i + p.len()) != p {
        lemma_find_from_bounds(s, p, i + 1);
    }
}

/// The last position of `c` in `s`.
pub open spec fn rfind_char(s: Seq<char>, c: char) -> Option<int>
    decreases s.len(),
{
    if s.len() == 0 {
        None
    } else if s.last() == c {
        Some(s.len() - 1)
    } else {
        rfind_char(s.drop_last(), c)
    }
}

/// The directory every content path is relative to.
pub open spec fn content_dir() -> Seq<char> {
    "Icarus/Content/"@
}

/// A pak entry rebased onto `Icarus/Content`: the mount point and the entry
/// joined by one `/`, cut after the first `Icarus/Content/` in it; the entry
/// as it is when the joined path holds no `Icarus/Content/`.
pub open spec fn spec_content_relative(mount_point: Seq<char>, entry: Seq<char>) -> Seq<char> {
    let sep = if mount_point.len() > 0 && mount_point.last() == '/' {
        Seq::empty()
    } else {
        seq!['/']
    };
    let full = mount_point + sep + entry;
    match find_from(full, content_dir(), 0) {
        Some(at) => full.subrange(at + content_dir().len(), full.len() as int),
        None => entry,
    }
}

pub fn find_in_chars(s: &Vec<char>, p: &Vec<char>) -> (r: Option<usize>)
    ensures
        r matches Some(i) ==> find_from(s@, p@, 0) == Some(i as int) && i + p@.len() <= s@.len(),
        r is None ==> find_from(s@, p@, 0) is None,
{
    let n = s.len();
    let m = p.len();
    if m > n {
        return None;
    }
    let mut i: usize = 0;
    while i <= n - m
        invariant
            n == s@.len(),
            m == p@.len(),
            m <= n,
            i <= n - m + 1,
            find_from(s@, p@, 0) == find_from(s@, p@, i as int),
        decreases n - i,
    {
        let mut j: usize = 0;
        let mut same = true;
        while j < m
            invariant
                n == s@.len(),
                m == p@.len(),
                i + m <= n,
                j <= m,
                same == (forall|q: int| 0 <= q < j ==> s@[i + q] == p@[q]),
            decreases m - j,
        {
            if s[i + j] != p[j] {
                same = false;
            }
            j = j + 1;
        }
        if same {
            assert(s@.subrange(i as int, i + m) =~= p@);
            return Some(i);
        }
        assert(s@.subrange(i as int, i + m) != p@) by {
            let q = choose|q: int| 0 <= q < m && s@[i + q] != p@[q];
            assert(s@.subrange(i as int, i + m)[q] == s@[i + q]);
        }
        i = i + 1;
    }
    None
}

/// Rebases one pak entry onto `Icarus/Content`, the namespace content paths
/// (and `/Game/...` references) live in. Paks declare different mount
/// points, so keying on the raw entry path would both miss assets and
/// conflate unrelated ones; an entry whose joined path holds no
/// `Icarus/Content/` (a mount point left over from the build machine) is
/// used as it is.
pub fn content_relative(mount_point: &str, entry: &str) -> (r: String)
    ensures
        r@ == spec_content_relative(mount_point@, entry@),
{
    let mut full = to_string(mount_point);
    let mp = chars_of(mount_point);
    if !(mp.len() > 0 && mp[mp.len() - 1] == '/') {
        push_str(&mut full, "/");
        proof {
            reveal_strlit("/");
        }
    }
    push_str(&mut full, entry);
    let fc = chars_of(full.as_str());
    let pat = chars_of("Icarus/Content/");
    let ghost sep = if mount_point@.len() > 0 && mount_point@.last() == '/' {
        Seq::<char>::empty()
    } else {
        seq!['/']
    };
    assert(fc@ =~= mount_point@ + sep + entry@);
    match find_in_chars(&fc, &pat) {
        Some(at) => {
            assert(at + pat@.len() <= fc@.len());
            assert(pat@.len() == pat.len() && fc@.len() == fc.len());
            string_of_range(&fc, at + pat.len(), fc.len())
        },
        None => to_string(entry),
    }
}

/// The content path of a `/Game/...` reference's `.uasset`/`.uexp` pair:
/// the reference without its `/Game/` prefix and without everything from
/// its last `.`; none when either is missing.
pub open spec fn spec_game_path_to_asset_base(game_path: Seq<char>) -> Option<Seq<char>> {
    let prefix = "/Game/"@;
    if game_path.len() >= prefix.len() && game_path.take(prefix.len() as int) == prefix {
        let path = game_path.skip(prefix.len() as int);
        match rfind_char(path, '.') {
            Some(dot) => Some(path.take(dot)),
            None => None,
        }
    } else {
        None
    }
}

/// Converts a `/Game/...` content reference into the content path of its
/// `.uasset`/`.uexp` pair, e.g. `/Game/Assets/Icons/Icon_Foo.Icon_Foo` to
/// `Assets/Icons/Icon_Foo`.
pub fn game_path_to_asset_base(game_path: &str) -> (r: Option<String>)
    ensures
        r matches Some(s) ==> spec_game_path_to_asset_base(game_path@) == Some(s@),
        r is None ==> spec_game_path_to_asset_base(game_path@) is None,
{
    let g = chars_of(game_path);
    let prefix = chars_of("/Game/");
    let pl = prefix.len();
    if g.len() < pl {
        return None;
    }
    let mut k: usize = 0;
    while k < pl
        invariant
            pl == prefix@.len(),
            pl <= g@.len(),
            g@ == game_path@,
            prefix@ == "/Game/"@,
            k <= pl,
            forall|q: int| 0 <= q < k ==> g@[q] == prefix@[q],
        decreases pl - k,
    {
        if g[k] != prefix[k] {
            assert(g@.take(pl as int)[k as int] != prefix@[k as int]);
            assert(game_path@.take(pl as int) != "/Game/"@);
            return None;
        }
        k = k + 1;
    }
    assert(g@.take(pl as int) =~= prefix@);
    let ghost path = g@.skip(pl as int);
    assert(path.take(g@.len() - pl) =~= path);
    let mut i = g.len();
    while i > pl
        invariant
            pl <= i <= g@.len(),
            pl == prefix@.len(),
            g@ == game_path@,
            prefix@ == "/Game/"@,
            g@.take(pl as int) == prefix@,
            path == g@.skip(pl as int),
            rfind_char(path, '.') == rfind_char(path.take(i - pl), '.'),
        decreases i,
    {
        assert(path.take(i - pl).drop_last() =~= path.take(i - pl - 1));
        if g[i - 1] == '.' {
            assert(path.take(i - pl).last() == '.');
            let base = string_of_range(&g, pl, i - 1);
            assert(base@ =~= path.take(i - 1 - pl));
            assert(rfind_char(path.take(i - pl), '.') == Some(i - pl - 1));
            assert(spec_game_path_to_asset_base(game_path@) == Some(base@));
            return Some(base);
        }
        i = i - 1;
    }
    assert(path.take(0) =~= Seq::<char>::empty());
    None
}

/// The entry map after merging one pak's files in order: a file whose
/// content path is already taken (by an earlier pak, or earlier in this one)
/// leaves the map as it is; any other is added under its content path,
/// pointing at `pak` and at the file's own entry path.
pub open spec fn merged_entries(
    m: Map<Seq<char>, (usize, Seq<char>)>,
    pak: usize,
    mount_point: Seq<char>,
    files: Seq<Seq<char>>,
) -> Map<Seq<char>, (usize, Seq<char>)>
    decreases files.len(),
{
    if files.len() == 0 {
        m
    } else {
        let before = merged_entries(m, pak, mount_point, files.drop_last());
        let key = spec_content_relative(mount_point, files.last());
        if before.contains_key(key) {
            before
        } else {
            before.insert(key, (pak, files.last()))
        }
    }
}

/// The content paths that the merge found already taken, in file order.
pub open spec fn merge_collisions(
    m: Map<Seq<char>, (usize, Seq<char>)>,
    pak: usize,
    mount_point: Seq<char>,
    files: Seq<Seq<char>>,
) -> Seq<Seq<char>>
    decreases files.len(),
{
    if files.len() == 0 {
        Seq::empty()
    } else {
        let earlier = merge_collisions(m, pak, mount_point, files.drop_last());
        let key = spec_content_relative(mount_point, files.last());
        if merged_entries(m, pak, mount_point, files.drop_last()).contains_key(key) {
            earlier.push(key)
        } else {
            earlier
        }
    }
}

/// Merging never moves a content path that was already taken, and after it
/// every file of the pak resolves to some pak.
pub proof fn lemma_merge_keeps_and_covers(
    m: Map<Seq<char>, (usize, Seq<char>)>,
    pak: usize,
    mount_point: Seq<char>,
    files: Seq<Seq<char>>,
)
    ensures
        forall|k: Seq<char>| #[trigger] m.contains_key(k) ==> merged_entries(m, pak, mount_point, files).contains_key(k)
            && merged_entries(m, pak, mount_point, files)[k] == m[k],
        forall|i: int| 0 <= i < files.len() ==> merged_entries(m, pak, mount_point, files).contains_key(
            #[trigger] spec_content_relative(mount_point, files[i]),
        ),
        forall|k: Seq<char>| #[trigger] merged_entries(m, pak, mount_point, files).contains_key(k) ==> m.contains_key(k)
            || (merged_entries(m, pak, mount_point, files)[k].0 == pak
                && exists|i: int| 0 <= i < files.len() && files[i] == merged_entries(m, pak, mount_point, files)[k].1
                    && spec_content_relative(mount_point, files[i]) == k),
    decreases files.len(),
{
    if files.len() > 0 {
        let init = files.drop_last();
        lemma_merge_keeps_and_covers(m, pak, mount_point, init);
        let before = merged_entries(m, pak, mount_point, init);
        let after = merged_entries(m, pak, mount_point, files);
        assert forall|i: int| 0 <= i < files.len() implies after.contains_key(
            #[trigger] spec_content_relative(mount_point, files[i]),
        ) by {
            if i < files.len() - 1 {
                assert(files[i] == init[i]);
            }
        }
        assert forall|k: Seq<char>| #[trigger] after.contains_key(k) implies m.contains_key(k) || (after[k].0 == pak
            && exists|i: int| 0 <= i < files.len() && files[i] == after[k].1
                && spec_content_relative(mount_point, files[i]) == k) by {
            if !m.contains_key(k) {
                if before.contains_key(k) {
                    let i = choose|i: int| 0 <= i < init.len() && init[i] == before[k].1
                        && spec_content_relative(mount_point, init[i]) == k;
                    assert(files[i] == init[i]);
                } else {
                    assert(files[files.len() - 1] == files.last());
                }
            }
        }
    }
}

/// Which pak holds each content path, merged over the paks opened so far.
///
/// Every pak's index is merged into one content path -> pak lookup as the
/// pak is opened, so a read goes straight to the pak that actually holds
/// the entry. The first pak to hold a content path keeps it; the later
/// claims are collected, since distinct assets should never share a path.
pub struct PakIndex {
    entries: StringHashMap<(usize, String)>,
    collisions: Vec<String>,
    paks: usize,
}

impl PakIndex {
    /// The lookup: content path -> (pak number, entry path inside that pak).
    pub closed spec fn entries(&self) -> Map<Seq<char>, (usize, Seq<char>)> {
        self.entries@.map_values(|v: (usize, String)| (v.0, v.1@))
    }

    /// The content paths claimed a second time, in the order met.
    pub closed spec fn collisions(&self) -> Seq<Seq<char>> {
        self.collisions@.map_values(|s: String| s@)
    }

    /// How many paks have been merged.
    pub closed spec fn pak_count(&self) -> nat {
        self.paks as nat
    }

    /// Every entry points at a pak that was merged.
    pub closed spec fn wf(&self) -> bool {
        forall|k: Seq<char>| #[trigger] self.entries@.contains_key(k) ==> self.entries@[k].0 < self.paks
    }

    /// An index of no pak.
    pub fn new() -> (r: Self)
        ensures
            r.wf(),
            r.entries() == Map::<Seq<char>, (usize, Seq<char>)>::empty(),
            r.collisions() == Seq::<Seq<char>>::empty(),
            r.pak_count() == 0,
    {
        let r = PakIndex { entries: StringHashMap::new(), collisions: Vec::new(), paks: 0 };
        assert(r.entries() =~= Map::<Seq<char>, (usize, Seq<char>)>::empty());
        assert(r.collisions() =~= Seq::<Seq<char>>::empty());
        r
    }

    /// Merges the next pak's index, given its mount point and its entry
    /// paths in index order, and returns the number the pak gets.
    pub fn add_pak(&mut self, mount_point: &str, files: &[String]) -> (pak: usize)
        requires
            old(self).wf(),
            old(self).pak_count() < usize::MAX,
        ensures
            final(self).wf(),
            pak == old(self).pak_count(),
            final(self).pak_count() == old(self).pak_count() + 1,
            final(self).entries() == merged_entries(
                old(self).entries(),
                pak,
                mount_point@,
                files@.map_values(|f: String| f@),
            ),
            final(self).collisions() == old(self).collisions() + merge_collisions(
                old(self).entries(),
                pak,
                mount_point@,
                files@.map_values(|f: String| f@),
            ),
    {
        let pak = self.paks;
        let ghost m0 = self.entries();
        let ghost c0 = self.collisions();
        let ghost fs = files@.map_values(|f: String| f@);
        let n = files.len();
        for i in 0..n
            invariant
                n == files@.len(),
                fs == files@.map_values(|f: String| f@),
                pak == old(self).paks,
                self.paks == pak,
                pak < usize::MAX,
                forall|k: Seq<char>| #[trigger] self.entries@.contains_key(k) ==> self.entries@[k].0 <= pak,
                self.entries() == merged_entries(m0, pak, mount_point@, fs.take(i as int)),
                self.collisions() == c0 + merge_collisions(m0, pak, mount_point@, fs.take(i as int)),
        {
            let key = content_relative(mount_point, files[i].as_str());
            let ghost before = self.entries();
            assert(fs.take(i + 1).drop_last() =~= fs.take(i as int));
            assert(fs.take(i + 1).last() == files@[i as int]@);
            if self.entries.contains_key(key.as_str()) {
                assert(before.contains_key(key@));
                let ghost k = key@;
                let ghost old_c = self.collisions@;
                self.collisions.push(key);
                assert(self.collisions@.map_values(|s: String| s@) =~= old_c.map_values(|s: String| s@).push(k));
                assert(merge_collisions(m0, pak, mount_point@, fs.take(i + 1))
                    == merge_collisions(m0, pak, mount_point@, fs.take(i as int)).push(k));
                assert(self.collisions() =~= c0 + merge_collisions(m0, pak, mount_point@, fs.take(i + 1)));
            } else {
                assert(!before.contains_key(key@));
                let ghost k = key@;
                self.entries.insert(key, (pak, files[i].clone()));
                assert(self.entries() =~= before.insert(k, (pak, files@[i as int]@)));
            }
        }
        assert(fs.take(n as int) =~= fs);
        self.paks = pak + 1;
        pak
    }

    /// The pak holding `path` (relative to `Icarus/Content`) and the entry
    /// path to read it by, if any merged pak holds it.
    pub fn lookup(&self, path: &str) -> (r: Option<(usize, String)>)
        requires
            self.wf(),
        ensures
            r matches Some(v) ==> self.entries().contains_key(path@) && self.entries()[path@] == (v.0, v.1@)
                && v.0 < self.pak_count(),
            r is None ==> !self.entries().contains_key(path@),
    {
        match self.entries.get(path) {
            Some(v) => Some((v.0, v.1.clone())),
            None => None,
        }
    }

    /// The content paths that a later pak claimed again, in the order met.
    pub fn collision_paths(&self) -> (r: Vec<String>)
        ensures
            r@.map_values(|s: String| s@) == self.collisions(),
    {
        self.collisions.clone()
    }
}

/// The PNG file name an icon's asset path is saved under: the path with
/// every `/` turned into `_`, and `.png` after it.
pub open spec fn png_name(base: Seq<char>) -> Seq<char> {
    base.map_values(|c: char| if c == '/' { '_' } else { c }) + ".png"@
}

/// The PNG file name an icon's asset path is saved under (see `png_name`).
pub fn icon_file_name(base: &str) -> (r: String)
    ensures
        r@ == png_name(base@),
{
    let cs = chars_of(base);
    let mut out = String::new();
    let n = cs.len();
    for i in 0..n
        invariant
            n == cs@.len(),
            cs@ == base@,
            out@ == cs@.take(i as int).map_values(|c: char| if c == '/' { '_' } else { c }),
    {
        let c = cs[i];
        crate::text::push_char(&mut out, if c == '/' { '_' } else { c });
        assert(cs@.take(i + 1) =~= cs@.take(i as int).push(c));
        assert(out@ =~= cs@.take(i + 1).map_values(|c: char| if c == '/' { '_' } else { c }));
    }
    assert(cs@.take(n as int) =~= cs@);
    push_str(&mut out, ".png");
    out
}

} // verus!
