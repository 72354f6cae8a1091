//! Readable labels for raw row names and stat names.

use vstd::prelude::*;
use crate::text::{chars_of, has_prefix, push_char, push_str, string_of_range, string_from};

verus! {

/// Whether `c` is lowercase, as `char::is_lowercase` decides it.
pub uninterp spec fn is_lower(c: char) -> bool;

/// Whether `c` is uppercase, as `char::is_uppercase` decides it.
pub uninterp spec fn is_upper(c: char) -> bool;

/// Whether `c` is lowercase.
///
/// Trusted: calls `char::is_lowercase`, documented to follow the Unicode
/// `Lowercase` property. The contract names the result `is_lower` and
/// states that among ASCII characters just `a` to `z` are lowercase.
#[verifier::external_body]
fn char_is_lowercase(c: char) -> (r: bool)
    ensures
        r == is_lower(c),
        (c as int) < 128 ==> (r <==> 'a' <= c <= 'z'),
{
    c.is_lowercase()
}

/// Whether `c` is uppercase.
///
/// Trusted: calls `char::is_uppercase`, documented to follow the Unicode
/// `Uppercase` property. The contract names the result `is_upper` and
/// states that among ASCII characters just `A` to `Z` are uppercase.
#[verifier::external_body]
fn char_is_uppercase(c: char) -> (r: bool)
    ensures
        r == is_upper(c),
        (c as int) < 128 ==> (r <==> 'A' <= c <= 'Z'),
{
    c.is_uppercase()
}

/// Whether `c` is lowercase: `a` to `z` among ASCII characters, otherwise
/// as `char::is_lowercase` decides it.
pub open spec fn lower_letter(c: char) -> bool {
    if (c as int) < 128 {
        'a' <= c <= 'z'
    } else {
        is_lower(c)
    }
}

/// Whether `c` is uppercase: `A` to `Z` among ASCII characters, otherwise
/// as `char::is_uppercase` decides it.
pub open spec fn upper_letter(c: char) -> bool {
    if (c as int) < 128 {
        'A' <= c <= 'Z'
    } else {
        is_upper(c)
    }
}

/// Whether `c` is an ASCII digit.
pub open spec fn is_digit(c: char) -> bool {
    '0' <= c <= '9'
}

/// `s` with every occurrence of `p` replaced by `r`, left to right and not
/// overlapping.
pub open spec fn replaced(s: Seq<char>, p: Seq<char>, r: Seq<char>) -> Seq<char>
    decreases s.len(),
{
    if p.len() == 0 || s.len() < p.len() {
        s
    } else if s.take(p.len() as int) == p {
        r + replaced(s.skip(p.len() as int), p, r)
    } else {
        seq![s[0]] + replaced(s.drop_first(), p, r)
    }
}

/// `s` with every occurrence of `p` (not empty) replaced by `r`.
pub fn replace_all(s: &str, p: &str, r: &str) -> (out: String)
    requires
        p@.len() > 0,
    ensures
        out@ == replaced(s@, p@, r@),
{
    let cs = chars_of(s);
    let pc = chars_of(p);
    let n = cs.len();
    let m = pc.len();
    let mut out = String::new();
    let mut i: usize = 0;
    assert(cs@.skip(0) =~= cs@);
    while i < n
        invariant
            n == cs@.len(),
            m == pc@.len(),
            m > 0,
            cs@ == s@,
            pc@ == p@,
            i <= n,
            out@ + replaced(cs@.skip(i as int), p@, r@) == replaced(cs@, p@, r@),
        decreases n - i,
    {
        let ghost rest = cs@.skip(i as int);
        let ghost before = out@;
        if n - i < m {
            assert(replaced(rest, p@, r@) == rest);
            let tail = string_of_range(&cs, i, n);
            push_str(&mut out, tail.as_str());
            assert(cs@.subrange(i as int, n as int) =~= rest);
            assert(cs@.skip(n as int).len() == 0);
            i = n;
        } else {
            let mut k: usize = 0;
            let mut same = true;
            while k < m
                invariant
                    n == cs@.len(),
                    m == pc@.len(),
                    i + m <= n,
                    k <= m,
                    same == (forall|q: int| 0 <= q < k ==> cs@[i + q] == pc@[q]),
                decreases m - k,
            {
                if cs[i + k] != pc[k] {
                    same = false;
                }
                k = k + 1;
            }
            if same {
                assert(rest.take(m as int) =~= pc@);
                push_str(&mut out, r);
                assert(rest.skip(m as int) =~= cs@.skip(i + m));
                assert(out@ + replaced(cs@.skip(i + m), p@, r@) =~= before + replaced(rest, p@, r@));
                i = i + m;
            } else {
                assert(rest.take(m as int) != pc@) by {
                    let q = choose|q: int| 0 <= q < m && cs@[i + q] != pc@[q];
                    assert(rest.take(m as int)[q] == cs@[i + q]);
                }
                push_char(&mut out, cs[i]);
                assert(rest.drop_first() =~= cs@.skip(i + 1));
                assert(out@ + replaced(cs@.skip(i + 1), p@, r@) =~= before + replaced(rest, p@, r@));
                i = i + 1;
            }
        }
    }
    assert(cs@.skip(n as int).len() == 0);
    assert(out@ + replaced(cs@.skip(n as int), p@, r@) =~= out@);
    out
}

/// The prefixes stripped from row names, tried in order.
pub open spec fn row_name_prefixes() -> Seq<Seq<char>> {
    seq![
        "GrantedBlueprint_"@,
        "GrantedWorkshop_"@,
        "GrantedTalent_"@,
        "Blueprint_"@,
        "Talent_"@,
        "Mission_"@,
        "NPC_"@,
    ]
}

/// `s` without the first of `prefixes` (from the `k`-th on) that it starts
/// with.
pub open spec fn strip_first_prefix(s: Seq<char>, prefixes: Seq<Seq<char>>, k: int) -> Seq<char>
    decreases prefixes.len() - k,
{
    if k < 0 || k >= prefixes.len() {
        s
    } else if has_prefix(s, prefixes[k]) {
        s.skip(prefixes[k].len() as int)
    } else {
        strip_first_prefix(s, prefixes, k + 1)
    }
}

/// Whether `s` ends with `p`.
pub open spec fn has_suffix(s: Seq<char>, p: Seq<char>) -> bool {
    p.len() <= s.len() && s.skip(s.len() - p.len()) == p
}

/// `s` without any number of trailing `p` (not empty).
pub open spec fn strip_suffixes(s: Seq<char>, p: Seq<char>) -> Seq<char>
    decreases s.len(),
{
    if p.len() > 0 && has_suffix(s, p) {
        strip_suffixes(s.take(s.len() - p.len()), p)
    } else {
        s
    }
}

/// The words of a row name after its characters up to `s`: each `_`
/// becomes one space (none at the start or after a space), and a space
/// goes between a lowercase letter or digit and a following uppercase
/// letter. Also gives the last character kept since the last `_`.
pub open spec fn words(s: Seq<char>) -> (Seq<char>, Option<char>)
    decreases s.len(),
{
    if s.len() == 0 {
        (Seq::empty(), None)
    } else {
        let (out, prev) = words(s.drop_last());
        let c = s.last();
        let ends_space = out.len() > 0 && out.last() == ' ';
        if c == '_' {
            (
                if !ends_space && out.len() > 0 {
                    out.push(' ')
                } else {
                    out
                },
                None,
            )
        } else {
            let boundary = match prev {
                Some(p) => (lower_letter(p) || is_digit(p)) && upper_letter(c),
                None => false,
            };
            (
                if boundary && !ends_space {
                    out.push(' ').push(c)
                } else {
                    out.push(c)
                },
                Some(c),
            )
        }
    }
}

/// The tier shorthands spelled out.
pub open spec fn tiers_spelled(s: Seq<char>) -> Seq<char> {
    replaced(
        replaced(
            replaced(replaced(replaced(s, "T1"@, "Tier 1"@), "T2"@, "Tier 2"@), "T3"@, "Tier 3"@),
            "T4"@,
            "Tier 4"@,
        ),
        "T5"@,
        "Tier 5"@,
    )
}

/// A raw row name as a label: the first engine prefix and any trailing
/// `_TooltipOnly` removed, split into words, tier shorthand spelled out.
pub open spec fn prettified(name: Seq<char>) -> Seq<char> {
    tiers_spelled(
        words(strip_suffixes(strip_first_prefix(name, row_name_prefixes(), 0), "_TooltipOnly"@)).0,
    )
}

/// `s` without the first of the engine prefixes that it starts with.
fn strip_row_prefix(s: Vec<char>) -> (r: Vec<char>)
    ensures
        r@ == strip_first_prefix(s@, row_name_prefixes(), 0),
{
    let prefixes: [&str; 7] = [
        "GrantedBlueprint_",
        "GrantedWorkshop_",
        "GrantedTalent_",
        "Blueprint_",
        "Talent_",
        "Mission_",
        "NPC_",
    ];
    let ghost pv = row_name_prefixes();
    assert(prefixes@.map_values(|p: &str| p@) =~= pv);
    for k in 0..7
        invariant
            prefixes@.map_values(|p: &str| p@) == pv,
            pv == row_name_prefixes(),
            strip_first_prefix(s@, pv, 0) == strip_first_prefix(s@, pv, k as int),
    {
        let p = chars_of(prefixes[k]);
        assert(p@ == pv[k as int]);
        if p.len() <= s.len() {
            let mut same = true;
            let m = p.len();
            for q in 0..m
                invariant
                    m == p@.len(),
                    m <= s@.len(),
                    same == (forall|j: int| 0 <= j < q ==> s@[j] == p@[j]),
            {
                if s[q] != p[q] {
                    same = false;
                }
            }
            if same {
                assert(s@.take(m as int) =~= p@);
                let mut out: Vec<char> = Vec::new();
                let n = s.len();
                for j in m..n
                    invariant
                        m <= n,
                        n == s@.len(),
                        out@ == s@.subrange(m as int, j as int),
                {
                    out.push(s[j]);
                    assert(s@.subrange(m as int, j + 1) =~= s@.subrange(m as int, j as int).push(s@[j as int]));
                }
                assert(out@ =~= s@.skip(m as int));
                return out;
            } else {
                assert(!has_prefix(s@, p@)) by {
                    let j = choose|j: int| 0 <= j < m && s@[j] != p@[j];
                    assert(s@.take(m as int)[j] == s@[j]);
                }
            }
        }
    }
    s
}

/// `s` without any number of trailing `_TooltipOnly`.
fn strip_tooltip_only(s: Vec<char>) -> (r: Vec<char>)
    ensures
        r@ == strip_suffixes(s@, "_TooltipOnly"@),
{
    let p = chars_of("_TooltipOnly");
    let m = p.len();
    proof {
        reveal_strlit("_TooltipOnly");
    }
    let cur = s;
    let mut len = cur.len();
    assert(cur@.take(len as int) =~= cur@);
    loop
        invariant_except_break
            m == p@.len(),
            m > 0,
            p@ == "_TooltipOnly"@,
            len <= cur@.len(),
            cur@.len() == cur.len(),
            strip_suffixes(cur@, p@) == strip_suffixes(cur@.take(len as int), p@),
        ensures
            len <= cur@.len(),
            p@ == "_TooltipOnly"@,
            strip_suffixes(cur@, p@) == cur@.take(len as int),
        decreases len,
    {
        let ghost t = cur@.take(len as int);
        if len < m {
            assert(!has_suffix(t, p@));
            break;
        }
        let start = len - m;
        let mut same = true;
        for q in 0..m
            invariant
                m == p@.len(),
                start + m <= cur.len(),
                cur@.len() == cur.len(),
                same == (forall|j: int| 0 <= j < q ==> cur@[start + j] == p@[j]),
        {
            if cur[start + q] != p[q] {
                same = false;
            }
        }
        if same {
            assert(t.skip(t.len() - m) =~= p@);
            assert(t.take(t.len() - m) =~= cur@.take(start as int));
            len = start;
        } else {
            assert(!has_suffix(t, p@)) by {
                let j = choose|j: int| 0 <= j < m && cur@[start + j] != p@[j];
                assert(t.skip(t.len() - m)[j] == cur@[start + j]);
            }
            break;
        }
    }
    let mut out: Vec<char> = Vec::new();
    for j in 0..len
        invariant
            len <= cur@.len(),
            out@ == cur@.take(j as int),
    {
        out.push(cur[j]);
        assert(cur@.take(j + 1) =~= cur@.take(j as int).push(cur@[j as int]));
    }
    out
}

/// Splits a name into words (see `words`).
fn split_words(s: &Vec<char>) -> (r: String)
    ensures
        r@ == words(s@).0,
{
    let mut out = String::new();
    let mut prev: Option<char> = None;
    let mut last: Option<char> = None;
    let n = s.len();
    for i in 0..n
        invariant
            n == s@.len(),
            (out@, prev) == words(s@.take(i as int)),
            match last {
                None => out@.len() == 0,
                Some(l) => out@.len() > 0 && out@.last() == l,
            },
    {
        let c = s[i];
        let ghost t = s@.take(i + 1);
        assert(t.drop_last() =~= s@.take(i as int));
        assert(t.last() == c);
        let ends_space = match last {
            Some(l) => l == ' ',
            None => false,
        };
        if c == '_' {
            if !ends_space && last.is_some() {
                push_char(&mut out, ' ');
                last = Some(' ');
            }
            prev = None;
        } else {
            let boundary = match prev {
                Some(p) => (char_is_lowercase(p) || ('0' <= p && p <= '9')) && char_is_uppercase(c),
                None => false,
            };
            if boundary && !ends_space {
                push_char(&mut out, ' ');
            }
            push_char(&mut out, c);
            last = Some(c);
            prev = Some(c);
        }
    }
    assert(s@.take(n as int) =~= s@);
    out
}

/// A readable label for a raw row name that has no display text (see
/// `prettified`), e.g. `Blueprint_T1_Player` to `Tier 1 Player`.
pub fn prettify_row_name(name: &str) -> (r: String)
    ensures
        r@ == prettified(name@),
{
    let rest = strip_tooltip_only(strip_row_prefix(chars_of(name)));
    let spaced = split_words(&rest);
    proof {
        reveal_strlit("T1");
        reveal_strlit("T2");
        reveal_strlit("T3");
        reveal_strlit("T4");
        reveal_strlit("T5");
    }
    let a = replace_all(spaced.as_str(), "T1", "Tier 1");
    let b = replace_all(a.as_str(), "T2", "Tier 2");
    let c = replace_all(b.as_str(), "T3", "Tier 3");
    let d = replace_all(c.as_str(), "T4", "Tier 4");
    replace_all(d.as_str(), "T5", "Tier 5")
}

/// `s` without the suffix `p`, if it ends with it.
fn strip_suffix_once(s: &Vec<char>, p: &str) -> (r: Option<Vec<char>>)
    ensures
        match r {
            Some(t) => has_suffix(s@, p@) && t@ == s@.take(s@.len() - p@.len()),
            None => !has_suffix(s@, p@),
        },
{
    let pc = chars_of(p);
    let m = pc.len();
    let n = s.len();
    if m > n {
        return None;
    }
    let start = n - m;
    for q in 0..m
        invariant
            m == pc@.len(),
            pc@ == p@,
            n == s@.len(),
            start == n - m,
            forall|j: int| 0 <= j < q ==> s@[start + j] == pc@[j],
    {
        if s[start + q] != pc[q] {
            assert(pc@ == p@);
            assert(s@.skip(s@.len() - pc@.len())[q as int] == s@[start + q]);
            assert(s@.skip(s@.len() - pc@.len()) != pc@);
            return None;
        }
    }
    assert(s@.skip(s@.len() - pc@.len()) =~= pc@);
    let mut out: Vec<char> = Vec::new();
    for j in 0..start
        invariant
            start <= s@.len(),
            out@ == s@.take(j as int),
    {
        out.push(s[j]);
        assert(s@.take(j + 1) =~= s@.take(j as int).push(s@[j as int]));
    }
    Some(out)
}

/// The name of a stat without its percent suffix (`_+%` or `_%`), whether
/// it had one.
pub open spec fn stat_base(name: Seq<char>) -> (Seq<char>, bool) {
    if has_suffix(name, "_+%"@) {
        (name.take(name.len() - 3), true)
    } else if has_suffix(name, "_%"@) {
        (name.take(name.len() - 2), true)
    } else {
        (name, false)
    }
}

/// The label of a granted stat: its name without the percent suffix and
/// a leading `Base`, prettified; and whether the stat is a percentage.
pub open spec fn stat_label_of(name: Seq<char>) -> (Seq<char>, bool) {
    let (base, percent) = stat_base(name);
    let base = if has_prefix(base, "Base"@) {
        base.skip(4)
    } else {
        base
    };
    (prettified(base), percent)
}

/// The label of a granted stat and whether it is a percentage (see
/// `stat_label_of`), as shown in an effect like `+5% Bow Reload Speed`.
pub fn stat_label(name: &str) -> (r: (String, bool))
    ensures
        (r.0@, r.1) == stat_label_of(name@),
{
    proof {
        reveal_strlit("_+%");
        reveal_strlit("_%");
        reveal_strlit("Base");
    }
    let cs = chars_of(name);
    let (base, percent) = match strip_suffix_once(&cs, "_+%") {
        Some(b) => (b, true),
        None => match strip_suffix_once(&cs, "_%") {
            Some(b) => (b, true),
            None => (cs, false),
        },
    };
    let base_text = string_from(base.as_slice());
    let label_source = if crate::text::starts_with(base_text.as_str(), "Base") {
        string_of_range(&base, 4, base.len())
    } else {
        base_text
    };
    (prettify_row_name(label_source.as_str()), percent)
}

} // verus!
