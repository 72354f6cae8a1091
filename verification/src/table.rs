//! The game's exported `D_*.json` datatables: the escape repair they need
//! before a strict parser accepts them, row lookup with the table's
//! defaults merged in, and the typed field readers the builder uses.

use vstd::prelude::*;
use crate::json::{
    Json, JsonValue, jarr, jbool, jget, ji64, jstr, lemma_members_view, lookup, members_view,
};
use crate::text::{chars_of, push_char, push_str, str_eq, string_of_range, to_string};

verus! {

/// The characters that may follow a backslash in a JSON string (apart from
/// `u`, which takes four hex digits).
pub open spec fn is_json_escape(c: char) -> bool {
    c == '"' || c == '\\' || c == '/' || c == 'b' || c == 'f' || c == 'n' || c == 'r' || c == 't'
}

/// The exported text with its escapes repaired: a backslash keeps a valid
/// escape (and `\u` the up to four characters after it) as it is; before
/// any other character, Unreal's bogus `\'` among them, the backslash is
/// dropped and the character kept; a backslash at the very end stays.
pub open spec fn sanitized(s: Seq<char>) -> Seq<char>
    decreases s.len(),
{
    if s.len() == 0 {
        Seq::empty()
    } else if s[0] != '\\' {
        seq![s[0]] + sanitized(s.drop_first())
    } else if s.len() == 1 {
        seq!['\\']
    } else if is_json_escape(s[1]) {
        seq!['\\', s[1]] + sanitized(s.skip(2))
    } else if s[1] == 'u' {
        let k = if s.len() < 6 {
            s.len() as int
        } else {
            6
        };
        seq!['\\', 'u'] + s.subrange(2, k) + sanitized(s.skip(k))
    } else {
        seq![s[1]] + sanitized(s.skip(2))
    }
}

/// Repairs the escapes of an exported datatable so that a strict JSON
/// parser accepts it (see `sanitized`). Walking the escapes, rather than
/// replacing `\'` blindly, keeps an escaped backslash before an apostrophe
/// (`\\'`) intact.
pub fn sanitize(raw: &str) -> (r: String)
    ensures
        r@ == sanitized(raw@),
{
    let cs = chars_of(raw);
    let n = cs.len();
    let mut out = String::new();
    let mut i: usize = 0;
    assert(cs@.skip(0) =~= cs@);
    while i < n
        invariant
            n == cs@.len(),
            cs@ == raw@,
            i <= n,
            out@ + sanitized(cs@.skip(i as int)) == sanitized(cs@),
        decreases n - i,
    {
        let ghost rest = cs@.skip(i as int);
        let ghost before = out@;
        let c = cs[i];
        if c != '\\' {
            push_char(&mut out, c);
            assert(rest.drop_first() =~= cs@.skip(i + 1));
            i = i + 1;
        } else if i + 1 >= n {
            push_char(&mut out, '\\');
            assert(cs@.skip(n as int).len() == 0);
            i = n;
        } else {
            let nx = cs[i + 1];
            assert(rest[1] == nx);
            if nx == '"' || nx == '\\' || nx == '/' || nx == 'b' || nx == 'f' || nx == 'n' || nx == 'r'
                || nx == 't' {
                push_char(&mut out, '\\');
                push_char(&mut out, nx);
                assert(rest.skip(2) =~= cs@.skip(i + 2));
                assert(out@ =~= before + seq!['\\', nx]);
                i = i + 2;
            } else if nx == 'u' {
                push_char(&mut out, '\\');
                push_char(&mut out, 'u');
                let k = if n - i < 6 {
                    n
                } else {
                    i + 6
                };
                let mut j = i + 2;
                while j < k
                    invariant
                        n == cs@.len(),
                        i + 2 <= j <= k <= n,
                        out@ == before + seq!['\\', 'u'] + cs@.subrange(i + 2, j as int),
                    decreases k - j,
                {
                    push_char(&mut out, cs[j]);
                    assert(cs@.subrange(i + 2, j + 1) =~= cs@.subrange(i + 2, j as int).push(cs@[j as int]));
                    j = j + 1;
                }
                assert(rest.subrange(2, k - i) =~= cs@.subrange(i + 2, k as int));
                assert(rest.skip(k - i) =~= cs@.skip(k as int));
                i = k;
            } else {
                push_char(&mut out, nx);
                assert(rest.skip(2) =~= cs@.skip(i + 2));
                i = i + 2;
            }
        }
    }
    assert(cs@.skip(n as int).len() == 0);
    assert(out@ + sanitized(cs@.skip(n as int)) =~= out@);
    out
}

/// The text of a C-style escaped string literal: `\n` and `\t` become a
/// newline and a tab, a backslash before any other character is dropped,
/// and a backslash at the very end stays.
pub open spec fn unescaped(s: Seq<char>) -> Seq<char>
    decreases s.len(),
{
    if s.len() == 0 {
        Seq::empty()
    } else if s[0] != '\\' {
        seq![s[0]] + unescaped(s.drop_first())
    } else if s.len() == 1 {
        seq!['\\']
    } else if s[1] == 'n' {
        seq!['\n'] + unescaped(s.skip(2))
    } else if s[1] == 't' {
        seq!['\t'] + unescaped(s.skip(2))
    } else {
        seq![s[1]] + unescaped(s.skip(2))
    }
}

/// Resolves the escapes of the text inside an NSLOCTEXT/INVTEXT call, where
/// quotes and apostrophes arrive as `\"` and `\'` (see `unescaped`).
pub fn unescape_text_literal(s: &str) -> (r: String)
    ensures
        r@ == unescaped(s@),
{
    let cs = chars_of(s);
    let n = cs.len();
    let mut out = String::new();
    let mut i: usize = 0;
    assert(cs@.skip(0) =~= cs@);
    while i < n
        invariant
            n == cs@.len(),
            cs@ == s@,
            i <= n,
            out@ + unescaped(cs@.skip(i as int)) == unescaped(cs@),
        decreases n - i,
    {
        let ghost rest = cs@.skip(i as int);
        let c = cs[i];
        if c != '\\' {
            push_char(&mut out, c);
            assert(rest.drop_first() =~= cs@.skip(i + 1));
            i = i + 1;
        } else if i + 1 >= n {
            push_char(&mut out, '\\');
            assert(cs@.skip(n as int).len() == 0);
            i = n;
        } else {
            let nx = cs[i + 1];
            assert(rest[1] == nx);
            if nx == 'n' {
                push_char(&mut out, '\n');
            } else if nx == 't' {
                push_char(&mut out, '\t');
            } else {
                push_char(&mut out, nx);
            }
            assert(rest.skip(2) =~= cs@.skip(i + 2));
            i = i + 2;
        }
    }
    assert(cs@.skip(n as int).len() == 0);
    assert(out@ + unescaped(cs@.skip(n as int)) =~= out@);
    out
}

/// The pattern of an `NSLOCTEXT("Namespace", "Key", "Text")` call; its
/// group is the text.
pub const NSLOCTEXT_PATTERN: &'static str = "(?s)^NSLOCTEXT\\(\\s*\"[^\"]*\"\\s*,\\s*\"[^\"]*\"\\s*,\\s*\"(.*)\"\\s*\\)\\s*$";

/// The pattern of an `INVTEXT("Text")` call; its group is the text.
pub const INVTEXT_PATTERN: &'static str = "(?s)^INVTEXT\\(\\s*\"(.*)\"\\s*\\)\\s*$";

/// The pattern of a `(Value="Name")` stat key; its group is the name.
pub const STAT_KEY_PATTERN: &'static str = "^\\(Value=\"(.*)\"\\)$";

/// Whether `c` has the Unicode `White_Space` property, which
/// `char::is_whitespace` and the regex class `\s` test.
pub open spec fn is_space(c: char) -> bool {
    let n = c as int;
    (9 <= n <= 13) || n == 32 || n == 0x85 || n == 0xA0 || n == 0x1680 || (0x2000 <= n <= 0x200A) || n
        == 0x2028 || n == 0x2029 || n == 0x202F || n == 0x205F || n == 0x3000
}

/// The first position from `i` on that holds no whitespace (or the end).
pub open spec fn skip_space(s: Seq<char>, i: int) -> int
    decreases s.len() - i,
{
    if i < 0 || i >= s.len() || !is_space(s[i]) {
        i
    } else {
        skip_space(s, i + 1)
    }
}

/// The first position from `i` on that holds a `"` (or the end).
pub open spec fn next_quote(s: Seq<char>, i: int) -> int
    decreases s.len() - i,
{
    if i < 0 || i >= s.len() || s[i] == '"' {
        i
    } else {
        next_quote(s, i + 1)
    }
}

/// The length of `s` without its trailing whitespace.
pub open spec fn end_trimmed(s: Seq<char>) -> int
    decreases s.len(),
{
    if s.len() > 0 && is_space(s.last()) {
        end_trimmed(s.drop_last())
    } else {
        s.len() as int
    }
}

/// Whether position `i` of `s` holds `c`.
pub open spec fn char_at(s: Seq<char>, i: int, c: char) -> bool {
    0 <= i < s.len() && s[i] == c
}

/// Where the closing `"` of a call's last argument stands: the text must
/// end in `"`, optional whitespace, `)` and optional whitespace.
pub open spec fn call_tail(s: Seq<char>) -> Option<int> {
    let e1 = end_trimmed(s);
    if char_at(s, e1 - 1, ')') {
        let e2 = end_trimmed(s.take(e1 - 1));
        if char_at(s, e2 - 1, '"') {
            Some(e2 - 1)
        } else {
            None
        }
    } else {
        None
    }
}

/// The last argument of a call whose text after `head` and the argument's
/// opening quote at `open` runs to the closing quote that `call_tail`
/// finds.
pub open spec fn last_argument(s: Seq<char>, open: int) -> Option<Seq<char>> {
    if char_at(s, open, '"') {
        match call_tail(s) {
            Some(q) => if open + 1 <= q {
                Some(s.subrange(open + 1, q))
            } else {
                None
            },
            None => None,
        }
    } else {
        None
    }
}

/// The group of `(?s)^NSLOCTEXT\(\s*"[^"]*"\s*,\s*"[^"]*"\s*,\s*"(.*)"\s*\)\s*$`:
/// after `NSLOCTEXT(`, two quoted arguments (without quotes inside) each
/// followed by a comma, whitespace allowed around them; then everything up
/// to the closing quote of the call (see `call_tail`).
pub open spec fn nsloctext_group(s: Seq<char>) -> Option<Seq<char>> {
    let head = "NSLOCTEXT("@;
    if s.len() >= head.len() && s.take(head.len() as int) == head {
        let a = skip_space(s, head.len() as int);
        let b = next_quote(s, a + 1);
        let c = skip_space(s, b + 1);
        let d = skip_space(s, c + 1);
        let e = next_quote(s, d + 1);
        let f = skip_space(s, e + 1);
        let g = skip_space(s, f + 1);
        if char_at(s, a, '"') && char_at(s, b, '"') && char_at(s, c, ',') && char_at(s, d, '"') && char_at(
            s,
            e,
            '"',
        ) && char_at(s, f, ',') {
            last_argument(s, g)
        } else {
            None
        }
    } else {
        None
    }
}

/// The group of `(?s)^INVTEXT\(\s*"(.*)"\s*\)\s*$`: after `INVTEXT(` and
/// optional whitespace, everything up to the closing quote of the call.
pub open spec fn invtext_group(s: Seq<char>) -> Option<Seq<char>> {
    let head = "INVTEXT("@;
    if s.len() >= head.len() && s.take(head.len() as int) == head {
        last_argument(s, skip_space(s, head.len() as int))
    } else {
        None
    }
}

/// The group of `^\(Value="(.*)"\)$`: the text between `(Value="` and a
/// final `")`, which holds no line feed (`.` does not match one).
pub open spec fn stat_key_group(s: Seq<char>) -> Option<Seq<char>> {
    let head = "(Value=\""@;
    let tail = "\")"@;
    if s.len() >= head.len() + tail.len() && s.take(head.len() as int) == head && s.skip(
        s.len() - tail.len(),
    ) == tail && !s.subrange(head.len() as int, s.len() - tail.len()).contains('\n') {
        Some(s.subrange(head.len() as int, s.len() - tail.len()))
    } else {
        None
    }
}

/// What the first group of `pattern` captures in `text`, as the `regex`
/// crate matches it, for the three patterns used here (see
/// `nsloctext_group`, `invtext_group`, `stat_key_group`); none when the
/// pattern does not match. The patterns are anchored at both ends, and the
/// greedy group ends at the one position the rest of the pattern allows.
pub open spec fn regex_group(pattern: Seq<char>, text: Seq<char>) -> Option<Seq<char>> {
    if pattern == NSLOCTEXT_PATTERN@ {
        nsloctext_group(text)
    } else if pattern == INVTEXT_PATTERN@ {
        invtext_group(text)
    } else if pattern == STAT_KEY_PATTERN@ {
        stat_key_group(text)
    } else {
        None
    }
}

/// The text of the first group of one of the builder's patterns in `text`.
///
/// Trusted: compiles `pattern` with `regex::Regex::new` and calls
/// `Regex::captures` on `text`, taking group 1. The three patterns admitted
/// are valid, so compiling them succeeds, and each has a group 1 that takes
/// part in every match. The contract claims group 1 is what
/// `regex_group` states for the pattern.
#[verifier::external_body]
fn capture_group(pattern: &str, text: &str) -> (r: Option<String>)
    requires
        pattern@ == NSLOCTEXT_PATTERN@ || pattern@ == INVTEXT_PATTERN@ || pattern@ == STAT_KEY_PATTERN@,
    ensures
        match r {
            Some(c) => regex_group(pattern@, text@) == Some(c@),
            None => regex_group(pattern@, text@) is None,
        },
{
    let re = regex::Regex::new(pattern).unwrap();
    match re.captures(text) {
        Some(c) => Some(c[1].to_string()),
        None => None,
    }
}

/// `s` without leading whitespace.
pub open spec fn start_trimmed(s: Seq<char>) -> Seq<char>
    decreases s.len(),
{
    if s.len() > 0 && is_space(s[0]) {
        start_trimmed(s.drop_first())
    } else {
        s
    }
}

/// `s` without leading and trailing whitespace (`is_space`), as `str::trim`
/// gives it.
pub open spec fn trimmed(s: Seq<char>) -> Seq<char> {
    let t = start_trimmed(s);
    t.take(end_trimmed(t))
}

/// `s` without leading and trailing whitespace.
///
/// Trusted: calls `str::trim`, documented to remove leading and trailing
/// characters with the Unicode `White_Space` property; the contract states
/// exactly that (`trimmed`).
#[verifier::external_body]
fn trim(s: &str) -> (r: &str)
    ensures
        r@ == trimmed(s@),
{
    s.trim()
}

/// The marker of text not to be translated, an authoring note.
pub open spec fn dnt_marker() -> Seq<char> {
    "[DNT] "@
}

/// `s` without a leading `[DNT] `.
pub open spec fn without_dnt(s: Seq<char>) -> Seq<char> {
    if s.len() >= dnt_marker().len() && s.take(dnt_marker().len() as int) == dnt_marker() {
        s.skip(dnt_marker().len() as int)
    } else {
        s
    }
}

/// The display text of a localized-text field: the text of an NSLOCTEXT
/// call, else of an INVTEXT call (either looked for in the trimmed field),
/// unescaped and without a leading `[DNT] `; the field as it is when
/// neither matches.
pub open spec fn localized(raw: Seq<char>) -> Seq<char> {
    match regex_group(NSLOCTEXT_PATTERN@, trimmed(raw)) {
        Some(c) => without_dnt(unescaped(c)),
        None => match regex_group(INVTEXT_PATTERN@, trimmed(raw)) {
            Some(c) => without_dnt(unescaped(c)),
            None => raw,
        },
    }
}

/// Whether `s` starts with `p`.
fn starts_with(s: &Vec<char>, p: &Vec<char>) -> (r: bool)
    ensures
        r == (p@.len() <= s@.len() && s@.take(p@.len() as int) == p@),
{
    if p.len() > s.len() {
        return false;
    }
    let n = p.len();
    for k in 0..n
        invariant
            n == p@.len(),
            n <= s@.len(),
            forall|q: int| 0 <= q < k ==> s@[q] == p@[q],
    {
        if s[k] != p[k] {
            assert(s@.take(n as int)[k as int] != p@[k as int]);
            return false;
        }
    }
    assert(s@.take(n as int) =~= p@);
    true
}

/// `s` without a leading `[DNT] `.
fn strip_dnt(s: String) -> (r: String)
    ensures
        r@ == without_dnt(s@),
{
    let cs = chars_of(s.as_str());
    let marker = chars_of("[DNT] ");
    if starts_with(&cs, &marker) {
        string_of_range(&cs, marker.len(), cs.len())
    } else {
        s
    }
}

/// Extracts the literal display text of an Unreal `NSLOCTEXT("Namespace",
/// "Key", "The Actual Text")` or `INVTEXT("The Actual Text")` call (see
/// `localized`); plain strings, "None" and empty ones come back unchanged.
pub fn nsloctext(raw: &str) -> (r: String)
    ensures
        r@ == localized(raw@),
{
    let t = trim(raw);
    let extracted = match capture_group(NSLOCTEXT_PATTERN, t) {
        Some(c) => c,
        None => match capture_group(INVTEXT_PATTERN, t) {
            Some(c) => c,
            None => {
                return to_string(raw);
            },
        },
    };
    captured_text(extracted.as_str())
}

/// The display text of a captured localized-text literal: unescaped, then
/// without a leading `[DNT] `.
pub fn captured_text(captured: &str) -> (r: String)
    ensures
        r@ == without_dnt(unescaped(captured@)),
{
    let unescaped_text = unescape_text_literal(captured);
    strip_dnt(unescaped_text)
}

/// Whether a row is named `name`: its `Name` member is that string.
pub open spec fn is_named(row: Json, name: Seq<char>) -> bool {
    jget(row, "Name"@) == Some(Json::String(name))
}

/// The first row named `name`.
pub open spec fn first_named(rows: Seq<Json>, name: Seq<char>) -> Option<Json>
    decreases rows.len(),
{
    if rows.len() == 0 {
        None
    } else if is_named(rows[0], name) {
        Some(rows[0])
    } else {
        first_named(rows.drop_first(), name)
    }
}

/// The position of the first member named `key`.
pub open spec fn key_position(ms: Seq<(Seq<char>, Json)>, key: Seq<char>) -> Option<int>
    decreases ms.len(),
{
    if ms.len() == 0 {
        None
    } else if ms.last().0 == key && key_position(ms.drop_last(), key) is None {
        Some(ms.len() - 1)
    } else {
        key_position(ms.drop_last(), key)
    }
}

/// `ms` with member `key` set to `v`: in place of the first member of that
/// name, or added at the end.
pub open spec fn insert_member(ms: Seq<(Seq<char>, Json)>, key: Seq<char>, v: Json) -> Seq<(Seq<char>, Json)> {
    match key_position(ms, key) {
        Some(i) => ms.update(i, (key, v)),
        None => ms.push((key, v)),
    }
}

/// The members of `defaults` with each member of `row` set over them, in
/// order.
pub open spec fn merge_members(defaults: Seq<(Seq<char>, Json)>, row: Seq<(Seq<char>, Json)>) -> Seq<
    (Seq<char>, Json),
>
    decreases row.len(),
{
    if row.len() == 0 {
        defaults
    } else {
        let before = merge_members(defaults, row.drop_last());
        insert_member(before, row.last().0, row.last().1)
    }
}

/// A row merged over the table's defaults: when both are objects, the
/// defaults' members with the row's set over them; otherwise the row.
pub open spec fn merged(defaults: Json, row: Json) -> Json {
    match (defaults, row) {
        (Json::Object(dm), Json::Object(rm)) => Json::Object(merge_members(dm, rm)),
        _ => row,
    }
}

/// The row named `name`, merged over `defaults`.
pub open spec fn table_find(defaults: Json, rows: Seq<Json>, name: Seq<char>) -> Option<Json> {
    match first_named(rows, name) {
        Some(row) => Some(merged(defaults, row)),
        None => None,
    }
}

/// A datatable: the defaults every row is merged over, and the rows in
/// order.
pub struct DataTable {
    pub defaults: JsonValue,
    pub rows: Vec<JsonValue>,
}

impl DataTable {
    /// The rows as specification values.
    pub open spec fn rows_view(&self) -> Seq<Json> {
        self.rows@.map_values(|r: JsonValue| r@)
    }

    /// The table of a parsed `D_*.json` document: its `Defaults` (null when
    /// missing) and the elements of its `Rows` array (none when missing or
    /// not an array).
    pub fn from_document(doc: &JsonValue) -> (r: DataTable)
        ensures
            r.defaults@ == (match jget(doc@, "Defaults"@) {
                Some(d) => d,
                None => Json::Null,
            }),
            r.rows_view() == (match jget(doc@, "Rows"@) {
                Some(Json::Array(a)) => a,
                _ => Seq::<Json>::empty(),
            }),
    {
        let defaults = match doc.get("Defaults") {
            Some(d) => d.duplicate(),
            None => JsonValue::Null,
        };
        let mut rows: Vec<JsonValue> = Vec::new();
        match doc.get("Rows") {
            Some(JsonValue::Array(a)) => {
                let n = a.len();
                proof {
                    crate::json::lemma_items_view(a@, a@.len());
                }
                for i in 0..n
                    invariant
                        n == a@.len(),
                        rows@.len() == i,
                        forall|j: int| 0 <= j < i ==> (#[trigger] rows@[j])@ == a@[j]@,
                {
                    rows.push(a[i].duplicate());
                }
                assert(rows@.map_values(|r: JsonValue| r@) =~= crate::json::items_view(a@, a@.len()));
            },
            _ => {
                assert(rows@.map_values(|r: JsonValue| r@) =~= Seq::<Json>::empty());
            },
        }
        DataTable { defaults, rows }
    }

    /// The row whose `Name` is `name`, merged over `Defaults`, so that a
    /// field can be read without consulting both.
    pub fn find(&self, name: &str) -> (r: Option<JsonValue>)
        ensures
            match r {
                Some(v) => table_find(self.defaults@, self.rows_view(), name@) == Some(v@),
                None => table_find(self.defaults@, self.rows_view(), name@) is None,
            },
    {
        let n = self.rows.len();
        let ghost rv = self.rows_view();
        assert(rv.skip(0) =~= rv);
        for i in 0..n
            invariant
                n == self.rows@.len(),
                rv == self.rows_view(),
                first_named(rv, name@) == first_named(rv.skip(i as int), name@),
        {
            let row = &self.rows[i];
            let hit = match row.get("Name") {
                Some(v) => match v.as_str() {
                    Some(s) => str_eq(s, name),
                    None => false,
                },
                None => false,
            };
            assert(rv.skip(i as int)[0] == row@);
            if hit {
                return Some(merge_over_defaults(&self.defaults, row));
            }
            assert(rv.skip(i as int).drop_first() =~= rv.skip(i + 1));
        }
        assert(rv.skip(n as int).len() == 0);
        None
    }
}

/// The position of the first member named `key`.
fn position_of(ms: &Vec<(String, JsonValue)>, key: &String) -> (r: Option<usize>)
    ensures
        match r {
            Some(i) => key_position(members_view(ms@, ms@.len()), key@) == Some(i as int) && i < ms@.len(),
            None => key_position(members_view(ms@, ms@.len()), key@) is None,
        },
{
    let ghost mv = members_view(ms@, ms@.len());
    proof {
        lemma_members_view(ms@, ms@.len());
    }
    let n = ms.len();
    for i in 0..n
        invariant
            n == ms@.len(),
            mv == members_view(ms@, ms@.len()),
            mv.len() == n,
            forall|j: int| 0 <= j < n ==> #[trigger] mv[j] == (ms@[j].0@, crate::json::json_view(ms@[j].1)),
            key_position(mv.take(i as int), key@) is None,
    {
        proof {
            assert(mv.take(i + 1).drop_last() =~= mv.take(i as int));
        }
        if str_eq(ms[i].0.as_str(), key.as_str()) {
            proof {
                lemma_key_position_prefix(mv, key@, (i + 1) as nat);
            }
            return Some(i);
        }
    }
    assert(mv.take(n as int) =~= mv);
    None
}

/// A found position holds the key.
pub proof fn lemma_key_position(ms: Seq<(Seq<char>, Json)>, key: Seq<char>)
    ensures
        key_position(ms, key) matches Some(i) ==> 0 <= i < ms.len() && ms[i].0 == key,
    decreases ms.len(),
{
    if ms.len() > 0 {
        lemma_key_position(ms.drop_last(), key);
    }
}

/// The first position of a key in a prefix is its first position in the
/// whole sequence.
proof fn lemma_key_position_prefix(ms: Seq<(Seq<char>, Json)>, key: Seq<char>, k: nat)
    requires
        k <= ms.len(),
        key_position(ms.take(k as int), key) is Some,
    ensures
        key_position(ms, key) == key_position(ms.take(k as int), key),
    decreases ms.len() - k,
{
    if k < ms.len() {
        let k1 = (k + 1) as nat;
        assert(ms.take(k1 as int).drop_last() =~= ms.take(k as int));
        lemma_key_position_prefix(ms, key, k1);
    } else {
        assert(ms.take(k as int) =~= ms);
    }
}

/// `row` merged over `defaults` (see `merged`).
fn merge_over_defaults(defaults: &JsonValue, row: &JsonValue) -> (r: JsonValue)
    ensures
        r@ == merged(defaults@, row@),
{
    match (defaults, row) {
        (JsonValue::Object(dm), JsonValue::Object(rm)) => {
            let mut out: Vec<(String, JsonValue)> = Vec::new();
            let dn = dm.len();
            for i in 0..dn
                invariant
                    dn == dm@.len(),
                    out@.len() == i,
                    forall|j: int|
                        0 <= j < i ==> (#[trigger] out@[j]).0@ == dm@[j].0@ && out@[j].1@ == dm@[j].1@,
            {
                out.push((dm[i].0.clone(), dm[i].1.duplicate()));
            }
            proof {
                lemma_members_view(dm@, dn as nat);
                lemma_members_view(out@, dn as nat);
                assert(members_view(out@, out@.len()) =~= members_view(dm@, dm@.len()));
            }
            let ghost dv = members_view(dm@, dm@.len());
            let ghost rv = members_view(rm@, rm@.len());
            proof {
                lemma_members_view(rm@, rm@.len());
                assert(rv.take(0) =~= Seq::<(Seq<char>, Json)>::empty());
            }
            let rn = rm.len();
            for i in 0..rn
                invariant
                    rn == rm@.len(),
                    rv == members_view(rm@, rm@.len()),
                    rv.len() == rn,
                    forall|j: int| 0 <= j < rn ==> #[trigger] rv[j] == (rm@[j].0@, crate::json::json_view(rm@[j].1)),
                    members_view(out@, out@.len()) == merge_members(dv, rv.take(i as int)),
            {
                let ghost before = out@;
                let k = rm[i].0.clone();
                let v = rm[i].1.duplicate();
                proof {
                    assert(rv.take(i + 1).drop_last() =~= rv.take(i as int));
                    assert(rv.take(i + 1).last() == rv[i as int]);
                    lemma_members_view(before, before.len());
                }
                match position_of(&out, &k) {
                    Some(p) => {
                        out.set(p, (k, v));
                        proof {
                            lemma_members_view(out@, out@.len());
                            assert(members_view(out@, out@.len()) =~= members_view(before, before.len()).update(
                                p as int,
                                (rm@[i as int].0@, rm@[i as int].1@),
                            ));
                        }
                    },
                    None => {
                        out.push((k, v));
                        proof {
                            lemma_members_view(out@, out@.len());
                            assert(members_view(out@, out@.len()) =~= members_view(before, before.len()).push(
                                (rm@[i as int].0@, rm@[i as int].1@),
                            ));
                        }
                    },
                }
            }
            proof {
                assert(rv.take(rn as int) =~= rv);
            }
            JsonValue::Object(out)
        },
        _ => row.duplicate(),
    }
}

/// The first position of `c` in `s`.
pub open spec fn first_index_of(s: Seq<char>, c: char) -> Option<int>
    decreases s.len(),
{
    if s.len() == 0 {
        None
    } else {
        match first_index_of(s.drop_last(), c) {
            Some(i) => Some(i),
            None => if s.last() == c {
                Some(s.len() - 1)
            } else {
                None
            },
        }
    }
}

/// An icon reference the builder can normalize: unless its first
/// apostrophe is its last character after others.
pub open spec fn icon_ok(s: Seq<char>) -> bool {
    match first_index_of(s, '\'') {
        Some(q) => !(q > 0 && q == s.len() - 1),
        None => true,
    }
}

/// A plain content path for an icon reference: a full object reference
/// such as `Texture2D'/Game/...'` becomes the path between its first and
/// its closing apostrophe; anything else stays as it is.
pub open spec fn normalized_icon(s: Seq<char>) -> Seq<char> {
    match first_index_of(s, '\'') {
        Some(q) => if s.last() == '\'' && q > 0 {
            s.subrange(q + 1, s.len() - 1)
        } else {
            s
        },
        None => s,
    }
}

pub proof fn lemma_first_index_of(s: Seq<char>, c: char)
    ensures
        first_index_of(s, c) matches Some(i) ==> 0 <= i < s.len() && s[i] == c && forall|j: int|
            0 <= j < i ==> s[j] != c,
        first_index_of(s, c) is None ==> forall|j: int| 0 <= j < s.len() ==> s[j] != c,
    decreases s.len(),
{
    if s.len() > 0 {
        lemma_first_index_of(s.drop_last(), c);
        assert(forall|j: int| 0 <= j < s.len() - 1 ==> s.drop_last()[j] == s[j]);
    }
}

/// Strips the `Type'...'` wrapper of a full object reference so that every
/// icon reaches the frontend as a plain `/Game/...` path.
fn normalize_icon(raw: &str) -> (r: String)
    requires
        icon_ok(raw@),
    ensures
        r@ == normalized_icon(raw@),
{
    let cs = chars_of(raw);
    let n = cs.len();
    proof {
        lemma_first_index_of(cs@, '\'');
    }
    let mut q: usize = 0;
    while q < n && cs[q] != '\''
        invariant
            n == cs@.len(),
            cs@ == raw@,
            q <= n,
            forall|j: int| 0 <= j < q ==> cs@[j] != '\'',
        decreases n - q,
    {
        q = q + 1;
    }
    if q < n {
        assert(first_index_of(cs@, '\'') == Some(q as int)) by {
            lemma_first_index_of(cs@, '\'');
            if let Some(f) = first_index_of(cs@, '\'') {
                assert(f == q);
            }
        }
        if cs[n - 1] == '\'' && q > 0 {
            return string_of_range(&cs, q + 1, n - 1);
        }
    } else {
        assert(first_index_of(cs@, '\'') is None) by {
            lemma_first_index_of(cs@, '\'');
        }
    }
    to_string(raw)
}

/// A string field's display text (see `localized`); empty when the field
/// is missing or not a string.
pub open spec fn text_of(row: Json, field: Seq<char>) -> Seq<char> {
    match jget(row, field) {
        Some(Json::String(s)) => localized(s),
        _ => Seq::empty(),
    }
}

/// An icon field as a plain path; none when it is missing, not a string,
/// empty or `None`.
pub open spec fn icon_of(row: Json, field: Seq<char>) -> Option<Seq<char>> {
    match jget(row, field) {
        Some(Json::String(s)) => if s.len() == 0 || s == "None"@ {
            None
        } else {
            Some(normalized_icon(s))
        },
        _ => None,
    }
}

/// Whether an icon field, if it is a string, can be normalized.
pub open spec fn icon_field_ok(row: Json, field: Seq<char>) -> bool {
    match jget(row, field) {
        Some(Json::String(s)) => icon_ok(s),
        _ => true,
    }
}

/// The `RowName` of a `{ "RowName": ..., "DataTableName": ... }` handle
/// field; none when missing, not a string, empty or `None`.
pub open spec fn handle_of(row: Json, field: Seq<char>) -> Option<Seq<char>> {
    match crate::json::member(jget(row, field), "RowName"@) {
        Some(Json::String(s)) => if s.len() == 0 || s == "None"@ {
            None
        } else {
            Some(s)
        },
        _ => None,
    }
}

/// An integer field; 0 when missing or not an `i64`.
pub open spec fn int_of(row: Json, field: Seq<char>) -> int {
    match jget(row, field) {
        Some(v) => match ji64(v) {
            Some(i) => i,
            None => 0,
        },
        None => 0,
    }
}

/// A boolean field; false when missing or not a boolean.
pub open spec fn flag_of(row: Json, field: Seq<char>) -> bool {
    match jget(row, field) {
        Some(v) => match jbool(v) {
            Some(b) => b,
            None => false,
        },
        None => false,
    }
}

/// A string field of a merged row, through `nsloctext`; empty when missing
/// or not a string.
pub fn text_field(row: &JsonValue, field: &str) -> (r: String)
    ensures
        r@ == text_of(row@, field@),
{
    match row.get(field) {
        Some(v) => match v.as_str() {
            Some(s) => nsloctext(s),
            None => String::new(),
        },
        None => String::new(),
    }
}

/// Whether `s` is `None`.
fn is_none_text(s: &str) -> (r: bool)
    ensures
        r == (s@ == "None"@),
{
    str_eq(s, "None")
}

/// An icon field as a plain content path; none when missing, empty or
/// `None`.
pub fn opt_str(row: &JsonValue, field: &str) -> (r: Option<String>)
    requires
        icon_field_ok(row@, field@),
    ensures
        match r {
            Some(s) => icon_of(row@, field@) == Some(s@),
            None => icon_of(row@, field@) is None,
        },
{
    match row.get(field) {
        Some(v) => match v.as_str() {
            Some(s) => {
                if s.unicode_len() == 0 || is_none_text(s) {
                    None
                } else {
                    Some(normalize_icon(s))
                }
            },
            None => None,
        },
        None => None,
    }
}

/// The `RowName` of a handle field; none when missing, empty or `None`.
pub fn handle_row_name(row: &JsonValue, field: &str) -> (r: Option<String>)
    ensures
        match r {
            Some(s) => handle_of(row@, field@) == Some(s@),
            None => handle_of(row@, field@) is None,
        },
{
    match row.get(field) {
        Some(h) => match h.get("RowName") {
            Some(v) => match v.as_str() {
                Some(s) => {
                    if s.unicode_len() == 0 || is_none_text(s) {
                        None
                    } else {
                        Some(to_string(s))
                    }
                },
                None => None,
            },
            None => None,
        },
        None => None,
    }
}

/// An integer field; 0 when missing or not an `i64`.
pub fn i64_field(row: &JsonValue, field: &str) -> (r: i64)
    ensures
        r == int_of(row@, field@),
{
    match row.get(field) {
        Some(v) => match v.as_i64() {
            Some(i) => i,
            None => 0,
        },
        None => 0,
    }
}

/// A boolean field; false when missing or not a boolean.
pub fn bool_field(row: &JsonValue, field: &str) -> (r: bool)
    ensures
        r == flag_of(row@, field@),
{
    match row.get(field) {
        Some(v) => match v.as_bool() {
            Some(b) => b,
            None => false,
        },
        None => false,
    }
}

/// The stat a `GrantedStats` key names: the name inside a `(Value="...")`
/// key, any other key as it is.
pub open spec fn stat_name(key: Seq<char>) -> Seq<char> {
    match regex_group(STAT_KEY_PATTERN@, key) {
        Some(c) => c,
        None => key,
    }
}

/// The stat a `GrantedStats` key names (see `stat_name`).
pub fn stat_key(raw: &str) -> (r: String)
    ensures
        r@ == stat_name(raw@),
{
    match capture_group(STAT_KEY_PATTERN, raw) {
        Some(c) => c,
        None => to_string(raw),
    }
}

} // verus!
