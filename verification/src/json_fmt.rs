//! Serialization in the exact layout the game writes for its outer save
//! files: tab indentation, CRLF newlines, and arrays of plain numbers
//! inlined as `[ 1, 2, 3 ]`.

use vstd::prelude::*;
use crate::json::{JsonValue, JsonNumber};
use crate::text::{push_char, push_str};

verus! {

/// `n` tab characters.
pub open spec fn indent_text(n: nat) -> Seq<char> {
    Seq::new(n, |i: int| '\t')
}

/// The decimal digit for `d` (0 to 9).
pub open spec fn digit(d: nat) -> char {
    if d == 0 {
        '0'
    } else if d == 1 {
        '1'
    } else if d == 2 {
        '2'
    } else if d == 3 {
        '3'
    } else if d == 4 {
        '4'
    } else if d == 5 {
        '5'
    } else if d == 6 {
        '6'
    } else if d == 7 {
        '7'
    } else if d == 8 {
        '8'
    } else {
        '9'
    }
}

/// The decimal form of `n`, without leading zeros.
pub open spec fn decimal(n: nat) -> Seq<char>
    decreases n,
{
    if n < 10 {
        seq![digit(n)]
    } else {
        decimal(n / 10).push(digit(n % 10))
    }
}

/// The decimal form of `v`, with a `-` before a negative one.
pub open spec fn int_text(v: int) -> Seq<char> {
    if v < 0 {
        seq!['-'] + decimal((-v) as nat)
    } else {
        decimal(v as nat)
    }
}

/// The printed form of a number: an integer in decimal, with a `-` before
/// a negative one.
pub open spec fn number_text(n: JsonNumber) -> Seq<char> {
    match n {
        JsonNumber::PosInt(u) => decimal(u as nat),
        JsonNumber::NegInt(i) => int_text(i as int),
        JsonNumber::Float(s) => s@,
    }
}

/// The lowercase hexadecimal digit for `d` (0 to 15).
pub open spec fn hex_digit(d: int) -> char {
    if d < 10 {
        digit(d as nat)
    } else if d == 10 {
        'a'
    } else if d == 11 {
        'b'
    } else if d == 12 {
        'c'
    } else if d == 13 {
        'd'
    } else if d == 14 {
        'e'
    } else {
        'f'
    }
}

/// How a string literal writes character `c`: `"` and `\` behind a
/// backslash; backspace, tab, line feed, form feed and carriage return as
/// `\b`, `\t`, `\n`, `\f`, `\r`; any other character below U+0020 as
/// `\u00` and two lowercase hex digits; everything else as it is.
pub open spec fn escaped_char(c: char) -> Seq<char> {
    let n = c as int;
    if c == '"' {
        seq!['\\', '"']
    } else if c == '\\' {
        seq!['\\', '\\']
    } else if n == 8 {
        seq!['\\', 'b']
    } else if n == 9 {
        seq!['\\', 't']
    } else if n == 10 {
        seq!['\\', 'n']
    } else if n == 12 {
        seq!['\\', 'f']
    } else if n == 13 {
        seq!['\\', 'r']
    } else if n < 32 {
        seq!['\\', 'u', '0', '0', hex_digit(n / 16), hex_digit(n % 16)]
    } else {
        seq![c]
    }
}

/// The characters of `s`, each as a string literal writes it.
pub open spec fn escaped(s: Seq<char>) -> Seq<char>
    decreases s.len(),
{
    if s.len() == 0 {
        Seq::empty()
    } else {
        escaped(s.drop_last()) + escaped_char(s.last())
    }
}

/// The quoted, escaped form of a string as a JSON string literal, the way
/// `serde_json` writes it.
pub open spec fn json_quoted(s: Seq<char>) -> Seq<char> {
    seq!['"'] + escaped(s) + seq!['"']
}

/// Every element is a number.
pub open spec fn all_numbers(s: Seq<JsonValue>) -> bool {
    forall|i: int| 0 <= i < s.len() ==> #[trigger] s[i] is Number
}

/// The printed form of a number value (nothing for other values).
pub open spec fn value_number_text(v: JsonValue) -> Seq<char> {
    match v {
        JsonValue::Number(n) => number_text(n),
        _ => Seq::empty(),
    }
}

/// The first `k` numbers of an inline array, separated by `", "`.
pub open spec fn number_items(s: Seq<JsonValue>, k: int) -> Seq<char>
    decreases k,
{
    if k <= 0 {
        Seq::empty()
    } else {
        number_items(s, k - 1) + (if k > 1 {
            ", "@
        } else {
            Seq::empty()
        }) + value_number_text(s[k - 1])
    }
}

/// The layout of `v` written at nesting depth `depth`.
pub open spec fn written(v: JsonValue, depth: nat) -> Seq<char>
    decreases v, 0nat,
{
    match v {
        JsonValue::Null => "null"@,
        JsonValue::Bool(b) => if b {
            "true"@
        } else {
            "false"@
        },
        JsonValue::Number(n) => number_text(n),
        JsonValue::String(s) => json_quoted(s@),
        JsonValue::Array(a) => {
            if a@.len() == 0 {
                "[]"@
            } else if all_numbers(a@) {
                "[ "@ + number_items(a@, a@.len() as int) + " ]"@
            } else {
                "[\r\n"@ + array_items(a@, depth, a@.len()) + indent_text(depth) + "]"@
            }
        },
        JsonValue::Object(m) => {
            if m@.len() == 0 {
                "{}"@
            } else {
                "{\r\n"@ + object_items(m@, depth, m@.len()) + indent_text(depth) + "}"@
            }
        },
    }
}

/// The first `k` elements of a multi-line array at depth `depth`, one per
/// line, each but the last followed by a comma.
pub open spec fn array_items(s: Seq<JsonValue>, depth: nat, k: nat) -> Seq<char>
    decreases s, k,
{
    if k == 0 || k > s.len() {
        Seq::empty()
    } else {
        array_items(s, depth, (k - 1) as nat) + indent_text(depth + 1) + written(s[k - 1], depth + 1)
            + (if k < s.len() {
            ","@
        } else {
            Seq::empty()
        }) + "\r\n"@
    }
}

/// The first `k` members of an object at depth `depth`, one per line.
pub open spec fn object_items(s: Seq<(String, JsonValue)>, depth: nat, k: nat) -> Seq<char>
    decreases s, k,
{
    if k == 0 || k > s.len() {
        Seq::empty()
    } else {
        object_items(s, depth, (k - 1) as nat) + indent_text(depth + 1) + json_quoted(s[k - 1].0@)
            + ": "@ + written(s[k - 1].1, depth + 1) + (if k < s.len() {
            ","@
        } else {
            Seq::empty()
        }) + "\r\n"@
    }
}

/// How deeply arrays and objects nest inside `v`.
pub open spec fn nesting(v: JsonValue) -> nat
    decreases v, 0nat,
{
    match v {
        JsonValue::Array(a) => 1 + array_nesting(a@, a@.len()),
        JsonValue::Object(m) => 1 + object_nesting(m@, m@.len()),
        _ => 0,
    }
}

/// The deepest nesting among the first `k` elements.
pub open spec fn array_nesting(s: Seq<JsonValue>, k: nat) -> nat
    decreases s, k,
{
    if k == 0 || k > s.len() {
        0
    } else {
        let a = array_nesting(s, (k - 1) as nat);
        let b = nesting(s[k - 1]);
        if a < b {
            b
        } else {
            a
        }
    }
}

/// The deepest nesting among the values of the first `k` members.
pub open spec fn object_nesting(s: Seq<(String, JsonValue)>, k: nat) -> nat
    decreases s, k,
{
    if k == 0 || k > s.len() {
        0
    } else {
        let a = object_nesting(s, (k - 1) as nat);
        let b = nesting(s[k - 1].1);
        if a < b {
            b
        } else {
            a
        }
    }
}

proof fn lemma_array_nesting(s: Seq<JsonValue>, k: nat, i: int)
    requires
        0 <= i < k <= s.len(),
    ensures
        nesting(s[i]) <= array_nesting(s, k),
    decreases k,
{
    if i < k - 1 {
        lemma_array_nesting(s, (k - 1) as nat, i);
    }
}

proof fn lemma_object_nesting(s: Seq<(String, JsonValue)>, k: nat, i: int)
    requires
        0 <= i < k <= s.len(),
    ensures
        nesting(s[i].1) <= object_nesting(s, k),
    decreases k,
{
    if i < k - 1 {
        lemma_object_nesting(s, (k - 1) as nat, i);
    }
}

/// The quoted, escaped JSON string literal for `s`.
///
/// Trusted: calls `serde_json`'s `Display` for `Value::String`, which
/// writes the string between double quotes, escaping each character by its
/// fixed table (`escaped_char`); the contract claims exactly that.
#[verifier::external_body]
fn quoted(s: &str) -> (r: String)
    ensures
        r@ == json_quoted(s@),
{
    serde_json::Value::String(s.to_string()).to_string()
}

fn digit_char(d: u64) -> (c: char)
    requires
        d < 10,
    ensures
        c == digit(d as nat),
{
    if d == 0 {
        '0'
    } else if d == 1 {
        '1'
    } else if d == 2 {
        '2'
    } else if d == 3 {
        '3'
    } else if d == 4 {
        '4'
    } else if d == 5 {
        '5'
    } else if d == 6 {
        '6'
    } else if d == 7 {
        '7'
    } else if d == 8 {
        '8'
    } else {
        '9'
    }
}

/// Appends the decimal form of `n`.
pub fn push_decimal(out: &mut String, n: u64)
    ensures
        final(out)@ == old(out)@ + decimal(n as nat),
    decreases n,
{
    if n >= 10 {
        push_decimal(out, n / 10);
    }
    push_char(out, digit_char(n % 10));
    proof {
        if n >= 10 {
            assert(old(out)@ + decimal((n / 10) as nat) + seq![digit((n % 10) as nat)] =~= old(out)@
                + decimal(n as nat));
        } else {
            assert(old(out)@.push(digit((n % 10) as nat)) =~= old(out)@ + decimal(n as nat));
        }
    }
}

/// Appends the decimal form of `v`, with a `-` before a negative one.
pub fn push_signed(out: &mut String, v: i64)
    ensures
        final(out)@ == old(out)@ + int_text(v as int),
{
    if v < 0 {
        push_char(out, '-');
        let m = (-(v as i128)) as u64;
        push_decimal(out, m);
        assert(old(out)@.push('-') + decimal(m as nat) =~= old(out)@ + int_text(v as int));
    } else {
        push_decimal(out, v as u64);
    }
}

fn push_number(out: &mut String, n: &JsonNumber)
    ensures
        final(out)@ == old(out)@ + number_text(*n),
{
    match n {
        JsonNumber::PosInt(u) => push_decimal(out, *u),
        JsonNumber::NegInt(i) => push_signed(out, *i),
        JsonNumber::Float(s) => push_str(out, s.as_str()),
    }
}

fn push_indent(out: &mut String, depth: usize)
    ensures
        final(out)@ == old(out)@ + indent_text(depth as nat),
{
    for k in 0..depth
        invariant
            out@ == old(out)@ + indent_text(k as nat),
    {
        push_char(out, '\t');
        assert(old(out)@ + indent_text(k as nat) + seq!['\t'] =~= old(out)@ + indent_text((k + 1) as nat));
    }
}

fn all_numbers_exec(a: &Vec<JsonValue>) -> (r: bool)
    ensures
        r == all_numbers(a@),
{
    let n = a.len();
    for i in 0..n
        invariant
            n == a@.len(),
            forall|j: int| 0 <= j < i ==> #[trigger] a@[j] is Number,
    {
        match &a[i] {
            JsonValue::Number(_) => {},
            _ => {
                return false;
            },
        }
    }
    true
}

/// Appends the layout of `v` at nesting depth `depth`.
fn write_value(out: &mut String, v: &JsonValue, depth: usize)
    requires
        depth + nesting(*v) <= usize::MAX,
    ensures
        final(out)@ == old(out)@ + written(*v, depth as nat),
    decreases v,
{
    let ghost start = out@;
    match v {
        JsonValue::Array(a) => {
            let n = a.len();
            if n == 0 {
                push_str(out, "[]");
            } else if all_numbers_exec(a) {
                // The game inlines arrays of plain numbers: `[ 86, 5, 26 ]`.
                push_str(out, "[ ");
                for i in 0..n
                    invariant
                        n == a@.len(),
                        out@ == start + "[ "@ + number_items(a@, i as int),
                {
                    if i > 0 {
                        push_str(out, ", ");
                    }
                    match &a[i] {
                        JsonValue::Number(num) => push_number(out, num),
                        _ => {},
                    }
                    proof {
                        if i > 0 {
                            assert(out@ =~= start + "[ "@ + number_items(a@, i + 1));
                        } else {
                            assert(out@ =~= start + "[ "@ + number_items(a@, i + 1));
                        }
                    }
                }
                push_str(out, " ]");
            } else {
                push_str(out, "[\r\n");
                for i in 0..n
                    invariant
                        n == a@.len(),
                        *v == JsonValue::Array(*a),
                        depth + nesting(*v) <= usize::MAX,
                        out@ == start + "[\r\n"@ + array_items(a@, depth as nat, i as nat),
                {
                    proof {
                        lemma_array_nesting(a@, n as nat, i as int);
                    }
                    push_indent(out, depth + 1);
                    write_value(out, &a[i], depth + 1);
                    if i + 1 < n {
                        push_str(out, ",");
                    }
                    push_str(out, "\r\n");
                    proof {
                        assert(out@ =~= start + "[\r\n"@ + array_items(a@, depth as nat, (i + 1) as nat));
                    }
                }
                push_indent(out, depth);
                push_str(out, "]");
                proof {
                    assert(out@ =~= start + written(*v, depth as nat));
                }
            }
        },
        JsonValue::Object(m) => {
            let n = m.len();
            if n == 0 {
                push_str(out, "{}");
            } else {
                push_str(out, "{\r\n");
                for i in 0..n
                    invariant
                        n == m@.len(),
                        *v == JsonValue::Object(*m),
                        depth + nesting(*v) <= usize::MAX,
                        out@ == start + "{\r\n"@ + object_items(m@, depth as nat, i as nat),
                {
                    proof {
                        lemma_object_nesting(m@, n as nat, i as int);
                    }
                    push_indent(out, depth + 1);
                    let key = quoted(m[i].0.as_str());
                    push_str(out, key.as_str());
                    push_str(out, ": ");
                    write_value(out, &m[i].1, depth + 1);
                    if i + 1 < n {
                        push_str(out, ",");
                    }
                    push_str(out, "\r\n");
                    proof {
                        assert(out@ =~= start + "{\r\n"@ + object_items(m@, depth as nat, (i + 1) as nat));
                    }
                }
                push_indent(out, depth);
                push_str(out, "}");
                proof {
                    assert(out@ =~= start + written(*v, depth as nat));
                }
            }
        },
        // Strings get serde_json's escaping (the same as the game's);
        // numbers, booleans and null print canonically.
        JsonValue::Null => push_str(out, "null"),
        JsonValue::Bool(b) => {
            if *b {
                push_str(out, "true");
            } else {
                push_str(out, "false");
            }
        },
        JsonValue::Number(num) => push_number(out, num),
        JsonValue::String(s) => {
            let q = quoted(s.as_str());
            push_str(out, q.as_str());
        },
    }
}

/// The outer save-file layout of `value`: tab indentation, CRLF newlines,
/// and arrays of plain numbers inlined.
pub fn to_string_tabbed_crlf(value: &JsonValue) -> (r: String)
    requires
        nesting(*value) <= usize::MAX,
    ensures
        r@ == written(*value, 0),
{
    let mut out = String::new();
    write_value(&mut out, value, 0);
    assert(out@ =~= written(*value, 0));
    out
}

/// The lines of the first `k` character strings of the outer
/// `Characters.json` wrapper, each at depth 2, each but the last followed
/// by a comma.
pub open spec fn character_lines(strings: Seq<Seq<char>>, k: int) -> Seq<char>
    decreases k,
{
    if k <= 0 || k > strings.len() {
        Seq::empty()
    } else {
        character_lines(strings, k - 1) + indent_text(2) + json_quoted(strings[k - 1]) + (if k < strings.len() {
            ","@
        } else {
            Seq::empty()
        }) + "\r\n"@
    }
}

/// The outer `Characters.json` file around the serialized characters: an
/// object whose one member, `Characters.json`, is the array of the
/// characters' texts, in the outer layout (tabs, CRLF).
pub open spec fn characters_file_text(strings: Seq<Seq<char>>) -> Seq<char> {
    "{\r\n"@ + indent_text(1) + json_quoted("Characters.json"@) + ": "@ + (if strings.len() == 0 {
        "[]"@
    } else {
        "[\r\n"@ + character_lines(strings, strings.len() as int) + indent_text(1) + "]"@
    }) + "\r\n"@ + "}"@
}

/// Wraps the serialized characters into the outer `Characters.json` file
/// (see `characters_file_text`).
pub fn frame_characters_file(strings: &[String]) -> (r: String)
    ensures
        r@ == characters_file_text(strings@.map_values(|s: String| s@)),
{
    let ghost sv = strings@.map_values(|s: String| s@);
    let mut out = String::new();
    push_str(&mut out, "{\r\n");
    push_indent(&mut out, 1);
    let key = quoted("Characters.json");
    push_str(&mut out, key.as_str());
    push_str(&mut out, ": ");
    let ghost head = out@;
    let n = strings.len();
    if n == 0 {
        push_str(&mut out, "[]");
    } else {
        push_str(&mut out, "[\r\n");
        for i in 0..n
            invariant
                n == strings@.len(),
                sv == strings@.map_values(|s: String| s@),
                out@ == head + "[\r\n"@ + character_lines(sv, i as int),
        {
            push_indent(&mut out, 2);
            let q = quoted(strings[i].as_str());
            push_str(&mut out, q.as_str());
            if i + 1 < n {
                push_str(&mut out, ",");
            }
            push_str(&mut out, "\r\n");
            assert(out@ =~= head + "[\r\n"@ + character_lines(sv, i + 1));
        }
        push_indent(&mut out, 1);
        push_str(&mut out, "]");
    }
    push_str(&mut out, "\r\n");
    push_str(&mut out, "}");
    assert(out@ =~= characters_file_text(sv));
    out
}


/// Whether every line feed of `s` directly follows a carriage return.
pub open spec fn lf_after_cr(s: Seq<char>) -> bool {
    forall|i: int| 0 <= i < s.len() && #[trigger] s[i] == '\n' ==> i > 0 && s[i - 1] == '\r'
}

/// Whether `s` holds no line feed.
pub open spec fn no_lf(s: Seq<char>) -> bool {
    forall|i: int| 0 <= i < s.len() ==> #[trigger] s[i] != '\n'
}

/// Whether no number printed in `v` spells a line feed (integers never
/// do; this asks it of the texts of the other numbers).
pub open spec fn numbers_lf_free(v: JsonValue) -> bool
    decreases v, 0nat,
{
    match v {
        JsonValue::Number(JsonNumber::Float(t)) => no_lf(t@),
        JsonValue::Array(a) => items_lf_free(a@, a@.len()),
        JsonValue::Object(m) => members_lf_free(m@, m@.len()),
        _ => true,
    }
}

/// `numbers_lf_free` of each of the first `k` elements.
pub open spec fn items_lf_free(s: Seq<JsonValue>, k: nat) -> bool
    decreases s, k,
{
    if k == 0 || k > s.len() {
        true
    } else {
        items_lf_free(s, (k - 1) as nat) && numbers_lf_free(s[k - 1])
    }
}

/// `numbers_lf_free` of the values of the first `k` members.
pub open spec fn members_lf_free(s: Seq<(String, JsonValue)>, k: nat) -> bool
    decreases s, k,
{
    if k == 0 || k > s.len() {
        true
    } else {
        members_lf_free(s, (k - 1) as nat) && numbers_lf_free(s[k - 1].1)
    }
}

proof fn lemma_lf_concat(a: Seq<char>, b: Seq<char>)
    requires
        lf_after_cr(a),
        lf_after_cr(b),
        b.len() == 0 || b[0] != '\n',
    ensures
        lf_after_cr(a + b),
        (a.len() > 0 && a[0] != '\n') ==> (a + b)[0] != '\n',
{
    let c = a + b;
    assert forall|i: int| 0 <= i < c.len() && #[trigger] c[i] == '\n' implies i > 0 && c[i - 1] == '\r' by {
        if i < a.len() {
            assert(a[i] == '\n');
        } else {
            assert(b[i - a.len()] == '\n');
            assert(i - a.len() > 0);
            assert(b[i - a.len() - 1] == '\r');
        }
    }
}

proof fn lemma_no_lf(s: Seq<char>)
    requires
        no_lf(s),
    ensures
        lf_after_cr(s),
        s.len() == 0 || s[0] != '\n',
{
}

proof fn lemma_no_lf_concat(a: Seq<char>, b: Seq<char>)
    requires
        no_lf(a),
        no_lf(b),
    ensures
        no_lf(a + b),
{
    assert forall|i: int| 0 <= i < (a + b).len() implies #[trigger] (a + b)[i] != '\n' by {
        if i < a.len() {
            assert((a + b)[i] == a[i]);
        } else {
            assert((a + b)[i] == b[i - a.len()]);
        }
    }
}

proof fn lemma_decimal_no_lf(n: nat)
    ensures
        no_lf(decimal(n)),
    decreases n,
{
    if n >= 10 {
        lemma_decimal_no_lf(n / 10);
        lemma_no_lf_concat(decimal(n / 10), seq![digit(n % 10)]);
        assert(decimal(n / 10).push(digit(n % 10)) =~= decimal(n / 10) + seq![digit(n % 10)]);
    }
}

proof fn lemma_number_no_lf(n: JsonNumber)
    requires
        numbers_lf_free(JsonValue::Number(n)),
    ensures
        no_lf(number_text(n)),
{
    match n {
        JsonNumber::PosInt(u) => lemma_decimal_no_lf(u as nat),
        JsonNumber::NegInt(i) => {
            if i < 0 {
                lemma_decimal_no_lf((-i) as nat);
                lemma_no_lf_concat(seq!['-'], decimal((-i) as nat));
            } else {
                lemma_decimal_no_lf(i as nat);
            }
        },
        JsonNumber::Float(_) => {},
    }
}

proof fn lemma_escaped_no_lf(s: Seq<char>)
    ensures
        no_lf(escaped(s)),
    decreases s.len(),
{
    if s.len() > 0 {
        lemma_escaped_no_lf(s.drop_last());
        let c = s.last();
        assert(no_lf(escaped_char(c))) by {
            let e = escaped_char(c);
            assert forall|i: int| 0 <= i < e.len() implies #[trigger] e[i] != '\n' by {}
        }
        lemma_no_lf_concat(escaped(s.drop_last()), escaped_char(c));
    }
}

proof fn lemma_quoted_no_lf(s: Seq<char>)
    ensures
        no_lf(json_quoted(s)),
{
    lemma_escaped_no_lf(s);
    lemma_no_lf_concat(seq!['"'], escaped(s));
    lemma_no_lf_concat(seq!['"'] + escaped(s), seq!['"']);
}

proof fn lemma_indent_no_lf(n: nat)
    ensures
        no_lf(indent_text(n)),
{
}

proof fn lemma_number_items_no_lf(s: Seq<JsonValue>, k: int)
    requires
        k <= s.len(),
        items_lf_free(s, s.len()),
    ensures
        no_lf(number_items(s, k)),
    decreases k,
{
    if k > 0 {
        lemma_number_items_no_lf(s, k - 1);
        lemma_items_lf_free(s, s.len(), k - 1);
        reveal_strlit(", ");
        let p = number_items(s, k - 1) + (if k > 1 {
            ", "@
        } else {
            Seq::empty()
        });
        lemma_no_lf_concat(number_items(s, k - 1), if k > 1 {
            ", "@
        } else {
            Seq::empty()
        });
        assert(no_lf(value_number_text(s[k - 1]))) by {
            if let JsonValue::Number(n) = s[k - 1] {
                lemma_number_no_lf(n);
            }
        }
        lemma_no_lf_concat(p, value_number_text(s[k - 1]));
    }
}

proof fn lemma_items_lf_free(s: Seq<JsonValue>, k: nat, i: int)
    requires
        items_lf_free(s, k),
        0 <= i < k <= s.len(),
    ensures
        numbers_lf_free(s[i]),
    decreases k,
{
    if i < k - 1 {
        lemma_items_lf_free(s, (k - 1) as nat, i);
    }
}

/// The layout puts every line feed right after a carriage return, and
/// never starts with a line feed.
proof fn lemma_written_crlf(v: JsonValue, depth: nat)
    requires
        numbers_lf_free(v),
    ensures
        lf_after_cr(written(v, depth)),
        written(v, depth).len() == 0 || written(v, depth)[0] != '\n',
    decreases v, 0nat,
{
    reveal_strlit("null");
    reveal_strlit("true");
    reveal_strlit("false");
    reveal_strlit("[]");
    reveal_strlit("{}");
    reveal_strlit("[ ");
    reveal_strlit(" ]");
    reveal_strlit("[\r\n");
    reveal_strlit("{\r\n");
    reveal_strlit("]");
    reveal_strlit("}");
    match v {
        JsonValue::Null => {},
        JsonValue::Bool(b) => {},
        JsonValue::Number(n) => {
            lemma_number_no_lf(n);
        },
        JsonValue::String(t) => {
            lemma_quoted_no_lf(t@);
        },
        JsonValue::Array(a) => {
            if a@.len() == 0 {
            } else if all_numbers(a@) {
                lemma_number_items_no_lf(a@, a@.len() as int);
                lemma_no_lf_concat("[ "@, number_items(a@, a@.len() as int));
                lemma_no_lf_concat("[ "@ + number_items(a@, a@.len() as int), " ]"@);
            } else {
                lemma_array_items_crlf(a@, depth, a@.len());
                let head = "[\r\n"@;
                assert(lf_after_cr(head));
                lemma_lf_concat(head, array_items(a@, depth, a@.len()));
                lemma_no_lf_concat(indent_text(depth), "]"@);
                lemma_no_lf(indent_text(depth) + "]"@);
                lemma_lf_concat(head + array_items(a@, depth, a@.len()), indent_text(depth) + "]"@);
                assert(head + array_items(a@, depth, a@.len()) + indent_text(depth) + "]"@ =~= head
                    + array_items(a@, depth, a@.len()) + (indent_text(depth) + "]"@));
            }
        },
        JsonValue::Object(m) => {
            if m@.len() == 0 {
            } else {
                lemma_object_items_crlf(m@, depth, m@.len());
                let head = "{\r\n"@;
                assert(lf_after_cr(head));
                lemma_lf_concat(head, object_items(m@, depth, m@.len()));
                lemma_no_lf_concat(indent_text(depth), "}"@);
                lemma_no_lf(indent_text(depth) + "}"@);
                lemma_lf_concat(head + object_items(m@, depth, m@.len()), indent_text(depth) + "}"@);
                assert(head + object_items(m@, depth, m@.len()) + indent_text(depth) + "}"@ =~= head
                    + object_items(m@, depth, m@.len()) + (indent_text(depth) + "}"@));
            }
        },
    }
}


proof fn lemma_members_lf_free(s: Seq<(String, JsonValue)>, k: nat, i: int)
    requires
        members_lf_free(s, k),
        0 <= i < k <= s.len(),
    ensures
        numbers_lf_free(s[i].1),
    decreases k,
{
    if i < k - 1 {
        lemma_members_lf_free(s, (k - 1) as nat, i);
    }
}

/// The lines of a multi-line array put every line feed right after a
/// carriage return, and start with an indent.
proof fn lemma_array_items_crlf(s: Seq<JsonValue>, depth: nat, k: nat)
    requires
        items_lf_free(s, s.len()),
    ensures
        lf_after_cr(array_items(s, depth, k)),
        array_items(s, depth, k).len() == 0 || array_items(s, depth, k)[0] != '\n',
    decreases s, k,
{
    if k == 0 || k > s.len() {
    } else {
        reveal_strlit(",");
        reveal_strlit("\r\n");
        lemma_array_items_crlf(s, depth, (k - 1) as nat);
        lemma_items_lf_free(s, s.len(), k - 1);
        lemma_written_crlf(s[k - 1], depth + 1);
        let prev = array_items(s, depth, (k - 1) as nat);
        let ind = indent_text(depth + 1);
        let w = written(s[k - 1], depth + 1);
        let comma: Seq<char> = if k < s.len() {
            ","@
        } else {
            Seq::empty()
        };
        let tail = comma + "\r\n"@;
        assert(lf_after_cr(tail)) by {
            assert forall|i: int| 0 <= i < tail.len() && #[trigger] tail[i] == '\n' implies i > 0 && tail[i - 1]
                == '\r' by {
                if k < s.len() {
                    assert(tail =~= seq![',', '\r', '\n']);
                } else {
                    assert(tail =~= seq!['\r', '\n']);
                }
            }
        }
        assert(tail[0] != '\n') by {
            if k < s.len() {
                assert(tail =~= seq![',', '\r', '\n']);
            } else {
                assert(tail =~= seq!['\r', '\n']);
            }
        }
        lemma_lf_concat(w, tail);
        lemma_no_lf(ind);
        assert(ind[0] == '\t');
        lemma_lf_concat(ind, w + tail);
        lemma_lf_concat(prev, ind + (w + tail));
        assert(array_items(s, depth, k) =~= prev + (ind + (w + tail)));
    }
}

/// The lines of an object put every line feed right after a carriage
/// return, and start with an indent.
proof fn lemma_object_items_crlf(s: Seq<(String, JsonValue)>, depth: nat, k: nat)
    requires
        members_lf_free(s, s.len()),
    ensures
        lf_after_cr(object_items(s, depth, k)),
        object_items(s, depth, k).len() == 0 || object_items(s, depth, k)[0] != '\n',
    decreases s, k,
{
    if k == 0 || k > s.len() {
    } else {
        reveal_strlit(",");
        reveal_strlit("\r\n");
        reveal_strlit(": ");
        lemma_object_items_crlf(s, depth, (k - 1) as nat);
        lemma_members_lf_free(s, s.len(), k - 1);
        lemma_written_crlf(s[k - 1].1, depth + 1);
        let prev = object_items(s, depth, (k - 1) as nat);
        let ind = indent_text(depth + 1);
        let key = json_quoted(s[k - 1].0@);
        let w = written(s[k - 1].1, depth + 1);
        let comma: Seq<char> = if k < s.len() {
            ","@
        } else {
            Seq::empty()
        };
        let tail = comma + "\r\n"@;
        assert(lf_after_cr(tail)) by {
            assert forall|i: int| 0 <= i < tail.len() && #[trigger] tail[i] == '\n' implies i > 0 && tail[i - 1]
                == '\r' by {
                if k < s.len() {
                    assert(tail =~= seq![',', '\r', '\n']);
                } else {
                    assert(tail =~= seq!['\r', '\n']);
                }
            }
        }
        assert(tail[0] != '\n') by {
            if k < s.len() {
                assert(tail =~= seq![',', '\r', '\n']);
            } else {
                assert(tail =~= seq!['\r', '\n']);
            }
        }
        lemma_lf_concat(w, tail);
        lemma_quoted_no_lf(s[k - 1].0@);
        lemma_no_lf_concat(ind, key);
        lemma_no_lf_concat(ind + key, ": "@);
        lemma_no_lf(ind + key + ": "@);
        assert((ind + key + ": "@)[0] == '\t');
        lemma_lf_concat(ind + key + ": "@, w + tail);
        lemma_lf_concat(prev, (ind + key + ": "@) + (w + tail));
        assert(object_items(s, depth, k) =~= prev + ((ind + key + ": "@) + (w + tail)));
    }
}

/// In the outer layout every line feed directly follows a carriage return
/// (for values whose non-integer numbers spell no line feed).
pub proof fn law_written_crlf(v: JsonValue, depth: nat)
    requires
        numbers_lf_free(v),
    ensures
        lf_after_cr(written(v, depth)),
{
    lemma_written_crlf(v, depth);
}

} // verus!
