//! A JSON document model: what the save files and the game's datatables hold.

use vstd::prelude::*;

verus! {

/// A JSON number as the documents hold it: an integer, or any other number
/// kept in its canonical printed form.
pub enum JsonNumber {
    /// A non-negative integer.
    PosInt(u64),
    /// An integer that does not fit `PosInt` (a parsed document puts only
    /// negative ones here); printed as the value it holds.
    NegInt(i64),
    /// A number with a fraction or exponent, in canonical printed form.
    Float(String),
}

/// A JSON value. Object members keep their document order.
pub enum JsonValue {
    Null,
    Bool(bool),
    Number(JsonNumber),
    String(String),
    Array(Vec<JsonValue>),
    Object(Vec<(String, JsonValue)>),
}



/// A JSON number as a value of specifications.
pub enum NumberView {
    PosInt(u64),
    NegInt(i64),
    Float(Seq<char>),
}

/// A JSON value as a value of specifications: strings as character
/// sequences, arrays and objects as sequences.
pub enum Json {
    Null,
    Bool(bool),
    Number(NumberView),
    String(Seq<char>),
    Array(Seq<Json>),
    Object(Seq<(Seq<char>, Json)>),
}

impl View for JsonNumber {
    type V = NumberView;

    open spec fn view(&self) -> NumberView {
        match self {
            JsonNumber::PosInt(u) => NumberView::PosInt(*u),
            JsonNumber::NegInt(i) => NumberView::NegInt(*i),
            JsonNumber::Float(s) => NumberView::Float(s@),
        }
    }
}

/// The specification value of `v`.
pub open spec fn json_view(v: JsonValue) -> Json
    decreases v, 0nat,
{
    match v {
        JsonValue::Null => Json::Null,
        JsonValue::Bool(b) => Json::Bool(b),
        JsonValue::Number(n) => Json::Number(n@),
        JsonValue::String(s) => Json::String(s@),
        JsonValue::Array(a) => Json::Array(items_view(a@, a@.len())),
        JsonValue::Object(m) => Json::Object(members_view(m@, m@.len())),
    }
}

/// The specification values of the first `k` elements.
pub open spec fn items_view(s: Seq<JsonValue>, k: nat) -> Seq<Json>
    decreases s, k,
{
    if k == 0 || k > s.len() {
        Seq::empty()
    } else {
        items_view(s, (k - 1) as nat).push(json_view(s[k - 1]))
    }
}

/// The specification values of the first `k` members.
pub open spec fn members_view(s: Seq<(String, JsonValue)>, k: nat) -> Seq<(Seq<char>, Json)>
    decreases s, k,
{
    if k == 0 || k > s.len() {
        Seq::empty()
    } else {
        members_view(s, (k - 1) as nat).push((s[k - 1].0@, json_view(s[k - 1].1)))
    }
}

impl View for JsonValue {
    type V = Json;

    open spec fn view(&self) -> Json {
        json_view(*self)
    }
}

pub proof fn lemma_items_view(s: Seq<JsonValue>, k: nat)
    requires
        k <= s.len(),
    ensures
        items_view(s, k).len() == k,
        forall|i: int| 0 <= i < k ==> #[trigger] items_view(s, k)[i] == json_view(s[i]),
    decreases k,
{
    if k > 0 {
        lemma_items_view(s, (k - 1) as nat);
    }
}

pub proof fn lemma_members_view(s: Seq<(String, JsonValue)>, k: nat)
    requires
        k <= s.len(),
    ensures
        members_view(s, k).len() == k,
        forall|i: int| 0 <= i < k ==> #[trigger] members_view(s, k)[i] == (s[i].0@, json_view(s[i].1)),
    decreases k,
{
    if k > 0 {
        lemma_members_view(s, (k - 1) as nat);
    }
}

/// The value of the first member named `key`.
pub open spec fn lookup(ms: Seq<(Seq<char>, Json)>, key: Seq<char>) -> Option<Json>
    decreases ms.len(),
{
    if ms.len() == 0 {
        None
    } else if ms[0].0 == key {
        Some(ms[0].1)
    } else {
        lookup(ms.drop_first(), key)
    }
}

/// The member `key` of an object; nothing for other values.
pub open spec fn jget(j: Json, key: Seq<char>) -> Option<Json> {
    match j {
        Json::Object(ms) => lookup(ms, key),
        _ => None,
    }
}

/// The text of a string value.
pub open spec fn jstr(j: Json) -> Option<Seq<char>> {
    match j {
        Json::String(s) => Some(s),
        _ => None,
    }
}

/// The elements of an array value.
pub open spec fn jarr(j: Json) -> Option<Seq<Json>> {
    match j {
        Json::Array(a) => Some(a),
        _ => None,
    }
}

/// An integer value that fits an `i64`.
pub open spec fn ji64(j: Json) -> Option<int> {
    match j {
        Json::Number(NumberView::PosInt(u)) => if u <= i64::MAX {
            Some(u as int)
        } else {
            None
        },
        Json::Number(NumberView::NegInt(i)) => Some(i as int),
        _ => None,
    }
}

/// The value of a boolean.
pub open spec fn jbool(j: Json) -> Option<bool> {
    match j {
        Json::Bool(b) => Some(b),
        _ => None,
    }
}

/// The member `key` of an object value, if it has one.
pub open spec fn member(j: Option<Json>, key: Seq<char>) -> Option<Json> {
    match j {
        Some(v) => jget(v, key),
        None => None,
    }
}

proof fn lemma_lookup_skip(ms: Seq<(Seq<char>, Json)>, key: Seq<char>, i: int)
    requires
        0 <= i < ms.len(),
        ms[i].0 != key,
    ensures
        lookup(ms.skip(i), key) == lookup(ms.skip(i + 1), key),
{
    assert(ms.skip(i).drop_first() =~= ms.skip(i + 1));
}

impl JsonNumber {
    /// A copy of this number.
    pub fn duplicate(&self) -> (r: JsonNumber)
        ensures
            r@ == self@,
    {
        match self {
            JsonNumber::PosInt(u) => JsonNumber::PosInt(*u),
            JsonNumber::NegInt(i) => JsonNumber::NegInt(*i),
            JsonNumber::Float(s) => JsonNumber::Float(s.clone()),
        }
    }
}

impl JsonValue {
    /// The member `key` of an object; nothing for other values.
    pub fn get(&self, key: &str) -> (r: Option<&JsonValue>)
        ensures
            match r {
                Some(v) => jget(self@, key@) == Some(v@),
                None => jget(self@, key@) is None,
            },
    {
        match self {
            JsonValue::Object(m) => {
                let n = m.len();
                let ghost ms = members_view(m@, m@.len());
                proof {
                    lemma_members_view(m@, m@.len());
                    assert(ms.skip(0) =~= ms);
                }
                for i in 0..n
                    invariant
                        n == m@.len(),
                        ms == members_view(m@, m@.len()),
                        ms.len() == n,
                        forall|j: int| 0 <= j < n ==> #[trigger] ms[j] == (m@[j].0@, json_view(m@[j].1)),
                        self@ == Json::Object(ms),
                        lookup(ms, key@) == lookup(ms.skip(i as int), key@),
                {
                    if crate::text::str_eq(m[i].0.as_str(), key) {
                        assert(ms.skip(i as int)[0] == ms[i as int]);
                        return Some(&m[i].1);
                    }
                    proof {
                        lemma_lookup_skip(ms, key@, i as int);
                    }
                }
                assert(ms.skip(n as int).len() == 0);
                None
            },
            _ => None,
        }
    }

    /// The text of a string value.
    pub fn as_str(&self) -> (r: Option<&str>)
        ensures
            match r {
                Some(s) => jstr(self@) == Some(s@),
                None => jstr(self@) is None,
            },
    {
        match self {
            JsonValue::String(s) => Some(s.as_str()),
            _ => None,
        }
    }

    /// An integer value that fits an `i64`.
    pub fn as_i64(&self) -> (r: Option<i64>)
        ensures
            match r {
                Some(i) => ji64(self@) == Some(i as int),
                None => ji64(self@) is None,
            },
    {
        match self {
            JsonValue::Number(JsonNumber::PosInt(u)) => {
                if *u <= i64::MAX as u64 {
                    Some(*u as i64)
                } else {
                    None
                }
            },
            JsonValue::Number(JsonNumber::NegInt(i)) => Some(*i),
            _ => None,
        }
    }

    /// The value of a boolean.
    pub fn as_bool(&self) -> (r: Option<bool>)
        ensures
            match r {
                Some(b) => jbool(self@) == Some(b),
                None => jbool(self@) is None,
            },
    {
        match self {
            JsonValue::Bool(b) => Some(*b),
            _ => None,
        }
    }

    /// A deep copy of this value.
    pub fn duplicate(&self) -> (r: JsonValue)
        ensures
            r@ == self@,
    {
        duplicate_value(self)
    }
}

/// A deep copy of `v`.
fn duplicate_value(v: &JsonValue) -> (r: JsonValue)
    ensures
        r@ == v@,
    decreases v,
{
    match v {
        JsonValue::Null => JsonValue::Null,
        JsonValue::Bool(b) => JsonValue::Bool(*b),
        JsonValue::Number(n) => JsonValue::Number(n.duplicate()),
        JsonValue::String(s) => JsonValue::String(s.clone()),
        JsonValue::Array(a) => {
            let n = a.len();
            let mut out: Vec<JsonValue> = Vec::new();
            for i in 0..n
                invariant
                    n == a@.len(),
                    *v == JsonValue::Array(*a),
                    out@.len() == i,
                    forall|j: int| 0 <= j < i ==> json_view(#[trigger] out@[j]) == json_view(a@[j]),
            {
                proof {
                    vstd::std_specs::vec::axiom_vec_index_decreases(*a, i as int);
                    assert(v->Array_0 == *a);
                    assert(decreases_to!(*v => v->Array_0));
                }
                let c = duplicate_value(&a[i]);
                out.push(c);
            }
            proof {
                lemma_items_view(a@, n as nat);
                lemma_items_view(out@, n as nat);
                assert(items_view(out@, n as nat) =~= items_view(a@, n as nat));
            }
            JsonValue::Array(out)
        },
        JsonValue::Object(m) => {
            let n = m.len();
            let mut out: Vec<(String, JsonValue)> = Vec::new();
            for i in 0..n
                invariant
                    n == m@.len(),
                    *v == JsonValue::Object(*m),
                    out@.len() == i,
                    forall|j: int|
                        0 <= j < i ==> (#[trigger] out@[j]).0@ == m@[j].0@ && json_view(out@[j].1)
                            == json_view(m@[j].1),
            {
                proof {
                    vstd::std_specs::vec::axiom_vec_index_decreases(*m, i as int);
                    assert(v->Object_0 == *m);
                    assert(decreases_to!(*v => v->Object_0));
                    assert(decreases_to!(m[i as int] => m[i as int].1));
                }
                let c = duplicate_value(&m[i].1);
                out.push((m[i].0.clone(), c));
            }
            proof {
                lemma_members_view(m@, n as nat);
                lemma_members_view(out@, n as nat);
                assert(members_view(out@, n as nat) =~= members_view(m@, n as nat));
            }
            JsonValue::Object(out)
        },
    }
}

} // verus!
