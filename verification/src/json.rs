//! JSON values, as far as the logic reads them.

use crate::text;
use vstd::prelude::*;

verus! {

/// A JSON value.
pub enum Json {
    Null,
    Bool(bool),
    /// The value if it is a whole number that fits.
    Number(Option<u64>),
    Text(String),
    Array(Vec<Json>),
    Object(Vec<(String, Json)>),
}

/// A JSON value, with its strings as text.
pub enum JsonView {
    Null,
    Bool(bool),
    Number(Option<u64>),
    Text(Seq<char>),
    Array(Seq<JsonView>),
    Object(Seq<(Seq<char>, JsonView)>),
}

/// A JSON value, with its strings as text.
pub open spec fn json_view(j: Json) -> JsonView
    decreases j,
{
    match j {
        Json::Null => JsonView::Null,
        Json::Bool(b) => JsonView::Bool(b),
        Json::Number(n) => JsonView::Number(n),
        Json::Text(s) => JsonView::Text(s@),
        Json::Array(v) => JsonView::Array(
            Seq::new(
                v@.len(),
                |i: int|
                    if 0 <= i < v@.len() {
                        json_view(v@[i])
                    } else {
                        JsonView::Null
                    },
            ),
        ),
        Json::Object(v) => JsonView::Object(
            Seq::new(
                v@.len(),
                |i: int|
                    if 0 <= i < v@.len() {
                        (v@[i].0@, json_view(v@[i].1))
                    } else {
                        (Seq::empty(), JsonView::Null)
                    },
            ),
        ),
    }
}

impl View for Json {
    type V = JsonView;

    open spec fn view(&self) -> JsonView {
        json_view(*self)
    }
}

/// The member of an object; null if there is none, or if the value is no object.
pub open spec fn member(j: JsonView, key: Seq<char>) -> JsonView {
    match j {
        JsonView::Object(s) => member_from(s, key),
        _ => JsonView::Null,
    }
}

/// The value of the first entry with the key.
pub open spec fn member_from(s: Seq<(Seq<char>, JsonView)>, key: Seq<char>) -> JsonView
    decreases s.len(),
{
    if s.len() == 0 {
        JsonView::Null
    } else if s[0].0 == key {
        s[0].1
    } else {
        member_from(s.drop_first(), key)
    }
}

/// The string in a value, if it is one.
pub open spec fn string_in(j: JsonView) -> Option<Seq<char>> {
    match j {
        JsonView::Text(s) => Some(s),
        _ => None,
    }
}

/// The number in a value, if it is one that fits.
pub open spec fn number_in(j: JsonView) -> Option<u64> {
    match j {
        JsonView::Number(n) => n,
        _ => None,
    }
}

/// The truth value in a value, if it is one.
pub open spec fn bool_in(j: JsonView) -> Option<bool> {
    match j {
        JsonView::Bool(b) => Some(b),
        _ => None,
    }
}

/// The string in an optional slice.
pub open spec fn slice_view(o: Option<&str>) -> Option<Seq<char>> {
    match o {
        Some(s) => Some(s@),
        None => None,
    }
}

impl Json {
    /// The member of an object, if the value is an object and has it.
    pub fn get(&self, key: &str) -> (r: Option<&Json>)
        ensures
            member(self@, key@) == match r {
                Some(j) => j@,
                None => JsonView::Null,
            },
    {
        match self {
            Json::Object(v) => {
                let ghost s = self@->Object_0;
                assert(s.skip(0) =~= s);
                let mut i: usize = 0;
                while i < v.len()
                    invariant
                        i <= v.len(),
                        *self == Json::Object(*v),
                        self@ == JsonView::Object(s),
                        s.len() == v@.len(),
                        member_from(s, key@) == member_from(s.skip(i as int), key@),
                    decreases v.len() - i,
                {
                    assert(s[i as int] == (v@[i as int].0@, json_view(v@[i as int].1)));
                    assert(s.skip(i as int)[0] == s[i as int]);
                    assert(s.skip(i as int).drop_first() =~= s.skip(i + 1));
                    if text::same(v[i].0.as_str(), key) {
                        return Some(&v[i].1);
                    }
                    i += 1;
                }
                None
            },
            _ => None,
        }
    }

    /// The string, if the value is one.
    pub fn as_str(&self) -> (r: Option<&str>)
        ensures
            slice_view(r) == string_in(self@),
    {
        match self {
            Json::Text(s) => Some(s.as_str()),
            _ => None,
        }
    }

    /// The number, if the value is one that fits.
    pub fn as_u64(&self) -> (r: Option<u64>)
        ensures
            r == number_in(self@),
    {
        match self {
            Json::Number(n) => *n,
            _ => None,
        }
    }

    /// The truth value, if the value is one.
    pub fn as_bool(&self) -> (r: Option<bool>)
        ensures
            r == bool_in(self@),
    {
        match self {
            Json::Bool(b) => Some(*b),
            _ => None,
        }
    }

    /// The string of a member, if it has one.
    pub fn text_of(&self, key: &str) -> (r: Option<&str>)
        ensures
            slice_view(r) == string_in(member(self@, key@)),
    {
        match self.get(key) {
            Some(j) => j.as_str(),
            None => None,
        }
    }

    /// The number of a member, if it has one that fits.
    pub fn number_of(&self, key: &str) -> (r: Option<u64>)
        ensures
            r == number_in(member(self@, key@)),
    {
        match self.get(key) {
            Some(j) => j.as_u64(),
            None => None,
        }
    }

    /// The truth value of a member, if it has one.
    pub fn bool_of(&self, key: &str) -> (r: Option<bool>)
        ensures
            r == bool_in(member(self@, key@)),
    {
        match self.get(key) {
            Some(j) => j.as_bool(),
            None => None,
        }
    }
}

/// A value of `serde_json`.
#[verifier::external_type_specification]
#[verifier::external_body]
pub struct ExValue(serde_json::Value);

/// What a `serde_json::Value` holds.
pub uninterp spec fn value_content(v: serde_json::Value) -> JsonView;

/// What `serde_json::from_str` reads in a text: a value, or the message of its error.
pub uninterp spec fn read_text(s: Seq<char>) -> Result<JsonView, Seq<char>>;

/// What `serde_json::from_str` reads in a text that has to be an array: its items, or
/// the message of its error.
pub uninterp spec fn read_array_text(s: Seq<char>) -> Result<Seq<JsonView>, Seq<char>>;

/// `serde_json::from_str` into a value, named by `read_text`; its error as text.
#[verifier::external_body]
fn parse_value(s: &str) -> (r: Result<serde_json::Value, String>)
    ensures
        match (r, read_text(s@)) {
            (Ok(v), Ok(j)) => value_content(v) == j,
            (Err(e), Err(m)) => e@ == m,
            _ => false,
        },
{
    serde_json::from_str(s).map_err(|e: serde_json::Error| e.to_string())
}

/// `serde_json::from_str` into a list of values, named by `read_array_text`; its error
/// as text.
#[verifier::external_body]
fn parse_values(s: &str) -> (r: Result<Vec<serde_json::Value>, String>)
    ensures
        match (r, read_array_text(s@)) {
            (Ok(v), Ok(j)) => v@.map_values(|x: serde_json::Value| value_content(x)) == j,
            (Err(e), Err(m)) => e@ == m,
            _ => false,
        },
{
    serde_json::from_str(s).map_err(|e: serde_json::Error| e.to_string())
}

/// A `serde_json::Value` with its outermost layer opened.
enum Opened<'a> {
    Null,
    Bool(bool),
    Number(Option<u64>),
    Text(&'a String),
    Array(&'a Vec<serde_json::Value>),
    Object(Vec<(&'a String, &'a serde_json::Value)>),
}

/// What an opened value holds.
spec fn opened_content(o: Opened) -> JsonView {
    match o {
        Opened::Null => JsonView::Null,
        Opened::Bool(b) => JsonView::Bool(b),
        Opened::Number(n) => JsonView::Number(n),
        Opened::Text(s) => JsonView::Text(s@),
        Opened::Array(a) => JsonView::Array(
            Seq::new(a@.len(), |i: int| value_content(a@[i])),
        ),
        Opened::Object(o) => JsonView::Object(
            Seq::new(o@.len(), |i: int| (o@[i].0@, value_content(*o@[i].1))),
        ),
    }
}

/// The variant of a `serde_json::Value`, one for one: a number by
/// `serde_json::Number::as_u64`, and an object by its entries in the order of
/// `serde_json::Map::iter`. What the value and its parts hold is named by
/// `value_content`.
#[verifier::external_body]
fn open_value<'a>(v: &'a serde_json::Value) -> (r: Opened<'a>)
    ensures
        opened_content(r) == value_content(*v),
{
    match v {
        serde_json::Value::Null => Opened::Null,
        serde_json::Value::Bool(b) => Opened::Bool(*b),
        serde_json::Value::Number(n) => Opened::Number(n.as_u64()),
        serde_json::Value::String(s) => Opened::Text(s),
        serde_json::Value::Array(a) => Opened::Array(a),
        serde_json::Value::Object(o) => Opened::Object(o.iter().collect()),
    }
}

/// The value that a `serde_json::Value` holds.
fn copy_value(v: &serde_json::Value) -> (r: Json)
    ensures
        r@ == value_content(*v),
    decreases value_content(*v),
{
    let opened = open_value(v);
    match opened {
        Opened::Null => Json::Null,
        Opened::Bool(b) => Json::Bool(b),
        Opened::Number(n) => Json::Number(n),
        Opened::Text(s) => Json::Text(s.clone()),
        Opened::Array(a) => {
            let ghost s = value_content(*v)->Array_0;
            let mut out: Vec<Json> = Vec::new();
            let mut i: usize = 0;
            while i < a.len()
                invariant
                    i <= a.len(),
                    out@.len() == i,
                    value_content(*v) == JsonView::Array(s),
                    s == Seq::new(a@.len(), |k: int| value_content(a@[k])),
                    forall|k: int| 0 <= k < i ==> json_view(#[trigger] out@[k]) == s[k],
                decreases a.len() - i,
            {
                proof {
                    assert(s[i as int] == value_content(a@[i as int]));
                    let c = value_content(*v);
                    assert(decreases_to!(c => c->Array_0));
                    assert(decreases_to!(s => s[i as int]));
                }
                let x = copy_value(&a[i]);
                out.push(x);
                i += 1;
            }
            let r = Json::Array(out);
            assert(r@->Array_0 =~= s);
            r
        },
        Opened::Object(o) => {
            let ghost s = value_content(*v)->Object_0;
            let mut out: Vec<(String, Json)> = Vec::new();
            let mut i: usize = 0;
            while i < o.len()
                invariant
                    i <= o.len(),
                    out@.len() == i,
                    value_content(*v) == JsonView::Object(s),
                    s == Seq::new(o@.len(), |k: int| (o@[k].0@, value_content(*o@[k].1))),
                    forall|k: int|
                        0 <= k < i ==> (#[trigger] out@[k]).0@ == s[k].0 && json_view(out@[k].1)
                            == s[k].1,
                decreases o.len() - i,
            {
                proof {
                    assert(s[i as int] == (o@[i as int].0@, value_content(*o@[i as int].1)));
                    let c = value_content(*v);
                    assert(decreases_to!(c => c->Object_0));
                    assert(decreases_to!(s => s[i as int]));
                    assert(decreases_to!(s[i as int] => s[i as int].1));
                }
                let x = copy_value(o[i].1);
                out.push((o[i].0.clone(), x));
                i += 1;
            }
            let r = Json::Object(out);
            assert(r@->Object_0 =~= s);
            r
        },
    }
}

/// Reads a JSON text.
pub fn read(s: &str) -> (r: Result<Json, String>)
    ensures
        match (r, read_text(s@)) {
            (Ok(j), Ok(v)) => j@ == v,
            (Err(e), Err(m)) => e@ == m,
            _ => false,
        },
{
    match parse_value(s) {
        Ok(v) => Ok(copy_value(&v)),
        Err(e) => Err(e),
    }
}

/// Reads a JSON text that has to be an array.
pub fn read_array(s: &str) -> (r: Result<Vec<Json>, String>)
    ensures
        match (r, read_array_text(s@)) {
            (Ok(j), Ok(v)) => text::views(j@) == v,
            (Err(e), Err(m)) => e@ == m,
            _ => false,
        },
{
    match parse_values(s) {
        Ok(v) => {
            let ghost all = v@.map_values(|x: serde_json::Value| value_content(x));
            let mut r: Vec<Json> = Vec::new();
            let mut i: usize = 0;
            assert(text::views(r@) =~= all.take(0));
            while i < v.len()
                invariant
                    i <= v.len(),
                    all == v@.map_values(|x: serde_json::Value| value_content(x)),
                    text::views(r@) == all.take(i as int),
                decreases v.len() - i,
            {
                let j = copy_value(&v[i]);
                proof {
                    all.lemma_take_succ_push(i as int);
                    text::lemma_views_push(r@, j);
                }
                r.push(j);
                i += 1;
            }
            assert(all.take(i as int) =~= all);
            Ok(r)
        },
        Err(e) => Err(e),
    }
}

/// A member is the first one with its key; what has no such member has nothing there.
pub proof fn law_the_first_member_counts(s: Seq<(Seq<char>, JsonView)>, key: Seq<char>, i: int)
    ensures
        0 <= i < s.len() && s[i].0 == key && (forall|j: int|
            0 <= j < i ==> (#[trigger] s[j]).0 != key) ==> member(JsonView::Object(s), key)
            == s[i].1,
        (forall|j: int| 0 <= j < s.len() ==> (#[trigger] s[j]).0 != key) ==> member(
            JsonView::Object(s),
            key,
        ) is Null,
        member(JsonView::Null, key) is Null,
    decreases s.len(),
{
    if s.len() > 0 {
        let rest = s.drop_first();
        law_the_first_member_counts(rest, key, i - 1);
        if i > 0 && i < s.len() {
            assert(rest[i - 1] == s[i]);
        }
        assert forall|j: int| 0 <= j < rest.len() implies #[trigger] rest[j] == s[j + 1] by {}
    }
}

/// A value is a text, a number or a truth value, and reads as nothing else.
pub proof fn law_values_read_as_what_they_are(s: Seq<char>, n: u64, b: bool)
    ensures
        string_in(JsonView::Text(s)) == Some(s),
        number_in(JsonView::Number(Some(n))) == Some(n),
        bool_in(JsonView::Bool(b)) == Some(b),
        string_in(JsonView::Number(Some(n))) is None,
        number_in(JsonView::Text(s)) is None,
        bool_in(JsonView::Text(s)) is None,
        string_in(JsonView::Null) is None,
        number_in(JsonView::Null) is None,
        bool_in(JsonView::Null) is None,
{
}

} // verus!
