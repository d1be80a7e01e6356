//! JSON values, as `serde_json` reads and writes them.

use crate::error::{Error, ErrorView};
use crate::text::{blank, same_text};
use vstd::prelude::*;

verus! {

/// A number as `serde_json` holds it.
#[verifier::external_type_specification]
#[verifier::external_body]
pub struct ExNumber(serde_json::Number);

/// A JSON value as `serde_json` holds it, before it is taken over as a `Json`.
#[verifier::external_type_specification]
#[verifier::external_body]
pub struct ExValue(serde_json::Value);

/// A number that is no integer: one that was read, and of which neither
/// `Number::as_u64` nor `Number::as_i64` gave a number. `from_value` alone makes one.
#[derive(Debug)]
pub struct Fraction {
    number: serde_json::Number,
}

/// A JSON value.
#[derive(Debug)]
pub enum Json {
    Null,
    Bool(bool),
    Unsigned(u64),
    Signed(i64),
    Fraction(Fraction),
    Text(String),
    Array(Vec<Json>),
    /// The fields; of fields with the same name the last one counts.
    Object(Vec<(String, Json)>),
}

/// A JSON value as its contents.
pub enum JsonView {
    Null,
    Bool(bool),
    Integer(int),
    Fraction(Fraction),
    Text(Seq<char>),
    Array(Seq<JsonView>),
    Object(Map<Seq<char>, JsonView>),
}

/// The contents of a JSON value.
pub open spec fn json_view(j: Json) -> JsonView
    decreases j,
{
    match j {
        Json::Null => JsonView::Null,
        Json::Bool(b) => JsonView::Bool(b),
        Json::Unsigned(n) => JsonView::Integer(n as int),
        Json::Signed(n) => JsonView::Integer(n as int),
        Json::Fraction(n) => JsonView::Fraction(n),
        Json::Text(s) => JsonView::Text(s@),
        Json::Array(v) => JsonView::Array(items(v@)),
        Json::Object(v) => JsonView::Object(fields(v@)),
    }
}

/// The contents of the items of an array.
pub open spec fn items(v: Seq<Json>) -> Seq<JsonView>
    decreases v,
{
    if v.len() == 0 {
        Seq::empty()
    } else {
        items(v.drop_last()).push(json_view(v.last()))
    }
}

/// The contents of the fields of an object.
pub open spec fn fields(v: Seq<(String, Json)>) -> Map<Seq<char>, JsonView>
    decreases v,
{
    if v.len() == 0 {
        Map::empty()
    } else {
        fields(v.drop_last()).insert(v.last().0@, json_view(v.last().1))
    }
}

impl View for Json {
    type V = JsonView;

    open spec fn view(&self) -> JsonView {
        json_view(*self)
    }
}

impl JsonView {
    /// The value of the field `name`, if this is an object that has it.
    pub open spec fn field(self, name: Seq<char>) -> Option<JsonView> {
        match self {
            JsonView::Object(m) => if m.contains_key(name) {
                Some(m[name])
            } else {
                None
            },
            _ => None,
        }
    }

    /// The text, if this is one.
    pub open spec fn text(self) -> Option<Seq<char>> {
        match self {
            JsonView::Text(s) => Some(s),
            _ => None,
        }
    }

    /// The text of the field `name`, if this is an object that has one.
    pub open spec fn field_text(self, name: Seq<char>) -> Option<Seq<char>> {
        match self.field(name) {
            Some(v) => v.text(),
            None => None,
        }
    }
}

pub proof fn lemma_fields_without(v: Seq<(String, Json)>, name: Seq<char>)
    requires
        forall|k: int| 0 <= k < v.len() ==> (#[trigger] v[k]).0@ != name,
    ensures
        !fields(v).contains_key(name),
    decreases v.len(),
{
    if v.len() > 0 {
        let t = v.drop_last();
        assert forall|k: int| 0 <= k < t.len() implies (#[trigger] t[k]).0@ != name by {
            assert(t[k] == v[k]);
        }
        lemma_fields_without(t, name);
        assert(v[v.len() - 1].0@ != name);
    }
}

/// The last field with a name is the one that counts.
pub proof fn lemma_last_field(v: Seq<(String, Json)>, name: Seq<char>, i: int)
    requires
        0 <= i < v.len(),
        v[i].0@ == name,
        forall|k: int| i < k < v.len() ==> (#[trigger] v[k]).0@ != name,
    ensures
        fields(v).contains_key(name),
        fields(v)[name] == v[i].1@,
    decreases v.len(),
{
    if i < v.len() - 1 {
        let t = v.drop_last();
        assert(t[i] == v[i]);
        assert forall|k: int| i < k < t.len() implies (#[trigger] t[k]).0@ != name by {
            assert(t[k] == v[k]);
        }
        lemma_last_field(t, name, i);
        assert(v[v.len() - 1].0@ != name);
    }
}

impl Json {
    /// The value of the field `name`, if this is an object that has it.
    pub fn field(&self, name: &str) -> (r: Option<&Json>)
        ensures
            match r {
                Some(v) => self@.field(name@) == Some(v@),
                None => self@.field(name@) is None,
            },
    {
        match self {
            Json::Object(v) => {
                let mut i: usize = v.len();
                while i > 0
                    invariant
                        i <= v@.len(),
                        forall|k: int| i <= k < v@.len() ==> (#[trigger] v@[k]).0@ != name@,
                        self@ == JsonView::Object(fields(v@)),
                    decreases i,
                {
                    i -= 1;
                    if same_text(v[i].0.as_str(), name) {
                        proof {
                            lemma_last_field(v@, name@, i as int);
                        }
                        return Some(&v[i].1);
                    }
                }
                proof {
                    lemma_fields_without(v@, name@);
                }
                None
            },
            _ => None,
        }
    }

    /// The text, if this is one.
    pub fn text(&self) -> (r: Option<&str>)
        ensures
            match r {
                Some(s) => self@.text() == Some(s@),
                None => self@.text() is None,
            },
    {
        match self {
            Json::Text(s) => Some(s.as_str()),
            _ => None,
        }
    }

    /// The text of the field `name`, if this is an object that has one.
    pub fn field_text(&self, name: &str) -> (r: Option<&str>)
        ensures
            match r {
                Some(s) => self@.field_text(name@) == Some(s@),
                None => self@.field_text(name@) is None,
            },
    {
        match self.field(name) {
            Some(v) => v.text(),
            None => None,
        }
    }
}

/// What a `serde_json::Value` holds.
pub uninterp spec fn value_holds(v: serde_json::Value) -> JsonView;

/// What `serde_json::from_str` reads from a text: a value, or else the reason why
/// the text is not JSON.
pub uninterp spec fn json_parsed(raw: Seq<char>) -> Result<JsonView, Seq<char>>;

/// What `serde_json::to_string_pretty` writes for a value.
pub uninterp spec fn json_pretty(v: JsonView) -> Seq<char>;

/// Whether nothing in a value is nested more than `depth` deep.
pub open spec fn nests(v: JsonView, depth: nat) -> bool
    decreases depth,
{
    match v {
        JsonView::Array(s) => depth > 0 && forall|i: int|
            0 <= i < s.len() ==> nests(#[trigger] s[i], (depth - 1) as nat),
        JsonView::Object(m) => depth > 0 && forall|k: Seq<char>| #[trigger]
            m.contains_key(k) ==> nests(m[k], (depth - 1) as nat),
        _ => true,
    }
}

/// Whether all numbers in a value, as far as `depth` deep, are integers.
pub open spec fn integers_to(v: JsonView, depth: nat) -> bool
    decreases depth,
{
    match v {
        JsonView::Fraction(_) => false,
        JsonView::Array(s) => depth > 0 ==> forall|i: int|
            0 <= i < s.len() ==> integers_to(#[trigger] s[i], (depth - 1) as nat),
        JsonView::Object(m) => depth > 0 ==> forall|k: Seq<char>| #[trigger]
            m.contains_key(k) ==> integers_to(m[k], (depth - 1) as nat),
        _ => true,
    }
}

/// Whether all numbers in a value are integers.
pub open spec fn integers_only(v: JsonView) -> bool {
    forall|depth: nat| #[trigger] integers_to(v, depth)
}

/// How deep the values are nested that are read.
pub const MAX_DEPTH: u64 = 127;

/// Whether a text, with or without a line end behind it, is read as the value.
pub open spec fn reads_as(s: Seq<char>, v: JsonView) -> bool {
    json_parsed(s) == Ok::<JsonView, Seq<char>>(v) && json_parsed(s.push('\n')) == Ok::<
        JsonView,
        Seq<char>,
    >(v)
}

/// Whether two values are the same, as far as `depth` deep, but for which numbers
/// those are that are no integers.
pub open spec fn alike_to(v: JsonView, w: JsonView, depth: nat) -> bool
    decreases depth,
{
    match (v, w) {
        (JsonView::Fraction(_), JsonView::Fraction(_)) => true,
        (JsonView::Array(s), JsonView::Array(t)) => {
            &&& s.len() == t.len()
            &&& depth > 0 ==> forall|i: int|
                0 <= i < s.len() ==> alike_to(#[trigger] s[i], t[i], (depth - 1) as nat)
        },
        (JsonView::Object(m), JsonView::Object(n)) => {
            &&& m.dom() == n.dom()
            &&& depth > 0 ==> forall|k: Seq<char>| #[trigger]
                m.contains_key(k) ==> alike_to(m[k], n[k], (depth - 1) as nat)
        },
        _ => v == w,
    }
}

/// Whether two values are the same, but for which numbers those are that are no
/// integers.
pub open spec fn alike(v: JsonView, w: JsonView) -> bool {
    forall|depth: nat| #[trigger] alike_to(v, w, depth)
}

/// Whether a text, if it is read as a value, is read as one that is alike.
pub open spec fn reads_alike(s: Seq<char>, v: JsonView) -> bool {
    json_parsed(s) matches Ok(w) ==> alike(v, w)
}

/// Takes over what a `serde_json::Value` holds, item by item and field by field. A
/// number is one of the three kinds that `Number::as_u64` and `Number::as_i64` tell
/// apart.
#[verifier::external_body]
fn from_value(v: serde_json::Value) -> (r: Json)
    ensures
        r@ == value_holds(v),
{
    match v {
        serde_json::Value::Null => Json::Null,
        serde_json::Value::Bool(b) => Json::Bool(b),
        serde_json::Value::Number(n) => match (n.as_u64(), n.as_i64()) {
            (Some(u), _) => Json::Unsigned(u),
            (None, Some(i)) => Json::Signed(i),
            (None, None) => Json::Fraction(Fraction { number: n }),
        },
        serde_json::Value::String(s) => Json::Text(s),
        serde_json::Value::Array(a) => Json::Array(a.into_iter().map(from_value).collect()),
        serde_json::Value::Object(m) => {
            Json::Object(m.into_iter().map(|(k, x)| (k, from_value(x))).collect())
        },
    }
}

/// Makes a `serde_json::Value` that holds the value, item by item and field by
/// field; of fields with the same name, its map keeps the last.
#[verifier::external_body]
fn to_value(v: &Json) -> (r: serde_json::Value)
    ensures
        value_holds(r) == v@,
{
    match v {
        Json::Null => serde_json::Value::Null,
        Json::Bool(b) => serde_json::Value::Bool(*b),
        Json::Unsigned(u) => serde_json::Value::Number(serde_json::Number::from(*u)),
        Json::Signed(i) => serde_json::Value::Number(serde_json::Number::from(*i)),
        Json::Fraction(f) => serde_json::Value::Number(f.number.clone()),
        Json::Text(s) => serde_json::Value::String(s.clone()),
        Json::Array(a) => serde_json::Value::Array(a.iter().map(to_value).collect()),
        Json::Object(m) => {
            serde_json::Value::Object(m.iter().map(|(k, x)| (k.clone(), to_value(x))).collect())
        },
    }
}

/// `serde_json::from_str`: reads a value from a text, or says why the text is not
/// JSON. Both depend on the text alone. A text whose values are nested more than
/// `MAX_DEPTH` deep is refused.
#[verifier::external_body]
fn read_value(raw: &str) -> (r: Result<serde_json::Value, String>)
    ensures
        match r {
            Ok(v) => json_parsed(raw@) == Ok::<JsonView, Seq<char>>(value_holds(v)) && nests(
                value_holds(v),
                MAX_DEPTH as nat,
            ),
            Err(why) => json_parsed(raw@) == Err::<JsonView, Seq<char>>(why@),
        },
{
    serde_json::from_str(raw).map_err(|e| e.to_string())
}

/// `serde_json::to_string_pretty`: writes a value as text, which depends on what
/// the value holds alone. Any value can be written. One whose numbers are integers,
/// and that is not nested too deeply for the reader, reads back, also with a line end
/// behind it; of other numbers that is not claimed, since the reader may round them.
/// Such a number is written with a point or an exponent, so where the text is read at
/// all, it stays one that is no integer, and everything else is as it was. No value is
/// written as white space alone.
#[verifier::external_body]
fn write_value(v: &serde_json::Value) -> (r: Result<String, String>)
    ensures
        match r {
            Ok(s) => s@ == json_pretty(value_holds(*v)) && !blank(s@),
            Err(_) => false,
        },
        match r {
            Ok(s) => nests(value_holds(*v), MAX_DEPTH as nat) && integers_only(value_holds(*v))
                ==> reads_as(s@, value_holds(*v)),
            Err(_) => false,
        },
        match r {
            Ok(s) => reads_alike(s@, value_holds(*v)) && reads_alike(
                s@.push('\n'),
                value_holds(*v),
            ),
            Err(_) => false,
        },
{
    serde_json::to_string_pretty(v).map_err(|e| e.to_string())
}

impl Json {
    /// Reads a value from a text.
    pub fn parse(raw: &str) -> (r: Result<Json, Error>)
        ensures
            match r {
                Ok(v) => json_parsed(raw@) == Ok::<JsonView, Seq<char>>(v@) && nests(
                    v@,
                    MAX_DEPTH as nat,
                ),
                Err(e) => json_parsed(raw@) matches Err(why) && e@ == ErrorView::BadJson(why),
            },
    {
        match read_value(raw) {
            Ok(v) => Ok(from_value(v)),
            Err(why) => Err(Error::BadJson(why)),
        }
    }

    /// Writes the value as text, on several lines.
    pub fn pretty(&self) -> (r: String)
        ensures
            r@ == json_pretty(self@),
            !blank(r@),
            nests(self@, MAX_DEPTH as nat) && integers_only(self@) ==> reads_as(r@, self@),
            reads_alike(r@, self@),
            reads_alike(r@.push('\n'), self@),
    {
        match write_value(&to_value(self)) {
            Ok(s) => s,
            Err(_) => String::new(),
        }
    }
}

/// Values are read that are nested up to 127 deep. Arrays and objects are nested, each one
/// deeper than what it holds, and nothing else is.
pub proof fn arrays_and_objects_are_nested(v: JsonView, depth: nat)
    requires
        depth > 0,
    ensures
        MAX_DEPTH == 127,
        v !is Array && v !is Object ==> nests(v, 0),
        v is Array || v is Object ==> !nests(v, 0),
        v is Array ==> (nests(v, depth) <==> forall|i: int|
            0 <= i < v->Array_0.len() ==> nests(#[trigger] v->Array_0[i], (depth - 1) as nat)),
        v is Object ==> (nests(v, depth) <==> forall|k: Seq<char>| #[trigger]
            v->Object_0.contains_key(k) ==> nests(v->Object_0[k], (depth - 1) as nat)),
{
    let below = (depth - 1) as nat;
    if v is Array && nests(v, depth) {
        let s = v->Array_0;
        assert forall|i: int| 0 <= i < s.len() implies nests(#[trigger] s[i], below) by {
            assert(nests(s[i], below));
        }
    }
    if v is Object && nests(v, depth) {
        let m = v->Object_0;
        assert forall|k: Seq<char>| #[trigger] m.contains_key(k) implies nests(m[k], below) by {
            assert(nests(m[k], below));
        }
    }
}

} // verus!
