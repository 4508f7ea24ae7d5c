//! JSON documents as plain values.

use vstd::prelude::*;

use crate::text::same_text;

verus! {

/// A JSON value. A number is kept as the text that it is printed with.
#[derive(Debug)]
pub enum JsonValue {
    Null,
    Bool(bool),
    Number(String),
    Text(String),
    Array(Vec<JsonValue>),
    Object(Vec<Member>),
}

/// A member of a JSON object.
#[derive(Debug)]
pub struct Member {
    pub name: String,
    pub value: JsonValue,
}

/// What a JSON value is.
pub enum Json {
    Null,
    Bool(bool),
    Number(Seq<char>),
    Text(Seq<char>),
    Array(Seq<Json>),
    Object(Seq<(Seq<char>, Json)>),
}

impl View for JsonValue {
    type V = Json;

    open spec fn view(&self) -> Json {
        json_view(*self)
    }
}

/// The model of a JSON value.
pub open spec fn json_view(v: JsonValue) -> Json
    decreases v,
{
    match v {
        JsonValue::Null => Json::Null,
        JsonValue::Bool(b) => Json::Bool(b),
        JsonValue::Number(n) => Json::Number(n@),
        JsonValue::Text(s) => Json::Text(s@),
        JsonValue::Array(items) => Json::Array(
            Seq::new(
                items@.len(),
                |i: int|
                    if 0 <= i < items@.len() {
                        json_view(items@[i])
                    } else {
                        Json::Null
                    },
            ),
        ),
        JsonValue::Object(members) => Json::Object(
            Seq::new(
                members@.len(),
                |i: int|
                    if 0 <= i < members@.len() {
                        (members@[i].name@, json_view(members@[i].value))
                    } else {
                        (Seq::empty(), Json::Null)
                    },
            ),
        ),
    }
}

/// The value of the first member with a name, from the member `i` on.
pub open spec fn member_from(members: Seq<(Seq<char>, Json)>, name: Seq<char>, i: int) -> Option<Json>
    decreases members.len() - i,
{
    if i < 0 || i >= members.len() {
        None
    } else if members[i].0 == name {
        Some(members[i].1)
    } else {
        member_from(members, name, i + 1)
    }
}

impl Json {
    /// The member of an object with a name; none for another value.
    pub open spec fn get(self, name: Seq<char>) -> Option<Json> {
        match self {
            Json::Object(members) => member_from(members, name, 0),
            _ => None,
        }
    }

    /// The text of a string; none for another value.
    pub open spec fn as_text(self) -> Option<Seq<char>> {
        match self {
            Json::Text(s) => Some(s),
            _ => None,
        }
    }

    /// The items of an array; none for another value.
    pub open spec fn as_items(self) -> Option<Seq<Json>> {
        match self {
            Json::Array(items) => Some(items),
            _ => None,
        }
    }

    /// The text of the member with a name.
    pub open spec fn get_text(self, name: Seq<char>) -> Option<Seq<char>> {
        match self.get(name) {
            Some(v) => v.as_text(),
            None => None,
        }
    }
}

impl JsonValue {
    /// The member of an object with a name; none for another value.
    pub fn get(&self, name: &str) -> (r: Option<&JsonValue>)
        ensures
            match r {
                Some(v) => self@.get(name@) == Some(v@),
                None => self@.get(name@) is None,
            },
    {
        match self {
            JsonValue::Object(members) => {
                let ghost all = self@->Object_0;
                let mut i: usize = 0;
                while i < members.len()
                    invariant
                        i <= members.len(),
                        self@ == Json::Object(all),
                        all.len() == members.len(),
                        forall|k: int|
                            0 <= k < members.len() ==> #[trigger] all[k] == (
                                members[k].name@,
                                members[k].value@,
                            ),
                        member_from(all, name@, 0) == member_from(all, name@, i as int),
                    decreases members.len() - i,
                {
                    assert(all[i as int] == (members[i as int].name@, members[i as int].value@));
                    if same_text(&members[i].name, name) {
                        return Some(&members[i].value);
                    }
                    i += 1;
                }
                None
            },
            _ => None,
        }
    }

    /// The text of a string; none for another value.
    pub fn as_text(&self) -> (r: Option<&String>)
        ensures
            match r {
                Some(s) => self@.as_text() == Some(s@),
                None => self@.as_text() is None,
            },
    {
        match self {
            JsonValue::Text(s) => Some(s),
            _ => None,
        }
    }

    /// The items of an array; none for another value.
    pub fn as_items(&self) -> (r: Option<&Vec<JsonValue>>)
        ensures
            match r {
                Some(items) => self@.as_items() == Some(
                    Seq::new(items@.len(), |i: int| items@[i]@),
                ),
                None => self@.as_items() is None,
            },
    {
        match self {
            JsonValue::Array(items) => {
                proof {
                    assert(self@->Array_0 =~= Seq::new(items@.len(), |i: int| items@[i]@));
                }
                Some(items)
            },
            _ => None,
        }
    }

    /// The text of the member with a name.
    pub fn get_text(&self, name: &str) -> (r: Option<&String>)
        ensures
            match r {
                Some(s) => self@.get_text(name@) == Some(s@),
                None => self@.get_text(name@) is None,
            },
    {
        match self.get(name) {
            Some(v) => v.as_text(),
            None => None,
        }
    }
}

/// A value as `serde_json` holds it.
#[verifier::external_type_specification]
#[verifier::external_body]
pub struct ExSerdeValue(serde_json::Value);

/// The value that `serde_json::from_str` reads from a text; none where it
/// reports an error.
pub uninterp spec fn json_read(text: Seq<char>) -> Option<Json>;

/// `serde_json::from_str`, read into a `serde_json::Value`: the value of a
/// JSON document, or none for a text that is not one.
#[verifier::external_body]
pub(crate) fn parse_json(text: &str) -> (r: Option<JsonValue>)
    ensures
        match r {
            Some(v) => json_read(text@) == Some(v@),
            None => json_read(text@) is None,
        },
{
    serde_json::from_str::<serde_json::Value>(text).ok().map(plain_value)
}

/// A `serde_json::Value` as a plain value: each variant by its own, an
/// object's members in the order in which `serde_json::Map` hands them out.
#[verifier::external_body]
fn plain_value(v: serde_json::Value) -> JsonValue {
    match v {
        serde_json::Value::Null => JsonValue::Null,
        serde_json::Value::Bool(b) => JsonValue::Bool(b),
        serde_json::Value::Number(n) => JsonValue::Number(n.to_string()),
        serde_json::Value::String(s) => JsonValue::Text(s),
        serde_json::Value::Array(a) => JsonValue::Array(a.into_iter().map(plain_value).collect()),
        serde_json::Value::Object(m) => JsonValue::Object(
            m.into_iter().map(|(k, w)| Member { name: k, value: plain_value(w) }).collect(),
        ),
    }
}

} // verus!
