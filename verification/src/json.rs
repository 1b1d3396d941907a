//! A JSON document as the library holds it, and the mathematical value that
//! contracts speak of. Objects keep their members in document order.
use vstd::prelude::*;

verus! {

/// A JSON number, told apart as the parser tells it apart: a non-negative
/// integer, a negative integer, or a finite double given by its IEEE-754 bits.
#[derive(Clone, Copy, Debug, PartialEq, Eq, Structural)]
pub enum JsonNumber {
    PosInt(u64),
    NegInt(i64),
    Float(u64),
}

/// A JSON document: arrays in order, objects as their members in document
/// order.
#[derive(Debug, PartialEq)]
pub enum JsonValue {
    Null,
    Bool(bool),
    Number(JsonNumber),
    String(String),
    Array(Vec<JsonValue>),
    Object(Vec<(String, JsonValue)>),
}

/// The value of a [`JsonValue`]: text as characters, arrays and objects as
/// sequences.
pub enum Json {
    Null,
    Bool(bool),
    Number(JsonNumber),
    Text(Seq<char>),
    Array(Seq<Json>),
    Object(Seq<(Seq<char>, Json)>),
}

/// The value of a document.
pub open spec fn json_of(v: JsonValue) -> Json
    decreases v,
{
    match v {
        JsonValue::Null => Json::Null,
        JsonValue::Bool(b) => Json::Bool(b),
        JsonValue::Number(n) => Json::Number(n),
        JsonValue::String(s) => Json::Text(s@),
        JsonValue::Array(items) => Json::Array(
            Seq::new(
                items@.len(),
                |i: int|
                    if 0 <= i < items@.len() {
                        json_of(items@[i])
                    } else {
                        Json::Null
                    },
            ),
        ),
        JsonValue::Object(members) => Json::Object(
            Seq::new(
                members@.len(),
                |i: int|
                    if 0 <= i < members@.len() {
                        (members@[i].0@, json_of(members@[i].1))
                    } else {
                        (Seq::empty(), Json::Null)
                    },
            ),
        ),
    }
}

impl View for JsonValue {
    type V = Json;

    open spec fn view(&self) -> Json {
        json_of(*self)
    }
}

/// Every object in the document has members of distinct names, as a JSON
/// object does.
pub open spec fn distinct_names(value: Json) -> bool
    decreases value,
{
    match value {
        Json::Array(items) => forall|k: int|
            0 <= k < items.len() ==> distinct_names(#[trigger] items[k]),
        Json::Object(members) => {
            &&& forall|a: int, b: int|
                0 <= a < b < members.len() ==> (#[trigger] members[a]).0 != (#[trigger] members[b]).0
            &&& forall|k: int| 0 <= k < members.len() ==> distinct_names(#[trigger] members[k].1)
        },
        _ => true,
    }
}

/// The values of a list of items.
pub open spec fn items_view(items: Seq<JsonValue>) -> Seq<Json> {
    Seq::new(items.len(), |i: int| items[i]@)
}

/// The names and values of a list of members.
pub open spec fn members_view(members: Seq<(String, JsonValue)>) -> Seq<(Seq<char>, Json)> {
    Seq::new(members.len(), |i: int| (members[i].0@, members[i].1@))
}

pub proof fn lemma_array_view(items: Vec<JsonValue>)
    ensures
        JsonValue::Array(items)@ == Json::Array(items_view(items@)),
{
    let v = JsonValue::Array(items);
    match v@ {
        Json::Array(s) => {
            assert(s =~= items_view(items@));
        },
        _ => {
            assert(false);
        },
    }
}

pub proof fn lemma_object_view(members: Vec<(String, JsonValue)>)
    ensures
        JsonValue::Object(members)@ == Json::Object(members_view(members@)),
{
    let v = JsonValue::Object(members);
    match v@ {
        Json::Object(s) => {
            assert(s =~= members_view(members@));
        },
        _ => {
            assert(false);
        },
    }
}

impl JsonValue {
    /// A copy of this document, value for value.
    pub fn duplicate(&self) -> (copy: JsonValue)
        ensures
            copy@ == self@,
        decreases self,
    {
        match self {
            JsonValue::Null => JsonValue::Null,
            JsonValue::Bool(b) => JsonValue::Bool(*b),
            JsonValue::Number(n) => JsonValue::Number(*n),
            JsonValue::String(s) => JsonValue::String(s.clone()),
            JsonValue::Array(items) => {
                let mut copies: Vec<JsonValue> = Vec::new();
                let mut k: usize = 0;
                while k < items.len()
                    invariant
                        *self == JsonValue::Array(*items),
                        k <= items@.len(),
                        copies@.len() == k,
                        forall|m: int| 0 <= m < k ==> (#[trigger] copies@[m])@ == items@[m]@,
                    decreases items.len() - k,
                {
                    proof {
                        assert(decreases_to!(*self => self->Array_0));
                        assert(decreases_to!(*items => items[k as int]));
                    }
                    copies.push(items[k].duplicate());
                    k = k + 1;
                }
                proof {
                    lemma_array_view(copies);
                    lemma_array_view(*items);
                    assert(items_view(copies@) =~= items_view(items@));
                }
                JsonValue::Array(copies)
            },
            JsonValue::Object(members) => {
                let mut copies: Vec<(String, JsonValue)> = Vec::new();
                let mut k: usize = 0;
                while k < members.len()
                    invariant
                        *self == JsonValue::Object(*members),
                        k <= members@.len(),
                        copies@.len() == k,
                        forall|m: int|
                            0 <= m < k ==> (#[trigger] copies@[m]).0@ == members@[m].0@
                                && copies@[m].1@ == members@[m].1@,
                    decreases members.len() - k,
                {
                    proof {
                        assert(decreases_to!(*self => self->Object_0));
                        assert(decreases_to!(*members => members[k as int]));
                        assert(decreases_to!(members[k as int] => members[k as int].1));
                    }
                    let value = members[k].1.duplicate();
                    copies.push((members[k].0.clone(), value));
                    k = k + 1;
                }
                proof {
                    lemma_object_view(copies);
                    lemma_object_view(*members);
                    assert(members_view(copies@) =~= members_view(members@));
                }
                JsonValue::Object(copies)
            },
        }
    }
}

} // verus!
