//! What a reader hands out and a writer takes in: scalar values, the contract a
//! structure declares, and the errors a read or a write can end in.
use vstd::prelude::*;

use crate::json::{Json, JsonNumber, JsonValue};
use crate::selector::SelectorError;
use crate::text::{debug_quoted, quoted};

verus! {

/// A scalar read from or written into structured content.
#[derive(Clone, Debug, PartialEq)]
pub enum StructuredValue {
    Null,
    Bool(bool),
    /// A number that is a 64-bit signed integer.
    Integer(i64),
    /// A number that is not a 64-bit signed integer, as the document holds it:
    /// a finite double by its IEEE-754 bits, or an integer above `i64::MAX`.
    /// An integer is carried as the integer, not as the double nearest to it,
    /// and a decimal that holds an integer is written as that integer: the
    /// library computes no floating point.
    Decimal(JsonNumber),
    Text(String),
    Binary(Vec<u8>),
}

/// The value of a [`StructuredValue`].
pub enum Scalar {
    Null,
    Bool(bool),
    Integer(i64),
    Decimal(JsonNumber),
    Text(Seq<char>),
    Binary(Seq<u8>),
}

impl View for StructuredValue {
    type V = Scalar;

    open spec fn view(&self) -> Scalar {
        match self {
            StructuredValue::Null => Scalar::Null,
            StructuredValue::Bool(flag) => Scalar::Bool(*flag),
            StructuredValue::Integer(integer) => Scalar::Integer(*integer),
            StructuredValue::Decimal(number) => Scalar::Decimal(*number),
            StructuredValue::Text(text) => Scalar::Text(text@),
            StructuredValue::Binary(bytes) => Scalar::Binary(bytes@),
        }
    }
}

/// Why a read or a write is refused.
#[derive(Clone, Debug, PartialEq, Eq)]
pub enum ContractError {
    /// The Stream is not JSON; the parser's account of why.
    NotJson(String),
    /// The path is not a selector.
    Selector(SelectorError),
    /// The path reads an array or an object, not a scalar.
    NotAScalar,
    /// The path names nothing to write into: demote names a place, it does not
    /// invent structure.
    NamesNothing,
    /// Binary content has no JSON form.
    NoJsonForm,
}

/// The name of a contract.
#[derive(Clone, Debug, PartialEq, Eq)]
pub struct ContractId(pub String);

/// What a structure declares about the content it reads or writes.
#[derive(Clone, Debug, PartialEq, Eq)]
pub struct ContractDescriptor {
    pub id: ContractId,
    pub version: String,
    pub representation: String,
}

/// The descriptor of JSON content: the `json-schema` contract, version `1`,
/// represented as `application/json`.
pub open spec fn is_json_descriptor(descriptor: ContractDescriptor) -> bool {
    &&& descriptor.id.0@ == "json-schema"@
    &&& descriptor.version@ == "1"@
    &&& descriptor.representation@ == "application/json"@
}

/// The identity of a Stream.
#[derive(Clone, Copy, Debug, PartialEq, Eq, Structural)]
pub struct StreamId(pub u64);

impl StreamId {
    pub fn new(value: u64) -> (id: StreamId)
        ensures
            id == StreamId(value),
    {
        StreamId(value)
    }
}

/// A Stream: content bytes, the identity it carries and its media type.
#[derive(Clone, Debug)]
pub struct Stream {
    id: StreamId,
    bytes: Vec<u8>,
    media_type: Option<String>,
}

impl Stream {
    pub closed spec fn stream_id(&self) -> StreamId {
        self.id
    }

    pub closed spec fn content(&self) -> Seq<u8> {
        self.bytes@
    }

    pub closed spec fn media(&self) -> Option<Seq<char>> {
        match self.media_type {
            Some(m) => Some(m@),
            None => None,
        }
    }

    pub fn new(id: StreamId, bytes: Vec<u8>, media_type: Option<String>) -> (stream: Stream)
        ensures
            stream.stream_id() == id,
            stream.content() == bytes@,
            stream.media() == match media_type {
                Some(m) => Some(m@),
                None => None::<Seq<char>>,
            },
    {
        Stream { id, bytes, media_type }
    }

    pub fn id(&self) -> (id: StreamId)
        ensures
            id == self.stream_id(),
    {
        self.id
    }

    pub fn bytes(&self) -> (bytes: &[u8])
        ensures
            bytes@ == self.content(),
    {
        self.bytes.as_slice()
    }

    pub fn media_type(&self) -> (media_type: Option<&str>)
        ensures
            match self.media() {
                Some(m) => media_type matches Some(t) && t@ == m,
                None => media_type is None,
            },
    {
        match &self.media_type {
            Some(m) => Some(m.as_str()),
            None => None,
        }
    }
}

/// Whether IEEE-754 bits encode a finite double: the exponent is not all ones.
pub open spec fn is_finite_bits(bits: u64) -> bool {
    (bits >> 52u64) & 0x7ffu64 != 0x7ffu64
}

/// The scalar a JSON value reads as; `None` for an array or an object.
pub open spec fn scalar_of(value: Json) -> Option<Scalar> {
    match value {
        Json::Null => Some(Scalar::Null),
        Json::Bool(flag) => Some(Scalar::Bool(flag)),
        Json::Number(number) => Some(
            match number {
                JsonNumber::PosInt(n) => if n <= i64::MAX {
                    Scalar::Integer(n as i64)
                } else {
                    Scalar::Decimal(number)
                },
                JsonNumber::NegInt(n) => Scalar::Integer(n),
                JsonNumber::Float(_) => Scalar::Decimal(number),
            },
        ),
        Json::Text(text) => Some(Scalar::Text(text)),
        Json::Array(_) => None,
        Json::Object(_) => None,
    }
}

/// The JSON value a scalar is written as; `None` for binary content. An
/// integer is a non-negative or a negative number as its sign says; a decimal
/// that is not finite has no number and is written as `null`; a decimal that
/// holds an integer is written as that integer.
pub open spec fn json_of_scalar(value: Scalar) -> Option<Json> {
    match value {
        Scalar::Null => Some(Json::Null),
        Scalar::Bool(flag) => Some(Json::Bool(flag)),
        Scalar::Integer(n) => Some(
            Json::Number(
                if n < 0 {
                    JsonNumber::NegInt(n)
                } else {
                    JsonNumber::PosInt(n as u64)
                },
            ),
        ),
        Scalar::Decimal(number) => Some(
            match number {
                JsonNumber::Float(bits) => if is_finite_bits(bits) {
                    Json::Number(number)
                } else {
                    Json::Null
                },
                _ => Json::Number(number),
            },
        ),
        Scalar::Text(text) => Some(Json::Text(text)),
        Scalar::Binary(_) => None,
    }
}

pub fn descriptor() -> (descriptor: ContractDescriptor)
    ensures
        is_json_descriptor(descriptor),
{
    ContractDescriptor {
        id: ContractId("json-schema".to_owned()),
        version: "1".to_owned(),
        representation: "application/json".to_owned(),
    }
}

/// The scalar at a place, or the refusal of a structure.
pub fn scalar(value: &JsonValue) -> (r: Result<StructuredValue, ContractError>)
    ensures
        match scalar_of(value@) {
            Some(s) => r matches Ok(found) && found@ == s,
            None => r == Err::<StructuredValue, ContractError>(ContractError::NotAScalar),
        },
{
    match value {
        JsonValue::Null => Ok(StructuredValue::Null),
        JsonValue::Bool(flag) => Ok(StructuredValue::Bool(*flag)),
        JsonValue::Number(number) => Ok(
            match number {
                JsonNumber::PosInt(n) => if *n <= 0x7fff_ffff_ffff_ffffu64 {
                    StructuredValue::Integer(*n as i64)
                } else {
                    StructuredValue::Decimal(*number)
                },
                JsonNumber::NegInt(n) => StructuredValue::Integer(*n),
                JsonNumber::Float(_) => StructuredValue::Decimal(*number),
            },
        ),
        JsonValue::String(text) => Ok(StructuredValue::Text(text.clone())),
        JsonValue::Array(_) => Err(ContractError::NotAScalar),
        JsonValue::Object(_) => Err(ContractError::NotAScalar),
    }
}

/// The JSON form of a scalar, or the refusal of binary content.
pub fn json(value: StructuredValue) -> (r: Result<JsonValue, ContractError>)
    ensures
        match json_of_scalar(value@) {
            Some(j) => r matches Ok(written) && written@ == j,
            None => r == Err::<JsonValue, ContractError>(ContractError::NoJsonForm),
        },
{
    match value {
        StructuredValue::Null => Ok(JsonValue::Null),
        StructuredValue::Bool(flag) => Ok(JsonValue::Bool(flag)),
        StructuredValue::Integer(n) => if n < 0 {
            Ok(JsonValue::Number(JsonNumber::NegInt(n)))
        } else {
            Ok(JsonValue::Number(JsonNumber::PosInt(n as u64)))
        },
        StructuredValue::Decimal(number) => match number {
            JsonNumber::Float(bits) => if (bits >> 52u64) & 0x7ffu64 != 0x7ffu64 {
                Ok(JsonValue::Number(number))
            } else {
                Ok(JsonValue::Null)
            },
            _ => Ok(JsonValue::Number(number)),
        },
        StructuredValue::Text(text) => Ok(JsonValue::String(text)),
        StructuredValue::Binary(_) => Err(ContractError::NoJsonForm),
    }
}

/// The characters of `text` from `from` to `to`, or nothing where that is no
/// range of it.
pub open spec fn text_between(text: Seq<char>, from: usize, to: usize) -> Seq<char> {
    if from <= to <= text.len() {
        text.subrange(from as int, to as int)
    } else {
        Seq::empty()
    }
}

/// Why an expression is no selector, in words.
pub open spec fn refusal_words(why: SelectorError, expression: Seq<char>) -> Seq<char> {
    match why {
        SelectorError::Empty => "is empty"@,
        SelectorError::StartsWithDot => "starts with a dot"@,
        SelectorError::NameFollowsBracket => "a name follows a bracket"@,
        SelectorError::EmptyName => "a name is empty"@,
        SelectorError::NotAName { from, to } => text_between(expression, from, to)
            + " is not a name"@,
        SelectorError::NeverClosed => "a bracket is never closed"@,
        SelectorError::NotABracket { from, to } => "["@ + text_between(expression, from, to)
            + "] is not a bracket kind"@,
    }
}

/// A refusal of `path`, in words.
pub open spec fn message_of(error: ContractError, path: Seq<char>) -> Seq<char> {
    match error {
        ContractError::NotJson(reason) => "not valid JSON: "@ + reason@,
        ContractError::Selector(why) => "selector "@ + debug_quoted(path) + " "@ + refusal_words(
            why,
            path,
        ),
        ContractError::NotAScalar => path + " is not a scalar"@,
        ContractError::NamesNothing => debug_quoted(path) + " names nothing to write into"@,
        ContractError::NoJsonForm => "binary has no JSON form here"@,
    }
}

fn text_part(text: &str, from: usize, to: usize) -> (part: String)
    ensures
        part@ == text_between(text@, from, to),
{
    if from <= to && to <= text.unicode_len() {
        text.substring_char(from, to).to_owned()
    } else {
        String::new()
    }
}

fn refusal_text(why: SelectorError, expression: &str) -> (words: String)
    ensures
        words@ == refusal_words(why, expression@),
{
    match why {
        SelectorError::Empty => "is empty".to_owned(),
        SelectorError::StartsWithDot => "starts with a dot".to_owned(),
        SelectorError::NameFollowsBracket => "a name follows a bracket".to_owned(),
        SelectorError::EmptyName => "a name is empty".to_owned(),
        SelectorError::NotAName { from, to } => {
            let mut words = text_part(expression, from, to);
            words.append(" is not a name");
            words
        },
        SelectorError::NeverClosed => "a bracket is never closed".to_owned(),
        SelectorError::NotABracket { from, to } => {
            let mut words = "[".to_owned();
            words.append(text_part(expression, from, to).as_str());
            words.append("] is not a bracket kind");
            words
        },
    }
}

impl ContractError {
    /// The refusal of `path`, in words.
    pub fn message(&self, path: &str) -> (message: String)
        ensures
            message@ == message_of(*self, path@),
    {
        match self {
            ContractError::NotJson(reason) => {
                let mut message = "not valid JSON: ".to_owned();
                message.append(reason.as_str());
                message
            },
            ContractError::Selector(why) => {
                let mut message = "selector ".to_owned();
                message.append(quoted(path).as_str());
                message.append(" ");
                message.append(refusal_text(*why, path).as_str());
                message
            },
            ContractError::NotAScalar => {
                let mut message = path.to_owned();
                message.append(" is not a scalar");
                message
            },
            ContractError::NamesNothing => {
                let mut message = quoted(path);
                message.append(" names nothing to write into");
                message
            },
            ContractError::NoJsonForm => "binary has no JSON form here".to_owned(),
        }
    }
}

/// A double is finite exactly when its exponent field, the eleven bits above
/// the fifty-two of the fraction, is not all ones; the sign bit plays no part.
pub proof fn lemma_finite_bits_is_the_exponent(bits: u64)
    ensures
        is_finite_bits(bits) <==> (bits / 0x10_0000_0000_0000u64) % 0x800 != 0x7ff,
        is_finite_bits(bits) == is_finite_bits(bits ^ 0x8000_0000_0000_0000u64),
{
    assert(((bits >> 52u64) & 0x7ffu64 != 0x7ffu64) <==> ((bits / 0x10_0000_0000_0000u64)
        % 0x800u64 != 0x7ffu64)) by (bit_vector);
    assert(((bits >> 52u64) & 0x7ffu64 != 0x7ffu64) == (((bits ^ 0x8000_0000_0000_0000u64)
        >> 52u64) & 0x7ffu64 != 0x7ffu64)) by (bit_vector);
}

/// A decimal double is written as itself, a number, unless its exponent field
/// is all ones (an infinity or not a number), when it is written as `null`.
pub proof fn lemma_decimal_written_as_null_only_when_not_finite(bits: u64)
    ensures
        json_of_scalar(Scalar::Decimal(JsonNumber::Float(bits))) == (if (bits
            / 0x10_0000_0000_0000u64) % 0x800 == 0x7ff {
            Some(Json::Null)
        } else {
            Some(Json::Number(JsonNumber::Float(bits)))
        }),
{
    lemma_finite_bits_is_the_exponent(bits);
}

} // verus!
