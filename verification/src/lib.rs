//! The dot path technology: a path language over JSON content.
//!
//! The language is the content selector `order.customer.name`, `orders[0].id`,
//! `orders[n].id`, `headers['desiredProperty']`: four segment kinds, a name,
//! an ordinal `[0]`, a key `['x']` and the streaming wildcard `[n]`. `[n]` is
//! the first occurrence when reading and every occurrence when writing.
//!
//! Three things, because a path language is nothing without content to
//! address: [`DotEngine`], the engine for the language `dot`;
//! [`DotStructure`], a reader over a JSON document; and [`DotRewrite`], a
//! writer that produces a new document with one or more values replaced.
//!
//! A selector declares how far it reaches ([`Selector::reach`]); this
//! library reads JSON through a parsed document, so its engine reports the
//! honest [`PathCost::Materialized`].

pub mod content;
pub mod json;
pub mod selector;
pub mod text;
pub mod walk;

pub use content::{
    ContractDescriptor, ContractError, ContractId, Stream, StreamId, StructuredValue,
};
pub use json::{JsonNumber, JsonValue};
pub use selector::{Reach, Segment, Selector, SelectorError};

use vstd::prelude::*;

use content::{
    descriptor, is_json_descriptor, json, json_of_scalar, scalar, scalar_of, Scalar,
};
use json::{distinct_names, Json};
use selector::parsed;
use text::{json_text, parse_json};
use walk::{found, places, put};

verus! {

/// A path: an expression and the language it is written in.
pub struct Path {
    pub language: String,
    pub expression: String,
}

impl Path {
    pub fn new(language: &str, expression: &str) -> (path: Path)
        ensures
            path.language@ == language@,
            path.expression@ == expression@,
    {
        Path { language: language.to_owned(), expression: expression.to_owned() }
    }
}

/// What evaluating a path costs: the reach its selector declares, or the
/// whole document materialized.
#[derive(Clone, Copy, Debug, PartialEq, Eq, Structural)]
pub enum PathCost {
    Declared(Reach),
    Materialized,
}

/// The `dot` engine. The reader speaks selectors already, so the engine adds
/// no traversal of its own.
pub struct DotEngine;

/// What reading `path` in a document gives: the scalar there, nothing where
/// the selector resolves to nothing, or the refusal of a path that is not a
/// selector or that reads a structure.
pub open spec fn read_outcome(document: Json, path: Seq<char>) -> Result<
    Option<Scalar>,
    ContractError,
> {
    match parsed(path) {
        Err(e) => Err(ContractError::Selector(e)),
        Ok(steps) => match found(document, steps) {
            None => Ok(None),
            Some(value) => match scalar_of(value) {
                Some(s) => Ok(Some(s)),
                None => Err(ContractError::NotAScalar),
            },
        },
    }
}

/// What writing `value` at `path` makes of a document: the document with the
/// value at every place the path resolves to, or the refusal of a path that
/// is not a selector, of binary content, or of a path that names nothing.
pub open spec fn write_outcome(document: Json, path: Seq<char>, value: Scalar) -> Result<
    Json,
    ContractError,
> {
    match parsed(path) {
        Err(e) => Err(ContractError::Selector(e)),
        Ok(steps) => match json_of_scalar(value) {
            None => Err(ContractError::NoJsonForm),
            Some(replacement) => if places(document, steps) == 0 {
                Err(ContractError::NamesNothing)
            } else {
                Ok(put(document, steps, replacement))
            },
        },
    }
}

/// The value of what a read returns.
pub open spec fn read_view(r: Result<Option<StructuredValue>, ContractError>) -> Result<
    Option<Scalar>,
    ContractError,
> {
    match r {
        Ok(Some(value)) => Ok(Some(value@)),
        Ok(None) => Ok(None),
        Err(e) => Err(e),
    }
}

/// A JSON document, read by selector.
pub struct DotStructure {
    descriptor: ContractDescriptor,
    value: JsonValue,
}

impl DotStructure {
    #[verifier::type_invariant]
    spec fn declares_json(self) -> bool {
        &&& is_json_descriptor(self.descriptor)
        &&& distinct_names(self.value@)
    }

    /// The document this structure reads.
    pub closed spec fn document(&self) -> Json {
        self.value@
    }

    /// Parse `stream` once; every read is a selector walk after that. A
    /// Stream that is not JSON is refused up front.
    pub fn parse(stream: &Stream) -> (r: Result<DotStructure, ContractError>)
        ensures
            match json_text(stream.content()) {
                Ok(document) => r matches Ok(structure) && structure.document() == document
                    && distinct_names(document),
                Err(message) => r matches Err(ContractError::NotJson(m)) && m@ == message,
            },
    {
        match parse_json(stream.bytes()) {
            Ok(document) => Ok(DotStructure::from_document(document)),
            Err(message) => Err(ContractError::NotJson(message)),
        }
    }

    /// A structure over a document already parsed, whose objects have
    /// members of distinct names.
    pub fn from_document(document: JsonValue) -> (structure: DotStructure)
        requires
            distinct_names(document@),
        ensures
            structure.document() == document@,
    {
        DotStructure { descriptor: descriptor(), value: document }
    }

    /// The contract: JSON content.
    pub fn contract(&self) -> (contract: &ContractDescriptor)
        ensures
            is_json_descriptor(*contract),
    {
        proof {
            use_type_invariant(self);
        }
        &self.descriptor
    }

    /// Read the scalar at `path`: `None` where the selector resolves to
    /// nothing; at `[n]`, the first occurrence.
    pub fn read(&self, path: &str) -> (r: Result<Option<StructuredValue>, ContractError>)
        ensures
            read_view(r) == read_outcome(self.document(), path@),
    {
        let selector = match Selector::parse(path) {
            Ok(selector) => selector,
            Err(e) => {
                return Err(ContractError::Selector(e));
            },
        };
        match walk::read(&self.value, selector.segments()) {
            None => Ok(None),
            Some(found) => match scalar(found) {
                Ok(value) => Ok(Some(value)),
                Err(e) => Err(e),
            },
        }
    }
}

/// A JSON document being rewritten into a new one.
pub struct DotRewrite {
    descriptor: ContractDescriptor,
    id: StreamId,
    value: JsonValue,
}

/// A finished rewrite: the new document, the Stream it goes out as, and its
/// media type.
pub struct Rewritten {
    pub id: StreamId,
    pub document: JsonValue,
    pub media_type: String,
}

impl DotRewrite {
    #[verifier::type_invariant]
    spec fn declares_json(self) -> bool {
        &&& is_json_descriptor(self.descriptor)
        &&& distinct_names(self.value@)
    }

    /// The document as rewritten so far.
    pub closed spec fn document(&self) -> Json {
        self.value@
    }

    /// The Stream that the rewrite produces.
    pub closed spec fn stream(&self) -> StreamId {
        self.id
    }

    /// Start from `stream`; what `finish` produces carries `id`. A Stream that
    /// is not JSON is refused up front.
    pub fn of(stream: &Stream, id: StreamId) -> (r: Result<DotRewrite, ContractError>)
        ensures
            match json_text(stream.content()) {
                Ok(document) => r matches Ok(rewrite) && rewrite.document() == document
                    && rewrite.stream() == id && distinct_names(document),
                Err(message) => r matches Err(ContractError::NotJson(m)) && m@ == message,
            },
    {
        match parse_json(stream.bytes()) {
            Ok(document) => Ok(DotRewrite::from_document(document, id)),
            Err(message) => Err(ContractError::NotJson(message)),
        }
    }

    /// A rewrite of a document already parsed, whose objects have members of
    /// distinct names; what `finish` produces carries `id`.
    pub fn from_document(document: JsonValue, id: StreamId) -> (rewrite: DotRewrite)
        requires
            distinct_names(document@),
        ensures
            rewrite.document() == document@,
            rewrite.stream() == id,
    {
        DotRewrite { descriptor: descriptor(), id, value: document }
    }

    /// The contract: JSON content.
    pub fn contract(&self) -> (contract: &ContractDescriptor)
        ensures
            is_json_descriptor(*contract),
    {
        proof {
            use_type_invariant(self);
        }
        &self.descriptor
    }

    /// Replace the value at every place `path` resolves to, or add a last
    /// name or key to the object it names. A selector into nothing is
    /// refused, and then the document stays as it was.
    pub fn write(&mut self, path: &str, value: StructuredValue) -> (r: Result<(), ContractError>)
        ensures
            final(self).stream() == old(self).stream(),
            distinct_names(final(self).document()),
            match write_outcome(old(self).document(), path@, value@) {
                Ok(document) => r is Ok && final(self).document() == document,
                Err(e) => r == Err::<(), ContractError>(e) && final(self).document() == old(
                    self,
                ).document(),
            },
    {
        proof {
            use_type_invariant(&*self);
        }
        let selector = match Selector::parse(path) {
            Ok(selector) => selector,
            Err(e) => {
                return Err(ContractError::Selector(e));
            },
        };
        let replacement = match json(value) {
            Ok(replacement) => replacement,
            Err(e) => {
                return Err(e);
            },
        };
        let mut document = JsonValue::Null;
        std::mem::swap(&mut document, &mut self.value);
        let ghost before = document@;
        let count = walk::write(&mut document, selector.segments(), &replacement);
        proof {
            walk::lemma_write_keeps_names_distinct(before, selector@, replacement@);
        }
        std::mem::swap(&mut document, &mut self.value);
        if count == 0 {
            proof {
                walk::lemma_unplaced_write_changes_nothing(before, selector@, replacement@);
            }
            return Err(ContractError::NamesNothing);
        }
        Ok(())
    }

    /// The rewritten document, to go out as the Stream `id` in
    /// `application/json`.
    pub fn finish(self) -> (out: Rewritten)
        ensures
            out.id == self.stream(),
            out.document@ == self.document(),
            out.media_type@ == "application/json"@,
    {
        proof {
            use_type_invariant(&self);
        }
        Rewritten { id: self.id, document: self.value, media_type: self.descriptor.representation }
    }
}

impl DotEngine {
    /// The language this engine evaluates.
    pub fn language(&self) -> (language: &'static str)
        ensures
            language@ == "dot"@,
    {
        "dot"
    }

    /// Read `path` through `reader`.
    pub fn read(&self, reader: &DotStructure, path: &Path) -> (r: Result<
        Option<StructuredValue>,
        ContractError,
    >)
        ensures
            read_view(r) == read_outcome(reader.document(), path.expression@),
    {
        reader.read(path.expression.as_str())
    }

    /// Write `value` at `path` through `writer`.
    pub fn write(&self, writer: &mut DotRewrite, path: &Path, value: StructuredValue) -> (r:
        Result<(), ContractError>)
        ensures
            final(writer).stream() == old(writer).stream(),
            match write_outcome(old(writer).document(), path.expression@, value@) {
                Ok(document) => r is Ok && final(writer).document() == document,
                Err(e) => r == Err::<(), ContractError>(e) && final(writer).document() == old(
                    writer,
                ).document(),
            },
    {
        writer.write(path.expression.as_str(), value)
    }

    /// The JSON reader parses the document whole, whatever the selector
    /// declares; the declaration is answered by [`Selector::reach`].
    pub fn cost(&self, path: &Path) -> (cost: PathCost)
        ensures
            cost == PathCost::Materialized,
    {
        PathCost::Materialized
    }
}

/// A scalar as it reads back once written: its JSON form, read again.
pub open spec fn reads_back_as(value: Scalar) -> Option<Scalar> {
    match json_of_scalar(value) {
        Some(written) => scalar_of(written),
        None => None,
    }
}

/// What a read gives back of a write: once writing `value` at `path`
/// succeeds, reading `path` gives the scalar that `value` reads back as.
pub proof fn lemma_read_back_after_write(document: Json, path: Seq<char>, value: Scalar)
    requires
        write_outcome(document, path, value) is Ok,
    ensures
        read_outcome(write_outcome(document, path, value)->Ok_0, path) == Ok::<
            Option<Scalar>,
            ContractError,
        >(reads_back_as(value)),
{
    let steps = parsed(path)->Ok_0;
    let replacement = json_of_scalar(value)->Some_0;
    walk::lemma_read_after_write(document, steps, replacement);
}

/// A scalar reads back as itself, except binary content (which has no JSON
/// form), a decimal that is not finite (written as `null`), and a decimal
/// that is a 64-bit signed integer (read back as an integer).
pub proof fn lemma_scalar_reads_back_as_itself(value: Scalar)
    requires
        !(value is Binary),
        value matches Scalar::Decimal(number) ==> match number {
            JsonNumber::Float(bits) => content::is_finite_bits(bits),
            JsonNumber::PosInt(n) => n > i64::MAX,
            JsonNumber::NegInt(_) => false,
        },
    ensures
        reads_back_as(value) == Some(value),
{
}

} // verus!
