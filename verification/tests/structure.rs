use dot_path::json::{JsonNumber, JsonValue};
use dot_path::{
    ContractError, DotEngine, DotRewrite, DotStructure, Path, PathCost, Reach, Selector,
    SelectorError, Stream, StreamId, StructuredValue,
};

fn stream(text: &str) -> Stream {
    Stream::new(StreamId::new(1), text.as_bytes().to_vec(), None)
}

/// The document that a JSON text parses to.
fn json(text: &str) -> JsonValue {
    let value: serde_json::Value = serde_json::from_str(text).expect("json");
    from_value(&value)
}

fn from_value(value: &serde_json::Value) -> JsonValue {
    match value {
        serde_json::Value::Null => JsonValue::Null,
        serde_json::Value::Bool(flag) => JsonValue::Bool(*flag),
        serde_json::Value::Number(number) => JsonValue::Number(if let Some(n) = number.as_u64() {
            JsonNumber::PosInt(n)
        } else if let Some(n) = number.as_i64() {
            JsonNumber::NegInt(n)
        } else {
            JsonNumber::Float(number.as_f64().expect("finite").to_bits())
        }),
        serde_json::Value::String(text) => JsonValue::String(text.clone()),
        serde_json::Value::Array(items) => JsonValue::Array(items.iter().map(from_value).collect()),
        serde_json::Value::Object(members) => JsonValue::Object(
            members
                .iter()
                .map(|(name, value)| (name.clone(), from_value(value)))
                .collect(),
        ),
    }
}

const ORDER: &str =
    r#"{"id":"A1","paid":false,"headers":{"x-ref":"R"},"lines":[{"sku":"X","qty":2,"price":9.5},{"sku":"Y","qty":1}]}"#;

#[test]
fn reads_scalars_by_selector_and_refuses_structures() {
    let structure = DotStructure::parse(&stream(ORDER)).expect("parses");
    let engine = DotEngine;
    let read = |p: &str| engine.read(&structure, &Path::new("dot", p));
    assert_eq!(
        read("id").expect("reads"),
        Some(StructuredValue::Text("A1".into()))
    );
    assert_eq!(
        read("paid").expect("reads"),
        Some(StructuredValue::Bool(false))
    );
    assert_eq!(
        read("headers['x-ref']").expect("reads"),
        Some(StructuredValue::Text("R".into()))
    );
    assert_eq!(
        read("lines[1].qty").expect("reads"),
        Some(StructuredValue::Integer(1))
    );
    assert_eq!(
        read("lines[n].price").expect("reads"),
        Some(StructuredValue::Decimal(JsonNumber::Float(9.5f64.to_bits())))
    );
    assert_eq!(read("lines[n].colour").expect("reads"), None);
    assert_eq!(read("nowhere").expect("reads"), None);
    assert!(read("lines").is_err());
    assert!(read("lines[").is_err());
    assert_eq!(engine.cost(&Path::new("dot", "id")), PathCost::Materialized);
    assert_eq!(
        Selector::parse("lines[n].price").expect("parses").reach(),
        Reach::StreamScan
    );
}

#[test]
fn rewrites_into_a_new_stream_with_the_given_id() {
    let mut rewrite = DotRewrite::of(&stream(ORDER), StreamId::new(2)).expect("parses");
    let engine = DotEngine;
    let mut write =
        |p: &str, v: StructuredValue| engine.write(&mut rewrite, &Path::new("dot", p), v);
    write("paid", StructuredValue::Bool(true)).expect("writes");
    write("headers['x-ref']", StructuredValue::Text("R7".into())).expect("writes");
    write("lines[n].qty", StructuredValue::Integer(0)).expect("writes every line");
    write("lines[1].note", StructuredValue::Null).expect("adds");
    assert!(write("lines[5].qty", StructuredValue::Integer(1)).is_err());
    assert!(write("nowhere.deep", StructuredValue::Null).is_err());
    assert!(write("id", StructuredValue::Binary(vec![1])).is_err());
    assert!(write("", StructuredValue::Null).is_err());
    let out = rewrite.finish();
    assert_eq!(out.id, StreamId::new(2));
    assert_eq!(out.media_type, "application/json");
    assert_eq!(
        out.document,
        json(
            r#"{
                "id": "A1", "paid": true, "headers": {"x-ref": "R7"},
                "lines": [
                    {"sku": "X", "qty": 0, "price": 9.5},
                    {"sku": "Y", "qty": 0, "note": null}
                ]
            }"#
        )
    );
}

#[test]
fn names_the_reason_of_each_refused_read_or_write() {
    let structure = DotStructure::parse(&stream(ORDER)).expect("parses");
    assert_eq!(structure.read("lines"), Err(ContractError::NotAScalar));
    assert_eq!(structure.read("headers[n]").expect("reads"), Some(StructuredValue::Text("R".into())));
    assert_eq!(
        structure.read("lines["),
        Err(ContractError::Selector(SelectorError::NeverClosed))
    );
    let mut rewrite = DotRewrite::of(&stream(ORDER), StreamId::new(1)).expect("parses");
    assert_eq!(
        rewrite.write("", StructuredValue::Null),
        Err(ContractError::Selector(SelectorError::Empty))
    );
    assert_eq!(
        rewrite.write("id", StructuredValue::Binary(vec![1])),
        Err(ContractError::NoJsonForm)
    );
    assert_eq!(
        rewrite.write("lines[5].qty", StructuredValue::Integer(1)),
        Err(ContractError::NamesNothing)
    );
    assert_eq!(
        rewrite.write("id.deep", StructuredValue::Null),
        Err(ContractError::NamesNothing)
    );
    // A refused write leaves the document as it was.
    assert_eq!(rewrite.finish().document, json(ORDER));
}

#[test]
fn a_structure_declares_json() {
    let structure = DotStructure::parse(&stream("{}")).expect("parses");
    let contract = structure.contract();
    assert_eq!(contract.id.0, "json-schema");
    assert_eq!(contract.version, "1");
    assert_eq!(contract.representation, "application/json");
    let rewrite = DotRewrite::of(&stream("{}"), StreamId::new(3)).expect("parses");
    assert_eq!(rewrite.contract(), contract);
    assert_eq!(DotEngine.language(), "dot");
}

#[test]
fn numbers_read_as_integers_where_they_fit() {
    let structure = DotStructure::parse(&stream(
        r#"{"big": 18446744073709551615, "max": 9223372036854775807, "neg": -9223372036854775808, "half": -0.5}"#,
    ))
    .expect("parses");
    assert_eq!(
        structure.read("big").expect("reads"),
        Some(StructuredValue::Decimal(JsonNumber::PosInt(u64::MAX)))
    );
    assert_eq!(
        structure.read("max").expect("reads"),
        Some(StructuredValue::Integer(i64::MAX))
    );
    assert_eq!(
        structure.read("neg").expect("reads"),
        Some(StructuredValue::Integer(i64::MIN))
    );
    assert_eq!(
        structure.read("half").expect("reads"),
        Some(StructuredValue::Decimal(JsonNumber::Float((-0.5f64).to_bits())))
    );
}

#[test]
fn scalars_are_written_in_their_json_form() {
    let mut rewrite = DotRewrite::of(&stream("{}"), StreamId::new(1)).expect("parses");
    rewrite.write("neg", StructuredValue::Integer(-3)).expect("writes");
    rewrite.write("pos", StructuredValue::Integer(3)).expect("writes");
    rewrite
        .write("nan", StructuredValue::Decimal(JsonNumber::Float(f64::NAN.to_bits())))
        .expect("writes");
    rewrite
        .write("inf", StructuredValue::Decimal(JsonNumber::Float(f64::INFINITY.to_bits())))
        .expect("writes");
    rewrite
        .write("half", StructuredValue::Decimal(JsonNumber::Float(0.5f64.to_bits())))
        .expect("writes");
    rewrite.write("text", StructuredValue::Text("t".into())).expect("writes");
    assert_eq!(
        rewrite.finish().document,
        JsonValue::Object(vec![
            ("neg".to_string(), JsonValue::Number(JsonNumber::NegInt(-3))),
            ("pos".to_string(), JsonValue::Number(JsonNumber::PosInt(3))),
            ("nan".to_string(), JsonValue::Null),
            ("inf".to_string(), JsonValue::Null),
            ("half".to_string(), JsonValue::Number(JsonNumber::Float(0.5f64.to_bits()))),
            ("text".to_string(), JsonValue::String("t".to_string())),
        ])
    );
}

#[test]
fn a_written_scalar_reads_back() {
    for value in [
        StructuredValue::Null,
        StructuredValue::Bool(true),
        StructuredValue::Integer(-7),
        StructuredValue::Decimal(JsonNumber::Float(1.25f64.to_bits())),
        StructuredValue::Text("back".into()),
    ] {
        let mut rewrite = DotRewrite::of(&stream(ORDER), StreamId::new(1)).expect("parses");
        rewrite.write("lines[n].qty", value.clone()).expect("writes");
        let structure = DotStructure::from_document(rewrite.finish().document);
        assert_eq!(structure.read("lines[n].qty").expect("reads"), Some(value.clone()));
        assert_eq!(structure.read("lines[1].qty").expect("reads"), Some(value));
    }
}

#[test]
fn a_stream_that_is_not_json_is_refused_up_front() {
    assert!(DotStructure::parse(&stream("{nope")).is_err());
    assert!(DotRewrite::of(&stream("{nope"), StreamId::new(1)).is_err());
}

#[test]
fn a_refusal_is_put_in_words() {
    match DotStructure::parse(&stream("{nope")) {
        Err(error) => assert!(error.message("").starts_with("not valid JSON: ")),
        Ok(_) => panic!("refused"),
    }
    let structure = DotStructure::parse(&stream(ORDER)).expect("parses");
    let words = |p: &str| structure.read(p).expect_err("refused").message(p);
    assert_eq!(words("lines"), "lines is not a scalar");
    assert_eq!(words("lines["), r#"selector "lines[" a bracket is never closed"#);
    assert_eq!(words(""), r#"selector "" is empty"#);
    assert_eq!(words(".a"), r#"selector ".a" starts with a dot"#);
    assert_eq!(words("a[0]b"), r#"selector "a[0]b" a name follows a bracket"#);
    assert_eq!(words("a..b"), r#"selector "a..b" a name is empty"#);
    assert_eq!(words("or]der"), r#"selector "or]der" or]der is not a name"#);
    assert_eq!(words("a[x]"), r#"selector "a[x]" [x] is not a bracket kind"#);
    let mut rewrite = DotRewrite::of(&stream(ORDER), StreamId::new(1)).expect("parses");
    let refused = |r: &mut DotRewrite, p: &str, v| r.write(p, v).expect_err("refused").message(p);
    assert_eq!(
        refused(&mut rewrite, "nowhere.deep", StructuredValue::Null),
        r#""nowhere.deep" names nothing to write into"#
    );
    assert_eq!(
        refused(&mut rewrite, "id", StructuredValue::Binary(vec![1])),
        "binary has no JSON form here"
    );
}

#[test]
fn a_repeated_member_name_is_one_member() {
    let structure = DotStructure::parse(&stream(r#"{"a": 1, "b": 0, "a": 2}"#)).expect("parses");
    assert_eq!(structure.read("a").expect("reads"), Some(StructuredValue::Integer(2)));
    assert_eq!(structure.read("[n]").expect("reads"), Some(StructuredValue::Integer(2)));
}
