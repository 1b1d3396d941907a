use dot_path::json::{JsonNumber, JsonValue};
use dot_path::selector::Selector;
use dot_path::walk::read;

/// The document that a JSON text parses to.
fn json(text: &str) -> JsonValue {
    let value: serde_json::Value = serde_json::from_str(text).expect("json");
    from_value(&value)
}

fn from_value(value: &serde_json::Value) -> JsonValue {
    match value {
        serde_json::Value::Null => JsonValue::Null,
        serde_json::Value::Bool(flag) => JsonValue::Bool(*flag),
        serde_json::Value::Number(number) => JsonValue::Number(if let Some(n) = number.as_u64() {
            JsonNumber::PosInt(n)
        } else if let Some(n) = number.as_i64() {
            JsonNumber::NegInt(n)
        } else {
            JsonNumber::Float(number.as_f64().expect("finite").to_bits())
        }),
        serde_json::Value::String(text) => JsonValue::String(text.clone()),
        serde_json::Value::Array(items) => JsonValue::Array(items.iter().map(from_value).collect()),
        serde_json::Value::Object(members) => JsonValue::Object(
            members
                .iter()
                .map(|(name, value)| (name.clone(), from_value(value)))
                .collect(),
        ),
    }
}

fn at<'a>(value: &'a JsonValue, expression: &str) -> Option<&'a JsonValue> {
    let selector = Selector::parse(expression).expect("parses");
    read(value, selector.segments())
}

fn put(value: &mut JsonValue, expression: &str, replacement: &JsonValue) -> usize {
    let selector = Selector::parse(expression).expect("parses");
    dot_path::walk::write(value, selector.segments(), replacement)
}

#[test]
fn reads_by_name_ordinal_key_and_first_occurrence() {
    let doc = json(
        r#"{
            "order": {"customer": {"name": "Ada"}, "x-id": 7},
            "orders": [{"id": "A"}, {"id": "B", "ref": "R"}],
            "lines": [1, {"sku": "S1"}]
        }"#,
    );
    assert_eq!(at(&doc, "order.customer.name"), Some(&json(r#""Ada""#)));
    assert_eq!(at(&doc, "order['x-id']"), Some(&json("7")));
    assert_eq!(at(&doc, "orders[1].id"), Some(&json(r#""B""#)));
    assert_eq!(at(&doc, "orders[n].id"), Some(&json(r#""A""#)));
    assert_eq!(at(&doc, "orders[n].ref"), Some(&json(r#""R""#)));
    assert_eq!(at(&doc, "lines[n].sku"), Some(&json(r#""S1""#)));
    assert_eq!(at(&doc, "order[n]"), Some(&json(r#"{"name": "Ada"}"#)));
    assert_eq!(at(&doc, "orders[2].id"), None);
    assert_eq!(at(&doc, "order.customer.age"), None);
    assert_eq!(at(&doc, "order.customer.name.first"), None);
    assert_eq!(at(&doc, "order[0]"), None);
}

#[test]
fn writes_at_a_place_adds_a_member_and_fills_every_occurrence() {
    let mut doc = json(r#"{"order": {"paid": false}, "orders": [{"id": "A"}, {"id": "B"}, 3]}"#);
    assert_eq!(put(&mut doc, "order.paid", &json("true")), 1);
    assert_eq!(put(&mut doc, "order.ref", &json(r#""R7""#)), 1);
    assert_eq!(put(&mut doc, "orders[n].id", &json(r#""Z""#)), 2);
    assert_eq!(put(&mut doc, "orders[2]", &json("4")), 1);
    assert_eq!(
        doc,
        json(r#"{"order": {"paid": true, "ref": "R7"}, "orders": [{"id": "Z"}, {"id": "Z"}, 4]}"#)
    );
    assert_eq!(put(&mut doc, "orders[3]", &json("0")), 0);
    assert_eq!(put(&mut doc, "order.paid.deep", &json("0")), 0);
    assert_eq!(put(&mut doc, "nowhere.ref", &json("0")), 0);
    assert_eq!(put(&mut doc, "orders[n].sku.code", &json("0")), 0);
}

#[test]
fn a_read_after_a_write_gives_the_replacement() {
    let original = json(r#"{"a": [{"b": 1}, {"c": 2}, 5], "k": {"x": {"y": 0}}}"#);
    for (expression, places) in [
        ("a[n].b", 2),
        ("a[0].b", 1),
        ("a[1].b", 1),
        ("a[n]", 3),
        ("k['x'].y", 1),
        ("k[n].z", 1),
        ("a[5]", 0),
        ("k.x.y.z", 0),
    ] {
        let mut doc = json(r#"{"a": [{"b": 1}, {"c": 2}, 5], "k": {"x": {"y": 0}}}"#);
        let replacement = json(r#"["new"]"#);
        assert_eq!(put(&mut doc, expression, &replacement), places, "{expression}");
        if places > 0 {
            assert_eq!(at(&doc, expression), Some(&replacement), "{expression}");
        } else {
            assert_eq!(doc, original, "{expression}");
            assert_eq!(at(&doc, expression), None, "{expression}");
        }
    }
}

#[test]
fn writing_twice_is_writing_once() {
    let mut once = json(r#"{"a": [{"b": 1}, {}, 5, {"b": [1]}]}"#);
    assert_eq!(put(&mut once, "a[n].b", &json("9")), 3);
    let mut twice = json(r#"{"a": [{"b": 1}, {}, 5, {"b": [1]}]}"#);
    put(&mut twice, "a[n].b", &json("9"));
    assert_eq!(put(&mut twice, "a[n].b", &json("9")), 3);
    assert_eq!(once, twice);
    assert_eq!(once, json(r#"{"a": [{"b": 9}, {"b": 9}, 5, {"b": 9}]}"#));
}

#[test]
fn a_readable_place_is_writable() {
    let doc = json(r#"{"a": {"b": [true, null]}}"#);
    for expression in ["a", "a.b", "a.b[1]", "a[n][n]", "[n]"] {
        assert!(at(&doc, expression).is_some(), "{expression}");
        let mut copy = doc.duplicate();
        assert!(put(&mut copy, expression, &JsonValue::Null) > 0, "{expression}");
    }
}

#[test]
fn a_new_member_goes_last_and_an_old_one_keeps_its_place() {
    let mut doc = json(r#"{"b": 1, "a": 2}"#);
    assert_eq!(put(&mut doc, "b", &json("3")), 1);
    assert_eq!(put(&mut doc, "c", &json("4")), 1);
    assert_eq!(
        doc,
        JsonValue::Object(vec![
            ("b".to_string(), json("3")),
            ("a".to_string(), json("2")),
            ("c".to_string(), json("4")),
        ])
    );
}

#[test]
fn the_wildcard_reads_the_first_child_that_resolves_in_document_order() {
    let doc = json(r#"{"z": {"v": 1}, "a": {"v": 2}}"#);
    assert_eq!(at(&doc, "[n].v"), Some(&json("1")));
    assert_eq!(at(&doc, "[n]"), Some(&json(r#"{"v": 1}"#)));
    assert_eq!(at(&json("[]"), "[n]"), None);
    assert_eq!(at(&json("7"), "[n]"), None);
}

#[test]
fn a_copy_is_value_for_value() {
    let doc = json(r#"{"a": [1, -2, 2.5, "x", null, false, {"b": []}]}"#);
    assert_eq!(doc.duplicate(), doc);
}

#[test]
fn a_read_goes_in_parts_without_a_wildcard() {
    let doc = json(r#"{"a": {"b": [{"c": 1}, {"c": 2}]}}"#);
    let middle = at(&doc, "a.b[1]").expect("reads");
    assert_eq!(at(&doc, "a.b[1].c"), at(middle, "c"));
    assert_eq!(at(&doc, "a.b[1].c"), Some(&json("2")));
    assert_eq!(at(&doc, "a.x.c"), None);
    assert_eq!(at(&doc, "a.x"), None);
}

#[test]
fn a_name_and_a_key_step_into_the_same_member() {
    let doc = json(r#"{"order": {"customer": {"name": "Ada"}}}"#);
    assert_eq!(at(&doc, "order.customer.name"), at(&doc, "['order']['customer']['name']"));
    assert_eq!(at(&doc, "order['customer'].name"), Some(&json(r#""Ada""#)));
    let mut by_name = json(r#"{"order": {}}"#);
    let mut by_key = json(r#"{"order": {}}"#);
    assert_eq!(put(&mut by_name, "order.ref", &json("1")), 1);
    assert_eq!(put(&mut by_key, "order['ref']", &json("1")), 1);
    assert_eq!(by_name, by_key);
}
