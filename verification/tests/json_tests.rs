use sdif::{document_to_json, json_to_sdif, parse_text, JsonObject, JsonValue};

fn s(x: &str) -> JsonValue {
    JsonValue::String(x.to_string())
}

#[test]
fn to_json_coerces_unquoted_scalars() {
    let doc = parse_text("@sdif 1.0\na null\nb true\nc -7\nd 1.50\ne \"42\"\nf 007\n").unwrap();
    let json = document_to_json(&doc);
    assert_eq!(json.get("a"), Some(&JsonValue::Null));
    assert_eq!(json.get("b"), Some(&JsonValue::Bool(true)));
    assert_eq!(json.get("c"), Some(&JsonValue::Number("-7".to_string())));
    assert_eq!(json.get("d"), Some(&JsonValue::Number("1.50".to_string())));
    assert_eq!(json.get("e"), Some(&s("42")));
    assert_eq!(json.get("f"), Some(&s("007")));
}

#[test]
fn to_json_relations_rules_and_items() {
    let src = "@sdif 1.0\nrel:\n  a knows 5\nrules:\n  (deny x)\nlist:\n  __item:\n    __value one\n  __item:\n    __value two\n";
    let json = document_to_json(&parse_text(src).unwrap());
    let rel = json.get("_relations").unwrap().at(0).unwrap();
    assert_eq!(rel.get("subject").unwrap().as_str(), Some("a"));
    assert_eq!(rel.get("object"), Some(&JsonValue::Number("5".to_string())));
    assert_eq!(json.get("_rules").unwrap().at(0).unwrap().as_str(), Some("(deny x)"));
    let list = json.get("list").unwrap();
    assert_eq!(list.at(1).unwrap().as_str(), Some("two"));
}

#[test]
fn json_object_keeps_keys_sorted_and_unique() {
    let mut o = JsonObject::new();
    o.insert("b".to_string(), s("1"));
    o.insert("a".to_string(), s("2"));
    o.insert("b".to_string(), s("3"));
    assert_eq!(o.len(), 2);
    assert_eq!(o.entry_at(0).0, "a");
    assert_eq!(o.entry_at(1).1, &s("3"));
}

#[test]
fn from_json_writes_tables_lists_and_blocks() {
    let mut row1 = JsonObject::new();
    row1.insert("id".to_string(), s("a"));
    row1.insert("n".to_string(), JsonValue::Number("1".to_string()));
    let mut row2 = JsonObject::new();
    row2.insert("id".to_string(), s("b c"));
    row2.insert("n".to_string(), JsonValue::Number("2".to_string()));
    let mut inner = JsonObject::new();
    inner.insert("x".to_string(), s("has space"));
    let mut top = JsonObject::new();
    top.insert("rows".to_string(), JsonValue::Array(vec![JsonValue::Object(row1), JsonValue::Object(row2)]));
    top.insert("tags".to_string(), JsonValue::Array(vec![s("p"), s("q,r")]));
    top.insert("empty".to_string(), JsonValue::Array(vec![]));
    top.insert("obj".to_string(), JsonValue::Object(inner));
    top.insert("num".to_string(), s("12"));
    let text = json_to_sdif(&JsonValue::Object(top));
    assert_eq!(
        text,
        "@sdif 1.0\nempty []\nnum \"12\"\nobj:\n  x \"has space\"\nrows[id,n]:\n  a\t1\n  b c\t2\ntags [p,\"q,r\"]\n"
    );
    parse_text(&text).unwrap();
}

#[test]
fn from_json_writes_items_and_multiline_strings() {
    let mut top = JsonObject::new();
    top.insert("mixed".to_string(), JsonValue::Array(vec![s("a"), JsonValue::Array(vec![JsonValue::Null])]));
    top.insert("story".to_string(), s("l1\nl2"));
    let text = json_to_sdif(&JsonValue::Object(top));
    assert_eq!(
        text,
        "@sdif 1.0\nmixed:\n  __item:\n    __value a\n  __item:\n    __value:\n      __item:\n        __value null\nstory \"\"\"\nl1\nl2\n\"\"\"\n"
    );
}

#[test]
fn from_json_quotes_nested_values_as_json_text() {
    let mut obj = JsonObject::new();
    obj.insert("subject".to_string(), s("a"));
    obj.insert("predicate".to_string(), s("has"));
    obj.insert("object".to_string(), JsonValue::Array(vec![s("x\"y"), JsonValue::Bool(false)]));
    let mut top = JsonObject::new();
    top.insert("_relations".to_string(), JsonValue::Array(vec![JsonValue::Object(obj)]));
    let text = json_to_sdif(&JsonValue::Object(top));
    assert_eq!(text, "@sdif 1.0\n_relations:\n  a has \"[\\\"x\\\\\\\"y\\\",false]\"\n");
}
