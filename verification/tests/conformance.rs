use sdif::{ai_view, document_to_json, json_to_sdif, parse_text, JsonObject, JsonValue, Policy, Statement};

#[test]
fn table_quoted_columns_is_empty_for_plain_headers() {
    let src = "@sdif 1.0\npeople[name,age]:\n  alice\t30\n";
    let doc = parse_text(src).unwrap();
    let Statement::Table(t) = &doc.statements[0] else {
        panic!("expected Table")
    };
    assert_eq!(t.quoted_columns, Vec::<usize>::new());
}

#[test]
fn table_tracks_quoted_columns() {
    let src = "@sdif 1.0\npeople[id,name]:\n  1\t\"Alice\"\n  2\t\"Bob\"\n";
    let doc = parse_text(src).unwrap();
    let Statement::Table(t) = &doc.statements[0] else {
        panic!("expected Table")
    };
    assert!(t.quoted_columns.contains(&1), "column 1 should be quoted");
    assert!(!t.quoted_columns.contains(&0), "column 0 should not be quoted");
}

#[test]
fn table_quoted_columns_empty_when_no_quotes() {
    let src = "@sdif 1.0\npeople[id,name]:\n  1\talice\n  2\tbob\n";
    let doc = parse_text(src).unwrap();
    let Statement::Table(t) = &doc.statements[0] else {
        panic!("expected Table")
    };
    assert!(t.quoted_columns.is_empty());
}

#[test]
fn document_fields_accessor_returns_fields() {
    let src = "@sdif 1.0\nkind Agent\nid foo\n";
    let doc = parse_text(src).unwrap();
    let keys: Vec<&str> = doc.fields().iter().map(|f| f.key.as_str()).collect();
    assert_eq!(keys, ["kind", "id"]);
}

#[test]
fn document_tables_accessor_returns_tables() {
    let src = "@sdif 1.0\nitems[id,val]:\n  a\t1\n";
    let doc = parse_text(src).unwrap();
    let names: Vec<&str> = doc.tables().iter().map(|t| t.name.as_str()).collect();
    assert_eq!(names, ["items"]);
}

#[test]
fn object_block_fields_accessor() {
    let src = "@sdif 1.0\ncontact:\n  name Alice\n  email a@b.com\n";
    let doc = parse_text(src).unwrap();
    let Statement::ObjectBlock(obj) = &doc.statements[0] else {
        panic!("expected ObjectBlock")
    };
    let keys: Vec<&str> = obj.fields().iter().map(|f| f.key.as_str()).collect();
    assert_eq!(keys, ["name", "email"]);
}

#[test]
fn policy_allowed_include_paths_defaults_empty() {
    let p = Policy::default();
    assert!(p.allowed_include_paths.is_empty());
}

#[test]
fn to_json_scalar_fields() {
    let src = "@sdif 1.0\nkind Agent\nid foo\n";
    let doc = parse_text(src).unwrap();
    let json = document_to_json(&doc);
    assert_eq!(json.get("kind").unwrap().as_str(), Some("Agent"));
    assert_eq!(json.get("id").unwrap().as_str(), Some("foo"));
}

#[test]
fn to_json_table_rows() {
    // Table rows use HTAB separators.
    let src = "@sdif 1.0\npeople[id,age]:\n  alice\t30\n  bob\t25\n";
    let doc = parse_text(src).unwrap();
    let json = document_to_json(&doc);
    assert!(json.get("people").unwrap().is_array());
    let first = json.get("people").unwrap().at(0).unwrap();
    assert_eq!(first.get("id").unwrap().as_str(), Some("alice"));
    assert_eq!(first.get("age").unwrap().as_str(), Some("30"));
}

#[test]
fn from_json_produces_parseable_sdif() {
    let mut obj = JsonObject::new();
    obj.insert("kind".to_string(), JsonValue::String("Test".to_string()));
    obj.insert("id".to_string(), JsonValue::String("x1".to_string()));
    let data = JsonValue::Object(obj);
    let sdif_text = json_to_sdif(&data);
    let doc = parse_text(&sdif_text).unwrap();
    let fields = doc.fields();
    assert_eq!(fields.iter().find(|f| f.key == "id").unwrap().value, "x1");
}

#[test]
fn ai_view_returns_sdif_ai_header() {
    let doc = parse_text("@sdif 1.0\nkind Agent\n").unwrap();
    let view = ai_view(&doc);
    assert!(view.contains("@sdif.ai"), "ai_view must emit @sdif.ai header");
    parse_text(&view).expect("ai_view output must be valid SDIF");
}

#[test]
fn ai_view_of_alias_document_parses() {
    let src = "@sdif.ai 1.0\nalias[e=rel,k=kind]\nk Agent\ne:\n  a b c\n";
    let doc = parse_text(src).unwrap();
    let view = ai_view(&doc);
    assert_eq!(view, "@sdif.ai 1.0\nalias[e=rel,k=kind]\nk Agent\nrel:\n  a b c\n");
    parse_text(&view).expect("ai_view output must be valid SDIF");
}
