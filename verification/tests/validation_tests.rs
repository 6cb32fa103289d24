use sdif::parse_text;
use sdif::validation::{validate, Schema, SchemaError};

#[test]
fn validate_empty_doc_against_empty_schema_ok() {
    let doc = parse_text("@sdif 1.0\n").unwrap();
    let schema = Schema::default();
    let diags = validate(&doc, &schema);
    assert!(diags.is_empty());
}

#[test]
fn schema_from_document_requires_kind_schema() {
    let doc = parse_text("@sdif 1.0\nkind Agent\n").unwrap();
    let result = Schema::from_document(&doc);
    assert!(matches!(result, Err(SchemaError(_))));
}

#[test]
fn schema_from_document_ok_for_schema_doc() {
    let doc = parse_text("@sdif 1.0\nkind Schema\n").unwrap();
    let schema = Schema::from_document(&doc).unwrap();
    assert!(schema.required_fields.is_empty());
}

#[test]
fn schema_from_document_loads_required_fields() {
    let schema_doc = parse_text("@sdif 1.0\nkind Schema\nrequired[field]:\n  id\n  name\n").unwrap();
    let schema = Schema::from_document(&schema_doc).unwrap();
    assert!(schema.required_fields.contains("id"));
    assert!(schema.required_fields.contains("name"));
}

#[test]
fn validate_reports_missing_required_field_with_rich_diagnostic() {
    let schema_doc = parse_text("@sdif 1.0\nkind Schema\nrequired[field]:\n  id\n").unwrap();
    let schema = Schema::from_document(&schema_doc).unwrap();
    let doc = parse_text("@sdif 1.0\nkind Agent\n").unwrap();
    let diagnostics = validate(&doc, &schema);
    assert_eq!(diagnostics.len(), 1);
    assert_eq!(diagnostics[0].code, "SDIF_MISSING_FIELD");
    assert_eq!(diagnostics[0].severity, "error");
    assert_eq!(diagnostics[0].path, "$.id");
    assert!(diagnostics[0].message.contains("id"));
}

#[test]
fn schema_from_document_loads_field_types() {
    let schema_doc = parse_text("@sdif 1.0\nkind Schema\nfield_types[field,type]:\n  age\tInteger\n").unwrap();
    let schema = Schema::from_document(&schema_doc).unwrap();
    assert_eq!(schema.field_types.get("age").map(String::as_str), Some("Integer"));
}

#[test]
fn validate_reports_field_type_mismatch() {
    let schema_doc = parse_text("@sdif 1.0\nkind Schema\nfield_types[field,type]:\n  age\tInteger\n").unwrap();
    let schema = Schema::from_document(&schema_doc).unwrap();
    let doc = parse_text("@sdif 1.0\nage nope\n").unwrap();
    let diagnostics = validate(&doc, &schema);
    assert_eq!(diagnostics.len(), 1);
    assert_eq!(diagnostics[0].code, "SDIF_TYPE_MISMATCH");
    assert_eq!(diagnostics[0].path, "$.age");
}

#[test]
fn schema_from_document_loads_required_table_columns() {
    let schema_doc = parse_text(
        "@sdif 1.0\nkind Schema\nrequired_columns[table,column]:\n  users\tid\n  users\temail\n",
    )
    .unwrap();
    let schema = Schema::from_document(&schema_doc).unwrap();
    let users = schema.required_table_columns.get("users").unwrap();
    assert!(users.contains("id"));
    assert!(users.contains("email"));
}

#[test]
fn validate_reports_missing_required_table_column() {
    let schema_doc = parse_text("@sdif 1.0\nkind Schema\nrequired_columns[table,column]:\n  users\temail\n").unwrap();
    let schema = Schema::from_document(&schema_doc).unwrap();
    let doc = parse_text("@sdif 1.0\nusers[id,name]:\n  1\tAlice\n").unwrap();
    let diagnostics = validate(&doc, &schema);
    assert_eq!(diagnostics.len(), 1);
    assert_eq!(diagnostics[0].code, "SDIF_MISSING_COLUMN");
    assert_eq!(diagnostics[0].path, "$.users");
}

#[test]
fn schema_error_messages() {
    let doc = parse_text("@sdif 1.0\nkind Agent\n").unwrap();
    let err = Schema::from_document(&doc).err().unwrap();
    assert_eq!(err.0, "expected schema document with `kind Schema`, got `Agent`");
    assert_eq!(err.to_display_string(), "SchemaError: expected schema document with `kind Schema`, got `Agent`");
    let doc = parse_text("@sdif 1.0\nid x\n").unwrap();
    let err = Schema::from_document(&doc).err().unwrap();
    assert_eq!(err.0, "expected schema document with `kind Schema`, got `<missing>`");
}

#[test]
fn field_types_accept_matching_values() {
    let schema_doc = parse_text(
        "@sdif 1.0\nkind Schema\nfield_types[field,type]:\n  age\tInteger\n  ratio\tNumber\n  ok\tBoolean\n  name\tString\n",
    )
    .unwrap();
    let schema = Schema::from_document(&schema_doc).unwrap();
    let doc = parse_text("@sdif 1.0\nage -42\nratio 0.5\nok true\nname \"x y\"\n").unwrap();
    assert!(validate(&doc, &schema).is_empty());
    let doc = parse_text("@sdif 1.0\nage \"42\"\nratio 01.5\nok yes\n").unwrap();
    let d = validate(&doc, &schema);
    assert_eq!(d.len(), 3);
    assert_eq!(d[0].message, "field 'age' must be of type Integer, got '42'");
}

#[test]
fn schema_loads_policies_and_column_types() {
    let src = "@sdif 1.0\nkind Schema\ncolumn_types[table,column,type]:\n  users\tid\tInteger\n  users\tname\tString\ntable_policies[name,ordered,primary_key]:\n  users\tfalse\tid\n  logs\ttrue\t\nrelation_policies[predicate,required]:\n  knows\ttrue\n";
    let schema = Schema::from_document(&parse_text(src).unwrap()).unwrap();
    let users = schema.table_column_types.get("users").unwrap();
    assert_eq!(users.get("name").map(String::as_str), Some("String"));
    assert_eq!(users.len(), 2);
    let p = schema.table_policies.get("users").unwrap();
    assert!(!p.ordered);
    assert_eq!(p.primary_key.as_deref(), Some("id"));
    let logs = schema.table_policies.get("logs").unwrap();
    assert!(logs.ordered);
    assert_eq!(logs.primary_key, None);
    let r = schema.relation_policies.get("knows").unwrap();
    assert!(r.required);
    assert_eq!(r.subject_type, "Identifier");
    assert_eq!(r.object_type, "Identifier");
}

#[test]
fn legacy_lists_are_checked() {
    let mut schema = Schema::default();
    schema.allowed_tables.push("users".to_string());
    schema.allowed_predicates.push("knows".to_string());
    schema.allowed_rule_functions.push("max".to_string());
    schema.required_columns.insert("users".to_string(), vec!["email".to_string()]);
    let doc = parse_text("@sdif 1.0\nusers[id]:\n  1\nother[x]:\n  2\nrel:\n  a likes b\nrules:\n  (deny min 1)\n").unwrap();
    let d = validate(&doc, &schema);
    let codes: Vec<&str> = d.iter().map(|x| x.code.as_str()).collect();
    assert_eq!(
        codes,
        ["SDIF_TABLE_NOT_ALLOWED", "SDIF_MISSING_COLUMN", "SDIF_PREDICATE_NOT_ALLOWED", "SDIF_RULE_FUNCTION_NOT_ALLOWED"]
    );
    assert_eq!(d[0].message, "table 'other' is not in the allowed tables list");
    assert_eq!(d[1].message, "table 'users' is missing required column 'email'");
}

#[test]
fn default_schema_reports_nothing() {
    let doc = sdif::parse_text(
        "@sdif 1.0\nkind Agent\ncount \"x\"\nt[a,b]:\n  1\t2\nrel:\n  a knows b\nrules:\n  (deny too_many 3)\n",
    )
    .unwrap();
    assert!(sdif::validate(&doc, &sdif::Schema::default()).is_empty());
}
