use sdif::{parse_text, parse_text_with_policy, Policy, Statement};

#[test]
fn table_with_exactly_the_row_limit_is_accepted() {
    let policy = Policy { max_table_row_count: 2, ..Policy::default() };
    let doc = parse_text_with_policy("@sdif 1.0\nt[a]:\n  1\n  2\n", &policy).unwrap();
    let tables = doc.tables();
    assert_eq!(tables.len(), 1);
    assert_eq!(tables[0].rows.len(), 2);
}

#[test]
fn nested_table_over_the_row_limit_is_refused() {
    let policy = Policy { max_table_row_count: 1, ..Policy::default() };
    let err = parse_text_with_policy("@sdif 1.0\nouter:\n  t[a]:\n    1\n    2\n", &policy).unwrap_err();
    assert_eq!(err.code, "SDIF_POLICY_TABLE_ROW_COUNT");
}

#[test]
fn nesting_at_exactly_the_depth_limit_is_accepted() {
    let policy = Policy { max_nesting_depth: 2, ..Policy::default() };
    let doc = parse_text_with_policy("@sdif 1.0\na:\n  b:\n    k v\n", &policy).unwrap();
    match &doc.statements[0] {
        Statement::ObjectBlock(a) => match &a.statements[0] {
            Statement::ObjectBlock(b) => assert_eq!(b.fields().len(), 1),
            _ => panic!("expected an inner object block"),
        },
        _ => panic!("expected an object block"),
    }
}

#[test]
fn nesting_one_past_the_depth_limit_is_refused() {
    let policy = Policy { max_nesting_depth: 2, ..Policy::default() };
    let err = parse_text_with_policy("@sdif 1.0\na:\n  b:\n    c:\n      k v\n", &policy).unwrap_err();
    assert_eq!(err.code, "SDIF_POLICY_NESTING_DEPTH");
}

#[test]
fn values_at_exactly_the_length_limit_are_accepted() {
    let policy = Policy { max_string_length: 4, ..Policy::default() };
    // "é" is two bytes in UTF-8: "ééé" is six bytes, "aé" three.
    let doc = parse_text_with_policy("@sdif 1.0\nk abcd\nt[a]:\n  aé\n", &policy).unwrap();
    assert_eq!(doc.fields()[0].value, "abcd");
    let err = parse_text_with_policy("@sdif 1.0\nk ééé\n", &policy).unwrap_err();
    assert_eq!(err.code, "SDIF_POLICY_STRING_LENGTH");
}

#[test]
fn long_relation_object_and_narrative_are_refused() {
    let policy = Policy { max_string_length: 3, ..Policy::default() };
    let rel = parse_text_with_policy("@sdif 1.0\nrel:\n  a b long\n", &policy).unwrap_err();
    assert_eq!(rel.code, "SDIF_POLICY_STRING_LENGTH");
    let nar = parse_text_with_policy("@sdif 1.0\nn \"\"\"\nlong\n\"\"\"\n", &policy).unwrap_err();
    assert_eq!(nar.code, "SDIF_POLICY_STRING_LENGTH");
}

#[test]
fn parsed_document_declares_its_format_once() {
    let doc = parse_text("@sdif.ai 1.0\nalias[e=rel]\n@profile core\nk v\n").unwrap();
    let versions = doc
        .directives
        .iter()
        .filter(|d| d.name == "sdif" || d.name == "sdif.ai")
        .count();
    assert_eq!(versions, 1);
}
