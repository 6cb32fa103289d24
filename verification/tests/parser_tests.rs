use sdif::{parse_text, parse_text_with_policy, Policy, Statement};

#[test]
fn test_minimal_document() {
    let doc = parse_text("@sdif 1.0\nkey value\n").unwrap();
    assert!(doc.directives.iter().any(|d| d.name == "sdif"));
    assert_eq!(doc.statements.len(), 1);
}

#[test]
fn test_version_missing() {
    let err = parse_text("key value\n").unwrap_err();
    assert_eq!(err.code, "SDIF_VERSION_MISSING");
}

#[test]
fn test_version_conflict() {
    let err = parse_text("@sdif 1.0\n@sdif 1.0\nkey value\n").unwrap_err();
    assert_eq!(err.code, "SDIF_VERSION_CONFLICT");
}

#[test]
fn test_quoted_field() {
    let doc = parse_text("@sdif 1.0\nkey \"hello world\"\n").unwrap();
    if let Statement::Field(f) = &doc.statements[0] {
        assert!(f.quoted);
        assert_eq!(f.value, "hello world");
    } else {
        panic!("Expected a Field statement");
    }
}

#[test]
fn test_unclosed_quote() {
    let err = parse_text("@sdif 1.0\nkey \"unclosed\n").unwrap_err();
    assert_eq!(err.code, "SDIF_STRING_UNCLOSED");
}

#[test]
fn test_table() {
    let src = "@sdif 1.0\ndata[a,b]:\n  x\ty\n";
    let doc = parse_text(src).unwrap();
    if let Statement::Table(t) = &doc.statements[0] {
        assert_eq!(t.name, "data");
        assert_eq!(t.columns, vec!["a", "b"]);
        assert_eq!(t.rows[0], vec!["x", "y"]);
    } else {
        panic!("Expected a Table statement");
    }
}

#[test]
fn test_relation_block() {
    let src = "@sdif 1.0\nrel:\n  a b c\n";
    let doc = parse_text(src).unwrap();
    if let Statement::Relation(r) = &doc.statements[0] {
        assert_eq!(r.subject, "a");
        assert_eq!(r.predicate, "b");
        assert_eq!(r.object, "c");
    } else {
        panic!("Expected a Relation statement");
    }
}

#[test]
fn test_indent_tab_error() {
    let err = parse_text("@sdif 1.0\n\tkey value\n").unwrap_err();
    assert_eq!(err.code, "SDIF_INDENT_TAB");
}

#[test]
fn test_policy_document_size() {
    let policy = Policy { max_document_size: 10, ..Policy::default() };
    let err = parse_text_with_policy("@sdif 1.0\nkey value\n", &policy).unwrap_err();
    assert_eq!(err.code, "SDIF_POLICY_DOCUMENT_SIZE");
}

fn code_of(src: &str) -> String {
    parse_text(src).unwrap_err().code
}

#[test]
fn rejects_alias_collision() {
    assert_eq!(code_of("@sdif.ai 1.0\nalias[e=rel]\nalias[e=rules]\n"), "SDIF_POLICY_ALIAS_COLLISION");
}

#[test]
fn rejects_reserved_alias() {
    assert_eq!(code_of("@sdif.ai 1.0\nalias[inc=include]\n"), "SDIF_POLICY_ALIAS_RESERVED");
}

#[test]
fn rejects_unknown_directive() {
    let err = parse_text("@sdif 1.0\n@bogus x\n").unwrap_err();
    assert_eq!(err.code, "SDIF_DIRECTIVE_UNKNOWN");
    assert_eq!(err.message, "unknown directive @bogus");
    assert_eq!(err.hint.as_deref(), Some("v1 documents only allow known core directives"));
    assert_eq!((err.span.start_line, err.span.start_col, err.span.end_col), (2, 1, 9));
}

#[test]
fn rejects_misaligned_narrative_close() {
    assert_eq!(code_of("@sdif 1.0\nbody \"\"\"\nhello\n  \"\"\"\n"), "SDIF_NARRATIVE_CLOSE_ALIGN");
}

#[test]
fn rejects_unclosed_narrative() {
    assert_eq!(code_of("@sdif 1.0\nbody \"\"\"\nhello\n"), "SDIF_NARRATIVE_UNCLOSED");
}

#[test]
fn rejects_deep_nesting() {
    let policy = Policy { max_nesting_depth: 1, ..Policy::default() };
    let err = parse_text_with_policy("@sdif 1.0\na:\n  b:\n    c d\n", &policy).unwrap_err();
    assert_eq!(err.code, "SDIF_POLICY_NESTING_DEPTH");
    assert_eq!(err.message, "Nesting depth 2 exceeds maximum limit of 1");
}

#[test]
fn rejects_subject_grouped_relations_outside_ai_profile() {
    assert_eq!(code_of("@sdif 1.0\nrel[alice]:\n  knows bob\n"), "SDIF_AI_REL_SUBJECT");
}

#[test]
fn accepts_subject_grouped_relations_in_ai_profile() {
    let doc = parse_text("@sdif.ai 1.0\nrel[alice]:\n  knows bob\n  likes \"tea time\"\n").unwrap();
    assert_eq!(doc.statements.len(), 2);
    let Statement::Relation(r) = &doc.statements[1] else { panic!("expected relation") };
    assert_eq!((r.subject.as_str(), r.predicate.as_str(), r.object.as_str()), ("alice", "likes", "tea time"));
    assert!(r.object_quoted);
}

#[test]
fn rejects_table_row_comment() {
    assert_eq!(code_of("@sdif 1.0\nt[a,b]:\n  x\ty # note\n"), "SDIF_TABLE_ROW_COMMENT");
}

#[test]
fn rejects_table_rows_of_wrong_arity() {
    let err = parse_text("@sdif 1.0\nt[a,b]:\n  x\n").unwrap_err();
    assert_eq!(err.code, "SDIF_TABLE_ARITY");
    assert_eq!(err.message, "table row has 1 cells but header declares 2 columns");
    assert_eq!(code_of("@sdif 1.0\nt[a,b]:\n  x\ty\tz\n"), "SDIF_TABLE_ARITY");
}

#[test]
fn rejects_bad_versions() {
    assert_eq!(code_of("@sdif 2.0\n"), "SDIF_VERSION_UNSUPPORTED");
    assert_eq!(code_of("@sdif 1.0 extra\n"), "SDIF_VERSION_SYNTAX");
    assert_eq!(code_of("@sdif\n"), "SDIF_VERSION_SYNTAX");
}

#[test]
fn rejects_bad_scalars() {
    assert_eq!(code_of("@sdif 1.0\nk \"a\" b\n"), "SDIF_STRING_TRAILING");
    assert_eq!(code_of("@sdif 1.0\nlonely\n"), "SDIF_FIELD");
    assert_eq!(code_of("@sdif 1.0\n@\n"), "SDIF_DIRECTIVE");
}

#[test]
fn rejects_unexpected_indentation() {
    assert_eq!(code_of("@sdif 1.0\n  k v\n"), "SDIF_INDENT");
}

#[test]
fn rejects_directive_inside_object() {
    assert_eq!(code_of("@sdif 1.0\nobj:\n  @profile x\n"), "SDIF_OBJECT_DIRECTIVE");
}

#[test]
fn rejects_relation_rows() {
    assert_eq!(code_of("@sdif 1.0\nrel:\n  a b\n"), "SDIF_REL_ARITY");
    assert_eq!(code_of("@sdif 1.0\nrel:\n  a b \"c\n"), "SDIF_REL_QUOTE");
}

#[test]
fn rejects_bad_rules() {
    assert_eq!(code_of("@sdif 1.0\nrules:\n  (allow x)\n"), "SDIF_RULE_EXPR");
}

#[test]
fn rejects_table_without_columns() {
    assert_eq!(code_of("@sdif 1.0\nt[ , ]:\n"), "SDIF_TABLE_HEADER");
}

#[test]
fn rejects_long_strings() {
    let policy = Policy { max_string_length: 3, ..Policy::default() };
    let err = parse_text_with_policy("@sdif 1.0\nk abcd\n", &policy).unwrap_err();
    assert_eq!(err.code, "SDIF_POLICY_STRING_LENGTH");
    assert_eq!(err.message, "Field value length 4 exceeds maximum limit of 3");
    assert_eq!(err.span.start_line, 1);
}

#[test]
fn rejects_too_many_rows() {
    let policy = Policy { max_table_row_count: 1, ..Policy::default() };
    let err = parse_text_with_policy("@sdif 1.0\nt[a]:\n  x\n  y\n", &policy).unwrap_err();
    assert_eq!(err.code, "SDIF_POLICY_TABLE_ROW_COUNT");
}

#[test]
fn parses_nested_objects_rules_and_narratives() {
    let src = "@sdif 1.0\n# comment\nouter:\n  inner:\n    k v\n  n \"\"\"\n  line one\n    line two\n  \"\"\"\nrules:\n  (deny too_many 3)\n";
    let doc = parse_text(src).unwrap();
    assert_eq!(doc.statements.len(), 2);
    let Statement::ObjectBlock(o) = &doc.statements[0] else { panic!("expected block") };
    assert_eq!(o.statements.len(), 2);
    let Statement::Narrative(n) = &o.statements[1] else { panic!("expected narrative") };
    assert_eq!(n.text, "line one\n  line two");
    let Statement::Rule(r) = &doc.statements[1] else { panic!("expected rule") };
    assert_eq!(r.source, "(deny too_many 3)");
    let e = r.expression.as_ref().unwrap();
    assert_eq!((e.action.as_str(), e.function.as_str()), ("deny", "too_many"));
}

#[test]
fn aliases_of_rel_open_relation_blocks() {
    let doc = parse_text("@sdif.ai 1.0\nalias[e=rel]\ne:\n  a b c\n").unwrap();
    assert_eq!(doc.directives.len(), 2);
    assert_eq!(doc.directives[1].name, "alias");
    assert_eq!(doc.directives[1].args, vec!["e=rel"]);
    assert!(matches!(doc.statements[0], Statement::Relation(_)));
}

#[test]
fn crlf_line_endings_are_normalised() {
    let doc = parse_text("@sdif 1.0\r\nk v\r\n").unwrap();
    let Statement::Field(f) = &doc.statements[0] else { panic!("expected field") };
    assert_eq!((f.key.as_str(), f.value.as_str()), ("k", "v"));
}

#[test]
fn rule_error_escapes_unprintable_characters_as_debug_does() {
    let err = parse_text("@sdif 1.0\nrules:\n  (deny \"a\u{200B}b\u{85}é\")\n").unwrap_err();
    assert_eq!(err.code, "SDIF_RULE_EXPR");
    assert!(
        err.message.contains("Str(\"a\\u{200b}b\\u{85}é\")"),
        "unexpected message: {}",
        err.message
    );
}
