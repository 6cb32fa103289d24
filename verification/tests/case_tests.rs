//! Named conformance cases: valid sources that must parse (and their
//! canonical forms and hashes), and invalid sources with their error codes.

use sdif::{ai_view, canonicalize, parse_text, sdif_hash};
use sha2::{Digest, Sha256};

const CORE_AGENT: &str = "@sdif 1.0\n@profile core\nname \"Core Agent\"\nid agent-1\nkind Agent\nversion 2\ncapabilities:\n  search true\n  limit 10\ntools[name,enabled]:\n  web\ttrue\n  code\tfalse\nrel:\n  agent-1 uses web\n  agent-1 owns code\nrules:\n  (deny too_many 3)\n";
const CORE_AGENT_CANONICAL: &str = "@sdif 1.0\n@profile core\nkind Agent\nid agent-1\nname \"Core Agent\"\nversion 2\ncapabilities:\n  limit 10\n  search true\ntools[name,enabled]:\n  web\ttrue\n  code\tfalse\nrel:\n  agent-1 owns code\n  agent-1 uses web\nrules:\n  (deny too_many 3)\n";

const VERSION_VALID: &str = "@sdif 1.0\n\n# a comment\nid v1\nkind Test\n";
const VERSION_VALID_CANONICAL: &str = "@sdif 1.0\nkind Test\nid v1\n";

const AI_ALIAS_HEADER: &str = "@sdif.ai 1.0\nalias[e=rel]\nkind Agent\nid a1\ne:\n  a1 knows b2\n";
const AI_ALIAS_HEADER_CANONICAL: &str = "@sdif.ai 1.0\nalias[e=rel]\nkind Agent\nid a1\nrel:\n  a1 knows b2\n";

const AI_COMPACT_TABLE: &str = "@sdif.ai 1.0\nkind Roster\npeople[id,name,age]:\n  p1\t\"Ann Lee\"\t30\n  p2\tBob\t41\n";
const AI_COMPACT_TABLE_CANONICAL: &str = "@sdif.ai 1.0\nkind Roster\npeople[id,name,age]:\n  p1\t\"Ann Lee\"\t30\n  p2\t\"Bob\"\t41\n";

const AI_RELATION_QUOTED_OBJECT: &str = "@sdif.ai 1.0\nkind Graph\nrel:\n  alice says \"hello world\"\n  alice knows bob\n";
const AI_RELATION_QUOTED_OBJECT_CANONICAL: &str = "@sdif.ai 1.0\nkind Graph\nrel:\n  alice knows bob\n  alice says \"hello world\"\n";

const AI_ROUNDTRIP_SAFE: &str = "@sdif.ai 1.0\nkind Agent\nid a1\nrel[a1]:\n  uses web\n  owns repo\nnote \"a: b\"\n";
const AI_ROUNDTRIP_SAFE_CANONICAL: &str = "@sdif.ai 1.0\nkind Agent\nid a1\nnote \"a: b\"\nrel:\n  a1 owns repo\n  a1 uses web\n";

const NESTED_NARRATIVE: &str = "@sdif 1.0\nkind Doc\nprofile:\n  bio \"\"\"\n  First line.\n    Indented line.\n  \"\"\"\n  title Intro\n";
const NESTED_NARRATIVE_CANONICAL: &str = "@sdif 1.0\nkind Doc\nprofile:\n  title Intro\n  bio \"\"\"\n  First line.\n    Indented line.\n  \"\"\"\n";

fn sha256_hex(text: &str) -> String {
    Sha256::digest(text.as_bytes()).iter().map(|b| format!("{:02x}", b)).collect()
}

fn error_code(source: &str) -> String {
    let result = parse_text(source);
    assert!(result.is_err(), "Expected Err, got Ok");
    result.unwrap_err().code
}

// ---------------------------------------------------------------------------
// Valid cases
// ---------------------------------------------------------------------------

#[test]
fn valid_core_agent() {
    let result = parse_text(CORE_AGENT);
    assert!(result.is_ok(), "Expected Ok, got: {:?}", result.err());
}

#[test]
fn valid_ai_compact_table() {
    let result = parse_text(AI_COMPACT_TABLE);
    assert!(result.is_ok(), "Expected Ok, got: {:?}", result.err());
}

#[test]
fn valid_ai_alias_header() {
    let result = parse_text(AI_ALIAS_HEADER);
    assert!(result.is_ok(), "Expected Ok, got: {:?}", result.err());
}

#[test]
fn valid_version_valid() {
    let result = parse_text(VERSION_VALID);
    assert!(result.is_ok(), "Expected Ok, got: {:?}", result.err());
}

#[test]
fn valid_nested_narrative_canonical() {
    let result = parse_text(NESTED_NARRATIVE);
    assert!(result.is_ok(), "Expected Ok, got: {:?}", result.err());
}

#[test]
fn valid_ai_roundtrip_safe() {
    let result = parse_text(AI_ROUNDTRIP_SAFE);
    assert!(result.is_ok(), "Expected Ok, got: {:?}", result.err());
}

#[test]
fn valid_ai_relation_quoted_object() {
    let result = parse_text(AI_RELATION_QUOTED_OBJECT);
    assert!(result.is_ok(), "Expected Ok, got: {:?}", result.err());
}

// ---------------------------------------------------------------------------
// Canonical forms and hashes
// ---------------------------------------------------------------------------

fn check_canonical(source: &str, expected: &str) {
    let doc = parse_text(source).unwrap();
    assert_eq!(canonicalize(&doc), expected);
}

fn check_hash(source: &str, canonical: &str) {
    let doc = parse_text(source).unwrap();
    assert_eq!(sdif_hash(&doc), sha256_hex(canonical));
}

#[test]
fn canonical_core_agent() {
    check_canonical(CORE_AGENT, CORE_AGENT_CANONICAL);
}

#[test]
fn hash_core_agent() {
    check_hash(CORE_AGENT, CORE_AGENT_CANONICAL);
}

#[test]
fn canonical_version_valid() {
    check_canonical(VERSION_VALID, VERSION_VALID_CANONICAL);
}

#[test]
fn hash_version_valid() {
    check_hash(VERSION_VALID, VERSION_VALID_CANONICAL);
}

#[test]
fn canonical_ai_alias_header() {
    check_canonical(AI_ALIAS_HEADER, AI_ALIAS_HEADER_CANONICAL);
}

#[test]
fn hash_ai_alias_header() {
    check_hash(AI_ALIAS_HEADER, AI_ALIAS_HEADER_CANONICAL);
}

#[test]
fn canonical_ai_compact_table() {
    check_canonical(AI_COMPACT_TABLE, AI_COMPACT_TABLE_CANONICAL);
}

#[test]
fn hash_ai_compact_table() {
    check_hash(AI_COMPACT_TABLE, AI_COMPACT_TABLE_CANONICAL);
}

#[test]
fn canonical_ai_relation_quoted_object() {
    check_canonical(AI_RELATION_QUOTED_OBJECT, AI_RELATION_QUOTED_OBJECT_CANONICAL);
}

#[test]
fn hash_ai_relation_quoted_object() {
    check_hash(AI_RELATION_QUOTED_OBJECT, AI_RELATION_QUOTED_OBJECT_CANONICAL);
}

#[test]
fn canonical_ai_roundtrip_safe() {
    check_canonical(AI_ROUNDTRIP_SAFE, AI_ROUNDTRIP_SAFE_CANONICAL);
}

#[test]
fn hash_ai_roundtrip_safe() {
    check_hash(AI_ROUNDTRIP_SAFE, AI_ROUNDTRIP_SAFE_CANONICAL);
}

#[test]
fn canonical_nested_narrative_canonical() {
    check_canonical(NESTED_NARRATIVE, NESTED_NARRATIVE_CANONICAL);
}

#[test]
fn hash_nested_narrative_canonical() {
    check_hash(NESTED_NARRATIVE, NESTED_NARRATIVE_CANONICAL);
}

#[test]
fn canonical_forms_are_fixed_points() {
    for canonical in [
        CORE_AGENT_CANONICAL,
        VERSION_VALID_CANONICAL,
        AI_ALIAS_HEADER_CANONICAL,
        AI_COMPACT_TABLE_CANONICAL,
        AI_RELATION_QUOTED_OBJECT_CANONICAL,
        AI_ROUNDTRIP_SAFE_CANONICAL,
        NESTED_NARRATIVE_CANONICAL,
    ] {
        check_canonical(canonical, canonical);
    }
}

#[test]
fn ai_view_conformance_ai_alias_header_parses() {
    let doc = parse_text(AI_ALIAS_HEADER).unwrap();
    let view = ai_view(&doc);
    parse_text(&view).expect("ai_view output must be valid SDIF");
}

// ---------------------------------------------------------------------------
// Invalid cases
// ---------------------------------------------------------------------------

#[test]
fn invalid_alias_collision() {
    assert_eq!(error_code("@sdif.ai 1.0\nalias[e=rel]\nalias[e=rules]\n"), "SDIF_POLICY_ALIAS_COLLISION");
}

#[test]
fn invalid_alias_reserved() {
    assert_eq!(error_code("@sdif.ai 1.0\nalias[e=include]\n"), "SDIF_POLICY_ALIAS_RESERVED");
}

#[test]
fn invalid_directive_unknown() {
    assert_eq!(error_code("@sdif 1.0\n@frobnicate x\n"), "SDIF_DIRECTIVE_UNKNOWN");
}

#[test]
fn invalid_narrative_bad_close() {
    assert_eq!(
        error_code("@sdif 1.0\nprofile:\n  bio \"\"\"\n  text\n\"\"\"\n"),
        "SDIF_NARRATIVE_CLOSE_ALIGN"
    );
}

#[test]
fn invalid_policy_nesting_depth() {
    let mut source = String::from("@sdif 1.0\n");
    for depth in 0..17 {
        source.push_str(&"  ".repeat(depth));
        source.push_str(&format!("level{depth}:\n"));
    }
    source.push_str(&"  ".repeat(17));
    source.push_str("k v\n");
    assert_eq!(error_code(&source), "SDIF_POLICY_NESTING_DEPTH");
}

#[test]
fn invalid_source_grouped_relation() {
    assert_eq!(error_code("@sdif 1.0\nrel[alice]:\n  knows bob\n"), "SDIF_AI_REL_SUBJECT");
}

#[test]
fn invalid_table_row_comment() {
    assert_eq!(error_code("@sdif 1.0\nt[a,b]:\n  1\t2 # note\n"), "SDIF_TABLE_ROW_COMMENT");
}

#[test]
fn invalid_table_too_few_cells() {
    assert_eq!(error_code("@sdif 1.0\nt[a,b,c]:\n  1\t2\n"), "SDIF_TABLE_ARITY");
}

#[test]
fn invalid_table_too_many_cells() {
    assert_eq!(error_code("@sdif 1.0\nt[a]:\n  1\t2\n"), "SDIF_TABLE_ARITY");
}

#[test]
fn invalid_version_bad_token() {
    assert_eq!(error_code("@sdif one\nkind Agent\n"), "SDIF_VERSION_UNSUPPORTED");
}

#[test]
fn invalid_version_missing() {
    assert_eq!(error_code("kind Agent\nid a1\n"), "SDIF_VERSION_MISSING");
}

#[test]
fn invalid_version_unsupported() {
    assert_eq!(error_code("@sdif 2.0\nkind Agent\n"), "SDIF_VERSION_UNSUPPORTED");
}

#[test]
fn invalid_scalar_unclosed_quote() {
    assert_eq!(error_code("@sdif 1.0\nname \"Core Agent\n"), "SDIF_STRING_UNCLOSED");
}

#[test]
fn invalid_scalar_trailing_after_quote() {
    assert_eq!(error_code("@sdif 1.0\nname \"Core\" Agent\n"), "SDIF_STRING_TRAILING");
}

#[test]
fn invalid_directive_empty() {
    assert_eq!(error_code("@sdif 1.0\n@\n"), "SDIF_DIRECTIVE");
}

#[test]
fn invalid_field_no_value() {
    assert_eq!(error_code("@sdif 1.0\nkind\n"), "SDIF_FIELD");
}

#[test]
fn invalid_indent_tab() {
    assert_eq!(error_code("@sdif 1.0\nprofile:\n\ttitle Intro\n"), "SDIF_INDENT_TAB");
}

#[test]
fn invalid_indent_unexpected() {
    assert_eq!(error_code("@sdif 1.0\nkind Agent\n    id a1\n"), "SDIF_INDENT");
}

#[test]
fn invalid_narrative_unclosed() {
    assert_eq!(error_code("@sdif 1.0\nbio \"\"\"\nFirst line.\n"), "SDIF_NARRATIVE_UNCLOSED");
}

#[test]
fn invalid_object_directive() {
    assert_eq!(error_code("@sdif 1.0\nprofile:\n  @profile core\n"), "SDIF_OBJECT_DIRECTIVE");
}

#[test]
fn invalid_relation_arity() {
    assert_eq!(error_code("@sdif 1.0\nrel:\n  alice knows bob well\n"), "SDIF_REL_ARITY");
}

#[test]
fn invalid_relation_quote() {
    assert_eq!(error_code("@sdif 1.0\nrel:\n  alice says \"hello\n"), "SDIF_REL_QUOTE");
}

#[test]
fn invalid_rule_expr() {
    assert_eq!(error_code("@sdif 1.0\nrules:\n  (allow x)\n"), "SDIF_RULE_EXPR");
}

#[test]
fn invalid_table_header_empty() {
    assert_eq!(error_code("@sdif 1.0\nt[ ]:\n"), "SDIF_TABLE_HEADER");
}

#[test]
fn invalid_version_conflict() {
    assert_eq!(error_code("@sdif 1.0\n@sdif.ai 1.0\n"), "SDIF_VERSION_CONFLICT");
}

#[test]
fn invalid_version_syntax() {
    assert_eq!(error_code("@sdif 1.0 1.1\n"), "SDIF_VERSION_SYNTAX");
}
