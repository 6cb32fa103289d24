use sdif::{parse_text, ParseError, PolicyError, Span, RESERVED_TERMS};

#[test]
fn parse_error_display_text() {
    let err = parse_text("key value\n").unwrap_err();
    assert_eq!(err.to_display_string(), "[SDIF_VERSION_MISSING] 1:1: document must declare @sdif 1.0 or @sdif.ai 1.0");
}

#[test]
fn policy_errors_map_to_sentinel_span() {
    let p = PolicyError::new("P".to_string(), "m".to_string());
    assert_eq!(p.to_display_string(), "[P] m");
    let e = ParseError::from_policy(p);
    assert_eq!(e.span, Span::single_line(1, 1, 1));
    let e = ParseError::policy_at("C".to_string(), "x".to_string(), 7).with_hint("h".to_string());
    assert_eq!(e.span, Span::single_line(7, 1, 1));
    assert_eq!(e.hint.as_deref(), Some("h"));
}

#[test]
fn reserved_terms() {
    assert_eq!(RESERVED_TERMS, ["include", "alias"]);
}
