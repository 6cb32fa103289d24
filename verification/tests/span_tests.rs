use sdif::Span;

#[test]
fn test_span_contains_point_inside() {
    let s = Span::single_line(3, 5, 10);
    assert!(s.contains(3, 7));
}

#[test]
fn test_span_contains_point_at_start() {
    let s = Span::single_line(3, 5, 10);
    assert!(s.contains(3, 5));
}

#[test]
fn test_span_contains_point_at_end_exclusive() {
    let s = Span::single_line(3, 5, 10);
    assert!(!s.contains(3, 10));
}

#[test]
fn test_span_contains_wrong_line() {
    let s = Span::single_line(3, 5, 10);
    assert!(!s.contains(2, 7));
}

#[test]
fn test_span_contains_multiline() {
    let s = Span::new(2, 1, 4, 5);
    assert!(s.contains(3, 1));
    assert!(s.contains(2, 3));
    assert!(s.contains(4, 1));
    assert!(!s.contains(4, 5));
    assert!(!s.contains(5, 1));
}

#[test]
fn span_new_keeps_its_coordinates() {
    let s = Span::new(1, 2, 3, 4);
    assert_eq!((s.start_line, s.start_col, s.end_line, s.end_col), (1, 2, 3, 4));
    let t = Span::single_line(7, 3, 9);
    assert_eq!((t.start_line, t.start_col, t.end_line, t.end_col), (7, 3, 7, 9));
}

#[test]
fn span_contains_is_empty_when_end_not_after_start() {
    let s = Span::single_line(2, 5, 5);
    assert!(!s.contains(2, 5));
    assert!(!s.contains(2, 4));
}
