use sdif::{lex_lines, TokenKind};

#[test]
fn lexes_one_token_per_non_blank_line() {
    let toks = lex_lines("@sdif 1.0\n\n# note\nkind Agent\nobj:\n  t[a,b]:\n    x\ty\n");
    let kinds: Vec<TokenKind> = toks.iter().map(|t| t.kind.clone()).collect();
    assert_eq!(
        kinds,
        vec![
            TokenKind::Directive,
            TokenKind::Comment,
            TokenKind::Field,
            TokenKind::Block,
            TokenKind::TableHeader,
            TokenKind::TableRow,
        ]
    );
    assert_eq!(toks[1].line, 3);
    assert_eq!(toks[4].indent, 2);
    assert_eq!(toks[4].col, 3);
    assert_eq!(toks[4].value, "t[a,b]:");
}

#[test]
fn crlf_and_cr_split_lines() {
    let toks = lex_lines("a b\r\nc d\re f");
    let lines: Vec<u32> = toks.iter().map(|t| t.line).collect();
    assert_eq!(lines, vec![1, 2, 3]);
}

#[test]
fn header_needs_open_bracket_before_close() {
    let toks = lex_lines("t]x[:\n");
    assert_eq!(toks[0].kind, TokenKind::Block);
}

#[test]
fn crlf_and_cr_line_ends_give_the_same_tokens() {
    let lf = "@sdif 1.0\n\nkind Agent\nobj:\n  t[a]:\n    x\ty\n";
    let view = |text: &str| -> Vec<(TokenKind, String, u32, u32, u32)> {
        lex_lines(text)
            .iter()
            .map(|t| (t.kind.clone(), t.value.clone(), t.line, t.col, t.indent))
            .collect()
    };
    assert_eq!(view(&lf.replace('\n', "\r\n")), view(lf));
    assert_eq!(view(&lf.replace('\n', "\r")), view(lf));
    assert_eq!(view(lf).len(), 5);
}
