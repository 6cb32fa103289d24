//! Line-oriented lexer: each non-blank line of a document becomes one token.
use vstd::prelude::*;

use crate::lines::split_lines;
use crate::lines;
use crate::text::{chars_of, contains_char, ends_with_char, find_char_in, is_blank, slice_to_vec, starts_with_char, string_of};
use crate::text;

verus! {

/// The syntactic category of a lexed line.
#[derive(Debug, Clone, Copy, PartialEq, Eq, Structural)]
pub enum TokenKind {
    /// A line starting with `#`.
    Comment,
    /// A line starting with `@`.
    Directive,
    /// A key–value or block-opener line (catch-all for non-structural lines).
    Field,
    /// A block opener ending with `:` but without `[…]` brackets.
    Block,
    /// A table header line: ends with `:` and contains `[…]`.
    TableHeader,
    /// A table data row: contains at least one literal HTAB character.
    TableRow,
}

/// A single lexed line token.
#[derive(Debug, Clone)]
pub struct Token {
    pub kind: TokenKind,
    /// The line body after stripping leading spaces (the indent).
    pub value: String,
    /// 1-based line number in the source document.
    pub line: u32,
    /// 1-based column of the first non-space character.
    pub col: u32,
    /// Number of leading space characters (used to detect nesting level).
    pub indent: u32,
}

/// The mathematical content of a [`Token`].
pub struct SpecToken {
    pub kind: TokenKind,
    pub value: Seq<char>,
    pub line: u32,
    pub col: u32,
    pub indent: u32,
}

impl View for Token {
    type V = SpecToken;

    open spec fn view(&self) -> SpecToken {
        SpecToken {
            kind: self.kind,
            value: self.value@,
            line: self.line,
            col: self.col,
            indent: self.indent,
        }
    }
}

/// Index of the first character at or after `i` that is not a space.
pub open spec fn space_run(s: Seq<char>, i: int) -> int
    decreases s.len() - i,
{
    if 0 <= i < s.len() && s[i] == ' ' {
        space_run(s, i + 1)
    } else {
        i
    }
}

pub proof fn lemma_space_run(s: Seq<char>, i: int)
    requires
        0 <= i <= s.len(),
    ensures
        i <= space_run(s, i) <= s.len(),
        forall|k: int| i <= k < space_run(s, i) ==> s[k] == ' ',
        space_run(s, i) < s.len() ==> s[space_run(s, i)] != ' ',
    decreases s.len() - i,
{
    if i < s.len() && s[i] == ' ' {
        lemma_space_run(s, i + 1);
    }
}

/// A table header ends with `:` and has its first `[` before its first `]`.
pub open spec fn spec_looks_like_table_header(body: Seq<char>) -> bool {
    &&& body.len() > 0 && body.last() == ':'
    &&& text::find_char(body, '[') matches Some(open)
    &&& text::find_char(body, ']') matches Some(close)
    &&& open < close
}

/// The kind of a non-empty, indent-stripped line body.
pub open spec fn spec_classify(body: Seq<char>) -> TokenKind {
    if body.len() > 0 && body[0] == '#' {
        TokenKind::Comment
    } else if body.len() > 0 && body[0] == '@' {
        TokenKind::Directive
    } else if body.contains('\t') {
        TokenKind::TableRow
    } else if spec_looks_like_table_header(body) {
        TokenKind::TableHeader
    } else if body.len() > 0 && body.last() == ':' {
        TokenKind::Block
    } else {
        TokenKind::Field
    }
}

/// The token of the non-blank line `raw`, which is line number `line_no`.
pub open spec fn spec_token(raw: Seq<char>, line_no: int) -> SpecToken {
    let indent = space_run(raw, 0);
    let body = raw.skip(indent);
    SpecToken {
        kind: spec_classify(body),
        value: body,
        line: line_no as u32,
        col: ((indent as u32) + 1) as u32,
        indent: indent as u32,
    }
}

/// Tokens of the first `k` lines of `lines`.
pub open spec fn spec_lex_upto(lines: Seq<Seq<char>>, k: int) -> Seq<SpecToken>
    decreases k,
{
    if k <= 0 {
        Seq::<SpecToken>::empty()
    } else {
        let prev = spec_lex_upto(lines, k - 1);
        if text::trim(lines[k - 1]).len() == 0 {
            prev
        } else {
            prev.push(spec_token(lines[k - 1], k))
        }
    }
}

/// Tokens of a whole document: one per non-blank line.
pub open spec fn spec_lex(text: Seq<char>) -> Seq<SpecToken> {
    spec_lex_upto(lines::raw_lines(text), lines::raw_lines(text).len() as int)
}

fn looks_like_table_header(body: &[char]) -> (b: bool)
    ensures
        b == spec_looks_like_table_header(body@),
{
    if !ends_with_char(body, ':') {
        return false;
    }
    match (find_char_in(body, '['), find_char_in(body, ']')) {
        (Some(open), Some(close)) => open < close,
        _ => false,
    }
}

fn classify(body: &[char]) -> (k: TokenKind)
    ensures
        k == spec_classify(body@),
{
    if starts_with_char(body, '#') {
        return TokenKind::Comment;
    }
    if starts_with_char(body, '@') {
        return TokenKind::Directive;
    }
    if contains_char(body, '\t') {
        return TokenKind::TableRow;
    }
    if looks_like_table_header(body) {
        return TokenKind::TableHeader;
    }
    if ends_with_char(body, ':') {
        return TokenKind::Block;
    }
    TokenKind::Field
}

/// Number of leading spaces of `s`.
pub fn leading_spaces(s: &[char]) -> (n: usize)
    ensures
        n == space_run(s@, 0),
        n <= s@.len(),
{
    let mut i: usize = 0;
    while i < s.len() && s[i] == ' '
        invariant
            0 <= i <= s.len(),
            space_run(s@, 0) == space_run(s@, i as int),
        decreases s.len() - i,
    {
        i += 1;
    }
    i
}

/// Tokenise `text` into a flat list of tokens, one per non-blank line.
pub fn lex_lines(text: &str) -> (tokens: Vec<Token>)
    requires
        text@.len() < u32::MAX,
    ensures
        tokens@.len() == spec_lex(text@).len(),
        forall|i: int| 0 <= i < tokens@.len() ==> #[trigger] tokens@[i]@ == spec_lex(text@)[i],
        tokens_of_lines(lines::raw_lines(text@), spec_lex(text@), lines::raw_lines(text@).len() as int),
{
    proof {
        lines::lemma_norm_prefix_len(text@, text@.len() as int);
        lines::lemma_split_count(lines::normalize(text@), '\n');
        law_lex_tokens(text@);
    }
    let chars = chars_of(text);
    let lines = split_lines(&chars);
    let mut tokens: Vec<Token> = Vec::new();
    let mut k: usize = 0;
    while k < lines.len()
        invariant
            0 <= k <= lines.len(),
            lines@.len() == lines::raw_lines(text@).len(),
            forall|i: int| 0 <= i < lines@.len() ==> #[trigger] lines@[i]@ == lines::raw_lines(text@)[i],
            forall|i: int| 0 <= i < lines@.len() ==> #[trigger] lines@[i]@.len() <= text@.len(),
            text@.len() < u32::MAX,
            tokens@.len() == spec_lex_upto(lines::raw_lines(text@), k as int).len(),
            forall|i: int|
                0 <= i < tokens@.len() ==> #[trigger] tokens@[i]@ == spec_lex_upto(
                    lines::raw_lines(text@),
                    k as int,
                )[i],
        decreases lines.len() - k,
    {
        let raw = &lines[k];
        if !is_blank(raw) {
            let indent = leading_spaces(raw);
            let body = slice_to_vec(raw, indent, raw.len());
            let kind = classify(&body);
            let value = string_of(&body);
            assert(body@ == raw@.skip(indent as int));
            tokens.push(
                Token {
                    kind,
                    value,
                    line: (k + 1) as u32,
                    col: indent as u32 + 1,
                    indent: indent as u32,
                },
            );
        }
        k += 1;
    }
    tokens
}

/// Line endings are normalised before lexing: for a text without `\r`,
/// writing its line ends as `\r\n` or as `\r` gives the same tokens.
pub proof fn law_line_endings(text: Seq<char>)
    requires
        !text.contains('\r'),
    ensures
        spec_lex(lines::with_crlf(text)) == spec_lex(text),
        spec_lex(lines::with_cr(text)) == spec_lex(text),
{
    lines::lemma_normalize_plain(text);
    lines::lemma_normalize_crlf(text);
    lines::lemma_normalize_cr(text);
}

/// Line `i` (counted from 0) of `lines` holds more than whitespace.
pub open spec fn nonblank_line(lines: Seq<Seq<char>>, i: int) -> bool {
    text::trim(lines[i]).len() != 0
}

/// `t` holds one token for each non-blank line among the first `n` of
/// `lines`, in line order: the token of line number `m` (from 1) is
/// `spec_token(lines[m - 1], m)`.
pub open spec fn tokens_of_lines(lines: Seq<Seq<char>>, t: Seq<SpecToken>, n: int) -> bool {
    &&& forall|k: int|
        0 <= k < t.len() ==> {
            &&& 1 <= (#[trigger] t[k]).line <= n
            &&& nonblank_line(lines, t[k].line - 1)
            &&& t[k] == spec_token(lines[t[k].line - 1], t[k].line as int)
        }
    &&& forall|k1: int, k2: int| 0 <= k1 < k2 < t.len() ==> (#[trigger] t[k1]).line < (#[trigger] t[k2]).line
    &&& forall|i: int|
        0 <= i < n && #[trigger] nonblank_line(lines, i) ==> exists|k: int|
            0 <= k < t.len() && (#[trigger] t[k]).line == i + 1
}

proof fn lemma_lex_upto(lines: Seq<Seq<char>>, n: int)
    requires
        0 <= n <= lines.len(),
        lines.len() <= 0xffff_ffff,
    ensures
        tokens_of_lines(lines, spec_lex_upto(lines, n), n),
    decreases n,
{
    if n > 0 {
        lemma_lex_upto(lines, n - 1);
        let prev = spec_lex_upto(lines, n - 1);
        if text::trim(lines[n - 1]).len() != 0 {
            let tok = spec_token(lines[n - 1], n);
            let t = prev.push(tok);
            assert(tok.line == n);
            assert forall|k: int| 0 <= k < t.len() implies {
                &&& 1 <= (#[trigger] t[k]).line <= n
                &&& nonblank_line(lines, t[k].line - 1)
                &&& t[k] == spec_token(lines[t[k].line - 1], t[k].line as int)
            } by {
                if k < prev.len() {
                    assert(t[k] == prev[k]);
                }
            }
            assert forall|k1: int, k2: int| 0 <= k1 < k2 < t.len() implies (#[trigger] t[k1]).line < (
            #[trigger] t[k2]).line by {
                assert(t[k1] == prev[k1]);
                if k2 < prev.len() {
                    assert(t[k2] == prev[k2]);
                }
            }
            assert forall|i: int| 0 <= i < n && #[trigger] nonblank_line(lines, i) implies exists|k: int|
                0 <= k < t.len() && (#[trigger] t[k]).line == i + 1 by {
                if i < n - 1 {
                    let k = choose|k: int| 0 <= k < prev.len() && (#[trigger] prev[k]).line == i + 1;
                    assert(t[k] == prev[k]);
                } else {
                    assert(t[prev.len() as int] == tok);
                }
            }
        } else {
            assert forall|i: int| 0 <= i < n && #[trigger] nonblank_line(lines, i) implies exists|k: int|
                0 <= k < prev.len() && (#[trigger] prev[k]).line == i + 1 by {
                assert(i < n - 1);
            }
        }
    }
}

/// The tokens of a text are exactly one per non-blank line of its
/// normalised lines, in increasing line order; the token of line `m` has
/// the line's leading spaces as its indent, the rest of the line as its
/// value, and column `indent + 1`.
pub proof fn law_lex_tokens(text: Seq<char>)
    requires
        lines::raw_lines(text).len() <= 0xffff_ffff,
    ensures
        tokens_of_lines(lines::raw_lines(text), spec_lex(text), lines::raw_lines(text).len() as int),
{
    lemma_lex_upto(lines::raw_lines(text), lines::raw_lines(text).len() as int);
}

} // verus!
