//! Line-level lexical helpers of the parser: indentation, inline comments,
//! quoting, whitespace splitting and header recognition.
use vstd::prelude::*;

use crate::error::{ParseError, SpecParseError};
use crate::span::Span;
use crate::text::{
    chars_of, ends_with_char, find_char_in, is_ascii_alphabetic, is_ascii_digit_char,
    is_ascii_whitespace, is_whitespace, slice_to_vec, split_chars, string_of, trim_chars,
    trim_end_chars, utf8_len_of,
};
use crate::error;
use crate::text;

verus! {

broadcast use vstd::string::group_string_axioms;

/// Longest text (in characters) the parser accepts: it keeps every column
/// number, including byte-based end columns, within `u32`.
pub open spec fn max_text() -> int {
    0x1fff_ffff
}

/// A `String` holding the characters of a literal.
pub fn lit(s: &str) -> (r: String)
    ensures
        r@ == s@,
{
    let v = chars_of(s);
    string_of(&v)
}

/// A single-line span.
pub open spec fn sline(line: u32, start: int, end: int) -> Span {
    Span { start_line: line, start_col: start as u32, end_line: line, end_col: end as u32 }
}

// ---------------------------------------------------------------------------
// Indentation
// ---------------------------------------------------------------------------

/// Leading spaces of a line; a tab among them is an error.
pub open spec fn spec_compute_indent(raw: Seq<char>, line_no: u32) -> Result<int, SpecParseError> {
    let n = crate::lexer::space_run(raw, 0);
    if n < raw.len() && raw[n] == '\t' {
        Err(
            error::spec_error(
                "SDIF_INDENT_TAB"@,
                "tabs must not be used for indentation"@,
                sline(line_no, n + 1, n + 1),
            ),
        )
    } else {
        Ok(n)
    }
}

/// Count leading spaces; error on tab used for indentation.
pub fn compute_indent(raw: &[char], line_no: u32) -> (r: Result<u32, ParseError>)
    requires
        raw@.len() <= max_text(),
    ensures
        match (r, spec_compute_indent(raw@, line_no)) {
            (Ok(n), Ok(m)) => n == m,
            (Err(e), Err(se)) => e@ == se,
            _ => false,
        },
        r matches Ok(n) ==> n <= raw@.len(),
{
    let n = crate::lexer::leading_spaces(raw);
    proof {
        crate::lexer::lemma_space_run(raw@, 0);
    }
    if n < raw.len() && raw[n] == '\t' {
        return Err(
            ParseError::new(
                lit("SDIF_INDENT_TAB"),
                lit("tabs must not be used for indentation"),
                Span::single_line(line_no, n as u32 + 1, n as u32 + 1),
            ),
        );
    }
    Ok(n as u32)
}

// ---------------------------------------------------------------------------
// Inline comments
// ---------------------------------------------------------------------------

/// Index of the `#` that starts an inline comment, scanning from `i` in the
/// given quote/escape state: a `#` outside quotes that opens the text or
/// follows ASCII whitespace.
pub open spec fn comment_at(s: Seq<char>, i: int, in_quote: bool, escaped: bool) -> Option<int>
    decreases s.len() - i,
{
    if i < 0 || i >= s.len() {
        None
    } else if escaped {
        comment_at(s, i + 1, in_quote, false)
    } else if s[i] == '\\' && in_quote {
        comment_at(s, i + 1, in_quote, true)
    } else if s[i] == '"' {
        comment_at(s, i + 1, !in_quote, false)
    } else if s[i] == '#' && !in_quote && (i == 0 || text::is_ascii_ws(s[i - 1])) {
        Some(i)
    } else {
        comment_at(s, i + 1, in_quote, false)
    }
}

pub proof fn lemma_comment_at(s: Seq<char>, i: int, q: bool, e: bool)
    requires
        0 <= i,
    ensures
        comment_at(s, i, q, e) matches Some(k) ==> i <= k < s.len() && s[k] == '#',
    decreases s.len() - i,
{
    if 0 <= i < s.len() {
        lemma_comment_at(s, i + 1, q, false);
        lemma_comment_at(s, i + 1, q, true);
        lemma_comment_at(s, i + 1, !q, false);
    }
}

/// The text with a trailing inline comment removed, then right-trimmed.
pub open spec fn spec_strip_comment(s: Seq<char>) -> Seq<char> {
    match comment_at(s, 0, false, false) {
        Some(i) => text::trim_end(s.take(i)),
        None => text::trim_end(s),
    }
}

pub proof fn lemma_strip_comment_len(s: Seq<char>)
    ensures
        spec_strip_comment(s).len() <= s.len(),
{
    lemma_comment_at(s, 0, false, false);
    match comment_at(s, 0, false, false) {
        Some(i) => text::lemma_trim_len(s.take(i)),
        None => text::lemma_trim_len(s),
    }
}

/// A text opening with `@` keeps its `@` once its comment is stripped.
pub proof fn lemma_strip_keeps_first(s: Seq<char>)
    requires
        s.len() > 0,
        s[0] == '@',
    ensures
        spec_strip_comment(s).len() > 0,
        spec_strip_comment(s)[0] == '@',
{
    lemma_comment_at(s, 1, false, false);
    assert(comment_at(s, 0, false, false) == comment_at(s, 1, false, false));
    let t = match comment_at(s, 0, false, false) {
        Some(i) => s.take(i),
        None => s,
    };
    assert(t.len() > 0 && t[0] == '@');
    text::lemma_ws_run_back_bounds(t, t.len() as int);
    if text::ws_run_back(t, t.len() as int) == 0 {
        assert(text::is_ws(t[0]));
    }
}

/// Strip a trailing inline comment (not inside quotes). Returns the trimmed body.
pub fn strip_inline_comment(body: &[char]) -> (r: Vec<char>)
    ensures
        r@ == spec_strip_comment(body@),
{
    let mut in_quote = false;
    let mut escaped = false;
    let mut i: usize = 0;
    while i < body.len()
        invariant
            0 <= i <= body.len(),
            comment_at(body@, 0, false, false) == comment_at(body@, i as int, in_quote, escaped),
        decreases body.len() - i,
    {
        let ch = body[i];
        if escaped {
            escaped = false;
        } else if ch == '\\' && in_quote {
            escaped = true;
        } else if ch == '"' {
            in_quote = !in_quote;
        } else if ch == '#' && !in_quote && (i == 0 || is_ascii_whitespace(body[i - 1])) {
            proof { lemma_comment_at(body@, 0, false, false); }
            let pre = slice_to_vec(body, 0, i);
            assert(pre@ == body@.take(i as int));
            return trim_end_chars(&pre);
        }
        i += 1;
    }
    trim_end_chars(body)
}

// ---------------------------------------------------------------------------
// Quoting
// ---------------------------------------------------------------------------

/// A double-quoted value: at least two characters, starting and ending with `"`.
pub open spec fn spec_is_quoted(v: Seq<char>) -> bool {
    v.len() >= 2 && v[0] == '"' && v.last() == '"'
}

/// Return true when `value` is a double-quoted string.
pub fn is_quoted(value: &[char]) -> (b: bool)
    ensures
        b == spec_is_quoted(value@),
{
    value.len() >= 2 && value[0] == '"' && value[value.len() - 1] == '"'
}

/// Position of the first unescaped `"` at or after `j`.
pub open spec fn closing_quote(s: Seq<char>, j: int, escaped: bool) -> Option<int>
    decreases s.len() - j,
{
    if j < 0 || j >= s.len() {
        None
    } else if escaped {
        closing_quote(s, j + 1, false)
    } else if s[j] == '\\' {
        closing_quote(s, j + 1, true)
    } else if s[j] == '"' {
        Some(j)
    } else {
        closing_quote(s, j + 1, false)
    }
}

pub proof fn lemma_closing_quote(s: Seq<char>, j: int, e: bool)
    requires
        0 <= j,
    ensures
        closing_quote(s, j, e) matches Some(k) ==> j <= k < s.len(),
    decreases s.len() - j,
{
    if 0 <= j < s.len() {
        lemma_closing_quote(s, j + 1, false);
        lemma_closing_quote(s, j + 1, true);
    }
}

/// A value that starts with `"` must end exactly at its first unescaped
/// closing quote.
pub open spec fn spec_quote_check(v: Seq<char>, line_no: u32) -> Result<(), SpecParseError> {
    if !(v.len() > 0 && v[0] == '"') {
        Ok(())
    } else {
        match closing_quote(v, 1, false) {
            Some(j) => if j + 1 != v.len() {
                Err(
                    error::spec_error(
                        "SDIF_STRING_TRAILING"@,
                        "quoted scalar field has trailing content after closing quote"@,
                        sline(line_no, j + 2, j + 2),
                    ),
                )
            } else {
                Ok(())
            },
            None => Err(
                error::spec_error(
                    "SDIF_STRING_UNCLOSED"@,
                    "unterminated quoted scalar field"@,
                    sline(line_no, v.len() + 1int, v.len() + 1int),
                ),
            ),
        }
    }
}

/// Validate that a quoted scalar value is properly closed.
pub fn ensure_scalar_quote_closed(value: &[char], line_no: u32) -> (r: Result<(), ParseError>)
    requires
        value@.len() <= max_text(),
    ensures
        match (r, spec_quote_check(value@, line_no)) {
            (Ok(_), Ok(_)) => true,
            (Err(e), Err(se)) => e@ == se,
            _ => false,
        },
{
    if !(value.len() > 0 && value[0] == '"') {
        return Ok(());
    }
    let mut escaped = false;
    let mut j: usize = 1;
    while j < value.len()
        invariant
            1 <= j <= value.len(),
            value@.len() <= max_text(),
            value@.len() > 0 && value@[0] == '"',
            closing_quote(value@, 1, false) == closing_quote(value@, j as int, escaped),
        decreases value.len() - j,
    {
        let ch = value[j];
        if escaped {
            escaped = false;
        } else if ch == '\\' {
            escaped = true;
        } else if ch == '"' {
            if j + 1 != value.len() {
                return Err(
                    ParseError::new(
                        lit("SDIF_STRING_TRAILING"),
                        lit("quoted scalar field has trailing content after closing quote"),
                        Span::single_line(line_no, j as u32 + 2, j as u32 + 2),
                    ),
                );
            }
            return Ok(());
        }
        j += 1;
    }
    Err(
        ParseError::new(
            lit("SDIF_STRING_UNCLOSED"),
            lit("unterminated quoted scalar field"),
            Span::single_line(line_no, value.len() as u32 + 1, value.len() as u32 + 1),
        ),
    )
}

/// The character denoted by the escape `\c`, if it is one of the handled
/// escapes (`\n`, `\t`, `\r`, `\"`, `\\`).
pub open spec fn escape_of(c: char) -> Option<char> {
    if c == 'n' {
        Some('\n')
    } else if c == 't' {
        Some('\t')
    } else if c == 'r' {
        Some('\r')
    } else if c == '"' {
        Some('"')
    } else if c == '\\' {
        Some('\\')
    } else {
        None
    }
}

/// Unescaping of `s` from position `i`: handled escapes are replaced, any
/// other backslash sequence is kept verbatim, and a final lone backslash
/// stays.
pub open spec fn unescape_from(s: Seq<char>, i: int) -> Seq<char>
    decreases s.len() - i,
{
    if i < 0 || i >= s.len() {
        Seq::<char>::empty()
    } else if s[i] == '\\' {
        if i + 1 < s.len() {
            match escape_of(s[i + 1]) {
                Some(c) => seq![c] + unescape_from(s, i + 2),
                None => seq!['\\', s[i + 1]] + unescape_from(s, i + 2),
            }
        } else {
            seq!['\\']
        }
    } else {
        seq![s[i]] + unescape_from(s, i + 1)
    }
}

/// The value with surrounding double quotes removed and escapes resolved;
/// an unquoted value is returned unchanged.
pub open spec fn spec_unquote(v: Seq<char>) -> Seq<char> {
    if spec_is_quoted(v) {
        unescape_from(v.subrange(1, v.len() - 1), 0)
    } else {
        v
    }
}

proof fn lemma_unescape_len(s: Seq<char>, i: int)
    requires
        0 <= i,
    ensures
        unescape_from(s, i).len() <= if i < s.len() { s.len() - i } else { 0 },
    decreases s.len() - i,
{
    if 0 <= i < s.len() {
        if s[i] == '\\' && i + 1 < s.len() {
            lemma_unescape_len(s, i + 2);
        } else {
            lemma_unescape_len(s, i + 1);
        }
    }
}

/// Unescape a possibly-quoted value.
pub fn unquote(value: &[char]) -> (r: Vec<char>)
    ensures
        r@ == spec_unquote(value@),
        r@.len() <= value@.len(),
{
    if !is_quoted(value) {
        return slice_to_vec(value, 0, value.len());
    }
    let inner = slice_to_vec(value, 1, value.len() - 1);
    let mut out: Vec<char> = Vec::new();
    let mut i: usize = 0;
    while i < inner.len()
        invariant
            0 <= i <= inner.len(),
            out@ + unescape_from(inner@, i as int) == unescape_from(inner@, 0),
        decreases inner.len() - i,
    {
        if inner[i] == '\\' {
            if i + 1 < inner.len() {
                let c = inner[i + 1];
                if c == 'n' {
                    out.push('\n');
                } else if c == 't' {
                    out.push('\t');
                } else if c == 'r' {
                    out.push('\r');
                } else if c == '"' {
                    out.push('"');
                } else if c == '\\' {
                    out.push('\\');
                } else {
                    out.push('\\');
                    out.push(c);
                }
                assert(out@ + unescape_from(inner@, i + 2) == unescape_from(inner@, 0));
                i += 2;
            } else {
                out.push('\\');
                assert(unescape_from(inner@, i + 1) == Seq::<char>::empty());
                i += 1;
            }
        } else {
            out.push(inner[i]);
            assert(out@ + unescape_from(inner@, i + 1) == unescape_from(inner@, 0));
            i += 1;
        }
    }
    proof {
        lemma_unescape_len(inner@, 0);
    }
    out
}

// ---------------------------------------------------------------------------
// Whitespace splitting
// ---------------------------------------------------------------------------

/// Scanner state of [`split_quoted_whitespace`]: finished parts, the part
/// being built, and the quote/escape flags.
#[verifier::ext_equal]
pub struct QwState {
    pub parts: Seq<Seq<char>>,
    pub current: Seq<char>,
    pub in_quote: bool,
    pub escaped: bool,
}

pub open spec fn qw_step(st: QwState, ch: char) -> QwState {
    if st.escaped {
        QwState { current: st.current.push(ch), escaped: false, ..st }
    } else if ch == '\\' && st.in_quote {
        QwState { current: st.current.push(ch), escaped: true, ..st }
    } else if ch == '"' {
        QwState { current: st.current.push(ch), in_quote: !st.in_quote, ..st }
    } else if text::is_ws(ch) && !st.in_quote {
        if st.current.len() > 0 {
            QwState { parts: st.parts.push(st.current), current: Seq::empty(), ..st }
        } else {
            st
        }
    } else {
        QwState { current: st.current.push(ch), ..st }
    }
}

/// Scanner state after the first `k` characters.
pub open spec fn qw_run(s: Seq<char>, k: int) -> QwState
    decreases k,
{
    if k <= 0 {
        QwState { parts: Seq::empty(), current: Seq::empty(), in_quote: false, escaped: false }
    } else {
        qw_step(qw_run(s, k - 1), s[k - 1])
    }
}

/// Parts of `source` separated by unquoted whitespace, or an error with the
/// given code when a quote or escape is left open.
pub open spec fn spec_split_quoted(source: Seq<char>, line_no: u32, code: Seq<char>) -> Result<
    Seq<Seq<char>>,
    SpecParseError,
> {
    let st = qw_run(source, source.len() as int);
    if st.escaped || st.in_quote {
        let col = text::utf8_len(source) + 1int;
        Err(error::spec_error(code, "unterminated quoted value"@, sline(line_no, col, col)))
    } else if st.current.len() > 0 {
        Ok(st.parts.push(st.current))
    } else {
        Ok(st.parts)
    }
}

/// The views of a vector of character vectors.
pub open spec fn vecs_view(v: Seq<Vec<char>>) -> Seq<Seq<char>> {
    v.map_values(|x: Vec<char>| x@)
}

/// Split `source` on unquoted whitespace, respecting `"…"` strings.
pub fn split_quoted_whitespace(source: &[char], line_no: u32, error_code: &str) -> (r: Result<
    Vec<Vec<char>>,
    ParseError,
>)
    requires
        source@.len() <= max_text(),
    ensures
        match (r, spec_split_quoted(source@, line_no, error_code@)) {
            (Ok(v), Ok(sv)) => vecs_view(v@) == sv,
            (Err(e), Err(se)) => e@ == se,
            _ => false,
        },
{
    let mut parts: Vec<Vec<char>> = Vec::new();
    let mut current: Vec<char> = Vec::new();
    let mut in_quote = false;
    let mut escaped = false;
    let mut i: usize = 0;
    while i < source.len()
        invariant
            0 <= i <= source.len(),
            qw_run(source@, i as int) == (QwState {
                parts: vecs_view(parts@),
                current: current@,
                in_quote,
                escaped,
            }),
        decreases source.len() - i,
    {
        let ch = source[i];
        if escaped {
            current.push(ch);
            escaped = false;
        } else if ch == '\\' && in_quote {
            current.push(ch);
            escaped = true;
        } else if ch == '"' {
            current.push(ch);
            in_quote = !in_quote;
        } else if is_whitespace(ch) && !in_quote {
            if current.len() > 0 {
                let done = current;
                current = Vec::new();
                parts.push(done);
                assert(vecs_view(parts@) == vecs_view(parts@.drop_last()).push(done@));
            }
        } else {
            current.push(ch);
        }
        i += 1;
    }
    if escaped || in_quote {
        proof {
            text::lemma_utf8_len_bounds(source@);
        }
        let bytes = utf8_len_of(source);
        let msg = lit("unterminated quoted value");
        return Err(
            ParseError::new(
                lit(error_code),
                msg,
                Span::single_line(line_no, bytes as u32 + 1, bytes as u32 + 1),
            ),
        );
    }
    if current.len() > 0 {
        let last = current;
        parts.push(last);
        assert(vecs_view(parts@) == vecs_view(parts@.drop_last()).push(last@));
    }
    Ok(parts)
}

/// `str::split_whitespace`: the maximal runs of non-whitespace characters.
pub open spec fn ws_run_state(s: Seq<char>) -> (Seq<Seq<char>>, Seq<char>)
    decreases s.len(),
{
    if s.len() == 0 {
        (Seq::empty(), Seq::empty())
    } else {
        let (done, cur) = ws_run_state(s.drop_last());
        if text::is_ws(s.last()) {
            if cur.len() > 0 {
                (done.push(cur), Seq::empty())
            } else {
                (done, cur)
            }
        } else {
            (done, cur.push(s.last()))
        }
    }
}

pub open spec fn split_ws(s: Seq<char>) -> Seq<Seq<char>> {
    let (done, cur) = ws_run_state(s);
    if cur.len() > 0 {
        done.push(cur)
    } else {
        done
    }
}

/// `s.split_whitespace()`.
pub fn split_whitespace(s: &[char]) -> (r: Vec<Vec<char>>)
    ensures
        vecs_view(r@) == split_ws(s@),
{
    let mut done: Vec<Vec<char>> = Vec::new();
    let mut cur: Vec<char> = Vec::new();
    let mut i: usize = 0;
    while i < s.len()
        invariant
            0 <= i <= s.len(),
            ws_run_state(s@.take(i as int)) == (vecs_view(done@), cur@),
        decreases s.len() - i,
    {
        assert(s@.take(i + 1 as int).drop_last() == s@.take(i as int));
        if is_whitespace(s[i]) {
            if cur.len() > 0 {
                let c = cur;
                cur = Vec::new();
                done.push(c);
                assert(vecs_view(done@) == vecs_view(done@.drop_last()).push(c@));
            }
        } else {
            cur.push(s[i]);
        }
        i += 1;
    }
    assert(s@.take(s.len() as int) == s@);
    if cur.len() > 0 {
        let c = cur;
        done.push(c);
        assert(vecs_view(done@) == vecs_view(done@.drop_last()).push(c@));
    }
    done
}

// ---------------------------------------------------------------------------
// Identifiers and header patterns
// ---------------------------------------------------------------------------

pub open spec fn ident_start(c: char) -> bool {
    text::is_ascii_alpha(c) || c == '_'
}

pub open spec fn ident_char(c: char) -> bool {
    text::is_ascii_alnum(c) || c == '_' || c == '-'
}

/// `[A-Za-z_][A-Za-z0-9_-]*`.
pub open spec fn spec_is_ident(s: Seq<char>) -> bool {
    s.len() > 0 && ident_start(s[0]) && forall|i: int| 1 <= i < s.len() ==> ident_char(#[trigger] s[i])
}

/// True when `s` matches `[A-Za-z_][A-Za-z0-9_-]*`.
pub fn is_valid_ident(s: &[char]) -> (b: bool)
    ensures
        b == spec_is_ident(s@),
{
    if s.len() == 0 {
        return false;
    }
    if !(is_ascii_alphabetic(s[0]) || s[0] == '_') {
        return false;
    }
    let mut i: usize = 1;
    while i < s.len()
        invariant
            1 <= i <= s.len(),
            forall|j: int| 1 <= j < i ==> ident_char(#[trigger] s@[j]),
        decreases s.len() - i,
    {
        let c = s[i];
        if !(is_ascii_alphabetic(c) || is_ascii_digit_char(c) || c == '_' || c == '-') {
            return false;
        }
        i += 1;
    }
    true
}

/// An alias entry is `name=name` around its first `=`.
pub open spec fn alias_entry_ok(e: Seq<char>) -> bool {
    match text::find_char(e, '=') {
        Some(eq) => spec_is_ident(e.take(eq)) && spec_is_ident(e.skip(eq + 1)),
        None => false,
    }
}

/// `alias[a=b,c=d]`: the comma-separated entries, when every entry is valid.
pub open spec fn spec_alias_header(body: Seq<char>) -> Option<Seq<Seq<char>>> {
    let b = text::trim(body);
    if text::starts_with(b, "alias["@) && b.len() >= 7 && b.last() == ']' {
        let entries = text::split_on(b.subrange(6, b.len() - 1), ',');
        if forall|i: int| 0 <= i < entries.len() ==> alias_entry_ok(#[trigger] entries[i]) {
            Some(entries)
        } else {
            None
        }
    } else {
        None
    }
}

fn alias_entry_valid(e: &[char]) -> (b: bool)
    ensures
        b == alias_entry_ok(e@),
{
    match find_char_in(e, '=') {
        Some(eq) => {
            proof { text::lemma_find_from(e@, '=', 0); }
            assert(text::find_from(e@, '=', 0) == Some(eq as int));
            assert(eq < e.len());
            let left = slice_to_vec(e, 0, eq);
            let right = slice_to_vec(e, eq + 1, e.len());
            assert(right@ == e@.skip(eq + 1));
            is_valid_ident(&left) && is_valid_ident(&right)
        },
        None => false,
    }
}

/// Match `alias[a=b,c=d]` (no trailing `:`). Returns entries if matched.
pub fn parse_alias_header(body: &[char]) -> (r: Option<Vec<Vec<char>>>)
    ensures
        match (r, spec_alias_header(body@)) {
            (Some(v), Some(sv)) => vecs_view(v@) == sv,
            (None, None) => true,
            _ => false,
        },
{
    let b = trim_chars(body);
    if !(crate::text::starts_with_str(&b, "alias[") && b.len() >= 7 && ends_with_char(&b, ']')) {
        proof {
            reveal_strlit("alias[");
        }
        return None;
    }
    proof {
        reveal_strlit("alias[");
    }
    let inner = slice_to_vec(&b, 6, b.len() - 1);
    let entries = split_chars(&inner, ',');
    let mut i: usize = 0;
    while i < entries.len()
        invariant
            0 <= i <= entries.len(),
            text::trim(body@) == b@,
            b@.len() >= 7,
            text::starts_with(b@, "alias["@),
            b@.last() == ']',
            inner@ == b@.subrange(6, b@.len() - 1),
            entries@.len() == text::split_on(inner@, ',').len(),
            forall|k: int| 0 <= k < entries@.len() ==> #[trigger] entries@[k]@ == text::split_on(inner@, ',')[k],
            forall|k: int| 0 <= k < i ==> alias_entry_ok(#[trigger] text::split_on(inner@, ',')[k]),
        decreases entries.len() - i,
    {
        if !alias_entry_valid(&entries[i]) {
            assert(!alias_entry_ok(text::split_on(inner@, ',')[i as int]));
            return None;
        }
        i += 1;
    }
    assert(vecs_view(entries@) =~= text::split_on(inner@, ','));
    Some(entries)
}

/// `key """`: the key of a narrative opener.
pub open spec fn spec_narrative_opener(body: Seq<char>) -> Option<Seq<char>> {
    let b = text::trim_end(body);
    if b.len() >= 3 && b.skip(b.len() - 3) == seq!['"', '"', '"'] {
        let w = text::trim_end(b.take(b.len() - 3));
        if w.len() == 0 || w.contains(' ') || w.contains('\t') || !spec_is_ident(w) {
            None
        } else {
            Some(w)
        }
    } else {
        None
    }
}

/// Match a narrative opener: `key """`.
pub fn parse_narrative_opener(body: &[char]) -> (r: Option<Vec<char>>)
    ensures
        match (r, spec_narrative_opener(body@)) {
            (Some(v), Some(sv)) => v@ == sv,
            (None, None) => true,
            _ => false,
        },
{
    let b = trim_end_chars(body);
    let n = b.len();
    if !(n >= 3 && b[n - 3] == '"' && b[n - 2] == '"' && b[n - 1] == '"') {
        proof {
            if n >= 3 && b@.skip(n - 3) == seq!['"', '"', '"'] {
                assert(b@.skip(n - 3)[0] == b@[n - 3]);
                assert(b@.skip(n - 3)[1] == b@[n - 2]);
                assert(b@.skip(n - 3)[2] == b@[n - 1]);
            }
        }
        return None;
    }
    assert(b@.skip(n - 3) =~= seq!['"', '"', '"']);
    let pre = slice_to_vec(&b, 0, n - 3);
    let w = trim_end_chars(&pre);
    if w.len() == 0 || crate::text::contains_char(&w, ' ') || crate::text::contains_char(&w, '\t') {
        return None;
    }
    if is_valid_ident(&w) {
        Some(w)
    } else {
        None
    }
}

/// `name[cols]:` split into the name and the raw column text between the
/// first `[` and the first `]` after it.
pub open spec fn spec_table_header(body: Seq<char>) -> Option<(Seq<char>, Seq<char>)> {
    let b = text::trim(body);
    if b.len() > 0 && b.last() == ':' {
        let w = b.take(b.len() - 1);
        match text::find_char(w, '[') {
            Some(open) => match text::find_from(w, ']', open) {
                Some(close) => if spec_is_ident(w.take(open)) {
                    Some((w.take(open), w.subrange(open + 1, close)))
                } else {
                    None
                },
                None => None,
            },
            None => None,
        }
    } else {
        None
    }
}

fn find_from_in(s: &[char], c: char, start: usize) -> (r: Option<usize>)
    requires
        start <= s.len(),
    ensures
        r matches Some(k) ==> text::find_from(s@, c, start as int) == Some(k as int),
        r is None ==> text::find_from(s@, c, start as int) is None,
{
    let mut i: usize = start;
    while i < s.len()
        invariant
            start <= i <= s.len(),
            text::find_from(s@, c, start as int) == text::find_from(s@, c, i as int),
        decreases s.len() - i,
    {
        if s[i] == c {
            return Some(i);
        }
        i += 1;
    }
    None
}

/// Match a table header: `name[cols]:`. Returns `(name, cols_raw)`.
pub fn parse_table_header(body: &[char]) -> (r: Option<(Vec<char>, Vec<char>)>)
    ensures
        match (r, spec_table_header(body@)) {
            (Some((n, c)), Some((sn, sc))) => n@ == sn && c@ == sc,
            (None, None) => true,
            _ => false,
        },
{
    let b = trim_chars(body);
    if !ends_with_char(&b, ':') {
        return None;
    }
    let w = slice_to_vec(&b, 0, b.len() - 1);
    assert(w@ == b@.take(b@.len() - 1));
    let open = match find_char_in(&w, '[') {
        Some(o) => o,
        None => {
            return None;
        },
    };
    proof { text::lemma_find_from(w@, '[', 0); }
    let close = match find_from_in(&w, ']', open) {
        Some(c) => c,
        None => {
            return None;
        },
    };
    proof { text::lemma_find_from(w@, ']', open as int); }
    let name = slice_to_vec(&w, 0, open);
    if !is_valid_ident(&name) {
        return None;
    }
    let cols = slice_to_vec(&w, open + 1, close);
    Some((name, cols))
}

/// `key:` where the key is an identifier (no brackets).
pub open spec fn spec_block_key(body: Seq<char>) -> Option<Seq<char>> {
    let b = text::trim(body);
    if b.len() > 0 && b.last() == ':' {
        let key = b.take(b.len() - 1);
        if key.contains('[') || key.contains(']') || !spec_is_ident(key) {
            None
        } else {
            Some(key)
        }
    } else {
        None
    }
}

/// Match a block opener: `key:`. Returns the key.
pub fn parse_block_key(body: &[char]) -> (r: Option<Vec<char>>)
    ensures
        match (r, spec_block_key(body@)) {
            (Some(v), Some(sv)) => v@ == sv,
            (None, None) => true,
            _ => false,
        },
{
    let b = trim_chars(body);
    if !ends_with_char(&b, ':') {
        return None;
    }
    let key = slice_to_vec(&b, 0, b.len() - 1);
    if crate::text::contains_char(&key, '[') || crate::text::contains_char(&key, ']') {
        return None;
    }
    if is_valid_ident(&key) {
        Some(key)
    } else {
        None
    }
}

/// Unescaping reads from position `i` of `s` as from position `i - 1` of
/// `s` without its first character.
pub proof fn lemma_unescape_drop_first(s: Seq<char>, i: int)
    requires
        1 <= i,
        s.len() > 0,
    ensures
        unescape_from(s, i) == unescape_from(s.skip(1), i - 1),
    decreases s.len() - i,
{
    if i < s.len() {
        assert(s.skip(1)[i - 1] == s[i]);
        if i + 1 < s.len() {
            assert(s.skip(1)[i] == s[i + 1]);
            lemma_unescape_drop_first(s, i + 2);
        }
        lemma_unescape_drop_first(s, i + 1);
    }
}

/// A prefix without backslashes is copied as it is.
pub proof fn lemma_unescape_plain_prefix(w: Seq<char>, r: Seq<char>)
    requires
        !w.contains('\\'),
    ensures
        unescape_from(w + r, 0) == w + unescape_from(r, 0),
    decreases w.len(),
{
    if w.len() > 0 {
        let s = w + r;
        assert(s[0] == w[0]);
        assert(w[0] != '\\') by {
            if w[0] == '\\' {
                assert(w.contains('\\'));
            }
        }
        lemma_unescape_drop_first(s, 1);
        assert(s.skip(1) =~= w.skip(1) + r);
        assert(!w.skip(1).contains('\\')) by {
            if w.skip(1).contains('\\') {
                let j = choose|j: int| 0 <= j < w.skip(1).len() && w.skip(1)[j] == '\\';
                assert(w[j + 1] == '\\');
            }
        }
        lemma_unescape_plain_prefix(w.skip(1), r);
        assert(seq![w[0]] + (w.skip(1) + unescape_from(r, 0)) =~= w + unescape_from(r, 0));
    }
}

/// The text `\` followed by `e` and then `w2`, unescaped: the character the
/// escape stands for, then `w2`.
proof fn lemma_unescape_escape_then_plain(e: char, w2: Seq<char>)
    requires
        !w2.contains('\\'),
    ensures
        unescape_from(seq!['\\', e] + w2, 0) == (match escape_of(e) {
            Some(c) => seq![c],
            None => seq!['\\', e],
        }) + w2,
{
    let s = seq!['\\', e] + w2;
    lemma_unescape_drop_first(s, 2);
    lemma_unescape_drop_first(s.skip(1), 1);
    assert(s.skip(1).skip(1) =~= w2 + Seq::<char>::empty());
    lemma_unescape_plain_prefix(w2, Seq::<char>::empty());
    assert(w2 + Seq::<char>::empty() =~= w2);
}

/// The escapes a quoted value may hold: between quotes, around text
/// without backslashes, `\n` is read as a newline, `\t` as a tab, `\r` as
/// a carriage return, `\"` as a double quote and `\\` as one backslash; a
/// backslash before any other character is kept with it.
pub proof fn law_unquote_escapes(w1: Seq<char>, w2: Seq<char>, e: char)
    requires
        !w1.contains('\\'),
        !w2.contains('\\'),
    ensures
        e == 'n' ==> spec_unquote(seq!['"'] + w1 + seq!['\\', e] + w2 + seq!['"']) == w1 + seq!['\n'] + w2,
        e == 't' ==> spec_unquote(seq!['"'] + w1 + seq!['\\', e] + w2 + seq!['"']) == w1 + seq!['\t'] + w2,
        e == 'r' ==> spec_unquote(seq!['"'] + w1 + seq!['\\', e] + w2 + seq!['"']) == w1 + seq!['\r'] + w2,
        e == '"' ==> spec_unquote(seq!['"'] + w1 + seq!['\\', e] + w2 + seq!['"']) == w1 + seq!['"'] + w2,
        e == '\\' ==> spec_unquote(seq!['"'] + w1 + seq!['\\', e] + w2 + seq!['"']) == w1 + seq!['\\'] + w2,
        e != 'n' && e != 't' && e != 'r' && e != '"' && e != '\\' ==> spec_unquote(
            seq!['"'] + w1 + seq!['\\', e] + w2 + seq!['"'],
        ) == w1 + seq!['\\', e] + w2,
{
    let v = seq!['"'] + w1 + seq!['\\', e] + w2 + seq!['"'];
    let inner = w1 + (seq!['\\', e] + w2);
    assert(spec_is_quoted(v));
    assert(v.subrange(1, v.len() - 1) =~= inner);
    lemma_unescape_plain_prefix(w1, seq!['\\', e] + w2);
    lemma_unescape_escape_then_plain(e, w2);
    let d = match escape_of(e) {
        Some(c) => seq![c],
        None => seq!['\\', e],
    };
    assert(w1 + (d + w2) =~= w1 + d + w2);
}

} // verus!
