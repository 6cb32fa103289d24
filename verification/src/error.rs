//! Error types for the SDIF parser and policy enforcement.
use vstd::prelude::*;

use crate::span::Span;
use crate::text::string_of;
use crate::text::decimal_chars;

verus! {

/// A parse error with an SDIF error code, human-readable message, source
/// location, and an optional remediation hint.
#[derive(Debug, Clone, PartialEq)]
pub struct ParseError {
    /// Machine-readable error code, e.g. `"SDIF_STRING_UNCLOSED"`.
    pub code: String,
    pub message: String,
    pub span: Span,
    /// Optional hint shown to the user to help resolve the error.
    pub hint: Option<String>,
}

/// The mathematical content of a [`ParseError`].
pub struct SpecParseError {
    pub code: Seq<char>,
    pub message: Seq<char>,
    pub span: Span,
    pub hint: Option<Seq<char>>,
}

impl View for ParseError {
    type V = SpecParseError;

    open spec fn view(&self) -> SpecParseError {
        SpecParseError {
            code: self.code@,
            message: self.message@,
            span: self.span,
            hint: match self.hint {
                Some(h) => Some(h@),
                None => None,
            },
        }
    }
}

/// An error without a hint.
pub open spec fn spec_error(code: Seq<char>, message: Seq<char>, span: Span) -> SpecParseError {
    SpecParseError { code, message, span, hint: None }
}

/// The same error with `hint` attached.
pub open spec fn spec_with_hint(e: SpecParseError, hint: Seq<char>) -> SpecParseError {
    SpecParseError { hint: Some(hint), ..e }
}

/// A policy violation reported as a parse error at the sentinel location
/// (line 1, column 1).
pub open spec fn spec_policy_error(code: Seq<char>, message: Seq<char>) -> SpecParseError {
    spec_error(code, message, Span { start_line: 1, start_col: 1, end_line: 1, end_col: 1 })
}

impl ParseError {
    pub fn new(code: String, message: String, span: Span) -> (e: Self)
        ensures
            e@ == spec_error(code@, message@, span),
    {
        ParseError { code, message, span, hint: None }
    }

    pub fn with_hint(self, hint: String) -> (e: Self)
        ensures
            e@ == spec_with_hint(self@, hint@),
    {
        ParseError { hint: Some(hint), ..self }
    }

    /// Create a `ParseError` from a policy violation. Uses a sentinel span
    /// (line 1, col 1) since `PolicyError` has no source location.
    pub fn from_policy(e: PolicyError) -> (r: Self)
        ensures
            r@ == spec_policy_error(e.code@, e.message@),
    {
        Self::new(e.code, e.message, Span::single_line(1, 1, 1))
    }

    /// Create a `ParseError` for a policy violation at a known line.
    pub fn policy_at(code: String, message: String, line: u32) -> (r: Self)
        ensures
            r@ == spec_error(
                code@,
                message@,
                Span { start_line: line, start_col: 1, end_line: line, end_col: 1 },
            ),
    {
        Self::new(code, message, Span::single_line(line, 1, 1))
    }

    /// The text shown for this error: `[code] line:col: message`.
    pub fn to_display_string(&self) -> (s: String)
        ensures
            s@ == seq!['['] + self.code@ + seq![']', ' '] + crate::text::decimal(self.span.start_line as nat)
                + seq![':'] + crate::text::decimal(self.span.start_col as nat) + seq![':', ' '] + self.message@,
    {
        let mut v: Vec<char> = Vec::new();
        v.push('[');
        let code = crate::text::chars_of(self.code.as_str());
        crate::text::push_all(&mut v, &code);
        v.push(']');
        v.push(' ');
        let line = decimal_chars(self.span.start_line as u128);
        crate::text::push_all(&mut v, &line);
        v.push(':');
        let col = decimal_chars(self.span.start_col as u128);
        crate::text::push_all(&mut v, &col);
        v.push(':');
        v.push(' ');
        let msg = crate::text::chars_of(self.message.as_str());
        crate::text::push_all(&mut v, &msg);
        string_of(&v)
    }
}

/// An error raised when a security or resource policy is violated.
#[derive(Debug, Clone, PartialEq)]
pub struct PolicyError {
    /// Machine-readable policy error code, e.g. `"POLICY_SIZE_EXCEEDED"`.
    pub code: String,
    pub message: String,
}

impl PolicyError {
    pub fn new(code: String, message: String) -> (e: Self)
        ensures
            e.code@ == code@,
            e.message@ == message@,
    {
        PolicyError { code, message }
    }

    /// The text shown for this error: `[code] message`.
    pub fn to_display_string(&self) -> (s: String)
        ensures
            s@ == seq!['['] + self.code@ + seq![']', ' '] + self.message@,
    {
        let mut v: Vec<char> = Vec::new();
        v.push('[');
        let code = crate::text::chars_of(self.code.as_str());
        crate::text::push_all(&mut v, &code);
        v.push(']');
        v.push(' ');
        let msg = crate::text::chars_of(self.message.as_str());
        crate::text::push_all(&mut v, &msg);
        string_of(&v)
    }
}

} // verus!
