//! Normative parser for SDIF v1 source and AI projection syntax.
//!
//! Each parsing function states, in its contract, that it computes the
//! corresponding function of `crate::parser_spec`.
use vstd::prelude::*;

use crate::ast::{
    Directive, Document, Field, Narrative, ObjectBlock, Relation, Rule, SpecDirective,
    SpecRelation, SpecRule, SpecStatement, Statement, Table,
};
use crate::error::{ParseError, PolicyError, SpecParseError};
use crate::parser_spec::{PState, RowStep, SpecItem};
use crate::policy::Policy;
use crate::scan::{
    compute_indent, ensure_scalar_quote_closed, is_quoted, lit, parse_alias_header,
    parse_block_key, parse_narrative_opener, parse_table_header, split_quoted_whitespace,
    split_whitespace, strip_inline_comment, unquote, vecs_view,
};
use crate::span::Span;
use crate::text::{
    chars_eq, chars_of, contains_char, decimal_chars, eq_str, find_char_in, is_ascii_whitespace,
    is_blank, leading_ws, push_all, push_str, slice_to_vec, split_chars, starts_with_chars, string_of,
    trim_chars,
    trim_end_chars, trim_start_chars, utf8_len_of, utf8_len_wide,
};
use crate::ast;
use crate::lines;
use crate::lines::split_lines;
use crate::rule;
use crate::error;
use crate::parser_spec;
use crate::scan;
use crate::text;

verus! {

broadcast use {vstd::string::group_string_axioms, vstd::std_specs::vec::group_vec_axioms};

/// Outcome of a parsing step: its value and the state after it, or the
/// error, as the specification gives them.
pub open spec fn step_ok<T: View>(
    r: Result<T, ParseError>,
    s: Result<(T::V, PState), SpecParseError>,
    post: PState,
) -> bool {
    match (r, s) {
        (Ok(v), Ok((sv, st))) => v@ == sv && post == st,
        (Err(e), Err(se)) => e@ == se,
        _ => false,
    }
}

/// A value or error as the specification gives it.
pub open spec fn value_ok<T: View>(r: Result<T, ParseError>, s: Result<T::V, SpecParseError>) -> bool {
    match (r, s) {
        (Ok(v), Ok(sv)) => v@ == sv,
        (Err(e), Err(se)) => e@ == se,
        _ => false,
    }
}

/// A policy violation at the sentinel location.
fn policy_error(code: &str, message: Vec<char>) -> (e: ParseError)
    ensures
        e@ == error::spec_policy_error(code@, message@),
{
    ParseError::from_policy(PolicyError::new(lit(code), string_of(&message)))
}

/// `<desc> length <n> exceeds maximum limit of <max>`.
fn length_message(desc: &str, n: u128, max: usize) -> (m: Vec<char>)
    ensures
        m@ == parser_spec::length_msg(desc@, n as nat, max as nat),
{
    let mut m = chars_of(desc);
    push_str(&mut m, " length ");
    let a = decimal_chars(n);
    push_all(&mut m, &a);
    push_str(&mut m, " exceeds maximum limit of ");
    let b = decimal_chars(max as u128);
    push_all(&mut m, &b);
    m
}

/// Check the byte length of a string value against the policy.
fn check_string_length(policy: &Policy, value: &[char], desc: &str) -> (r: Result<(), ParseError>)
    ensures
        match (r, parser_spec::check_len(parser_spec::limits(*policy), value@, desc@)) {
            (Ok(_), Ok(_)) => true,
            (Err(e), Err(se)) => e@ == se,
            _ => false,
        },
{
    let n = utf8_len_wide(value);
    if n > policy.max_string_length as u128 {
        return Err(
            policy_error("SDIF_POLICY_STRING_LENGTH", length_message(desc, n, policy.max_string_length)),
        );
    }
    Ok(())
}

/// The policy check on every cell of a row, reporting the first too long.
fn check_cells(policy: &Policy, values: &Vec<Vec<char>>) -> (r: Result<(), ParseError>)
    ensures
        match (r, parser_spec::first_long(vecs_view(values@), parser_spec::limits(*policy), 0)) {
            (Ok(_), None) => true,
            (Err(e), Some(j)) => e@ == error::spec_policy_error(
                "SDIF_POLICY_STRING_LENGTH"@,
                parser_spec::length_msg(
                    "Table cell"@,
                    text::utf8_len(vecs_view(values@)[j]),
                    policy.max_string_length as nat,
                ),
            ),
            _ => false,
        },
{
    let ghost vs = vecs_view(values@);
    let mut q: usize = 0;
    while q < values.len()
        invariant
            0 <= q <= values@.len(),
            vs == vecs_view(values@),
            parser_spec::first_long(vs, parser_spec::limits(*policy), 0) == parser_spec::first_long(vs, parser_spec::limits(*policy), q as int),
        decreases values@.len() - q,
    {
        assert(values@[q as int]@ == vs[q as int]);
        let n = utf8_len_wide(&values[q]);
        if n > policy.max_string_length as u128 {
            return Err(
                policy_error(
                    "SDIF_POLICY_STRING_LENGTH",
                    length_message("Table cell", n, policy.max_string_length),
                ),
            );
        }
        q += 1;
    }
    Ok(())
}

/// Index of the first ASCII whitespace character of `s` (or its length).
fn first_ascii_ws_in(s: &[char]) -> (r: usize)
    ensures
        r == parser_spec::first_ascii_ws(s@, 0),
        r <= s@.len(),
{
    let mut i: usize = 0;
    while i < s.len() && !is_ascii_whitespace(s[i])
        invariant
            0 <= i <= s.len(),
            parser_spec::first_ascii_ws(s@, 0) == parser_spec::first_ascii_ws(s@, i as int),
        decreases s.len() - i,
    {
        i += 1;
    }
    i
}

/// Parse a `key value` field line.
pub fn parse_field(body: &[char], line_no: u32, indent: u32, policy: &Policy) -> (r: Result<
    Field,
    ParseError,
>)
    requires
        body@.len() <= scan::max_text(),
        indent <= scan::max_text() + 2,
    ensures
        value_ok(r, parser_spec::spec_field(body@, line_no, indent as int, parser_spec::limits(*policy))),
{
    let clean = strip_inline_comment(body);
    if !contains_char(&clean, ' ') && !contains_char(&clean, '\t') {
        proof { text::lemma_utf8_len_bounds(body@); }
        let n = utf8_len_of(body);
        return Err(
            ParseError::new(
                lit("SDIF_FIELD"),
                lit("field requires a key and value"),
                Span::single_line(line_no, indent + 1, indent + 1 + n as u32),
            ),
        );
    }
    let sep = first_ascii_ws_in(&clean);
    let key = slice_to_vec(&clean, 0, sep);
    let rest = slice_to_vec(&clean, sep, clean.len());
    assert(rest@ == clean@.skip(sep as int));
    let raw_value = trim_chars(&rest);
    proof {
        scan::lemma_strip_comment_len(body@);
        text::lemma_trim_len(rest@);
    }
    ensure_scalar_quote_closed(&raw_value, line_no)?;
    let unquoted = unquote(&raw_value);
    let n = utf8_len_wide(&unquoted);
    if n > policy.max_string_length as u128 {
        return Err(
            policy_error(
                "SDIF_POLICY_STRING_LENGTH",
                length_message("Field value", n, policy.max_string_length),
            ),
        );
    }
    let quoted = is_quoted(&raw_value);
    Ok(Field { key: string_of(&key), value: string_of(&unquoted), quoted })
}

// ---------------------------------------------------------------------------
// Parser state
// ---------------------------------------------------------------------------

/// What one parsing step yields.
pub enum ParsedItem {
    Nothing,
    Dir(Directive),
    Stmt(Statement),
    Stmts(Vec<Statement>),
}

impl View for ParsedItem {
    type V = SpecItem;

    open spec fn view(&self) -> SpecItem {
        match self {
            ParsedItem::Nothing => SpecItem::Nothing,
            ParsedItem::Dir(d) => SpecItem::Dir(d@),
            ParsedItem::Stmt(s) => SpecItem::Stmt(s@),
            ParsedItem::Stmts(v) => SpecItem::Stmts(ast::statements_view(v@)),
        }
    }
}

/// The view of an optional character vector.
pub open spec fn opt_chars(o: Option<Vec<char>>) -> Option<Seq<char>> {
    match o {
        Some(v) => Some(v@),
        None => None,
    }
}

/// One line inside an object block: the end of the block, or the
/// statements it adds (none for a blank line).
enum ObjectStep {
    Stop,
    Continue(Vec<Statement>),
}

pub open spec fn aliases_view(v: Seq<(Vec<char>, Vec<char>)>) -> Seq<(Seq<char>, Seq<char>)> {
    v.map_values(|p: (Vec<char>, Vec<char>)| (p.0@, p.1@))
}

/// The parser: the document's lines and the state between steps.
struct Parser<'a> {
    policy: &'a Policy,
    lines: Vec<Vec<char>>,
    index: usize,
    is_ai_profile: bool,
    has_format: bool,
    aliases: Vec<(Vec<char>, Vec<char>)>,
    current_nesting_depth: usize,
}

impl<'a> View for Parser<'a> {
    type V = PState;

    closed spec fn view(&self) -> PState {
        PState {
            index: self.index as int,
            is_ai: self.is_ai_profile,
            has_format: self.has_format,
            aliases: aliases_view(self.aliases@),
            depth: self.current_nesting_depth as int,
        }
    }
}

impl<'a> Parser<'a> {
    spec fn lines_view(&self) -> Seq<Seq<char>> {
        vecs_view(self.lines@)
    }

    spec fn pol(&self) -> parser_spec::Limits {
        parser_spec::limits(*self.policy)
    }

    /// Lines are short enough for `u32` columns; the nesting depth never
    /// exceeds the number of lines consumed.
    spec fn wf(&self) -> bool {
        &&& self.lines@.len() <= scan::max_text() + 1
        &&& forall|i: int| 0 <= i < self.lines@.len() ==> #[trigger] self.lines@[i]@.len() <= scan::max_text()
        &&& self.index <= self.lines@.len()
        &&& self.current_nesting_depth <= self.index
    }

    /// The parts of the parser a step may not change.
    spec fn same_doc(&self, other: &Self) -> bool {
        &&& self.lines@ == other.lines@
        &&& self.policy == other.policy
    }

    /// The latest binding of alias `name`.
    fn lookup_alias(&self, name: &[char]) -> (r: Option<&Vec<char>>)
        ensures
            match (r, parser_spec::alias_lookup(aliases_view(self.aliases@), name@)) {
                (Some(v), Some(sv)) => v@ == sv,
                (None, None) => true,
                _ => false,
            },
    {
        let mut k = self.aliases.len();
        assert(self.aliases@.take(k as int) == self.aliases@);
        while k > 0
            invariant
                0 <= k <= self.aliases@.len(),
                parser_spec::alias_lookup(aliases_view(self.aliases@), name@)
                    == parser_spec::alias_lookup(aliases_view(self.aliases@.take(k as int)), name@),
            decreases k,
        {
            proof {
                assert(aliases_view(self.aliases@.take(k as int)).drop_last() == aliases_view(
                    self.aliases@.take(k - 1 as int),
                ));
            }
            if chars_eq(&self.aliases[k - 1].0, name) {
                return Some(&self.aliases[k - 1].1);
            }
            k -= 1;
        }
        None
    }

    /// `name` is `rel` or an alias of it.
    fn is_relation_subject_header(&self, name: &[char]) -> (b: bool)
        ensures
            b == parser_spec::means_rel(self@, name@),
    {
        if eq_str(name, "rel") {
            return true;
        }
        match self.lookup_alias(name) {
            Some(c) => eq_str(c, "rel"),
            None => false,
        }
    }

    // -----------------------------------------------------------------------
    // Directive
    // -----------------------------------------------------------------------

    fn parse_directive(&mut self, body: &[char], line_no: u32, indent: u32) -> (r: Result<
        Directive,
        ParseError,
    >)
        requires
            body@.len() > 0,
            body@[0] == '@',
            body@.len() <= scan::max_text(),
            indent <= scan::max_text(),
        ensures
            step_ok(r, parser_spec::spec_directive(body@, line_no, indent as int, old(self)@), final(self)@),
            r is Err ==> final(self)@ == old(self)@,
            final(self).same_doc(old(self)),
            final(self).index == old(self).index,
            final(self).current_nesting_depth == old(self).current_nesting_depth,
    {
        let clean = strip_inline_comment(body);
        proof {
            scan::lemma_strip_keeps_first(body@);
        }
        let after = slice_to_vec(&clean, 1, clean.len());
        assert(after@ == clean@.skip(1));
        let parts = split_whitespace(&after);
        proof { text::lemma_utf8_len_bounds(body@); }
        let blen = utf8_len_of(body);
        let span = Span::single_line(line_no, indent + 1, indent + 1 + blen as u32);
        if parts.len() == 0 {
            return Err(ParseError::new(lit("SDIF_DIRECTIVE"), lit("empty directive"), span));
        }
        let name = &parts[0];
        let is_version = eq_str(name, "sdif") || eq_str(name, "sdif.ai");
        if !(is_version || eq_str(name, "profile") || eq_str(name, "vocab") || eq_str(name, "base")
            || eq_str(name, "namespace") || eq_str(name, "include")) {
            let mut m = chars_of("unknown directive @");
            push_all(&mut m, name);
            return Err(
                ParseError::new(lit("SDIF_DIRECTIVE_UNKNOWN"), string_of(&m), span).with_hint(
                    lit("v1 documents only allow known core directives"),
                ),
            );
        }
        let mut args: Vec<String> = Vec::new();
        let mut k: usize = 1;
        while k < parts.len()
            invariant
                1 <= k <= parts@.len(),
                ast::strings_view(args@) == vecs_view(parts@).subrange(1, k as int),
            decreases parts@.len() - k,
        {
            let a = string_of(&parts[k]);
            let ghost before = ast::strings_view(args@);
            args.push(a);
            assert(ast::strings_view(args@) == before.push(a@));
            k += 1;
            assert(vecs_view(parts@).subrange(1, k as int) == vecs_view(parts@).subrange(
                1,
                k - 1 as int,
            ).push(parts@[k - 1]@));
        }
        assert(vecs_view(parts@).subrange(1, parts@.len() as int) == vecs_view(parts@).skip(1));
        if is_version {
            if parts.len() != 2 {
                let mut m = chars_of("@");
                push_all(&mut m, name);
                push_str(&mut m, " requires exactly one version argument");
                return Err(ParseError::new(lit("SDIF_VERSION_SYNTAX"), string_of(&m), span));
            }
            if !eq_str(&parts[1], "1.0") {
                let mut m = chars_of("unsupported @");
                push_all(&mut m, name);
                push_str(&mut m, " version `");
                push_all(&mut m, &parts[1]);
                push_str(&mut m, "`");
                return Err(
                    ParseError::new(lit("SDIF_VERSION_UNSUPPORTED"), string_of(&m), span).with_hint(
                        lit("this implementation supports format version 1.0"),
                    ),
                );
            }
            if self.has_format {
                return Err(
                    ParseError::new(
                        lit("SDIF_VERSION_CONFLICT"),
                        lit("document must declare exactly one format version directive"),
                        span,
                    ),
                );
            }
            self.has_format = true;
        }
        if eq_str(name, "sdif.ai") {
            self.is_ai_profile = true;
        }
        Ok(Directive { name: string_of(name), args })
    }

    // -----------------------------------------------------------------------
    // Alias
    // -----------------------------------------------------------------------

    fn apply_aliases(&mut self, entries: &Vec<Vec<char>>, line_no: u32) -> (r: Result<
        Directive,
        ParseError,
    >)
        ensures
            step_ok(r, parser_spec::spec_aliases(vecs_view(entries@), line_no, old(self)@), final(self)@),
            final(self).same_doc(old(self)),
            final(self).index == old(self).index,
            final(self).current_nesting_depth == old(self).current_nesting_depth,
    {
        let ghost es = vecs_view(entries@);
        let ghost a0 = aliases_view(self.aliases@);
        let mut k: usize = 0;
        while k < entries.len()
            invariant
                0 <= k <= entries@.len(),
                es == vecs_view(entries@),
                a0 == old(self)@.aliases,
                self.same_doc(old(self)),
                self.index == old(self).index,
                self.current_nesting_depth == old(self).current_nesting_depth,
                self.is_ai_profile == old(self).is_ai_profile,
                self.has_format == old(self).has_format,
                parser_spec::alias_loop(es, 0, a0, line_no) == parser_spec::alias_loop(
                    es,
                    k as int,
                    aliases_view(self.aliases@),
                    line_no,
                ),
            decreases entries@.len() - k,
        {
            let entry = &entries[k];
            assert(es[k as int] == entry@);
            let eq = match find_char_in(entry, '=') {
                Some(e) => e,
                None => {
                    return Err(
                        ParseError::new(
                            lit("SDIF_ALIAS_SYNTAX"),
                            lit("invalid alias entry syntax"),
                            Span::single_line(line_no, 1, 1),
                        ),
                    );
                },
            };
            proof {
                text::lemma_find_from(entry@, '=', 0);
            }
            assert(text::find_from(entry@, '=', 0) == Some(eq as int));
            let elen = entry.len();
            assert(eq < elen);
            let left = slice_to_vec(entry, 0, eq);
            assert(left@ == entry@.take(eq as int));
            let right = slice_to_vec(entry, eq + 1, elen);
            assert(right@ == entry@.skip(eq + 1));
            let alias_name = trim_chars(&left);
            let canonical_name = trim_chars(&right);
            if eq_str(&alias_name, "include") || eq_str(&alias_name, "alias") || eq_str(
                &canonical_name,
                "include",
            ) || eq_str(&canonical_name, "alias") {
                let mut m = chars_of("Alias entry '");
                push_all(&mut m, entry);
                push_str(&mut m, "' uses or targets a reserved term");
                return Err(policy_error("SDIF_POLICY_ALIAS_RESERVED", m));
            }
            match self.lookup_alias(&alias_name) {
                Some(existing) => {
                    if !chars_eq(existing, &canonical_name) {
                        let mut m = chars_of("Alias collision: '");
                        push_all(&mut m, &alias_name);
                        push_str(&mut m, "' is mapped to both '");
                        push_all(&mut m, existing);
                        push_str(&mut m, "' and '");
                        push_all(&mut m, &canonical_name);
                        push_str(&mut m, "'");
                        return Err(policy_error("SDIF_POLICY_ALIAS_COLLISION", m));
                    }
                },
                None => {},
            }
            let ghost before = aliases_view(self.aliases@);
            self.aliases.push((alias_name, canonical_name));
            assert(aliases_view(self.aliases@) == before.push((alias_name@, canonical_name@)));
            k += 1;
        }
        let mut args: Vec<String> = Vec::new();
        let mut j: usize = 0;
        while j < entries.len()
            invariant
                0 <= j <= entries@.len(),
                ast::strings_view(args@) == vecs_view(entries@).take(j as int),
            decreases entries@.len() - j,
        {
            let a = string_of(&entries[j]);
            let ghost before = ast::strings_view(args@);
            args.push(a);
            assert(ast::strings_view(args@) == before.push(a@));
            j += 1;
            assert(vecs_view(entries@).take(j as int) == vecs_view(entries@).take(j - 1 as int).push(
                entries@[j - 1]@,
            ));
        }
        assert(vecs_view(entries@).take(entries@.len() as int) == vecs_view(entries@));
        Ok(Directive { name: lit("alias"), args })
    }
    // -----------------------------------------------------------------------
    // Table
    // -----------------------------------------------------------------------

    /// One line inside a table (see `parser_spec::table_row`).
    fn table_row_step(&self, ncols: usize, indent: u32, nrows: usize, flags: &Vec<bool>) -> (r: Result<
        RowStep<(Vec<String>, Vec<bool>)>,
        ParseError,
    >)
        requires
            self.wf(),
            self.index < self.lines@.len(),
            indent <= scan::max_text(),
            flags@.len() == ncols,
        ensures
            match (r, parser_spec::table_row(self.lines_view(), self.pol(), ncols as int, indent as int, self.index as int, nrows as int, flags@)) {
                (Ok(RowStep::Blank), Ok(RowStep::Blank)) => true,
                (Ok(RowStep::End), Ok(RowStep::End)) => true,
                (Ok(RowStep::Row((v, f))), Ok(RowStep::Row((sv, sf)))) => ast::strings_view(v@) == sv && f@ == sf,
                (Err(e), Err(se)) => e@ == se,
                _ => false,
            },
    {
        let row_no = (self.index + 1) as u32;
        assert(row_no == parser_spec::line_of(self.index as int));
        let raw = &self.lines[self.index];
        assert(self.lines_view()[self.index as int] == raw@);
        if is_blank(raw) {
            return Ok(RowStep::Blank);
        }
        let actual = compute_indent(raw, row_no)?;
        let child = indent + 2;
        let row_text: Vec<char>;
        if actual == child {
            row_text = slice_to_vec(raw, child as usize, raw.len());
            assert(row_text@ == raw@.skip(child as int));
        } else {
            let tail = slice_to_vec(raw, actual as usize, raw.len());
            if actual == indent && contains_char(&tail, '\t') {
                assert(tail@ == raw@.skip(indent as int));
                row_text = tail;
            } else if actual < child {
                return Ok(RowStep::End);
            } else {
                return Err(
                    ParseError::new(
                        lit("SDIF_INDENT"),
                        lit("invalid table row indentation"),
                        Span::single_line(row_no, actual + 1, actual + 1),
                    ),
                );
            }
        }
        let stripped = strip_inline_comment(&row_text);
        let te = trim_end_chars(&row_text);
        if !chars_eq(&stripped, &te) {
            proof { text::lemma_utf8_len_bounds(raw@); }
            let n = utf8_len_of(raw);
            return Err(
                ParseError::new(
                    lit("SDIF_TABLE_ROW_COMMENT"),
                    lit("inline comments inside table rows are prohibited in strict mode"),
                    Span::single_line(row_no, indent + 1, indent + 1 + n as u32),
                ),
            );
        }
        let cells = split_chars(&row_text, '\t');
        if cells.len() != ncols {
            let mut m = chars_of("table row has ");
            let a = decimal_chars(cells.len() as u128);
            push_all(&mut m, &a);
            push_str(&mut m, " cells but header declares ");
            let b = decimal_chars(ncols as u128);
            push_all(&mut m, &b);
            push_str(&mut m, " columns");
            return Err(
                ParseError::new(
                    lit("SDIF_TABLE_ARITY"),
                    string_of(&m),
                    Span::single_line(row_no, child + 1, child + 1),
                ).with_hint(lit("check HTAB separators and missing cells")),
            );
        }
        let ghost cs = text::split_on(row_text@, '\t');
        let ghost values_spec = cs.map_values(|c: Seq<char>| scan::spec_unquote(c));
        let mut values: Vec<Vec<char>> = Vec::new();
        let mut q: usize = 0;
        while q < cells.len()
            invariant
                0 <= q <= cells@.len(),
                cells@.len() == cs.len(),
                forall|i: int| 0 <= i < cells@.len() ==> #[trigger] cells@[i]@ == cs[i],
                values_spec == cs.map_values(|c: Seq<char>| scan::spec_unquote(c)),
                vecs_view(values@) == values_spec.take(q as int),
            decreases cells@.len() - q,
        {
            let u = unquote(&cells[q]);
            let ghost before = vecs_view(values@);
            values.push(u);
            assert(vecs_view(values@) == before.push(u@));
            q += 1;
            assert(values_spec.take(q as int) == values_spec.take(q - 1 as int).push(values_spec[q - 1]));
        }
        assert(values_spec.take(cells@.len() as int) == values_spec);
        check_cells(self.policy, &values)?;
        if nrows >= self.policy.max_table_row_count {
            let mut m = chars_of("Table row count ");
            let a = decimal_chars(nrows as u128 + 1);
            push_all(&mut m, &a);
            push_str(&mut m, " exceeds maximum limit of ");
            let b = decimal_chars(self.policy.max_table_row_count as u128);
            push_all(&mut m, &b);
            return Err(policy_error("SDIF_POLICY_TABLE_ROW_COUNT", m));
        }
        let mut row: Vec<String> = Vec::new();
        let mut q: usize = 0;
        while q < values.len()
            invariant
                0 <= q <= values@.len(),
                vecs_view(values@) == values_spec,
                ast::strings_view(row@) == values_spec.take(q as int),
            decreases values@.len() - q,
        {
            let x = string_of(&values[q]);
            let ghost before = ast::strings_view(row@);
            row.push(x);
            assert(ast::strings_view(row@) == before.push(x@));
            q += 1;
            assert(values_spec.take(q as int) == values_spec.take(q - 1 as int).push(values_spec[q - 1]));
        }
        assert(values_spec.take(values@.len() as int) == values_spec);
        let mut nf: Vec<bool> = Vec::new();
        let mut q: usize = 0;
        while q < ncols
            invariant
                0 <= q <= ncols,
                flags@.len() == ncols,
                cells@.len() == ncols,
                forall|i: int| 0 <= i < cells@.len() ==> #[trigger] cells@[i]@ == cs[i],
                nf@ == parser_spec::updated_flags(flags@, cs).take(q as int),
            decreases ncols - q,
        {
            let f = flags[q] || is_quoted(&cells[q]);
            nf.push(f);
            q += 1;
            assert(nf@ =~= parser_spec::updated_flags(flags@, cs).take(q as int));
        }
        assert(nf@ =~= parser_spec::updated_flags(flags@, cs));
        Ok(RowStep::Row((row, nf)))
    }

    fn parse_table(&mut self, name: &Vec<char>, cols_raw: &[char], indent: u32, line_no: u32) -> (r:
        Result<Table, ParseError>)
        requires
            old(self).wf(),
            old(self).index < old(self).lines@.len(),
            indent <= scan::max_text(),
        ensures
            step_ok(
                r,
                parser_spec::spec_table(
                    old(self).lines_view(),
                    old(self).pol(),
                    name@,
                    cols_raw@,
                    indent as int,
                    line_no,
                    old(self)@,
                ),
                final(self)@,
            ),
            final(self).same_doc(old(self)),
            final(self).wf(),
            r is Ok ==> final(self).index > old(self).index,
            parser_spec::columns_of(text::split_on(cols_raw@, ',')).len() == 0 ==> final(self)@ == old(self)@,
            r matches Ok(t) ==> {
                &&& t@.columns.len() > 0
                &&& parser_spec::rows_arity(t@.rows, t@.columns.len() as int)
                &&& parser_spec::cells_within(t@.rows, old(self).policy.max_string_length as int)
                &&& t@.rows.len() <= old(self).policy.max_table_row_count
            },
            final(self).current_nesting_depth == old(self).current_nesting_depth,
    {
        let ghost lv = self.lines_view();
        let ghost pol = self.pol();
        proof {
            parser_spec::law_table_shape(lv, pol, name@, cols_raw@, indent as int, line_no, self@);
        }
        let pieces = split_chars(cols_raw, ',');
        let mut columns: Vec<String> = Vec::new();
        let mut k: usize = 0;
        while k < pieces.len()
            invariant
                0 <= k <= pieces@.len(),
                pieces@.len() == text::split_on(cols_raw@, ',').len(),
                forall|i: int| 0 <= i < pieces@.len() ==> #[trigger] pieces@[i]@ == text::split_on(cols_raw@, ',')[i],
                ast::strings_view(columns@) == parser_spec::columns_of(
                    text::split_on(cols_raw@, ',').take(k as int),
                ),
            decreases pieces@.len() - k,
        {
            proof {
                assert(text::split_on(cols_raw@, ',').take(k + 1 as int).drop_last()
                    == text::split_on(cols_raw@, ',').take(k as int));
            }
            let c = trim_chars(&pieces[k]);
            if c.len() > 0 {
                let cs = string_of(&c);
                let ghost before = ast::strings_view(columns@);
                columns.push(cs);
                assert(ast::strings_view(columns@) == before.push(cs@));
            }
            k += 1;
        }
        assert(text::split_on(cols_raw@, ',').take(pieces@.len() as int) == text::split_on(cols_raw@, ','));
        if columns.len() == 0 {
            return Err(
                ParseError::new(
                    lit("SDIF_TABLE_HEADER"),
                    lit("table must declare columns"),
                    Span::single_line(line_no, indent + 1, indent + 1),
                ),
            );
        }
        let ncols = columns.len();
        let mut flags: Vec<bool> = Vec::new();
        let mut j: usize = 0;
        while j < ncols
            invariant
                0 <= j <= ncols,
                flags@ == Seq::new(j as nat, |i: int| false),
            decreases ncols - j,
        {
            flags.push(false);
            j += 1;
            assert(flags@ =~= Seq::new(j as nat, |i: int| false));
        }
        assert(flags@ =~= parser_spec::no_flags(ncols as nat));
        let ghost i0 = self.index + 1;
        let mut rows: Vec<Vec<String>> = Vec::new();
        self.index += 1;
        assert(ast::rows_view(rows@) =~= Seq::<Seq<Seq<char>>>::empty());
        while self.index < self.lines.len()
            invariant_except_break
                self.wf(),
                self.same_doc(old(self)),
                self.current_nesting_depth == old(self).current_nesting_depth,
                self.is_ai_profile == old(self).is_ai_profile,
                self.has_format == old(self).has_format,
                self.aliases@ == old(self).aliases@,
                lv == self.lines_view(),
                pol == self.pol(),
                i0 <= self.index <= self.lines@.len(),
                i0 == old(self).index + 1,
                indent <= scan::max_text(),
                flags@.len() == ncols,
                ncols == columns@.len(),
                ncols > 0,
                ast::strings_view(columns@) == parser_spec::columns_of(text::split_on(cols_raw@, ',')),
                parser_spec::table_rows(lv, pol, ncols as int, indent as int, i0, Seq::empty(), parser_spec::no_flags(ncols as nat))
                    == parser_spec::table_rows(lv, pol, ncols as int, indent as int, self.index as int, ast::rows_view(rows@), flags@),
            ensures
                self.wf(),
                self.same_doc(old(self)),
                self.current_nesting_depth == old(self).current_nesting_depth,
                self.is_ai_profile == old(self).is_ai_profile,
                self.has_format == old(self).has_format,
                self.aliases@ == old(self).aliases@,
                i0 <= self.index <= self.lines@.len(),
                flags@.len() == ncols,
                ncols == columns@.len(),
                ncols > 0,
                ast::strings_view(columns@) == parser_spec::columns_of(text::split_on(cols_raw@, ',')),
                parser_spec::table_rows(lv, pol, ncols as int, indent as int, i0, Seq::empty(), parser_spec::no_flags(ncols as nat))
                    == Ok::<_, SpecParseError>((ast::rows_view(rows@), flags@, self.index as int)),
            decreases self.lines@.len() - self.index,
        {
            assert(ast::rows_view(rows@).len() == rows@.len());
            let step = self.table_row_step(ncols, indent, rows.len(), &flags);
            let step = match step {
                Ok(x) => x,
                Err(e) => {
                    assert(parser_spec::table_row(lv, pol, ncols as int, indent as int, self.index as int, rows@.len() as int, flags@) == Err::<RowStep<(Seq<Seq<char>>, Seq<bool>)>, SpecParseError>(e@));
                    assert(parser_spec::table_rows(lv, pol, ncols as int, indent as int, self.index as int, ast::rows_view(rows@), flags@) == Err::<(Seq<Seq<Seq<char>>>, Seq<bool>, int), SpecParseError>(e@));
                    return Err(e);
                },
            };
            match step {
                RowStep::Blank => {
                    self.index += 1;
                },
                RowStep::End => {
                    break;
                },
                RowStep::Row((row, nf)) => {
                    let ghost rows_before = ast::rows_view(rows@);
                    let ghost rv = ast::strings_view(row@);
                    rows.push(row);
                    assert(ast::rows_view(rows@) == rows_before.push(rv));
                    flags = nf;
                    self.index += 1;
                },
            }
        }
        let mut quoted_columns: Vec<usize> = Vec::new();
        let mut q: usize = 0;
        while q < flags.len()
            invariant
                0 <= q <= flags@.len(),
                quoted_columns@ == parser_spec::flag_indices(flags@.take(q as int)),
            decreases flags@.len() - q,
        {
            assert(flags@.take(q + 1 as int).drop_last() == flags@.take(q as int));
            if flags[q] {
                quoted_columns.push(q);
            }
            q += 1;
        }
        assert(flags@.take(flags@.len() as int) == flags@);
        Ok(Table { name: string_of(name), columns, rows, quoted_columns })
    }

    // -----------------------------------------------------------------------
    // Relations
    // -----------------------------------------------------------------------

    /// One line inside a relation block (see `parser_spec::relation_row`).
    fn relation_row_step(&self, subject: &Option<Vec<char>>, indent: u32) -> (r: Result<
        RowStep<Relation>,
        ParseError,
    >)
        requires
            self.wf(),
            self.index < self.lines@.len(),
            indent <= scan::max_text(),
        ensures
            match (r, parser_spec::relation_row(self.lines_view(), self.pol(), opt_chars(*subject), indent as int, self.index as int)) {
                (Ok(RowStep::Blank), Ok(RowStep::Blank)) => true,
                (Ok(RowStep::End), Ok(RowStep::End)) => true,
                (Ok(RowStep::Row(v)), Ok(RowStep::Row(sv))) => v@ == sv,
                (Err(e), Err(se)) => e@ == se,
                _ => false,
            },
    {
        let row_no = (self.index + 1) as u32;
        assert(row_no == parser_spec::line_of(self.index as int));
        let raw = &self.lines[self.index];
        assert(self.lines_view()[self.index as int] == raw@);
        if is_blank(raw) {
            return Ok(RowStep::Blank);
        }
        let actual = compute_indent(raw, row_no)?;
        let child = indent + 2;
        if actual < child {
            return Ok(RowStep::End);
        }
        if actual != child {
            return Err(
                ParseError::new(
                    lit("SDIF_INDENT"),
                    lit("invalid relation row indentation"),
                    Span::single_line(row_no, actual + 1, actual + 1),
                ),
            );
        }
        let row_text = slice_to_vec(raw, child as usize, raw.len());
        assert(row_text@ == raw@.skip(child as int));
        let stripped = strip_inline_comment(&row_text);
        proof { scan::lemma_strip_comment_len(row_text@); }
        let parts = split_quoted_whitespace(&stripped, row_no, "SDIF_REL_QUOTE")?;
        let n: usize = if subject.is_some() { 2 } else { 3 };
        if parts.len() != n {
            let msg = if subject.is_some() {
                lit("subject-grouped relation row must have exactly two parts")
            } else {
                lit("relation row must have exactly three parts")
            };
            return Err(
                ParseError::new(
                    lit("SDIF_REL_ARITY"),
                    msg,
                    Span::single_line(row_no, child + 1, child + 1),
                ),
            );
        }
        assert(parts@[n - 1]@ == vecs_view(parts@)[n - 1]);
        assert(parts@[n - 2]@ == vecs_view(parts@)[n - 2]);
        assert(parts@[0]@ == vecs_view(parts@)[0]);
        let object = unquote(&parts[n - 1]);
        check_string_length(self.policy, &object, "Relation object")?;
        let object_quoted = is_quoted(&parts[n - 1]);
        let subj = match subject {
            Some(s) => string_of(s),
            None => string_of(&parts[0]),
        };
        Ok(
            RowStep::Row(
                Relation {
                    subject: subj,
                    predicate: string_of(&parts[n - 2]),
                    object: string_of(&object),
                    object_quoted,
                },
            ),
        )
    }

    /// The rows of a `rel:` block (no subject) or a `rel[subject]:` block
    /// whose opener is the current line, as statements.
    fn parse_relation_rows(&mut self, subject: &Option<Vec<char>>, indent: u32) -> (r: Result<
        Vec<Statement>,
        ParseError,
    >)
        requires
            old(self).wf(),
            old(self).index < old(self).lines@.len(),
            indent <= scan::max_text(),
        ensures
            match (r, parser_spec::relation_rows(old(self).lines_view(), old(self).pol(), opt_chars(*subject), indent as int, old(self).index + 1, Seq::empty())) {
                (Ok(v), Ok((sv, end))) => ast::statements_view(v@) == parser_spec::relation_stmts(sv)
                    && final(self)@ == parser_spec::at(old(self)@, end),
                (Err(e), Err(se)) => e@ == se,
                _ => false,
            },
            final(self).same_doc(old(self)),
            final(self).wf(),
            r is Ok ==> final(self).index > old(self).index,
            final(self).current_nesting_depth == old(self).current_nesting_depth,
    {
        let ghost lv = self.lines_view();
        let ghost pol = self.pol();
        let ghost subj = opt_chars(*subject);
        let ghost i0 = self.index + 1;
        let ghost mut acc: Seq<SpecRelation> = Seq::empty();
        let mut out: Vec<Statement> = Vec::new();
        self.index += 1;
        assert(ast::statements_view(out@) =~= parser_spec::relation_stmts(acc));
        while self.index < self.lines.len()
            invariant_except_break
                self.wf(),
                self.same_doc(old(self)),
                self.current_nesting_depth == old(self).current_nesting_depth,
                self.is_ai_profile == old(self).is_ai_profile,
                self.has_format == old(self).has_format,
                self.aliases@ == old(self).aliases@,
                lv == self.lines_view(),
                pol == self.pol(),
                i0 <= self.index <= self.lines@.len(),
                i0 == old(self).index + 1,
                indent <= scan::max_text(),
                subj == opt_chars(*subject),
                ast::statements_view(out@) == parser_spec::relation_stmts(acc),
                parser_spec::relation_rows(lv, pol, subj, indent as int, i0, Seq::empty())
                    == parser_spec::relation_rows(lv, pol, subj, indent as int, self.index as int, acc),
            ensures
                self.wf(),
                self.same_doc(old(self)),
                self.current_nesting_depth == old(self).current_nesting_depth,
                self.is_ai_profile == old(self).is_ai_profile,
                self.has_format == old(self).has_format,
                self.aliases@ == old(self).aliases@,
                i0 <= self.index <= self.lines@.len(),
                ast::statements_view(out@) == parser_spec::relation_stmts(acc),
                parser_spec::relation_rows(lv, pol, subj, indent as int, i0, Seq::empty())
                    == Ok::<_, SpecParseError>((acc, self.index as int)),
            decreases self.lines@.len() - self.index,
        {
            let step = self.relation_row_step(subject, indent);
            match step {
                Err(e) => {
                    return Err(e);
                },
                Ok(RowStep::Blank) => {
                    self.index += 1;
                },
                Ok(RowStep::End) => {
                    break;
                },
                Ok(RowStep::Row(rel)) => {
                    let ghost rv = rel@;
                    let ghost before = ast::statements_view(out@);
                    out.push(Statement::Relation(rel));
                    assert(ast::statements_view(out@) == before.push(SpecStatement::Relation(rv)));
                    assert(parser_spec::relation_stmts(acc.push(rv)) == parser_spec::relation_stmts(acc).push(
                        SpecStatement::Relation(rv),
                    ));
                    proof { acc = acc.push(rv); }
                    self.index += 1;
                },
            }
        }
        Ok(out)
    }

    // -----------------------------------------------------------------------
    // Rules
    // -----------------------------------------------------------------------

    /// One line inside a `rules:` block (see `parser_spec::rule_row`).
    fn rule_row_step(&self, indent: u32) -> (r: Result<RowStep<Rule>, ParseError>)
        requires
            self.wf(),
            self.index < self.lines@.len(),
            indent <= scan::max_text(),
        ensures
            match (r, parser_spec::rule_row(self.lines_view(), indent as int, self.index as int)) {
                (Ok(RowStep::Blank), Ok(RowStep::Blank)) => true,
                (Ok(RowStep::End), Ok(RowStep::End)) => true,
                (Ok(RowStep::Row(v)), Ok(RowStep::Row(sv))) => v@ == sv,
                (Err(e), Err(se)) => e@ == se,
                _ => false,
            },
    {
        let row_no = (self.index + 1) as u32;
        assert(row_no == parser_spec::line_of(self.index as int));
        let raw = &self.lines[self.index];
        assert(self.lines_view()[self.index as int] == raw@);
        if is_blank(raw) {
            return Ok(RowStep::Blank);
        }
        let actual = compute_indent(raw, row_no)?;
        let child = indent + 2;
        if actual < child {
            return Ok(RowStep::End);
        }
        if actual != child {
            return Err(
                ParseError::new(
                    lit("SDIF_INDENT"),
                    lit("invalid rule row indentation"),
                    Span::single_line(row_no, actual + 1, actual + 1),
                ),
            );
        }
        let row_text = slice_to_vec(raw, child as usize, raw.len());
        assert(row_text@ == raw@.skip(child as int));
        let stripped = strip_inline_comment(&row_text);
        let source = trim_chars(&stripped);
        proof {
            scan::lemma_strip_comment_len(row_text@);
            text::lemma_trim_len(stripped@);
        }
        let expression = rule::tokenize_and_parse_rule(&source, row_no)?;
        Ok(RowStep::Row(Rule { source: string_of(&source), expression: Some(expression) }))
    }

    /// The rules of a `rules:` block whose opener is the current line, as
    /// statements.
    fn parse_rules(&mut self, indent: u32) -> (r: Result<Vec<Statement>, ParseError>)
        requires
            old(self).wf(),
            old(self).index < old(self).lines@.len(),
            indent <= scan::max_text(),
        ensures
            match (r, parser_spec::rule_rows(old(self).lines_view(), indent as int, old(self).index + 1, Seq::empty())) {
                (Ok(v), Ok((sv, end))) => ast::statements_view(v@) == parser_spec::rule_stmts(sv)
                    && final(self)@ == parser_spec::at(old(self)@, end),
                (Err(e), Err(se)) => e@ == se,
                _ => false,
            },
            final(self).same_doc(old(self)),
            final(self).wf(),
            r is Ok ==> final(self).index > old(self).index,
            final(self).current_nesting_depth == old(self).current_nesting_depth,
    {
        let ghost lv = self.lines_view();
        let ghost i0 = self.index + 1;
        let ghost mut acc: Seq<SpecRule> = Seq::empty();
        let mut out: Vec<Statement> = Vec::new();
        self.index += 1;
        assert(ast::statements_view(out@) =~= parser_spec::rule_stmts(acc));
        while self.index < self.lines.len()
            invariant_except_break
                self.wf(),
                self.same_doc(old(self)),
                self.current_nesting_depth == old(self).current_nesting_depth,
                self.is_ai_profile == old(self).is_ai_profile,
                self.has_format == old(self).has_format,
                self.aliases@ == old(self).aliases@,
                lv == self.lines_view(),
                i0 <= self.index <= self.lines@.len(),
                i0 == old(self).index + 1,
                indent <= scan::max_text(),
                ast::statements_view(out@) == parser_spec::rule_stmts(acc),
                parser_spec::rule_rows(lv, indent as int, i0, Seq::empty())
                    == parser_spec::rule_rows(lv, indent as int, self.index as int, acc),
            ensures
                self.wf(),
                self.same_doc(old(self)),
                self.current_nesting_depth == old(self).current_nesting_depth,
                self.is_ai_profile == old(self).is_ai_profile,
                self.has_format == old(self).has_format,
                self.aliases@ == old(self).aliases@,
                i0 <= self.index <= self.lines@.len(),
                ast::statements_view(out@) == parser_spec::rule_stmts(acc),
                parser_spec::rule_rows(lv, indent as int, i0, Seq::empty())
                    == Ok::<_, SpecParseError>((acc, self.index as int)),
            decreases self.lines@.len() - self.index,
        {
            let step = self.rule_row_step(indent);
            match step {
                Err(e) => {
                    return Err(e);
                },
                Ok(RowStep::Blank) => {
                    self.index += 1;
                },
                Ok(RowStep::End) => {
                    break;
                },
                Ok(RowStep::Row(rule)) => {
                    let ghost rv = rule@;
                    let ghost before = ast::statements_view(out@);
                    out.push(Statement::Rule(rule));
                    assert(ast::statements_view(out@) == before.push(SpecStatement::Rule(rv)));
                    assert(parser_spec::rule_stmts(acc.push(rv)) == parser_spec::rule_stmts(acc).push(
                        SpecStatement::Rule(rv),
                    ));
                    proof { acc = acc.push(rv); }
                    self.index += 1;
                },
            }
        }
        Ok(out)
    }

    // -----------------------------------------------------------------------
    // Narrative
    // -----------------------------------------------------------------------

    /// A narrative block `key """` whose opener is the current line: the
    /// lines up to the closing `"""`, with the opener's indentation removed.
    fn parse_narrative(&mut self, key: &Vec<char>, indent: u32, line_no: u32) -> (r: Result<
        Narrative,
        ParseError,
    >)
        requires
            old(self).wf(),
            old(self).index < old(self).lines@.len(),
            indent <= scan::max_text(),
        ensures
            match (r, parser_spec::narrative_lines(old(self).lines_view(), old(self).pol(), key@, indent as int, line_no, old(self).index + 1, Seq::empty())) {
                (Ok(n), Ok((sn, end))) => n@ == sn && final(self)@ == parser_spec::at(old(self)@, end),
                (Err(e), Err(se)) => e@ == se,
                _ => false,
            },
            final(self).same_doc(old(self)),
            final(self).wf(),
            r is Ok ==> final(self).index > old(self).index,
            final(self).current_nesting_depth == old(self).current_nesting_depth,
    {
        let ghost lv = self.lines_view();
        let ghost pol = self.pol();
        let ghost i0 = self.index + 1;
        let mut prefix: Vec<char> = Vec::new();
        let mut k: u32 = 0;
        while k < indent
            invariant
                k <= indent,
                prefix@ == parser_spec::spaces(k as int),
            decreases indent - k,
        {
            prefix.push(' ');
            k += 1;
            assert(prefix@ =~= parser_spec::spaces(k as int));
        }
        let mut closing = slice_to_vec(&prefix, 0, prefix.len());
        closing.push('"');
        closing.push('"');
        closing.push('"');
        assert(closing@ =~= prefix@ + parser_spec::triple_quote());
        proof {
            reveal_strlit("\"\"\"");
        }
        assert("\"\"\""@ =~= parser_spec::triple_quote());
        let ghost mut content: Seq<Seq<char>> = Seq::empty();
        let mut body: Vec<char> = Vec::new();
        let mut started = false;
        self.index += 1;
        loop
            invariant
                self.wf(),
                self.same_doc(old(self)),
                self.current_nesting_depth == old(self).current_nesting_depth,
                self.is_ai_profile == old(self).is_ai_profile,
                self.has_format == old(self).has_format,
                self.aliases@ == old(self).aliases@,
                lv == self.lines_view(),
                pol == self.pol(),
                i0 <= self.index <= self.lines@.len(),
                i0 == old(self).index + 1,
                indent <= scan::max_text(),
                prefix@ == parser_spec::spaces(indent as int),
                closing@ == prefix@ + parser_spec::triple_quote(),
                "\"\"\""@ == parser_spec::triple_quote(),
                started == (content.len() > 0),
                body@ == text::join(content, seq!['\n']),
                parser_spec::narrative_lines(lv, pol, key@, indent as int, line_no, i0, Seq::empty())
                    == parser_spec::narrative_lines(lv, pol, key@, indent as int, line_no, self.index as int, content),
            decreases self.lines@.len() - self.index,
        {
            if self.index >= self.lines.len() {
                return Err(
                    ParseError::new(
                        lit("SDIF_NARRATIVE_UNCLOSED"),
                        lit("unterminated narrative block"),
                        Span::single_line(line_no, indent + 1, indent + 1),
                    ).with_hint(
                        lit(
                            "make sure to close the narrative block with triple quotes aligned to the opening indentation",
                        ),
                    ),
                );
            }
            let raw = &self.lines[self.index];
            assert(lv[self.index as int] == raw@);
            let t = trim_chars(raw);
            if eq_str(&t, "\"\"\"") {
                if !chars_eq(raw, &closing) {
                    let w = leading_ws(raw);
                    proof { text::lemma_ws_run_bounds(raw@, 0); }
                    let lead = slice_to_vec(raw, 0, w);
                    assert(lead@ == raw@.take(w as int));
                    proof { text::lemma_utf8_len_bounds(lead@); }
                    let col = utf8_len_of(&lead) as u32 + 1;
                    let row = (self.index + 1) as u32;
                    assert(row == parser_spec::line_of(self.index as int));
                    return Err(
                        ParseError::new(
                            lit("SDIF_NARRATIVE_CLOSE_ALIGN"),
                            lit("unterminated narrative block or mismatched alignment at close"),
                            Span::single_line(row, col, col),
                        ).with_hint(
                            lit("closing triple quotes must match the indentation of the opening block"),
                        ),
                    );
                }
                self.index += 1;
                check_string_length(self.policy, &body, "Narrative content")?;
                return Ok(Narrative { key: string_of(key), text: string_of(&body) });
            }
            let line_content = if starts_with_chars(raw, &prefix) {
                slice_to_vec(raw, indent as usize, raw.len())
            } else {
                slice_to_vec(raw, 0, raw.len())
            };
            assert(line_content@ == (if text::starts_with(raw@, prefix@) {
                raw@.skip(indent as int)
            } else {
                raw@
            }));
            let ghost nc = content.push(line_content@);
            assert(nc.drop_last() == content);
            if started {
                body.push('\n');
                push_all(&mut body, &line_content);
                assert(body@ =~= text::join(content, seq!['\n']) + seq!['\n'] + line_content@);
            } else {
                body = line_content;
                assert(content.len() == 0);
            }
            proof { content = nc; }
            started = true;
            self.index += 1;
        }
    }

    // -----------------------------------------------------------------------
    // Statements and objects
    // -----------------------------------------------------------------------

    /// One parsing step at the current line, for a scope indented by
    /// `indent`.
    #[verifier::rlimit(40)]
    fn parse_next(&mut self, indent: u32) -> (r: Result<ParsedItem, ParseError>)
        requires
            old(self).wf(),
            old(self).index < old(self).lines@.len(),
            indent <= scan::max_text(),
        ensures
            step_ok(
                r,
                parser_spec::spec_parse_next(old(self).lines_view(), old(self).pol(), old(self)@, indent as int),
                final(self)@,
            ),
            final(self).same_doc(old(self)),
            final(self).wf(),
            final(self).current_nesting_depth == old(self).current_nesting_depth,
            r is Ok && final(self).index <= old(self).index ==> parser_spec::lower_line(
                old(self).lines_view(),
                old(self).index as int,
                indent as int,
            ),
        decreases old(self).lines@.len() - old(self).index, 2nat,
    {
        let ln = (self.index + 1) as u32;
        assert(ln == parser_spec::line_of(self.index as int));
        let raw = slice_to_vec(&self.lines[self.index], 0, self.lines[self.index].len());
        assert(raw@ == self.lines_view()[self.index as int]);
        let ts = trim_start_chars(&raw);
        if is_blank(&raw) || (ts.len() > 0 && ts[0] == '#') {
            self.index += 1;
            return Ok(ParsedItem::Nothing);
        }
        let actual = compute_indent(&raw, ln)?;
        if actual < indent {
            return Ok(ParsedItem::Nothing);
        }
        if actual > indent {
            return Err(
                ParseError::new(
                    lit("SDIF_INDENT"),
                    lit("unexpected indentation"),
                    Span::single_line(ln, actual + 1, actual + 1),
                ),
            );
        }
        proof { parser_spec::lemma_nonblank_has_body(raw@); }
        let body = slice_to_vec(&raw, indent as usize, raw.len());
        assert(body@ == raw@.skip(indent as int));
        let stripped = strip_inline_comment(&body);
        if body[0] == '@' {
            self.index += 1;
            let d = self.parse_directive(&body, ln, indent)?;
            return Ok(ParsedItem::Dir(d));
        }
        match parse_alias_header(&stripped) {
            Some(entries) => {
                self.index += 1;
                let d = self.apply_aliases(&entries, ln)?;
                return Ok(ParsedItem::Dir(d));
            },
            None => {},
        }
        match parse_narrative_opener(&body) {
            Some(key) => {
                let n = self.parse_narrative(&key, indent, ln)?;
                return Ok(ParsedItem::Stmt(Statement::Narrative(n)));
            },
            None => {},
        }
        match parse_table_header(&stripped) {
            Some((name, cols_raw)) => {
                if self.is_relation_subject_header(&name) {
                    if !self.is_ai_profile {
                        proof { text::lemma_utf8_len_bounds(body@); }
                        let n = utf8_len_of(&body);
                        return Err(
                            ParseError::new(
                                lit("SDIF_AI_REL_SUBJECT"),
                                lit("rel[subject]: syntax is only valid in .sdif.ai documents"),
                                Span::single_line(ln, indent + 1, indent + 1 + n as u32),
                            ),
                        );
                    }
                    let subject = Some(cols_raw);
                    let stmts = self.parse_relation_rows(&subject, indent)?;
                    return Ok(ParsedItem::Stmts(stmts));
                }
                let t = self.parse_table(&name, &cols_raw, indent, ln)?;
                return Ok(ParsedItem::Stmt(Statement::Table(t)));
            },
            None => {},
        }
        match parse_block_key(&stripped) {
            Some(key) => {
                if self.is_relation_subject_header(&key) {
                    let stmts = self.parse_relation_rows(&None, indent)?;
                    return Ok(ParsedItem::Stmts(stmts));
                }
                if eq_str(&key, "rules") {
                    let stmts = self.parse_rules(indent)?;
                    return Ok(ParsedItem::Stmts(stmts));
                }
                let o = self.parse_object(&key, indent, ln)?;
                proof { ast::lemma_object_view(o); }
                return Ok(ParsedItem::Stmt(Statement::ObjectBlock(o)));
            },
            None => {},
        }
        self.index += 1;
        proof { text::lemma_trim_len(raw@); }
        let f = parse_field(&body, ln, indent, self.policy)?;
        Ok(ParsedItem::Stmt(Statement::Field(f)))
    }

    /// An object block `key:` whose opener is the current line.
    fn parse_object(&mut self, key: &Vec<char>, indent: u32, line_no: u32) -> (r: Result<
        ObjectBlock,
        ParseError,
    >)
        requires
            old(self).wf(),
            old(self).index < old(self).lines@.len(),
            indent <= scan::max_text(),
        ensures
            step_ok(
                r,
                parser_spec::spec_object(
                    old(self).lines_view(),
                    old(self).pol(),
                    key@,
                    indent as int,
                    line_no,
                    old(self)@,
                ),
                final(self)@,
            ),
            final(self).same_doc(old(self)),
            final(self).wf(),
            r is Ok ==> final(self).index > old(self).index,
            final(self).current_nesting_depth == old(self).current_nesting_depth,
        decreases old(self).lines@.len() - old(self).index, 1nat,
    {
        let depth = self.current_nesting_depth + 1;
        if depth > self.policy.max_nesting_depth {
            let mut m = chars_of("Nesting depth ");
            let a = decimal_chars(depth as u128);
            push_all(&mut m, &a);
            push_str(&mut m, " exceeds maximum limit of ");
            let b = decimal_chars(self.policy.max_nesting_depth as u128);
            push_all(&mut m, &b);
            return Err(policy_error("SDIF_POLICY_NESTING_DEPTH", m));
        }
        let ghost lv = self.lines_view();
        let ghost pol = self.pol();
        let ghost start = PState { index: self.index + 1, depth: depth as int, ..self@ };
        let ghost mut acc: Seq<SpecStatement> = Seq::empty();
        let mut statements: Vec<Statement> = Vec::new();
        self.index += 1;
        self.current_nesting_depth = depth;
        assert(self@ == start);
        assert(ast::statements_view(statements@) =~= acc);
        loop
            invariant_except_break
                self.wf(),
                self.same_doc(old(self)),
                self.current_nesting_depth == depth,
                depth == old(self).current_nesting_depth + 1,
                depth <= pol.max_nesting_depth,
                start == (PState { index: old(self)@.index + 1, depth: old(self)@.depth + 1, ..old(self)@ }),
                lv == self.lines_view(),
                pol == self.pol(),
                old(self).index < self.index <= self.lines@.len(),
                old(self).index < self.lines@.len(),
                indent <= scan::max_text(),
                ast::statements_view(statements@) == acc,
                parser_spec::object_loop(lv, pol, indent as int, line_no, start, Seq::empty())
                    == parser_spec::object_loop(lv, pol, indent as int, line_no, self@, acc),
            ensures
                self.wf(),
                self.same_doc(old(self)),
                self.current_nesting_depth == depth,
                old(self).index < self.index <= self.lines@.len(),
                ast::statements_view(statements@) == acc,
                parser_spec::object_loop(lv, pol, indent as int, line_no, start, Seq::empty())
                    == Ok::<_, SpecParseError>((acc, self@)),
            decreases self.lines@.len() - self.index,
        {
            if self.index >= self.lines.len() {
                break;
            }
            match self.object_step(indent, line_no, Ghost(acc)) {
                Err(e) => {
                    self.current_nesting_depth = depth - 1;
                    return Err(e);
                },
                Ok(ObjectStep::Stop) => {
                    break;
                },
                Ok(ObjectStep::Continue(v)) => {
                    let mut v = v;
                    let ghost vv = ast::statements_view(v@);
                    let ghost before = ast::statements_view(statements@);
                    statements.append(&mut v);
                    assert(ast::statements_view(statements@) == before + vv);
                    proof { acc = acc + vv; }
                },
            }
        }
        self.current_nesting_depth = depth - 1;
        Ok(ObjectBlock { key: string_of(key), statements })
    }

    /// One line inside an object block indented by `indent` (see
    /// `parser_spec::object_loop`): a skipped blank line, the end of the
    /// block, or the statements of one item.
    fn object_step(&mut self, indent: u32, line_no: u32, Ghost(acc): Ghost<Seq<SpecStatement>>) -> (r:
        Result<ObjectStep, ParseError>)
        requires
            old(self).wf(),
            old(self).index < old(self).lines@.len(),
            indent <= scan::max_text(),
        ensures
            final(self).same_doc(old(self)),
            final(self).wf(),
            final(self).current_nesting_depth == old(self).current_nesting_depth,
            match r {
                Err(e) => parser_spec::object_loop(old(self).lines_view(), old(self).pol(), indent as int, line_no, old(self)@, acc)
                    == Err::<(Seq<SpecStatement>, PState), SpecParseError>(e@),
                Ok(ObjectStep::Stop) => final(self)@ == old(self)@
                    && parser_spec::object_loop(old(self).lines_view(), old(self).pol(), indent as int, line_no, old(self)@, acc)
                    == Ok::<_, SpecParseError>((acc, old(self)@)),
                Ok(ObjectStep::Continue(v)) => final(self).index > old(self).index
                    && parser_spec::object_loop(old(self).lines_view(), old(self).pol(), indent as int, line_no, old(self)@, acc)
                    == parser_spec::object_loop(old(self).lines_view(), old(self).pol(), indent as int, line_no, final(self)@, acc + ast::statements_view(v@)),
            },
        decreases old(self).lines@.len() - old(self).index, 3nat,
    {
        let row_no = (self.index + 1) as u32;
        assert(row_no == parser_spec::line_of(self.index as int));
        assert(self.lines_view()[self.index as int] == self.lines@[self.index as int]@);
        let empty: Vec<Statement> = Vec::new();
        assert(acc + ast::statements_view(empty@) =~= acc);
        if is_blank(&self.lines[self.index]) {
            self.index += 1;
            return Ok(ObjectStep::Continue(empty));
        }
        let actual = compute_indent(&self.lines[self.index], row_no)?;
        if actual < indent + 2 {
            return Ok(ObjectStep::Stop);
        }
        let item = self.parse_next(indent + 2)?;
        match item {
            ParsedItem::Nothing => Ok(ObjectStep::Continue(empty)),
            ParsedItem::Dir(_) => Err(
                ParseError::new(
                    lit("SDIF_OBJECT_DIRECTIVE"),
                    lit("directive not allowed inside object"),
                    Span::single_line(line_no, indent + 1, indent + 1),
                ),
            ),
            ParsedItem::Stmt(s) => {
                let ghost sv = s@;
                let mut v: Vec<Statement> = Vec::new();
                v.push(s);
                assert(ast::statements_view(v@) =~= seq![sv]);
                assert(acc.push(sv) =~= acc + seq![sv]);
                Ok(ObjectStep::Continue(v))
            },
            ParsedItem::Stmts(ss) => Ok(ObjectStep::Continue(ss)),
        }
    }

    // -----------------------------------------------------------------------
    // Document
    // -----------------------------------------------------------------------

    /// The whole document, from a fresh parser.
    fn parse_document(&mut self) -> (r: Result<Document, ParseError>)
        requires
            old(self).wf(),
            old(self)@ == parser_spec::initial_state(),
        ensures
            value_ok(r, parser_spec::document_result(old(self).lines_view(), old(self).pol())),
    {
        let ghost lv = self.lines_view();
        let ghost pol = self.pol();
        let ghost mut dirs: Seq<SpecDirective> = Seq::empty();
        let ghost mut stmts: Seq<SpecStatement> = Seq::empty();
        let mut directives: Vec<Directive> = Vec::new();
        let mut statements: Vec<Statement> = Vec::new();
        assert(ast::directives_view(directives@) =~= dirs);
        assert(ast::statements_view(statements@) =~= stmts);
        while self.index < self.lines.len()
            invariant
                self.wf(),
                lv == self.lines_view(),
                pol == self.pol(),
                ast::directives_view(directives@) == dirs,
                ast::statements_view(statements@) == stmts,
                self.same_doc(old(self)),
                lv == old(self).lines_view(),
                pol == old(self).pol(),
                parser_spec::document_loop(lv, pol, parser_spec::initial_state(), Seq::empty(), Seq::empty())
                    == parser_spec::document_loop(lv, pol, self@, dirs, stmts),
            decreases self.lines@.len() - self.index,
        {
            let ghost before = self.index;
            proof { crate::lexer::lemma_space_run(lv[before as int], 0); }
            let item = self.parse_next(0)?;
            match item {
                ParsedItem::Nothing => {},
                ParsedItem::Dir(d) => {
                    let ghost dv = d@;
                    let ghost before = ast::directives_view(directives@);
                    directives.push(d);
                    assert(ast::directives_view(directives@) == before.push(dv));
                    proof { dirs = dirs.push(dv); }
                },
                ParsedItem::Stmt(s) => {
                    let ghost sv = s@;
                    let ghost before = ast::statements_view(statements@);
                    statements.push(s);
                    assert(ast::statements_view(statements@) == before.push(sv));
                    proof { stmts = stmts.push(sv); }
                },
                ParsedItem::Stmts(ss) => {
                    let mut ss = ss;
                    let ghost ssv = ast::statements_view(ss@);
                    let ghost before = ast::statements_view(statements@);
                    statements.append(&mut ss);
                    assert(ast::statements_view(statements@) == before + ssv);
                    proof { stmts = stmts + ssv; }
                },
            }
        }
        if !self.has_format {
            return Err(
                ParseError::new(
                    lit("SDIF_VERSION_MISSING"),
                    lit("document must declare @sdif 1.0 or @sdif.ai 1.0"),
                    Span::single_line(1, 1, 1),
                ),
            );
        }
        Ok(Document { directives, statements })
    }
}

// ---------------------------------------------------------------------------
// Public API
// ---------------------------------------------------------------------------

/// Parse an SDIF document from text using a caller-supplied `Policy`.
///
/// The result is the document (or the first error) that
/// `parser_spec::spec_parse` assigns to `text` under the policy's limits.
pub fn parse_text_with_policy(text: &str, policy: &Policy) -> (r: Result<Document, ParseError>)
    requires
        text@.len() <= scan::max_text() || text::utf8_len(text@) > policy.max_document_size,
    ensures
        value_ok(r, parser_spec::spec_parse(text@, parser_spec::limits(*policy))),
        text::utf8_len(text@) > policy.max_document_size ==> (r matches Err(e) && e.code@
            == "SDIF_POLICY_DOCUMENT_SIZE"@),
        r matches Ok(d) ==> {
            &&& parser_spec::version_count(d@.directives) == 1
            &&& parser_spec::all_directives_ok(d@.directives)
            &&& parser_spec::all_rows_within(d@.statements, policy.max_table_row_count as int)
            &&& parser_spec::all_depth_within(d@.statements, policy.max_nesting_depth as int)
            &&& parser_spec::all_strings_within(d@.statements, policy.max_string_length as int)
        },
{
    proof {
        parser_spec::law_one_format_directive(text@, parser_spec::limits(*policy));
        parser_spec::law_directives_valid(text@, parser_spec::limits(*policy));
        parser_spec::law_table_row_limit(text@, parser_spec::limits(*policy));
        parser_spec::law_nesting_depth_limit(text@, parser_spec::limits(*policy));
        parser_spec::law_string_length_limit(text@, parser_spec::limits(*policy));
        text::lemma_utf8_len_bounds(text@);
    }
    let chars = chars_of(text);
    let size = utf8_len_wide(&chars);
    if size > policy.max_document_size as u128 {
        let mut m = chars_of("Document size exceeds maximum limit of ");
        let a = decimal_chars(policy.max_document_size as u128);
        push_all(&mut m, &a);
        push_str(&mut m, " bytes");
        return Err(policy_error("SDIF_POLICY_DOCUMENT_SIZE", m));
    }
    let mut lines = split_lines(&chars);
    let ghost raw = lines::raw_lines(chars@);
    assert(vecs_view(lines@) =~= raw);
    if lines.len() > 0 && lines[lines.len() - 1].len() == 0 {
        lines.pop();
        assert(vecs_view(lines@) =~= raw.drop_last());
    }
    assert(vecs_view(lines@) == parser_spec::doc_lines(text@));
    let mut p = Parser {
        policy,
        lines,
        index: 0,
        is_ai_profile: false,
        has_format: false,
        aliases: Vec::new(),
        current_nesting_depth: 0,
    };
    assert(aliases_view(p.aliases@) =~= Seq::<(Seq<char>, Seq<char>)>::empty());
    assert(p@ == parser_spec::initial_state());
    p.parse_document()
}

/// Parse an SDIF document from text using the default `Policy`.
pub fn parse_text(text: &str) -> (r: Result<Document, ParseError>)
    ensures
        value_ok(r, parser_spec::spec_parse(text@, parser_spec::default_limits())),
{
    let policy = Policy::default();
    proof {
        text::lemma_utf8_len_bounds(text@);
    }
    parse_text_with_policy(text, &policy)
}

} // verus!
