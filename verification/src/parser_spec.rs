//! The grammar of SDIF v1 documents, as functions of the document's lines.
//!
//! Every function here states what the parser produces at one point of a
//! document; `crate::parser` implements them and proves it does.
use vstd::prelude::*;

use crate::ast::{
    SpecDirective, SpecDocument, SpecField, SpecNarrative, SpecObjectBlock, SpecRelation, SpecRule,
    SpecStatement, SpecTable,
};
use crate::error::SpecParseError;
use crate::policy::Policy;
use crate::error;
use crate::lexer;
use crate::lines;
use crate::rule;
use crate::scan;
use crate::text;

verus! {

/// The limits of a [`Policy`] that parsing enforces.
pub struct Limits {
    pub max_document_size: usize,
    pub max_nesting_depth: usize,
    pub max_string_length: usize,
    pub max_table_row_count: usize,
}

pub open spec fn limits(p: Policy) -> Limits {
    Limits {
        max_document_size: p.max_document_size,
        max_nesting_depth: p.max_nesting_depth,
        max_string_length: p.max_string_length,
        max_table_row_count: p.max_table_row_count,
    }
}

/// The limits of `Policy::default()`.
pub open spec fn default_limits() -> Limits {
    Limits {
        max_document_size: 1_000_000,
        max_nesting_depth: 16,
        max_string_length: 65536,
        max_table_row_count: 10000,
    }
}

/// Parser state between steps: the next line, the profile and format flags,
/// the alias bindings (latest last) and the object nesting depth.
#[verifier::ext_equal]
pub struct PState {
    pub index: int,
    pub is_ai: bool,
    pub has_format: bool,
    pub aliases: Seq<(Seq<char>, Seq<char>)>,
    pub depth: int,
}

/// What one parsing step yields.
pub enum SpecItem {
    Nothing,
    Dir(SpecDirective),
    Stmt(SpecStatement),
    Stmts(Seq<SpecStatement>),
}

pub open spec fn at(st: PState, index: int) -> PState {
    PState { index, ..st }
}

/// The latest binding of alias `name`.
pub open spec fn alias_lookup(aliases: Seq<(Seq<char>, Seq<char>)>, name: Seq<char>) -> Option<Seq<char>>
    decreases aliases.len(),
{
    if aliases.len() == 0 {
        None
    } else if aliases.last().0 == name {
        Some(aliases.last().1)
    } else {
        alias_lookup(aliases.drop_last(), name)
    }
}

/// `name` is `rel` or an alias of it.
pub open spec fn means_rel(st: PState, name: Seq<char>) -> bool {
    name == "rel"@ || alias_lookup(st.aliases, name) == Some("rel"@)
}

pub open spec fn blank(s: Seq<char>) -> bool {
    text::trim(s).len() == 0
}

pub open spec fn is_comment_line(s: Seq<char>) -> bool {
    let t = text::trim_start(s);
    t.len() > 0 && t[0] == '#'
}

pub open spec fn line_of(i: int) -> u32 {
    (i + 1) as u32
}

/// `<desc> length <n> exceeds maximum limit of <max>`.
pub open spec fn length_msg(desc: Seq<char>, n: nat, max: nat) -> Seq<char> {
    desc + " length "@ + text::decimal(n) + " exceeds maximum limit of "@ + text::decimal(max)
}

/// The policy check on the byte length of a string value.
pub open spec fn check_len(pol: Limits, value: Seq<char>, desc: Seq<char>) -> Result<(), SpecParseError> {
    if text::utf8_len(value) > pol.max_string_length {
        Err(
            error::spec_policy_error(
                "SDIF_POLICY_STRING_LENGTH"@,
                length_msg(desc, text::utf8_len(value), pol.max_string_length as nat),
            ),
        )
    } else {
        Ok(())
    }
}

// ---------------------------------------------------------------------------
// Directives and aliases
// ---------------------------------------------------------------------------

pub open spec fn known_directive(name: Seq<char>) -> bool {
    name == "sdif"@ || name == "sdif.ai"@ || name == "profile"@ || name == "vocab"@ || name
        == "base"@ || name == "namespace"@ || name == "include"@
}

/// `@name args…` at `line_no` with the given indentation.
pub open spec fn spec_directive(body: Seq<char>, line_no: u32, indent: int, st: PState) -> Result<
    (SpecDirective, PState),
    SpecParseError,
> {
    let clean = scan::spec_strip_comment(body);
    let parts = scan::split_ws(clean.skip(1));
    let span = scan::sline(line_no, indent + 1, indent + 1 + text::utf8_len(body));
    if parts.len() == 0 {
        Err(error::spec_error("SDIF_DIRECTIVE"@, "empty directive"@, span))
    } else {
        let name = parts[0];
        let args = parts.skip(1);
        if !known_directive(name) {
            Err(
                error::spec_with_hint(
                    error::spec_error("SDIF_DIRECTIVE_UNKNOWN"@, "unknown directive @"@ + name, span),
                    "v1 documents only allow known core directives"@,
                ),
            )
        } else if (name == "sdif"@ || name == "sdif.ai"@) && args.len() != 1 {
            Err(
                error::spec_error(
                    "SDIF_VERSION_SYNTAX"@,
                    "@"@ + name + " requires exactly one version argument"@,
                    span,
                ),
            )
        } else if (name == "sdif"@ || name == "sdif.ai"@) && args[0] != "1.0"@ {
            Err(
                error::spec_with_hint(
                    error::spec_error(
                        "SDIF_VERSION_UNSUPPORTED"@,
                        "unsupported @"@ + name + " version `"@ + args[0] + "`"@,
                        span,
                    ),
                    "this implementation supports format version 1.0"@,
                ),
            )
        } else if (name == "sdif"@ || name == "sdif.ai"@) && st.has_format {
            Err(
                error::spec_error(
                    "SDIF_VERSION_CONFLICT"@,
                    "document must declare exactly one format version directive"@,
                    span,
                ),
            )
        } else {
            let st1 = if name == "sdif"@ || name == "sdif.ai"@ {
                PState { has_format: true, ..st }
            } else {
                st
            };
            let st2 = if name == "sdif.ai"@ {
                PState { is_ai: true, ..st1 }
            } else {
                st1
            };
            Ok((SpecDirective { name, args }, st2))
        }
    }
}

/// Apply alias entries `k..` on top of `aliases`.
pub open spec fn alias_loop(
    entries: Seq<Seq<char>>,
    k: int,
    aliases: Seq<(Seq<char>, Seq<char>)>,
    line_no: u32,
) -> Result<Seq<(Seq<char>, Seq<char>)>, SpecParseError>
    decreases entries.len() - k,
{
    if k < 0 || k >= entries.len() {
        Ok(aliases)
    } else {
        let entry = entries[k];
        match text::find_char(entry, '=') {
            None => Err(
                error::spec_error(
                    "SDIF_ALIAS_SYNTAX"@,
                    "invalid alias entry syntax"@,
                    scan::sline(line_no, 1, 1),
                ),
            ),
            Some(eq) => {
                let an = text::trim(entry.take(eq));
                let cn = text::trim(entry.skip(eq + 1));
                if crate::policy::is_reserved_term(an) || crate::policy::is_reserved_term(cn) {
                    Err(
                        error::spec_policy_error(
                            "SDIF_POLICY_ALIAS_RESERVED"@,
                            "Alias entry '"@ + entry + "' uses or targets a reserved term"@,
                        ),
                    )
                } else if alias_lookup(aliases, an) is Some && alias_lookup(aliases, an)->0 != cn {
                    Err(
                        error::spec_policy_error(
                            "SDIF_POLICY_ALIAS_COLLISION"@,
                            "Alias collision: '"@ + an + "' is mapped to both '"@ + alias_lookup(
                                aliases,
                                an,
                            )->0 + "' and '"@ + cn + "'"@,
                        ),
                    )
                } else {
                    alias_loop(entries, k + 1, aliases.push((an, cn)), line_no)
                }
            },
        }
    }
}

/// An `alias[...]` header: binds its entries and is recorded as an `alias`
/// directive.
pub open spec fn spec_aliases(entries: Seq<Seq<char>>, line_no: u32, st: PState) -> Result<
    (SpecDirective, PState),
    SpecParseError,
> {
    match alias_loop(entries, 0, st.aliases, line_no) {
        Err(e) => Err(e),
        Ok(a) => Ok((SpecDirective { name: "alias"@, args: entries }, PState { aliases: a, ..st })),
    }
}

// ---------------------------------------------------------------------------
// Fields
// ---------------------------------------------------------------------------

/// Index of the first ASCII whitespace character at or after `i`.
pub open spec fn first_ascii_ws(s: Seq<char>, i: int) -> int
    decreases s.len() - i,
{
    if i < 0 || i >= s.len() {
        s.len() as int
    } else if text::is_ascii_ws(s[i]) {
        i
    } else {
        first_ascii_ws(s, i + 1)
    }
}

/// `key value`: the key runs to the first whitespace; the rest, trimmed, is
/// the (possibly quoted) value.
pub open spec fn spec_field(body: Seq<char>, line_no: u32, indent: int, pol: Limits) -> Result<
    SpecField,
    SpecParseError,
> {
    let clean = scan::spec_strip_comment(body);
    if !clean.contains(' ') && !clean.contains('\t') {
        Err(
            error::spec_error(
                "SDIF_FIELD"@,
                "field requires a key and value"@,
                scan::sline(line_no, indent + 1, indent + 1 + text::utf8_len(body)),
            ),
        )
    } else {
        let sep = first_ascii_ws(clean, 0);
        let key = clean.take(sep);
        let raw_value = text::trim(clean.skip(sep));
        match scan::spec_quote_check(raw_value, line_no) {
            Err(e) => Err(e),
            Ok(_) => {
                let value = scan::spec_unquote(raw_value);
                if text::utf8_len(value) > pol.max_string_length {
                    Err(
                        error::spec_policy_error(
                            "SDIF_POLICY_STRING_LENGTH"@,
                            length_msg(
                                "Field value"@,
                                text::utf8_len(value),
                                pol.max_string_length as nat,
                            ),
                        ),
                    )
                } else {
                    Ok(SpecField { key, value, quoted: scan::spec_is_quoted(raw_value) })
                }
            },
        }
    }
}

// ---------------------------------------------------------------------------
// Tables
// ---------------------------------------------------------------------------

/// Column names: the comma-separated pieces, trimmed, empty ones dropped.
pub open spec fn columns_of(pieces: Seq<Seq<char>>) -> Seq<Seq<char>>
    decreases pieces.len(),
{
    if pieces.len() == 0 {
        Seq::empty()
    } else {
        let prev = columns_of(pieces.drop_last());
        let c = text::trim(pieces.last());
        if c.len() == 0 {
            prev
        } else {
            prev.push(c)
        }
    }
}

/// Indices (ascending) of the set flags.
pub open spec fn flag_indices(flags: Seq<bool>) -> Seq<usize>
    decreases flags.len(),
{
    if flags.len() == 0 {
        Seq::empty()
    } else {
        let prev = flag_indices(flags.drop_last());
        if flags.last() {
            prev.push((flags.len() - 1) as usize)
        } else {
            prev
        }
    }
}

/// Index of the first cell whose length breaks the policy.
pub open spec fn first_long(values: Seq<Seq<char>>, pol: Limits, j: int) -> Option<int>
    decreases values.len() - j,
{
    if j < 0 || j >= values.len() {
        None
    } else if text::utf8_len(values[j]) > pol.max_string_length {
        Some(j)
    } else {
        first_long(values, pol, j + 1)
    }
}

/// The text of a table row line, or `None` when the line ends the table;
/// an error for a row indented past the rows.
pub open spec fn row_text(raw: Seq<char>, actual: int, indent: int, row_no: u32) -> Result<
    Option<Seq<char>>,
    SpecParseError,
> {
    let child = indent + 2;
    if actual == child {
        Ok(Some(raw.skip(child)))
    } else if actual == indent && raw.skip(indent).contains('\t') {
        Ok(Some(raw.skip(indent)))
    } else if actual < child {
        Ok(None)
    } else {
        Err(
            error::spec_error(
                "SDIF_INDENT"@,
                "invalid table row indentation"@,
                scan::sline(row_no, actual + 1, actual + 1),
            ),
        )
    }
}

/// What one line inside a block does.
pub enum RowStep<T> {
    /// A blank line: skipped.
    Blank,
    /// A line that ends the block (it is not consumed).
    End,
    /// A row of the block.
    Row(T),
}

/// One line `i` inside a table with `nrows` rows so far: a blank line, the
/// end of the table, or a row with its cell values and the updated
/// quoted-column flags.
pub open spec fn table_row(
    lines: Seq<Seq<char>>,
    pol: Limits,
    ncols: int,
    indent: int,
    i: int,
    nrows: int,
    flags: Seq<bool>,
) -> Result<RowStep<(Seq<Seq<char>>, Seq<bool>)>, SpecParseError> {
    let raw = lines[i];
    let row_no = line_of(i);
    if blank(raw) {
        Ok(RowStep::Blank)
    } else {
        match scan::spec_compute_indent(raw, row_no) {
            Err(e) => Err(e),
            Ok(actual) => match row_text(raw, actual, indent, row_no) {
                Err(e) => Err(e),
                Ok(None) => Ok(RowStep::End),
                Ok(Some(rt)) => {
                    if scan::spec_strip_comment(rt) != text::trim_end(rt) {
                        Err(
                            error::spec_error(
                                "SDIF_TABLE_ROW_COMMENT"@,
                                "inline comments inside table rows are prohibited in strict mode"@,
                                scan::sline(row_no, indent + 1, indent + 1 + text::utf8_len(raw)),
                            ),
                        )
                    } else {
                        let cells = text::split_on(rt, '\t');
                        if cells.len() != ncols {
                            Err(
                                error::spec_with_hint(
                                    error::spec_error(
                                        "SDIF_TABLE_ARITY"@,
                                        "table row has "@ + text::decimal(cells.len())
                                            + " cells but header declares "@ + text::decimal(
                                            ncols as nat,
                                        ) + " columns"@,
                                        scan::sline(row_no, indent + 3, indent + 3),
                                    ),
                                    "check HTAB separators and missing cells"@,
                                ),
                            )
                        } else {
                            let values = cells.map_values(|c: Seq<char>| scan::spec_unquote(c));
                            match first_long(values, pol, 0) {
                                Some(j) => Err(
                                    error::spec_policy_error(
                                        "SDIF_POLICY_STRING_LENGTH"@,
                                        length_msg(
                                            "Table cell"@,
                                            text::utf8_len(values[j]),
                                            pol.max_string_length as nat,
                                        ),
                                    ),
                                ),
                                None => if nrows + 1 > pol.max_table_row_count {
                                    Err(
                                        error::spec_policy_error(
                                            "SDIF_POLICY_TABLE_ROW_COUNT"@,
                                            "Table row count "@ + text::decimal((nrows + 1) as nat)
                                                + " exceeds maximum limit of "@ + text::decimal(
                                                pol.max_table_row_count as nat,
                                            ),
                                        ),
                                    )
                                } else {
                                    Ok(RowStep::Row((values, updated_flags(flags, cells))))
                                },
                            }
                        }
                    }
                },
            },
        }
    }
}

/// Flags with every column whose cell is quoted set.
pub open spec fn updated_flags(flags: Seq<bool>, cells: Seq<Seq<char>>) -> Seq<bool> {
    Seq::new(flags.len(), |j: int| flags[j] || scan::spec_is_quoted(cells[j]))
}

/// Table rows from line `i` on, with the rows and quoted-column flags
/// gathered so far; yields the rows, the flags and the line after the table.
pub open spec fn table_rows(
    lines: Seq<Seq<char>>,
    pol: Limits,
    ncols: int,
    indent: int,
    i: int,
    rows: Seq<Seq<Seq<char>>>,
    flags: Seq<bool>,
) -> Result<(Seq<Seq<Seq<char>>>, Seq<bool>, int), SpecParseError>
    decreases lines.len() - i,
{
    if i < 0 || i >= lines.len() {
        Ok((rows, flags, i))
    } else {
        match table_row(lines, pol, ncols, indent, i, rows.len() as int, flags) {
            Err(e) => Err(e),
            Ok(RowStep::Blank) => table_rows(lines, pol, ncols, indent, i + 1, rows, flags),
            Ok(RowStep::End) => Ok((rows, flags, i)),
            Ok(RowStep::Row((values, flags2))) => table_rows(
                lines,
                pol,
                ncols,
                indent,
                i + 1,
                rows.push(values),
                flags2,
            ),
        }
    }
}

/// No column marked quoted yet.
pub open spec fn no_flags(n: nat) -> Seq<bool> {
    Seq::new(n, |j: int| false)
}

/// A table `name[cols]:` whose header is line `st.index`.
pub open spec fn spec_table(
    lines: Seq<Seq<char>>,
    pol: Limits,
    name: Seq<char>,
    cols_raw: Seq<char>,
    indent: int,
    line_no: u32,
    st: PState,
) -> Result<(SpecTable, PState), SpecParseError> {
    let columns = columns_of(text::split_on(cols_raw, ','));
    if columns.len() == 0 {
        Err(
            error::spec_error(
                "SDIF_TABLE_HEADER"@,
                "table must declare columns"@,
                scan::sline(line_no, indent + 1, indent + 1),
            ),
        )
    } else {
        match table_rows(lines, pol, columns.len() as int, indent, st.index + 1, Seq::empty(), no_flags(columns.len())) {
            Err(e) => Err(e),
            Ok((rows, flags, end)) => Ok(
                (
                    SpecTable { name, columns, rows, quoted_columns: flag_indices(flags) },
                    at(st, end),
                ),
            ),
        }
    }
}

// ---------------------------------------------------------------------------
// Relations, rules and narratives
// ---------------------------------------------------------------------------

/// One line `i` inside a `rel:` block (three parts per row) or a
/// `rel[subject]:` block (two parts per row, `subject` given).
pub open spec fn relation_row(
    lines: Seq<Seq<char>>,
    pol: Limits,
    subject: Option<Seq<char>>,
    indent: int,
    i: int,
) -> Result<RowStep<SpecRelation>, SpecParseError> {
    let raw = lines[i];
    let row_no = line_of(i);
    let child = indent + 2;
    if blank(raw) {
        Ok(RowStep::Blank)
    } else {
        match scan::spec_compute_indent(raw, row_no) {
            Err(e) => Err(e),
            Ok(actual) => if actual < child {
                Ok(RowStep::End)
            } else if actual != child {
                Err(
                    error::spec_error(
                        "SDIF_INDENT"@,
                        "invalid relation row indentation"@,
                        scan::sline(row_no, actual + 1, actual + 1),
                    ),
                )
            } else {
                match scan::spec_split_quoted(
                    scan::spec_strip_comment(raw.skip(child)),
                    row_no,
                    "SDIF_REL_QUOTE"@,
                ) {
                    Err(e) => Err(e),
                    Ok(parts) => {
                        let n: int = if subject is Some { 2 } else { 3 };
                        if parts.len() != n {
                            Err(
                                error::spec_error(
                                    "SDIF_REL_ARITY"@,
                                    if subject is Some {
                                        "subject-grouped relation row must have exactly two parts"@
                                    } else {
                                        "relation row must have exactly three parts"@
                                    },
                                    scan::sline(row_no, child + 1, child + 1),
                                ),
                            )
                        } else {
                            let obj_raw = parts[n - 1];
                            let object = scan::spec_unquote(obj_raw);
                            match check_len(pol, object, "Relation object"@) {
                                Err(e) => Err(e),
                                Ok(_) => Ok(
                                    RowStep::Row(
                                        SpecRelation {
                                            subject: match subject {
                                                Some(s) => s,
                                                None => parts[0],
                                            },
                                            predicate: parts[n - 2],
                                            object,
                                            object_quoted: scan::spec_is_quoted(obj_raw),
                                        },
                                    ),
                                ),
                            }
                        }
                    },
                }
            },
        }
    }
}

/// The relations of a block from line `i` on, and the line after it.
pub open spec fn relation_rows(
    lines: Seq<Seq<char>>,
    pol: Limits,
    subject: Option<Seq<char>>,
    indent: int,
    i: int,
    acc: Seq<SpecRelation>,
) -> Result<(Seq<SpecRelation>, int), SpecParseError>
    decreases lines.len() - i,
{
    if i < 0 || i >= lines.len() {
        Ok((acc, i))
    } else {
        match relation_row(lines, pol, subject, indent, i) {
            Err(e) => Err(e),
            Ok(RowStep::Blank) => relation_rows(lines, pol, subject, indent, i + 1, acc),
            Ok(RowStep::End) => Ok((acc, i)),
            Ok(RowStep::Row(r)) => relation_rows(lines, pol, subject, indent, i + 1, acc.push(r)),
        }
    }
}

/// One line `i` inside a `rules:` block.
pub open spec fn rule_row(lines: Seq<Seq<char>>, indent: int, i: int) -> Result<
    RowStep<SpecRule>,
    SpecParseError,
> {
    let raw = lines[i];
    let row_no = line_of(i);
    let child = indent + 2;
    if blank(raw) {
        Ok(RowStep::Blank)
    } else {
        match scan::spec_compute_indent(raw, row_no) {
            Err(e) => Err(e),
            Ok(actual) => if actual < child {
                Ok(RowStep::End)
            } else if actual != child {
                Err(
                    error::spec_error(
                        "SDIF_INDENT"@,
                        "invalid rule row indentation"@,
                        scan::sline(row_no, actual + 1, actual + 1),
                    ),
                )
            } else {
                let source = text::trim(scan::spec_strip_comment(raw.skip(child)));
                match rule::spec_rule_expr(source, row_no) {
                    Err(e) => Err(e),
                    Ok(expr) => Ok(RowStep::Row(SpecRule { source, expression: Some(expr) })),
                }
            },
        }
    }
}

/// The rules of a `rules:` block from line `i` on, and the line after it.
pub open spec fn rule_rows(lines: Seq<Seq<char>>, indent: int, i: int, acc: Seq<SpecRule>) -> Result<
    (Seq<SpecRule>, int),
    SpecParseError,
>
    decreases lines.len() - i,
{
    if i < 0 || i >= lines.len() {
        Ok((acc, i))
    } else {
        match rule_row(lines, indent, i) {
            Err(e) => Err(e),
            Ok(RowStep::Blank) => rule_rows(lines, indent, i + 1, acc),
            Ok(RowStep::End) => Ok((acc, i)),
            Ok(RowStep::Row(r)) => rule_rows(lines, indent, i + 1, acc.push(r)),
        }
    }
}

/// Relations as statements.
pub open spec fn relation_stmts(rels: Seq<SpecRelation>) -> Seq<SpecStatement> {
    rels.map_values(|r: SpecRelation| SpecStatement::Relation(r))
}

/// Rules as statements.
pub open spec fn rule_stmts(rules: Seq<SpecRule>) -> Seq<SpecStatement> {
    rules.map_values(|r: SpecRule| SpecStatement::Rule(r))
}

pub open spec fn spaces(n: int) -> Seq<char> {
    Seq::new(n as nat, |i: int| ' ')
}

pub open spec fn triple_quote() -> Seq<char> {
    seq!['"', '"', '"']
}

/// Narrative body lines from line `i` on, up to the closing `"""`.
pub open spec fn narrative_lines(
    lines: Seq<Seq<char>>,
    pol: Limits,
    key: Seq<char>,
    indent: int,
    line_no: u32,
    i: int,
    content: Seq<Seq<char>>,
) -> Result<(SpecNarrative, int), SpecParseError>
    decreases lines.len() - i,
{
    if i < 0 || i >= lines.len() {
        Err(
            error::spec_with_hint(
                error::spec_error(
                    "SDIF_NARRATIVE_UNCLOSED"@,
                    "unterminated narrative block"@,
                    scan::sline(line_no, indent + 1, indent + 1),
                ),
                "make sure to close the narrative block with triple quotes aligned to the opening indentation"@,
            ),
        )
    } else {
        let raw = lines[i];
        let prefix = spaces(indent);
        if text::trim(raw) == triple_quote() {
            if raw != prefix + triple_quote() {
                let col = text::utf8_len(raw.take(text::ws_run(raw, 0))) + 1int;
                Err(
                    error::spec_with_hint(
                        error::spec_error(
                            "SDIF_NARRATIVE_CLOSE_ALIGN"@,
                            "unterminated narrative block or mismatched alignment at close"@,
                            scan::sline(line_of(i), col, col),
                        ),
                        "closing triple quotes must match the indentation of the opening block"@,
                    ),
                )
            } else {
                let body = text::join(content, seq!['\n']);
                match check_len(pol, body, "Narrative content"@) {
                    Err(e) => Err(e),
                    Ok(_) => Ok((SpecNarrative { key, text: body }, i + 1)),
                }
            }
        } else {
            let line_content = if text::starts_with(raw, prefix) {
                raw.skip(indent)
            } else {
                raw
            };
            narrative_lines(lines, pol, key, indent, line_no, i + 1, content.push(line_content))
        }
    }
}

// ---------------------------------------------------------------------------
// Statements, objects and documents
// ---------------------------------------------------------------------------

/// Line `i` is a statement line indented less than `indent`: a step at it
/// yields nothing and consumes nothing.
pub open spec fn lower_line(lines: Seq<Seq<char>>, i: int, indent: int) -> bool {
    &&& 0 <= i < lines.len()
    &&& !blank(lines[i])
    &&& !is_comment_line(lines[i])
    &&& scan::spec_compute_indent(lines[i], line_of(i)) matches Ok(a)
    &&& a < indent
}

proof fn lemma_ws_run_all(s: Seq<char>, i: int)
    requires
        0 <= i <= s.len(),
        forall|k: int| i <= k < s.len() ==> text::is_ws(#[trigger] s[k]),
    ensures
        text::ws_run(s, i) == s.len(),
    decreases s.len() - i,
{
    if i < s.len() {
        lemma_ws_run_all(s, i + 1);
    }
}

/// A line that is not blank has a character after its leading spaces.
pub proof fn lemma_nonblank_has_body(raw: Seq<char>)
    requires
        !blank(raw),
    ensures
        lexer::space_run(raw, 0) < raw.len(),
{
    lexer::lemma_space_run(raw, 0);
    if lexer::space_run(raw, 0) == raw.len() {
        assert forall|k: int| 0 <= k < raw.len() implies text::is_ws(#[trigger] raw[k]) by {}
        lemma_ws_run_all(raw, 0);
        assert(text::trim_start(raw) =~= Seq::<char>::empty());
        assert(text::trim(raw).len() == 0);
    }
}

/// One parsing step at line `st.index` for a scope indented by `indent`.
pub open spec fn spec_parse_next(lines: Seq<Seq<char>>, pol: Limits, st: PState, indent: int) -> Result<
    (SpecItem, PState),
    SpecParseError,
>
    decreases 3 * (lines.len() - st.index) + 2, 0int,
{
    if st.index < 0 || st.index >= lines.len() || indent < 0 {
        Ok((SpecItem::Nothing, st))
    } else {
        let ln = line_of(st.index);
        let raw = lines[st.index];
        if blank(raw) || is_comment_line(raw) {
            Ok((SpecItem::Nothing, at(st, st.index + 1)))
        } else {
            match scan::spec_compute_indent(raw, ln) {
                Err(e) => Err(e),
                Ok(actual) => if actual < indent {
                    Ok((SpecItem::Nothing, st))
                } else if actual > indent {
                    Err(
                        error::spec_error(
                            "SDIF_INDENT"@,
                            "unexpected indentation"@,
                            scan::sline(ln, actual + 1, actual + 1),
                        ),
                    )
                } else {
                    let body = raw.skip(indent);
                    let stripped = scan::spec_strip_comment(body);
                    if body[0] == '@' {
                        match spec_directive(body, ln, indent, at(st, st.index + 1)) {
                            Err(e) => Err(e),
                            Ok((d, st2)) => Ok((SpecItem::Dir(d), st2)),
                        }
                    } else if scan::spec_alias_header(stripped) is Some {
                        match spec_aliases(
                            scan::spec_alias_header(stripped)->0,
                            ln,
                            at(st, st.index + 1),
                        ) {
                            Err(e) => Err(e),
                            Ok((d, st2)) => Ok((SpecItem::Dir(d), st2)),
                        }
                    } else if scan::spec_narrative_opener(body) is Some {
                        match narrative_lines(
                            lines,
                            pol,
                            scan::spec_narrative_opener(body)->0,
                            indent,
                            ln,
                            st.index + 1,
                            Seq::empty(),
                        ) {
                            Err(e) => Err(e),
                            Ok((n, end)) => Ok((SpecItem::Stmt(SpecStatement::Narrative(n)), at(st, end))),
                        }
                    } else if scan::spec_table_header(stripped) is Some {
                        let (name, cols_raw) = scan::spec_table_header(stripped)->0;
                        if means_rel(st, name) {
                            if !st.is_ai {
                                Err(
                                    error::spec_error(
                                        "SDIF_AI_REL_SUBJECT"@,
                                        "rel[subject]: syntax is only valid in .sdif.ai documents"@,
                                        scan::sline(ln, indent + 1, indent + 1 + text::utf8_len(body)),
                                    ),
                                )
                            } else {
                                match relation_rows(lines, pol, Some(cols_raw), indent, st.index + 1, Seq::empty()) {
                                    Err(e) => Err(e),
                                    Ok((rels, end)) => Ok(
                                        (
                                            SpecItem::Stmts(relation_stmts(rels)),
                                            at(st, end),
                                        ),
                                    ),
                                }
                            }
                        } else {
                            match spec_table(lines, pol, name, cols_raw, indent, ln, st) {
                                Err(e) => Err(e),
                                Ok((t, st2)) => Ok((SpecItem::Stmt(SpecStatement::Table(t)), st2)),
                            }
                        }
                    } else if scan::spec_block_key(stripped) is Some {
                        let key = scan::spec_block_key(stripped)->0;
                        if means_rel(st, key) {
                            match relation_rows(lines, pol, None, indent, st.index + 1, Seq::empty()) {
                                Err(e) => Err(e),
                                Ok((rels, end)) => Ok(
                                    (
                                        SpecItem::Stmts(relation_stmts(rels)),
                                        at(st, end),
                                    ),
                                ),
                            }
                        } else if key == "rules"@ {
                            match rule_rows(lines, indent, st.index + 1, Seq::empty()) {
                                Err(e) => Err(e),
                                Ok((rules, end)) => Ok(
                                    (
                                        SpecItem::Stmts(rule_stmts(rules)),
                                        at(st, end),
                                    ),
                                ),
                            }
                        } else {
                            match spec_object(lines, pol, key, indent, ln, st) {
                                Err(e) => Err(e),
                                Ok((o, st2)) => Ok((SpecItem::Stmt(SpecStatement::ObjectBlock(o)), st2)),
                            }
                        }
                    } else {
                        match spec_field(body, ln, indent, pol) {
                            Err(e) => Err(e),
                            Ok(f) => Ok((SpecItem::Stmt(SpecStatement::Field(f)), at(st, st.index + 1))),
                        }
                    }
                },
            }
        }
    }
}

/// An object block `key:` whose opener is line `st.index`.
pub open spec fn spec_object(
    lines: Seq<Seq<char>>,
    pol: Limits,
    key: Seq<char>,
    indent: int,
    line_no: u32,
    st: PState,
) -> Result<(SpecObjectBlock, PState), SpecParseError>
    decreases 3 * (lines.len() - st.index) + 1, 0int,
{
    let depth = st.depth + 1;
    if depth > pol.max_nesting_depth {
        Err(
            error::spec_policy_error(
                "SDIF_POLICY_NESTING_DEPTH"@,
                "Nesting depth "@ + text::decimal(depth as nat) + " exceeds maximum limit of "@
                    + text::decimal(pol.max_nesting_depth as nat),
            ),
        )
    } else if st.index < 0 || st.index >= lines.len() {
        Ok((SpecObjectBlock { key, statements: Seq::empty() }, st))
    } else {
        match object_loop(
            lines,
            pol,
            indent,
            line_no,
            PState { index: st.index + 1, depth, ..st },
            Seq::empty(),
        ) {
            Err(e) => Err(e),
            Ok((stmts, st2)) => Ok(
                (SpecObjectBlock { key, statements: stmts }, PState { depth: st.depth, ..st2 }),
            ),
        }
    }
}

/// The statements of an object block indented by `indent`, from line
/// `st.index` on.
pub open spec fn object_loop(
    lines: Seq<Seq<char>>,
    pol: Limits,
    indent: int,
    line_no: u32,
    st: PState,
    acc: Seq<SpecStatement>,
) -> Result<(Seq<SpecStatement>, PState), SpecParseError>
    decreases 3 * (lines.len() - st.index) + 3, 0int,
{
    if st.index < 0 || st.index >= lines.len() {
        Ok((acc, st))
    } else {
        let raw = lines[st.index];
        if blank(raw) {
            object_loop(lines, pol, indent, line_no, at(st, st.index + 1), acc)
        } else {
            match scan::spec_compute_indent(raw, line_of(st.index)) {
                Err(e) => Err(e),
                Ok(actual) => if actual < indent + 2 {
                    Ok((acc, st))
                } else {
                    match spec_parse_next(lines, pol, st, indent + 2) {
                        Err(e) => Err(e),
                        Ok((item, st2)) => if !(st.index < st2.index <= lines.len()) {
                            Ok((acc, st))
                        } else {
                            match item {
                                SpecItem::Nothing => object_loop(lines, pol, indent, line_no, st2, acc),
                                SpecItem::Dir(_) => Err(
                                    error::spec_error(
                                        "SDIF_OBJECT_DIRECTIVE"@,
                                        "directive not allowed inside object"@,
                                        scan::sline(line_no, indent + 1, indent + 1),
                                    ),
                                ),
                                SpecItem::Stmt(s) => object_loop(lines, pol, indent, line_no, st2, acc.push(s)),
                                SpecItem::Stmts(ss) => object_loop(lines, pol, indent, line_no, st2, acc + ss),
                            }
                        },
                    }
                },
            }
        }
    }
}

/// The top-level items of a document from line `st.index` on.
pub open spec fn document_loop(
    lines: Seq<Seq<char>>,
    pol: Limits,
    st: PState,
    dirs: Seq<SpecDirective>,
    stmts: Seq<SpecStatement>,
) -> Result<(Seq<SpecDirective>, Seq<SpecStatement>, PState), SpecParseError>
    decreases lines.len() - st.index,
{
    if st.index < 0 || st.index >= lines.len() {
        Ok((dirs, stmts, st))
    } else {
        match spec_parse_next(lines, pol, st, 0) {
            Err(e) => Err(e),
            Ok((item, st2)) => if !(st.index < st2.index <= lines.len()) {
                Ok((dirs, stmts, st))
            } else {
                match item {
                    SpecItem::Nothing => document_loop(lines, pol, st2, dirs, stmts),
                    SpecItem::Dir(d) => document_loop(lines, pol, st2, dirs.push(d), stmts),
                    SpecItem::Stmt(s) => document_loop(lines, pol, st2, dirs, stmts.push(s)),
                    SpecItem::Stmts(ss) => document_loop(lines, pol, st2, dirs, stmts + ss),
                }
            },
        }
    }
}

/// The lines a document is parsed from: the normalised lines, without the
/// empty piece a final newline leaves.
pub open spec fn doc_lines(text: Seq<char>) -> Seq<Seq<char>> {
    let l = lines::raw_lines(text);
    if l.len() > 0 && l.last().len() == 0 {
        l.drop_last()
    } else {
        l
    }
}

pub open spec fn initial_state() -> PState {
    PState { index: 0, is_ai: false, has_format: false, aliases: Seq::empty(), depth: 0 }
}

/// The document `text` denotes under `pol`, or the first error met.
pub open spec fn spec_parse(text: Seq<char>, pol: Limits) -> Result<SpecDocument, SpecParseError> {
    if text::utf8_len(text) > pol.max_document_size {
        Err(
            error::spec_policy_error(
                "SDIF_POLICY_DOCUMENT_SIZE"@,
                "Document size exceeds maximum limit of "@ + text::decimal(
                    pol.max_document_size as nat,
                ) + " bytes"@,
            ),
        )
    } else {
        document_result(doc_lines(text), pol)
    }
}

/// The document the given lines form, or the first error met.
pub open spec fn document_result(lines: Seq<Seq<char>>, pol: Limits) -> Result<SpecDocument, SpecParseError> {
    match document_loop(lines, pol, initial_state(), Seq::empty(), Seq::empty()) {
        Err(e) => Err(e),
        Ok((dirs, stmts, st)) => if !st.has_format {
            Err(
                error::spec_error(
                    "SDIF_VERSION_MISSING"@,
                    "document must declare @sdif 1.0 or @sdif.ai 1.0"@,
                    scan::sline(1, 1, 1),
                ),
            )
        } else {
            Ok(SpecDocument { directives: dirs, statements: stmts })
        },
    }
}


// ---------------------------------------------------------------------------
// Laws
// ---------------------------------------------------------------------------

/// A format version directive: `@sdif` or `@sdif.ai`.
pub open spec fn is_version(d: SpecDirective) -> bool {
    d.name == "sdif"@ || d.name == "sdif.ai"@
}

/// The number of format version directives.
pub open spec fn version_count(dirs: Seq<SpecDirective>) -> nat
    decreases dirs.len(),
{
    if dirs.len() == 0 {
        0
    } else {
        version_count(dirs.drop_last()) + if is_version(dirs.last()) {
            1nat
        } else {
            0nat
        }
    }
}

/// What a step does to the format flag: a version directive sets it (and
/// is only met when it was clear); any other outcome keeps it.
pub open spec fn format_step(st: PState, item: SpecItem, st2: PState) -> bool {
    match item {
        SpecItem::Dir(d) => if is_version(d) {
            !st.has_format && st2.has_format
        } else {
            st2.has_format == st.has_format
        },
        _ => st2.has_format == st.has_format,
    }
}

proof fn lemma_next_format(lines: Seq<Seq<char>>, pol: Limits, st: PState, indent: int)
    ensures
        spec_parse_next(lines, pol, st, indent) matches Ok((item, st2)) ==> format_step(st, item, st2),
    decreases 3 * (lines.len() - st.index) + 2, 0int,
{
    reveal_strlit("alias");
    reveal_strlit("sdif");
    reveal_strlit("sdif.ai");
    if st.index < 0 || st.index >= lines.len() || indent < 0 {
    } else {
        let ln = line_of(st.index);
        let raw = lines[st.index];
        if blank(raw) || is_comment_line(raw) {
        } else {
            match scan::spec_compute_indent(raw, ln) {
                Err(_) => {},
                Ok(actual) => if actual == indent {
                    let body = raw.skip(indent);
                    let stripped = scan::spec_strip_comment(body);
                    if body[0] == '@' {
                        lemma_directive_format(body, ln, indent, at(st, st.index + 1));
                    } else if scan::spec_alias_header(stripped) is Some {
                        let entries = scan::spec_alias_header(stripped)->0;
                        assert("alias"@.len() != "sdif"@.len() && "alias"@.len() != "sdif.ai"@.len());
                        assert(!is_version(SpecDirective { name: "alias"@, args: entries }));
                    } else if scan::spec_narrative_opener(body) is Some {
                    } else if scan::spec_table_header(stripped) is Some {
                    } else if scan::spec_block_key(stripped) is Some {
                        let key = scan::spec_block_key(stripped)->0;
                        if !means_rel(st, key) && key != "rules"@ {
                            lemma_object_format(lines, pol, key, indent, ln, st);
                        }
                    }
                },
            }
        }
    }
}

proof fn lemma_directive_format(body: Seq<char>, line_no: u32, indent: int, st: PState)
    ensures
        spec_directive(body, line_no, indent, st) matches Ok((d, st2)) ==> format_step(st, SpecItem::Dir(d), st2),
{
    reveal_strlit("sdif");
    reveal_strlit("sdif.ai");
}

proof fn lemma_object_format(lines: Seq<Seq<char>>, pol: Limits, key: Seq<char>, indent: int, line_no: u32, st: PState)
    ensures
        spec_object(lines, pol, key, indent, line_no, st) matches Ok((o, st2)) ==> st2.has_format == st.has_format,
    decreases 3 * (lines.len() - st.index) + 1, 0int,
{
    let depth = st.depth + 1;
    if depth > pol.max_nesting_depth {
    } else if st.index < 0 || st.index >= lines.len() {
    } else {
        lemma_loop_format(lines, pol, indent, line_no, PState { index: st.index + 1, depth, ..st }, Seq::empty());
    }
}

proof fn lemma_loop_format(
    lines: Seq<Seq<char>>,
    pol: Limits,
    indent: int,
    line_no: u32,
    st: PState,
    acc: Seq<SpecStatement>,
)
    ensures
        object_loop(lines, pol, indent, line_no, st, acc) matches Ok((a, st2)) ==> st2.has_format == st.has_format,
    decreases 3 * (lines.len() - st.index) + 3, 0int,
{
    if st.index < 0 || st.index >= lines.len() {
    } else {
        let raw = lines[st.index];
        if blank(raw) {
            lemma_loop_format(lines, pol, indent, line_no, at(st, st.index + 1), acc);
        } else {
            match scan::spec_compute_indent(raw, line_of(st.index)) {
                Err(_) => {},
                Ok(actual) => if actual >= indent + 2 {
                    lemma_next_format(lines, pol, st, indent + 2);
                    match spec_parse_next(lines, pol, st, indent + 2) {
                        Err(_) => {},
                        Ok((item, st2)) => if st.index < st2.index <= lines.len() {
                            match item {
                                SpecItem::Nothing => lemma_loop_format(lines, pol, indent, line_no, st2, acc),
                                SpecItem::Dir(_) => {},
                                SpecItem::Stmt(s) => lemma_loop_format(lines, pol, indent, line_no, st2, acc.push(s)),
                                SpecItem::Stmts(ss) => lemma_loop_format(lines, pol, indent, line_no, st2, acc + ss),
                            }
                        },
                    }
                },
            }
        }
    }
}

proof fn lemma_document_format(
    lines: Seq<Seq<char>>,
    pol: Limits,
    st: PState,
    dirs: Seq<SpecDirective>,
    stmts: Seq<SpecStatement>,
)
    requires
        version_count(dirs) == (if st.has_format { 1nat } else { 0nat }),
    ensures
        document_loop(lines, pol, st, dirs, stmts) matches Ok((d2, s2, st2)) ==> version_count(d2) == (if st2.has_format {
            1nat
        } else {
            0nat
        }),
    decreases lines.len() - st.index,
{
    if st.index < 0 || st.index >= lines.len() {
    } else {
        lemma_next_format(lines, pol, st, 0);
        match spec_parse_next(lines, pol, st, 0) {
            Err(_) => {},
            Ok((item, st2)) => if st.index < st2.index <= lines.len() {
                match item {
                    SpecItem::Nothing => lemma_document_format(lines, pol, st2, dirs, stmts),
                    SpecItem::Dir(d) => {
                        assert(dirs.push(d).drop_last() == dirs);
                        lemma_document_format(lines, pol, st2, dirs.push(d), stmts);
                    },
                    SpecItem::Stmt(s) => lemma_document_format(lines, pol, st2, dirs, stmts.push(s)),
                    SpecItem::Stmts(ss) => lemma_document_format(lines, pol, st2, dirs, stmts + ss),
                }
            },
        }
    }
}

/// Every parsed document declares its format exactly once: exactly one of
/// its directives is `@sdif` or `@sdif.ai`.
pub proof fn law_one_format_directive(text: Seq<char>, pol: Limits)
    ensures
        spec_parse(text, pol) matches Ok(doc) ==> version_count(doc.directives) == 1,
{
    if text::utf8_len(text) <= pol.max_document_size {
        lemma_document_format(doc_lines(text), pol, initial_state(), Seq::empty(), Seq::empty());
    }
}


/// A statement holds no table of more than `max` rows, at any depth.
pub open spec fn rows_within(s: SpecStatement, max: int) -> bool
    decreases s, 0int,
{
    match s {
        SpecStatement::Table(t) => t.rows.len() <= max,
        SpecStatement::ObjectBlock(o) => rows_within_from(o.statements, max, 0),
        _ => true,
    }
}

/// The statements of `stmts` from index `k` on hold no table of more than
/// `max` rows.
pub open spec fn rows_within_from(stmts: Seq<SpecStatement>, max: int, k: int) -> bool
    decreases stmts, stmts.len() - k,
{
    if k < 0 || k >= stmts.len() {
        true
    } else {
        rows_within(stmts[k], max) && rows_within_from(stmts, max, k + 1)
    }
}

/// Every statement of `stmts` holds no table of more than `max` rows.
pub open spec fn all_rows_within(stmts: Seq<SpecStatement>, max: int) -> bool {
    forall|i: int| 0 <= i < stmts.len() ==> #[trigger] rows_within(stmts[i], max)
}

proof fn lemma_rows_within_from(stmts: Seq<SpecStatement>, max: int, k: int)
    requires
        0 <= k <= stmts.len(),
    ensures
        rows_within_from(stmts, max, k) <==> (forall|i: int|
            k <= i < stmts.len() ==> #[trigger] rows_within(stmts[i], max)),
    decreases stmts.len() - k,
{
    if k < stmts.len() {
        lemma_rows_within_from(stmts, max, k + 1);
        assert(rows_within_from(stmts, max, k) == (rows_within(stmts[k], max) && rows_within_from(
            stmts,
            max,
            k + 1,
        )));
        if forall|i: int| k <= i < stmts.len() ==> #[trigger] rows_within(stmts[i], max) {
            assert(rows_within(stmts[k], max));
        }
        if rows_within_from(stmts, max, k) {
            assert forall|i: int| k <= i < stmts.len() implies #[trigger] rows_within(stmts[i], max) by {
                if i > k {
                    assert(k + 1 <= i);
                }
            }
        }
    }
}

/// What a step yields holds no table of more than `max` rows.
pub open spec fn item_rows_within(item: SpecItem, max: int) -> bool {
    match item {
        SpecItem::Stmt(s) => rows_within(s, max),
        SpecItem::Stmts(ss) => all_rows_within(ss, max),
        _ => true,
    }
}

proof fn lemma_table_rows_bound(
    lines: Seq<Seq<char>>,
    pol: Limits,
    ncols: int,
    indent: int,
    i: int,
    rows: Seq<Seq<Seq<char>>>,
    flags: Seq<bool>,
)
    requires
        rows.len() <= pol.max_table_row_count,
    ensures
        table_rows(lines, pol, ncols, indent, i, rows, flags) matches Ok((r, f, e)) ==> r.len()
            <= pol.max_table_row_count,
    decreases lines.len() - i,
{
    if i < 0 || i >= lines.len() {
    } else {
        match table_row(lines, pol, ncols, indent, i, rows.len() as int, flags) {
            Err(_) => {},
            Ok(RowStep::Blank) => lemma_table_rows_bound(lines, pol, ncols, indent, i + 1, rows, flags),
            Ok(RowStep::End) => {},
            Ok(RowStep::Row((values, flags2))) => {
                assert(rows.len() + 1 <= pol.max_table_row_count);
                lemma_table_rows_bound(lines, pol, ncols, indent, i + 1, rows.push(values), flags2);
            },
        }
    }
}

proof fn lemma_next_rows(lines: Seq<Seq<char>>, pol: Limits, st: PState, indent: int)
    ensures
        spec_parse_next(lines, pol, st, indent) matches Ok((item, st2)) ==> item_rows_within(
            item,
            pol.max_table_row_count as int,
        ),
    decreases 3 * (lines.len() - st.index) + 2, 0int,
{
    let max = pol.max_table_row_count as int;
    if st.index < 0 || st.index >= lines.len() || indent < 0 {
    } else {
        let ln = line_of(st.index);
        let raw = lines[st.index];
        if blank(raw) || is_comment_line(raw) {
        } else {
            match scan::spec_compute_indent(raw, ln) {
                Err(_) => {},
                Ok(actual) => if actual == indent {
                    let body = raw.skip(indent);
                    let stripped = scan::spec_strip_comment(body);
                    if body[0] == '@' {
                    } else if scan::spec_alias_header(stripped) is Some {
                    } else if scan::spec_narrative_opener(body) is Some {
                    } else if scan::spec_table_header(stripped) is Some {
                        let (name, cols_raw) = scan::spec_table_header(stripped)->0;
                        if means_rel(st, name) {
                            match relation_rows(lines, pol, Some(cols_raw), indent, st.index + 1, Seq::empty()) {
                                Err(_) => {},
                                Ok((rels, end)) => {
                                    assert forall|i: int| 0 <= i < relation_stmts(rels).len() implies #[trigger] rows_within(
                                        relation_stmts(rels)[i],
                                        max,
                                    ) by {
                                        assert(relation_stmts(rels)[i] == SpecStatement::Relation(rels[i]));
                                    }
                                },
                            }
                        } else {
                            let columns = columns_of(text::split_on(cols_raw, ','));
                            lemma_table_rows_bound(
                                lines,
                                pol,
                                columns.len() as int,
                                indent,
                                st.index + 1,
                                Seq::empty(),
                                no_flags(columns.len()),
                            );
                        }
                    } else if scan::spec_block_key(stripped) is Some {
                        let key = scan::spec_block_key(stripped)->0;
                        if means_rel(st, key) {
                            match relation_rows(lines, pol, None, indent, st.index + 1, Seq::empty()) {
                                Err(_) => {},
                                Ok((rels, end)) => {
                                    assert forall|i: int| 0 <= i < relation_stmts(rels).len() implies #[trigger] rows_within(
                                        relation_stmts(rels)[i],
                                        max,
                                    ) by {
                                        assert(relation_stmts(rels)[i] == SpecStatement::Relation(rels[i]));
                                    }
                                },
                            }
                        } else if key == "rules"@ {
                            match rule_rows(lines, indent, st.index + 1, Seq::empty()) {
                                Err(_) => {},
                                Ok((rules, end)) => {
                                    assert forall|i: int| 0 <= i < rule_stmts(rules).len() implies #[trigger] rows_within(
                                        rule_stmts(rules)[i],
                                        max,
                                    ) by {
                                        assert(rule_stmts(rules)[i] == SpecStatement::Rule(rules[i]));
                                    }
                                },
                            }
                        } else {
                            lemma_object_rows(lines, pol, key, indent, ln, st);
                        }
                    }
                },
            }
        }
    }
}

proof fn lemma_object_rows(lines: Seq<Seq<char>>, pol: Limits, key: Seq<char>, indent: int, line_no: u32, st: PState)
    ensures
        spec_object(lines, pol, key, indent, line_no, st) matches Ok((o, st2)) ==> rows_within(
            SpecStatement::ObjectBlock(o),
            pol.max_table_row_count as int,
        ),
    decreases 3 * (lines.len() - st.index) + 1, 0int,
{
    let depth = st.depth + 1;
    if depth > pol.max_nesting_depth {
    } else if st.index < 0 || st.index >= lines.len() {
    } else {
        let st1 = PState { index: st.index + 1, depth, ..st };
        lemma_loop_rows(lines, pol, indent, line_no, st1, Seq::empty());
        match object_loop(lines, pol, indent, line_no, st1, Seq::empty()) {
            Err(_) => {},
            Ok((stmts, st2)) => {
                let o = SpecObjectBlock { key, statements: stmts };
                assert(all_rows_within(stmts, pol.max_table_row_count as int));
                assert(o.statements == stmts);
                lemma_rows_within_from(stmts, pol.max_table_row_count as int, 0);
            },
        }
    }
}

proof fn lemma_loop_rows(
    lines: Seq<Seq<char>>,
    pol: Limits,
    indent: int,
    line_no: u32,
    st: PState,
    acc: Seq<SpecStatement>,
)
    requires
        all_rows_within(acc, pol.max_table_row_count as int),
    ensures
        object_loop(lines, pol, indent, line_no, st, acc) matches Ok((a, st2)) ==> all_rows_within(
            a,
            pol.max_table_row_count as int,
        ),
    decreases 3 * (lines.len() - st.index) + 3, 0int,
{
    let max = pol.max_table_row_count as int;
    if st.index < 0 || st.index >= lines.len() {
    } else {
        let raw = lines[st.index];
        if blank(raw) {
            lemma_loop_rows(lines, pol, indent, line_no, at(st, st.index + 1), acc);
        } else {
            match scan::spec_compute_indent(raw, line_of(st.index)) {
                Err(_) => {},
                Ok(actual) => if actual >= indent + 2 {
                    lemma_next_rows(lines, pol, st, indent + 2);
                    match spec_parse_next(lines, pol, st, indent + 2) {
                        Err(_) => {},
                        Ok((item, st2)) => if st.index < st2.index <= lines.len() {
                            match item {
                                SpecItem::Nothing => lemma_loop_rows(lines, pol, indent, line_no, st2, acc),
                                SpecItem::Dir(_) => {},
                                SpecItem::Stmt(s) => {
                                    assert(all_rows_within(acc.push(s), max)) by {
                                        assert forall|i: int| 0 <= i < acc.push(s).len() implies #[trigger] rows_within(
                                            acc.push(s)[i],
                                            max,
                                        ) by {
                                            if i < acc.len() {
                                                assert(acc.push(s)[i] == acc[i]);
                                            }
                                        }
                                    }
                                    lemma_loop_rows(lines, pol, indent, line_no, st2, acc.push(s));
                                },
                                SpecItem::Stmts(ss) => {
                                    assert(all_rows_within(acc + ss, max)) by {
                                        assert forall|i: int| 0 <= i < (acc + ss).len() implies #[trigger] rows_within(
                                            (acc + ss)[i],
                                            max,
                                        ) by {
                                            if i < acc.len() {
                                                assert((acc + ss)[i] == acc[i]);
                                            } else {
                                                assert((acc + ss)[i] == ss[i - acc.len()]);
                                            }
                                        }
                                    }
                                    lemma_loop_rows(lines, pol, indent, line_no, st2, acc + ss);
                                },
                            }
                        },
                    }
                },
            }
        }
    }
}

proof fn lemma_document_rows(
    lines: Seq<Seq<char>>,
    pol: Limits,
    st: PState,
    dirs: Seq<SpecDirective>,
    stmts: Seq<SpecStatement>,
)
    requires
        all_rows_within(stmts, pol.max_table_row_count as int),
    ensures
        document_loop(lines, pol, st, dirs, stmts) matches Ok((d2, s2, st2)) ==> all_rows_within(
            s2,
            pol.max_table_row_count as int,
        ),
    decreases lines.len() - st.index,
{
    let max = pol.max_table_row_count as int;
    if st.index < 0 || st.index >= lines.len() {
    } else {
        lemma_next_rows(lines, pol, st, 0);
        match spec_parse_next(lines, pol, st, 0) {
            Err(_) => {},
            Ok((item, st2)) => if st.index < st2.index <= lines.len() {
                match item {
                    SpecItem::Nothing => lemma_document_rows(lines, pol, st2, dirs, stmts),
                    SpecItem::Dir(d) => lemma_document_rows(lines, pol, st2, dirs.push(d), stmts),
                    SpecItem::Stmt(s) => {
                        assert(all_rows_within(stmts.push(s), max)) by {
                            assert forall|i: int| 0 <= i < stmts.push(s).len() implies #[trigger] rows_within(
                                stmts.push(s)[i],
                                max,
                            ) by {
                                if i < stmts.len() {
                                    assert(stmts.push(s)[i] == stmts[i]);
                                }
                            }
                        }
                        lemma_document_rows(lines, pol, st2, dirs, stmts.push(s));
                    },
                    SpecItem::Stmts(ss) => {
                        assert(all_rows_within(stmts + ss, max)) by {
                            assert forall|i: int| 0 <= i < (stmts + ss).len() implies #[trigger] rows_within(
                                (stmts + ss)[i],
                                max,
                            ) by {
                                if i < stmts.len() {
                                    assert((stmts + ss)[i] == stmts[i]);
                                } else {
                                    assert((stmts + ss)[i] == ss[i - stmts.len()]);
                                }
                            }
                        }
                        lemma_document_rows(lines, pol, st2, dirs, stmts + ss);
                    },
                }
            },
        }
    }
}

/// No table of a parsed document, at any depth of object nesting, has more
/// rows than the policy's `max_table_row_count`.
pub proof fn law_table_row_limit(text: Seq<char>, pol: Limits)
    ensures
        spec_parse(text, pol) matches Ok(doc) ==> all_rows_within(
            doc.statements,
            pol.max_table_row_count as int,
        ),
{
    if text::utf8_len(text) <= pol.max_document_size {
        lemma_document_rows(doc_lines(text), pol, initial_state(), Seq::empty(), Seq::empty());
    }
}

/// A statement nests object blocks at most `budget` deep.
pub open spec fn depth_within(s: SpecStatement, budget: int) -> bool
    decreases s, 0int,
{
    match s {
        SpecStatement::ObjectBlock(o) => budget >= 1 && depth_within_from(o.statements, budget - 1, 0),
        _ => true,
    }
}

/// The statements of `stmts` from index `k` on nest object blocks at most
/// `budget` deep.
pub open spec fn depth_within_from(stmts: Seq<SpecStatement>, budget: int, k: int) -> bool
    decreases stmts, stmts.len() - k,
{
    if k < 0 || k >= stmts.len() {
        true
    } else {
        depth_within(stmts[k], budget) && depth_within_from(stmts, budget, k + 1)
    }
}

/// Every statement of `stmts` nests object blocks at most `budget` deep.
pub open spec fn all_depth_within(stmts: Seq<SpecStatement>, budget: int) -> bool {
    forall|i: int| 0 <= i < stmts.len() ==> #[trigger] depth_within(stmts[i], budget)
}

/// What a step yields nests object blocks at most `budget` deep.
pub open spec fn item_depth_within(item: SpecItem, budget: int) -> bool {
    match item {
        SpecItem::Stmt(s) => depth_within(s, budget),
        SpecItem::Stmts(ss) => all_depth_within(ss, budget),
        _ => true,
    }
}

proof fn lemma_depth_within_from(stmts: Seq<SpecStatement>, budget: int, k: int)
    requires
        0 <= k <= stmts.len(),
    ensures
        depth_within_from(stmts, budget, k) <==> (forall|i: int|
            k <= i < stmts.len() ==> #[trigger] depth_within(stmts[i], budget)),
    decreases stmts.len() - k,
{
    if k < stmts.len() {
        lemma_depth_within_from(stmts, budget, k + 1);
        assert(depth_within_from(stmts, budget, k) == (depth_within(stmts[k], budget)
            && depth_within_from(stmts, budget, k + 1)));
        if forall|i: int| k <= i < stmts.len() ==> #[trigger] depth_within(stmts[i], budget) {
            assert(depth_within(stmts[k], budget));
        }
        if depth_within_from(stmts, budget, k) {
            assert forall|i: int| k <= i < stmts.len() implies #[trigger] depth_within(stmts[i], budget) by {
                if i > k {
                    assert(k + 1 <= i);
                }
            }
        }
    }
}

proof fn lemma_all_depth_push(acc: Seq<SpecStatement>, s: SpecStatement, budget: int)
    requires
        all_depth_within(acc, budget),
        depth_within(s, budget),
    ensures
        all_depth_within(acc.push(s), budget),
{
    assert forall|i: int| 0 <= i < acc.push(s).len() implies #[trigger] depth_within(acc.push(s)[i], budget) by {
        if i < acc.len() {
            assert(acc.push(s)[i] == acc[i]);
        }
    }
}

proof fn lemma_all_depth_concat(acc: Seq<SpecStatement>, ss: Seq<SpecStatement>, budget: int)
    requires
        all_depth_within(acc, budget),
        all_depth_within(ss, budget),
    ensures
        all_depth_within(acc + ss, budget),
{
    assert forall|i: int| 0 <= i < (acc + ss).len() implies #[trigger] depth_within((acc + ss)[i], budget) by {
        if i < acc.len() {
            assert((acc + ss)[i] == acc[i]);
        } else {
            assert((acc + ss)[i] == ss[i - acc.len()]);
        }
    }
}

proof fn lemma_next_depth(lines: Seq<Seq<char>>, pol: Limits, st: PState, indent: int)
    requires
        0 <= st.depth <= pol.max_nesting_depth,
    ensures
        spec_parse_next(lines, pol, st, indent) matches Ok((item, st2)) ==> item_depth_within(
            item,
            pol.max_nesting_depth - st.depth,
        ) && st2.depth == st.depth,
    decreases 3 * (lines.len() - st.index) + 2, 0int,
{
    let budget = pol.max_nesting_depth - st.depth;
    if st.index < 0 || st.index >= lines.len() || indent < 0 {
    } else {
        let ln = line_of(st.index);
        let raw = lines[st.index];
        if blank(raw) || is_comment_line(raw) {
        } else {
            match scan::spec_compute_indent(raw, ln) {
                Err(_) => {},
                Ok(actual) => if actual == indent {
                    let body = raw.skip(indent);
                    let stripped = scan::spec_strip_comment(body);
                    if body[0] == '@' {
                    } else if scan::spec_alias_header(stripped) is Some {
                    } else if scan::spec_narrative_opener(body) is Some {
                    } else if scan::spec_table_header(stripped) is Some {
                        let (name, cols_raw) = scan::spec_table_header(stripped)->0;
                        if means_rel(st, name) {
                            match relation_rows(lines, pol, Some(cols_raw), indent, st.index + 1, Seq::empty()) {
                                Err(_) => {},
                                Ok((rels, end)) => {
                                    assert forall|i: int| 0 <= i < relation_stmts(rels).len() implies #[trigger] depth_within(
                                        relation_stmts(rels)[i],
                                        budget,
                                    ) by {
                                        assert(relation_stmts(rels)[i] == SpecStatement::Relation(rels[i]));
                                    }
                                },
                            }
                        }
                    } else if scan::spec_block_key(stripped) is Some {
                        let key = scan::spec_block_key(stripped)->0;
                        if means_rel(st, key) {
                            match relation_rows(lines, pol, None, indent, st.index + 1, Seq::empty()) {
                                Err(_) => {},
                                Ok((rels, end)) => {
                                    assert forall|i: int| 0 <= i < relation_stmts(rels).len() implies #[trigger] depth_within(
                                        relation_stmts(rels)[i],
                                        budget,
                                    ) by {
                                        assert(relation_stmts(rels)[i] == SpecStatement::Relation(rels[i]));
                                    }
                                },
                            }
                        } else if key == "rules"@ {
                            match rule_rows(lines, indent, st.index + 1, Seq::empty()) {
                                Err(_) => {},
                                Ok((rules, end)) => {
                                    assert forall|i: int| 0 <= i < rule_stmts(rules).len() implies #[trigger] depth_within(
                                        rule_stmts(rules)[i],
                                        budget,
                                    ) by {
                                        assert(rule_stmts(rules)[i] == SpecStatement::Rule(rules[i]));
                                    }
                                },
                            }
                        } else {
                            lemma_object_depth(lines, pol, key, indent, ln, st);
                        }
                    }
                },
            }
        }
    }
}

proof fn lemma_object_depth(lines: Seq<Seq<char>>, pol: Limits, key: Seq<char>, indent: int, line_no: u32, st: PState)
    requires
        0 <= st.depth <= pol.max_nesting_depth,
    ensures
        spec_object(lines, pol, key, indent, line_no, st) matches Ok((o, st2)) ==> depth_within(
            SpecStatement::ObjectBlock(o),
            pol.max_nesting_depth - st.depth,
        ) && st2.depth == st.depth,
    decreases 3 * (lines.len() - st.index) + 1, 0int,
{
    let depth = st.depth + 1;
    if depth > pol.max_nesting_depth {
    } else if st.index < 0 || st.index >= lines.len() {
    } else {
        let st1 = PState { index: st.index + 1, depth, ..st };
        lemma_loop_depth(lines, pol, indent, line_no, st1, Seq::empty());
        match object_loop(lines, pol, indent, line_no, st1, Seq::empty()) {
            Err(_) => {},
            Ok((stmts, st2)) => {
                lemma_depth_within_from(stmts, pol.max_nesting_depth - depth, 0);
            },
        }
    }
}

proof fn lemma_loop_depth(
    lines: Seq<Seq<char>>,
    pol: Limits,
    indent: int,
    line_no: u32,
    st: PState,
    acc: Seq<SpecStatement>,
)
    requires
        0 <= st.depth <= pol.max_nesting_depth,
        all_depth_within(acc, pol.max_nesting_depth - st.depth),
    ensures
        object_loop(lines, pol, indent, line_no, st, acc) matches Ok((a, st2)) ==> all_depth_within(
            a,
            pol.max_nesting_depth - st.depth,
        ) && st2.depth == st.depth,
    decreases 3 * (lines.len() - st.index) + 3, 0int,
{
    let budget = pol.max_nesting_depth - st.depth;
    if st.index < 0 || st.index >= lines.len() {
    } else {
        let raw = lines[st.index];
        if blank(raw) {
            lemma_loop_depth(lines, pol, indent, line_no, at(st, st.index + 1), acc);
        } else {
            match scan::spec_compute_indent(raw, line_of(st.index)) {
                Err(_) => {},
                Ok(actual) => if actual >= indent + 2 {
                    lemma_next_depth(lines, pol, st, indent + 2);
                    match spec_parse_next(lines, pol, st, indent + 2) {
                        Err(_) => {},
                        Ok((item, st2)) => if st.index < st2.index <= lines.len() {
                            match item {
                                SpecItem::Nothing => lemma_loop_depth(lines, pol, indent, line_no, st2, acc),
                                SpecItem::Dir(_) => {},
                                SpecItem::Stmt(s) => {
                                    lemma_all_depth_push(acc, s, budget);
                                    lemma_loop_depth(lines, pol, indent, line_no, st2, acc.push(s));
                                },
                                SpecItem::Stmts(ss) => {
                                    lemma_all_depth_concat(acc, ss, budget);
                                    lemma_loop_depth(lines, pol, indent, line_no, st2, acc + ss);
                                },
                            }
                        },
                    }
                },
            }
        }
    }
}

proof fn lemma_document_depth(
    lines: Seq<Seq<char>>,
    pol: Limits,
    st: PState,
    dirs: Seq<SpecDirective>,
    stmts: Seq<SpecStatement>,
)
    requires
        st.depth == 0,
        all_depth_within(stmts, pol.max_nesting_depth as int),
    ensures
        document_loop(lines, pol, st, dirs, stmts) matches Ok((d2, s2, st2)) ==> all_depth_within(
            s2,
            pol.max_nesting_depth as int,
        ),
    decreases lines.len() - st.index,
{
    let budget = pol.max_nesting_depth as int;
    if st.index < 0 || st.index >= lines.len() {
    } else {
        lemma_next_depth(lines, pol, st, 0);
        match spec_parse_next(lines, pol, st, 0) {
            Err(_) => {},
            Ok((item, st2)) => if st.index < st2.index <= lines.len() {
                match item {
                    SpecItem::Nothing => lemma_document_depth(lines, pol, st2, dirs, stmts),
                    SpecItem::Dir(d) => lemma_document_depth(lines, pol, st2, dirs.push(d), stmts),
                    SpecItem::Stmt(s) => {
                        lemma_all_depth_push(stmts, s, budget);
                        lemma_document_depth(lines, pol, st2, dirs, stmts.push(s));
                    },
                    SpecItem::Stmts(ss) => {
                        lemma_all_depth_concat(stmts, ss, budget);
                        lemma_document_depth(lines, pol, st2, dirs, stmts + ss);
                    },
                }
            },
        }
    }
}

/// Object blocks of a parsed document nest at most the policy's
/// `max_nesting_depth` deep (a top-level block is at depth one).
pub proof fn law_nesting_depth_limit(text: Seq<char>, pol: Limits)
    ensures
        spec_parse(text, pol) matches Ok(doc) ==> all_depth_within(
            doc.statements,
            pol.max_nesting_depth as int,
        ),
{
    if text::utf8_len(text) <= pol.max_document_size {
        lemma_document_depth(doc_lines(text), pol, initial_state(), Seq::empty(), Seq::empty());
    }
}

/// A value no longer than `max` bytes in UTF-8.
pub open spec fn value_within(v: Seq<char>, max: int) -> bool {
    text::utf8_len(v) <= max
}

/// Every cell of `rows` is no longer than `max` bytes.
pub open spec fn cells_within(rows: Seq<Seq<Seq<char>>>, max: int) -> bool {
    forall|r: int, c: int|
        0 <= r < rows.len() && 0 <= c < rows[r].len() ==> #[trigger] value_within(rows[r][c], max)
}

/// Every relation object of `rels` is no longer than `max` bytes.
pub open spec fn objects_within(rels: Seq<SpecRelation>, max: int) -> bool {
    forall|i: int| 0 <= i < rels.len() ==> #[trigger] value_within(rels[i].object, max)
}

/// Every value a statement holds (field values, table cells, relation
/// objects, narrative text), at any depth, is no longer than `max` bytes.
pub open spec fn strings_within(s: SpecStatement, max: int) -> bool
    decreases s, 0int,
{
    match s {
        SpecStatement::Field(f) => value_within(f.value, max),
        SpecStatement::Table(t) => cells_within(t.rows, max),
        SpecStatement::Relation(r) => value_within(r.object, max),
        SpecStatement::Narrative(n) => value_within(n.text, max),
        SpecStatement::ObjectBlock(o) => strings_within_from(o.statements, max, 0),
        SpecStatement::Rule(_) => true,
    }
}

/// The statements of `stmts` from index `k` on hold no value longer than
/// `max` bytes.
pub open spec fn strings_within_from(stmts: Seq<SpecStatement>, max: int, k: int) -> bool
    decreases stmts, stmts.len() - k,
{
    if k < 0 || k >= stmts.len() {
        true
    } else {
        strings_within(stmts[k], max) && strings_within_from(stmts, max, k + 1)
    }
}

/// Every statement of `stmts` holds no value longer than `max` bytes.
pub open spec fn all_strings_within(stmts: Seq<SpecStatement>, max: int) -> bool {
    forall|i: int| 0 <= i < stmts.len() ==> #[trigger] strings_within(stmts[i], max)
}

/// What a step yields holds no value longer than `max` bytes.
pub open spec fn item_strings_within(item: SpecItem, max: int) -> bool {
    match item {
        SpecItem::Stmt(s) => strings_within(s, max),
        SpecItem::Stmts(ss) => all_strings_within(ss, max),
        _ => true,
    }
}

proof fn lemma_strings_within_from(stmts: Seq<SpecStatement>, max: int, k: int)
    requires
        0 <= k <= stmts.len(),
    ensures
        strings_within_from(stmts, max, k) <==> (forall|i: int|
            k <= i < stmts.len() ==> #[trigger] strings_within(stmts[i], max)),
    decreases stmts.len() - k,
{
    if k < stmts.len() {
        lemma_strings_within_from(stmts, max, k + 1);
        assert(strings_within_from(stmts, max, k) == (strings_within(stmts[k], max)
            && strings_within_from(stmts, max, k + 1)));
        if forall|i: int| k <= i < stmts.len() ==> #[trigger] strings_within(stmts[i], max) {
            assert(strings_within(stmts[k], max));
        }
        if strings_within_from(stmts, max, k) {
            assert forall|i: int| k <= i < stmts.len() implies #[trigger] strings_within(stmts[i], max) by {
                if i > k {
                    assert(k + 1 <= i);
                }
            }
        }
    }
}

proof fn lemma_all_strings_push(acc: Seq<SpecStatement>, s: SpecStatement, max: int)
    requires
        all_strings_within(acc, max),
        strings_within(s, max),
    ensures
        all_strings_within(acc.push(s), max),
{
    assert forall|i: int| 0 <= i < acc.push(s).len() implies #[trigger] strings_within(acc.push(s)[i], max) by {
        if i < acc.len() {
            assert(acc.push(s)[i] == acc[i]);
        }
    }
}

proof fn lemma_all_strings_concat(acc: Seq<SpecStatement>, ss: Seq<SpecStatement>, max: int)
    requires
        all_strings_within(acc, max),
        all_strings_within(ss, max),
    ensures
        all_strings_within(acc + ss, max),
{
    assert forall|i: int| 0 <= i < (acc + ss).len() implies #[trigger] strings_within((acc + ss)[i], max) by {
        if i < acc.len() {
            assert((acc + ss)[i] == acc[i]);
        } else {
            assert((acc + ss)[i] == ss[i - acc.len()]);
        }
    }
}

proof fn lemma_first_long_none(values: Seq<Seq<char>>, pol: Limits, j: int)
    requires
        0 <= j <= values.len(),
        first_long(values, pol, j) is None,
    ensures
        forall|c: int| j <= c < values.len() ==> #[trigger] value_within(values[c], pol.max_string_length as int),
    decreases values.len() - j,
{
    if j < values.len() {
        lemma_first_long_none(values, pol, j + 1);
    }
}

proof fn lemma_table_rows_strings(
    lines: Seq<Seq<char>>,
    pol: Limits,
    ncols: int,
    indent: int,
    i: int,
    rows: Seq<Seq<Seq<char>>>,
    flags: Seq<bool>,
)
    requires
        cells_within(rows, pol.max_string_length as int),
    ensures
        table_rows(lines, pol, ncols, indent, i, rows, flags) matches Ok((r, f, e)) ==> cells_within(
            r,
            pol.max_string_length as int,
        ),
    decreases lines.len() - i,
{
    let max = pol.max_string_length as int;
    if i < 0 || i >= lines.len() {
    } else {
        match table_row(lines, pol, ncols, indent, i, rows.len() as int, flags) {
            Err(_) => {},
            Ok(RowStep::Blank) => lemma_table_rows_strings(lines, pol, ncols, indent, i + 1, rows, flags),
            Ok(RowStep::End) => {},
            Ok(RowStep::Row((values, flags2))) => {
                assert(first_long(values, pol, 0) is None);
                lemma_first_long_none(values, pol, 0);
                let rows2 = rows.push(values);
                assert forall|r: int, c: int| 0 <= r < rows2.len() && 0 <= c < rows2[r].len() implies #[trigger] value_within(
                    rows2[r][c],
                    max,
                ) by {
                    if r < rows.len() {
                        assert(rows2[r] == rows[r]);
                    } else {
                        assert(rows2[r] == values);
                    }
                }
                lemma_table_rows_strings(lines, pol, ncols, indent, i + 1, rows2, flags2);
            },
        }
    }
}

proof fn lemma_relation_rows_strings(
    lines: Seq<Seq<char>>,
    pol: Limits,
    subject: Option<Seq<char>>,
    indent: int,
    i: int,
    acc: Seq<SpecRelation>,
)
    requires
        objects_within(acc, pol.max_string_length as int),
    ensures
        relation_rows(lines, pol, subject, indent, i, acc) matches Ok((rels, e)) ==> objects_within(
            rels,
            pol.max_string_length as int,
        ),
    decreases lines.len() - i,
{
    let max = pol.max_string_length as int;
    if i < 0 || i >= lines.len() {
    } else {
        match relation_row(lines, pol, subject, indent, i) {
            Err(_) => {},
            Ok(RowStep::Blank) => lemma_relation_rows_strings(lines, pol, subject, indent, i + 1, acc),
            Ok(RowStep::End) => {},
            Ok(RowStep::Row(r)) => {
                assert(value_within(r.object, max));
                assert forall|k: int| 0 <= k < acc.push(r).len() implies #[trigger] value_within(
                    acc.push(r)[k].object,
                    max,
                ) by {
                    if k < acc.len() {
                        assert(acc.push(r)[k] == acc[k]);
                    }
                }
                lemma_relation_rows_strings(lines, pol, subject, indent, i + 1, acc.push(r));
            },
        }
    }
}

proof fn lemma_relation_stmts_strings(rels: Seq<SpecRelation>, max: int)
    requires
        objects_within(rels, max),
    ensures
        all_strings_within(relation_stmts(rels), max),
{
    assert forall|i: int| 0 <= i < relation_stmts(rels).len() implies #[trigger] strings_within(
        relation_stmts(rels)[i],
        max,
    ) by {
        assert(relation_stmts(rels)[i] == SpecStatement::Relation(rels[i]));
        assert(value_within(rels[i].object, max));
    }
}

proof fn lemma_narrative_strings(
    lines: Seq<Seq<char>>,
    pol: Limits,
    key: Seq<char>,
    indent: int,
    line_no: u32,
    i: int,
    content: Seq<Seq<char>>,
)
    ensures
        narrative_lines(lines, pol, key, indent, line_no, i, content) matches Ok((n, e)) ==> value_within(
            n.text,
            pol.max_string_length as int,
        ),
    decreases lines.len() - i,
{
    if i < 0 || i >= lines.len() {
    } else {
        let raw = lines[i];
        let prefix = spaces(indent);
        let line_content = if text::starts_with(raw, prefix) {
            raw.skip(indent)
        } else {
            raw
        };
        lemma_narrative_strings(lines, pol, key, indent, line_no, i + 1, content.push(line_content));
    }
}

proof fn lemma_next_strings(lines: Seq<Seq<char>>, pol: Limits, st: PState, indent: int)
    ensures
        spec_parse_next(lines, pol, st, indent) matches Ok((item, st2)) ==> item_strings_within(
            item,
            pol.max_string_length as int,
        ),
    decreases 3 * (lines.len() - st.index) + 2, 0int,
{
    let max = pol.max_string_length as int;
    if st.index < 0 || st.index >= lines.len() || indent < 0 {
    } else {
        let ln = line_of(st.index);
        let raw = lines[st.index];
        if blank(raw) || is_comment_line(raw) {
        } else {
            match scan::spec_compute_indent(raw, ln) {
                Err(_) => {},
                Ok(actual) => if actual == indent {
                    let body = raw.skip(indent);
                    let stripped = scan::spec_strip_comment(body);
                    if body[0] == '@' {
                    } else if scan::spec_alias_header(stripped) is Some {
                    } else if scan::spec_narrative_opener(body) is Some {
                        lemma_narrative_strings(
                            lines,
                            pol,
                            scan::spec_narrative_opener(body)->0,
                            indent,
                            ln,
                            st.index + 1,
                            Seq::empty(),
                        );
                    } else if scan::spec_table_header(stripped) is Some {
                        let (name, cols_raw) = scan::spec_table_header(stripped)->0;
                        if means_rel(st, name) {
                            lemma_relation_rows_strings(lines, pol, Some(cols_raw), indent, st.index + 1, Seq::empty());
                            match relation_rows(lines, pol, Some(cols_raw), indent, st.index + 1, Seq::empty()) {
                                Err(_) => {},
                                Ok((rels, end)) => lemma_relation_stmts_strings(rels, max),
                            }
                        } else {
                            let columns = columns_of(text::split_on(cols_raw, ','));
                            lemma_table_rows_strings(
                                lines,
                                pol,
                                columns.len() as int,
                                indent,
                                st.index + 1,
                                Seq::empty(),
                                no_flags(columns.len()),
                            );
                        }
                    } else if scan::spec_block_key(stripped) is Some {
                        let key = scan::spec_block_key(stripped)->0;
                        if means_rel(st, key) {
                            lemma_relation_rows_strings(lines, pol, None, indent, st.index + 1, Seq::empty());
                            match relation_rows(lines, pol, None, indent, st.index + 1, Seq::empty()) {
                                Err(_) => {},
                                Ok((rels, end)) => lemma_relation_stmts_strings(rels, max),
                            }
                        } else if key == "rules"@ {
                            match rule_rows(lines, indent, st.index + 1, Seq::empty()) {
                                Err(_) => {},
                                Ok((rules, end)) => {
                                    assert forall|i: int| 0 <= i < rule_stmts(rules).len() implies #[trigger] strings_within(
                                        rule_stmts(rules)[i],
                                        max,
                                    ) by {
                                        assert(rule_stmts(rules)[i] == SpecStatement::Rule(rules[i]));
                                    }
                                },
                            }
                        } else {
                            lemma_object_strings(lines, pol, key, indent, ln, st);
                        }
                    }
                },
            }
        }
    }
}

proof fn lemma_object_strings(lines: Seq<Seq<char>>, pol: Limits, key: Seq<char>, indent: int, line_no: u32, st: PState)
    ensures
        spec_object(lines, pol, key, indent, line_no, st) matches Ok((o, st2)) ==> strings_within(
            SpecStatement::ObjectBlock(o),
            pol.max_string_length as int,
        ),
    decreases 3 * (lines.len() - st.index) + 1, 0int,
{
    let depth = st.depth + 1;
    if depth > pol.max_nesting_depth {
    } else if st.index < 0 || st.index >= lines.len() {
    } else {
        let st1 = PState { index: st.index + 1, depth, ..st };
        lemma_loop_strings(lines, pol, indent, line_no, st1, Seq::empty());
        match object_loop(lines, pol, indent, line_no, st1, Seq::empty()) {
            Err(_) => {},
            Ok((stmts, st2)) => {
                lemma_strings_within_from(stmts, pol.max_string_length as int, 0);
            },
        }
    }
}

proof fn lemma_loop_strings(
    lines: Seq<Seq<char>>,
    pol: Limits,
    indent: int,
    line_no: u32,
    st: PState,
    acc: Seq<SpecStatement>,
)
    requires
        all_strings_within(acc, pol.max_string_length as int),
    ensures
        object_loop(lines, pol, indent, line_no, st, acc) matches Ok((a, st2)) ==> all_strings_within(
            a,
            pol.max_string_length as int,
        ),
    decreases 3 * (lines.len() - st.index) + 3, 0int,
{
    let max = pol.max_string_length as int;
    if st.index < 0 || st.index >= lines.len() {
    } else {
        let raw = lines[st.index];
        if blank(raw) {
            lemma_loop_strings(lines, pol, indent, line_no, at(st, st.index + 1), acc);
        } else {
            match scan::spec_compute_indent(raw, line_of(st.index)) {
                Err(_) => {},
                Ok(actual) => if actual >= indent + 2 {
                    lemma_next_strings(lines, pol, st, indent + 2);
                    match spec_parse_next(lines, pol, st, indent + 2) {
                        Err(_) => {},
                        Ok((item, st2)) => if st.index < st2.index <= lines.len() {
                            match item {
                                SpecItem::Nothing => lemma_loop_strings(lines, pol, indent, line_no, st2, acc),
                                SpecItem::Dir(_) => {},
                                SpecItem::Stmt(s) => {
                                    lemma_all_strings_push(acc, s, max);
                                    lemma_loop_strings(lines, pol, indent, line_no, st2, acc.push(s));
                                },
                                SpecItem::Stmts(ss) => {
                                    lemma_all_strings_concat(acc, ss, max);
                                    lemma_loop_strings(lines, pol, indent, line_no, st2, acc + ss);
                                },
                            }
                        },
                    }
                },
            }
        }
    }
}

proof fn lemma_document_strings(
    lines: Seq<Seq<char>>,
    pol: Limits,
    st: PState,
    dirs: Seq<SpecDirective>,
    stmts: Seq<SpecStatement>,
)
    requires
        all_strings_within(stmts, pol.max_string_length as int),
    ensures
        document_loop(lines, pol, st, dirs, stmts) matches Ok((d2, s2, st2)) ==> all_strings_within(
            s2,
            pol.max_string_length as int,
        ),
    decreases lines.len() - st.index,
{
    let max = pol.max_string_length as int;
    if st.index < 0 || st.index >= lines.len() {
    } else {
        lemma_next_strings(lines, pol, st, 0);
        match spec_parse_next(lines, pol, st, 0) {
            Err(_) => {},
            Ok((item, st2)) => if st.index < st2.index <= lines.len() {
                match item {
                    SpecItem::Nothing => lemma_document_strings(lines, pol, st2, dirs, stmts),
                    SpecItem::Dir(d) => lemma_document_strings(lines, pol, st2, dirs.push(d), stmts),
                    SpecItem::Stmt(s) => {
                        lemma_all_strings_push(stmts, s, max);
                        lemma_document_strings(lines, pol, st2, dirs, stmts.push(s));
                    },
                    SpecItem::Stmts(ss) => {
                        lemma_all_strings_concat(stmts, ss, max);
                        lemma_document_strings(lines, pol, st2, dirs, stmts + ss);
                    },
                }
            },
        }
    }
}

/// No field value, table cell, relation object or narrative text of a
/// parsed document, at any depth, is longer in UTF-8 bytes than the
/// policy's `max_string_length`.
pub proof fn law_string_length_limit(text: Seq<char>, pol: Limits)
    ensures
        spec_parse(text, pol) matches Ok(doc) ==> all_strings_within(
            doc.statements,
            pol.max_string_length as int,
        ),
{
    if text::utf8_len(text) <= pol.max_document_size {
        lemma_document_strings(doc_lines(text), pol, initial_state(), Seq::empty(), Seq::empty());
    }
}

/// A directive a parsed document may hold: a known directive or an alias
/// header, and a format directive with the single argument `1.0`.
pub open spec fn directive_ok(d: SpecDirective) -> bool {
    &&& known_directive(d.name) || d.name == "alias"@
    &&& is_version(d) ==> d.args == seq!["1.0"@]
}

/// Every directive of `dirs` is one a parsed document may hold.
pub open spec fn all_directives_ok(dirs: Seq<SpecDirective>) -> bool {
    forall|i: int| 0 <= i < dirs.len() ==> #[trigger] directive_ok(dirs[i])
}

proof fn lemma_directive_ok(body: Seq<char>, line_no: u32, indent: int, st: PState)
    ensures
        spec_directive(body, line_no, indent, st) matches Ok((d, st2)) ==> directive_ok(d),
{
    reveal_strlit("sdif");
    reveal_strlit("sdif.ai");
    reveal_strlit("alias");
    match spec_directive(body, line_no, indent, st) {
        Ok((d, st2)) => {
            if is_version(d) {
                let parts = scan::split_ws(scan::spec_strip_comment(body).skip(1));
                assert(d.args == parts.skip(1));
                assert(d.args =~= seq!["1.0"@]);
            }
        },
        Err(_) => {},
    }
}

proof fn lemma_next_directive_ok(lines: Seq<Seq<char>>, pol: Limits, st: PState, indent: int)
    ensures
        spec_parse_next(lines, pol, st, indent) matches Ok((SpecItem::Dir(d), st2)) ==> directive_ok(d),
{
    reveal_strlit("alias");
    reveal_strlit("sdif");
    reveal_strlit("sdif.ai");
    if st.index < 0 || st.index >= lines.len() || indent < 0 {
    } else {
        let ln = line_of(st.index);
        let raw = lines[st.index];
        if blank(raw) || is_comment_line(raw) {
        } else {
            match scan::spec_compute_indent(raw, ln) {
                Err(_) => {},
                Ok(actual) => if actual == indent {
                    let body = raw.skip(indent);
                    if body[0] == '@' {
                        lemma_directive_ok(body, ln, indent, at(st, st.index + 1));
                    } else {
                        assert("alias"@.len() != "sdif"@.len() && "alias"@.len() != "sdif.ai"@.len());
                    }
                },
            }
        }
    }
}

proof fn lemma_document_directives(
    lines: Seq<Seq<char>>,
    pol: Limits,
    st: PState,
    dirs: Seq<SpecDirective>,
    stmts: Seq<SpecStatement>,
)
    requires
        all_directives_ok(dirs),
    ensures
        document_loop(lines, pol, st, dirs, stmts) matches Ok((d2, s2, st2)) ==> all_directives_ok(d2),
    decreases lines.len() - st.index,
{
    if st.index < 0 || st.index >= lines.len() {
    } else {
        lemma_next_directive_ok(lines, pol, st, 0);
        match spec_parse_next(lines, pol, st, 0) {
            Err(_) => {},
            Ok((item, st2)) => if st.index < st2.index <= lines.len() {
                match item {
                    SpecItem::Nothing => lemma_document_directives(lines, pol, st2, dirs, stmts),
                    SpecItem::Dir(d) => {
                        assert forall|i: int| 0 <= i < dirs.push(d).len() implies #[trigger] directive_ok(
                            dirs.push(d)[i],
                        ) by {
                            if i < dirs.len() {
                                assert(dirs.push(d)[i] == dirs[i]);
                            }
                        }
                        lemma_document_directives(lines, pol, st2, dirs.push(d), stmts);
                    },
                    SpecItem::Stmt(s) => lemma_document_directives(lines, pol, st2, dirs, stmts.push(s)),
                    SpecItem::Stmts(ss) => lemma_document_directives(lines, pol, st2, dirs, stmts + ss),
                }
            },
        }
    }
}

/// Every directive of a parsed document is a known core directive
/// (`sdif`, `sdif.ai`, `profile`, `vocab`, `base`, `namespace`, `include`)
/// or an alias header, and its format directive has the single argument
/// `1.0`.
pub proof fn law_directives_valid(text: Seq<char>, pol: Limits)
    ensures
        spec_parse(text, pol) matches Ok(doc) ==> all_directives_ok(doc.directives),
{
    if text::utf8_len(text) <= pol.max_document_size {
        lemma_document_directives(doc_lines(text), pol, initial_state(), Seq::empty(), Seq::empty());
    }
}

/// Every row of `rows` has `ncols` cells.
pub open spec fn rows_arity(rows: Seq<Seq<Seq<char>>>, ncols: int) -> bool {
    forall|r: int| 0 <= r < rows.len() ==> (#[trigger] rows[r]).len() == ncols
}

proof fn lemma_table_rows_arity(
    lines: Seq<Seq<char>>,
    pol: Limits,
    ncols: int,
    indent: int,
    i: int,
    rows: Seq<Seq<Seq<char>>>,
    flags: Seq<bool>,
)
    requires
        rows_arity(rows, ncols),
    ensures
        table_rows(lines, pol, ncols, indent, i, rows, flags) matches Ok((r, f, e)) ==> rows_arity(r, ncols),
    decreases lines.len() - i,
{
    if i < 0 || i >= lines.len() {
    } else {
        match table_row(lines, pol, ncols, indent, i, rows.len() as int, flags) {
            Err(_) => {},
            Ok(RowStep::Blank) => lemma_table_rows_arity(lines, pol, ncols, indent, i + 1, rows, flags),
            Ok(RowStep::End) => {},
            Ok(RowStep::Row((values, flags2))) => {
                assert(values.len() == ncols);
                assert forall|r: int| 0 <= r < rows.push(values).len() implies (#[trigger] rows.push(values)[r]).len()
                    == ncols by {
                    if r < rows.len() {
                        assert(rows.push(values)[r] == rows[r]);
                    }
                }
                lemma_table_rows_arity(lines, pol, ncols, indent, i + 1, rows.push(values), flags2);
            },
        }
    }
}

/// A table block parses to a table with the header's name and columns
/// (the comma-separated names, trimmed, empty ones dropped), at least one
/// column, every row as wide as the header, no cell longer than
/// `max_string_length` bytes and no more rows than `max_table_row_count`;
/// a header with no column names is refused with `SDIF_TABLE_HEADER`.
pub proof fn law_table_shape(
    lines: Seq<Seq<char>>,
    pol: Limits,
    name: Seq<char>,
    cols_raw: Seq<char>,
    indent: int,
    line_no: u32,
    st: PState,
)
    ensures
        spec_table(lines, pol, name, cols_raw, indent, line_no, st) matches Ok((t, st2)) ==> {
            &&& t.name == name
            &&& t.columns == columns_of(text::split_on(cols_raw, ','))
            &&& t.columns.len() > 0
            &&& rows_arity(t.rows, t.columns.len() as int)
            &&& cells_within(t.rows, pol.max_string_length as int)
            &&& t.rows.len() <= pol.max_table_row_count
        },
        columns_of(text::split_on(cols_raw, ',')).len() == 0 ==> (spec_table(
            lines,
            pol,
            name,
            cols_raw,
            indent,
            line_no,
            st,
        ) matches Err(e) && e.code == "SDIF_TABLE_HEADER"@),
{
    let columns = columns_of(text::split_on(cols_raw, ','));
    let n = columns.len() as int;
    let f0 = no_flags(columns.len());
    lemma_table_rows_arity(lines, pol, n, indent, st.index + 1, Seq::empty(), f0);
    lemma_table_rows_strings(lines, pol, n, indent, st.index + 1, Seq::empty(), f0);
    lemma_table_rows_bound(lines, pol, n, indent, st.index + 1, Seq::empty(), f0);
}

} // verus!
