//! Canonical SDIF serializer.
//!
//! The canonical form is a deterministic, normalized rendering of a
//! document: directives sorted by kind, name and arguments; at every level,
//! fields sorted by priority and key, then blocks, tables and narratives in
//! source order, then relations and rules sorted. `sdif_hash` is the SHA-256
//! hex digest of that form encoded as UTF-8.
use vstd::prelude::*;

use sha2::Digest;

use crate::ast::{
    Directive, Document, Narrative, SpecDirective, SpecDocument, SpecNarrative, SpecStatement,
    SpecTable, Statement, Table,
};
use crate::order::{keys_view, sorted_order, stable_order, SpecKey};
use crate::scan::vecs_view;
use crate::text::{chars_eq, chars_of, eq_str, push_all, push_str, slice_to_vec, starts_with_str, string_of};
use crate::ast;
use crate::scan;
use crate::text;

verus! {

broadcast use {vstd::string::group_string_axioms, vstd::std_specs::vec::group_vec_axioms};

// ---------------------------------------------------------------------------
// Sort keys
// ---------------------------------------------------------------------------

/// Rank of a directive by name: format version first, then aliases,
/// profile, vocab, base, namespace, include, then anything else.
pub open spec fn directive_rank(name: Seq<char>) -> int {
    if name == "sdif"@ || name == "sdif.ai"@ {
        0
    } else if name == "alias"@ {
        1
    } else if name == "profile"@ {
        2
    } else if name == "vocab"@ {
        3
    } else if name == "base"@ {
        4
    } else if name == "namespace"@ {
        5
    } else if name == "include"@ {
        6
    } else {
        100
    }
}

/// Directives sort by rank, then name, then arguments.
pub open spec fn directive_key(d: SpecDirective) -> SpecKey {
    (directive_rank(d.name), seq![d.name] + d.args)
}

/// Priority of well-known field keys.
pub open spec fn field_rank(key: Seq<char>) -> int {
    if key == "kind"@ {
        0
    } else if key == "id"@ {
        1
    } else if key == "schema"@ {
        2
    } else if key == "authority"@ {
        3
    } else if key == "lifecycle"@ {
        4
    } else {
        100
    }
}

/// Statement order: fields by (priority, key), then blocks, tables and
/// narratives (all equal, so they keep their order), then relations by
/// (subject, predicate, object), then rules by source.
pub open spec fn statement_key(s: SpecStatement) -> SpecKey {
    match s {
        SpecStatement::Field(f) => (field_rank(f.key), seq![f.key]),
        SpecStatement::Relation(r) => (2000, seq![r.subject, r.predicate, r.object]),
        SpecStatement::Rule(r) => (3000, seq![r.source]),
        _ => (1000, Seq::empty()),
    }
}

pub open spec fn statement_keys(stmts: Seq<SpecStatement>) -> Seq<SpecKey> {
    stmts.map_values(|s: SpecStatement| statement_key(s))
}

/// The order in which `stmts` are emitted, as indices into `stmts`.
pub open spec fn statement_order(stmts: Seq<SpecStatement>) -> Seq<int> {
    sorted_order(statement_keys(stmts))
}

pub open spec fn directive_keys(dirs: Seq<SpecDirective>) -> Seq<SpecKey> {
    dirs.map_values(|d: SpecDirective| directive_key(d))
}

/// The group a statement is emitted in: fields, then blocks, tables and
/// narratives, then relations, then rules.
pub open spec fn stmt_group(s: SpecStatement) -> int {
    match s {
        SpecStatement::Field(_) => 0,
        SpecStatement::Relation(_) => 2,
        SpecStatement::Rule(_) => 3,
        _ => 1,
    }
}

/// `o` is the canonical order of `stmts`: a permutation, stably sorted by
/// statement key (fields by priority and key, relations by subject,
/// predicate and object, rules by source), with the groups in turn and the
/// blocks, tables and narratives in their input order.
pub open spec fn canonical_order_ok(stmts: Seq<SpecStatement>, o: Seq<int>) -> bool {
    &&& crate::order::stably_sorted(statement_keys(stmts), o, stmts.len() as int)
    &&& forall|p: int, q: int|
        0 <= p < q < o.len() ==> stmt_group(#[trigger] stmts[o[p]]) <= stmt_group(#[trigger] stmts[o[q]])
    &&& forall|p: int, q: int|
        0 <= p < q < o.len() && stmt_group(#[trigger] stmts[o[p]]) == 1 && stmt_group(#[trigger] stmts[o[q]])
            == 1 ==> o[p] < o[q]
}

/// Canonical statement order: the fields, stably sorted by priority and
/// key; then the blocks, tables and narratives in input order; then the
/// relations, stably sorted by subject, predicate and object; then the
/// rules, stably sorted by source.
pub proof fn law_statement_order(stmts: Seq<SpecStatement>)
    ensures
        canonical_order_ok(stmts, statement_order(stmts)),
{
    let keys = statement_keys(stmts);
    let o = statement_order(stmts);
    crate::order::law_sorted_order(keys);
    assert forall|p: int, q: int| 0 <= p < q < o.len() implies stmt_group(#[trigger] stmts[o[p]]) <= stmt_group(
        #[trigger] stmts[o[q]],
    ) by {
        assert(keys[o[p]] == statement_key(stmts[o[p]]));
        assert(keys[o[q]] == statement_key(stmts[o[q]]));
        assert(!crate::order::key_lt(keys[o[q]], keys[o[p]]));
    }
    assert forall|p: int, q: int|
        0 <= p < q < o.len() && stmt_group(#[trigger] stmts[o[p]]) == 1 && stmt_group(#[trigger] stmts[o[q]])
            == 1 implies o[p] < o[q] by {
        assert(keys[o[p]] == statement_key(stmts[o[p]]));
        assert(keys[o[q]] == statement_key(stmts[o[q]]));
        assert(keys[o[p]] == keys[o[q]]);
    }
}

// ---------------------------------------------------------------------------
// Scalars
// ---------------------------------------------------------------------------

pub open spec fn spaces(n: int) -> Seq<char> {
    Seq::new(n as nat, |i: int| ' ')
}

/// A character escaped for a double-quoted value.
pub open spec fn escape_char(c: char) -> Seq<char> {
    if c == '\\' {
        seq!['\\', '\\']
    } else if c == '"' {
        seq!['\\', '"']
    } else if c == '\n' {
        seq!['\\', 'n']
    } else {
        seq![c]
    }
}

pub open spec fn escape(v: Seq<char>) -> Seq<char>
    decreases v.len(),
{
    if v.len() == 0 {
        Seq::empty()
    } else {
        escape(v.drop_last()) + escape_char(v.last())
    }
}

pub open spec fn quoted(v: Seq<char>) -> Seq<char> {
    seq!['"'] + escape(v) + seq!['"']
}

/// Characters a bare value may consist of.
pub open spec fn safe_char(c: char) -> bool {
    text::is_ascii_alnum(c) || c == '_' || c == '-' || c == '.' || c == '/' || c == ':' || c == '['
        || c == ']' || c == ' ' || c == ','
}

/// A value that may be written without quotes: a keyword, an inline list,
/// or a non-empty run of safe characters without spaces or commas.
pub open spec fn bare_ok(v: Seq<char>) -> bool {
    ||| v == "null"@ || v == "true"@ || v == "false"@
    ||| v.len() >= 2 && v[0] == '[' && v.last() == ']'
    ||| (forall|i: int| 0 <= i < v.len() ==> safe_char(#[trigger] v[i])) && v.len() > 0 && !v.contains(' ')
        && !v.contains(',')
}

/// A value as written in canonical form: quoted when forced or needed.
pub open spec fn quote_if_needed(v: Seq<char>, force: bool) -> Seq<char> {
    if !force && bare_ok(v) {
        v
    } else {
        quoted(v)
    }
}

proof fn lemma_escape_front(v: Seq<char>)
    requires
        v.len() > 0,
    ensures
        escape(v) == escape_char(v[0]) + escape(v.skip(1)),
    decreases v.len(),
{
    if v.len() == 1 {
        assert(v.drop_last() =~= Seq::<char>::empty());
        assert(v.skip(1) =~= Seq::<char>::empty());
        assert(escape(v) =~= escape_char(v[0]) + escape(v.skip(1)));
    } else {
        lemma_escape_front(v.drop_last());
        assert(v.drop_last()[0] == v[0]);
        assert(v.skip(1).drop_last() =~= v.drop_last().skip(1));
        assert(v.skip(1).last() == v.last());
        assert(escape(v) =~= escape_char(v[0]) + escape(v.skip(1)));
    }
}

proof fn lemma_unescape_shift(p: Seq<char>, q: Seq<char>, j: int)
    requires
        0 <= j,
    ensures
        scan::unescape_from(p + q, p.len() + j) == scan::unescape_from(q, j),
    decreases q.len() - j,
{
    let s = p + q;
    let i = p.len() + j;
    if j < q.len() {
        assert(s[i] == q[j]);
        if j + 1 < q.len() {
            assert(s[i + 1] == q[j + 1]);
        }
        lemma_unescape_shift(p, q, j + 1);
        if j + 1 < q.len() {
            lemma_unescape_shift(p, q, j + 2);
        }
    }
}

proof fn lemma_unescape_escape(v: Seq<char>)
    ensures
        scan::unescape_from(escape(v), 0) == v,
    decreases v.len(),
{
    if v.len() == 0 {
        assert(escape(v) =~= Seq::<char>::empty());
    } else {
        let c = v[0];
        let r = v.skip(1);
        lemma_escape_front(v);
        lemma_unescape_escape(r);
        let p = escape_char(c);
        lemma_unescape_shift(p, escape(r), 0);
        let e = p + escape(r);
        if c == '\\' || c == '"' || c == '\n' {
            assert(e[0] == '\\');
            assert(e[1] == p[1]);
            lemma_unescape_shift(seq![e[0]], e.skip(1), 1);
            assert(scan::unescape_from(e, 0) == seq![c] + scan::unescape_from(e, 2));
        } else {
            assert(e[0] == c);
            assert(scan::unescape_from(e, 0) == seq![c] + scan::unescape_from(e, 1));
        }
        assert(seq![c] + r =~= v);
    }
}

/// Unquoting, as the parser does it, gives back every value the canonical
/// serializer writes: bare values never look quoted, and quoted ones escape
/// backslash, double quote and newline.
pub proof fn law_unquote_inverts_quote(v: Seq<char>, force: bool)
    ensures
        scan::spec_unquote(quote_if_needed(v, force)) == v,
{
    if !force && bare_ok(v) {
        reveal_strlit("null");
        reveal_strlit("true");
        reveal_strlit("false");
        if v.len() > 0 {
            assert(safe_char(v[0]) ==> v[0] != '"');
        }
    } else {
        let q = quoted(v);
        assert(q.subrange(1, q.len() - 1) =~= escape(v));
        lemma_unescape_escape(v);
    }
}

// ---------------------------------------------------------------------------
// Lines
// ---------------------------------------------------------------------------

pub open spec fn directive_line(d: SpecDirective) -> Seq<char> {
    if d.name == "alias"@ {
        "alias["@ + text::join(d.args, ","@) + "]"@
    } else if text::join(d.args, " "@).len() == 0 {
        "@"@ + d.name
    } else {
        "@"@ + d.name + " "@ + text::join(d.args, " "@)
    }
}

/// Scanning back from line `k`, `header` is met before a line that is not
/// indented by two spaces.
pub open spec fn inside_block(lines: Seq<Seq<char>>, header: Seq<char>, k: int) -> bool
    decreases k,
{
    if k <= 0 || k > lines.len() {
        false
    } else if lines[k - 1] == header {
        true
    } else if !text::starts_with(lines[k - 1], "  "@) {
        false
    } else {
        inside_block(lines, header, k - 1)
    }
}

/// `item` under `header`, opening the block unless it is still open.
pub open spec fn block_item(lines: Seq<Seq<char>>, header: Seq<char>, item: Seq<char>) -> Seq<Seq<char>> {
    if inside_block(lines, header, lines.len() as int) {
        lines.push(item)
    } else {
        lines.push(header).push(item)
    }
}

/// Cell `i` of a table row: quoted when its column is a quoted column.
pub open spec fn cell_text(t: SpecTable, row: Seq<Seq<char>>, i: int) -> Seq<char> {
    if t.quoted_columns.contains(i as usize) {
        quote_if_needed(row[i], true)
    } else {
        row[i]
    }
}

pub open spec fn row_line(t: SpecTable, row: Seq<Seq<char>>, indent: int) -> Seq<char> {
    spaces(indent + 2) + text::join(Seq::new(row.len(), |i: int| cell_text(t, row, i)), seq!['\t'])
}

pub open spec fn table_lines(t: SpecTable, indent: int) -> Seq<Seq<char>> {
    seq![spaces(indent) + t.name + "["@ + text::join(t.columns, ","@) + "]:"@] + t.rows.map_values(
        |row: Seq<Seq<char>>| row_line(t, row, indent),
    )
}

pub open spec fn triple_quote() -> Seq<char> {
    seq!['"', '"', '"']
}

pub open spec fn narrative_lines(n: SpecNarrative, indent: int) -> Seq<Seq<char>> {
    seq![spaces(indent) + n.key + seq![' '] + triple_quote()] + text::split_on(n.text, '\n').map_values(
        |l: Seq<char>| spaces(indent) + l,
    ) + seq![spaces(indent) + triple_quote()]
}

/// `lines` followed by the canonical lines of statement `s` at `indent`.
pub open spec fn emit_stmt(lines: Seq<Seq<char>>, s: SpecStatement, indent: int) -> Seq<Seq<char>>
    decreases s, 0int,
{
    match s {
        SpecStatement::Field(f) => lines.push(
            spaces(indent) + f.key + seq![' '] + quote_if_needed(f.value, f.quoted),
        ),
        SpecStatement::ObjectBlock(o) => emit_stmts(
            lines.push(spaces(indent) + o.key + seq![':']),
            o.statements,
            statement_order(o.statements),
            0,
            indent + 2,
        ),
        SpecStatement::Table(t) => lines + table_lines(t, indent),
        SpecStatement::Relation(r) => block_item(
            lines,
            spaces(indent) + "rel:"@,
            spaces(indent + 2) + r.subject + seq![' '] + r.predicate + seq![' '] + quote_if_needed(
                r.object,
                r.object_quoted,
            ),
        ),
        SpecStatement::Rule(r) => block_item(
            lines,
            spaces(indent) + "rules:"@,
            spaces(indent + 2) + r.source,
        ),
        SpecStatement::Narrative(n) => lines + narrative_lines(n, indent),
    }
}

/// `lines` followed by the statements `stmts[order[k]], stmts[order[k+1]], …`.
pub open spec fn emit_stmts(
    lines: Seq<Seq<char>>,
    stmts: Seq<SpecStatement>,
    order: Seq<int>,
    k: int,
    indent: int,
) -> Seq<Seq<char>>
    decreases stmts, order.len() - k,
{
    if k < 0 || k >= order.len() || !(0 <= order[k] < stmts.len()) {
        lines
    } else {
        emit_stmts(emit_stmt(lines, stmts[order[k]], indent), stmts, order, k + 1, indent)
    }
}

pub open spec fn directive_lines(dirs: Seq<SpecDirective>) -> Seq<Seq<char>> {
    sorted_order(directive_keys(dirs)).map_values(|i: int| directive_line(dirs[i]))
}

/// The canonical lines of a document: sorted directives, then statements.
pub open spec fn canonical_lines(dirs: Seq<SpecDirective>, stmts: Seq<SpecStatement>) -> Seq<Seq<char>> {
    emit_stmts(directive_lines(dirs), stmts, statement_order(stmts), 0, 0)
}

/// The canonical text: the lines joined by newlines, trailing whitespace
/// removed, and exactly one final newline.
pub open spec fn canonical_text(dirs: Seq<SpecDirective>, stmts: Seq<SpecStatement>) -> Seq<char> {
    text::trim_end(text::join(canonical_lines(dirs, stmts), seq!['\n'])) + seq!['\n']
}

pub open spec fn spec_canonicalize(doc: SpecDocument) -> Seq<char> {
    canonical_text(doc.directives, doc.statements)
}


// ---------------------------------------------------------------------------
// Executable parts
// ---------------------------------------------------------------------------

fn directive_rank_of(name: &[char]) -> (r: u32)
    ensures
        r as int == directive_rank(name@),
{
    if eq_str(name, "sdif") || eq_str(name, "sdif.ai") {
        0
    } else if eq_str(name, "alias") {
        1
    } else if eq_str(name, "profile") {
        2
    } else if eq_str(name, "vocab") {
        3
    } else if eq_str(name, "base") {
        4
    } else if eq_str(name, "namespace") {
        5
    } else if eq_str(name, "include") {
        6
    } else {
        100
    }
}

fn field_priority(key: &[char]) -> (r: u32)
    ensures
        r as int == field_rank(key@),
{
    if eq_str(key, "kind") {
        0
    } else if eq_str(key, "id") {
        1
    } else if eq_str(key, "schema") {
        2
    } else if eq_str(key, "authority") {
        3
    } else if eq_str(key, "lifecycle") {
        4
    } else {
        100
    }
}

/// The characters of a string.
fn string_chars(s: &String) -> (v: Vec<char>)
    ensures
        v@ == s@,
{
    chars_of(s.as_str())
}

fn directive_key_of(d: &Directive) -> (k: (u32, Vec<Vec<char>>))
    ensures
        crate::order::key_view(k) == directive_key(d@),
{
    let name = string_chars(&d.name);
    let rank = directive_rank_of(&name);
    let mut atoms: Vec<Vec<char>> = Vec::new();
    atoms.push(name);
    let mut i: usize = 0;
    while i < d.args.len()
        invariant
            0 <= i <= d.args@.len(),
            vecs_view(atoms@) == seq![d.name@] + ast::strings_view(d.args@).take(i as int),
        decreases d.args@.len() - i,
    {
        let a = string_chars(&d.args[i]);
        let ghost before = vecs_view(atoms@);
        atoms.push(a);
        assert(vecs_view(atoms@) == before.push(a@));
        i += 1;
        assert(ast::strings_view(d.args@).take(i as int) == ast::strings_view(d.args@).take(i - 1 as int).push(
            d.args@[i - 1]@,
        ));
    }
    assert(ast::strings_view(d.args@).take(d.args@.len() as int) == ast::strings_view(d.args@));
    (rank, atoms)
}

fn statement_key_of(s: &Statement) -> (k: (u32, Vec<Vec<char>>))
    ensures
        crate::order::key_view(k) == statement_key(s@),
{
    let mut atoms: Vec<Vec<char>> = Vec::new();
    match s {
        Statement::Field(f) => {
            let key = string_chars(&f.key);
            let rank = field_priority(&key);
            atoms.push(key);
            assert(vecs_view(atoms@) == seq![f.key@]);
            (rank, atoms)
        },
        Statement::Relation(r) => {
            atoms.push(string_chars(&r.subject));
            atoms.push(string_chars(&r.predicate));
            atoms.push(string_chars(&r.object));
            assert(vecs_view(atoms@) == seq![r.subject@, r.predicate@, r.object@]);
            (2000, atoms)
        },
        Statement::Rule(r) => {
            atoms.push(string_chars(&r.source));
            assert(vecs_view(atoms@) == seq![r.source@]);
            (3000, atoms)
        },
        _ => {
            assert(vecs_view(atoms@) == Seq::<Seq<char>>::empty());
            (1000, atoms)
        },
    }
}

/// The order in which statements are emitted (see `statement_order`).
fn canonical_statement_order(stmts: &Vec<Statement>) -> (r: Vec<usize>)
    ensures
        r@.len() == statement_order(ast::statements_view(stmts@)).len(),
        forall|i: int| 0 <= i < r@.len() ==> #[trigger] r@[i] as int == statement_order(ast::statements_view(stmts@))[i],
        forall|i: int| 0 <= i < r@.len() ==> #[trigger] r@[i] < stmts@.len(),
        canonical_order_ok(ast::statements_view(stmts@), statement_order(ast::statements_view(stmts@))),
{
    let ghost sv = ast::statements_view(stmts@);
    proof {
        law_statement_order(sv);
    }
    let mut keys: Vec<(u32, Vec<Vec<char>>)> = Vec::new();
    let mut i: usize = 0;
    while i < stmts.len()
        invariant
            0 <= i <= stmts@.len(),
            sv == ast::statements_view(stmts@),
            keys_view(keys@) == statement_keys(sv).take(i as int),
        decreases stmts@.len() - i,
    {
        let k = statement_key_of(&stmts[i]);
        let ghost before = keys_view(keys@);
        keys.push(k);
        assert(keys_view(keys@) == before.push(crate::order::key_view(k)));
        i += 1;
        assert(statement_keys(sv).take(i as int) == statement_keys(sv).take(i - 1 as int).push(
            statement_key(sv[i - 1]),
        ));
    }
    assert(statement_keys(sv).take(stmts@.len() as int) == statement_keys(sv));
    stable_order(&keys)
}

/// The pieces of `parts` separated by `sep`.
pub(crate) fn join_chars(parts: &Vec<Vec<char>>, sep: &[char]) -> (r: Vec<char>)
    ensures
        r@ == text::join(vecs_view(parts@), sep@),
{
    let ghost pv = vecs_view(parts@);
    let mut r: Vec<char> = Vec::new();
    let mut i: usize = 0;
    while i < parts.len()
        invariant
            0 <= i <= parts@.len(),
            pv == vecs_view(parts@),
            r@ == text::join(pv.take(i as int), sep@),
        decreases parts@.len() - i,
    {
        assert(pv.take(i + 1 as int).drop_last() == pv.take(i as int));
        assert(pv[i as int] == parts@[i as int]@);
        if i > 0 {
            push_all(&mut r, sep);
        }
        push_all(&mut r, &parts[i]);
        i += 1;
    }
    assert(pv.take(parts@.len() as int) == pv);
    r
}

/// The strings `parts` separated by `sep`.
fn join_strings(parts: &Vec<String>, sep: &[char]) -> (r: Vec<char>)
    ensures
        r@ == text::join(ast::strings_view(parts@), sep@),
{
    let ghost pv = ast::strings_view(parts@);
    let mut r: Vec<char> = Vec::new();
    let mut i: usize = 0;
    while i < parts.len()
        invariant
            0 <= i <= parts@.len(),
            pv == ast::strings_view(parts@),
            r@ == text::join(pv.take(i as int), sep@),
        decreases parts@.len() - i,
    {
        assert(pv.take(i + 1 as int).drop_last() == pv.take(i as int));
        assert(pv[i as int] == parts@[i as int]@);
        if i > 0 {
            push_all(&mut r, sep);
        }
        let p = string_chars(&parts[i]);
        push_all(&mut r, &p);
        i += 1;
    }
    assert(pv.take(parts@.len() as int) == pv);
    r
}

/// `"` + the value with `\`, `"` and newlines escaped + `"`.
fn quote_value(value: &[char]) -> (r: Vec<char>)
    ensures
        r@ == quoted(value@),
{
    let mut r: Vec<char> = Vec::new();
    r.push('"');
    let mut i: usize = 0;
    while i < value.len()
        invariant
            0 <= i <= value@.len(),
            r@ == seq!['"'] + escape(value@.take(i as int)),
        decreases value@.len() - i,
    {
        assert(value@.take(i + 1 as int).drop_last() == value@.take(i as int));
        let c = value[i];
        if c == '\\' {
            r.push('\\');
            r.push('\\');
        } else if c == '"' {
            r.push('\\');
            r.push('"');
        } else if c == '\n' {
            r.push('\\');
            r.push('n');
        } else {
            r.push(c);
        }
        i += 1;
        assert(r@ =~= seq!['"'] + escape(value@.take(i as int)));
    }
    assert(value@.take(value@.len() as int) == value@);
    r.push('"');
    r
}

fn is_safe_char(c: char) -> (b: bool)
    ensures
        b == safe_char(c),
{
    crate::text::is_ascii_alphabetic(c) || crate::text::is_ascii_digit_char(c) || c == '_' || c == '-'
        || c == '.' || c == '/' || c == ':' || c == '[' || c == ']' || c == ' ' || c == ','
}

/// A value as written in canonical form (see `quote_if_needed`).
fn quote_if_needed_chars(value: &[char], force: bool) -> (r: Vec<char>)
    ensures
        r@ == quote_if_needed(value@, force),
{
    if force {
        return quote_value(value);
    }
    if eq_str(value, "null") || eq_str(value, "true") || eq_str(value, "false") {
        return slice_to_vec(value, 0, value.len());
    }
    if value.len() >= 2 && value[0] == '[' && value[value.len() - 1] == ']' {
        return slice_to_vec(value, 0, value.len());
    }
    let mut safe = true;
    let mut i: usize = 0;
    while i < value.len()
        invariant
            0 <= i <= value@.len(),
            safe == (forall|j: int| 0 <= j < i ==> safe_char(#[trigger] value@[j])),
        decreases value@.len() - i,
    {
        if !is_safe_char(value[i]) {
            safe = false;
        }
        i += 1;
    }
    if safe && value.len() > 0 && !crate::text::contains_char(value, ' ') && !crate::text::contains_char(value, ',') {
        return slice_to_vec(value, 0, value.len());
    }
    quote_value(value)
}


fn directive_line_of(d: &Directive) -> (r: Vec<char>)
    ensures
        r@ == directive_line(d@),
{
    let name = string_chars(&d.name);
    if eq_str(&name, "alias") {
        let mut r = chars_of("alias[");
        let comma = chars_of(",");
        let j = join_strings(&d.args, &comma);
        push_all(&mut r, &j);
        push_str(&mut r, "]");
        return r;
    }
    let space = chars_of(" ");
    let args = join_strings(&d.args, &space);
    let mut r = chars_of("@");
    push_all(&mut r, &name);
    if args.len() > 0 {
        push_str(&mut r, " ");
        push_all(&mut r, &args);
    }
    r
}

/// Scanning back through `lines`, whether `header` is met before a line
/// that is not indented by two spaces.
fn inside_current_block(lines: &Vec<Vec<char>>, header: &[char]) -> (b: bool)
    ensures
        b == inside_block(vecs_view(lines@), header@, lines@.len() as int),
{
    let ghost lv = vecs_view(lines@);
    let mut k = lines.len();
    while k > 0
        invariant
            0 <= k <= lines@.len(),
            lv == vecs_view(lines@),
            inside_block(lv, header@, lines@.len() as int) == inside_block(lv, header@, k as int),
        decreases k,
    {
        assert(lv[k - 1] == lines@[k - 1]@);
        if chars_eq(&lines[k - 1], header) {
            return true;
        }
        if !starts_with_str(&lines[k - 1], "  ") {
            return false;
        }
        k -= 1;
    }
    false
}

/// Whether `x` occurs in `v`.
pub(crate) fn contains_index(v: &Vec<usize>, x: usize) -> (b: bool)
    ensures
        b == v@.contains(x),
{
    let mut i: usize = 0;
    while i < v.len()
        invariant
            0 <= i <= v@.len(),
            forall|j: int| 0 <= j < i ==> v@[j] != x,
        decreases v@.len() - i,
    {
        if v[i] == x {
            return true;
        }
        i += 1;
    }
    false
}

/// `prefix` followed by `s`.
fn prefixed(prefix: &Vec<char>, s: &[char]) -> (r: Vec<char>)
    ensures
        r@ == prefix@ + s@,
{
    let mut r = slice_to_vec(prefix, 0, prefix.len());
    push_all(&mut r, s);
    r
}

/// The lines of a table at the indentation of `prefix`.
fn emit_table(t: &Table, lines: &mut Vec<Vec<char>>, prefix: &Vec<char>)
    requires
        prefix@ == spaces(prefix@.len() as int),
    ensures
        vecs_view(final(lines)@) == vecs_view(old(lines)@) + table_lines(t@, prefix@.len() as int),
{
    let ghost indent = prefix@.len() as int;
    let ghost tv = t@;
    let name = string_chars(&t.name);
    let mut head = prefixed(prefix, &name);
    push_str(&mut head, "[");
    let comma = chars_of(",");
    let cols = join_strings(&t.columns, &comma);
    push_all(&mut head, &cols);
    push_str(&mut head, "]:");
    let ghost l0 = vecs_view(lines@);
    lines.push(head);
    assert(vecs_view(lines@) == l0.push(head@));
    let mut row_prefix = slice_to_vec(prefix, 0, prefix.len());
    row_prefix.push(' ');
    row_prefix.push(' ');
    assert(row_prefix@ =~= spaces(indent + 2));
    let mut tab: Vec<char> = Vec::new();
    tab.push('\t');
    let ghost rows_lines = tv.rows.map_values(|row: Seq<Seq<char>>| row_line(tv, row, indent));
    let mut i: usize = 0;
    while i < t.rows.len()
        invariant
            0 <= i <= t.rows@.len(),
            tv == t@,
            indent == prefix@.len(),
            row_prefix@ == spaces(indent + 2),
            tab@ == seq!['\t'],
            rows_lines == tv.rows.map_values(|row: Seq<Seq<char>>| row_line(tv, row, indent)),
            vecs_view(lines@) == l0 + seq![head@] + rows_lines.take(i as int),
        decreases t.rows@.len() - i,
    {
        let row = &t.rows[i];
        let ghost rv = ast::strings_view(row@);
        assert(tv.rows[i as int] == rv);
        let mut cells: Vec<Vec<char>> = Vec::new();
        let mut j: usize = 0;
        while j < row.len()
            invariant
                0 <= j <= row@.len(),
                tv == t@,
                rv == ast::strings_view(row@),
                vecs_view(cells@) == Seq::new(rv.len(), |q: int| cell_text(tv, rv, q)).take(j as int),
            decreases row@.len() - j,
        {
            let c = string_chars(&row[j]);
            let cell = if contains_index(&t.quoted_columns, j) {
                quote_value(&c)
            } else {
                c
            };
            assert(cell@ == cell_text(tv, rv, j as int));
            let ghost before = vecs_view(cells@);
            cells.push(cell);
            assert(vecs_view(cells@) == before.push(cell@));
            j += 1;
            assert(Seq::new(rv.len(), |q: int| cell_text(tv, rv, q)).take(j as int) =~= Seq::new(
                rv.len(),
                |q: int| cell_text(tv, rv, q),
            ).take(j - 1 as int).push(cell_text(tv, rv, j - 1 as int)));
        }
        assert(Seq::new(rv.len(), |q: int| cell_text(tv, rv, q)).take(row@.len() as int) =~= Seq::new(
            rv.len(),
            |q: int| cell_text(tv, rv, q),
        ));
        let joined = join_chars(&cells, &tab);
        let line = prefixed(&row_prefix, &joined);
        assert(line@ == row_line(tv, rv, indent));
        let ghost before = vecs_view(lines@);
        lines.push(line);
        assert(vecs_view(lines@) == before.push(line@));
        i += 1;
        assert(rows_lines.take(i as int) == rows_lines.take(i - 1 as int).push(rows_lines[i - 1]));
    }
    assert(rows_lines.take(t.rows@.len() as int) == rows_lines);
    assert(table_lines(tv, indent) == seq![head@] + rows_lines);
    assert(vecs_view(lines@) =~= l0 + table_lines(tv, indent));
}

/// The lines of a narrative at the indentation of `prefix`.
fn emit_narrative(n: &Narrative, lines: &mut Vec<Vec<char>>, prefix: &Vec<char>)
    requires
        prefix@ == spaces(prefix@.len() as int),
    ensures
        vecs_view(final(lines)@) == vecs_view(old(lines)@) + narrative_lines(n@, prefix@.len() as int),
{
    let ghost indent = prefix@.len() as int;
    let ghost l0 = vecs_view(lines@);
    let key = string_chars(&n.key);
    let mut open = prefixed(prefix, &key);
    open.push(' ');
    open.push('"');
    open.push('"');
    open.push('"');
    assert(open@ =~= spaces(indent) + n.key@ + seq![' '] + triple_quote());
    lines.push(open);
    let body = string_chars(&n.text);
    let pieces = crate::text::split_chars(&body, '\n');
    let ghost mid = crate::text::split_on(n.text@, '\n').map_values(|l: Seq<char>| spaces(indent) + l);
    let mut i: usize = 0;
    while i < pieces.len()
        invariant
            0 <= i <= pieces@.len(),
            indent == prefix@.len(),
            prefix@ == spaces(indent),
            pieces@.len() == crate::text::split_on(body@, '\n').len(),
            forall|q: int| 0 <= q < pieces@.len() ==> #[trigger] pieces@[q]@ == crate::text::split_on(body@, '\n')[q],
            body@ == n.text@,
            mid == crate::text::split_on(n.text@, '\n').map_values(|l: Seq<char>| spaces(indent) + l),
            vecs_view(lines@) == l0 + seq![open@] + mid.take(i as int),
        decreases pieces@.len() - i,
    {
        let line = prefixed(prefix, &pieces[i]);
        let ghost before = vecs_view(lines@);
        lines.push(line);
        assert(vecs_view(lines@) == before.push(line@));
        i += 1;
        assert(mid.take(i as int) == mid.take(i - 1 as int).push(mid[i - 1]));
    }
    assert(mid.take(pieces@.len() as int) == mid);
    let mut close = slice_to_vec(prefix, 0, prefix.len());
    close.push('"');
    close.push('"');
    close.push('"');
    assert(close@ =~= spaces(indent) + triple_quote());
    let ghost before = vecs_view(lines@);
    lines.push(close);
    assert(vecs_view(lines@) == before.push(close@));
    assert(vecs_view(lines@) =~= l0 + narrative_lines(n@, indent));
}


/// The canonical lines of statement `s` at the indentation of `prefix`.
fn emit_statement(s: &Statement, lines: &mut Vec<Vec<char>>, prefix: &Vec<char>)
    requires
        prefix@ == spaces(prefix@.len() as int),
    ensures
        vecs_view(final(lines)@) == emit_stmt(vecs_view(old(lines)@), s@, prefix@.len() as int),
    decreases s@,
{
    let ghost indent = prefix@.len() as int;
    let ghost l0 = vecs_view(lines@);
    match s {
        Statement::Field(f) => {
            let key = string_chars(&f.key);
            let mut line = prefixed(prefix, &key);
            line.push(' ');
            let value = string_chars(&f.value);
            let q = quote_if_needed_chars(&value, f.quoted);
            push_all(&mut line, &q);
            assert(line@ =~= spaces(indent) + f.key@ + seq![' '] + quote_if_needed(f.value@, f.quoted));
            lines.push(line);
            assert(vecs_view(lines@) == l0.push(line@));
            assert(s@ == SpecStatement::Field(f@));
            assert(emit_stmt(l0, s@, indent) == l0.push(line@));
            assert(vecs_view(lines@) == emit_stmt(l0, s@, indent));
        },
        Statement::ObjectBlock(o) => {
            proof {
                ast::lemma_object_view(*o);
                let sv = s@;
                assert(decreases_to!(sv => sv->ObjectBlock_0));
                assert(decreases_to!(sv->ObjectBlock_0 => sv->ObjectBlock_0.statements));
            }
            let key = string_chars(&o.key);
            let mut line = prefixed(prefix, &key);
            line.push(':');
            assert(line@ =~= spaces(indent) + o.key@ + seq![':']);
            lines.push(line);
            assert(vecs_view(lines@) == l0.push(line@));
            let mut child = slice_to_vec(prefix, 0, prefix.len());
            child.push(' ');
            child.push(' ');
            assert(child@ =~= spaces(indent + 2));
            emit_statements(&o.statements, lines, &child);
            assert(vecs_view(lines@) == emit_stmt(l0, s@, indent));
        },
        Statement::Table(t) => {
            emit_table(t, lines, prefix);
            assert(vecs_view(lines@) == emit_stmt(l0, s@, indent));
        },
        Statement::Relation(r) => {
            let mut header = slice_to_vec(prefix, 0, prefix.len());
            push_str(&mut header, "rel:");
            let ghost hv = header@;
            assert(hv =~= spaces(indent) + "rel:"@);
            assert(s@ == SpecStatement::Relation(r@));
            let mut item = slice_to_vec(prefix, 0, prefix.len());
            item.push(' ');
            item.push(' ');
            let subject = string_chars(&r.subject);
            push_all(&mut item, &subject);
            item.push(' ');
            let predicate = string_chars(&r.predicate);
            push_all(&mut item, &predicate);
            item.push(' ');
            let object = string_chars(&r.object);
            let q = quote_if_needed_chars(&object, r.object_quoted);
            push_all(&mut item, &q);
            assert(item@ =~= spaces(indent + 2) + r.subject@ + seq![' '] + r.predicate@ + seq![' ']
                + quote_if_needed(r.object@, r.object_quoted));
            if !inside_current_block(lines, &header) {
                lines.push(header);
            }
            let ghost l1 = vecs_view(lines@);
            lines.push(item);
            assert(vecs_view(lines@) == l1.push(item@));
            assert(vecs_view(lines@) == block_item(l0, hv, item@));
            assert(vecs_view(lines@) == emit_stmt(l0, s@, indent));
        },
        Statement::Rule(r) => {
            let mut header = slice_to_vec(prefix, 0, prefix.len());
            push_str(&mut header, "rules:");
            let ghost hv = header@;
            assert(hv =~= spaces(indent) + "rules:"@);
            assert(s@ == SpecStatement::Rule(r@));
            let mut item = slice_to_vec(prefix, 0, prefix.len());
            item.push(' ');
            item.push(' ');
            let source = string_chars(&r.source);
            push_all(&mut item, &source);
            assert(item@ =~= spaces(indent + 2) + r.source@);
            if !inside_current_block(lines, &header) {
                lines.push(header);
            }
            let ghost l1 = vecs_view(lines@);
            lines.push(item);
            assert(vecs_view(lines@) == l1.push(item@));
            assert(vecs_view(lines@) == block_item(l0, hv, item@));
            assert(vecs_view(lines@) == emit_stmt(l0, s@, indent));
        },
        Statement::Narrative(n) => {
            emit_narrative(n, lines, prefix);
            assert(vecs_view(lines@) == emit_stmt(l0, s@, indent));
        },
    }
}

/// The canonical lines of `stmts`, in canonical order, at the indentation
/// of `prefix`.
fn emit_statements(stmts: &Vec<Statement>, lines: &mut Vec<Vec<char>>, prefix: &Vec<char>)
    requires
        prefix@ == spaces(prefix@.len() as int),
    ensures
        vecs_view(final(lines)@) == emit_stmts(
            vecs_view(old(lines)@),
            ast::statements_view(stmts@),
            statement_order(ast::statements_view(stmts@)),
            0,
            prefix@.len() as int,
        ),
    decreases ast::statements_view(stmts@),
{
    let ghost sv = ast::statements_view(stmts@);
    let ghost ord = statement_order(sv);
    let ghost indent = prefix@.len() as int;
    let ghost l0 = vecs_view(lines@);
    let order = canonical_statement_order(stmts);
    let mut k: usize = 0;
    while k < order.len()
        invariant
            0 <= k <= order@.len(),
            sv == ast::statements_view(stmts@),
            ord == statement_order(sv),
            indent == prefix@.len(),
            prefix@ == spaces(indent),
            order@.len() == ord.len(),
            forall|i: int| 0 <= i < order@.len() ==> #[trigger] order@[i] as int == ord[i],
            forall|i: int| 0 <= i < order@.len() ==> #[trigger] order@[i] < stmts@.len(),
            emit_stmts(l0, sv, ord, 0, indent) == emit_stmts(vecs_view(lines@), sv, ord, k as int, indent),
        decreases order@.len() - k,
    {
        let j = order[k];
        proof {
            assert(sv[j as int] == stmts@[j as int]@);
            assert(decreases_to!(sv => sv[j as int]));
        }
        emit_statement(&stmts[j], lines, prefix);
        k += 1;
    }
}

/// The canonical text of a document given by its directives and statements.
pub(crate) fn canonical_parts(dirs: &Vec<Directive>, stmts: &Vec<Statement>) -> (r: String)
    ensures
        r@ == canonical_text(ast::directives_view(dirs@), ast::statements_view(stmts@)),
{
    let ghost dv = ast::directives_view(dirs@);
    let mut keys: Vec<(u32, Vec<Vec<char>>)> = Vec::new();
    let mut i: usize = 0;
    while i < dirs.len()
        invariant
            0 <= i <= dirs@.len(),
            dv == ast::directives_view(dirs@),
            keys_view(keys@) == directive_keys(dv).take(i as int),
        decreases dirs@.len() - i,
    {
        let k = directive_key_of(&dirs[i]);
        let ghost before = keys_view(keys@);
        keys.push(k);
        assert(keys_view(keys@) == before.push(crate::order::key_view(k)));
        i += 1;
        assert(directive_keys(dv).take(i as int) == directive_keys(dv).take(i - 1 as int).push(
            directive_key(dv[i - 1]),
        ));
    }
    assert(directive_keys(dv).take(dirs@.len() as int) == directive_keys(dv));
    let order = stable_order(&keys);
    let ghost dl = directive_lines(dv);
    let mut lines: Vec<Vec<char>> = Vec::new();
    let mut k: usize = 0;
    while k < order.len()
        invariant
            0 <= k <= order@.len(),
            dv == ast::directives_view(dirs@),
            dl == directive_lines(dv),
            order@.len() == sorted_order(directive_keys(dv)).len(),
            forall|q: int| 0 <= q < order@.len() ==> #[trigger] order@[q] as int == sorted_order(directive_keys(dv))[q],
            forall|q: int| 0 <= q < order@.len() ==> #[trigger] order@[q] < dirs@.len(),
            vecs_view(lines@) == dl.take(k as int),
        decreases order@.len() - k,
    {
        let j = order[k];
        assert(dv[j as int] == dirs@[j as int]@);
        let line = directive_line_of(&dirs[j]);
        let ghost before = vecs_view(lines@);
        lines.push(line);
        assert(vecs_view(lines@) == before.push(line@));
        k += 1;
        assert(dl.take(k as int) == dl.take(k - 1 as int).push(dl[k - 1]));
    }
    assert(dl.take(order@.len() as int) == dl);
    let prefix: Vec<char> = Vec::new();
    assert(prefix@ =~= spaces(0));
    emit_statements(stmts, &mut lines, &prefix);
    let mut nl: Vec<char> = Vec::new();
    nl.push('\n');
    let joined = join_chars(&lines, &nl);
    let mut out = crate::text::trim_end_chars(&joined);
    out.push('\n');
    string_of(&out)
}

/// Produce the canonical text form of `doc`.
pub fn canonicalize(doc: &Document) -> (r: String)
    ensures
        r@ == spec_canonicalize(doc@),
{
    canonical_parts(&doc.directives, &doc.statements)
}


// ---------------------------------------------------------------------------
// Hash
// ---------------------------------------------------------------------------

pub open spec fn hex_digits() -> Seq<char> {
    seq!['0', '1', '2', '3', '4', '5', '6', '7', '8', '9', 'a', 'b', 'c', 'd', 'e', 'f']
}

/// Lower-case hexadecimal, two digits per byte.
pub open spec fn hex_text(bytes: Seq<u8>) -> Seq<char>
    decreases bytes.len(),
{
    if bytes.len() == 0 {
        Seq::empty()
    } else {
        hex_text(bytes.drop_last()) + seq![
            hex_digits()[bytes.last() as int / 16],
            hex_digits()[bytes.last() as int % 16],
        ]
    }
}

/// The SHA-256 digest of a byte string.
pub uninterp spec fn sha256_digest(data: Seq<u8>) -> Seq<u8>;

/// `sha2::Sha256::digest`: the SHA-256 digest of `data`. The digest itself
/// is only named here; its length of 32 bytes is that of the output type
/// (`GenericArray<u8, U32>`).
#[verifier::external_body]
fn sha256(data: &[u8]) -> (d: Vec<u8>)
    ensures
        d@ == sha256_digest(data@),
        d@.len() == 32,
{
    sha2::Sha256::digest(data).to_vec()
}


pub(crate) fn hex_char(n: u8) -> (c: char)
    requires
        n < 16,
    ensures
        c == hex_digits()[n as int],
{
    match n {
        0 => '0',
        1 => '1',
        2 => '2',
        3 => '3',
        4 => '4',
        5 => '5',
        6 => '6',
        7 => '7',
        8 => '8',
        9 => '9',
        10 => 'a',
        11 => 'b',
        12 => 'c',
        13 => 'd',
        14 => 'e',
        _ => 'f',
    }
}

fn hex_of(bytes: &[u8]) -> (r: Vec<char>)
    ensures
        r@ == hex_text(bytes@),
{
    let mut r: Vec<char> = Vec::new();
    let mut i: usize = 0;
    while i < bytes.len()
        invariant
            0 <= i <= bytes@.len(),
            r@ == hex_text(bytes@.take(i as int)),
        decreases bytes@.len() - i,
    {
        assert(bytes@.take(i + 1 as int).drop_last() == bytes@.take(i as int));
        let b = bytes[i];
        r.push(hex_char(b / 16));
        r.push(hex_char(b % 16));
        i += 1;
    }
    assert(bytes@.take(bytes@.len() as int) == bytes@);
    r
}

/// Return the SHA-256 hex digest of the canonical UTF-8 form of `doc`.
pub fn sdif_hash(doc: &Document) -> (r: String)
    ensures
        r@ == hex_text(sha256_digest(vstd::utf8::encode_utf8(spec_canonicalize(doc@)))),
        r@.len() == 64,
{
    let canon = canonicalize(doc);
    let bytes = canon.as_str().as_bytes();
    let digest = sha256(bytes);
    let hex = hex_of(&digest);
    proof { lemma_hex_len(digest@); }
    string_of(&hex)
}

proof fn lemma_hex_len(b: Seq<u8>)
    ensures
        hex_text(b).len() == 2 * b.len(),
    decreases b.len(),
{
    if b.len() > 0 {
        lemma_hex_len(b.drop_last());
    }
}


/// The canonical text ends with exactly one newline: no whitespace comes
/// right before it.
pub proof fn law_canonical_text_ends_with_one_newline(dirs: Seq<SpecDirective>, stmts: Seq<SpecStatement>)
    ensures
        canonical_text(dirs, stmts).len() > 0,
        canonical_text(dirs, stmts).last() == '\n',
        canonical_text(dirs, stmts).len() >= 2 ==> !text::is_ws(
            canonical_text(dirs, stmts)[canonical_text(dirs, stmts).len() - 2],
        ),
{
    let j = text::join(canonical_lines(dirs, stmts), seq!['\n']);
    text::lemma_ws_run_back_bounds(j, j.len() as int);
    let t = text::trim_end(j);
    assert(canonical_text(dirs, stmts) == t + seq!['\n']);
    if t.len() > 0 {
        assert(t[t.len() - 1] == j[text::ws_run_back(j, j.len() as int) - 1]);
    }
}

proof fn lemma_emit_same_items(
    lines: Seq<Seq<char>>,
    s1: Seq<SpecStatement>,
    o1: Seq<int>,
    s2: Seq<SpecStatement>,
    o2: Seq<int>,
    k: int,
    indent: int,
)
    requires
        0 <= k,
        o1.len() == o2.len(),
        forall|p: int| 0 <= p < o1.len() ==> 0 <= #[trigger] o1[p] < s1.len(),
        forall|p: int| 0 <= p < o2.len() ==> 0 <= #[trigger] o2[p] < s2.len(),
        forall|p: int| 0 <= p < o1.len() ==> #[trigger] s1[o1[p]] == s2[o2[p]],
    ensures
        emit_stmts(lines, s1, o1, k, indent) == emit_stmts(lines, s2, o2, k, indent),
    decreases o1.len() - k,
{
    if k < o1.len() {
        assert(s1[o1[k]] == s2[o2[k]]);
        lemma_emit_same_items(emit_stmt(lines, s1[o1[k]], indent), s1, o1, s2, o2, k + 1, indent);
    }
}

/// `xs2` is `xs1` permuted by `m`, with items of equal key (by `keys1`,
/// `keys2`) kept in their relative order.
pub open spec fn tie_keeping<T>(
    xs1: Seq<T>,
    xs2: Seq<T>,
    keys1: Seq<SpecKey>,
    keys2: Seq<SpecKey>,
    m: Seq<int>,
) -> bool {
    &&& xs2.len() == xs1.len()
    &&& crate::order::is_permutation(m, xs1.len() as int)
    &&& forall|i: int| 0 <= i < xs2.len() ==> #[trigger] xs2[i] == xs1[m[i]]
    &&& forall|i: int, j: int| 0 <= i < j < xs2.len() && keys2[i] == keys2[j] ==> m[i] < m[j]
}

/// The canonical text is a normal form: reordering a document's directives
/// (`md`) or statements (`ms`) does not change it, as long as statements of
/// equal sort key keep their relative order (blocks, tables and narratives
/// among themselves; fields of one key; relations of one subject, predicate
/// and object; rules of one source). Directives of equal key are equal, and
/// so are parsed rules of one source (their expression is parsed from it),
/// so any reordering of those can be given this way.
pub proof fn law_canonical_permutation(d1: SpecDocument, d2: SpecDocument, md: Seq<int>, ms: Seq<int>)
    requires
        tie_keeping(
            d1.directives,
            d2.directives,
            directive_keys(d1.directives),
            directive_keys(d2.directives),
            md,
        ),
        tie_keeping(
            d1.statements,
            d2.statements,
            statement_keys(d1.statements),
            statement_keys(d2.statements),
            ms,
        ),
    ensures
        spec_canonicalize(d2) == spec_canonicalize(d1),
{
    let dk1 = directive_keys(d1.directives);
    let dk2 = directive_keys(d2.directives);
    let sk1 = statement_keys(d1.statements);
    let sk2 = statement_keys(d2.statements);
    let do1 = sorted_order(dk1);
    let do2 = sorted_order(dk2);
    let so1 = sorted_order(sk1);
    let so2 = sorted_order(sk2);
    crate::order::law_sorted_order(dk1);
    crate::order::law_sorted_order(dk2);
    crate::order::law_sorted_order(sk1);
    crate::order::law_sorted_order(sk2);
    assert forall|i: int| 0 <= i < dk2.len() implies #[trigger] dk2[i] == dk1[md[i]] by {
        assert(d2.directives[i] == d1.directives[md[i]]);
    }
    assert forall|i: int| 0 <= i < sk2.len() implies #[trigger] sk2[i] == sk1[ms[i]] by {
        assert(d2.statements[i] == d1.statements[ms[i]]);
    }
    crate::order::lemma_stable_sort_unique(dk1, dk2, md, do1, do2);
    crate::order::lemma_stable_sort_unique(sk1, sk2, ms, so1, so2);
    let dl1 = directive_lines(d1.directives);
    let dl2 = directive_lines(d2.directives);
    assert(dl2 =~= dl1) by {
        assert forall|p: int| 0 <= p < dl1.len() implies dl2[p] == dl1[p] by {
            assert(md[do2[p]] == do1[p]);
            assert(d2.directives[do2[p]] == d1.directives[do1[p]]);
        }
    }
    assert forall|p: int| 0 <= p < so1.len() implies #[trigger] d1.statements[so1[p]] == d2.statements[so2[p]] by {
        assert(ms[so2[p]] == so1[p]);
    }
    lemma_emit_same_items(dl1, d1.statements, so1, d2.statements, so2, 0, 0);
}

/// The well-known field keys, in the order canonical text lists them.
pub open spec fn priority_keys() -> Seq<Seq<char>> {
    seq!["kind"@, "id"@, "schema"@, "authority"@, "lifecycle"@]
}

proof fn lemma_priority_ranks()
    ensures
        forall|i: int| 0 <= i < 5 ==> #[trigger] field_rank(priority_keys()[i]) == i,
        forall|k: Seq<char>| !priority_keys().contains(k) ==> #[trigger] field_rank(k) == 100,
{
    reveal_strlit("kind");
    reveal_strlit("id");
    reveal_strlit("schema");
    reveal_strlit("authority");
    reveal_strlit("lifecycle");
    let pk = priority_keys();
    assert(pk[0] == "kind"@ && pk[1] == "id"@ && pk[2] == "schema"@ && pk[3] == "authority"@ && pk[4]
        == "lifecycle"@);
    assert("authority"@[0] != "lifecycle"@[0]);
    assert("schema"@.len() != "kind"@.len() && "schema"@.len() != "id"@.len());
    assert forall|k: Seq<char>| !pk.contains(k) implies #[trigger] field_rank(k) == 100 by {
        if k == "kind"@ { assert(pk[0] == k); }
        if k == "id"@ { assert(pk[1] == k); }
        if k == "schema"@ { assert(pk[2] == k); }
        if k == "authority"@ { assert(pk[3] == k); }
        if k == "lifecycle"@ { assert(pk[4] == k); }
    }
}

/// Canonical field order: among the fields of one level, `kind`, `id`,
/// `schema`, `authority` and `lifecycle` come first, in that order; every
/// other field comes after them, and those others are in key order.
pub proof fn law_field_order(stmts: Seq<SpecStatement>)
    ensures
        forall|p: int, q: int, i: int, j: int|
            #![trigger stmts[statement_order(stmts)[p]], stmts[statement_order(stmts)[q]], priority_keys()[i], priority_keys()[j]]
            0 <= p < q < statement_order(stmts).len() && 0 <= i < 5 && 0 <= j < 5
                && stmts[statement_order(stmts)[p]] is Field && stmts[statement_order(stmts)[q]] is Field
                && stmts[statement_order(stmts)[p]]->Field_0.key == priority_keys()[i]
                && stmts[statement_order(stmts)[q]]->Field_0.key == priority_keys()[j] ==> i <= j,
        forall|p: int, q: int|
            0 <= p < q < statement_order(stmts).len() && (#[trigger] stmts[statement_order(stmts)[p]]) is Field && (
            #[trigger] stmts[statement_order(stmts)[q]]) is Field && !priority_keys().contains(
                stmts[statement_order(stmts)[p]]->Field_0.key,
            ) ==> !priority_keys().contains(stmts[statement_order(stmts)[q]]->Field_0.key) && !crate::order::str_lt(
                stmts[statement_order(stmts)[q]]->Field_0.key,
                stmts[statement_order(stmts)[p]]->Field_0.key,
            ),
{
    let o = statement_order(stmts);
    let keys = statement_keys(stmts);
    crate::order::law_sorted_order(keys);
    lemma_priority_ranks();
    assert forall|p: int, q: int|
        0 <= p < q < o.len() && (#[trigger] stmts[o[p]]) is Field && (#[trigger] stmts[o[q]]) is Field
            implies field_rank(stmts[o[p]]->Field_0.key) <= field_rank(stmts[o[q]]->Field_0.key) && (field_rank(
            stmts[o[p]]->Field_0.key,
        ) == field_rank(stmts[o[q]]->Field_0.key) ==> !crate::order::strs_lt(
            seq![stmts[o[q]]->Field_0.key],
            seq![stmts[o[p]]->Field_0.key],
        )) by {
        assert(keys[o[p]] == statement_key(stmts[o[p]]));
        assert(keys[o[q]] == statement_key(stmts[o[q]]));
        assert(!crate::order::key_lt(keys[o[q]], keys[o[p]]));
    }
    assert forall|p: int, q: int|
        0 <= p < q < o.len() && (#[trigger] stmts[o[p]]) is Field && (#[trigger] stmts[o[q]]) is Field
            && !priority_keys().contains(stmts[o[p]]->Field_0.key) implies !priority_keys().contains(
            stmts[o[q]]->Field_0.key,
        ) && !crate::order::str_lt(stmts[o[q]]->Field_0.key, stmts[o[p]]->Field_0.key) by {
        let a = stmts[o[p]]->Field_0.key;
        let b = stmts[o[q]]->Field_0.key;
        if priority_keys().contains(b) {
            let j = choose|j: int| 0 <= j < priority_keys().len() && priority_keys()[j] == b;
            assert(field_rank(priority_keys()[j]) == j);
        }
        crate::order::lemma_str_order(b, a, b);
        if crate::order::str_lt(b, a) {
            assert(seq![b][0] != seq![a][0]);
        }
    }
}

/// The directive names in the order canonical text lists them; the two
/// format names share the first place.
pub open spec fn directive_names() -> Seq<Seq<char>> {
    seq!["sdif"@, "alias"@, "profile"@, "vocab"@, "base"@, "namespace"@, "include"@]
}

/// The place of a directive name in canonical order: `@sdif` and
/// `@sdif.ai` first, then the names of `directive_names` in turn, then any
/// other name.
pub open spec fn directive_place(name: Seq<char>) -> int {
    if name == "sdif.ai"@ {
        0
    } else if directive_names().contains(name) {
        choose|i: int| 0 <= i < directive_names().len() && directive_names()[i] == name
    } else {
        7
    }
}

proof fn lemma_directive_places(name: Seq<char>)
    ensures
        directive_rank(name) == if directive_place(name) < 7 { directive_place(name) } else { 100 },
{
    reveal_strlit("sdif");
    reveal_strlit("sdif.ai");
    reveal_strlit("alias");
    reveal_strlit("profile");
    reveal_strlit("vocab");
    reveal_strlit("base");
    reveal_strlit("namespace");
    reveal_strlit("include");
    let d = directive_names();
    assert(d[0] == "sdif"@ && d[1] == "alias"@ && d[2] == "profile"@ && d[3] == "vocab"@ && d[4] == "base"@
        && d[5] == "namespace"@ && d[6] == "include"@);
    assert("sdif.ai"@.len() == 7 && "include"@.len() == 7 && "profile"@.len() == 7);
    assert("sdif.ai"@[0] != "include"@[0] && "sdif.ai"@[0] != "profile"@[0] && "include"@[0] != "profile"@[0]);
    assert("alias"@[0] != "vocab"@[0]);
    assert("sdif"@[0] != "base"@[0]);
    assert(d[0].len() == 4 && d[1].len() == 5 && d[2].len() == 7 && d[3].len() == 5 && d[4].len() == 4
        && d[5].len() == 9 && d[6].len() == 7);
    assert(d[0] != d[4] && d[1] != d[3] && d[2] != d[6]);
    if d.contains(name) {
        let i = choose|i: int| 0 <= i < d.len() && d[i] == name;
        assert(d[i] == name);
        assert forall|j: int| 0 <= j < 7 && j != i implies d[j] != d[i] by {
            if (j == 0 && i == 4) || (j == 4 && i == 0) || (j == 1 && i == 3) || (j == 3 && i == 1) || (j == 2
                && i == 6) || (j == 6 && i == 2) {
            } else {
                assert(d[j].len() != d[i].len());
            }
        }
    } else {
        assert(name != d[0] && name != d[1] && name != d[2] && name != d[3] && name != d[4] && name != d[5]
            && name != d[6]);
    }
}

/// Canonical directive order: the format directive first, then aliases,
/// `@profile`, `@vocab`, `@base`, `@namespace` and `@include`, then any
/// other directive; directives of one place are in order of name, then of
/// arguments.
pub proof fn law_directive_order(dirs: Seq<SpecDirective>)
    ensures
        forall|p: int, q: int|
            0 <= p < q < sorted_order(directive_keys(dirs)).len() ==> directive_place(
                (#[trigger] dirs[sorted_order(directive_keys(dirs))[p]]).name,
            ) <= directive_place((#[trigger] dirs[sorted_order(directive_keys(dirs))[q]]).name),
        forall|p: int, q: int|
            0 <= p < q < sorted_order(directive_keys(dirs)).len() && directive_place(
                (#[trigger] dirs[sorted_order(directive_keys(dirs))[p]]).name,
            ) == directive_place((#[trigger] dirs[sorted_order(directive_keys(dirs))[q]]).name)
                ==> !crate::order::strs_lt(
                seq![dirs[sorted_order(directive_keys(dirs))[q]].name] + dirs[sorted_order(
                    directive_keys(dirs),
                )[q]].args,
                seq![dirs[sorted_order(directive_keys(dirs))[p]].name] + dirs[sorted_order(
                    directive_keys(dirs),
                )[p]].args,
            ),
{
    let keys = directive_keys(dirs);
    let o = sorted_order(keys);
    crate::order::law_sorted_order(keys);
    assert forall|p: int, q: int| 0 <= p < q < o.len() implies directive_place((#[trigger] dirs[o[p]]).name)
        <= directive_place((#[trigger] dirs[o[q]]).name) && (directive_place(dirs[o[p]].name) == directive_place(
        dirs[o[q]].name) ==> !crate::order::strs_lt(
        seq![dirs[o[q]].name] + dirs[o[q]].args,
        seq![dirs[o[p]].name] + dirs[o[p]].args,
    )) by {
        assert(keys[o[p]] == directive_key(dirs[o[p]]));
        assert(keys[o[q]] == directive_key(dirs[o[q]]));
        assert(!crate::order::key_lt(keys[o[q]], keys[o[p]]));
        lemma_directive_places(dirs[o[p]].name);
        lemma_directive_places(dirs[o[q]].name);
    }
}

} // verus!
