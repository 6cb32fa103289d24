//! Schema-driven validation of SDIF documents.
//!
//! `validate` reports, in this order: required fields that are missing,
//! fields whose value does not have the declared type, tables outside the
//! allowed list, required table columns that are missing (from
//! `required_table_columns`, then from the legacy `required_columns`),
//! relation predicates outside the allowed list, and rule functions outside
//! the allowed list.
use vstd::prelude::*;

use crate::ast::{Document, Field, Relation, Rule, SpecDocument, SpecField, SpecRelation, SpecRule, SpecTable, Table};
use crate::collections::lookup;
use crate::json::{is_decimal, is_decimal_text, is_integer_text, parse_integer};
use crate::scan::lit;
use crate::text::{chars_eq, chars_of, eq_str, push_all, push_str, string_of};
use crate::ast;

pub use crate::schema::{Schema, SchemaError};

verus! {

broadcast use {vstd::string::group_string_axioms, vstd::std_specs::vec::group_vec_axioms};

/// Severity level for a validation diagnostic.
#[derive(Debug, Clone, PartialEq, Eq)]
pub enum Severity {
    Error,
    Warning,
}

pub open spec fn severity_text(s: Severity) -> Seq<char> {
    match s {
        Severity::Error => "error"@,
        Severity::Warning => "warning"@,
    }
}

impl Severity {
    /// `error` or `warning`.
    pub fn as_text(&self) -> (s: String)
        ensures
            s@ == severity_text(*self),
    {
        match self {
            Severity::Error => lit("error"),
            Severity::Warning => lit("warning"),
        }
    }
}

/// A validation diagnostic (not a parse error).
#[derive(Debug, Clone)]
pub struct Diagnostic {
    /// Stable code, e.g. `SDIF_MISSING_FIELD`.
    pub code: String,
    /// `error` or `warning`.
    pub severity: String,
    /// JSON-path-like location, e.g. `$.id`.
    pub path: String,
    pub message: String,
    pub hint: Option<String>,
}

pub struct SpecDiagnostic {
    pub code: Seq<char>,
    pub severity: Seq<char>,
    pub path: Seq<char>,
    pub message: Seq<char>,
    pub hint: Option<Seq<char>>,
}

impl View for Diagnostic {
    type V = SpecDiagnostic;

    open spec fn view(&self) -> SpecDiagnostic {
        SpecDiagnostic {
            code: self.code@,
            severity: self.severity@,
            path: self.path@,
            message: self.message@,
            hint: match self.hint {
                Some(h) => Some(h@),
                None => None,
            },
        }
    }
}

pub open spec fn diags_view(v: Seq<Diagnostic>) -> Seq<SpecDiagnostic> {
    v.map_values(|d: Diagnostic| d@)
}

/// An error diagnostic without a hint.
pub open spec fn error_at(code: Seq<char>, path: Seq<char>, message: Seq<char>) -> SpecDiagnostic {
    SpecDiagnostic { code, severity: "error"@, path, message, hint: None }
}

// ---------------------------------------------------------------------------
// The checks
// ---------------------------------------------------------------------------

/// Whether field `f` has type `ty`: `Integer`, `Number` or `Decimal`, and
/// `Boolean` need an unquoted value of that form; any other type name
/// accepts every value.
pub open spec fn type_matches(ty: Seq<char>, f: SpecField) -> bool {
    if ty == "Integer"@ {
        !f.quoted && is_integer_text(f.value)
    } else if ty == "Number"@ || ty == "Decimal"@ {
        !f.quoted && (is_integer_text(f.value) || is_decimal_text(f.value))
    } else if ty == "Boolean"@ {
        !f.quoted && (f.value == "true"@ || f.value == "false"@)
    } else {
        true
    }
}

pub open spec fn field_keys(fields: Seq<SpecField>) -> Seq<Seq<char>> {
    fields.map_values(|f: SpecField| f.key)
}

/// A diagnostic for each required field (in schema order) that no field
/// of the document has.
pub open spec fn missing_fields(required: Seq<Seq<char>>, keys: Seq<Seq<char>>) -> Seq<SpecDiagnostic>
    decreases required.len(),
{
    if required.len() == 0 {
        Seq::empty()
    } else {
        let prev = missing_fields(required.drop_last(), keys);
        let r = required.last();
        if keys.contains(r) {
            prev
        } else {
            prev.push(
                error_at("SDIF_MISSING_FIELD"@, "$."@ + r, "required field '"@ + r + "' is missing"@),
            )
        }
    }
}

/// A diagnostic for each field (in document order) whose value does not
/// have the type the schema declares for its key.
pub open spec fn type_mismatches(fields: Seq<SpecField>, types: Seq<(Seq<char>, Seq<char>)>) -> Seq<SpecDiagnostic>
    decreases fields.len(),
{
    if fields.len() == 0 {
        Seq::empty()
    } else {
        let prev = type_mismatches(fields.drop_last(), types);
        let f = fields.last();
        match lookup(types, f.key) {
            Some(ty) => if type_matches(ty, f) {
                prev
            } else {
                prev.push(
                    error_at(
                        "SDIF_TYPE_MISMATCH"@,
                        "$."@ + f.key,
                        "field '"@ + f.key + "' must be of type "@ + ty + ", got '"@ + f.value + "'"@,
                    ),
                )
            },
            None => prev,
        }
    }
}

/// A diagnostic for each table whose name is not allowed (none when no
/// list is given).
pub open spec fn disallowed_tables(tables: Seq<SpecTable>, allowed: Seq<Seq<char>>) -> Seq<SpecDiagnostic>
    decreases tables.len(),
{
    if tables.len() == 0 || allowed.len() == 0 {
        Seq::empty()
    } else {
        let prev = disallowed_tables(tables.drop_last(), allowed);
        let n = tables.last().name;
        if allowed.contains(n) {
            prev
        } else {
            prev.push(
                error_at(
                    "SDIF_TABLE_NOT_ALLOWED"@,
                    "$."@ + n,
                    "table '"@ + n + "' is not in the allowed tables list"@,
                ),
            )
        }
    }
}

/// A diagnostic for each column of `cols` that table `t` lacks.
pub open spec fn table_missing_columns(t: SpecTable, cols: Seq<Seq<char>>) -> Seq<SpecDiagnostic>
    decreases cols.len(),
{
    if cols.len() == 0 {
        Seq::empty()
    } else {
        let prev = table_missing_columns(t, cols.drop_last());
        let c = cols.last();
        if t.columns.contains(c) {
            prev
        } else {
            prev.push(
                error_at(
                    "SDIF_MISSING_COLUMN"@,
                    "$."@ + t.name,
                    "table '"@ + t.name + "' is missing required column '"@ + c + "'"@,
                ),
            )
        }
    }
}

/// For each table (in document order), the required columns it lacks.
pub open spec fn missing_columns(tables: Seq<SpecTable>, required: Seq<(Seq<char>, Seq<Seq<char>>)>) -> Seq<
    SpecDiagnostic,
>
    decreases tables.len(),
{
    if tables.len() == 0 {
        Seq::empty()
    } else {
        let prev = missing_columns(tables.drop_last(), required);
        let t = tables.last();
        match lookup(required, t.name) {
            Some(cols) => prev + table_missing_columns(t, cols),
            None => prev,
        }
    }
}

/// A diagnostic for each relation whose predicate is not allowed (none
/// when no list is given).
pub open spec fn disallowed_predicates(rels: Seq<SpecRelation>, allowed: Seq<Seq<char>>) -> Seq<SpecDiagnostic>
    decreases rels.len(),
{
    if rels.len() == 0 || allowed.len() == 0 {
        Seq::empty()
    } else {
        let prev = disallowed_predicates(rels.drop_last(), allowed);
        let p = rels.last().predicate;
        if allowed.contains(p) {
            prev
        } else {
            prev.push(
                error_at(
                    "SDIF_PREDICATE_NOT_ALLOWED"@,
                    "$._relations"@,
                    "relation predicate '"@ + p + "' is not allowed"@,
                ),
            )
        }
    }
}

/// A diagnostic for each parsed rule whose function is not allowed (none
/// when no list is given).
pub open spec fn disallowed_functions(rules: Seq<SpecRule>, allowed: Seq<Seq<char>>) -> Seq<SpecDiagnostic>
    decreases rules.len(),
{
    if rules.len() == 0 || allowed.len() == 0 {
        Seq::empty()
    } else {
        let prev = disallowed_functions(rules.drop_last(), allowed);
        match rules.last().expression {
            Some(e) => if allowed.contains(e.function) {
                prev
            } else {
                prev.push(
                    error_at(
                        "SDIF_RULE_FUNCTION_NOT_ALLOWED"@,
                        "$._rules"@,
                        "rule function '"@ + e.function + "' is not allowed"@,
                    ),
                )
            },
            None => prev,
        }
    }
}

/// The legacy per-table column lists, by the views of their names.
pub open spec fn legacy_columns(m: Seq<(Seq<char>, Seq<String>)>) -> Seq<(Seq<char>, Seq<Seq<char>>)> {
    m.map_values(|e: (Seq<char>, Seq<String>)| (e.0, ast::strings_view(e.1)))
}

/// All diagnostics for `doc` under `schema`, in the order of the checks.
pub open spec fn spec_validate(doc: SpecDocument, schema: &Schema) -> Seq<SpecDiagnostic> {
    let fields = ast::fields_of(doc.statements);
    let tables = ast::tables_of(doc.statements);
    missing_fields(schema.required_fields@, field_keys(fields)) + type_mismatches(
        fields,
        schema.field_types@,
    ) + disallowed_tables(tables, ast::strings_view(schema.allowed_tables@)) + missing_columns(
        tables,
        schema.required_table_columns@,
    ) + missing_columns(tables, legacy_columns(schema.required_columns@)) + disallowed_predicates(
        ast::relations_of(doc.statements),
        ast::strings_view(schema.allowed_predicates@),
    ) + disallowed_functions(ast::rules_of(doc.statements), ast::strings_view(schema.allowed_rule_functions@))
}


// ---------------------------------------------------------------------------
// Executable checks
// ---------------------------------------------------------------------------

fn make_error(code: &str, path: Vec<char>, message: Vec<char>) -> (d: Diagnostic)
    ensures
        d@ == error_at(code@, path@, message@),
{
    Diagnostic {
        code: lit(code),
        severity: Severity::Error.as_text(),
        path: string_of(&path),
        message: string_of(&message),
        hint: None,
    }
}

/// `$.` followed by `name`.
fn path_of(name: &[char]) -> (p: Vec<char>)
    ensures
        p@ == "$."@ + name@,
{
    let mut p = chars_of("$.");
    push_all(&mut p, name);
    p
}

/// Whether `s` is one of `v`.
fn contains_string(v: &Vec<String>, s: &[char]) -> (b: bool)
    ensures
        b == ast::strings_view(v@).contains(s@),
{
    let ghost vv = ast::strings_view(v@);
    let mut i: usize = 0;
    while i < v.len()
        invariant
            0 <= i <= v@.len(),
            vv == ast::strings_view(v@),
            forall|j: int| 0 <= j < i ==> vv[j] != s@,
        decreases v@.len() - i,
    {
        assert(vv[i as int] == v@[i as int]@);
        let c = chars_of(v[i].as_str());
        if chars_eq(&c, s) {
            return true;
        }
        i += 1;
    }
    false
}

/// Whether `s` is one of `v`.
fn contains_chars(v: &Vec<Vec<char>>, s: &[char]) -> (b: bool)
    ensures
        b == crate::scan::vecs_view(v@).contains(s@),
{
    let ghost vv = crate::scan::vecs_view(v@);
    let mut i: usize = 0;
    while i < v.len()
        invariant
            0 <= i <= v@.len(),
            vv == crate::scan::vecs_view(v@),
            forall|j: int| 0 <= j < i ==> vv[j] != s@,
        decreases v@.len() - i,
    {
        assert(vv[i as int] == v@[i as int]@);
        if chars_eq(&v[i], s) {
            return true;
        }
        i += 1;
    }
    false
}

/// Whether field `f` has type `ty` (see `type_matches`).
fn field_has_type(ty: &[char], f: &Field) -> (b: bool)
    ensures
        b == type_matches(ty@, f@),
{
    let value = chars_of(f.value.as_str());
    if eq_str(ty, "Integer") {
        !f.quoted && parse_integer_shape(&value)
    } else if eq_str(ty, "Number") || eq_str(ty, "Decimal") {
        !f.quoted && (parse_integer_shape(&value) || is_decimal(&value))
    } else if eq_str(ty, "Boolean") {
        !f.quoted && (eq_str(&value, "true") || eq_str(&value, "false"))
    } else {
        true
    }
}

fn parse_integer_shape(s: &[char]) -> (b: bool)
    ensures
        b == is_integer_text(s@),
{
    crate::json::is_integer(s)
}

fn check_required_fields(keys: &Vec<Vec<char>>, schema: &Schema, out: &mut Vec<Diagnostic>)
    ensures
        diags_view(final(out)@) == diags_view(old(out)@) + missing_fields(
            schema.required_fields@,
            crate::scan::vecs_view(keys@),
        ),
{
    let ghost o0 = diags_view(out@);
    let ghost req = schema.required_fields@;
    let ghost kv = crate::scan::vecs_view(keys@);
    let mut i: usize = 0;
    while i < schema.required_fields.len()
        invariant
            0 <= i <= req.len(),
            req == schema.required_fields@,
            kv == crate::scan::vecs_view(keys@),
            diags_view(out@) == o0 + missing_fields(req.take(i as int), kv),
        decreases req.len() - i,
    {
        assert(req.take(i + 1 as int).drop_last() == req.take(i as int));
        let r = schema.required_fields.get(i);
        let rc = chars_of(r.as_str());
        if !contains_chars(keys, &rc) {
            let mut m = chars_of("required field '");
            push_all(&mut m, &rc);
            push_str(&mut m, "' is missing");
            let d = make_error("SDIF_MISSING_FIELD", path_of(&rc), m);
            let ghost before = diags_view(out@);
            out.push(d);
            assert(diags_view(out@) == before.push(d@));
        }
        i += 1;
    }
    assert(req.take(req.len() as int) == req);
}

fn check_field_types(fields: &Vec<&Field>, schema: &Schema, out: &mut Vec<Diagnostic>)
    ensures
        diags_view(final(out)@) == diags_view(old(out)@) + type_mismatches(
            fields@.map_values(|x: &Field| x@),
            schema.field_types@,
        ),
{
    let ghost o0 = diags_view(out@);
    let ghost fv = fields@.map_values(|x: &Field| x@);
    let mut i: usize = 0;
    while i < fields.len()
        invariant
            0 <= i <= fields@.len(),
            fv == fields@.map_values(|x: &Field| x@),
            diags_view(out@) == o0 + type_mismatches(fv.take(i as int), schema.field_types@),
        decreases fields@.len() - i,
    {
        assert(fv.take(i + 1 as int).drop_last() == fv.take(i as int));
        let f = fields[i];
        assert(fv[i as int] == f@);
        match schema.field_types.get(f.key.as_str()) {
            Some(ty) => {
                let tc = chars_of(ty.as_str());
                if !field_has_type(&tc, f) {
                    let key = chars_of(f.key.as_str());
                    let value = chars_of(f.value.as_str());
                    let mut m = chars_of("field '");
                    push_all(&mut m, &key);
                    push_str(&mut m, "' must be of type ");
                    push_all(&mut m, &tc);
                    push_str(&mut m, ", got '");
                    push_all(&mut m, &value);
                    push_str(&mut m, "'");
                    let d = make_error("SDIF_TYPE_MISMATCH", path_of(&key), m);
                    let ghost before = diags_view(out@);
                    out.push(d);
                    assert(diags_view(out@) == before.push(d@));
                }
            },
            None => {},
        }
        i += 1;
    }
    assert(fv.take(fields@.len() as int) == fv);
}

fn check_allowed_tables(tables: &Vec<&Table>, schema: &Schema, out: &mut Vec<Diagnostic>)
    ensures
        diags_view(final(out)@) == diags_view(old(out)@) + disallowed_tables(
            tables@.map_values(|x: &Table| x@),
            ast::strings_view(schema.allowed_tables@),
        ),
{
    let ghost o0 = diags_view(out@);
    let ghost tv = tables@.map_values(|x: &Table| x@);
    let ghost allowed = ast::strings_view(schema.allowed_tables@);
    if schema.allowed_tables.len() == 0 {
        assert(disallowed_tables(tv, allowed) =~= Seq::<SpecDiagnostic>::empty());
        assert(diags_view(out@) =~= o0 + Seq::<SpecDiagnostic>::empty());
        return;
    }
    let mut i: usize = 0;
    while i < tables.len()
        invariant
            0 <= i <= tables@.len(),
            tv == tables@.map_values(|x: &Table| x@),
            allowed == ast::strings_view(schema.allowed_tables@),
            allowed.len() > 0,
            diags_view(out@) == o0 + disallowed_tables(tv.take(i as int), allowed),
        decreases tables@.len() - i,
    {
        assert(tv.take(i + 1 as int).drop_last() == tv.take(i as int));
        let t = tables[i];
        assert(tv[i as int] == t@);
        let name = chars_of(t.name.as_str());
        if !contains_string(&schema.allowed_tables, &name) {
            let mut m = chars_of("table '");
            push_all(&mut m, &name);
            push_str(&mut m, "' is not in the allowed tables list");
            let d = make_error("SDIF_TABLE_NOT_ALLOWED", path_of(&name), m);
            let ghost before = diags_view(out@);
            out.push(d);
            assert(diags_view(out@) == before.push(d@));
        }
        i += 1;
    }
    assert(tv.take(tables@.len() as int) == tv);
}

/// Diagnostics for the columns of `cols` that `t` lacks.
fn check_table_columns(t: &Table, cols: &Vec<Vec<char>>, out: &mut Vec<Diagnostic>)
    ensures
        diags_view(final(out)@) == diags_view(old(out)@) + table_missing_columns(t@, crate::scan::vecs_view(cols@)),
{
    let ghost o0 = diags_view(out@);
    let ghost cv = crate::scan::vecs_view(cols@);
    let name = chars_of(t.name.as_str());
    let mut i: usize = 0;
    while i < cols.len()
        invariant
            0 <= i <= cols@.len(),
            cv == crate::scan::vecs_view(cols@),
            name@ == t.name@,
            diags_view(out@) == o0 + table_missing_columns(t@, cv.take(i as int)),
        decreases cols@.len() - i,
    {
        assert(cv.take(i + 1 as int).drop_last() == cv.take(i as int));
        assert(cv[i as int] == cols@[i as int]@);
        if !contains_string(&t.columns, &cols[i]) {
            let mut m = chars_of("table '");
            push_all(&mut m, &name);
            push_str(&mut m, "' is missing required column '");
            push_all(&mut m, &cols[i]);
            push_str(&mut m, "'");
            let d = make_error("SDIF_MISSING_COLUMN", path_of(&name), m);
            let ghost before = diags_view(out@);
            out.push(d);
            assert(diags_view(out@) == before.push(d@));
        }
        i += 1;
    }
    assert(cv.take(cols@.len() as int) == cv);
}

fn check_required_table_columns(tables: &Vec<&Table>, schema: &Schema, out: &mut Vec<Diagnostic>)
    ensures
        diags_view(final(out)@) == diags_view(old(out)@) + missing_columns(
            tables@.map_values(|x: &Table| x@),
            schema.required_table_columns@,
        ),
{
    let ghost o0 = diags_view(out@);
    let ghost tv = tables@.map_values(|x: &Table| x@);
    let mut i: usize = 0;
    while i < tables.len()
        invariant
            0 <= i <= tables@.len(),
            tv == tables@.map_values(|x: &Table| x@),
            diags_view(out@) == o0 + missing_columns(tv.take(i as int), schema.required_table_columns@),
        decreases tables@.len() - i,
    {
        assert(tv.take(i + 1 as int).drop_last() == tv.take(i as int));
        let t = tables[i];
        assert(tv[i as int] == t@);
        let ghost before = diags_view(out@);
        match schema.required_table_columns.get(t.name.as_str()) {
            Some(set) => {
                let mut cols: Vec<Vec<char>> = Vec::new();
                let mut k: usize = 0;
                while k < set.len()
                    invariant
                        0 <= k <= set@.len(),
                        crate::scan::vecs_view(cols@) == set@.take(k as int),
                    decreases set@.len() - k,
                {
                    let c = chars_of(set.get(k).as_str());
                    let ghost cb = crate::scan::vecs_view(cols@);
                    cols.push(c);
                    assert(crate::scan::vecs_view(cols@) == cb.push(c@));
                    k += 1;
                    assert(set@.take(k as int) == set@.take(k - 1 as int).push(set@[k - 1]));
                }
                assert(set@.take(set@.len() as int) == set@);
                check_table_columns(t, &cols, out);
                assert(diags_view(out@) == before + table_missing_columns(t@, set@));
            },
            None => {},
        }
        i += 1;
    }
    assert(tv.take(tables@.len() as int) == tv);
}

fn check_legacy_columns(tables: &Vec<&Table>, schema: &Schema, out: &mut Vec<Diagnostic>)
    ensures
        diags_view(final(out)@) == diags_view(old(out)@) + missing_columns(
            tables@.map_values(|x: &Table| x@),
            legacy_columns(schema.required_columns@),
        ),
{
    let ghost o0 = diags_view(out@);
    let ghost tv = tables@.map_values(|x: &Table| x@);
    let ghost m = schema.required_columns@;
    let ghost lm = legacy_columns(m);
    let mut i: usize = 0;
    while i < tables.len()
        invariant
            0 <= i <= tables@.len(),
            tv == tables@.map_values(|x: &Table| x@),
            m == schema.required_columns@,
            lm == legacy_columns(m),
            diags_view(out@) == o0 + missing_columns(tv.take(i as int), lm),
        decreases tables@.len() - i,
    {
        assert(tv.take(i + 1 as int).drop_last() == tv.take(i as int));
        let t = tables[i];
        assert(tv[i as int] == t@);
        proof {
            let k = t.name@;
            assert forall|q: int| 0 <= q < m.len() implies (#[trigger] m[q].0 == k <==> lm[q].0 == k) by {}
            crate::collections::lemma_key_index_same(m, lm, k, 0);
            crate::collections::lemma_key_index(m, k, 0);
        }
        let ghost before = diags_view(out@);
        match schema.required_columns.get(t.name.as_str()) {
            Some(v) => {
                let mut cols: Vec<Vec<char>> = Vec::new();
                let mut k: usize = 0;
                while k < v.len()
                    invariant
                        0 <= k <= v@.len(),
                        crate::scan::vecs_view(cols@) == ast::strings_view(v@).take(k as int),
                    decreases v@.len() - k,
                {
                    let c = chars_of(v[k].as_str());
                    let ghost cb = crate::scan::vecs_view(cols@);
                    cols.push(c);
                    assert(crate::scan::vecs_view(cols@) == cb.push(c@));
                    k += 1;
                    assert(ast::strings_view(v@).take(k as int) == ast::strings_view(v@).take(k - 1 as int).push(
                        v@[k - 1]@,
                    ));
                }
                assert(ast::strings_view(v@).take(v@.len() as int) == ast::strings_view(v@));
                check_table_columns(t, &cols, out);
                assert(diags_view(out@) == before + table_missing_columns(t@, ast::strings_view(v@)));
            },
            None => {},
        }
        i += 1;
    }
    assert(tv.take(tables@.len() as int) == tv);
}

fn check_allowed_predicates(rels: &Vec<&Relation>, schema: &Schema, out: &mut Vec<Diagnostic>)
    ensures
        diags_view(final(out)@) == diags_view(old(out)@) + disallowed_predicates(
            rels@.map_values(|x: &Relation| x@),
            ast::strings_view(schema.allowed_predicates@),
        ),
{
    let ghost o0 = diags_view(out@);
    let ghost rv = rels@.map_values(|x: &Relation| x@);
    let ghost allowed = ast::strings_view(schema.allowed_predicates@);
    if schema.allowed_predicates.len() == 0 {
        assert(disallowed_predicates(rv, allowed) =~= Seq::<SpecDiagnostic>::empty());
        assert(diags_view(out@) =~= o0 + Seq::<SpecDiagnostic>::empty());
        return;
    }
    let mut i: usize = 0;
    while i < rels.len()
        invariant
            0 <= i <= rels@.len(),
            rv == rels@.map_values(|x: &Relation| x@),
            allowed == ast::strings_view(schema.allowed_predicates@),
            allowed.len() > 0,
            diags_view(out@) == o0 + disallowed_predicates(rv.take(i as int), allowed),
        decreases rels@.len() - i,
    {
        assert(rv.take(i + 1 as int).drop_last() == rv.take(i as int));
        let r = rels[i];
        assert(rv[i as int] == r@);
        let p = chars_of(r.predicate.as_str());
        if !contains_string(&schema.allowed_predicates, &p) {
            let mut m = chars_of("relation predicate '");
            push_all(&mut m, &p);
            push_str(&mut m, "' is not allowed");
            let d = make_error("SDIF_PREDICATE_NOT_ALLOWED", chars_of("$._relations"), m);
            let ghost before = diags_view(out@);
            out.push(d);
            assert(diags_view(out@) == before.push(d@));
        }
        i += 1;
    }
    assert(rv.take(rels@.len() as int) == rv);
}

fn check_allowed_functions(rules: &Vec<&Rule>, schema: &Schema, out: &mut Vec<Diagnostic>)
    ensures
        diags_view(final(out)@) == diags_view(old(out)@) + disallowed_functions(
            rules@.map_values(|x: &Rule| x@),
            ast::strings_view(schema.allowed_rule_functions@),
        ),
{
    let ghost o0 = diags_view(out@);
    let ghost rv = rules@.map_values(|x: &Rule| x@);
    let ghost allowed = ast::strings_view(schema.allowed_rule_functions@);
    if schema.allowed_rule_functions.len() == 0 {
        assert(disallowed_functions(rv, allowed) =~= Seq::<SpecDiagnostic>::empty());
        assert(diags_view(out@) =~= o0 + Seq::<SpecDiagnostic>::empty());
        return;
    }
    let mut i: usize = 0;
    while i < rules.len()
        invariant
            0 <= i <= rules@.len(),
            rv == rules@.map_values(|x: &Rule| x@),
            allowed == ast::strings_view(schema.allowed_rule_functions@),
            allowed.len() > 0,
            diags_view(out@) == o0 + disallowed_functions(rv.take(i as int), allowed),
        decreases rules@.len() - i,
    {
        assert(rv.take(i + 1 as int).drop_last() == rv.take(i as int));
        let r = rules[i];
        assert(rv[i as int] == r@);
        match &r.expression {
            Some(e) => {
                let f = chars_of(e.function.as_str());
                if !contains_string(&schema.allowed_rule_functions, &f) {
                    let mut m = chars_of("rule function '");
                    push_all(&mut m, &f);
                    push_str(&mut m, "' is not allowed");
                    let d = make_error("SDIF_RULE_FUNCTION_NOT_ALLOWED", chars_of("$._rules"), m);
                    let ghost before = diags_view(out@);
                    out.push(d);
                    assert(diags_view(out@) == before.push(d@));
                }
            },
            None => {},
        }
        i += 1;
    }
    assert(rv.take(rules@.len() as int) == rv);
}

/// Validate a parsed Document against a Schema. Returns diagnostics
/// (empty = valid).
pub fn validate(doc: &Document, schema: &Schema) -> (r: Vec<Diagnostic>)
    ensures
        diags_view(r@) == spec_validate(doc@, schema),
{
    let mut out: Vec<Diagnostic> = Vec::new();
    let fields = doc.fields();
    let mut keys: Vec<Vec<char>> = Vec::new();
    let ghost fv = fields@.map_values(|x: &Field| x@);
    let mut i: usize = 0;
    while i < fields.len()
        invariant
            0 <= i <= fields@.len(),
            fv == fields@.map_values(|x: &Field| x@),
            crate::scan::vecs_view(keys@) == field_keys(fv).take(i as int),
        decreases fields@.len() - i,
    {
        assert(fv[i as int] == fields@[i as int]@);
        let k = chars_of(fields[i].key.as_str());
        let ghost kb = crate::scan::vecs_view(keys@);
        keys.push(k);
        assert(crate::scan::vecs_view(keys@) == kb.push(k@));
        i += 1;
        assert(field_keys(fv).take(i as int) == field_keys(fv).take(i - 1 as int).push(fv[i - 1].key));
    }
    assert(field_keys(fv).take(fields@.len() as int) == field_keys(fv));
    assert(diags_view(out@) =~= Seq::<SpecDiagnostic>::empty());
    check_required_fields(&keys, schema, &mut out);
    check_field_types(&fields, schema, &mut out);
    let tables = doc.tables();
    check_allowed_tables(&tables, schema, &mut out);
    check_required_table_columns(&tables, schema, &mut out);
    check_legacy_columns(&tables, schema, &mut out);
    let rels = doc.relations();
    check_allowed_predicates(&rels, schema, &mut out);
    let rules = doc.rules();
    check_allowed_functions(&rules, schema, &mut out);
    out
}


// ---------------------------------------------------------------------------
// Laws
// ---------------------------------------------------------------------------

proof fn lemma_no_types_no_mismatches(fields: Seq<SpecField>, types: Seq<(Seq<char>, Seq<char>)>)
    requires
        types.len() == 0,
    ensures
        type_mismatches(fields, types) == Seq::<SpecDiagnostic>::empty(),
    decreases fields.len(),
{
    if fields.len() > 0 {
        lemma_no_types_no_mismatches(fields.drop_last(), types);
    }
}

proof fn lemma_no_requirements_no_missing_columns(
    tables: Seq<SpecTable>,
    required: Seq<(Seq<char>, Seq<Seq<char>>)>,
)
    requires
        required.len() == 0,
    ensures
        missing_columns(tables, required) == Seq::<SpecDiagnostic>::empty(),
    decreases tables.len(),
{
    if tables.len() > 0 {
        lemma_no_requirements_no_missing_columns(tables.drop_last(), required);
    }
}

/// A schema that requires and restricts nothing (such as
/// `Schema::default()`) reports no diagnostic for any document.
pub proof fn law_empty_schema_accepts_all(doc: SpecDocument, schema: Schema)
    requires
        schema.required_fields@.len() == 0,
        schema.field_types@.len() == 0,
        schema.required_table_columns@.len() == 0,
        schema.allowed_tables@.len() == 0,
        schema.required_columns@.len() == 0,
        schema.allowed_predicates@.len() == 0,
        schema.allowed_rule_functions@.len() == 0,
    ensures
        spec_validate(doc, &schema) == Seq::<SpecDiagnostic>::empty(),
{
    let fields = ast::fields_of(doc.statements);
    let tables = ast::tables_of(doc.statements);
    lemma_no_types_no_mismatches(fields, schema.field_types@);
    lemma_no_requirements_no_missing_columns(tables, schema.required_table_columns@);
    lemma_no_requirements_no_missing_columns(tables, legacy_columns(schema.required_columns@));
    assert(spec_validate(doc, &schema) =~= Seq::<SpecDiagnostic>::empty());
}

/// Every diagnostic of `ds` has code `c`.
pub open spec fn all_code(ds: Seq<SpecDiagnostic>, c: Seq<char>) -> bool {
    forall|i: int| 0 <= i < ds.len() ==> (#[trigger] ds[i]).code == c
}

proof fn lemma_all_code_push(ds: Seq<SpecDiagnostic>, d: SpecDiagnostic, c: Seq<char>)
    requires
        all_code(ds, c),
        d.code == c,
    ensures
        all_code(ds.push(d), c),
{
    assert forall|i: int| 0 <= i < ds.push(d).len() implies (#[trigger] ds.push(d)[i]).code == c by {
        if i < ds.len() {
            assert(ds.push(d)[i] == ds[i]);
        }
    }
}

proof fn lemma_all_code_concat(a: Seq<SpecDiagnostic>, b: Seq<SpecDiagnostic>, c: Seq<char>)
    requires
        all_code(a, c),
        all_code(b, c),
    ensures
        all_code(a + b, c),
{
    assert forall|i: int| 0 <= i < (a + b).len() implies (#[trigger] (a + b)[i]).code == c by {
        if i < a.len() {
            assert((a + b)[i] == a[i]);
        } else {
            assert((a + b)[i] == b[i - a.len()]);
        }
    }
}

proof fn lemma_missing_fields_code(required: Seq<Seq<char>>, keys: Seq<Seq<char>>)
    ensures
        all_code(missing_fields(required, keys), "SDIF_MISSING_FIELD"@),
    decreases required.len(),
{
    if required.len() > 0 {
        lemma_missing_fields_code(required.drop_last(), keys);
        let prev = missing_fields(required.drop_last(), keys);
        let r = required.last();
        lemma_all_code_push(prev, error_at("SDIF_MISSING_FIELD"@, "$."@ + r, "required field '"@ + r + "' is missing"@), "SDIF_MISSING_FIELD"@);
    }
}

proof fn lemma_type_mismatches_code(fields: Seq<SpecField>, types: Seq<(Seq<char>, Seq<char>)>)
    ensures
        all_code(type_mismatches(fields, types), "SDIF_TYPE_MISMATCH"@),
    decreases fields.len(),
{
    if fields.len() > 0 {
        lemma_type_mismatches_code(fields.drop_last(), types);
        let prev = type_mismatches(fields.drop_last(), types);
        let f = fields.last();
        match lookup(types, f.key) {
            Some(ty) => {
                lemma_all_code_push(
                    prev,
                    error_at(
                        "SDIF_TYPE_MISMATCH"@,
                        "$."@ + f.key,
                        "field '"@ + f.key + "' must be of type "@ + ty + ", got '"@ + f.value + "'"@,
                    ),
                    "SDIF_TYPE_MISMATCH"@,
                );
            },
            None => {},
        }
    }
}

proof fn lemma_disallowed_tables_code(tables: Seq<SpecTable>, allowed: Seq<Seq<char>>)
    ensures
        all_code(disallowed_tables(tables, allowed), "SDIF_TABLE_NOT_ALLOWED"@),
    decreases tables.len(),
{
    if tables.len() > 0 && allowed.len() > 0 {
        lemma_disallowed_tables_code(tables.drop_last(), allowed);
        let prev = disallowed_tables(tables.drop_last(), allowed);
        let n = tables.last().name;
        lemma_all_code_push(
            prev,
            error_at("SDIF_TABLE_NOT_ALLOWED"@, "$."@ + n, "table '"@ + n + "' is not in the allowed tables list"@),
            "SDIF_TABLE_NOT_ALLOWED"@,
        );
    }
}

proof fn lemma_table_missing_columns_code(t: SpecTable, cols: Seq<Seq<char>>)
    ensures
        all_code(table_missing_columns(t, cols), "SDIF_MISSING_COLUMN"@),
    decreases cols.len(),
{
    if cols.len() > 0 {
        lemma_table_missing_columns_code(t, cols.drop_last());
        let prev = table_missing_columns(t, cols.drop_last());
        let c = cols.last();
        lemma_all_code_push(
            prev,
            error_at("SDIF_MISSING_COLUMN"@, "$."@ + t.name, "table '"@ + t.name + "' is missing required column '"@ + c + "'"@),
            "SDIF_MISSING_COLUMN"@,
        );
    }
}

proof fn lemma_missing_columns_code(tables: Seq<SpecTable>, required: Seq<(Seq<char>, Seq<Seq<char>>)>)
    ensures
        all_code(missing_columns(tables, required), "SDIF_MISSING_COLUMN"@),
    decreases tables.len(),
{
    if tables.len() > 0 {
        lemma_missing_columns_code(tables.drop_last(), required);
        let t = tables.last();
        match lookup(required, t.name) {
            Some(cols) => {
                lemma_table_missing_columns_code(t, cols);
                lemma_all_code_concat(missing_columns(tables.drop_last(), required), table_missing_columns(t, cols), "SDIF_MISSING_COLUMN"@);
            },
            None => {},
        }
    }
}

proof fn lemma_disallowed_functions_code(rules: Seq<SpecRule>, allowed: Seq<Seq<char>>)
    ensures
        all_code(disallowed_functions(rules, allowed), "SDIF_RULE_FUNCTION_NOT_ALLOWED"@),
    decreases rules.len(),
{
    if rules.len() > 0 && allowed.len() > 0 {
        lemma_disallowed_functions_code(rules.drop_last(), allowed);
        let prev = disallowed_functions(rules.drop_last(), allowed);
        match rules.last().expression {
            Some(e) => {
                lemma_all_code_push(
                    prev,
                    error_at("SDIF_RULE_FUNCTION_NOT_ALLOWED"@, "$._rules"@, "rule function '"@ + e.function + "' is not allowed"@),
                    "SDIF_RULE_FUNCTION_NOT_ALLOWED"@,
                );
            },
            None => {},
        }
    }
}

/// No diagnostic of `ds` has code `c`.
pub open spec fn no_code(ds: Seq<SpecDiagnostic>, c: Seq<char>) -> bool {
    forall|i: int| 0 <= i < ds.len() ==> (#[trigger] ds[i]).code != c
}

proof fn lemma_no_code(ds: Seq<SpecDiagnostic>, c1: Seq<char>, c: Seq<char>)
    requires
        all_code(ds, c1),
        c1 != c,
    ensures
        no_code(ds, c),
{
    assert forall|i: int| 0 <= i < ds.len() implies (#[trigger] ds[i]).code != c by {
        assert(ds[i].code == c1);
    }
}

proof fn lemma_no_code_concat(a: Seq<SpecDiagnostic>, b: Seq<SpecDiagnostic>, c: Seq<char>)
    requires
        no_code(a, c),
        no_code(b, c),
    ensures
        no_code(a + b, c),
{
    assert forall|i: int| 0 <= i < (a + b).len() implies (#[trigger] (a + b)[i]).code != c by {
        if i < a.len() {
            assert((a + b)[i] == a[i]);
        } else {
            assert((a + b)[i] == b[i - a.len()]);
        }
    }
}

/// The message of a refused relation predicate.
pub open spec fn predicate_message(p: Seq<char>) -> Seq<char> {
    "relation predicate '"@ + p + "' is not allowed"@
}

proof fn lemma_disallowed_predicates(rels: Seq<SpecRelation>, allowed: Seq<Seq<char>>)
    ensures
        forall|i: int|
            0 <= i < disallowed_predicates(rels, allowed).len() ==> exists|k: int|
                0 <= k < rels.len() && !allowed.contains(rels[k].predicate) && #[trigger] disallowed_predicates(
                    rels,
                    allowed,
                )[i] == error_at("SDIF_PREDICATE_NOT_ALLOWED"@, "$._relations"@, predicate_message(rels[k].predicate)),
        forall|k: int|
            0 <= k < rels.len() && allowed.len() > 0 && !allowed.contains(#[trigger] rels[k].predicate) ==> exists|i: int|
                0 <= i < disallowed_predicates(rels, allowed).len() && disallowed_predicates(rels, allowed)[i]
                    == error_at("SDIF_PREDICATE_NOT_ALLOWED"@, "$._relations"@, predicate_message(rels[k].predicate)),
    decreases rels.len(),
{
    if rels.len() > 0 && allowed.len() > 0 {
        let init = rels.drop_last();
        lemma_disallowed_predicates(init, allowed);
        let prev = disallowed_predicates(init, allowed);
        let out = disallowed_predicates(rels, allowed);
        let p = rels.last().predicate;
        let d = error_at("SDIF_PREDICATE_NOT_ALLOWED"@, "$._relations"@, predicate_message(p));
        assert(d == error_at(
            "SDIF_PREDICATE_NOT_ALLOWED"@,
            "$._relations"@,
            "relation predicate '"@ + p + "' is not allowed"@,
        ));
        if allowed.contains(p) {
            assert(out == prev);
        } else {
            assert(out == prev.push(d));
        }
        assert forall|i: int| 0 <= i < out.len() implies exists|k: int|
            0 <= k < rels.len() && !allowed.contains(rels[k].predicate) && #[trigger] out[i] == error_at(
                "SDIF_PREDICATE_NOT_ALLOWED"@,
                "$._relations"@,
                predicate_message(rels[k].predicate),
            ) by {
            if i < prev.len() {
                assert(out[i] == prev[i]);
                let k = choose|k: int|
                    0 <= k < init.len() && !allowed.contains(init[k].predicate) && #[trigger] prev[i] == error_at(
                        "SDIF_PREDICATE_NOT_ALLOWED"@,
                        "$._relations"@,
                        predicate_message(init[k].predicate),
                    );
                assert(rels[k] == init[k]);
            } else {
                assert(rels[rels.len() - 1] == rels.last());
            }
        }
        assert forall|k: int|
            0 <= k < rels.len() && allowed.len() > 0 && !allowed.contains(#[trigger] rels[k].predicate) implies exists|i: int|
                0 <= i < out.len() && out[i] == error_at(
                    "SDIF_PREDICATE_NOT_ALLOWED"@,
                    "$._relations"@,
                    predicate_message(rels[k].predicate),
                ) by {
            if k < init.len() {
                assert(rels[k] == init[k]);
                assert(!allowed.contains(init[k].predicate));
                let i = choose|i: int|
                    0 <= i < prev.len() && prev[i] == error_at(
                        "SDIF_PREDICATE_NOT_ALLOWED"@,
                        "$._relations"@,
                        predicate_message(init[k].predicate),
                    );
                assert(out[i] == prev[i]);
            } else {
                assert(rels[k] == rels.last());
                assert(out[prev.len() as int] == d);
            }
        }
    }
}

/// Relation predicates are checked against the schema's allowed list: each
/// `SDIF_PREDICATE_NOT_ALLOWED` diagnostic names the predicate of a relation
/// of the document that the (non-empty) list does not hold, and every such
/// relation gets one. So a document whose predicates are all allowed gets
/// none.
pub proof fn law_predicate_diagnostics(doc: SpecDocument, schema: Schema)
    ensures
        forall|i: int|
            0 <= i < spec_validate(doc, &schema).len() && (#[trigger] spec_validate(doc, &schema)[i]).code
                == "SDIF_PREDICATE_NOT_ALLOWED"@ ==> exists|k: int|
                0 <= k < ast::relations_of(doc.statements).len() && !ast::strings_view(
                    schema.allowed_predicates@,
                ).contains(ast::relations_of(doc.statements)[k].predicate) && spec_validate(doc, &schema)[i].message
                    == predicate_message(ast::relations_of(doc.statements)[k].predicate),
        forall|k: int|
            0 <= k < ast::relations_of(doc.statements).len() && schema.allowed_predicates@.len() > 0
                && !ast::strings_view(schema.allowed_predicates@).contains(
                #[trigger] ast::relations_of(doc.statements)[k].predicate,
            ) ==> exists|i: int|
                0 <= i < spec_validate(doc, &schema).len() && spec_validate(doc, &schema)[i].code
                    == "SDIF_PREDICATE_NOT_ALLOWED"@ && spec_validate(doc, &schema)[i].message == predicate_message(
                    ast::relations_of(doc.statements)[k].predicate,
                ),
{
    reveal_strlit("SDIF_PREDICATE_NOT_ALLOWED");
    reveal_strlit("SDIF_MISSING_FIELD");
    reveal_strlit("SDIF_TYPE_MISMATCH");
    reveal_strlit("SDIF_TABLE_NOT_ALLOWED");
    reveal_strlit("SDIF_MISSING_COLUMN");
    reveal_strlit("SDIF_RULE_FUNCTION_NOT_ALLOWED");
    let fields = ast::fields_of(doc.statements);
    let tables = ast::tables_of(doc.statements);
    let rels = ast::relations_of(doc.statements);
    let allowed = ast::strings_view(schema.allowed_predicates@);
    let a = missing_fields(schema.required_fields@, field_keys(fields));
    let b = type_mismatches(fields, schema.field_types@);
    let c = disallowed_tables(tables, ast::strings_view(schema.allowed_tables@));
    let d = missing_columns(tables, schema.required_table_columns@);
    let e = missing_columns(tables, legacy_columns(schema.required_columns@));
    let f = disallowed_predicates(rels, allowed);
    let g = disallowed_functions(ast::rules_of(doc.statements), ast::strings_view(schema.allowed_rule_functions@));
    lemma_missing_fields_code(schema.required_fields@, field_keys(fields));
    lemma_type_mismatches_code(fields, schema.field_types@);
    lemma_disallowed_tables_code(tables, ast::strings_view(schema.allowed_tables@));
    lemma_missing_columns_code(tables, schema.required_table_columns@);
    lemma_missing_columns_code(tables, legacy_columns(schema.required_columns@));
    lemma_disallowed_functions_code(ast::rules_of(doc.statements), ast::strings_view(schema.allowed_rule_functions@));
    lemma_disallowed_predicates(rels, allowed);
    let all = spec_validate(doc, &schema);
    let pre = a + b + c + d + e;
    assert(all == pre + f + g);
    assert(allowed.len() == schema.allowed_predicates@.len());
    let pc = "SDIF_PREDICATE_NOT_ALLOWED"@;
    assert("SDIF_MISSING_FIELD"@.len() != pc.len() && "SDIF_TYPE_MISMATCH"@.len() != pc.len()
        && "SDIF_TABLE_NOT_ALLOWED"@.len() != pc.len() && "SDIF_MISSING_COLUMN"@.len() != pc.len()
        && "SDIF_RULE_FUNCTION_NOT_ALLOWED"@.len() != pc.len());
    lemma_no_code(a, "SDIF_MISSING_FIELD"@, pc);
    lemma_no_code(b, "SDIF_TYPE_MISMATCH"@, pc);
    lemma_no_code(c, "SDIF_TABLE_NOT_ALLOWED"@, pc);
    lemma_no_code(d, "SDIF_MISSING_COLUMN"@, pc);
    lemma_no_code(e, "SDIF_MISSING_COLUMN"@, pc);
    lemma_no_code(g, "SDIF_RULE_FUNCTION_NOT_ALLOWED"@, pc);
    lemma_no_code_concat(a, b, pc);
    lemma_no_code_concat(a + b, c, pc);
    lemma_no_code_concat(a + b + c, d, pc);
    lemma_no_code_concat(a + b + c + d, e, pc);
    assert forall|i: int| 0 <= i < all.len() && (#[trigger] all[i]).code == "SDIF_PREDICATE_NOT_ALLOWED"@ implies exists|k: int|
        0 <= k < rels.len() && !allowed.contains(rels[k].predicate) && all[i].message == predicate_message(rels[k].predicate) by {
        if i < pre.len() {
            assert(all[i] == pre[i]);
            assert(pre[i].code != pc);
        } else if i < pre.len() + f.len() {
            assert(all[i] == f[i - pre.len()]);
            let k = choose|k: int|
                0 <= k < rels.len() && !allowed.contains(rels[k].predicate) && #[trigger] f[i - pre.len()] == error_at(
                    "SDIF_PREDICATE_NOT_ALLOWED"@,
                    "$._relations"@,
                    predicate_message(rels[k].predicate),
                );
        } else {
            assert(all[i] == g[i - pre.len() - f.len()]);
            assert(g[i - pre.len() - f.len()].code != pc);
        }
    }
    assert forall|k: int|
        0 <= k < rels.len() && schema.allowed_predicates@.len() > 0 && !allowed.contains(#[trigger] rels[k].predicate)
            implies exists|i: int|
            0 <= i < all.len() && all[i].code == "SDIF_PREDICATE_NOT_ALLOWED"@ && all[i].message == predicate_message(
                rels[k].predicate,
            ) by {
        let j = choose|j: int|
            0 <= j < f.len() && f[j] == error_at("SDIF_PREDICATE_NOT_ALLOWED"@, "$._relations"@, predicate_message(rels[k].predicate));
        assert(all[pre.len() + j] == f[j]);
    }
}

proof fn lemma_section(pre: Seq<SpecDiagnostic>, x: Seq<SpecDiagnostic>, post: Seq<SpecDiagnostic>, c: Seq<char>)
    requires
        no_code(pre, c),
        no_code(post, c),
        all_code(x, c),
    ensures
        forall|i: int|
            0 <= i < (pre + x + post).len() && (#[trigger] (pre + x + post)[i]).code == c ==> exists|j: int|
                0 <= j < x.len() && (pre + x + post)[i] == x[j],
        forall|j: int| 0 <= j < x.len() ==> (pre + x + post)[pre.len() + j] == #[trigger] x[j],
{
    let all = pre + x + post;
    assert forall|i: int| 0 <= i < all.len() && (#[trigger] all[i]).code == c implies exists|j: int|
        0 <= j < x.len() && all[i] == x[j] by {
        if i < pre.len() {
            assert(all[i] == pre[i]);
        } else if i < pre.len() + x.len() {
            assert(all[i] == x[i - pre.len()]);
        } else {
            assert(all[i] == post[i - pre.len() - x.len()]);
        }
    }
    assert forall|j: int| 0 <= j < x.len() implies all[pre.len() + j] == #[trigger] x[j] by {}
}

proof fn lemma_predicates_code(rels: Seq<SpecRelation>, allowed: Seq<Seq<char>>)
    ensures
        all_code(disallowed_predicates(rels, allowed), "SDIF_PREDICATE_NOT_ALLOWED"@),
{
    lemma_disallowed_predicates(rels, allowed);
    let f = disallowed_predicates(rels, allowed);
    assert forall|i: int| 0 <= i < f.len() implies (#[trigger] f[i]).code == "SDIF_PREDICATE_NOT_ALLOWED"@ by {
        let k = choose|k: int|
            0 <= k < rels.len() && !allowed.contains(rels[k].predicate) && #[trigger] f[i] == error_at(
                "SDIF_PREDICATE_NOT_ALLOWED"@,
                "$._relations"@,
                predicate_message(rels[k].predicate),
            );
    }
}

/// The validation diagnostics, in the order of the checks.
proof fn lemma_validate_parts(doc: SpecDocument, schema: Schema)
    ensures
        spec_validate(doc, &schema) == missing_fields(schema.required_fields@, field_keys(ast::fields_of(doc.statements)))
            + type_mismatches(ast::fields_of(doc.statements), schema.field_types@) + disallowed_tables(
            ast::tables_of(doc.statements),
            ast::strings_view(schema.allowed_tables@),
        ) + missing_columns(ast::tables_of(doc.statements), schema.required_table_columns@) + missing_columns(
            ast::tables_of(doc.statements),
            legacy_columns(schema.required_columns@),
        ) + disallowed_predicates(ast::relations_of(doc.statements), ast::strings_view(schema.allowed_predicates@))
            + disallowed_functions(ast::rules_of(doc.statements), ast::strings_view(schema.allowed_rule_functions@)),
        all_code(missing_fields(schema.required_fields@, field_keys(ast::fields_of(doc.statements))), "SDIF_MISSING_FIELD"@),
        all_code(type_mismatches(ast::fields_of(doc.statements), schema.field_types@), "SDIF_TYPE_MISMATCH"@),
        all_code(
            disallowed_tables(ast::tables_of(doc.statements), ast::strings_view(schema.allowed_tables@)),
            "SDIF_TABLE_NOT_ALLOWED"@,
        ),
        all_code(missing_columns(ast::tables_of(doc.statements), schema.required_table_columns@), "SDIF_MISSING_COLUMN"@),
        all_code(
            missing_columns(ast::tables_of(doc.statements), legacy_columns(schema.required_columns@)),
            "SDIF_MISSING_COLUMN"@,
        ),
        all_code(
            disallowed_predicates(ast::relations_of(doc.statements), ast::strings_view(schema.allowed_predicates@)),
            "SDIF_PREDICATE_NOT_ALLOWED"@,
        ),
        all_code(
            disallowed_functions(ast::rules_of(doc.statements), ast::strings_view(schema.allowed_rule_functions@)),
            "SDIF_RULE_FUNCTION_NOT_ALLOWED"@,
        ),
        "SDIF_MISSING_FIELD"@.len() == 18,
        "SDIF_TYPE_MISMATCH"@.len() == 18,
        "SDIF_TABLE_NOT_ALLOWED"@.len() == 22,
        "SDIF_MISSING_COLUMN"@.len() == 19,
        "SDIF_PREDICATE_NOT_ALLOWED"@.len() == 26,
        "SDIF_RULE_FUNCTION_NOT_ALLOWED"@.len() == 30,
        "SDIF_MISSING_FIELD"@ != "SDIF_TYPE_MISMATCH"@,
{
    reveal_strlit("SDIF_PREDICATE_NOT_ALLOWED");
    reveal_strlit("SDIF_MISSING_FIELD");
    reveal_strlit("SDIF_TYPE_MISMATCH");
    reveal_strlit("SDIF_TABLE_NOT_ALLOWED");
    reveal_strlit("SDIF_MISSING_COLUMN");
    reveal_strlit("SDIF_RULE_FUNCTION_NOT_ALLOWED");
    assert("SDIF_MISSING_FIELD"@[5] != "SDIF_TYPE_MISMATCH"@[5]);
    let fields = ast::fields_of(doc.statements);
    let tables = ast::tables_of(doc.statements);
    lemma_missing_fields_code(schema.required_fields@, field_keys(fields));
    lemma_type_mismatches_code(fields, schema.field_types@);
    lemma_disallowed_tables_code(tables, ast::strings_view(schema.allowed_tables@));
    lemma_missing_columns_code(tables, schema.required_table_columns@);
    lemma_missing_columns_code(tables, legacy_columns(schema.required_columns@));
    lemma_predicates_code(ast::relations_of(doc.statements), ast::strings_view(schema.allowed_predicates@));
    lemma_disallowed_functions_code(ast::rules_of(doc.statements), ast::strings_view(schema.allowed_rule_functions@));
}

proof fn lemma_missing_fields(required: Seq<Seq<char>>, keys: Seq<Seq<char>>)
    ensures
        forall|i: int|
            0 <= i < missing_fields(required, keys).len() ==> exists|k: int|
                0 <= k < required.len() && !keys.contains(required[k]) && (#[trigger] missing_fields(required, keys)[i]).path
                    == "$."@ + required[k],
        forall|k: int|
            0 <= k < required.len() && !keys.contains(#[trigger] required[k]) ==> exists|i: int|
                0 <= i < missing_fields(required, keys).len() && missing_fields(required, keys)[i].path == "$."@
                    + required[k],
    decreases required.len(),
{
    if required.len() > 0 {
        let init = required.drop_last();
        lemma_missing_fields(init, keys);
        let prev = missing_fields(init, keys);
        let out = missing_fields(required, keys);
        let r = required.last();
        let d = error_at("SDIF_MISSING_FIELD"@, "$."@ + r, "required field '"@ + r + "' is missing"@);
        if keys.contains(r) {
            assert(out == prev);
        } else {
            assert(out == prev.push(d));
        }
        assert forall|i: int| 0 <= i < out.len() implies exists|k: int|
            0 <= k < required.len() && !keys.contains(required[k]) && (#[trigger] out[i]).path == "$."@ + required[k] by {
            if i < prev.len() {
                assert(out[i] == prev[i]);
                let k = choose|k: int|
                    0 <= k < init.len() && !keys.contains(init[k]) && (#[trigger] prev[i]).path == "$."@ + init[k];
                assert(required[k] == init[k]);
            } else {
                assert(required[required.len() - 1] == r);
            }
        }
        assert forall|k: int| 0 <= k < required.len() && !keys.contains(#[trigger] required[k]) implies exists|i: int|
            0 <= i < out.len() && out[i].path == "$."@ + required[k] by {
            if k < init.len() {
                assert(required[k] == init[k]);
                let i = choose|i: int| 0 <= i < prev.len() && prev[i].path == "$."@ + init[k];
                assert(out[i] == prev[i]);
            } else {
                assert(required[k] == r);
                assert(out[prev.len() as int] == d);
            }
        }
    }
}

proof fn lemma_field_keys(fields: Seq<SpecField>)
    ensures
        forall|x: Seq<char>| field_keys(fields).contains(x) <==> exists|j: int|
            0 <= j < fields.len() && (#[trigger] fields[j]).key == x,
{
    let keys = field_keys(fields);
    assert forall|x: Seq<char>| keys.contains(x) <==> exists|j: int| 0 <= j < fields.len() && (#[trigger] fields[j]).key == x by {
        if keys.contains(x) {
            let j = choose|j: int| 0 <= j < keys.len() && keys[j] == x;
            assert(fields[j].key == keys[j]);
        }
        if exists|j: int| 0 <= j < fields.len() && (#[trigger] fields[j]).key == x {
            let j = choose|j: int| 0 <= j < fields.len() && (#[trigger] fields[j]).key == x;
            assert(keys[j] == fields[j].key);
        }
    }
}

/// Required fields are checked against the document's top-level fields:
/// each `SDIF_MISSING_FIELD` diagnostic has the path `$.<key>` of a
/// required key that no top-level field of the document has, and every
/// such key gets one.
#[verifier::rlimit(60)]
pub proof fn law_missing_field_diagnostics(doc: SpecDocument, schema: Schema)
    ensures
        forall|i: int|
            0 <= i < spec_validate(doc, &schema).len() && (#[trigger] spec_validate(doc, &schema)[i]).code
                == "SDIF_MISSING_FIELD"@ ==> exists|k: int|
                0 <= k < schema.required_fields@.len() && (forall|j: int|
                    0 <= j < ast::fields_of(doc.statements).len() ==> (#[trigger] ast::fields_of(doc.statements)[j]).key
                        != schema.required_fields@[k]) && spec_validate(doc, &schema)[i].path == "$."@
                    + schema.required_fields@[k],
        forall|k: int|
            0 <= k < schema.required_fields@.len() && (forall|j: int|
                0 <= j < ast::fields_of(doc.statements).len() ==> (#[trigger] ast::fields_of(doc.statements)[j]).key
                    != schema.required_fields@[k]) ==> exists|i: int|
                0 <= i < spec_validate(doc, &schema).len() && spec_validate(doc, &schema)[i].code == "SDIF_MISSING_FIELD"@
                    && spec_validate(doc, &schema)[i].path == "$."@ + #[trigger] schema.required_fields@[k],
{
    lemma_validate_parts(doc, schema);
    let fields = ast::fields_of(doc.statements);
    let keys = field_keys(fields);
    let req = schema.required_fields@;
    let a = missing_fields(req, keys);
    let b = type_mismatches(fields, schema.field_types@);
    let tables = ast::tables_of(doc.statements);
    let c = disallowed_tables(tables, ast::strings_view(schema.allowed_tables@));
    let d = missing_columns(tables, schema.required_table_columns@);
    let e = missing_columns(tables, legacy_columns(schema.required_columns@));
    let f = disallowed_predicates(ast::relations_of(doc.statements), ast::strings_view(schema.allowed_predicates@));
    let g = disallowed_functions(ast::rules_of(doc.statements), ast::strings_view(schema.allowed_rule_functions@));
    let cc = "SDIF_MISSING_FIELD"@;
    let post = b + c + d + e + f + g;
    lemma_no_code(b, "SDIF_TYPE_MISMATCH"@, cc);
    lemma_no_code(c, "SDIF_TABLE_NOT_ALLOWED"@, cc);
    lemma_no_code(d, "SDIF_MISSING_COLUMN"@, cc);
    lemma_no_code(e, "SDIF_MISSING_COLUMN"@, cc);
    lemma_no_code(f, "SDIF_PREDICATE_NOT_ALLOWED"@, cc);
    lemma_no_code(g, "SDIF_RULE_FUNCTION_NOT_ALLOWED"@, cc);
    lemma_no_code_concat(b, c, cc);
    lemma_no_code_concat(b + c, d, cc);
    lemma_no_code_concat(b + c + d, e, cc);
    lemma_no_code_concat(b + c + d + e, f, cc);
    lemma_no_code_concat(b + c + d + e + f, g, cc);
    let empty = Seq::<SpecDiagnostic>::empty();
    assert(no_code(empty, cc));
    let all = spec_validate(doc, &schema);
    assert(all =~= empty + a + post);
    lemma_section(empty, a, post, cc);
    lemma_missing_fields(req, keys);
    lemma_field_keys(fields);
    assert forall|i: int| 0 <= i < all.len() && (#[trigger] all[i]).code == cc implies exists|k: int|
        0 <= k < req.len() && (forall|j: int| 0 <= j < fields.len() ==> (#[trigger] fields[j]).key != req[k])
            && all[i].path == "$."@ + req[k] by {
        let j = choose|j: int| 0 <= j < a.len() && all[i] == a[j];
        let k = choose|k: int| 0 <= k < req.len() && !keys.contains(req[k]) && (#[trigger] a[j]).path == "$."@ + req[k];
    }
    assert forall|k: int|
        0 <= k < req.len() && (forall|j: int| 0 <= j < fields.len() ==> (#[trigger] fields[j]).key != req[k]) implies exists|i: int|
        0 <= i < all.len() && all[i].code == cc && all[i].path == "$."@ + #[trigger] req[k] by {
        assert(!keys.contains(req[k]));
        let i = choose|i: int| 0 <= i < a.len() && a[i].path == "$."@ + req[k];
        assert(all[0 + i] == a[i]);
        assert(a[i].code == cc);
    }
}

proof fn lemma_disallowed_tables(tables: Seq<SpecTable>, allowed: Seq<Seq<char>>)
    ensures
        forall|i: int|
            0 <= i < disallowed_tables(tables, allowed).len() ==> exists|k: int|
                0 <= k < tables.len() && !allowed.contains(tables[k].name) && (#[trigger] disallowed_tables(
                    tables,
                    allowed,
                )[i]).path == "$."@ + tables[k].name,
        forall|k: int|
            0 <= k < tables.len() && allowed.len() > 0 && !allowed.contains(#[trigger] tables[k].name) ==> exists|i: int|
                0 <= i < disallowed_tables(tables, allowed).len() && disallowed_tables(tables, allowed)[i].path == "$."@
                    + tables[k].name,
    decreases tables.len(),
{
    if tables.len() > 0 && allowed.len() > 0 {
        let init = tables.drop_last();
        lemma_disallowed_tables(init, allowed);
        let prev = disallowed_tables(init, allowed);
        let out = disallowed_tables(tables, allowed);
        let n = tables.last().name;
        let d = error_at("SDIF_TABLE_NOT_ALLOWED"@, "$."@ + n, "table '"@ + n + "' is not in the allowed tables list"@);
        if allowed.contains(n) {
            assert(out == prev);
        } else {
            assert(out == prev.push(d));
        }
        assert forall|i: int| 0 <= i < out.len() implies exists|k: int|
            0 <= k < tables.len() && !allowed.contains(tables[k].name) && (#[trigger] out[i]).path == "$."@ + tables[k].name by {
            if i < prev.len() {
                assert(out[i] == prev[i]);
                let k = choose|k: int|
                    0 <= k < init.len() && !allowed.contains(init[k].name) && (#[trigger] prev[i]).path == "$."@ + init[k].name;
                assert(tables[k] == init[k]);
            } else {
                assert(tables[tables.len() - 1] == tables.last());
            }
        }
        assert forall|k: int| 0 <= k < tables.len() && allowed.len() > 0 && !allowed.contains(#[trigger] tables[k].name) implies exists|i: int|
            0 <= i < out.len() && out[i].path == "$."@ + tables[k].name by {
            if k < init.len() {
                assert(tables[k] == init[k]);
                assert(!allowed.contains(init[k].name));
                let i = choose|i: int| 0 <= i < prev.len() && prev[i].path == "$."@ + init[k].name;
                assert(out[i] == prev[i]);
            } else {
                assert(tables[k] == tables.last());
                assert(out[prev.len() as int] == d);
            }
        }
    }
}

/// Tables are checked against the schema's allowed list: each
/// `SDIF_TABLE_NOT_ALLOWED` diagnostic has the path `$.<name>` of a
/// top-level table whose name the (non-empty) list does not hold, and every
/// such table gets one.
#[verifier::rlimit(60)]
pub proof fn law_table_diagnostics(doc: SpecDocument, schema: Schema)
    ensures
        forall|i: int|
            0 <= i < spec_validate(doc, &schema).len() && (#[trigger] spec_validate(doc, &schema)[i]).code
                == "SDIF_TABLE_NOT_ALLOWED"@ ==> exists|k: int|
                0 <= k < ast::tables_of(doc.statements).len() && !ast::strings_view(schema.allowed_tables@).contains(
                    ast::tables_of(doc.statements)[k].name,
                ) && spec_validate(doc, &schema)[i].path == "$."@ + ast::tables_of(doc.statements)[k].name,
        forall|k: int|
            0 <= k < ast::tables_of(doc.statements).len() && schema.allowed_tables@.len() > 0
                && !ast::strings_view(schema.allowed_tables@).contains(#[trigger] ast::tables_of(doc.statements)[k].name)
                ==> exists|i: int|
                0 <= i < spec_validate(doc, &schema).len() && spec_validate(doc, &schema)[i].code
                    == "SDIF_TABLE_NOT_ALLOWED"@ && spec_validate(doc, &schema)[i].path == "$."@ + ast::tables_of(
                    doc.statements,
                )[k].name,
{
    lemma_validate_parts(doc, schema);
    let fields = ast::fields_of(doc.statements);
    let tables = ast::tables_of(doc.statements);
    let allowed = ast::strings_view(schema.allowed_tables@);
    let a = missing_fields(schema.required_fields@, field_keys(fields));
    let b = type_mismatches(fields, schema.field_types@);
    let c = disallowed_tables(tables, allowed);
    let d = missing_columns(tables, schema.required_table_columns@);
    let e = missing_columns(tables, legacy_columns(schema.required_columns@));
    let f = disallowed_predicates(ast::relations_of(doc.statements), ast::strings_view(schema.allowed_predicates@));
    let g = disallowed_functions(ast::rules_of(doc.statements), ast::strings_view(schema.allowed_rule_functions@));
    let cc = "SDIF_TABLE_NOT_ALLOWED"@;
    lemma_no_code(a, "SDIF_MISSING_FIELD"@, cc);
    lemma_no_code(b, "SDIF_TYPE_MISMATCH"@, cc);
    lemma_no_code(d, "SDIF_MISSING_COLUMN"@, cc);
    lemma_no_code(e, "SDIF_MISSING_COLUMN"@, cc);
    lemma_no_code(f, "SDIF_PREDICATE_NOT_ALLOWED"@, cc);
    lemma_no_code(g, "SDIF_RULE_FUNCTION_NOT_ALLOWED"@, cc);
    lemma_no_code_concat(a, b, cc);
    lemma_no_code_concat(d, e, cc);
    lemma_no_code_concat(d + e, f, cc);
    lemma_no_code_concat(d + e + f, g, cc);
    let pre = a + b;
    let post = d + e + f + g;
    let all = spec_validate(doc, &schema);
    assert(all =~= pre + c + post);
    lemma_section(pre, c, post, cc);
    lemma_disallowed_tables(tables, allowed);
    assert(allowed.len() == schema.allowed_tables@.len());
    assert forall|i: int| 0 <= i < all.len() && (#[trigger] all[i]).code == cc implies exists|k: int|
        0 <= k < tables.len() && !allowed.contains(tables[k].name) && all[i].path == "$."@ + tables[k].name by {
        let j = choose|j: int| 0 <= j < c.len() && all[i] == c[j];
        let k = choose|k: int| 0 <= k < tables.len() && !allowed.contains(tables[k].name) && (#[trigger] c[j]).path == "$."@ + tables[k].name;
    }
    assert forall|k: int|
        0 <= k < tables.len() && schema.allowed_tables@.len() > 0 && !allowed.contains(#[trigger] tables[k].name) implies exists|i: int|
        0 <= i < all.len() && all[i].code == cc && all[i].path == "$."@ + tables[k].name by {
        let i = choose|i: int| 0 <= i < c.len() && c[i].path == "$."@ + tables[k].name;
        assert(all[pre.len() + i] == c[i]);
        assert(c[i].code == cc);
    }
}

/// The message of a refused rule function.
pub open spec fn function_message(f: Seq<char>) -> Seq<char> {
    "rule function '"@ + f + "' is not allowed"@
}

proof fn lemma_disallowed_functions(rules: Seq<SpecRule>, allowed: Seq<Seq<char>>)
    ensures
        forall|i: int|
            0 <= i < disallowed_functions(rules, allowed).len() ==> exists|k: int|
                0 <= k < rules.len() && rules[k].expression is Some && !allowed.contains(rules[k].expression->0.function)
                    && (#[trigger] disallowed_functions(rules, allowed)[i]).message == function_message(
                    rules[k].expression->0.function,
                ),
        forall|k: int|
            0 <= k < rules.len() && allowed.len() > 0 && (#[trigger] rules[k]).expression is Some && !allowed.contains(
                rules[k].expression->0.function,
            ) ==> exists|i: int|
                0 <= i < disallowed_functions(rules, allowed).len() && disallowed_functions(rules, allowed)[i].message
                    == function_message(rules[k].expression->0.function),
    decreases rules.len(),
{
    if rules.len() > 0 && allowed.len() > 0 {
        let init = rules.drop_last();
        lemma_disallowed_functions(init, allowed);
        let prev = disallowed_functions(init, allowed);
        let out = disallowed_functions(rules, allowed);
        let last = rules.last();
        match last.expression {
            Some(e) => {
                let d = error_at("SDIF_RULE_FUNCTION_NOT_ALLOWED"@, "$._rules"@, "rule function '"@ + e.function + "' is not allowed"@);
                if allowed.contains(e.function) {
                    assert(out == prev);
                } else {
                    assert(out == prev.push(d));
                }
            },
            None => {
                assert(out == prev);
            },
        }
        assert forall|i: int| 0 <= i < out.len() implies exists|k: int|
            0 <= k < rules.len() && rules[k].expression is Some && !allowed.contains(rules[k].expression->0.function)
                && (#[trigger] out[i]).message == function_message(rules[k].expression->0.function) by {
            if i < prev.len() {
                assert(out[i] == prev[i]);
                let k = choose|k: int|
                    0 <= k < init.len() && init[k].expression is Some && !allowed.contains(init[k].expression->0.function)
                        && (#[trigger] prev[i]).message == function_message(init[k].expression->0.function);
                assert(rules[k] == init[k]);
            } else {
                assert(rules[rules.len() - 1] == last);
            }
        }
        assert forall|k: int|
            0 <= k < rules.len() && allowed.len() > 0 && (#[trigger] rules[k]).expression is Some && !allowed.contains(
                rules[k].expression->0.function,
            ) implies exists|i: int| 0 <= i < out.len() && out[i].message == function_message(rules[k].expression->0.function) by {
            if k < init.len() {
                assert(rules[k] == init[k]);
                let i = choose|i: int| 0 <= i < prev.len() && prev[i].message == function_message(init[k].expression->0.function);
                assert(out[i] == prev[i]);
            } else {
                assert(rules[k] == last);
                assert(out[prev.len() as int].message == function_message(rules[k].expression->0.function));
            }
        }
    }
}

/// Rule functions are checked against the schema's allowed list: each
/// `SDIF_RULE_FUNCTION_NOT_ALLOWED` diagnostic names the function of a
/// parsed rule of the document that the (non-empty) list does not hold, and
/// every such rule gets one.
#[verifier::rlimit(60)]
pub proof fn law_rule_function_diagnostics(doc: SpecDocument, schema: Schema)
    ensures
        forall|i: int|
            0 <= i < spec_validate(doc, &schema).len() && (#[trigger] spec_validate(doc, &schema)[i]).code
                == "SDIF_RULE_FUNCTION_NOT_ALLOWED"@ ==> exists|k: int|
                0 <= k < ast::rules_of(doc.statements).len() && ast::rules_of(doc.statements)[k].expression is Some
                    && !ast::strings_view(schema.allowed_rule_functions@).contains(
                    ast::rules_of(doc.statements)[k].expression->0.function,
                ) && spec_validate(doc, &schema)[i].message == function_message(
                    ast::rules_of(doc.statements)[k].expression->0.function,
                ),
        forall|k: int|
            0 <= k < ast::rules_of(doc.statements).len() && schema.allowed_rule_functions@.len() > 0 && (
            #[trigger] ast::rules_of(doc.statements)[k]).expression is Some && !ast::strings_view(
                schema.allowed_rule_functions@,
            ).contains(ast::rules_of(doc.statements)[k].expression->0.function) ==> exists|i: int|
                0 <= i < spec_validate(doc, &schema).len() && spec_validate(doc, &schema)[i].code
                    == "SDIF_RULE_FUNCTION_NOT_ALLOWED"@ && spec_validate(doc, &schema)[i].message == function_message(
                    ast::rules_of(doc.statements)[k].expression->0.function,
                ),
{
    lemma_validate_parts(doc, schema);
    let fields = ast::fields_of(doc.statements);
    let tables = ast::tables_of(doc.statements);
    let rules = ast::rules_of(doc.statements);
    let allowed = ast::strings_view(schema.allowed_rule_functions@);
    let a = missing_fields(schema.required_fields@, field_keys(fields));
    let b = type_mismatches(fields, schema.field_types@);
    let c = disallowed_tables(tables, ast::strings_view(schema.allowed_tables@));
    let d = missing_columns(tables, schema.required_table_columns@);
    let e = missing_columns(tables, legacy_columns(schema.required_columns@));
    let f = disallowed_predicates(ast::relations_of(doc.statements), ast::strings_view(schema.allowed_predicates@));
    let g = disallowed_functions(rules, allowed);
    let cc = "SDIF_RULE_FUNCTION_NOT_ALLOWED"@;
    lemma_no_code(a, "SDIF_MISSING_FIELD"@, cc);
    lemma_no_code(b, "SDIF_TYPE_MISMATCH"@, cc);
    lemma_no_code(c, "SDIF_TABLE_NOT_ALLOWED"@, cc);
    lemma_no_code(d, "SDIF_MISSING_COLUMN"@, cc);
    lemma_no_code(e, "SDIF_MISSING_COLUMN"@, cc);
    lemma_no_code(f, "SDIF_PREDICATE_NOT_ALLOWED"@, cc);
    lemma_no_code_concat(a, b, cc);
    lemma_no_code_concat(a + b, c, cc);
    lemma_no_code_concat(a + b + c, d, cc);
    lemma_no_code_concat(a + b + c + d, e, cc);
    lemma_no_code_concat(a + b + c + d + e, f, cc);
    let pre = a + b + c + d + e + f;
    let empty = Seq::<SpecDiagnostic>::empty();
    assert(no_code(empty, cc));
    let all = spec_validate(doc, &schema);
    assert(all =~= pre + g + empty);
    lemma_section(pre, g, empty, cc);
    lemma_disallowed_functions(rules, allowed);
    assert(allowed.len() == schema.allowed_rule_functions@.len());
    assert forall|i: int| 0 <= i < all.len() && (#[trigger] all[i]).code == cc implies exists|k: int|
        0 <= k < rules.len() && rules[k].expression is Some && !allowed.contains(rules[k].expression->0.function)
            && all[i].message == function_message(rules[k].expression->0.function) by {
        let j = choose|j: int| 0 <= j < g.len() && all[i] == g[j];
        let k = choose|k: int|
            0 <= k < rules.len() && rules[k].expression is Some && !allowed.contains(rules[k].expression->0.function)
                && (#[trigger] g[j]).message == function_message(rules[k].expression->0.function);
    }
    assert forall|k: int|
        0 <= k < rules.len() && schema.allowed_rule_functions@.len() > 0 && (#[trigger] rules[k]).expression is Some
            && !allowed.contains(rules[k].expression->0.function) implies exists|i: int|
        0 <= i < all.len() && all[i].code == cc && all[i].message == function_message(rules[k].expression->0.function) by {
        let i = choose|i: int| 0 <= i < g.len() && g[i].message == function_message(rules[k].expression->0.function);
        assert(all[pre.len() + i] == g[i]);
        assert(g[i].code == cc);
    }
}

} // verus!
