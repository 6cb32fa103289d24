//! Schema definition for SDIF document validation.
//!
//! A schema is itself an SDIF document with `kind Schema`; its tables
//! declare required fields, field types, required table columns, column
//! types, table policies and relation policies.
use vstd::prelude::*;

use crate::ast::{Document, SpecDocument, SpecField, SpecTable, Table};
use crate::collections::{lookup, map_insert, set_insert, StringMap, StringSet};
use crate::scan::lit;
use crate::text::{chars_of, eq_str, push_all, push_str, string_of};
use crate::ast;

verus! {

broadcast use {vstd::string::group_string_axioms, vstd::std_specs::vec::group_vec_axioms};

/// Error returned when an SDIF document cannot be interpreted as a schema.
#[derive(Debug, Clone, PartialEq, Eq)]
pub struct SchemaError(pub String);

impl SchemaError {
    /// `SchemaError: <message>`.
    pub fn to_display_string(&self) -> (s: String)
        ensures
            s@ == "SchemaError: "@ + self.0@,
    {
        let mut m = chars_of("SchemaError: ");
        let rest = chars_of(self.0.as_str());
        push_all(&mut m, &rest);
        string_of(&m)
    }
}

/// Validation policy for one table.
#[derive(Debug, Clone, PartialEq, Eq)]
pub struct TablePolicy {
    pub name: String,
    pub ordered: bool,
    pub primary_key: Option<String>,
}

pub struct SpecTablePolicy {
    pub name: Seq<char>,
    pub ordered: bool,
    pub primary_key: Option<Seq<char>>,
}

impl View for TablePolicy {
    type V = SpecTablePolicy;

    open spec fn view(&self) -> SpecTablePolicy {
        SpecTablePolicy {
            name: self.name@,
            ordered: self.ordered,
            primary_key: match self.primary_key {
                Some(k) => Some(k@),
                None => None,
            },
        }
    }
}

/// Validation policy for one relation predicate.
#[derive(Debug, Clone, PartialEq, Eq)]
pub struct RelationPolicy {
    pub predicate: String,
    pub subject_type: String,
    pub object_type: String,
    pub required: bool,
}

pub struct SpecRelationPolicy {
    pub predicate: Seq<char>,
    pub subject_type: Seq<char>,
    pub object_type: Seq<char>,
    pub required: bool,
}

impl View for RelationPolicy {
    type V = SpecRelationPolicy;

    open spec fn view(&self) -> SpecRelationPolicy {
        SpecRelationPolicy {
            predicate: self.predicate@,
            subject_type: self.subject_type@,
            object_type: self.object_type@,
            required: self.required,
        }
    }
}

/// Schema-driven validation rules for an SDIF document.
#[derive(Debug, Clone, PartialEq, Eq)]
pub struct Schema {
    /// Field keys that must be present in the document.
    pub required_fields: StringSet,
    /// Field type constraints: key -> expected type name.
    pub field_types: StringMap<String>,
    /// Per-table required columns: table_name -> required column names.
    pub required_table_columns: StringMap<StringSet>,
    /// Per-table column type constraints.
    pub table_column_types: StringMap<StringMap<String>>,
    /// Per-table structural policies.
    pub table_policies: StringMap<TablePolicy>,
    /// Per-predicate relation policies.
    pub relation_policies: StringMap<RelationPolicy>,
    /// Legacy direct construction support: empty = allow any table.
    pub allowed_tables: Vec<String>,
    /// Legacy direct construction support: table_name -> required columns.
    pub required_columns: StringMap<Vec<String>>,
    /// Legacy direct construction support: empty = allow any predicate.
    pub allowed_predicates: Vec<String>,
    /// Legacy direct construction support: empty = allow any rule function.
    pub allowed_rule_functions: Vec<String>,
}

impl Default for Schema {
    fn default() -> (s: Self)
        ensures
            s.required_fields@.len() == 0,
            s.field_types@.len() == 0,
            s.required_table_columns@.len() == 0,
            s.table_column_types@.len() == 0,
            s.table_policies@.len() == 0,
            s.relation_policies@.len() == 0,
            s.allowed_tables@.len() == 0,
            s.required_columns@.len() == 0,
            s.allowed_predicates@.len() == 0,
            s.allowed_rule_functions@.len() == 0,
    {
        Schema {
            required_fields: StringSet::new(),
            field_types: StringMap::new(),
            required_table_columns: StringMap::new(),
            table_column_types: StringMap::new(),
            table_policies: StringMap::new(),
            relation_policies: StringMap::new(),
            allowed_tables: Vec::new(),
            required_columns: StringMap::new(),
            allowed_predicates: Vec::new(),
            allowed_rule_functions: Vec::new(),
        }
    }
}

// ---------------------------------------------------------------------------
// Reading schema tables
// ---------------------------------------------------------------------------

/// Index of the first column named `name`.
pub open spec fn position(cols: Seq<Seq<char>>, name: Seq<char>, j: int) -> Option<int>
    decreases cols.len() - j,
{
    if j < 0 || j >= cols.len() {
        None
    } else if cols[j] == name {
        Some(j)
    } else {
        position(cols, name, j + 1)
    }
}

/// The cell of `row` in column `idx`, when there is one.
pub open spec fn cell_at(row: Seq<Seq<char>>, idx: Option<int>) -> Option<Seq<char>> {
    match idx {
        Some(i) => if 0 <= i < row.len() {
            Some(row[i])
        } else {
            None
        },
        None => None,
    }
}

/// Sets built by inserting `values` in order.
pub open spec fn set_of(values: Seq<Seq<char>>) -> Seq<Seq<char>>
    decreases values.len(),
{
    if values.len() == 0 {
        Seq::empty()
    } else {
        set_insert(set_of(values.drop_last()), values.last())
    }
}

/// Maps built by inserting `pairs` in order (later bindings win).
pub open spec fn map_of<V>(pairs: Seq<(Seq<char>, V)>) -> Seq<(Seq<char>, V)>
    decreases pairs.len(),
{
    if pairs.len() == 0 {
        Seq::empty()
    } else {
        map_insert(map_of(pairs.drop_last()), pairs.last().0, pairs.last().1)
    }
}

// Required fields: the first cell of each row of `required[field, …]` tables.

pub open spec fn is_required_table(t: SpecTable) -> bool {
    t.name == "required"@ && t.columns.len() > 0 && t.columns[0] == "field"@
}

pub open spec fn first_cells(rows: Seq<Seq<Seq<char>>>) -> Seq<Seq<char>>
    decreases rows.len(),
{
    if rows.len() == 0 {
        Seq::empty()
    } else if rows.last().len() > 0 {
        first_cells(rows.drop_last()).push(rows.last()[0])
    } else {
        first_cells(rows.drop_last())
    }
}

pub open spec fn required_values(tables: Seq<SpecTable>) -> Seq<Seq<char>>
    decreases tables.len(),
{
    if tables.len() == 0 {
        Seq::empty()
    } else if is_required_table(tables.last()) {
        required_values(tables.drop_last()) + first_cells(tables.last().rows)
    } else {
        required_values(tables.drop_last())
    }
}

// Field types: (field, type) cells of `field_types` tables.

pub open spec fn pair_rows(rows: Seq<Seq<Seq<char>>>, a: Option<int>, b: Option<int>) -> Seq<(Seq<char>, Seq<char>)>
    decreases rows.len(),
{
    if rows.len() == 0 {
        Seq::empty()
    } else {
        let prev = pair_rows(rows.drop_last(), a, b);
        match (cell_at(rows.last(), a), cell_at(rows.last(), b)) {
            (Some(x), Some(y)) => prev.push((x, y)),
            _ => prev,
        }
    }
}

/// The (`ca`, `cb`) cell pairs of every table named `name`.
pub open spec fn table_pairs(tables: Seq<SpecTable>, name: Seq<char>, ca: Seq<char>, cb: Seq<char>) -> Seq<
    (Seq<char>, Seq<char>),
>
    decreases tables.len(),
{
    if tables.len() == 0 {
        Seq::empty()
    } else {
        let t = tables.last();
        let prev = table_pairs(tables.drop_last(), name, ca, cb);
        if t.name == name {
            prev + pair_rows(t.rows, position(t.columns, ca, 0), position(t.columns, cb, 0))
        } else {
            prev
        }
    }
}

// Required columns: (table, column) pairs grouped by table.

/// `m` with `c` added to the set bound to `k`.
pub open spec fn add_to_set(m: Seq<(Seq<char>, Seq<Seq<char>>)>, k: Seq<char>, c: Seq<char>) -> Seq<
    (Seq<char>, Seq<Seq<char>>),
> {
    let s = match lookup(m, k) {
        Some(s) => s,
        None => Seq::empty(),
    };
    map_insert(m, k, set_insert(s, c))
}

pub open spec fn group_sets(pairs: Seq<(Seq<char>, Seq<char>)>) -> Seq<(Seq<char>, Seq<Seq<char>>)>
    decreases pairs.len(),
{
    if pairs.len() == 0 {
        Seq::empty()
    } else {
        add_to_set(group_sets(pairs.drop_last()), pairs.last().0, pairs.last().1)
    }
}

// Column types: (table, column, type) triples grouped by table.

pub open spec fn triple_rows(
    rows: Seq<Seq<Seq<char>>>,
    a: Option<int>,
    b: Option<int>,
    c: Option<int>,
) -> Seq<(Seq<char>, Seq<char>, Seq<char>)>
    decreases rows.len(),
{
    if rows.len() == 0 {
        Seq::empty()
    } else {
        let prev = triple_rows(rows.drop_last(), a, b, c);
        match (cell_at(rows.last(), a), cell_at(rows.last(), b), cell_at(rows.last(), c)) {
            (Some(x), Some(y), Some(z)) => prev.push((x, y, z)),
            _ => prev,
        }
    }
}

pub open spec fn column_type_triples(tables: Seq<SpecTable>) -> Seq<(Seq<char>, Seq<char>, Seq<char>)>
    decreases tables.len(),
{
    if tables.len() == 0 {
        Seq::empty()
    } else {
        let t = tables.last();
        let prev = column_type_triples(tables.drop_last());
        if t.name == "column_types"@ {
            prev + triple_rows(
                t.rows,
                position(t.columns, "table"@, 0),
                position(t.columns, "column"@, 0),
                position(t.columns, "type"@, 0),
            )
        } else {
            prev
        }
    }
}

pub open spec fn add_to_map(
    m: Seq<(Seq<char>, Seq<(Seq<char>, Seq<char>)>)>,
    k: Seq<char>,
    c: Seq<char>,
    ty: Seq<char>,
) -> Seq<(Seq<char>, Seq<(Seq<char>, Seq<char>)>)> {
    let inner = match lookup(m, k) {
        Some(s) => s,
        None => Seq::empty(),
    };
    map_insert(m, k, map_insert(inner, c, ty))
}

pub open spec fn group_maps(triples: Seq<(Seq<char>, Seq<char>, Seq<char>)>) -> Seq<
    (Seq<char>, Seq<(Seq<char>, Seq<char>)>),
>
    decreases triples.len(),
{
    if triples.len() == 0 {
        Seq::empty()
    } else {
        let t = triples.last();
        add_to_map(group_maps(triples.drop_last()), t.0, t.1, t.2)
    }
}

// Table policies: rows of `table_policies` tables.

pub open spec fn table_policy_of(row: Seq<Seq<char>>, cols: Seq<Seq<char>>, name: Seq<char>) -> SpecTablePolicy {
    SpecTablePolicy {
        name,
        ordered: match cell_at(row, position(cols, "ordered"@, 0)) {
            Some(v) => v != "false"@,
            None => true,
        },
        primary_key: match cell_at(row, position(cols, "primary_key"@, 0)) {
            Some(v) => if v.len() == 0 {
                None
            } else {
                Some(v)
            },
            None => None,
        },
    }
}

pub open spec fn table_policy_rows(rows: Seq<Seq<Seq<char>>>, cols: Seq<Seq<char>>) -> Seq<
    (Seq<char>, SpecTablePolicy),
>
    decreases rows.len(),
{
    if rows.len() == 0 {
        Seq::empty()
    } else {
        let prev = table_policy_rows(rows.drop_last(), cols);
        match cell_at(rows.last(), position(cols, "name"@, 0)) {
            Some(n) => prev.push((n, table_policy_of(rows.last(), cols, n))),
            None => prev,
        }
    }
}

pub open spec fn table_policy_pairs(tables: Seq<SpecTable>) -> Seq<(Seq<char>, SpecTablePolicy)>
    decreases tables.len(),
{
    if tables.len() == 0 {
        Seq::empty()
    } else {
        let t = tables.last();
        let prev = table_policy_pairs(tables.drop_last());
        if t.name == "table_policies"@ {
            prev + table_policy_rows(t.rows, t.columns)
        } else {
            prev
        }
    }
}

// Relation policies: rows of `relation_policies` tables.

pub open spec fn or_identifier(v: Option<Seq<char>>) -> Seq<char> {
    match v {
        Some(s) => s,
        None => "Identifier"@,
    }
}

pub open spec fn relation_policy_of(row: Seq<Seq<char>>, cols: Seq<Seq<char>>, predicate: Seq<char>) -> SpecRelationPolicy {
    SpecRelationPolicy {
        predicate,
        subject_type: or_identifier(cell_at(row, position(cols, "subject_type"@, 0))),
        object_type: or_identifier(cell_at(row, position(cols, "object_type"@, 0))),
        required: cell_at(row, position(cols, "required"@, 0)) == Some("true"@),
    }
}

pub open spec fn relation_policy_rows(rows: Seq<Seq<Seq<char>>>, cols: Seq<Seq<char>>) -> Seq<
    (Seq<char>, SpecRelationPolicy),
>
    decreases rows.len(),
{
    if rows.len() == 0 {
        Seq::empty()
    } else {
        let prev = relation_policy_rows(rows.drop_last(), cols);
        match cell_at(rows.last(), position(cols, "predicate"@, 0)) {
            Some(p) => prev.push((p, relation_policy_of(rows.last(), cols, p))),
            None => prev,
        }
    }
}

pub open spec fn relation_policy_pairs(tables: Seq<SpecTable>) -> Seq<(Seq<char>, SpecRelationPolicy)>
    decreases tables.len(),
{
    if tables.len() == 0 {
        Seq::empty()
    } else {
        let t = tables.last();
        let prev = relation_policy_pairs(tables.drop_last());
        if t.name == "relation_policies"@ {
            prev + relation_policy_rows(t.rows, t.columns)
        } else {
            prev
        }
    }
}

// The `kind` check.

/// The first field of `fields` with key `key`.
pub open spec fn first_with_key(fields: Seq<SpecField>, key: Seq<char>, j: int) -> Option<SpecField>
    decreases fields.len() - j,
{
    if j < 0 || j >= fields.len() {
        None
    } else if fields[j].key == key {
        Some(fields[j])
    } else {
        first_with_key(fields, key, j + 1)
    }
}

/// The error message `Schema::from_document` gives, if any.
pub open spec fn kind_error(doc: SpecDocument) -> Option<Seq<char>> {
    match first_with_key(ast::fields_of(doc.statements), "kind"@, 0) {
        Some(f) => if f.value == "Schema"@ {
            None
        } else {
            Some("expected schema document with `kind Schema`, got `"@ + f.value + "`"@)
        },
        None => Some("expected schema document with `kind Schema`, got `<missing>`"@),
    }
}

pub open spec fn doc_tables(doc: SpecDocument) -> Seq<SpecTable> {
    ast::tables_of(doc.statements)
}

pub open spec fn tables_view(v: Seq<&Table>) -> Seq<SpecTable> {
    v.map_values(|t: &Table| t@)
}


// ---------------------------------------------------------------------------
// Executable loaders
// ---------------------------------------------------------------------------

pub open spec fn opt_index(o: Option<usize>) -> Option<int> {
    match o {
        Some(i) => Some(i as int),
        None => None,
    }
}

pub open spec fn pairs_view(v: Seq<(String, String)>) -> Seq<(Seq<char>, Seq<char>)> {
    v.map_values(|p: (String, String)| (p.0@, p.1@))
}

pub open spec fn triples_view(v: Seq<(String, String, String)>) -> Seq<(Seq<char>, Seq<char>, Seq<char>)> {
    v.map_values(|p: (String, String, String)| (p.0@, p.1@, p.2@))
}

/// Index of the first column named `name`.
fn column_position(cols: &Vec<String>, name: &str) -> (r: Option<usize>)
    ensures
        opt_index(r) == position(ast::strings_view(cols@), name@, 0),
        r matches Some(i) ==> i < cols@.len(),
{
    let ghost cv = ast::strings_view(cols@);
    let mut j: usize = 0;
    while j < cols.len()
        invariant
            0 <= j <= cols@.len(),
            cv == ast::strings_view(cols@),
            position(cv, name@, 0) == position(cv, name@, j as int),
        decreases cols@.len() - j,
    {
        assert(cv[j as int] == cols@[j as int]@);
        let c = chars_of(cols[j].as_str());
        if eq_str(&c, name) {
            return Some(j);
        }
        j += 1;
    }
    None
}

/// The cell of `row` in column `idx`, when there is one.
fn cell(row: &Vec<String>, idx: Option<usize>) -> (r: Option<&String>)
    ensures
        match (r, cell_at(ast::strings_view(row@), opt_index(idx))) {
            (Some(s), Some(v)) => s@ == v,
            (None, None) => true,
            _ => false,
        },
{
    match idx {
        Some(i) => if i < row.len() {
            assert(ast::strings_view(row@)[i as int] == row@[i as int]@);
            Some(&row[i])
        } else {
            None
        },
        None => None,
    }
}

fn load_required_fields(tables: &Vec<&Table>) -> (r: StringSet)
    ensures
        r@ == set_of(required_values(tables_view(tables@))),
{
    let ghost tv = tables_view(tables@);
    let mut set = StringSet::new();
    let mut i: usize = 0;
    while i < tables.len()
        invariant
            0 <= i <= tables@.len(),
            tv == tables_view(tables@),
            set@ == set_of(required_values(tv.take(i as int))),
        decreases tables@.len() - i,
    {
        let t = tables[i];
        let ghost tt = t@;
        assert(tv[i as int] == tt);
        assert(tv.take(i + 1 as int).drop_last() == tv.take(i as int));
        let ghost base = required_values(tv.take(i as int));
        let name = chars_of(t.name.as_str());
        let is_required = eq_str(&name, "required") && t.columns.len() > 0 && {
            let c0 = chars_of(t.columns[0].as_str());
            eq_str(&c0, "field")
        };
        assert(t.columns.len() > 0 ==> tt.columns[0] == t.columns@[0]@);
        if is_required {
            let mut j: usize = 0;
            while j < t.rows.len()
                invariant
                    0 <= j <= t.rows@.len(),
                    tt == t@,
                    set@ == set_of(base + first_cells(tt.rows.take(j as int))),
                decreases t.rows@.len() - j,
            {
                let row = &t.rows[j];
                assert(tt.rows[j as int] == ast::strings_view(row@));
                assert(tt.rows.take(j + 1 as int).drop_last() == tt.rows.take(j as int));
                if row.len() > 0 {
                    assert(ast::strings_view(row@)[0] == row@[0]@);
                    let v = row[0].clone();
                    let ghost prev = base + first_cells(tt.rows.take(j as int));
                    set.insert(v);
                    assert(base + first_cells(tt.rows.take(j + 1 as int)) == prev.push(v@));
                    assert(prev.push(v@).drop_last() == prev);
                } else {
                    assert(base + first_cells(tt.rows.take(j + 1 as int)) == base + first_cells(
                        tt.rows.take(j as int),
                    ));
                }
                j += 1;
            }
            assert(tt.rows.take(t.rows@.len() as int) == tt.rows);
        }
        i += 1;
    }
    assert(tv.take(tables@.len() as int) == tv);
    set
}

/// The (`ca`, `cb`) cell pairs of every table named `name`.
fn collect_pairs(tables: &Vec<&Table>, name: &str, ca: &str, cb: &str) -> (r: Vec<(String, String)>)
    ensures
        pairs_view(r@) == table_pairs(tables_view(tables@), name@, ca@, cb@),
{
    let ghost tv = tables_view(tables@);
    let mut out: Vec<(String, String)> = Vec::new();
    let mut i: usize = 0;
    while i < tables.len()
        invariant
            0 <= i <= tables@.len(),
            tv == tables_view(tables@),
            pairs_view(out@) == table_pairs(tv.take(i as int), name@, ca@, cb@),
        decreases tables@.len() - i,
    {
        let t = tables[i];
        let ghost tt = t@;
        assert(tv[i as int] == tt);
        assert(tv.take(i + 1 as int).drop_last() == tv.take(i as int));
        let ghost base = table_pairs(tv.take(i as int), name@, ca@, cb@);
        let tname = chars_of(t.name.as_str());
        if eq_str(&tname, name) {
            let a = column_position(&t.columns, ca);
            let b = column_position(&t.columns, cb);
            let mut j: usize = 0;
            while j < t.rows.len()
                invariant
                    0 <= j <= t.rows@.len(),
                    tt == t@,
                    opt_index(a) == position(tt.columns, ca@, 0),
                    opt_index(b) == position(tt.columns, cb@, 0),
                    pairs_view(out@) == base + pair_rows(tt.rows.take(j as int), opt_index(a), opt_index(b)),
                decreases t.rows@.len() - j,
            {
                let row = &t.rows[j];
                assert(tt.rows[j as int] == ast::strings_view(row@));
                assert(tt.rows.take(j + 1 as int).drop_last() == tt.rows.take(j as int));
                match (cell(row, a), cell(row, b)) {
                    (Some(x), Some(y)) => {
                        let p = (x.clone(), y.clone());
                        let ghost before = pairs_view(out@);
                        out.push(p);
                        assert(pairs_view(out@) == before.push((x@, y@)));
                    },
                    _ => {},
                }
                j += 1;
            }
            assert(tt.rows.take(t.rows@.len() as int) == tt.rows);
        }
        i += 1;
    }
    assert(tv.take(tables@.len() as int) == tv);
    out
}

fn load_field_types(tables: &Vec<&Table>) -> (r: StringMap<String>)
    ensures
        r@ == map_of(table_pairs(tables_view(tables@), "field_types"@, "field"@, "type"@)),
{
    let pairs = collect_pairs(tables, "field_types", "field", "type");
    let ghost pv = pairs_view(pairs@);
    let mut m: StringMap<String> = StringMap::new();
    let mut k: usize = 0;
    while k < pairs.len()
        invariant
            0 <= k <= pairs@.len(),
            pv == pairs_view(pairs@),
            m@ == map_of(pv.take(k as int)),
        decreases pairs@.len() - k,
    {
        assert(pv.take(k + 1 as int).drop_last() == pv.take(k as int));
        assert(pv[k as int] == (pairs@[k as int].0@, pairs@[k as int].1@));
        m.insert(pairs[k].0.clone(), pairs[k].1.clone());
        k += 1;
    }
    assert(pv.take(pairs@.len() as int) == pv);
    m
}

fn load_required_columns(tables: &Vec<&Table>) -> (r: StringMap<StringSet>)
    ensures
        r@ == group_sets(table_pairs(tables_view(tables@), "required_columns"@, "table"@, "column"@)),
{
    let pairs = collect_pairs(tables, "required_columns", "table", "column");
    let ghost pv = pairs_view(pairs@);
    let mut m: StringMap<StringSet> = StringMap::new();
    let mut k: usize = 0;
    while k < pairs.len()
        invariant
            0 <= k <= pairs@.len(),
            pv == pairs_view(pairs@),
            m@ == group_sets(pv.take(k as int)),
        decreases pairs@.len() - k,
    {
        assert(pv.take(k + 1 as int).drop_last() == pv.take(k as int));
        assert(pv[k as int] == (pairs@[k as int].0@, pairs@[k as int].1@));
        let mut set = match m.get(pairs[k].0.as_str()) {
            Some(s) => s.copy(),
            None => StringSet::new(),
        };
        set.insert(pairs[k].1.clone());
        m.insert(pairs[k].0.clone(), set);
        k += 1;
    }
    assert(pv.take(pairs@.len() as int) == pv);
    m
}

/// The (table, column, type) cells of every `column_types` table.
fn collect_triples(tables: &Vec<&Table>) -> (r: Vec<(String, String, String)>)
    ensures
        triples_view(r@) == column_type_triples(tables_view(tables@)),
{
    let ghost tv = tables_view(tables@);
    let mut out: Vec<(String, String, String)> = Vec::new();
    let mut i: usize = 0;
    while i < tables.len()
        invariant
            0 <= i <= tables@.len(),
            tv == tables_view(tables@),
            triples_view(out@) == column_type_triples(tv.take(i as int)),
        decreases tables@.len() - i,
    {
        let t = tables[i];
        let ghost tt = t@;
        assert(tv[i as int] == tt);
        assert(tv.take(i + 1 as int).drop_last() == tv.take(i as int));
        let ghost base = column_type_triples(tv.take(i as int));
        let tname = chars_of(t.name.as_str());
        if eq_str(&tname, "column_types") {
            let a = column_position(&t.columns, "table");
            let b = column_position(&t.columns, "column");
            let c = column_position(&t.columns, "type");
            let mut j: usize = 0;
            while j < t.rows.len()
                invariant
                    0 <= j <= t.rows@.len(),
                    tt == t@,
                    opt_index(a) == position(tt.columns, "table"@, 0),
                    opt_index(b) == position(tt.columns, "column"@, 0),
                    opt_index(c) == position(tt.columns, "type"@, 0),
                    triples_view(out@) == base + triple_rows(
                        tt.rows.take(j as int),
                        opt_index(a),
                        opt_index(b),
                        opt_index(c),
                    ),
                decreases t.rows@.len() - j,
            {
                let row = &t.rows[j];
                assert(tt.rows[j as int] == ast::strings_view(row@));
                assert(tt.rows.take(j + 1 as int).drop_last() == tt.rows.take(j as int));
                match (cell(row, a), cell(row, b), cell(row, c)) {
                    (Some(x), Some(y), Some(z)) => {
                        let p = (x.clone(), y.clone(), z.clone());
                        let ghost before = triples_view(out@);
                        out.push(p);
                        assert(triples_view(out@) == before.push((x@, y@, z@)));
                    },
                    _ => {},
                }
                j += 1;
            }
            assert(tt.rows.take(t.rows@.len() as int) == tt.rows);
        }
        i += 1;
    }
    assert(tv.take(tables@.len() as int) == tv);
    out
}

fn load_column_types(tables: &Vec<&Table>) -> (r: StringMap<StringMap<String>>)
    ensures
        r@ == group_maps(column_type_triples(tables_view(tables@))),
{
    let triples = collect_triples(tables);
    let ghost tv = triples_view(triples@);
    let mut m: StringMap<StringMap<String>> = StringMap::new();
    let mut k: usize = 0;
    while k < triples.len()
        invariant
            0 <= k <= triples@.len(),
            tv == triples_view(triples@),
            m@ == group_maps(tv.take(k as int)),
        decreases triples@.len() - k,
    {
        assert(tv.take(k + 1 as int).drop_last() == tv.take(k as int));
        assert(tv[k as int] == (triples@[k as int].0@, triples@[k as int].1@, triples@[k as int].2@));
        let mut inner = match m.get(triples[k].0.as_str()) {
            Some(s) => s.copy(),
            None => StringMap::new(),
        };
        inner.insert(triples[k].1.clone(), triples[k].2.clone());
        m.insert(triples[k].0.clone(), inner);
        k += 1;
    }
    assert(tv.take(triples@.len() as int) == tv);
    m
}

fn load_table_policies(tables: &Vec<&Table>) -> (r: StringMap<TablePolicy>)
    ensures
        r@ == map_of(table_policy_pairs(tables_view(tables@))),
{
    let ghost tv = tables_view(tables@);
    let mut m: StringMap<TablePolicy> = StringMap::new();
    let mut i: usize = 0;
    while i < tables.len()
        invariant
            0 <= i <= tables@.len(),
            tv == tables_view(tables@),
            m@ == map_of(table_policy_pairs(tv.take(i as int))),
        decreases tables@.len() - i,
    {
        let t = tables[i];
        let ghost tt = t@;
        assert(tv[i as int] == tt);
        assert(tv.take(i + 1 as int).drop_last() == tv.take(i as int));
        let ghost base = table_policy_pairs(tv.take(i as int));
        let tname = chars_of(t.name.as_str());
        if eq_str(&tname, "table_policies") {
            let ni = column_position(&t.columns, "name");
            let oi = column_position(&t.columns, "ordered");
            let pi = column_position(&t.columns, "primary_key");
            let mut j: usize = 0;
            while j < t.rows.len()
                invariant
                    0 <= j <= t.rows@.len(),
                    tt == t@,
                    opt_index(ni) == position(tt.columns, "name"@, 0),
                    opt_index(oi) == position(tt.columns, "ordered"@, 0),
                    opt_index(pi) == position(tt.columns, "primary_key"@, 0),
                    m@ == map_of(base + table_policy_rows(tt.rows.take(j as int), tt.columns)),
                decreases t.rows@.len() - j,
            {
                let row = &t.rows[j];
                assert(tt.rows[j as int] == ast::strings_view(row@));
                assert(tt.rows.take(j + 1 as int).drop_last() == tt.rows.take(j as int));
                match cell(row, ni) {
                    Some(n) => {
                        let ordered = match cell(row, oi) {
                            Some(v) => {
                                let vc = chars_of(v.as_str());
                                !eq_str(&vc, "false")
                            },
                            None => true,
                        };
                        let primary_key = match cell(row, pi) {
                            Some(v) => if chars_of(v.as_str()).len() == 0 {
                                None
                            } else {
                                Some(v.clone())
                            },
                            None => None,
                        };
                        let policy = TablePolicy { name: n.clone(), ordered, primary_key };
                        assert(policy@ == table_policy_of(tt.rows[j as int], tt.columns, n@));
                        let ghost pv = policy@;
                        let ghost prev = base + table_policy_rows(tt.rows.take(j as int), tt.columns);
                        m.insert(n.clone(), policy);
                        assert(base + table_policy_rows(tt.rows.take(j + 1 as int), tt.columns) == prev.push((n@, pv)));
                        assert(prev.push((n@, pv)).drop_last() == prev);
                    },
                    None => {},
                }
                j += 1;
            }
            assert(tt.rows.take(t.rows@.len() as int) == tt.rows);
        }
        i += 1;
    }
    assert(tv.take(tables@.len() as int) == tv);
    m
}

fn load_relation_policies(tables: &Vec<&Table>) -> (r: StringMap<RelationPolicy>)
    ensures
        r@ == map_of(relation_policy_pairs(tables_view(tables@))),
{
    let ghost tv = tables_view(tables@);
    let mut m: StringMap<RelationPolicy> = StringMap::new();
    let mut i: usize = 0;
    while i < tables.len()
        invariant
            0 <= i <= tables@.len(),
            tv == tables_view(tables@),
            m@ == map_of(relation_policy_pairs(tv.take(i as int))),
        decreases tables@.len() - i,
    {
        let t = tables[i];
        let ghost tt = t@;
        assert(tv[i as int] == tt);
        assert(tv.take(i + 1 as int).drop_last() == tv.take(i as int));
        let ghost base = relation_policy_pairs(tv.take(i as int));
        let tname = chars_of(t.name.as_str());
        if eq_str(&tname, "relation_policies") {
            let pi = column_position(&t.columns, "predicate");
            let si = column_position(&t.columns, "subject_type");
            let oi = column_position(&t.columns, "object_type");
            let ri = column_position(&t.columns, "required");
            let mut j: usize = 0;
            while j < t.rows.len()
                invariant
                    0 <= j <= t.rows@.len(),
                    tt == t@,
                    opt_index(pi) == position(tt.columns, "predicate"@, 0),
                    opt_index(si) == position(tt.columns, "subject_type"@, 0),
                    opt_index(oi) == position(tt.columns, "object_type"@, 0),
                    opt_index(ri) == position(tt.columns, "required"@, 0),
                    m@ == map_of(base + relation_policy_rows(tt.rows.take(j as int), tt.columns)),
                decreases t.rows@.len() - j,
            {
                let row = &t.rows[j];
                assert(tt.rows[j as int] == ast::strings_view(row@));
                assert(tt.rows.take(j + 1 as int).drop_last() == tt.rows.take(j as int));
                match cell(row, pi) {
                    Some(p) => {
                        let subject_type = match cell(row, si) {
                            Some(v) => v.clone(),
                            None => lit("Identifier"),
                        };
                        let object_type = match cell(row, oi) {
                            Some(v) => v.clone(),
                            None => lit("Identifier"),
                        };
                        let required = match cell(row, ri) {
                            Some(v) => {
                                let vc = chars_of(v.as_str());
                                eq_str(&vc, "true")
                            },
                            None => false,
                        };
                        let policy = RelationPolicy { predicate: p.clone(), subject_type, object_type, required };
                        assert(policy@ == relation_policy_of(tt.rows[j as int], tt.columns, p@));
                        let ghost pv = policy@;
                        let ghost prev = base + relation_policy_rows(tt.rows.take(j as int), tt.columns);
                        m.insert(p.clone(), policy);
                        assert(base + relation_policy_rows(tt.rows.take(j + 1 as int), tt.columns) == prev.push((p@, pv)));
                        assert(prev.push((p@, pv)).drop_last() == prev);
                    },
                    None => {},
                }
                j += 1;
            }
            assert(tt.rows.take(t.rows@.len() as int) == tt.rows);
        }
        i += 1;
    }
    assert(tv.take(tables@.len() as int) == tv);
    m
}

impl Schema {
    /// Build a Schema from a parsed SDIF document whose `kind` field is
    /// `Schema`.
    pub fn from_document(doc: &Document) -> (r: Result<Schema, SchemaError>)
        ensures
            match r {
                Ok(s) => {
                    &&& kind_error(doc@) is None
                    &&& s.required_fields@ == set_of(required_values(doc_tables(doc@)))
                    &&& s.field_types@ == map_of(table_pairs(doc_tables(doc@), "field_types"@, "field"@, "type"@))
                    &&& s.required_table_columns@ == group_sets(
                        table_pairs(doc_tables(doc@), "required_columns"@, "table"@, "column"@),
                    )
                    &&& s.table_column_types@ == group_maps(column_type_triples(doc_tables(doc@)))
                    &&& s.table_policies@ == map_of(table_policy_pairs(doc_tables(doc@)))
                    &&& s.relation_policies@ == map_of(relation_policy_pairs(doc_tables(doc@)))
                    &&& s.allowed_tables@.len() == 0
                    &&& s.required_columns@.len() == 0
                    &&& s.allowed_predicates@.len() == 0
                    &&& s.allowed_rule_functions@.len() == 0
                },
                Err(e) => kind_error(doc@) == Some(e.0@),
            },
    {
        let fields = doc.fields();
        let ghost fv = fields@.map_values(|x: &ast::Field| x@);
        let mut k: usize = 0;
        while k < fields.len()
            invariant
                0 <= k <= fields@.len(),
                fv == fields@.map_values(|x: &ast::Field| x@),
                fv == ast::fields_of(ast::statements_view(doc.statements@)),
                first_with_key(fv, "kind"@, 0) == first_with_key(fv, "kind"@, k as int),
            ensures
                0 <= k <= fields@.len(),
                first_with_key(fv, "kind"@, 0) == first_with_key(fv, "kind"@, k as int),
                k < fields@.len() ==> fv[k as int].key == "kind"@,
            decreases fields@.len() - k,
        {
            assert(fv[k as int] == fields@[k as int]@);
            let key = chars_of(fields[k].key.as_str());
            if eq_str(&key, "kind") {
                break;
            }
            k += 1;
        }
        if k == fields.len() {
            return Err(SchemaError(lit("expected schema document with `kind Schema`, got `<missing>`")));
        }
        assert(fv[k as int] == fields@[k as int]@);
        let value = chars_of(fields[k].value.as_str());
        if !eq_str(&value, "Schema") {
            let mut m = chars_of("expected schema document with `kind Schema`, got `");
            push_all(&mut m, &value);
            push_str(&mut m, "`");
            return Err(SchemaError(string_of(&m)));
        }
        let tables = doc.tables();
        assert(tables_view(tables@) == doc_tables(doc@));
        Ok(
            Schema {
                required_fields: load_required_fields(&tables),
                field_types: load_field_types(&tables),
                required_table_columns: load_required_columns(&tables),
                table_column_types: load_column_types(&tables),
                table_policies: load_table_policies(&tables),
                relation_policies: load_relation_policies(&tables),
                allowed_tables: Vec::new(),
                required_columns: StringMap::new(),
                allowed_predicates: Vec::new(),
                allowed_rule_functions: Vec::new(),
            },
        )
    }
}

} // verus!
