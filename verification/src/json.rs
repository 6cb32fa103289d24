//! JSON <-> SDIF conversion.
//!
//! `document_to_json` converts a parsed [`Document`] into a [`JsonValue`];
//! `json_to_sdif` encodes a JSON object as SDIF text with an `@sdif 1.0`
//! header. Relations and rules appear under the keys `_relations` and
//! `_rules`.
//!
//! A [`JsonValue`] keeps numbers by their JSON text, and object members
//! sorted by key with each key once (the order in which a JSON object map
//! of `serde_json` keeps them).
use vstd::prelude::*;

use crate::ast::{
    Document, Field, ObjectBlock, Relation, SpecField, SpecObjectBlock, SpecRelation, SpecStatement,
    SpecTable, Statement, Table,
};
use crate::order::{chars_lt, str_lt};
use crate::rule::{int_text, parse_i64, push_int, spec_parse_i64};
use crate::text::{chars_eq, chars_of, eq_str, push_all, push_str, slice_to_vec, string_of};
use crate::ast;
use crate::text;

verus! {

broadcast use {vstd::string::group_string_axioms, vstd::std_specs::vec::group_vec_axioms};

// ---------------------------------------------------------------------------
// Numbers
// ---------------------------------------------------------------------------

/// `s` without one leading `+` or `-`.
pub open spec fn unsigned_part(s: Seq<char>) -> Seq<char> {
    if s.len() > 0 && (s[0] == '+' || s[0] == '-') {
        s.skip(1)
    } else {
        s
    }
}

/// `0`, or a non-zero digit followed by digits.
pub open spec fn is_natural_text(d: Seq<char>) -> bool {
    d == "0"@ || (d.len() > 0 && text::is_ascii_digit(d[0]) && d[0] != '0' && crate::rule::all_digits(d))
}

/// An integer literal: `[+-]?(0|[1-9][0-9]*)`.
pub open spec fn is_integer_text(s: Seq<char>) -> bool {
    is_natural_text(unsigned_part(s))
}

/// The integer an integer literal denotes, when it fits in an `i64`.
pub open spec fn spec_parse_integer(s: Seq<char>) -> Option<i64> {
    if is_integer_text(s) {
        spec_parse_i64(s)
    } else {
        None
    }
}

/// A decimal literal: `[+-]?(0|[1-9][0-9]*)\.[0-9]+`.
pub open spec fn is_decimal_text(s: Seq<char>) -> bool {
    let d = unsigned_part(s);
    match text::find_char(d, '.') {
        Some(p) => {
            let frac = d.skip(p + 1);
            frac.len() > 0 && crate::rule::all_digits(frac) && is_natural_text(d.take(p))
        },
        None => false,
    }
}

fn unsigned_chars(s: &[char]) -> (r: Vec<char>)
    ensures
        r@ == unsigned_part(s@),
{
    if s.len() > 0 && (s[0] == '+' || s[0] == '-') {
        slice_to_vec(s, 1, s.len())
    } else {
        slice_to_vec(s, 0, s.len())
    }
}

fn all_ascii_digits(d: &[char]) -> (b: bool)
    ensures
        b == crate::rule::all_digits(d@),
{
    let mut i: usize = 0;
    while i < d.len()
        invariant
            0 <= i <= d@.len(),
            forall|j: int| 0 <= j < i ==> text::is_ascii_digit(#[trigger] d@[j]),
        decreases d@.len() - i,
    {
        if !crate::text::is_ascii_digit_char(d[i]) {
            return false;
        }
        i += 1;
    }
    true
}

fn is_natural(d: &[char]) -> (b: bool)
    ensures
        b == is_natural_text(d@),
{
    eq_str(d, "0") || (d.len() > 0 && crate::text::is_ascii_digit_char(d[0]) && d[0] != '0'
        && all_ascii_digits(d))
}

/// Whether `s` is an integer literal `[+-]?(0|[1-9][0-9]*)`.
pub fn is_integer(s: &[char]) -> (b: bool)
    ensures
        b == is_integer_text(s@),
{
    let d = unsigned_chars(s);
    is_natural(&d)
}

/// The value of an integer literal `[+-]?(0|[1-9][0-9]*)` that fits in an
/// `i64`.
pub fn parse_integer(s: &[char]) -> (r: Option<i64>)
    ensures
        r == spec_parse_integer(s@),
{
    let d = unsigned_chars(s);
    if is_natural(&d) {
        parse_i64(s)
    } else {
        None
    }
}

/// Whether `s` is a decimal literal `[+-]?(0|[1-9][0-9]*)\.[0-9]+`.
pub fn is_decimal(s: &[char]) -> (b: bool)
    ensures
        b == is_decimal_text(s@),
{
    let d = unsigned_chars(s);
    proof { text::lemma_find_from(d@, '.', 0); }
    match crate::text::find_char_in(&d, '.') {
        Some(p) => {
            let n = d.len();
            assert(p < n);
            let frac = slice_to_vec(&d, p + 1, n);
            assert(frac@ == d@.skip(p + 1));
            let int_part = slice_to_vec(&d, 0, p);
            frac.len() > 0 && all_ascii_digits(&frac) && is_natural(&int_part)
        },
        None => false,
    }
}


// ---------------------------------------------------------------------------
// JSON values
// ---------------------------------------------------------------------------

/// A JSON value.
#[derive(Debug, PartialEq)]
pub enum JsonValue {
    Null,
    Bool(bool),
    /// A number, by its JSON text (e.g. `42`, `-1.5`).
    Number(String),
    String(String),
    Array(Vec<JsonValue>),
    Object(JsonObject),
}

/// A JSON object: its members sorted by key, each key once.
#[derive(Debug, PartialEq)]
pub struct JsonObject {
    entries: Vec<(String, JsonValue)>,
}

pub enum SpecJson {
    Null,
    Bool(bool),
    Number(Seq<char>),
    Str(Seq<char>),
    Array(Seq<SpecJson>),
    Object(Seq<(Seq<char>, SpecJson)>),
}

pub closed spec fn json_view(v: &JsonValue) -> SpecJson
    decreases v,
{
    match v {
        JsonValue::Null => SpecJson::Null,
        JsonValue::Bool(b) => SpecJson::Bool(*b),
        JsonValue::Number(n) => SpecJson::Number(n@),
        JsonValue::String(s) => SpecJson::Str(s@),
        JsonValue::Array(a) => SpecJson::Array(
            Seq::new(
                a@.len(),
                |i: int|
                    if 0 <= i < a@.len() {
                        json_view(&a@[i])
                    } else {
                        SpecJson::Null
                    },
            ),
        ),
        JsonValue::Object(o) => SpecJson::Object(
            Seq::new(
                o.entries@.len(),
                |i: int|
                    if 0 <= i < o.entries@.len() {
                        (o.entries@[i].0@, json_view(&o.entries@[i].1))
                    } else {
                        (Seq::<char>::empty(), SpecJson::Null)
                    },
            ),
        ),
    }
}

impl View for JsonValue {
    type V = SpecJson;

    open spec fn view(&self) -> SpecJson {
        json_view(self)
    }
}

pub open spec fn jsons_view(v: Seq<JsonValue>) -> Seq<SpecJson> {
    v.map_values(|x: JsonValue| json_view(&x))
}

pub open spec fn members_view(v: Seq<(String, JsonValue)>) -> Seq<(Seq<char>, SpecJson)> {
    v.map_values(|e: (String, JsonValue)| (e.0@, json_view(&e.1)))
}

impl View for JsonObject {
    type V = Seq<(Seq<char>, SpecJson)>;

    closed spec fn view(&self) -> Seq<(Seq<char>, SpecJson)> {
        members_view(self.entries@)
    }
}

/// The views of the scalar values: `null`, booleans, numbers by their text
/// and strings.
pub proof fn lemma_scalar_view(v: &JsonValue)
    ensures
        v is Null ==> json_view(v) == SpecJson::Null,
        v matches JsonValue::Bool(b) ==> json_view(v) == SpecJson::Bool(*b),
        v matches JsonValue::Number(n) ==> json_view(v) == SpecJson::Number(n@),
        v matches JsonValue::String(t) ==> json_view(v) == SpecJson::Str(t@),
{
}

pub proof fn lemma_array_view(a: Vec<JsonValue>)
    ensures
        json_view(&JsonValue::Array(a)) == SpecJson::Array(jsons_view(a@)),
{
    let v = json_view(&JsonValue::Array(a));
    assert(v->Array_0 =~= jsons_view(a@));
}

pub proof fn lemma_object_view(o: JsonObject)
    ensures
        json_view(&JsonValue::Object(o)) == SpecJson::Object(o@),
{
    let v = json_view(&JsonValue::Object(o));
    assert(v->Object_0 =~= members_view(o.entries@));
}

/// Where key `k` belongs in sorted members: the first position at or
/// after `j` whose key is not less than `k`.
pub open spec fn member_pos(m: Seq<(Seq<char>, SpecJson)>, k: Seq<char>, j: int) -> int
    decreases m.len() - j,
{
    if j < 0 || j >= m.len() {
        m.len() as int
    } else if str_lt(m[j].0, k) {
        member_pos(m, k, j + 1)
    } else {
        j
    }
}

/// `m` with `k` bound to `v`: the member replaced, or inserted in key
/// order.
pub open spec fn obj_insert(m: Seq<(Seq<char>, SpecJson)>, k: Seq<char>, v: SpecJson) -> Seq<
    (Seq<char>, SpecJson),
> {
    let p = member_pos(m, k, 0);
    if p < m.len() && m[p].0 == k {
        m.update(p, (k, v))
    } else {
        m.insert(p, (k, v))
    }
}

impl JsonObject {
    pub fn new() -> (r: Self)
        ensures
            r@ == Seq::<(Seq<char>, SpecJson)>::empty(),
    {
        let r = JsonObject { entries: Vec::new() };
        assert(r@ =~= Seq::<(Seq<char>, SpecJson)>::empty());
        r
    }

    pub fn len(&self) -> (n: usize)
        ensures
            n == self@.len(),
    {
        self.entries.len()
    }

    /// The key and value of member `i`.
    pub fn entry_at(&self, i: usize) -> (r: (&String, &JsonValue))
        requires
            i < self@.len(),
        ensures
            r.0@ == self@[i as int].0,
            r.1@ == self@[i as int].1,
    {
        (&self.entries[i].0, &self.entries[i].1)
    }

    fn key_lt_at(&self, p: usize, k: &[char]) -> (b: bool)
        requires
            p < self@.len(),
        ensures
            b == str_lt(self@[p as int].0, k@),
    {
        assert(self@[p as int].0 == self.entries@[p as int].0@);
        let c = chars_of(self.entries[p].0.as_str());
        chars_lt(&c, k)
    }

    fn key_eq_at(&self, p: usize, k: &[char]) -> (b: bool)
        requires
            p < self@.len(),
        ensures
            b == (self@[p as int].0 == k@),
    {
        assert(self@[p as int].0 == self.entries@[p as int].0@);
        let c = chars_of(self.entries[p].0.as_str());
        chars_eq(&c, k)
    }

    /// Bind `key` to `value`, replacing an existing member.
    pub fn insert(&mut self, key: String, value: JsonValue)
        ensures
            final(self)@ == obj_insert(old(self)@, key@, value@),
    {
        let k = chars_of(key.as_str());
        let ghost m = self@;
        let mut p: usize = 0;
        while p < self.entries.len() && self.key_lt_at(p, &k)
            invariant
                0 <= p <= self.entries@.len(),
                m == self@,
                k@ == key@,
                member_pos(m, k@, 0) == member_pos(m, k@, p as int),
            decreases self.entries@.len() - p,
        {
            assert(m[p as int].0 == self.entries@[p as int].0@);
            p += 1;
        }
        proof {
            if p < self.entries@.len() {
                assert(m[p as int].0 == self.entries@[p as int].0@);
            }
        }
        assert(member_pos(m, k@, 0) == p);
        let ghost kv = key@;
        let ghost vv = value@;
        if p < self.entries.len() && self.key_eq_at(p, &k) {
            assert(m[p as int].0 == self.entries@[p as int].0@);
            self.entries.set(p, (key, value));
            assert(self@ =~= m.update(p as int, (kv, vv)));
        } else {
            proof {
                if p < self.entries@.len() {
                    assert(m[p as int].0 == self.entries@[p as int].0@);
                }
            }
            self.entries.insert(p, (key, value));
            assert(self@ =~= m.insert(p as int, (kv, vv)));
        }
    }

    /// The value of member `key`.
    pub fn get(&self, key: &str) -> (r: Option<&JsonValue>)
        ensures
            match r {
                Some(v) => crate::collections::lookup(self@, key@) == Some(v@),
                None => crate::collections::lookup(self@, key@) is None,
            },
    {
        let k = chars_of(key);
        let ghost m = self@;
        let mut i: usize = 0;
        while i < self.entries.len()
            invariant
                0 <= i <= self.entries@.len(),
                m == self@,
                k@ == key@,
                crate::collections::key_index(m, k@, 0) == crate::collections::key_index(m, k@, i as int),
            decreases self.entries@.len() - i,
        {
            assert(m[i as int] == (self.entries@[i as int].0@, json_view(&self.entries@[i as int].1)));
            let c = chars_of(self.entries[i].0.as_str());
            if chars_eq(&c, &k) {
                assert(m[i as int].0 == k@);
                assert(crate::collections::key_index(m, k@, i as int) == Some(i as int));
                let r = &self.entries[i].1;
                assert(r@ == m[i as int].1);
                return Some(r);
            }
            i += 1;
        }
        None
    }
}

impl JsonValue {
    /// The member `key` of an object.
    pub fn get(&self, key: &str) -> (r: Option<&JsonValue>)
        ensures
            match (self@, r) {
                (SpecJson::Object(m), Some(v)) => crate::collections::lookup(m, key@) == Some(v@),
                (SpecJson::Object(m), None) => crate::collections::lookup(m, key@) is None,
                (_, r) => r is None,
            },
    {
        match self {
            JsonValue::Object(o) => {
                proof { lemma_object_view(*o); }
                o.get(key)
            },
            _ => None,
        }
    }

    /// Element `i` of an array.
    pub fn at(&self, i: usize) -> (r: Option<&JsonValue>)
        ensures
            match (self@, r) {
                (SpecJson::Array(a), Some(v)) => i < a.len() && a[i as int] == v@,
                (SpecJson::Array(a), None) => i >= a.len(),
                (_, r) => r is None,
            },
    {
        match self {
            JsonValue::Array(a) => {
                proof { lemma_array_view(*a); }
                if i < a.len() {
                    Some(&a[i])
                } else {
                    None
                }
            },
            _ => None,
        }
    }

    /// The text of a string.
    pub fn as_str(&self) -> (r: Option<&str>)
        ensures
            match (self@, r) {
                (SpecJson::Str(s), Some(t)) => t@ == s,
                (SpecJson::Str(_), None) => false,
                (_, r) => r is None,
            },
    {
        match self {
            JsonValue::String(s) => Some(s.as_str()),
            _ => None,
        }
    }

    pub fn is_array(&self) -> (b: bool)
        ensures
            b == self@ is Array,
    {
        match self {
            JsonValue::Array(_) => true,
            _ => false,
        }
    }
}


// ---------------------------------------------------------------------------
// Document to JSON
// ---------------------------------------------------------------------------

/// An unquoted scalar as the most specific JSON value: `null`, a boolean,
/// an integer that fits in an `i64` (normalised), a decimal (by its text),
/// or else the string itself.
pub open spec fn coerce_scalar(raw: Seq<char>) -> SpecJson {
    if raw == "null"@ {
        SpecJson::Null
    } else if raw == "true"@ {
        SpecJson::Bool(true)
    } else if raw == "false"@ {
        SpecJson::Bool(false)
    } else {
        match spec_parse_integer(raw) {
            Some(n) => SpecJson::Number(int_text(n)),
            None => if is_decimal_text(raw) {
                SpecJson::Number(raw)
            } else {
                SpecJson::Str(raw)
            },
        }
    }
}

/// A field's value: a string when it was quoted, else coerced.
pub open spec fn field_json(f: SpecField) -> SpecJson {
    if f.quoted {
        SpecJson::Str(f.value)
    } else {
        coerce_scalar(f.value)
    }
}

/// The escape after a backslash in a quoted table cell.
pub open spec fn cell_escape(c: char) -> Seq<char> {
    if c == '"' {
        seq!['"']
    } else if c == '\\' {
        seq!['\\']
    } else if c == 'n' {
        seq!['\n']
    } else if c == 't' {
        seq!['\t']
    } else {
        seq!['\\', c]
    }
}

/// Escapes resolved: `\"`, `\\`, `\n`, `\t`; any other backslash is kept.
pub open spec fn unescape(s: Seq<char>) -> Seq<char>
    decreases s.len(),
{
    if s.len() == 0 {
        Seq::empty()
    } else if s[0] == '\\' {
        if s.len() == 1 {
            seq!['\\']
        } else {
            cell_escape(s[1]) + unescape(s.skip(2))
        }
    } else {
        seq![s[0]] + unescape(s.skip(1))
    }
}

/// A cell's text, with surrounding quotes removed and escapes resolved.
pub open spec fn unquote_cell(s: Seq<char>) -> Seq<char> {
    if s.len() >= 2 && s[0] == '"' && s.last() == '"' {
        unescape(s.subrange(1, s.len() - 1))
    } else {
        s
    }
}

/// A column name without its trailing `$` (the quoted-column marker).
pub open spec fn column_name(c: Seq<char>) -> Seq<char> {
    if c.len() > 0 && c.last() == '$' {
        c.drop_last()
    } else {
        c
    }
}

/// Cell `j` of a row as JSON (always a string).
pub open spec fn cell_json(t: SpecTable, row: Seq<Seq<char>>, j: int) -> SpecJson {
    let col = t.columns[j];
    if t.quoted_columns.contains(j as usize) || (col.len() > 0 && col.last() == '$') {
        SpecJson::Str(unquote_cell(row[j]))
    } else {
        SpecJson::Str(row[j])
    }
}

/// The members for the first `n` cells of a row.
pub open spec fn row_members(t: SpecTable, row: Seq<Seq<char>>, n: int) -> Seq<(Seq<char>, SpecJson)>
    decreases n,
{
    if n <= 0 {
        Seq::empty()
    } else {
        obj_insert(row_members(t, row, n - 1), column_name(t.columns[n - 1]), cell_json(t, row, n - 1))
    }
}

pub open spec fn min(a: int, b: int) -> int {
    if a < b {
        a
    } else {
        b
    }
}

/// A table as an array of row objects keyed by column.
pub open spec fn table_json(t: SpecTable) -> SpecJson {
    SpecJson::Array(
        t.rows.map_values(
            |row: Seq<Seq<char>>|
                SpecJson::Object(row_members(t, row, min(t.columns.len() as int, row.len() as int))),
        ),
    )
}

pub open spec fn relation_json(r: SpecRelation) -> SpecJson {
    let o = if r.object_quoted {
        SpecJson::Str(r.object)
    } else {
        coerce_scalar(r.object)
    };
    SpecJson::Object(
        obj_insert(
            obj_insert(obj_insert(Seq::empty(), "subject"@, SpecJson::Str(r.subject)), "predicate"@, SpecJson::Str(r.predicate)),
            "object"@,
            o,
        ),
    )
}

pub open spec fn is_item_statement(s: SpecStatement) -> bool {
    s matches SpecStatement::ObjectBlock(o) && o.key == "__item"@
}

pub open spec fn all_items(stmts: Seq<SpecStatement>) -> bool {
    forall|i: int| 0 <= i < stmts.len() ==> is_item_statement(#[trigger] stmts[i])
}

/// Members, relations and rules gathered from statements `k..`.
pub type Gathered = (Seq<(Seq<char>, SpecJson)>, Seq<SpecJson>, Seq<SpecJson>);

/// Statements as JSON: an array when they are all `__item` blocks, else an
/// object of their fields, blocks, tables and narratives, with relations
/// under `_relations` and rules under `_rules`.
pub open spec fn stmts_json(stmts: Seq<SpecStatement>) -> SpecJson
    decreases stmts, stmts.len() + 1,
{
    if stmts.len() > 0 && all_items(stmts) {
        SpecJson::Array(
            Seq::new(
                stmts.len(),
                |i: int|
                    if 0 <= i < stmts.len() {
                        item_json(stmts[i])
                    } else {
                        SpecJson::Null
                    },
            ),
        )
    } else {
        finish_object(gather(stmts, 0, (Seq::empty(), Seq::empty(), Seq::empty())))
    }
}

/// Folds statements `k..` into what is gathered so far.
pub open spec fn gather(stmts: Seq<SpecStatement>, k: int, acc: Gathered) -> Gathered
    decreases stmts, stmts.len() - k,
{
    if k < 0 || k >= stmts.len() {
        acc
    } else {
        let (m, rels, rules) = acc;
        let next = match stmts[k] {
            SpecStatement::Field(f) => (obj_insert(m, f.key, field_json(f)), rels, rules),
            SpecStatement::ObjectBlock(o) => (obj_insert(m, o.key, stmts_json(o.statements)), rels, rules),
            SpecStatement::Table(t) => (obj_insert(m, t.name, table_json(t)), rels, rules),
            SpecStatement::Relation(r) => (m, rels.push(relation_json(r)), rules),
            SpecStatement::Rule(r) => (m, rels, rules.push(SpecJson::Str(r.source))),
            SpecStatement::Narrative(n) => (obj_insert(m, n.key, SpecJson::Str(n.text)), rels, rules),
        };
        gather(stmts, k + 1, next)
    }
}

pub open spec fn finish_object(acc: Gathered) -> SpecJson {
    let (m, rels, rules) = acc;
    let m1 = if rels.len() > 0 {
        obj_insert(m, "_relations"@, SpecJson::Array(rels))
    } else {
        m
    };
    let m2 = if rules.len() > 0 {
        obj_insert(m1, "_rules"@, SpecJson::Array(rules))
    } else {
        m1
    };
    SpecJson::Object(m2)
}

/// An `__item` block as JSON: a single `__value` field, block or narrative
/// stands for itself; anything else is the block's statements as JSON.
pub open spec fn item_json(s: SpecStatement) -> SpecJson
    decreases s, 0int,
{
    match s {
        SpecStatement::ObjectBlock(b) => if b.statements.len() == 1 {
            match b.statements[0] {
                SpecStatement::Field(f) => if f.key == "__value"@ {
                    field_json(f)
                } else {
                    stmts_json(b.statements)
                },
                SpecStatement::ObjectBlock(o) => if o.key == "__value"@ {
                    stmts_json(o.statements)
                } else {
                    stmts_json(b.statements)
                },
                SpecStatement::Narrative(n) => if n.key == "__value"@ {
                    SpecJson::Str(n.text)
                } else {
                    stmts_json(b.statements)
                },
                _ => stmts_json(b.statements),
            }
        } else {
            stmts_json(b.statements)
        },
        _ => SpecJson::Null,
    }
}


fn json_string(s: &[char]) -> (r: JsonValue)
    ensures
        r@ == SpecJson::Str(s@),
{
    let r = JsonValue::String(string_of(s));
    assert(json_view(&r) == SpecJson::Str(s@)) by {
        reveal_with_fuel(json_view, 1);
    }
    r
}

fn json_number(s: &[char]) -> (r: JsonValue)
    ensures
        r@ == SpecJson::Number(s@),
{
    let r = JsonValue::Number(string_of(s));
    r
}

/// An unquoted scalar as the most specific JSON value.
pub fn coerce(raw: &[char]) -> (r: JsonValue)
    ensures
        r@ == coerce_scalar(raw@),
{
    if eq_str(raw, "null") {
        return JsonValue::Null;
    }
    if eq_str(raw, "true") {
        return JsonValue::Bool(true);
    }
    if eq_str(raw, "false") {
        return JsonValue::Bool(false);
    }
    match parse_integer(raw) {
        Some(n) => {
            let mut t: Vec<char> = Vec::new();
            push_int(&mut t, n);
            assert(t@ =~= int_text(n));
            json_number(&t)
        },
        None => if is_decimal(raw) {
            json_number(raw)
        } else {
            json_string(raw)
        },
    }
}

fn field_to_json(f: &Field) -> (r: JsonValue)
    ensures
        r@ == field_json(f@),
{
    let v = chars_of(f.value.as_str());
    if f.quoted {
        json_string(&v)
    } else {
        coerce(&v)
    }
}

/// Escapes resolved (see `unescape`).
fn unescape_chars(s: &[char]) -> (r: Vec<char>)
    ensures
        r@ == unescape(s@),
{
    let mut out: Vec<char> = Vec::new();
    let mut i: usize = 0;
    assert(s@.skip(0) == s@);
    while i < s.len()
        invariant
            0 <= i <= s@.len(),
            unescape(s@) == out@ + unescape(s@.skip(i as int)),
        decreases s@.len() - i,
    {
        let ghost t = s@.skip(i as int);
        let ghost before = out@;
        if s[i] == '\\' {
            if i + 1 == s.len() {
                out.push('\\');
                assert(s@.skip(i + 1 as int) =~= Seq::<char>::empty());
                i += 1;
            } else {
                let c = s[i + 1];
                if c == '"' {
                    out.push('"');
                } else if c == '\\' {
                    out.push('\\');
                } else if c == 'n' {
                    out.push('\n');
                } else if c == 't' {
                    out.push('\t');
                } else {
                    out.push('\\');
                    out.push(c);
                }
                assert(out@ =~= before + cell_escape(t[1]));
                assert(t.skip(2) =~= s@.skip(i + 2 as int));
                i += 2;
            }
        } else {
            out.push(s[i]);
            assert(out@ =~= before + seq![t[0]]);
            assert(t.skip(1) =~= s@.skip(i + 1 as int));
            i += 1;
        }
    }
    assert(s@.skip(s@.len() as int) =~= Seq::<char>::empty());
    assert(out@ + Seq::<char>::empty() =~= out@);
    out
}

fn unquote_cell_chars(s: &[char]) -> (r: Vec<char>)
    ensures
        r@ == unquote_cell(s@),
{
    if s.len() >= 2 && s[0] == '"' && s[s.len() - 1] == '"' {
        let inner = slice_to_vec(s, 1, s.len() - 1);
        unescape_chars(&inner)
    } else {
        slice_to_vec(s, 0, s.len())
    }
}

fn table_to_json(t: &Table) -> (r: JsonValue)
    ensures
        r@ == table_json(t@),
{
    let ghost tv = t@;
    let ghost rows_json = tv.rows.map_values(
        |row: Seq<Seq<char>>|
            SpecJson::Object(row_members(tv, row, min(tv.columns.len() as int, row.len() as int))),
    );
    let mut arr: Vec<JsonValue> = Vec::new();
    let mut i: usize = 0;
    while i < t.rows.len()
        invariant
            0 <= i <= t.rows@.len(),
            tv == t@,
            rows_json == tv.rows.map_values(
                |row: Seq<Seq<char>>|
                    SpecJson::Object(row_members(tv, row, min(tv.columns.len() as int, row.len() as int))),
            ),
            jsons_view(arr@) == rows_json.take(i as int),
        decreases t.rows@.len() - i,
    {
        let row = &t.rows[i];
        let ghost rv = ast::strings_view(row@);
        assert(tv.rows[i as int] == rv);
        let n = if t.columns.len() < row.len() {
            t.columns.len()
        } else {
            row.len()
        };
        let mut obj = JsonObject::new();
        let mut j: usize = 0;
        while j < n
            invariant
                0 <= j <= n,
                n == min(tv.columns.len() as int, rv.len() as int),
                tv == t@,
                rv == ast::strings_view(row@),
                obj@ == row_members(tv, rv, j as int),
            decreases n - j,
        {
            let col = chars_of(t.columns[j].as_str());
            assert(tv.columns[j as int] == t.columns@[j as int]@);
            assert(rv[j as int] == row@[j as int]@);
            let cell = chars_of(row[j].as_str());
            let dollar = col.len() > 0 && col[col.len() - 1] == '$';
            let name = if dollar {
                slice_to_vec(&col, 0, col.len() - 1)
            } else {
                slice_to_vec(&col, 0, col.len())
            };
            assert(name@ == column_name(col@));
            let value = if crate::canonical::contains_index(&t.quoted_columns, j) || dollar {
                let u = unquote_cell_chars(&cell);
                json_string(&u)
            } else {
                json_string(&cell)
            };
            assert(value@ == cell_json(tv, rv, j as int));
            obj.insert(string_of(&name), value);
            j += 1;
        }
        let v = JsonValue::Object(obj);
        proof { lemma_object_view(obj); }
        let ghost before = jsons_view(arr@);
        arr.push(v);
        assert(jsons_view(arr@) == before.push(v@));
        i += 1;
        assert(rows_json.take(i as int) == rows_json.take(i - 1 as int).push(rows_json[i - 1]));
    }
    assert(rows_json.take(t.rows@.len() as int) == rows_json);
    let r = JsonValue::Array(arr);
    proof { lemma_array_view(arr); }
    r
}

fn relation_to_json(rel: &Relation) -> (r: JsonValue)
    ensures
        r@ == relation_json(rel@),
{
    let obj_chars = chars_of(rel.object.as_str());
    let o = if rel.object_quoted {
        json_string(&obj_chars)
    } else {
        coerce(&obj_chars)
    };
    let mut m = JsonObject::new();
    let s = chars_of(rel.subject.as_str());
    m.insert(lit_str("subject"), json_string(&s));
    let p = chars_of(rel.predicate.as_str());
    m.insert(lit_str("predicate"), json_string(&p));
    m.insert(lit_str("object"), o);
    let r = JsonValue::Object(m);
    proof { lemma_object_view(m); }
    r
}

fn lit_str(s: &str) -> (r: String)
    ensures
        r@ == s@,
{
    crate::scan::lit(s)
}

fn is_item_block(s: &Statement) -> (b: bool)
    ensures
        b == is_item_statement(s@),
{
    match s {
        Statement::ObjectBlock(o) => {
            proof { ast::lemma_object_view(*o); }
            let k = chars_of(o.key.as_str());
            eq_str(&k, "__item")
        },
        _ => false,
    }
}

/// Statements as JSON (see `stmts_json`).
fn statements_to_json(stmts: &Vec<Statement>) -> (r: JsonValue)
    ensures
        r@ == stmts_json(ast::statements_view(stmts@)),
    decreases ast::statements_view(stmts@), 1int,
{
    let ghost sv = ast::statements_view(stmts@);
    let mut all = stmts.len() > 0;
    let mut i: usize = 0;
    while i < stmts.len()
        invariant
            0 <= i <= stmts@.len(),
            sv == ast::statements_view(stmts@),
            all == (stmts@.len() > 0 && forall|j: int| 0 <= j < i ==> is_item_statement(#[trigger] sv[j])),
        decreases stmts@.len() - i,
    {
        assert(sv[i as int] == stmts@[i as int]@);
        if !is_item_block(&stmts[i]) {
            all = false;
        }
        i += 1;
    }
    if all {
        assert(all_items(sv));
        let ghost target = Seq::new(
            sv.len(),
            |q: int|
                if 0 <= q < sv.len() {
                    item_json(sv[q])
                } else {
                    SpecJson::Null
                },
        );
        let mut arr: Vec<JsonValue> = Vec::new();
        let mut k: usize = 0;
        while k < stmts.len()
            invariant
                0 <= k <= stmts@.len(),
                sv == ast::statements_view(stmts@),
                target == Seq::new(
                    sv.len(),
                    |q: int|
                        if 0 <= q < sv.len() {
                            item_json(sv[q])
                        } else {
                            SpecJson::Null
                        },
                ),
                jsons_view(arr@) == target.take(k as int),
            decreases stmts@.len() - k,
        {
            proof {
                assert(sv[k as int] == stmts@[k as int]@);
                assert(decreases_to!(sv => sv[k as int]));
            }
            let x = item_to_json(&stmts[k]);
            let ghost before = jsons_view(arr@);
            arr.push(x);
            assert(jsons_view(arr@) == before.push(x@));
            k += 1;
            assert(target.take(k as int) == target.take(k - 1 as int).push(target[k - 1]));
        }
        assert(target.take(stmts@.len() as int) == target);
        proof {
            let whole = stmts_json(sv);
            assert(whole is Array);
            let a = whole->Array_0;
            assert(a.len() == target.len());
            assert forall|q: int| 0 <= q < a.len() implies a[q] == target[q] by {}
            assert(a =~= target);
        }
        let r = JsonValue::Array(arr);
        proof { lemma_array_view(arr); }
        return r;
    }
    let mut m = JsonObject::new();
    let mut rels: Vec<JsonValue> = Vec::new();
    let mut rules: Vec<JsonValue> = Vec::new();
    let ghost init: Gathered = (Seq::empty(), Seq::empty(), Seq::empty());
    assert(jsons_view(rels@) =~= Seq::<SpecJson>::empty());
    assert(jsons_view(rules@) =~= Seq::<SpecJson>::empty());
    let mut k: usize = 0;
    while k < stmts.len()
        invariant
            0 <= k <= stmts@.len(),
            sv == ast::statements_view(stmts@),
            init == (Seq::<(Seq<char>, SpecJson)>::empty(), Seq::<SpecJson>::empty(), Seq::<SpecJson>::empty()),
            gather(sv, 0, init) == gather(sv, k as int, (m@, jsons_view(rels@), jsons_view(rules@))),
        decreases stmts@.len() - k,
    {
        assert(sv[k as int] == stmts@[k as int]@);
        match &stmts[k] {
            Statement::Field(f) => {
                m.insert(f.key.clone(), field_to_json(f));
            },
            Statement::ObjectBlock(o) => {
                proof {
                    ast::lemma_object_view(*o);
                    let s = sv[k as int];
                    assert(decreases_to!(sv => s));
                    assert(decreases_to!(s => s->ObjectBlock_0));
                    assert(decreases_to!(s->ObjectBlock_0 => s->ObjectBlock_0.statements));
                }
                let x = statements_to_json(&o.statements);
                m.insert(o.key.clone(), x);
            },
            Statement::Table(t) => {
                m.insert(t.name.clone(), table_to_json(t));
            },
            Statement::Relation(r) => {
                let x = relation_to_json(r);
                let ghost before = jsons_view(rels@);
                rels.push(x);
                assert(jsons_view(rels@) == before.push(x@));
            },
            Statement::Rule(r) => {
                let src = chars_of(r.source.as_str());
                let x = json_string(&src);
                let ghost before = jsons_view(rules@);
                rules.push(x);
                assert(jsons_view(rules@) == before.push(x@));
            },
            Statement::Narrative(n) => {
                let text = chars_of(n.text.as_str());
                m.insert(n.key.clone(), json_string(&text));
            },
        }
        k += 1;
    }
    let ghost gr = jsons_view(rels@);
    let ghost gu = jsons_view(rules@);
    if rels.len() > 0 {
        let a = JsonValue::Array(rels);
        proof { lemma_array_view(rels); }
        m.insert(lit_str("_relations"), a);
    }
    if rules.len() > 0 {
        let a = JsonValue::Array(rules);
        proof { lemma_array_view(rules); }
        m.insert(lit_str("_rules"), a);
    }
    let r = JsonValue::Object(m);
    proof { lemma_object_view(m); }
    r
}

/// An `__item` block as JSON (see `item_json`).
fn item_to_json(s: &Statement) -> (r: JsonValue)
    ensures
        r@ == item_json(s@),
    decreases s@, 0int,
{
    match s {
        Statement::ObjectBlock(b) => {
            proof {
                ast::lemma_object_view(*b);
                let sv = s@;
                assert(decreases_to!(sv => sv->ObjectBlock_0));
                assert(decreases_to!(sv->ObjectBlock_0 => sv->ObjectBlock_0.statements));
            }
            if b.statements.len() == 1 {
                let ghost bs = ast::statements_view(b.statements@);
                assert(bs[0] == b.statements@[0]@);
                match &b.statements[0] {
                    Statement::Field(f) => {
                        let k = chars_of(f.key.as_str());
                        if eq_str(&k, "__value") {
                            return field_to_json(f);
                        }
                    },
                    Statement::ObjectBlock(o) => {
                        proof {
                            ast::lemma_object_view(*o);
                            let sv = s@;
                            let inner = sv->ObjectBlock_0.statements[0];
                            assert(decreases_to!(sv->ObjectBlock_0.statements => inner));
                            assert(decreases_to!(inner => inner->ObjectBlock_0));
                            assert(decreases_to!(inner->ObjectBlock_0 => inner->ObjectBlock_0.statements));
                        }
                        let k = chars_of(o.key.as_str());
                        if eq_str(&k, "__value") {
                            return statements_to_json(&o.statements);
                        }
                    },
                    Statement::Narrative(n) => {
                        let k = chars_of(n.key.as_str());
                        if eq_str(&k, "__value") {
                            let text = chars_of(n.text.as_str());
                            return json_string(&text);
                        }
                    },
                    _ => {},
                }
            }
            statements_to_json(&b.statements)
        },
        _ => JsonValue::Null,
    }
}

/// Convert a parsed SDIF document into a JSON value.
///
/// Unquoted scalar fields are coerced: `null`, `true` / `false`, integers
/// and decimals become JSON literals, everything else a string; quoted
/// fields and table cells stay strings.
pub fn document_to_json(doc: &Document) -> (r: JsonValue)
    ensures
        r@ == stmts_json(ast::statements_view(doc.statements@)),
{
    statements_to_json(&doc.statements)
}


// ---------------------------------------------------------------------------
// JSON to SDIF
// ---------------------------------------------------------------------------

pub open spec fn is_scalar(v: SpecJson) -> bool {
    v is Null || v is Bool || v is Number || v is Str
}

/// A character as a JSON string escapes it.
pub open spec fn json_escape(c: char) -> Seq<char> {
    if c == '"' {
        seq!['\\', '"']
    } else if c == '\\' {
        seq!['\\', '\\']
    } else if c == '\n' {
        seq!['\\', 'n']
    } else if c == '\r' {
        seq!['\\', 'r']
    } else if c == '\t' {
        seq!['\\', 't']
    } else if c == '\u{8}' {
        seq!['\\', 'b']
    } else if c == '\u{c}' {
        seq!['\\', 'f']
    } else if (c as u32) < 0x20 {
        seq![
            '\\',
            'u',
            '0',
            '0',
            crate::canonical::hex_digits()[(c as u32) as int / 16],
            crate::canonical::hex_digits()[(c as u32) as int % 16],
        ]
    } else {
        seq![c]
    }
}

pub open spec fn json_escaped(s: Seq<char>) -> Seq<char>
    decreases s.len(),
{
    if s.len() == 0 {
        Seq::empty()
    } else {
        json_escaped(s.drop_last()) + json_escape(s.last())
    }
}

pub open spec fn json_string_text(s: Seq<char>) -> Seq<char> {
    seq!['"'] + json_escaped(s) + seq!['"']
}

/// The compact JSON text of a value.
pub open spec fn json_text(v: SpecJson) -> Seq<char>
    decreases v, 0int,
{
    match v {
        SpecJson::Null => "null"@,
        SpecJson::Bool(b) => if b {
            "true"@
        } else {
            "false"@
        },
        SpecJson::Number(n) => n,
        SpecJson::Str(s) => json_string_text(s),
        SpecJson::Array(a) => seq!['['] + text::join(json_texts(a), seq![',']) + seq![']'],
        SpecJson::Object(m) => seq!['{'] + text::join(member_texts(m), seq![',']) + seq!['}'],
    }
}

/// The texts of array elements.
pub open spec fn json_texts(a: Seq<SpecJson>) -> Seq<Seq<char>>
    decreases a, 1int,
{
    Seq::new(
        a.len(),
        |i: int|
            if 0 <= i < a.len() {
                json_text(a[i])
            } else {
                Seq::<char>::empty()
            },
    )
}

/// The texts of object members, `"key":value`.
pub open spec fn member_texts(m: Seq<(Seq<char>, SpecJson)>) -> Seq<Seq<char>>
    decreases m, 1int,
{
    Seq::new(
        m.len(),
        |i: int|
            if 0 <= i < m.len() {
                json_string_text(m[i].0) + seq![':'] + json_text(m[i].1)
            } else {
                Seq::<char>::empty()
            },
    )
}

/// A character escaped for an SDIF quoted string.
pub open spec fn sdif_escape(c: char) -> Seq<char> {
    if c == '\\' {
        seq!['\\', '\\']
    } else if c == '"' {
        seq!['\\', '"']
    } else if c == '\n' {
        seq!['\\', 'n']
    } else if c == '\t' {
        seq!['\\', 't']
    } else {
        seq![c]
    }
}

pub open spec fn sdif_escaped(s: Seq<char>) -> Seq<char>
    decreases s.len(),
{
    if s.len() == 0 {
        Seq::empty()
    } else {
        sdif_escaped(s.drop_last()) + sdif_escape(s.last())
    }
}

pub open spec fn quote_string(s: Seq<char>) -> Seq<char> {
    seq!['"'] + sdif_escaped(s) + seq!['"']
}

/// A string that could be read as something else, or that holds
/// characters a bare table cell cannot.
pub open spec fn must_quote_table_cell(s: Seq<char>) -> bool {
    ||| s.len() == 0
    ||| s == "null"@ || s == "true"@ || s == "false"@
    ||| spec_parse_integer(s) is Some || is_decimal_text(s)
    ||| s.len() >= 2 && s[0] == '[' && s.last() == ']'
    ||| s.contains('"') || s.contains('\\') || s.contains('\n') || s.contains('\t')
}

/// As for a table cell; a field value also may not hold a space or `#`.
pub open spec fn must_quote_string(s: Seq<char>) -> bool {
    must_quote_table_cell(s) || s.contains(' ') || s.contains('#')
}

/// A value as written after a field key.
pub open spec fn format_scalar(v: SpecJson) -> Seq<char> {
    match v {
        SpecJson::Null => "null"@,
        SpecJson::Bool(b) => if b {
            "true"@
        } else {
            "false"@
        },
        SpecJson::Number(n) => n,
        SpecJson::Str(s) => if must_quote_string(s) {
            quote_string(s)
        } else {
            s
        },
        _ => quote_string(json_text(v)),
    }
}

/// A value as written in an inline list.
pub open spec fn format_list_item(v: SpecJson) -> Seq<char> {
    match v {
        SpecJson::Str(s) => if s.contains(',') {
            quote_string(s)
        } else {
            format_scalar(v)
        },
        _ => format_scalar(v),
    }
}

/// A value as written in a table cell.
pub open spec fn format_table_cell(v: SpecJson) -> Seq<char> {
    match v {
        SpecJson::Str(s) => if must_quote_table_cell(s) {
            quote_string(s)
        } else {
            s
        },
        _ => format_scalar(v),
    }
}

pub open spec fn member_or_null(m: Seq<(Seq<char>, SpecJson)>, k: Seq<char>) -> SpecJson {
    match crate::collections::lookup(m, k) {
        Some(v) => v,
        None => SpecJson::Null,
    }
}

pub open spec fn members_of(v: SpecJson) -> Seq<(Seq<char>, SpecJson)> {
    match v {
        SpecJson::Object(m) => m,
        _ => Seq::empty(),
    }
}

pub open spec fn is_relation_object(v: SpecJson) -> bool {
    &&& v is Object
    &&& crate::collections::lookup(members_of(v), "subject"@) is Some
    &&& crate::collections::lookup(members_of(v), "predicate"@) is Some
    &&& crate::collections::lookup(members_of(v), "object"@) is Some
}

pub open spec fn relation_line(item: SpecJson, indent: int) -> Seq<char> {
    let m = members_of(item);
    crate::canonical::spaces(indent + 2) + format_scalar(member_or_null(m, "subject"@)) + seq![' ']
        + format_scalar(member_or_null(m, "predicate"@)) + seq![' '] + format_scalar(
        member_or_null(m, "object"@),
    )
}

pub open spec fn string_of_json(v: SpecJson) -> Seq<char> {
    match v {
        SpecJson::Str(s) => s,
        _ => Seq::empty(),
    }
}

pub open spec fn keys_of(m: Seq<(Seq<char>, SpecJson)>) -> Seq<Seq<char>> {
    m.map_values(|e: (Seq<char>, SpecJson)| e.0)
}

pub open spec fn same_keys(a: Seq<(Seq<char>, SpecJson)>, b: Seq<(Seq<char>, SpecJson)>) -> bool {
    forall|k: Seq<char>| keys_of(a).contains(k) <==> keys_of(b).contains(k)
}

pub open spec fn scalar_values(m: Seq<(Seq<char>, SpecJson)>) -> bool {
    forall|i: int| 0 <= i < m.len() ==> is_scalar(#[trigger] m[i].1)
}

/// An array of objects with the same keys (at least one) and scalar
/// values only.
pub open spec fn can_table(arr: Seq<SpecJson>) -> bool {
    &&& arr.len() > 0
    &&& arr[0] is Object
    &&& members_of(arr[0]).len() > 0
    &&& forall|i: int|
        0 <= i < arr.len() ==> (#[trigger] arr[i] is Object && same_keys(members_of(arr[i]), members_of(arr[0]))
            && scalar_values(members_of(arr[i])))
}

pub open spec fn table_row_line(row: SpecJson, cols: Seq<Seq<char>>, indent: int) -> Seq<char> {
    crate::canonical::spaces(indent + 2) + text::join(
        cols.map_values(
            |c: Seq<char>|
                match crate::collections::lookup(members_of(row), c) {
                    Some(v) => format_table_cell(v),
                    None => Seq::<char>::empty(),
                },
        ),
        seq!['\t'],
    )
}

pub open spec fn json_table_lines(key: Seq<char>, arr: Seq<SpecJson>, indent: int) -> Seq<Seq<char>> {
    let cols = keys_of(members_of(arr[0]));
    seq![crate::canonical::spaces(indent) + key + seq!['['] + text::join(cols, seq![',']) + "]:"@]
        + arr.map_values(|row: SpecJson| table_row_line(row, cols, indent))
}

/// The lines for members `k..` of an object at `indent`.
pub open spec fn emit_members(lines: Seq<Seq<char>>, m: Seq<(Seq<char>, SpecJson)>, k: int, indent: int) -> Seq<
    Seq<char>,
>
    decreases m, m.len() - k,
{
    if k < 0 || k >= m.len() {
        lines
    } else {
        emit_members(emit_entry(lines, m[k].0, m[k].1, indent), m, k + 1, indent)
    }
}

/// The lines for one member `key`/`v` at `indent`.
pub open spec fn emit_entry(lines: Seq<Seq<char>>, key: Seq<char>, v: SpecJson, indent: int) -> Seq<Seq<char>>
    decreases v, 0int,
{
    let prefix = crate::canonical::spaces(indent);
    match v {
        SpecJson::Array(arr) => if key == "_relations"@ && (forall|i: int|
            0 <= i < arr.len() ==> is_relation_object(#[trigger] arr[i])) {
            lines + seq![prefix + key + seq![':']] + arr.map_values(|it: SpecJson| relation_line(it, indent))
        } else if key == "_rules"@ && (forall|i: int| 0 <= i < arr.len() ==> #[trigger] arr[i] is Str) {
            lines + seq![prefix + key + seq![':']] + arr.map_values(
                |it: SpecJson| crate::canonical::spaces(indent + 2) + string_of_json(it),
            )
        } else if can_table(arr) {
            lines + json_table_lines(key, arr, indent)
        } else {
            emit_list(lines, key, arr, indent)
        },
        SpecJson::Object(m) => emit_members(lines.push(prefix + key + seq![':']), m, 0, indent + 2),
        SpecJson::Str(s) => if s.contains('\n') && indent == 0 {
            lines + seq![prefix + key + seq![' ', '"', '"', '"']] + text::split_on(s, '\n') + seq![
                prefix + seq!['"', '"', '"'],
            ]
        } else {
            lines.push(prefix + key + seq![' '] + format_scalar(v))
        },
        _ => lines.push(prefix + key + seq![' '] + format_scalar(v)),
    }
}

/// An array that is no table: `[]`, an inline list of scalars, or
/// `__item` blocks.
pub open spec fn emit_list(lines: Seq<Seq<char>>, key: Seq<char>, arr: Seq<SpecJson>, indent: int) -> Seq<Seq<char>>
    decreases arr, arr.len() + 1,
{
    let prefix = crate::canonical::spaces(indent);
    if arr.len() == 0 {
        lines.push(prefix + key + " []"@)
    } else if forall|i: int| 0 <= i < arr.len() ==> is_scalar(#[trigger] arr[i]) {
        lines.push(
            prefix + key + " ["@ + text::join(arr.map_values(|it: SpecJson| format_list_item(it)), seq![','])
                + seq![']'],
        )
    } else {
        emit_items(lines.push(prefix + key + seq![':']), arr, 0, indent + 2)
    }
}

/// `__item` blocks for elements `k..` of an array.
pub open spec fn emit_items(lines: Seq<Seq<char>>, arr: Seq<SpecJson>, k: int, indent: int) -> Seq<Seq<char>>
    decreases arr, arr.len() - k,
{
    if k < 0 || k >= arr.len() {
        lines
    } else {
        emit_items(emit_item(lines, arr[k], indent), arr, k + 1, indent)
    }
}

/// One `__item` block.
pub open spec fn emit_item(lines: Seq<Seq<char>>, v: SpecJson, indent: int) -> Seq<Seq<char>>
    decreases v, 0int,
{
    let l1 = lines.push(crate::canonical::spaces(indent) + "__item:"@);
    match v {
        SpecJson::Object(m) => emit_members(l1, m, 0, indent + 2),
        SpecJson::Array(arr) => emit_items(
            l1.push(crate::canonical::spaces(indent + 2) + "__value:"@),
            arr,
            0,
            indent + 4,
        ),
        _ => l1.push(crate::canonical::spaces(indent + 2) + "__value "@ + format_scalar(v)),
    }
}

/// `s` without trailing newlines and spaces.
pub open spec fn strip_newlines_spaces(s: Seq<char>) -> Seq<char>
    decreases s.len(),
{
    if s.len() > 0 && (s.last() == '\n' || s.last() == ' ') {
        strip_newlines_spaces(s.drop_last())
    } else {
        s
    }
}

/// The SDIF text for a JSON object.
pub open spec fn spec_json_to_sdif(m: Seq<(Seq<char>, SpecJson)>) -> Seq<char> {
    strip_newlines_spaces(text::join(emit_members(seq!["@sdif 1.0"@], m, 0, 0), seq!['\n'])) + seq!['\n']
}


fn push_json_escape(out: &mut Vec<char>, c: char)
    ensures
        final(out)@ == old(out)@ + json_escape(c),
{
    let ghost o0 = out@;
    if c == '"' {
        out.push('\\');
        out.push('"');
    } else if c == '\\' {
        out.push('\\');
        out.push('\\');
    } else if c == '\n' {
        out.push('\\');
        out.push('n');
    } else if c == '\r' {
        out.push('\\');
        out.push('r');
    } else if c == '\t' {
        out.push('\\');
        out.push('t');
    } else if c == '\u{8}' {
        out.push('\\');
        out.push('b');
    } else if c == '\u{c}' {
        out.push('\\');
        out.push('f');
    } else if (c as u32) < 0x20 {
        let v = c as u32;
        out.push('\\');
        out.push('u');
        out.push('0');
        out.push('0');
        out.push(crate::canonical::hex_char((v / 16) as u8));
        out.push(crate::canonical::hex_char((v % 16) as u8));
    } else {
        out.push(c);
    }
    assert(out@ =~= o0 + json_escape(c));
}

fn push_json_string(out: &mut Vec<char>, s: &[char])
    ensures
        final(out)@ == old(out)@ + json_string_text(s@),
{
    let ghost o0 = out@;
    out.push('"');
    let mut i: usize = 0;
    while i < s.len()
        invariant
            0 <= i <= s@.len(),
            out@ == o0 + seq!['"'] + json_escaped(s@.take(i as int)),
        decreases s@.len() - i,
    {
        assert(s@.take(i + 1 as int).drop_last() == s@.take(i as int));
        push_json_escape(out, s[i]);
        i += 1;
        assert(out@ =~= o0 + seq!['"'] + json_escaped(s@.take(i as int)));
    }
    assert(s@.take(s@.len() as int) == s@);
    out.push('"');
    assert(out@ =~= o0 + json_string_text(s@));
}

/// Appends the compact JSON text of `v`.
fn write_json(v: &JsonValue, out: &mut Vec<char>)
    ensures
        final(out)@ == old(out)@ + json_text(v@),
    decreases v@,
{
    let ghost o0 = out@;
    match v {
        JsonValue::Null => {
            push_str(out, "null");
        },
        JsonValue::Bool(b) => {
            if *b {
                push_str(out, "true");
            } else {
                push_str(out, "false");
            }
        },
        JsonValue::Number(n) => {
            let c = chars_of(n.as_str());
            push_all(out, &c);
        },
        JsonValue::String(s) => {
            let c = chars_of(s.as_str());
            push_json_string(out, &c);
        },
        JsonValue::Array(a) => {
            proof { lemma_array_view(*a); }
            let ghost av = jsons_view(a@);
            let ghost parts = json_texts(av);
            out.push('[');
            let mut i: usize = 0;
            while i < a.len()
                invariant
                    0 <= i <= a@.len(),
                    av == jsons_view(a@),
                    v@ == SpecJson::Array(av),
                    parts == json_texts(av),
                    out@ == o0 + seq!['['] + text::join(parts.take(i as int), seq![',']),
                decreases a@.len() - i,
            {
                assert(parts.take(i + 1 as int).drop_last() == parts.take(i as int));
                proof {
                    assert(av[i as int] == a@[i as int]@);
                    let vv = v@;
                    assert(decreases_to!(vv => vv->Array_0));
                    assert(decreases_to!(vv->Array_0 => vv->Array_0[i as int]));
                }
                if i > 0 {
                    out.push(',');
                }
                write_json(&a[i], out);
                i += 1;
                assert(out@ =~= o0 + seq!['['] + text::join(parts.take(i as int), seq![',']));
            }
            assert(parts.take(a@.len() as int) == parts);
            out.push(']');
            assert(out@ =~= o0 + json_text(v@));
        },
        JsonValue::Object(o) => {
            proof { lemma_object_view(*o); }
            let ghost mv = o@;
            let ghost parts = member_texts(mv);
            out.push('{');
            let mut i: usize = 0;
            while i < o.len()
                invariant
                    0 <= i <= mv.len(),
                    mv == o@,
                    v@ == SpecJson::Object(mv),
                    parts == member_texts(mv),
                    out@ == o0 + seq!['{'] + text::join(parts.take(i as int), seq![',']),
                decreases mv.len() - i,
            {
                assert(parts.take(i + 1 as int).drop_last() == parts.take(i as int));
                let (k, x) = o.entry_at(i);
                proof {
                    let vv = v@;
                    assert(decreases_to!(vv => vv->Object_0));
                    assert(decreases_to!(vv->Object_0 => vv->Object_0[i as int]));
                    assert(decreases_to!(vv->Object_0[i as int] => vv->Object_0[i as int].1));
                }
                if i > 0 {
                    out.push(',');
                }
                let kc = chars_of(k.as_str());
                push_json_string(out, &kc);
                out.push(':');
                write_json(x, out);
                i += 1;
                assert(out@ =~= o0 + seq!['{'] + text::join(parts.take(i as int), seq![',']));
            }
            assert(parts.take(mv.len() as int) == parts);
            out.push('}');
            assert(out@ =~= o0 + json_text(v@));
        },
    }
}

fn quote_string_chars(s: &[char]) -> (r: Vec<char>)
    ensures
        r@ == quote_string(s@),
{
    let mut out: Vec<char> = Vec::new();
    out.push('"');
    let mut i: usize = 0;
    while i < s.len()
        invariant
            0 <= i <= s@.len(),
            out@ == seq!['"'] + sdif_escaped(s@.take(i as int)),
        decreases s@.len() - i,
    {
        assert(s@.take(i + 1 as int).drop_last() == s@.take(i as int));
        let c = s[i];
        if c == '\\' {
            out.push('\\');
            out.push('\\');
        } else if c == '"' {
            out.push('\\');
            out.push('"');
        } else if c == '\n' {
            out.push('\\');
            out.push('n');
        } else if c == '\t' {
            out.push('\\');
            out.push('t');
        } else {
            out.push(c);
        }
        i += 1;
        assert(out@ =~= seq!['"'] + sdif_escaped(s@.take(i as int)));
    }
    assert(s@.take(s@.len() as int) == s@);
    out.push('"');
    out
}

fn must_quote_cell(s: &[char]) -> (b: bool)
    ensures
        b == must_quote_table_cell(s@),
{
    s.len() == 0 || eq_str(s, "null") || eq_str(s, "true") || eq_str(s, "false") || parse_integer(s).is_some()
        || is_decimal(s) || (s.len() >= 2 && s[0] == '[' && s[s.len() - 1] == ']') || crate::text::contains_char(s, '"')
        || crate::text::contains_char(s, '\\') || crate::text::contains_char(s, '\n') || crate::text::contains_char(s, '\t')
}

fn must_quote(s: &[char]) -> (b: bool)
    ensures
        b == must_quote_string(s@),
{
    must_quote_cell(s) || crate::text::contains_char(s, ' ') || crate::text::contains_char(s, '#')
}

fn format_scalar_chars(v: &JsonValue) -> (r: Vec<char>)
    ensures
        r@ == format_scalar(v@),
{
    match v {
        JsonValue::Null => chars_of("null"),
        JsonValue::Bool(b) => if *b {
            chars_of("true")
        } else {
            chars_of("false")
        },
        JsonValue::Number(n) => chars_of(n.as_str()),
        JsonValue::String(s) => {
            let c = chars_of(s.as_str());
            if must_quote(&c) {
                quote_string_chars(&c)
            } else {
                c
            }
        },
        _ => {
            let mut t: Vec<char> = Vec::new();
            write_json(v, &mut t);
            assert(t@ =~= json_text(v@));
            quote_string_chars(&t)
        },
    }
}

fn format_list_item_chars(v: &JsonValue) -> (r: Vec<char>)
    ensures
        r@ == format_list_item(v@),
{
    match v {
        JsonValue::String(s) => {
            let c = chars_of(s.as_str());
            if crate::text::contains_char(&c, ',') {
                quote_string_chars(&c)
            } else {
                format_scalar_chars(v)
            }
        },
        _ => format_scalar_chars(v),
    }
}

fn format_table_cell_chars(v: &JsonValue) -> (r: Vec<char>)
    ensures
        r@ == format_table_cell(v@),
{
    match v {
        JsonValue::String(s) => {
            let c = chars_of(s.as_str());
            if must_quote_cell(&c) {
                quote_string_chars(&c)
            } else {
                c
            }
        },
        _ => format_scalar_chars(v),
    }
}


/// `prefix` followed by `n` more spaces.
fn deeper(prefix: &Vec<char>, n: usize) -> (r: Vec<char>)
    requires
        prefix@ == crate::canonical::spaces(prefix@.len() as int),
        n <= 4,
    ensures
        r@ == crate::canonical::spaces(prefix@.len() + n),
        r@.len() == prefix@.len() + n,
{
    let mut r = slice_to_vec(prefix, 0, prefix.len());
    let mut i: usize = 0;
    while i < n
        invariant
            0 <= i <= n,
            n <= 4,
            prefix@ == crate::canonical::spaces(prefix@.len() as int),
            r@ == crate::canonical::spaces(prefix@.len() + i),
        decreases n - i,
    {
        r.push(' ');
        i += 1;
        assert(r@ =~= crate::canonical::spaces(prefix@.len() + i));
    }
    r
}

/// `a` + `b`.
fn concat2(a: &[char], b: &[char]) -> (r: Vec<char>)
    ensures
        r@ == a@ + b@,
{
    let mut r = slice_to_vec(a, 0, a.len());
    push_all(&mut r, b);
    r
}

/// `a` + `b` + `c`.
fn with_char(a: &[char], b: &[char], c: char) -> (r: Vec<char>)
    ensures
        r@ == a@ + b@ + seq![c],
{
    let mut r = concat2(a, b);
    r.push(c);
    r
}

fn push_line(lines: &mut Vec<Vec<char>>, line: Vec<char>)
    ensures
        crate::scan::vecs_view(final(lines)@) == crate::scan::vecs_view(old(lines)@).push(line@),
{
    let ghost before = crate::scan::vecs_view(lines@);
    let ghost lv = line@;
    lines.push(line);
    assert(crate::scan::vecs_view(lines@) == before.push(lv));
}

proof fn lemma_lookup_empty(k: Seq<char>)
    ensures
        crate::collections::lookup(Seq::<(Seq<char>, SpecJson)>::empty(), k) is None,
{
}

/// The formatted member `k` of `item` (as `null` when absent).
fn member_text(item: &JsonValue, k: &str) -> (r: Vec<char>)
    ensures
        r@ == format_scalar(member_or_null(members_of(item@), k@)),
{
    match item {
        JsonValue::Object(o) => {
            proof { lemma_object_view(*o); }
            match o.get(k) {
                Some(v) => format_scalar_chars(v),
                None => chars_of("null"),
            }
        },
        _ => {
            proof { lemma_lookup_empty(k@); }
            chars_of("null")
        },
    }
}

fn has_member(item: &JsonValue, k: &str) -> (b: bool)
    ensures
        b == (crate::collections::lookup(members_of(item@), k@) is Some),
{
    match item {
        JsonValue::Object(o) => {
            proof { lemma_object_view(*o); }
            o.get(k).is_some()
        },
        _ => {
            proof { lemma_lookup_empty(k@); }
            false
        },
    }
}

fn relation_objects(a: &Vec<JsonValue>) -> (b: bool)
    ensures
        b == (forall|i: int| 0 <= i < a@.len() ==> is_relation_object(#[trigger] jsons_view(a@)[i])),
{
    let ghost av = jsons_view(a@);
    let mut i: usize = 0;
    while i < a.len()
        invariant
            0 <= i <= a@.len(),
            av == jsons_view(a@),
            forall|j: int| 0 <= j < i ==> is_relation_object(#[trigger] av[j]),
        decreases a@.len() - i,
    {
        assert(av[i as int] == a@[i as int]@);
        let ok = match &a[i] {
            JsonValue::Object(_) => has_member(&a[i], "subject") && has_member(&a[i], "predicate")
                && has_member(&a[i], "object"),
            _ => false,
        };
        if !ok {
            return false;
        }
        i += 1;
    }
    true
}

fn all_strings(a: &Vec<JsonValue>) -> (b: bool)
    ensures
        b == (forall|i: int| 0 <= i < a@.len() ==> #[trigger] jsons_view(a@)[i] is Str),
{
    let ghost av = jsons_view(a@);
    let mut i: usize = 0;
    while i < a.len()
        invariant
            0 <= i <= a@.len(),
            av == jsons_view(a@),
            forall|j: int| 0 <= j < i ==> #[trigger] av[j] is Str,
        decreases a@.len() - i,
    {
        assert(av[i as int] == a@[i as int]@);
        match &a[i] {
            JsonValue::String(_) => {},
            _ => {
                return false;
            },
        }
        i += 1;
    }
    true
}

fn is_scalar_value(v: &JsonValue) -> (b: bool)
    ensures
        b == is_scalar(v@),
{
    match v {
        JsonValue::Array(a) => {
            proof { lemma_array_view(*a); }
            false
        },
        JsonValue::Object(o) => {
            proof { lemma_object_view(*o); }
            false
        },
        _ => true,
    }
}

fn all_scalars(a: &Vec<JsonValue>) -> (b: bool)
    ensures
        b == (forall|i: int| 0 <= i < a@.len() ==> is_scalar(#[trigger] jsons_view(a@)[i])),
{
    let ghost av = jsons_view(a@);
    let mut i: usize = 0;
    while i < a.len()
        invariant
            0 <= i <= a@.len(),
            av == jsons_view(a@),
            forall|j: int| 0 <= j < i ==> is_scalar(#[trigger] av[j]),
        decreases a@.len() - i,
    {
        assert(av[i as int] == a@[i as int]@);
        if !is_scalar_value(&a[i]) {
            return false;
        }
        i += 1;
    }
    true
}

pub open spec fn keys_within(x: Seq<(Seq<char>, SpecJson)>, y: Seq<(Seq<char>, SpecJson)>) -> bool {
    forall|i: int| 0 <= i < x.len() ==> keys_of(y).contains(#[trigger] x[i].0)
}

proof fn lemma_same_keys(x: Seq<(Seq<char>, SpecJson)>, y: Seq<(Seq<char>, SpecJson)>)
    ensures
        same_keys(x, y) <==> (keys_within(x, y) && keys_within(y, x)),
{
    if keys_within(x, y) && keys_within(y, x) {
        assert forall|k: Seq<char>| keys_of(x).contains(k) <==> keys_of(y).contains(k) by {
            if keys_of(x).contains(k) {
                let i = choose|i: int| 0 <= i < keys_of(x).len() && keys_of(x)[i] == k;
                assert(x[i].0 == k);
            }
            if keys_of(y).contains(k) {
                let i = choose|i: int| 0 <= i < keys_of(y).len() && keys_of(y)[i] == k;
                assert(y[i].0 == k);
            }
        }
    }
    if same_keys(x, y) {
        assert forall|i: int| 0 <= i < x.len() implies keys_of(y).contains(#[trigger] x[i].0) by {
            assert(keys_of(x)[i] == x[i].0);
            assert(keys_of(x).contains(x[i].0));
        }
        assert forall|i: int| 0 <= i < y.len() implies keys_of(x).contains(#[trigger] y[i].0) by {
            assert(keys_of(y)[i] == y[i].0);
            assert(keys_of(y).contains(y[i].0));
        }
    }
}

fn has_key(o: &JsonObject, k: &[char]) -> (b: bool)
    ensures
        b == keys_of(o@).contains(k@),
{
    let ghost m = o@;
    let mut i: usize = 0;
    while i < o.len()
        invariant
            0 <= i <= m.len(),
            m == o@,
            forall|j: int| 0 <= j < i ==> keys_of(m)[j] != k@,
        decreases m.len() - i,
    {
        let (key, _) = o.entry_at(i);
        let kc = chars_of(key.as_str());
        if chars_eq(&kc, k) {
            assert(keys_of(m)[i as int] == k@);
            return true;
        }
        i += 1;
    }
    false
}

fn keys_within_exec(x: &JsonObject, y: &JsonObject) -> (b: bool)
    ensures
        b == keys_within(x@, y@),
{
    let mut i: usize = 0;
    while i < x.len()
        invariant
            0 <= i <= x@.len(),
            forall|j: int| 0 <= j < i ==> keys_of(y@).contains(#[trigger] x@[j].0),
        decreases x@.len() - i,
    {
        let (key, _) = x.entry_at(i);
        let kc = chars_of(key.as_str());
        if !has_key(y, &kc) {
            return false;
        }
        i += 1;
    }
    true
}

fn scalar_values_exec(o: &JsonObject) -> (b: bool)
    ensures
        b == scalar_values(o@),
{
    let mut i: usize = 0;
    while i < o.len()
        invariant
            0 <= i <= o@.len(),
            forall|j: int| 0 <= j < i ==> is_scalar(#[trigger] o@[j].1),
        decreases o@.len() - i,
    {
        let (_, v) = o.entry_at(i);
        if !is_scalar_value(v) {
            return false;
        }
        i += 1;
    }
    true
}

/// Whether an array can be written as a table (see `can_table`).
fn can_emit_as_table(a: &Vec<JsonValue>) -> (b: bool)
    ensures
        b == can_table(jsons_view(a@)),
{
    let ghost av = jsons_view(a@);
    if a.len() == 0 {
        return false;
    }
    assert(av[0] == a@[0]@);
    let first = match &a[0] {
        JsonValue::Object(o) => {
            proof { lemma_object_view(*o); }
            o
        },
        _ => {
            return false;
        },
    };
    if first.len() == 0 {
        return false;
    }
    let mut i: usize = 0;
    while i < a.len()
        invariant
            0 <= i <= a@.len(),
            av == jsons_view(a@),
            a@.len() > 0,
            av[0] == SpecJson::Object(first@),
            forall|j: int|
                0 <= j < i ==> (#[trigger] av[j] is Object && same_keys(members_of(av[j]), members_of(av[0]))
                    && scalar_values(members_of(av[j]))),
        decreases a@.len() - i,
    {
        assert(av[i as int] == a@[i as int]@);
        let ok = match &a[i] {
            JsonValue::Object(o) => {
                proof {
                    lemma_object_view(*o);
                    lemma_same_keys(o@, first@);
                }
                keys_within_exec(o, first) && keys_within_exec(first, o) && scalar_values_exec(o)
            },
            _ => false,
        };
        if !ok {
            return false;
        }
        i += 1;
    }
    true
}

/// The lines of a table written from an array of objects.
fn emit_json_table(key: &[char], a: &Vec<JsonValue>, lines: &mut Vec<Vec<char>>, prefix: &Vec<char>)
    requires
        prefix@ == crate::canonical::spaces(prefix@.len() as int),
        a@.len() > 0,
    ensures
        crate::scan::vecs_view(final(lines)@) == crate::scan::vecs_view(old(lines)@) + json_table_lines(
            key@,
            jsons_view(a@),
            prefix@.len() as int,
        ),
{
    let ghost av = jsons_view(a@);
    let ghost indent = prefix@.len() as int;
    let ghost l0 = crate::scan::vecs_view(lines@);
    assert(av[0] == a@[0]@);
    let mut cols: Vec<Vec<char>> = Vec::new();
    match &a[0] {
        JsonValue::Object(o) => {
            proof { lemma_object_view(*o); }
            let mut i: usize = 0;
            while i < o.len()
                invariant
                    0 <= i <= o@.len(),
                    crate::scan::vecs_view(cols@) == keys_of(o@).take(i as int),
                decreases o@.len() - i,
            {
                let (k, _) = o.entry_at(i);
                let kc = chars_of(k.as_str());
                let ghost before = crate::scan::vecs_view(cols@);
                cols.push(kc);
                assert(crate::scan::vecs_view(cols@) == before.push(kc@));
                i += 1;
                assert(keys_of(o@).take(i as int) == keys_of(o@).take(i - 1 as int).push(keys_of(o@)[i - 1]));
            }
            assert(keys_of(o@).take(o@.len() as int) == keys_of(o@));
        },
        _ => {
            assert(crate::scan::vecs_view(cols@) =~= keys_of(members_of(av[0])));
        },
    }
    let ghost cv = crate::scan::vecs_view(cols@);
    assert(cv == keys_of(members_of(av[0])));
    let mut comma: Vec<char> = Vec::new();
    comma.push(',');
    let joined = crate::canonical::join_chars(&cols, &comma);
    let mut head = slice_to_vec(prefix, 0, prefix.len());
    push_all(&mut head, key);
    head.push('[');
    push_all(&mut head, &joined);
    push_str(&mut head, "]:");
    assert(head@ =~= crate::canonical::spaces(indent) + key@ + seq!['['] + text::join(cv, seq![',']) + "]:"@);
    push_line(lines, head);
    let row_prefix = deeper(prefix, 2);
    let mut tab: Vec<char> = Vec::new();
    tab.push('\t');
    let ghost rows = av.map_values(|row: SpecJson| table_row_line(row, cv, indent));
    let mut i: usize = 0;
    while i < a.len()
        invariant
            0 <= i <= a@.len(),
            av == jsons_view(a@),
            cv == crate::scan::vecs_view(cols@),
            indent == prefix@.len(),
            row_prefix@ == crate::canonical::spaces(indent + 2),
            tab@ == seq!['\t'],
            rows == av.map_values(|row: SpecJson| table_row_line(row, cv, indent)),
            crate::scan::vecs_view(lines@) == l0 + seq![
                crate::canonical::spaces(indent) + key@ + seq!['['] + text::join(cv, seq![',']) + "]:"@,
            ] + rows.take(i as int),
        decreases a@.len() - i,
    {
        assert(av[i as int] == a@[i as int]@);
        let ghost row = av[i as int];
        let ghost cells_spec = cv.map_values(
            |c: Seq<char>|
                match crate::collections::lookup(members_of(row), c) {
                    Some(v) => format_table_cell(v),
                    None => Seq::<char>::empty(),
                },
        );
        let mut cells: Vec<Vec<char>> = Vec::new();
        let mut j: usize = 0;
        while j < cols.len()
            invariant
                0 <= j <= cols@.len(),
                cv == crate::scan::vecs_view(cols@),
                row == a@[i as int]@,
                i < a@.len(),
                cells_spec == cv.map_values(
                    |c: Seq<char>|
                        match crate::collections::lookup(members_of(row), c) {
                            Some(v) => format_table_cell(v),
                            None => Seq::<char>::empty(),
                        },
                ),
                crate::scan::vecs_view(cells@) == cells_spec.take(j as int),
            decreases cols@.len() - j,
        {
            assert(cv[j as int] == cols@[j as int]@);
            let cell = match &a[i] {
                JsonValue::Object(o) => {
                    proof { lemma_object_view(*o); }
                    let ks = string_of(&cols[j]);
                    match o.get(ks.as_str()) {
                        Some(v) => format_table_cell_chars(v),
                        None => Vec::new(),
                    }
                },
                _ => {
                    proof { lemma_lookup_empty(cv[j as int]); }
                    Vec::new()
                },
            };
            assert(cell@ == cells_spec[j as int]);
            let ghost before = crate::scan::vecs_view(cells@);
            cells.push(cell);
            assert(crate::scan::vecs_view(cells@) == before.push(cell@));
            j += 1;
            assert(cells_spec.take(j as int) == cells_spec.take(j - 1 as int).push(cells_spec[j - 1]));
        }
        assert(cells_spec.take(cols@.len() as int) == cells_spec);
        let joined_cells = crate::canonical::join_chars(&cells, &tab);
        let line = concat2(&row_prefix, &joined_cells);
        assert(line@ =~= table_row_line(row, cv, indent));
        push_line(lines, line);
        i += 1;
        assert(rows.take(i as int) == rows.take(i - 1 as int).push(rows[i - 1]));
    }
    assert(rows.take(a@.len() as int) == rows);
    assert(crate::scan::vecs_view(lines@) =~= l0 + json_table_lines(key@, av, indent));
}


/// The lines for the members of `o` at the indentation of `prefix`.
fn emit_mapping(o: &JsonObject, lines: &mut Vec<Vec<char>>, prefix: &Vec<char>)
    requires
        prefix@ == crate::canonical::spaces(prefix@.len() as int),
    ensures
        crate::scan::vecs_view(final(lines)@) == emit_members(
            crate::scan::vecs_view(old(lines)@),
            o@,
            0,
            prefix@.len() as int,
        ),
    decreases o@, 1int,
{
    let ghost l0 = crate::scan::vecs_view(lines@);
    let ghost m = o@;
    let ghost indent = prefix@.len() as int;
    let mut k: usize = 0;
    while k < o.len()
        invariant
            0 <= k <= m.len(),
            m == o@,
            indent == prefix@.len(),
            prefix@ == crate::canonical::spaces(indent),
                emit_members(l0, m, 0, indent) == emit_members(crate::scan::vecs_view(lines@), m, k as int, indent),
        decreases m.len() - k,
    {
        let (key, v) = o.entry_at(k);
        proof {
            assert(decreases_to!(m => m[k as int]));
            assert(decreases_to!(m[k as int] => m[k as int].1));
        }
        let kc = chars_of(key.as_str());
        emit_entry_exec(&kc, v, lines, prefix);
        k += 1;
    }
}

/// The lines for member `key`/`v` at the indentation of `prefix`.
fn emit_entry_exec(key: &[char], v: &JsonValue, lines: &mut Vec<Vec<char>>, prefix: &Vec<char>)
    requires
        prefix@ == crate::canonical::spaces(prefix@.len() as int),
    ensures
        crate::scan::vecs_view(final(lines)@) == emit_entry(
            crate::scan::vecs_view(old(lines)@),
            key@,
            v@,
            prefix@.len() as int,
        ),
    decreases v@, 0int,
{
    let ghost l0 = crate::scan::vecs_view(lines@);
    let ghost indent = prefix@.len() as int;
    match v {
        JsonValue::Array(a) => {
            proof {
                lemma_array_view(*a);
                let vv = v@;
                assert(decreases_to!(vv => vv->Array_0));
            }
            let ghost av = jsons_view(a@);
            if eq_str(key, "_relations") && relation_objects(a) {
                let head = with_char(prefix, key, ':');
                let ghost hv = head@;
                push_line(lines, head);
                let ghost mapped = av.map_values(|it: SpecJson| relation_line(it, indent));
                let row_prefix = deeper(prefix, 2);
                let mut i: usize = 0;
                while i < a.len()
                    invariant
                        0 <= i <= a@.len(),
                        av == jsons_view(a@),
                        indent == prefix@.len(),
                        row_prefix@ == crate::canonical::spaces(indent + 2),
                        mapped == av.map_values(|it: SpecJson| relation_line(it, indent)),
                        crate::scan::vecs_view(lines@) == l0 + seq![hv] + mapped.take(i as int),
                    decreases a@.len() - i,
                {
                    assert(av[i as int] == a@[i as int]@);
                    let s = member_text(&a[i], "subject");
                    let p = member_text(&a[i], "predicate");
                    let ob = member_text(&a[i], "object");
                    let mut line = slice_to_vec(&row_prefix, 0, row_prefix.len());
                    push_all(&mut line, &s);
                    line.push(' ');
                    push_all(&mut line, &p);
                    line.push(' ');
                    push_all(&mut line, &ob);
                    assert(line@ =~= relation_line(av[i as int], indent));
                    push_line(lines, line);
                    i += 1;
                    assert(mapped.take(i as int) == mapped.take(i - 1 as int).push(mapped[i - 1]));
                }
                assert(mapped.take(a@.len() as int) == mapped);
                assert(hv =~= crate::canonical::spaces(indent) + key@ + seq![':']);
                assert(crate::scan::vecs_view(lines@) == emit_entry(l0, key@, v@, indent));
                return;
            }
            if eq_str(key, "_rules") && all_strings(a) {
                let head = with_char(prefix, key, ':');
                let ghost hv = head@;
                push_line(lines, head);
                let ghost mapped = av.map_values(
                    |it: SpecJson| crate::canonical::spaces(indent + 2) + string_of_json(it),
                );
                let row_prefix = deeper(prefix, 2);
                let mut i: usize = 0;
                while i < a.len()
                    invariant
                        0 <= i <= a@.len(),
                        av == jsons_view(a@),
                        indent == prefix@.len(),
                        row_prefix@ == crate::canonical::spaces(indent + 2),
                        mapped == av.map_values(
                            |it: SpecJson| crate::canonical::spaces(indent + 2) + string_of_json(it),
                        ),
                        crate::scan::vecs_view(lines@) == l0 + seq![hv] + mapped.take(i as int),
                    decreases a@.len() - i,
                {
                    assert(av[i as int] == a@[i as int]@);
                    let text_chars = match &a[i] {
                        JsonValue::String(s) => chars_of(s.as_str()),
                        _ => Vec::new(),
                    };
                    assert(text_chars@ == string_of_json(av[i as int]));
                    let line = concat2(&row_prefix, &text_chars);
                    push_line(lines, line);
                    i += 1;
                    assert(mapped.take(i as int) == mapped.take(i - 1 as int).push(mapped[i - 1]));
                }
                assert(mapped.take(a@.len() as int) == mapped);
                assert(hv =~= crate::canonical::spaces(indent) + key@ + seq![':']);
                assert(crate::scan::vecs_view(lines@) == emit_entry(l0, key@, v@, indent));
                return;
            }
            if can_emit_as_table(a) {
                emit_json_table(key, a, lines, prefix);
                assert(crate::scan::vecs_view(lines@) == emit_entry(l0, key@, v@, indent));
                return;
            }
            emit_list_exec(key, a, lines, prefix);
            assert(crate::scan::vecs_view(lines@) == emit_entry(l0, key@, v@, indent));
        },
        JsonValue::Object(o) => {
            proof {
                lemma_object_view(*o);
                let vv = v@;
                assert(decreases_to!(vv => vv->Object_0));
            }
            let head = with_char(prefix, key, ':');
            push_line(lines, head);
            let child = deeper(prefix, 2);
            emit_mapping(o, lines, &child);
            assert(crate::scan::vecs_view(lines@) == emit_entry(l0, key@, v@, indent));
        },
        JsonValue::String(s) => {
            let sc = chars_of(s.as_str());
            assert(v@ == SpecJson::Str(s@));
            if crate::text::contains_char(&sc, '\n') && prefix.len() == 0 {
                let mut head = with_char(prefix, key, ' ');
                head.push('"');
                head.push('"');
                head.push('"');
                let ghost hv = head@;
                assert(hv =~= crate::canonical::spaces(indent) + key@ + seq![' ', '"', '"', '"']);
                push_line(lines, head);
                let pieces = crate::text::split_chars(&sc, '\n');
                let ghost sp = text::split_on(sc@, '\n');
                let mut i: usize = 0;
                while i < pieces.len()
                    invariant
                        0 <= i <= pieces@.len(),
                        pieces@.len() == sp.len(),
                        forall|q: int| 0 <= q < pieces@.len() ==> #[trigger] pieces@[q]@ == sp[q],
                        crate::scan::vecs_view(lines@) == l0 + seq![hv] + sp.take(i as int),
                    decreases pieces@.len() - i,
                {
                    let piece = slice_to_vec(&pieces[i], 0, pieces[i].len());
                    assert(piece@ =~= sp[i as int]);
                    push_line(lines, piece);
                    i += 1;
                    assert(sp.take(i as int) == sp.take(i - 1 as int).push(sp[i - 1]));
                }
                assert(sp.take(pieces@.len() as int) == sp);
                let mut close = slice_to_vec(prefix, 0, prefix.len());
                close.push('"');
                close.push('"');
                close.push('"');
                let ghost cv = close@;
                assert(cv =~= crate::canonical::spaces(indent) + seq!['"', '"', '"']);
                push_line(lines, close);
                assert(crate::scan::vecs_view(lines@) =~= l0 + seq![hv] + sp + seq![cv]);
            } else {
                let f = format_scalar_chars(v);
                let line = with_char(prefix, key, ' ');
                let line = concat2(&line, &f);
                push_line(lines, line);
            }
            assert(crate::scan::vecs_view(lines@) == emit_entry(l0, key@, v@, indent));
        },
        _ => {
            let f = format_scalar_chars(v);
            let line = with_char(prefix, key, ' ');
            let line = concat2(&line, &f);
            push_line(lines, line);
            assert(crate::scan::vecs_view(lines@) == emit_entry(l0, key@, v@, indent));
        },
    }
}

/// An array that is no table (see `emit_list`).
fn emit_list_exec(key: &[char], a: &Vec<JsonValue>, lines: &mut Vec<Vec<char>>, prefix: &Vec<char>)
    requires
        prefix@ == crate::canonical::spaces(prefix@.len() as int),
    ensures
        crate::scan::vecs_view(final(lines)@) == emit_list(
            crate::scan::vecs_view(old(lines)@),
            key@,
            jsons_view(a@),
            prefix@.len() as int,
        ),
    decreases jsons_view(a@), 2int,
{
    let ghost av = jsons_view(a@);
    let ghost l0 = crate::scan::vecs_view(lines@);
    let ghost indent = prefix@.len() as int;
    if a.len() == 0 {
        let line = concat2(prefix, key);
        let mut line = line;
        push_str(&mut line, " []");
        push_line(lines, line);
        return;
    }
    if all_scalars(a) {
        let ghost items = av.map_values(|it: SpecJson| format_list_item(it));
        let mut parts: Vec<Vec<char>> = Vec::new();
        let mut i: usize = 0;
        while i < a.len()
            invariant
                0 <= i <= a@.len(),
                av == jsons_view(a@),
                items == av.map_values(|it: SpecJson| format_list_item(it)),
                crate::scan::vecs_view(parts@) == items.take(i as int),
            decreases a@.len() - i,
        {
            assert(av[i as int] == a@[i as int]@);
            let x = format_list_item_chars(&a[i]);
            let ghost before = crate::scan::vecs_view(parts@);
            parts.push(x);
            assert(crate::scan::vecs_view(parts@) == before.push(x@));
            i += 1;
            assert(items.take(i as int) == items.take(i - 1 as int).push(items[i - 1]));
        }
        assert(items.take(a@.len() as int) == items);
        let mut comma: Vec<char> = Vec::new();
        comma.push(',');
        let joined = crate::canonical::join_chars(&parts, &comma);
        let mut line = concat2(prefix, key);
        push_str(&mut line, " [");
        push_all(&mut line, &joined);
        line.push(']');
        assert(line@ =~= crate::canonical::spaces(indent) + key@ + " ["@ + text::join(items, seq![',']) + seq![']']);
        push_line(lines, line);
        assert(crate::scan::vecs_view(lines@) == emit_list(l0, key@, av, indent));
        return;
    }
    let head = with_char(prefix, key, ':');
    push_line(lines, head);
    let child = deeper(prefix, 2);
    emit_items_exec(a, lines, &child);
    assert(crate::scan::vecs_view(lines@) == emit_list(l0, key@, av, indent));
}

/// `__item` blocks for the elements of an array (see `emit_items`).
fn emit_items_exec(a: &Vec<JsonValue>, lines: &mut Vec<Vec<char>>, prefix: &Vec<char>)
    requires
        prefix@ == crate::canonical::spaces(prefix@.len() as int),
    ensures
        crate::scan::vecs_view(final(lines)@) == emit_items(
            crate::scan::vecs_view(old(lines)@),
            jsons_view(a@),
            0,
            prefix@.len() as int,
        ),
    decreases jsons_view(a@), 1int,
{
    let ghost av = jsons_view(a@);
    let ghost l0 = crate::scan::vecs_view(lines@);
    let ghost indent = prefix@.len() as int;
    let mut k: usize = 0;
    while k < a.len()
        invariant
            0 <= k <= a@.len(),
            av == jsons_view(a@),
            indent == prefix@.len(),
            prefix@ == crate::canonical::spaces(indent),
                emit_items(l0, av, 0, indent) == emit_items(crate::scan::vecs_view(lines@), av, k as int, indent),
        decreases a@.len() - k,
    {
        proof {
            assert(av[k as int] == a@[k as int]@);
            assert(decreases_to!(av => av[k as int]));
        }
        emit_item_exec(&a[k], lines, prefix);
        k += 1;
    }
}

/// One `__item` block (see `emit_item`).
fn emit_item_exec(v: &JsonValue, lines: &mut Vec<Vec<char>>, prefix: &Vec<char>)
    requires
        prefix@ == crate::canonical::spaces(prefix@.len() as int),
    ensures
        crate::scan::vecs_view(final(lines)@) == emit_item(
            crate::scan::vecs_view(old(lines)@),
            v@,
            prefix@.len() as int,
        ),
    decreases v@, 0int,
{
    let ghost l0 = crate::scan::vecs_view(lines@);
    let ghost indent = prefix@.len() as int;
    let mut head = slice_to_vec(prefix, 0, prefix.len());
    push_str(&mut head, "__item:");
    let ghost hv = head@;
    assert(hv =~= crate::canonical::spaces(indent) + "__item:"@);
    push_line(lines, head);
    let ghost l1 = crate::scan::vecs_view(lines@);
    assert(l1 == l0.push(crate::canonical::spaces(indent) + "__item:"@));
    match v {
        JsonValue::Object(o) => {
            proof {
                lemma_object_view(*o);
                let vv = v@;
                assert(decreases_to!(vv => vv->Object_0));
            }
            let child = deeper(prefix, 2);
            emit_mapping(o, lines, &child);
            assert(crate::scan::vecs_view(lines@) == emit_item(l0, v@, indent));
        },
        JsonValue::Array(a) => {
            proof {
                lemma_array_view(*a);
                let vv = v@;
                assert(decreases_to!(vv => vv->Array_0));
            }
            let mut line = deeper(prefix, 2);
            push_str(&mut line, "__value:");
            push_line(lines, line);
            let child = deeper(prefix, 4);
            emit_items_exec(a, lines, &child);
            assert(crate::scan::vecs_view(lines@) == emit_item(l0, v@, indent));
        },
        _ => {
            let mut line = deeper(prefix, 2);
            push_str(&mut line, "__value ");
            let f = format_scalar_chars(v);
            push_all(&mut line, &f);
            push_line(lines, line);
            assert(crate::scan::vecs_view(lines@) == emit_item(l0, v@, indent));
        },
    }
}


/// Encode a JSON object as SDIF text.
///
/// The output starts with `@sdif 1.0` followed by SDIF statements for the
/// object's members in key order. Arrays of objects with the same keys and
/// scalar values become tables; arrays of scalars become inline `[a,b,c]`
/// lists; other arrays become `__item` blocks.
pub fn json_to_sdif(data: &JsonValue) -> (r: String)
    requires
        data@ is Object,
    ensures
        r@ == spec_json_to_sdif(members_of(data@)),
{
    let mut lines: Vec<Vec<char>> = Vec::new();
    let first = chars_of("@sdif 1.0");
    push_line(&mut lines, first);
    assert(crate::scan::vecs_view(lines@) =~= seq!["@sdif 1.0"@]);
    let empty: Vec<char> = Vec::new();
    assert(empty@ =~= crate::canonical::spaces(0));
    match data {
        JsonValue::Object(o) => {
            proof { lemma_object_view(*o); }
            emit_mapping(o, &mut lines, &empty);
        },
        _ => {},
    }
    let mut nl: Vec<char> = Vec::new();
    nl.push('\n');
    let mut out = crate::canonical::join_chars(&lines, &nl);
    let ghost joined = out@;
    while out.len() > 0 && (out[out.len() - 1] == '\n' || out[out.len() - 1] == ' ')
        invariant
            strip_newlines_spaces(joined) == strip_newlines_spaces(out@),
        decreases out@.len(),
    {
        out.pop();
    }
    out.push('\n');
    string_of(&out)
}


// ---------------------------------------------------------------------------
// Objects
// ---------------------------------------------------------------------------

/// Members sorted by key, each key once.
pub open spec fn sorted_members(m: Seq<(Seq<char>, SpecJson)>) -> bool {
    forall|i: int, j: int| 0 <= i < j < m.len() ==> str_lt(m[i].0, m[j].0)
}

proof fn lemma_member_pos(m: Seq<(Seq<char>, SpecJson)>, k: Seq<char>, j: int)
    requires
        0 <= j <= m.len(),
    ensures
        j <= member_pos(m, k, j) <= m.len(),
        forall|q: int| j <= q < member_pos(m, k, j) ==> str_lt(#[trigger] m[q].0, k),
        member_pos(m, k, j) < m.len() ==> !str_lt(m[member_pos(m, k, j)].0, k),
    decreases m.len() - j,
{
    if j < m.len() && str_lt(m[j].0, k) {
        lemma_member_pos(m, k, j + 1);
    }
}

proof fn lemma_sorted_lookup(m: Seq<(Seq<char>, SpecJson)>, k: Seq<char>, i: int)
    requires
        sorted_members(m),
        0 <= i < m.len(),
        m[i].0 == k,
    ensures
        crate::collections::lookup(m, k) == Some(m[i].1),
{
    crate::collections::lemma_key_index(m, k, 0);
    match crate::collections::key_index(m, k, 0) {
        Some(j) => {
            if j != i {
                if j < i {
                    crate::order::lemma_str_order(k, k, k);
                } else {
                    crate::order::lemma_str_order(k, k, k);
                }
            }
        },
        None => {},
    }
}

proof fn lemma_absent_lookup(m: Seq<(Seq<char>, SpecJson)>, k: Seq<char>)
    requires
        forall|i: int| 0 <= i < m.len() ==> m[i].0 != k,
    ensures
        crate::collections::lookup(m, k) is None,
{
    crate::collections::lemma_key_index(m, k, 0);
}

/// Objects keep their members sorted by key with each key once, as a
/// JSON object map does: inserting into such an object keeps it so;
/// reading the key just written gives the value written, and every other
/// key keeps its value.
pub proof fn law_obj_insert(m: Seq<(Seq<char>, SpecJson)>, k: Seq<char>, v: SpecJson, other: Seq<char>)
    requires
        sorted_members(m),
    ensures
        sorted_members(obj_insert(m, k, v)),
        crate::collections::lookup(obj_insert(m, k, v), k) == Some(v),
        other != k ==> crate::collections::lookup(obj_insert(m, k, v), other) == crate::collections::lookup(
            m,
            other,
        ),
{
    let p = member_pos(m, k, 0);
    lemma_member_pos(m, k, 0);
    let r = obj_insert(m, k, v);
    if p < m.len() && m[p].0 == k {
        assert(r == m.update(p, (k, v)));
        assert forall|i: int, j: int| 0 <= i < j < r.len() implies str_lt(r[i].0, r[j].0) by {
            assert(r[i].0 == m[i].0 && r[j].0 == m[j].0);
        }
        lemma_sorted_lookup(r, k, p);
        if other != k {
            if exists|j: int| 0 <= j < m.len() && m[j].0 == other {
                let j = choose|j: int| 0 <= j < m.len() && m[j].0 == other;
                assert(r[j] == m[j]);
                lemma_sorted_lookup(m, other, j);
                lemma_sorted_lookup(r, other, j);
            } else {
                lemma_absent_lookup(m, other);
                assert forall|i: int| 0 <= i < r.len() implies r[i].0 != other by {
                    if i != p {
                        assert(r[i] == m[i]);
                    }
                }
                lemma_absent_lookup(r, other);
            }
        }
    } else {
        assert(r == m.insert(p, (k, v)));
        if p < m.len() {
            crate::order::lemma_str_order(m[p].0, k, m[p].0);
        }
        assert forall|i: int, j: int| 0 <= i < j < r.len() implies str_lt(r[i].0, r[j].0) by {
            if i < p && j < p {
                assert(r[i] == m[i] && r[j] == m[j]);
            } else if i < p && j == p {
                assert(r[i] == m[i]);
            } else if i < p && j > p {
                assert(r[i] == m[i] && r[j] == m[j - 1]);
            } else if i == p {
                assert(r[j] == m[j - 1]);
                if j - 1 > p {
                    crate::order::lemma_str_order(k, m[p].0, m[j - 1].0);
                }
            } else {
                assert(r[i] == m[i - 1] && r[j] == m[j - 1]);
            }
        }
        assert(r[p] == (k, v));
        lemma_sorted_lookup(r, k, p);
        if other != k {
            if exists|j: int| 0 <= j < m.len() && m[j].0 == other {
                let j = choose|j: int| 0 <= j < m.len() && m[j].0 == other;
                lemma_sorted_lookup(m, other, j);
                if j < p {
                    assert(r[j] == m[j]);
                    lemma_sorted_lookup(r, other, j);
                } else {
                    assert(r[j + 1] == m[j]);
                    lemma_sorted_lookup(r, other, j + 1);
                }
            } else {
                lemma_absent_lookup(m, other);
                assert forall|i: int| 0 <= i < r.len() implies r[i].0 != other by {
                    if i < p {
                        assert(r[i] == m[i]);
                    } else if i > p {
                        assert(r[i] == m[i - 1]);
                    }
                }
                lemma_absent_lookup(r, other);
            }
        }
    }
}


// ---------------------------------------------------------------------------
// The shape of `json_to_sdif` output
// ---------------------------------------------------------------------------

pub open spec fn is_prefix(a: Seq<Seq<char>>, b: Seq<Seq<char>>) -> bool {
    a.len() <= b.len() && b.take(a.len() as int) == a
}

proof fn lemma_prefix_trans(a: Seq<Seq<char>>, b: Seq<Seq<char>>, c: Seq<Seq<char>>)
    requires
        is_prefix(a, b),
        is_prefix(b, c),
    ensures
        is_prefix(a, c),
{
    assert(c.take(a.len() as int) =~= c.take(b.len() as int).take(a.len() as int));
}

proof fn lemma_prefix_append(a: Seq<Seq<char>>, b: Seq<Seq<char>>)
    ensures
        is_prefix(a, a + b),
{
    assert((a + b).take(a.len() as int) =~= a);
}

proof fn lemma_prefix_push(a: Seq<Seq<char>>, x: Seq<char>)
    ensures
        is_prefix(a, a.push(x)),
{
    assert(a.push(x).take(a.len() as int) =~= a);
}

proof fn lemma_members_extend(lines: Seq<Seq<char>>, m: Seq<(Seq<char>, SpecJson)>, k: int, indent: int)
    ensures
        is_prefix(lines, emit_members(lines, m, k, indent)),
    decreases m, m.len() - k,
{
    if k < 0 || k >= m.len() {
        assert(lines.take(lines.len() as int) =~= lines);
    } else {
        let l1 = emit_entry(lines, m[k].0, m[k].1, indent);
        lemma_entry_extends(lines, m[k].0, m[k].1, indent);
        lemma_members_extend(l1, m, k + 1, indent);
        lemma_prefix_trans(lines, l1, emit_members(l1, m, k + 1, indent));
    }
}

proof fn lemma_entry_extends(lines: Seq<Seq<char>>, key: Seq<char>, v: SpecJson, indent: int)
    ensures
        is_prefix(lines, emit_entry(lines, key, v, indent)),
    decreases v, 0int,
{
    let prefix = crate::canonical::spaces(indent);
    match v {
        SpecJson::Array(arr) => {
            if key == "_relations"@ && (forall|i: int| 0 <= i < arr.len() ==> is_relation_object(#[trigger] arr[i])) {
                lemma_prefix_append(lines, seq![prefix + key + seq![':']] + arr.map_values(
                    |it: SpecJson| relation_line(it, indent),
                ));
                assert(lines + seq![prefix + key + seq![':']] + arr.map_values(|it: SpecJson| relation_line(it, indent))
                    =~= lines + (seq![prefix + key + seq![':']] + arr.map_values(|it: SpecJson| relation_line(it, indent))));
            } else if key == "_rules"@ && (forall|i: int| 0 <= i < arr.len() ==> #[trigger] arr[i] is Str) {
                let tail = arr.map_values(
                    |it: SpecJson| crate::canonical::spaces(indent + 2) + string_of_json(it),
                );
                lemma_prefix_append(lines, seq![prefix + key + seq![':']] + tail);
                assert(lines + seq![prefix + key + seq![':']] + tail =~= lines + (seq![prefix + key + seq![':']] + tail));
            } else if can_table(arr) {
                lemma_prefix_append(lines, json_table_lines(key, arr, indent));
            } else {
                lemma_list_extends(lines, key, arr, indent);
            }
        },
        SpecJson::Object(m) => {
            let l1 = lines.push(prefix + key + seq![':']);
            lemma_prefix_push(lines, prefix + key + seq![':']);
            lemma_members_extend(l1, m, 0, indent + 2);
            lemma_prefix_trans(lines, l1, emit_members(l1, m, 0, indent + 2));
        },
        SpecJson::Str(s) => {
            if s.contains('\n') && indent == 0 {
                let tail = seq![prefix + key + seq![' ', '"', '"', '"']] + text::split_on(s, '\n');
                lemma_prefix_append(lines, tail + seq![prefix + seq!['"', '"', '"']]);
                assert(lines + seq![prefix + key + seq![' ', '"', '"', '"']] + text::split_on(s, '\n') + seq![
                    prefix + seq!['"', '"', '"'],
                ] =~= lines + (tail + seq![prefix + seq!['"', '"', '"']]));
            } else {
                lemma_prefix_push(lines, prefix + key + seq![' '] + format_scalar(v));
            }
        },
        _ => {
            lemma_prefix_push(lines, prefix + key + seq![' '] + format_scalar(v));
        },
    }
}

proof fn lemma_list_extends(lines: Seq<Seq<char>>, key: Seq<char>, arr: Seq<SpecJson>, indent: int)
    ensures
        is_prefix(lines, emit_list(lines, key, arr, indent)),
    decreases arr, arr.len() + 1,
{
    let prefix = crate::canonical::spaces(indent);
    if arr.len() == 0 {
        lemma_prefix_push(lines, prefix + key + " []"@);
    } else if forall|i: int| 0 <= i < arr.len() ==> is_scalar(#[trigger] arr[i]) {
        lemma_prefix_push(
            lines,
            prefix + key + " ["@ + text::join(arr.map_values(|it: SpecJson| format_list_item(it)), seq![','])
                + seq![']'],
        );
    } else {
        let l1 = lines.push(prefix + key + seq![':']);
        lemma_prefix_push(lines, prefix + key + seq![':']);
        lemma_items_extend(l1, arr, 0, indent + 2);
        lemma_prefix_trans(lines, l1, emit_items(l1, arr, 0, indent + 2));
    }
}

proof fn lemma_items_extend(lines: Seq<Seq<char>>, arr: Seq<SpecJson>, k: int, indent: int)
    ensures
        is_prefix(lines, emit_items(lines, arr, k, indent)),
    decreases arr, arr.len() - k,
{
    if k < 0 || k >= arr.len() {
        assert(lines.take(lines.len() as int) =~= lines);
    } else {
        let l1 = emit_item(lines, arr[k], indent);
        lemma_item_extends(lines, arr[k], indent);
        lemma_items_extend(l1, arr, k + 1, indent);
        lemma_prefix_trans(lines, l1, emit_items(l1, arr, k + 1, indent));
    }
}

proof fn lemma_item_extends(lines: Seq<Seq<char>>, v: SpecJson, indent: int)
    ensures
        is_prefix(lines, emit_item(lines, v, indent)),
    decreases v, 0int,
{
    let l1 = lines.push(crate::canonical::spaces(indent) + "__item:"@);
    lemma_prefix_push(lines, crate::canonical::spaces(indent) + "__item:"@);
    match v {
        SpecJson::Object(m) => {
            lemma_members_extend(l1, m, 0, indent + 2);
            lemma_prefix_trans(lines, l1, emit_members(l1, m, 0, indent + 2));
        },
        SpecJson::Array(arr) => {
            let l2 = l1.push(crate::canonical::spaces(indent + 2) + "__value:"@);
            lemma_prefix_push(l1, crate::canonical::spaces(indent + 2) + "__value:"@);
            lemma_prefix_trans(lines, l1, l2);
            lemma_items_extend(l2, arr, 0, indent + 4);
            lemma_prefix_trans(lines, l2, emit_items(l2, arr, 0, indent + 4));
        },
        _ => {
            let l2 = l1.push(crate::canonical::spaces(indent + 2) + "__value "@ + format_scalar(v));
            lemma_prefix_push(l1, crate::canonical::spaces(indent + 2) + "__value "@ + format_scalar(v));
            lemma_prefix_trans(lines, l1, l2);
        },
    }
}

/// The joined text starts with the first piece, followed by the separator
/// when there are more.
proof fn lemma_join_first(parts: Seq<Seq<char>>, sep: Seq<char>)
    requires
        parts.len() >= 1,
    ensures
        text::starts_with(text::join(parts, sep), parts[0]),
        parts.len() >= 2 ==> text::starts_with(text::join(parts, sep), parts[0] + sep),
    decreases parts.len(),
{
    if parts.len() >= 2 {
        let d = parts.drop_last();
        lemma_join_first(d, sep);
        let j = text::join(d, sep);
        assert(text::join(parts, sep) == j + sep + parts.last());
        if parts.len() == 2 {
            assert(j == parts[0]);
            assert((j + sep + parts.last()).take((parts[0] + sep).len() as int) =~= parts[0] + sep);
        } else {
            assert(text::starts_with(j, parts[0] + sep));
            assert((j + sep + parts.last()).take((parts[0] + sep).len() as int) =~= j.take(
                (parts[0] + sep).len() as int,
            ));
        }
        assert((j + sep + parts.last()).take(parts[0].len() as int) =~= j.take(parts[0].len() as int));
        assert(d[0] == parts[0]);
    } else {
        assert(text::join(parts, sep) == parts[0]);
        assert(parts[0].take(parts[0].len() as int) =~= parts[0]);
    }
}

/// Stripping trailing newlines and spaces keeps a prefix, and stops at a
/// character that is neither.
proof fn lemma_strip(s: Seq<char>)
    ensures
        strip_newlines_spaces(s).len() <= s.len(),
        strip_newlines_spaces(s) == s.take(strip_newlines_spaces(s).len() as int),
        strip_newlines_spaces(s).len() > 0 ==> strip_newlines_spaces(s).last() != '\n'
            && strip_newlines_spaces(s).last() != ' ',
        forall|j: int| 0 <= j < s.len() && s[j] != '\n' && s[j] != ' ' ==> j < #[trigger] strip_newlines_spaces(s).len(),
    decreases s.len(),
{
    if s.len() > 0 && (s.last() == '\n' || s.last() == ' ') {
        lemma_strip(s.drop_last());
        let r = strip_newlines_spaces(s.drop_last());
        assert(s.drop_last().take(r.len() as int) =~= s.take(r.len() as int));
        assert forall|j: int| 0 <= j < s.len() && s[j] != '\n' && s[j] != ' ' implies j < #[trigger] strip_newlines_spaces(s).len() by {
            assert(j < s.len() - 1);
            assert(s.drop_last()[j] == s[j]);
        }
    } else {
        assert(s.take(s.len() as int) =~= s);
    }
}

/// The SDIF text written for a JSON object starts with the line
/// `@sdif 1.0` and ends with exactly one newline, after a character that
/// is neither a newline nor a space.
pub proof fn law_json_to_sdif_shape(m: Seq<(Seq<char>, SpecJson)>)
    ensures
        text::starts_with(spec_json_to_sdif(m), "@sdif 1.0"@ + seq!['\n']),
        spec_json_to_sdif(m).last() == '\n',
        spec_json_to_sdif(m)[spec_json_to_sdif(m).len() - 2] != '\n',
        spec_json_to_sdif(m)[spec_json_to_sdif(m).len() - 2] != ' ',
{
    reveal_strlit("@sdif 1.0");
    let h = "@sdif 1.0"@;
    let l0 = seq![h];
    let lines = emit_members(l0, m, 0, 0);
    lemma_members_extend(l0, m, 0, 0);
    assert(lines[0] == lines.take(1)[0]);
    assert(lines[0] == h);
    lemma_join_first(lines, seq!['\n']);
    let s = text::join(lines, seq!['\n']);
    lemma_strip(s);
    let r = strip_newlines_spaces(s);
    assert(s[8] == h[8]);
    assert(8 < r.len());
    let t = r + seq!['\n'];
    assert(spec_json_to_sdif(m) == t);
    assert(r.take(9) =~= s.take(9));
    if lines.len() >= 2 {
        if r.len() > 9 {
            assert(s[9] == (h + seq!['\n'])[9]);
            assert(t.take(10) =~= s.take(10));
        } else {
            assert(t.take(10) =~= r.take(9) + seq!['\n']);
        }
    } else {
        assert(lines =~= l0);
        assert(s == h);
        assert(t.take(10) =~= r.take(9) + seq!['\n']);
    }
    assert(t.take(9) == s.take(9));
}

proof fn lemma_sdif_escaped_front(v: Seq<char>)
    requires
        v.len() > 0,
    ensures
        sdif_escaped(v) == sdif_escape(v[0]) + sdif_escaped(v.skip(1)),
    decreases v.len(),
{
    if v.len() == 1 {
        assert(v.drop_last() =~= Seq::<char>::empty());
        assert(v.skip(1) =~= Seq::<char>::empty());
        assert(sdif_escaped(v) =~= sdif_escape(v[0]) + sdif_escaped(v.skip(1)));
    } else {
        lemma_sdif_escaped_front(v.drop_last());
        assert(v.drop_last()[0] == v[0]);
        assert(v.skip(1).drop_last() =~= v.drop_last().skip(1));
        assert(v.skip(1).last() == v.last());
        assert(sdif_escaped(v) =~= sdif_escape(v[0]) + sdif_escaped(v.skip(1)));
    }
}

proof fn lemma_unescape_sdif_escaped(v: Seq<char>)
    ensures
        crate::scan::unescape_from(sdif_escaped(v), 0) == v,
    decreases v.len(),
{
    if v.len() == 0 {
        assert(sdif_escaped(v) =~= Seq::<char>::empty());
    } else {
        let c = v[0];
        let r = v.skip(1);
        lemma_sdif_escaped_front(v);
        lemma_unescape_sdif_escaped(r);
        let e = sdif_escape(c) + sdif_escaped(r);
        if c == '\\' || c == '"' || c == '\n' || c == '\t' {
            crate::scan::lemma_unescape_drop_first(e, 2);
            crate::scan::lemma_unescape_drop_first(e.skip(1), 1);
            assert(e.skip(1).skip(1) =~= sdif_escaped(r));
        } else {
            crate::scan::lemma_unescape_drop_first(e, 1);
            assert(e.skip(1) =~= sdif_escaped(r));
        }
        assert(seq![c] + r =~= v);
    }
}

/// A JSON string written as a field value reads back as that string: the
/// parser unquotes the value text when it is quoted, and `document_to_json`
/// keeps a quoted value as a string and coerces a bare one, so a string that
/// would read as `null`, a boolean or a number, or that holds characters a
/// bare value cannot, is written quoted, with its escapes undone on reading.
pub proof fn law_string_field_round_trip(key: Seq<char>, s: Seq<char>)
    ensures
        field_json(
            SpecField {
                key,
                value: crate::scan::spec_unquote(format_scalar(SpecJson::Str(s))),
                quoted: crate::scan::spec_is_quoted(format_scalar(SpecJson::Str(s))),
            },
        ) == SpecJson::Str(s),
{
    let t = format_scalar(SpecJson::Str(s));
    if must_quote_string(s) {
        assert(t.subrange(1, t.len() - 1) =~= sdif_escaped(s));
        lemma_unescape_sdif_escaped(s);
    } else {
        assert(s[0] != '"') by {
            if s[0] == '"' {
                assert(s.contains('"'));
            }
        }
    }
}

/// Member `k` of an object, if `v` is an object that has one.
pub open spec fn json_member(v: SpecJson, k: Seq<char>) -> Option<SpecJson> {
    match v {
        SpecJson::Object(m) => crate::collections::lookup(m, k),
        _ => None,
    }
}

proof fn lemma_relations_of_front(x: SpecStatement, t: Seq<SpecStatement>)
    ensures
        ast::relations_of(seq![x] + t) == (match x {
            SpecStatement::Relation(r) => seq![r],
            _ => Seq::<SpecRelation>::empty(),
        }) + ast::relations_of(t),
    decreases t.len(),
{
    let head = match x {
        SpecStatement::Relation(r) => seq![r],
        _ => Seq::<SpecRelation>::empty(),
    };
    let u = seq![x] + t;
    if t.len() == 0 {
        assert(u =~= seq![x]);
        assert(u.drop_last() =~= Seq::<SpecStatement>::empty());
        assert(u.last() == x);
        assert(ast::relations_of(Seq::<SpecStatement>::empty()) == Seq::<SpecRelation>::empty());
        assert(ast::relations_of(u) == ast::relations_of(u.drop_last()) + head) by {
            match x {
                SpecStatement::Relation(r) => {
                    assert(Seq::<SpecRelation>::empty().push(r) =~= Seq::<SpecRelation>::empty() + head);
                },
                _ => {
                    assert(Seq::<SpecRelation>::empty() =~= Seq::<SpecRelation>::empty() + head);
                },
            }
        }
        assert(head + ast::relations_of(t) =~= head);
        assert(Seq::<SpecRelation>::empty() + head =~= head);
    } else {
        assert(u.drop_last() =~= seq![x] + t.drop_last());
        assert(u.last() == t.last());
        lemma_relations_of_front(x, t.drop_last());
        match t.last() {
            SpecStatement::Relation(r) => {
                assert(ast::relations_of(t) == ast::relations_of(t.drop_last()).push(r));
                assert(ast::relations_of(u) == ast::relations_of(u.drop_last()).push(r));
                assert(head + ast::relations_of(t.drop_last()).push(r) =~= (head + ast::relations_of(
                    t.drop_last(),
                )).push(r));
            },
            _ => {
                assert(ast::relations_of(t) == ast::relations_of(t.drop_last()));
                assert(ast::relations_of(u) == ast::relations_of(u.drop_last()));
            },
        }
    }
}

proof fn lemma_gather_relations(stmts: Seq<SpecStatement>, k: int, acc: Gathered)
    requires
        0 <= k <= stmts.len(),
        sorted_members(acc.0),
    ensures
        gather(stmts, k, acc).1 == acc.1 + ast::relations_of(stmts.skip(k)).map_values(
            |r: SpecRelation| relation_json(r),
        ),
        sorted_members(gather(stmts, k, acc).0),
    decreases stmts.len() - k,
{
    if k == stmts.len() {
        assert(stmts.skip(k) =~= Seq::<SpecStatement>::empty());
        assert(acc.1 + Seq::<SpecRelation>::empty().map_values(|r: SpecRelation| relation_json(r)) =~= acc.1);
    } else {
        let (m, rels, rules) = acc;
        let next = match stmts[k] {
            SpecStatement::Field(f) => (obj_insert(m, f.key, field_json(f)), rels, rules),
            SpecStatement::ObjectBlock(o) => (obj_insert(m, o.key, stmts_json(o.statements)), rels, rules),
            SpecStatement::Table(t) => (obj_insert(m, t.name, table_json(t)), rels, rules),
            SpecStatement::Relation(r) => (m, rels.push(relation_json(r)), rules),
            SpecStatement::Rule(r) => (m, rels, rules.push(SpecJson::Str(r.source))),
            SpecStatement::Narrative(n) => (obj_insert(m, n.key, SpecJson::Str(n.text)), rels, rules),
        };
        match stmts[k] {
            SpecStatement::Field(f) => law_obj_insert(m, f.key, field_json(f), f.key),
            SpecStatement::ObjectBlock(o) => law_obj_insert(m, o.key, stmts_json(o.statements), o.key),
            SpecStatement::Table(t) => law_obj_insert(m, t.name, table_json(t), t.name),
            SpecStatement::Narrative(n) => law_obj_insert(m, n.key, SpecJson::Str(n.text), n.key),
            _ => {},
        }
        assert(gather(stmts, k, acc) == gather(stmts, k + 1, next));
        lemma_gather_relations(stmts, k + 1, next);
        assert(stmts.skip(k) =~= seq![stmts[k]] + stmts.skip(k + 1));
        lemma_relations_of_front(stmts[k], stmts.skip(k + 1));
        let tail = ast::relations_of(stmts.skip(k + 1));
        match stmts[k] {
            SpecStatement::Relation(r) => {
                assert((seq![r] + tail).map_values(|r: SpecRelation| relation_json(r)) =~= seq![relation_json(r)]
                    + tail.map_values(|r: SpecRelation| relation_json(r)));
                assert(rels.push(relation_json(r)) + tail.map_values(|r: SpecRelation| relation_json(r)) =~= rels
                    + (seq![relation_json(r)] + tail.map_values(|r: SpecRelation| relation_json(r))));
            },
            _ => {
                assert(Seq::<SpecRelation>::empty() + tail =~= tail);
            },
        }
    }
}

proof fn lemma_relation_members(r: SpecRelation)
    ensures
        json_member(relation_json(r), "subject"@) == Some(SpecJson::Str(r.subject)),
        json_member(relation_json(r), "predicate"@) == Some(SpecJson::Str(r.predicate)),
        json_member(relation_json(r), "object"@) == Some(
            if r.object_quoted {
                SpecJson::Str(r.object)
            } else {
                coerce_scalar(r.object)
            },
        ),
{
    reveal_strlit("subject");
    reveal_strlit("predicate");
    reveal_strlit("object");
    let o = if r.object_quoted {
        SpecJson::Str(r.object)
    } else {
        coerce_scalar(r.object)
    };
    let m0 = Seq::<(Seq<char>, SpecJson)>::empty();
    let m1 = obj_insert(m0, "subject"@, SpecJson::Str(r.subject));
    let m2 = obj_insert(m1, "predicate"@, SpecJson::Str(r.predicate));
    assert("subject"@.len() != "predicate"@.len() && "subject"@.len() != "object"@.len() && "predicate"@.len()
        != "object"@.len());
    law_obj_insert(m0, "subject"@, SpecJson::Str(r.subject), "subject"@);
    law_obj_insert(m1, "predicate"@, SpecJson::Str(r.predicate), "subject"@);
    law_obj_insert(m2, "object"@, o, "subject"@);
    law_obj_insert(m2, "object"@, o, "predicate"@);
}

/// The relations of a statement list (one that is not a list of `__item`
/// blocks) appear in its JSON under `_relations`, one object per relation
/// in document order, with the relation's subject and predicate as strings
/// and its object as a string when it was quoted in the source, or read as
/// `null`, a boolean, a number or a string when it was bare.
pub proof fn law_relation_objects(stmts: Seq<SpecStatement>)
    requires
        !(stmts.len() > 0 && all_items(stmts)),
    ensures
        ast::relations_of(stmts).len() > 0 ==> (json_member(stmts_json(stmts), "_relations"@) matches Some(
            SpecJson::Array(a),
        ) && a.len() == ast::relations_of(stmts).len() && forall|i: int|
            0 <= i < a.len() ==> {
                &&& json_member(#[trigger] a[i], "subject"@) == Some(
                    SpecJson::Str(ast::relations_of(stmts)[i].subject),
                )
                &&& json_member(a[i], "predicate"@) == Some(SpecJson::Str(ast::relations_of(stmts)[i].predicate))
                &&& json_member(a[i], "object"@) == Some(
                    if ast::relations_of(stmts)[i].object_quoted {
                        SpecJson::Str(ast::relations_of(stmts)[i].object)
                    } else {
                        coerce_scalar(ast::relations_of(stmts)[i].object)
                    },
                )
            }),
{
    reveal_strlit("_relations");
    reveal_strlit("_rules");
    let rels = ast::relations_of(stmts);
    if rels.len() > 0 {
        let init: Gathered = (Seq::empty(), Seq::empty(), Seq::empty());
        lemma_gather_relations(stmts, 0, init);
        assert(stmts.skip(0) =~= stmts);
        let (m, rj, rules) = gather(stmts, 0, init);
        let mapped = rels.map_values(|r: SpecRelation| relation_json(r));
        assert(rj =~= mapped);
        let m1 = obj_insert(m, "_relations"@, SpecJson::Array(rj));
        law_obj_insert(m, "_relations"@, SpecJson::Array(rj), "_relations"@);
        assert("_relations"@.len() != "_rules"@.len());
        law_obj_insert(m1, "_rules"@, SpecJson::Array(rules), "_relations"@);
        assert forall|i: int| 0 <= i < mapped.len() implies {
            &&& json_member(#[trigger] mapped[i], "subject"@) == Some(SpecJson::Str(rels[i].subject))
            &&& json_member(mapped[i], "predicate"@) == Some(SpecJson::Str(rels[i].predicate))
            &&& json_member(mapped[i], "object"@) == Some(
                if rels[i].object_quoted {
                    SpecJson::Str(rels[i].object)
                } else {
                    coerce_scalar(rels[i].object)
                },
            )
        } by {
            lemma_relation_members(rels[i]);
        }
    }
}

/// `null` and the booleans, written as field values, read back as
/// themselves: bare `null`, `true` and `false` are read as the JSON values,
/// not as strings.
pub proof fn law_keyword_field_round_trip(key: Seq<char>, b: bool)
    ensures
        field_json(
            SpecField {
                key,
                value: crate::scan::spec_unquote(format_scalar(SpecJson::Null)),
                quoted: crate::scan::spec_is_quoted(format_scalar(SpecJson::Null)),
            },
        ) == SpecJson::Null,
        field_json(
            SpecField {
                key,
                value: crate::scan::spec_unquote(format_scalar(SpecJson::Bool(b))),
                quoted: crate::scan::spec_is_quoted(format_scalar(SpecJson::Bool(b))),
            },
        ) == SpecJson::Bool(b),
{
    reveal_strlit("null");
    reveal_strlit("true");
    reveal_strlit("false");
    assert("null"@ != "true"@ && "false"@ != "true"@ && "false"@ != "null"@) by {
        assert("null"@[0] != "true"@[0] && "false"@.len() != "true"@.len() && "false"@.len() != "null"@.len());
    }
}

} // verus!
