//! AST nodes of a parsed SDIF document, with their mathematical models.
use vstd::prelude::*;

verus! {

broadcast use vstd::std_specs::vec::group_vec_axioms;

/// A parsed SDIF document.
#[derive(Debug, PartialEq)]
pub struct Document {
    pub directives: Vec<Directive>,
    pub statements: Vec<Statement>,
}

/// A line starting with `@`, e.g. `@sdif 1.0` (or an `alias[...]` header).
#[derive(Debug, Clone, PartialEq)]
pub struct Directive {
    pub name: String,
    pub args: Vec<String>,
}

/// A key–value field statement.
#[derive(Debug, Clone, PartialEq)]
pub struct Field {
    pub key: String,
    pub value: String,
    /// True when the value was written in double-quotes.
    pub quoted: bool,
}

/// A named block that contains nested statements.
#[derive(Debug, PartialEq)]
pub struct ObjectBlock {
    pub key: String,
    pub statements: Vec<Statement>,
}

/// A tabular data block. Columns are separated by literal HTAB characters.
#[derive(Debug, Clone, PartialEq)]
pub struct Table {
    pub name: String,
    pub columns: Vec<String>,
    pub rows: Vec<Vec<String>>,
    /// Indices (0-based, ascending) of columns in which the source wrote at
    /// least one cell in double-quotes; their cells are quoted in canonical
    /// form.
    pub quoted_columns: Vec<usize>,
}

/// A triple-style relation statement.
#[derive(Debug, Clone, PartialEq)]
pub struct Relation {
    pub subject: String,
    pub predicate: String,
    pub object: String,
    /// True when the object value was written in double-quotes.
    pub object_quoted: bool,
}

/// A narrative (prose) statement associated with a key.
#[derive(Debug, Clone, PartialEq)]
pub struct Narrative {
    pub key: String,
    pub text: String,
}

/// A rule statement, stored verbatim as `source` plus an optional parsed
/// expression tree.
#[derive(Debug, PartialEq)]
pub struct Rule {
    pub source: String,
    pub expression: Option<RuleExpression>,
}

/// An argument value in a rule call.
///
/// `Float` keeps the literal text of a token that reads as a floating-point
/// number (e.g. `2.5`, `1e3`, `inf`).
#[derive(Debug, PartialEq)]
pub enum RuleArg {
    Str(String),
    Int(i64),
    Float(String),
    Bool(bool),
    Null,
    Ident(String),
    Call(RuleCall),
}

/// A function call appearing inside a rule expression.
#[derive(Debug, PartialEq)]
pub struct RuleCall {
    pub name: String,
    pub args: Vec<RuleArg>,
}

/// A top-level rule expression: `action function(args…)`.
#[derive(Debug, PartialEq)]
pub struct RuleExpression {
    pub action: String,
    pub function: String,
    pub args: Vec<RuleArg>,
}

/// Any statement that can appear at document or object-block scope.
#[derive(Debug, PartialEq)]
pub enum Statement {
    Field(Field),
    ObjectBlock(ObjectBlock),
    Table(Table),
    Relation(Relation),
    Rule(Rule),
    Narrative(Narrative),
}

// ---------------------------------------------------------------------------
// Mathematical models
// ---------------------------------------------------------------------------

pub struct SpecDocument {
    pub directives: Seq<SpecDirective>,
    pub statements: Seq<SpecStatement>,
}

pub struct SpecDirective {
    pub name: Seq<char>,
    pub args: Seq<Seq<char>>,
}

pub struct SpecField {
    pub key: Seq<char>,
    pub value: Seq<char>,
    pub quoted: bool,
}

pub struct SpecObjectBlock {
    pub key: Seq<char>,
    pub statements: Seq<SpecStatement>,
}

pub struct SpecTable {
    pub name: Seq<char>,
    pub columns: Seq<Seq<char>>,
    pub rows: Seq<Seq<Seq<char>>>,
    pub quoted_columns: Seq<usize>,
}

pub struct SpecRelation {
    pub subject: Seq<char>,
    pub predicate: Seq<char>,
    pub object: Seq<char>,
    pub object_quoted: bool,
}

pub struct SpecNarrative {
    pub key: Seq<char>,
    pub text: Seq<char>,
}

pub struct SpecRule {
    pub source: Seq<char>,
    pub expression: Option<SpecRuleExpression>,
}

pub enum SpecRuleArg {
    Str(Seq<char>),
    Int(i64),
    Float(Seq<char>),
    Bool(bool),
    Null,
    Ident(Seq<char>),
    Call(SpecRuleCall),
}

pub struct SpecRuleCall {
    pub name: Seq<char>,
    pub args: Seq<SpecRuleArg>,
}

pub struct SpecRuleExpression {
    pub action: Seq<char>,
    pub function: Seq<char>,
    pub args: Seq<SpecRuleArg>,
}

pub enum SpecStatement {
    Field(SpecField),
    ObjectBlock(SpecObjectBlock),
    Table(SpecTable),
    Relation(SpecRelation),
    Rule(SpecRule),
    Narrative(SpecNarrative),
}

/// The views of a vector of strings.
pub open spec fn strings_view(v: Seq<String>) -> Seq<Seq<char>> {
    v.map_values(|s: String| s@)
}

/// The views of a vector of rows of strings.
pub open spec fn rows_view(v: Seq<Vec<String>>) -> Seq<Seq<Seq<char>>> {
    v.map_values(|r: Vec<String>| strings_view(r@))
}

impl View for Directive {
    type V = SpecDirective;

    open spec fn view(&self) -> SpecDirective {
        SpecDirective { name: self.name@, args: strings_view(self.args@) }
    }
}

impl View for Field {
    type V = SpecField;

    open spec fn view(&self) -> SpecField {
        SpecField { key: self.key@, value: self.value@, quoted: self.quoted }
    }
}

impl View for Table {
    type V = SpecTable;

    open spec fn view(&self) -> SpecTable {
        SpecTable {
            name: self.name@,
            columns: strings_view(self.columns@),
            rows: rows_view(self.rows@),
            quoted_columns: self.quoted_columns@,
        }
    }
}

impl View for Relation {
    type V = SpecRelation;

    open spec fn view(&self) -> SpecRelation {
        SpecRelation {
            subject: self.subject@,
            predicate: self.predicate@,
            object: self.object@,
            object_quoted: self.object_quoted,
        }
    }
}

impl View for Narrative {
    type V = SpecNarrative;

    open spec fn view(&self) -> SpecNarrative {
        SpecNarrative { key: self.key@, text: self.text@ }
    }
}

pub open spec fn rule_arg_view(a: &RuleArg) -> SpecRuleArg
    decreases a,
{
    match a {
        RuleArg::Str(s) => SpecRuleArg::Str(s@),
        RuleArg::Int(n) => SpecRuleArg::Int(*n),
        RuleArg::Float(s) => SpecRuleArg::Float(s@),
        RuleArg::Bool(b) => SpecRuleArg::Bool(*b),
        RuleArg::Null => SpecRuleArg::Null,
        RuleArg::Ident(s) => SpecRuleArg::Ident(s@),
        RuleArg::Call(c) => SpecRuleArg::Call(
            SpecRuleCall {
                name: c.name@,
                args: Seq::new(
                    c.args@.len(),
                    |i: int|
                        if 0 <= i < c.args@.len() {
                            rule_arg_view(&c.args@[i])
                        } else {
                            SpecRuleArg::Null
                        },
                ),
            },
        ),
    }
}

pub open spec fn rule_args_view(v: Seq<RuleArg>) -> Seq<SpecRuleArg> {
    v.map_values(|a: RuleArg| rule_arg_view(&a))
}

impl View for RuleArg {
    type V = SpecRuleArg;

    open spec fn view(&self) -> SpecRuleArg {
        rule_arg_view(self)
    }
}

impl View for RuleCall {
    type V = SpecRuleCall;

    open spec fn view(&self) -> SpecRuleCall {
        SpecRuleCall { name: self.name@, args: rule_args_view(self.args@) }
    }
}

impl View for RuleExpression {
    type V = SpecRuleExpression;

    open spec fn view(&self) -> SpecRuleExpression {
        SpecRuleExpression {
            action: self.action@,
            function: self.function@,
            args: rule_args_view(self.args@),
        }
    }
}

impl View for Rule {
    type V = SpecRule;

    open spec fn view(&self) -> SpecRule {
        SpecRule {
            source: self.source@,
            expression: match self.expression {
                Some(e) => Some(e@),
                None => None,
            },
        }
    }
}

pub open spec fn statement_view(s: &Statement) -> SpecStatement
    decreases s,
{
    match s {
        Statement::Field(f) => SpecStatement::Field(f@),
        Statement::ObjectBlock(o) => SpecStatement::ObjectBlock(
            SpecObjectBlock {
                key: o.key@,
                statements: Seq::new(
                    o.statements@.len(),
                    |i: int|
                        if 0 <= i < o.statements@.len() {
                            statement_view(&o.statements@[i])
                        } else {
                            SpecStatement::Narrative(
                                SpecNarrative { key: Seq::empty(), text: Seq::empty() },
                            )
                        },
                ),
            },
        ),
        Statement::Table(t) => SpecStatement::Table(t@),
        Statement::Relation(r) => SpecStatement::Relation(r@),
        Statement::Rule(r) => SpecStatement::Rule(r@),
        Statement::Narrative(n) => SpecStatement::Narrative(n@),
    }
}

pub open spec fn statements_view(v: Seq<Statement>) -> Seq<SpecStatement> {
    v.map_values(|s: Statement| statement_view(&s))
}

impl View for Statement {
    type V = SpecStatement;

    open spec fn view(&self) -> SpecStatement {
        statement_view(self)
    }
}

impl View for ObjectBlock {
    type V = SpecObjectBlock;

    open spec fn view(&self) -> SpecObjectBlock {
        SpecObjectBlock { key: self.key@, statements: statements_view(self.statements@) }
    }
}

pub open spec fn directives_view(v: Seq<Directive>) -> Seq<SpecDirective> {
    v.map_values(|d: Directive| d@)
}

impl View for Document {
    type V = SpecDocument;

    open spec fn view(&self) -> SpecDocument {
        SpecDocument {
            directives: directives_view(self.directives@),
            statements: statements_view(self.statements@),
        }
    }
}

pub proof fn lemma_object_view(o: ObjectBlock)
    ensures
        statement_view(&Statement::ObjectBlock(o)) == SpecStatement::ObjectBlock(o@),
{
    let a = statements_view(o.statements@);
    let s = Statement::ObjectBlock(o);
    let v = statement_view(&s);
    let ob = v->ObjectBlock_0;
    assert(v is ObjectBlock);
    assert(ob.statements.len() == a.len());
    assert forall|i: int| 0 <= i < a.len() implies ob.statements[i] == a[i] by {}
    assert(ob.statements =~= a);
}

pub proof fn lemma_call_view(c: RuleCall)
    ensures
        rule_arg_view(&RuleArg::Call(c)) == SpecRuleArg::Call(c@),
{
    let a = rule_args_view(c.args@);
    let x = RuleArg::Call(c);
    let v = rule_arg_view(&x);
    let cv = v->Call_0;
    assert(v is Call);
    assert(cv.args.len() == a.len());
    assert forall|i: int| 0 <= i < a.len() implies cv.args[i] == a[i] by {}
    assert(cv.args =~= a);
}


// ---------------------------------------------------------------------------
// Accessors: the statements of one kind, in order
// ---------------------------------------------------------------------------

/// The Field statements of `s`, in order.
pub open spec fn fields_of(s: Seq<SpecStatement>) -> Seq<SpecField>
    decreases s.len(),
{
    if s.len() == 0 {
        Seq::empty()
    } else {
        match s.last() {
            SpecStatement::Field(x) => fields_of(s.drop_last()).push(x),
            _ => fields_of(s.drop_last()),
        }
    }
}

/// The ObjectBlock statements of `s`, in order.
pub open spec fn objects_of(s: Seq<SpecStatement>) -> Seq<SpecObjectBlock>
    decreases s.len(),
{
    if s.len() == 0 {
        Seq::empty()
    } else {
        match s.last() {
            SpecStatement::ObjectBlock(x) => objects_of(s.drop_last()).push(x),
            _ => objects_of(s.drop_last()),
        }
    }
}

/// The Table statements of `s`, in order.
pub open spec fn tables_of(s: Seq<SpecStatement>) -> Seq<SpecTable>
    decreases s.len(),
{
    if s.len() == 0 {
        Seq::empty()
    } else {
        match s.last() {
            SpecStatement::Table(x) => tables_of(s.drop_last()).push(x),
            _ => tables_of(s.drop_last()),
        }
    }
}

/// The Relation statements of `s`, in order.
pub open spec fn relations_of(s: Seq<SpecStatement>) -> Seq<SpecRelation>
    decreases s.len(),
{
    if s.len() == 0 {
        Seq::empty()
    } else {
        match s.last() {
            SpecStatement::Relation(x) => relations_of(s.drop_last()).push(x),
            _ => relations_of(s.drop_last()),
        }
    }
}

/// The Rule statements of `s`, in order.
pub open spec fn rules_of(s: Seq<SpecStatement>) -> Seq<SpecRule>
    decreases s.len(),
{
    if s.len() == 0 {
        Seq::empty()
    } else {
        match s.last() {
            SpecStatement::Rule(x) => rules_of(s.drop_last()).push(x),
            _ => rules_of(s.drop_last()),
        }
    }
}

/// The Narrative statements of `s`, in order.
pub open spec fn narratives_of(s: Seq<SpecStatement>) -> Seq<SpecNarrative>
    decreases s.len(),
{
    if s.len() == 0 {
        Seq::empty()
    } else {
        match s.last() {
            SpecStatement::Narrative(x) => narratives_of(s.drop_last()).push(x),
            _ => narratives_of(s.drop_last()),
        }
    }
}

/// The Field statements of `stmts`, in order.
pub fn statements_fields(stmts: &Vec<Statement>) -> (r: Vec<&Field>)
    ensures
        r@.map_values(|x: &Field| x@) == fields_of(statements_view(stmts@)),
{
    let ghost sv = statements_view(stmts@);
    let mut r: Vec<&Field> = Vec::new();
    let mut i: usize = 0;
    while i < stmts.len()
        invariant
            0 <= i <= stmts@.len(),
            sv == statements_view(stmts@),
            r@.map_values(|x: &Field| x@) == fields_of(sv.take(i as int)),
        decreases stmts@.len() - i,
    {
        assert(sv.take(i + 1 as int).drop_last() == sv.take(i as int));
        assert(sv[i as int] == statement_view(&stmts@[i as int]));
        if let Statement::Field(x) = &stmts[i] {
            let ghost before = r@.map_values(|x: &Field| x@);
            r.push(x);
            assert(r@.map_values(|x: &Field| x@) == before.push(x@));
        }
        i += 1;
    }
    assert(sv.take(stmts@.len() as int) == sv);
    r
}

/// The ObjectBlock statements of `stmts`, in order.
pub fn statements_objects(stmts: &Vec<Statement>) -> (r: Vec<&ObjectBlock>)
    ensures
        r@.map_values(|x: &ObjectBlock| x@) == objects_of(statements_view(stmts@)),
{
    let ghost sv = statements_view(stmts@);
    let mut r: Vec<&ObjectBlock> = Vec::new();
    let mut i: usize = 0;
    while i < stmts.len()
        invariant
            0 <= i <= stmts@.len(),
            sv == statements_view(stmts@),
            r@.map_values(|x: &ObjectBlock| x@) == objects_of(sv.take(i as int)),
        decreases stmts@.len() - i,
    {
        assert(sv.take(i + 1 as int).drop_last() == sv.take(i as int));
        assert(sv[i as int] == statement_view(&stmts@[i as int]));
        if let Statement::ObjectBlock(x) = &stmts[i] {
            proof { lemma_object_view(*x); }
            let ghost before = r@.map_values(|x: &ObjectBlock| x@);
            r.push(x);
            assert(r@.map_values(|x: &ObjectBlock| x@) == before.push(x@));
        }
        i += 1;
    }
    assert(sv.take(stmts@.len() as int) == sv);
    r
}

/// The Table statements of `stmts`, in order.
pub fn statements_tables(stmts: &Vec<Statement>) -> (r: Vec<&Table>)
    ensures
        r@.map_values(|x: &Table| x@) == tables_of(statements_view(stmts@)),
{
    let ghost sv = statements_view(stmts@);
    let mut r: Vec<&Table> = Vec::new();
    let mut i: usize = 0;
    while i < stmts.len()
        invariant
            0 <= i <= stmts@.len(),
            sv == statements_view(stmts@),
            r@.map_values(|x: &Table| x@) == tables_of(sv.take(i as int)),
        decreases stmts@.len() - i,
    {
        assert(sv.take(i + 1 as int).drop_last() == sv.take(i as int));
        assert(sv[i as int] == statement_view(&stmts@[i as int]));
        if let Statement::Table(x) = &stmts[i] {
            let ghost before = r@.map_values(|x: &Table| x@);
            r.push(x);
            assert(r@.map_values(|x: &Table| x@) == before.push(x@));
        }
        i += 1;
    }
    assert(sv.take(stmts@.len() as int) == sv);
    r
}

/// The Relation statements of `stmts`, in order.
pub fn statements_relations(stmts: &Vec<Statement>) -> (r: Vec<&Relation>)
    ensures
        r@.map_values(|x: &Relation| x@) == relations_of(statements_view(stmts@)),
{
    let ghost sv = statements_view(stmts@);
    let mut r: Vec<&Relation> = Vec::new();
    let mut i: usize = 0;
    while i < stmts.len()
        invariant
            0 <= i <= stmts@.len(),
            sv == statements_view(stmts@),
            r@.map_values(|x: &Relation| x@) == relations_of(sv.take(i as int)),
        decreases stmts@.len() - i,
    {
        assert(sv.take(i + 1 as int).drop_last() == sv.take(i as int));
        assert(sv[i as int] == statement_view(&stmts@[i as int]));
        if let Statement::Relation(x) = &stmts[i] {
            let ghost before = r@.map_values(|x: &Relation| x@);
            r.push(x);
            assert(r@.map_values(|x: &Relation| x@) == before.push(x@));
        }
        i += 1;
    }
    assert(sv.take(stmts@.len() as int) == sv);
    r
}

/// The Rule statements of `stmts`, in order.
pub fn statements_rules(stmts: &Vec<Statement>) -> (r: Vec<&Rule>)
    ensures
        r@.map_values(|x: &Rule| x@) == rules_of(statements_view(stmts@)),
{
    let ghost sv = statements_view(stmts@);
    let mut r: Vec<&Rule> = Vec::new();
    let mut i: usize = 0;
    while i < stmts.len()
        invariant
            0 <= i <= stmts@.len(),
            sv == statements_view(stmts@),
            r@.map_values(|x: &Rule| x@) == rules_of(sv.take(i as int)),
        decreases stmts@.len() - i,
    {
        assert(sv.take(i + 1 as int).drop_last() == sv.take(i as int));
        assert(sv[i as int] == statement_view(&stmts@[i as int]));
        if let Statement::Rule(x) = &stmts[i] {
            let ghost before = r@.map_values(|x: &Rule| x@);
            r.push(x);
            assert(r@.map_values(|x: &Rule| x@) == before.push(x@));
        }
        i += 1;
    }
    assert(sv.take(stmts@.len() as int) == sv);
    r
}

/// The Narrative statements of `stmts`, in order.
pub fn statements_narratives(stmts: &Vec<Statement>) -> (r: Vec<&Narrative>)
    ensures
        r@.map_values(|x: &Narrative| x@) == narratives_of(statements_view(stmts@)),
{
    let ghost sv = statements_view(stmts@);
    let mut r: Vec<&Narrative> = Vec::new();
    let mut i: usize = 0;
    while i < stmts.len()
        invariant
            0 <= i <= stmts@.len(),
            sv == statements_view(stmts@),
            r@.map_values(|x: &Narrative| x@) == narratives_of(sv.take(i as int)),
        decreases stmts@.len() - i,
    {
        assert(sv.take(i + 1 as int).drop_last() == sv.take(i as int));
        assert(sv[i as int] == statement_view(&stmts@[i as int]));
        if let Statement::Narrative(x) = &stmts[i] {
            let ghost before = r@.map_values(|x: &Narrative| x@);
            r.push(x);
            assert(r@.map_values(|x: &Narrative| x@) == before.push(x@));
        }
        i += 1;
    }
    assert(sv.take(stmts@.len() as int) == sv);
    r
}

impl Document {
    /// The Field statements of this document, in order.
    pub fn fields(&self) -> (r: Vec<&Field>)
        ensures
            r@.map_values(|x: &Field| x@) == fields_of(statements_view(self.statements@)),
    {
        statements_fields(&self.statements)
    }

    /// The ObjectBlock statements of this document, in order.
    pub fn objects(&self) -> (r: Vec<&ObjectBlock>)
        ensures
            r@.map_values(|x: &ObjectBlock| x@) == objects_of(statements_view(self.statements@)),
    {
        statements_objects(&self.statements)
    }

    /// The Table statements of this document, in order.
    pub fn tables(&self) -> (r: Vec<&Table>)
        ensures
            r@.map_values(|x: &Table| x@) == tables_of(statements_view(self.statements@)),
    {
        statements_tables(&self.statements)
    }

    /// The Relation statements of this document, in order.
    pub fn relations(&self) -> (r: Vec<&Relation>)
        ensures
            r@.map_values(|x: &Relation| x@) == relations_of(statements_view(self.statements@)),
    {
        statements_relations(&self.statements)
    }

    /// The Rule statements of this document, in order.
    pub fn rules(&self) -> (r: Vec<&Rule>)
        ensures
            r@.map_values(|x: &Rule| x@) == rules_of(statements_view(self.statements@)),
    {
        statements_rules(&self.statements)
    }

    /// The Narrative statements of this document, in order.
    pub fn narratives(&self) -> (r: Vec<&Narrative>)
        ensures
            r@.map_values(|x: &Narrative| x@) == narratives_of(statements_view(self.statements@)),
    {
        statements_narratives(&self.statements)
    }

}

impl ObjectBlock {
    /// The Field statements of this block, in order.
    pub fn fields(&self) -> (r: Vec<&Field>)
        ensures
            r@.map_values(|x: &Field| x@) == fields_of(statements_view(self.statements@)),
    {
        statements_fields(&self.statements)
    }

    /// The ObjectBlock statements of this block, in order.
    pub fn objects(&self) -> (r: Vec<&ObjectBlock>)
        ensures
            r@.map_values(|x: &ObjectBlock| x@) == objects_of(statements_view(self.statements@)),
    {
        statements_objects(&self.statements)
    }

    /// The Table statements of this block, in order.
    pub fn tables(&self) -> (r: Vec<&Table>)
        ensures
            r@.map_values(|x: &Table| x@) == tables_of(statements_view(self.statements@)),
    {
        statements_tables(&self.statements)
    }

    /// The Relation statements of this block, in order.
    pub fn relations(&self) -> (r: Vec<&Relation>)
        ensures
            r@.map_values(|x: &Relation| x@) == relations_of(statements_view(self.statements@)),
    {
        statements_relations(&self.statements)
    }

    /// The Rule statements of this block, in order.
    pub fn rules(&self) -> (r: Vec<&Rule>)
        ensures
            r@.map_values(|x: &Rule| x@) == rules_of(statements_view(self.statements@)),
    {
        statements_rules(&self.statements)
    }

    /// The Narrative statements of this block, in order.
    pub fn narratives(&self) -> (r: Vec<&Narrative>)
        ensures
            r@.map_values(|x: &Narrative| x@) == narratives_of(statements_view(self.statements@)),
    {
        statements_narratives(&self.statements)
    }

}

} // verus!
