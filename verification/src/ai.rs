//! AI projection view for SDIF documents.
//!
//! Produces compact `.sdif.ai` output from a parsed [`crate::Document`].
use vstd::prelude::*;

use crate::ast::{Directive, Document, SpecDirective, SpecDocument};
use crate::canonical::canonical_parts;
use crate::scan::lit;
use crate::text::eq_str;
use crate::ast;
use crate::canonical;

verus! {

broadcast use {vstd::string::group_string_axioms, vstd::std_specs::vec::group_vec_axioms};

/// A format directive (`@sdif` or `@sdif.ai`) renamed to `@sdif.ai`; any
/// other directive unchanged.
pub open spec fn ai_directive(d: SpecDirective) -> SpecDirective {
    if d.name == "sdif"@ || d.name == "sdif.ai"@ {
        SpecDirective { name: "sdif.ai"@, args: d.args }
    } else {
        d
    }
}

/// The AI projection: the canonical text of the document with its format
/// directive switched to `@sdif.ai`.
pub open spec fn spec_ai_view(doc: SpecDocument) -> Seq<char> {
    canonical::canonical_text(
        doc.directives.map_values(|d: SpecDirective| ai_directive(d)),
        doc.statements,
    )
}

/// A copy of a vector of strings.
fn copy_strings(v: &Vec<String>) -> (r: Vec<String>)
    ensures
        ast::strings_view(r@) == ast::strings_view(v@),
{
    let mut r: Vec<String> = Vec::new();
    let mut i: usize = 0;
    while i < v.len()
        invariant
            0 <= i <= v@.len(),
            ast::strings_view(r@) == ast::strings_view(v@).take(i as int),
        decreases v@.len() - i,
    {
        let s = v[i].clone();
        let ghost before = ast::strings_view(r@);
        r.push(s);
        assert(ast::strings_view(r@) == before.push(s@));
        i += 1;
        assert(ast::strings_view(v@).take(i as int) == ast::strings_view(v@).take(i - 1 as int).push(
            v@[i - 1]@,
        ));
    }
    assert(ast::strings_view(v@).take(v@.len() as int) == ast::strings_view(v@));
    r
}

/// Return the AI projection of `doc` as `.sdif.ai` text.
///
/// The projection keeps document content intact and swaps the format
/// directive to `@sdif.ai 1.0`, then renders it in canonical form.
pub fn ai_view(doc: &Document) -> (r: String)
    ensures
        r@ == spec_ai_view(doc@),
{
    let ghost target = doc@.directives.map_values(|d: SpecDirective| ai_directive(d));
    let mut dirs: Vec<Directive> = Vec::new();
    let mut i: usize = 0;
    while i < doc.directives.len()
        invariant
            0 <= i <= doc.directives@.len(),
            target == doc@.directives.map_values(|d: SpecDirective| ai_directive(d)),
            ast::directives_view(dirs@) == target.take(i as int),
        decreases doc.directives@.len() - i,
    {
        let d = &doc.directives[i];
        let name = crate::text::chars_of(d.name.as_str());
        let new_name = if eq_str(&name, "sdif") || eq_str(&name, "sdif.ai") {
            lit("sdif.ai")
        } else {
            d.name.clone()
        };
        let nd = Directive { name: new_name, args: copy_strings(&d.args) };
        assert(nd@ == ai_directive(d@));
        let ghost before = ast::directives_view(dirs@);
        dirs.push(nd);
        assert(ast::directives_view(dirs@) == before.push(nd@));
        i += 1;
        assert(target.take(i as int) == target.take(i - 1 as int).push(target[i - 1]));
    }
    assert(target.take(doc.directives@.len() as int) == target);
    canonical_parts(&dirs, &doc.statements)
}

} // verus!
