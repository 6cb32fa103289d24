//! Security and resource policy for the SDIF parser.
use vstd::prelude::*;

use std::collections::HashSet;
use std::path::PathBuf;

verus! {

/// A filesystem path (only carried by the policy; never inspected here).
#[verifier::external_type_specification]
#[verifier::external_body]
pub struct ExPathBuf(PathBuf);

/// Identifiers that may not be used as user-defined alias names or targets.
pub const RESERVED_TERMS: [&'static str; 2] = ["include", "alias"];

/// Whether `s` is one of [`RESERVED_TERMS`].
pub open spec fn is_reserved_term(s: Seq<char>) -> bool {
    s == "include"@ || s == "alias"@
}

/// Resource limits and permission flags that govern parser behaviour.
///
/// All boolean flags default to `false` (most restrictive).
#[derive(Debug, PartialEq, Eq)]
pub struct Policy {
    /// Allow `@include` directives.
    pub allow_includes: bool,
    /// Allowlist of filesystem paths from which `@include` directives may load
    /// files. An empty set means no path is permitted.
    pub allowed_include_paths: HashSet<PathBuf>,
    /// Allow `@include` directives that reference remote URLs.
    pub allow_remote_includes: bool,
    /// Allow `@schema` directives that reference remote URLs.
    pub allow_remote_schemas: bool,
    /// Maximum document size in bytes before parsing is rejected (1 MB).
    pub max_document_size: usize,
    /// Maximum nesting depth of object blocks.
    pub max_nesting_depth: usize,
    /// Maximum length of any single string value in bytes (64 KB).
    pub max_string_length: usize,
    /// Maximum number of rows in any single table.
    pub max_table_row_count: usize,
    /// Maximum depth of nested `@include` chains.
    pub max_include_depth: usize,
    /// Maximum cumulative size of all included content after expansion (2 MB).
    pub max_expanded_bytes: usize,
    /// Maximum number of alias expansions during parsing.
    pub max_alias_expansion: usize,
}

impl Default for Policy {
    fn default() -> (p: Self)
        ensures
            !p.allow_includes,
            p.allowed_include_paths@ == Set::<PathBuf>::empty(),
            !p.allow_remote_includes,
            !p.allow_remote_schemas,
            p.max_document_size == 1_000_000,
            p.max_nesting_depth == 16,
            p.max_string_length == 65536,
            p.max_table_row_count == 10000,
            p.max_include_depth == 5,
            p.max_expanded_bytes == 2_000_000,
            p.max_alias_expansion == 500,
    {
        Policy {
            allow_includes: false,
            allowed_include_paths: HashSet::new(),
            allow_remote_includes: false,
            allow_remote_schemas: false,
            max_document_size: 1_000_000,
            max_nesting_depth: 16,
            max_string_length: 65536,
            max_table_row_count: 10000,
            max_include_depth: 5,
            max_expanded_bytes: 2_000_000,
            max_alias_expansion: 500,
        }
    }
}

} // verus!
