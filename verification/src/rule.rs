//! Rule expressions: tokenizer and recursive-descent parser for
//! `(action function args…)` and `action function(args…)` forms.
use vstd::prelude::*;

use crate::ast::{
    lemma_call_view, RuleArg, RuleCall, RuleExpression, SpecRuleArg, SpecRuleCall,
    SpecRuleExpression,
};
use crate::error::{ParseError, SpecParseError};
use crate::scan::{lit, unquote, vecs_view};
use crate::span::Span;
use crate::text::{
    chars_eq, chars_of, contains_char, decimal_chars, eq_str, is_alphanumeric, is_whitespace,
    push_all, push_str, slice_to_vec, string_of, utf8_len_of,
};
use crate::ast;
use crate::error;
use crate::scan;
use crate::text;

verus! {

broadcast use {vstd::string::group_string_axioms, vstd::std_specs::vec::group_vec_axioms};

// ---------------------------------------------------------------------------
// Tokenizer
// ---------------------------------------------------------------------------

/// The extra characters allowed in rule words besides alphanumerics.
pub open spec fn word_punct(c: char) -> bool {
    c == '_' || c == '-' || c == '.' || c == '/' || c == ':' || c == '[' || c == ']'
}

/// A character of a rule word: an ASCII letter or digit, one of the extra
/// punctuation characters, or a non-ASCII alphanumeric character.
pub open spec fn word_char(c: char) -> bool {
    if (c as u32) < 0x80 {
        text::is_ascii_alnum(c) || word_punct(c)
    } else {
        text::char_alphanumeric(c)
    }
}

/// End of a word starting at `j`.
pub open spec fn word_end(s: Seq<char>, j: int) -> int
    decreases s.len() - j,
{
    if 0 <= j < s.len() && word_char(s[j]) {
        word_end(s, j + 1)
    } else {
        j
    }
}

/// End (exclusive) of a quoted string whose body starts at `j`: one past
/// the first unescaped `"`, or the end of the text.
pub open spec fn str_end(s: Seq<char>, j: int, escaped: bool) -> int
    decreases s.len() - j,
{
    if j < 0 || j >= s.len() {
        j
    } else if escaped {
        str_end(s, j + 1, false)
    } else if s[j] == '\\' {
        str_end(s, j + 1, true)
    } else if s[j] == '"' {
        j + 1
    } else {
        str_end(s, j + 1, false)
    }
}

pub proof fn lemma_word_end(s: Seq<char>, j: int)
    requires
        0 <= j <= s.len(),
    ensures
        j <= word_end(s, j) <= s.len(),
    decreases s.len() - j,
{
    if j < s.len() && word_char(s[j]) {
        lemma_word_end(s, j + 1);
    }
}

pub proof fn lemma_str_end(s: Seq<char>, j: int, e: bool)
    requires
        0 <= j <= s.len(),
    ensures
        j <= str_end(s, j, e) <= s.len(),
    decreases s.len() - j,
{
    if j < s.len() {
        lemma_str_end(s, j + 1, false);
        lemma_str_end(s, j + 1, true);
    }
}

/// Tokens of `s` from position `i`: punctuation `(`, `)`, `,`; quoted
/// strings (with their quotes); words of alphanumerics and `_-./:[]`; any
/// other non-whitespace character on its own.
pub open spec fn tokens_from(s: Seq<char>, i: int) -> Seq<Seq<char>>
    decreases s.len() - i,
{
    if i < 0 || i >= s.len() {
        Seq::empty()
    } else {
        let c = s[i];
        if text::is_ws(c) {
            tokens_from(s, i + 1)
        } else if c == '(' || c == ')' || c == ',' {
            seq![seq![c]] + tokens_from(s, i + 1)
        } else if c == '"' {
            let e = str_end(s, i + 1, false);
            proof {
                lemma_str_end(s, i + 1, false);
            }
            if e > i {
                seq![s.subrange(i, e)] + tokens_from(s, e)
            } else {
                Seq::empty()
            }
        } else {
            let e = word_end(s, i);
            proof {
                lemma_word_end(s, i);
            }
            if e > i {
                seq![s.subrange(i, e)] + tokens_from(s, e)
            } else {
                seq![seq![c]] + tokens_from(s, i + 1)
            }
        }
    }
}

pub open spec fn spec_tokenize(s: Seq<char>) -> Seq<Seq<char>> {
    tokens_from(s, 0)
}

fn is_word_char(c: char) -> (b: bool)
    ensures
        b == word_char(c),
{
    if (c as u32) < 0x80 {
        ('a' <= c && c <= 'z') || ('A' <= c && c <= 'Z') || ('0' <= c && c <= '9') || c == '_' || c
            == '-' || c == '.' || c == '/' || c == ':' || c == '[' || c == ']'
    } else {
        is_alphanumeric(c)
    }
}

/// Tokenize a rule source.
pub fn tokenize_rule(source: &[char]) -> (r: Vec<Vec<char>>)
    ensures
        vecs_view(r@) == spec_tokenize(source@),
{
    let mut tokens: Vec<Vec<char>> = Vec::new();
    let mut i: usize = 0;
    while i < source.len()
        invariant
            0 <= i <= source.len(),
            vecs_view(tokens@) + tokens_from(source@, i as int) == tokens_from(source@, 0),
        decreases source.len() - i,
    {
        let ch = source[i];
        if is_whitespace(ch) {
            i += 1;
        } else if ch == '(' || ch == ')' || ch == ',' {
            let mut t = Vec::new();
            t.push(ch);
            tokens.push(t);
            proof {
                assert(vecs_view(tokens@) == vecs_view(tokens@.drop_last()).push(seq![ch]));
                assert(vecs_view(tokens@) + tokens_from(source@, i + 1) =~= vecs_view(
                    tokens@.drop_last(),
                ) + tokens_from(source@, i as int));
            }
            i += 1;
        } else if ch == '"' {
            let start = i;
            i += 1;
            let mut escaped = false;
            proof { lemma_str_end(source@, i as int, false); }
            let ghost e = str_end(source@, i as int, false);
            while i < source.len()
                invariant_except_break
                    start < i <= source.len(),
                    str_end(source@, i as int, escaped) == e,
                ensures
                    i == e,
                decreases source.len() - i,
            {
                if escaped {
                    escaped = false;
                } else if source[i] == '\\' {
                    escaped = true;
                } else if source[i] == '"' {
                    i += 1;
                    break;
                }
                i += 1;
            }
            let t = slice_to_vec(source, start, i);
            tokens.push(t);
            proof {
                assert(vecs_view(tokens@) == vecs_view(tokens@.drop_last()).push(t@));
                assert(vecs_view(tokens@) + tokens_from(source@, i as int) =~= vecs_view(
                    tokens@.drop_last(),
                ) + tokens_from(source@, start as int));
            }
        } else {
            let start = i;
            proof { lemma_word_end(source@, i as int); }
            while i < source.len() && is_word_char(source[i])
                invariant
                    start <= i <= source.len(),
                    word_end(source@, start as int) == word_end(source@, i as int),
                decreases source.len() - i,
            {
                i += 1;
            }
            if i > start {
                let t = slice_to_vec(source, start, i);
                tokens.push(t);
                proof {
                    assert(vecs_view(tokens@) == vecs_view(tokens@.drop_last()).push(t@));
                    assert(vecs_view(tokens@) + tokens_from(source@, i as int) =~= vecs_view(
                        tokens@.drop_last(),
                    ) + tokens_from(source@, start as int));
                }
            } else {
                let mut t = Vec::new();
                t.push(ch);
                tokens.push(t);
                proof {
                    assert(vecs_view(tokens@) == vecs_view(tokens@.drop_last()).push(seq![ch]));
                    assert(vecs_view(tokens@) + tokens_from(source@, i + 1) =~= vecs_view(
                        tokens@.drop_last(),
                    ) + tokens_from(source@, i as int));
                }
                i += 1;
            }
        }
    }
    assert(vecs_view(tokens@) =~= vecs_view(tokens@) + tokens_from(source@, i as int));
    tokens
}

// ---------------------------------------------------------------------------
// Literal tokens
// ---------------------------------------------------------------------------

/// Value of a run of ASCII digits.
pub open spec fn digits_val(d: Seq<char>) -> int
    decreases d.len(),
{
    if d.len() == 0 {
        0
    } else {
        digits_val(d.drop_last()) * 10 + (d.last() as int - '0' as int)
    }
}

pub open spec fn all_digits(d: Seq<char>) -> bool {
    forall|i: int| 0 <= i < d.len() ==> text::is_ascii_digit(#[trigger] d[i])
}

/// `i64::from_str`: an optional sign, then one or more ASCII digits, with
/// the value in range.
pub open spec fn spec_parse_i64(s: Seq<char>) -> Option<i64> {
    let neg = s.len() > 0 && s[0] == '-';
    let signed = s.len() > 0 && (s[0] == '-' || s[0] == '+');
    let d = if signed { s.skip(1) } else { s };
    if d.len() == 0 || !all_digits(d) {
        None
    } else {
        let v = if neg { -digits_val(d) } else { digits_val(d) };
        if i64::MIN <= v <= i64::MAX {
            Some(v as i64)
        } else {
            None
        }
    }
}

proof fn lemma_digits_val_nonneg(d: Seq<char>)
    requires
        all_digits(d),
    ensures
        digits_val(d) >= 0,
    decreases d.len(),
{
    if d.len() > 0 {
        assert(text::is_ascii_digit(d[d.len() - 1]));
        lemma_digits_val_nonneg(d.drop_last());
    }
}

/// Parses an `i64` the way `str::parse::<i64>` does.
pub fn parse_i64(s: &[char]) -> (r: Option<i64>)
    ensures
        r == spec_parse_i64(s@),
{
    let neg = s.len() > 0 && s[0] == '-';
    let signed = s.len() > 0 && (s[0] == '-' || s[0] == '+');
    let start: usize = if signed { 1 } else { 0 };
    let ghost d = if signed { s@.skip(1) } else { s@ };
    if start >= s.len() {
        return None;
    }
    // Magnitude so far, exact while `!over`; once `over`, it exceeds 2^63.
    let mut acc: u64 = 0;
    let mut over = false;
    let mut i: usize = start;
    while i < s.len()
        invariant
            start <= i <= s.len(),
            start == (if signed { 1int } else { 0int }),
            signed == (s@.len() > 0 && (s@[0] == '-' || s@[0] == '+')),
            d == (if signed { s@.skip(1) } else { s@ }),
            d == s@.skip(start as int),
            all_digits(d.take(i - start)),
            !over ==> acc as int == digits_val(d.take(i - start)) && acc <= 0x8000_0000_0000_0000,
            over ==> digits_val(d.take(i - start)) > 0x8000_0000_0000_0000,
        decreases s.len() - i,
    {
        let c = s[i];
        if !('0' <= c && c <= '9') {
            proof {
                assert(d[i - start] == c);
                assert(!text::is_ascii_digit(d[i - start]));
                assert(!all_digits(d));
                assert(signed == (s@.len() > 0 && (s@[0] == '-' || s@[0] == '+')));
                assert(d == (if signed { s@.skip(1) } else { s@ }));
                assert(spec_parse_i64(s@) is None);
            }
            return None;
        }
        proof {
            assert(d.take(i + 1 - start).drop_last() == d.take(i - start));
            assert(d.take(i + 1 - start).last() == c);
            lemma_digits_val_nonneg(d.take(i - start));
        }
        let dv = (c as u32 - '0' as u32) as u64;
        if !over {
            if acc > 0x0ccc_cccc_cccc_cccc || acc * 10 + dv > 0x8000_0000_0000_0000 {
                over = true;
            } else {
                acc = acc * 10 + dv;
            }
        }
        i += 1;
        assert(all_digits(d.take(i - start)));
    }
    assert(d.take(s.len() - start) == d);
    if over {
        return None;
    }
    if neg {
        if acc == 0x8000_0000_0000_0000 {
            Some(i64::MIN)
        } else {
            Some(-(acc as i64))
        }
    } else {
        if acc > 0x7fff_ffff_ffff_ffff {
            None
        } else {
            Some(acc as i64)
        }
    }
}

/// ASCII lowercase of a character.
pub open spec fn lower(c: char) -> char {
    if 'A' <= c && c <= 'Z' {
        ((c as u8) + 32) as char
    } else {
        c
    }
}

/// Case-insensitive (ASCII) equality.
pub open spec fn ci_eq(a: Seq<char>, b: Seq<char>) -> bool {
    a.len() == b.len() && forall|i: int| 0 <= i < a.len() ==> lower(#[trigger] a[i]) == b[i]
}

/// Index of the first non-digit at or after `i`.
pub open spec fn digit_run(s: Seq<char>, i: int) -> int
    decreases s.len() - i,
{
    if 0 <= i < s.len() && text::is_ascii_digit(s[i]) {
        digit_run(s, i + 1)
    } else {
        i
    }
}

pub proof fn lemma_digit_run(s: Seq<char>, i: int)
    requires
        0 <= i <= s.len(),
    ensures
        i <= digit_run(s, i) <= s.len(),
    decreases s.len() - i,
{
    if i < s.len() && text::is_ascii_digit(s[i]) {
        lemma_digit_run(s, i + 1);
    }
}

/// `Exp ::= 'e' Sign? Digit+` (case-insensitive), exactly the text from `k`.
pub open spec fn exponent_ok(b: Seq<char>, k: int) -> bool {
    &&& k < b.len() && lower(b[k]) == 'e'
    &&& {
        let m = if k + 1 < b.len() && (b[k + 1] == '+' || b[k + 1] == '-') { k + 2 } else { k + 1 };
        m < b.len() && digit_run(b, m) == b.len()
    }
}

/// `Number ::= (Digit+ | Digit+ '.' Digit* | Digit* '.' Digit+) Exp?`.
pub open spec fn number_ok(b: Seq<char>) -> bool {
    let i = digit_run(b, 0);
    if i < b.len() && b[i] == '.' {
        let j = digit_run(b, i + 1);
        (i > 0 || j > i + 1) && (j == b.len() || exponent_ok(b, j))
    } else {
        i > 0 && (i == b.len() || exponent_ok(b, i))
    }
}

/// Whether `s` reads as a floating-point number under the grammar of
/// `f64::from_str`: `Sign? ('inf' | 'infinity' | 'nan' | Number)`, compared
/// after ASCII lowercasing.
pub open spec fn spec_is_float(s: Seq<char>) -> bool {
    let b = if s.len() > 0 && (s[0] == '+' || s[0] == '-') { s.skip(1) } else { s };
    ci_eq(b, "inf"@) || ci_eq(b, "infinity"@) || ci_eq(b, "nan"@) || number_ok(b)
}

fn lower_char(c: char) -> (r: char)
    ensures
        r == lower(c),
{
    if 'A' <= c && c <= 'Z' {
        ((c as u8) + 32) as char
    } else {
        c
    }
}

fn ci_eq_str(a: &[char], b: &str) -> (r: bool)
    ensures
        r == ci_eq(a@, b@),
{
    let w = chars_of(b);
    if a.len() != w.len() {
        return false;
    }
    let mut i: usize = 0;
    while i < a.len()
        invariant
            a.len() == w.len(),
            w@ == b@,
            0 <= i <= a.len(),
            forall|j: int| 0 <= j < i ==> lower(#[trigger] a@[j]) == w@[j],
        decreases a.len() - i,
    {
        if lower_char(a[i]) != w[i] {
            return false;
        }
        i += 1;
    }
    true
}

fn digit_run_from(s: &[char], i: usize) -> (r: usize)
    requires
        i <= s.len(),
    ensures
        r == digit_run(s@, i as int),
        i <= r <= s.len(),
{
    let mut k = i;
    proof { lemma_digit_run(s@, i as int); }
    while k < s.len() && '0' <= s[k] && s[k] <= '9'
        invariant
            i <= k <= s.len(),
            digit_run(s@, i as int) == digit_run(s@, k as int),
        decreases s.len() - k,
    {
        k += 1;
    }
    k
}

fn exponent_valid(b: &[char], k: usize) -> (r: bool)
    requires
        k <= b.len(),
    ensures
        r == exponent_ok(b@, k as int),
{
    if !(k < b.len() && lower_char(b[k]) == 'e') {
        return false;
    }
    let m = if k + 1 < b.len() && (b[k + 1] == '+' || b[k + 1] == '-') { k + 2 } else { k + 1 };
    if m >= b.len() {
        return false;
    }
    digit_run_from(b, m) == b.len()
}

/// Whether `s` parses as an `f64` (`str::parse::<f64>` succeeds).
pub fn is_float(s: &[char]) -> (r: bool)
    ensures
        r == spec_is_float(s@),
{
    let b = if s.len() > 0 && (s[0] == '+' || s[0] == '-') {
        slice_to_vec(s, 1, s.len())
    } else {
        slice_to_vec(s, 0, s.len())
    };
    assert(s.len() > 0 && (s@[0] == '+' || s@[0] == '-') ==> b@ == s@.skip(1));
    assert(!(s.len() > 0 && (s@[0] == '+' || s@[0] == '-')) ==> b@ == s@);
    if ci_eq_str(&b, "inf") || ci_eq_str(&b, "infinity") || ci_eq_str(&b, "nan") {
        return true;
    }
    let i = digit_run_from(&b, 0);
    if i < b.len() && b[i] == '.' {
        let j = digit_run_from(&b, i + 1);
        (i > 0 || j > i + 1) && (j == b.len() || exponent_valid(&b, j))
    } else {
        i > 0 && (i == b.len() || exponent_valid(&b, i))
    }
}

/// The argument a single literal token denotes.
pub open spec fn spec_token_to_arg(t: Seq<char>) -> SpecRuleArg {
    if t.len() > 0 && t[0] == '"' && t.last() == '"' {
        SpecRuleArg::Str(scan::spec_unquote(t))
    } else if t == "null"@ {
        SpecRuleArg::Null
    } else if t == "true"@ {
        SpecRuleArg::Bool(true)
    } else if t == "false"@ {
        SpecRuleArg::Bool(false)
    } else if spec_parse_i64(t) is Some {
        SpecRuleArg::Int(spec_parse_i64(t)->0)
    } else if spec_is_float(t) {
        SpecRuleArg::Float(t)
    } else {
        SpecRuleArg::Ident(t)
    }
}

pub fn token_to_arg(token: &[char]) -> (a: RuleArg)
    ensures
        a@ == spec_token_to_arg(token@),
{
    if token.len() > 0 && token[0] == '"' && token[token.len() - 1] == '"' {
        let u = unquote(token);
        return RuleArg::Str(string_of(&u));
    }
    if eq_str(token, "null") {
        return RuleArg::Null;
    }
    if eq_str(token, "true") {
        return RuleArg::Bool(true);
    }
    if eq_str(token, "false") {
        return RuleArg::Bool(false);
    }
    if let Some(n) = parse_i64(token) {
        return RuleArg::Int(n);
    }
    if is_float(token) {
        return RuleArg::Float(string_of(token));
    }
    RuleArg::Ident(string_of(token))
}

/// A call name: non-empty, made of alphanumerics and `_-./:[]`.
pub open spec fn spec_is_rule_ident(s: Seq<char>) -> bool {
    s.len() > 0 && forall|i: int| 0 <= i < s.len() ==> word_char(#[trigger] s[i])
}

pub fn is_rule_ident(s: &[char]) -> (b: bool)
    ensures
        b == spec_is_rule_ident(s@),
{
    if s.len() == 0 {
        return false;
    }
    let mut i: usize = 0;
    while i < s.len()
        invariant
            0 <= i <= s.len(),
            forall|j: int| 0 <= j < i ==> word_char(#[trigger] s@[j]),
        decreases s.len() - i,
    {
        if !is_word_char(s[i]) {
            return false;
        }
        i += 1;
    }
    true
}

// ---------------------------------------------------------------------------
// Token parser
// ---------------------------------------------------------------------------

/// A parsed node: a literal argument or a call.
pub enum RuleNode {
    Lit(RuleArg),
    Call { name: Vec<char>, args: Vec<RuleArg> },
}

pub enum SpecNode {
    Lit(SpecRuleArg),
    Call(Seq<char>, Seq<SpecRuleArg>),
}

impl View for RuleNode {
    type V = SpecNode;

    open spec fn view(&self) -> SpecNode {
        match self {
            RuleNode::Lit(a) => SpecNode::Lit(a@),
            RuleNode::Call { name, args } => SpecNode::Call(name@, ast::rule_args_view(args@)),
        }
    }
}

/// The argument a node stands for inside an argument list.
pub open spec fn node_arg(n: SpecNode) -> SpecRuleArg {
    match n {
        SpecNode::Lit(a) => a,
        SpecNode::Call(name, args) => SpecRuleArg::Call(SpecRuleCall { name, args }),
    }
}

pub open spec fn is_tok(t: Seq<char>, c: char) -> bool {
    t == seq![c]
}

/// Parse one node at `pos`: `(name args…)`, `name(args, …)` or a literal.
/// Returns the node and the position after it.
pub open spec fn spec_node(t: Seq<Seq<char>>, pos: int) -> Result<(SpecNode, int), Seq<char>>
    decreases t.len() - pos, 0int,
{
    if pos < 0 || pos >= t.len() {
        Err("Unexpected end of expression"@)
    } else if is_tok(t[pos], '(') {
        let p = pos + 1;
        if p >= t.len() {
            Err("Unterminated parenthesis"@)
        } else if !spec_is_rule_ident(t[p]) {
            Err("Expected identifier for call name, got `"@ + t[p] + "`"@)
        } else {
            match spec_args(t, p + 1, false) {
                Err(e) => Err(e),
                Ok((args, q)) => if q >= t.len() || !is_tok(t[q], ')') {
                    Err("Expected `)` to close call"@)
                } else {
                    Ok((SpecNode::Call(t[p], args), q + 1))
                },
            }
        }
    } else if pos + 1 < t.len() && is_tok(t[pos + 1], '(') {
        match spec_args(t, pos + 2, true) {
            Err(e) => Err(e),
            Ok((args, q)) => if q >= t.len() || !is_tok(t[q], ')') {
                Err("Expected `)` to close compact call"@)
            } else {
                Ok((SpecNode::Call(t[pos], args), q + 1))
            },
        }
    } else {
        Ok((SpecNode::Lit(spec_token_to_arg(t[pos])), pos + 1))
    }
}

/// Parse arguments from `pos` up to (not including) a `)` or the end;
/// commas are skipped when `skip_commas`.
pub open spec fn spec_args(t: Seq<Seq<char>>, pos: int, skip_commas: bool) -> Result<
    (Seq<SpecRuleArg>, int),
    Seq<char>,
>
    decreases t.len() - pos, 1int,
{
    if pos < 0 || pos >= t.len() || is_tok(t[pos], ')') {
        Ok((Seq::empty(), pos))
    } else if skip_commas && is_tok(t[pos], ',') {
        spec_args(t, pos + 1, skip_commas)
    } else {
        match spec_node(t, pos) {
            Err(e) => Err(e),
            Ok((n, q)) => if pos < q <= t.len() {
                match spec_args(t, q, skip_commas) {
                    Err(e) => Err(e),
                    Ok((rest, r)) => Ok((seq![node_arg(n)] + rest, r)),
                }
            } else {
                Err(Seq::empty())
            },
        }
    }
}

pub open spec fn prefix_args(acc: Seq<SpecRuleArg>, r: Result<(Seq<SpecRuleArg>, int), Seq<char>>) -> Result<
    (Seq<SpecRuleArg>, int),
    Seq<char>,
> {
    match r {
        Ok((a, p)) => Ok((acc + a, p)),
        Err(e) => Err(e),
    }
}

fn tok_is(t: &Vec<char>, c: char) -> (b: bool)
    ensures
        b == is_tok(t@, c),
{
    let r = t.len() == 1 && t[0] == c;
    assert(r ==> t@ =~= seq![c]);
    r
}

fn node_to_arg(n: RuleNode) -> (a: RuleArg)
    ensures
        a@ == node_arg(n@),
{
    match n {
        RuleNode::Lit(a) => a,
        RuleNode::Call { name, args } => {
            let c = RuleCall { name: string_of(&name), args };
            proof { lemma_call_view(c); }
            RuleArg::Call(c)
        },
    }
}

fn msg_with(prefix: &str, mid: &[char], suffix: &str) -> (r: Vec<char>)
    ensures
        r@ == prefix@ + mid@ + suffix@,
{
    let mut v = chars_of(prefix);
    push_all(&mut v, mid);
    push_str(&mut v, suffix);
    v
}

fn parse_rule_node(tokens: &Vec<Vec<char>>, pos: usize) -> (r: Result<(RuleNode, usize), Vec<char>>)
    ensures
        match (r, spec_node(vecs_view(tokens@), pos as int)) {
            (Ok((n, p)), Ok((sn, sp))) => n@ == sn && p == sp && pos < p <= tokens@.len(),
            (Err(e), Err(se)) => e@ == se,
            _ => false,
        },
    decreases tokens@.len() - pos, 0int,
{
    let ghost t = vecs_view(tokens@);
    if pos >= tokens.len() {
        return Err(chars_of("Unexpected end of expression"));
    }
    if tok_is(&tokens[pos], '(') {
        let p = pos + 1;
        if p >= tokens.len() {
            return Err(chars_of("Unterminated parenthesis"));
        }
        if !is_rule_ident(&tokens[p]) {
            return Err(msg_with("Expected identifier for call name, got `", &tokens[p], "`"));
        }
        let (args, q) = match collect_rule_args(tokens, p + 1, false) {
            Ok(x) => x,
            Err(e) => {
                return Err(e);
            },
        };
        if q >= tokens.len() || !tok_is(&tokens[q], ')') {
            return Err(chars_of("Expected `)` to close call"));
        }
        let name = slice_to_vec(&tokens[p], 0, tokens[p].len());
        assert(name@ == t[p as int]);
        return Ok((RuleNode::Call { name, args }, q + 1));
    }
    if pos + 1 < tokens.len() && tok_is(&tokens[pos + 1], '(') {
        let (args, q) = match collect_rule_args(tokens, pos + 2, true) {
            Ok(x) => x,
            Err(e) => {
                return Err(e);
            },
        };
        if q >= tokens.len() || !tok_is(&tokens[q], ')') {
            return Err(chars_of("Expected `)` to close compact call"));
        }
        let name = slice_to_vec(&tokens[pos], 0, tokens[pos].len());
        assert(name@ == t[pos as int]);
        return Ok((RuleNode::Call { name, args }, q + 1));
    }
    let arg = token_to_arg(&tokens[pos]);
    Ok((RuleNode::Lit(arg), pos + 1))
}

fn collect_rule_args(tokens: &Vec<Vec<char>>, pos0: usize, skip_commas: bool) -> (r: Result<
    (Vec<RuleArg>, usize),
    Vec<char>,
>)
    requires
        pos0 <= tokens@.len(),
    ensures
        match (r, spec_args(vecs_view(tokens@), pos0 as int, skip_commas)) {
            (Ok((a, p)), Ok((sa, sp))) => ast::rule_args_view(a@) == sa && p == sp && pos0 <= p
                <= tokens@.len(),
            (Err(e), Err(se)) => e@ == se,
            _ => false,
        },
    decreases tokens@.len() - pos0, 1int,
{
    let ghost t = vecs_view(tokens@);
    let mut args: Vec<RuleArg> = Vec::new();
    let mut pos = pos0;
    while pos < tokens.len() && !tok_is(&tokens[pos], ')')
        invariant
            pos0 <= pos <= tokens@.len(),
            t == vecs_view(tokens@),
            spec_args(t, pos0 as int, skip_commas) == prefix_args(
                ast::rule_args_view(args@),
                spec_args(t, pos as int, skip_commas),
            ),
        decreases tokens@.len() - pos,
    {
        if skip_commas && tok_is(&tokens[pos], ',') {
            pos += 1;
            continue;
        }
        let (node, new_pos) = match parse_rule_node(tokens, pos) {
            Ok(x) => x,
            Err(e) => {
                return Err(e);
            },
        };
        let arg = node_to_arg(node);
        let ghost before = ast::rule_args_view(args@);
        args.push(arg);
        proof {
            assert(ast::rule_args_view(args@) == before.push(arg@));
            match spec_args(t, new_pos as int, skip_commas) {
                Ok((rest, r)) => {
                    assert(before + (seq![arg@] + rest) == before.push(arg@) + rest);
                },
                Err(_) => {},
            }
        }
        pos = new_pos;
    }
    Ok((args, pos))
}

// ---------------------------------------------------------------------------
// Debug rendering of literal arguments (used in error messages)
// ---------------------------------------------------------------------------

pub open spec fn hex_digit(n: nat) -> char {
    if n < 10 { digit_of(n) } else if n == 10 { 'a' } else if n == 11 { 'b' } else if n == 12 { 'c' }
    else if n == 13 { 'd' } else if n == 14 { 'e' } else { 'f' }
}

pub open spec fn digit_of(n: nat) -> char {
    text::digit_char(n)
}

/// How a character is written inside a debug-printed string.
pub open spec fn debug_char(c: char) -> Seq<char> {
    if c == '\t' {
        seq!['\\', 't']
    } else if c == '\r' {
        seq!['\\', 'r']
    } else if c == '\n' {
        seq!['\\', 'n']
    } else if c == '\\' {
        seq!['\\', '\\']
    } else if c == '"' {
        seq!['\\', '"']
    } else if c == '\0' {
        seq!['\\', '0']
    } else if (c as u32) < 0x20 || c as u32 == 0x7f {
        let n = c as nat;
        if n < 16 {
            seq!['\\', 'u', '{', hex_digit(n), '}']
        } else {
            seq!['\\', 'u', '{', hex_digit(n / 16), hex_digit(n % 16), '}']
        }
    } else if (c as u32) < 0x80 {
        seq![c]
    } else {
        char_escape_debug(c)
    }
}

/// How `char::escape_debug` writes a non-ASCII character: itself when it is
/// printable, `\u{..}` otherwise (decided by the Unicode tables).
pub uninterp spec fn char_escape_debug(c: char) -> Seq<char>;

/// `char::escape_debug`, which writes a character as the `Debug` output of a
/// string does. Trusted: the text it yields is `char_escape_debug(c)`; which
/// characters are escaped is left to the standard library's Unicode tables.
#[verifier::external_body]
fn escape_debug_text(c: char) -> (s: String)
    ensures
        s@ == char_escape_debug(c),
{
    c.escape_debug().to_string()
}

pub open spec fn debug_chars(s: Seq<char>) -> Seq<char>
    decreases s.len(),
{
    if s.len() == 0 {
        Seq::empty()
    } else {
        debug_chars(s.drop_last()) + debug_char(s.last())
    }
}

/// A string as `{:?}` prints it (quotes and escapes).
pub open spec fn debug_str(s: Seq<char>) -> Seq<char> {
    seq!['"'] + debug_chars(s) + seq!['"']
}

/// Decimal text of a signed integer.
pub open spec fn int_text(n: i64) -> Seq<char> {
    if n < 0 {
        seq!['-'] + text::decimal((-(n as int)) as nat)
    } else {
        text::decimal(n as nat)
    }
}

/// An argument as `{:?}` prints it (floats keep their source text).
pub open spec fn debug_arg(a: SpecRuleArg) -> Seq<char>
    decreases a, 0int,
{
    match a {
        SpecRuleArg::Str(s) => "Str("@ + debug_str(s) + ")"@,
        SpecRuleArg::Int(n) => "Int("@ + int_text(n) + ")"@,
        SpecRuleArg::Float(t) => "Float("@ + t + ")"@,
        SpecRuleArg::Bool(b) => if b { "Bool(true)"@ } else { "Bool(false)"@ },
        SpecRuleArg::Null => "Null"@,
        SpecRuleArg::Ident(s) => "Ident("@ + debug_str(s) + ")"@,
        SpecRuleArg::Call(c) => "Call(RuleCall { name: "@ + debug_str(c.name) + ", args: ["@ + debug_list(
            c.args,
            c.args.len() as int,
        ) + "] })"@,
    }
}

/// The first `n` arguments of `args` as `{:?}` prints a list's items,
/// separated by `, `.
pub open spec fn debug_list(args: Seq<SpecRuleArg>, n: int) -> Seq<char>
    decreases args, n,
{
    if n <= 0 || n > args.len() {
        Seq::empty()
    } else if n == 1 {
        debug_arg(args[0])
    } else {
        debug_list(args, n - 1) + ", "@ + debug_arg(args[n - 1])
    }
}

fn hex_digit_char(n: u32) -> (c: char)
    requires
        n < 16,
    ensures
        c == hex_digit(n as nat),
{
    if n < 10 {
        let d = decimal_chars(n as u128);
        d[0]
    } else if n == 10 { 'a' } else if n == 11 { 'b' } else if n == 12 { 'c' }
    else if n == 13 { 'd' } else if n == 14 { 'e' } else { 'f' }
}

fn push_debug_char(v: &mut Vec<char>, c: char)
    ensures
        final(v)@ == old(v)@ + debug_char(c),
{
    let ghost v0 = v@;
    if c == '\t' {
        v.push('\\'); v.push('t');
    } else if c == '\r' {
        v.push('\\'); v.push('r');
    } else if c == '\n' {
        v.push('\\'); v.push('n');
    } else if c == '\\' {
        v.push('\\'); v.push('\\');
    } else if c == '"' {
        v.push('\\'); v.push('"');
    } else if c == '\0' {
        v.push('\\'); v.push('0');
    } else if (c as u32) < 0x20 || c as u32 == 0x7f {
        let n = c as u32;
        v.push('\\'); v.push('u'); v.push('{');
        if n < 16 {
            v.push(hex_digit_char(n));
        } else {
            v.push(hex_digit_char(n / 16));
            v.push(hex_digit_char(n % 16));
        }
        v.push('}');
    } else if (c as u32) < 0x80 {
        v.push(c);
    } else {
        let e = escape_debug_text(c);
        let ec = text::chars_of(e.as_str());
        text::push_all(v, &ec);
    }
    assert(v@ =~= v0 + debug_char(c));
}

fn push_debug_str(v: &mut Vec<char>, s: &[char])
    ensures
        final(v)@ == old(v)@ + debug_str(s@),
{
    let ghost v0 = v@;
    v.push('"');
    let mut i: usize = 0;
    while i < s.len()
        invariant
            0 <= i <= s.len(),
            v@ == v0 + seq!['"'] + debug_chars(s@.take(i as int)),
        decreases s.len() - i,
    {
        assert(s@.take(i + 1 as int).drop_last() == s@.take(i as int));
        push_debug_char(v, s[i]);
        i += 1;
    }
    assert(s@.take(s.len() as int) == s@);
    v.push('"');
    assert(v@ =~= v0 + debug_str(s@));
}

pub(crate) fn push_int(v: &mut Vec<char>, n: i64)
    ensures
        final(v)@ == old(v)@ + int_text(n),
{
    if n < 0 {
        v.push('-');
        let m: u64 = if n == i64::MIN { 0x8000_0000_0000_0000u64 } else { (-n) as u64 };
        let d = decimal_chars(m as u128);
        push_all(v, &d);
    } else {
        let d = decimal_chars(n as u128);
        push_all(v, &d);
    }
}

fn push_debug_arg(v: &mut Vec<char>, a: &RuleArg)
    ensures
        final(v)@ == old(v)@ + debug_arg(a@),
    decreases a@,
{
    let ghost v0 = v@;
    match a {
        RuleArg::Str(s) => {
            push_str(v, "Str(");
            let c = chars_of(s.as_str());
            push_debug_str(v, &c);
            push_str(v, ")");
        },
        RuleArg::Int(n) => {
            push_str(v, "Int(");
            push_int(v, *n);
            push_str(v, ")");
        },
        RuleArg::Float(t) => {
            push_str(v, "Float(");
            let c = chars_of(t.as_str());
            push_all(v, &c);
            push_str(v, ")");
        },
        RuleArg::Bool(b) => {
            if *b {
                push_str(v, "Bool(true)");
            } else {
                push_str(v, "Bool(false)");
            }
        },
        RuleArg::Null => {
            push_str(v, "Null");
        },
        RuleArg::Ident(s) => {
            push_str(v, "Ident(");
            let c = chars_of(s.as_str());
            push_debug_str(v, &c);
            push_str(v, ")");
        },
        RuleArg::Call(c) => {
            proof {
                lemma_call_view(*c);
                let av = a@;
                assert(decreases_to!(av => av->Call_0));
                assert(decreases_to!(av->Call_0 => av->Call_0.args));
            }
            push_str(v, "Call(RuleCall { name: ");
            let n = chars_of(c.name.as_str());
            push_debug_str(v, &n);
            push_str(v, ", args: [");
            push_debug_list(v, &c.args);
            push_str(v, "] })");
        },
    }
    assert(v@ =~= v0 + debug_arg(a@));
}

fn push_debug_list(v: &mut Vec<char>, args: &Vec<RuleArg>)
    ensures
        final(v)@ == old(v)@ + debug_list(ast::rule_args_view(args@), args@.len() as int),
    decreases ast::rule_args_view(args@),
{
    let ghost v0 = v@;
    let ghost av = ast::rule_args_view(args@);
    let mut i: usize = 0;
    while i < args.len()
        invariant
            0 <= i <= args@.len(),
            av == ast::rule_args_view(args@),
            v@ == v0 + debug_list(av, i as int),
        decreases args@.len() - i,
    {
        if i > 0 {
            push_str(v, ", ");
        }
        proof {
            assert(av[i as int] == args@[i as int]@);
            assert(decreases_to!(av => av[i as int]));
        }
        push_debug_arg(v, &args[i]);
        proof {
            if i == 0 {
                assert(v@ =~= v0 + debug_list(av, 1));
            } else {
                assert(v@ =~= v0 + debug_list(av, i + 1));
            }
        }
        i += 1;
    }
}

// ---------------------------------------------------------------------------
// Rule expressions
// ---------------------------------------------------------------------------

/// Build the expression from the top-level call `(action first rest…)`.
pub open spec fn spec_to_rule_expression(action: Seq<char>, args: Seq<SpecRuleArg>) -> Result<
    SpecRuleExpression,
    Seq<char>,
> {
    if action != "deny"@ && action != "warn"@ {
        Err("Invalid rule action: `"@ + action + "`. Must be `deny` or `warn`."@)
    } else if args.len() == 0 {
        Err("Rule expression must have at least one function or argument"@)
    } else {
        match args[0] {
            SpecRuleArg::Call(c) => Ok(
                SpecRuleExpression { action, function: c.name, args: c.args },
            ),
            SpecRuleArg::Ident(name) => Ok(
                SpecRuleExpression { action, function: name, args: args.skip(1) },
            ),
            first => Err("Invalid rule function or first argument: `"@ + debug_arg(first) + "`"@),
        }
    }
}

/// Parse a token list as a whole rule expression.
pub open spec fn spec_parse_rule_tokens(t: Seq<Seq<char>>) -> Result<SpecRuleExpression, Seq<char>> {
    match spec_node(t, 0) {
        Err(e) => Err(e),
        Ok((n, pos)) => if pos < t.len() {
            Err("Extra tokens at end of rule expression"@)
        } else {
            match n {
                SpecNode::Call(name, args) => spec_to_rule_expression(name, args),
                SpecNode::Lit(_) => Err(
                    "Rule expression must start with a parenthesized action call"@,
                ),
            }
        },
    }
}

/// The rule expression of `source`, or an `SDIF_RULE_EXPR` error carrying
/// the parser's message.
pub open spec fn spec_rule_expr(source: Seq<char>, row_no: u32) -> Result<SpecRuleExpression, SpecParseError> {
    match spec_parse_rule_tokens(spec_tokenize(source)) {
        Ok(e) => Ok(e),
        Err(m) => Err(
            error::spec_error(
                "SDIF_RULE_EXPR"@,
                "invalid rule expression: "@ + m,
                scan::sline(row_no, 1, text::utf8_len(source) + 1int),
            ),
        ),
    }
}

fn rule_args_clone(v: &Vec<RuleArg>, from: usize) -> (r: Vec<RuleArg>)
    requires
        from <= v@.len(),
    ensures
        ast::rule_args_view(r@) == ast::rule_args_view(v@).skip(from as int),
{
    let mut r: Vec<RuleArg> = Vec::new();
    let mut i = from;
    while i < v.len()
        invariant
            from <= i <= v@.len(),
            ast::rule_args_view(r@) == ast::rule_args_view(v@).subrange(from as int, i as int),
        decreases v.len() - i,
    {
        let a = clone_arg(&v[i]);
        let ghost before = ast::rule_args_view(r@);
        r.push(a);
        assert(ast::rule_args_view(r@) == before.push(a@));
        i += 1;
        assert(ast::rule_args_view(v@).subrange(from as int, i as int) == ast::rule_args_view(v@).subrange(from as int, i - 1 as int).push(ast::rule_arg_view(&v@[i - 1])));
    }
    assert(ast::rule_args_view(v@).subrange(from as int, v@.len() as int) == ast::rule_args_view(v@).skip(from as int));
    r
}

/// A copy of a rule argument.
pub fn clone_arg(a: &RuleArg) -> (r: RuleArg)
    ensures
        r@ == a@,
    decreases a@,
{
    match a {
        RuleArg::Str(s) => RuleArg::Str(s.clone()),
        RuleArg::Int(n) => RuleArg::Int(*n),
        RuleArg::Float(s) => RuleArg::Float(s.clone()),
        RuleArg::Bool(b) => RuleArg::Bool(*b),
        RuleArg::Null => RuleArg::Null,
        RuleArg::Ident(s) => RuleArg::Ident(s.clone()),
        RuleArg::Call(c) => {
            proof { lemma_call_view(*c); }
            let mut args: Vec<RuleArg> = Vec::new();
            let mut i: usize = 0;
            while i < c.args.len()
                invariant
                    0 <= i <= c.args@.len(),
                    a@ == SpecRuleArg::Call(c@),
                    ast::rule_args_view(args@) == ast::rule_args_view(c.args@).take(i as int),
                decreases c.args@.len() - i,
            {
                assert(ast::rule_args_view(c.args@)[i as int] == c.args@[i as int]@);
                proof {
                    lemma_call_view(*c);
                    let av = a@;
                    assert(av is Call);
                    assert(decreases_to!(av => av->Call_0));
                    assert(decreases_to!(av->Call_0 => av->Call_0.args));
                    assert(av->Call_0.args[i as int] == c.args@[i as int]@);
                    assert(decreases_to!(av->Call_0.args => av->Call_0.args[i as int]));
                    assert(decreases_to!(a@ => c.args@[i as int]@));
                }
                let x = clone_arg(&c.args[i]);
                let ghost before = ast::rule_args_view(args@);
                args.push(x);
                assert(ast::rule_args_view(args@) == before.push(x@));
                i += 1;
                assert(ast::rule_args_view(c.args@).take(i as int) == ast::rule_args_view(c.args@).take(i - 1 as int).push(ast::rule_arg_view(&c.args@[i - 1])));
            }
            assert(ast::rule_args_view(c.args@).take(c.args@.len() as int) == ast::rule_args_view(c.args@));
            let nc = RuleCall { name: c.name.clone(), args };
            proof { lemma_call_view(nc); }
            RuleArg::Call(nc)
        },
    }
}

fn to_rule_expression(action: &Vec<char>, args: &Vec<RuleArg>) -> (r: Result<RuleExpression, Vec<char>>)
    ensures
        match (r, spec_to_rule_expression(action@, ast::rule_args_view(args@))) {
            (Ok(e), Ok(se)) => e@ == se,
            (Err(m), Err(sm)) => m@ == sm,
            _ => false,
        },
{
    if !eq_str(action, "deny") && !eq_str(action, "warn") {
        return Err(msg_with("Invalid rule action: `", action, "`. Must be `deny` or `warn`."));
    }
    if args.len() == 0 {
        return Err(chars_of("Rule expression must have at least one function or argument"));
    }
    match &args[0] {
        RuleArg::Call(call) => {
            proof { lemma_call_view(*call); }
            let fargs = rule_args_clone(&call.args, 0);
            assert(ast::rule_args_view(call.args@).skip(0) == ast::rule_args_view(call.args@));
            Ok(RuleExpression { action: string_of(action), function: call.name.clone(), args: fargs })
        },
        RuleArg::Ident(name) => {
            let rest = rule_args_clone(args, 1);
            Ok(RuleExpression { action: string_of(action), function: name.clone(), args: rest })
        },
        first => {
            let mut m = chars_of("Invalid rule function or first argument: `");
            push_debug_arg(&mut m, first);
            push_str(&mut m, "`");
            Err(m)
        },
    }
}

fn parse_rule_tokens(tokens: &Vec<Vec<char>>) -> (r: Result<RuleExpression, Vec<char>>)
    ensures
        match (r, spec_parse_rule_tokens(vecs_view(tokens@))) {
            (Ok(e), Ok(se)) => e@ == se,
            (Err(m), Err(sm)) => m@ == sm,
            _ => false,
        },
{
    let (node, pos) = parse_rule_node(tokens, 0)?;
    if pos < tokens.len() {
        return Err(chars_of("Extra tokens at end of rule expression"));
    }
    match node {
        RuleNode::Call { name, args } => to_rule_expression(&name, &args),
        RuleNode::Lit(_) => Err(chars_of("Rule expression must start with a parenthesized action call")),
    }
}

/// Parse the rule source of row `row_no`.
pub fn tokenize_and_parse_rule(source: &[char], row_no: u32) -> (r: Result<RuleExpression, ParseError>)
    requires
        source@.len() <= scan::max_text(),
    ensures
        match (r, spec_rule_expr(source@, row_no)) {
            (Ok(e), Ok(se)) => e@ == se,
            (Err(e), Err(se)) => e@ == se,
            _ => false,
        },
{
    let tokens = tokenize_rule(source);
    match parse_rule_tokens(&tokens) {
        Ok(expr) => Ok(expr),
        Err(e) => {
            proof { text::lemma_utf8_len_bounds(source@); }
            let n = utf8_len_of(source);
            let m = msg_with("invalid rule expression: ", &e, "");
            assert(m@ == "invalid rule expression: "@ + e@) by {
                reveal_strlit("");
            }
            Err(
                ParseError::new(
                    lit("SDIF_RULE_EXPR"),
                    string_of(&m),
                    Span::single_line(row_no, 1, n as u32 + 1),
                ),
            )
        },
    }
}

} // verus!
