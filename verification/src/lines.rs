//! Line splitting with line-ending normalisation.
use vstd::prelude::*;

use crate::text::{lemma_split_on_nonempty, split_chars};
use crate::text;

verus! {

/// What character `i` of `s` becomes once `\r\n` and lone `\r` line endings
/// are normalised to `\n`.
pub open spec fn norm_piece(s: Seq<char>, i: int) -> Seq<char> {
    if s[i] == '\r' {
        if i + 1 < s.len() && s[i + 1] == '\n' {
            Seq::<char>::empty()
        } else {
            seq!['\n']
        }
    } else {
        seq![s[i]]
    }
}

/// Normalisation of the first `k` characters of `s`.
pub open spec fn norm_prefix(s: Seq<char>, k: int) -> Seq<char>
    decreases k,
{
    if k <= 0 {
        Seq::<char>::empty()
    } else {
        norm_prefix(s, k - 1) + norm_piece(s, k - 1)
    }
}

/// `s.replace("\r\n", "\n").replace('\r', "\n")`.
pub open spec fn normalize(s: Seq<char>) -> Seq<char> {
    norm_prefix(s, s.len() as int)
}

/// The lines of `s` after normalisation, as `split('\n')` yields them
/// (a final newline leaves an empty last piece).
pub open spec fn raw_lines(s: Seq<char>) -> Seq<Seq<char>> {
    text::split_on(normalize(s), '\n')
}

pub proof fn lemma_norm_prefix_len(s: Seq<char>, k: int)
    requires
        0 <= k <= s.len(),
    ensures
        norm_prefix(s, k).len() <= k,
    decreases k,
{
    if k > 0 {
        lemma_norm_prefix_len(s, k - 1);
    }
}

pub proof fn lemma_split_piece_len(s: Seq<char>, sep: char)
    ensures
        forall|i: int| 0 <= i < text::split_on(s, sep).len() ==> #[trigger] text::split_on(s, sep)[i].len() <= s.len(),
    decreases s.len(),
{
    if s.len() > 0 {
        lemma_split_piece_len(s.drop_last(), sep);
        lemma_split_on_nonempty(s.drop_last(), sep);
    }
}

pub proof fn lemma_split_count(s: Seq<char>, sep: char)
    ensures
        text::split_on(s, sep).len() <= s.len() + 1,
    decreases s.len(),
{
    if s.len() > 0 {
        lemma_split_count(s.drop_last(), sep);
        lemma_split_on_nonempty(s.drop_last(), sep);
    }
}

/// Normalises `\r\n` and lone `\r` line endings to `\n`.
pub fn normalize_chars(s: &[char]) -> (r: Vec<char>)
    ensures
        r@ == normalize(s@),
        r@.len() <= s@.len(),
{
    let mut r: Vec<char> = Vec::new();
    let mut i: usize = 0;
    while i < s.len()
        invariant
            0 <= i <= s.len(),
            r@ == norm_prefix(s@, i as int),
        decreases s.len() - i,
    {
        if s[i] == '\r' {
            if i + 1 < s.len() && s[i + 1] == '\n' {
            } else {
                r.push('\n');
            }
        } else {
            r.push(s[i]);
        }
        i += 1;
    }
    proof {
        lemma_norm_prefix_len(s@, s@.len() as int);
    }
    r
}

/// The normalised lines of `s` (every piece of `split('\n')`).
pub fn split_lines(s: &[char]) -> (r: Vec<Vec<char>>)
    ensures
        r@.len() == raw_lines(s@).len(),
        forall|i: int| 0 <= i < r@.len() ==> #[trigger] r@[i]@ == raw_lines(s@)[i],
        forall|i: int| 0 <= i < r@.len() ==> #[trigger] r@[i]@.len() <= s@.len(),
        r@.len() <= s@.len() + 1,
{
    let n = normalize_chars(s);
    let r = split_chars(&n, '\n');
    proof {
        lemma_split_piece_len(n@, '\n');
        lemma_split_count(n@, '\n');
        assert forall|i: int| 0 <= i < r@.len() implies #[trigger] r@[i]@.len() <= s@.len() by {
            assert(text::split_on(n@, '\n')[i].len() <= n@.len());
        }
    }
    r
}

/// `s` with every `\n` written as `\r\n`.
pub open spec fn with_crlf(s: Seq<char>) -> Seq<char>
    decreases s.len(),
{
    if s.len() == 0 {
        Seq::<char>::empty()
    } else {
        with_crlf(s.drop_last()) + if s.last() == '\n' {
            seq!['\r', '\n']
        } else {
            seq![s.last()]
        }
    }
}

/// `s` with every `\n` written as `\r`.
pub open spec fn with_cr(s: Seq<char>) -> Seq<char> {
    s.map_values(|c: char| if c == '\n' { '\r' } else { c })
}

proof fn lemma_norm_prefix_prefix(a: Seq<char>, b: Seq<char>, k: int)
    requires
        0 <= k <= a.len(),
        a.len() == 0 || a.last() != '\r',
    ensures
        norm_prefix(a + b, k) == norm_prefix(a, k),
    decreases k,
{
    if k > 0 {
        lemma_norm_prefix_prefix(a, b, k - 1);
        assert((a + b)[k - 1] == a[k - 1]);
        if k < a.len() {
            assert((a + b)[k] == a[k]);
        }
    }
}

proof fn lemma_norm_prefix_suffix(a: Seq<char>, b: Seq<char>, k: int)
    requires
        0 <= k <= b.len(),
        a.len() == 0 || a.last() != '\r',
    ensures
        norm_prefix(a + b, a.len() + k) == normalize(a) + norm_prefix(b, k),
    decreases k,
{
    if k == 0 {
        lemma_norm_prefix_prefix(a, b, a.len() as int);
        assert(normalize(a) + norm_prefix(b, 0) =~= normalize(a));
    } else {
        lemma_norm_prefix_suffix(a, b, k - 1);
        let i = a.len() + k - 1;
        assert((a + b)[i] == b[k - 1]);
        if k < b.len() {
            assert((a + b)[i + 1] == b[k]);
        }
        assert(norm_piece(a + b, i) == norm_piece(b, k - 1));
        assert(normalize(a) + norm_prefix(b, k - 1) + norm_piece(b, k - 1) =~= normalize(a) + (
        norm_prefix(b, k - 1) + norm_piece(b, k - 1)));
    }
}

/// Normalisation splits at a point not just after a `\r`.
pub proof fn lemma_normalize_concat(a: Seq<char>, b: Seq<char>)
    requires
        a.len() == 0 || a.last() != '\r',
    ensures
        normalize(a + b) == normalize(a) + normalize(b),
{
    lemma_norm_prefix_suffix(a, b, b.len() as int);
    assert((a + b).len() == a.len() + b.len());
}

proof fn lemma_norm_prefix_plain(s: Seq<char>, k: int)
    requires
        0 <= k <= s.len(),
        !s.contains('\r'),
    ensures
        norm_prefix(s, k) == s.take(k),
    decreases k,
{
    if k > 0 {
        lemma_norm_prefix_plain(s, k - 1);
        assert(s[k - 1] != '\r');
        assert(s.take(k - 1) + seq![s[k - 1]] =~= s.take(k));
    }
}

/// A text without `\r` is its own normalisation.
pub proof fn lemma_normalize_plain(s: Seq<char>)
    requires
        !s.contains('\r'),
    ensures
        normalize(s) == s,
{
    lemma_norm_prefix_plain(s, s.len() as int);
    assert(s.take(s.len() as int) =~= s);
}

proof fn lemma_with_crlf_end(s: Seq<char>)
    requires
        !s.contains('\r'),
    ensures
        with_crlf(s).len() == 0 || with_crlf(s).last() != '\r',
{
    if s.len() > 0 {
        assert(s.last() == s[s.len() - 1]);
    }
}

/// Writing the line ends of a text without `\r` as `\r\n` leaves its
/// normalisation unchanged.
pub proof fn lemma_normalize_crlf(s: Seq<char>)
    requires
        !s.contains('\r'),
    ensures
        normalize(with_crlf(s)) == s,
    decreases s.len(),
{
    if s.len() == 0 {
        assert(normalize(with_crlf(s)) =~= s);
    } else {
        let p = s.drop_last();
        let c = s.last();
        assert(!p.contains('\r')) by {
            if p.contains('\r') {
                let j = choose|j: int| 0 <= j < p.len() && p[j] == '\r';
                assert(s[j] == '\r');
            }
        }
        assert(c == s[s.len() - 1]);
        lemma_normalize_crlf(p);
        lemma_with_crlf_end(p);
        let tail = if c == '\n' { seq!['\r', '\n'] } else { seq![c] };
        lemma_normalize_concat(with_crlf(p), tail);
        if c == '\n' {
            assert(norm_piece(tail, 0) =~= Seq::<char>::empty());
            assert(norm_piece(tail, 1) =~= seq!['\n']);
            assert(norm_prefix(tail, 0) =~= Seq::<char>::empty());
            assert(norm_prefix(tail, 1) == norm_prefix(tail, 0) + norm_piece(tail, 0));
            assert(norm_prefix(tail, 1) =~= Seq::<char>::empty());
            assert(norm_prefix(tail, 2) == norm_prefix(tail, 1) + norm_piece(tail, 1));
            assert(normalize(tail) =~= seq!['\n']);
        } else {
            assert(norm_piece(tail, 0) =~= seq![c]);
            assert(norm_prefix(tail, 1) == norm_prefix(tail, 0) + norm_piece(tail, 0));
            assert(normalize(tail) =~= seq![c]);
        }
        assert(p + seq![c] =~= s);
    }
}

proof fn lemma_norm_prefix_cr(s: Seq<char>, k: int)
    requires
        0 <= k <= s.len(),
        !s.contains('\r'),
    ensures
        norm_prefix(with_cr(s), k) == s.take(k),
    decreases k,
{
    if k > 0 {
        lemma_norm_prefix_cr(s, k - 1);
        let t = with_cr(s);
        assert(s[k - 1] != '\r');
        if k < s.len() {
            assert(s[k] != '\r');
            assert(t[k] != '\n');
        }
        assert(norm_piece(t, k - 1) == seq![s[k - 1]]);
        assert(s.take(k - 1) + seq![s[k - 1]] =~= s.take(k));
    }
}

/// Writing the line ends of a text without `\r` as lone `\r` leaves its
/// normalisation unchanged.
pub proof fn lemma_normalize_cr(s: Seq<char>)
    requires
        !s.contains('\r'),
    ensures
        normalize(with_cr(s)) == s,
{
    lemma_norm_prefix_cr(s, s.len() as int);
    assert(s.take(s.len() as int) =~= s);
}

} // verus!
