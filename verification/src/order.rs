//! Stable ordering by sort keys: a rank, then a sequence of strings compared
//! lexicographically (strings by code point, as `str`'s `<` orders them).
use vstd::prelude::*;

verus! {

broadcast use vstd::std_specs::vec::group_vec_axioms;

/// A sort key: a rank, then strings.
pub type SpecKey = (int, Seq<Seq<char>>);

/// `a < b` for strings: the first differing character decides, and a proper
/// prefix comes first.
pub open spec fn str_lt(a: Seq<char>, b: Seq<char>) -> bool
    decreases a.len(),
{
    if a.len() == 0 {
        b.len() > 0
    } else if b.len() == 0 {
        false
    } else if a[0] != b[0] {
        (a[0] as int) < (b[0] as int)
    } else {
        str_lt(a.skip(1), b.skip(1))
    }
}

/// `a < b` for sequences of strings, lexicographically.
pub open spec fn strs_lt(a: Seq<Seq<char>>, b: Seq<Seq<char>>) -> bool
    decreases a.len(),
{
    if a.len() == 0 {
        b.len() > 0
    } else if b.len() == 0 {
        false
    } else if a[0] != b[0] {
        str_lt(a[0], b[0])
    } else {
        strs_lt(a.skip(1), b.skip(1))
    }
}

/// `a < b` for sort keys: by rank, then by strings.
pub open spec fn key_lt(a: SpecKey, b: SpecKey) -> bool {
    a.0 < b.0 || (a.0 == b.0 && strs_lt(a.1, b.1))
}

/// Where item `x` goes in `order` (already sorted): after every item whose
/// key is not greater than its own, from position `k` on.
pub open spec fn insert_pos(keys: Seq<SpecKey>, order: Seq<int>, x: int, k: int) -> int
    decreases order.len() - k,
{
    if k < 0 || k >= order.len() {
        order.len() as int
    } else if key_lt(keys[x], keys[order[k]]) {
        k
    } else {
        insert_pos(keys, order, x, k + 1)
    }
}

/// The first `n` items, stably sorted by key: item `i` is inserted after
/// the items before it whose keys are not greater.
pub open spec fn sorted_prefix(keys: Seq<SpecKey>, n: int) -> Seq<int>
    decreases n,
{
    if n <= 0 {
        Seq::empty()
    } else {
        let o = sorted_prefix(keys, n - 1);
        o.insert(insert_pos(keys, o, n - 1, 0), n - 1)
    }
}

/// The indices of `keys`, stably sorted by key.
pub open spec fn sorted_order(keys: Seq<SpecKey>) -> Seq<int> {
    sorted_prefix(keys, keys.len() as int)
}

pub open spec fn key_view(k: (u32, Vec<Vec<char>>)) -> SpecKey {
    (k.0 as int, crate::scan::vecs_view(k.1@))
}

pub open spec fn keys_view(v: Seq<(u32, Vec<Vec<char>>)>) -> Seq<SpecKey> {
    v.map_values(|k: (u32, Vec<Vec<char>>)| key_view(k))
}

/// `a < b` for strings.
pub fn chars_lt(a: &[char], b: &[char]) -> (r: bool)
    ensures
        r == str_lt(a@, b@),
{
    let mut i: usize = 0;
    assert(a@.skip(0) == a@ && b@.skip(0) == b@);
    while i < a.len() && i < b.len() && a[i] == b[i]
        invariant
            0 <= i <= a@.len(),
            i <= b@.len(),
            str_lt(a@, b@) == str_lt(a@.skip(i as int), b@.skip(i as int)),
        decreases a@.len() - i,
    {
        assert(a@.skip(i as int).skip(1) == a@.skip(i + 1 as int));
        assert(b@.skip(i as int).skip(1) == b@.skip(i + 1 as int));
        i += 1;
    }
    if i == a.len() {
        i < b.len()
    } else if i == b.len() {
        false
    } else {
        a[i] < b[i]
    }
}

/// `a < b` for sequences of strings.
pub fn strings_lt(a: &Vec<Vec<char>>, b: &Vec<Vec<char>>) -> (r: bool)
    ensures
        r == strs_lt(crate::scan::vecs_view(a@), crate::scan::vecs_view(b@)),
{
    let ghost av = crate::scan::vecs_view(a@);
    let ghost bv = crate::scan::vecs_view(b@);
    let mut i: usize = 0;
    assert(av.skip(0) == av && bv.skip(0) == bv);
    while i < a.len() && i < b.len() && crate::text::chars_eq(&a[i], &b[i])
        invariant
            0 <= i <= a@.len(),
            i <= b@.len(),
            av == crate::scan::vecs_view(a@),
            bv == crate::scan::vecs_view(b@),
            strs_lt(av, bv) == strs_lt(av.skip(i as int), bv.skip(i as int)),
        decreases a@.len() - i,
    {
        assert(av.skip(i as int).skip(1) == av.skip(i + 1 as int));
        assert(bv.skip(i as int).skip(1) == bv.skip(i + 1 as int));
        assert(av[i as int] == a@[i as int]@);
        assert(bv[i as int] == b@[i as int]@);
        i += 1;
    }
    if i == a.len() {
        i < b.len()
    } else if i == b.len() {
        false
    } else {
        assert(av[i as int] == a@[i as int]@);
        assert(bv[i as int] == b@[i as int]@);
        chars_lt(&a[i], &b[i])
    }
}

/// `a < b` for sort keys.
pub fn keys_lt(a: &(u32, Vec<Vec<char>>), b: &(u32, Vec<Vec<char>>)) -> (r: bool)
    ensures
        r == key_lt(key_view(*a), key_view(*b)),
{
    a.0 < b.0 || (a.0 == b.0 && strings_lt(&a.1, &b.1))
}

/// The indices of `keys`, stably sorted by key (see `sorted_order`).
pub fn stable_order(keys: &Vec<(u32, Vec<Vec<char>>)>) -> (r: Vec<usize>)
    ensures
        r@.len() == sorted_order(keys_view(keys@)).len(),
        forall|i: int| 0 <= i < r@.len() ==> #[trigger] r@[i] as int == sorted_order(keys_view(keys@))[i],
        forall|i: int| 0 <= i < r@.len() ==> #[trigger] r@[i] < keys@.len(),
{
    let ghost kv = keys_view(keys@);
    let mut order: Vec<usize> = Vec::new();
    let mut n: usize = 0;
    while n < keys.len()
        invariant
            0 <= n <= keys@.len(),
            kv == keys_view(keys@),
            order@.len() == sorted_prefix(kv, n as int).len(),
            forall|i: int| 0 <= i < order@.len() ==> #[trigger] order@[i] as int == sorted_prefix(kv, n as int)[i],
            forall|i: int| 0 <= i < order@.len() ==> #[trigger] order@[i] < n,
        decreases keys@.len() - n,
    {
        let ghost o = sorted_prefix(kv, n as int);
        let mut k: usize = 0;
        while k < order.len() && !keys_lt(&keys[n], &keys[order[k]])
            invariant
                0 <= k <= order@.len(),
                n < keys@.len(),
                kv == keys_view(keys@),
                order@.len() == o.len(),
                forall|i: int| 0 <= i < order@.len() ==> #[trigger] order@[i] as int == o[i],
                forall|i: int| 0 <= i < order@.len() ==> #[trigger] order@[i] < n,
                insert_pos(kv, o, n as int, 0) == insert_pos(kv, o, n as int, k as int),
            decreases order@.len() - k,
        {
            assert(kv[n as int] == key_view(keys@[n as int]));
            assert(kv[order@[k as int] as int] == key_view(keys@[order@[k as int] as int]));
            k += 1;
        }
        proof {
            if k < order@.len() {
                assert(kv[n as int] == key_view(keys@[n as int]));
                assert(kv[order@[k as int] as int] == key_view(keys@[order@[k as int] as int]));
            }
        }
        assert(insert_pos(kv, o, n as int, 0) == k);
        let ghost before = order@;
        order.insert(k, n);
        assert(order@ == before.insert(k as int, n));
        n += 1;
        assert(sorted_prefix(kv, n as int) == o.insert(k as int, (n - 1) as int));
        assert forall|i: int| 0 <= i < order@.len() implies #[trigger] order@[i] as int == sorted_prefix(kv, n as int)[i] by {
            if i < k {
                assert(order@[i] == before[i]);
            } else if i > k {
                assert(order@[i] == before[i - 1]);
            }
        }
        assert forall|i: int| 0 <= i < order@.len() implies #[trigger] order@[i] < n by {
            if i < k {
                assert(order@[i] == before[i]);
            } else if i > k {
                assert(order@[i] == before[i - 1]);
            }
        }
    }
    order
}


// ---------------------------------------------------------------------------
// The order on keys
// ---------------------------------------------------------------------------

proof fn lemma_str_lt_irreflexive(a: Seq<char>)
    ensures
        !str_lt(a, a),
    decreases a.len(),
{
    if a.len() > 0 {
        lemma_str_lt_irreflexive(a.skip(1));
    }
}

proof fn lemma_str_lt_transitive(a: Seq<char>, b: Seq<char>, c: Seq<char>)
    requires
        str_lt(a, b),
        str_lt(b, c),
    ensures
        str_lt(a, c),
    decreases a.len(),
{
    if a.len() > 0 && b.len() > 0 && c.len() > 0 && a[0] == b[0] && b[0] == c[0] {
        lemma_str_lt_transitive(a.skip(1), b.skip(1), c.skip(1));
    }
}

proof fn lemma_str_lt_total(a: Seq<char>, b: Seq<char>)
    requires
        a != b,
    ensures
        str_lt(a, b) || str_lt(b, a),
    decreases a.len(),
{
    if a.len() > 0 && b.len() > 0 && a[0] == b[0] {
        if a.skip(1) == b.skip(1) {
            assert(a =~= seq![a[0]] + a.skip(1));
            assert(b =~= seq![b[0]] + b.skip(1));
        }
        lemma_str_lt_total(a.skip(1), b.skip(1));
    } else if a.len() == 0 && b.len() == 0 {
        assert(a =~= b);
    }
}

proof fn lemma_strs_lt_irreflexive(a: Seq<Seq<char>>)
    ensures
        !strs_lt(a, a),
    decreases a.len(),
{
    if a.len() > 0 {
        lemma_strs_lt_irreflexive(a.skip(1));
    }
}

proof fn lemma_strs_lt_transitive(a: Seq<Seq<char>>, b: Seq<Seq<char>>, c: Seq<Seq<char>>)
    requires
        strs_lt(a, b),
        strs_lt(b, c),
    ensures
        strs_lt(a, c),
    decreases a.len(),
{
    if a.len() > 0 && b.len() > 0 && c.len() > 0 {
        if a[0] == b[0] && b[0] == c[0] {
            lemma_strs_lt_transitive(a.skip(1), b.skip(1), c.skip(1));
        } else if a[0] != b[0] && b[0] != c[0] {
            lemma_str_lt_transitive(a[0], b[0], c[0]);
            if a[0] == c[0] {
                lemma_str_lt_irreflexive(a[0]);
            }
        } else if a[0] != b[0] {
            assert(b[0] == c[0]);
        } else {
            assert(a[0] == b[0]);
        }
    }
}

proof fn lemma_strs_lt_total(a: Seq<Seq<char>>, b: Seq<Seq<char>>)
    requires
        a != b,
    ensures
        strs_lt(a, b) || strs_lt(b, a),
    decreases a.len(),
{
    if a.len() > 0 && b.len() > 0 {
        if a[0] == b[0] {
            if a.skip(1) == b.skip(1) {
                assert(a =~= seq![a[0]] + a.skip(1));
                assert(b =~= seq![b[0]] + b.skip(1));
            }
            lemma_strs_lt_total(a.skip(1), b.skip(1));
        } else {
            lemma_str_lt_total(a[0], b[0]);
        }
    } else if a.len() == 0 && b.len() == 0 {
        assert(a =~= b);
    }
}

/// `key_lt` is a strict total order.
pub proof fn lemma_key_order(a: SpecKey, b: SpecKey, c: SpecKey)
    ensures
        !key_lt(a, a),
        key_lt(a, b) && key_lt(b, c) ==> key_lt(a, c),
        a != b ==> key_lt(a, b) || key_lt(b, a),
{
    lemma_strs_lt_irreflexive(a.1);
    if key_lt(a, b) && key_lt(b, c) && a.0 == b.0 && b.0 == c.0 {
        lemma_strs_lt_transitive(a.1, b.1, c.1);
    }
    if a != b && a.0 == b.0 {
        lemma_strs_lt_total(a.1, b.1);
    }
}

/// `str_lt` is a strict total order.
pub proof fn lemma_str_order(a: Seq<char>, b: Seq<char>, c: Seq<char>)
    ensures
        !str_lt(a, a),
        str_lt(a, b) && str_lt(b, c) ==> str_lt(a, c),
        a != b ==> str_lt(a, b) || str_lt(b, a),
{
    lemma_str_lt_irreflexive(a);
    if str_lt(a, b) && str_lt(b, c) {
        lemma_str_lt_transitive(a, b, c);
    }
    if a != b {
        lemma_str_lt_total(a, b);
    }
}

// ---------------------------------------------------------------------------
// The stable sort
// ---------------------------------------------------------------------------

/// `o` lists each of `0..n` once, in non-decreasing key order, equal keys
/// in ascending index order.
pub open spec fn stably_sorted(keys: Seq<SpecKey>, o: Seq<int>, n: int) -> bool {
    &&& o.len() == n
    &&& forall|i: int| 0 <= i < o.len() ==> 0 <= #[trigger] o[i] < n
    &&& forall|i: int, j: int| 0 <= i < j < o.len() ==> o[i] != o[j]
    &&& forall|i: int, j: int| 0 <= i < j < o.len() ==> !key_lt(keys[o[j]], keys[o[i]])
    &&& forall|i: int, j: int| 0 <= i < j < o.len() && keys[o[i]] == keys[o[j]] ==> o[i] < o[j]
}

proof fn lemma_insert_pos(keys: Seq<SpecKey>, o: Seq<int>, x: int, k: int)
    requires
        0 <= k <= o.len(),
    ensures
        k <= insert_pos(keys, o, x, k) <= o.len(),
        forall|q: int| k <= q < insert_pos(keys, o, x, k) ==> !key_lt(keys[x], #[trigger] keys[o[q]]),
        insert_pos(keys, o, x, k) < o.len() ==> key_lt(keys[x], keys[o[insert_pos(keys, o, x, k)]]),
    decreases o.len() - k,
{
    if k < o.len() && !key_lt(keys[x], keys[o[k]]) {
        lemma_insert_pos(keys, o, x, k + 1);
    }
}

proof fn lemma_sorted_prefix(keys: Seq<SpecKey>, n: int)
    requires
        0 <= n <= keys.len(),
    ensures
        stably_sorted(keys, sorted_prefix(keys, n), n),
    decreases n,
{
    if n > 0 {
        lemma_sorted_prefix(keys, n - 1);
        let o = sorted_prefix(keys, n - 1);
        let x = n - 1;
        let p = insert_pos(keys, o, x, 0);
        lemma_insert_pos(keys, o, x, 0);
        let r = o.insert(p, x);
        assert(r == sorted_prefix(keys, n));
        assert forall|i: int| 0 <= i < r.len() implies 0 <= #[trigger] r[i] < n by {
            if i < p {
                assert(r[i] == o[i]);
            } else if i > p {
                assert(r[i] == o[i - 1]);
            }
        }
        assert forall|i: int, j: int| 0 <= i < j < r.len() implies r[i] != r[j] by {
            if i < p && j < p {
                assert(r[i] == o[i] && r[j] == o[j]);
            } else if i < p && j == p {
                assert(r[i] == o[i]);
            } else if i < p && j > p {
                assert(r[i] == o[i] && r[j] == o[j - 1]);
            } else if i == p {
                assert(r[j] == o[j - 1]);
            } else {
                assert(r[i] == o[i - 1] && r[j] == o[j - 1]);
            }
        }
        assert forall|i: int, j: int| 0 <= i < j < r.len() implies !key_lt(keys[r[j]], keys[r[i]]) by {
            if i < p && j < p {
                assert(r[i] == o[i] && r[j] == o[j]);
            } else if i < p && j == p {
                assert(r[i] == o[i]);
                lemma_key_order(keys[x], keys[o[i]], keys[x]);
            } else if i < p && j > p {
                assert(r[i] == o[i] && r[j] == o[j - 1]);
            } else if i == p {
                assert(r[j] == o[j - 1]);
                assert(p < o.len());
                lemma_key_order(keys[x], keys[o[p]], keys[o[j - 1]]);
                if j - 1 > p {
                    assert(!key_lt(keys[o[j - 1]], keys[o[p]]));
                    lemma_key_order(keys[o[j - 1]], keys[x], keys[o[p]]);
                    lemma_key_order(keys[x], keys[o[j - 1]], keys[o[p]]);
                    if keys[o[j - 1]] != keys[o[p]] {
                        lemma_key_order(keys[o[p]], keys[o[j - 1]], keys[o[p]]);
                    }
                }
                lemma_key_order(keys[o[j - 1]], keys[x], keys[o[j - 1]]);
            } else {
                assert(r[i] == o[i - 1] && r[j] == o[j - 1]);
            }
        }
        assert forall|i: int, j: int| 0 <= i < j < r.len() && keys[r[i]] == keys[r[j]] implies r[i] < r[j] by {
            if i < p && j < p {
                assert(r[i] == o[i] && r[j] == o[j]);
            } else if i < p && j == p {
                assert(r[i] == o[i]);
            } else if i < p && j > p {
                assert(r[i] == o[i] && r[j] == o[j - 1]);
            } else if i == p {
                assert(r[j] == o[j - 1]);
                assert(p < o.len());
                lemma_key_order(keys[x], keys[x], keys[x]);
                if j - 1 > p {
                    assert(!key_lt(keys[o[j - 1]], keys[o[p]]));
                    lemma_key_order(keys[x], keys[o[p]], keys[o[j - 1]]);
                    if keys[o[j - 1]] != keys[o[p]] {
                        lemma_key_order(keys[o[p]], keys[o[j - 1]], keys[o[p]]);
                    }
                }
            } else {
                assert(r[i] == o[i - 1] && r[j] == o[j - 1]);
            }
        }
    }
}

/// The stable sort behind canonical order: `sorted_order(keys)` lists each
/// index of `keys` exactly once, in non-decreasing key order, and items
/// with equal keys keep their relative order from the input.
pub proof fn law_sorted_order(keys: Seq<SpecKey>)
    ensures
        stably_sorted(keys, sorted_order(keys), keys.len() as int),
{
    lemma_sorted_prefix(keys, keys.len() as int);
}

/// `m` lists every index below `n` exactly once.
pub open spec fn is_permutation(m: Seq<int>, n: int) -> bool {
    &&& m.len() == n
    &&& forall|i: int| 0 <= i < m.len() ==> 0 <= #[trigger] m[i] < n
    &&& forall|i: int, j: int| 0 <= i < j < m.len() ==> m[i] != m[j]
}

/// A permutation of the indices below `n` lists each of them.
pub proof fn lemma_permutation_covers(m: Seq<int>, n: int, x: int)
    requires
        is_permutation(m, n),
        0 <= x < n,
    ensures
        exists|p: int| 0 <= p < n && m[p] == x,
{
    assert(m.no_duplicates()) by {
        assert forall|i: int, j: int| 0 <= i < m.len() && 0 <= j < m.len() && i != j implies m[i] != m[j] by {
            if i < j {
            } else {
            }
        }
    }
    m.unique_seq_to_set();
    vstd::set_lib::lemma_int_range(0, n);
    let r = vstd::set_lib::set_int_range(0, n);
    assert(m.to_set().subset_of(r)) by {
        assert forall|y: int| m.to_set().contains(y) implies r.contains(y) by {
            let i = choose|i: int| 0 <= i < m.len() && m[i] == y;
        }
    }
    vstd::set_lib::lemma_len_subset(m.to_set(), r);
    vstd::set_lib::lemma_subset_equality(m.to_set(), r);
    assert(r.contains(x));
    assert(m.to_set().contains(x));
}

/// The strict order a stable sort arranges indices in: by key, then by
/// index.
pub open spec fn stable_lt(keys: Seq<SpecKey>, x: int, y: int) -> bool {
    key_lt(keys[x], keys[y]) || (keys[x] == keys[y] && x < y)
}

proof fn lemma_stable_lt(keys: Seq<SpecKey>, x: int, y: int)
    ensures
        !(stable_lt(keys, x, y) && stable_lt(keys, y, x)),
        x != y ==> stable_lt(keys, x, y) || stable_lt(keys, y, x),
{
    lemma_key_order(keys[x], keys[y], keys[x]);
    lemma_key_order(keys[y], keys[x], keys[y]);
}

/// Stable sorting does not depend on the order of its input, as long as
/// items with equal keys keep their relative order: if `keys2` is `keys1`
/// permuted by `m` that way, both stable sorts pick the same items in the
/// same order.
pub proof fn lemma_stable_sort_unique(
    keys1: Seq<SpecKey>,
    keys2: Seq<SpecKey>,
    m: Seq<int>,
    o1: Seq<int>,
    o2: Seq<int>,
)
    requires
        keys1.len() == keys2.len(),
        is_permutation(m, keys1.len() as int),
        forall|i: int| 0 <= i < keys2.len() ==> #[trigger] keys2[i] == keys1[m[i]],
        forall|i: int, j: int| 0 <= i < j < keys2.len() && keys2[i] == keys2[j] ==> m[i] < m[j],
        stably_sorted(keys1, o1, keys1.len() as int),
        stably_sorted(keys2, o2, keys2.len() as int),
    ensures
        forall|p: int| 0 <= p < o1.len() ==> #[trigger] m[o2[p]] == o1[p],
{
    let n = keys1.len() as int;
    let b = Seq::new(n as nat, |p: int| m[o2[p]]);
    assert(is_permutation(b, n)) by {
        assert forall|i: int, j: int| 0 <= i < j < b.len() implies b[i] != b[j] by {
            assert(o2[i] != o2[j]);
        }
    }
    assert(is_permutation(o1, n));
    // Both are strictly increasing in the stable order.
    assert forall|p: int, q: int| 0 <= p < q < n implies #[trigger] stable_lt(keys1, o1[p], o1[q]) by {
        lemma_key_order(keys1[o1[p]], keys1[o1[q]], keys1[o1[p]]);
    }
    assert forall|p: int, q: int| 0 <= p < q < n implies #[trigger] stable_lt(keys1, b[p], b[q]) by {
        assert(keys2[o2[p]] == keys1[b[p]]);
        assert(keys2[o2[q]] == keys1[b[q]]);
        lemma_key_order(keys2[o2[p]], keys2[o2[q]], keys2[o2[p]]);
        if keys2[o2[p]] == keys2[o2[q]] {
            assert(o2[p] < o2[q]);
        }
    }
    lemma_increasing_equal(keys1, o1, b, n, 0);
    assert forall|p: int| 0 <= p < o1.len() implies #[trigger] m[o2[p]] == o1[p] by {
        assert(b[p] == m[o2[p]]);
    }
}

proof fn lemma_increasing_equal(keys: Seq<SpecKey>, a: Seq<int>, b: Seq<int>, n: int, p: int)
    requires
        is_permutation(a, n),
        is_permutation(b, n),
        n <= keys.len(),
        0 <= p <= n,
        forall|i: int, j: int| 0 <= i < j < n ==> #[trigger] stable_lt(keys, a[i], a[j]),
        forall|i: int, j: int| 0 <= i < j < n ==> #[trigger] stable_lt(keys, b[i], b[j]),
        forall|q: int| 0 <= q < p ==> a[q] == b[q],
    ensures
        forall|q: int| 0 <= q < n ==> a[q] == b[q],
    decreases n - p,
{
    if p < n {
        if a[p] != b[p] {
            lemma_stable_lt(keys, a[p], b[p]);
            if stable_lt(keys, a[p], b[p]) {
                lemma_permutation_covers(b, n, a[p]);
                let q = choose|q: int| 0 <= q < n && b[q] == a[p];
                if q < p {
                    assert(a[q] == b[q]);
                } else {
                    assert(stable_lt(keys, b[p], b[q]));
                }
            } else {
                lemma_permutation_covers(a, n, b[p]);
                let q = choose|q: int| 0 <= q < n && a[q] == b[p];
                if q < p {
                    assert(a[q] == b[q]);
                } else {
                    assert(stable_lt(keys, a[p], a[q]));
                }
            }
        }
        lemma_increasing_equal(keys, a, b, n, p + 1);
    }
}

} // verus!
