//! String-keyed collections used by schemas: a set of strings and a map from
//! strings, both kept in insertion order.
use vstd::prelude::*;

use crate::ast::strings_view;
use crate::text::{chars_eq, chars_of};

verus! {

broadcast use {vstd::string::group_string_axioms, vstd::std_specs::vec::group_vec_axioms};

/// No string occurs twice.
pub open spec fn distinct(s: Seq<Seq<char>>) -> bool {
    forall|i: int, j: int| 0 <= i < j < s.len() ==> s[i] != s[j]
}

/// A set of strings, in the order they were first inserted.
#[derive(Debug, Clone, PartialEq, Eq)]
pub struct StringSet {
    items: Vec<String>,
}

impl View for StringSet {
    type V = Seq<Seq<char>>;

    closed spec fn view(&self) -> Seq<Seq<char>> {
        strings_view(self.items@)
    }
}

/// `s` with `x` added unless it is already a member.
pub open spec fn set_insert(s: Seq<Seq<char>>, x: Seq<char>) -> Seq<Seq<char>> {
    if s.contains(x) {
        s
    } else {
        s.push(x)
    }
}

impl StringSet {
    pub fn new() -> (r: Self)
        ensures
            r@ == Seq::<Seq<char>>::empty(),
    {
        let r = StringSet { items: Vec::new() };
        assert(r@ =~= Seq::<Seq<char>>::empty());
        r
    }

    pub fn len(&self) -> (n: usize)
        ensures
            n == self@.len(),
    {
        self.items.len()
    }

    pub fn is_empty(&self) -> (b: bool)
        ensures
            b == (self@.len() == 0),
    {
        self.items.len() == 0
    }

    /// The member at position `i` (in insertion order).
    pub fn get(&self, i: usize) -> (r: &String)
        requires
            i < self@.len(),
        ensures
            r@ == self@[i as int],
    {
        &self.items[i]
    }

    fn position(&self, x: &[char]) -> (r: Option<usize>)
        ensures
            match r {
                Some(i) => i < self@.len() && self@[i as int] == x@,
                None => !self@.contains(x@),
            },
    {
        let mut i: usize = 0;
        while i < self.items.len()
            invariant
                0 <= i <= self@.len(),
                forall|j: int| 0 <= j < i ==> self@[j] != x@,
            decreases self@.len() - i,
        {
            let c = chars_of(self.items[i].as_str());
            assert(self@[i as int] == self.items@[i as int]@);
            if chars_eq(&c, x) {
                return Some(i);
            }
            i += 1;
        }
        None
    }

    /// A copy of this set.
    pub fn copy(&self) -> (r: StringSet)
        ensures
            r@ == self@,
    {
        let mut items: Vec<String> = Vec::new();
        let mut i: usize = 0;
        while i < self.items.len()
            invariant
                0 <= i <= self.items@.len(),
                strings_view(items@) == self@.take(i as int),
            decreases self.items@.len() - i,
        {
            let s = self.items[i].clone();
            let ghost before = strings_view(items@);
            items.push(s);
            assert(strings_view(items@) == before.push(s@));
            i += 1;
            assert(self@.take(i as int) == self@.take(i - 1 as int).push(self@[i - 1]));
        }
        assert(self@.take(self@.len() as int) == self@);
        StringSet { items }
    }

    /// Whether `x` is a member.
    pub fn contains(&self, x: &str) -> (b: bool)
        ensures
            b == self@.contains(x@),
    {
        let c = chars_of(x);
        self.position(&c).is_some()
    }

    /// Add `x` unless it is a member; returns whether it was added.
    pub fn insert(&mut self, x: String) -> (added: bool)
        ensures
            added == !old(self)@.contains(x@),
            final(self)@ == set_insert(old(self)@, x@),
    {
        let c = chars_of(x.as_str());
        if self.position(&c).is_some() {
            return false;
        }
        let ghost before = self@;
        self.items.push(x);
        assert(self@ == before.push(x@));
        true
    }
}

/// A map from strings, in the order its keys were first inserted.
#[derive(Debug, Clone, PartialEq, Eq)]
pub struct StringMap<V> {
    entries: Vec<(String, V)>,
}

impl<V: View> View for StringMap<V> {
    type V = Seq<(Seq<char>, V::V)>;

    closed spec fn view(&self) -> Seq<(Seq<char>, V::V)> {
        self.entries@.map_values(|e: (String, V)| (e.0@, e.1@))
    }
}

impl StringMap<String> {
    /// A copy of this map.
    pub fn copy(&self) -> (r: StringMap<String>)
        ensures
            r@ == self@,
    {
        let mut entries: Vec<(String, String)> = Vec::new();
        let mut i: usize = 0;
        while i < self.entries.len()
            invariant
                0 <= i <= self.entries@.len(),
                entries@.map_values(|e: (String, String)| (e.0@, e.1@)) == self@.take(i as int),
            decreases self.entries@.len() - i,
        {
            let k = self.entries[i].0.clone();
            let v = self.entries[i].1.clone();
            let ghost before = entries@.map_values(|e: (String, String)| (e.0@, e.1@));
            entries.push((k, v));
            assert(entries@.map_values(|e: (String, String)| (e.0@, e.1@)) == before.push((k@, v@)));
            i += 1;
            assert(self@.take(i as int) == self@.take(i - 1 as int).push(self@[i - 1]));
        }
        assert(self@.take(self@.len() as int) == self@);
        StringMap { entries }
    }
}

/// The first position at or after `j` whose key is `k`.
pub open spec fn key_index<V>(m: Seq<(Seq<char>, V)>, k: Seq<char>, j: int) -> Option<int>
    decreases m.len() - j,
{
    if j < 0 || j >= m.len() {
        None
    } else if m[j].0 == k {
        Some(j)
    } else {
        key_index(m, k, j + 1)
    }
}

/// The value bound to `k`.
pub open spec fn lookup<V>(m: Seq<(Seq<char>, V)>, k: Seq<char>) -> Option<V> {
    match key_index(m, k, 0) {
        Some(i) => Some(m[i].1),
        None => None,
    }
}

/// `m` with `k` bound to `v`: the binding replaced in place, or added last.
pub open spec fn map_insert<V>(m: Seq<(Seq<char>, V)>, k: Seq<char>, v: V) -> Seq<(Seq<char>, V)> {
    match key_index(m, k, 0) {
        Some(i) => m.update(i, (k, v)),
        None => m.push((k, v)),
    }
}

pub proof fn lemma_key_index<V>(m: Seq<(Seq<char>, V)>, k: Seq<char>, j: int)
    requires
        0 <= j <= m.len(),
    ensures
        match key_index(m, k, j) {
            Some(i) => j <= i < m.len() && m[i].0 == k && forall|q: int| j <= q < i ==> m[q].0 != k,
            None => forall|q: int| j <= q < m.len() ==> m[q].0 != k,
        },
    decreases m.len() - j,
{
    if j < m.len() && m[j].0 != k {
        lemma_key_index(m, k, j + 1);
    }
}

impl<V: View> StringMap<V> {
    pub fn new() -> (r: Self)
        ensures
            r@ == Seq::<(Seq<char>, V::V)>::empty(),
    {
        let r = StringMap { entries: Vec::new() };
        assert(r@ =~= Seq::<(Seq<char>, V::V)>::empty());
        r
    }

    pub fn len(&self) -> (n: usize)
        ensures
            n == self@.len(),
    {
        self.entries.len()
    }

    pub fn is_empty(&self) -> (b: bool)
        ensures
            b == (self@.len() == 0),
    {
        self.entries.len() == 0
    }

    /// The key and value at position `i` (in insertion order).
    pub fn entry_at(&self, i: usize) -> (r: (&String, &V))
        requires
            i < self@.len(),
        ensures
            r.0@ == self@[i as int].0,
            r.1@ == self@[i as int].1,
    {
        (&self.entries[i].0, &self.entries[i].1)
    }

    fn index_of(&self, k: &[char]) -> (r: Option<usize>)
        ensures
            match r {
                Some(i) => i < self@.len() && key_index(self@, k@, 0) == Some(i as int),
                None => key_index(self@, k@, 0) is None,
            },
    {
        let mut i: usize = 0;
        while i < self.entries.len()
            invariant
                0 <= i <= self@.len(),
                key_index(self@, k@, 0) == key_index(self@, k@, i as int),
            decreases self@.len() - i,
        {
            let c = chars_of(self.entries[i].0.as_str());
            assert(self@[i as int].0 == self.entries@[i as int].0@);
            if chars_eq(&c, k) {
                return Some(i);
            }
            i += 1;
        }
        None
    }

    /// The value bound to `key`.
    pub fn get(&self, key: &str) -> (r: Option<&V>)
        ensures
            match r {
                Some(v) => lookup(self@, key@) == Some(v@),
                None => lookup(self@, key@) is None,
            },
    {
        let c = chars_of(key);
        match self.index_of(&c) {
            Some(i) => {
                assert(self@[i as int].1 == self.entries@[i as int].1@);
                Some(&self.entries[i].1)
            },
            None => None,
        }
    }

    /// Whether `key` is bound.
    pub fn contains_key(&self, key: &str) -> (b: bool)
        ensures
            b == lookup(self@, key@) is Some,
    {
        let c = chars_of(key);
        self.index_of(&c).is_some()
    }

    /// Bind `key` to `value`, replacing an earlier binding.
    pub fn insert(&mut self, key: String, value: V)
        ensures
            final(self)@ == map_insert(old(self)@, key@, value@),
    {
        let c = chars_of(key.as_str());
        let ghost before = self@;
        let ghost kv = key@;
        let ghost vv = value@;
        match self.index_of(&c) {
            Some(i) => {
                self.entries.set(i, (key, value));
                assert(self@ =~= before.update(i as int, (kv, vv)));
            },
            None => {
                self.entries.push((key, value));
                assert(self@ =~= before.push((kv, vv)));
            },
        }
    }
}


pub proof fn lemma_key_index_same<V, W>(m1: Seq<(Seq<char>, V)>, m2: Seq<(Seq<char>, W)>, k: Seq<char>, j: int)
    requires
        0 <= j,
        m1.len() <= m2.len(),
        forall|q: int| 0 <= q < m1.len() ==> (#[trigger] m1[q].0 == k <==> m2[q].0 == k),
        forall|q: int| m1.len() <= q < m2.len() ==> #[trigger] m2[q].0 != k,
    ensures
        key_index(m1, k, j) == key_index(m2, k, j),
    decreases m2.len() - j,
{
    if j < m2.len() {
        lemma_key_index_same(m1, m2, k, j + 1);
    }
}

/// After binding `k` to `v`, looking up `k` gives `v`, and every other key
/// keeps its value.
pub proof fn law_map_insert_lookup<V>(m: Seq<(Seq<char>, V)>, k: Seq<char>, v: V, other: Seq<char>)
    ensures
        lookup(map_insert(m, k, v), k) == Some(v),
        other != k ==> lookup(map_insert(m, k, v), other) == lookup(m, other),
{
    let r = map_insert(m, k, v);
    lemma_key_index(m, k, 0);
    lemma_key_index(r, k, 0);
    match key_index(m, k, 0) {
        Some(i) => {
            assert(r[i].0 == k);
            if other != k {
                assert forall|q: int| 0 <= q < m.len() implies (#[trigger] m[q].0 == other <==> r[q].0 == other) by {
                    if q != i {
                        assert(r[q] == m[q]);
                    }
                }
                lemma_key_index_same(m, r, other, 0);
                match key_index(m, other, 0) {
                    Some(j) => {
                        lemma_key_index(m, other, 0);
                        assert(j != i);
                        assert(r[j] == m[j]);
                    },
                    None => {},
                }
            }
        },
        None => {
            assert(r[m.len() as int].0 == k);
            if other != k {
                assert forall|q: int| 0 <= q < m.len() implies (#[trigger] m[q].0 == other <==> r[q].0 == other) by {
                    assert(r[q] == m[q]);
                }
                lemma_key_index_same(m, r, other, 0);
                match key_index(m, other, 0) {
                    Some(j) => {
                        lemma_key_index(m, other, 0);
                        assert(r[j] == m[j]);
                    },
                    None => {},
                }
            }
        },
    }
}

/// Inserting into a set makes `x` a member, keeps every member, and never
/// duplicates one.
pub proof fn law_set_insert(s: Seq<Seq<char>>, x: Seq<char>, y: Seq<char>)
    ensures
        set_insert(s, x).contains(x),
        s.contains(y) ==> set_insert(s, x).contains(y),
        distinct(s) ==> distinct(set_insert(s, x)),
{
    if !s.contains(x) {
        let r = s.push(x);
        assert(r[s.len() as int] == x);
        if s.contains(y) {
            let i = choose|i: int| 0 <= i < s.len() && s[i] == y;
            assert(r[i] == y);
        }
    }
}

} // verus!
