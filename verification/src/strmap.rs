//! A map from strings to values that keeps its keys in ascending order,
//! the order in which a `BTreeMap<String, _>` holds and walks them.
use vstd::prelude::*;

use crate::text::{chars_of, str_eq};

verus! {

/// Strict lexicographic order on character sequences, by code point.
/// On UTF-8 strings it agrees with the byte order that `String`'s `Ord` uses.
pub open spec fn key_lt(a: Seq<char>, b: Seq<char>) -> bool
    decreases a.len(),
{
    if a.len() == 0 {
        b.len() > 0
    } else if b.len() == 0 {
        false
    } else if a[0] != b[0] {
        a[0] < b[0]
    } else {
        key_lt(a.drop_first(), b.drop_first())
    }
}

pub proof fn lemma_key_lt_irreflexive(a: Seq<char>)
    ensures
        !key_lt(a, a),
    decreases a.len(),
{
    if a.len() > 0 {
        lemma_key_lt_irreflexive(a.drop_first());
    }
}

pub proof fn lemma_key_lt_transitive(a: Seq<char>, b: Seq<char>, c: Seq<char>)
    requires
        key_lt(a, b),
        key_lt(b, c),
    ensures
        key_lt(a, c),
    decreases a.len(),
{
    if a.len() > 0 && b.len() > 0 && c.len() > 0 {
        if a[0] == b[0] && b[0] == c[0] {
            lemma_key_lt_transitive(a.drop_first(), b.drop_first(), c.drop_first());
        }
    }
}

pub proof fn lemma_key_lt_total(a: Seq<char>, b: Seq<char>)
    ensures
        a == b || key_lt(a, b) || key_lt(b, a),
    decreases a.len(),
{
    if a.len() > 0 && b.len() > 0 {
        if a[0] == b[0] {
            lemma_key_lt_total(a.drop_first(), b.drop_first());
            if a.drop_first() == b.drop_first() {
                assert(a.drop_first().len() == b.drop_first().len());
                assert(a.len() == b.len());
                assert forall|i: int| 0 <= i < a.len() implies a[i] == b[i] by {
                    if i > 0 {
                        assert(a[i] == a.drop_first()[i - 1]);
                        assert(b[i] == b.drop_first()[i - 1]);
                    }
                }
                assert(a =~= b);
            }
        }
    } else if a.len() == 0 && b.len() == 0 {
        assert(a =~= b);
    }
}

pub proof fn lemma_key_lt_asymmetric(a: Seq<char>, b: Seq<char>)
    requires
        key_lt(a, b),
    ensures
        !key_lt(b, a),
        a != b,
{
    if key_lt(b, a) {
        lemma_key_lt_transitive(a, b, a);
        lemma_key_lt_irreflexive(a);
    }
    lemma_key_lt_irreflexive(a);
}

/// `a < b` in the order of `key_lt`.
pub fn str_less(a: &str, b: &str) -> (res: bool)
    ensures
        res == key_lt(a@, b@),
{
    let av = chars_of(a);
    let bv = chars_of(b);
    let mut i: usize = 0;
    proof {
        assert(a@.skip(0) =~= a@);
        assert(b@.skip(0) =~= b@);
    }
    while i < av.len() && i < bv.len()
        invariant
            av@ == a@,
            bv@ == b@,
            i <= av@.len(),
            i <= bv@.len(),
            key_lt(a@, b@) == key_lt(a@.skip(i as int), b@.skip(i as int)),
        decreases av@.len() - i,
    {
        if av[i] != bv[i] {
            proof {
                assert(a@.skip(i as int)[0] == av@[i as int]);
                assert(b@.skip(i as int)[0] == bv@[i as int]);
            }
            return av[i] < bv[i];
        }
        proof {
            assert(a@.skip(i as int).drop_first() =~= a@.skip(i + 1));
            assert(b@.skip(i as int).drop_first() =~= b@.skip(i + 1));
        }
        i = i + 1;
    }
    proof {
        if i == av@.len() {
            assert(a@.skip(i as int).len() == 0);
        } else {
            assert(b@.skip(i as int).len() == 0);
        }
    }
    i < bv.len()
}

/// Keys of `s` in strictly ascending order (so each key occurs once).
pub open spec fn keys_ascending<V>(s: Seq<(Seq<char>, V)>) -> bool {
    forall|i: int, j: int| 0 <= i < j < s.len() ==> key_lt(#[trigger] s[i].0, #[trigger] s[j].0)
}

/// Some entry of `s` has key `k`.
pub open spec fn has_key<V>(s: Seq<(Seq<char>, V)>, k: Seq<char>) -> bool {
    exists|i: int| 0 <= i < s.len() && #[trigger] s[i].0 == k
}

/// The position of the entry with key `k`, where there is one.
pub open spec fn key_index<V>(s: Seq<(Seq<char>, V)>, k: Seq<char>) -> int {
    choose|i: int| 0 <= i < s.len() && #[trigger] s[i].0 == k
}

/// The value that `s` holds under key `k`, where it holds one.
pub open spec fn lookup<V>(s: Seq<(Seq<char>, V)>, k: Seq<char>) -> Option<V> {
    if has_key(s, k) {
        Some(s[key_index(s, k)].1)
    } else {
        None
    }
}

/// Number of entries of `s` whose key precedes `k`: where `k` goes in `s`.
pub open spec fn insert_pos<V>(s: Seq<(Seq<char>, V)>, k: Seq<char>) -> int
    decreases s.len(),
{
    if s.len() == 0 {
        0
    } else if key_lt(s.last().0, k) {
        insert_pos(s.drop_last(), k) + 1
    } else {
        insert_pos(s.drop_last(), k)
    }
}

/// `s` with `v` stored under `k`: the entry of `k` replaced, or a new entry at its place in order.
pub open spec fn upsert<V>(s: Seq<(Seq<char>, V)>, k: Seq<char>, v: V) -> Seq<(Seq<char>, V)> {
    if has_key(s, k) {
        s.update(key_index(s, k), (k, v))
    } else {
        s.insert(insert_pos(s, k), (k, v))
    }
}

/// `s` without the entry of key `k`.
pub open spec fn without<V>(s: Seq<(Seq<char>, V)>, k: Seq<char>) -> Seq<(Seq<char>, V)> {
    if has_key(s, k) {
        s.remove(key_index(s, k))
    } else {
        s
    }
}

pub proof fn lemma_key_index_unique<V>(s: Seq<(Seq<char>, V)>, i: int)
    requires
        keys_ascending(s),
        0 <= i < s.len(),
    ensures
        has_key(s, s[i].0),
        key_index(s, s[i].0) == i,
        lookup(s, s[i].0) == Some(s[i].1),
{
    let k = key_index(s, s[i].0);
    if k < i {
        assert(key_lt(s[k].0, s[i].0));
        lemma_key_lt_irreflexive(s[i].0);
    } else if k > i {
        assert(key_lt(s[i].0, s[k].0));
        lemma_key_lt_irreflexive(s[i].0);
    }
}

proof fn lemma_insert_pos<V>(s: Seq<(Seq<char>, V)>, k: Seq<char>)
    requires
        keys_ascending(s),
        !has_key(s, k),
    ensures
        0 <= insert_pos(s, k) <= s.len(),
        forall|i: int| 0 <= i < insert_pos(s, k) ==> key_lt(#[trigger] s[i].0, k),
        forall|i: int| insert_pos(s, k) <= i < s.len() ==> key_lt(k, #[trigger] s[i].0),
    decreases s.len(),
{
    if s.len() > 0 {
        let t = s.drop_last();
        let n: int = t.len() as int;
        assert(forall|i: int| 0 <= i < n ==> #[trigger] t[i] == s[i]);
        assert(!has_key(t, k)) by {
            if has_key(t, k) {
                let j = key_index(t, k);
                assert(s[j].0 == k);
            }
        }
        lemma_insert_pos(t, k);
        let p = insert_pos(t, k);
        assert(s.last() == s[n]);
        if key_lt(s[n].0, k) {
            if p < n {
                assert(key_lt(k, t[p].0));
                assert(key_lt(s[p].0, s[n].0));
                lemma_key_lt_transitive(k, s[p].0, s[n].0);
                lemma_key_lt_transitive(k, s[n].0, k);
                lemma_key_lt_irreflexive(k);
            }
            assert(p == n);
            assert(insert_pos(s, k) == n + 1);
            assert forall|i: int| 0 <= i < insert_pos(s, k) implies key_lt(#[trigger] s[i].0, k) by {
                if i < n {
                    assert(key_lt(t[i].0, k));
                }
            }
        } else {
            lemma_key_lt_total(s[n].0, k);
            assert(s[n].0 != k);
            assert(key_lt(k, s[n].0));
            assert(insert_pos(s, k) == p);
            assert forall|i: int| 0 <= i < insert_pos(s, k) implies key_lt(#[trigger] s[i].0, k) by {
                assert(key_lt(t[i].0, k));
            }
            assert forall|i: int| insert_pos(s, k) <= i < s.len() implies key_lt(k, #[trigger] s[i].0) by {
                if i < n {
                    assert(key_lt(k, t[i].0));
                }
            }
        }
    }
}

/// Storing `v` under `k` keeps the keys in order, and afterwards `k` gives `v`
/// while every other key gives what it gave before.
pub proof fn lemma_upsert<V>(s: Seq<(Seq<char>, V)>, k: Seq<char>, v: V)
    requires
        keys_ascending(s),
    ensures
        keys_ascending(upsert(s, k, v)),
        lookup(upsert(s, k, v), k) == Some(v),
        forall|k2: Seq<char>| k2 != k ==> lookup(upsert(s, k, v), k2) == lookup(s, k2),
        has_key(s, k) ==> upsert(s, k, v).len() == s.len(),
        !has_key(s, k) ==> upsert(s, k, v).len() == s.len() + 1,
{
    let r = upsert(s, k, v);
    if has_key(s, k) {
        let i = key_index(s, k);
        assert forall|a: int, b: int| 0 <= a < b < r.len() implies key_lt(
            #[trigger] r[a].0,
            #[trigger] r[b].0,
        ) by {
            assert(r[a].0 == s[a].0);
            assert(r[b].0 == s[b].0);
        }
        lemma_key_index_unique(r, i);
        assert forall|k2: Seq<char>| k2 != k implies lookup(r, k2) == lookup(s, k2) by {
            if has_key(s, k2) {
                let j = key_index(s, k2);
                lemma_key_index_unique(s, j);
                lemma_key_index_unique(r, j);
            }
            if has_key(r, k2) {
                let j = key_index(r, k2);
                lemma_key_index_unique(r, j);
                assert(s[j].0 == k2);
            }
        }
    } else {
        let p = insert_pos(s, k);
        lemma_insert_pos(s, k);
        assert forall|a: int, b: int| 0 <= a < b < r.len() implies key_lt(
            #[trigger] r[a].0,
            #[trigger] r[b].0,
        ) by {
            if b < p {
                assert(r[a] == s[a] && r[b] == s[b]);
            } else if b == p {
                assert(r[a] == s[a]);
            } else if a < p {
                assert(r[a] == s[a] && r[b] == s[b - 1]);
                lemma_key_lt_transitive(s[a].0, k, s[b - 1].0);
            } else if a == p {
                assert(r[b] == s[b - 1]);
            } else {
                assert(r[a] == s[a - 1] && r[b] == s[b - 1]);
            }
        }
        lemma_key_index_unique(r, p);
        assert forall|k2: Seq<char>| k2 != k implies lookup(r, k2) == lookup(s, k2) by {
            if has_key(s, k2) {
                let j = key_index(s, k2);
                lemma_key_index_unique(s, j);
                let jr = if j < p { j } else { j + 1 };
                assert(r[jr] == s[j]);
                lemma_key_index_unique(r, jr);
            }
            if has_key(r, k2) {
                let j = key_index(r, k2);
                lemma_key_index_unique(r, j);
                if j < p {
                    assert(s[j] == r[j]);
                } else {
                    assert(j != p);
                    assert(s[j - 1] == r[j]);
                }
            }
        }
    }
}

/// Removing `k` keeps the keys in order, and afterwards `k` gives nothing
/// while every other key gives what it gave before.
pub proof fn lemma_without<V>(s: Seq<(Seq<char>, V)>, k: Seq<char>)
    requires
        keys_ascending(s),
    ensures
        keys_ascending(without(s, k)),
        lookup(without(s, k), k) is None,
        forall|k2: Seq<char>| k2 != k ==> lookup(without(s, k), k2) == lookup(s, k2),
        has_key(s, k) ==> without(s, k).len() == s.len() - 1,
{
    let r = without(s, k);
    if has_key(s, k) {
        let p = key_index(s, k);
        assert forall|a: int, b: int| 0 <= a < b < r.len() implies key_lt(
            #[trigger] r[a].0,
            #[trigger] r[b].0,
        ) by {
            let sa = if a < p { a } else { a + 1 };
            let sb = if b < p { b } else { b + 1 };
            assert(r[a] == s[sa] && r[b] == s[sb]);
        }
        assert(!has_key(r, k)) by {
            if has_key(r, k) {
                let j = key_index(r, k);
                let sj = if j < p { j } else { j + 1 };
                assert(r[j] == s[sj]);
                lemma_key_index_unique(s, sj);
            }
        }
        assert forall|k2: Seq<char>| k2 != k implies lookup(r, k2) == lookup(s, k2) by {
            if has_key(s, k2) {
                let j = key_index(s, k2);
                lemma_key_index_unique(s, j);
                assert(j != p);
                let jr = if j < p { j } else { j - 1 };
                assert(r[jr] == s[j]);
                lemma_key_index_unique(r, jr);
            }
            if has_key(r, k2) {
                let j = key_index(r, k2);
                lemma_key_index_unique(r, j);
                let sj = if j < p { j } else { j + 1 };
                assert(r[j] == s[sj]);
            }
        }
    }
}

/// A map from `String` keys to values, keys in ascending order.
pub struct StrMap<V> {
    entries: Vec<(String, V)>,
}

impl<V> View for StrMap<V> {
    type V = Seq<(Seq<char>, V)>;

    closed spec fn view(&self) -> Seq<(Seq<char>, V)> {
        self.entries@.map_values(|e: (String, V)| (e.0@, e.1))
    }
}

impl<V> StrMap<V> {
    #[verifier::type_invariant]
    closed spec fn ascending(&self) -> bool {
        keys_ascending(self@)
    }

    /// Keys ascend; a caller learns it from here.
    pub fn assert_ascending(&self)
        ensures
            keys_ascending(self@),
    {
        proof {
            use_type_invariant(self);
        }
    }

    pub fn new() -> (res: Self)
        ensures
            res@ == Seq::<(Seq<char>, V)>::empty(),
    {
        let res = StrMap { entries: Vec::new() };
        assert(res@ =~= Seq::<(Seq<char>, V)>::empty());
        res
    }

    pub fn len(&self) -> (res: usize)
        ensures
            res == self@.len(),
    {
        self.entries.len()
    }

    pub fn is_empty(&self) -> (res: bool)
        ensures
            res == (self@.len() == 0),
    {
        self.entries.len() == 0
    }

    /// The key and value of entry `i`.
    pub fn entry(&self, i: usize) -> (res: (&String, &V))
        requires
            i < self@.len(),
        ensures
            res.0@ == self@[i as int].0,
            *res.1 == self@[i as int].1,
    {
        let e = &self.entries[i];
        (&e.0, &e.1)
    }

    /// Position of the entry with key `key`.
    pub fn find(&self, key: &str) -> (res: Option<usize>)
        ensures
            match res {
                Some(i) => i < self@.len() && self@[i as int].0 == key@ && key_index(self@, key@)
                    == i,
                None => !has_key(self@, key@),
            },
    {
        proof {
            use_type_invariant(self);
        }
        let mut i: usize = 0;
        while i < self.entries.len()
            invariant
                i <= self@.len(),
                self@.len() == self.entries@.len(),
                keys_ascending(self@),
                forall|j: int| 0 <= j < i ==> #[trigger] self@[j].0 != key@,
            decreases self@.len() - i,
        {
            if str_eq(self.entries[i].0.as_str(), key) {
                proof {
                    lemma_key_index_unique(self@, i as int);
                }
                return Some(i);
            }
            i = i + 1;
        }
        None
    }

    pub fn contains_key(&self, key: &str) -> (res: bool)
        ensures
            res == has_key(self@, key@),
    {
        self.find(key).is_some()
    }

    /// The value under `key`.
    pub fn get(&self, key: &str) -> (res: Option<&V>)
        ensures
            match res {
                Some(v) => lookup(self@, key@) == Some(*v),
                None => lookup(self@, key@) is None,
            },
    {
        match self.find(key) {
            Some(i) => Some(&self.entries[i].1),
            None => None,
        }
    }

    /// Stores `value` under `key`; hands back the value it replaces.
    pub fn insert(&mut self, key: String, value: V) -> (res: Option<V>)
        ensures
            final(self)@ == upsert(old(self)@, key@, value),
            res == lookup(old(self)@, key@),
    {
        proof {
            use_type_invariant(&*self);
            lemma_upsert(self@, key@, value);
        }
        let ghost s = self@;
        let ghost k = key@;
        let found = self.find(key.as_str());
        let mut entries: Vec<(String, V)> = Vec::new();
        std::mem::swap(&mut entries, &mut self.entries);
        assert(entries@.map_values(|e: (String, V)| (e.0@, e.1)) == s);
        match found {
            Some(i) => {
                let old_entry = entries.remove(i);
                entries.insert(i, (key, value));
                assert(entries@.map_values(|e: (String, V)| (e.0@, e.1)) =~= upsert(s, k, value));
                self.entries = entries;
                Some(old_entry.1)
            },
            None => {
                let mut p: usize = 0;
                proof {
                    lemma_insert_pos(s, k);
                }
                while p < entries.len() && str_less(entries[p].0.as_str(), key.as_str())
                    invariant
                        s == entries@.map_values(|e: (String, V)| (e.0@, e.1)),
                        k == key@,
                        keys_ascending(s),
                        !has_key(s, k),
                        p <= insert_pos(s, k),
                        0 <= insert_pos(s, k) <= s.len(),
                        forall|i: int| 0 <= i < insert_pos(s, k) ==> key_lt(#[trigger] s[i].0, k),
                        forall|i: int| insert_pos(s, k) <= i < s.len() ==> key_lt(k, #[trigger] s[i].0),
                    decreases s.len() - p,
                {
                    proof {
                        if p == insert_pos(s, k) {
                            assert(s[p as int].0 == entries@[p as int].0@);
                            lemma_key_lt_asymmetric(k, s[p as int].0);
                        }
                    }
                    p = p + 1;
                }
                proof {
                    if p < insert_pos(s, k) {
                        assert(key_lt(s[p as int].0, k));
                    }
                }
                entries.insert(p, (key, value));
                assert(entries@.map_values(|e: (String, V)| (e.0@, e.1)) =~= upsert(s, k, value));
                self.entries = entries;
                None
            },
        }
    }

    /// Removes the entry of `key`; hands back its value.
    pub fn remove(&mut self, key: &str) -> (res: Option<V>)
        ensures
            final(self)@ == without(old(self)@, key@),
            res == lookup(old(self)@, key@),
    {
        proof {
            use_type_invariant(&*self);
            lemma_without(self@, key@);
        }
        let ghost s = self@;
        match self.find(key) {
            Some(i) => {
                let mut entries: Vec<(String, V)> = Vec::new();
                std::mem::swap(&mut entries, &mut self.entries);
                assert(entries@.map_values(|e: (String, V)| (e.0@, e.1)) == s);
                let e = entries.remove(i);
                assert(entries@.map_values(|e: (String, V)| (e.0@, e.1)) =~= without(s, key@));
                self.entries = entries;
                Some(e.1)
            },
            None => None,
        }
    }
}

impl<V: Clone> Clone for StrMap<V> {
    fn clone(&self) -> (res: Self)
        ensures
            res@.len() == self@.len(),
            forall|i: int|
                0 <= i < self@.len() ==> (#[trigger] res@[i]).0 == self@[i].0 && cloned::<V>(
                    self@[i].1,
                    res@[i].1,
                ),
    {
        proof {
            use_type_invariant(self);
        }
        let mut entries: Vec<(String, V)> = Vec::new();
        let mut i: usize = 0;
        while i < self.entries.len()
            invariant
                i <= self@.len(),
                self@.len() == self.entries@.len(),
                entries@.len() == i,
                forall|j: int|
                    0 <= j < i ==> (#[trigger] entries@[j]).0@ == self@[j].0 && cloned::<V>(
                        self@[j].1,
                        entries@[j].1,
                    ),
            decreases self@.len() - i,
        {
            let e = &self.entries[i];
            entries.push((e.0.clone(), e.1.clone()));
            i = i + 1;
        }
        let res = StrMap { entries };
        assert forall|a: int, b: int| 0 <= a < b < res@.len() implies key_lt(
            #[trigger] res@[a].0,
            #[trigger] res@[b].0,
        ) by {
            assert(res@[a].0 == self@[a].0);
            assert(res@[b].0 == self@[b].0);
        }
        res
    }
}

} // verus!
