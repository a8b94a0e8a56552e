//! Keyed containers: string-keyed and identifier-keyed maps, and identifier lists.
//!
//! Each map keeps its pairs in a vector and reads them with first-match
//! semantics; every update keeps at most one pair per key.

use vstd::prelude::*;

use crate::assoc::{
    as_map, assoc_drop, assoc_put, first_index, has_key, key_absent, key_differs, lemma_as_map_drop,
    lemma_as_map_put, lemma_filter_member, lemma_first_index, lemma_first_index_at,
    lemma_first_index_none, lemma_map_push,
};
use crate::delta::keys_distinct;
use crate::text::{str_eq, DeepCopy};

verus! {

pub open spec fn text_pair_view<V: View>(p: (String, V)) -> (Seq<char>, V::V) {
    (p.0@, p.1@)
}

pub open spec fn id_pair_view<V: View>(p: (u128, V)) -> (u128, V::V) {
    (p.0, p.1@)
}

/// Replacing the value at one position keeps the keys, so keeps them distinct.
pub proof fn lemma_update_value_distinct<K, V>(s: Seq<(K, V)>, i: int)
    requires
        0 <= i < s.len(),
    ensures
        forall|v: V| keys_distinct(s) ==> #[trigger] keys_distinct(s.update(i, (s[i].0, v))),
{
    assert forall|v: V| keys_distinct(s) implies #[trigger] keys_distinct(s.update(i, (s[i].0, v))) by {
        let t = s.update(i, (s[i].0, v));
        assert forall|a: int, b: int| #![trigger t[a], t[b]] 0 <= a < b < t.len() implies t[a].0 != t[b].0 by {
            assert(t[a].0 == s[a].0 && t[b].0 == s[b].0);
        }
    }
}

/// A map from strings to values.
#[derive(Debug, Clone)]
pub struct TextMap<V> {
    entries: Vec<(String, V)>,
}

impl<V: View> View for TextMap<V> {
    type V = Map<Seq<char>, V::V>;

    open spec fn view(&self) -> Map<Seq<char>, V::V> {
        as_map(self.pairs())
    }
}

impl<V: View> TextMap<V> {
    /// The stored pairs, in storage order.
    pub closed spec fn pairs(&self) -> Seq<(Seq<char>, V::V)> {
        self.entries@.map_values(|p: (String, V)| text_pair_view(p))
    }

    pub fn new() -> (r: Self)
        ensures
            r.pairs() == Seq::<(Seq<char>, V::V)>::empty(),
            r@ == Map::<Seq<char>, V::V>::empty(),
            keys_distinct(r.pairs()),
    {
        let r = TextMap { entries: Vec::new() };
        assert(r.pairs() =~= Seq::<(Seq<char>, V::V)>::empty());
        assert(r@ =~= Map::<Seq<char>, V::V>::empty());
        r
    }

    /// Number of stored pairs.
    pub fn len(&self) -> (r: usize)
        ensures
            r == self.pairs().len(),
    {
        self.entries.len()
    }

    pub fn is_empty(&self) -> (r: bool)
        ensures
            r == (self.pairs().len() == 0),
            r ==> self@ == Map::<Seq<char>, V::V>::empty(),
    {
        if self.entries.len() == 0 {
            assert(self@ =~= Map::<Seq<char>, V::V>::empty());
            true
        } else {
            false
        }
    }

    pub fn key_at(&self, i: usize) -> (r: &String)
        requires
            i < self.pairs().len(),
        ensures
            r@ == self.pairs()[i as int].0,
    {
        &self.entries[i].0
    }

    pub fn value_at(&self, i: usize) -> (r: &V)
        requires
            i < self.pairs().len(),
        ensures
            r@ == self.pairs()[i as int].1,
    {
        &self.entries[i].1
    }

    /// Mutable access to the value stored at position `i`.
    pub fn value_mut(&mut self, i: usize) -> (r: &mut V)
        requires
            i < old(self).pairs().len(),
        ensures
            r@ == old(self).pairs()[i as int].1,
            final(self).pairs() == old(self).pairs().update(
                i as int,
                (old(self).pairs()[i as int].0, final(r)@),
            ),
            keys_distinct(old(self).pairs()) ==> keys_distinct(final(self).pairs()),
    {
        proof { lemma_update_value_distinct(old(self).pairs(), i as int); }
        assert(self.pairs()[i as int] == text_pair_view(self.entries@[i as int]));
        let r = &mut self.entries[i].1;
        r
    }

    /// Position of the pair for `key`, if any.
    pub fn index_of(&self, key: &str) -> (r: Option<usize>)
        ensures
            r matches Some(i) ==> i == first_index(self.pairs(), key@) && i < self.pairs().len()
                && self.pairs()[i as int].0 == key@,
            r is None ==> first_index(self.pairs(), key@) == -1,
            r is Some <==> self@.contains_key(key@),
    {
        proof { lemma_first_index(self.pairs(), key@); }
        let mut i: usize = 0;
        while i < self.entries.len()
            invariant
                i <= self.entries@.len(),
                forall|j: int| 0 <= j < i ==> #[trigger] self.pairs()[j].0 != key@,
            decreases self.entries@.len() - i,
        {
            assert(self.pairs()[i as int].0 == self.entries@[i as int].0@);
            if str_eq(self.entries[i].0.as_str(), key) {
                proof { lemma_first_index_at(self.pairs(), key@, i as int); }
                return Some(i);
            }
            i = i + 1;
        }
        proof { lemma_first_index_none(self.pairs(), key@); }
        None
    }

    pub fn get(&self, key: &str) -> (r: Option<&V>)
        ensures
            r is Some <==> self@.contains_key(key@),
            r matches Some(v) ==> v@ == self@[key@],
    {
        match self.index_of(key) {
            Some(i) => {
                assert(self.pairs()[i as int] == text_pair_view(self.entries@[i as int]));
                Some(&self.entries[i].1)
            },
            None => None,
        }
    }

    pub fn contains_key(&self, key: &str) -> (r: bool)
        ensures
            r == self@.contains_key(key@),
    {
        self.index_of(key).is_some()
    }

    /// Set `key` to `value`, replacing any earlier value.
    pub fn insert(&mut self, key: String, value: V)
        ensures
            final(self).pairs() == assoc_put(old(self).pairs(), key@, value@),
            final(self)@ == old(self)@.insert(key@, value@),
            keys_distinct(old(self).pairs()) ==> keys_distinct(final(self).pairs()),
    {
        proof {
            if keys_distinct(old(self).pairs()) {
                crate::index::lemma_put_distinct(old(self).pairs(), key@, value@);
            }
        }
        let ghost kv = key@;
        let ghost vv = value@;
        match self.index_of(key.as_str()) {
            Some(i) => {
                self.entries.set(i, (key, value));
                assert(self.pairs() =~= old(self).pairs().update(i as int, (kv, vv)));
            },
            None => {
                let ghost prev = self.entries@;
                self.entries.push((key, value));
                proof { lemma_map_push(prev, (key, value), |p: (String, V)| text_pair_view(p)); }
            },
        }
        proof { lemma_as_map_put(old(self).pairs(), kv, vv); }
    }

    /// Remove `key` and its value.
    pub fn remove(&mut self, key: &str)
        ensures
            final(self).pairs() == assoc_drop(old(self).pairs(), key@),
            final(self)@ == old(self)@.remove(key@),
            keys_distinct(old(self).pairs()) ==> keys_distinct(final(self).pairs()),
    {
        proof {
            if keys_distinct(old(self).pairs()) {
                crate::index::lemma_filter_distinct(old(self).pairs(), key_differs::<Seq<char>, V::V>(key@));
            }
        }
        let ghost orig = self.pairs();
        let ghost f = key_differs::<Seq<char>, V::V>(key@);
        let mut rest: Vec<(String, V)> = Vec::new();
        std::mem::swap(&mut rest, &mut self.entries);
        assert(self.pairs() =~= Seq::<(Seq<char>, V::V)>::empty().filter(f)) by {
            reveal_with_fuel(Seq::filter, 1);
        }
        let ghost mut k: int = 0;
        while rest.len() > 0
            invariant
                0 <= k <= orig.len(),
                f == key_differs::<Seq<char>, V::V>(key@),
                rest@.map_values(|p: (String, V)| text_pair_view(p)) == orig.skip(k),
                self.pairs() == orig.take(k).filter(f),
            decreases rest@.len(),
        {
            let ghost rest_before = rest@;
            assert(rest_before.map_values(|p: (String, V)| text_pair_view(p)).len() == rest_before.len());
            assert(k < orig.len());
            let p = rest.remove(0);
            proof {
                assert(rest@ =~= rest_before.drop_first());
                assert(orig.skip(k)[0] == text_pair_view(rest_before[0]));
                assert(orig.skip(k)[0] == text_pair_view(p));
                assert forall|j: int| 0 <= j < rest@.len() implies #[trigger] text_pair_view(rest@[j]) == orig.skip(k + 1)[j] by {
                    assert(rest@[j] == rest_before[j + 1]);
                    assert(rest_before.map_values(|p: (String, V)| text_pair_view(p))[j + 1] == orig.skip(k)[j + 1]);
                }
                assert(rest@.map_values(|p: (String, V)| text_pair_view(p)) =~= orig.skip(k + 1));
                assert(orig.take(k + 1).drop_last() =~= orig.take(k));
                assert(orig.take(k + 1).last() == text_pair_view(p));
                let t1 = orig.take(k + 1);
                assert(t1.filter(f) == (if f(t1.last()) {
                    t1.drop_last().filter(f).push(t1.last())
                } else {
                    t1.drop_last().filter(f)
                })) by {
                    reveal_with_fuel(Seq::filter, 1);
                }
            }
            if !str_eq(p.0.as_str(), key) {
                let ghost prev = self.entries@;
                self.entries.push(p);
                proof { lemma_map_push(prev, p, |p: (String, V)| text_pair_view(p)); }
            }
            proof { k = k + 1; }
        }
        assert(orig.take(k) =~= orig);
        proof { lemma_as_map_drop(orig, key@); }
    }
}

impl<V: View> Default for TextMap<V> {
    fn default() -> (r: Self)
        ensures
            r.pairs() == Seq::<(Seq<char>, V::V)>::empty(),
            r@ == Map::<Seq<char>, V::V>::empty(),
    {
        TextMap::new()
    }
}

impl<V: DeepCopy> DeepCopy for TextMap<V> {
    fn deep_copy(&self) -> (r: Self) {
        let mut out: Vec<(String, V)> = Vec::new();
        let mut i: usize = 0;
        while i < self.entries.len()
            invariant
                i <= self.entries@.len(),
                out@.map_values(|p: (String, V)| text_pair_view(p)) == self.pairs().take(i as int),
            decreases self.entries@.len() - i,
        {
            let k = self.entries[i].0.clone();
            let v = self.entries[i].1.deep_copy();
            let ghost prev = out@;
            out.push((k, v));
            proof {
                lemma_map_push(prev, (k, v), |p: (String, V)| text_pair_view(p));
                assert(self.pairs().take(i + 1) =~= self.pairs().take(i as int).push(self.pairs()[i as int]));
            }
            i = i + 1;
        }
        assert(self.pairs().take(i as int) =~= self.pairs());
        let r = TextMap { entries: out };
        assert(r.pairs() == self.pairs());
        r
    }
}

/// A map from identifiers to values, in insertion order.
#[derive(Debug, Clone)]
pub struct IdMap<V> {
    entries: Vec<(u128, V)>,
}

impl<V: View> View for IdMap<V> {
    type V = Seq<(u128, V::V)>;

    open spec fn view(&self) -> Seq<(u128, V::V)> {
        self.pairs()
    }
}

impl<V: View> IdMap<V> {
    /// The stored pairs, in storage order.
    pub closed spec fn pairs(&self) -> Seq<(u128, V::V)> {
        self.entries@.map_values(|p: (u128, V)| id_pair_view(p))
    }

    pub fn new() -> (r: Self)
        ensures
            r@ == Seq::<(u128, V::V)>::empty(),
            keys_distinct(r@),
    {
        let r = IdMap { entries: Vec::new() };
        assert(r@ =~= Seq::<(u128, V::V)>::empty());
        r
    }

    pub fn len(&self) -> (r: usize)
        ensures
            r == self@.len(),
    {
        self.entries.len()
    }

    pub fn is_empty(&self) -> (r: bool)
        ensures
            r == (self@.len() == 0),
    {
        self.entries.len() == 0
    }

    pub fn key_at(&self, i: usize) -> (r: u128)
        requires
            i < self@.len(),
        ensures
            r == self@[i as int].0,
    {
        self.entries[i].0
    }

    pub fn value_at(&self, i: usize) -> (r: &V)
        requires
            i < self@.len(),
        ensures
            r@ == self@[i as int].1,
    {
        &self.entries[i].1
    }

    /// Mutable access to the value stored at position `i`.
    pub fn value_mut(&mut self, i: usize) -> (r: &mut V)
        requires
            i < old(self)@.len(),
        ensures
            r@ == old(self)@[i as int].1,
            final(self)@ == old(self)@.update(i as int, (old(self)@[i as int].0, final(r)@)),
            keys_distinct(old(self)@) ==> keys_distinct(final(self)@),
    {
        proof { lemma_update_value_distinct(old(self)@, i as int); }
        assert(self.pairs()[i as int] == id_pair_view(self.entries@[i as int]));
        let r = &mut self.entries[i].1;
        r
    }

    /// Position of the pair for `key`, if any.
    pub fn index_of(&self, key: u128) -> (r: Option<usize>)
        ensures
            r matches Some(i) ==> i == first_index(self@, key) && i < self@.len() && self@[i as int].0
                == key,
            r is None ==> first_index(self@, key) == -1,
            r is Some <==> has_key(self@, key),
    {
        proof { lemma_first_index(self.pairs(), key); }
        let mut i: usize = 0;
        while i < self.entries.len()
            invariant
                i <= self.entries@.len(),
                forall|j: int| 0 <= j < i ==> #[trigger] self.pairs()[j].0 != key,
            decreases self.entries@.len() - i,
        {
            assert(self.pairs()[i as int].0 == self.entries@[i as int].0);
            if self.entries[i].0 == key {
                proof { lemma_first_index_at(self.pairs(), key, i as int); }
                return Some(i);
            }
            i = i + 1;
        }
        proof { lemma_first_index_none(self.pairs(), key); }
        None
    }

    pub fn contains_key(&self, key: u128) -> (r: bool)
        ensures
            r == has_key(self@, key),
            r == as_map(self@).contains_key(key),
    {
        self.index_of(key).is_some()
    }

    pub fn get(&self, key: u128) -> (r: Option<&V>)
        ensures
            r is Some <==> as_map(self@).contains_key(key),
            r matches Some(v) ==> v@ == as_map(self@)[key],
    {
        match self.index_of(key) {
            Some(i) => Some(self.value_at(i)),
            None => None,
        }
    }

    /// Set `key` to `value`: the pair for `key` keeps its position, a new key goes last.
    pub fn insert(&mut self, key: u128, value: V)
        ensures
            final(self)@ == assoc_put(old(self)@, key, value@),
            as_map(final(self)@) == as_map(old(self)@).insert(key, value@),
            keys_distinct(old(self)@) ==> keys_distinct(final(self)@),
    {
        proof {
            if keys_distinct(old(self)@) {
                crate::index::lemma_put_distinct(old(self)@, key, value@);
            }
        }
        let ghost vv = value@;
        match self.index_of(key) {
            Some(i) => {
                self.entries.set(i, (key, value));
                assert(self.pairs() =~= old(self).pairs().update(i as int, (key, vv)));
            },
            None => {
                let ghost prev = self.entries@;
                self.entries.push((key, value));
                proof { lemma_map_push(prev, (key, value), |p: (u128, V)| id_pair_view(p)); }
            },
        }
        proof { lemma_as_map_put(old(self).pairs(), key, vv); }
    }

    /// Remove every pair for `key`; the value of the first one is returned.
    pub fn remove(&mut self, key: u128) -> (r: Option<V>)
        ensures
            final(self)@ == assoc_drop(old(self)@, key),
            as_map(final(self)@) == as_map(old(self)@).remove(key),
            r is Some <==> has_key(old(self)@, key),
            r matches Some(v) ==> v@ == as_map(old(self)@)[key],
            r is None ==> final(self)@ == old(self)@,
            keys_distinct(old(self)@) ==> keys_distinct(final(self)@),
    {
        proof {
            if keys_distinct(old(self)@) {
                crate::index::lemma_filter_distinct(old(self)@, key_differs::<u128, V::V>(key));
            }
        }
        let ghost orig = self.pairs();
        let ghost f = key_differs::<u128, V::V>(key);
        let mut found: Option<V> = None;
        let mut rest: Vec<(u128, V)> = Vec::new();
        std::mem::swap(&mut rest, &mut self.entries);
        assert(self.pairs() =~= Seq::<(u128, V::V)>::empty().filter(f)) by {
            reveal_with_fuel(Seq::filter, 1);
        }
        proof { lemma_first_index(orig, key); }
        let ghost mut k: int = 0;
        while rest.len() > 0
            invariant
                0 <= k <= orig.len(),
                f == key_differs::<u128, V::V>(key),
                rest@.map_values(|p: (u128, V)| id_pair_view(p)) == orig.skip(k),
                self.pairs() == orig.take(k).filter(f),
                found is Some <==> (exists|j: int| 0 <= j < k && orig[j].0 == key),
                found matches Some(v) ==> v@ == orig[first_index(orig, key)].1,
                found is None ==> self.pairs() == orig.take(k),
                first_index(orig, key) >= 0 ==> orig[first_index(orig, key)].0 == key,
                forall|j: int| 0 <= j < first_index(orig, key) ==> orig[j].0 != key,
                first_index(orig, key) >= 0 <==> has_key(orig, key),
            decreases rest@.len(),
        {
            let ghost rest_before = rest@;
            assert(rest_before.map_values(|p: (u128, V)| id_pair_view(p)).len() == rest_before.len());
            assert(k < orig.len());
            let p = rest.remove(0);
            proof {
                assert(rest@ =~= rest_before.drop_first());
                assert(orig.skip(k)[0] == id_pair_view(rest_before[0]));
                assert forall|j: int| 0 <= j < rest@.len() implies #[trigger] id_pair_view(rest@[j]) == orig.skip(k + 1)[j] by {
                    assert(rest@[j] == rest_before[j + 1]);
                    assert(rest_before.map_values(|p: (u128, V)| id_pair_view(p))[j + 1] == orig.skip(k)[j + 1]);
                }
                assert(rest@.map_values(|p: (u128, V)| id_pair_view(p)) =~= orig.skip(k + 1));
                assert(orig.take(k + 1).drop_last() =~= orig.take(k));
                assert(orig.take(k + 1).last() == id_pair_view(p));
                let t1 = orig.take(k + 1);
                assert(t1.filter(f) == (if f(t1.last()) {
                    t1.drop_last().filter(f).push(t1.last())
                } else {
                    t1.drop_last().filter(f)
                })) by {
                    reveal_with_fuel(Seq::filter, 1);
                }
            }
            if p.0 != key {
                let ghost prev = self.entries@;
                self.entries.push(p);
                proof {
                    lemma_map_push(prev, p, |p: (u128, V)| id_pair_view(p));
                    if found is None {
                        assert(orig.take(k + 1) =~= orig.take(k).push(orig[k]));
                    }
                }
            } else {
                if found.is_none() {
                    proof {
                        assert(orig[k].0 == key);
                        lemma_first_index_at(orig, key, k);
                    }
                    found = Some(p.1);
                }
            }
            proof {
                if exists|j: int| 0 <= j < k + 1 && orig[j].0 == key {
                    let j = choose|j: int| 0 <= j < k + 1 && orig[j].0 == key;
                    if j < k {
                    }
                }
                k = k + 1;
            }
        }
        assert(orig.take(k) =~= orig);
        proof {
            lemma_as_map_drop(orig, key);
            if found is None {
                assert(self.pairs() == orig);
            }
            if has_key(orig, key) {
                let j = choose|j: int| 0 <= j < orig.len() && orig[j].0 == key;
                assert(exists|j: int| 0 <= j < k && orig[j].0 == key);
            }
        }
        found
    }
}

impl<V: DeepCopy> DeepCopy for IdMap<V> {
    fn deep_copy(&self) -> (r: Self) {
        let mut out: Vec<(u128, V)> = Vec::new();
        let mut i: usize = 0;
        while i < self.entries.len()
            invariant
                i <= self.entries@.len(),
                out@.map_values(|p: (u128, V)| id_pair_view(p)) == self.pairs().take(i as int),
            decreases self.entries@.len() - i,
        {
            let k = self.entries[i].0;
            let v = self.entries[i].1.deep_copy();
            let ghost prev = out@;
            out.push((k, v));
            proof {
                lemma_map_push(prev, (k, v), |p: (u128, V)| id_pair_view(p));
                assert(self.pairs().take(i + 1) =~= self.pairs().take(i as int).push(self.pairs()[i as int]));
            }
            i = i + 1;
        }
        assert(self.pairs().take(i as int) =~= self.pairs());
        let r = IdMap { entries: out };
        assert(r.pairs() == self.pairs());
        r
    }
}

/// A list of identifiers without repeats, in insertion order.
#[derive(Debug, Clone, Default)]
pub struct IdList {
    items: Vec<u128>,
}

impl View for IdList {
    type V = Seq<u128>;

    open spec fn view(&self) -> Seq<u128> {
        self.items_view()
    }
}

impl IdList {
    pub closed spec fn items_view(&self) -> Seq<u128> {
        self.items@
    }

    pub fn new() -> (r: Self)
        ensures
            r@ == Seq::<u128>::empty(),
    {
        IdList { items: Vec::new() }
    }

    pub fn len(&self) -> (r: usize)
        ensures
            r == self@.len(),
    {
        self.items.len()
    }

    pub fn is_empty(&self) -> (r: bool)
        ensures
            r == (self@.len() == 0),
    {
        self.items.len() == 0
    }

    pub fn at(&self, i: usize) -> (r: u128)
        requires
            i < self@.len(),
        ensures
            r == self@[i as int],
    {
        self.items[i]
    }

    pub fn contains(&self, x: u128) -> (r: bool)
        ensures
            r == self@.contains(x),
    {
        let mut i: usize = 0;
        while i < self.items.len()
            invariant
                i <= self.items@.len(),
                forall|j: int| 0 <= j < i ==> self.items@[j] != x,
            decreases self.items@.len() - i,
        {
            if self.items[i] == x {
                return true;
            }
            i = i + 1;
        }
        false
    }

    /// Add `x` unless it is already listed; `true` when it was added.
    pub fn insert(&mut self, x: u128) -> (r: bool)
        ensures
            r == !old(self)@.contains(x),
            final(self)@ == (if r {
                old(self)@.push(x)
            } else {
                old(self)@
            }),
            final(self)@.to_set() == old(self)@.to_set().insert(x),
    {
        if self.contains(x) {
            assert(self@.to_set() =~= self@.to_set().insert(x));
            false
        } else {
            self.items.push(x);
            proof { crate::assoc::lemma_push_to_set(old(self)@, x); }
            true
        }
    }

    /// Remove every occurrence of `x`; `true` when it was listed.
    pub fn remove(&mut self, x: u128) -> (r: bool)
        ensures
            r == old(self)@.contains(x),
            final(self)@ == old(self)@.filter(|y: u128| y != x),
            final(self)@.to_set() == old(self)@.to_set().remove(x),
    {
        let ghost orig = self@;
        let ghost f = |y: u128| y != x;
        let mut kept: Vec<u128> = Vec::new();
        let mut found = false;
        let mut i: usize = 0;
        assert(kept@ =~= orig.take(0).filter(f)) by {
            reveal_with_fuel(Seq::filter, 1);
        }
        while i < self.items.len()
            invariant
                i <= self.items@.len(),
                self.items@ == orig,
                f == (|y: u128| y != x),
                kept@ == orig.take(i as int).filter(f),
                found == orig.take(i as int).contains(x),
            decreases self.items@.len() - i,
        {
            proof {
                let t1 = orig.take(i + 1);
                assert(t1.drop_last() =~= orig.take(i as int));
                assert(t1.last() == orig[i as int]);
                assert(t1.filter(f) == (if f(t1.last()) {
                    t1.drop_last().filter(f).push(t1.last())
                } else {
                    t1.drop_last().filter(f)
                })) by {
                    reveal_with_fuel(Seq::filter, 1);
                }
                if orig.take(i as int).contains(x) {
                    let j = choose|j: int| 0 <= j < i && orig.take(i as int)[j] == x;
                    assert(t1[j] == x);
                }
                if t1.contains(x) {
                    let j = choose|j: int| 0 <= j < t1.len() && t1[j] == x;
                    if j < i {
                        assert(orig.take(i as int)[j] == x);
                    }
                }
            }
            if self.items[i] == x {
                found = true;
                assert(orig.take(i + 1)[i as int] == x);
            } else {
                kept.push(self.items[i]);
            }
            i = i + 1;
        }
        assert(orig.take(i as int) =~= orig);
        self.items = kept;
        proof {
            assert forall|y: u128| #[trigger] self@.to_set().contains(y) == orig.to_set().remove(x).contains(y) by {
                lemma_filter_member(orig, f, y);
            }
            assert(self@.to_set() =~= orig.to_set().remove(x));
        }
        found
    }
}

impl IdList {
    /// Keep only the identifiers that are not keys of `keys`, in order.
    pub fn retain_absent<V: View>(&mut self, keys: &IdMap<V>)
        ensures
            final(self)@ == old(self)@.filter(key_absent(keys@)),
    {
        let ghost f = key_absent(keys@);
        let ghost orig = self@;
        let mut kept: Vec<u128> = Vec::new();
        assert(kept@ =~= orig.take(0).filter(f)) by {
            reveal_with_fuel(Seq::filter, 1);
        }
        let mut i: usize = 0;
        while i < self.items.len()
            invariant
                i <= self.items@.len(),
                self.items@ == orig,
                f == key_absent(keys@),
                kept@ == orig.take(i as int).filter(f),
            decreases self.items@.len() - i,
        {
            proof { crate::assoc::lemma_filter_take_step(orig, f, i as int); }
            if !keys.contains_key(self.items[i]) {
                kept.push(self.items[i]);
            }
            i = i + 1;
        }
        assert(orig.take(i as int) =~= orig);
        self.items = kept;
    }
}

impl DeepCopy for IdList {
    fn deep_copy(&self) -> (r: IdList) {
        IdList { items: self.items.clone() }
    }
}

} // verus!
