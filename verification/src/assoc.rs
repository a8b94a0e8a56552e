//! Spec-level association lists: sequences of `(key, value)` pairs read
//! with first-match semantics, the model behind the keyed containers.

use vstd::prelude::*;

verus! {

/// Index of the first pair whose key is `k`, or `-1` when there is none.
pub open spec fn first_index<K, V>(s: Seq<(K, V)>, k: K) -> int
    decreases s.len(),
{
    if s.len() == 0 {
        -1
    } else if s[0].0 == k {
        0
    } else {
        let r = first_index(s.drop_first(), k);
        if r < 0 {
            -1
        } else {
            r + 1
        }
    }
}

/// `true` when some pair of `s` has key `k`.
pub open spec fn has_key<K, V>(s: Seq<(K, V)>, k: K) -> bool {
    exists|i: int| 0 <= i < s.len() && #[trigger] s[i].0 == k
}

/// The finite map that `s` denotes: each key maps to the value of its first pair.
pub open spec fn as_map<K, V>(s: Seq<(K, V)>) -> Map<K, V> {
    Map::new(|k: K| has_key(s, k), |k: K| s[first_index(s, k)].1)
}

/// `s` with the first pair for `k` given value `v`, or with `(k, v)` appended.
pub open spec fn assoc_put<K, V>(s: Seq<(K, V)>, k: K, v: V) -> Seq<(K, V)> {
    let i = first_index(s, k);
    if i >= 0 {
        s.update(i, (k, v))
    } else {
        s.push((k, v))
    }
}

/// The test that a key has no pair in `s`.
pub open spec fn key_absent<K, V>(s: Seq<(K, V)>) -> spec_fn(K) -> bool {
    |k: K| !has_key(s, k)
}

/// The test that a pair's key is not `k`.
pub open spec fn key_differs<K, V>(k: K) -> spec_fn((K, V)) -> bool {
    |p: (K, V)| p.0 != k
}

/// `s` without any pair whose key is `k`.
pub open spec fn assoc_drop<K, V>(s: Seq<(K, V)>, k: K) -> Seq<(K, V)> {
    s.filter(key_differs(k))
}

pub proof fn lemma_first_index<K, V>(s: Seq<(K, V)>, k: K)
    ensures
        -1 <= first_index(s, k) < s.len(),
        first_index(s, k) >= 0 <==> has_key(s, k),
        first_index(s, k) >= 0 ==> s[first_index(s, k)].0 == k,
        forall|j: int| 0 <= j < first_index(s, k) ==> s[j].0 != k,
        first_index(s, k) < 0 ==> forall|j: int| 0 <= j < s.len() ==> s[j].0 != k,
    decreases s.len(),
{
    if s.len() > 0 {
        lemma_first_index(s.drop_first(), k);
        if s[0].0 != k {
            assert forall|j: int| 0 <= j < s.len() && s[j].0 == k implies has_key(s.drop_first(), k) by {
                assert(s.drop_first()[j - 1].0 == k);
            }
            if has_key(s, k) {
                let j = choose|j: int| 0 <= j < s.len() && s[j].0 == k;
                assert(s.drop_first()[j - 1].0 == k);
            }
            if has_key(s.drop_first(), k) {
                let j = choose|j: int| 0 <= j < s.len() - 1 && s.drop_first()[j].0 == k;
                assert(s[j + 1].0 == k);
            }
            assert forall|j: int| 0 <= j < first_index(s, k) implies s[j].0 != k by {
                if j > 0 {
                    assert(s[j] == s.drop_first()[j - 1]);
                }
            }
        } else {
            assert(s[0].0 == k);
        }
    }
}

/// A scan that met `k` first at `i` has found `first_index(s, k)`.
pub proof fn lemma_first_index_at<K, V>(s: Seq<(K, V)>, k: K, i: int)
    requires
        0 <= i < s.len(),
        s[i].0 == k,
        forall|j: int| 0 <= j < i ==> s[j].0 != k,
    ensures
        first_index(s, k) == i,
{
    lemma_first_index(s, k);
    assert(has_key(s, k));
}

/// A scan that met no `k` finds none.
pub proof fn lemma_first_index_none<K, V>(s: Seq<(K, V)>, k: K)
    requires
        forall|j: int| 0 <= j < s.len() ==> s[j].0 != k,
    ensures
        first_index(s, k) == -1,
        !has_key(s, k),
{
    lemma_first_index(s, k);
}

pub proof fn lemma_as_map_put<K, V>(s: Seq<(K, V)>, k: K, v: V)
    ensures
        as_map(assoc_put(s, k, v)) == as_map(s).insert(k, v),
{
    lemma_first_index(s, k);
    let t = assoc_put(s, k, v);
    assert forall|x: K| #[trigger] has_key(t, x) == (has_key(s, x) || x == k) by {
        lemma_first_index(s, x);
        if has_key(s, x) {
            let j = first_index(s, x);
            if x != k {
                assert(t[j].0 == x);
            }
        }
        if x == k {
            if first_index(s, k) >= 0 {
                assert(t[first_index(s, k)].0 == k);
            } else {
                assert(t[s.len() as int].0 == k);
            }
        }
        if has_key(t, x) && x != k {
            let j = choose|j: int| 0 <= j < t.len() && t[j].0 == x;
            assert(s[j].0 == x);
        }
    }
    assert forall|x: K| has_key(t, x) implies #[trigger] t[first_index(t, x)].1 == as_map(s).insert(k, v)[x] by {
        lemma_first_index(s, x);
        lemma_first_index(t, x);
        let j = first_index(t, x);
        if x == k {
            if first_index(s, k) >= 0 {
                lemma_first_index_at(t, x, first_index(s, k));
            } else {
                lemma_first_index_at(t, x, s.len() as int);
            }
        } else {
            let js = first_index(s, x);
            assert forall|m: int| 0 <= m < js implies t[m].0 != x by {
                assert(s[m].0 != x);
            }
            lemma_first_index_at(t, x, js);
        }
    }
    assert(as_map(t) =~= as_map(s).insert(k, v));
}

/// Appending a pair changes the denoted map only when its key is new.
pub proof fn lemma_as_map_push<K, V>(s: Seq<(K, V)>, p: (K, V))
    ensures
        as_map(s.push(p)) == (if has_key(s, p.0) {
            as_map(s)
        } else {
            as_map(s).insert(p.0, p.1)
        }),
{
    let t = s.push(p);
    assert forall|x: K| #[trigger] has_key(t, x) == (has_key(s, x) || x == p.0) by {
        if has_key(s, x) {
            let j = choose|j: int| 0 <= j < s.len() && s[j].0 == x;
            assert(t[j].0 == x);
        }
        if x == p.0 {
            assert(t[s.len() as int].0 == x);
        }
        if has_key(t, x) && x != p.0 {
            let j = choose|j: int| 0 <= j < t.len() && t[j].0 == x;
            assert(s[j].0 == x);
        }
    }
    assert forall|x: K| has_key(t, x) implies #[trigger] t[first_index(t, x)].1 == (if has_key(s, p.0) {
        as_map(s)
    } else {
        as_map(s).insert(p.0, p.1)
    })[x] by {
        lemma_first_index(s, x);
        if has_key(s, x) {
            let j = first_index(s, x);
            assert forall|m: int| 0 <= m < j implies t[m].0 != x by {
                assert(s[m].0 != x);
            }
            lemma_first_index_at(t, x, j);
        } else {
            assert forall|m: int| 0 <= m < s.len() implies t[m].0 != x by {
                assert(s[m].0 != x);
            }
            lemma_first_index_at(t, x, s.len() as int);
        }
    }
    if has_key(s, p.0) {
        assert(as_map(t) =~= as_map(s));
    } else {
        assert(as_map(t) =~= as_map(s).insert(p.0, p.1));
    }
}

pub proof fn lemma_as_map_drop<K, V>(s: Seq<(K, V)>, k: K)
    ensures
        as_map(assoc_drop(s, k)) == as_map(s).remove(k),
    decreases s.len(),
{
    if s.len() == 0 {
        assert(as_map(s) =~= Map::<K, V>::empty()) by {
            assert forall|x: K| !has_key(s, x) by {}
        }
        assert(as_map(assoc_drop(s, k)) =~= Map::<K, V>::empty()) by {
            assert forall|x: K| !has_key(assoc_drop(s, k), x) by {}
        }
    } else {
        let r = s.drop_last();
        let p = s.last();
        assert(s =~= r.push(p));
        lemma_as_map_drop(r, k);
        lemma_as_map_push(r, p);
        let fr = assoc_drop(r, k);
        assert(assoc_drop(s, k) == (if p.0 != k { fr.push(p) } else { fr })) by {
            reveal_with_fuel(Seq::filter, 1);
        }
        if p.0 != k {
            lemma_as_map_push(fr, p);
            assert(has_key(fr, p.0) == has_key(r, p.0)) by {
                assert(as_map(fr).dom().contains(p.0) == as_map(r).remove(k).dom().contains(p.0));
            }
            assert(as_map(assoc_drop(s, k)) =~= as_map(s).remove(k));
        } else {
            assert(as_map(assoc_drop(s, k)) =~= as_map(s).remove(k));
        }
    }
}

/// Mapping commutes with appending.
pub proof fn lemma_map_push<A, B>(s: Seq<A>, x: A, f: spec_fn(A) -> B)
    ensures
        s.push(x).map_values(f) == s.map_values(f).push(f(x)),
{
    assert(s.push(x).map_values(f) =~= s.map_values(f).push(f(x)));
}

/// One more step of a filter over a growing prefix.
pub proof fn lemma_filter_take_step<A>(s: Seq<A>, f: spec_fn(A) -> bool, i: int)
    requires
        0 <= i < s.len(),
    ensures
        s.take(i + 1).filter(f) == (if f(s[i]) {
            s.take(i).filter(f).push(s[i])
        } else {
            s.take(i).filter(f)
        }),
{
    let t = s.take(i + 1);
    assert(t.drop_last() =~= s.take(i));
    assert(t.last() == s[i]);
    reveal_with_fuel(Seq::filter, 1);
}

/// A filter keeps nothing of a sequence none of whose elements pass.
pub proof fn lemma_filter_none<A>(s: Seq<A>, f: spec_fn(A) -> bool)
    requires
        forall|j: int| 0 <= j < s.len() ==> !f(#[trigger] s[j]),
    ensures
        s.filter(f).len() == 0,
    decreases s.len(),
{
    reveal_with_fuel(Seq::filter, 1);
    if s.len() > 0 {
        lemma_filter_none(s.drop_last(), f);
    }
}

/// The first element that passes a filter heads the filtered sequence.
pub proof fn lemma_filter_first<A>(s: Seq<A>, f: spec_fn(A) -> bool, i: int)
    requires
        0 <= i < s.len(),
        f(s[i]),
        forall|j: int| 0 <= j < i ==> !f(#[trigger] s[j]),
    ensures
        s.filter(f).len() > 0,
        s.filter(f)[0] == s[i],
{
    let a = s.take(i);
    let b = s.skip(i);
    assert(s =~= a + b);
    lemma_filter_none(a, f);
    Seq::filter_distributes_over_add(a, b, f);
    let b0 = seq![s[i]];
    let b1 = s.skip(i + 1);
    assert(b =~= b0 + b1);
    Seq::filter_distributes_over_add(b0, b1, f);
    assert(b0.filter(f) == seq![s[i]]) by {
        reveal_with_fuel(Seq::filter, 2);
        assert(b0.drop_last() =~= Seq::<A>::empty());
    }
    assert(s.filter(f) =~= seq![s[i]] + b1.filter(f));
}

/// Membership in a filtered sequence.
pub proof fn lemma_filter_member<A>(s: Seq<A>, p: spec_fn(A) -> bool, x: A)
    ensures
        s.filter(p).contains(x) <==> s.contains(x) && p(x),
    decreases s.len(),
{
    reveal_with_fuel(Seq::filter, 1);
    if s.len() > 0 {
        let r = s.drop_last();
        lemma_filter_member(r, p, x);
        assert(s =~= r.push(s.last()));
        if r.contains(x) {
            let j = choose|j: int| 0 <= j < r.len() && r[j] == x;
            assert(s[j] == x);
        }
        if s.contains(x) && x != s.last() {
            let j = choose|j: int| 0 <= j < s.len() && s[j] == x;
            assert(r[j] == x);
        }
        if s.filter(p).contains(x) {
            let rf = r.filter(p);
            if p(s.last()) {
                assert(s.filter(p) == rf.push(s.last()));
                let j = choose|j: int| 0 <= j < rf.len() + 1 && rf.push(s.last())[j] == x;
                if j < rf.len() {
                    assert(rf[j] == x);
                }
            }
        }
        if s.contains(x) && p(x) {
            let rf = r.filter(p);
            if x == s.last() {
                assert(s.filter(p)[rf.len() as int] == x);
            } else {
                let j = choose|j: int| 0 <= j < rf.len() && rf[j] == x;
                if p(s.last()) {
                    assert(s.filter(p)[j] == x);
                }
            }
        }
    }
}

/// Appending to a sequence adds the element to its set of members.
pub proof fn lemma_push_to_set<A>(s: Seq<A>, x: A)
    ensures
        s.push(x).to_set() == s.to_set().insert(x),
{
    assert forall|y: A| #[trigger] s.push(x).to_set().contains(y) == s.to_set().insert(x).contains(y) by {
        if s.push(x).contains(y) && y != x {
            let j = choose|j: int| 0 <= j < s.len() + 1 && s.push(x)[j] == y;
            assert(s[j] == y);
        }
        if s.contains(y) {
            let j = choose|j: int| 0 <= j < s.len() && s[j] == y;
            assert(s.push(x)[j] == y);
        }
        if y == x {
            assert(s.push(x)[s.len() as int] == y);
        }
    }
    assert(s.push(x).to_set() =~= s.to_set().insert(x));
}

/// Every pair of `assoc_put(s, k, v)` is `(k, v)` or the pair of `s` at the same position.
pub proof fn lemma_assoc_put_entries<K, V>(s: Seq<(K, V)>, k: K, v: V)
    ensures
        assoc_put(s, k, v).len() >= s.len(),
        forall|i: int|
            0 <= i < assoc_put(s, k, v).len() ==> #[trigger] assoc_put(s, k, v)[i] == (k, v) || (i
                < s.len() && assoc_put(s, k, v)[i] == s[i]),
        !has_key(s, k) ==> assoc_put(s, k, v) == s.push((k, v)),
{
    lemma_first_index(s, k);
}

/// `has_key` and the denoted map agree after a put, away from the put key.
pub proof fn lemma_put_other<K, V>(s: Seq<(K, V)>, k: K, v: V, x: K)
    requires
        x != k,
    ensures
        has_key(assoc_put(s, k, v), x) == has_key(s, x),
        as_map(assoc_put(s, k, v))[x] == as_map(s)[x],
{
    lemma_as_map_put(s, k, v);
    assert(as_map(assoc_put(s, k, v)).dom().contains(x) == as_map(s).dom().contains(x));
}

/// After a put, the key is present with the put value.
pub proof fn lemma_put_same<K, V>(s: Seq<(K, V)>, k: K, v: V)
    ensures
        has_key(assoc_put(s, k, v), k),
        as_map(assoc_put(s, k, v))[k] == v,
{
    lemma_as_map_put(s, k, v);
    assert(as_map(assoc_put(s, k, v)).dom().contains(k));
}

} // verus!
