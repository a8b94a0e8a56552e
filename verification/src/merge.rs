//! Laws of merging deltas: applying two deltas in turn is applying their merge
//! when the later one only spawns entities under new IDs, or only patches
//! entities the earlier one leaves alone; a step whose corrections are of
//! these kinds is replayed exactly from its stored delta.

use vstd::prelude::*;

use crate::assoc::{
    as_map, assoc_drop, assoc_put, first_index, has_key, key_differs, lemma_first_index,
    lemma_first_index_at, lemma_put_other,
};
use crate::delta::{merge_diffs, puts_all, DeltaView, DiffView};
use crate::entity::{patched, EntityView, PoolView};
use crate::index::lemma_adds_has;
use crate::manager::tendencies_applied;
use crate::tendency::{generated, TendencyView};
use crate::types::EntityId;

verus! {

/// Appending a pair does not move the first pair of a key already present.
pub proof fn lemma_put_after_push<V>(s: Seq<(EntityId, V)>, p: (EntityId, V), k: EntityId, v: V)
    requires
        has_key(s, k),
    ensures
        has_key(s.push(p), k),
        assoc_put(s.push(p), k, v) == assoc_put(s, k, v).push(p),
{
    lemma_first_index(s, k);
    let j = first_index(s, k);
    assert forall|m: int| 0 <= m < j implies s.push(p)[m].0 != k by {
        assert(s.push(p)[m] == s[m]);
    }
    lemma_first_index_at(s.push(p), k, j);
    assert(s.push(p)[j] == s[j]);
    assert(assoc_put(s.push(p), k, v) =~= assoc_put(s, k, v).push(p));
}

/// The entity added by `with_entity_added` when its ID is not stored goes last.
pub proof fn lemma_add_fresh(q: PoolView, e: EntityView)
    requires
        !q.has(e.id),
    ensures
        q.with_entity_added(e).entries == q.entries.push((e.id, e)),
{
    lemma_first_index(q.entries, e.id);
}

/// Patching the entity under `x` and adding an entity under another, unused ID commute.
pub proof fn lemma_patch_add_commute(q: PoolView, x: EntityId, v: EntityView, e: EntityView)
    requires
        !q.has(e.id),
        x != e.id,
        q.has(x),
    ensures
        (PoolView { entries: assoc_put(q.entries, x, v), ..q }).with_entity_added(e) == (PoolView {
            entries: assoc_put(q.with_entity_added(e).entries, x, v),
            ..q.with_entity_added(e)
        }),
{
    lemma_add_fresh(q, e);
    lemma_put_other(q.entries, x, v, e.id);
    let q1 = PoolView { entries: assoc_put(q.entries, x, v), ..q };
    lemma_add_fresh(q1, e);
    lemma_put_after_push(q.entries, (e.id, e), x, v);
}

/// Giving or taking a role and adding an entity under another, unused ID commute.
pub proof fn lemma_role_add_commute(q: PoolView, x: EntityId, role: Seq<char>, add: bool, e: EntityView)
    requires
        !q.has(e.id),
        x != e.id,
    ensures
        q.with_role(x, role, add).with_entity_added(e) == q.with_entity_added(e).with_role(x, role, add),
        !q.with_role(x, role, add).has(e.id),
{
    let a = q.with_entity_added(e);
    lemma_add_fresh(q, e);
    crate::assoc::lemma_put_other(q.entries, e.id, e, x);
    assert(a.has(x) == q.has(x));
    assert(a.entity(x) == q.entity(x));
    if q.has(x) {
        let ex = q.entity(x);
        let v = EntityView {
            roles: if add {
                ex.roles.insert(role)
            } else {
                ex.roles.remove(role)
            },
            ..ex
        };
        lemma_put_other(q.entries, x, v, e.id);
        let r = q.with_role(x, role, add);
        lemma_add_fresh(r, e);
        lemma_put_after_push(q.entries, (e.id, e), x, v);
        let lhs = r.with_entity_added(e);
        let rhs = a.with_role(x, role, add);
        assert(lhs.entries == rhs.entries);
        assert forall|k: Seq<char>| #[trigger] lhs.index[k] == rhs.index[k] by {
            if k == role {
                if e.roles.contains(role) {
                    if add {
                        assert(lhs.index[k] =~= rhs.index[k]);
                    } else {
                        assert(lhs.index[k] =~= rhs.index[k]);
                    }
                }
            }
        }
        assert(lhs.index =~= rhs.index);
    }
}

/// Changing several roles and adding an entity under another, unused ID commute.
pub proof fn lemma_roles_add_commute(
    q: PoolView,
    x: EntityId,
    roles: Seq<Seq<char>>,
    add: bool,
    e: EntityView,
)
    requires
        !q.has(e.id),
        x != e.id,
    ensures
        q.with_roles(x, roles, add).with_entity_added(e) == q.with_entity_added(e).with_roles(x, roles, add),
        !q.with_roles(x, roles, add).has(e.id),
    decreases roles.len(),
{
    if roles.len() > 0 {
        lemma_roles_add_commute(q, x, roles.drop_last(), add, e);
        lemma_role_add_commute(q.with_roles(x, roles.drop_last(), add), x, roles.last(), add, e);
    }
}

/// Applying a diff to `x` and adding an entity under another, unused ID commute.
pub proof fn lemma_diff_add_commute(q: PoolView, x: EntityId, d: DiffView, e: EntityView)
    requires
        !q.has(e.id),
        x != e.id,
    ensures
        q.with_diff_applied(x, d).with_entity_added(e) == q.with_entity_added(e).with_diff_applied(x, d),
        !q.with_diff_applied(x, d).has(e.id),
{
    let a = q.with_entity_added(e);
    lemma_add_fresh(q, e);
    crate::assoc::lemma_put_other(q.entries, e.id, e, x);
    let q1 = if q.has(x) {
        PoolView { entries: assoc_put(q.entries, x, patched(q.entity(x), d)), ..q }
    } else {
        q
    };
    let a1 = if a.has(x) {
        PoolView { entries: assoc_put(a.entries, x, patched(a.entity(x), d)), ..a }
    } else {
        a
    };
    if q.has(x) {
        lemma_patch_add_commute(q, x, patched(q.entity(x), d), e);
        lemma_put_other(q.entries, x, patched(q.entity(x), d), e.id);
    }
    assert(q1.with_entity_added(e) == a1);
    assert(!q1.has(e.id));
    lemma_roles_add_commute(q1, x, d.roles_added, true, e);
    let q2 = q1.with_roles(x, d.roles_added, true);
    lemma_roles_add_commute(q2, x, d.roles_removed, false, e);
}

/// Applying diffs for keys other than an unused ID and adding an entity under
/// that ID commute.
pub proof fn lemma_diffs_add_commute(q: PoolView, ds: Seq<(EntityId, DiffView)>, e: EntityView)
    requires
        !q.has(e.id),
        forall|i: int| 0 <= i < ds.len() ==> #[trigger] ds[i].0 != e.id,
    ensures
        q.with_diffs_applied(ds).with_entity_added(e) == q.with_entity_added(e).with_diffs_applied(ds),
        !q.with_diffs_applied(ds).has(e.id),
    decreases ds.len(),
{
    if ds.len() > 0 {
        let r = ds.drop_last();
        assert forall|i: int| 0 <= i < r.len() implies #[trigger] r[i].0 != e.id by {
            assert(r[i] == ds[i]);
        }
        lemma_diffs_add_commute(q, r, e);
        assert(ds[ds.len() - 1].0 != e.id);
        lemma_diff_add_commute(q.with_diffs_applied(r), ds.last().0, ds.last().1, e);
    }
}

/// Removing an entity and adding one under another, unused ID commute.
pub proof fn lemma_remove_add_commute(q: PoolView, y: EntityId, e: EntityView)
    requires
        !q.has(e.id),
        y != e.id,
    ensures
        q.with_entity_removed(y).with_entity_added(e) == q.with_entity_added(e).with_entity_removed(y),
        !q.with_entity_removed(y).has(e.id),
{
    let a = q.with_entity_added(e);
    lemma_add_fresh(q, e);
    crate::assoc::lemma_put_other(q.entries, e.id, e, y);
    if q.has(y) {
        let r = q.with_entity_removed(y);
        crate::assoc::lemma_as_map_drop(q.entries, y);
        assert(!r.has(e.id)) by {
            assert(as_map(r.entries).dom().contains(e.id) == (as_map(q.entries).dom().contains(e.id) && e.id != y));
        }
        lemma_add_fresh(r, e);
        q.entries.lemma_filter_push((e.id, e), key_differs(y));
        let lhs = r.with_entity_added(e);
        let rhs = a.with_entity_removed(y);
        assert(lhs.entries == rhs.entries);
        assert forall|k: Seq<char>| #[trigger] lhs.index[k] == rhs.index[k] by {
            assert(lhs.index[k] =~= rhs.index[k]);
        }
        assert(lhs.index =~= rhs.index);
    }
}

/// Removing entities other than an unused ID and adding an entity under that ID commute.
pub proof fn lemma_removes_add_commute(q: PoolView, ids: Seq<EntityId>, e: EntityView)
    requires
        !q.has(e.id),
        !ids.contains(e.id),
    ensures
        q.with_entities_removed(ids).with_entity_added(e) == q.with_entity_added(e).with_entities_removed(ids),
        !q.with_entities_removed(ids).has(e.id),
    decreases ids.len(),
{
    if ids.len() > 0 {
        let r = ids.drop_last();
        assert(!r.contains(e.id)) by {
            if r.contains(e.id) {
                let j = choose|j: int| 0 <= j < r.len() && r[j] == e.id;
                assert(ids[j] == e.id);
            }
        }
        lemma_removes_add_commute(q, r, e);
        assert(ids[ids.len() - 1] == ids.last());
        lemma_remove_add_commute(q.with_entities_removed(r), ids.last(), e);
    }
}

/// Adding entities in two batches is adding them in one.
pub proof fn lemma_adds_concat(q: PoolView, a: Seq<(EntityId, EntityView)>, b: Seq<(EntityId, EntityView)>)
    ensures
        q.with_entities_added(a + b) == q.with_entities_added(a).with_entities_added(b),
    decreases b.len(),
{
    if b.len() == 0 {
        assert(a + b =~= a);
    } else {
        lemma_adds_concat(q, a, b.drop_last());
        assert((a + b).drop_last() =~= a + b.drop_last());
        assert((a + b).last() == b.last());
    }
}

/// The IDs of the entities that `es` adds are unused in `q`, pairwise
/// different, and none of `ids`.
pub open spec fn adds_fresh(q: PoolView, es: Seq<(EntityId, EntityView)>, avoid: Set<EntityId>) -> bool {
    &&& forall|i: int| 0 <= i < es.len() ==> !q.has(#[trigger] es[i].1.id)
    &&& forall|i: int| 0 <= i < es.len() ==> !avoid.contains(#[trigger] es[i].1.id)
    &&& forall|i: int, j: int| #![trigger es[i], es[j]] 0 <= i < j < es.len() ==> es[i].1.id != es[j].1.id
}

/// Fresh additions commute with diffs for other keys and with removals of other IDs.
pub proof fn lemma_adds_commute(
    q: PoolView,
    es: Seq<(EntityId, EntityView)>,
    ds: Seq<(EntityId, DiffView)>,
    ids: Seq<EntityId>,
)
    requires
        adds_fresh(q, es, ids.to_set() + ds.map_values(|p: (EntityId, DiffView)| p.0).to_set()),
    ensures
        q.with_entities_added(es).with_diffs_applied(ds).with_entities_removed(ids) == q.with_diffs_applied(
            ds,
        ).with_entities_removed(ids).with_entities_added(es),
    decreases es.len(),
{
    let avoid = ids.to_set() + ds.map_values(|p: (EntityId, DiffView)| p.0).to_set();
    if es.len() == 0 {
    } else {
        let r = es.drop_last();
        let e = es.last().1;
        assert(adds_fresh(q, r, avoid)) by {
            assert forall|i: int| 0 <= i < r.len() implies !q.has(#[trigger] r[i].1.id) by {
                assert(r[i] == es[i]);
            }
            assert forall|i: int| 0 <= i < r.len() implies !avoid.contains(#[trigger] r[i].1.id) by {
                assert(r[i] == es[i]);
            }
            assert forall|i: int, j: int| #![trigger r[i], r[j]] 0 <= i < j < r.len() implies r[i].1.id
                != r[j].1.id by {
                assert(r[i] == es[i] && r[j] == es[j]);
            }
        }
        lemma_adds_commute(q, r, ds, ids);
        let qa = q.with_entities_added(r);
        assert(es[es.len() - 1].1.id == e.id);
        lemma_adds_has(q, r, e.id);
        assert(!qa.has(e.id)) by {
            if exists|j: int| 0 <= j < r.len() && #[trigger] r[j].1.id == e.id {
                let j = choose|j: int| 0 <= j < r.len() && #[trigger] r[j].1.id == e.id;
                assert(es[j] == r[j]);
            }
        }
        assert(!avoid.contains(e.id));
        assert forall|i: int| 0 <= i < ds.len() implies #[trigger] ds[i].0 != e.id by {
            assert(ds.map_values(|p: (EntityId, DiffView)| p.0)[i] == ds[i].0);
            assert(ds.map_values(|p: (EntityId, DiffView)| p.0).to_set().contains(ds[i].0));
        }
        assert(!ids.contains(e.id)) by {
            if ids.contains(e.id) {
                assert(ids.to_set().contains(e.id));
            }
        }
        // qa + e, then diffs, then removals
        lemma_diffs_add_commute(qa, ds, e);
        let qd = qa.with_diffs_applied(ds);
        lemma_removes_add_commute(qd, ids, e);
        // what remains is the induction hypothesis with the last addition moved to the end
        assert(q.with_entities_added(es) == qa.with_entity_added(e));
    }
}

/// A list of keys that the pairs `t` never name is kept whole by the test
/// that a key is absent from `t`.
pub proof fn lemma_filter_absent_keeps<K, V>(s: Seq<K>, t: Seq<(K, V)>)
    requires
        forall|i: int| 0 <= i < t.len() ==> !s.contains(#[trigger] t[i].0),
    ensures
        s.filter(crate::assoc::key_absent(t)) == s,
{
    assert forall|i: int| 0 <= i < s.len() implies (crate::assoc::key_absent(t))(#[trigger] s[i]) by {
        if has_key(t, s[i]) {
            let j = choose|j: int| 0 <= j < t.len() && t[j].0 == s[i];
            assert(s.contains(t[j].0));
        }
    }
    crate::tendency::lemma_filter_all(s, crate::assoc::key_absent(t));
}

/// A delta that only adds entities, each under its own ID.
pub open spec fn spawns_only(b: DeltaView) -> bool {
    &&& b.modified.len() == 0
    &&& b.removed.len() == 0
    &&& b.events.len() == 0
    &&& forall|i: int| 0 <= i < b.added.len() ==> #[trigger] b.added[i].1.id == b.added[i].0
}

/// The IDs that `b` may spawn under without clashing with the pool `p` or the
/// delta `a`: unused in `p`, pairwise different, and named nowhere in `a`.
pub open spec fn spawns_fresh(p: PoolView, a: DeltaView, b: DeltaView) -> bool {
    adds_fresh(
        p,
        b.added,
        a.removed.to_set() + a.modified.map_values(|q: (EntityId, DiffView)| q.0).to_set() + a.added.map_values(
            |q: (EntityId, EntityView)| q.0,
        ).to_set() + a.added.map_values(|q: (EntityId, EntityView)| q.1.id).to_set(),
    )
}

/// Putting pairs under keys that are new and pairwise different appends them.
pub proof fn lemma_puts_all_fresh<V>(s: Seq<(EntityId, V)>, t: Seq<(EntityId, V)>)
    requires
        forall|i: int| 0 <= i < t.len() ==> !has_key(s, #[trigger] t[i].0),
        forall|i: int, j: int| #![trigger t[i], t[j]] 0 <= i < j < t.len() ==> t[i].0 != t[j].0,
    ensures
        puts_all(s, t) == s + t,
    decreases t.len(),
{
    if t.len() == 0 {
        assert(s + t =~= s);
    } else {
        let r = t.drop_last();
        assert forall|i: int| 0 <= i < r.len() implies !has_key(s, #[trigger] r[i].0) by {
            assert(r[i] == t[i]);
        }
        assert forall|i: int, j: int| #![trigger r[i], r[j]] 0 <= i < j < r.len() implies r[i].0 != r[j].0 by {
            assert(r[i] == t[i] && r[j] == t[j]);
        }
        lemma_puts_all_fresh(s, r);
        let k = t.last().0;
        assert(t[t.len() - 1] == t.last());
        assert(!has_key(s + r, k)) by {
            if has_key(s + r, k) {
                let i = choose|i: int| 0 <= i < (s + r).len() && (s + r)[i].0 == k;
                if i < s.len() {
                    assert(s[i].0 == k);
                } else {
                    assert(r[i - s.len()] == t[i - s.len()]);
                }
            }
        }
        lemma_first_index(s + r, k);
        assert(s + t =~= (s + r).push(t.last()));
    }
}

/// Applying a delta and then one that only spawns entities under fresh IDs is
/// applying their merge.
pub proof fn law_merge_spawns(p: PoolView, a: DeltaView, b: DeltaView)
    requires
        spawns_only(b),
        spawns_fresh(p, a, b),
    ensures
        p.with_delta(a).with_delta(b) == p.with_delta(a.merged(b)),
{
    let avoid = a.removed.to_set() + a.modified.map_values(|q: (EntityId, DiffView)| q.0).to_set()
        + a.added.map_values(|q: (EntityId, EntityView)| q.0).to_set() + a.added.map_values(
        |q: (EntityId, EntityView)| q.1.id,
    ).to_set();
    let keys_a = a.added.map_values(|q: (EntityId, EntityView)| q.0);
    let ids_a = a.added.map_values(|q: (EntityId, EntityView)| q.1.id);
    // the merged delta: a's additions followed by b's, a's diffs and removals
    assert forall|i: int| 0 <= i < b.added.len() implies !has_key(a.added, #[trigger] b.added[i].0) by {
        if has_key(a.added, b.added[i].0) {
            let j = choose|j: int| 0 <= j < a.added.len() && a.added[j].0 == b.added[i].0;
            assert(keys_a[j] == a.added[j].0);
            assert(keys_a.to_set().contains(b.added[i].0));
            assert(avoid.contains(b.added[i].1.id));
        }
    }
    lemma_puts_all_fresh(a.added, b.added);
    assert forall|i: int| 0 <= i < b.added.len() implies !a.removed.contains(#[trigger] b.added[i].0) by {
        assert(b.added[i].1.id == b.added[i].0);
        if a.removed.contains(b.added[i].0) {
            assert(a.removed.to_set().contains(b.added[i].0));
            assert(avoid.contains(b.added[i].1.id));
        }
    }
    lemma_filter_absent_keeps(a.removed, b.added);
    let m = a.merged(b);
    assert(m.modified == a.modified);
    assert(m.removed == a.removed);
    lemma_adds_concat(p, a.added, b.added);
    let q = p.with_entities_added(a.added);
    assert(adds_fresh(q, b.added, a.removed.to_set() + a.modified.map_values(|q: (EntityId, DiffView)| q.0).to_set()))
        by {
        assert forall|i: int| 0 <= i < b.added.len() implies !q.has(#[trigger] b.added[i].1.id) by {
            let x = b.added[i].1.id;
            lemma_adds_has(p, a.added, x);
            if exists|j: int| 0 <= j < a.added.len() && #[trigger] a.added[j].1.id == x {
                let j = choose|j: int| 0 <= j < a.added.len() && #[trigger] a.added[j].1.id == x;
                assert(ids_a[j] == x);
                assert(ids_a.to_set().contains(x));
                assert(avoid.contains(x));
            }
        }
    }
    lemma_adds_commute(q, b.added, a.modified, a.removed);
    assert(b.added.len() >= 0);
}

/// The pair rewrite that putting `v` under the stored key `x` performs.
pub open spec fn put_at(x: EntityId, v: EntityView) -> spec_fn((EntityId, EntityView)) -> (EntityId, EntityView) {
    |q: (EntityId, EntityView)| if q.0 == x { (x, v) } else { q }
}

/// With distinct keys, putting under a stored key rewrites the one pair with that key.
pub proof fn lemma_put_rewrites(s: Seq<(EntityId, EntityView)>, x: EntityId, v: EntityView)
    requires
        crate::delta::keys_distinct(s),
        has_key(s, x),
    ensures
        assoc_put(s, x, v) == s.map_values(put_at(x, v)),
{
    lemma_first_index(s, x);
    let fi = first_index(s, x);
    assert forall|i: int| 0 <= i < s.len() implies #[trigger] assoc_put(s, x, v)[i] == s.map_values(put_at(x, v))[i] by {
        if i != fi {
            if s[i].0 == x {
                if i < fi {
                    assert(s[i].0 != s[fi].0);
                } else {
                    assert(s[fi].0 != s[i].0);
                }
            }
        }
    }
    assert(assoc_put(s, x, v) =~= s.map_values(put_at(x, v)));
}

/// Filtering and a rewrite that keeps the filter's verdict commute.
pub proof fn lemma_filter_map_commute<A>(s: Seq<A>, f: spec_fn(A) -> bool, g: spec_fn(A) -> A)
    requires
        forall|i: int| 0 <= i < s.len() ==> f(g(#[trigger] s[i])) == f(s[i]),
    ensures
        s.map_values(g).filter(f) == s.filter(f).map_values(g),
    decreases s.len(),
{
    reveal_with_fuel(Seq::filter, 1);
    if s.len() > 0 {
        let r = s.drop_last();
        assert forall|i: int| 0 <= i < r.len() implies f(g(#[trigger] r[i])) == f(r[i]) by {
            assert(r[i] == s[i]);
        }
        lemma_filter_map_commute(r, f, g);
        assert(s.map_values(g).drop_last() =~= r.map_values(g));
        assert(f(g(s[s.len() - 1])) == f(s[s.len() - 1]));
        assert(s.map_values(g).last() == g(s.last()));
        if f(s.last()) {
            assert(r.filter(f).push(s.last()).map_values(g) =~= r.filter(f).map_values(g).push(g(s.last())));
        }
    }
}

/// With distinct keys, dropping one key and putting under another, stored key commute.
pub proof fn lemma_drop_put_commute(s: Seq<(EntityId, EntityView)>, x: EntityId, v: EntityView, y: EntityId)
    requires
        crate::delta::keys_distinct(s),
        has_key(s, x),
        x != y,
    ensures
        assoc_drop(assoc_put(s, x, v), y) == assoc_put(assoc_drop(s, y), x, v),
{
    lemma_put_rewrites(s, x, v);
    let f = key_differs::<EntityId, EntityView>(y);
    lemma_filter_map_commute(s, f, put_at(x, v));
    crate::index::lemma_filter_distinct(s, f);
    crate::entity::lemma_stored_member(s, x);
    lemma_filter_member_has(s, f, x);
    lemma_put_rewrites(assoc_drop(s, y), x, v);
}

/// A stored key that passes the filter stays stored.
pub proof fn lemma_filter_member_has(s: Seq<(EntityId, EntityView)>, f: spec_fn((EntityId, EntityView)) -> bool, x: EntityId)
    requires
        has_key(s, x),
        f((x, as_map(s)[x])),
    ensures
        has_key(s.filter(f), x),
{
    crate::entity::lemma_stored_member(s, x);
    crate::assoc::lemma_filter_member(s, f, (x, as_map(s)[x]));
    let t = s.filter(f);
    let i = choose|i: int| 0 <= i < t.len() && t[i] == (x, as_map(s)[x]);
    assert(t[i].0 == x);
}

/// Rewriting the entity under a stored key `x` and removing another entity commute.
pub proof fn lemma_put_remove_commute(q: PoolView, x: EntityId, v: EntityView, y: EntityId)
    requires
        crate::delta::keys_distinct(q.entries),
        q.has(x),
        x != y,
    ensures
        (PoolView { entries: assoc_put(q.entries, x, v), ..q }).with_entity_removed(y) == (PoolView {
            entries: assoc_put(q.with_entity_removed(y).entries, x, v),
            ..q.with_entity_removed(y)
        }),
{
    lemma_put_other(q.entries, x, v, y);
    if q.has(y) {
        lemma_drop_put_commute(q.entries, x, v, y);
    }
}

/// After removing another entity, `x` is stored as before, with the same entity.
pub proof fn lemma_remove_keeps_other(q: PoolView, y: EntityId, x: EntityId)
    requires
        x != y,
    ensures
        q.with_entity_removed(y).has(x) == q.has(x),
        q.with_entity_removed(y).entity(x) == q.entity(x),
{
    if q.has(y) {
        crate::assoc::lemma_as_map_drop(q.entries, y);
        assert(as_map(q.with_entity_removed(y).entries).dom().contains(x) == as_map(q.entries).dom().contains(x));
    }
}

/// Giving or taking a role of `x` and removing another entity commute.
pub proof fn lemma_role_remove_commute(q: PoolView, x: EntityId, role: Seq<char>, add: bool, y: EntityId)
    requires
        crate::delta::keys_distinct(q.entries),
        x != y,
    ensures
        q.with_role(x, role, add).with_entity_removed(y) == q.with_entity_removed(y).with_role(x, role, add),
{
    lemma_remove_keeps_other(q, y, x);
    if q.has(x) {
        let e = q.entity(x);
        let v = EntityView {
            roles: if add {
                e.roles.insert(role)
            } else {
                e.roles.remove(role)
            },
            ..e
        };
        let w = q.with_role(x, role, add);
        lemma_put_other(q.entries, x, v, y);
        assert(w.has(y) == q.has(y) && w.entity(y) == q.entity(y));
        lemma_put_remove_commute(q, x, v, y);
        let lhs = w.with_entity_removed(y);
        let rhs = q.with_entity_removed(y).with_role(x, role, add);
        assert(lhs.entries == rhs.entries);
        assert forall|k: Seq<char>| #[trigger] lhs.index[k] == rhs.index[k] by {
            assert(lhs.index[k] =~= rhs.index[k]);
        }
        assert(lhs.index =~= rhs.index);
    }
}

/// Changing several roles of `x` and removing another entity commute.
pub proof fn lemma_roles_remove_commute(
    q: PoolView,
    x: EntityId,
    roles: Seq<Seq<char>>,
    add: bool,
    y: EntityId,
)
    requires
        q.well_keyed(),
        x != y,
    ensures
        q.with_roles(x, roles, add).with_entity_removed(y) == q.with_entity_removed(y).with_roles(x, roles, add),
    decreases roles.len(),
{
    if roles.len() > 0 {
        lemma_roles_remove_commute(q, x, roles.drop_last(), add, y);
        crate::index::lemma_roles_keep_keyed(q, x, roles.drop_last(), add);
        lemma_role_remove_commute(q.with_roles(x, roles.drop_last(), add), x, roles.last(), add, y);
    }
}

/// Applying a diff to `x` and removing another entity commute.
pub proof fn lemma_diff_remove_commute(q: PoolView, x: EntityId, d: DiffView, y: EntityId)
    requires
        q.well_keyed(),
        x != y,
    ensures
        q.with_diff_applied(x, d).with_entity_removed(y) == q.with_entity_removed(y).with_diff_applied(x, d),
{
    lemma_remove_keeps_other(q, y, x);
    let q1 = if q.has(x) {
        PoolView { entries: assoc_put(q.entries, x, patched(q.entity(x), d)), ..q }
    } else {
        q
    };
    if q.has(x) {
        lemma_put_remove_commute(q, x, patched(q.entity(x), d), y);
        crate::index::lemma_stored_id(q, x);
        crate::index::lemma_replace_keeps_keyed(q, x, patched(q.entity(x), d));
    }
    assert(q1.well_keyed());
    lemma_roles_remove_commute(q1, x, d.roles_added, true, y);
    crate::index::lemma_roles_keep_keyed(q1, x, d.roles_added, true);
    lemma_roles_remove_commute(q1.with_roles(x, d.roles_added, true), x, d.roles_removed, false, y);
}

/// Applying a diff to `x` and removing entities other than `x` commute.
pub proof fn lemma_diff_removes_commute(q: PoolView, x: EntityId, d: DiffView, ids: Seq<EntityId>)
    requires
        q.well_keyed(),
        !ids.contains(x),
    ensures
        q.with_diff_applied(x, d).with_entities_removed(ids) == q.with_entities_removed(ids).with_diff_applied(x, d),
    decreases ids.len(),
{
    if ids.len() > 0 {
        let r = ids.drop_last();
        assert(!r.contains(x)) by {
            if r.contains(x) {
                let j = choose|j: int| 0 <= j < r.len() && r[j] == x;
                assert(ids[j] == x);
            }
        }
        lemma_diff_removes_commute(q, x, d, r);
        assert(ids[ids.len() - 1] == ids.last());
        crate::index::lemma_removes_keep_keyed(q, r);
        lemma_diff_remove_commute(q.with_entities_removed(r), x, d, ids.last());
    }
}

/// Applying diffs to entities and removing other entities commute.
pub proof fn lemma_diffs_removes_commute(q: PoolView, ds: Seq<(EntityId, DiffView)>, ids: Seq<EntityId>)
    requires
        q.well_keyed(),
        forall|i: int| 0 <= i < ds.len() ==> !ids.contains(#[trigger] ds[i].0),
    ensures
        q.with_diffs_applied(ds).with_entities_removed(ids) == q.with_entities_removed(ids).with_diffs_applied(ds),
    decreases ds.len(),
{
    if ds.len() > 0 {
        let r = ds.drop_last();
        assert forall|i: int| 0 <= i < r.len() implies !ids.contains(#[trigger] r[i].0) by {
            assert(r[i] == ds[i]);
        }
        lemma_diffs_removes_commute(q, r, ids);
        assert(ds[ds.len() - 1] == ds.last());
        crate::index::lemma_diffs_keep_keyed(q, r);
        lemma_diff_removes_commute(q.with_diffs_applied(r), ds.last().0, ds.last().1, ids);
    }
}

/// Applying diffs in two batches is applying them in one.
pub proof fn lemma_diffs_concat(q: PoolView, a: Seq<(EntityId, DiffView)>, b: Seq<(EntityId, DiffView)>)
    ensures
        q.with_diffs_applied(a + b) == q.with_diffs_applied(a).with_diffs_applied(b),
    decreases b.len(),
{
    if b.len() == 0 {
        assert(a + b =~= a);
    } else {
        lemma_diffs_concat(q, a, b.drop_last());
        assert((a + b).drop_last() =~= a + b.drop_last());
        assert((a + b).last() == b.last());
    }
}

/// The keys of the property upserts of every diff of `ds` are pairwise different.
pub open spec fn upserts_distinct(ds: Seq<(EntityId, DiffView)>) -> bool {
    forall|i: int| 0 <= i < ds.len() ==> crate::delta::keys_distinct(#[trigger] ds[i].1.upserted)
}

/// Merging in diffs for keys that `s` does not hold, pairwise different and
/// each with distinct property keys, appends them.
pub proof fn lemma_merge_diffs_fresh(s: Seq<(EntityId, DiffView)>, t: Seq<(EntityId, DiffView)>)
    requires
        forall|i: int| 0 <= i < t.len() ==> !has_key(s, #[trigger] t[i].0),
        forall|i: int, j: int| #![trigger t[i], t[j]] 0 <= i < j < t.len() ==> t[i].0 != t[j].0,
        upserts_distinct(t),
    ensures
        merge_diffs(s, t) == s + t,
    decreases t.len(),
{
    if t.len() == 0 {
        assert(s + t =~= s);
    } else {
        let r = t.drop_last();
        assert forall|i: int| 0 <= i < r.len() implies !has_key(s, #[trigger] r[i].0) by {
            assert(r[i] == t[i]);
        }
        assert forall|i: int, j: int| #![trigger r[i], r[j]] 0 <= i < j < r.len() implies r[i].0 != r[j].0 by {
            assert(r[i] == t[i] && r[j] == t[j]);
        }
        assert forall|i: int| 0 <= i < r.len() implies crate::delta::keys_distinct(#[trigger] r[i].1.upserted) by {
            assert(r[i] == t[i]);
        }
        lemma_merge_diffs_fresh(s, r);
        let (k, d) = t.last();
        assert(t[t.len() - 1] == t.last());
        assert(!has_key(s + r, k)) by {
            if has_key(s + r, k) {
                let i = choose|i: int| 0 <= i < (s + r).len() && (s + r)[i].0 == k;
                if i < s.len() {
                    assert(s[i].0 == k);
                } else {
                    assert(r[i - s.len()] == t[i - s.len()]);
                }
            }
        }
        lemma_first_index(s + r, k);
        assert(crate::delta::keys_distinct(d.upserted));
        assert forall|i: int| 0 <= i < d.upserted.len() implies !has_key(
            Seq::<(Seq<char>, crate::value::ValueModel)>::empty(),
            #[trigger] d.upserted[i].0,
        ) by {}
        lemma_puts_all_fresh_text(Seq::empty(), d.upserted);
        assert(Seq::<(Seq<char>, crate::value::ValueModel)>::empty() + d.upserted =~= d.upserted);
        assert(DiffView::empty().props_removed + d.props_removed =~= d.props_removed);
        assert(DiffView::empty().rels_added + d.rels_added =~= d.rels_added);
        assert(DiffView::empty().rels_removed + d.rels_removed =~= d.rels_removed);
        assert(DiffView::empty().roles_added + d.roles_added =~= d.roles_added);
        assert(DiffView::empty().roles_removed + d.roles_removed =~= d.roles_removed);
        assert(DiffView::empty().merged(d) == d);
        assert(s + t =~= (s + r).push(t.last()));
    }
}

/// Putting text-keyed pairs under keys that are new and pairwise different appends them.
pub proof fn lemma_puts_all_fresh_text(
    s: Seq<(Seq<char>, crate::value::ValueModel)>,
    t: Seq<(Seq<char>, crate::value::ValueModel)>,
)
    requires
        forall|i: int| 0 <= i < t.len() ==> !has_key(s, #[trigger] t[i].0),
        crate::delta::keys_distinct(t),
    ensures
        puts_all(s, t) == s + t,
    decreases t.len(),
{
    if t.len() == 0 {
        assert(s + t =~= s);
    } else {
        let r = t.drop_last();
        assert forall|i: int| 0 <= i < r.len() implies !has_key(s, #[trigger] r[i].0) by {
            assert(r[i] == t[i]);
        }
        assert forall|i: int, j: int| #![trigger r[i], r[j]] 0 <= i < j < r.len() implies r[i].0 != r[j].0 by {
            assert(r[i] == t[i] && r[j] == t[j]);
        }
        lemma_puts_all_fresh_text(s, r);
        let k = t.last().0;
        assert(t[t.len() - 1] == t.last());
        assert(!has_key(s + r, k)) by {
            if has_key(s + r, k) {
                let i = choose|i: int| 0 <= i < (s + r).len() && (s + r)[i].0 == k;
                if i < s.len() {
                    assert(s[i].0 == k);
                } else {
                    assert(r[i - s.len()] == t[i - s.len()]);
                }
            }
        }
        lemma_first_index(s + r, k);
        assert(s + t =~= (s + r).push(t.last()));
    }
}

/// A delta that only patches entities, one diff per entity, each diff with
/// distinct property keys.
pub open spec fn patches_only(b: DeltaView) -> bool {
    &&& b.added.len() == 0
    &&& b.removed.len() == 0
    &&& b.events.len() == 0
    &&& crate::delta::keys_distinct(b.modified)
    &&& upserts_distinct(b.modified)
}

/// The entities that `b` patches are neither patched nor removed by `a`.
pub open spec fn patches_apart(a: DeltaView, b: DeltaView) -> bool {
    forall|i: int|
        0 <= i < b.modified.len() ==> !has_key(a.modified, #[trigger] b.modified[i].0) && !a.removed.contains(
            b.modified[i].0,
        )
}

/// Applying a delta and then one that only patches entities the first neither
/// patches nor removes is applying their merge, on a pool that stores each
/// entity once under its own ID.
pub proof fn law_merge_patches(p: PoolView, a: DeltaView, b: DeltaView)
    requires
        p.well_keyed(),
        patches_only(b),
        patches_apart(a, b),
    ensures
        p.with_delta(a).with_delta(b) == p.with_delta(a.merged(b)),
{
    assert forall|i: int, j: int| #![trigger b.modified[i], b.modified[j]] 0 <= i < j < b.modified.len() implies b.modified[i].0
        != b.modified[j].0 by {}
    lemma_merge_diffs_fresh(a.modified, b.modified);
    lemma_filter_absent_keeps(a.removed, b.added);
    let m = a.merged(b);
    assert(m.added == a.added);
    assert(m.removed == a.removed);
    crate::index::lemma_adds_keep_keyed(p, a.added);
    let q = p.with_entities_added(a.added);
    lemma_diffs_concat(q, a.modified, b.modified);
    crate::index::lemma_diffs_keep_keyed(q, a.modified);
    let qd = q.with_diffs_applied(a.modified);
    lemma_diffs_removes_commute(qd, b.modified, a.removed);
    assert(p.with_delta(a).with_delta(b) == p.with_delta(a).with_diffs_applied(b.modified));
}

/// Every tendency correction that fires either only spawns entities under
/// fresh IDs, or only patches entities that the step's delta so far does not
/// remove, each patch either of an entity that delta does not patch yet or
/// mergeable after its patch there (no property set that it removes, no role
/// given that it takes, relationships left alone).
pub open spec fn corrections_fit(
    base: PoolView,
    p: PoolView,
    d: DeltaView,
    ts: Seq<TendencyView>,
    idss: Seq<Seq<EntityId>>,
) -> bool
    decreases ts.len(),
{
    ts.len() > 0 ==> {
        let prev = tendencies_applied(p, d, ts.drop_last(), idss.drop_last());
        &&& corrections_fit(base, p, d, ts.drop_last(), idss.drop_last())
        &&& match generated(ts.last(), prev.0, idss.last()) {
            Some(td) => (spawns_only(td) && spawns_fresh(base, prev.1, td)) || (patches_only(td) && (
            patches_apart(prev.1, td) || crate::compose::patches_compatible(prev.1, td))),
            None => true,
        }
    }
}

/// When every tendency correction of a step fits (see [`corrections_fit`]), the
/// pool the tendencies worked on, as the last of them left it, is the starting
/// pool with the step's whole delta applied: exactly the live pool that
/// `advance` leaves.
pub proof fn law_fitting_corrections_replay(
    base: PoolView,
    d: DeltaView,
    ts: Seq<TendencyView>,
    idss: Seq<Seq<EntityId>>,
)
    requires
        base.well_keyed(),
        corrections_fit(base, base.with_delta(d), d, ts, idss),
    ensures
        tendencies_applied(base.with_delta(d), d, ts, idss).0 == base.with_delta(
            tendencies_applied(base.with_delta(d), d, ts, idss).1,
        ),
    decreases ts.len(),
{
    if ts.len() > 0 {
        law_fitting_corrections_replay(base, d, ts.drop_last(), idss.drop_last());
        let prev = tendencies_applied(base.with_delta(d), d, ts.drop_last(), idss.drop_last());
        match generated(ts.last(), prev.0, idss.last()) {
            Some(td) => {
                if spawns_only(td) && spawns_fresh(base, prev.1, td) {
                    law_merge_spawns(base, prev.1, td);
                } else if patches_apart(prev.1, td) {
                    law_merge_patches(base, prev.1, td);
                } else {
                    crate::compose::law_merge_compatible_patches(base, prev.1, td);
                }
            },
            None => {},
        }
    }
}

} // verus!
