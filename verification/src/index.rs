//! Laws of the entity pool's bookkeeping: every entity stored once under its
//! own ID, and a role index that lists exactly the entities holding each role.

use vstd::prelude::*;

use crate::assoc::{
    as_map, assoc_drop, assoc_put, has_key, key_differs, lemma_as_map_drop, lemma_filter_member,
    lemma_put_other, lemma_put_same,
};
use crate::delta::{keys_distinct, DeltaView, DiffView};
use crate::entity::{lemma_distinct_lookup, lemma_put_members, patched, EntityView, PoolView};
use crate::types::EntityId;

verus! {

impl PoolView {
    /// The role index lists an ID under a role exactly when an entity is stored
    /// under that ID and has the role.
    pub open spec fn index_consistent(self) -> bool {
        forall|r: Seq<char>, id: EntityId|
            #[trigger] self.index[r].contains(id) <==> (self.has(id) && self.entity(id).roles.contains(r))
    }

    /// The living entities that have `role`, in storage order.
    pub open spec fn holders(self, role: Seq<char>) -> Seq<EntityView> {
        self.entries.filter(|p: (EntityId, EntityView)| p.1.roles.contains(role) && p.1.alive).map_values(
            |p: (EntityId, EntityView)| p.1,
        )
    }
}

/// Two filters that agree on every element keep the same elements.
pub proof fn lemma_filter_agree<A>(s: Seq<A>, f: spec_fn(A) -> bool, g: spec_fn(A) -> bool)
    requires
        forall|i: int| 0 <= i < s.len() ==> f(#[trigger] s[i]) == g(s[i]),
    ensures
        s.filter(f) == s.filter(g),
    decreases s.len(),
{
    reveal_with_fuel(Seq::filter, 1);
    if s.len() > 0 {
        let r = s.drop_last();
        assert forall|i: int| 0 <= i < r.len() implies f(#[trigger] r[i]) == g(r[i]) by {
            assert(r[i] == s[i]);
        }
        lemma_filter_agree(r, f, g);
        assert(f(s[s.len() - 1]) == g(s[s.len() - 1]));
    }
}

/// Putting a pair keeps keys distinct.
pub proof fn lemma_put_distinct<K, V>(s: Seq<(K, V)>, k: K, v: V)
    requires
        keys_distinct(s),
    ensures
        keys_distinct(assoc_put(s, k, v)),
{
    crate::assoc::lemma_first_index(s, k);
    let t = assoc_put(s, k, v);
    assert forall|i: int, j: int| #![trigger t[i], t[j]] 0 <= i < j < t.len() implies t[i].0 != t[j].0 by {
        if !has_key(s, k) {
            if j == s.len() {
                assert(t[i] == s[i]);
                assert(s[i].0 != k);
            } else {
                assert(t[i] == s[i] && t[j] == s[j]);
            }
        } else {
            let fi = crate::assoc::first_index(s, k);
            assert(s[fi].0 == k);
            if i == fi {
                assert(t[j] == s[j]);
            } else if j == fi {
                assert(t[i] == s[i]);
            } else {
                assert(t[i] == s[i] && t[j] == s[j]);
            }
        }
    }
}

/// Filtering keeps keys distinct.
pub proof fn lemma_filter_distinct<K, V>(s: Seq<(K, V)>, f: spec_fn((K, V)) -> bool)
    requires
        keys_distinct(s),
    ensures
        keys_distinct(s.filter(f)),
    decreases s.len(),
{
    reveal_with_fuel(Seq::filter, 1);
    if s.len() > 0 {
        let r = s.drop_last();
        assert forall|i: int, j: int| #![trigger r[i], r[j]] 0 <= i < j < r.len() implies r[i].0 != r[j].0 by {
            assert(r[i] == s[i] && r[j] == s[j]);
        }
        lemma_filter_distinct(r, f);
        let rf = r.filter(f);
        if f(s.last()) {
            let t = rf.push(s.last());
            assert forall|i: int, j: int| #![trigger t[i], t[j]] 0 <= i < j < t.len() implies t[i].0 != t[j].0 by {
                if j == rf.len() {
                    assert(rf.contains(rf[i]));
                    lemma_filter_member(r, f, rf[i]);
                    let m = choose|m: int| 0 <= m < r.len() && r[m] == rf[i];
                    assert(s[m] == rf[i]);
                    assert(s[s.len() - 1] == s.last());
                } else {
                    assert(t[i] == rf[i] && t[j] == rf[j]);
                }
            }
        }
    }
}

/// Every pair of a filtered sequence is a pair of the sequence.
pub proof fn lemma_filter_keyed<V>(s: Seq<(EntityId, V)>, f: spec_fn((EntityId, V)) -> bool, i: int)
    requires
        0 <= i < s.filter(f).len(),
    ensures
        s.contains(s.filter(f)[i]),
{
    assert(s.filter(f).contains(s.filter(f)[i]));
    lemma_filter_member(s, f, s.filter(f)[i]);
}

/// Adding an entity keeps every entity stored once under its own ID.
pub proof fn lemma_add_keeps_keyed(p: PoolView, e: EntityView)
    requires
        p.well_keyed(),
    ensures
        p.with_entity_added(e).well_keyed(),
{
    let t = assoc_put(p.entries, e.id, e);
    lemma_put_distinct(p.entries, e.id, e);
    assert forall|i: int| 0 <= i < t.len() implies #[trigger] t[i].1.id == t[i].0 by {
        assert(t.contains(t[i]));
        lemma_put_members(p.entries, e.id, e, t[i]);
        if t[i] != (e.id, e) {
            let j = choose|j: int| 0 <= j < p.entries.len() && p.entries[j] == t[i];
        }
    }
}

/// Removing an entity keeps every entity stored once under its own ID.
pub proof fn lemma_remove_keeps_keyed(p: PoolView, id: EntityId)
    requires
        p.well_keyed(),
    ensures
        p.with_entity_removed(id).well_keyed(),
{
    if p.has(id) {
        let t = assoc_drop(p.entries, id);
        lemma_filter_distinct(p.entries, key_differs(id));
        assert forall|i: int| 0 <= i < t.len() implies #[trigger] t[i].1.id == t[i].0 by {
            lemma_filter_keyed(p.entries, key_differs(id), i);
            let j = choose|j: int| 0 <= j < p.entries.len() && p.entries[j] == t[i];
        }
    }
}

/// Replacing a stored entity by one with the same ID keeps every entity stored
/// once under its own ID.
pub proof fn lemma_replace_keeps_keyed(p: PoolView, id: EntityId, e: EntityView)
    requires
        p.well_keyed(),
        e.id == id,
    ensures
        (PoolView { entries: assoc_put(p.entries, id, e), ..p }).well_keyed(),
        forall|q: PoolView| q.entries == assoc_put(p.entries, id, e) ==> #[trigger] q.well_keyed(),
{
    let t = assoc_put(p.entries, id, e);
    lemma_put_distinct(p.entries, id, e);
    assert forall|i: int| 0 <= i < t.len() implies #[trigger] t[i].1.id == t[i].0 by {
        assert(t.contains(t[i]));
        lemma_put_members(p.entries, id, e, t[i]);
        if t[i] != (id, e) {
            let j = choose|j: int| 0 <= j < p.entries.len() && p.entries[j] == t[i];
        }
    }
}

/// A stored entity carries the ID it is stored under.
pub proof fn lemma_stored_id(p: PoolView, id: EntityId)
    requires
        p.well_keyed(),
        p.has(id),
    ensures
        p.entity(id).id == id,
{
    crate::assoc::lemma_first_index(p.entries, id);
    let i = crate::assoc::first_index(p.entries, id);
    assert(p.entries[i].1.id == p.entries[i].0);
}

/// Changing the roles of the entity under `id` keeps every entity stored once under its own ID.
pub proof fn lemma_roles_keep_keyed(p: PoolView, id: EntityId, roles: Seq<Seq<char>>, add: bool)
    requires
        p.well_keyed(),
    ensures
        p.with_roles(id, roles, add).well_keyed(),
    decreases roles.len(),
{
    if roles.len() > 0 {
        lemma_roles_keep_keyed(p, id, roles.drop_last(), add);
        let q = p.with_roles(id, roles.drop_last(), add);
        if q.has(id) {
            lemma_stored_id(q, id);
            let e = q.entity(id);
            let e2 = EntityView {
                roles: if add {
                    e.roles.insert(roles.last())
                } else {
                    e.roles.remove(roles.last())
                },
                ..e
            };
            lemma_replace_keeps_keyed(q, id, e2);
        }
    }
}

/// Applying a delta keeps every entity stored once under its own ID.
pub proof fn law_apply_delta_keeps_keyed(p: PoolView, d: DeltaView)
    requires
        p.well_keyed(),
    ensures
        p.with_delta(d).well_keyed(),
{
    lemma_adds_keep_keyed(p, d.added);
    let p1 = p.with_entities_added(d.added);
    lemma_diffs_keep_keyed(p1, d.modified);
    lemma_removes_keep_keyed(p1.with_diffs_applied(d.modified), d.removed);
}

pub proof fn lemma_adds_keep_keyed(p: PoolView, es: Seq<(EntityId, EntityView)>)
    requires
        p.well_keyed(),
    ensures
        p.with_entities_added(es).well_keyed(),
    decreases es.len(),
{
    if es.len() > 0 {
        lemma_adds_keep_keyed(p, es.drop_last());
        lemma_add_keeps_keyed(p.with_entities_added(es.drop_last()), es.last().1);
    }
}

pub proof fn lemma_diffs_keep_keyed(p: PoolView, ds: Seq<(EntityId, DiffView)>)
    requires
        p.well_keyed(),
    ensures
        p.with_diffs_applied(ds).well_keyed(),
    decreases ds.len(),
{
    if ds.len() > 0 {
        lemma_diffs_keep_keyed(p, ds.drop_last());
        let q = p.with_diffs_applied(ds.drop_last());
        let (id, d) = ds.last();
        let q1 = if q.has(id) {
            PoolView { entries: assoc_put(q.entries, id, patched(q.entity(id), d)), ..q }
        } else {
            q
        };
        if q.has(id) {
            lemma_stored_id(q, id);
            lemma_replace_keeps_keyed(q, id, patched(q.entity(id), d));
        }
        lemma_roles_keep_keyed(q1, id, d.roles_added, true);
        lemma_roles_keep_keyed(q1.with_roles(id, d.roles_added, true), id, d.roles_removed, false);
    }
}

pub proof fn lemma_removes_keep_keyed(p: PoolView, ids: Seq<EntityId>)
    requires
        p.well_keyed(),
    ensures
        p.with_entities_removed(ids).well_keyed(),
    decreases ids.len(),
{
    if ids.len() > 0 {
        lemma_removes_keep_keyed(p, ids.drop_last());
        lemma_remove_keeps_keyed(p.with_entities_removed(ids.drop_last()), ids.last());
    }
}

/// Adding an entity, new or replacing the one stored under its ID, keeps the
/// role index exact.
pub proof fn lemma_add_keeps_index(p: PoolView, e: EntityView)
    requires
        p.index_consistent(),
    ensures
        p.with_entity_added(e).index_consistent(),
{
    let q = p.with_entity_added(e);
    lemma_put_same(p.entries, e.id, e);
    assert forall|r: Seq<char>, id: EntityId| #[trigger] q.index[r].contains(id) <==> (q.has(id) && q.entity(
        id,
    ).roles.contains(r)) by {
        if id != e.id {
            lemma_put_other(p.entries, e.id, e, id);
            assert(p.index[r].contains(id) <==> (p.has(id) && p.entity(id).roles.contains(r)));
        } else {
            assert(p.index[r].contains(id) <==> (p.has(id) && p.entity(id).roles.contains(r)));
        }
    }
}

/// Removing an entity keeps the role index exact.
pub proof fn lemma_remove_keeps_index(p: PoolView, id0: EntityId)
    requires
        p.index_consistent(),
    ensures
        p.with_entity_removed(id0).index_consistent(),
{
    if p.has(id0) {
        let q = p.with_entity_removed(id0);
        lemma_as_map_drop(p.entries, id0);
        assert forall|r: Seq<char>, id: EntityId| #[trigger] q.index[r].contains(id) <==> (q.has(id)
            && q.entity(id).roles.contains(r)) by {
            assert(as_map(q.entries).dom().contains(id) == (as_map(p.entries).dom().contains(id) && id != id0));
            assert(p.index[r].contains(id) <==> (p.has(id) && p.entity(id).roles.contains(r)));
        }
    }
}

/// Giving or taking a role through the pool keeps the role index exact.
pub proof fn lemma_role_keeps_index(p: PoolView, id0: EntityId, role: Seq<char>, add: bool)
    requires
        p.index_consistent(),
    ensures
        p.with_role(id0, role, add).index_consistent(),
{
    if p.has(id0) {
        let q = p.with_role(id0, role, add);
        let e = p.entity(id0);
        let e2 = EntityView {
            roles: if add {
                e.roles.insert(role)
            } else {
                e.roles.remove(role)
            },
            ..e
        };
        lemma_put_same(p.entries, id0, e2);
        assert forall|r: Seq<char>, id: EntityId| #[trigger] q.index[r].contains(id) <==> (q.has(id)
            && q.entity(id).roles.contains(r)) by {
            assert(p.index[r].contains(id) <==> (p.has(id) && p.entity(id).roles.contains(r)));
            if id != id0 {
                lemma_put_other(p.entries, id0, e2, id);
            }
        }
    }
}

/// Giving or taking several roles keeps the role index exact.
pub proof fn lemma_roles_keep_index(p: PoolView, id: EntityId, roles: Seq<Seq<char>>, add: bool)
    requires
        p.index_consistent(),
    ensures
        p.with_roles(id, roles, add).index_consistent(),
    decreases roles.len(),
{
    if roles.len() > 0 {
        lemma_roles_keep_index(p, id, roles.drop_last(), add);
        lemma_role_keeps_index(p.with_roles(id, roles.drop_last(), add), id, roles.last(), add);
    }
}

/// Applying one diff keeps the role index exact.
pub proof fn lemma_diff_keeps_index(p: PoolView, id0: EntityId, d: DiffView)
    requires
        p.index_consistent(),
    ensures
        p.with_diff_applied(id0, d).index_consistent(),
{
    let p1 = if p.has(id0) {
        PoolView { entries: assoc_put(p.entries, id0, patched(p.entity(id0), d)), ..p }
    } else {
        p
    };
    if p.has(id0) {
        let e2 = patched(p.entity(id0), d);
        lemma_put_same(p.entries, id0, e2);
        assert forall|r: Seq<char>, id: EntityId| #[trigger] p1.index[r].contains(id) <==> (p1.has(id)
            && p1.entity(id).roles.contains(r)) by {
            assert(p.index[r].contains(id) <==> (p.has(id) && p.entity(id).roles.contains(r)));
            if id != id0 {
                lemma_put_other(p.entries, id0, e2, id);
            }
        }
    }
    lemma_roles_keep_index(p1, id0, d.roles_added, true);
    lemma_roles_keep_index(p1.with_roles(id0, d.roles_added, true), id0, d.roles_removed, false);
}

/// After adding entities, an ID is stored when it was stored before or is the ID
/// of one of the added entities.
pub proof fn lemma_adds_has(p: PoolView, es: Seq<(EntityId, EntityView)>, x: EntityId)
    ensures
        p.with_entities_added(es).has(x) <==> (p.has(x) || exists|j: int| 0 <= j < es.len() && #[trigger] es[j].1.id == x),
    decreases es.len(),
{
    if es.len() > 0 {
        let r = es.drop_last();
        lemma_adds_has(p, r, x);
        let q = p.with_entities_added(r);
        let e = es.last().1;
        if x == e.id {
            lemma_put_same(q.entries, e.id, e);
            assert(es[es.len() - 1].1.id == x);
        } else {
            lemma_put_other(q.entries, e.id, e, x);
            if exists|j: int| 0 <= j < es.len() && #[trigger] es[j].1.id == x {
                let j = choose|j: int| 0 <= j < es.len() && #[trigger] es[j].1.id == x;
                assert(j < es.len() - 1);
                assert(r[j].1.id == x);
            }
            if exists|j: int| 0 <= j < r.len() && #[trigger] r[j].1.id == x {
                let j = choose|j: int| 0 <= j < r.len() && #[trigger] r[j].1.id == x;
                assert(es[j].1.id == x);
            }
        }
    }
}

/// Adding entities keeps the role index exact.
pub proof fn lemma_adds_keep_index(p: PoolView, es: Seq<(EntityId, EntityView)>)
    requires
        p.index_consistent(),
    ensures
        p.with_entities_added(es).index_consistent(),
    decreases es.len(),
{
    if es.len() > 0 {
        lemma_adds_keep_index(p, es.drop_last());
        lemma_add_keeps_index(p.with_entities_added(es.drop_last()), es.last().1);
    }
}

proof fn lemma_diffs_keep_index(p: PoolView, ds: Seq<(EntityId, DiffView)>)
    requires
        p.index_consistent(),
    ensures
        p.with_diffs_applied(ds).index_consistent(),
    decreases ds.len(),
{
    if ds.len() > 0 {
        lemma_diffs_keep_index(p, ds.drop_last());
        lemma_diff_keeps_index(p.with_diffs_applied(ds.drop_last()), ds.last().0, ds.last().1);
    }
}

proof fn lemma_removes_keep_index(p: PoolView, ids: Seq<EntityId>)
    requires
        p.index_consistent(),
    ensures
        p.with_entities_removed(ids).index_consistent(),
    decreases ids.len(),
{
    if ids.len() > 0 {
        lemma_removes_keep_index(p, ids.drop_last());
        lemma_remove_keeps_index(p.with_entities_removed(ids.drop_last()), ids.last());
    }
}

/// Applying a delta keeps the role index exact, whatever entities it adds
/// (new ones, or ones replacing those stored under their IDs), patches or
/// removes.
pub proof fn law_apply_delta_keeps_index(p: PoolView, d: DeltaView)
    requires
        p.index_consistent(),
    ensures
        p.with_delta(d).index_consistent(),
{
    lemma_adds_keep_index(p, d.added);
    let p1 = p.with_entities_added(d.added);
    lemma_diffs_keep_index(p1, d.modified);
    lemma_removes_keep_index(p1.with_diffs_applied(d.modified), d.removed);
}

/// With an exact role index, the role query answers with the living entities
/// that have the role, in storage order; so a role is vacant exactly when no
/// living entity has it.
pub proof fn law_role_query_exact(p: PoolView, role: Seq<char>)
    requires
        p.well_keyed(),
        p.index_consistent(),
    ensures
        p.role_members(role) == p.holders(role),
{
    let f = |q: (EntityId, EntityView)| p.index[role].contains(q.0) && q.1.alive;
    let g = |q: (EntityId, EntityView)| q.1.roles.contains(role) && q.1.alive;
    assert forall|i: int| 0 <= i < p.entries.len() implies f(#[trigger] p.entries[i]) == g(p.entries[i]) by {
        lemma_distinct_lookup(p.entries, i);
        assert(p.index[role].contains(p.entries[i].0) <==> (p.has(p.entries[i].0) && p.entity(
            p.entries[i].0,
        ).roles.contains(role)));
    }
    lemma_filter_agree(p.entries, f, g);
}

/// A new pool is well keyed and its role index is exact.
pub proof fn law_empty_pool_consistent()
    ensures
        PoolView::empty().well_keyed(),
        PoolView::empty().index_consistent(),
{
    assert forall|r: Seq<char>, id: EntityId| #[trigger] PoolView::empty().index[r].contains(id) <==> (
    PoolView::empty().has(id) && PoolView::empty().entity(id).roles.contains(r)) by {}
}

} // verus!
