//! Laws of composing diffs: applying two diffs to one entity in turn is
//! applying their merge when the later one neither sets a property the earlier
//! one removes nor gives a role the earlier one takes, and leaves relationships
//! alone; diffs to different entities commute.

use vstd::prelude::*;

use crate::assoc::{as_map, assoc_put, first_index, has_key, lemma_first_index, lemma_put_other, lemma_put_same};
use crate::delta::{keys_distinct, puts_all, DiffView};
use crate::entity::{
    patched, properties_dropped, properties_put, relationships_added, relationships_removed, EntityView,
    PoolView,
};
use crate::merge::{lemma_put_rewrites, put_at};
use crate::types::EntityId;
use crate::value::ValueModel;

verus! {

/// Putting twice under one key is putting the second value.
pub proof fn lemma_put_twice<K, V>(s: Seq<(K, V)>, k: K, v1: V, v2: V)
    ensures
        assoc_put(assoc_put(s, k, v1), k, v2) == assoc_put(s, k, v2),
{
    lemma_first_index(s, k);
    let t = assoc_put(s, k, v1);
    if has_key(s, k) {
        let fi = first_index(s, k);
        assert forall|m: int| 0 <= m < fi implies t[m].0 != k by {
            assert(t[m] == s[m]);
        }
        crate::assoc::lemma_first_index_at(t, k, fi);
        assert(assoc_put(t, k, v2) =~= assoc_put(s, k, v2));
    } else {
        assert forall|m: int| 0 <= m < s.len() implies t[m].0 != k by {
            assert(t[m] == s[m]);
        }
        crate::assoc::lemma_first_index_at(t, k, s.len() as int);
        assert(assoc_put(t, k, v2) =~= assoc_put(s, k, v2));
    }
}

/// With distinct keys, putting under two different stored keys commutes.
pub proof fn lemma_put_put_commute(
    s: Seq<(EntityId, EntityView)>,
    x: EntityId,
    vx: EntityView,
    y: EntityId,
    vy: EntityView,
)
    requires
        keys_distinct(s),
        has_key(s, x),
        has_key(s, y),
        x != y,
    ensures
        assoc_put(assoc_put(s, x, vx), y, vy) == assoc_put(assoc_put(s, y, vy), x, vx),
        keys_distinct(assoc_put(s, x, vx)),
        has_key(assoc_put(s, x, vx), y),
{
    crate::index::lemma_put_distinct(s, x, vx);
    crate::index::lemma_put_distinct(s, y, vy);
    lemma_put_other(s, x, vx, y);
    lemma_put_other(s, y, vy, x);
    lemma_put_rewrites(s, x, vx);
    lemma_put_rewrites(s, y, vy);
    lemma_put_rewrites(assoc_put(s, x, vx), y, vy);
    lemma_put_rewrites(assoc_put(s, y, vy), x, vx);
    assert(assoc_put(assoc_put(s, x, vx), y, vy) =~= assoc_put(assoc_put(s, y, vy), x, vx));
}

/// The entity with `role` given (or taken).
pub open spec fn role_changed(e: EntityView, role: Seq<char>, add: bool) -> EntityView {
    EntityView {
        roles: if add {
            e.roles.insert(role)
        } else {
            e.roles.remove(role)
        },
        ..e
    }
}

/// The pool with the entity under `x` patched by `d` (properties,
/// relationships, liveness), when one is stored there.
pub open spec fn patched_at(q: PoolView, x: EntityId, d: DiffView) -> PoolView {
    if q.has(x) {
        PoolView { entries: assoc_put(q.entries, x, patched(q.entity(x), d)), ..q }
    } else {
        q
    }
}

/// Patching and giving or taking a role of the same entity commute.
pub proof fn lemma_patch_role_commute(q: PoolView, x: EntityId, d: DiffView, role: Seq<char>, add: bool)
    ensures
        patched_at(q, x, d).with_role(x, role, add) == patched_at(q.with_role(x, role, add), x, d),
        patched_at(q, x, d).has(x) == q.has(x),
        q.with_role(x, role, add).has(x) == q.has(x),
{
    if q.has(x) {
        let e = q.entity(x);
        lemma_put_same(q.entries, x, patched(e, d));
        lemma_put_same(q.entries, x, role_changed(e, role, add));
        lemma_put_twice(q.entries, x, patched(e, d), role_changed(patched(e, d), role, add));
        lemma_put_twice(q.entries, x, role_changed(e, role, add), patched(role_changed(e, role, add), d));
        assert(role_changed(patched(e, d), role, add) == patched(role_changed(e, role, add), d));
    }
}

/// Patching an entity and changing several of its roles commute.
pub proof fn lemma_patch_roles_commute(q: PoolView, x: EntityId, d: DiffView, roles: Seq<Seq<char>>, add: bool)
    ensures
        patched_at(q, x, d).with_roles(x, roles, add) == patched_at(q.with_roles(x, roles, add), x, d),
        q.with_roles(x, roles, add).has(x) == q.has(x),
    decreases roles.len(),
{
    if roles.len() > 0 {
        lemma_patch_roles_commute(q, x, d, roles.drop_last(), add);
        lemma_patch_role_commute(q.with_roles(x, roles.drop_last(), add), x, d, roles.last(), add);
    }
}

/// Giving one role and taking another from the same entity commute.
pub proof fn lemma_give_take_commute(q: PoolView, x: EntityId, r: Seq<char>, s: Seq<char>)
    requires
        r != s,
    ensures
        q.with_role(x, r, true).with_role(x, s, false) == q.with_role(x, s, false).with_role(x, r, true),
{
    if q.has(x) {
        let e = q.entity(x);
        let a = q.with_role(x, r, true);
        let b = q.with_role(x, s, false);
        lemma_put_same(q.entries, x, role_changed(e, r, true));
        lemma_put_same(q.entries, x, role_changed(e, s, false));
        lemma_put_twice(q.entries, x, role_changed(e, r, true), role_changed(role_changed(e, r, true), s, false));
        lemma_put_twice(q.entries, x, role_changed(e, s, false), role_changed(role_changed(e, s, false), r, true));
        assert(role_changed(role_changed(e, r, true), s, false).roles =~= role_changed(
            role_changed(e, s, false),
            r,
            true,
        ).roles);
        let lhs = a.with_role(x, s, false);
        let rhs = b.with_role(x, r, true);
        assert(lhs.entries == rhs.entries);
        assert(lhs.index =~= rhs.index);
    }
}

/// Giving a role and taking several others from the same entity commute.
pub proof fn lemma_give_takes_commute(q: PoolView, x: EntityId, r: Seq<char>, ss: Seq<Seq<char>>)
    requires
        !ss.contains(r),
    ensures
        q.with_role(x, r, true).with_roles(x, ss, false) == q.with_roles(x, ss, false).with_role(x, r, true),
    decreases ss.len(),
{
    if ss.len() > 0 {
        let t = ss.drop_last();
        assert(!t.contains(r)) by {
            if t.contains(r) {
                let j = choose|j: int| 0 <= j < t.len() && t[j] == r;
                assert(ss[j] == r);
            }
        }
        lemma_give_takes_commute(q, x, r, t);
        assert(ss[ss.len() - 1] == ss.last());
        lemma_give_take_commute(q.with_roles(x, t, false), x, r, ss.last());
    }
}

/// Giving several roles and taking several others from the same entity commute.
pub proof fn lemma_gives_takes_commute(q: PoolView, x: EntityId, rs: Seq<Seq<char>>, ss: Seq<Seq<char>>)
    requires
        forall|i: int| 0 <= i < rs.len() ==> !ss.contains(#[trigger] rs[i]),
    ensures
        q.with_roles(x, rs, true).with_roles(x, ss, false) == q.with_roles(x, ss, false).with_roles(x, rs, true),
    decreases rs.len(),
{
    if rs.len() > 0 {
        let t = rs.drop_last();
        assert forall|i: int| 0 <= i < t.len() implies !ss.contains(#[trigger] t[i]) by {
            assert(t[i] == rs[i]);
        }
        lemma_gives_takes_commute(q, x, t, ss);
        assert(rs[rs.len() - 1] == rs.last());
        lemma_give_takes_commute(q.with_roles(x, t, true), x, rs.last(), ss);
    }
}

/// Changing roles in two batches is changing them in one.
pub proof fn lemma_roles_concat(q: PoolView, x: EntityId, a: Seq<Seq<char>>, b: Seq<Seq<char>>, add: bool)
    ensures
        q.with_roles(x, a + b, add) == q.with_roles(x, a, add).with_roles(x, b, add),
    decreases b.len(),
{
    if b.len() == 0 {
        assert(a + b =~= a);
    } else {
        lemma_roles_concat(q, x, a, b.drop_last(), add);
        assert((a + b).drop_last() =~= a + b.drop_last());
        assert((a + b).last() == b.last());
    }
}

/// Setting the pairs of `s` in order, with distinct keys, sets each key of `s` to its value.
pub proof fn lemma_properties_put_map(m: Map<Seq<char>, ValueModel>, s: Seq<(Seq<char>, ValueModel)>)
    requires
        keys_distinct(s),
    ensures
        properties_put(m, s) == m.union_prefer_right(as_map(s)),
    decreases s.len(),
{
    if s.len() == 0 {
        assert(as_map(s) =~= Map::<Seq<char>, ValueModel>::empty()) by {
            assert forall|k: Seq<char>| !has_key(s, k) by {}
        }
        assert(m.union_prefer_right(as_map(s)) =~= m);
    } else {
        crate::delta::lemma_distinct_last(s);
        lemma_properties_put_map(m, s.drop_last());
        assert(properties_put(m, s) =~= m.union_prefer_right(as_map(s)));
    }
}

/// Removing the keys of `ks` in order removes all of them.
pub proof fn lemma_properties_dropped_map(m: Map<Seq<char>, ValueModel>, ks: Seq<Seq<char>>)
    ensures
        properties_dropped(m, ks) == m.remove_keys(ks.to_set()),
    decreases ks.len(),
{
    if ks.len() == 0 {
        assert(m.remove_keys(ks.to_set()) =~= m);
    } else {
        lemma_properties_dropped_map(m, ks.drop_last());
        assert(ks =~= ks.drop_last().push(ks.last()));
        crate::assoc::lemma_push_to_set(ks.drop_last(), ks.last());
        assert(properties_dropped(m, ks) =~= m.remove_keys(ks.to_set()));
    }
}

/// Putting pairs one by one keeps keys distinct.
pub proof fn lemma_puts_all_distinct<K, V>(s: Seq<(K, V)>, t: Seq<(K, V)>)
    requires
        keys_distinct(s),
    ensures
        keys_distinct(puts_all(s, t)),
    decreases t.len(),
{
    if t.len() > 0 {
        lemma_puts_all_distinct(s, t.drop_last());
        crate::index::lemma_put_distinct(puts_all(s, t.drop_last()), t.last().0, t.last().1);
    }
}

/// The later diff of a pair that can be merged: it leaves relationships alone,
/// sets no property the earlier one removes, and gives no role the earlier one takes.
pub open spec fn composable(a: DiffView, b: DiffView) -> bool {
    &&& keys_distinct(a.upserted)
    &&& keys_distinct(b.upserted)
    &&& b.rels_added.len() == 0
    &&& b.rels_removed.len() == 0
    &&& forall|i: int| 0 <= i < b.upserted.len() ==> !a.props_removed.contains(#[trigger] b.upserted[i].0)
    &&& forall|i: int| 0 <= i < b.roles_added.len() ==> !a.roles_removed.contains(#[trigger] b.roles_added[i])
}

/// Merging composable diffs drops none of the earlier diff's removals: the
/// later diff sets no property, adds no relationship and gives no role that the
/// earlier one removes.
pub proof fn lemma_composable_lists(a: DiffView, b: DiffView)
    requires
        composable(a, b),
    ensures
        a.merged(b).props_removed == a.props_removed + b.props_removed,
        a.merged(b).rels_removed == a.rels_removed + b.rels_removed,
        a.merged(b).roles_removed == a.roles_removed + b.roles_removed,
{
    assert forall|i: int| 0 <= i < a.props_removed.len() implies (crate::assoc::key_absent(b.upserted))(
        #[trigger] a.props_removed[i],
    ) by {
        if has_key(b.upserted, a.props_removed[i]) {
            let j = choose|j: int| 0 <= j < b.upserted.len() && b.upserted[j].0 == a.props_removed[i];
            assert(a.props_removed.contains(b.upserted[j].0));
        }
    }
    crate::tendency::lemma_filter_all(a.props_removed, crate::assoc::key_absent(b.upserted));
    crate::tendency::lemma_filter_all(a.rels_removed, crate::delta::not_listed(b.rels_added));
    assert forall|i: int| 0 <= i < a.roles_removed.len() implies (crate::delta::not_listed(b.roles_added))(
        #[trigger] a.roles_removed[i],
    ) by {
        if b.roles_added.contains(a.roles_removed[i]) {
            let j = choose|j: int| 0 <= j < b.roles_added.len() && b.roles_added[j] == a.roles_removed[i];
            assert(a.roles_removed.contains(b.roles_added[j]));
        }
    }
    crate::tendency::lemma_filter_all(a.roles_removed, crate::delta::not_listed(b.roles_added));
}

/// Patching an entity twice with composable diffs is patching it with their merge.
pub proof fn lemma_patched_twice(e: EntityView, a: DiffView, b: DiffView)
    requires
        composable(a, b),
    ensures
        patched(patched(e, a), b) == patched(e, a.merged(b)),
{
    lemma_composable_lists(a, b);
    let m = a.merged(b);
    lemma_puts_all_distinct(a.upserted, b.upserted);
    crate::delta::lemma_puts_all_map(a.upserted, b.upserted);
    lemma_properties_put_map(e.properties, a.upserted);
    lemma_properties_put_map(e.properties, m.upserted);
    let p1 = properties_dropped(properties_put(e.properties, a.upserted), a.props_removed);
    lemma_properties_dropped_map(properties_put(e.properties, a.upserted), a.props_removed);
    lemma_properties_put_map(p1, b.upserted);
    lemma_properties_dropped_map(properties_put(p1, b.upserted), b.props_removed);
    lemma_properties_dropped_map(properties_put(e.properties, m.upserted), m.props_removed);
    assert(m.props_removed.to_set() =~= a.props_removed.to_set() + b.props_removed.to_set()) by {
        assert forall|k: Seq<char>| #[trigger] m.props_removed.to_set().contains(k) == (a.props_removed.to_set()
            + b.props_removed.to_set()).contains(k) by {
            if m.props_removed.contains(k) {
                let j = choose|j: int| 0 <= j < m.props_removed.len() && m.props_removed[j] == k;
                if j < a.props_removed.len() {
                    assert(a.props_removed[j] == k);
                } else {
                    assert(b.props_removed[j - a.props_removed.len()] == k);
                }
            }
            if a.props_removed.contains(k) {
                let j = choose|j: int| 0 <= j < a.props_removed.len() && a.props_removed[j] == k;
                assert(m.props_removed[j] == k);
            }
            if b.props_removed.contains(k) {
                let j = choose|j: int| 0 <= j < b.props_removed.len() && b.props_removed[j] == k;
                assert(m.props_removed[j + a.props_removed.len()] == k);
            }
        }
    }
    assert forall|k: Seq<char>| #[trigger] as_map(b.upserted).dom().contains(k) implies !a.props_removed.to_set().contains(
        k,
    ) by {
        let j = choose|j: int| 0 <= j < b.upserted.len() && b.upserted[j].0 == k;
        assert(!a.props_removed.contains(b.upserted[j].0));
    }
    assert(patched(patched(e, a), b).properties =~= patched(e, m).properties);
    assert(m.rels_added =~= a.rels_added);
    assert(m.rels_removed =~= a.rels_removed);
}

/// Applying two composable diffs to one entity in turn is applying their merge.
pub proof fn lemma_diff_twice(q: PoolView, x: EntityId, a: DiffView, b: DiffView)
    requires
        composable(a, b),
    ensures
        q.with_diff_applied(x, a).with_diff_applied(x, b) == q.with_diff_applied(x, a.merged(b)),
{
    lemma_composable_lists(a, b);
    let m = a.merged(b);
    let p0 = patched_at(q, x, a);
    let p1 = p0.with_roles(x, a.roles_added, true);
    let p2 = p1.with_roles(x, a.roles_removed, false);
    // move the second patch before the first diff's role changes
    lemma_patch_roles_commute(p1, x, b, a.roles_removed, false);
    lemma_patch_roles_commute(p0, x, b, a.roles_added, true);
    // two patches of one entity are one patch with both diffs
    if q.has(x) {
        lemma_patched_twice(q.entity(x), a, b);
        lemma_put_same(q.entries, x, patched(q.entity(x), a));
        lemma_put_twice(q.entries, x, patched(q.entity(x), a), patched(patched(q.entity(x), a), b));
    }
    assert(patched_at(p0, x, b) == patched_at(q, x, m));
    // the later diff's role additions and the earlier diff's role removals commute
    let pp = patched_at(q, x, m);
    lemma_gives_takes_commute(pp.with_roles(x, a.roles_added, true), x, b.roles_added, a.roles_removed);
    lemma_roles_concat(pp, x, a.roles_added, b.roles_added, true);
    lemma_roles_concat(pp.with_roles(x, m.roles_added, true), x, a.roles_removed, b.roles_removed, false);
}


/// Each operation on one entity keeps keys distinct, keeps which IDs are
/// stored, and leaves every other entity as it was.
pub proof fn lemma_ops_frame(q: PoolView, x: EntityId, d: DiffView, role: Seq<char>, add: bool, z: EntityId)
    requires
        keys_distinct(q.entries),
    ensures
        keys_distinct(patched_at(q, x, d).entries),
        keys_distinct(q.with_role(x, role, add).entries),
        patched_at(q, x, d).has(z) == q.has(z),
        q.with_role(x, role, add).has(z) == q.has(z),
        z != x ==> patched_at(q, x, d).entity(z) == q.entity(z),
        z != x ==> q.with_role(x, role, add).entity(z) == q.entity(z),
{
    if q.has(x) {
        let e = q.entity(x);
        crate::index::lemma_put_distinct(q.entries, x, patched(e, d));
        crate::index::lemma_put_distinct(q.entries, x, role_changed(e, role, add));
        lemma_put_same(q.entries, x, patched(e, d));
        lemma_put_same(q.entries, x, role_changed(e, role, add));
        if z != x {
            lemma_put_other(q.entries, x, patched(e, d), z);
            lemma_put_other(q.entries, x, role_changed(e, role, add), z);
        }
    }
}

/// Patching two different entities commutes.
pub proof fn lemma_patch_patch_commute(q: PoolView, x: EntityId, dx: DiffView, y: EntityId, dy: DiffView)
    requires
        keys_distinct(q.entries),
        x != y,
    ensures
        patched_at(patched_at(q, x, dx), y, dy) == patched_at(patched_at(q, y, dy), x, dx),
{
    lemma_ops_frame(q, x, dx, Seq::empty(), true, y);
    lemma_ops_frame(q, y, dy, Seq::empty(), true, x);
    if q.has(x) && q.has(y) {
        lemma_put_put_commute(q.entries, x, patched(q.entity(x), dx), y, patched(q.entity(y), dy));
    }
}

/// Patching one entity and giving or taking a role of another commute.
pub proof fn lemma_patch_role_other_commute(
    q: PoolView,
    x: EntityId,
    dx: DiffView,
    y: EntityId,
    role: Seq<char>,
    add: bool,
)
    requires
        keys_distinct(q.entries),
        x != y,
    ensures
        patched_at(q, x, dx).with_role(y, role, add) == patched_at(q.with_role(y, role, add), x, dx),
{
    lemma_ops_frame(q, x, dx, role, add, y);
    lemma_ops_frame(q, y, dx, role, add, x);
    if q.has(x) && q.has(y) {
        lemma_put_put_commute(q.entries, x, patched(q.entity(x), dx), y, role_changed(q.entity(y), role, add));
    }
}

/// Changing roles of two different entities commutes.
pub proof fn lemma_role_role_commute(
    q: PoolView,
    x: EntityId,
    r: Seq<char>,
    a: bool,
    y: EntityId,
    s: Seq<char>,
    b: bool,
)
    requires
        keys_distinct(q.entries),
        x != y,
    ensures
        q.with_role(x, r, a).with_role(y, s, b) == q.with_role(y, s, b).with_role(x, r, a),
{
    let d = DiffView::empty();
    lemma_ops_frame(q, x, d, r, a, y);
    lemma_ops_frame(q, y, d, s, b, x);
    if q.has(x) && q.has(y) {
        lemma_put_put_commute(q.entries, x, role_changed(q.entity(x), r, a), y, role_changed(q.entity(y), s, b));
        let lhs = q.with_role(x, r, a).with_role(y, s, b);
        let rhs = q.with_role(y, s, b).with_role(x, r, a);
        assert(lhs.entries == rhs.entries);
        assert forall|k: Seq<char>| #[trigger] lhs.index[k] == rhs.index[k] by {
            assert(lhs.index[k] =~= rhs.index[k]);
        }
        assert(lhs.index =~= rhs.index);
    }
}

/// Changing roles of one entity and patching another commute.
pub proof fn lemma_roles_patch_commute(
    q: PoolView,
    y: EntityId,
    ss: Seq<Seq<char>>,
    b: bool,
    x: EntityId,
    dx: DiffView,
)
    requires
        keys_distinct(q.entries),
        x != y,
    ensures
        patched_at(q, x, dx).with_roles(y, ss, b) == patched_at(q.with_roles(y, ss, b), x, dx),
        keys_distinct(q.with_roles(y, ss, b).entries),
        forall|z: EntityId| q.with_roles(y, ss, b).has(z) == q.has(z),
        q.with_roles(y, ss, b).entity(x) == q.entity(x),
    decreases ss.len(),
{
    if ss.len() > 0 {
        lemma_roles_patch_commute(q, y, ss.drop_last(), b, x, dx);
        let q1 = q.with_roles(y, ss.drop_last(), b);
        lemma_patch_role_other_commute(q1, x, dx, y, ss.last(), b);
        assert forall|z: EntityId| q1.with_role(y, ss.last(), b).has(z) == q1.has(z) by {
            lemma_ops_frame(q1, y, dx, ss.last(), b, z);
        }
        lemma_ops_frame(q1, y, dx, ss.last(), b, x);
    }
}

/// Changing roles of one entity and giving or taking a role of another commute.
pub proof fn lemma_roles_role_commute(
    q: PoolView,
    y: EntityId,
    ss: Seq<Seq<char>>,
    b: bool,
    x: EntityId,
    r: Seq<char>,
    a: bool,
)
    requires
        keys_distinct(q.entries),
        x != y,
    ensures
        q.with_role(x, r, a).with_roles(y, ss, b) == q.with_roles(y, ss, b).with_role(x, r, a),
        keys_distinct(q.with_role(x, r, a).entries),
    decreases ss.len(),
{
    lemma_ops_frame(q, x, DiffView::empty(), r, a, y);
    if ss.len() > 0 {
        lemma_roles_role_commute(q, y, ss.drop_last(), b, x, r, a);
        lemma_roles_patch_commute(q, y, ss.drop_last(), b, x, DiffView::empty());
        lemma_role_role_commute(q.with_roles(y, ss.drop_last(), b), x, r, a, y, ss.last(), b);
    }
}

/// Changing roles of two different entities, several at a time, commutes.
pub proof fn lemma_roles_roles_commute(
    q: PoolView,
    x: EntityId,
    rs: Seq<Seq<char>>,
    a: bool,
    y: EntityId,
    ss: Seq<Seq<char>>,
    b: bool,
)
    requires
        keys_distinct(q.entries),
        x != y,
    ensures
        q.with_roles(x, rs, a).with_roles(y, ss, b) == q.with_roles(y, ss, b).with_roles(x, rs, a),
    decreases rs.len(),
{
    if rs.len() > 0 {
        lemma_roles_roles_commute(q, x, rs.drop_last(), a, y, ss, b);
        lemma_roles_patch_commute(q, x, rs.drop_last(), a, y, DiffView::empty());
        lemma_roles_role_commute(q.with_roles(x, rs.drop_last(), a), y, ss, b, x, rs.last(), a);
    }
}

/// Diffs to two different entities commute.
pub proof fn lemma_diff_diff_commute(q: PoolView, x: EntityId, dx: DiffView, y: EntityId, dy: DiffView)
    requires
        keys_distinct(q.entries),
        x != y,
    ensures
        q.with_diff_applied(x, dx).with_diff_applied(y, dy) == q.with_diff_applied(y, dy).with_diff_applied(x, dx),
{
    // Each diff is a patch, then role additions, then role removals; the
    // pieces of the diff to `y` are moved one at a time before those to `x`.
    lemma_ops_frame(q, x, dx, Seq::<char>::empty(), true, x);
    lemma_ops_frame(q, y, dy, Seq::<char>::empty(), true, y);
    let px = patched_at(q, x, dx);
    let py = patched_at(q, y, dy);
    lemma_ops_frame(py, x, dx, Seq::<char>::empty(), true, x);
    let pxy = patched_at(py, x, dx);
    lemma_roles_frame(px, x, dx.roles_added, true);
    let a = px.with_roles(x, dx.roles_added, true);
    // the patch to y
    lemma_roles_patch_commute(a, x, dx.roles_removed, false, y, dy);
    lemma_roles_patch_commute(px, x, dx.roles_added, true, y, dy);
    lemma_patch_patch_commute(q, x, dx, y, dy);
    // the role additions to y
    lemma_roles_frame(pxy, x, dx.roles_added, true);
    let b = pxy.with_roles(x, dx.roles_added, true);
    lemma_roles_roles_commute(b, x, dx.roles_removed, false, y, dy.roles_added, true);
    lemma_roles_roles_commute(pxy, x, dx.roles_added, true, y, dy.roles_added, true);
    lemma_roles_patch_commute(py, y, dy.roles_added, true, x, dx);
    // the role removals from y
    lemma_roles_frame(py, y, dy.roles_added, true);
    let g = py.with_roles(y, dy.roles_added, true);
    lemma_ops_frame(g, x, dx, Seq::<char>::empty(), true, x);
    let f = patched_at(g, x, dx);
    lemma_roles_frame(f, x, dx.roles_added, true);
    lemma_roles_roles_commute(f.with_roles(x, dx.roles_added, true), x, dx.roles_removed, false, y, dy.roles_removed, false);
    lemma_roles_roles_commute(f, x, dx.roles_added, true, y, dy.roles_removed, false);
    lemma_roles_patch_commute(g, y, dy.roles_removed, false, x, dx);
}

/// A diff keeps keys distinct and keeps which IDs are stored.
pub proof fn lemma_diff_frame(q: PoolView, x: EntityId, d: DiffView)
    requires
        keys_distinct(q.entries),
    ensures
        keys_distinct(q.with_diff_applied(x, d).entries),
{
    lemma_ops_frame(q, x, d, Seq::empty(), true, x);
    let p0 = patched_at(q, x, d);
    lemma_roles_frame(p0, x, d.roles_added, true);
    lemma_roles_frame(p0.with_roles(x, d.roles_added, true), x, d.roles_removed, false);
}

/// Changing roles keeps keys distinct.
pub proof fn lemma_roles_frame(q: PoolView, x: EntityId, roles: Seq<Seq<char>>, add: bool)
    requires
        keys_distinct(q.entries),
    ensures
        keys_distinct(q.with_roles(x, roles, add).entries),
    decreases roles.len(),
{
    if roles.len() > 0 {
        lemma_roles_frame(q, x, roles.drop_last(), add);
        lemma_ops_frame(q.with_roles(x, roles.drop_last(), add), x, DiffView::empty(), roles.last(), add, x);
    }
}

/// Diffs keep keys distinct.
pub proof fn lemma_diffs_frame(q: PoolView, ds: Seq<(EntityId, DiffView)>)
    requires
        keys_distinct(q.entries),
    ensures
        keys_distinct(q.with_diffs_applied(ds).entries),
    decreases ds.len(),
{
    if ds.len() > 0 {
        lemma_diffs_frame(q, ds.drop_last());
        lemma_diff_frame(q.with_diffs_applied(ds.drop_last()), ds.last().0, ds.last().1);
    }
}

/// A diff to `x` and diffs to other entities commute.
pub proof fn lemma_diff_diffs_commute(q: PoolView, x: EntityId, d: DiffView, ds: Seq<(EntityId, DiffView)>)
    requires
        keys_distinct(q.entries),
        forall|i: int| 0 <= i < ds.len() ==> #[trigger] ds[i].0 != x,
    ensures
        q.with_diff_applied(x, d).with_diffs_applied(ds) == q.with_diffs_applied(ds).with_diff_applied(x, d),
    decreases ds.len(),
{
    if ds.len() > 0 {
        let r = ds.drop_last();
        assert forall|i: int| 0 <= i < r.len() implies #[trigger] r[i].0 != x by {
            assert(r[i] == ds[i]);
        }
        lemma_diff_diffs_commute(q, x, d, r);
        lemma_diffs_frame(q, r);
        assert(ds[ds.len() - 1] == ds.last());
        lemma_diff_diff_commute(q.with_diffs_applied(r), x, d, ds.last().0, ds.last().1);
    }
}

/// Merging in diffs keeps the keys of the merged list distinct.
pub proof fn lemma_merge_diffs_distinct(s: Seq<(EntityId, DiffView)>, t: Seq<(EntityId, DiffView)>)
    requires
        keys_distinct(s),
    ensures
        keys_distinct(crate::delta::merge_diffs(s, t)),
    decreases t.len(),
{
    if t.len() > 0 {
        lemma_merge_diffs_distinct(s, t.drop_last());
        let m = crate::delta::merge_diffs(s, t.drop_last());
        crate::index::lemma_put_distinct(m, t.last().0, crate::delta::diff_for(m, t.last().0).merged(t.last().1));
    }
}

/// Every diff that `t` holds can be merged after the diff `s` holds for the same entity.
pub open spec fn diffs_composable(s: Seq<(EntityId, DiffView)>, t: Seq<(EntityId, DiffView)>) -> bool {
    forall|i: int| 0 <= i < t.len() ==> composable(crate::delta::diff_for(s, (#[trigger] t[i]).0), t[i].1)
}

/// Applying merged diffs is applying the earlier ones and then the later ones,
/// when each later diff can be merged after the earlier diff for its entity.
pub proof fn lemma_merge_diffs_apply(q: PoolView, s: Seq<(EntityId, DiffView)>, t: Seq<(EntityId, DiffView)>)
    requires
        keys_distinct(q.entries),
        keys_distinct(s),
        keys_distinct(t),
        diffs_composable(s, t),
    ensures
        q.with_diffs_applied(crate::delta::merge_diffs(s, t)) == q.with_diffs_applied(s).with_diffs_applied(t),
    decreases t.len(),
{
    if t.len() > 0 {
        let r = t.drop_last();
        assert(crate::delta::keys_distinct(r)) by {
            assert forall|i: int, j: int| #![trigger r[i], r[j]] 0 <= i < j < r.len() implies r[i].0 != r[j].0 by {
                assert(r[i] == t[i] && r[j] == t[j]);
            }
        }
        assert(diffs_composable(s, r)) by {
            assert forall|i: int| 0 <= i < r.len() implies composable(crate::delta::diff_for(s, (#[trigger] r[i]).0), r[i].1) by {
                assert(r[i] == t[i]);
            }
        }
        lemma_merge_diffs_apply(q, s, r);
        let m = crate::delta::merge_diffs(s, r);
        let (x, db) = t.last();
        assert(t[t.len() - 1] == t.last());
        crate::delta::lemma_distinct_last(t);
        crate::delta::lemma_merge_diffs_for(s, r, x);
        let dm = crate::delta::diff_for(m, x);
        assert(dm == crate::delta::diff_for(s, x));
        assert(composable(dm, db));
        lemma_merge_diffs_distinct(s, r);
        lemma_diffs_frame(q, m);
        if has_key(m, x) {
            lemma_first_index(m, x);
            let fi = first_index(m, x);
            let pre = m.take(fi);
            let post = m.skip(fi + 1);
            assert(m =~= pre + seq![(x, dm)] + post);
            assert(crate::assoc::assoc_put(m, x, dm.merged(db)) =~= pre + seq![(x, dm.merged(db))] + post);
            crate::merge::lemma_diffs_concat(q, pre + seq![(x, dm.merged(db))], post);
            crate::merge::lemma_diffs_concat(q, pre, seq![(x, dm.merged(db))]);
            crate::merge::lemma_diffs_concat(q, pre + seq![(x, dm)], post);
            crate::merge::lemma_diffs_concat(q, pre, seq![(x, dm)]);
            assert(seq![(x, dm)].drop_last() =~= Seq::<(EntityId, DiffView)>::empty());
            assert(seq![(x, dm.merged(db))].drop_last() =~= Seq::<(EntityId, DiffView)>::empty());
            let qp = q.with_diffs_applied(pre);
            lemma_diffs_frame(q, pre);
            lemma_diff_twice(qp, x, dm, db);
            assert forall|i: int| 0 <= i < post.len() implies #[trigger] post[i].0 != x by {
                assert(post[i] == m[fi + 1 + i]);
                assert(m[fi].0 == x);
            }
            lemma_diff_frame(qp, x, dm);
            lemma_diff_diffs_commute(qp.with_diff_applied(x, dm), x, db, post);
            lemma_diffs_single(qp, x, dm);
            lemma_diffs_single(qp, x, dm.merged(db));
        } else {
            crate::assoc::lemma_first_index(m, x);
            assert(dm == DiffView::empty());
            let e = DiffView::empty();
            assert forall|i: int| 0 <= i < db.upserted.len() implies !has_key(
                Seq::<(Seq<char>, ValueModel)>::empty(),
                #[trigger] db.upserted[i].0,
            ) by {}
            crate::merge::lemma_puts_all_fresh_text(Seq::empty(), db.upserted);
            assert(Seq::<(Seq<char>, ValueModel)>::empty() + db.upserted =~= db.upserted);
            assert(e.props_removed + db.props_removed =~= db.props_removed);
            assert(e.rels_added + db.rels_added =~= db.rels_added);
            assert(e.rels_removed + db.rels_removed =~= db.rels_removed);
            assert(e.roles_added + db.roles_added =~= db.roles_added);
            assert(e.roles_removed + db.roles_removed =~= db.roles_removed);
            assert(e.merged(db) == db);
            assert(crate::assoc::assoc_put(m, x, db) == m.push((x, db)));
            assert(m.push((x, db)).drop_last() =~= m);
        }
    }
}

/// The entities that `b` patches are not removed by `a`, and each of `b`'s
/// diffs can be merged after the one `a` holds for the same entity.
pub open spec fn patches_compatible(a: crate::delta::DeltaView, b: crate::delta::DeltaView) -> bool {
    &&& keys_distinct(a.modified)
    &&& diffs_composable(a.modified, b.modified)
    &&& forall|i: int| 0 <= i < b.modified.len() ==> !a.removed.contains(#[trigger] b.modified[i].0)
}

/// Applying a delta and then one that only patches entities, each patch
/// mergeable after the first delta's patch of the same entity and none of them
/// removed by the first delta, is applying their merge, on a pool that stores
/// each entity once under its own ID.
pub proof fn law_merge_compatible_patches(p: PoolView, a: crate::delta::DeltaView, b: crate::delta::DeltaView)
    requires
        p.well_keyed(),
        crate::merge::patches_only(b),
        patches_compatible(a, b),
    ensures
        p.with_delta(a).with_delta(b) == p.with_delta(a.merged(b)),
{
    crate::merge::lemma_filter_absent_keeps(a.removed, b.added);
    crate::index::lemma_adds_keep_keyed(p, a.added);
    let q = p.with_entities_added(a.added);
    lemma_merge_diffs_apply(q, a.modified, b.modified);
    crate::index::lemma_diffs_keep_keyed(q, a.modified);
    crate::merge::lemma_diffs_removes_commute(q.with_diffs_applied(a.modified), b.modified, a.removed);
    assert(p.with_delta(a).with_delta(b) == p.with_delta(a).with_diffs_applied(b.modified));
}


/// Applying a list of one diff is applying that diff.
pub proof fn lemma_diffs_single(q: PoolView, x: EntityId, d: DiffView)
    ensures
        q.with_diffs_applied(seq![(x, d)]) == q.with_diff_applied(x, d),
{
    let w = seq![(x, d)];
    assert(w.drop_last() =~= Seq::<(EntityId, DiffView)>::empty());
    assert(w.last() == (x, d));
    assert(q.with_diffs_applied(w.drop_last()) == q);
}

} // verus!
