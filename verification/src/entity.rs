//! Entity model: individual world actors, their properties, relationships
//! and the pool that manages them.

use vstd::prelude::*;

use crate::assoc::{
    as_map, assoc_drop, assoc_put, first_index, has_key, lemma_filter_take_step, lemma_first_index,
    lemma_map_push, lemma_push_to_set,
};
use crate::keyed::{IdList, IdMap, TextMap};
use crate::text::{DeepCopy, TextSet};
use crate::types::{is_random_uuid, new_uuid, uuid_text, uuid_to_string, EntityId};
pub use crate::value::Value;
use crate::value::ValueModel;
use crate::delta::{DeltaView, Delta, DiffView, EntityDiff};

verus! {

/// Maximum number of direct relationships a single entity may maintain.
///
/// Based on Dunbar's number (about 150 for humans), this constrains the social
/// graph density at the entity level.
pub const DUNBAR_NUMBER: usize = 150;

/// Key-value bag of entity attributes.
pub type Properties = TextMap<Value>;

/// A single actor in the world.
#[derive(Debug, Clone)]
pub struct Entity {
    /// Globally unique identifier.
    pub id: EntityId,
    /// Semantic category of the entity (e.g. `"hero"`, `"kingdom"`).
    pub kind: String,
    /// Arbitrary key/value attributes.
    pub properties: Properties,
    /// Logical roles this entity currently fills (e.g. `"unifier"`).
    pub roles: TextSet,
    /// Direct relationships to other entities, capped at [`DUNBAR_NUMBER`]
    /// by [`Entity::add_relationship`].
    pub relationships: Vec<EntityId>,
    /// `false` once the entity is deceased / deactivated.
    pub alive: bool,
}

/// The content of an [`Entity`].
pub struct EntityView {
    pub id: EntityId,
    pub kind: Seq<char>,
    pub properties: Map<Seq<char>, ValueModel>,
    pub roles: Set<Seq<char>>,
    pub relationships: Seq<EntityId>,
    pub alive: bool,
}

impl View for Entity {
    type V = EntityView;

    open spec fn view(&self) -> EntityView {
        EntityView {
            id: self.id,
            kind: self.kind@,
            properties: self.properties@,
            roles: self.roles@,
            relationships: self.relationships@,
            alive: self.alive,
        }
    }
}

impl EntityView {
    /// A living entity with no properties, roles or relationships.
    pub open spec fn fresh(id: EntityId, kind: Seq<char>) -> EntityView {
        EntityView {
            id,
            kind,
            properties: Map::empty(),
            roles: Set::empty(),
            relationships: Seq::empty(),
            alive: true,
        }
    }
}

/// The relationship list after asking to add `other`: unchanged when `other` is
/// already listed or the list holds [`DUNBAR_NUMBER`] entries, else `other` appended.
pub open spec fn relationship_added(rels: Seq<EntityId>, other: EntityId) -> Seq<EntityId> {
    if rels.contains(other) || rels.len() >= DUNBAR_NUMBER {
        rels
    } else {
        rels.push(other)
    }
}

/// The relationship list after removing every entry for `other`.
pub open spec fn relationship_removed(rels: Seq<EntityId>, other: EntityId) -> Seq<EntityId> {
    rels.filter(id_differs(other))
}

/// The test that an identifier is not `other`.
pub open spec fn id_differs(other: EntityId) -> spec_fn(EntityId) -> bool {
    |x: EntityId| x != other
}

/// The error text for an entity that has reached the Dunbar number.
pub open spec fn dunbar_message(id: EntityId) -> Seq<char> {
    "Entity "@ + uuid_text(id) + " has reached the Dunbar number limit (150) for relationships"@
}

/// The relationship list after asking to add each of `adds`, in order.
pub open spec fn relationships_added(rels: Seq<EntityId>, adds: Seq<EntityId>) -> Seq<EntityId>
    decreases adds.len(),
{
    if adds.len() == 0 {
        rels
    } else {
        relationship_added(relationships_added(rels, adds.drop_last()), adds.last())
    }
}

/// The relationship list after removing each of `rems`, in order.
pub open spec fn relationships_removed(rels: Seq<EntityId>, rems: Seq<EntityId>) -> Seq<EntityId>
    decreases rems.len(),
{
    if rems.len() == 0 {
        rels
    } else {
        relationship_removed(relationships_removed(rels, rems.drop_last()), rems.last())
    }
}

/// The properties after setting each pair of `ups`, in order.
pub open spec fn properties_put(
    m: Map<Seq<char>, ValueModel>,
    ups: Seq<(Seq<char>, ValueModel)>,
) -> Map<Seq<char>, ValueModel>
    decreases ups.len(),
{
    if ups.len() == 0 {
        m
    } else {
        properties_put(m, ups.drop_last()).insert(ups.last().0, ups.last().1)
    }
}

/// The properties after removing each key of `keys`, in order.
pub open spec fn properties_dropped(
    m: Map<Seq<char>, ValueModel>,
    keys: Seq<Seq<char>>,
) -> Map<Seq<char>, ValueModel>
    decreases keys.len(),
{
    if keys.len() == 0 {
        m
    } else {
        properties_dropped(m, keys.drop_last()).remove(keys.last())
    }
}

/// An entity after a diff's property, relationship and liveness patches:
/// upserts, then property removals, then relationship additions (each subject
/// to the Dunbar number), then relationship removals, then the alive change.
pub open spec fn patched(e: EntityView, d: DiffView) -> EntityView {
    EntityView {
        properties: properties_dropped(properties_put(e.properties, d.upserted), d.props_removed),
        relationships: relationships_removed(
            relationships_added(e.relationships, d.rels_added),
            d.rels_removed,
        ),
        alive: match d.alive_change {
            Some(a) => a,
            None => e.alive,
        },
        ..e
    }
}

/// `v` contains `x`.
pub fn ids_contain(v: &Vec<EntityId>, x: EntityId) -> (r: bool)
    ensures
        r == v@.contains(x),
{
    let mut i: usize = 0;
    while i < v.len()
        invariant
            i <= v@.len(),
            forall|j: int| 0 <= j < i ==> v@[j] != x,
        decreases v@.len() - i,
    {
        if v[i] == x {
            return true;
        }
        i = i + 1;
    }
    false
}

/// A copy of a list of identifiers.
pub fn copy_ids(v: &Vec<EntityId>) -> (r: Vec<EntityId>)
    ensures
        r@ == v@,
{
    let mut r: Vec<EntityId> = Vec::new();
    let mut i: usize = 0;
    while i < v.len()
        invariant
            i <= v@.len(),
            r@ == v@.take(i as int),
        decreases v@.len() - i,
    {
        r.push(v[i]);
        assert(r@ =~= v@.take(i + 1));
        i = i + 1;
    }
    assert(v@.take(i as int) =~= v@);
    r
}

impl Entity {
    /// Create a new entity of the given kind with a fresh random ID.
    pub fn new(kind: &str) -> (r: Entity)
        ensures
            r@ == EntityView::fresh(r.id, kind@),
            is_random_uuid(r.id),
    {
        Entity::with_id(new_uuid(), kind)
    }

    /// Create a new entity with an explicit ID.
    pub fn with_id(id: EntityId, kind: &str) -> (r: Entity)
        ensures
            r@ == EntityView::fresh(id, kind@),
    {
        let r = Entity {
            id,
            kind: kind.to_owned(),
            properties: TextMap::new(),
            roles: TextSet::new(),
            relationships: Vec::new(),
            alive: true,
        };
        assert(r@.relationships =~= Seq::<EntityId>::empty());
        r
    }

    /// Register a relationship to `other`, enforcing the Dunbar number.
    ///
    /// A duplicate is ignored. Returns `Err` when the Dunbar limit would be exceeded.
    pub fn add_relationship(&mut self, other: EntityId) -> (r: Result<(), String>)
        ensures
            final(self)@ == (EntityView {
                relationships: relationship_added(old(self)@.relationships, other),
                ..old(self)@
            }),
            r is Err <==> (!old(self)@.relationships.contains(other)
                && old(self)@.relationships.len() >= DUNBAR_NUMBER),
            r matches Err(m) ==> m@ == dunbar_message(old(self).id),
    {
        if ids_contain(&self.relationships, other) {
            return Ok(());
        }
        if self.relationships.len() >= DUNBAR_NUMBER {
            let mut msg = "Entity ".to_owned();
            let id_text = uuid_to_string(self.id);
            msg.append(id_text.as_str());
            msg.append(" has reached the Dunbar number limit (150) for relationships");
            return Err(msg);
        }
        self.relationships.push(other);
        Ok(())
    }

    /// Remove a relationship to `other` (no-op if not present).
    pub fn remove_relationship(&mut self, other: EntityId)
        ensures
            final(self)@ == (EntityView {
                relationships: relationship_removed(old(self)@.relationships, other),
                ..old(self)@
            }),
    {
        let ghost orig = self.relationships@;
        let ghost f = id_differs(other);
        let mut kept: Vec<EntityId> = Vec::new();
        let mut i: usize = 0;
        assert(kept@ =~= orig.take(0).filter(f)) by {
            reveal_with_fuel(Seq::filter, 1);
        }
        while i < self.relationships.len()
            invariant
                i <= orig.len(),
                self.relationships@ == orig,
                f == id_differs(other),
                kept@ == orig.take(i as int).filter(f),
            decreases orig.len() - i,
        {
            proof { lemma_filter_take_step(orig, f, i as int); }
            if self.relationships[i] != other {
                kept.push(self.relationships[i]);
            }
            i = i + 1;
        }
        assert(orig.take(i as int) =~= orig);
        self.relationships = kept;
    }
}

impl Entity {
    /// Apply a diff's property, relationship and liveness patches (roles are the pool's business).
    pub fn apply_diff(&mut self, d: &EntityDiff)
        ensures
            final(self)@ == patched(old(self)@, d@),
    {
        let ghost dv = d@;
        let ghost start = self@;
        let mut i: usize = 0;
        while i < d.property_diff.upserted.len()
            invariant
                dv == d@,
                i <= dv.upserted.len(),
                self@ == (EntityView { properties: properties_put(start.properties, dv.upserted.take(i as int)), ..start }),
            decreases dv.upserted.len() - i,
        {
            let k = d.property_diff.upserted.key_at(i).clone();
            let v = d.property_diff.upserted.value_at(i).copy_value();
            self.properties.insert(k, v);
            assert(dv.upserted.take(i + 1).drop_last() =~= dv.upserted.take(i as int));
            i = i + 1;
        }
        assert(dv.upserted.take(i as int) =~= dv.upserted);
        let ghost s1 = self@;
        let mut j: usize = 0;
        while j < d.property_diff.removed.len()
            invariant
                dv == d@,
                j <= dv.props_removed.len(),
                self@ == (EntityView { properties: properties_dropped(s1.properties, dv.props_removed.take(j as int)), ..s1 }),
            decreases dv.props_removed.len() - j,
        {
            assert(dv.props_removed[j as int] == d.property_diff.removed@[j as int]@);
            self.properties.remove(d.property_diff.removed[j].as_str());
            assert(dv.props_removed.take(j + 1).drop_last() =~= dv.props_removed.take(j as int));
            j = j + 1;
        }
        assert(dv.props_removed.take(j as int) =~= dv.props_removed);
        let ghost s2 = self@;
        let mut k: usize = 0;
        while k < d.relationship_diff.added.len()
            invariant
                dv == d@,
                k <= dv.rels_added.len(),
                self@ == (EntityView { relationships: relationships_added(s2.relationships, dv.rels_added.take(k as int)), ..s2 }),
            decreases dv.rels_added.len() - k,
        {
            let _ = self.add_relationship(d.relationship_diff.added[k]);
            assert(dv.rels_added.take(k + 1).drop_last() =~= dv.rels_added.take(k as int));
            k = k + 1;
        }
        assert(dv.rels_added.take(k as int) =~= dv.rels_added);
        let ghost s3 = self@;
        let mut m: usize = 0;
        while m < d.relationship_diff.removed.len()
            invariant
                dv == d@,
                m <= dv.rels_removed.len(),
                self@ == (EntityView { relationships: relationships_removed(s3.relationships, dv.rels_removed.take(m as int)), ..s3 }),
            decreases dv.rels_removed.len() - m,
        {
            self.remove_relationship(d.relationship_diff.removed[m]);
            assert(dv.rels_removed.take(m + 1).drop_last() =~= dv.rels_removed.take(m as int));
            m = m + 1;
        }
        assert(dv.rels_removed.take(m as int) =~= dv.rels_removed);
        if let Some(alive) = d.alive_change {
            self.alive = alive;
        }
    }
}

impl DeepCopy for Entity {
    fn deep_copy(&self) -> (r: Entity) {
        Entity {
            id: self.id,
            kind: self.kind.clone(),
            properties: self.properties.deep_copy(),
            roles: self.roles.deep_copy(),
            relationships: copy_ids(&self.relationships),
            alive: self.alive,
        }
    }
}

/// The content of an [`EntityPool`]: the stored `(key, entity)` pairs in
/// storage order, and for every role the keys that the role index lists.
pub struct PoolView {
    pub entries: Seq<(EntityId, EntityView)>,
    pub index: Map<Seq<char>, Set<EntityId>>,
}

/// The total role index that a map from roles to key lists denotes.
pub open spec fn index_of_roles(m: Map<Seq<char>, Seq<EntityId>>) -> Map<Seq<char>, Set<EntityId>> {
    Map::new(
        |r: Seq<char>| true,
        |r: Seq<char>|
            if m.contains_key(r) {
                m[r].to_set()
            } else {
                Set::empty()
            },
    )
}

pub proof fn lemma_index_of_roles_insert(
    m: Map<Seq<char>, Seq<EntityId>>,
    k: Seq<char>,
    v: Seq<EntityId>,
)
    ensures
        index_of_roles(m.insert(k, v)) == index_of_roles(m).insert(k, v.to_set()),
{
    assert(index_of_roles(m.insert(k, v)) =~= index_of_roles(m).insert(k, v.to_set()));
}

/// A role index listing no key for any role.
pub open spec fn empty_index() -> Map<Seq<char>, Set<EntityId>> {
    Map::new(|r: Seq<char>| true, |r: Seq<char>| Set::<EntityId>::empty())
}

impl PoolView {
    pub open spec fn empty() -> PoolView {
        PoolView { entries: Seq::empty(), index: empty_index() }
    }

    /// The pool stores an entity under key `id`.
    pub open spec fn has(self, id: EntityId) -> bool {
        has_key(self.entries, id)
    }

    /// The entity stored under key `id`.
    pub open spec fn entity(self, id: EntityId) -> EntityView {
        as_map(self.entries)[id]
    }

    /// `add_entity(e)`: `e` stored under `e.id`, `e.id` indexed under each of its
    /// roles, and unindexed from each role of the entity it replaces that `e`
    /// does not have.
    pub open spec fn with_entity_added(self, e: EntityView) -> PoolView {
        PoolView {
            entries: assoc_put(self.entries, e.id, e),
            index: Map::new(
                |r: Seq<char>| true,
                |r: Seq<char>|
                    if e.roles.contains(r) {
                        self.index[r].insert(e.id)
                    } else if self.has(e.id) && self.entity(e.id).roles.contains(r) {
                        self.index[r].remove(e.id)
                    } else {
                        self.index[r]
                    },
            ),
        }
    }

    /// `remove_entity(id)`: the entity dropped, and `id` unindexed from each of its roles.
    pub open spec fn with_entity_removed(self, id: EntityId) -> PoolView {
        if self.has(id) {
            PoolView {
                entries: assoc_drop(self.entries, id),
                index: Map::new(
                    |r: Seq<char>| true,
                    |r: Seq<char>|
                        if self.entity(id).roles.contains(r) {
                            self.index[r].remove(id)
                        } else {
                            self.index[r]
                        },
                ),
            }
        } else {
            self
        }
    }

    /// `update_entity_role(id, role, add)`: the role added to (or removed from) the
    /// entity and the index, when an entity is stored under `id`.
    pub open spec fn with_role(self, id: EntityId, role: Seq<char>, add: bool) -> PoolView {
        if self.has(id) {
            let e = self.entity(id);
            PoolView {
                entries: assoc_put(
                    self.entries,
                    id,
                    EntityView {
                        roles: if add {
                            e.roles.insert(role)
                        } else {
                            e.roles.remove(role)
                        },
                        ..e
                    },
                ),
                index: self.index.insert(
                    role,
                    if add {
                        self.index[role].insert(id)
                    } else {
                        self.index[role].remove(id)
                    },
                ),
            }
        } else {
            self
        }
    }

    /// The roles of `roles` added to (or removed from) the entity under `id`, in order.
    pub open spec fn with_roles(self, id: EntityId, roles: Seq<Seq<char>>, add: bool) -> PoolView
        decreases roles.len(),
    {
        if roles.len() == 0 {
            self
        } else {
            self.with_roles(id, roles.drop_last(), add).with_role(id, roles.last(), add)
        }
    }

    /// One diff applied to the entity stored under `id`: its property,
    /// relationship and liveness patches (when such an entity exists), then its
    /// role additions, then its role removals.
    pub open spec fn with_diff_applied(self, id: EntityId, d: DiffView) -> PoolView {
        let p1 = if self.has(id) {
            PoolView { entries: assoc_put(self.entries, id, patched(self.entity(id), d)), ..self }
        } else {
            self
        };
        p1.with_roles(id, d.roles_added, true).with_roles(id, d.roles_removed, false)
    }

    /// Each entity of `es` added, in order.
    pub open spec fn with_entities_added(self, es: Seq<(EntityId, EntityView)>) -> PoolView
        decreases es.len(),
    {
        if es.len() == 0 {
            self
        } else {
            self.with_entities_added(es.drop_last()).with_entity_added(es.last().1)
        }
    }

    /// Each diff of `ds` applied, in order.
    pub open spec fn with_diffs_applied(self, ds: Seq<(EntityId, DiffView)>) -> PoolView
        decreases ds.len(),
    {
        if ds.len() == 0 {
            self
        } else {
            self.with_diffs_applied(ds.drop_last()).with_diff_applied(ds.last().0, ds.last().1)
        }
    }

    /// Each entity of `ids` removed, in order.
    pub open spec fn with_entities_removed(self, ids: Seq<EntityId>) -> PoolView
        decreases ids.len(),
    {
        if ids.len() == 0 {
            self
        } else {
            self.with_entities_removed(ids.drop_last()).with_entity_removed(ids.last())
        }
    }

    /// A delta applied: its added entities, then its diffs, then its removals.
    pub open spec fn with_delta(self, d: DeltaView) -> PoolView {
        self.with_entities_added(d.added).with_diffs_applied(d.modified).with_entities_removed(
            d.removed,
        )
    }

    /// The living entities whose keys the index lists under `role`, in storage order.
    pub open spec fn role_members(self, role: Seq<char>) -> Seq<EntityView> {
        self.entries.filter(
            |p: (EntityId, EntityView)| self.index[role].contains(p.0) && p.1.alive,
        ).map_values(|p: (EntityId, EntityView)| p.1)
    }

    /// The living entities of `kind`, in storage order.
    pub open spec fn kind_members(self, kind: Seq<char>) -> Seq<EntityView> {
        self.entries.filter(|p: (EntityId, EntityView)| p.1.kind == kind && p.1.alive).map_values(
            |p: (EntityId, EntityView)| p.1,
        )
    }

    /// Every stored entity, alive or dead, in storage order.
    pub open spec fn all(self) -> Seq<EntityView> {
        self.entries.map_values(|p: (EntityId, EntityView)| p.1)
    }

    /// Every entity is stored once, under its own ID.
    pub open spec fn well_keyed(self) -> bool {
        &&& forall|i: int| 0 <= i < self.entries.len() ==> #[trigger] self.entries[i].1.id == self.entries[i].0
        &&& crate::delta::keys_distinct(self.entries)
    }
}

/// With distinct keys, the pair at a position is the one the map finds for its key.
pub proof fn lemma_distinct_lookup<V>(s: Seq<(EntityId, V)>, i: int)
    requires
        crate::delta::keys_distinct(s),
        0 <= i < s.len(),
    ensures
        has_key(s, s[i].0),
        as_map(s)[s[i].0] == s[i].1,
{
    lemma_first_index(s, s[i].0);
    let j = first_index(s, s[i].0);
    if j < i {
        assert(s[j].0 != s[i].0);
    } else if j > i {
        assert(s[i].0 != s[j].0);
    }
}

/// Centralised store for all entities in the world.
///
/// Keeps an inverted role index (role to the keys of the entities that were
/// given the role, dead ones included); liveness is checked at query time.
#[derive(Debug, Clone)]
pub struct EntityPool {
    entities: IdMap<Entity>,
    role_index: TextMap<IdList>,
}

impl View for EntityPool {
    type V = PoolView;

    closed spec fn view(&self) -> PoolView {
        PoolView { entries: self.entities@, index: index_of_roles(self.role_index@) }
    }
}

impl Default for EntityPool {
    fn default() -> (r: Self)
        ensures
            r@ == PoolView::empty(),
    {
        EntityPool::new()
    }
}

impl EntityPool {
    pub fn new() -> (r: Self)
        ensures
            r@ == PoolView::empty(),
            r@.well_keyed(),
            r@.index_consistent(),
    {
        proof { crate::index::law_empty_pool_consistent(); }
        let r = EntityPool { entities: IdMap::new(), role_index: TextMap::new() };
        assert(r@.index =~= empty_index());
        r
    }

    /// The role index as stored: each role with the IDs of the entities that
    /// were given it, dead ones included.
    pub fn role_index(&self) -> (r: &TextMap<IdList>)
        ensures
            index_of_roles(r@) == self@.index,
    {
        &self.role_index
    }

    /// Index `id` under `role`.
    fn index_insert(&mut self, role: &String, id: EntityId)
        ensures
            final(self)@ == (PoolView {
                index: old(self)@.index.insert(role@, old(self)@.index[role@].insert(id)),
                ..old(self)@
            }),
    {
        let ghost old_m = self.role_index@;
        match self.role_index.index_of(role.as_str()) {
            Some(j) => {
                let ghost old_pairs = self.role_index.pairs();
                let l = self.role_index.value_mut(j);
                l.insert(id);
                proof {
                    let nl = self.role_index.pairs()[j as int].1;
                    assert(nl.to_set() == old_pairs[j as int].1.to_set().insert(id));
                    assert(self.role_index.pairs() == assoc_put(old_pairs, role@, nl));
                    crate::assoc::lemma_as_map_put(old_pairs, role@, nl);
                    lemma_index_of_roles_insert(old_m, role@, nl);
                    assert(old_m[role@] == old_pairs[j as int].1);
                }
            },
            None => {
                let mut l = IdList::new();
                l.insert(id);
                assert(Seq::<EntityId>::empty().to_set() =~= Set::<EntityId>::empty());
                let ghost lv = l@;
                self.role_index.insert(role.clone(), l);
                proof {
                    lemma_index_of_roles_insert(old_m, role@, lv);
                    assert(!old_m.contains_key(role@));
                }
            },
        }
        assert(self@.index =~= old(self)@.index.insert(role@, old(self)@.index[role@].insert(id)));
    }

    /// Unindex `id` from `role`.
    fn index_remove(&mut self, role: &String, id: EntityId)
        ensures
            final(self)@ == (PoolView {
                index: old(self)@.index.insert(role@, old(self)@.index[role@].remove(id)),
                ..old(self)@
            }),
    {
        let ghost old_m = self.role_index@;
        match self.role_index.index_of(role.as_str()) {
            Some(j) => {
                let ghost old_pairs = self.role_index.pairs();
                let l = self.role_index.value_mut(j);
                l.remove(id);
                proof {
                    let nl = self.role_index.pairs()[j as int].1;
                    assert(nl.to_set() == old_pairs[j as int].1.to_set().remove(id));
                    assert(self.role_index.pairs() == assoc_put(old_pairs, role@, nl));
                    crate::assoc::lemma_as_map_put(old_pairs, role@, nl);
                    lemma_index_of_roles_insert(old_m, role@, nl);
                    assert(old_m[role@] == old_pairs[j as int].1);
                }
            },
            None => {
                assert(!old_m.contains_key(role@));
                assert(old(self)@.index[role@].remove(id) =~= old(self)@.index[role@]);
            },
        }
        assert(self@.index =~= old(self)@.index.insert(role@, old(self)@.index[role@].remove(id)));
    }

    /// Store an entity under its own ID, indexing its roles; an entity stored
    /// under that ID before is replaced, and its roles that the new one lacks
    /// are unindexed, so the index stays exact.
    pub fn add_entity(&mut self, entity: Entity)
        ensures
            final(self)@ == old(self)@.with_entity_added(entity@),
            old(self)@.index_consistent() ==> final(self)@.index_consistent(),
    {
        proof {
            if self@.index_consistent() {
                crate::index::lemma_add_keeps_index(self@, entity@);
            }
        }
        let id = entity.id;
        let ghost p0 = self@;
        let replaced = match self.entities.get(id) {
            Some(e) => Some(e.roles.deep_copy()),
            None => None,
        };
        match replaced {
            Some(old_roles) => {
                let ghost oroles = old_roles.items_view();
                let ghost idx0 = p0.index;
                let mut k: usize = 0;
                while k < old_roles.len()
                    invariant
                        k <= oroles.len(),
                        oroles == old_roles.items_view(),
                        self@.entries == p0.entries,
                        self@.index == Map::new(
                            |r: Seq<char>| true,
                            |r: Seq<char>|
                                if oroles.take(k as int).to_set().contains(r) {
                                    idx0[r].remove(id)
                                } else {
                                    idx0[r]
                                },
                        ),
                    decreases oroles.len() - k,
                {
                    let role = old_roles.item_at(k);
                    self.index_remove(role, id);
                    proof {
                        assert(oroles.take(k + 1) =~= oroles.take(k as int).push(role@));
                        lemma_push_to_set(oroles.take(k as int), role@);
                        let target = Map::new(
                            |r: Seq<char>| true,
                            |r: Seq<char>|
                                if oroles.take(k + 1).to_set().contains(r) {
                                    idx0[r].remove(id)
                                } else {
                                    idx0[r]
                                },
                        );
                        assert forall|r: Seq<char>| #[trigger] self@.index[r] == target[r] by {
                            if r == role@ {
                                assert(oroles.take(k + 1).to_set().contains(r));
                            }
                        }
                        assert(self@.index =~= target);
                    }
                    k = k + 1;
                }
                assert(oroles.take(k as int) =~= oroles);
            },
            None => {},
        }
        let ghost roles = entity.roles.items_view();
        let ghost old_index = self@.index;
        let mut i: usize = 0;
        while i < entity.roles.len()
            invariant
                i <= roles.len(),
                roles == entity.roles.items_view(),
                self@.entries == old(self)@.entries,
                self@.index == Map::new(
                    |r: Seq<char>| true,
                    |r: Seq<char>|
                        if roles.take(i as int).to_set().contains(r) {
                            old_index[r].insert(entity.id)
                        } else {
                            old_index[r]
                        },
                ),
            decreases roles.len() - i,
        {
            let role = entity.roles.item_at(i);
            self.index_insert(role, entity.id);
            proof {
                assert(roles.take(i + 1) =~= roles.take(i as int).push(role@));
                lemma_push_to_set(roles.take(i as int), role@);
                let target = Map::new(
                    |r: Seq<char>| true,
                    |r: Seq<char>|
                        if roles.take(i + 1).to_set().contains(r) {
                            old_index[r].insert(entity.id)
                        } else {
                            old_index[r]
                        },
                );
                assert forall|r: Seq<char>| #[trigger] self@.index[r] == target[r] by {
                    if r == role@ {
                        assert(roles.take(i + 1).to_set().contains(r));
                    }
                }
                assert(self@.index =~= target);
            }
            i = i + 1;
        }
        assert(roles.take(i as int) =~= roles);
        let ghost ev = entity@;
        self.entities.insert(id, entity);
        proof {
            let target = p0.with_entity_added(ev).index;
            assert forall|r: Seq<char>| #[trigger] self@.index[r] == target[r] by {
                if ev.roles.contains(r) {
                    assert(old_index[r].insert(id) =~= p0.index[r].insert(id));
                }
            }
            assert(self@.index =~= target);
        }
    }

    /// Remove an entity entirely and clean up its role index entries.
    pub fn remove_entity(&mut self, id: EntityId) -> (r: Option<Entity>)
        ensures
            final(self)@ == old(self)@.with_entity_removed(id),
            r is Some <==> old(self)@.has(id),
            r matches Some(e) ==> e@ == old(self)@.entity(id),
            old(self)@.index_consistent() ==> final(self)@.index_consistent(),
    {
        proof {
            if self@.index_consistent() {
                crate::index::lemma_remove_keeps_index(self@, id);
            }
        }
        let removed = self.entities.remove(id);
        match removed {
            Some(e) => {
                let ghost roles = e.roles.items_view();
                let ghost old_index = old(self)@.index;
                let mut i: usize = 0;
                while i < e.roles.len()
                    invariant
                        i <= roles.len(),
                        roles == e.roles.items_view(),
                        self@.entries == assoc_drop(old(self)@.entries, id),
                        self@.index == Map::new(
                            |r: Seq<char>| true,
                            |r: Seq<char>|
                                if roles.take(i as int).to_set().contains(r) {
                                    old_index[r].remove(id)
                                } else {
                                    old_index[r]
                                },
                        ),
                    decreases roles.len() - i,
                {
                    let role = e.roles.item_at(i);
                    self.index_remove(role, id);
                    proof {
                        assert(roles.take(i + 1) =~= roles.take(i as int).push(role@));
                        lemma_push_to_set(roles.take(i as int), role@);
                        let target = Map::new(
                            |r: Seq<char>| true,
                            |r: Seq<char>|
                                if roles.take(i + 1).to_set().contains(r) {
                                    old_index[r].remove(id)
                                } else {
                                    old_index[r]
                                },
                        );
                        assert forall|r: Seq<char>| #[trigger] self@.index[r] == target[r] by {
                            if r == role@ {
                                assert(roles.take(i + 1).to_set().contains(r));
                            }
                        }
                        assert(self@.index =~= target);
                    }
                    i = i + 1;
                }
                assert(roles.take(i as int) =~= roles);
                assert(self@.index =~= old(self)@.with_entity_removed(id).index);
                Some(e)
            },
            None => None,
        }
    }

    /// The entity stored under `id`.
    pub fn get(&self, id: EntityId) -> (r: Option<&Entity>)
        ensures
            r is Some <==> self@.has(id),
            r matches Some(e) ==> e@ == self@.entity(id),
    {
        self.entities.get(id)
    }

    /// `true` when the index lists `id` under `role`.
    fn role_lists(&self, role: &str, id: EntityId) -> (r: bool)
        ensures
            r == self@.index[role@].contains(id),
    {
        match self.role_index.get(role) {
            Some(l) => l.contains(id),
            None => false,
        }
    }

    /// Mutable access to the entity stored under `id`; changes made through it
    /// bypass the role index.
    pub fn get_mut(&mut self, id: EntityId) -> (r: Option<&mut Entity>)
        ensures
            r is Some <==> old(self)@.has(id),
            r is None ==> final(self)@ == old(self)@,
            r matches Some(e) ==> e@ == old(self)@.entity(id) && final(self)@ == (PoolView {
                entries: assoc_put(old(self)@.entries, id, final(e)@),
                ..old(self)@
            }),
    {
        match self.entities.index_of(id) {
            Some(i) => Some(self.entities.value_mut(i)),
            None => None,
        }
    }

    /// Return all living entities that the index lists under `role`.
    pub fn get_by_role(&self, role: &str) -> (r: Vec<&Entity>)
        ensures
            r@.map_values(|e: &Entity| e@) == self@.role_members(role@),
    {
        let ghost s = self@.entries;
        let ghost f = |p: (EntityId, EntityView)| self@.index[role@].contains(p.0) && p.1.alive;
        let ghost g = |p: (EntityId, EntityView)| p.1;
        let mut out: Vec<&Entity> = Vec::new();
        let mut i: usize = 0;
        assert(out@.map_values(|e: &Entity| e@) =~= s.take(0).filter(f).map_values(g)) by {
            reveal_with_fuel(Seq::filter, 1);
        }
        while i < self.entities.len()
            invariant
                i <= s.len(),
                s == self@.entries,
                f == (|p: (EntityId, EntityView)| self@.index[role@].contains(p.0) && p.1.alive),
                g == (|p: (EntityId, EntityView)| p.1),
                out@.map_values(|e: &Entity| e@) == s.take(i as int).filter(f).map_values(g),
            decreases s.len() - i,
        {
            proof { lemma_filter_take_step(s, f, i as int); }
            let e = self.entities.value_at(i);
            let k = self.entities.key_at(i);
            if e.alive && self.role_lists(role, k) {
                let ghost prev = out@;
                out.push(e);
                proof {
                    lemma_map_push(prev, e, |e: &Entity| e@);
                    lemma_map_push(s.take(i as int).filter(f), s[i as int], g);
                }
            }
            i = i + 1;
        }
        assert(s.take(i as int) =~= s);
        out
    }

    /// Return all living entities of the given `kind`.
    pub fn get_by_kind(&self, kind: &str) -> (r: Vec<&Entity>)
        ensures
            r@.map_values(|e: &Entity| e@) == self@.kind_members(kind@),
    {
        let ghost s = self@.entries;
        let ghost f = |p: (EntityId, EntityView)| p.1.kind == kind@ && p.1.alive;
        let ghost g = |p: (EntityId, EntityView)| p.1;
        let mut out: Vec<&Entity> = Vec::new();
        let mut i: usize = 0;
        assert(out@.map_values(|e: &Entity| e@) =~= s.take(0).filter(f).map_values(g)) by {
            reveal_with_fuel(Seq::filter, 1);
        }
        while i < self.entities.len()
            invariant
                i <= s.len(),
                s == self@.entries,
                f == (|p: (EntityId, EntityView)| p.1.kind == kind@ && p.1.alive),
                g == (|p: (EntityId, EntityView)| p.1),
                out@.map_values(|e: &Entity| e@) == s.take(i as int).filter(f).map_values(g),
            decreases s.len() - i,
        {
            proof { lemma_filter_take_step(s, f, i as int); }
            let e = self.entities.value_at(i);
            if e.alive && crate::text::str_eq(e.kind.as_str(), kind) {
                let ghost prev = out@;
                out.push(e);
                proof {
                    lemma_map_push(prev, e, |e: &Entity| e@);
                    lemma_map_push(s.take(i as int).filter(f), s[i as int], g);
                }
            }
            i = i + 1;
        }
        assert(s.take(i as int) =~= s);
        out
    }

    /// Every entity, alive or dead.
    pub fn all_entities(&self) -> (r: Vec<&Entity>)
        ensures
            r@.map_values(|e: &Entity| e@) == self@.all(),
    {
        let ghost s = self@.entries;
        let mut out: Vec<&Entity> = Vec::new();
        let mut i: usize = 0;
        while i < self.entities.len()
            invariant
                i <= s.len(),
                s == self@.entries,
                out@.map_values(|e: &Entity| e@) == s.take(i as int).map_values(
                    |p: (EntityId, EntityView)| p.1,
                ),
            decreases s.len() - i,
        {
            let e = self.entities.value_at(i);
            let ghost prev = out@;
            out.push(e);
            proof {
                lemma_map_push(prev, e, |e: &Entity| e@);
                assert(s.take(i + 1) =~= s.take(i as int).push(s[i as int]));
                lemma_map_push(s.take(i as int), s[i as int], |p: (EntityId, EntityView)| p.1);
            }
            i = i + 1;
        }
        assert(s.take(i as int) =~= s);
        out
    }

    /// `true` when no living entity is listed under `role`.
    pub fn is_role_vacant(&self, role: &str) -> (r: bool)
        ensures
            r == (self@.role_members(role@).len() == 0),
    {
        let members = self.get_by_role(role);
        members.len() == 0
    }

    /// Add or remove a role on the entity stored under `id` while keeping the
    /// role index in step; no effect when no entity is stored under `id`.
    pub fn update_entity_role(&mut self, id: EntityId, role: String, add: bool)
        ensures
            final(self)@ == old(self)@.with_role(id, role@, add),
            old(self)@.index_consistent() ==> final(self)@.index_consistent(),
    {
        proof {
            if self@.index_consistent() {
                crate::index::lemma_role_keeps_index(self@, id, role@, add);
            }
        }
        match self.entities.index_of(id) {
            Some(i) => {
                let ghost old_entries = self@.entries;
                let e = self.entities.value_mut(i);
                if add {
                    e.roles.insert(role.clone());
                } else {
                    e.roles.remove(role.as_str());
                }
                proof {
                    let e2 = self@.entries[i as int].1;
                    assert(self@.entries == assoc_put(old_entries, id, e2));
                }
                if add {
                    self.index_insert(&role, id);
                } else {
                    self.index_remove(&role, id);
                }
            },
            None => {},
        }
    }

    /// Apply one diff to the entity stored under `id`.
    fn apply_entity_diff(&mut self, id: EntityId, d: &EntityDiff)
        ensures
            final(self)@ == old(self)@.with_diff_applied(id, d@),
    {
        let ghost dv = d@;
        match self.entities.index_of(id) {
            Some(i) => {
                let e = self.entities.value_mut(i);
                e.apply_diff(d);
            },
            None => {},
        }
        let ghost p1 = self@;
        let mut j: usize = 0;
        while j < d.role_diff.added.len()
            invariant
                dv == d@,
                j <= dv.roles_added.len(),
                self@ == p1.with_roles(id, dv.roles_added.take(j as int), true),
            decreases dv.roles_added.len() - j,
        {
            assert(dv.roles_added[j as int] == d.role_diff.added@[j as int]@);
            self.update_entity_role(id, d.role_diff.added[j].clone(), true);
            assert(dv.roles_added.take(j + 1).drop_last() =~= dv.roles_added.take(j as int));
            j = j + 1;
        }
        assert(dv.roles_added.take(j as int) =~= dv.roles_added);
        let ghost p2 = self@;
        let mut k: usize = 0;
        while k < d.role_diff.removed.len()
            invariant
                dv == d@,
                k <= dv.roles_removed.len(),
                self@ == p2.with_roles(id, dv.roles_removed.take(k as int), false),
            decreases dv.roles_removed.len() - k,
        {
            assert(dv.roles_removed[k as int] == d.role_diff.removed@[k as int]@);
            self.update_entity_role(id, d.role_diff.removed[k].clone(), false);
            assert(dv.roles_removed.take(k + 1).drop_last() =~= dv.roles_removed.take(k as int));
            k = k + 1;
        }
        assert(dv.roles_removed.take(k as int) =~= dv.roles_removed);
    }

    /// Apply a [`Delta`] to this pool in place: add its entities, then apply its
    /// diffs, then remove its removed entities.
    pub fn apply_delta(&mut self, delta: &Delta)
        ensures
            final(self)@ == old(self)@.with_delta(delta@),
            old(self)@.index_consistent() ==> final(self)@.index_consistent(),
    {
        proof {
            if self@.index_consistent() {
                crate::index::law_apply_delta_keeps_index(self@, delta@);
            }
        }
        let ghost dv = delta@;
        let mut i: usize = 0;
        while i < delta.added_entities.len()
            invariant
                dv == delta@,
                i <= dv.added.len(),
                self@ == old(self)@.with_entities_added(dv.added.take(i as int)),
            decreases dv.added.len() - i,
        {
            let e = delta.added_entities.value_at(i).deep_copy();
            self.add_entity(e);
            assert(dv.added.take(i + 1).drop_last() =~= dv.added.take(i as int));
            i = i + 1;
        }
        assert(dv.added.take(i as int) =~= dv.added);
        let ghost p1 = self@;
        let mut j: usize = 0;
        while j < delta.modified_entities.len()
            invariant
                dv == delta@,
                j <= dv.modified.len(),
                self@ == p1.with_diffs_applied(dv.modified.take(j as int)),
            decreases dv.modified.len() - j,
        {
            let id = delta.modified_entities.key_at(j);
            self.apply_entity_diff(id, delta.modified_entities.value_at(j));
            assert(dv.modified.take(j + 1).drop_last() =~= dv.modified.take(j as int));
            j = j + 1;
        }
        assert(dv.modified.take(j as int) =~= dv.modified);
        let ghost p2 = self@;
        let mut k: usize = 0;
        while k < delta.removed_entities.len()
            invariant
                dv == delta@,
                k <= dv.removed.len(),
                self@ == p2.with_entities_removed(dv.removed.take(k as int)),
            decreases dv.removed.len() - k,
        {
            self.remove_entity(delta.removed_entities.at(k));
            assert(dv.removed.take(k + 1).drop_last() =~= dv.removed.take(k as int));
            k = k + 1;
        }
        assert(dv.removed.take(k as int) =~= dv.removed);
    }

    /// Number of entities in the pool (alive or dead).
    pub fn len(&self) -> (r: usize)
        ensures
            r == self@.entries.len(),
    {
        self.entities.len()
    }

    pub fn is_empty(&self) -> (r: bool)
        ensures
            r == (self@.entries.len() == 0),
    {
        self.entities.is_empty()
    }
}

impl DeepCopy for EntityPool {
    fn deep_copy(&self) -> (r: EntityPool) {
        EntityPool { entities: self.entities.deep_copy(), role_index: self.role_index.deep_copy() }
    }
}


/// Asking to add a relationship never takes a list within the Dunbar number beyond it.
pub proof fn law_dunbar_cap(rels: Seq<EntityId>, other: EntityId)
    requires
        rels.len() <= DUNBAR_NUMBER,
    ensures
        relationship_added(rels, other).len() <= DUNBAR_NUMBER,
{
}

/// Asking to add a relationship that is already listed changes nothing, so
/// asking twice is the same as asking once; afterwards `other` is listed
/// unless the list was full.
pub proof fn law_add_relationship_idempotent(rels: Seq<EntityId>, other: EntityId)
    ensures
        relationship_added(relationship_added(rels, other), other) == relationship_added(rels, other),
        rels.len() < DUNBAR_NUMBER ==> relationship_added(rels, other).contains(other),
{
    if !rels.contains(other) && rels.len() < DUNBAR_NUMBER {
        assert(rels.push(other)[rels.len() as int] == other);
    }
}

/// Filtering keeps a sequence free of repeats.
pub proof fn lemma_filter_no_duplicates<A>(s: Seq<A>, p: spec_fn(A) -> bool)
    requires
        s.no_duplicates(),
    ensures
        s.filter(p).no_duplicates(),
    decreases s.len(),
{
    reveal_with_fuel(Seq::filter, 1);
    if s.len() > 0 {
        let r = s.drop_last();
        assert(r.no_duplicates()) by {
            assert forall|a: int, b: int| 0 <= a < r.len() && 0 <= b < r.len() && a != b implies r[a] != r[b] by {
                assert(r[a] == s[a] && r[b] == s[b]);
            }
        }
        lemma_filter_no_duplicates(r, p);
        let rf = r.filter(p);
        if p(s.last()) {
            assert(!rf.contains(s.last())) by {
                crate::assoc::lemma_filter_member(r, p, s.last());
                if r.contains(s.last()) {
                    let j = choose|j: int| 0 <= j < r.len() && r[j] == s.last();
                    assert(s[j] == s[s.len() - 1]);
                }
            }
            let t = rf.push(s.last());
            assert forall|a: int, b: int| 0 <= a < t.len() && 0 <= b < t.len() && a != b implies t[a] != t[b] by {
                if a < rf.len() && b < rf.len() {
                } else if a < rf.len() {
                    assert(rf.contains(rf[a]));
                } else if b < rf.len() {
                    assert(rf.contains(rf[b]));
                }
            }
        }
    }
}

/// Adding and removing relationships keep a list free of repeats; after a
/// removal the removed entity is no longer listed.
pub proof fn law_relationships_distinct(rels: Seq<EntityId>, other: EntityId)
    requires
        rels.no_duplicates(),
    ensures
        relationship_added(rels, other).no_duplicates(),
        relationship_removed(rels, other).no_duplicates(),
        !relationship_removed(rels, other).contains(other),
{
    if !rels.contains(other) && rels.len() < DUNBAR_NUMBER {
        let t = rels.push(other);
        assert forall|a: int, b: int| 0 <= a < t.len() && 0 <= b < t.len() && a != b implies t[a] != t[b] by {
            if a < rels.len() && b < rels.len() {
            } else if a < rels.len() {
                assert(rels.contains(rels[a]));
            } else if b < rels.len() {
                assert(rels.contains(rels[b]));
            }
        }
    }
    lemma_filter_no_duplicates(rels, id_differs(other));
    crate::assoc::lemma_filter_member(rels, id_differs(other), other);
}

/// Asking to add each of several relationships keeps a list within the Dunbar number.
pub proof fn lemma_relationships_added_cap(rels: Seq<EntityId>, adds: Seq<EntityId>)
    requires
        rels.len() <= DUNBAR_NUMBER,
    ensures
        relationships_added(rels, adds).len() <= DUNBAR_NUMBER,
    decreases adds.len(),
{
    if adds.len() > 0 {
        lemma_relationships_added_cap(rels, adds.drop_last());
    }
}

/// Removing relationships never lengthens a list.
pub proof fn lemma_relationships_removed_len(rels: Seq<EntityId>, rems: Seq<EntityId>)
    ensures
        relationships_removed(rels, rems).len() <= rels.len(),
    decreases rems.len(),
{
    if rems.len() > 0 {
        lemma_relationships_removed_len(rels, rems.drop_last());
        relationships_removed(rels, rems.drop_last()).lemma_filter_len(id_differs(rems.last()));
    }
}

/// Every entity of `s` has a relationship list within the Dunbar number.
pub open spec fn entries_within_dunbar(s: Seq<(EntityId, EntityView)>) -> bool {
    forall|x: (EntityId, EntityView)| #[trigger] s.contains(x) ==> x.1.relationships.len() <= DUNBAR_NUMBER
}

impl PoolView {
    /// Every stored entity's relationship list is within the Dunbar number.
    pub open spec fn within_dunbar(self) -> bool {
        entries_within_dunbar(self.entries)
    }
}

/// A stored key's first pair is a member of the sequence.
pub proof fn lemma_stored_member<V>(s: Seq<(EntityId, V)>, id: EntityId)
    requires
        has_key(s, id),
    ensures
        s.contains((id, as_map(s)[id])),
{
    lemma_first_index(s, id);
    let i = first_index(s, id);
    assert(s[i] == (id, as_map(s)[id]));
}

/// Every member of `assoc_put(s, k, v)` is `(k, v)` or a member of `s`.
pub proof fn lemma_put_members<V>(s: Seq<(EntityId, V)>, k: EntityId, v: V, x: (EntityId, V))
    requires
        assoc_put(s, k, v).contains(x),
    ensures
        x == (k, v) || s.contains(x),
{
    crate::assoc::lemma_assoc_put_entries(s, k, v);
    let t = assoc_put(s, k, v);
    let i = choose|i: int| 0 <= i < t.len() && t[i] == x;
    if x != (k, v) {
        assert(s[i] == x);
    }
}

/// Putting an entity within the Dunbar number keeps a pool's entries within it.
pub proof fn lemma_put_within(s: Seq<(EntityId, EntityView)>, id: EntityId, e: EntityView)
    requires
        entries_within_dunbar(s),
        e.relationships.len() <= DUNBAR_NUMBER,
    ensures
        entries_within_dunbar(assoc_put(s, id, e)),
{
    assert forall|x: (EntityId, EntityView)| #[trigger] assoc_put(s, id, e).contains(x) implies x.1.relationships.len()
        <= DUNBAR_NUMBER by {
        lemma_put_members(s, id, e, x);
    }
}

/// Changing roles keeps a pool within the Dunbar number.
pub proof fn lemma_roles_within(p: PoolView, id: EntityId, roles: Seq<Seq<char>>, add: bool)
    requires
        p.within_dunbar(),
    ensures
        p.with_roles(id, roles, add).within_dunbar(),
    decreases roles.len(),
{
    if roles.len() > 0 {
        lemma_roles_within(p, id, roles.drop_last(), add);
        let q = p.with_roles(id, roles.drop_last(), add);
        if q.has(id) {
            lemma_stored_member(q.entries, id);
            let e = q.entity(id);
            lemma_put_within(
                q.entries,
                id,
                EntityView {
                    roles: if add {
                        e.roles.insert(roles.last())
                    } else {
                        e.roles.remove(roles.last())
                    },
                    ..e
                },
            );
        }
    }
}

/// Applying a diff keeps a pool within the Dunbar number.
pub proof fn lemma_diff_within(p: PoolView, id: EntityId, d: DiffView)
    requires
        p.within_dunbar(),
    ensures
        p.with_diff_applied(id, d).within_dunbar(),
{
    let p1 = if p.has(id) {
        PoolView { entries: assoc_put(p.entries, id, patched(p.entity(id), d)), ..p }
    } else {
        p
    };
    if p.has(id) {
        lemma_stored_member(p.entries, id);
        let e = p.entity(id);
        lemma_relationships_added_cap(e.relationships, d.rels_added);
        lemma_relationships_removed_len(relationships_added(e.relationships, d.rels_added), d.rels_removed);
        lemma_put_within(p.entries, id, patched(e, d));
    }
    lemma_roles_within(p1, id, d.roles_added, true);
    lemma_roles_within(p1.with_roles(id, d.roles_added, true), id, d.roles_removed, false);
}

/// Applying a delta keeps a pool within the Dunbar number when the entities it
/// adds are within it: no step lets an entity exceed [`DUNBAR_NUMBER`] relationships.
pub proof fn law_apply_delta_within_dunbar(p: PoolView, d: DeltaView)
    requires
        p.within_dunbar(),
        forall|x: (EntityId, EntityView)| #[trigger] d.added.contains(x) ==> x.1.relationships.len() <= DUNBAR_NUMBER,
    ensures
        p.with_delta(d).within_dunbar(),
{
    lemma_adds_within(p, d.added);
    let p1 = p.with_entities_added(d.added);
    lemma_diffs_within(p1, d.modified);
    lemma_removes_within(p1.with_diffs_applied(d.modified), d.removed);
}

proof fn lemma_adds_within(p: PoolView, es: Seq<(EntityId, EntityView)>)
    requires
        p.within_dunbar(),
        forall|x: (EntityId, EntityView)| #[trigger] es.contains(x) ==> x.1.relationships.len() <= DUNBAR_NUMBER,
    ensures
        p.with_entities_added(es).within_dunbar(),
    decreases es.len(),
{
    if es.len() > 0 {
        assert forall|x: (EntityId, EntityView)| #[trigger] es.drop_last().contains(x) implies x.1.relationships.len()
            <= DUNBAR_NUMBER by {
            let j = choose|j: int| 0 <= j < es.len() - 1 && es.drop_last()[j] == x;
            assert(es[j] == x);
            assert(es.contains(x));
        }
        lemma_adds_within(p, es.drop_last());
        let q = p.with_entities_added(es.drop_last());
        let e = es.last().1;
        assert(es.contains(es[es.len() - 1]));
        assert(e.relationships.len() <= DUNBAR_NUMBER);
        assert forall|x: (EntityId, EntityView)| #[trigger] assoc_put(q.entries, e.id, e).contains(x) implies x.1.relationships.len()
            <= DUNBAR_NUMBER by {
            lemma_put_members(q.entries, e.id, e, x);
        }
    }
}

proof fn lemma_diffs_within(p: PoolView, ds: Seq<(EntityId, DiffView)>)
    requires
        p.within_dunbar(),
    ensures
        p.with_diffs_applied(ds).within_dunbar(),
    decreases ds.len(),
{
    if ds.len() > 0 {
        lemma_diffs_within(p, ds.drop_last());
        lemma_diff_within(p.with_diffs_applied(ds.drop_last()), ds.last().0, ds.last().1);
    }
}

proof fn lemma_removes_within(p: PoolView, ids: Seq<EntityId>)
    requires
        p.within_dunbar(),
    ensures
        p.with_entities_removed(ids).within_dunbar(),
    decreases ids.len(),
{
    if ids.len() > 0 {
        lemma_removes_within(p, ids.drop_last());
        let q = p.with_entities_removed(ids.drop_last());
        let id = ids.last();
        if q.has(id) {
            assert forall|x: (EntityId, EntityView)| #[trigger] assoc_drop(q.entries, id).contains(x) implies x.1.relationships.len()
                <= DUNBAR_NUMBER by {
                crate::assoc::lemma_filter_member(q.entries, crate::assoc::key_differs(id), x);
            }
        }
    }
}

/// Adding an entity stores it under its ID, where the pool finds it, and every
/// other ID keeps what it had.
pub proof fn law_pool_add_then_get(p: PoolView, e: EntityView, other: EntityId)
    ensures
        p.with_entity_added(e).has(e.id),
        p.with_entity_added(e).entity(e.id) == e,
        other != e.id ==> p.with_entity_added(e).has(other) == p.has(other),
        other != e.id ==> p.with_entity_added(e).entity(other) == p.entity(other),
{
    crate::assoc::lemma_put_same(p.entries, e.id, e);
    if other != e.id {
        crate::assoc::lemma_put_other(p.entries, e.id, e, other);
    }
}

/// Removing an entity leaves nothing under its ID, and every other ID keeps what it had.
pub proof fn law_pool_remove_then_get(p: PoolView, id: EntityId, other: EntityId)
    ensures
        !p.with_entity_removed(id).has(id),
        other != id ==> p.with_entity_removed(id).has(other) == p.has(other),
        other != id ==> p.with_entity_removed(id).entity(other) == p.entity(other),
{
    if p.has(id) {
        crate::assoc::lemma_as_map_drop(p.entries, id);
        assert(!as_map(assoc_drop(p.entries, id)).dom().contains(id));
        if other != id {
            assert(as_map(assoc_drop(p.entries, id)).dom().contains(other) == as_map(p.entries).dom().contains(other));
        }
    }
}

/// Applying an empty delta changes nothing.
pub proof fn law_empty_delta(p: PoolView)
    ensures
        p.with_delta(DeltaView::empty()) == p,
{
}

} // verus!
