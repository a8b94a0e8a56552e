//! Incremental diff model.
//!
//! A [`Delta`] describes only what changed between two consecutive timeline
//! nodes; replaying the deltas from the root rebuilds the entity-pool state.

use vstd::prelude::*;

use crate::assoc::{as_map, assoc_put, has_key, key_absent, lemma_filter_take_step, lemma_first_index, lemma_map_push};
use crate::causal::{events_view, strings_view, CausalEvent, EventView};
pub use crate::entity::Entity;
use crate::entity::{EntityView, Properties};
use crate::keyed::{IdList, IdMap, TextMap};
use crate::text::{str_eq, DeepCopy};
use crate::types::EntityId;
use crate::value::{Value, ValueModel};

verus! {

/// Changes to an entity's key-value properties.
#[derive(Debug, Clone)]
pub struct PropertyDiff {
    /// Properties that were added or whose value changed.
    pub upserted: Properties,
    /// Property keys that were removed.
    pub removed: Vec<String>,
}

/// Changes to an entity's direct relationships.
#[derive(Debug, Clone, Default)]
pub struct RelationshipDiff {
    pub added: Vec<EntityId>,
    pub removed: Vec<EntityId>,
}

/// Changes to the roles an entity fills.
#[derive(Debug, Clone, Default)]
pub struct RoleDiff {
    pub added: Vec<String>,
    pub removed: Vec<String>,
}

/// All patches applied to a single existing entity in one time step.
#[derive(Debug, Clone)]
pub struct EntityDiff {
    pub property_diff: PropertyDiff,
    pub relationship_diff: RelationshipDiff,
    pub role_diff: RoleDiff,
    /// `Some(false)`: the entity died; `Some(true)`: it was revived.
    pub alive_change: Option<bool>,
}

/// The content of an [`EntityDiff`]; the upserted properties are kept as
/// their stored pairs, in storage order.
pub struct DiffView {
    pub upserted: Seq<(Seq<char>, ValueModel)>,
    pub props_removed: Seq<Seq<char>>,
    pub rels_added: Seq<EntityId>,
    pub rels_removed: Seq<EntityId>,
    pub roles_added: Seq<Seq<char>>,
    pub roles_removed: Seq<Seq<char>>,
    pub alive_change: Option<bool>,
}

impl View for EntityDiff {
    type V = DiffView;

    open spec fn view(&self) -> DiffView {
        DiffView {
            upserted: self.property_diff.upserted.pairs(),
            props_removed: strings_view(self.property_diff.removed@),
            rels_added: self.relationship_diff.added@,
            rels_removed: self.relationship_diff.removed@,
            roles_added: strings_view(self.role_diff.added@),
            roles_removed: strings_view(self.role_diff.removed@),
            alive_change: self.alive_change,
        }
    }
}

impl DiffView {
    pub open spec fn empty() -> DiffView {
        DiffView {
            upserted: Seq::empty(),
            props_removed: Seq::empty(),
            rels_added: Seq::empty(),
            rels_removed: Seq::empty(),
            roles_added: Seq::empty(),
            roles_removed: Seq::empty(),
            alive_change: None,
        }
    }

    /// `self` followed by `other`, the later change winning: property upserts of
    /// `other` put over those of `self`; a removal in `self` of a property that
    /// `other` sets, of a relationship that `other` adds or of a role that
    /// `other` gives dropped; every list otherwise concatenated; and `other`'s
    /// alive change winning.
    pub open spec fn merged(self, other: DiffView) -> DiffView {
        DiffView {
            upserted: puts_all(self.upserted, other.upserted),
            props_removed: self.props_removed.filter(key_absent(other.upserted)) + other.props_removed,
            rels_added: self.rels_added + other.rels_added,
            rels_removed: self.rels_removed.filter(not_listed(other.rels_added)) + other.rels_removed,
            roles_added: self.roles_added + other.roles_added,
            roles_removed: self.roles_removed.filter(not_listed(other.roles_added)) + other.roles_removed,
            alive_change: if other.alive_change is Some {
                other.alive_change
            } else {
                self.alive_change
            },
        }
    }
}

/// The test that an item is not in the list `s`.
pub open spec fn not_listed<A>(s: Seq<A>) -> spec_fn(A) -> bool {
    |x: A| !s.contains(x)
}

/// `s` after putting each pair of `t`, in order.
pub open spec fn puts_all<K, V>(s: Seq<(K, V)>, t: Seq<(K, V)>) -> Seq<(K, V)>
    decreases t.len(),
{
    if t.len() == 0 {
        s
    } else {
        assoc_put(puts_all(s, t.drop_last()), t.last().0, t.last().1)
    }
}

/// The diff stored for `id` in `s`, or the empty diff.
pub open spec fn diff_for(s: Seq<(EntityId, DiffView)>, id: EntityId) -> DiffView {
    if has_key(s, id) {
        as_map(s)[id]
    } else {
        DiffView::empty()
    }
}

/// `s` after merging each diff of `t` into the diff for its key, in order.
pub open spec fn merge_diffs(s: Seq<(EntityId, DiffView)>, t: Seq<(EntityId, DiffView)>) -> Seq<
    (EntityId, DiffView),
>
    decreases t.len(),
{
    if t.len() == 0 {
        s
    } else {
        let m = merge_diffs(s, t.drop_last());
        assoc_put(m, t.last().0, diff_for(m, t.last().0).merged(t.last().1))
    }
}

/// `s` after appending each identifier of `t` that it does not list yet.
pub open spec fn ids_union(s: Seq<EntityId>, t: Seq<EntityId>) -> Seq<EntityId>
    decreases t.len(),
{
    if t.len() == 0 {
        s
    } else {
        let u = ids_union(s, t.drop_last());
        if u.contains(t.last()) {
            u
        } else {
            u.push(t.last())
        }
    }
}

/// The complete set of world changes occurring in one timeline step.
#[derive(Debug, Clone)]
pub struct Delta {
    /// Brand-new entities introduced this step.
    pub added_entities: IdMap<Entity>,
    /// Patches to entities that already existed.
    pub modified_entities: IdMap<EntityDiff>,
    /// Entities permanently removed from the pool.
    pub removed_entities: IdList,
    /// Causal events triggered (not yet applied) this step.
    pub events: Vec<CausalEvent>,
}

/// The content of a [`Delta`].
pub struct DeltaView {
    pub added: Seq<(EntityId, EntityView)>,
    pub modified: Seq<(EntityId, DiffView)>,
    pub removed: Seq<EntityId>,
    pub events: Seq<EventView>,
}

impl View for Delta {
    type V = DeltaView;

    open spec fn view(&self) -> DeltaView {
        DeltaView {
            added: self.added_entities@,
            modified: self.modified_entities@,
            removed: self.removed_entities@,
            events: events_view(self.events@),
        }
    }
}

impl DeltaView {
    pub open spec fn empty() -> DeltaView {
        DeltaView {
            added: Seq::empty(),
            modified: Seq::empty(),
            removed: Seq::empty(),
            events: Seq::empty(),
        }
    }

    pub open spec fn is_empty(self) -> bool {
        &&& self.added.len() == 0
        &&& self.modified.len() == 0
        &&& self.removed.len() == 0
        &&& self.events.len() == 0
    }

    /// `self` absorbing `other`, the later change winning: added entities put,
    /// diffs merged per key, a removal in `self` of an entity that `other` adds
    /// dropped and the removals of `other` united in, events appended.
    pub open spec fn merged(self, other: DeltaView) -> DeltaView {
        DeltaView {
            added: puts_all(self.added, other.added),
            modified: merge_diffs(self.modified, other.modified),
            removed: ids_union(self.removed.filter(key_absent(other.added)), other.removed),
            events: self.events + other.events,
        }
    }

    /// Each map of the delta stores a key at most once (its added entities, its
    /// diffs, and the property upserts of each diff) and no removal repeats.
    pub open spec fn keyed(self) -> bool {
        &&& keys_distinct(self.added)
        &&& keys_distinct(self.modified)
        &&& crate::merge::upserts_distinct(self.modified)
        &&& self.removed.no_duplicates()
    }

    /// `self` with the diff for `id` replaced by `d`.
    pub open spec fn with_diff(self, id: EntityId, d: DiffView) -> DeltaView {
        DeltaView { modified: assoc_put(self.modified, id, d), ..self }
    }

    /// The diff that `self` holds for `id`, or the empty diff.
    pub open spec fn diff(self, id: EntityId) -> DiffView {
        diff_for(self.modified, id)
    }
}

impl PropertyDiff {
    pub fn new() -> (r: PropertyDiff)
        ensures
            r.upserted.pairs() == Seq::<(Seq<char>, ValueModel)>::empty(),
            r.removed@ == Seq::<String>::empty(),
    {
        PropertyDiff { upserted: TextMap::new(), removed: Vec::new() }
    }
}

impl Default for PropertyDiff {
    fn default() -> (r: PropertyDiff)
        ensures
            r.upserted.pairs() == Seq::<(Seq<char>, ValueModel)>::empty(),
            r.removed@ == Seq::<String>::empty(),
    {
        PropertyDiff::new()
    }
}

impl Default for EntityDiff {
    fn default() -> (r: EntityDiff)
        ensures
            r@ == DiffView::empty(),
    {
        EntityDiff::empty()
    }
}

/// Append copies of the strings of `src` to `dst`.
pub fn extend_strings(dst: &mut Vec<String>, src: &Vec<String>)
    ensures
        strings_view(final(dst)@) == strings_view(old(dst)@) + strings_view(src@),
{
    let mut i: usize = 0;
    while i < src.len()
        invariant
            i <= src@.len(),
            strings_view(dst@) == strings_view(old(dst)@) + strings_view(src@).take(i as int),
        decreases src@.len() - i,
    {
        let c = src[i].clone();
        let ghost prev = dst@;
        dst.push(c);
        proof {
            lemma_map_push(prev, c, |s: String| s@);
            assert(strings_view(src@).take(i + 1) =~= strings_view(src@).take(i as int).push(c@));
            assert(strings_view(dst@) =~= strings_view(old(dst)@) + strings_view(src@).take(i + 1));
        }
        i = i + 1;
    }
    assert(strings_view(src@).take(i as int) =~= strings_view(src@));
}

/// Append the identifiers of `src` to `dst`.
pub fn extend_ids(dst: &mut Vec<EntityId>, src: &Vec<EntityId>)
    ensures
        final(dst)@ == old(dst)@ + src@,
{
    let mut i: usize = 0;
    while i < src.len()
        invariant
            i <= src@.len(),
            dst@ == old(dst)@ + src@.take(i as int),
        decreases src@.len() - i,
    {
        dst.push(src[i]);
        assert(dst@ =~= old(dst)@ + src@.take(i + 1));
        i = i + 1;
    }
    assert(src@.take(i as int) =~= src@);
}

/// The keys of `keys` that `ups` does not set, in order.
fn keys_not_set(keys: &Vec<String>, ups: &Properties) -> (r: Vec<String>)
    ensures
        strings_view(r@) == strings_view(keys@).filter(key_absent(ups.pairs())),
{
    let ghost f = key_absent(ups.pairs());
    let ghost orig = strings_view(keys@);
    let mut r: Vec<String> = Vec::new();
    assert(strings_view(r@) =~= orig.take(0).filter(f)) by {
        reveal_with_fuel(Seq::filter, 1);
    }
    let mut i: usize = 0;
    while i < keys.len()
        invariant
            i <= keys@.len(),
            orig == strings_view(keys@),
            f == key_absent(ups.pairs()),
            strings_view(r@) == orig.take(i as int).filter(f),
        decreases keys@.len() - i,
    {
        proof { lemma_filter_take_step(orig, f, i as int); }
        if !ups.contains_key(keys[i].as_str()) {
            let c = keys[i].deep_copy();
            let ghost prev = r@;
            r.push(c);
            proof { lemma_map_push(prev, c, |s: String| s@); }
        }
        i = i + 1;
    }
    assert(orig.take(i as int) =~= orig);
    r
}

/// Whether `s` lists a string equal to `x`.
fn strings_contain(s: &Vec<String>, x: &str) -> (r: bool)
    ensures
        r == strings_view(s@).contains(x@),
{
    let mut i: usize = 0;
    while i < s.len()
        invariant
            i <= s@.len(),
            forall|j: int| 0 <= j < i ==> strings_view(s@)[j] != x@,
        decreases s@.len() - i,
    {
        if str_eq(s[i].as_str(), x) {
            assert(strings_view(s@)[i as int] == x@);
            return true;
        }
        i = i + 1;
    }
    false
}

/// The strings of `keys` not listed in `other`, in order.
fn strings_not_in(keys: &Vec<String>, other: &Vec<String>) -> (r: Vec<String>)
    ensures
        strings_view(r@) == strings_view(keys@).filter(not_listed(strings_view(other@))),
{
    let ghost f = not_listed(strings_view(other@));
    let ghost orig = strings_view(keys@);
    let mut r: Vec<String> = Vec::new();
    assert(strings_view(r@) =~= orig.take(0).filter(f)) by {
        reveal_with_fuel(Seq::filter, 1);
    }
    let mut i: usize = 0;
    while i < keys.len()
        invariant
            i <= keys@.len(),
            orig == strings_view(keys@),
            f == not_listed(strings_view(other@)),
            strings_view(r@) == orig.take(i as int).filter(f),
        decreases keys@.len() - i,
    {
        proof { lemma_filter_take_step(orig, f, i as int); }
        if !strings_contain(other, keys[i].as_str()) {
            let c = keys[i].deep_copy();
            let ghost prev = r@;
            r.push(c);
            proof { lemma_map_push(prev, c, |s: String| s@); }
        }
        i = i + 1;
    }
    assert(orig.take(i as int) =~= orig);
    r
}

/// The identifiers of `keys` not listed in `other`, in order.
fn ids_not_in(keys: &Vec<EntityId>, other: &Vec<EntityId>) -> (r: Vec<EntityId>)
    ensures
        r@ == keys@.filter(not_listed(other@)),
{
    let ghost f = not_listed(other@);
    let mut r: Vec<EntityId> = Vec::new();
    assert(r@ =~= keys@.take(0).filter(f)) by {
        reveal_with_fuel(Seq::filter, 1);
    }
    let mut i: usize = 0;
    while i < keys.len()
        invariant
            i <= keys@.len(),
            f == not_listed(other@),
            r@ == keys@.take(i as int).filter(f),
        decreases keys@.len() - i,
    {
        proof { lemma_filter_take_step(keys@, f, i as int); }
        let x = keys[i];
        let mut listed = false;
        let mut j: usize = 0;
        while j < other.len()
            invariant
                j <= other@.len(),
                listed == other@.take(j as int).contains(x),
            decreases other@.len() - j,
        {
            proof {
                assert(other@.take(j + 1) =~= other@.take(j as int).push(other@[j as int]));
                lemma_concat_contains(other@.take(j as int), seq![other@[j as int]], x);
                assert(other@.take(j as int).push(other@[j as int]) =~= other@.take(j as int) + seq![other@[j as int]]);
                assert(seq![other@[j as int]][0] == other@[j as int]);
                assert(seq![other@[j as int]].contains(x) == (other@[j as int] == x));
            }
            if other[j] == x {
                listed = true;
            }
            j = j + 1;
        }
        assert(other@.take(j as int) =~= other@);
        if !listed {
            r.push(x);
        }
        i = i + 1;
    }
    assert(keys@.take(i as int) =~= keys@);
    r
}

impl EntityDiff {
    /// Merge `other` into `self`, `other` taking precedence for conflicting
    /// changes: a property value it sets overrides both an earlier value and an
    /// earlier removal, a relationship it adds or a role it gives overrides an
    /// earlier removal, and its alive change overrides an earlier one.
    pub fn merge_from(&mut self, other: &EntityDiff)
        ensures
            final(self)@ == old(self)@.merged(other@),
            keys_distinct(old(self)@.upserted) ==> keys_distinct(final(self)@.upserted),
    {
        proof {
            if keys_distinct(old(self)@.upserted) {
                crate::compose::lemma_puts_all_distinct(old(self)@.upserted, other@.upserted);
            }
        }
        let ghost src = other.property_diff.upserted.pairs();
        let ghost start = self.property_diff.upserted.pairs();
        let mut i: usize = 0;
        while i < other.property_diff.upserted.len()
            invariant
                i <= src.len(),
                src == other.property_diff.upserted.pairs(),
                self.property_diff.upserted.pairs() == puts_all(start, src.take(i as int)),
                self.property_diff.removed == old(self).property_diff.removed,
                self.relationship_diff == old(self).relationship_diff,
                self.role_diff == old(self).role_diff,
                self.alive_change == old(self).alive_change,
            decreases src.len() - i,
        {
            let k = other.property_diff.upserted.key_at(i).clone();
            let v = other.property_diff.upserted.value_at(i).copy_value();
            self.property_diff.upserted.insert(k, v);
            assert(src.take(i + 1).drop_last() =~= src.take(i as int));
            i = i + 1;
        }
        assert(src.take(i as int) =~= src);
        self.property_diff.removed = keys_not_set(&self.property_diff.removed, &other.property_diff.upserted);
        extend_strings(&mut self.property_diff.removed, &other.property_diff.removed);
        self.relationship_diff.removed = ids_not_in(&self.relationship_diff.removed, &other.relationship_diff.added);
        extend_ids(&mut self.relationship_diff.added, &other.relationship_diff.added);
        extend_ids(&mut self.relationship_diff.removed, &other.relationship_diff.removed);
        self.role_diff.removed = strings_not_in(&self.role_diff.removed, &other.role_diff.added);
        extend_strings(&mut self.role_diff.added, &other.role_diff.added);
        extend_strings(&mut self.role_diff.removed, &other.role_diff.removed);
        if let Some(alive) = other.alive_change {
            self.alive_change = Some(alive);
        }
    }

    /// A diff that changes nothing.
    pub fn empty() -> (r: EntityDiff)
        ensures
            r@ == DiffView::empty(),
    {
        let r = EntityDiff {
            property_diff: PropertyDiff::new(),
            relationship_diff: RelationshipDiff { added: Vec::new(), removed: Vec::new() },
            role_diff: RoleDiff { added: Vec::new(), removed: Vec::new() },
            alive_change: None,
        };
        assert(r@.props_removed =~= Seq::<Seq<char>>::empty());
        assert(r@.roles_added =~= Seq::<Seq<char>>::empty());
        assert(r@.roles_removed =~= Seq::<Seq<char>>::empty());
        r
    }
}

impl Default for Delta {
    fn default() -> (r: Delta)
        ensures
            r@ == DeltaView::empty(),
    {
        Delta::new()
    }
}

impl Delta {
    pub fn new() -> (r: Delta)
        ensures
            r@ == DeltaView::empty(),
            r@.keyed(),
    {
        let r = Delta {
            added_entities: IdMap::new(),
            modified_entities: IdMap::new(),
            removed_entities: IdList::new(),
            events: Vec::new(),
        };
        assert(r@.events =~= Seq::<EventView>::empty());
        r
    }

    /// `true` when the delta adds, modifies and removes nothing and holds no events.
    pub fn is_empty(&self) -> (r: bool)
        ensures
            r == self@.is_empty(),
    {
        self.added_entities.is_empty() && self.modified_entities.is_empty()
            && self.removed_entities.is_empty() && self.events.len() == 0
    }

    /// The diff for `id`, created empty if absent.
    pub fn entity_diff_mut(&mut self, id: EntityId) -> (r: &mut EntityDiff)
        ensures
            r@ == old(self)@.diff(id),
            final(self)@ == old(self)@.with_diff(id, final(r)@),
    {
        proof { lemma_first_index(self.modified_entities@, id); }
        match self.modified_entities.index_of(id) {
            Some(i) => self.modified_entities.value_mut(i),
            None => {
                let ghost om = self.modified_entities@;
                self.modified_entities.insert(id, EntityDiff::empty());
                assert(self.modified_entities@ == om.push((id, DiffView::empty())));
                assert forall|x: DiffView| #[trigger] om.push((id, DiffView::empty())).update(
                    om.len() as int,
                    (id, x),
                ) == assoc_put(om, id, x) by {
                    assert(om.push((id, DiffView::empty())).update(om.len() as int, (id, x)) =~= om.push(
                        (id, x),
                    ));
                }
                let n = self.modified_entities.len() - 1;
                self.modified_entities.value_mut(n)
            },
        }
    }

    /// Absorb all changes from `other` into `self`; conflicts are resolved in
    /// favour of `other` (the later change wins).
    pub fn merge_from(&mut self, other: &Delta)
        ensures
            final(self)@ == old(self)@.merged(other@),
            old(self)@.keyed() ==> final(self)@.keyed(),
    {
        proof {
            if old(self)@.keyed() {
                lemma_merged_keyed(old(self)@, other@);
            }
        }
        let ghost adds = other@.added;
        let mut i: usize = 0;
        while i < other.added_entities.len()
            invariant
                i <= adds.len(),
                adds == other@.added,
                self@ == (DeltaView { added: puts_all(old(self)@.added, adds.take(i as int)), ..old(self)@ }),
            decreases adds.len() - i,
        {
            let k = other.added_entities.key_at(i);
            let e = other.added_entities.value_at(i).deep_copy();
            self.added_entities.insert(k, e);
            assert(adds.take(i + 1).drop_last() =~= adds.take(i as int));
            i = i + 1;
        }
        assert(adds.take(i as int) =~= adds);
        let ghost mods = other@.modified;
        let ghost after_adds = self@;
        let mut j: usize = 0;
        while j < other.modified_entities.len()
            invariant
                j <= mods.len(),
                mods == other@.modified,
                self@ == (DeltaView { modified: merge_diffs(old(self)@.modified, mods.take(j as int)), ..after_adds }),
            decreases mods.len() - j,
        {
            let k = other.modified_entities.key_at(j);
            let d = other.modified_entities.value_at(j);
            let slot = self.entity_diff_mut(k);
            slot.merge_from(d);
            assert(mods.take(j + 1).drop_last() =~= mods.take(j as int));
            j = j + 1;
        }
        assert(mods.take(j as int) =~= mods);
        self.removed_entities.retain_absent(&other.added_entities);
        let ghost rems = other@.removed;
        let ghost after_mods = self@;
        let mut k: usize = 0;
        while k < other.removed_entities.len()
            invariant
                k <= rems.len(),
                rems == other@.removed,
                self@ == (DeltaView {
                    removed: ids_union(old(self)@.removed.filter(key_absent(other@.added)), rems.take(k as int)),
                    ..after_mods
                }),
            decreases rems.len() - k,
        {
            let x = other.removed_entities.at(k);
            self.removed_entities.insert(x);
            assert(rems.take(k + 1).drop_last() =~= rems.take(k as int));
            k = k + 1;
        }
        assert(rems.take(k as int) =~= rems);
        let ghost after_rems = self@;
        let mut m: usize = 0;
        while m < other.events.len()
            invariant
                m <= other.events@.len(),
                self@ == (DeltaView {
                    events: old(self)@.events + events_view(other.events@).take(m as int),
                    ..after_rems
                }),
            decreases other.events@.len() - m,
        {
            let ev = other.events[m].deep_copy();
            let ghost prev = self.events@;
            self.events.push(ev);
            proof {
                lemma_map_push(prev, ev, |e: CausalEvent| e@);
                assert(events_view(other.events@).take(m + 1) =~= events_view(other.events@).take(m as int).push(ev@));
                assert(self@.events =~= old(self)@.events + events_view(other.events@).take(m + 1));
            }
            m = m + 1;
        }
        assert(events_view(other.events@).take(m as int) =~= events_view(other.events@));
    }

    /// Stage an entity to be added, under its own ID.
    pub fn add_entity(self, entity: Entity) -> (r: Delta)
        ensures
            r@ == (DeltaView { added: assoc_put(self@.added, entity.id, entity@), ..self@ }),
            self@.keyed() ==> r@.keyed(),
    {
        let mut d = self;
        let id = entity.id;
        proof {
            if self@.keyed() {
                crate::index::lemma_put_distinct(self@.added, id, entity@);
            }
        }
        d.added_entities.insert(id, entity);
        d
    }

    /// Stage an entity death.
    pub fn kill_entity(self, id: EntityId) -> (r: Delta)
        ensures
            r@ == self@.with_diff(id, DiffView { alive_change: Some(false), ..self@.diff(id) }),
            self@.keyed() ==> r@.keyed(),
    {
        proof {
            if self@.keyed() {
                lemma_diff_keyed(self@, id);
                lemma_with_diff_keyed(self@, id, DiffView { alive_change: Some(false), ..self@.diff(id) });
            }
        }
        let mut d = self;
        let slot = d.entity_diff_mut(id);
        slot.alive_change = Some(false);
        d
    }

    /// Stage a property upsert on an existing entity.
    pub fn set_property(self, id: EntityId, key: &str, value: Value) -> (r: Delta)
        ensures
            r@ == self@.with_diff(
                id,
                DiffView { upserted: assoc_put(self@.diff(id).upserted, key@, value@), ..self@.diff(id) },
            ),
            self@.keyed() ==> r@.keyed(),
    {
        proof {
            if self@.keyed() {
                lemma_diff_keyed(self@, id);
                crate::index::lemma_put_distinct(self@.diff(id).upserted, key@, value@);
                lemma_with_diff_keyed(
                    self@,
                    id,
                    DiffView { upserted: assoc_put(self@.diff(id).upserted, key@, value@), ..self@.diff(id) },
                );
            }
        }
        let mut d = self;
        let slot = d.entity_diff_mut(id);
        slot.property_diff.upserted.insert(key.to_owned(), value);
        d
    }

    /// Stage a role assignment on an existing entity.
    pub fn assign_role(self, id: EntityId, role: &str) -> (r: Delta)
        ensures
            r@ == self@.with_diff(
                id,
                DiffView { roles_added: self@.diff(id).roles_added.push(role@), ..self@.diff(id) },
            ),
            self@.keyed() ==> r@.keyed(),
    {
        proof {
            if self@.keyed() {
                lemma_diff_keyed(self@, id);
                lemma_with_diff_keyed(
                    self@,
                    id,
                    DiffView { roles_added: self@.diff(id).roles_added.push(role@), ..self@.diff(id) },
                );
            }
        }
        let mut d = self;
        let slot = d.entity_diff_mut(id);
        let s = role.to_owned();
        let ghost prev = slot.role_diff.added@;
        slot.role_diff.added.push(s);
        proof { lemma_map_push(prev, s, |s: String| s@); }
        d
    }

    /// Stage a relationship addition between two entities.
    pub fn add_relationship(self, from: EntityId, to: EntityId) -> (r: Delta)
        ensures
            r@ == self@.with_diff(
                from,
                DiffView { rels_added: self@.diff(from).rels_added.push(to), ..self@.diff(from) },
            ),
            self@.keyed() ==> r@.keyed(),
    {
        proof {
            if self@.keyed() {
                lemma_diff_keyed(self@, from);
                lemma_with_diff_keyed(
                    self@,
                    from,
                    DiffView { rels_added: self@.diff(from).rels_added.push(to), ..self@.diff(from) },
                );
            }
        }
        let mut d = self;
        let slot = d.entity_diff_mut(from);
        slot.relationship_diff.added.push(to);
        d
    }

    /// Attach a causal event.
    pub fn with_event(self, event: CausalEvent) -> (r: Delta)
        ensures
            r@ == (DeltaView { events: self@.events.push(event@), ..self@ }),
            self@.keyed() ==> r@.keyed(),
    {
        let mut d = self;
        let ghost prev = d.events@;
        let ghost ev = event@;
        d.events.push(event);
        proof { lemma_map_push(prev, event, |e: CausalEvent| e@); }
        d
    }
}


/// The keys of `s` are pairwise distinct, as in every stored map.
pub open spec fn keys_distinct<K, V>(s: Seq<(K, V)>) -> bool {
    forall|i: int, j: int| #![trigger s[i], s[j]] 0 <= i < j < s.len() ==> s[i].0 != s[j].0
}

/// With distinct keys, the last pair of a sequence adds its key to the map of the rest.
pub proof fn lemma_distinct_last<K, V>(t: Seq<(K, V)>)
    requires
        keys_distinct(t),
        t.len() > 0,
    ensures
        keys_distinct(t.drop_last()),
        !has_key(t.drop_last(), t.last().0),
        as_map(t) == as_map(t.drop_last()).insert(t.last().0, t.last().1),
{
    let r = t.drop_last();
    assert forall|i: int, j: int| #![trigger r[i], r[j]] 0 <= i < j < r.len() implies r[i].0 != r[j].0 by {
        assert(r[i] == t[i] && r[j] == t[j]);
    }
    if has_key(r, t.last().0) {
        let i = choose|i: int| 0 <= i < r.len() && r[i].0 == t.last().0;
        assert(t[i] == r[i]);
        assert(t[t.len() - 1] == t.last());
    }
    assert(t =~= r.push(t.last()));
    crate::assoc::lemma_as_map_push(r, t.last());
}

/// Putting the pairs of `t` in order: with distinct keys in `t`, each key of `t`
/// takes its value from `t`, every other key keeps its value.
pub proof fn lemma_puts_all_map<K, V>(s: Seq<(K, V)>, t: Seq<(K, V)>)
    requires
        keys_distinct(t),
    ensures
        as_map(puts_all(s, t)) == as_map(s).union_prefer_right(as_map(t)),
    decreases t.len(),
{
    if t.len() == 0 {
        assert(as_map(t) =~= Map::<K, V>::empty()) by {
            assert forall|k: K| !has_key(t, k) by {}
        }
        assert(as_map(s).union_prefer_right(as_map(t)) =~= as_map(s));
    } else {
        lemma_distinct_last(t);
        lemma_puts_all_map(s, t.drop_last());
        crate::assoc::lemma_as_map_put(puts_all(s, t.drop_last()), t.last().0, t.last().1);
        assert(as_map(puts_all(s, t)) =~= as_map(s).union_prefer_right(as_map(t)));
    }
}

/// Merging diffs for each key of `t`: with distinct keys in `t`, the diff for a
/// key of `t` is the earlier diff merged with `t`'s, and every other key keeps its diff.
pub proof fn lemma_merge_diffs_for(s: Seq<(EntityId, DiffView)>, t: Seq<(EntityId, DiffView)>, id: EntityId)
    requires
        keys_distinct(t),
    ensures
        diff_for(merge_diffs(s, t), id) == (if has_key(t, id) {
            diff_for(s, id).merged(as_map(t)[id])
        } else {
            diff_for(s, id)
        }),
    decreases t.len(),
{
    if t.len() == 0 {
    } else {
        lemma_distinct_last(t);
        let r = t.drop_last();
        let (k, d) = t.last();
        let m = merge_diffs(s, r);
        lemma_merge_diffs_for(s, r, id);
        lemma_merge_diffs_for(s, r, k);
        assert(as_map(t).dom().contains(k));
        if id == k {
            crate::assoc::lemma_put_same(m, k, diff_for(m, k).merged(d));
        } else {
            crate::assoc::lemma_put_other(m, k, diff_for(m, k).merged(d), id);
            assert(as_map(t).dom().contains(id) == as_map(r).dom().contains(id));
        }
    }
}

/// The identifiers kept by `ids_union` are those of either list.
pub proof fn lemma_ids_union_set(s: Seq<EntityId>, t: Seq<EntityId>)
    ensures
        ids_union(s, t).to_set() == s.to_set() + t.to_set(),
    decreases t.len(),
{
    if t.len() == 0 {
        assert(t.to_set() =~= Set::<EntityId>::empty());
        assert(s.to_set() + t.to_set() =~= s.to_set());
    } else {
        let r = t.drop_last();
        lemma_ids_union_set(s, r);
        let u = ids_union(s, r);
        assert(t =~= r.push(t.last()));
        crate::assoc::lemma_push_to_set(r, t.last());
        if u.contains(t.last()) {
            assert(u.to_set().contains(t.last()));
        } else {
            crate::assoc::lemma_push_to_set(u, t.last());
        }
        assert(ids_union(s, t).to_set() =~= s.to_set() + t.to_set());
    }
}

/// Merging two diffs lets the later one win: its property values override the
/// earlier values and the earlier removals of those properties, the
/// relationships it adds and the roles it gives override earlier removals of
/// them, its alive change (when it has one) replaces the earlier one, and the
/// lists of additions are the earlier one followed by the later one.
pub proof fn law_diff_merge_later_wins(a: DiffView, b: DiffView)
    requires
        keys_distinct(b.upserted),
    ensures
        as_map(a.merged(b).upserted) == as_map(a.upserted).union_prefer_right(as_map(b.upserted)),
        forall|k: Seq<char>|
            #[trigger] a.merged(b).props_removed.contains(k) == ((a.props_removed.contains(k) && !has_key(
                b.upserted,
                k,
            )) || b.props_removed.contains(k)),
        a.merged(b).alive_change == (if b.alive_change is Some {
            b.alive_change
        } else {
            a.alive_change
        }),
        a.merged(b).rels_added == a.rels_added + b.rels_added,
        forall|x: EntityId|
            #[trigger] a.merged(b).rels_removed.contains(x) == ((a.rels_removed.contains(x)
                && !b.rels_added.contains(x)) || b.rels_removed.contains(x)),
        a.merged(b).roles_added == a.roles_added + b.roles_added,
        forall|r: Seq<char>|
            #[trigger] a.merged(b).roles_removed.contains(r) == ((a.roles_removed.contains(r)
                && !b.roles_added.contains(r)) || b.roles_removed.contains(r)),
{
    lemma_puts_all_map(a.upserted, b.upserted);
    assert forall|x: EntityId| #[trigger] a.merged(b).rels_removed.contains(x) == ((a.rels_removed.contains(x)
        && !b.rels_added.contains(x)) || b.rels_removed.contains(x)) by {
        crate::assoc::lemma_filter_member(a.rels_removed, not_listed(b.rels_added), x);
        lemma_concat_contains(a.rels_removed.filter(not_listed(b.rels_added)), b.rels_removed, x);
    }
    assert forall|r: Seq<char>| #[trigger] a.merged(b).roles_removed.contains(r) == ((a.roles_removed.contains(r)
        && !b.roles_added.contains(r)) || b.roles_removed.contains(r)) by {
        crate::assoc::lemma_filter_member(a.roles_removed, not_listed(b.roles_added), r);
        lemma_concat_contains(a.roles_removed.filter(not_listed(b.roles_added)), b.roles_removed, r);
    }
    let kept = a.props_removed.filter(key_absent(b.upserted));
    assert forall|k: Seq<char>| #[trigger] a.merged(b).props_removed.contains(k) == ((a.props_removed.contains(k)
        && !has_key(b.upserted, k)) || b.props_removed.contains(k)) by {
        crate::assoc::lemma_filter_member(a.props_removed, key_absent(b.upserted), k);
        lemma_concat_contains(kept, b.props_removed, k);
    }
}

/// `x` is in `s + t` exactly when it is in `s` or in `t`.
pub proof fn lemma_concat_contains<A>(s: Seq<A>, t: Seq<A>, x: A)
    ensures
        (s + t).contains(x) == (s.contains(x) || t.contains(x)),
{
    if (s + t).contains(x) {
        let j = choose|j: int| 0 <= j < (s + t).len() && (s + t)[j] == x;
        if j < s.len() {
            assert(s[j] == x);
        } else {
            assert(t[j - s.len()] == x);
        }
    }
    if s.contains(x) {
        let j = choose|j: int| 0 <= j < s.len() && s[j] == x;
        assert((s + t)[j] == x);
    }
    if t.contains(x) {
        let j = choose|j: int| 0 <= j < t.len() && t[j] == x;
        assert((s + t)[j + s.len()] == x);
    }
}

/// Merging two deltas lets the later one win: its added entities override the
/// earlier ones, the diff for each entity is the earlier diff merged with the
/// later one, an entity stays removed unless the later delta adds it again (or
/// the later delta removes it), and the events keep their order.
pub proof fn law_delta_merge(a: DeltaView, b: DeltaView, id: EntityId)
    requires
        keys_distinct(b.added),
        keys_distinct(b.modified),
    ensures
        as_map(a.merged(b).added) == as_map(a.added).union_prefer_right(as_map(b.added)),
        a.merged(b).diff(id) == (if has_key(b.modified, id) {
            a.diff(id).merged(b.diff(id))
        } else {
            a.diff(id)
        }),
        a.merged(b).removed.contains(id) == ((a.removed.contains(id) && !has_key(b.added, id))
            || b.removed.contains(id)),
        a.merged(b).events == a.events + b.events,
{
    lemma_puts_all_map(a.added, b.added);
    lemma_merge_diffs_for(a.modified, b.modified, id);
    let kept = a.removed.filter(key_absent(b.added));
    lemma_ids_union_set(kept, b.removed);
    crate::assoc::lemma_filter_member(a.removed, key_absent(b.added), id);
    assert(a.merged(b).removed.to_set().contains(id) == (kept.to_set().contains(id) || b.removed.to_set().contains(id)));
}

/// The diff that a keyed delta holds for an entity stores each property once.
pub proof fn lemma_diff_keyed(dv: DeltaView, id: EntityId)
    requires
        dv.keyed(),
    ensures
        keys_distinct(dv.diff(id).upserted),
{
    if has_key(dv.modified, id) {
        lemma_first_index(dv.modified, id);
        let i = crate::assoc::first_index(dv.modified, id);
        assert(keys_distinct(dv.modified[i].1.upserted));
    }
}

/// Replacing the diff of one entity in a keyed delta by a diff that stores
/// each property once keeps the delta keyed.
pub proof fn lemma_with_diff_keyed(dv: DeltaView, id: EntityId, d: DiffView)
    requires
        dv.keyed(),
        keys_distinct(d.upserted),
    ensures
        dv.with_diff(id, d).keyed(),
{
    crate::index::lemma_put_distinct(dv.modified, id, d);
    lemma_put_upserts_distinct(dv.modified, id, d);
}

/// Putting a diff that stores each property once into diffs that each do so
/// keeps them so.
pub proof fn lemma_put_upserts_distinct(s: Seq<(EntityId, DiffView)>, id: EntityId, d: DiffView)
    requires
        crate::merge::upserts_distinct(s),
        keys_distinct(d.upserted),
    ensures
        crate::merge::upserts_distinct(assoc_put(s, id, d)),
{
    lemma_first_index(s, id);
    let t = assoc_put(s, id, d);
    assert forall|i: int| 0 <= i < t.len() implies keys_distinct(#[trigger] t[i].1.upserted) by {
        if i < s.len() && i != crate::assoc::first_index(s, id) {
            assert(t[i] == s[i]);
        }
    }
}

/// Merging diffs into diffs that each store a property once keeps them so.
pub proof fn lemma_merge_diffs_upserts(s: Seq<(EntityId, DiffView)>, t: Seq<(EntityId, DiffView)>)
    requires
        crate::merge::upserts_distinct(s),
    ensures
        crate::merge::upserts_distinct(merge_diffs(s, t)),
    decreases t.len(),
{
    if t.len() > 0 {
        lemma_merge_diffs_upserts(s, t.drop_last());
        let m = merge_diffs(s, t.drop_last());
        let k = t.last().0;
        let prior = diff_for(m, k);
        if has_key(m, k) {
            lemma_first_index(m, k);
            let i = crate::assoc::first_index(m, k);
            assert(keys_distinct(m[i].1.upserted));
        }
        crate::compose::lemma_puts_all_distinct(prior.upserted, t.last().1.upserted);
        lemma_put_upserts_distinct(m, k, prior.merged(t.last().1));
    }
}

/// Merging any delta into a keyed delta keeps it keyed.
pub proof fn lemma_merged_keyed(a: DeltaView, b: DeltaView)
    requires
        a.keyed(),
    ensures
        a.merged(b).keyed(),
{
    crate::compose::lemma_puts_all_distinct(a.added, b.added);
    crate::compose::lemma_merge_diffs_distinct(a.modified, b.modified);
    lemma_merge_diffs_upserts(a.modified, b.modified);
    crate::entity::lemma_filter_no_duplicates(a.removed, key_absent(b.added));
    lemma_ids_union_no_duplicates(a.removed.filter(key_absent(b.added)), b.removed);
}

/// Uniting identifiers into a list without repeats keeps it without repeats.
pub proof fn lemma_ids_union_no_duplicates(s: Seq<EntityId>, t: Seq<EntityId>)
    requires
        s.no_duplicates(),
    ensures
        ids_union(s, t).no_duplicates(),
    decreases t.len(),
{
    if t.len() > 0 {
        lemma_ids_union_no_duplicates(s, t.drop_last());
        let u = ids_union(s, t.drop_last());
        if !u.contains(t.last()) {
            let v = u.push(t.last());
            assert forall|i: int, j: int| 0 <= i < v.len() && 0 <= j < v.len() && i != j implies v[i] != v[j] by {
                if i == u.len() {
                    assert(u.contains(u[j]));
                } else if j == u.len() {
                    assert(u.contains(u[i]));
                }
            }
        }
    }
}

/// Uniting identifiers without repeats into nothing gives them back.
pub proof fn lemma_ids_union_empty(t: Seq<EntityId>)
    requires
        t.no_duplicates(),
    ensures
        ids_union(Seq::empty(), t) == t,
    decreases t.len(),
{
    if t.len() > 0 {
        let r = t.drop_last();
        assert(r.no_duplicates());
        lemma_ids_union_empty(r);
        if r.contains(t.last()) {
            let j = choose|j: int| 0 <= j < r.len() && r[j] == t.last();
            assert(t[j] == t[t.len() - 1]);
        }
        assert(t =~= r.push(t.last()));
    }
}

/// Merging a keyed delta into the empty delta gives it back.
pub proof fn law_merge_into_empty(b: DeltaView)
    requires
        b.keyed(),
    ensures
        DeltaView::empty().merged(b) == b,
{
    crate::merge::lemma_puts_all_fresh(Seq::<(EntityId, EntityView)>::empty(), b.added);
    assert(Seq::<(EntityId, EntityView)>::empty() + b.added =~= b.added);
    crate::merge::lemma_merge_diffs_fresh(Seq::<(EntityId, DiffView)>::empty(), b.modified);
    assert(Seq::<(EntityId, DiffView)>::empty() + b.modified =~= b.modified);
    assert(Seq::<EntityId>::empty().filter(key_absent(b.added)) =~= Seq::<EntityId>::empty()) by {
        reveal_with_fuel(Seq::filter, 1);
    }
    lemma_ids_union_empty(b.removed);
    assert(Seq::<EventView>::empty() + b.events =~= b.events);
}

} // verus!
