//! Causal propagation model.
//!
//! A [`CausalEvent`] records that something happened (the cause) and the
//! [`EventEffect`]s that materialise after an optional delay.

use vstd::prelude::*;

use crate::assoc::{as_map, assoc_put};
use crate::delta::{Delta, DeltaView, DiffView};
use crate::entity::{Entity, EntityView, Properties};
use crate::text::TextSet;
use crate::text::DeepCopy;
use crate::types::{new_uuid, EntityId, EventId, NodeId};
use crate::value::{Value, ValueModel};

verus! {

/// What triggered a causal event.
#[derive(Debug, Clone)]
pub enum EventSource {
    /// An entity performed an action.
    Entity { id: EntityId, action: String },
    /// A system-level trigger (e.g. a tendency firing).
    System { description: String },
    /// Originated from a time-travel operation.
    TimeTravel { from_node: NodeId },
}

/// The content of an [`EventSource`].
pub enum SourceView {
    Entity { id: EntityId, action: Seq<char> },
    System { description: Seq<char> },
    TimeTravel { from_node: NodeId },
}

impl View for EventSource {
    type V = SourceView;

    open spec fn view(&self) -> SourceView {
        match self {
            EventSource::Entity { id, action } => SourceView::Entity { id: *id, action: action@ },
            EventSource::System { description } => SourceView::System { description: description@ },
            EventSource::TimeTravel { from_node } => SourceView::TimeTravel { from_node: *from_node },
        }
    }
}

impl DeepCopy for EventSource {
    fn deep_copy(&self) -> (r: EventSource) {
        match self {
            EventSource::Entity { id, action } => EventSource::Entity { id: *id, action: action.clone() },
            EventSource::System { description } => EventSource::System {
                description: description.clone(),
            },
            EventSource::TimeTravel { from_node } => EventSource::TimeTravel { from_node: *from_node },
        }
    }
}

/// A single concrete change that a causal event produces when it matures.
#[derive(Debug, Clone)]
pub enum EventEffect {
    KillEntity { id: EntityId },
    SpawnEntity { kind: String, roles: Vec<String>, properties: Properties },
    ModifyProperty { entity_id: EntityId, property: String, value: Value },
    AddRelationship { from: EntityId, to: EntityId },
    RemoveRelationship { from: EntityId, to: EntityId },
    AssignRole { entity_id: EntityId, role: String },
    RemoveRole { entity_id: EntityId, role: String },
}

/// The content of an [`EventEffect`].
pub enum EffectView {
    KillEntity { id: EntityId },
    SpawnEntity {
        kind: Seq<char>,
        roles: Seq<Seq<char>>,
        properties: Map<Seq<char>, ValueModel>,
    },
    ModifyProperty { entity_id: EntityId, property: Seq<char>, value: ValueModel },
    AddRelationship { from: EntityId, to: EntityId },
    RemoveRelationship { from: EntityId, to: EntityId },
    AssignRole { entity_id: EntityId, role: Seq<char> },
    RemoveRole { entity_id: EntityId, role: Seq<char> },
}

/// The views of a list of strings.
pub open spec fn strings_view(v: Seq<String>) -> Seq<Seq<char>> {
    v.map_values(|s: String| s@)
}

/// A copy of a list of strings.
pub fn copy_strings(v: &Vec<String>) -> (r: Vec<String>)
    ensures
        strings_view(r@) == strings_view(v@),
{
    let mut r: Vec<String> = Vec::new();
    let mut i: usize = 0;
    while i < v.len()
        invariant
            i <= v@.len(),
            strings_view(r@) == strings_view(v@).take(i as int),
        decreases v@.len() - i,
    {
        let s = v[i].clone();
        let ghost prev = r@;
        r.push(s);
        proof {
            crate::assoc::lemma_map_push(prev, s, |s: String| s@);
            assert(strings_view(v@).take(i + 1) =~= strings_view(v@).take(i as int).push(s@));
        }
        i = i + 1;
    }
    assert(strings_view(v@).take(i as int) =~= strings_view(v@));
    r
}

impl View for EventEffect {
    type V = EffectView;

    open spec fn view(&self) -> EffectView {
        match self {
            EventEffect::KillEntity { id } => EffectView::KillEntity { id: *id },
            EventEffect::SpawnEntity { kind, roles, properties } => EffectView::SpawnEntity {
                kind: kind@,
                roles: strings_view(roles@),
                properties: properties@,
            },
            EventEffect::ModifyProperty { entity_id, property, value } => EffectView::ModifyProperty {
                entity_id: *entity_id,
                property: property@,
                value: value@,
            },
            EventEffect::AddRelationship { from, to } => EffectView::AddRelationship {
                from: *from,
                to: *to,
            },
            EventEffect::RemoveRelationship { from, to } => EffectView::RemoveRelationship {
                from: *from,
                to: *to,
            },
            EventEffect::AssignRole { entity_id, role } => EffectView::AssignRole {
                entity_id: *entity_id,
                role: role@,
            },
            EventEffect::RemoveRole { entity_id, role } => EffectView::RemoveRole {
                entity_id: *entity_id,
                role: role@,
            },
        }
    }
}

impl DeepCopy for EventEffect {
    fn deep_copy(&self) -> (r: EventEffect) {
        match self {
            EventEffect::KillEntity { id } => EventEffect::KillEntity { id: *id },
            EventEffect::SpawnEntity { kind, roles, properties } => EventEffect::SpawnEntity {
                kind: kind.clone(),
                roles: copy_strings(roles),
                properties: properties.deep_copy(),
            },
            EventEffect::ModifyProperty { entity_id, property, value } => EventEffect::ModifyProperty {
                entity_id: *entity_id,
                property: property.clone(),
                value: value.copy_value(),
            },
            EventEffect::AddRelationship { from, to } => EventEffect::AddRelationship {
                from: *from,
                to: *to,
            },
            EventEffect::RemoveRelationship { from, to } => EventEffect::RemoveRelationship {
                from: *from,
                to: *to,
            },
            EventEffect::AssignRole { entity_id, role } => EventEffect::AssignRole {
                entity_id: *entity_id,
                role: role.clone(),
            },
            EventEffect::RemoveRole { entity_id, role } => EventEffect::RemoveRole {
                entity_id: *entity_id,
                role: role.clone(),
            },
        }
    }
}

/// The views of a list of effects.
pub open spec fn effects_view(v: Seq<EventEffect>) -> Seq<EffectView> {
    v.map_values(|e: EventEffect| e@)
}

/// A copy of a list of effects.
pub fn copy_effects(v: &Vec<EventEffect>) -> (r: Vec<EventEffect>)
    ensures
        effects_view(r@) == effects_view(v@),
{
    let mut r: Vec<EventEffect> = Vec::new();
    let mut i: usize = 0;
    while i < v.len()
        invariant
            i <= v@.len(),
            effects_view(r@) == effects_view(v@).take(i as int),
        decreases v@.len() - i,
    {
        let e = v[i].deep_copy();
        let ghost prev = r@;
        r.push(e);
        proof {
            crate::assoc::lemma_map_push(prev, e, |e: EventEffect| e@);
            assert(effects_view(v@).take(i + 1) =~= effects_view(v@).take(i as int).push(e@));
        }
        i = i + 1;
    }
    assert(effects_view(v@).take(i as int) =~= effects_view(v@));
    r
}

/// A triggered causal event.
#[derive(Debug, Clone)]
pub struct CausalEvent {
    pub id: EventId,
    /// Human-readable category (e.g. `"battle"`, `"trade"`, `"plague"`).
    pub kind: String,
    pub description: String,
    /// What triggered this event.
    pub cause: EventSource,
    /// Effects that will be applied once `propagation_delay` steps elapse.
    pub effects: Vec<EventEffect>,
    /// How many `advance` calls must occur before effects are applied;
    /// `0` applies them in the same step.
    pub propagation_delay: u64,
}

/// The content of a [`CausalEvent`].
pub struct EventView {
    pub id: EventId,
    pub kind: Seq<char>,
    pub description: Seq<char>,
    pub cause: SourceView,
    pub effects: Seq<EffectView>,
    pub propagation_delay: u64,
}

impl View for CausalEvent {
    type V = EventView;

    open spec fn view(&self) -> EventView {
        EventView {
            id: self.id,
            kind: self.kind@,
            description: self.description@,
            cause: self.cause@,
            effects: effects_view(self.effects@),
            propagation_delay: self.propagation_delay,
        }
    }
}

impl DeepCopy for CausalEvent {
    fn deep_copy(&self) -> (r: CausalEvent) {
        CausalEvent {
            id: self.id,
            kind: self.kind.clone(),
            description: self.description.clone(),
            cause: self.cause.deep_copy(),
            effects: copy_effects(&self.effects),
            propagation_delay: self.propagation_delay,
        }
    }
}

impl CausalEvent {
    /// Create an event that takes effect immediately (delay 0), with a fresh random ID.
    pub fn immediate(
        kind: &str,
        description: &str,
        cause: EventSource,
        effects: Vec<EventEffect>,
    ) -> (r: CausalEvent)
        ensures
            r@ == (EventView {
                id: r.id,
                kind: kind@,
                description: description@,
                cause: cause@,
                effects: effects_view(effects@),
                propagation_delay: 0,
            }),
            crate::types::is_random_uuid(r.id),
    {
        CausalEvent {
            id: new_uuid(),
            kind: kind.to_owned(),
            description: description.to_owned(),
            cause,
            effects,
            propagation_delay: 0,
        }
    }

    /// Create an event that takes effect after `delay` steps, with a fresh random ID.
    pub fn delayed(
        kind: &str,
        description: &str,
        cause: EventSource,
        effects: Vec<EventEffect>,
        delay: u64,
    ) -> (r: CausalEvent)
        ensures
            r@ == (EventView {
                id: r.id,
                kind: kind@,
                description: description@,
                cause: cause@,
                effects: effects_view(effects@),
                propagation_delay: delay,
            }),
            crate::types::is_random_uuid(r.id),
    {
        CausalEvent {
            id: new_uuid(),
            kind: kind.to_owned(),
            description: description.to_owned(),
            cause,
            effects,
            propagation_delay: delay,
        }
    }
}

/// The views of a list of events.
pub open spec fn events_view(v: Seq<CausalEvent>) -> Seq<EventView> {
    v.map_values(|e: CausalEvent| e@)
}

/// The entity that a spawn effect creates under `id`.
pub open spec fn spawned(id: EntityId, kind: Seq<char>, roles: Seq<Seq<char>>, properties: Map<Seq<char>, ValueModel>) -> EntityView {
    EntityView {
        id,
        kind,
        properties,
        roles: roles.to_set(),
        relationships: Seq::empty(),
        alive: true,
    }
}

/// `d` with one effect written into it; a spawned entity gets the ID `fresh`.
pub open spec fn effect_applied(d: DeltaView, eff: EffectView, fresh: EntityId) -> DeltaView {
    match eff {
        EffectView::KillEntity { id } => d.with_diff(id, DiffView { alive_change: Some(false), ..d.diff(id) }),
        EffectView::SpawnEntity { kind, roles, properties } => DeltaView {
            added: assoc_put(d.added, fresh, spawned(fresh, kind, roles, properties)),
            ..d
        },
        EffectView::ModifyProperty { entity_id, property, value } => d.with_diff(
            entity_id,
            DiffView { upserted: assoc_put(d.diff(entity_id).upserted, property, value), ..d.diff(entity_id) },
        ),
        EffectView::AddRelationship { from, to } => d.with_diff(
            from,
            DiffView { rels_added: d.diff(from).rels_added.push(to), ..d.diff(from) },
        ),
        EffectView::RemoveRelationship { from, to } => d.with_diff(
            from,
            DiffView { rels_removed: d.diff(from).rels_removed.push(to), ..d.diff(from) },
        ),
        EffectView::AssignRole { entity_id, role } => d.with_diff(
            entity_id,
            DiffView { roles_added: d.diff(entity_id).roles_added.push(role), ..d.diff(entity_id) },
        ),
        EffectView::RemoveRole { entity_id, role } => d.with_diff(
            entity_id,
            DiffView { roles_removed: d.diff(entity_id).roles_removed.push(role), ..d.diff(entity_id) },
        ),
    }
}

/// `true` for a spawn effect, the one kind of effect that needs a fresh ID.
pub open spec fn needs_fresh_id(eff: EffectView) -> bool {
    eff is SpawnEntity
}

/// Write a single [`EventEffect`] into `delta`, a spawned entity getting the ID `fresh`.
pub fn apply_effect_with_id(delta: &mut Delta, effect: &EventEffect, fresh: EntityId)
    ensures
        final(delta)@ == effect_applied(old(delta)@, effect@, fresh),
{
    match effect {
        EventEffect::KillEntity { id } => {
            let slot = delta.entity_diff_mut(*id);
            slot.alive_change = Some(false);
        },
        EventEffect::SpawnEntity { kind, roles, properties } => {
            let mut entity = Entity::with_id(fresh, kind.as_str());
            entity.properties = properties.deep_copy();
            entity.roles = TextSet::from_list(roles);
            delta.added_entities.insert(fresh, entity);
        },
        EventEffect::ModifyProperty { entity_id, property, value } => {
            let slot = delta.entity_diff_mut(*entity_id);
            slot.property_diff.upserted.insert(property.clone(), value.copy_value());
        },
        EventEffect::AddRelationship { from, to } => {
            let slot = delta.entity_diff_mut(*from);
            slot.relationship_diff.added.push(*to);
        },
        EventEffect::RemoveRelationship { from, to } => {
            let slot = delta.entity_diff_mut(*from);
            slot.relationship_diff.removed.push(*to);
        },
        EventEffect::AssignRole { entity_id, role } => {
            let slot = delta.entity_diff_mut(*entity_id);
            let s = role.clone();
            let ghost prev = slot.role_diff.added@;
            slot.role_diff.added.push(s);
            proof { crate::assoc::lemma_map_push(prev, s, |s: String| s@); }
        },
        EventEffect::RemoveRole { entity_id, role } => {
            let slot = delta.entity_diff_mut(*entity_id);
            let s = role.clone();
            let ghost prev = slot.role_diff.removed@;
            slot.role_diff.removed.push(s);
            proof { crate::assoc::lemma_map_push(prev, s, |s: String| s@); }
        },
    }
}

/// Write a single [`EventEffect`] into `delta`; a spawned entity gets a fresh random ID.
pub fn apply_effect_into_delta(delta: &mut Delta, effect: &EventEffect)
    ensures
        exists|fresh: EntityId|
            (needs_fresh_id(effect@) ==> crate::types::is_random_uuid(fresh)) && final(delta)@
                == #[trigger] effect_applied(old(delta)@, effect@, fresh),
{
    let fresh = match effect {
        EventEffect::SpawnEntity { .. } => new_uuid(),
        _ => 0,
    };
    apply_effect_with_id(delta, effect, fresh);
    assert((needs_fresh_id(effect@) ==> crate::types::is_random_uuid(fresh)) && delta@
        == effect_applied(old(delta)@, effect@, fresh));
}

/// `d` with each effect of `effs` written into it in order, the `i`-th taking `ids[i]`
/// as the ID of what it spawns.
pub open spec fn effects_written(d: DeltaView, effs: Seq<EffectView>, ids: Seq<EntityId>) -> DeltaView
    decreases effs.len(),
{
    if effs.len() == 0 {
        d
    } else {
        effect_applied(effects_written(d, effs.drop_last(), ids), effs.last(), ids[effs.len() - 1])
    }
}

/// `ids` gives one ID per effect, random wherever the effect spawns.
pub open spec fn fresh_ids_ok(effs: Seq<EffectView>, ids: Seq<EntityId>) -> bool {
    &&& ids.len() == effs.len()
    &&& forall|i: int|
        0 <= i < effs.len() && needs_fresh_id(#[trigger] effs[i]) ==> crate::types::is_random_uuid(ids[i])
}

/// The effects of `evs`, event after event.
pub open spec fn effects_of(evs: Seq<EventView>) -> Seq<EffectView>
    decreases evs.len(),
{
    if evs.len() == 0 {
        Seq::empty()
    } else {
        effects_of(evs.drop_last()) + evs.last().effects
    }
}

/// Writing effects one batch after another.
pub proof fn lemma_effects_written_concat(
    d: DeltaView,
    a: Seq<EffectView>,
    ia: Seq<EntityId>,
    b: Seq<EffectView>,
    ib: Seq<EntityId>,
)
    requires
        ia.len() == a.len(),
        ib.len() == b.len(),
    ensures
        effects_written(d, a + b, ia + ib) == effects_written(effects_written(d, a, ia), b, ib),
    decreases b.len(),
{
    if b.len() == 0 {
        assert(a + b =~= a);
        lemma_effects_written_prefix(d, a, ia, ia + ib);
    } else {
        lemma_effects_written_concat(d, a, ia, b.drop_last(), ib.drop_last());
        assert((a + b).drop_last() =~= a + b.drop_last());
        assert(ia + ib.drop_last() =~= (ia + ib).drop_last());
        lemma_effects_written_prefix(d, a + b.drop_last(), ia + ib.drop_last(), ia + ib);
        lemma_effects_written_prefix(effects_written(d, a, ia), b.drop_last(), ib.drop_last(), ib);
    }
}

/// Only the first `effs.len()` IDs matter.
pub proof fn lemma_effects_written_prefix(d: DeltaView, effs: Seq<EffectView>, ids: Seq<EntityId>, more: Seq<EntityId>)
    requires
        ids.len() >= effs.len(),
        more.len() >= effs.len(),
        forall|i: int| 0 <= i < effs.len() ==> ids[i] == more[i],
    ensures
        effects_written(d, effs, ids) == effects_written(d, effs, more),
    decreases effs.len(),
{
    if effs.len() > 0 {
        lemma_effects_written_prefix(d, effs.drop_last(), ids, more);
    }
}

/// Write the effects of one event into `delta`; spawned entities get fresh random IDs.
pub fn write_event_effects(delta: &mut Delta, event: &CausalEvent)
    ensures
        exists|ids: Seq<EntityId>|
            fresh_ids_ok(event@.effects, ids) && final(delta)@ == #[trigger] effects_written(
                old(delta)@,
                event@.effects,
                ids,
            ),
{
    let ghost effs = event@.effects;
    let ghost mut ids: Seq<EntityId> = Seq::empty();
    let mut i: usize = 0;
    while i < event.effects.len()
        invariant
            i <= effs.len(),
            effs == event@.effects,
            effs.len() == event.effects@.len(),
            ids.len() == i,
            fresh_ids_ok(effs.take(i as int), ids),
            delta@ == effects_written(old(delta)@, effs.take(i as int), ids),
        decreases effs.len() - i,
    {
        let ghost before = delta@;
        assert(effs[i as int] == event.effects@[i as int]@);
        apply_effect_into_delta(delta, &event.effects[i]);
        proof {
            let fresh = choose|fresh: EntityId|
                (needs_fresh_id(effs[i as int]) ==> crate::types::is_random_uuid(fresh)) && delta@
                    == #[trigger] effect_applied(before, effs[i as int], fresh);
            let ids2 = ids.push(fresh);
            let t1 = effs.take(i + 1);
            assert(t1.drop_last() =~= effs.take(i as int));
            assert(t1.last() == effs[i as int]);
            lemma_effects_written_prefix(old(delta)@, effs.take(i as int), ids, ids2);
            assert(delta@ == effects_written(old(delta)@, t1, ids2));
            assert forall|j: int| 0 <= j < t1.len() && needs_fresh_id(#[trigger] t1[j]) implies crate::types::is_random_uuid(ids2[j]) by {
                if j < i {
                    assert(effs.take(i as int)[j] == t1[j]);
                }
            }
            ids = ids2;
        }
        i = i + 1;
    }
    assert(effs.take(i as int) =~= effs);
}

/// The entity whose diff an effect writes; a spawn writes none.
pub open spec fn effect_target(eff: EffectView) -> Option<EntityId> {
    match eff {
        EffectView::KillEntity { id } => Some(id),
        EffectView::SpawnEntity { .. } => None,
        EffectView::ModifyProperty { entity_id, .. } => Some(entity_id),
        EffectView::AddRelationship { from, .. } => Some(from),
        EffectView::RemoveRelationship { from, .. } => Some(from),
        EffectView::AssignRole { entity_id, .. } => Some(entity_id),
        EffectView::RemoveRole { entity_id, .. } => Some(entity_id),
    }
}

/// Writing an effect into a delta changes only what the effect names. The
/// removals and events stay; only a spawn adds an entity, and a spawn changes
/// no diff; the diff of every entity other than the effect's target stays; and
/// in the target's diff every part but the one the effect writes stays as it
/// was: a kill marks the entity dead and keeps its pending property, role and
/// relationship changes; a property write sets that one property; a
/// relationship or role write appends its item. Only a kill changes an alive
/// flag.
pub proof fn law_effect_changes_only_its_target(d: DeltaView, eff: EffectView, fresh: EntityId, x: EntityId)
    ensures
        effect_applied(d, eff, fresh).removed == d.removed,
        effect_applied(d, eff, fresh).events == d.events,
        !(eff is SpawnEntity) ==> effect_applied(d, eff, fresh).added == d.added,
        eff is SpawnEntity ==> effect_applied(d, eff, fresh).modified == d.modified,
        effect_target(eff) != Some(x) ==> effect_applied(d, eff, fresh).diff(x) == d.diff(x),
        effect_applied(d, eff, fresh).diff(x).alive_change == (if eff == (EffectView::KillEntity { id: x }) {
            Some(false)
        } else {
            d.diff(x).alive_change
        }),
        effect_target(eff) == Some(x) ==> {
            let before = d.diff(x);
            let after = effect_applied(d, eff, fresh).diff(x);
            &&& (eff is ModifyProperty) || after.upserted == before.upserted
            &&& eff is ModifyProperty ==> as_map(after.upserted) == as_map(before.upserted).insert(
                eff->property,
                eff->value,
            )
            &&& after.props_removed == before.props_removed
            &&& after.rels_added == (if eff is AddRelationship {
                before.rels_added.push(eff->AddRelationship_to)
            } else {
                before.rels_added
            })
            &&& after.rels_removed == (if eff is RemoveRelationship {
                before.rels_removed.push(eff->RemoveRelationship_to)
            } else {
                before.rels_removed
            })
            &&& after.roles_added == (if eff is AssignRole {
                before.roles_added.push(eff->AssignRole_role)
            } else {
                before.roles_added
            })
            &&& after.roles_removed == (if eff is RemoveRole {
                before.roles_removed.push(eff->RemoveRole_role)
            } else {
                before.roles_removed
            })
        },
{
    let (t, nd) = match eff {
        EffectView::KillEntity { id } => (id, DiffView { alive_change: Some(false), ..d.diff(id) }),
        EffectView::SpawnEntity { .. } => (x, d.diff(x)),
        EffectView::ModifyProperty { entity_id, property, value } => (
            entity_id,
            DiffView { upserted: assoc_put(d.diff(entity_id).upserted, property, value), ..d.diff(entity_id) },
        ),
        EffectView::AddRelationship { from, to } => (
            from,
            DiffView { rels_added: d.diff(from).rels_added.push(to), ..d.diff(from) },
        ),
        EffectView::RemoveRelationship { from, to } => (
            from,
            DiffView { rels_removed: d.diff(from).rels_removed.push(to), ..d.diff(from) },
        ),
        EffectView::AssignRole { entity_id, role } => (
            entity_id,
            DiffView { roles_added: d.diff(entity_id).roles_added.push(role), ..d.diff(entity_id) },
        ),
        EffectView::RemoveRole { entity_id, role } => (
            entity_id,
            DiffView { roles_removed: d.diff(entity_id).roles_removed.push(role), ..d.diff(entity_id) },
        ),
    };
    if !(eff is SpawnEntity) {
        assert(effect_applied(d, eff, fresh).modified == assoc_put(d.modified, t, nd));
        crate::assoc::lemma_put_same(d.modified, t, nd);
        if t != x {
            crate::assoc::lemma_put_other(d.modified, t, nd, x);
        }
        if eff is ModifyProperty {
            crate::assoc::lemma_as_map_put(d.diff(t).upserted, eff->property, eff->value);
        }
    }
}

/// The effects of a list of events are every effect of every event, event by
/// event and in order: one event gives exactly its own effects, and the effects
/// of two lists one after the other are their effects one after the other.
pub proof fn law_effects_of_every_event(e: EventView, s: Seq<EventView>, t: Seq<EventView>)
    ensures
        effects_of(seq![e]) == e.effects,
        effects_of(s + t) == effects_of(s) + effects_of(t),
        effects_of(s).len() + effects_of(t).len() == effects_of(s + t).len(),
    decreases t.len(),
{
    assert(seq![e].drop_last() =~= Seq::<EventView>::empty());
    assert(effects_of(Seq::<EventView>::empty()) == Seq::<EffectView>::empty());
    assert(seq![e].last() == e);
    assert(Seq::<EffectView>::empty() + e.effects =~= e.effects);
    if t.len() == 0 {
        assert(s + t =~= s);
        assert(effects_of(s) + Seq::<EffectView>::empty() =~= effects_of(s));
    } else {
        law_effects_of_every_event(e, s, t.drop_last());
        assert((s + t).drop_last() =~= s + t.drop_last());
        assert((s + t).last() == t.last());
        assert(effects_of(s) + (effects_of(t.drop_last()) + t.last().effects) =~= (effects_of(s) + effects_of(
            t.drop_last(),
        )) + t.last().effects);
    }
}

/// Every effect of every event of a list is among the list's effects.
pub proof fn law_effects_of_member(evs: Seq<EventView>, i: int, j: int)
    requires
        0 <= i < evs.len(),
        0 <= j < evs[i].effects.len(),
    ensures
        effects_of(evs).contains(evs[i].effects[j]),
    decreases evs.len(),
{
    let r = evs.drop_last();
    if i < evs.len() - 1 {
        assert(r[i] == evs[i]);
        law_effects_of_member(r, i, j);
        let k = choose|k: int| 0 <= k < effects_of(r).len() && effects_of(r)[k] == evs[i].effects[j];
        assert((effects_of(r) + evs.last().effects)[k] == evs[i].effects[j]);
    } else {
        assert(evs.last() == evs[i]);
        assert((effects_of(r) + evs.last().effects)[effects_of(r).len() + j] == evs[i].effects[j]);
    }
}

/// Writing effects marks an entity dead when one of them kills it, and keeps
/// it marked dead when it already was: no effect revives.
pub proof fn law_written_kills(d: DeltaView, effs: Seq<EffectView>, ids: Seq<EntityId>, x: EntityId)
    requires
        ids.len() >= effs.len(),
        effs.contains(EffectView::KillEntity { id: x }) || d.diff(x).alive_change == Some(false),
    ensures
        effects_written(d, effs, ids).diff(x).alive_change == Some(false),
    decreases effs.len(),
{
    if effs.len() > 0 {
        let r = effs.drop_last();
        let prev = effects_written(d, r, ids);
        if effs.last() != (EffectView::KillEntity { id: x }) {
            let k = choose|k: int| 0 <= k < effs.len() && effs[k] == (EffectView::KillEntity { id: x });
            if d.diff(x).alive_change != Some(false) {
                assert(k < effs.len() - 1);
                assert(r[k] == effs[k]);
            }
            law_written_kills(d, r, ids, x);
        }
        law_effect_changes_only_its_target(prev, effs.last(), ids[effs.len() - 1], x);
    }
}

} // verus!
