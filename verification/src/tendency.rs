//! World-tendency model: persistent forces that self-correct the timeline.
//!
//! A [`Tendency`] expresses an invariant of the world (e.g. "there must always
//! be a unifier"). After each step the manager evaluates every tendency and,
//! when its condition is met, merges its corrective [`Delta`] into the step.

use vstd::prelude::*;

use crate::assoc::{assoc_put, lemma_filter_first, lemma_filter_none, lemma_map_push};
use crate::causal::{spawned, strings_view};
use crate::delta::{Delta, DeltaView, DiffView};
use crate::entity::{patched, Entity, EntityPool, EntityView, PoolView, Properties};
use crate::text::{str_eq, DeepCopy, TextSet};
use crate::types::{is_random_uuid, new_uuid, EntityId, TendencyId};
use crate::value::{value_eq, Value, ValueModel};
use vstd::arithmetic::div_mod::{lemma_basic_div, lemma_div_is_ordered_by_denominator};
use vstd::arithmetic::power2::{lemma2_to64, lemma_pow2_pos, lemma_pow2_strictly_increases, pow2};
use vstd::bits::{lemma_u64_shl_is_mul, lemma_u64_shr_is_div};

verus! {

/// Condition that, when true, triggers a tendency's corrective effect.
#[derive(Debug, Clone)]
pub enum TendencyCondition {
    /// The role has no living occupants.
    RoleVacant { role: String },
    /// Fewer than `threshold` living entities of the given kind exist.
    EntityCountBelow { kind: String, threshold: usize },
    /// More than `threshold` living entities of the given kind exist.
    EntityCountAbove { kind: String, threshold: usize },
    /// Fewer than `threshold` living entities fill the given role.
    RoleCountBelow { role: String, threshold: usize },
    /// At least one living entity of `kind` has `property` equal to `value`.
    PropertyEquals { kind: String, property: String, value: Value },
    /// Always fires.
    Always,
}

/// The content of a [`TendencyCondition`].
pub enum ConditionView {
    RoleVacant { role: Seq<char> },
    EntityCountBelow { kind: Seq<char>, threshold: usize },
    EntityCountAbove { kind: Seq<char>, threshold: usize },
    RoleCountBelow { role: Seq<char>, threshold: usize },
    PropertyEquals { kind: Seq<char>, property: Seq<char>, value: ValueModel },
    Always,
}

impl View for TendencyCondition {
    type V = ConditionView;

    open spec fn view(&self) -> ConditionView {
        match self {
            TendencyCondition::RoleVacant { role } => ConditionView::RoleVacant { role: role@ },
            TendencyCondition::EntityCountBelow { kind, threshold } => ConditionView::EntityCountBelow {
                kind: kind@,
                threshold: *threshold,
            },
            TendencyCondition::EntityCountAbove { kind, threshold } => ConditionView::EntityCountAbove {
                kind: kind@,
                threshold: *threshold,
            },
            TendencyCondition::RoleCountBelow { role, threshold } => ConditionView::RoleCountBelow {
                role: role@,
                threshold: *threshold,
            },
            TendencyCondition::PropertyEquals { kind, property, value } => ConditionView::PropertyEquals {
                kind: kind@,
                property: property@,
                value: value@,
            },
            TendencyCondition::Always => ConditionView::Always,
        }
    }
}

/// Some entity of `es` has `property` set to a value equal to `value`.
pub open spec fn some_property_equals(
    es: Seq<EntityView>,
    property: Seq<char>,
    value: ValueModel,
) -> bool {
    exists|i: int|
        0 <= i < es.len() && #[trigger] es[i].properties.contains_key(property) && value_eq(
            es[i].properties[property],
            value,
        )
}

/// Whether condition `c` holds of pool `p`.
pub open spec fn condition_holds(c: ConditionView, p: PoolView) -> bool {
    match c {
        ConditionView::RoleVacant { role } => p.role_members(role).len() == 0,
        ConditionView::EntityCountBelow { kind, threshold } => p.kind_members(kind).len() < threshold,
        ConditionView::EntityCountAbove { kind, threshold } => p.kind_members(kind).len() > threshold,
        ConditionView::RoleCountBelow { role, threshold } => p.role_members(role).len() < threshold,
        ConditionView::PropertyEquals { kind, property, value } => some_property_equals(
            p.kind_members(kind),
            property,
            value,
        ),
        ConditionView::Always => true,
    }
}

impl TendencyCondition {
    /// Evaluate the condition against the current entity pool.
    pub fn is_met(&self, pool: &EntityPool) -> (r: bool)
        ensures
            r == condition_holds(self@, pool@),
    {
        match self {
            TendencyCondition::RoleVacant { role } => pool.is_role_vacant(role.as_str()),
            TendencyCondition::EntityCountBelow { kind, threshold } => {
                pool.get_by_kind(kind.as_str()).len() < *threshold
            },
            TendencyCondition::EntityCountAbove { kind, threshold } => {
                pool.get_by_kind(kind.as_str()).len() > *threshold
            },
            TendencyCondition::RoleCountBelow { role, threshold } => {
                pool.get_by_role(role.as_str()).len() < *threshold
            },
            TendencyCondition::PropertyEquals { kind, property, value } => {
                let members = pool.get_by_kind(kind.as_str());
                let ghost es = members@.map_values(|e: &Entity| e@);
                let mut i: usize = 0;
                while i < members.len()
                    invariant
                        i <= members@.len(),
                        es == members@.map_values(|e: &Entity| e@),
                        es == pool@.kind_members(kind@),
                        self@ == (ConditionView::PropertyEquals {
                            kind: kind@,
                            property: property@,
                            value: value@,
                        }),
                        forall|j: int|
                            0 <= j < i ==> !(#[trigger] es[j].properties.contains_key(property@)
                                && value_eq(es[j].properties[property@], value@)),
                    decreases members@.len() - i,
                {
                    assert(es[i as int] == members@[i as int]@);
                    match members[i].properties.get(property.as_str()) {
                        Some(v) => {
                            if v.equals(value) {
                                assert(es[i as int].properties.contains_key(property@) && value_eq(
                                    es[i as int].properties[property@],
                                    value@,
                                ));
                                assert(some_property_equals(es, property@, value@));
                                assert(condition_holds(self@, pool@));
                                return true;
                            }
                        },
                        None => {},
                    }
                    i = i + 1;
                }
                false
            },
            TendencyCondition::Always => true,
        }
    }
}

/// The corrective action taken when a tendency's condition is true.
#[derive(Debug, Clone)]
pub enum TendencyEffect {
    /// Promote the first living entity (of `source_kind`, when given) that does
    /// not have the role yet; optionally set a property on it.
    FillRole {
        role: String,
        source_kind: Option<String>,
        promoted_property: Option<(String, Value)>,
    },
    /// Spawn a new entity with the specified attributes.
    SpawnEntity { kind: String, roles: Vec<String>, initial_properties: Properties },
    /// Ensure at least `min_count` living entities of `kind` exist, spawning as
    /// many as needed with the listed roles.
    EnsureEntityCount { kind: String, min_count: usize, roles: Vec<String> },
    /// Remove the role from the occupants beyond the first `keep_count`.
    TrimRole { role: String, keep_count: usize },
}

/// The content of a [`TendencyEffect`].
pub enum EffectPlanView {
    FillRole {
        role: Seq<char>,
        source_kind: Option<Seq<char>>,
        promoted_property: Option<(Seq<char>, ValueModel)>,
    },
    SpawnEntity {
        kind: Seq<char>,
        roles: Seq<Seq<char>>,
        initial_properties: Map<Seq<char>, ValueModel>,
    },
    EnsureEntityCount { kind: Seq<char>, min_count: usize, roles: Seq<Seq<char>> },
    TrimRole { role: Seq<char>, keep_count: usize },
}

impl View for TendencyEffect {
    type V = EffectPlanView;

    open spec fn view(&self) -> EffectPlanView {
        match self {
            TendencyEffect::FillRole { role, source_kind, promoted_property } => EffectPlanView::FillRole {
                role: role@,
                source_kind: match source_kind {
                    Some(k) => Some(k@),
                    None => None,
                },
                promoted_property: match promoted_property {
                    Some(p) => Some((p.0@, p.1@)),
                    None => None,
                },
            },
            TendencyEffect::SpawnEntity { kind, roles, initial_properties } => EffectPlanView::SpawnEntity {
                kind: kind@,
                roles: strings_view(roles@),
                initial_properties: initial_properties@,
            },
            TendencyEffect::EnsureEntityCount { kind, min_count, roles } => EffectPlanView::EnsureEntityCount {
                kind: kind@,
                min_count: *min_count,
                roles: strings_view(roles@),
            },
            TendencyEffect::TrimRole { role, keep_count } => EffectPlanView::TrimRole {
                role: role@,
                keep_count: *keep_count,
            },
        }
    }
}

/// An entity that `FillRole` may promote: alive, of `source_kind` when one is
/// given, and without the role.
pub open spec fn fill_eligible(role: Seq<char>, source_kind: Option<Seq<char>>) -> spec_fn(EntityView) -> bool {
    |e: EntityView|
        e.alive && !e.roles.contains(role) && match source_kind {
            Some(k) => e.kind == k,
            None => true,
        }
}

/// The IDs of the role occupants beyond the first `keep_count`.
pub open spec fn trim_targets(p: PoolView, role: Seq<char>, keep_count: usize) -> Seq<EntityId> {
    let m = p.role_members(role);
    if keep_count >= m.len() {
        Seq::empty()
    } else {
        m.skip(keep_count as int).map_values(|e: EntityView| e.id)
    }
}

/// `d` with `role` removed from the entity under each of `ids`, in order.
pub open spec fn trims_applied(d: DeltaView, ids: Seq<EntityId>, role: Seq<char>) -> DeltaView
    decreases ids.len(),
{
    if ids.len() == 0 {
        d
    } else {
        let e = trims_applied(d, ids.drop_last(), role);
        e.with_diff(
            ids.last(),
            DiffView { roles_removed: e.diff(ids.last()).roles_removed.push(role), ..e.diff(ids.last()) },
        )
    }
}

/// The added-entity pairs after spawning one entity of `kind` with `roles`
/// under each of `ids`, in order.
pub open spec fn spawns_added(
    s: Seq<(EntityId, EntityView)>,
    ids: Seq<EntityId>,
    kind: Seq<char>,
    roles: Seq<Seq<char>>,
) -> Seq<(EntityId, EntityView)>
    decreases ids.len(),
{
    if ids.len() == 0 {
        s
    } else {
        assoc_put(
            spawns_added(s, ids.drop_last(), kind, roles),
            ids.last(),
            spawned(ids.last(), kind, roles, Map::empty()),
        )
    }
}

/// How many fresh IDs the effect consumes on pool `p`.
pub open spec fn spawn_count(eff: EffectPlanView, p: PoolView) -> nat {
    match eff {
        EffectPlanView::SpawnEntity { .. } => 1,
        EffectPlanView::EnsureEntityCount { kind, min_count, .. } => if p.kind_members(kind).len()
            < min_count {
            (min_count - p.kind_members(kind).len()) as nat
        } else {
            0
        },
        _ => 0,
    }
}

/// The delta an effect produces on pool `p`, spawned entities taking their IDs
/// from `ids`; `None` when `FillRole` finds no candidate.
pub open spec fn effect_delta(eff: EffectPlanView, p: PoolView, ids: Seq<EntityId>) -> Option<DeltaView> {
    match eff {
        EffectPlanView::FillRole { role, source_kind, promoted_property } => {
            let cs = p.all().filter(fill_eligible(role, source_kind));
            if cs.len() == 0 {
                None
            } else {
                Some(
                    DeltaView::empty().with_diff(
                        cs[0].id,
                        DiffView {
                            roles_added: seq![role],
                            upserted: match promoted_property {
                                Some(kv) => seq![kv],
                                None => Seq::empty(),
                            },
                            ..DiffView::empty()
                        },
                    ),
                )
            }
        },
        EffectPlanView::SpawnEntity { kind, roles, initial_properties } => Some(
            DeltaView { added: seq![(ids[0], spawned(ids[0], kind, roles, initial_properties))], ..DeltaView::empty() },
        ),
        EffectPlanView::EnsureEntityCount { kind, min_count, roles } => Some(
            DeltaView {
                added: spawns_added(Seq::empty(), ids.take(spawn_count(eff, p) as int), kind, roles),
                ..DeltaView::empty()
            },
        ),
        EffectPlanView::TrimRole { role, keep_count } => Some(
            trims_applied(DeltaView::empty(), trim_targets(p, role, keep_count), role),
        ),
    }
}

/// The view of an optional delta.
pub open spec fn delta_option_view(r: Option<Delta>) -> Option<DeltaView> {
    match r {
        Some(d) => Some(d@),
        None => None,
    }
}

/// A world-level tendency that provides self-correcting behaviour.
#[derive(Debug, Clone)]
pub struct Tendency {
    pub id: TendencyId,
    /// Human-readable identifier used to reference / remove the tendency.
    pub name: String,
    pub description: String,
    pub condition: TendencyCondition,
    pub effect: TendencyEffect,
    /// Probability in `[0.0, 1.0]` that the tendency fires when its condition is
    /// met, held as the bit pattern of a binary64 number; `1.0` by default. A
    /// random draw decides each time (see [`fire_chance`]); `0.0` never fires
    /// and `1.0` always does.
    pub strength: u64,
    /// Evaluation order: higher is evaluated first.
    pub priority: i32,
}

/// The content of a [`Tendency`].
pub struct TendencyView {
    pub id: TendencyId,
    pub name: Seq<char>,
    pub description: Seq<char>,
    pub condition: ConditionView,
    pub effect: EffectPlanView,
    pub strength: u64,
    pub priority: i32,
}

impl View for Tendency {
    type V = TendencyView;

    open spec fn view(&self) -> TendencyView {
        TendencyView {
            id: self.id,
            name: self.name@,
            description: self.description@,
            condition: self.condition@,
            effect: self.effect@,
            strength: self.strength,
            priority: self.priority,
        }
    }
}

/// The bit pattern of the binary64 number `1.0`.
pub const UNIT_STRENGTH: u64 = 0x3FF0_0000_0000_0000u64;

/// The bit pattern of a binary64 number in `[0.0, 1.0]`: `+0.0` up to `1.0`
/// (the non-negative patterns are ordered as their numbers), or `-0.0`.
pub open spec fn in_unit(x: u64) -> bool {
    x <= UNIT_STRENGTH || x == 0x8000_0000_0000_0000u64
}

/// A strength clamped to `[0.0, 1.0]` on bit patterns: numbers in the interval
/// stay (either zero included), other negative numbers become `0.0`, numbers
/// above `1.0` become `1.0`, and NaN, which is no probability, becomes `0.0`.
pub open spec fn clamp_unit(x: u64) -> u64 {
    if crate::value::float_is_nan(x) {
        0
    } else if x >= 0x8000_0000_0000_0000u64 {
        if x == 0x8000_0000_0000_0000u64 {
            x
        } else {
            0
        }
    } else if x > UNIT_STRENGTH {
        UNIT_STRENGTH
    } else {
        x
    }
}

/// Random draws are taken uniformly below this bound, `2^62`.
pub const DRAW_SCALE: u64 = 0x4000_0000_0000_0000u64;

/// The chance, out of [`DRAW_SCALE`], that a tendency of strength `s` (a binary64
/// bit pattern) fires when its condition holds: `⌊s · 2^62⌋` for a strength in
/// `[0.0, 1.0)`, all of [`DRAW_SCALE`] from `1.0` up, and nothing for a negative
/// number, either zero or NaN.
pub open spec fn fire_chance(s: u64) -> nat {
    let exp = (s / 0x10_0000_0000_0000u64) % 0x800;
    let frac = s % 0x10_0000_0000_0000u64;
    if s >= 0x8000_0000_0000_0000u64 || (exp == 0x7FF && frac != 0) {
        0
    } else if s >= UNIT_STRENGTH {
        DRAW_SCALE as nat
    } else if exp == 0 {
        0
    } else if exp >= 1013 {
        ((0x10_0000_0000_0000u64 + frac) * pow2((exp - 1013) as nat)) as nat
    } else {
        (0x10_0000_0000_0000u64 + frac) as nat / pow2((1013 - exp) as nat)
    }
}

/// Whether a tendency of strength `s` needs a random draw to decide whether it
/// fires: its chance is neither nothing nor certainty.
pub open spec fn needs_draw(s: u64) -> bool {
    0 < fire_chance(s) && fire_chance(s) < DRAW_SCALE
}

/// Whether tendency `t` fires on pool `p` given its random IDs `ids` (the spawn
/// IDs, then the draw when one is needed): never at chance nothing, always at
/// certainty, and otherwise when the draw, taken below [`DRAW_SCALE`], falls
/// below the chance.
pub open spec fn fires(t: TendencyView, p: PoolView, ids: Seq<EntityId>) -> bool {
    &&& fire_chance(t.strength) > 0
    &&& needs_draw(t.strength) ==> (ids[spawn_count(t.effect, p) as int] % (DRAW_SCALE as u128)) < fire_chance(
        t.strength,
    )
}

/// The number of random IDs that `generate_delta` draws on pool `p`: the spawn
/// IDs and, when one is needed, the draw; none when the condition fails or the
/// tendency can never fire.
pub open spec fn draws(t: TendencyView, p: PoolView) -> nat {
    if condition_holds(t.condition, p) && fire_chance(t.strength) > 0 {
        spawn_count(t.effect, p) + if needs_draw(t.strength) {
            1nat
        } else {
            0nat
        }
    } else {
        0
    }
}

/// The corrective delta of tendency `t` on pool `p` with random IDs `ids`:
/// `None` when the condition fails, the tendency does not fire, no candidate is
/// found, or the delta would be empty.
pub open spec fn generated(t: TendencyView, p: PoolView, ids: Seq<EntityId>) -> Option<DeltaView> {
    if !condition_holds(t.condition, p) || !fires(t, p, ids) {
        None
    } else {
        match effect_delta(t.effect, p, ids) {
            Some(d) => if d.is_empty() {
                None
            } else {
                Some(d)
            },
            None => None,
        }
    }
}

/// The chance, out of [`DRAW_SCALE`], that a tendency of strength `s` fires.
pub fn fire_chance_of(s: u64) -> (r: u64)
    ensures
        r == fire_chance(s),
        r <= DRAW_SCALE,
{
    let exp = (s / 0x10_0000_0000_0000u64) % 0x800;
    let frac = s % 0x10_0000_0000_0000u64;
    if s >= 0x8000_0000_0000_0000u64 || (exp == 0x7FF && frac != 0) {
        return 0;
    }
    if s >= UNIT_STRENGTH {
        return DRAW_SCALE;
    }
    if exp == 0 {
        return 0;
    }
    let mant = 0x10_0000_0000_0000u64 + frac;
    assert(s / 0x10_0000_0000_0000u64 <= 1022) by (nonlinear_arith)
        requires
            s < 0x3FF0_0000_0000_0000u64,
    ;
    if exp >= 1013 {
        let k = exp - 1013;
        proof {
            lemma2_to64();
            if k < 9 {
                lemma_pow2_strictly_increases(k as nat, 9);
            }
            let pk = pow2(k as nat);
            assert(mant * pk < 0x4000_0000_0000_0000) by (nonlinear_arith)
                requires
                    mant < 0x20_0000_0000_0000u64,
                    pk <= 512,
            ;
            lemma_u64_shl_is_mul(mant, k);
        }
        mant << k
    } else {
        let k = 1013 - exp;
        if k >= 64 {
            proof {
                lemma2_to64();
                if k > 64 {
                    lemma_pow2_strictly_increases(64, k as nat);
                }
                lemma_basic_div(mant as int, pow2(k as nat) as int);
            }
            return 0;
        }
        proof {
            lemma_u64_shr_is_div(mant, k);
            lemma_pow2_pos(k as nat);
            lemma_div_is_ordered_by_denominator(mant as int, 1, pow2(k as nat) as int);
        }
        mant >> k
    }
}

/// The first entity of the pool that `FillRole` may promote, by its own ID.
fn fill_candidate(pool: &EntityPool, role: &String, source_kind: &Option<String>) -> (r: Option<EntityId>)
    ensures
        ({
            let sk = match source_kind {
                Some(k) => Some(k@),
                None => None,
            };
            let cs = pool@.all().filter(fill_eligible(role@, sk));
            &&& r is None <==> cs.len() == 0
            &&& r matches Some(id) ==> cs.len() > 0 && id == cs[0].id
        }),
{
    let ghost sk = match source_kind {
        Some(k) => Some(k@),
        None => None,
    };
    let ghost f = fill_eligible(role@, sk);
    let all = pool.all_entities();
    let ghost es = all@.map_values(|e: &Entity| e@);
    let mut i: usize = 0;
    while i < all.len()
        invariant
            i <= all@.len(),
            es == all@.map_values(|e: &Entity| e@),
            es == pool@.all(),
            f == fill_eligible(role@, sk),
            sk == (match source_kind {
                Some(k) => Some(k@),
                None => None::<Seq<char>>,
            }),
            forall|j: int| 0 <= j < i ==> !f(#[trigger] es[j]),
        decreases all@.len() - i,
    {
        let e = all[i];
        assert(es[i as int] == e@);
        let kind_ok = match source_kind {
            Some(k) => str_eq(e.kind.as_str(), k.as_str()),
            None => true,
        };
        if e.alive && !e.roles.contains(role.as_str()) && kind_ok {
            proof { lemma_filter_first(es, f, i as int); }
            return Some(e.id);
        }
        i = i + 1;
    }
    proof { lemma_filter_none(es, f); }
    None
}

/// `roles` as a set of strings.
fn role_set(roles: &Vec<String>) -> (r: TextSet)
    ensures
        r@ == strings_view(roles@).to_set(),
{
    TextSet::from_list(roles)
}

impl TendencyEffect {
    /// How many fresh IDs this effect consumes on `pool`.
    pub fn spawn_count(&self, pool: &EntityPool) -> (r: usize)
        ensures
            r == spawn_count(self@, pool@),
    {
        match self {
            TendencyEffect::SpawnEntity { .. } => 1,
            TendencyEffect::EnsureEntityCount { kind, min_count, .. } => {
                let current = pool.get_by_kind(kind.as_str()).len();
                if current < *min_count {
                    *min_count - current
                } else {
                    0
                }
            },
            _ => 0,
        }
    }

    /// The delta this effect produces on `pool`, spawned entities taking their IDs from `ids`.
    pub fn delta_with_ids(&self, pool: &EntityPool, ids: &Vec<EntityId>) -> (r: Option<Delta>)
        requires
            ids@.len() >= spawn_count(self@, pool@),
        ensures
            delta_option_view(r) == effect_delta(self@, pool@, ids@),
    {
        let mut delta = Delta::new();
        match self {
            TendencyEffect::FillRole { role, source_kind, promoted_property } => {
                let candidate = fill_candidate(pool, role, source_kind);
                match candidate {
                    None => {
                        return None;
                    },
                    Some(cid) => {
                        let ghost d0 = delta@;
                        let diff = delta.entity_diff_mut(cid);
                        let r = role.clone();
                        let ghost prev = diff.role_diff.added@;
                        diff.role_diff.added.push(r);
                        proof { lemma_map_push(prev, r, |s: String| s@); }
                        match promoted_property {
                            Some(kv) => {
                                diff.property_diff.upserted.insert(kv.0.clone(), kv.1.copy_value());
                            },
                            None => {},
                        }
                        proof {
                            assert(d0.diff(cid) == DiffView::empty());
                            assert(strings_view(seq![r]) =~= seq![role@]);
                        }
                    },
                }
            },
            TendencyEffect::SpawnEntity { kind, roles, initial_properties } => {
                let id = ids[0];
                let mut entity = Entity::with_id(id, kind.as_str());
                entity.properties = initial_properties.deep_copy();
                entity.roles = role_set(roles);
                delta.added_entities.insert(id, entity);
            },
            TendencyEffect::EnsureEntityCount { kind, min_count, roles } => {
                let n = self.spawn_count(pool);
                let ghost ids_used = ids@.take(n as int);
                let mut i: usize = 0;
                while i < n
                    invariant
                        i <= n,
                        n <= ids@.len(),
                        ids_used == ids@.take(n as int),
                        delta@ == (DeltaView {
                            added: spawns_added(Seq::empty(), ids_used.take(i as int), kind@, strings_view(roles@)),
                            ..DeltaView::empty()
                        }),
                    decreases n - i,
                {
                    let id = ids[i];
                    let mut entity = Entity::with_id(id, kind.as_str());
                    entity.roles = role_set(roles);
                    delta.added_entities.insert(id, entity);
                    assert(ids_used.take(i + 1).drop_last() =~= ids_used.take(i as int));
                    i = i + 1;
                }
                assert(ids_used.take(i as int) =~= ids_used);
            },
            TendencyEffect::TrimRole { role, keep_count } => {
                let occupants = pool.get_by_role(role.as_str());
                let ghost ms = occupants@.map_values(|e: &Entity| e@);
                let ghost targets = trim_targets(pool@, role@, *keep_count);
                let mut j: usize = *keep_count;
                while j < occupants.len()
                    invariant
                        ms == occupants@.map_values(|e: &Entity| e@),
                        ms == pool@.role_members(role@),
                        targets == trim_targets(pool@, role@, *keep_count),
                        *keep_count <= j <= occupants@.len() || (j == *keep_count && j >= occupants@.len()),
                        j < occupants@.len() ==> delta@ == trims_applied(
                            DeltaView::empty(),
                            targets.take(j - *keep_count),
                            role@,
                        ),
                        j >= occupants@.len() ==> delta@ == trims_applied(DeltaView::empty(), targets, role@),
                    decreases occupants@.len() - j,
                {
                    assert(ms[j as int] == occupants@[j as int]@);
                    let id = occupants[j].id;
                    let ghost d0 = delta@;
                    let diff = delta.entity_diff_mut(id);
                    let r = role.clone();
                    let ghost prev = diff.role_diff.removed@;
                    diff.role_diff.removed.push(r);
                    proof {
                        lemma_map_push(prev, r, |s: String| s@);
                        let k = j - *keep_count;
                        assert(targets[k] == id);
                        assert(targets.take(k + 1).drop_last() =~= targets.take(k));
                        if j + 1 >= occupants@.len() {
                            assert(targets.take(k + 1) =~= targets);
                        }
                    }
                    j = j + 1;
                }
                proof {
                    if *keep_count >= occupants@.len() {
                        assert(targets =~= Seq::<EntityId>::empty());
                    }
                }
            },
        }
        Some(delta)
    }
}

impl Tendency {
    /// Build a tendency with a fresh random ID, `strength = 1.0` and `priority = 0`.
    pub fn new(
        name: &str,
        description: &str,
        condition: TendencyCondition,
        effect: TendencyEffect,
    ) -> (r: Tendency)
        ensures
            r@ == (TendencyView {
                id: r.id,
                name: name@,
                description: description@,
                condition: condition@,
                effect: effect@,
                strength: UNIT_STRENGTH,
                priority: 0,
            }),
            is_random_uuid(r.id),
    {
        Tendency {
            id: new_uuid(),
            name: name.to_owned(),
            description: description.to_owned(),
            condition,
            effect,
            strength: UNIT_STRENGTH,
            priority: 0,
        }
    }

    /// Set the strength (a binary64 bit pattern), clamped to `[0.0, 1.0]`; a NaN
    /// strength becomes `0.0`.
    pub fn with_strength(self, strength: u64) -> (r: Tendency)
        ensures
            r@ == (TendencyView { strength: clamp_unit(strength), ..self@ }),
            in_unit(r.strength),
            in_unit(strength) ==> r.strength == strength,
    {
        let mut t = self;
        let nan = (strength & 0x7FF0_0000_0000_0000u64) == 0x7FF0_0000_0000_0000u64 && (strength
            & 0x000F_FFFF_FFFF_FFFFu64) != 0;
        assert(in_unit(strength) ==> !nan) by (bit_vector)
            requires
                nan == ((strength & 0x7FF0_0000_0000_0000u64) == 0x7FF0_0000_0000_0000u64 && (strength
                    & 0x000F_FFFF_FFFF_FFFFu64) != 0),
        ;
        t.strength = if nan {
            0
        } else if strength >= 0x8000_0000_0000_0000u64 {
            if strength == 0x8000_0000_0000_0000u64 {
                strength
            } else {
                0
            }
        } else if strength > UNIT_STRENGTH {
            UNIT_STRENGTH
        } else {
            strength
        };
        t
    }

    pub fn with_priority(self, priority: i32) -> (r: Tendency)
        ensures
            r@ == (TendencyView { priority, ..self@ }),
    {
        let mut t = self;
        t.priority = priority;
        t
    }

    /// Whether the tendency's condition is currently satisfied.
    pub fn condition_met(&self, pool: &EntityPool) -> (r: bool)
        ensures
            r == condition_holds(self@.condition, pool@),
    {
        self.condition.is_met(pool)
    }

    /// The corrective delta for this tendency on `pool` with the random IDs
    /// `ids`: the IDs of spawned entities first, then, when the strength is
    /// strictly between nothing and certainty, the draw that decides whether the
    /// tendency fires.
    pub fn generate_delta_with_ids(&self, pool: &EntityPool, ids: &Vec<EntityId>) -> (r: Option<Delta>)
        requires
            ids@.len() >= draws(self@, pool@),
        ensures
            delta_option_view(r) == generated(self@, pool@, ids@),
    {
        if !self.condition_met(pool) {
            return None;
        }
        let chance = fire_chance_of(self.strength);
        if chance == 0 {
            return None;
        }
        if chance < DRAW_SCALE {
            let k = self.effect.spawn_count(pool);
            let draw = ids[k];
            if draw % 0x4000_0000_0000_0000u128 >= chance as u128 {
                return None;
            }
        }
        match self.effect.delta_with_ids(pool, ids) {
            Some(d) => {
                if d.is_empty() {
                    None
                } else {
                    Some(d)
                }
            },
            None => None,
        }
    }

    /// Generate the corrective delta for this tendency on `pool`, spawned
    /// entities getting fresh random IDs. `None` when the condition is not met,
    /// the tendency does not fire (it fires with probability `strength`, decided
    /// by a random draw unless the strength is `0.0` or less, NaN, or `1.0` or
    /// more), no candidate entity can be found, or nothing would change. The
    /// draw is one more random UUID, read below [`DRAW_SCALE`]: its low 62 bits
    /// are the random ones, below the two variant bits.
    pub fn generate_delta(&self, pool: &EntityPool) -> (r: Option<Delta>)
        ensures
            exists|ids: Seq<EntityId>|
                ids.len() == draws(self@, pool@) && (forall|i: int|
                    0 <= i < ids.len() ==> is_random_uuid(#[trigger] ids[i]))
                    && delta_option_view(r) == #[trigger] generated(self@, pool@, ids),
    {
        let mut ids: Vec<EntityId> = Vec::new();
        if self.condition_met(pool) {
            let chance = fire_chance_of(self.strength);
            if chance > 0 {
                let n = self.effect.spawn_count(pool);
                let mut i: usize = 0;
                while i < n
                    invariant
                        i <= n,
                        ids@.len() == i,
                        forall|j: int| 0 <= j < i ==> is_random_uuid(#[trigger] ids@[j]),
                    decreases n - i,
                {
                    ids.push(new_uuid());
                    i = i + 1;
                }
                if chance < DRAW_SCALE {
                    let draw = new_uuid();
                    ids.push(draw);
                }
            }
        }
        let r = self.generate_delta_with_ids(pool, &ids);
        assert(ids@.len() == draws(self@, pool@) && (forall|i: int|
            0 <= i < ids@.len() ==> is_random_uuid(#[trigger] ids@[i]))
            && delta_option_view(r) == generated(self@, pool@, ids@));
        r
    }
}


/// A tendency of strength `0.0` (either zero) or of a negative strength never
/// fires: it draws nothing and yields no corrective delta, whatever the pool
/// and the random IDs.
pub proof fn law_zero_strength_never_fires(t: TendencyView, p: PoolView, ids: Seq<EntityId>)
    requires
        t.strength == 0 || t.strength >= 0x8000_0000_0000_0000u64,
    ensures
        fire_chance(t.strength) == 0,
        draws(t, p) == 0,
        generated(t, p, ids) is None,
{
}

/// A tendency of strength `1.0` or more (infinity included, NaN not) fires
/// whenever its condition holds: it takes no draw, and its corrective delta is
/// its effect's delta when that is not empty.
pub proof fn law_full_strength_always_fires(t: TendencyView, p: PoolView, ids: Seq<EntityId>)
    requires
        UNIT_STRENGTH <= t.strength <= 0x7FF0_0000_0000_0000u64,
    ensures
        fire_chance(t.strength) == DRAW_SCALE,
        !needs_draw(t.strength),
        fires(t, p, ids),
        draws(t, p) == (if condition_holds(t.condition, p) {
            spawn_count(t.effect, p)
        } else {
            0
        }),
{
    let exp = (t.strength / 0x10_0000_0000_0000u64) % 0x800;
    let frac = t.strength % 0x10_0000_0000_0000u64;
    assert(!(exp == 0x7FF && frac != 0)) by (nonlinear_arith)
        requires
            t.strength <= 0x7FF0_0000_0000_0000u64,
            exp == (t.strength / 0x10_0000_0000_0000u64) % 0x800,
            frac == t.strength % 0x10_0000_0000_0000u64,
    ;
}

/// A role-filling correction promotes an entity: once its delta is applied to
/// a pool that stores each entity once under its own ID, a living entity fills the role.
pub proof fn law_fill_role_fills(
    t: TendencyView,
    p: PoolView,
    ids: Seq<EntityId>,
    role: Seq<char>,
    source_kind: Option<Seq<char>>,
    promoted_property: Option<(Seq<char>, ValueModel)>,
)
    requires
        p.well_keyed(),
        t.effect == (EffectPlanView::FillRole { role, source_kind, promoted_property }),
        generated(t, p, ids) is Some,
    ensures
        p.with_delta(generated(t, p, ids)->0).role_members(role).len() > 0,
        ({
            let d = generated(t, p, ids)->0;
            let x = d.modified[0].0;
            &&& d.added.len() == 0 && d.removed.len() == 0 && d.modified.len() == 1
            &&& d.modified[0].1.roles_added == seq![role]
            &&& p.has(x) && p.entity(x).alive && !p.entity(x).roles.contains(role)
            &&& source_kind matches Some(k) ==> p.entity(x).kind == k
            &&& p.with_delta(d).holders(role).len() == p.holders(role).len() + 1
        }),
{
    let f = fill_eligible(role, source_kind);
    let cs = p.all().filter(f);
    let c = cs[0];
    let x = c.id;
    let dv = DiffView {
        roles_added: seq![role],
        upserted: match promoted_property {
            Some(kv) => seq![kv],
            None => Seq::empty(),
        },
        ..DiffView::empty()
    };
    let d = generated(t, p, ids)->0;
    assert(d == DeltaView::empty().with_diff(x, dv));
    assert(d.modified == seq![(x, dv)]);
    assert(d.modified.drop_last() =~= Seq::<(EntityId, DiffView)>::empty());
    assert(d.added.len() == 0 && d.removed.len() == 0);
    assert(p.with_entities_added(d.added) == p);
    assert(p.with_diffs_applied(d.modified) == p.with_diffs_applied(d.modified.drop_last()).with_diff_applied(
        x,
        dv,
    ));
    assert(p.with_delta(d) == p.with_diff_applied(x, dv));
    assert(cs.contains(c));
    crate::assoc::lemma_filter_member(p.all(), f, c);
    let i = choose|i: int| 0 <= i < p.all().len() && p.all()[i] == c;
    assert(p.entries[i].1 == c);
    assert(p.entries[i].0 == x);
    crate::entity::lemma_distinct_lookup(p.entries, i);
    assert(p.has(x));
    assert(p.entity(x) == c);
    let e1 = crate::entity::patched(c, dv);
    assert(e1.alive);
    let p1 = PoolView { entries: assoc_put(p.entries, x, e1), ..p };
    crate::assoc::lemma_put_same(p.entries, x, e1);
    assert(p1.has(x));
    assert(seq![role].drop_last() =~= Seq::<Seq<char>>::empty());
    let p2 = p1.with_role(x, role, true);
    assert(p1.with_roles(x, seq![role], true) == p1.with_roles(x, seq![role].drop_last(), true).with_role(
        x,
        seq![role].last(),
        true,
    ));
    assert(p1.with_roles(x, seq![role], true) == p2);
    assert(dv.roles_removed.len() == 0);
    assert(p2.with_roles(x, dv.roles_removed, false) == p2);
    assert(p.with_diff_applied(x, dv) == p2);
    let e2 = EntityView { roles: e1.roles.insert(role), ..e1 };
    assert(p2.entries == assoc_put(p1.entries, x, e2));
    crate::assoc::lemma_put_same(p1.entries, x, e2);
    crate::entity::lemma_stored_member(p2.entries, x);
    assert(p2.entries.contains((x, e2)));
    assert(p2.index[role].contains(x));
    let g = |q: (EntityId, EntityView)| p2.index[role].contains(q.0) && q.1.alive;
    crate::assoc::lemma_filter_member(p2.entries, g, (x, e2));
    assert(p2.entries.filter(g).len() > 0);
    // the promoted entity did not hold the role, so the holders grow by one
    assert(f(c));
    crate::assoc::lemma_first_index_at(p.entries, x, i);
    let s1 = p.entries.update(i, (x, e1));
    assert(p1.entries == s1);
    assert forall|j: int| 0 <= j < i implies s1[j].0 != x by {
        assert(s1[j] == p.entries[j]);
    }
    crate::assoc::lemma_first_index_at(s1, x, i);
    assert(p2.entries == p.entries.update(i, (x, e2)));
    let h = |q: (EntityId, EntityView)| q.1.roles.contains(role) && q.1.alive;
    lemma_filter_update_gain(p.entries, i, (x, e2), h);
}

/// Replacing an element that a filter drops by one that it keeps makes the
/// filtered sequence one longer.
pub proof fn lemma_filter_update_gain<A>(s: Seq<A>, i: int, v: A, g: spec_fn(A) -> bool)
    requires
        0 <= i < s.len(),
        !g(s[i]),
        g(v),
    ensures
        s.update(i, v).filter(g).len() == s.filter(g).len() + 1,
    decreases s.len(),
{
    reveal_with_fuel(Seq::filter, 1);
    let u = s.update(i, v);
    let r = s.drop_last();
    assert(u.drop_last() =~= if i == s.len() - 1 {
        r
    } else {
        r.update(i, v)
    });
    if i < s.len() - 1 {
        assert(r[i] == s[i]);
        lemma_filter_update_gain(r, i, v, g);
        assert(u.last() == s.last());
    } else {
        assert(u.last() == v);
    }
}


/// A filter that every element passes keeps the whole sequence.
pub proof fn lemma_filter_all<A>(s: Seq<A>, f: spec_fn(A) -> bool)
    requires
        forall|i: int| 0 <= i < s.len() ==> f(#[trigger] s[i]),
    ensures
        s.filter(f) == s,
    decreases s.len(),
{
    reveal_with_fuel(Seq::filter, 1);
    if s.len() > 0 {
        let r = s.drop_last();
        assert forall|i: int| 0 <= i < r.len() implies f(#[trigger] r[i]) by {
            assert(r[i] == s[i]);
        }
        lemma_filter_all(r, f);
        assert(f(s[s.len() - 1]));
        assert(s =~= r.push(s.last()));
    }
}

/// Spawning under pairwise different IDs appends one entity per ID.
pub proof fn lemma_spawns_appended(js: Seq<EntityId>, kind: Seq<char>, roles: Seq<Seq<char>>)
    requires
        forall|i: int, j: int| #![trigger js[i], js[j]] 0 <= i < j < js.len() ==> js[i] != js[j],
    ensures
        spawns_added(Seq::empty(), js, kind, roles).len() == js.len(),
        forall|i: int|
            0 <= i < js.len() ==> #[trigger] spawns_added(Seq::empty(), js, kind, roles)[i] == (
                js[i],
                spawned(js[i], kind, roles, Map::empty()),
            ),
    decreases js.len(),
{
    if js.len() > 0 {
        let r = js.drop_last();
        assert forall|i: int, j: int| #![trigger r[i], r[j]] 0 <= i < j < r.len() implies r[i] != r[j] by {
            assert(r[i] == js[i] && r[j] == js[j]);
        }
        lemma_spawns_appended(r, kind, roles);
        let prev = spawns_added(Seq::empty(), r, kind, roles);
        let x = js.last();
        assert(!crate::assoc::has_key(prev, x)) by {
            if crate::assoc::has_key(prev, x) {
                let i = choose|i: int| 0 <= i < prev.len() && prev[i].0 == x;
                assert(prev[i].0 == r[i]);
                assert(js[i] == r[i]);
                assert(js[js.len() - 1] == x);
            }
        }
        crate::assoc::lemma_assoc_put_entries(prev, x, spawned(x, kind, roles, Map::empty()));
        assert forall|i: int| 0 <= i < js.len() implies #[trigger] spawns_added(Seq::empty(), js, kind, roles)[i] == (
            js[i],
            spawned(js[i], kind, roles, Map::empty()),
        ) by {
            if i < r.len() {
                assert(r[i] == js[i]);
            }
        }
    }
}

/// Adding entities whose own IDs are new and pairwise different, each under
/// its own ID, appends them to the pool's entries.
pub proof fn lemma_adds_appended(p: PoolView, es: Seq<(EntityId, EntityView)>)
    requires
        forall|i: int| 0 <= i < es.len() ==> !p.has(#[trigger] es[i].1.id),
        forall|i: int| 0 <= i < es.len() ==> #[trigger] es[i].1.id == es[i].0,
        forall|i: int, j: int| #![trigger es[i], es[j]] 0 <= i < j < es.len() ==> es[i].1.id != es[j].1.id,
    ensures
        p.with_entities_added(es).entries == p.entries + es,
    decreases es.len(),
{
    if es.len() == 0 {
        assert(p.entries + es =~= p.entries);
    } else {
        let r = es.drop_last();
        assert forall|i: int| 0 <= i < r.len() implies !p.has(#[trigger] r[i].1.id) by {
            assert(r[i] == es[i]);
        }
        assert forall|i: int| 0 <= i < r.len() implies #[trigger] r[i].1.id == r[i].0 by {
            assert(r[i] == es[i]);
        }
        assert forall|i: int, j: int| #![trigger r[i], r[j]] 0 <= i < j < r.len() implies r[i].1.id != r[j].1.id by {
            assert(r[i] == es[i] && r[j] == es[j]);
        }
        lemma_adds_appended(p, r);
        let q = p.with_entities_added(r);
        let e = es.last().1;
        crate::index::lemma_adds_has(p, r, e.id);
        assert(!q.has(e.id)) by {
            assert(es[es.len() - 1].1.id == e.id);
            if exists|j: int| 0 <= j < r.len() && #[trigger] r[j].1.id == e.id {
                let j = choose|j: int| 0 <= j < r.len() && #[trigger] r[j].1.id == e.id;
                assert(es[j] == r[j]);
            }
        }
        crate::assoc::lemma_assoc_put_entries(q.entries, e.id, e);
        assert(es.last() == (e.id, e)) by {
            assert(es[es.len() - 1].1.id == es[es.len() - 1].0);
        }
        assert(p.entries + es =~= (p.entries + r).push(es.last()));
    }
}

/// A head-count correction reaches its goal: once its delta is applied, with
/// new, pairwise different spawn IDs, at least `min_count` living entities of
/// the kind exist.
pub proof fn law_ensure_count_reaches(
    t: TendencyView,
    p: PoolView,
    ids: Seq<EntityId>,
    kind: Seq<char>,
    min_count: usize,
    roles: Seq<Seq<char>>,
)
    requires
        t.effect == (EffectPlanView::EnsureEntityCount { kind, min_count, roles }),
        generated(t, p, ids) is Some,
        ids.len() >= spawn_count(t.effect, p),
        forall|i: int| 0 <= i < spawn_count(t.effect, p) ==> !p.has(#[trigger] ids[i]),
        forall|i: int, j: int|
            #![trigger ids[i], ids[j]]
            0 <= i < j < spawn_count(t.effect, p) ==> ids[i] != ids[j],
    ensures
        p.with_delta(generated(t, p, ids)->0).kind_members(kind).len() >= min_count,
{
    let k = spawn_count(t.effect, p) as int;
    let js = ids.take(k);
    let d = generated(t, p, ids)->0;
    let es = spawns_added(Seq::empty(), js, kind, roles);
    assert(d.added == es);
    assert forall|i: int, j: int| #![trigger js[i], js[j]] 0 <= i < j < js.len() implies js[i] != js[j] by {
        assert(js[i] == ids[i] && js[j] == ids[j]);
    }
    lemma_spawns_appended(js, kind, roles);
    assert(es.len() > 0);
    assert forall|i: int| 0 <= i < es.len() implies !p.has(#[trigger] es[i].1.id) by {
        assert(js[i] == ids[i]);
    }
    assert forall|i: int| 0 <= i < es.len() implies #[trigger] es[i].1.id == es[i].0 by {}
    assert forall|i: int, j: int| #![trigger es[i], es[j]] 0 <= i < j < es.len() implies es[i].1.id != es[j].1.id by {
        assert(js[i] == ids[i] && js[j] == ids[j]);
    }
    lemma_adds_appended(p, es);
    let q = p.with_entities_added(es);
    assert(d.modified.len() == 0 && d.removed.len() == 0);
    assert(p.with_delta(d) == q);
    let f = |x: (EntityId, EntityView)| x.1.kind == kind && x.1.alive;
    Seq::filter_distributes_over_add(p.entries, es, f);
    lemma_filter_all(es, f);
    assert(q.kind_members(kind).len() == p.kind_members(kind).len() + es.len());
}


/// A spawning correction adds one living entity of its kind under a new ID.
pub proof fn law_spawn_adds_one(
    t: TendencyView,
    p: PoolView,
    ids: Seq<EntityId>,
    kind: Seq<char>,
    roles: Seq<Seq<char>>,
    initial_properties: Map<Seq<char>, ValueModel>,
)
    requires
        t.effect == (EffectPlanView::SpawnEntity { kind, roles, initial_properties }),
        generated(t, p, ids) is Some,
        ids.len() >= 1,
        !p.has(ids[0]),
    ensures
        p.with_delta(generated(t, p, ids)->0).kind_members(kind).len() == p.kind_members(kind).len() + 1,
        p.with_delta(generated(t, p, ids)->0).has(ids[0]),
{
    let d = generated(t, p, ids)->0;
    let es = d.added;
    assert(es == seq![(ids[0], spawned(ids[0], kind, roles, initial_properties))]);
    assert forall|i: int| 0 <= i < es.len() implies !p.has(#[trigger] es[i].1.id) by {}
    assert forall|i: int| 0 <= i < es.len() implies #[trigger] es[i].1.id == es[i].0 by {}
    assert forall|i: int, j: int| #![trigger es[i], es[j]] 0 <= i < j < es.len() implies es[i].1.id != es[j].1.id by {}
    lemma_adds_appended(p, es);
    let q = p.with_entities_added(es);
    assert(d.modified.len() == 0 && d.removed.len() == 0);
    assert(p.with_delta(d) == q);
    let f = |x: (EntityId, EntityView)| x.1.kind == kind && x.1.alive;
    Seq::filter_distributes_over_add(p.entries, es, f);
    lemma_filter_all(es, f);
    crate::index::lemma_adds_has(p, es, ids[0]);
    assert(es[0].1.id == ids[0]);
}


/// The diff that trimming writes for each entity it trims.
pub open spec fn trim_diff(role: Seq<char>) -> DiffView {
    DiffView { roles_removed: seq![role], ..DiffView::empty() }
}

/// The pair that trimming writes for the entity under `x`.
pub open spec fn trim_entry(role: Seq<char>) -> spec_fn(EntityId) -> (EntityId, DiffView) {
    |x: EntityId| (x, trim_diff(role))
}

/// With pairwise different IDs, trimming writes one diff per ID, in order, and nothing else.
pub proof fn lemma_trims_list(ids: Seq<EntityId>, role: Seq<char>)
    requires
        forall|i: int, j: int| #![trigger ids[i], ids[j]] 0 <= i < j < ids.len() ==> ids[i] != ids[j],
    ensures
        trims_applied(DeltaView::empty(), ids, role) == (DeltaView {
            modified: ids.map_values(trim_entry(role)),
            ..DeltaView::empty()
        }),
    decreases ids.len(),
{
    if ids.len() > 0 {
        let r = ids.drop_last();
        assert forall|i: int, j: int| #![trigger r[i], r[j]] 0 <= i < j < r.len() implies r[i] != r[j] by {
            assert(r[i] == ids[i] && r[j] == ids[j]);
        }
        lemma_trims_list(r, role);
        let e = trims_applied(DeltaView::empty(), r, role);
        let x = ids.last();
        let g = trim_entry(role);
        assert(!crate::assoc::has_key(e.modified, x)) by {
            if crate::assoc::has_key(e.modified, x) {
                let i = choose|i: int| 0 <= i < e.modified.len() && e.modified[i].0 == x;
                assert(e.modified[i] == g(r[i]));
                assert(ids[i] == r[i]);
                assert(ids[ids.len() - 1] == x);
            }
        }
        crate::assoc::lemma_first_index(e.modified, x);
        assert(e.diff(x) == DiffView::empty());
        assert(Seq::<Seq<char>>::empty().push(role) =~= seq![role]);
        assert(ids =~= r.push(x));
        lemma_map_push(r, x, g);
        let dr = DiffView { roles_removed: e.diff(x).roles_removed.push(role), ..e.diff(x) };
        assert(dr == trim_diff(role));
        assert(e.modified == r.map_values(g));
        assert(crate::assoc::assoc_put(e.modified, x, dr) == e.modified.push((x, dr)));
        assert(ids.map_values(g) == r.map_values(g).push(g(x)));
    } else {
        assert(ids.map_values(trim_entry(role)) =~= Seq::<(EntityId, DiffView)>::empty());
    }
}

/// The rewrite of a pool's pairs that takes `role` from the entities under the IDs of `ts`.
pub open spec fn role_taken(ts: Seq<EntityId>, role: Seq<char>) -> spec_fn((EntityId, EntityView)) -> (EntityId, EntityView) {
    |x: (EntityId, EntityView)|
        if ts.contains(x.0) {
            (x.0, EntityView { roles: x.1.roles.remove(role), ..x.1 })
        } else {
            x
        }
}

/// A rewrite that keeps keys keeps which keys are stored, where, and keeps them distinct.
pub proof fn lemma_rewrite_keys(
    s: Seq<(EntityId, EntityView)>,
    h: spec_fn((EntityId, EntityView)) -> (EntityId, EntityView),
    k: EntityId,
)
    requires
        forall|x: (EntityId, EntityView)| #[trigger] h(x).0 == x.0,
        crate::delta::keys_distinct(s),
    ensures
        crate::assoc::has_key(s.map_values(h), k) == crate::assoc::has_key(s, k),
        crate::delta::keys_distinct(s.map_values(h)),
        crate::assoc::has_key(s, k) ==> crate::assoc::as_map(s.map_values(h))[k] == h(
            (k, crate::assoc::as_map(s)[k]),
        ).1,
{
    let t = s.map_values(h);
    assert forall|i: int| 0 <= i < t.len() implies #[trigger] t[i].0 == s[i].0 by {
        assert(t[i] == h(s[i]));
    }
    assert forall|i: int, j: int| #![trigger t[i], t[j]] 0 <= i < j < t.len() implies t[i].0 != t[j].0 by {
        assert(t[i].0 == s[i].0 && t[j].0 == s[j].0);
    }
    if crate::assoc::has_key(s, k) {
        let i = choose|i: int| 0 <= i < s.len() && s[i].0 == k;
        assert(t[i].0 == k);
        crate::entity::lemma_distinct_lookup(s, i);
        crate::entity::lemma_distinct_lookup(t, i);
        assert(t[i] == h(s[i]));
    }
    if crate::assoc::has_key(t, k) {
        let i = choose|i: int| 0 <= i < t.len() && t[i].0 == k;
        assert(s[i].0 == k);
    }
}

/// Trimming the entities of `ts`, stored under pairwise different IDs, takes
/// the role from each of them and unlists them from the role.
pub proof fn lemma_trims_apply(p: PoolView, ts: Seq<EntityId>, role: Seq<char>)
    requires
        p.well_keyed(),
        forall|i: int, j: int| #![trigger ts[i], ts[j]] 0 <= i < j < ts.len() ==> ts[i] != ts[j],
        forall|i: int| 0 <= i < ts.len() ==> p.has(#[trigger] ts[i]),
    ensures
        p.with_diffs_applied(ts.map_values(trim_entry(role))).entries == p.entries.map_values(role_taken(ts, role)),
        ts.len() > 0 ==> p.with_diffs_applied(ts.map_values(trim_entry(role))).index[role] == p.index[role].difference(
            ts.to_set(),
        ),
    decreases ts.len(),
{
    let g = trim_entry(role);
    if ts.len() == 0 {
        assert(p.entries.map_values(role_taken(ts, role)) =~= p.entries);
        assert(ts.map_values(g) =~= Seq::<(EntityId, DiffView)>::empty());
    } else {
        let r = ts.drop_last();
        let t = ts.last();
        assert(ts =~= r.push(t));
        assert forall|i: int, j: int| #![trigger r[i], r[j]] 0 <= i < j < r.len() implies r[i] != r[j] by {
            assert(r[i] == ts[i] && r[j] == ts[j]);
        }
        assert forall|i: int| 0 <= i < r.len() implies p.has(#[trigger] r[i]) by {
            assert(r[i] == ts[i]);
        }
        lemma_trims_apply(p, r, role);
        lemma_map_push(r, t, g);
        assert(ts.map_values(g).drop_last() =~= r.map_values(g));
        let hr = role_taken(r, role);
        let q = p.with_diffs_applied(r.map_values(g));
        assert(q.entries == p.entries.map_values(hr));
        assert(ts[ts.len() - 1] == t);
        assert(!r.contains(t)) by {
            if r.contains(t) {
                let j = choose|j: int| 0 <= j < r.len() && r[j] == t;
                assert(ts[j] == t);
            }
        }
        lemma_rewrite_keys(p.entries, hr, t);
        assert(p.has(t));
        let e = p.entity(t);
        assert(q.has(t));
        assert(q.entity(t) == e);
        // the diff patches nothing, then takes the role
        let dr = trim_diff(role);
        let pe = patched(e, dr);
        assert(pe == e);
        crate::entity::lemma_stored_member(q.entries, t);
        let fi = crate::assoc::first_index(q.entries, t);
        crate::assoc::lemma_first_index(q.entries, t);
        assert(crate::assoc::assoc_put(q.entries, t, e) =~= q.entries);
        let q1 = crate::compose::patched_at(q, t, dr);
        assert(q1 == q);
        assert(seq![role].drop_last() =~= Seq::<Seq<char>>::empty());
        let q2 = q.with_role(t, role, false);
        assert(seq![role].last() == role);
        assert(q.with_roles(t, Seq::<Seq<char>>::empty(), false) == q);
        assert(q.with_roles(t, Seq::<Seq<char>>::empty(), true) == q);
        assert(q.with_roles(t, seq![role], false) == q.with_roles(t, seq![role].drop_last(), false).with_role(
            t,
            seq![role].last(),
            false,
        ));
        assert(dr.roles_added == Seq::<Seq<char>>::empty());
        assert(q.with_diff_applied(t, dr) == q2);
        assert(p.with_diffs_applied(ts.map_values(g)) == q.with_diff_applied(t, dr));
        // the rewrite of the pairs
        let ht = role_taken(ts, role);
        let rc = EntityView { roles: e.roles.remove(role), ..e };
        crate::merge::lemma_put_rewrites(q.entries, t, rc);
        assert forall|i: int| 0 <= i < p.entries.len() implies #[trigger] q2.entries[i] == p.entries.map_values(ht)[i] by {
            let x = p.entries[i];
            assert(q.entries[i] == hr(x));
            if x.0 == t {
                crate::entity::lemma_distinct_lookup(p.entries, i);
            }
        }
        assert(q2.entries =~= p.entries.map_values(ht));
        crate::assoc::lemma_push_to_set(r, t);
        if r.len() > 0 {
            assert(q2.index[role] =~= p.index[role].difference(ts.to_set()));
        } else {
            assert(r.map_values(g) =~= Seq::<(EntityId, DiffView)>::empty());
            assert(q == p);
            assert(q2.index[role] =~= p.index[role].difference(ts.to_set()));
        }
    }
}

/// Filtering after a rewrite is rewriting after the filter whose verdict the rewrite keeps.
pub proof fn lemma_filter_after_rewrite<A>(s: Seq<A>, f1: spec_fn(A) -> bool, f2: spec_fn(A) -> bool, g: spec_fn(A) -> A)
    requires
        forall|i: int| 0 <= i < s.len() ==> f2(g(#[trigger] s[i])) == f1(s[i]),
    ensures
        s.map_values(g).filter(f2) == s.filter(f1).map_values(g),
    decreases s.len(),
{
    reveal_with_fuel(Seq::filter, 1);
    if s.len() > 0 {
        let r = s.drop_last();
        assert forall|i: int| 0 <= i < r.len() implies f2(g(#[trigger] r[i])) == f1(r[i]) by {
            assert(r[i] == s[i]);
        }
        lemma_filter_after_rewrite(r, f1, f2, g);
        assert(s.map_values(g).drop_last() =~= r.map_values(g));
        assert(f2(g(s[s.len() - 1])) == f1(s[s.len() - 1]));
        if f1(s.last()) {
            assert(r.filter(f1).push(s.last()).map_values(g) =~= r.filter(f1).map_values(g).push(g(s.last())));
        }
    }
}

/// Filtering twice is filtering by both tests.
pub proof fn lemma_filter_filter<A>(s: Seq<A>, f: spec_fn(A) -> bool, g: spec_fn(A) -> bool, fg: spec_fn(A) -> bool)
    requires
        forall|x: A| #[trigger] fg(x) == (f(x) && g(x)),
    ensures
        s.filter(f).filter(g) == s.filter(fg),
    decreases s.len(),
{
    reveal_with_fuel(Seq::filter, 1);
    if s.len() > 0 {
        lemma_filter_filter(s.drop_last(), f, g, fg);
        let r = s.drop_last();
        if f(s.last()) {
            r.filter(f).lemma_filter_push(s.last(), g);
        }
        assert(fg(s.last()) == (f(s.last()) && g(s.last())));
    }
}

/// A trimming correction leaves at most `keep_count` living occupants of the
/// role, on a pool that stores each entity once under its own ID.
pub proof fn law_trim_role_trims(
    t: TendencyView,
    p: PoolView,
    ids: Seq<EntityId>,
    role: Seq<char>,
    keep_count: usize,
)
    requires
        p.well_keyed(),
        t.effect == (EffectPlanView::TrimRole { role, keep_count }),
        generated(t, p, ids) is Some,
    ensures
        p.with_delta(generated(t, p, ids)->0).role_members(role).len() <= keep_count,
{
    let f = |x: (EntityId, EntityView)| p.index[role].contains(x.0) && x.1.alive;
    let mf = p.entries.filter(f);
    let ms = p.role_members(role);
    assert(ms == mf.map_values(|x: (EntityId, EntityView)| x.1));
    let targets = trim_targets(p, role, keep_count);
    let d = generated(t, p, ids)->0;
    assert(d == trims_applied(DeltaView::empty(), targets, role));
    if keep_count >= ms.len() {
        assert(targets =~= Seq::<EntityId>::empty());
        assert(d == DeltaView::empty());
        assert(false);
    }
    // the members are stored pairs, under their own IDs, with distinct keys
    crate::index::lemma_filter_distinct(p.entries, f);
    assert forall|i: int| 0 <= i < mf.len() implies p.entries.contains(#[trigger] mf[i]) by {
        crate::index::lemma_filter_keyed(p.entries, f, i);
    }
    assert forall|i: int| 0 <= i < mf.len() implies (#[trigger] mf[i]).1.id == mf[i].0 && p.has(mf[i].0) by {
        let j = choose|j: int| 0 <= j < p.entries.len() && p.entries[j] == mf[i];
        assert(p.entries[j].1.id == p.entries[j].0);
    }
    let k = keep_count as int;
    assert forall|i: int| 0 <= i < targets.len() implies #[trigger] targets[i] == mf[k + i].0 by {}
    assert forall|i: int, j: int| #![trigger targets[i], targets[j]] 0 <= i < j < targets.len() implies targets[i]
        != targets[j] by {
        assert(targets[i] == mf[k + i].0 && targets[j] == mf[k + j].0);
    }
    assert forall|i: int| 0 <= i < targets.len() implies p.has(#[trigger] targets[i]) by {
        assert(targets[i] == mf[k + i].0);
    }
    lemma_trims_list(targets, role);
    lemma_trims_apply(p, targets, role);
    assert(d.added.len() == 0 && d.removed.len() == 0);
    let q = p.with_delta(d);
    assert(q == p.with_diffs_applied(d.modified));
    // the members afterwards are the earlier members that were not trimmed
    let h = role_taken(targets, role);
    let nt = |x: (EntityId, EntityView)| !targets.contains(x.0);
    let f1 = |x: (EntityId, EntityView)| f(x) && nt(x);
    let f2 = |x: (EntityId, EntityView)| q.index[role].contains(x.0) && x.1.alive;
    assert forall|i: int| 0 <= i < p.entries.len() implies f2(h(#[trigger] p.entries[i])) == f1(p.entries[i]) by {
        let x = p.entries[i];
        assert(h(x).0 == x.0);
        assert(h(x).1.alive == x.1.alive);
    }
    lemma_filter_after_rewrite(p.entries, f1, f2, h);
    lemma_filter_filter(p.entries, f, nt, f1);
    // the trimmed members are filtered out, the first `keep_count` at most remain
    assert(mf =~= mf.take(k) + mf.skip(k));
    Seq::filter_distributes_over_add(mf.take(k), mf.skip(k), nt);
    assert forall|j: int| 0 <= j < mf.skip(k).len() implies !nt(#[trigger] mf.skip(k)[j]) by {
        assert(mf.skip(k)[j] == mf[k + j]);
        assert(targets[j] == mf[k + j].0);
    }
    crate::assoc::lemma_filter_none(mf.skip(k), nt);
    mf.take(k).lemma_filter_len(nt);
    assert(q.role_members(role) == q.entries.filter(f2).map_values(|x: (EntityId, EntityView)| x.1));
}

/// Trimming roles changes no alive flag and keeps the diffs one per entity.
pub proof fn lemma_trims_keep_alive(d: DeltaView, ids: Seq<EntityId>, role: Seq<char>, y: EntityId)
    requires
        forall|z: EntityId| #[trigger] d.diff(z).alive_change is None,
        crate::delta::keys_distinct(d.modified),
    ensures
        trims_applied(d, ids, role).diff(y).alive_change is None,
        forall|z: EntityId| #[trigger] trims_applied(d, ids, role).diff(z).alive_change is None,
        crate::delta::keys_distinct(trims_applied(d, ids, role).modified),
    decreases ids.len(),
{
    if ids.len() > 0 {
        lemma_trims_keep_alive(d, ids.drop_last(), role, y);
        let e = trims_applied(d, ids.drop_last(), role);
        let k = ids.last();
        let nd = DiffView { roles_removed: e.diff(k).roles_removed.push(role), ..e.diff(k) };
        crate::index::lemma_put_distinct(e.modified, k, nd);
        assert forall|z: EntityId| #[trigger] trims_applied(d, ids, role).diff(z).alive_change is None by {
            assert(e.diff(k).alive_change is None);
            crate::assoc::lemma_put_same(e.modified, k, nd);
            if z != k {
                crate::assoc::lemma_put_other(e.modified, k, nd, z);
                assert(e.diff(z).alive_change is None);
            }
        }
    }
}

/// A tendency never kills or revives: the diffs of its corrective delta change
/// no alive flag, and there is one per entity.
pub proof fn law_corrections_keep_alive(t: TendencyView, p: PoolView, ids: Seq<EntityId>)
    requires
        generated(t, p, ids) is Some,
    ensures
        forall|y: EntityId| #[trigger] (generated(t, p, ids)->0).diff(y).alive_change is None,
        crate::delta::keys_distinct((generated(t, p, ids)->0).modified),
{
    let d = generated(t, p, ids)->0;
    match t.effect {
        EffectPlanView::FillRole { role, source_kind, promoted_property } => {
            let cs = p.all().filter(fill_eligible(role, source_kind));
            let dv = DiffView {
                roles_added: seq![role],
                upserted: match promoted_property {
                    Some(kv) => seq![kv],
                    None => Seq::empty(),
                },
                ..DiffView::empty()
            };
            assert(d.modified == seq![(cs[0].id, dv)]);
            assert forall|y: EntityId| #[trigger] d.diff(y).alive_change is None by {
                if y != cs[0].id {
                    crate::assoc::lemma_put_other(Seq::<(EntityId, DiffView)>::empty(), cs[0].id, dv, y);
                } else {
                    crate::assoc::lemma_put_same(Seq::<(EntityId, DiffView)>::empty(), cs[0].id, dv);
                }
            }
        },
        EffectPlanView::TrimRole { role, keep_count } => {
            lemma_trims_keep_alive(DeltaView::empty(), trim_targets(p, role, keep_count), role, 0);
        },
        _ => {},
    }
}

/// A property condition holds exactly when some stored entity that is alive and
/// of the condition's kind has the property with a value equal to the
/// condition's; entities of other kinds and dead ones never count, so a pool
/// with no living entity of that kind never meets it.
pub proof fn law_property_condition(p: PoolView, kind: Seq<char>, property: Seq<char>, value: ValueModel)
    ensures
        condition_holds(ConditionView::PropertyEquals { kind, property, value }, p) <==> exists|i: int|
            0 <= i < p.entries.len() && (#[trigger] p.entries[i]).1.alive && p.entries[i].1.kind == kind
                && p.entries[i].1.properties.contains_key(property) && value_eq(
                p.entries[i].1.properties[property],
                value,
            ),
{
    let f = |q: (EntityId, EntityView)| q.1.kind == kind && q.1.alive;
    let fl = p.entries.filter(f);
    let es = p.kind_members(kind);
    assert(es == fl.map_values(|q: (EntityId, EntityView)| q.1));
    if condition_holds(ConditionView::PropertyEquals { kind, property, value }, p) {
        let k = choose|k: int|
            0 <= k < es.len() && #[trigger] es[k].properties.contains_key(property) && value_eq(
                es[k].properties[property],
                value,
            );
        assert(fl.contains(fl[k]));
        crate::assoc::lemma_filter_member(p.entries, f, fl[k]);
        let i = choose|i: int| 0 <= i < p.entries.len() && p.entries[i] == fl[k];
        assert(p.entries[i].1 == es[k]);
    }
    if exists|i: int|
        0 <= i < p.entries.len() && (#[trigger] p.entries[i]).1.alive && p.entries[i].1.kind == kind
            && p.entries[i].1.properties.contains_key(property) && value_eq(p.entries[i].1.properties[property], value) {
        let i = choose|i: int|
            0 <= i < p.entries.len() && (#[trigger] p.entries[i]).1.alive && p.entries[i].1.kind == kind
                && p.entries[i].1.properties.contains_key(property) && value_eq(
                p.entries[i].1.properties[property],
                value,
            );
        assert(p.entries.contains(p.entries[i]));
        crate::assoc::lemma_filter_member(p.entries, f, p.entries[i]);
        let k = choose|k: int| 0 <= k < fl.len() && fl[k] == p.entries[i];
        assert(es[k] == p.entries[i].1);
        assert(es[k].properties.contains_key(property));
    }
}

} // verus!
