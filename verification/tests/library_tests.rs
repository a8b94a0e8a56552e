//! Further tests of the library: error texts, value equality, strength
//! clamping, tendency conditions and effects, merging, and the laws of the
//! recorded history on concrete values.

use timeline_system::causal::{apply_effect_into_delta, apply_effect_with_id};
use timeline_system::delta::EntityDiff;
use timeline_system::keyed::TextMap;
use timeline_system::node::TimelineNode;
use timeline_system::prelude::{
    CausalEvent, Delta, Entity, EntityPool, EventEffect, EventSource, Tendency, TendencyCondition,
    TendencyEffect, Timeline, TimelineManager, Value, DUNBAR_NUMBER,
};
use timeline_system::tendency::{fire_chance_of, DRAW_SCALE, UNIT_STRENGTH};

fn uuid_text(id: u128) -> String {
    uuid::Uuid::from_u128(id).to_string()
}

#[test]
fn dunbar_error_names_the_entity() {
    let mut entity = Entity::with_id(7, "human");
    for i in 0..DUNBAR_NUMBER {
        entity.add_relationship(1000 + i as u128).unwrap();
    }
    let err = entity.add_relationship(5).unwrap_err();
    assert_eq!(
        err,
        format!(
            "Entity {} has reached the Dunbar number limit ({}) for relationships",
            uuid_text(7),
            DUNBAR_NUMBER
        )
    );
    // A duplicate is still accepted when the list is full.
    assert!(entity.add_relationship(1000).is_ok());
    assert_eq!(entity.relationships.len(), DUNBAR_NUMBER);
}

#[test]
fn remove_relationship_drops_every_entry() {
    let mut entity = Entity::with_id(1, "human");
    entity.add_relationship(2).unwrap();
    entity.add_relationship(3).unwrap();
    entity.relationships.push(2);
    entity.remove_relationship(2);
    assert_eq!(entity.relationships, vec![3u128]);
    entity.remove_relationship(9);
    assert_eq!(entity.relationships, vec![3u128]);
}

#[test]
fn ids_are_written_as_hyphenated_lower_hex() {
    let id: u128 = 0x0123_4567_89ab_cdef_0011_2233_4455_6677;
    let mut entity = Entity::with_id(id, "human");
    for i in 0..DUNBAR_NUMBER {
        entity.add_relationship(i as u128).unwrap();
    }
    let err = entity.add_relationship(9999).unwrap_err();
    assert_eq!(
        err,
        "Entity 01234567-89ab-cdef-0011-223344556677 has reached the Dunbar number limit (150) for relationships"
    );
    let mut mgr = TimelineManager::new();
    assert_eq!(mgr.branch_at(id, "b").unwrap_err(), "Node 01234567-89ab-cdef-0011-223344556677 not found");
}

#[test]
fn fresh_ids_are_version_four() {
    let ids = [
        Entity::new("x").id,
        Tendency::new("t", "", TendencyCondition::Always, TendencyEffect::TrimRole { role: "r".into(), keep_count: 0 })
            .id,
        CausalEvent::immediate("e", "", EventSource::System { description: "".into() }, vec![]).id,
        TimelineNode::root(1).id,
        Timeline::new_root().id,
    ];
    for id in ids {
        assert_eq!((id >> 76) & 0xF, 4);
        assert_eq!((id >> 62) & 0x3, 2);
        assert_eq!(uuid::Uuid::from_u128(id).get_version_num(), 4);
    }
    assert_ne!(Entity::new("x").id, Entity::new("x").id);
}

#[test]
fn value_equality_follows_binary64() {
    let nan = Value::Float(f64::NAN.to_bits());
    assert!(!nan.equals(&Value::Float(f64::NAN.to_bits())));
    let zero = Value::Float(0.0f64.to_bits());
    let neg_zero = Value::Float((-0.0f64).to_bits());
    assert!(zero.equals(&neg_zero));
    assert!(Value::Float(1.5f64.to_bits()).equals(&Value::Float(1.5f64.to_bits())));
    assert!(!Value::Int(1).equals(&Value::Bool(true)));
    let list = Value::List(vec![Value::Int(1), Value::Text("a".into())]);
    assert!(list.equals(&list.clone()));
    assert!(!list.equals(&Value::List(vec![Value::Int(1)])));
    let dict = Value::Dict(vec![("k".into(), Value::Null)]);
    assert!(dict.equals(&dict.copy_value()));
    assert!(!dict.equals(&Value::Dict(vec![("j".into(), Value::Null)])));
    let ab = Value::Dict(vec![("a".into(), Value::Int(1)), ("b".into(), Value::Int(2))]);
    let ba = Value::Dict(vec![("b".into(), Value::Int(2)), ("a".into(), Value::Int(1))]);
    assert!(ab.equals(&ba));
    assert!(!ab.equals(&Value::Dict(vec![("a".into(), Value::Int(1))])));
    assert!(!ab.equals(&Value::Dict(vec![("a".into(), Value::Int(1)), ("b".into(), Value::Int(3))])));
}

#[test]
fn strength_is_clamped_to_unit_interval() {
    let t = Tendency::new("t", "", TendencyCondition::Always, TendencyEffect::TrimRole {
        role: "r".into(),
        keep_count: 0,
    });
    assert_eq!(t.strength, 1.0f64.to_bits());
    assert_eq!(t.strength, UNIT_STRENGTH);
    assert_eq!(t.priority, 0);
    let t = t.with_strength(2.5f64.to_bits());
    assert_eq!(f64::from_bits(t.strength), 1.0);
    let t = t.with_strength((-3.0f64).to_bits());
    assert_eq!(f64::from_bits(t.strength), 0.0);
    let t = t.with_strength(0.25f64.to_bits());
    assert_eq!(f64::from_bits(t.strength), 0.25);
    let t = t.with_strength(f64::NAN.to_bits());
    assert_eq!(t.strength, 0.0f64.to_bits());
    assert_eq!(f64::from_bits(t.with_strength((-0.0f64).to_bits()).strength), 0.0);
}

#[test]
fn tendency_conditions_on_a_pool() {
    let mut pool = EntityPool::new();
    let mut a = Entity::with_id(1, "guard");
    a.roles.insert("watch".into());
    a.properties.insert("rank".into(), Value::Int(3));
    let b = Entity::with_id(2, "guard");
    pool.add_entity(a);
    pool.add_entity(b);

    assert!(!TendencyCondition::RoleVacant { role: "watch".into() }.is_met(&pool));
    assert!(TendencyCondition::RoleVacant { role: "king".into() }.is_met(&pool));
    assert!(TendencyCondition::EntityCountBelow { kind: "guard".into(), threshold: 3 }.is_met(&pool));
    assert!(!TendencyCondition::EntityCountBelow { kind: "guard".into(), threshold: 2 }.is_met(&pool));
    assert!(TendencyCondition::EntityCountAbove { kind: "guard".into(), threshold: 1 }.is_met(&pool));
    assert!(!TendencyCondition::EntityCountAbove { kind: "guard".into(), threshold: 2 }.is_met(&pool));
    assert!(TendencyCondition::RoleCountBelow { role: "watch".into(), threshold: 2 }.is_met(&pool));
    assert!(!TendencyCondition::RoleCountBelow { role: "watch".into(), threshold: 1 }.is_met(&pool));
    assert!(TendencyCondition::PropertyEquals {
        kind: "guard".into(),
        property: "rank".into(),
        value: Value::Int(3),
    }
    .is_met(&pool));
    assert!(!TendencyCondition::PropertyEquals {
        kind: "guard".into(),
        property: "rank".into(),
        value: Value::Int(4),
    }
    .is_met(&pool));
    assert!(TendencyCondition::Always.is_met(&pool));
}

#[test]
fn trim_role_keeps_the_first_occupants() {
    let mut pool = EntityPool::new();
    for id in 1..=3u128 {
        let mut e = Entity::with_id(id, "noble");
        e.roles.insert("heir".into());
        pool.add_entity(e);
    }
    let t = Tendency::new(
        "OneHeir",
        "",
        TendencyCondition::RoleCountBelow { role: "heir".into(), threshold: 10 },
        TendencyEffect::TrimRole { role: "heir".into(), keep_count: 1 },
    );
    let d = t.generate_delta(&pool).unwrap();
    assert!(d.modified_entities.get(1).is_none());
    assert_eq!(d.modified_entities.get(2).unwrap().role_diff.removed, vec!["heir".to_string()]);
    assert_eq!(d.modified_entities.get(3).unwrap().role_diff.removed, vec!["heir".to_string()]);
    pool.apply_delta(&d);
    let heirs = pool.get_by_role("heir");
    assert_eq!(heirs.len(), 1);
    assert_eq!(heirs[0].id, 1);

    // Nothing to trim: no delta.
    assert!(t.generate_delta(&pool).is_none());
}

#[test]
fn fill_role_promotes_first_eligible_entity() {
    let mut pool = EntityPool::new();
    let mut dead = Entity::with_id(1, "hero");
    dead.alive = false;
    pool.add_entity(dead);
    pool.add_entity(Entity::with_id(2, "peasant"));
    pool.add_entity(Entity::with_id(3, "hero"));
    let t = Tendency::new(
        "Fill",
        "",
        TendencyCondition::RoleVacant { role: "king".into() },
        TendencyEffect::FillRole {
            role: "king".into(),
            source_kind: Some("hero".into()),
            promoted_property: Some(("crowned".into(), Value::Bool(true))),
        },
    );
    let d = t.generate_delta(&pool).unwrap();
    let diff = d.modified_entities.get(3).unwrap();
    assert_eq!(diff.role_diff.added, vec!["king".to_string()]);
    assert_eq!(*diff.property_diff.upserted.get("crowned").unwrap(), Value::Bool(true));

    let any = Tendency::new(
        "FillAny",
        "",
        TendencyCondition::Always,
        TendencyEffect::FillRole { role: "king".into(), source_kind: None, promoted_property: None },
    );
    let d = any.generate_delta(&pool).unwrap();
    assert!(d.modified_entities.get(2).is_some());

    let none = Tendency::new(
        "FillNone",
        "",
        TendencyCondition::Always,
        TendencyEffect::FillRole {
            role: "king".into(),
            source_kind: Some("dragon".into()),
            promoted_property: None,
        },
    );
    assert!(none.generate_delta(&pool).is_none());
}

#[test]
fn ensure_entity_count_spawns_the_shortfall() {
    let mut pool = EntityPool::new();
    pool.add_entity(Entity::with_id(1, "guard"));
    let t = Tendency::new(
        "Guards",
        "",
        TendencyCondition::Always,
        TendencyEffect::EnsureEntityCount { kind: "guard".into(), min_count: 4, roles: vec!["watch".into()] },
    );
    let d = t.generate_delta(&pool).unwrap();
    assert_eq!(d.added_entities.len(), 3);
    pool.apply_delta(&d);
    assert_eq!(pool.get_by_kind("guard").len(), 4);
    assert_eq!(pool.get_by_role("watch").len(), 3);
    // Enough guards: nothing to add, so no delta.
    assert!(t.generate_delta(&pool).is_none());
}

#[test]
fn unmet_condition_generates_nothing() {
    let pool = EntityPool::new();
    let t = Tendency::new(
        "Never",
        "",
        TendencyCondition::EntityCountAbove { kind: "x".into(), threshold: 0 },
        TendencyEffect::SpawnEntity { kind: "x".into(), roles: vec![], initial_properties: TextMap::new() },
    );
    assert!(!t.condition_met(&pool));
    assert!(t.generate_delta(&pool).is_none());
}

#[test]
fn remove_tendency_by_name() {
    let mut mgr = TimelineManager::new();
    let spawn = |name: &str| {
        Tendency::new(name, "", TendencyCondition::Always, TendencyEffect::SpawnEntity {
            kind: "imp".into(),
            roles: vec![],
            initial_properties: TextMap::new(),
        })
    };
    mgr.add_tendency(spawn("a"));
    mgr.add_tendency(spawn("b"));
    mgr.add_tendency(spawn("a"));
    mgr.remove_tendency("a");
    assert_eq!(mgr.tendencies().len(), 1);
    assert_eq!(mgr.tendencies()[0].name, "b");
    mgr.advance(Delta::new(), "tick");
    assert_eq!(mgr.entity_pool().get_by_kind("imp").len(), 1);
}

#[test]
fn higher_priority_tendency_sees_a_pool_without_the_lower_ones() {
    let mut mgr = TimelineManager::new();
    // Registered first, lower priority: only fires when the throne is vacant.
    mgr.add_tendency(
        Tendency::new(
            "Usurper",
            "",
            TendencyCondition::RoleVacant { role: "ruler".into() },
            TendencyEffect::SpawnEntity { kind: "usurper".into(), roles: vec![], initial_properties: TextMap::new() },
        )
        .with_priority(-1),
    );
    // Higher priority: a king with the ruler role appears first.
    mgr.add_tendency(
        Tendency::new(
            "King",
            "",
            TendencyCondition::RoleVacant { role: "ruler".into() },
            TendencyEffect::SpawnEntity {
                kind: "king".into(),
                roles: vec!["ruler".into()],
                initial_properties: TextMap::new(),
            },
        )
        .with_priority(5),
    );
    mgr.advance(Delta::new(), "tick");
    assert_eq!(mgr.entity_pool().get_by_kind("king").len(), 1);
    assert!(mgr.entity_pool().get_by_kind("usurper").is_empty());
}

#[test]
fn equal_priorities_run_in_registration_order() {
    let mut mgr = TimelineManager::new();
    mgr.add_tendency(Tendency::new(
        "First",
        "",
        TendencyCondition::RoleVacant { role: "seat".into() },
        TendencyEffect::SpawnEntity { kind: "first".into(), roles: vec!["seat".into()], initial_properties: TextMap::new() },
    ));
    mgr.add_tendency(Tendency::new(
        "Second",
        "",
        TendencyCondition::RoleVacant { role: "seat".into() },
        TendencyEffect::SpawnEntity { kind: "second".into(), roles: vec!["seat".into()], initial_properties: TextMap::new() },
    ));
    mgr.advance(Delta::new(), "tick");
    assert_eq!(mgr.entity_pool().get_by_kind("first").len(), 1);
    assert!(mgr.entity_pool().get_by_kind("second").is_empty());
}

#[test]
fn delay_of_one_lands_in_the_next_step() {
    let mut mgr = TimelineManager::new();
    let e = Entity::new("town");
    let id = e.id;
    mgr.advance(Delta::new().add_entity(e), "found");
    let ev = CausalEvent::delayed(
        "fire",
        "",
        EventSource::Entity { id, action: "arson".into() },
        vec![EventEffect::KillEntity { id }],
        1,
    );
    assert_eq!(ev.propagation_delay, 1);
    mgr.advance(Delta::new().with_event(ev), "spark");
    assert_eq!(mgr.pending_event_count(), 1);
    assert!(mgr.entity_pool().get(id).unwrap().alive);
    mgr.advance(Delta::new(), "burn");
    assert_eq!(mgr.pending_event_count(), 0);
    assert!(!mgr.entity_pool().get(id).unwrap().alive);
}

#[test]
fn every_effect_kind_writes_its_diff() {
    let mut d = Delta::new();
    let mut props = TextMap::new();
    props.insert("hp".to_string(), Value::Int(5));
    apply_effect_with_id(
        &mut d,
        &EventEffect::SpawnEntity { kind: "orc".into(), roles: vec!["raider".into()], properties: props },
        42,
    );
    let orc = d.added_entities.get(42).unwrap();
    assert_eq!(orc.id, 42);
    assert_eq!(orc.kind, "orc");
    assert!(orc.roles.contains("raider"));
    assert_eq!(*orc.properties.get("hp").unwrap(), Value::Int(5));

    apply_effect_into_delta(&mut d, &EventEffect::KillEntity { id: 1 });
    apply_effect_into_delta(&mut d, &EventEffect::ModifyProperty {
        entity_id: 1,
        property: "gold".into(),
        value: Value::Int(0),
    });
    apply_effect_into_delta(&mut d, &EventEffect::AddRelationship { from: 1, to: 2 });
    apply_effect_into_delta(&mut d, &EventEffect::RemoveRelationship { from: 1, to: 3 });
    apply_effect_into_delta(&mut d, &EventEffect::AssignRole { entity_id: 1, role: "ghost".into() });
    apply_effect_into_delta(&mut d, &EventEffect::RemoveRole { entity_id: 1, role: "king".into() });
    let diff = d.modified_entities.get(1).unwrap();
    assert_eq!(diff.alive_change, Some(false));
    assert_eq!(*diff.property_diff.upserted.get("gold").unwrap(), Value::Int(0));
    assert_eq!(diff.relationship_diff.added, vec![2u128]);
    assert_eq!(diff.relationship_diff.removed, vec![3u128]);
    assert_eq!(diff.role_diff.added, vec!["ghost".to_string()]);
    assert_eq!(diff.role_diff.removed, vec!["king".to_string()]);

    // A spawn with a random ID adds one entity.
    apply_effect_into_delta(&mut d, &EventEffect::SpawnEntity {
        kind: "elf".into(),
        roles: vec![],
        properties: TextMap::new(),
    });
    assert_eq!(d.added_entities.len(), 2);
}

#[test]
fn merging_deltas_lets_the_later_change_win() {
    let a = Delta::new()
        .set_property(1, "k", Value::Int(1))
        .set_property(1, "j", Value::Int(7))
        .kill_entity(1);
    let mut later = Delta::new().set_property(1, "k", Value::Int(2));
    later.entity_diff_mut(1).alive_change = Some(true);
    later.removed_entities.insert(9);
    let mut merged = a;
    merged.merge_from(&later);
    let diff = merged.modified_entities.get(1).unwrap();
    assert_eq!(*diff.property_diff.upserted.get("k").unwrap(), Value::Int(2));
    assert_eq!(*diff.property_diff.upserted.get("j").unwrap(), Value::Int(7));
    assert_eq!(diff.alive_change, Some(true));
    assert!(merged.removed_entities.contains(9));

    let mut x = EntityDiff::empty();
    let mut y = EntityDiff::empty();
    y.role_diff.added.push("r".into());
    x.merge_from(&y);
    assert_eq!(x.role_diff.added, vec!["r".to_string()]);
    assert_eq!(x.alive_change, None);
}

#[test]
fn new_delta_is_empty() {
    assert!(Delta::new().is_empty());
    assert!(!Delta::new().kill_entity(3).is_empty());
    assert!(!Delta::new()
        .with_event(CausalEvent::immediate("e", "", EventSource::TimeTravel { from_node: 1 }, vec![]))
        .is_empty());
}

#[test]
fn unknown_ids_are_reported() {
    let mut mgr = TimelineManager::new();
    assert_eq!(mgr.branch_at(5, "b").unwrap_err(), format!("Node {} not found", uuid_text(5)));
    assert_eq!(mgr.time_travel_to(6).unwrap_err(), format!("Node {} not found", uuid_text(6)));
    assert_eq!(mgr.switch_timeline(8).unwrap_err(), format!("Timeline {} not found", uuid_text(8)));
    assert_eq!(mgr.timelines().len(), 1);
}

#[test]
fn branches_record_their_origin() {
    let mut mgr = TimelineManager::new();
    let main_id = mgr.active_timeline_id();
    let root = mgr.current_node().unwrap().id;
    let n1 = mgr.advance(Delta::new(), "one");
    let b = mgr.branch_at(root, "side").unwrap();
    let t = mgr.get_timeline(b).unwrap();
    assert_eq!(t.parent_id, Some(main_id));
    assert_eq!(t.branch_point, Some(root));
    assert_eq!(t.nodes, vec![root]);
    assert_eq!(t.name, "side");
    assert!(!t.is_time_travel_branch);
    assert_eq!(mgr.active_timeline_id(), b);
    // Stepping on the branch leaves the main timeline's nodes as they were.
    let n2 = mgr.advance(Delta::new(), "two");
    assert_eq!(mgr.get_timeline(main_id).unwrap().nodes, vec![root, n1]);
    assert_eq!(mgr.get_node(n2).unwrap().parent_id, Some(root));
    assert_eq!(mgr.get_node(n2).unwrap().timestamp, 1);
    assert_eq!(mgr.active_timeline_nodes().len(), 2);
    assert_eq!(mgr.full_history().len(), 2);
    assert_eq!(mgr.timelines().len(), 2);
}

#[test]
fn reconstruction_matches_the_live_pool() {
    let mut mgr = TimelineManager::new();
    mgr.set_cache_interval(2);
    let mut nodes = Vec::new();
    let mut ids = Vec::new();
    for i in 0..5i64 {
        let e = Entity::new("citizen");
        ids.push(e.id);
        let mut d = Delta::new().add_entity(e);
        if i > 0 {
            d = d.set_property(ids[0], "age", Value::Int(i)).add_relationship(ids[0], ids[i as usize]);
        }
        nodes.push(mgr.advance(d, "year"));
        let rebuilt = mgr.reconstruct_state_at(*nodes.last().unwrap());
        assert_eq!(rebuilt.len(), mgr.entity_pool().len());
        let a = rebuilt.get(ids[0]).unwrap();
        let b = mgr.entity_pool().get(ids[0]).unwrap();
        assert_eq!(a.properties.get("age"), b.properties.get("age"));
        assert_eq!(a.relationships, b.relationships);
    }
    // Earlier states are unchanged by later steps.
    let at2 = mgr.reconstruct_state_at(nodes[2]);
    assert_eq!(at2.len(), 3);
    assert_eq!(*at2.get(ids[0]).unwrap().properties.get("age").unwrap(), Value::Int(2));
}

#[test]
fn pool_role_updates_keep_the_index() {
    let mut pool = EntityPool::default();
    assert!(pool.is_empty());
    pool.add_entity(Entity::with_id(1, "knight"));
    pool.update_entity_role(1, "guard".into(), true);
    assert_eq!(pool.get_by_role("guard").len(), 1);
    assert!(pool.get(1).unwrap().roles.contains("guard"));
    pool.update_entity_role(1, "guard".into(), false);
    assert!(pool.is_role_vacant("guard"));
    pool.update_entity_role(2, "guard".into(), true);
    assert!(pool.is_role_vacant("guard"));
    assert_eq!(pool.all_entities().len(), 1);
    assert_eq!(pool.remove_entity(1).unwrap().kind, "knight");
    assert!(pool.remove_entity(1).is_none());
}

#[test]
fn get_mut_changes_the_stored_entity() {
    let mut pool = EntityPool::new();
    pool.add_entity(Entity::with_id(4, "mage"));
    pool.get_mut(4).unwrap().alive = false;
    assert!(!pool.get(4).unwrap().alive);
    assert!(pool.get_mut(5).is_none());
}

#[test]
fn nodes_and_timelines_build_as_described() {
    let root = TimelineNode::root(3);
    assert_eq!(root.timeline_id, 3);
    assert_eq!(root.parent_id, None);
    assert_eq!(root.timestamp, 0);
    assert_eq!(root.description, "Root");
    assert!(root.delta.is_empty());
    let n = TimelineNode::new(3, root.id, 1, Delta::new(), "step").with_metadata("author", "me");
    assert_eq!(n.parent_id, Some(root.id));
    assert_eq!(n.metadata.get("author").unwrap(), "me");

    let mut t = Timeline::new_root();
    assert_eq!(t.name, "Main Timeline");
    assert!(t.is_empty());
    assert_eq!(t.current_node(), None);
    t.nodes.push(root.id);
    t.nodes.push(n.id);
    assert_eq!(t.len(), 2);
    assert_eq!(t.current_node(), Some(n.id));
    let b = Timeline::branch_from(t.id, root.id, "fork", true);
    assert_eq!(b.parent_id, Some(t.id));
    assert!(b.is_time_travel_branch);
    assert!(b.nodes.is_empty());
}

#[test]
fn default_manager_starts_at_a_cached_root() {
    let mgr = TimelineManager::default();
    assert_eq!(mgr.timelines().len(), 1);
    let root = mgr.current_node().unwrap();
    assert_eq!(root.parent_id, None);
    assert_eq!(root.timestamp, 0);
    assert!(mgr.entity_pool().is_empty());
    assert_eq!(mgr.active_timeline().nodes, vec![root.id]);
    assert_eq!(mgr.pending_event_count(), 0);
    assert!(mgr.tendencies().is_empty());
}

#[test]
fn replay_after_corrections_matches_the_live_pool() {
    let mut mgr = TimelineManager::new();
    mgr.add_tendency(Tendency::new(
        "Unifier",
        "",
        TendencyCondition::RoleVacant { role: "unifier".into() },
        TendencyEffect::FillRole {
            role: "unifier".into(),
            source_kind: Some("hero".into()),
            promoted_property: Some(("title".into(), Value::Text("Grand Unifier".into()))),
        },
    ));
    mgr.add_tendency(Tendency::new(
        "Guards",
        "",
        TendencyCondition::EntityCountBelow { kind: "guard".into(), threshold: 2 },
        TendencyEffect::EnsureEntityCount { kind: "guard".into(), min_count: 2, roles: vec![] },
    ));
    let zs = Entity::new("hero");
    let zs_id = zs.id;
    let li = Entity::new("hero");
    let li_id = li.id;
    mgr.advance(Delta::new().add_entity(zs).assign_role(zs_id, "unifier"), "rise");
    mgr.advance(Delta::new().add_entity(li), "appear");
    let tip = mgr.advance(Delta::new().kill_entity(zs_id), "fall");
    let live = mgr.entity_pool();
    let rebuilt = mgr.reconstruct_state_at(tip);
    assert_eq!(rebuilt.len(), live.len());
    assert_eq!(rebuilt.get_by_kind("guard").len(), 2);
    assert_eq!(live.get_by_kind("guard").len(), 2);
    let heirs: Vec<u128> = rebuilt.get_by_role("unifier").iter().map(|e| e.id).collect();
    assert_eq!(heirs, vec![li_id]);
    let live_heirs: Vec<u128> = live.get_by_role("unifier").iter().map(|e| e.id).collect();
    assert_eq!(live_heirs, heirs);
    assert_eq!(
        rebuilt.get(li_id).unwrap().properties.get("title"),
        Some(&Value::Text("Grand Unifier".into()))
    );
}

#[test]
fn applying_two_deltas_is_applying_their_merge() {
    let mut base = EntityPool::new();
    base.add_entity(Entity::with_id(1, "hero"));
    base.add_entity(Entity::with_id(2, "hero"));
    let a = Delta::new().kill_entity(1).set_property(2, "hp", Value::Int(3));
    let b = Delta::new().add_entity(Entity::with_id(3, "imp")).assign_role(2, "king");

    let mut in_turn = EntityPool::new();
    in_turn.apply_delta(&Delta::new().add_entity(Entity::with_id(1, "hero")).add_entity(Entity::with_id(2, "hero")));
    in_turn.apply_delta(&a);
    in_turn.apply_delta(&b);

    let mut merged = Delta::new();
    merged.merge_from(&a);
    merged.merge_from(&b);
    base.apply_delta(&merged);

    assert_eq!(base.len(), in_turn.len());
    assert_eq!(base.get(1).unwrap().alive, in_turn.get(1).unwrap().alive);
    assert_eq!(base.get_by_role("king").len(), in_turn.get_by_role("king").len());
    assert_eq!(base.get_by_kind("imp").len(), 1);
    assert_eq!(*base.get(2).unwrap().properties.get("hp").unwrap(), Value::Int(3));
}

#[test]
fn relationships_added_by_deltas_stay_within_dunbar() {
    let mut pool = EntityPool::new();
    pool.add_entity(Entity::with_id(1, "socialite"));
    let mut d = Delta::new();
    for i in 0..(DUNBAR_NUMBER as u128 + 50) {
        d = d.add_relationship(1, 100 + i);
    }
    d = d.add_relationship(1, 100);
    pool.apply_delta(&d);
    let rels = &pool.get(1).unwrap().relationships;
    assert_eq!(rels.len(), DUNBAR_NUMBER);
    assert_eq!(rels[0], 100);
}

#[test]
fn empty_delta_changes_nothing() {
    let mut pool = EntityPool::new();
    let mut e = Entity::with_id(1, "tree");
    e.roles.insert("shade".into());
    pool.add_entity(e);
    pool.apply_delta(&Delta::new());
    assert_eq!(pool.len(), 1);
    assert_eq!(pool.get_by_role("shade").len(), 1);
    assert!(pool.get(1).unwrap().alive);
}

#[test]
fn role_changes_by_delta_keep_role_queries_exact() {
    let mut pool = EntityPool::new();
    pool.apply_delta(&Delta::new().add_entity(Entity::with_id(1, "a")).add_entity(Entity::with_id(2, "b")));
    pool.apply_delta(&Delta::new().assign_role(1, "x").assign_role(2, "x"));
    assert_eq!(pool.get_by_role("x").len(), 2);
    let mut d = Delta::new();
    d.entity_diff_mut(1).role_diff.removed.push("x".into());
    pool.apply_delta(&d);
    let holders: Vec<u128> = pool.get_by_role("x").iter().map(|e| e.id).collect();
    assert_eq!(holders, vec![2u128]);
    assert!(!pool.get(1).unwrap().roles.contains("x"));
    pool.apply_delta(&Delta::new().kill_entity(2));
    assert!(pool.is_role_vacant("x"));
}

#[test]
fn a_filled_role_is_no_longer_vacant() {
    let mut pool = EntityPool::new();
    pool.add_entity(Entity::with_id(5, "hero"));
    let t = Tendency::new(
        "Fill",
        "",
        TendencyCondition::RoleVacant { role: "champion".into() },
        TendencyEffect::FillRole { role: "champion".into(), source_kind: None, promoted_property: None },
    );
    assert!(pool.is_role_vacant("champion"));
    let d = t.generate_delta(&pool).unwrap();
    pool.apply_delta(&d);
    assert!(!pool.is_role_vacant("champion"));
    assert!(t.generate_delta(&pool).is_none());
}

#[test]
fn correction_on_an_entity_the_step_patched_replays() {
    let mut mgr = TimelineManager::new();
    mgr.add_tendency(Tendency::new(
        "Unifier",
        "",
        TendencyCondition::RoleVacant { role: "unifier".into() },
        TendencyEffect::FillRole {
            role: "unifier".into(),
            source_kind: Some("hero".into()),
            promoted_property: Some(("title".into(), Value::Text("Grand Unifier".into()))),
        },
    ));
    let hero = Entity::new("hero");
    let id = hero.id;
    let tip = mgr.advance(Delta::new().add_entity(hero).set_property(id, "age", Value::Int(30)), "arrive");
    let rebuilt = mgr.reconstruct_state_at(tip);
    let live = mgr.entity_pool();
    assert_eq!(live.get_by_role("unifier").len(), 1);
    assert_eq!(rebuilt.get_by_role("unifier").len(), 1);
    let e = rebuilt.get(id).unwrap();
    assert_eq!(*e.properties.get("age").unwrap(), Value::Int(30));
    assert_eq!(*e.properties.get("title").unwrap(), Value::Text("Grand Unifier".into()));
}

#[test]
fn correction_overriding_the_step_is_replayed() {
    // The step takes the role from the only hero and the tendency gives it back
    // in the same step; the later change wins in the stored delta, so the live
    // pool and the replay both have the role filled.
    let mut mgr = TimelineManager::new();
    let hero = Entity::new("hero");
    let id = hero.id;
    mgr.advance(Delta::new().add_entity(hero).assign_role(id, "unifier"), "crowned");
    mgr.add_tendency(Tendency::new(
        "Unifier",
        "",
        TendencyCondition::RoleVacant { role: "unifier".into() },
        TendencyEffect::FillRole { role: "unifier".into(), source_kind: None, promoted_property: None },
    ));
    let mut abdicate = Delta::new();
    abdicate.entity_diff_mut(id).role_diff.removed.push("unifier".into());
    let tip = mgr.advance(abdicate, "abdicates");
    assert_eq!(mgr.entity_pool().get_by_role("unifier").len(), 1);
    let replay = mgr.reconstruct_state_at(tip);
    assert_eq!(replay.get_by_role("unifier").len(), 1);
    assert!(!replay.is_role_vacant("unifier"));
}

#[test]
fn property_removed_then_set_by_correction_is_replayed() {
    // The step removes a property that a promoting correction sets again; the
    // live pool and the replay (cached every step) both keep the new value.
    let mut mgr = TimelineManager::new();
    mgr.set_cache_interval(1);
    let hero = Entity::new("hero");
    let id = hero.id;
    mgr.advance(Delta::new().add_entity(hero).set_property(id, "title", Value::Int(1)), "named");
    mgr.add_tendency(Tendency::new(
        "Crown",
        "",
        TendencyCondition::RoleVacant { role: "king".into() },
        TendencyEffect::FillRole {
            role: "king".into(),
            source_kind: None,
            promoted_property: Some(("title".into(), Value::Int(7))),
        },
    ));
    let mut strip = Delta::new();
    strip.entity_diff_mut(id).property_diff.removed.push("title".into());
    let tip = mgr.advance(strip, "stripped");
    let live = mgr.entity_pool().get(id).unwrap().properties.get("title").unwrap().equals(&Value::Int(7));
    assert!(live);
    let mut replay = EntityPool::new();
    for n in mgr.full_history() {
        replay.apply_delta(&n.delta);
    }
    let replayed = replay.get(id).unwrap().properties.get("title").unwrap().equals(&Value::Int(7));
    assert!(replayed);
    let rebuilt = mgr.reconstruct_state_at(tip).get(id).unwrap().properties.get("title").unwrap().equals(&Value::Int(7));
    assert!(rebuilt);
}

#[test]
fn diff_merge_later_change_overrides_earlier_removal() {
    let mut a = EntityDiff::empty();
    a.property_diff.removed.push("k".into());
    a.property_diff.removed.push("kept".into());
    a.role_diff.removed.push("r".into());
    a.relationship_diff.removed.push(5);
    let mut b = EntityDiff::empty();
    b.property_diff.upserted.insert("k".into(), Value::Int(3));
    b.role_diff.added.push("r".into());
    b.relationship_diff.added.push(5);
    a.merge_from(&b);
    assert_eq!(a.property_diff.removed, vec!["kept".to_string()]);
    assert!(a.role_diff.removed.is_empty());
    assert!(a.relationship_diff.removed.is_empty());
    assert!(a.property_diff.upserted.get("k").unwrap().equals(&Value::Int(3)));
    assert_eq!(a.role_diff.added, vec!["r".to_string()]);
    assert_eq!(a.relationship_diff.added, vec![5]);
}

#[test]
fn delta_merge_readded_entity_is_not_removed() {
    let mut a = Delta::new();
    a.removed_entities.insert(9);
    a.removed_entities.insert(10);
    let b = Delta::new().add_entity(Entity::with_id(9, "x"));
    a.merge_from(&b);
    assert!(!a.removed_entities.contains(9));
    assert!(a.removed_entities.contains(10));
    let mut pool = EntityPool::new();
    pool.add_entity(Entity::with_id(9, "old"));
    pool.add_entity(Entity::with_id(10, "gone"));
    pool.apply_delta(&a);
    assert_eq!(pool.get(9).unwrap().kind, "x");
    assert!(pool.get(10).is_none());
}

#[test]
fn fire_chance_is_strength_scaled() {
    assert_eq!(DRAW_SCALE, 1u64 << 62);
    assert_eq!(fire_chance_of(1.0f64.to_bits()), 1u64 << 62);
    assert_eq!(fire_chance_of(2.0f64.to_bits()), 1u64 << 62);
    assert_eq!(fire_chance_of(f64::INFINITY.to_bits()), 1u64 << 62);
    assert_eq!(fire_chance_of(0.5f64.to_bits()), 1u64 << 61);
    assert_eq!(fire_chance_of(0.25f64.to_bits()), 1u64 << 60);
    assert_eq!(fire_chance_of(0.75f64.to_bits()), 3u64 << 60);
    assert_eq!(fire_chance_of((2.0f64).powi(-62).to_bits()), 1);
    assert_eq!(fire_chance_of((2.0f64).powi(-63).to_bits()), 0);
    assert_eq!(fire_chance_of(0.0f64.to_bits()), 0);
    assert_eq!(fire_chance_of((-0.0f64).to_bits()), 0);
    assert_eq!(fire_chance_of((-0.5f64).to_bits()), 0);
    assert_eq!(fire_chance_of(f64::NAN.to_bits()), 0);
    assert_eq!(fire_chance_of(f64::MIN_POSITIVE.to_bits()), 0);
}

fn spawner(strength: f64) -> Tendency {
    Tendency::new(
        "Spawner",
        "",
        TendencyCondition::EntityCountBelow { kind: "peasant".into(), threshold: 1 },
        TendencyEffect::SpawnEntity { kind: "peasant".into(), roles: vec![], initial_properties: TextMap::new() },
    )
    .with_strength(strength.to_bits())
}

#[test]
fn zero_strength_never_fires() {
    let pool = EntityPool::new();
    let t = spawner(0.0);
    assert!(t.condition_met(&pool));
    for _ in 0..20 {
        assert!(t.generate_delta(&pool).is_none());
    }
    assert!(t.generate_delta_with_ids(&pool, &vec![]).is_none());
}

#[test]
fn full_strength_always_fires() {
    let pool = EntityPool::new();
    let t = spawner(1.0);
    for _ in 0..20 {
        assert_eq!(t.generate_delta(&pool).unwrap().added_entities.len(), 1);
    }
}

#[test]
fn partial_strength_is_decided_by_the_draw() {
    let pool = EntityPool::new();
    let t = spawner(0.5);
    // spawn ID first, then the draw: below half of 2^62 fires, above does not
    let low_draw: u128 = 5;
    let high_draw: u128 = (3u128 << 60) | (1u128 << 127);
    let fired = t.generate_delta_with_ids(&pool, &vec![77, low_draw]).unwrap();
    assert!(fired.added_entities.contains_key(77));
    assert!(t.generate_delta_with_ids(&pool, &vec![77, high_draw]).is_none());
    let mut seen_fire = false;
    let mut seen_skip = false;
    for _ in 0..200 {
        match t.generate_delta(&pool) {
            Some(_) => seen_fire = true,
            None => seen_skip = true,
        }
    }
    assert!(seen_fire && seen_skip);
}

#[test]
fn delay_of_three_lands_in_exactly_the_third_step() {
    let mut mgr = TimelineManager::new();
    let e = Entity::new("town");
    let id = e.id;
    mgr.advance(Delta::new().add_entity(e), "found");
    let ev = CausalEvent::delayed(
        "plague",
        "",
        EventSource::Entity { id, action: "trade".into() },
        vec![EventEffect::KillEntity { id }],
        3,
    );
    mgr.advance(Delta::new().with_event(ev), "ship arrives");
    for step in 1..3 {
        assert_eq!(mgr.pending_event_count(), 1);
        let n = mgr.advance(Delta::new(), "waiting");
        assert!(mgr.entity_pool().get(id).unwrap().alive, "step {step}");
        assert!(mgr.get_node(n).unwrap().delta.modified_entities.is_empty());
    }
    assert_eq!(mgr.pending_event_count(), 1);
    let n = mgr.advance(Delta::new(), "outbreak");
    assert_eq!(mgr.pending_event_count(), 0);
    assert!(!mgr.entity_pool().get(id).unwrap().alive);
    assert!(mgr.get_node(n).unwrap().delta.modified_entities.contains_key(id));
    let n = mgr.advance(Delta::new(), "after");
    assert!(mgr.get_node(n).unwrap().delta.modified_entities.is_empty());
}

#[test]
fn quiet_step_stores_the_input_delta() {
    let mut mgr = TimelineManager::new();
    let e = Entity::with_id(3, "hero");
    let input = Delta::new().add_entity(e).set_property(3, "hp", Value::Int(9));
    let n = mgr.advance(input, "quiet");
    let stored = &mgr.get_node(n).unwrap().delta;
    assert_eq!(stored.added_entities.len(), 1);
    assert_eq!(stored.added_entities.key_at(0), 3);
    assert_eq!(stored.modified_entities.len(), 1);
    assert!(stored.removed_entities.is_empty());
    assert!(stored.events.is_empty());
    let hp = mgr.entity_pool().get(3).unwrap().properties.get("hp").unwrap().equals(&Value::Int(9));
    assert!(hp);
}

#[test]
fn readding_an_entity_unindexes_roles_it_lost() {
    let mut pool = EntityPool::new();
    let mut e = Entity::with_id(1, "noble");
    e.roles.insert("a".to_string());
    e.roles.insert("b".to_string());
    pool.add_entity(e);
    assert_eq!(pool.get_by_role("a").len(), 1);
    let mut again = Entity::with_id(1, "noble");
    again.roles.insert("b".to_string());
    pool.add_entity(again);
    assert!(pool.get_by_role("a").is_empty());
    assert!(pool.is_role_vacant("a"));
    assert_eq!(pool.get_by_role("b").len(), 1);
    assert_eq!(pool.len(), 1);
    let index = pool.role_index();
    let a = index.get("a").map(|l| l.len()).unwrap_or(0);
    assert_eq!(a, 0);
}

#[test]
fn nan_strength_never_fires() {
    let pool = EntityPool::new();
    let t = spawner(f64::NAN);
    assert_eq!(t.strength, 0.0f64.to_bits());
    assert!(t.generate_delta(&pool).is_none());
}
