//! [`TimelineManager`]: the central coordinator of the timeline system.
//!
//! It advances time (maturing causal events, applying the caller's delta,
//! running world tendencies) and records each step as an immutable
//! [`TimelineNode`]; it branches and time-travels by creating child timelines;
//! and it rebuilds the state at any node by replaying deltas from the nearest
//! cached snapshot.

use vstd::prelude::*;

use crate::assoc::{as_map, assoc_put, has_key, lemma_filter_take_step, lemma_first_index, lemma_map_push};
use crate::causal::{
    effects_of, effects_written, events_view, fresh_ids_ok, lemma_effects_written_concat,
    write_event_effects, CausalEvent, EventView,
};
use crate::delta::{Delta, DeltaView};
use crate::entity::{EntityPool, PoolView};
use crate::keyed::IdMap;
use crate::node::{NodeView, TimelineNode};
use crate::tendency::{delta_option_view, draws, generated, Tendency, TendencyView};
use crate::types::EntityId;
use crate::text::{str_eq, DeepCopy};
use crate::timeline::{Timeline, TimelineView};
use crate::types::{is_random_uuid, uuid_text, uuid_to_string, NodeId, TimelineId};

verus! {

/// The timeline system's top-level coordinator.
pub struct TimelineManager {
    entity_pool: EntityPool,
    timelines: IdMap<Timeline>,
    nodes: IdMap<TimelineNode>,
    active_timeline_id: TimelineId,
    tendencies: Vec<Tendency>,
    /// Pending causal events with their remaining delay.
    pending_events: Vec<(CausalEvent, u64)>,
    /// Full-state snapshots for fast reconstruction.
    state_cache: IdMap<EntityPool>,
    /// Cache a full snapshot every `cache_interval` steps.
    cache_interval: usize,
    /// Number of `advance` calls so far.
    node_count: usize,
}

/// The content of a [`TimelineManager`].
pub struct ManagerView {
    pub pool: PoolView,
    pub timelines: Seq<(TimelineId, TimelineView)>,
    pub nodes: Seq<(NodeId, NodeView)>,
    pub active: TimelineId,
    pub tendencies: Seq<TendencyView>,
    pub pending: Seq<(EventView, u64)>,
    pub cache: Seq<(NodeId, PoolView)>,
    pub cache_interval: usize,
    pub node_count: usize,
}

pub open spec fn pending_view(v: Seq<(CausalEvent, u64)>) -> Seq<(EventView, u64)> {
    v.map_values(|p: (CausalEvent, u64)| (p.0@, p.1))
}

pub open spec fn tendencies_view(v: Seq<Tendency>) -> Seq<TendencyView> {
    v.map_values(|t: Tendency| t@)
}

impl View for TimelineManager {
    type V = ManagerView;

    closed spec fn view(&self) -> ManagerView {
        ManagerView {
            pool: self.entity_pool@,
            timelines: self.timelines@,
            nodes: self.nodes@,
            active: self.active_timeline_id,
            tendencies: tendencies_view(self.tendencies@),
            pending: pending_view(self.pending_events@),
            cache: self.state_cache@,
            cache_interval: self.cache_interval,
            node_count: self.node_count,
        }
    }
}

/// The IDs met walking up the parent links from `cur`, at most `fuel` steps:
/// `cur` first, stopping at a node without parent or at an unknown ID.
pub open spec fn walk_up(nodes: Seq<(NodeId, NodeView)>, cur: NodeId, fuel: nat) -> Seq<NodeId>
    decreases fuel,
{
    if fuel > 0 && has_key(nodes, cur) && as_map(nodes)[cur].parent_id is Some {
        seq![cur] + walk_up(nodes, as_map(nodes)[cur].parent_id->0, (fuel - 1) as nat)
    } else {
        seq![cur]
    }
}

/// Every stored node with a parent has its parent stored.
pub open spec fn parents_stored(nodes: Seq<(NodeId, NodeView)>) -> bool {
    forall|x: NodeId|
        #[trigger] has_key(nodes, x) && as_map(nodes)[x].parent_id is Some ==> has_key(
            nodes,
            as_map(nodes)[x].parent_id->0,
        )
}

/// Every stored node with a stored parent is one tick later than it.
pub open spec fn timed(nodes: Seq<(NodeId, NodeView)>) -> bool {
    forall|x: NodeId|
        #[trigger] has_key(nodes, x) && as_map(nodes)[x].parent_id is Some ==> as_map(nodes)[x].timestamp
            == as_map(nodes)[as_map(nodes)[x].parent_id->0].timestamp + 1
}

/// The nodes of `ids` that are stored, in order.
pub open spec fn stored_nodes(nodes: Seq<(NodeId, NodeView)>, ids: Seq<NodeId>) -> Seq<NodeView> {
    ids.filter(|id: NodeId| has_key(nodes, id)).map_values(|id: NodeId| as_map(nodes)[id])
}

/// `p` with the delta of each stored node of `ids` applied, in order.
pub open spec fn replayed(nodes: Seq<(NodeId, NodeView)>, p: PoolView, ids: Seq<NodeId>) -> PoolView
    decreases ids.len(),
{
    if ids.len() == 0 {
        p
    } else {
        let q = replayed(nodes, p, ids.drop_last());
        if has_key(nodes, ids.last()) {
            q.with_delta(as_map(nodes)[ids.last()].delta)
        } else {
            q
        }
    }
}

/// Index of the last ID of `ids` that has a cached snapshot, or `-1`.
pub open spec fn last_cached(cache: Seq<(NodeId, PoolView)>, ids: Seq<NodeId>) -> int
    decreases ids.len(),
{
    if ids.len() == 0 {
        -1
    } else if has_key(cache, ids.last()) {
        ids.len() - 1
    } else {
        last_cached(cache, ids.drop_last())
    }
}

pub proof fn lemma_last_cached(cache: Seq<(NodeId, PoolView)>, ids: Seq<NodeId>)
    ensures
        -1 <= last_cached(cache, ids) < ids.len(),
        last_cached(cache, ids) >= 0 ==> has_key(cache, ids[last_cached(cache, ids)]),
    decreases ids.len(),
{
    if ids.len() > 0 && !has_key(cache, ids.last()) {
        lemma_last_cached(cache, ids.drop_last());
    }
}

impl ManagerView {
    pub open spec fn timeline(self, id: TimelineId) -> TimelineView {
        as_map(self.timelines)[id]
    }

    pub open spec fn node(self, id: NodeId) -> NodeView {
        as_map(self.nodes)[id]
    }

    pub open spec fn active_timeline(self) -> TimelineView {
        self.timeline(self.active)
    }

    /// The newest node of the active timeline.
    pub open spec fn tip(self) -> NodeId {
        self.active_timeline().nodes.last()
    }

    /// What every public operation keeps: the active timeline exists, every
    /// timeline owns a node, the cache interval is positive, and no timestamp
    /// exceeds the number of steps taken.
    pub open spec fn wf(self) -> bool {
        &&& has_key(self.timelines, self.active)
        &&& forall|i: int| 0 <= i < self.timelines.len() ==> #[trigger] self.timelines[i].1.nodes.len() > 0
        &&& self.cache_interval >= 1
        &&& forall|i: int| 0 <= i < self.nodes.len() ==> #[trigger] self.nodes[i].1.timestamp <= self.node_count
    }

    /// The recorded history forms a tree: every stored node's parent is stored
    /// and one tick earlier, no timestamp reaches the number of stored nodes,
    /// and the newest node of every timeline and every cached node are stored.
    pub open spec fn linked(self) -> bool {
        &&& parents_stored(self.nodes)
        &&& timed(self.nodes)
        &&& forall|x: NodeId| #[trigger] has_key(self.nodes, x) ==> self.node(x).timestamp < self.nodes.len()
        &&& forall|i: int|
            0 <= i < self.timelines.len() ==> has_key(self.nodes, #[trigger] self.timelines[i].1.nodes.last())
        &&& forall|i: int| 0 <= i < self.cache.len() ==> has_key(self.nodes, #[trigger] self.cache[i].0)
    }

    /// The live pool and every cached snapshot store each entity once, under its own ID.
    pub open spec fn pools_keyed(self) -> bool {
        &&& self.pool.well_keyed()
        &&& forall|i: int| 0 <= i < self.cache.len() ==> (#[trigger] self.cache[i]).1.well_keyed()
    }

    /// The live pool is the state that reconstruction gives at the active timeline's newest node.
    pub open spec fn live(self) -> bool {
        self.pool == self.reconstructed(self.tip())
    }

    /// The chain of node IDs from the root down to `target` (inclusive), following
    /// parent links for at most as many steps as there are stored nodes.
    pub open spec fn ancestry(self, target: NodeId) -> Seq<NodeId> {
        walk_up(self.nodes, target, self.nodes.len()).reverse()
    }

    /// The state at `target`: its cached snapshot, or else the newest cached
    /// snapshot of its ancestry (or the empty pool) with the deltas of the later
    /// ancestry nodes replayed.
    pub open spec fn reconstructed(self, target: NodeId) -> PoolView {
        if has_key(self.cache, target) {
            as_map(self.cache)[target]
        } else {
            let ch = self.ancestry(target);
            let k = last_cached(self.cache, ch);
            let base = if k >= 0 {
                as_map(self.cache)[ch[k]]
            } else {
                PoolView::empty()
            };
            replayed(self.nodes, base, ch.skip(k + 1))
        }
    }

    /// The state at `target` by replay alone: the empty pool with the delta of
    /// each node from the root down to `target` applied in order.
    pub open spec fn replay_from_root(self, target: NodeId) -> PoolView {
        replayed(self.nodes, PoolView::empty(), self.ancestry(target))
    }

    /// Every cached snapshot is the state that replay alone gives at its node,
    /// so the cache only saves work.
    pub open spec fn faithful(self) -> bool {
        forall|i: int|
            0 <= i < self.cache.len() ==> (#[trigger] self.cache[i]).1 == self.replay_from_root(self.cache[i].0)
    }

    /// The manager after one `advance` with input `input`, random IDs `ids1`
    /// (matured events), `ids2` (immediate events) and `idss` (tendencies), new
    /// node `r` and description `description`: the step's delta is stored and
    /// applied to the live pool, the pending events wait one step more, and the
    /// input's delayed events are queued.
    pub open spec fn advance_step(
        self,
        input: DeltaView,
        ids1: Seq<EntityId>,
        ids2: Seq<EntityId>,
        idss: Seq<Seq<EntityId>>,
        r: NodeId,
        description: Seq<char>,
    ) -> ManagerView {
        let out = step_outcome(self, input, ids1, ids2, idss);
        self.stepped(
            r,
            self.pool.with_delta(out.1),
            out.1,
            still_pending(self.pending) + queued(input.events),
            description,
        )
    }

    /// What the public operations keep of a manager built by them: the history
    /// is a tree, the live pool is the state reconstructed at the newest node,
    /// every cached snapshot is the state that replay alone gives at its node,
    /// and every pool stores each entity once under its own ID.
    pub open spec fn consistent(self) -> bool {
        &&& self.linked()
        &&& self.live()
        &&& self.faithful()
        &&& self.pools_keyed()
    }

    /// The manager after forking at `node_id` into the new active timeline `id`,
    /// which owns just `node_id`, with the pool rebuilt at `node_id`.
    pub open spec fn branched(
        self,
        node_id: NodeId,
        id: TimelineId,
        name: Seq<char>,
        travel: bool,
    ) -> ManagerView {
        ManagerView {
            timelines: assoc_put(
                self.timelines,
                id,
                TimelineView {
                    id,
                    parent_id: Some(self.active),
                    branch_point: Some(node_id),
                    nodes: seq![node_id],
                    name,
                    is_time_travel_branch: travel,
                },
            ),
            active: id,
            pool: self.reconstructed(node_id),
            ..self
        }
    }

    /// The manager after time-travelling to `node_id` on the new timeline `id`:
    /// a time-travel branch, with no pending events.
    pub open spec fn travelled(self, node_id: NodeId, id: TimelineId) -> ManagerView {
        ManagerView { pending: Seq::empty(), ..self.branched(node_id, id, "Time Travel Branch"@, true) }
    }

    /// The manager after making timeline `id` active, with the pool rebuilt at its newest node.
    pub open spec fn switched(self, id: TimelineId) -> ManagerView {
        ManagerView { active: id, pool: self.reconstructed(self.timeline(id).nodes.last()), ..self }
    }

    /// The node that a step records under `r` with delta `delta`: a child of the
    /// active timeline's newest node, one tick later than it.
    pub open spec fn step_node(self, r: NodeId, delta: DeltaView, description: Seq<char>) -> NodeView {
        NodeView {
            id: r,
            timeline_id: self.active,
            parent_id: Some(self.tip()),
            timestamp: if has_key(self.nodes, self.tip()) {
                (self.node(self.tip()).timestamp + 1) as u64
            } else {
                1
            },
            delta,
            description,
            metadata: Map::empty(),
        }
    }

    /// `true` when the step numbered `node_count + 1` caches a snapshot.
    pub open spec fn caches_next(self) -> bool {
        (self.node_count + 1) % (self.cache_interval as int) == 0
    }

    /// The manager after recording a step as node `r`, leaving the pool `pool`,
    /// storing `delta`, and leaving `pending` queued: the node is stored and
    /// appended to the active timeline, and cached when the step count calls for it.
    pub open spec fn stepped(
        self,
        r: NodeId,
        pool: PoolView,
        delta: DeltaView,
        pending: Seq<(EventView, u64)>,
        description: Seq<char>,
    ) -> ManagerView {
        ManagerView {
            pool,
            nodes: assoc_put(self.nodes, r, self.step_node(r, delta, description)),
            timelines: assoc_put(
                self.timelines,
                self.active,
                TimelineView { nodes: self.active_timeline().nodes.push(r), ..self.active_timeline() },
            ),
            pending,
            cache: if self.caches_next() {
                assoc_put(self.cache, r, pool)
            } else {
                self.cache
            },
            node_count: (self.node_count + 1) as usize,
            ..self
        }
    }
}

/// Pending events after one step of waiting: every positive delay goes down by one.
pub open spec fn decremented(ps: Seq<(EventView, u64)>) -> Seq<(EventView, u64)> {
    ps.map_values(|p: (EventView, u64)| (p.0, if p.1 > 0 { (p.1 - 1) as u64 } else { 0u64 }))
}

pub open spec fn delay_is_zero() -> spec_fn((EventView, u64)) -> bool {
    |p: (EventView, u64)| p.1 == 0
}

pub open spec fn delay_is_positive() -> spec_fn((EventView, u64)) -> bool {
    |p: (EventView, u64)| p.1 > 0
}

/// The pending events whose delay reaches zero in this step, in queue order.
pub open spec fn matured(ps: Seq<(EventView, u64)>) -> Seq<EventView> {
    decremented(ps).filter(delay_is_zero()).map_values(|p: (EventView, u64)| p.0)
}

/// The pending events that still wait after this step, in queue order.
pub open spec fn still_pending(ps: Seq<(EventView, u64)>) -> Seq<(EventView, u64)> {
    decremented(ps).filter(delay_is_positive())
}

pub open spec fn event_is_immediate() -> spec_fn(EventView) -> bool {
    |e: EventView| e.propagation_delay == 0
}

pub open spec fn event_is_delayed() -> spec_fn(EventView) -> bool {
    |e: EventView| e.propagation_delay > 0
}

/// The events of a step that apply at once.
pub open spec fn immediate(evs: Seq<EventView>) -> Seq<EventView> {
    evs.filter(event_is_immediate())
}

/// The events of a step that are queued, each with its delay.
pub open spec fn queued(evs: Seq<EventView>) -> Seq<(EventView, u64)> {
    evs.filter(event_is_delayed()).map_values(|e: EventView| (e, e.propagation_delay))
}

/// The delta of a step before tendencies run: the matured events' effects, then
/// the caller's delta merged in, then the effects of its immediate events.
pub open spec fn pre_delta(
    pending: Seq<(EventView, u64)>,
    input: DeltaView,
    ids1: Seq<EntityId>,
    ids2: Seq<EntityId>,
) -> DeltaView {
    effects_written(
        effects_written(DeltaView::empty(), effects_of(matured(pending)), ids1).merged(input),
        effects_of(immediate(input.events)),
        ids2,
    )
}

/// `s` with `k` placed after every index whose priority is at least that of `k`.
pub open spec fn priority_insert(s: Seq<int>, k: int, prios: Seq<i32>) -> Seq<int>
    decreases s.len(),
{
    if s.len() == 0 || prios[s.last()] >= prios[k] {
        s.push(k)
    } else {
        priority_insert(s.drop_last(), k, prios).push(s.last())
    }
}

/// The indices `0..n` ordered by descending priority, ties in index order.
pub open spec fn priority_order(prios: Seq<i32>, n: nat) -> Seq<int>
    decreases n,
{
    if n == 0 {
        Seq::empty()
    } else {
        priority_insert(priority_order(prios, (n - 1) as nat), n - 1, prios)
    }
}

/// The tendencies in evaluation order: descending priority, ties in registration order.
pub open spec fn in_priority_order(ts: Seq<TendencyView>) -> Seq<TendencyView> {
    priority_order(ts.map_values(|t: TendencyView| t.priority), ts.len()).map_values(|i: int| ts[i])
}

/// Pool and step delta after the tendencies of `ts` run in order on pool `p`
/// and step delta `d`: each one that generates a delta (with spawn IDs from
/// `idss`) has it applied to the pool and merged into the step delta.
pub open spec fn tendencies_applied(
    p: PoolView,
    d: DeltaView,
    ts: Seq<TendencyView>,
    idss: Seq<Seq<EntityId>>,
) -> (PoolView, DeltaView)
    decreases ts.len(),
{
    if ts.len() == 0 {
        (p, d)
    } else {
        let prev = tendencies_applied(p, d, ts.drop_last(), idss.drop_last());
        match generated(ts.last(), prev.0, idss.last()) {
            Some(td) => (prev.0.with_delta(td), prev.1.merged(td)),
            None => prev,
        }
    }
}

/// `idss` gives each tendency of `ts` as many random IDs as it draws.
pub open spec fn tendency_ids_ok(
    p: PoolView,
    d: DeltaView,
    ts: Seq<TendencyView>,
    idss: Seq<Seq<EntityId>>,
) -> bool
    decreases ts.len(),
{
    &&& idss.len() == ts.len()
    &&& ts.len() > 0 ==> {
        &&& tendency_ids_ok(p, d, ts.drop_last(), idss.drop_last())
        &&& idss.last().len() == draws(
            ts.last(),
            tendencies_applied(p, d, ts.drop_last(), idss.drop_last()).0,
        )
        &&& forall|j: int| 0 <= j < idss.last().len() ==> is_random_uuid(#[trigger] idss.last()[j])
    }
}

/// The pool and the stored delta of one step.
pub open spec fn step_outcome(
    m: ManagerView,
    input: DeltaView,
    ids1: Seq<EntityId>,
    ids2: Seq<EntityId>,
    idss: Seq<Seq<EntityId>>,
) -> (PoolView, DeltaView) {
    let pre = pre_delta(m.pending, input, ids1, ids2);
    tendencies_applied(m.pool.with_delta(pre), pre, in_priority_order(m.tendencies), idss)
}

/// The random IDs of one step are well drawn.
pub open spec fn step_ids_ok(
    m: ManagerView,
    input: DeltaView,
    ids1: Seq<EntityId>,
    ids2: Seq<EntityId>,
    idss: Seq<Seq<EntityId>>,
) -> bool {
    let pre = pre_delta(m.pending, input, ids1, ids2);
    &&& fresh_ids_ok(effects_of(matured(m.pending)), ids1)
    &&& fresh_ids_ok(effects_of(immediate(input.events)), ids2)
    &&& tendency_ids_ok(m.pool.with_delta(pre), pre, in_priority_order(m.tendencies), idss)
}

/// `priority_insert` places `k` at the first position after which every
/// priority is lower than `k`'s.
pub proof fn lemma_priority_insert(s: Seq<int>, k: int, prios: Seq<i32>, j: int)
    requires
        0 <= j <= s.len(),
        j == 0 || prios[s[j - 1]] >= prios[k],
        forall|m: int| j <= m < s.len() ==> prios[#[trigger] s[m]] < prios[k],
    ensures
        priority_insert(s, k, prios) == s.insert(j, k),
    decreases s.len() - j,
{
    if j == s.len() {
        assert(s.insert(j, k) =~= s.push(k));
    } else {
        assert(prios[s.last()] < prios[k]);
        let r = s.drop_last();
        assert forall|m: int| j <= m < r.len() implies prios[#[trigger] r[m]] < prios[k] by {
            assert(r[m] == s[m]);
        }
        if j > 0 {
            assert(r[j - 1] == s[j - 1]);
        }
        lemma_priority_insert(r, k, prios, j);
        assert(r.insert(j, k).push(s.last()) =~= s.insert(j, k));
    }
}

/// The error text for an unknown node.
/// Forking at a stored node, with or without time travel, into any new
/// timeline keeps a consistent manager consistent.
pub proof fn lemma_fork_consistent(m: ManagerView, node_id: NodeId)
    ensures
        m.wf() && m.consistent() && has_key(m.nodes, node_id) ==> forall|id: TimelineId, name: Seq<char>|
            #[trigger] m.branched(node_id, id, name, false).consistent(),
        m.wf() && m.consistent() && has_key(m.nodes, node_id) ==> forall|id: TimelineId|
            #[trigger] m.travelled(node_id, id).consistent(),
{
    if m.wf() && m.consistent() && has_key(m.nodes, node_id) {
        assert forall|id: TimelineId| #[trigger] m.travelled(node_id, id).consistent() by {
            let t: TimelineId = if id == 0 {
                1
            } else {
                0
            };
            crate::history::law_branch_keeps(m, node_id, id, Seq::empty(), false, node_id, t);
            crate::history::law_pools_stay_keyed(
                m,
                DeltaView::empty(),
                Seq::empty(),
                Seq::empty(),
                Seq::empty(),
                node_id,
                Seq::empty(),
                node_id,
                id,
                Seq::empty(),
            );
        }
        assert forall|id: TimelineId, name: Seq<char>|
            #[trigger] m.branched(node_id, id, name, false).consistent() by {
            let t: TimelineId = if id == 0 {
                1
            } else {
                0
            };
            crate::history::law_branch_keeps(m, node_id, id, name, false, node_id, t);
            crate::history::law_pools_stay_keyed(
                m,
                DeltaView::empty(),
                Seq::empty(),
                Seq::empty(),
                Seq::empty(),
                node_id,
                Seq::empty(),
                node_id,
                id,
                name,
            );
        }
    }
}

pub open spec fn node_missing_message(id: NodeId) -> Seq<char> {
    "Node "@ + uuid_text(id) + " not found"@
}

/// The error text for an unknown timeline.
pub open spec fn timeline_missing_message(id: TimelineId) -> Seq<char> {
    "Timeline "@ + uuid_text(id) + " not found"@
}

fn missing_message(prefix: &str, id: u128) -> (r: String)
    ensures
        r@ == prefix@ + uuid_text(id) + " not found"@,
{
    let mut msg = prefix.to_owned();
    let t = uuid_to_string(id);
    msg.append(t.as_str());
    msg.append(" not found");
    msg
}

impl TimelineManager {
    /// Create a manager with an empty world and a single main timeline holding a root node.
    pub fn new() -> (r: TimelineManager)
        ensures
            r@.wf(),
            r@.pool == PoolView::empty(),
            r@.timelines == seq![
                (
                    r@.active,
                    TimelineView {
                        id: r@.active,
                        parent_id: None,
                        branch_point: None,
                        nodes: seq![r@.tip()],
                        name: "Main Timeline"@,
                        is_time_travel_branch: false,
                    },
                ),
            ],
            r@.nodes == seq![
                (
                    r@.tip(),
                    NodeView {
                        id: r@.tip(),
                        timeline_id: r@.active,
                        parent_id: None,
                        timestamp: 0,
                        delta: DeltaView::empty(),
                        description: "Root"@,
                        metadata: Map::empty(),
                    },
                ),
            ],
            r@.tendencies == Seq::<TendencyView>::empty(),
            r@.pending == Seq::<(EventView, u64)>::empty(),
            r@.cache == seq![(r@.tip(), PoolView::empty())],
            r@.cache_interval == 10,
            r@.node_count == 0,
            is_random_uuid(r@.active),
            is_random_uuid(r@.tip()),
            r@.linked(),
            r@.live(),
            r@.pools_keyed(),
            r@.faithful(),
            r@.consistent(),
    {
        let mut main_timeline = Timeline::new_root();
        let timeline_id = main_timeline.id;
        let root_node = TimelineNode::root(timeline_id);
        let root_node_id = root_node.id;
        main_timeline.nodes.push(root_node_id);
        let mut timelines: IdMap<Timeline> = IdMap::new();
        timelines.insert(timeline_id, main_timeline);
        let mut nodes: IdMap<TimelineNode> = IdMap::new();
        nodes.insert(root_node_id, root_node);
        let empty_pool = EntityPool::new();
        let mut state_cache: IdMap<EntityPool> = IdMap::new();
        state_cache.insert(root_node_id, empty_pool.deep_copy());
        let r = TimelineManager {
            entity_pool: empty_pool,
            timelines,
            nodes,
            active_timeline_id: timeline_id,
            tendencies: Vec::new(),
            pending_events: Vec::new(),
            state_cache,
            cache_interval: 10,
            node_count: 0,
        };
        proof {
            lemma_first_index(Seq::<(TimelineId, TimelineView)>::empty(), timeline_id);
            lemma_first_index(Seq::<(NodeId, NodeView)>::empty(), root_node_id);
            lemma_first_index(Seq::<(NodeId, PoolView)>::empty(), root_node_id);
            assert(r@.timelines[0].0 == timeline_id);
            assert(has_key(r@.timelines, timeline_id));
            lemma_first_index(r@.timelines, timeline_id);
            assert(r@.tendencies =~= Seq::<TendencyView>::empty());
            assert(r@.pending =~= Seq::<(EventView, u64)>::empty());
            assert(r@.nodes[0].0 == root_node_id);
            assert(has_key(r@.nodes, root_node_id));
            lemma_first_index(r@.nodes, root_node_id);
            assert(r@.cache[0].0 == root_node_id);
            assert(has_key(r@.cache, root_node_id));
            lemma_first_index(r@.cache, root_node_id);
            crate::index::law_empty_pool_consistent();
            assert forall|x: NodeId| #[trigger] has_key(r@.nodes, x) implies x == root_node_id by {
                let i = choose|i: int| 0 <= i < r@.nodes.len() && r@.nodes[i].0 == x;
            }
            let ch = r@.ancestry(root_node_id);
            assert(walk_up(r@.nodes, root_node_id, 1) == seq![root_node_id]);
            assert(ch =~= seq![root_node_id]);
            assert(ch.drop_last() =~= Seq::<NodeId>::empty());
            assert(replayed(r@.nodes, PoolView::empty(), ch.drop_last()) == PoolView::empty());
            assert(ch.last() == root_node_id);
            assert(r@.node(root_node_id).delta == DeltaView::empty());
            crate::entity::law_empty_delta(PoolView::empty());
            assert(r@.replay_from_root(root_node_id) == PoolView::empty());
        }
        r
    }

    /// The active timeline.
    pub fn active_timeline(&self) -> (r: &Timeline)
        requires
            self@.wf(),
        ensures
            r@ == self@.active_timeline(),
    {
        match self.timelines.get(self.active_timeline_id) {
            Some(t) => t,
            None => {
                assert(false);
                self.timelines.value_at(0)
            },
        }
    }

    pub fn active_timeline_id(&self) -> (r: TimelineId)
        ensures
            r == self@.active,
    {
        self.active_timeline_id
    }

    /// The live world state of the active timeline.
    pub fn entity_pool(&self) -> (r: &EntityPool)
        ensures
            r@ == self@.pool,
    {
        &self.entity_pool
    }

    pub fn get_timeline(&self, id: TimelineId) -> (r: Option<&Timeline>)
        ensures
            r is Some <==> has_key(self@.timelines, id),
            r matches Some(t) ==> t@ == self@.timeline(id),
    {
        self.timelines.get(id)
    }

    pub fn get_node(&self, id: NodeId) -> (r: Option<&TimelineNode>)
        ensures
            r is Some <==> has_key(self@.nodes, id),
            r matches Some(n) ==> n@ == self@.node(id),
    {
        self.nodes.get(id)
    }

    /// The newest node of the active timeline, if it is stored.
    pub fn current_node(&self) -> (r: Option<&TimelineNode>)
        requires
            self@.wf(),
        ensures
            r is Some <==> has_key(self@.nodes, self@.tip()),
            r matches Some(n) ==> n@ == self@.node(self@.tip()),
    {
        proof { self.lemma_active_nonempty(); }
        match self.active_timeline().current_node() {
            Some(id) => self.nodes.get(id),
            None => None,
        }
    }

    proof fn lemma_active_nonempty(&self)
        requires
            self@.wf(),
        ensures
            self@.active_timeline().nodes.len() > 0,
    {
        lemma_first_index(self@.timelines, self@.active);
        let i = crate::assoc::first_index(self@.timelines, self@.active);
        assert(self@.timelines[i].1.nodes.len() > 0);
    }

    /// Every timeline.
    pub fn timelines(&self) -> (r: Vec<&Timeline>)
        ensures
            r@.map_values(|t: &Timeline| t@) == self@.timelines.map_values(
                |p: (TimelineId, TimelineView)| p.1,
            ),
    {
        let ghost s = self@.timelines;
        let mut out: Vec<&Timeline> = Vec::new();
        let mut i: usize = 0;
        while i < self.timelines.len()
            invariant
                i <= s.len(),
                s == self@.timelines,
                out@.map_values(|t: &Timeline| t@) == s.take(i as int).map_values(
                    |p: (TimelineId, TimelineView)| p.1,
                ),
            decreases s.len() - i,
        {
            let t = self.timelines.value_at(i);
            let ghost prev = out@;
            out.push(t);
            proof {
                lemma_map_push(prev, t, |t: &Timeline| t@);
                assert(s.take(i + 1) =~= s.take(i as int).push(s[i as int]));
                lemma_map_push(s.take(i as int), s[i as int], |p: (TimelineId, TimelineView)| p.1);
            }
            i = i + 1;
        }
        assert(s.take(i as int) =~= s);
        out
    }

    /// Register a world tendency.
    pub fn add_tendency(&mut self, tendency: Tendency)
        ensures
            final(self)@ == (ManagerView { tendencies: old(self)@.tendencies.push(tendency@), ..old(self)@ }),
    {
        let ghost prev = self.tendencies@;
        let ghost tv = tendency@;
        self.tendencies.push(tendency);
        proof { lemma_map_push(prev, tendency, |t: Tendency| t@); }
    }

    /// Remove every tendency called `name`.
    pub fn remove_tendency(&mut self, name: &str)
        ensures
            final(self)@ == (ManagerView {
                tendencies: old(self)@.tendencies.filter(|t: TendencyView| t.name != name@),
                ..old(self)@
            }),
    {
        let ghost orig = self@.tendencies;
        let ghost f = |t: TendencyView| t.name != name@;
        let mut rest: Vec<Tendency> = Vec::new();
        std::mem::swap(&mut rest, &mut self.tendencies);
        assert(tendencies_view(self.tendencies@) =~= orig.take(0).filter(f)) by {
            reveal_with_fuel(Seq::filter, 1);
        }
        let ghost mut k: int = 0;
        while rest.len() > 0
            invariant
                0 <= k <= orig.len(),
                f == (|t: TendencyView| t.name != name@),
                tendencies_view(rest@) == orig.skip(k),
                tendencies_view(self.tendencies@) == orig.take(k).filter(f),
                self.entity_pool == old(self).entity_pool,
                self.timelines == old(self).timelines,
                self.nodes == old(self).nodes,
                self.active_timeline_id == old(self).active_timeline_id,
                self.pending_events == old(self).pending_events,
                self.state_cache == old(self).state_cache,
                self.cache_interval == old(self).cache_interval,
                self.node_count == old(self).node_count,
            decreases rest@.len(),
        {
            let ghost before = rest@;
            assert(tendencies_view(before).len() == before.len());
            assert(k < orig.len());
            let t = rest.remove(0);
            proof {
                assert(rest@ =~= before.drop_first());
                assert(orig.skip(k)[0] == t@);
                assert forall|j: int| 0 <= j < rest@.len() implies #[trigger] rest@[j]@ == orig.skip(k + 1)[j] by {
                    assert(rest@[j] == before[j + 1]);
                    assert(tendencies_view(before)[j + 1] == orig.skip(k)[j + 1]);
                }
                assert(tendencies_view(rest@) =~= orig.skip(k + 1));
                assert(orig[k] == t@);
                lemma_filter_take_step(orig, f, k);
            }
            if !str_eq(t.name.as_str(), name) {
                let ghost prev = self.tendencies@;
                self.tendencies.push(t);
                proof { lemma_map_push(prev, t, |t: Tendency| t@); }
            }
            proof { k = k + 1; }
        }
        assert(orig.take(k) =~= orig);
    }

    /// The registered tendencies.
    pub fn tendencies(&self) -> (r: &[Tendency])
        ensures
            r@.map_values(|t: Tendency| t@) == self@.tendencies,
    {
        self.tendencies.as_slice()
    }

    /// Number of pending causal events waiting to mature.
    pub fn pending_event_count(&self) -> (r: usize)
        ensures
            r == self@.pending.len(),
    {
        self.pending_events.len()
    }

    /// Set the cache interval; values below 1 count as 1.
    pub fn set_cache_interval(&mut self, interval: usize)
        ensures
            final(self)@ == (ManagerView {
                cache_interval: if interval >= 1 {
                    interval
                } else {
                    1
                },
                ..old(self)@
            }),
    {
        self.cache_interval = if interval >= 1 {
            interval
        } else {
            1
        };
    }


    /// Ordered chain of node IDs from the root to `target` (inclusive).
    fn ancestor_chain(&self, target: NodeId) -> (r: Vec<NodeId>)
        ensures
            r@ == self@.ancestry(target),
    {
        let ghost nodes = self@.nodes;
        let fuel = self.nodes.len();
        let mut up: Vec<NodeId> = Vec::new();
        up.push(target);
        let mut current = target;
        let mut steps: usize = 0;
        let mut done = false;
        while !done && steps < fuel
            invariant
                nodes == self@.nodes,
                fuel == nodes.len(),
                steps <= fuel,
                up@.len() > 0,
                up@.last() == current,
                up@ + walk_up(nodes, current, (fuel - steps) as nat).drop_first() == walk_up(
                    nodes,
                    target,
                    fuel as nat,
                ),
                done ==> walk_up(nodes, current, (fuel - steps) as nat) == seq![current],
            decreases (fuel - steps) * 2 + (if done {
                0int
            } else {
                1int
            }),
        {
            let ghost w = walk_up(nodes, current, (fuel - steps) as nat);
            match self.nodes.get(current) {
                Some(node) => match node.parent_id {
                    Some(pid) => {
                        let ghost before = up@;
                        up.push(pid);
                        proof {
                            let rest = walk_up(nodes, pid, (fuel - steps - 1) as nat);
                            assert(w == seq![current] + rest);
                            assert(rest[0] == pid);
                            assert(w.drop_first() =~= rest);
                            assert(rest =~= seq![pid] + rest.drop_first());
                            assert(up@ + rest.drop_first() =~= before + w.drop_first());
                        }
                        current = pid;
                        steps = steps + 1;
                    },
                    None => {
                        done = true;
                    },
                },
                None => {
                    done = true;
                },
            }
        }
        proof {
            let w = walk_up(nodes, current, (fuel - steps) as nat);
            assert(w == seq![current]);
            assert(w.drop_first() =~= Seq::<NodeId>::empty());
            assert(up@ =~= walk_up(nodes, target, fuel as nat));
        }
        let ghost u = up@;
        let mut out: Vec<NodeId> = Vec::new();
        let mut j: usize = up.len();
        while j > 0
            invariant
                j <= u.len(),
                u == up@,
                out@.len() == u.len() - j,
                forall|m: int| 0 <= m < out@.len() ==> #[trigger] out@[m] == u[u.len() - 1 - m],
            decreases j,
        {
            j = j - 1;
            out.push(up[j]);
        }
        assert(out@ =~= u.reverse());
        out
    }

    /// Rebuild the pool state that existed at `node_id`: its cached snapshot, or
    /// the newest cached snapshot on its ancestry with the later deltas replayed.
    /// In a manager built by the public operations the cache is a shortcut only:
    /// the answer is the empty pool with every delta from the root replayed.
    pub fn reconstruct_state_at(&self, node_id: NodeId) -> (r: EntityPool)
        ensures
            r@ == self@.reconstructed(node_id),
            self@.linked() && self@.faithful() ==> r@ == self@.replay_from_root(node_id),
    {
        proof {
            if self@.linked() && self@.faithful() {
                crate::history::law_reconstruct_is_replay(self@, node_id);
            }
        }
        match self.state_cache.get(node_id) {
            Some(cached) => {
                return cached.deep_copy();
            },
            None => {},
        }
        let chain = self.ancestor_chain(node_id);
        let ghost ch = chain@;
        let ghost cache = self@.cache;
        let mut last: Option<usize> = None;
        let mut i: usize = 0;
        while i < chain.len()
            invariant
                i <= ch.len(),
                ch == chain@,
                cache == self@.cache,
                match last {
                    Some(k) => k < i && last_cached(cache, ch.take(i as int)) == k,
                    None => last_cached(cache, ch.take(i as int)) == -1,
                },
            decreases ch.len() - i,
        {
            assert(ch.take(i + 1).drop_last() =~= ch.take(i as int));
            if self.state_cache.contains_key(chain[i]) {
                last = Some(i);
            }
            i = i + 1;
        }
        assert(ch.take(i as int) =~= ch);
        proof { lemma_last_cached(cache, ch); }
        let start: usize;
        let mut base = match last {
            Some(k) => {
                start = k + 1;
                match self.state_cache.get(chain[k]) {
                    Some(c) => c.deep_copy(),
                    None => EntityPool::new(),
                }
            },
            None => {
                start = 0;
                EntityPool::new()
            },
        };
        let ghost base0 = base@;
        let mut idx: usize = start;
        while idx < chain.len()
            invariant
                start <= idx <= ch.len(),
                ch == chain@,
                base@ == replayed(self@.nodes, base0, ch.subrange(start as int, idx as int)),
            decreases ch.len() - idx,
        {
            assert(ch.subrange(start as int, idx + 1).drop_last() =~= ch.subrange(start as int, idx as int));
            match self.nodes.get(chain[idx]) {
                Some(node) => {
                    base.apply_delta(&node.delta);
                },
                None => {},
            }
            idx = idx + 1;
        }
        assert(ch.subrange(start as int, ch.len() as int) =~= ch.skip(start as int));
        base
    }

    /// Create a branch timeline starting at `node_id` and make it active.
    pub fn branch_at(&mut self, node_id: NodeId, name: &str) -> (r: Result<TimelineId, String>)
        requires
            old(self)@.wf(),
        ensures
            final(self)@.wf(),
            match r {
                Err(m) => !has_key(old(self)@.nodes, node_id) && m@ == node_missing_message(node_id)
                    && final(self)@ == old(self)@,
                Ok(id) => has_key(old(self)@.nodes, node_id) && is_random_uuid(id) && final(self)@
                    == old(self)@.branched(node_id, id, name@, false) && final(self)@.pending == old(self)@.pending,
            },
            old(self)@.consistent() ==> final(self)@.consistent(),
    {
        proof { lemma_fork_consistent(self@, node_id); }
        if !self.nodes.contains_key(node_id) {
            return Err(missing_message("Node ", node_id));
        }
        let parent_id = self.active_timeline_id;
        let mut new_timeline = Timeline::branch_from(parent_id, node_id, name, false);
        let new_id = new_timeline.id;
        new_timeline.nodes.push(node_id);
        self.timelines.insert(new_id, new_timeline);
        self.active_timeline_id = new_id;
        self.entity_pool = self.reconstruct_state_at(node_id);
        proof { self.lemma_put_timeline_wf(old(self)@, new_id); }
        Ok(new_id)
    }

    proof fn lemma_put_timeline_wf(&self, before: ManagerView, id: TimelineId)
        requires
            before.wf(),
            self@.timelines == assoc_put(before.timelines, id, self@.timeline(id)),
            self@.timeline(id).nodes.len() > 0,
            self@.active == id,
            self@.nodes == before.nodes,
            self@.node_count == before.node_count,
            self@.cache_interval == before.cache_interval,
        ensures
            self@.wf(),
    {
        let t = self@.timelines;
        crate::assoc::lemma_as_map_put(before.timelines, id, self@.timeline(id));
        lemma_first_index(before.timelines, id);
        lemma_first_index(t, id);
        assert(has_key(t, id)) by {
            assert(as_map(t).contains_key(id));
        }
        assert forall|i: int| 0 <= i < t.len() implies #[trigger] t[i].1.nodes.len() > 0 by {
            if i < before.timelines.len() {
                if i == crate::assoc::first_index(before.timelines, id) {
                    assert(t[i].1 == self@.timeline(id)) by {
                        lemma_first_index(t, id);
                    }
                } else {
                    assert(t[i] == before.timelines[i]);
                    assert(before.timelines[i].1.nodes.len() > 0);
                }
            } else {
                assert(t[i].1 == self@.timeline(id)) by {
                    lemma_first_index(t, id);
                }
            }
        }
    }

    /// Create a time-travel branch rooted at a past node and make it active; the
    /// source timeline is left untouched and pending causal events are dropped.
    pub fn time_travel_to(&mut self, node_id: NodeId) -> (r: Result<TimelineId, String>)
        requires
            old(self)@.wf(),
        ensures
            final(self)@.wf(),
            match r {
                Err(m) => !has_key(old(self)@.nodes, node_id) && m@ == node_missing_message(node_id)
                    && final(self)@ == old(self)@,
                Ok(id) => has_key(old(self)@.nodes, node_id) && is_random_uuid(id) && final(self)@
                    == old(self)@.travelled(node_id, id),
            },
            old(self)@.consistent() ==> final(self)@.consistent(),
    {
        proof { lemma_fork_consistent(self@, node_id); }
        if !self.nodes.contains_key(node_id) {
            return Err(missing_message("Node ", node_id));
        }
        let parent_id = self.active_timeline_id;
        let mut new_timeline = Timeline::branch_from(parent_id, node_id, "Time Travel Branch", true);
        let new_id = new_timeline.id;
        new_timeline.nodes.push(node_id);
        self.timelines.insert(new_id, new_timeline);
        self.active_timeline_id = new_id;
        self.entity_pool = self.reconstruct_state_at(node_id);
        self.pending_events = Vec::new();
        proof {
            self.lemma_put_timeline_wf(old(self)@, new_id);
            assert(self@.pending =~= Seq::<(EventView, u64)>::empty());
        }
        Ok(new_id)
    }

    /// Make an existing timeline active and rebuild the pool at its newest node.
    pub fn switch_timeline(&mut self, timeline_id: TimelineId) -> (r: Result<(), String>)
        requires
            old(self)@.wf(),
        ensures
            final(self)@.wf(),
            match r {
                Err(m) => !has_key(old(self)@.timelines, timeline_id) && m@
                    == timeline_missing_message(timeline_id) && final(self)@ == old(self)@,
                Ok(()) => has_key(old(self)@.timelines, timeline_id) && final(self)@ == old(self)@.switched(
                    timeline_id,
                ),
            },
            old(self)@.consistent() ==> final(self)@.consistent(),
    {
        proof {
            if self@.consistent() {
                crate::history::law_switch_keeps(self@, timeline_id, self@.tip());
                crate::history::law_pools_stay_keyed(
                    self@,
                    DeltaView::empty(),
                    Seq::empty(),
                    Seq::empty(),
                    Seq::empty(),
                    self@.tip(),
                    Seq::empty(),
                    self@.tip(),
                    timeline_id,
                    Seq::empty(),
                );
            }
        }
        if !self.timelines.contains_key(timeline_id) {
            return Err(missing_message("Timeline ", timeline_id));
        }
        self.active_timeline_id = timeline_id;
        proof { self.lemma_active_nonempty(); }
        match self.active_timeline().current_node() {
            Some(current) => {
                self.entity_pool = self.reconstruct_state_at(current);
            },
            None => {
                self.entity_pool = EntityPool::new();
            },
        }
        Ok(())
    }

    /// The stored nodes of `ids`, in order.
    fn nodes_for(&self, ids: &Vec<NodeId>) -> (r: Vec<&TimelineNode>)
        ensures
            r@.map_values(|n: &TimelineNode| n@) == stored_nodes(self@.nodes, ids@),
    {
        let ghost s = ids@;
        let ghost f = |id: NodeId| has_key(self@.nodes, id);
        let ghost g = |id: NodeId| as_map(self@.nodes)[id];
        let mut out: Vec<&TimelineNode> = Vec::new();
        let mut i: usize = 0;
        assert(out@.map_values(|n: &TimelineNode| n@) =~= s.take(0).filter(f).map_values(g)) by {
            reveal_with_fuel(Seq::filter, 1);
        }
        while i < ids.len()
            invariant
                i <= s.len(),
                s == ids@,
                f == (|id: NodeId| has_key(self@.nodes, id)),
                g == (|id: NodeId| as_map(self@.nodes)[id]),
                out@.map_values(|n: &TimelineNode| n@) == s.take(i as int).filter(f).map_values(g),
            decreases s.len() - i,
        {
            proof { lemma_filter_take_step(s, f, i as int); }
            match self.nodes.get(ids[i]) {
                Some(n) => {
                    let ghost prev = out@;
                    out.push(n);
                    proof {
                        lemma_map_push(prev, n, |n: &TimelineNode| n@);
                        lemma_map_push(s.take(i as int).filter(f), s[i as int], g);
                    }
                },
                None => {},
            }
            i = i + 1;
        }
        assert(s.take(i as int) =~= s);
        out
    }

    /// The stored nodes of the active timeline's own node list, in order.
    pub fn active_timeline_nodes(&self) -> (r: Vec<&TimelineNode>)
        requires
            self@.wf(),
        ensures
            r@.map_values(|n: &TimelineNode| n@) == stored_nodes(self@.nodes, self@.active_timeline().nodes),
    {
        self.nodes_for(&self.active_timeline().nodes)
    }

    /// The stored nodes of the active timeline's full ancestry, from root to tip.
    pub fn full_history(&self) -> (r: Vec<&TimelineNode>)
        requires
            self@.wf(),
        ensures
            r@.map_values(|n: &TimelineNode| n@) == stored_nodes(self@.nodes, self@.ancestry(self@.tip())),
    {
        proof { self.lemma_active_nonempty(); }
        match self.active_timeline().current_node() {
            Some(tip) => {
                let chain = self.ancestor_chain(tip);
                self.nodes_for(&chain)
            },
            None => Vec::new(),
        }
    }


    /// Count one step of waiting for every pending event; the events whose delay
    /// reaches zero leave the queue and are returned, in queue order.
    fn mature_pending(&mut self) -> (r: Vec<CausalEvent>)
        ensures
            events_view(r@) == matured(old(self)@.pending),
            final(self)@ == (ManagerView { pending: still_pending(old(self)@.pending), ..old(self)@ }),
    {
        let ghost orig = self@.pending;
        let ghost dec = decremented(orig);
        let mut rest: Vec<(CausalEvent, u64)> = Vec::new();
        std::mem::swap(&mut rest, &mut self.pending_events);
        let mut ready: Vec<CausalEvent> = Vec::new();
        assert(events_view(ready@) =~= dec.take(0).filter(delay_is_zero()).map_values(
            |p: (EventView, u64)| p.0,
        )) by {
            reveal_with_fuel(Seq::filter, 1);
        }
        assert(pending_view(self.pending_events@) =~= dec.take(0).filter(delay_is_positive())) by {
            reveal_with_fuel(Seq::filter, 1);
        }
        let ghost mut k: int = 0;
        while rest.len() > 0
            invariant
                0 <= k <= orig.len(),
                dec == decremented(orig),
                pending_view(rest@) == orig.skip(k),
                events_view(ready@) == dec.take(k).filter(delay_is_zero()).map_values(
                    |p: (EventView, u64)| p.0,
                ),
                pending_view(self.pending_events@) == dec.take(k).filter(delay_is_positive()),
                self.entity_pool == old(self).entity_pool,
                self.timelines == old(self).timelines,
                self.nodes == old(self).nodes,
                self.active_timeline_id == old(self).active_timeline_id,
                self.tendencies == old(self).tendencies,
                self.state_cache == old(self).state_cache,
                self.cache_interval == old(self).cache_interval,
                self.node_count == old(self).node_count,
            decreases rest@.len(),
        {
            let ghost before = rest@;
            assert(pending_view(before).len() == before.len());
            assert(k < orig.len());
            let (e, d) = rest.remove(0);
            let nd: u64 = if d > 0 {
                d - 1
            } else {
                0
            };
            proof {
                assert(rest@ =~= before.drop_first());
                assert(orig.skip(k)[0] == (e@, d));
                assert forall|j: int| 0 <= j < rest@.len() implies (rest@[j].0@, rest@[j].1)
                    == #[trigger] orig.skip(k + 1)[j] by {
                    assert(rest@[j] == before[j + 1]);
                    assert(pending_view(before)[j + 1] == orig.skip(k)[j + 1]);
                }
                assert(pending_view(rest@) =~= orig.skip(k + 1));
                assert(orig[k] == (e@, d));
                assert(dec[k] == (e@, nd));
                lemma_filter_take_step(dec, delay_is_zero(), k);
                lemma_filter_take_step(dec, delay_is_positive(), k);
            }
            if nd == 0 {
                let ghost prev = ready@;
                ready.push(e);
                proof {
                    lemma_map_push(prev, e, |e: CausalEvent| e@);
                    lemma_map_push(dec.take(k).filter(delay_is_zero()), dec[k], |p: (EventView, u64)| p.0);
                }
            } else {
                let ghost prev = self.pending_events@;
                self.pending_events.push((e, nd));
                proof { lemma_map_push(prev, (e, nd), |p: (CausalEvent, u64)| (p.0@, p.1)); }
            }
            proof { k = k + 1; }
        }
        assert(dec.len() == orig.len());
        assert(dec.take(k) =~= dec);
        ready
    }

    /// Indices of the tendencies in evaluation order: descending priority, ties
    /// in registration order (a stable sort).
    fn priority_indices(&self) -> (r: Vec<usize>)
        ensures
            r@.map_values(|x: usize| x as int) == priority_order(
                self@.tendencies.map_values(|t: TendencyView| t.priority),
                self@.tendencies.len(),
            ),
            forall|m: int| 0 <= m < r@.len() ==> #[trigger] r@[m] < self@.tendencies.len(),
    {
        let ghost prios = self@.tendencies.map_values(|t: TendencyView| t.priority);
        let n = self.tendencies.len();
        let mut order: Vec<usize> = Vec::new();
        let mut k: usize = 0;
        assert(order@.map_values(|x: usize| x as int) =~= priority_order(prios, 0));
        while k < n
            invariant
                k <= n,
                n == self.tendencies@.len(),
                prios == self@.tendencies.map_values(|t: TendencyView| t.priority),
                prios.len() == n,
                order@.map_values(|x: usize| x as int) == priority_order(prios, k as nat),
                forall|m: int| 0 <= m < order@.len() ==> #[trigger] order@[m] < k,
            decreases n - k,
        {
            let ghost so = order@.map_values(|x: usize| x as int);
            let mut j: usize = order.len();
            assert(prios[k as int] == self.tendencies@[k as int].priority);
            while j > 0 && self.tendencies[order[j - 1]].priority < self.tendencies[k].priority
                invariant
                    j <= order@.len(),
                    k < n,
                    n == self.tendencies@.len(),
                    prios == self@.tendencies.map_values(|t: TendencyView| t.priority),
                    so == order@.map_values(|x: usize| x as int),
                    forall|m: int| 0 <= m < order@.len() ==> #[trigger] order@[m] < k,
                    forall|m: int| j <= m < so.len() ==> prios[#[trigger] so[m]] < prios[k as int],
                decreases j,
            {
                assert(prios[so[j - 1]] == self.tendencies@[order@[j - 1] as int].priority);
                j = j - 1;
            }
            proof {
                if j > 0 {
                    assert(prios[so[j - 1]] == self.tendencies@[order@[j - 1] as int].priority);
                }
                lemma_priority_insert(so, k as int, prios, j as int);
            }
            order.insert(j, k);
            proof {
                assert(order@.map_values(|x: usize| x as int) =~= so.insert(j as int, k as int));
            }
            k = k + 1;
        }
        order
    }


    /// Steps before the tendencies: mature the pending events and write their
    /// effects, merge the caller's delta, write the effects of its immediate
    /// events and queue its delayed ones.
    fn pre_step(&mut self, input: &Delta) -> (merged: Delta)
        ensures
            exists|ids1: Seq<EntityId>, ids2: Seq<EntityId>|
                fresh_ids_ok(effects_of(matured(old(self)@.pending)), ids1) && fresh_ids_ok(
                    effects_of(immediate(input@.events)),
                    ids2,
                ) && merged@ == #[trigger] pre_delta(old(self)@.pending, input@, ids1, ids2),
            final(self)@ == (ManagerView {
                pending: still_pending(old(self)@.pending) + queued(input@.events),
                ..old(self)@
            }),
    {
        let mut merged = Delta::new();
        let ready = self.mature_pending();
        let ghost evs1 = events_view(ready@);
        let ghost mut ids1: Seq<EntityId> = Seq::empty();
        let mut i: usize = 0;
        while i < ready.len()
            invariant
                i <= ready@.len(),
                evs1 == events_view(ready@),
                fresh_ids_ok(effects_of(evs1.take(i as int)), ids1),
                merged@ == effects_written(DeltaView::empty(), effects_of(evs1.take(i as int)), ids1),
            decreases ready@.len() - i,
        {
            let ghost before = merged@;
            write_event_effects(&mut merged, &ready[i]);
            proof {
                let ev = evs1[i as int];
                assert(ev == ready@[i as int]@);
                let ids = choose|ids: Seq<EntityId>|
                    fresh_ids_ok(ev.effects, ids) && merged@ == #[trigger] effects_written(before, ev.effects, ids);
                assert(evs1.take(i + 1).drop_last() =~= evs1.take(i as int));
                let a = effects_of(evs1.take(i as int));
                lemma_effects_written_concat(DeltaView::empty(), a, ids1, ev.effects, ids);
                assert(effects_of(evs1.take(i + 1)) == a + ev.effects);
                assert forall|j: int| 0 <= j < (a + ev.effects).len() && crate::causal::needs_fresh_id(#[trigger] (a + ev.effects)[j]) implies is_random_uuid((ids1 + ids)[j]) by {
                    if j < a.len() {
                        assert((a + ev.effects)[j] == a[j]);
                    } else {
                        assert((a + ev.effects)[j] == ev.effects[j - a.len()]);
                    }
                }
                ids1 = ids1 + ids;
            }
            i = i + 1;
        }
        assert(evs1.take(i as int) =~= evs1);
        merged.merge_from(input);
        let ghost evs2 = input@.events;
        let ghost base2 = merged@;
        let ghost mut ids2: Seq<EntityId> = Seq::empty();
        let ghost pend0 = self@.pending;
        assert(queued(evs2.take(0)) =~= Seq::<(EventView, u64)>::empty()) by {
            reveal_with_fuel(Seq::filter, 1);
        }
        assert(immediate(evs2.take(0)) =~= Seq::<EventView>::empty()) by {
            reveal_with_fuel(Seq::filter, 1);
        }
        let mut j: usize = 0;
        while j < input.events.len()
            invariant
                j <= evs2.len(),
                evs2 == input@.events,
                evs2.len() == input.events@.len(),
                fresh_ids_ok(effects_of(immediate(evs2.take(j as int))), ids2),
                merged@ == effects_written(base2, effects_of(immediate(evs2.take(j as int))), ids2),
                self@ == (ManagerView { pending: pend0 + queued(evs2.take(j as int)), ..old(self)@ }),
                pend0 == still_pending(old(self)@.pending),
            decreases evs2.len() - j,
        {
            let ghost before = merged@;
            let ev = &input.events[j];
            assert(evs2[j as int] == ev@);
            proof {
                lemma_filter_take_step(evs2, event_is_immediate(), j as int);
                lemma_filter_take_step(evs2, event_is_delayed(), j as int);
            }
            if ev.propagation_delay == 0 {
                write_event_effects(&mut merged, ev);
                proof {
                    let ids = choose|ids: Seq<EntityId>|
                        fresh_ids_ok(ev@.effects, ids) && merged@ == #[trigger] effects_written(before, ev@.effects, ids);
                    let a = effects_of(immediate(evs2.take(j as int)));
                    let im1 = immediate(evs2.take(j + 1));
                    assert(im1 == immediate(evs2.take(j as int)).push(ev@));
                    assert(im1.drop_last() =~= immediate(evs2.take(j as int)));
                    assert(effects_of(im1) == a + ev@.effects);
                    lemma_effects_written_concat(base2, a, ids2, ev@.effects, ids);
                    assert forall|m: int| 0 <= m < (a + ev@.effects).len() && crate::causal::needs_fresh_id(#[trigger] (a + ev@.effects)[m]) implies is_random_uuid((ids2 + ids)[m]) by {
                        if m < a.len() {
                            assert((a + ev@.effects)[m] == a[m]);
                        } else {
                            assert((a + ev@.effects)[m] == ev@.effects[m - a.len()]);
                        }
                    }
                    ids2 = ids2 + ids;
                    assert(queued(evs2.take(j + 1)) == queued(evs2.take(j as int)));
                }
            } else {
                let copy = ev.deep_copy();
                let delay = ev.propagation_delay;
                let ghost prev = self.pending_events@;
                self.pending_events.push((copy, delay));
                proof {
                    lemma_map_push(prev, (copy, delay), |p: (CausalEvent, u64)| (p.0@, p.1));
                    lemma_map_push(evs2.take(j as int).filter(event_is_delayed()), ev@, |e: EventView| (e, e.propagation_delay));
                    assert(queued(evs2.take(j + 1)) == queued(evs2.take(j as int)).push((ev@, delay)));
                    assert(self@.pending =~= pend0 + queued(evs2.take(j + 1)));
                    assert(immediate(evs2.take(j + 1)) == immediate(evs2.take(j as int)));
                }
            }
            j = j + 1;
        }
        assert(evs2.take(j as int) =~= evs2);
        assert(fresh_ids_ok(effects_of(matured(old(self)@.pending)), ids1) && fresh_ids_ok(
            effects_of(immediate(input@.events)),
            ids2,
        ) && merged@ == pre_delta(old(self)@.pending, input@, ids1, ids2));
        merged
    }


    /// Run every tendency in evaluation order on the live pool, applying and
    /// merging each generated delta.
    fn run_tendencies(&mut self, merged: &mut Delta)
        ensures
            exists|idss: Seq<Seq<EntityId>>|
                tendency_ids_ok(old(self)@.pool, old(merged)@, in_priority_order(old(self)@.tendencies), idss)
                    && (final(self)@.pool, final(merged)@) == #[trigger] tendencies_applied(
                    old(self)@.pool,
                    old(merged)@,
                    in_priority_order(old(self)@.tendencies),
                    idss,
                ),
            final(self)@ == (ManagerView { pool: final(self)@.pool, ..old(self)@ }),
    {
        let order = self.priority_indices();
        let ghost ts = self@.tendencies;
        let ghost ord = in_priority_order(ts);
        let ghost p0 = self@.pool;
        let ghost d0 = merged@;
        let ghost mut idss: Seq<Seq<EntityId>> = Seq::empty();
        assert(ord.len() == order@.len());
        let mut t: usize = 0;
        while t < order.len()
            invariant
                t <= order@.len(),
                ord.len() == order@.len(),
                ts == self@.tendencies,
                ts.len() == self.tendencies@.len(),
                ord == in_priority_order(ts),
                ord == order@.map_values(|x: usize| x as int).map_values(|i: int| ts[i]),
                forall|m: int| 0 <= m < order@.len() ==> #[trigger] order@[m] < ts.len(),
                tendency_ids_ok(p0, d0, ord.take(t as int), idss),
                (self@.pool, merged@) == tendencies_applied(p0, d0, ord.take(t as int), idss),
                self@ == (ManagerView { pool: self@.pool, ..old(self)@ }),
            decreases order@.len() - t,
        {
            let k = order[t];
            assert(ord[t as int] == ts[k as int]);
            assert(ts[k as int] == self.tendencies@[k as int]@);
            let ghost pool_before = self@.pool;
            let generated_delta = self.tendencies[k].generate_delta(&self.entity_pool);
            let ghost ids = choose|ids: Seq<EntityId>|
                ids.len() == draws(ts[k as int], pool_before) && (forall|i: int|
                    0 <= i < ids.len() ==> is_random_uuid(#[trigger] ids[i])) && delta_option_view(
                    generated_delta,
                ) == #[trigger] generated(ts[k as int], pool_before, ids);
            match generated_delta {
                Some(td) => {
                    self.entity_pool.apply_delta(&td);
                    merged.merge_from(&td);
                },
                None => {},
            }
            proof {
                let tk = ord.take(t + 1);
                assert(tk.drop_last() =~= ord.take(t as int));
                assert(tk.last() == ts[k as int]);
                let idss2 = idss.push(ids);
                assert(idss2.drop_last() =~= idss);
                assert(idss2.last() == ids);
                idss = idss2;
            }
            t = t + 1;
        }
        assert(ord.take(t as int) =~= ord);
    }

    /// Commit a step: store a node with the step delta under the active
    /// timeline's newest node and append it to the active timeline.
    fn commit(&mut self, merged: Delta, description: &str) -> (r: NodeId)
        requires
            old(self)@.wf(),
            old(self)@.node_count < usize::MAX,
        ensures
            final(self)@.wf(),
            is_random_uuid(r),
            final(self)@ == old(self)@.stepped(r, old(self)@.pool, merged@, old(self)@.pending, description@),
    {
        proof { self.lemma_active_nonempty(); }
        let timeline_id = self.active_timeline_id;
        let parent_id = match self.active_timeline().current_node() {
            Some(p) => p,
            None => {
                assert(false);
                0
            },
        };
        let timestamp: u64 = match self.nodes.get(parent_id) {
            Some(n) => {
                proof {
                    lemma_first_index(self@.nodes, parent_id);
                    let fi = crate::assoc::first_index(self@.nodes, parent_id);
                    assert(self@.nodes[fi].1.timestamp <= self@.node_count);
                }
                n.timestamp + 1
            },
            None => 1,
        };
        let node = TimelineNode::new(timeline_id, parent_id, timestamp, merged, description);
        let node_id = node.id;
        let ghost nv = node@;
        self.nodes.insert(node_id, node);
        let ti = match self.timelines.index_of(timeline_id) {
            Some(ti) => ti,
            None => {
                assert(false);
                0
            },
        };
        let ghost old_tls = self@.timelines;
        let tl = self.timelines.value_mut(ti);
        tl.nodes.push(node_id);
        self.node_count = self.node_count + 1;
        if self.node_count % self.cache_interval == 0 {
            let snapshot = self.entity_pool.deep_copy();
            self.state_cache.insert(node_id, snapshot);
        }
        proof {
            let tls = self@.timelines;
            assert(tls == assoc_put(old_tls, timeline_id, tls[ti as int].1));
            crate::assoc::lemma_as_map_put(old_tls, timeline_id, tls[ti as int].1);
            assert forall|i: int| 0 <= i < tls.len() implies #[trigger] tls[i].1.nodes.len() > 0 by {
                if i != ti {
                    assert(tls[i] == old_tls[i]);
                }
            }
            assert(has_key(tls, timeline_id)) by {
                assert(tls[ti as int].0 == timeline_id);
            }
            let ns = self@.nodes;
            assert forall|i: int| 0 <= i < ns.len() implies #[trigger] ns[i].1.timestamp <= self@.node_count by {
                lemma_first_index(old(self)@.nodes, node_id);
                if i < old(self)@.nodes.len() && i != crate::assoc::first_index(old(self)@.nodes, node_id) {
                    assert(ns[i] == old(self)@.nodes[i]);
                }
            }
        }
        node_id
    }

    /// Advance the active timeline by one step and return the new node's ID.
    ///
    /// The step's delta is built from, in order: the effects of pending causal
    /// events whose delay reaches zero, the caller's delta, the effects of its
    /// events with delay zero (its other events are queued with their delay),
    /// and the corrective deltas of the world tendencies, run in descending
    /// priority on the pool as each earlier correction left it. The merged delta
    /// is stored in a new node under the active timeline's newest node, and the
    /// live pool becomes the pool before the step with that delta applied, so
    /// that replaying the stored deltas always rebuilds the live state; every
    /// `cache_interval` steps the pool is cached.
    pub fn advance(&mut self, input_delta: Delta, description: &str) -> (r: NodeId)
        requires
            old(self)@.wf(),
            old(self)@.node_count < usize::MAX,
        ensures
            final(self)@.wf(),
            is_random_uuid(r),
            exists|ids1: Seq<EntityId>, ids2: Seq<EntityId>, idss: Seq<Seq<EntityId>>|
                #[trigger] step_ids_ok(old(self)@, input_delta@, ids1, ids2, idss) && final(self)@
                    == old(self)@.advance_step(input_delta@, ids1, ids2, idss, r, description@),
            old(self)@.consistent() && !has_key(old(self)@.nodes, r) ==> final(self)@.consistent()
                && final(self)@.pool == final(self)@.replay_from_root(r) && final(self)@.reconstructed(r)
                == final(self)@.pool,
    {
        let ghost m0 = self@;
        let mut merged = self.pre_step(&input_delta);
        let ghost (ids1, ids2) = choose|ids1: Seq<EntityId>, ids2: Seq<EntityId>|
            fresh_ids_ok(effects_of(matured(m0.pending)), ids1) && fresh_ids_ok(
                effects_of(immediate(input_delta@.events)),
                ids2,
            ) && merged@ == #[trigger] pre_delta(m0.pending, input_delta@, ids1, ids2);
        let ghost pre = merged@;
        let mut live = self.entity_pool.deep_copy();
        self.entity_pool.apply_delta(&merged);
        let ghost m1 = self@;
        self.run_tendencies(&mut merged);
        let ghost idss = choose|idss: Seq<Seq<EntityId>>|
            tendency_ids_ok(m1.pool, pre, in_priority_order(m1.tendencies), idss) && (self@.pool, merged@)
                == #[trigger] tendencies_applied(m1.pool, pre, in_priority_order(m1.tendencies), idss);
        let ghost m2 = self@;
        assert(m2.pool == tendencies_applied(m1.pool, pre, in_priority_order(m1.tendencies), idss).0);
        live.apply_delta(&merged);
        self.entity_pool = live;
        let r = self.commit(merged, description);
        proof {
            assert(m1.tendencies == m0.tendencies);
            assert(m1.pool == m0.pool.with_delta(pre));
            assert(step_ids_ok(m0, input_delta@, ids1, ids2, idss));
            let out = step_outcome(m0, input_delta@, ids1, ids2, idss);
            assert(out.1 == merged@);
            assert(self@ == m0.stepped(
                r,
                m0.pool.with_delta(out.1),
                out.1,
                still_pending(m0.pending) + queued(input_delta@.events),
                description@,
            ));
            if m0.consistent() && !has_key(m0.nodes, r) {
                crate::history::law_advance_keeps_live(m0, input_delta@, ids1, ids2, idss, r, description@);
                crate::history::law_pools_stay_keyed(
                    m0,
                    input_delta@,
                    ids1,
                    ids2,
                    idss,
                    r,
                    description@,
                    r,
                    m0.active,
                    Seq::empty(),
                );
            }
        }
        r
    }
}

impl Default for TimelineManager {
    /// The same as [`TimelineManager::new`].
    fn default() -> (r: TimelineManager)
        ensures
            r@.wf(),
            r@.linked(),
            r@.live(),
            r@.pools_keyed(),
            r@.faithful(),
            r@.consistent(),
            r@.pool == PoolView::empty(),
            r@.timelines.len() == 1,
            r@.nodes.len() == 1,
            r@.active_timeline().nodes == seq![r@.tip()],
            r@.node(r@.tip()).parent_id is None,
            r@.node(r@.tip()).timestamp == 0,
            r@.tendencies == Seq::<TendencyView>::empty(),
            r@.pending == Seq::<(EventView, u64)>::empty(),
            r@.cache_interval == 10,
            r@.node_count == 0,
    {
        let r = TimelineManager::new();
        proof {
            lemma_first_index(r@.timelines, r@.active);
            lemma_first_index(r@.nodes, r@.tip());
            assert(has_key(r@.nodes, r@.tip())) by {
                assert(r@.nodes[0].0 == r@.tip());
            }
        }
        r
    }
}

} // verus!
