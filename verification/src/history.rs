//! Laws of the recorded history: what the manager's operations keep of the
//! node tree, and what reconstructing the state at a node gives back.

use vstd::prelude::*;

use crate::assoc::{
    as_map, assoc_put, first_index, has_key, lemma_assoc_put_entries, lemma_first_index, lemma_put_other,
    lemma_put_same,
};
use crate::causal::EventView;
use crate::delta::DeltaView;
use crate::entity::PoolView;
use crate::manager::{
    queued, still_pending,
    last_cached, lemma_last_cached, parents_stored, replayed, step_outcome, tendencies_applied, timed,
    walk_up, in_priority_order, pre_delta, ManagerView,
};
use crate::node::NodeView;
use crate::timeline::TimelineView;
use crate::tendency::{generated, TendencyView};
use crate::types::{EntityId, NodeId, TimelineId};

verus! {

/// A walk up the parent links starts at its starting node.
pub proof fn lemma_walk_head(nodes: Seq<(NodeId, NodeView)>, x: NodeId, f: nat)
    ensures
        walk_up(nodes, x, f).len() >= 1,
        walk_up(nodes, x, f)[0] == x,
{
}

/// Walking up from a stored node meets only stored nodes, so storing a node
/// under an unused ID does not change the walk.
pub proof fn lemma_walk_put_fresh(
    nodes: Seq<(NodeId, NodeView)>,
    r: NodeId,
    nv: NodeView,
    x: NodeId,
    f: nat,
)
    requires
        parents_stored(nodes),
        has_key(nodes, x),
        !has_key(nodes, r),
    ensures
        walk_up(assoc_put(nodes, r, nv), x, f) == walk_up(nodes, x, f),
        forall|k: int|
            0 <= k < walk_up(nodes, x, f).len() ==> has_key(nodes, #[trigger] walk_up(nodes, x, f)[k]),
    decreases f,
{
    lemma_put_other(nodes, r, nv, x);
    let w = walk_up(nodes, x, f);
    if f > 0 && as_map(nodes)[x].parent_id is Some {
        let p = as_map(nodes)[x].parent_id->0;
        assert(has_key(nodes, p));
        lemma_walk_put_fresh(nodes, r, nv, p, (f - 1) as nat);
        let w1 = walk_up(nodes, p, (f - 1) as nat);
        assert(w == seq![x] + w1);
        assert forall|k: int| 0 <= k < w.len() implies has_key(nodes, #[trigger] w[k]) by {
            if k > 0 {
                assert(w[k] == w1[k - 1]);
            }
        }
    } else {
        assert(w == seq![x]);
    }
}

/// From a stored node, the walk reaches a root within as many steps as the
/// node's timestamp; more fuel changes nothing.
pub proof fn lemma_walk_settles(nodes: Seq<(NodeId, NodeView)>, x: NodeId, f: nat)
    requires
        parents_stored(nodes),
        timed(nodes),
        has_key(nodes, x),
        f >= as_map(nodes)[x].timestamp,
    ensures
        walk_up(nodes, x, f) == walk_up(nodes, x, as_map(nodes)[x].timestamp as nat),
    decreases as_map(nodes)[x].timestamp,
{
    let n = as_map(nodes)[x];
    if n.parent_id is Some {
        let p = n.parent_id->0;
        assert(has_key(nodes, p));
        assert(n.timestamp == as_map(nodes)[p].timestamp + 1);
        lemma_walk_settles(nodes, p, (f - 1) as nat);
        assert((n.timestamp - 1) as nat == as_map(nodes)[p].timestamp as nat);
    }
}

/// The newest cached position is found the same way when only an ID outside
/// the chain was cached.
pub proof fn lemma_last_cached_put_other(
    cache: Seq<(NodeId, PoolView)>,
    r: NodeId,
    v: PoolView,
    ids: Seq<NodeId>,
)
    requires
        !ids.contains(r),
    ensures
        last_cached(assoc_put(cache, r, v), ids) == last_cached(cache, ids),
    decreases ids.len(),
{
    if ids.len() > 0 {
        assert(ids[ids.len() - 1] == ids.last());
        lemma_put_other(cache, r, v, ids.last());
        assert(!ids.drop_last().contains(r)) by {
            if ids.drop_last().contains(r) {
                let j = choose|j: int| 0 <= j < ids.len() - 1 && ids.drop_last()[j] == r;
                assert(ids[j] == r);
            }
        }
        lemma_last_cached_put_other(cache, r, v, ids.drop_last());
    }
}

/// Replaying a chain is the same when only a node outside the chain was stored.
pub proof fn lemma_replayed_put_other(
    nodes: Seq<(NodeId, NodeView)>,
    r: NodeId,
    nv: NodeView,
    p: PoolView,
    ids: Seq<NodeId>,
)
    requires
        !ids.contains(r),
    ensures
        replayed(assoc_put(nodes, r, nv), p, ids) == replayed(nodes, p, ids),
    decreases ids.len(),
{
    if ids.len() > 0 {
        assert(ids[ids.len() - 1] == ids.last());
        lemma_put_other(nodes, r, nv, ids.last());
        assert(!ids.drop_last().contains(r)) by {
            if ids.drop_last().contains(r) {
                let j = choose|j: int| 0 <= j < ids.len() - 1 && ids.drop_last()[j] == r;
                assert(ids[j] == r);
            }
        }
        lemma_replayed_put_other(nodes, r, nv, p, ids.drop_last());
    }
}

/// The newest node of the active timeline is stored.
pub proof fn lemma_tip_stored(m: ManagerView)
    requires
        m.wf(),
        m.linked(),
    ensures
        has_key(m.nodes, m.tip()),
{
    lemma_first_index(m.timelines, m.active);
    let i = first_index(m.timelines, m.active);
    assert(has_key(m.nodes, m.timelines[i].1.nodes.last()));
}

/// A stored node is not cached under an ID that is not a stored node.
pub proof fn lemma_fresh_not_cached(m: ManagerView, r: NodeId)
    requires
        m.linked(),
        !has_key(m.nodes, r),
    ensures
        !has_key(m.cache, r),
{
    if has_key(m.cache, r) {
        let i = choose|i: int| 0 <= i < m.cache.len() && m.cache[i].0 == r;
        assert(has_key(m.nodes, m.cache[i].0));
    }
}

/// The chain that reconstruction follows for a node stored before a step is
/// the same after the step, and it holds only stored nodes.
pub proof fn lemma_step_ancestry(m: ManagerView, r: NodeId, nv: NodeView, n: NodeId)
    requires
        m.linked(),
        has_key(m.nodes, n),
        !has_key(m.nodes, r),
    ensures
        assoc_put(m.nodes, r, nv).len() == m.nodes.len() + 1,
        walk_up(assoc_put(m.nodes, r, nv), n, (m.nodes.len() + 1) as nat) == walk_up(
            m.nodes,
            n,
            m.nodes.len() as nat,
        ),
        !m.ancestry(n).contains(r),
{
    lemma_assoc_put_entries(m.nodes, r, nv);
    let len = m.nodes.len() as nat;
    lemma_walk_put_fresh(m.nodes, r, nv, n, len + 1);
    assert(as_map(m.nodes)[n].timestamp < len);
    lemma_walk_settles(m.nodes, n, len + 1);
    lemma_walk_settles(m.nodes, n, len);
    lemma_walk_put_fresh(m.nodes, r, nv, n, len);
    let w = walk_up(m.nodes, n, len);
    let ch = w.reverse();
    if ch.contains(r) {
        let j = choose|j: int| 0 <= j < ch.len() && ch[j] == r;
        assert(ch[j] == w[w.len() - 1 - j]);
        assert(has_key(m.nodes, w[w.len() - 1 - j]));
    }
}

/// Recording a step under an ID that names no stored node changes no node
/// stored before it, neither the state reconstructed at such a node, nor any
/// timeline other than the active one.
pub proof fn law_step_keeps_past(
    m: ManagerView,
    r: NodeId,
    pool: PoolView,
    delta: DeltaView,
    pending: Seq<(EventView, u64)>,
    description: Seq<char>,
    n: NodeId,
    t: TimelineId,
)
    requires
        m.wf(),
        m.linked(),
        !has_key(m.nodes, r),
        has_key(m.nodes, n),
        t != m.active,
    ensures
        m.stepped(r, pool, delta, pending, description).reconstructed(n) == m.reconstructed(n),
        has_key(m.stepped(r, pool, delta, pending, description).nodes, n),
        m.stepped(r, pool, delta, pending, description).node(n) == m.node(n),
        has_key(m.stepped(r, pool, delta, pending, description).timelines, t) == has_key(m.timelines, t),
        m.stepped(r, pool, delta, pending, description).timeline(t) == m.timeline(t),
{
    let m1 = m.stepped(r, pool, delta, pending, description);
    let nv = m.step_node(r, delta, description);
    let tl = TimelineView { nodes: m.active_timeline().nodes.push(r), ..m.active_timeline() };
    lemma_put_other(m.timelines, m.active, tl, t);
    lemma_put_other(m.cache, r, pool, n);
    lemma_put_other(m.nodes, r, nv, n);
    if !has_key(m.cache, n) {
        lemma_step_ancestry(m, r, nv, n);
        let ch = m.ancestry(n);
        assert(m1.ancestry(n) == ch);
        if m.caches_next() {
            lemma_last_cached_put_other(m.cache, r, pool, ch);
        }
        let k = last_cached(m.cache, ch);
        lemma_last_cached(m.cache, ch);
        if k >= 0 {
            assert(ch[k] != r);
            lemma_put_other(m.cache, r, pool, ch[k]);
        }
        let rest = ch.skip(k + 1);
        assert(!rest.contains(r)) by {
            if rest.contains(r) {
                let j = choose|j: int| 0 <= j < rest.len() && rest[j] == r;
                assert(ch[j + k + 1] == r);
            }
        }
        let base = if k >= 0 {
            as_map(m.cache)[ch[k]]
        } else {
            PoolView::empty()
        };
        lemma_replayed_put_other(m.nodes, r, nv, base, rest);
    }
}

/// The state reconstructed at a step's node is the snapshot cached there when
/// the step caches one, and otherwise the state reconstructed at the previous
/// newest node with the step's stored delta applied.
pub proof fn law_step_replays(
    m: ManagerView,
    r: NodeId,
    pool: PoolView,
    delta: DeltaView,
    pending: Seq<(EventView, u64)>,
    description: Seq<char>,
)
    requires
        m.wf(),
        m.linked(),
        !has_key(m.nodes, r),
    ensures
        m.stepped(r, pool, delta, pending, description).reconstructed(r) == (if m.caches_next() {
            pool
        } else {
            m.reconstructed(m.tip()).with_delta(delta)
        }),
{
    let m1 = m.stepped(r, pool, delta, pending, description);
    let nv = m.step_node(r, delta, description);
    lemma_fresh_not_cached(m, r);
    lemma_put_same(m.cache, r, pool);
    if !m.caches_next() {
        let tip = m.tip();
        lemma_tip_stored(m);
        lemma_put_same(m.nodes, r, nv);
        lemma_assoc_put_entries(m.nodes, r, nv);
        let len = m.nodes.len() as nat;
        let nodes1 = assoc_put(m.nodes, r, nv);
        lemma_walk_put_fresh(m.nodes, r, nv, tip, len);
        let w0 = walk_up(m.nodes, tip, len);
        assert(walk_up(nodes1, r, len + 1) == seq![r] + walk_up(nodes1, tip, len));
        let ch0 = w0.reverse();
        let ch1 = m1.ancestry(r);
        assert(ch1 =~= ch0.push(r));
        assert(ch1.drop_last() =~= ch0);
        assert(last_cached(m.cache, ch1) == last_cached(m.cache, ch0));
        let k = last_cached(m.cache, ch0);
        lemma_last_cached(m.cache, ch0);
        assert(ch1.skip(k + 1) =~= ch0.skip(k + 1).push(r));
        assert(ch1.skip(k + 1).drop_last() =~= ch0.skip(k + 1));
        let base = if k >= 0 {
            as_map(m.cache)[ch0[k]]
        } else {
            PoolView::empty()
        };
        assert(!ch0.contains(r)) by {
            if ch0.contains(r) {
                let j = choose|j: int| 0 <= j < ch0.len() && ch0[j] == r;
                assert(ch0[j] == w0[w0.len() - 1 - j]);
                assert(has_key(m.nodes, w0[w0.len() - 1 - j]));
            }
        }
        let rest = ch0.skip(k + 1);
        assert(!rest.contains(r)) by {
            if rest.contains(r) {
                let j = choose|j: int| 0 <= j < rest.len() && rest[j] == r;
                assert(ch0[j + k + 1] == r);
            }
        }
        lemma_replayed_put_other(m.nodes, r, nv, base, rest);
        assert(m1.reconstructed(r) == replayed(m.nodes, base, rest).with_delta(delta));
        if has_key(m.cache, tip) {
            lemma_walk_head(m.nodes, tip, len);
            assert(ch0.last() == tip);
            assert(k == ch0.len() - 1);
            assert(rest =~= Seq::<NodeId>::empty());
        }
    }
}

/// Recording a step under an unused ID keeps the history a tree.
pub proof fn law_step_keeps_linked(
    m: ManagerView,
    r: NodeId,
    pool: PoolView,
    delta: DeltaView,
    pending: Seq<(EventView, u64)>,
    description: Seq<char>,
)
    requires
        m.wf(),
        m.linked(),
        !has_key(m.nodes, r),
        m.node_count < usize::MAX,
    ensures
        m.stepped(r, pool, delta, pending, description).linked(),
{
    let m1 = m.stepped(r, pool, delta, pending, description);
    let nv = m.step_node(r, delta, description);
    let tip = m.tip();
    lemma_tip_stored(m);
    lemma_first_index(m.nodes, tip);
    assert(as_map(m.nodes)[tip].timestamp <= m.node_count);
    assert(nv.timestamp == as_map(m.nodes)[tip].timestamp + 1);
    lemma_put_same(m.nodes, r, nv);
    lemma_assoc_put_entries(m.nodes, r, nv);
    let nodes1 = m1.nodes;
    assert forall|x: NodeId| #[trigger] has_key(m.nodes, x) implies has_key(nodes1, x) && as_map(nodes1)[x]
        == as_map(m.nodes)[x] by {
        lemma_put_other(m.nodes, r, nv, x);
    }
    assert forall|x: NodeId| #[trigger] has_key(nodes1, x) implies x == r || has_key(m.nodes, x) by {
        if x != r {
            lemma_put_other(m.nodes, r, nv, x);
        }
    }
    assert(parents_stored(nodes1));
    assert(timed(nodes1));
    lemma_first_index(m.timelines, m.active);
    lemma_assoc_put_entries(m.timelines, m.active, m1.timeline(m.active));
    lemma_put_same(m.timelines, m.active, m1.timeline(m.active));
    let tl = TimelineView { nodes: m.active_timeline().nodes.push(r), ..m.active_timeline() };
    assert(m1.timelines == assoc_put(m.timelines, m.active, tl));
    assert forall|i: int| 0 <= i < m1.timelines.len() implies has_key(
        nodes1,
        #[trigger] m1.timelines[i].1.nodes.last(),
    ) by {
        if m1.timelines[i] != (m.active, tl) {
            assert(has_key(m.nodes, m.timelines[i].1.nodes.last()));
        }
    }
    lemma_fresh_not_cached(m, r);
    lemma_assoc_put_entries(m.cache, r, pool);
    assert forall|i: int| 0 <= i < m1.cache.len() implies has_key(nodes1, #[trigger] m1.cache[i].0) by {
        if i < m.cache.len() {
            assert(has_key(m.nodes, m.cache[i].0));
        }
    }
}


/// A step under an unused ID keeps the live pool equal to the state
/// reconstructed at the active timeline's newest node exactly when the step
/// caches a snapshot or the step's pool is the previous pool with the step's
/// stored delta applied.
pub proof fn law_step_keeps_live(
    m: ManagerView,
    r: NodeId,
    pool: PoolView,
    delta: DeltaView,
    pending: Seq<(EventView, u64)>,
    description: Seq<char>,
)
    requires
        m.wf(),
        m.linked(),
        m.live(),
        !has_key(m.nodes, r),
    ensures
        m.stepped(r, pool, delta, pending, description).tip() == r,
        m.stepped(r, pool, delta, pending, description).live() <==> (m.caches_next() || pool
            == m.pool.with_delta(delta)),
{
    let tl = TimelineView { nodes: m.active_timeline().nodes.push(r), ..m.active_timeline() };
    lemma_put_same(m.timelines, m.active, tl);
    law_step_replays(m, r, pool, delta, pending, description);
}

/// The pool and delta that tendencies leave are those they start from when none
/// of them generates a correction.
pub proof fn lemma_no_corrections(
    p: PoolView,
    d: DeltaView,
    ts: Seq<TendencyView>,
    idss: Seq<Seq<EntityId>>,
)
    requires
        idss.len() == ts.len(),
        forall|i: int| 0 <= i < ts.len() ==> #[trigger] generated(ts[i], p, idss[i]) is None,
    ensures
        tendencies_applied(p, d, ts, idss) == (p, d),
    decreases ts.len(),
{
    if ts.len() > 0 {
        let n = ts.len() - 1;
        assert forall|i: int| 0 <= i < ts.drop_last().len() implies #[trigger] generated(
            ts.drop_last()[i],
            p,
            idss.drop_last()[i],
        ) is None by {
            assert(ts.drop_last()[i] == ts[i]);
            assert(idss.drop_last()[i] == idss[i]);
            assert(generated(ts[i], p, idss[i]) is None);
        }
        lemma_no_corrections(p, d, ts.drop_last(), idss.drop_last());
        assert(generated(ts[n], p, idss[n]) is None);
    }
}

/// When no tendency generates a correction in a step, the step's pool is the
/// previous pool with the step's delta applied.
pub proof fn law_quiet_step(
    m: ManagerView,
    input: DeltaView,
    ids1: Seq<EntityId>,
    ids2: Seq<EntityId>,
    idss: Seq<Seq<EntityId>>,
)
    requires
        idss.len() == m.tendencies.len(),
        forall|i: int|
            0 <= i < m.tendencies.len() ==> #[trigger] generated(
                in_priority_order(m.tendencies)[i],
                m.pool.with_delta(pre_delta(m.pending, input, ids1, ids2)),
                idss[i],
            ) is None,
    ensures
        step_outcome(m, input, ids1, ids2, idss).0 == m.pool.with_delta(
            step_outcome(m, input, ids1, ids2, idss).1,
        ),
{
    let pre = pre_delta(m.pending, input, ids1, ids2);
    let ts = in_priority_order(m.tendencies);
    assert(ts.len() == m.tendencies.len()) by {
        crate::schedule::law_tendency_order(m.tendencies);
    }
    lemma_no_corrections(m.pool.with_delta(pre), pre, ts, idss);
}

/// A step with no pending event and no tendency, whose input delta holds no
/// event and stores each key once without repeated removals, stores exactly
/// the input delta; `advance` then leaves the live pool as the previous pool
/// with the input delta applied.
pub proof fn law_quiet_advance(
    m: ManagerView,
    input: DeltaView,
    ids1: Seq<EntityId>,
    ids2: Seq<EntityId>,
    idss: Seq<Seq<EntityId>>,
)
    requires
        m.pending.len() == 0,
        m.tendencies.len() == 0,
        input.events.len() == 0,
        input.keyed(),
    ensures
        step_outcome(m, input, ids1, ids2, idss).1 == input,
{
    assert(crate::manager::decremented(m.pending) =~= Seq::<(EventView, u64)>::empty());
    assert(crate::manager::matured(m.pending) =~= Seq::<EventView>::empty()) by {
        reveal_with_fuel(Seq::filter, 1);
    }
    assert(crate::manager::immediate(input.events) =~= Seq::<EventView>::empty()) by {
        reveal_with_fuel(Seq::filter, 1);
    }
    crate::delta::law_merge_into_empty(input);
    assert(in_priority_order(m.tendencies) =~= Seq::<TendencyView>::empty());
}

/// Forking, with or without time travel, keeps the history a tree, leaves the
/// stored nodes and the cache as they were (so the state reconstructed at every
/// node is unchanged, and cached snapshots stay those that replay alone gives), leaves every other timeline as it was, and makes the live
/// pool the state reconstructed at the new timeline's only node.
pub proof fn law_branch_keeps(
    m: ManagerView,
    node_id: NodeId,
    id: TimelineId,
    name: Seq<char>,
    travel: bool,
    n: NodeId,
    t: TimelineId,
)
    requires
        m.wf(),
        m.linked(),
        has_key(m.nodes, node_id),
        t != id,
    ensures
        m.branched(node_id, id, name, travel).linked(),
        m.branched(node_id, id, name, travel).live(),
        m.branched(node_id, id, name, travel).tip() == node_id,
        m.branched(node_id, id, name, travel).nodes == m.nodes,
        m.branched(node_id, id, name, travel).reconstructed(n) == m.reconstructed(n),
        has_key(m.branched(node_id, id, name, travel).timelines, t) == has_key(m.timelines, t),
        m.branched(node_id, id, name, travel).timeline(t) == m.timeline(t),
        m.travelled(node_id, id).linked(),
        m.travelled(node_id, id).live(),
        m.travelled(node_id, id).nodes == m.nodes,
        m.travelled(node_id, id).pending.len() == 0,
        m.travelled(node_id, id).reconstructed(n) == m.reconstructed(n),
        has_key(m.travelled(node_id, id).timelines, t) == has_key(m.timelines, t),
        m.travelled(node_id, id).timeline(t) == m.timeline(t),
        m.faithful() ==> m.branched(node_id, id, name, travel).faithful(),
        m.faithful() ==> m.travelled(node_id, id).faithful(),
{
    let m1 = m.branched(node_id, id, name, travel);
    let tl = TimelineView {
        id,
        parent_id: Some(m.active),
        branch_point: Some(node_id),
        nodes: seq![node_id],
        name,
        is_time_travel_branch: travel,
    };
    lemma_put_same(m.timelines, id, tl);
    lemma_put_other(m.timelines, id, tl, t);
    lemma_assoc_put_entries(m.timelines, id, tl);
    assert forall|i: int| 0 <= i < m1.timelines.len() implies has_key(
        m1.nodes,
        #[trigger] m1.timelines[i].1.nodes.last(),
    ) by {
        if m1.timelines[i] != (id, tl) {
            assert(has_key(m.nodes, m.timelines[i].1.nodes.last()));
        }
    }
    let tv = TimelineView { name: "Time Travel Branch"@, is_time_travel_branch: true, ..tl };
    let m2 = m.travelled(node_id, id);
    lemma_put_same(m.timelines, id, tv);
    lemma_put_other(m.timelines, id, tv, t);
    lemma_assoc_put_entries(m.timelines, id, tv);
    assert forall|i: int| 0 <= i < m2.timelines.len() implies has_key(
        m2.nodes,
        #[trigger] m2.timelines[i].1.nodes.last(),
    ) by {
        if m2.timelines[i] != (id, tv) {
            assert(has_key(m.nodes, m.timelines[i].1.nodes.last()));
        }
    }
}

/// A normal branch keeps the pending causal events, which then mature on the
/// new timeline; only time travel drops them. Neither changes the tendencies.
pub proof fn law_branch_keeps_pending(m: ManagerView, node_id: NodeId, id: TimelineId, name: Seq<char>)
    ensures
        m.branched(node_id, id, name, false).pending == m.pending,
        m.branched(node_id, id, name, false).tendencies == m.tendencies,
        m.travelled(node_id, id).pending.len() == 0,
        m.travelled(node_id, id).tendencies == m.tendencies,
{
}

/// Switching timelines keeps the history a tree, changes no stored node, cached
/// snapshot or timeline (so cached snapshots stay those that replay alone gives), and makes the live pool the state reconstructed at the
/// newest node of the timeline switched to.
pub proof fn law_switch_keeps(m: ManagerView, id: TimelineId, n: NodeId)
    requires
        m.linked(),
    ensures
        m.switched(id).linked(),
        m.switched(id).live(),
        m.switched(id).timelines == m.timelines,
        m.switched(id).nodes == m.nodes,
        m.switched(id).reconstructed(n) == m.reconstructed(n),
        m.faithful() ==> m.switched(id).faithful(),
{
}


/// Replaying `s` and then `t` is replaying `s + t`.
pub proof fn lemma_replayed_split(nodes: Seq<(NodeId, NodeView)>, p: PoolView, s: Seq<NodeId>, t: Seq<NodeId>)
    ensures
        replayed(nodes, p, s + t) == replayed(nodes, replayed(nodes, p, s), t),
    decreases t.len(),
{
    if t.len() == 0 {
        assert(s + t =~= s);
    } else {
        lemma_replayed_split(nodes, p, s, t.drop_last());
        assert((s + t).drop_last() =~= s + t.drop_last());
        assert((s + t).last() == t.last());
    }
}

/// Every node met walking up from a stored node is stored, is as many ticks
/// earlier as steps were taken, and the walk from it is the rest of the walk.
pub proof fn lemma_walk_suffix(nodes: Seq<(NodeId, NodeView)>, x: NodeId, f: nat, j: int)
    requires
        parents_stored(nodes),
        timed(nodes),
        has_key(nodes, x),
        f >= as_map(nodes)[x].timestamp,
        0 <= j < walk_up(nodes, x, f).len(),
    ensures
        has_key(nodes, walk_up(nodes, x, f)[j]),
        as_map(nodes)[walk_up(nodes, x, f)[j]].timestamp + j == as_map(nodes)[x].timestamp,
        walk_up(nodes, walk_up(nodes, x, f)[j], f) == walk_up(nodes, x, f).skip(j),
    decreases f,
{
    let w = walk_up(nodes, x, f);
    lemma_walk_head(nodes, x, f);
    if j == 0 {
        assert(w.skip(0) =~= w);
    } else {
        let n = as_map(nodes)[x];
        assert(f > 0 && n.parent_id is Some);
        let p = n.parent_id->0;
        assert(has_key(nodes, p));
        let w1 = walk_up(nodes, p, (f - 1) as nat);
        assert(w == seq![x] + w1);
        lemma_walk_suffix(nodes, p, (f - 1) as nat, j - 1);
        assert(w[j] == w1[j - 1]);
        let y = w[j];
        lemma_walk_settles(nodes, y, f);
        lemma_walk_settles(nodes, y, (f - 1) as nat);
        assert(w.skip(j) =~= w1.skip(j - 1));
    }
}

/// The cache is a shortcut only: in a tree-shaped history whose cached
/// snapshots are each the state that replay alone gives at their node, the state
/// reconstructed at any node is the empty pool with the deltas of the nodes
/// from the root down to it replayed in order.
pub proof fn law_reconstruct_is_replay(m: ManagerView, n: NodeId)
    requires
        m.linked(),
        m.faithful(),
    ensures
        m.reconstructed(n) == m.replay_from_root(n),
{
    if has_key(m.cache, n) {
        lemma_first_index(m.cache, n);
        let i = first_index(m.cache, n);
        assert(m.cache[i].1 == m.replay_from_root(m.cache[i].0));
    } else {
        let len = m.nodes.len() as nat;
        let w = walk_up(m.nodes, n, len);
        let ch = m.ancestry(n);
        let k = last_cached(m.cache, ch);
        lemma_last_cached(m.cache, ch);
        lemma_walk_head(m.nodes, n, len);
        if k < 0 {
            assert(ch.skip(0) =~= ch);
        } else {
            if !has_key(m.nodes, n) {
                assert(w =~= seq![n]);
                assert(ch =~= seq![n]);
                assert(false);
            }
            let j = w.len() - 1 - k;
            let y = ch[k];
            assert(y == w[j]);
            lemma_walk_suffix(m.nodes, n, len, j);
            assert(m.ancestry(y) =~= ch.take(k + 1));
            lemma_first_index(m.cache, y);
            let i = first_index(m.cache, y);
            assert(m.cache[i].1 == m.replay_from_root(m.cache[i].0));
            lemma_replayed_split(m.nodes, PoolView::empty(), ch.take(k + 1), ch.skip(k + 1));
            assert(ch.take(k + 1) + ch.skip(k + 1) =~= ch);
        }
    }
}

/// A step under an unused ID keeps every cached snapshot equal to the state
/// replay alone gives at its node, provided the snapshot the step may cache is
/// that state at the previous newest node with the step's delta applied; replay
/// alone gives exactly that state at the new node.
pub proof fn law_step_keeps_faithful(
    m: ManagerView,
    r: NodeId,
    pool: PoolView,
    delta: DeltaView,
    pending: Seq<(EventView, u64)>,
    description: Seq<char>,
)
    requires
        m.wf(),
        m.linked(),
        m.faithful(),
        !has_key(m.nodes, r),
        m.caches_next() ==> pool == m.replay_from_root(m.tip()).with_delta(delta),
    ensures
        m.stepped(r, pool, delta, pending, description).faithful(),
        m.stepped(r, pool, delta, pending, description).replay_from_root(r) == m.replay_from_root(m.tip()).with_delta(
            delta,
        ),
{
    let m1 = m.stepped(r, pool, delta, pending, description);
    let nv = m.step_node(r, delta, description);
    let tip = m.tip();
    lemma_tip_stored(m);
    lemma_put_same(m.nodes, r, nv);
    lemma_assoc_put_entries(m.nodes, r, nv);
    let len = m.nodes.len() as nat;
    let nodes1 = assoc_put(m.nodes, r, nv);
    lemma_walk_put_fresh(m.nodes, r, nv, tip, len);
    let w0 = walk_up(m.nodes, tip, len);
    assert(walk_up(nodes1, r, len + 1) == seq![r] + walk_up(nodes1, tip, len));
    let ch0 = w0.reverse();
    let ch1 = m1.ancestry(r);
    assert(ch1 =~= ch0.push(r));
    assert(ch1.drop_last() =~= ch0);
    assert(!ch0.contains(r)) by {
        if ch0.contains(r) {
            let j = choose|j: int| 0 <= j < ch0.len() && ch0[j] == r;
            assert(ch0[j] == w0[w0.len() - 1 - j]);
            assert(has_key(m.nodes, w0[w0.len() - 1 - j]));
        }
    }
    lemma_replayed_put_other(m.nodes, r, nv, PoolView::empty(), ch0);
    assert(m1.replay_from_root(r) == m.replay_from_root(tip).with_delta(delta));
    lemma_fresh_not_cached(m, r);
    lemma_first_index(m.cache, r);
    assert forall|i: int| 0 <= i < m1.cache.len() implies (#[trigger] m1.cache[i]).1 == m1.replay_from_root(
        m1.cache[i].0,
    ) by {
        if i < m.cache.len() {
            assert(m1.cache[i] == m.cache[i]);
            let n = m.cache[i].0;
            assert(m.cache[i].1 == m.replay_from_root(n));
            assert(has_key(m.nodes, n));
            lemma_step_ancestry(m, r, nv, n);
            assert(m1.ancestry(n) == m.ancestry(n));
            lemma_replayed_put_other(m.nodes, r, nv, PoolView::empty(), m.ancestry(n));
        } else {
            assert(m.caches_next());
            assert(m1.cache[i] == (r, pool));
        }
    }
}

/// A step of `advance` recorded under an unused ID keeps the history a tree,
/// keeps every cached snapshot equal to the state replay alone gives at its
/// node, and keeps the live pool equal to the state reconstructed at the newest
/// node: the live pool after the step is the previous live pool with the stored
/// delta applied, which is exactly what replaying the stored deltas from the
/// root gives at the new node.
pub proof fn law_advance_keeps_live(
    m: ManagerView,
    input: DeltaView,
    ids1: Seq<EntityId>,
    ids2: Seq<EntityId>,
    idss: Seq<Seq<EntityId>>,
    r: NodeId,
    description: Seq<char>,
)
    requires
        m.wf(),
        m.linked(),
        m.live(),
        m.faithful(),
        !has_key(m.nodes, r),
        m.node_count < usize::MAX,
    ensures
        ({
            let out = step_outcome(m, input, ids1, ids2, idss);
            let m1 = m.stepped(
                r,
                m.pool.with_delta(out.1),
                out.1,
                still_pending(m.pending) + queued(input.events),
                description,
            );
            &&& m1.linked()
            &&& m1.live()
            &&& m1.faithful()
            &&& m1.pool == m1.replay_from_root(r)
            &&& m1.reconstructed(r) == m1.pool
        }),
{
    let out = step_outcome(m, input, ids1, ids2, idss);
    let pool1 = m.pool.with_delta(out.1);
    let pending1 = still_pending(m.pending) + queued(input.events);
    let m1 = m.stepped(r, pool1, out.1, pending1, description);
    law_step_keeps_live(m, r, pool1, out.1, pending1, description);
    law_reconstruct_is_replay(m, m.tip());
    law_step_keeps_faithful(m, r, pool1, out.1, pending1, description);
    law_step_keeps_linked(m, r, pool1, out.1, pending1, description);
}


/// Replaying deltas onto a pool that stores each entity once under its own ID
/// keeps it so.
pub proof fn lemma_replayed_keyed(nodes: Seq<(NodeId, NodeView)>, p: PoolView, ids: Seq<NodeId>)
    requires
        p.well_keyed(),
    ensures
        replayed(nodes, p, ids).well_keyed(),
    decreases ids.len(),
{
    if ids.len() > 0 {
        lemma_replayed_keyed(nodes, p, ids.drop_last());
        if has_key(nodes, ids.last()) {
            crate::index::law_apply_delta_keeps_keyed(
                replayed(nodes, p, ids.drop_last()),
                as_map(nodes)[ids.last()].delta,
            );
        }
    }
}

/// A cached snapshot of a manager whose pools are well keyed is well keyed.
pub proof fn lemma_cached_keyed(m: ManagerView, n: NodeId)
    requires
        m.pools_keyed(),
        has_key(m.cache, n),
    ensures
        as_map(m.cache)[n].well_keyed(),
{
    lemma_first_index(m.cache, n);
    let i = first_index(m.cache, n);
    assert(m.cache[i].1.well_keyed());
}

/// The state reconstructed at any node stores each entity once under its own
/// ID, when the live pool and the cached snapshots do.
pub proof fn law_reconstructed_keyed(m: ManagerView, n: NodeId)
    requires
        m.pools_keyed(),
    ensures
        m.reconstructed(n).well_keyed(),
{
    if has_key(m.cache, n) {
        lemma_cached_keyed(m, n);
    } else {
        let ch = m.ancestry(n);
        let k = last_cached(m.cache, ch);
        lemma_last_cached(m.cache, ch);
        let base = if k >= 0 {
            as_map(m.cache)[ch[k]]
        } else {
            PoolView::empty()
        };
        if k >= 0 {
            lemma_cached_keyed(m, ch[k]);
        } else {
            crate::index::law_empty_pool_consistent();
        }
        lemma_replayed_keyed(m.nodes, base, ch.skip(k + 1));
    }
}

/// Every operation of the manager keeps its pools well keyed: a step (whose
/// pool is the previous pool with the stored delta applied, as `advance`
/// leaves it), a fork with or without time travel, and
/// a switch of timelines.
pub proof fn law_pools_stay_keyed(
    m: ManagerView,
    input: DeltaView,
    ids1: Seq<EntityId>,
    ids2: Seq<EntityId>,
    idss: Seq<Seq<EntityId>>,
    r: NodeId,
    description: Seq<char>,
    node_id: NodeId,
    id: TimelineId,
    name: Seq<char>,
)
    requires
        m.pools_keyed(),
    ensures
        ({
            let out = step_outcome(m, input, ids1, ids2, idss);
            m.stepped(
                r,
                m.pool.with_delta(out.1),
                out.1,
                still_pending(m.pending) + queued(input.events),
                description,
            ).pools_keyed()
        }),
        m.branched(node_id, id, name, false).pools_keyed(),
        m.travelled(node_id, id).pools_keyed(),
        m.switched(id).pools_keyed(),
{
    let out = step_outcome(m, input, ids1, ids2, idss);
    let pool1 = m.pool.with_delta(out.1);
    crate::index::law_apply_delta_keeps_keyed(m.pool, out.1);
    let m1 = m.stepped(r, pool1, out.1, still_pending(m.pending) + queued(input.events), description);
    crate::assoc::lemma_assoc_put_entries(m.cache, r, pool1);
    assert forall|i: int| 0 <= i < m1.cache.len() implies (#[trigger] m1.cache[i]).1.well_keyed() by {
        if m.caches_next() {
            if m1.cache[i] != (r, pool1) {
                assert(m1.cache[i] == m.cache[i]);
            }
        }
    }
    law_reconstructed_keyed(m, node_id);
    law_reconstructed_keyed(m, m.timeline(id).nodes.last());
}

} // verus!
