//! Laws of step scheduling: the order in which tendencies run, and when queued
//! causal events mature.

use vstd::prelude::*;

use crate::assoc::lemma_filter_member;
use crate::assoc::{as_map, has_key};
use crate::causal::{effects_of, effects_written, EffectView, EventView};
use crate::entity::PoolView;
use crate::delta::DeltaView;
use crate::manager::ManagerView;
use crate::types::{EntityId, NodeId};
use crate::manager::{
    decremented, delay_is_positive, delay_is_zero, event_is_delayed, event_is_immediate, immediate,
    in_priority_order, matured, priority_insert, priority_order, queued, still_pending,
};
use crate::tendency::TendencyView;

verus! {

/// `s` runs by descending priority, equal priorities in increasing index order.
pub open spec fn priority_sorted(s: Seq<int>, prios: Seq<i32>) -> bool {
    forall|a: int, b: int|
        #![trigger s[a], s[b]]
        0 <= a < b < s.len() ==> prios[s[a]] > prios[s[b]] || (prios[s[a]] == prios[s[b]] && s[a] < s[b])
}

/// Inserting an index larger than all others keeps the order sorted and adds
/// exactly that index.
pub proof fn lemma_priority_insert_sorted(s: Seq<int>, k: int, prios: Seq<i32>)
    requires
        priority_sorted(s, prios),
        s.no_duplicates(),
        forall|m: int| 0 <= m < s.len() ==> #[trigger] s[m] < k,
    ensures
        priority_sorted(priority_insert(s, k, prios), prios),
        priority_insert(s, k, prios).len() == s.len() + 1,
        priority_insert(s, k, prios).no_duplicates(),
        forall|x: int| #[trigger] priority_insert(s, k, prios).contains(x) <==> (s.contains(x) || x == k),
    decreases s.len(),
{
    let r = priority_insert(s, k, prios);
    if s.len() == 0 || prios[s.last()] >= prios[k] {
        assert(r == s.push(k));
        assert forall|a: int, b: int|
            #![trigger r[a], r[b]]
            0 <= a < b < r.len() implies prios[r[a]] > prios[r[b]] || (prios[r[a]] == prios[r[b]] && r[a]
                < r[b]) by {
            if b == s.len() {
                assert(r[b] == k);
                assert(r[a] == s[a]);
                if a < s.len() - 1 {
                    assert(prios[s[a]] >= prios[s[s.len() - 1]]);
                }
            } else {
                assert(r[a] == s[a] && r[b] == s[b]);
            }
        }
        assert forall|x: int| #[trigger] r.contains(x) <==> (s.contains(x) || x == k) by {
            if s.contains(x) {
                let j = choose|j: int| 0 <= j < s.len() && s[j] == x;
                assert(r[j] == x);
            }
            if x == k {
                assert(r[s.len() as int] == k);
            }
            if r.contains(x) {
                let j = choose|j: int| 0 <= j < r.len() && r[j] == x;
                if j < s.len() {
                    assert(s[j] == x);
                }
            }
        }
        assert forall|a: int, b: int| 0 <= a < r.len() && 0 <= b < r.len() && a != b implies r[a]
            != r[b] by {
            if a < s.len() && b < s.len() {
                assert(r[a] == s[a] && r[b] == s[b]);
            } else if a < s.len() {
                assert(r[a] == s[a]);
            } else if b < s.len() {
                assert(r[b] == s[b]);
            }
        }
    } else {
        let l = s.last();
        let t = s.drop_last();
        assert forall|a: int, b: int|
            #![trigger t[a], t[b]]
            0 <= a < b < t.len() implies prios[t[a]] > prios[t[b]] || (prios[t[a]] == prios[t[b]] && t[a]
                < t[b]) by {
            assert(t[a] == s[a] && t[b] == s[b]);
        }
        assert forall|m: int| 0 <= m < t.len() implies #[trigger] t[m] < k by {
            assert(t[m] == s[m]);
        }
        assert forall|a: int, b: int| 0 <= a < t.len() && 0 <= b < t.len() && a != b implies t[a] != t[b] by {
            assert(t[a] == s[a] && t[b] == s[b]);
        }
        lemma_priority_insert_sorted(t, k, prios);
        let q = priority_insert(t, k, prios);
        assert(r == q.push(l));
        assert(l < k) by {
            assert(s[s.len() - 1] < k);
        }
        assert forall|j: int| 0 <= j < q.len() implies prios[#[trigger] q[j]] > prios[l] || (prios[q[j]]
            == prios[l] && q[j] < l) by {
            assert(q.contains(q[j]));
            if q[j] != k {
                let i = choose|i: int| 0 <= i < t.len() && t[i] == q[j];
                assert(s[i] == q[j]);
                assert(s[s.len() - 1] == l);
            }
        }
        assert forall|a: int, b: int|
            #![trigger r[a], r[b]]
            0 <= a < b < r.len() implies prios[r[a]] > prios[r[b]] || (prios[r[a]] == prios[r[b]] && r[a]
                < r[b]) by {
            if b == q.len() {
                assert(r[b] == l);
                assert(r[a] == q[a]);
            } else {
                assert(r[a] == q[a] && r[b] == q[b]);
            }
        }
        assert forall|x: int| #[trigger] r.contains(x) <==> (s.contains(x) || x == k) by {
            if r.contains(x) {
                let j = choose|j: int| 0 <= j < r.len() && r[j] == x;
                if j < q.len() {
                    assert(q[j] == x);
                    assert(q.contains(x));
                    if x != k {
                        let i = choose|i: int| 0 <= i < t.len() && t[i] == x;
                        assert(s[i] == x);
                    }
                } else {
                    assert(s[s.len() - 1] == x);
                }
            }
            if s.contains(x) {
                let i = choose|i: int| 0 <= i < s.len() && s[i] == x;
                if i == s.len() - 1 {
                    assert(r[q.len() as int] == x);
                } else {
                    assert(t[i] == x);
                    assert(q.contains(x));
                    let j = choose|j: int| 0 <= j < q.len() && q[j] == x;
                    assert(r[j] == x);
                }
            }
            if x == k {
                assert(q.contains(k));
                let j = choose|j: int| 0 <= j < q.len() && q[j] == k;
                assert(r[j] == k);
            }
        }
        assert(!q.contains(l)) by {
            if q.contains(l) {
                let j = choose|j: int| 0 <= j < q.len() && q[j] == l;
                let i = choose|i: int| 0 <= i < t.len() && t[i] == l;
                assert(s[i] == s[s.len() - 1]);
            }
        }
        assert forall|a: int, b: int| 0 <= a < r.len() && 0 <= b < r.len() && a != b implies r[a]
            != r[b] by {
            if a < q.len() && b < q.len() {
                assert(r[a] == q[a] && r[b] == q[b]);
            } else if a < q.len() {
                assert(r[a] == q[a]);
                assert(q.contains(q[a]));
            } else if b < q.len() {
                assert(r[b] == q[b]);
                assert(q.contains(q[b]));
            }
        }
    }
}

/// The evaluation order of `n` tendencies holds each index `0..n` exactly once,
/// by descending priority, equal priorities in registration order.
pub proof fn law_priority_order(prios: Seq<i32>, n: nat)
    ensures
        priority_order(prios, n).len() == n,
        priority_order(prios, n).no_duplicates(),
        forall|x: int| #[trigger] priority_order(prios, n).contains(x) <==> 0 <= x < n,
        priority_sorted(priority_order(prios, n), prios),
    decreases n,
{
    if n > 0 {
        let s = priority_order(prios, (n - 1) as nat);
        law_priority_order(prios, (n - 1) as nat);
        assert forall|m: int| 0 <= m < s.len() implies #[trigger] s[m] < n - 1 by {
            assert(s.contains(s[m]));
        }
        lemma_priority_insert_sorted(s, n - 1, prios);
    }
}

/// Tendencies run by descending priority: the evaluation order has one entry
/// per registered tendency, and no tendency runs after one of lower priority.
pub proof fn law_tendency_order(ts: Seq<TendencyView>)
    ensures
        in_priority_order(ts).len() == ts.len(),
        forall|a: int, b: int|
            0 <= a < b < ts.len() ==> #[trigger] in_priority_order(ts)[a].priority
                >= #[trigger] in_priority_order(ts)[b].priority,
{
    let prios = ts.map_values(|t: TendencyView| t.priority);
    let o = priority_order(prios, ts.len());
    law_priority_order(prios, ts.len());
    assert forall|a: int, b: int| 0 <= a < b < ts.len() implies #[trigger] in_priority_order(ts)[a].priority
        >= #[trigger] in_priority_order(ts)[b].priority by {
        assert(o.contains(o[a]) && o.contains(o[b]));
        assert(prios[o[a]] == ts[o[a]].priority);
        assert(prios[o[b]] == ts[o[b]].priority);
    }
}

/// A queued event waits with its own delay, which is positive; an event of
/// delay zero is never queued.
pub proof fn law_queued_delays(evs: Seq<EventView>)
    ensures
        forall|j: int|
            0 <= j < queued(evs).len() ==> (#[trigger] queued(evs)[j]).1 == queued(evs)[j].0.propagation_delay
                && queued(evs)[j].1 > 0,
{
    let f = event_is_delayed();
    assert forall|j: int| 0 <= j < queued(evs).len() implies (#[trigger] queued(evs)[j]).1
        == queued(evs)[j].0.propagation_delay && queued(evs)[j].1 > 0 by {
        let e = evs.filter(f)[j];
        assert(evs.filter(f).contains(e));
        lemma_filter_member(evs, f, e);
    }
}

/// One step of waiting: of the pending events, those whose delay is one (or
/// zero) mature in this step, and every other keeps waiting with its delay one
/// lower.
pub proof fn law_one_step_of_waiting(ps: Seq<(EventView, u64)>, e: EventView, d: u64)
    requires
        ps.contains((e, d)),
    ensures
        d <= 1 ==> matured(ps).contains(e),
        d > 1 ==> still_pending(ps).contains((e, (d - 1) as u64)),
        forall|x: (EventView, u64)| #[trigger] still_pending(ps).contains(x) ==> x.1 > 0 && ps.contains(
            (x.0, (x.1 + 1) as u64),
        ),
{
    let dec = decremented(ps);
    let i = choose|i: int| 0 <= i < ps.len() && ps[i] == (e, d);
    let nd: u64 = if d > 0 {
        (d - 1) as u64
    } else {
        0u64
    };
    assert(dec[i] == (e, nd));
    assert(dec.contains((e, nd)));
    lemma_filter_member(dec, delay_is_zero(), (e, nd));
    lemma_filter_member(dec, delay_is_positive(), (e, nd));
    if d <= 1 {
        let z = dec.filter(delay_is_zero());
        let j = choose|j: int| 0 <= j < z.len() && z[j] == (e, nd);
        assert(matured(ps)[j] == e);
    }
    assert forall|x: (EventView, u64)| #[trigger] still_pending(ps).contains(x) implies x.1 > 0 && ps.contains(
        (x.0, (x.1 + 1) as u64),
    ) by {
        lemma_filter_member(dec, delay_is_positive(), x);
        let k = choose|k: int| 0 <= k < dec.len() && dec[k] == x;
        assert(ps[k].1 > 0);
        assert(ps[k] == (x.0, (x.1 + 1) as u64));
    }
}


/// The pending queue after the steps of `qs`: at each step the queue waits one
/// step and the step's newly delayed events are appended.
pub open spec fn waited(ps: Seq<(EventView, u64)>, qs: Seq<Seq<(EventView, u64)>>) -> Seq<(EventView, u64)>
    decreases qs.len(),
{
    if qs.len() == 0 {
        ps
    } else {
        still_pending(waited(ps, qs.drop_last())) + qs.last()
    }
}

/// A pending event with delay `d` is still pending, with delay `d - k`, after
/// `k < d` further steps, whatever events those steps queue meanwhile.
pub proof fn law_delay_counts_down(
    ps: Seq<(EventView, u64)>,
    e: EventView,
    d: u64,
    qs: Seq<Seq<(EventView, u64)>>,
    k: nat,
)
    requires
        ps.contains((e, d)),
        d > 0,
        k < d,
        k <= qs.len(),
    ensures
        waited(ps, qs.take(k as int)).contains((e, (d - k) as u64)),
    decreases k,
{
    if k > 0 {
        law_delay_counts_down(ps, e, d, qs, (k - 1) as nat);
        let prev = waited(ps, qs.take(k - 1));
        law_one_step_of_waiting(prev, e, (d - (k - 1)) as u64);
        assert(qs.take(k as int).drop_last() =~= qs.take(k - 1));
        let sp = still_pending(prev);
        let j = choose|j: int| 0 <= j < sp.len() && sp[j] == (e, (d - k) as u64);
        assert((sp + qs.take(k as int).last())[j] == (e, (d - k) as u64));
    }
}

/// A pending event with delay `d` matures in the `d`-th further step, whatever
/// events the steps before it queue meanwhile.
pub proof fn law_delay_matures(ps: Seq<(EventView, u64)>, e: EventView, d: u64, qs: Seq<Seq<(EventView, u64)>>)
    requires
        ps.contains((e, d)),
        d > 0,
        qs.len() >= d - 1,
    ensures
        matured(waited(ps, qs.take(d - 1))).contains(e),
{
    law_delay_counts_down(ps, e, d, qs, (d - 1) as nat);
    law_one_step_of_waiting(waited(ps, qs.take(d - 1)), e, 1);
}

/// Every entry of `ps` for event `e` waits with delay `c`.
pub open spec fn entries_wait(ps: Seq<(EventView, u64)>, e: EventView, c: int) -> bool {
    forall|x: (EventView, u64)| #[trigger] ps.contains(x) && x.0 == e ==> x.1 == c
}

/// `ps` has no entry for event `e`.
pub open spec fn has_no_entry(ps: Seq<(EventView, u64)>, e: EventView) -> bool {
    forall|x: (EventView, u64)| #[trigger] ps.contains(x) ==> x.0 != e
}

/// One step of waiting when every entry for `e` waits with delay `c > 0` and
/// the step queues no entry for `e`: `e` does not mature unless `c` is one, and
/// afterwards every entry for `e` waits with delay `c - 1`, which is positive.
pub proof fn lemma_entries_step(ps: Seq<(EventView, u64)>, q: Seq<(EventView, u64)>, e: EventView, c: int)
    requires
        c > 0,
        entries_wait(ps, e, c),
        has_no_entry(q, e),
    ensures
        c >= 2 ==> !matured(ps).contains(e),
        forall|x: (EventView, u64)| #[trigger] (still_pending(ps) + q).contains(x) && x.0 == e ==> x.1 == c - 1 && c > 1,
{
    let dec = decremented(ps);
    let z = dec.filter(delay_is_zero());
    if matured(ps).contains(e) {
        let j = choose|j: int| 0 <= j < matured(ps).len() && matured(ps)[j] == e;
        assert(z.contains(z[j]));
        lemma_filter_member(dec, delay_is_zero(), z[j]);
        let k = choose|k: int| 0 <= k < dec.len() && dec[k] == z[j];
        assert(ps.contains(ps[k]));
        assert(ps[k].0 == e);
    }
    assert forall|x: (EventView, u64)| #[trigger] (still_pending(ps) + q).contains(x) && x.0 == e implies x.1 == c - 1
        && c > 1 by {
        crate::delta::lemma_concat_contains(still_pending(ps), q, x);
        lemma_filter_member(dec, delay_is_positive(), x);
        let k = choose|k: int| 0 <= k < dec.len() && dec[k] == x;
        assert(ps.contains(ps[k]));
    }
}

/// The entries for `e` after `k` steps of waiting, when every entry for `e`
/// first waits with delay `d > 0` and no step queues another: each waits with
/// delay `d - k`, and none is left once `k` reaches `d`.
pub proof fn lemma_entries_after(
    ps: Seq<(EventView, u64)>,
    e: EventView,
    d: u64,
    qs: Seq<Seq<(EventView, u64)>>,
    k: nat,
)
    requires
        d > 0,
        entries_wait(ps, e, d as int),
        forall|i: int| 0 <= i < qs.len() ==> has_no_entry(#[trigger] qs[i], e),
        k <= d,
        k <= qs.len(),
    ensures
        forall|x: (EventView, u64)|
            #[trigger] waited(ps, qs.take(k as int)).contains(x) && x.0 == e ==> k < d && x.1 == d - k,
    decreases k,
{
    if k == 0 {
        assert(qs.take(0) =~= Seq::<Seq<(EventView, u64)>>::empty());
    } else {
        lemma_entries_after(ps, e, d, qs, (k - 1) as nat);
        let prev = waited(ps, qs.take(k - 1));
        assert(qs.take(k as int).drop_last() =~= qs.take(k - 1));
        assert(qs.take(k as int).last() == qs[k - 1]);
        lemma_entries_step(prev, qs[k - 1], e, d - (k - 1));
    }
}

/// When an event `e` is pending with delay `d > 0` (every entry for it with that
/// delay) and the following steps queue no other entry for it, it is still
/// pending after each of the next `d - 1` steps, it matures in none of them, it
/// matures in the `d`-th step, and after that step it is no longer pending.
/// With the queue after an `advance` that queued `e` as `ps`, and the events
/// that the following `advance` calls queue as `qs`, this is the schedule of a
/// delayed event: its effects go into the delta of exactly the `d`-th
/// following call.
pub proof fn law_delay_schedule(ps: Seq<(EventView, u64)>, e: EventView, d: u64, qs: Seq<Seq<(EventView, u64)>>)
    requires
        ps.contains((e, d)),
        d > 0,
        entries_wait(ps, e, d as int),
        forall|i: int| 0 <= i < qs.len() ==> has_no_entry(#[trigger] qs[i], e),
        qs.len() >= d,
    ensures
        forall|k: nat| k < d ==> #[trigger] waited(ps, qs.take(k as int)).contains((e, (d - k) as u64)),
        forall|k: nat| k + 1 < d ==> !(#[trigger] matured(waited(ps, qs.take(k as int)))).contains(e),
        matured(waited(ps, qs.take(d - 1))).contains(e),
        forall|x: (EventView, u64)| #[trigger] waited(ps, qs.take(d as int)).contains(x) ==> x.0 != e,
{
    assert forall|k: nat| k < d implies #[trigger] waited(ps, qs.take(k as int)).contains((e, (d - k) as u64)) by {
        law_delay_counts_down(ps, e, d, qs, k);
    }
    assert forall|k: nat| k + 1 < d implies !(#[trigger] matured(waited(ps, qs.take(k as int)))).contains(e) by {
        lemma_entries_after(ps, e, d, qs, k);
        lemma_entries_step(waited(ps, qs.take(k as int)), qs[k as int], e, d - k);
    }
    law_delay_matures(ps, e, d, qs);
    lemma_entries_after(ps, e, d, qs, d as nat);
}

/// An event of delay zero applies in the step that brings it and is never
/// queued.
pub proof fn law_immediate_never_pending(evs: Seq<EventView>, e: EventView)
    requires
        evs.contains(e),
        e.propagation_delay == 0,
    ensures
        immediate(evs).contains(e),
        forall|x: (EventView, u64)| #[trigger] queued(evs).contains(x) ==> x.0 != e,
{
    lemma_filter_member(evs, event_is_immediate(), e);
    law_queued_delays(evs);
    assert forall|x: (EventView, u64)| #[trigger] queued(evs).contains(x) implies x.0 != e by {
        let j = choose|j: int| 0 <= j < queued(evs).len() && queued(evs)[j] == x;
        assert(queued(evs)[j].1 == queued(evs)[j].0.propagation_delay && queued(evs)[j].1 > 0);
    }
}

/// `ms` is a run of `advance` calls: `ms[k + 1]` is `ms[k]` after the call with
/// input `ins[k]` (its random IDs, node and description given by the other lists).
pub open spec fn is_run(
    ms: Seq<ManagerView>,
    ins: Seq<DeltaView>,
    ids1s: Seq<Seq<EntityId>>,
    ids2s: Seq<Seq<EntityId>>,
    idsss: Seq<Seq<Seq<EntityId>>>,
    rs: Seq<NodeId>,
    descs: Seq<Seq<char>>,
) -> bool {
    &&& ms.len() == ins.len() + 1
    &&& ids1s.len() == ins.len()
    &&& ids2s.len() == ins.len()
    &&& idsss.len() == ins.len()
    &&& rs.len() == ins.len()
    &&& descs.len() == ins.len()
    &&& forall|k: int|
        0 <= k < ins.len() ==> ms[k + 1] == ms[k].advance_step(
            #[trigger] ins[k],
            ids1s[k],
            ids2s[k],
            idsss[k],
            rs[k],
            descs[k],
        )
}

/// The delayed events that the calls of `ins` queue, call by call.
pub open spec fn queued_by(ins: Seq<DeltaView>) -> Seq<Seq<(EventView, u64)>> {
    ins.map_values(|d: DeltaView| queued(d.events))
}

/// Over a run of `advance` calls, the events pending before call `k` (for
/// `k >= 1`) are those pending after the first call, waited `k - 1` steps, with
/// the delayed events of calls `1 .. k` queued in turn.
pub proof fn law_run_pending(
    ms: Seq<ManagerView>,
    ins: Seq<DeltaView>,
    ids1s: Seq<Seq<EntityId>>,
    ids2s: Seq<Seq<EntityId>>,
    idsss: Seq<Seq<Seq<EntityId>>>,
    rs: Seq<NodeId>,
    descs: Seq<Seq<char>>,
    k: nat,
)
    requires
        is_run(ms, ins, ids1s, ids2s, idsss, rs, descs),
        1 <= k < ms.len(),
    ensures
        ms[k as int].pending == waited(ms[1].pending, queued_by(ins.skip(1)).take(k - 1)),
    decreases k,
{
    let qs = queued_by(ins.skip(1));
    if k == 1 {
        assert(qs.take(0) =~= Seq::<Seq<(EventView, u64)>>::empty());
    } else {
        law_run_pending(ms, ins, ids1s, ids2s, idsss, rs, descs, (k - 1) as nat);
        let j = k - 1;
        assert(ms[j + 1] == ms[j].advance_step(ins[j], ids1s[j], ids2s[j], idsss[j], rs[j], descs[j]));
        assert(qs.take(k - 1).drop_last() =~= qs.take(k - 2));
        assert(qs.take(k - 1).last() == queued(ins[j].events));
    }
}

/// An entry for `e` matures only if `e` has one.
pub proof fn lemma_no_entry_not_matured(ps: Seq<(EventView, u64)>, e: EventView)
    requires
        has_no_entry(ps, e),
    ensures
        !matured(ps).contains(e),
        has_no_entry(still_pending(ps), e),
{
    let dec = decremented(ps);
    let z = dec.filter(delay_is_zero());
    if matured(ps).contains(e) {
        let j = choose|j: int| 0 <= j < matured(ps).len() && matured(ps)[j] == e;
        assert(z.contains(z[j]));
        lemma_filter_member(dec, delay_is_zero(), z[j]);
        let k = choose|k: int| 0 <= k < dec.len() && dec[k] == z[j];
        assert(ps.contains(ps[k]));
    }
    assert forall|x: (EventView, u64)| #[trigger] still_pending(ps).contains(x) implies x.0 != e by {
        lemma_filter_member(dec, delay_is_positive(), x);
        let k = choose|k: int| 0 <= k < dec.len() && dec[k] == x;
        assert(ps.contains(ps[k]));
    }
}

/// The delay schedule over a run of `advance` calls. Let call 0 bring an event
/// `e` with delay `d >= 1`, with no entry for `e` pending before it and none of
/// calls `1 ..= d` bringing `e` again. Then call 0 applies none of `e`'s effects
/// (it is neither matured nor immediate there); before each of calls `1 .. d`
/// `e` is pending, with delay `d - (k - 1)`, and does not mature; before call
/// `d` it matures, so call `d` writes its effects into its delta ahead of that
/// call's input; and after call `d` it is pending no more.
pub proof fn law_delayed_event_in_run(
    ms: Seq<ManagerView>,
    ins: Seq<DeltaView>,
    ids1s: Seq<Seq<EntityId>>,
    ids2s: Seq<Seq<EntityId>>,
    idsss: Seq<Seq<Seq<EntityId>>>,
    rs: Seq<NodeId>,
    descs: Seq<Seq<char>>,
    e: EventView,
    d: u64,
)
    requires
        is_run(ms, ins, ids1s, ids2s, idsss, rs, descs),
        ins.len() > d,
        d > 0,
        e.propagation_delay == d,
        ins[0].events.contains(e),
        has_no_entry(ms[0].pending, e),
        forall|i: int| 1 <= i <= d ==> !(#[trigger] ins[i]).events.contains(e),
    ensures
        !matured(ms[0].pending).contains(e),
        !crate::manager::immediate(ins[0].events).contains(e),
        forall|k: int| 1 <= k <= d ==> (#[trigger] ms[k]).pending.contains((e, (d - (k - 1)) as u64)),
        forall|k: int| 1 <= k < d ==> !matured((#[trigger] ms[k]).pending).contains(e),
        matured(ms[d as int].pending).contains(e),
        has_no_entry(ms[d + 1].pending, e),
{
    assert(ms[1] == ms[0].advance_step(ins[0], ids1s[0], ids2s[0], idsss[0], rs[0], descs[0]));
    let ps = ms[1].pending;
    lemma_no_entry_not_matured(ms[0].pending, e);
    law_queued_delays(ins[0].events);
    lemma_filter_member(ins[0].events, crate::manager::event_is_immediate(), e);
    // every entry for e after call 0 waits with delay d, and e is among them
    assert(entries_wait(ps, e, d as int)) by {
        assert forall|x: (EventView, u64)| #[trigger] ps.contains(x) && x.0 == e implies x.1 == d by {
            crate::delta::lemma_concat_contains(
                still_pending(ms[0].pending),
                queued(ins[0].events),
                x,
            );
            if queued(ins[0].events).contains(x) {
                let j = choose|j: int| 0 <= j < queued(ins[0].events).len() && queued(ins[0].events)[j] == x;
                assert(queued(ins[0].events)[j].1 == queued(ins[0].events)[j].0.propagation_delay);
            }
        }
    }
    assert(ps.contains((e, d))) by {
        lemma_filter_member(ins[0].events, event_is_delayed(), e);
        let f = ins[0].events.filter(event_is_delayed());
        let j = choose|j: int| 0 <= j < f.len() && f[j] == e;
        assert(queued(ins[0].events)[j] == (e, d));
        crate::delta::lemma_concat_contains(still_pending(ms[0].pending), queued(ins[0].events), (e, d));
    }
    let rest = ins.skip(1);
    let qs = queued_by(rest);
    assert forall|i: int| 0 <= i < qs.len() && i < d implies has_no_entry(#[trigger] qs[i], e) by {
        assert(rest[i] == ins[i + 1]);
        assert(!ins[i + 1].events.contains(e));
        assert forall|x: (EventView, u64)| #[trigger] qs[i].contains(x) implies x.0 != e by {
            let j = choose|j: int| 0 <= j < qs[i].len() && qs[i][j] == x;
            let f = rest[i].events.filter(event_is_delayed());
            assert(f.contains(f[j]));
            lemma_filter_member(rest[i].events, event_is_delayed(), f[j]);
        }
    }
    let qd = qs.take(d as int);
    assert forall|i: int| 0 <= i < qd.len() implies has_no_entry(#[trigger] qd[i], e) by {
        assert(qd[i] == qs[i]);
    }
    law_delay_schedule(ps, e, d, qd);
    assert forall|k: int| 1 <= k <= d implies (#[trigger] ms[k]).pending.contains((e, (d - (k - 1)) as u64)) by {
        law_run_pending(ms, ins, ids1s, ids2s, idsss, rs, descs, k as nat);
        assert(qs.take(k - 1) =~= qd.take(k - 1));
        assert(waited(ps, qd.take((k - 1) as nat as int)).contains((e, (d - (k - 1) as nat) as u64)));
    }
    assert forall|k: int| 1 <= k < d implies !matured((#[trigger] ms[k]).pending).contains(e) by {
        law_run_pending(ms, ins, ids1s, ids2s, idsss, rs, descs, k as nat);
        assert(qs.take(k - 1) =~= qd.take(k - 1));
        assert(((k - 1) as nat) + 1 < d);
        assert(!matured(waited(ps, qd.take((k - 1) as nat as int))).contains(e));
    }
    law_run_pending(ms, ins, ids1s, ids2s, idsss, rs, descs, d as nat);
    assert(qs.take(d - 1) =~= qd.take(d - 1));
    law_run_pending(ms, ins, ids1s, ids2s, idsss, rs, descs, (d + 1) as nat);
    assert(qs.take(d as int) =~= qd);
    assert(qd.take(d as int) =~= qd);
}

/// Tendencies leave an entity marked dead in the step's delta.
pub proof fn lemma_tendencies_keep_kill(
    p: PoolView,
    d: DeltaView,
    ts: Seq<TendencyView>,
    idss: Seq<Seq<EntityId>>,
    x: EntityId,
)
    requires
        d.diff(x).alive_change == Some(false),
    ensures
        crate::manager::tendencies_applied(p, d, ts, idss).1.diff(x).alive_change == Some(false),
    decreases ts.len(),
{
    if ts.len() > 0 {
        lemma_tendencies_keep_kill(p, d, ts.drop_last(), idss.drop_last(), x);
        let prev = crate::manager::tendencies_applied(p, d, ts.drop_last(), idss.drop_last());
        match crate::tendency::generated(ts.last(), prev.0, idss.last()) {
            Some(td) => {
                crate::tendency::law_corrections_keep_alive(ts.last(), prev.0, idss.last());
                crate::delta::lemma_merge_diffs_for(prev.1.modified, td.modified, x);
                assert(td.diff(x).alive_change is None);
                if has_key(td.modified, x) {
                    assert(as_map(td.modified)[x] == td.diff(x));
                }
            },
            None => {},
        }
    }
}

/// Every kill that a step's events carry reaches the delta the step stores:
/// when an event of the input with delay zero, or a pending event that matures
/// in the step, has among its effects the death of entity `x`, the stored delta
/// marks `x` dead; for a matured event this holds unless the input delta itself
/// sets `x`'s alive flag (the input is written after matured effects and wins).
/// Every effect of the event counts, not just its first.
pub proof fn law_step_writes_every_kill(
    m: ManagerView,
    input: DeltaView,
    ids1: Seq<EntityId>,
    ids2: Seq<EntityId>,
    idss: Seq<Seq<EntityId>>,
    e: EventView,
    x: EntityId,
)
    requires
        crate::manager::step_ids_ok(m, input, ids1, ids2, idss),
        input.keyed(),
        e.effects.contains(EffectView::KillEntity { id: x }),
        input.events.contains(e) && e.propagation_delay == 0 || matured(m.pending).contains(e)
            && input.diff(x).alive_change is None,
    ensures
        crate::manager::step_outcome(m, input, ids1, ids2, idss).1.diff(x).alive_change == Some(false),
{
    let kill = EffectView::KillEntity { id: x };
    let j = choose|j: int| 0 <= j < e.effects.len() && e.effects[j] == kill;
    let effs1 = effects_of(matured(m.pending));
    let effs2 = effects_of(immediate(input.events));
    let a = effects_written(DeltaView::empty(), effs1, ids1);
    let b = a.merged(input);
    let pre = crate::manager::pre_delta(m.pending, input, ids1, ids2);
    assert(pre == effects_written(b, effs2, ids2));
    if input.events.contains(e) && e.propagation_delay == 0 {
        lemma_filter_member(input.events, event_is_immediate(), e);
        let i = choose|i: int| 0 <= i < immediate(input.events).len() && immediate(input.events)[i] == e;
        crate::causal::law_effects_of_member(immediate(input.events), i, j);
        crate::causal::law_written_kills(b, effs2, ids2, x);
    } else {
        let i = choose|i: int| 0 <= i < matured(m.pending).len() && matured(m.pending)[i] == e;
        crate::causal::law_effects_of_member(matured(m.pending), i, j);
        crate::causal::law_written_kills(DeltaView::empty(), effs1, ids1, x);
        crate::delta::lemma_merge_diffs_for(a.modified, input.modified, x);
        if has_key(input.modified, x) {
            assert(as_map(input.modified)[x] == input.diff(x));
        }
        assert(b.diff(x).alive_change == Some(false));
        crate::causal::law_written_kills(b, effs2, ids2, x);
    }
    lemma_tendencies_keep_kill(m.pool.with_delta(pre), pre, in_priority_order(m.tendencies), idss, x);
}

} // verus!
