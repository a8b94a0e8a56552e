# timeline_system

A lightweight, embeddable timeline engine, verified with Verus.

- An **entity pool** holds the world: entities with a kind, properties, roles,
  relationships (at most `DUNBAR_NUMBER` each) and a liveness flag, plus a role
  index for vacancy queries.
- Every change is a **delta** (entities added, per-entity diffs, entities
  removed, causal events). `EntityPool::apply_delta` is the single mutation point.
  Merging deltas lets the later change win (a later set, addition or grant
  overrides an earlier removal).
- A **timeline manager** records each step as an immutable node holding only
  its delta; it branches, time-travels (a new branch, the source untouched) and
  rebuilds the state at any node from the nearest cached snapshot. The live
  state after a step is the previous state with the stored delta applied, so
  replaying the stored deltas from the root always rebuilds it, and the cache
  only saves work.
- **Causal events** apply at once or after a delay; **tendencies** run after
  each step by descending priority and correct the world, each firing with the
  probability given by its strength.

## Layout

- `src/` — the verified library. Each function carries a contract over
  mathematical views (`PoolView`, `DeltaView`, `ManagerView`, ...).
  - `assoc`, `keyed`, `text`, `value`: association lists, keyed containers,
    string sets, dynamic values.
  - `entity`, `delta`, `causal`, `tendency`, `node`, `timeline`, `manager`:
    the engine.
  - `history`, `schedule`, `index`, `merge`, `compose`: proved laws — the
    recorded history stays a tree, past states never change, a node's
    reconstruction is its parent's with its delta applied and equals replay
    from the root, tendencies run by priority, a delayed event matures in
    exactly the step its delay names, the role index stays exact,
    relationship lists stay within the Dunbar number, and merged deltas replay
    like the deltas they merge (when the later one does not undo the earlier).
  - `types`: identifiers (128-bit UUID values) and the two calls into `uuid`.
- `tests/` — integration tests.
- `app/` — serialisable copies of the data types (serde), with conversions.

Identifiers are `u128`; floating-point values (a property's `Float`, a
tendency's strength) are kept as their IEEE-754 bit patterns.
