# turbosloth

Memoized, dependency-tracking lazy evaluation, with its core verified in Verus.

A *worker* computes a value; wrapping it in a lazy handle defers the computation. When a
handle is evaluated against a cache, the cache looks up a *payload* for the worker's
identity (a WyHash digest of what its `Hash` impl writes, fed to the hasher one write at a
time) and value type. Equal workers share one payload, so a worker runs once and its
artifact is reused. While a worker runs, every payload it evaluates is recorded as a
dependency (one per worker identity), and the payload is recorded among each added
dependency's readers. Invalidating a payload marks it, and every alive payload that read
it directly or transitively, for rebuilding; on a cycle of readers invalidation would
never end, and the library refuses it. Liveness is reference counting: a payload stays
alive while a handle, a running evaluation or an evaluation tracker refers to it, or while
an alive payload read it, so payloads that read each other keep each other alive; once it
is freed, it drops its artifact and the references it held, and the next request for the
same worker builds a fresh payload.

## Layout

- `src/` — the verified library.
  - `cache.rs`: `Cache`, the payload graph and its invariant (`wf`); connecting
    (`get_or_insert_with`), references (`acquire`, `release`), liveness, invalidation, and
    completing a build (`finish_eval`).
  - `lazy.rs`: payloads, build records, `Lazy` handles and `OpaqueLazy`, `RunContext`,
    `EvalTracker`, invalidation triggers, and `Lazy::begin_eval`, the decision step of an
    evaluation.
  - `reach.rs`: walks and reachability, with the lemmas that a closed marking contains
    everything reachable.
  - `node_set.rs`: membership, difference and removal on lists of payload ids.
  - `identity.rs`: worker identities (the one call into `wyhash`).
  - `laws.rs`: properties of every well-formed cache.
- `tests/` — executable scenarios for the library.
- `app/` — the asynchronous front end: the `LazyWorker` trait, type-erased artifacts,
  locking, `Drop`-based reference counting and the evaluation future, all driving the
  verified core.
