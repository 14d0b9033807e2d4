# swansong

Graceful shutdown coordination with a verified core.

A family of shutdown scopes forms a tree: a stop signal propagates down to every
live scope of a subtree, and a scope's shutdown completes once it is stopped and
no guard is left anywhere in its subtree.

- `src/` is the library, verified with Verus:
  - `model.rs`, `counting.rs`: the mathematical model of a tree (one record per
    scope in an arena), subtree guard totals, and the counting lemmas;
  - `tree.rs`: the tree itself — scope creation, stop propagation, guard
    accounting along ancestor chains, handle and waiter accounting, collection of
    scopes nothing holds any more, and the wake-ups each change owes;
  - `accounting.rs`, `propagation.rs`: the model-level facts those proofs use;
  - `wakeups.rs`: what every change of the tree keeps — stop latches stay set,
    and each scope a change stops or completes has its wake-up queued;
  - `handles.rs`: handles onto scopes (`Swansong`, `Guard`, `Guarded`,
    `Interrupt`, `Stop`, `ShutdownCompletion`, `ShuttingDown`);
  - `wait.rs`: the decisions of the polling loops of waiters and stop-aware
    wrappers;
  - `report.rs`: guard reports aggregated by creation site;
  - `counter.rs`: a plain guard counter;
  - `laws.rs`: the laws of the library, proved over the model.
- `app/` shares a tree behind a lock, releases handles on drop, wakes waiters
  with `event-listener`, and implements `Future`, `Stream`, `Iterator` and the
  async I/O traits on top of the library's decisions.
- `tests/` exercise the library on concrete scenarios.
