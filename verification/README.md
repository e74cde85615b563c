# query-lang

An incremental computation engine: a database that caches
the results of derived queries, records what each result was read from, and
recomputes only what a change actually affects.

- A `System` defines the queries: a `Key` type, a `Value` type, and a `compute`
  that derives a value, reading what it needs through `Runtime::get`.
- A `Database` holds the system, the inputs set with `set`, and the cache of
  derived results that `get` fills. Every resolution is a hit, a validation
  (early cutoff) or a computation, counted in `Stats`.
- A `Revision` clock advances each time an input takes a new value.
- A system may state what its `compute` computes (`spec_compute`), and may
  rank its keys so that each `compute` reads only keys of lower rank
  (`rank`). The contract of `compute` says what such a system's `compute`
  must do; for a system that keeps it, the cache equals a cold build and
  every query resolves.

## Layout

- `src/model.rs`: the abstract engine state (`RuntimeView`) and the predicates
  the contracts are written in: what a set does, what a resolution may change,
  and when the cache is consistent with the function a system computes.
- `src/runtime.rs`: the engine itself (`Runtime`): inputs, memos, dependency
  records, validation, recomputation and cycle detection, with its proofs.
- `src/database.rs`: the public `Database`, whose type invariant is that no
  query is in progress between calls and that the cache stays consistent.
- `src/system.rs`: the `System` trait and the contract of `compute`.
- `src/laws.rs`: the properties of the library as a whole, as proof functions.
- `src/revision.rs`, `src/stats.rs`, `src/error.rs`, `src/text.rs`: the clock,
  the counters, the error and their text renderings.
- `app/`: serde-enabled copies of `Revision` and `Stats`, and the standard
  error traits for `QueryError`.
