# propsim

Property-based testing for distributed protocols: one backend-neutral test
plan, run on a deterministic in-process simulator and judged by white-box
properties and by history oracles such as Porcupine-style linearizability.

The library under `src/` is written in Verus. Its functions carry contracts
that Verus proves, except a small set of trusted items: the wrappers around
`std::time::Duration`, `str`/`String` conversion, `char::from_u32`, `Debug`
formatting and `proptest`'s seeded sampling, whose contracts restate what
those functions document and are believed rather than proved.

## Layout

- `src/history/` — the Jepsen-shaped operation history: entries and values,
  the EDN and JSON readers and writers, and the proofs that what the writers
  emit reads back unchanged (values and whole histories).
- `src/linearizability.rs` — span pairing over a history and the
  linearization search; a `true` answer always comes with a linearization,
  and a `false` one means that none exists whenever the model's `init` and
  `step` are functions of their arguments and its state's `==` is equality
  (as for a `u64` state).
- `src/sim/` — the simulator's scheduling core (event order, message
  delivery under the network model, timers, crash/restart, the operation
  record), fault lowering, property evaluation over a world trace, the
  seeded generator, and workload sampling.
- `src/backend.rs`, `src/needs.rs` — capability negotiation.
- `src/seed.rs`, `src/faults.rs`, `src/transport.rs`, `src/scenario.rs`,
  `src/plan.rs`, `src/oracle.rs`, `src/executor.rs` — the authoring and
  reporting vocabulary.
- `app/` — plain Rust around the library: the node and context traits
  protocol authors implement, plugin traits for executors and oracles, the
  plan builder, the engine loop that runs user callbacks, presets, and JSON
  persistence of scenarios.
- `tests/` — the test suite, run against the compiled library.
