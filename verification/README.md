# mobius

An autonomous experiment loop for tuning machine-learning pipelines: it
proposes a configuration, runs it, scores the outcome, learns from it, and
decides whether to go on, switch strategy or stop.

## Layout

- `src/` is the library, written in Verus. Every function in it carries a
  `requires`/`ensures` contract that Verus proves: the search strategies
  (grid, random, gradient-guided, Hyperband, ASHA and median pruning), the
  agent's stop/continue decisions, the Pareto front and non-dominated
  sorting, error classification, shell quoting for remote runs, the
  benchmark matcher and scorers, and the parsers for metric output.
  Metrics enter the library as integer order keys (`sorting::order_key`):
  two numbers that are not NaN compare as their keys do, and every
  comparison the library makes is false when either side is NaN, as
  IEEE 754 comparison is.
  Calls into `regex`, `serde_json`, `rand` and `owo-colors` sit behind small
  trusted wrappers whose doc comments state what is assumed of them.
- `app/` is the command-line program and MCP server around the library:
  argument handling, file and process I/O, SQLite storage, the dashboard,
  and the strategies whose arithmetic is floating point (TPE, CMA-ES, PBT,
  crowding distance, parameter importance).
- `tests/` runs the library against concrete inputs.

Verify the library with `verus src/lib.rs --crate-type lib`; build and test
with Cargo.
