# xuehua

The verified core of Xuehua, a build system and package manager: the NAR
archive format, the incremental query engine, error reports and their
renderers, and the build engine's planner and scheduler. Verus proves every
function in `src/` against its contract (several adapter and constructor
methods state nothing beyond their type). The few calls into `petgraph`,
`blake3`, `owo-colors` and std that are not verified go through small
wrappers marked `external_body`, whose contracts are trusted.

- `src/nar`: the NAR stream model, its encoder and decoder, and the laws
  that decoding and encoding undo each other.
- `src/query`: memo bookkeeping, the dependency-graph walk of a query,
  databases and their eviction.
- `src/reports`: reports, frames, the simple, JSON and pretty renderers,
  and the tracing layer's assembly of events into reports.
- `src/engine`: package names and link times, the planner's registry and
  frozen plans (kept in a `petgraph` acyclic graph), package identities
  (BLAKE3), the build scheduler and the bubblewrap command line.
- `app/`: what does I/O or needs outside traits around the library:
  running `bwrap`, the query and build loops, logging, JSON output, and
  the fingerprinting and postcard persistence adapters (they rest on the value type's
  own `Hash` and serde impls).
- `tests/`: tests of the library on concrete values.

Where the engine keeps a collection that Verus cannot see into, the library
holds a plain one with its invariant stated: the planner's registry of
names, the `InMemory` database and the `LRU` usage table are `Vec`
association lists in which each key occurs once, and the scheduler's state
graph and its depth-first search are replaced by per-node tables and a
verified reachability walk over the frozen plan's edges.
