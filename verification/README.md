# evolution_simulator

The verified core of a laboratory that evolves walking creatures. The
library in `src/` is written in Verus: every function carries a contract
(`requires` / `ensures`) over mathematical models (`Seq`, `Set`, `Map`,
integers), and Verus proves each body against it. Public proof functions
state the laws that hold across calls.

What the library decides:

- `evolution`, `repair`, `graph`, `mutation`, `legacy`: body plans (node
  counts, bones as node pairs, muscles as bone pairs), their checks and
  canonical bone order, repair to a connected cycle-free skeleton with a
  muscle ring, structural mutations and crossover, moving older bodies onto
  bones, and the SplitMix64 random streams.
- `qd`, `archive`: archive niches and topologies, morphology hashes, and
  the archive's indices and rules: where an offer lands and what it does
  to the archive, which reserve niche a new body plan takes, how parents
  are drawn, and how a strike turns elites into fossils and they return.
- `breeding`: which candidates a batch replays, the per-emitter tally,
  optimizer slots, and optimizer targets.
- `population`, `lineage`, `storage`, `config`: flat population arenas,
  lineages, experiment bookkeeping and history checks, checkpoint formats
  and archive upgrades, extinctions, settings checks and autosave rotation.
- `headless`: the steps of a run without a window (scoring batch by batch,
  archiving, breeding, checkpoints) and when it stops.
- `scheduler`, `creature_kernel`, `cpu_engine`, `simd`: how creatures are
  ordered, grouped and packed for the evaluation engines.
- `physics`, `search_benchmark`, `text`: resolution settings, morphology
  statistics and settings text.

Physics, floating-point genes, devices and files stay outside: `app/` is a
small command-line front end that reads settings, body plans and lineages,
calls the library and prints its answers, and prints the steps of a run. Tests live in `tests/`.
