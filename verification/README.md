# teehee_extractor

Extracts player input data and game state from DDNet teehistorian recordings
for machine learning: one sequence per player session, split into regions of
uninterrupted gameplay, with a selectable set of 22 per-tick features.

## Layout

- `src/` — the verified library (Verus):
  - `sequence.rs`: ticks, regions, gap detection, region splitting, AFK removal,
    tick-to-index resolution;
  - `world.rs`: per-player region bookkeeping on replay events;
  - `extractor.rs`: practice tracking, team changes, classification of large
    position jumps, map hash checks, and building the sequences;
  - `features.rs`: feature names, groups and selection;
  - `export.rs`: the per-tick and per-region tables the exporters write;
  - `coverage.rs`, `tracking.rs`: proofs that every exported tick belongs to
    exactly one region. This is proved for replays that present their events
    in tick order: the world's tick never moves backwards, each snapshot is
    taken at the world's current tick, and a player is recorded at most once
    per tick (the conditions under which the replay invariant
    `world_keeps_up` is kept); the order in which the replayer in `app/`
    calls the library is not itself verified;
  - `text.rs`, `float_bits.rs`: string helpers and `f32` comparison on bit patterns.
- `app/` — the command line program: reading recordings and maps, running the
  replayer, computing the floating-point feature values, and writing HDF5 and
  Arrow IPC files.
- `tests/` — tests of the library.

Feature values are carried as the bit patterns of their `f32` values.
