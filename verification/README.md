# stitchlands

A deterministic colony-simulation core, verified with Verus: fixed-point
numbers, grids and tile indices, typed ids, 8-way A*, scenario loading, the
task/job model (planning, scheduling, job execution), world invariants and
world snapshots.

Layout:

- `src/` — the verified library. Every function carries a `requires`/`ensures`
  contract proved by Verus; the few calls into `rand`, `dashmap` and std that
  Verus has no specification for go through small trusted wrappers, each with a
  doc comment naming the function it calls.
- `tests/` — ordinary Rust tests of the library.
- `app/` — the command-line program: argument parsing (`clap`), reading
  scenarios and snapshots (`ron`, `serde`), the tick loop, and the snapshot
  hash printed at the end of a headless run (`serde_json`).

Laws the library states and proves are public proof functions named `law_*`
(fixed-point arithmetic, occupancy flags, tile indices, snapshots, paths, the
world validator, worlds a scenario load builds, hexadecimal hash text). The path finder's result is stated as
a function of its inputs (`astar_outcome`), so equal inputs give the same walk.
