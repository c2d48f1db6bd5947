# lifes_progress

The discrete core of the Life's Progress simulation framework, written in
Verus and verified against its contracts.

- `src/` — the verified library: L-System rule tables, rewriting and
  generation (`lsystem`, `grammar`, `generator`); the turtle program behind
  L-System interpretation (`interpreter`); thermal-equilibrium groups and
  their transitive closure (`equilibrium`); frequency tables for entropy and
  mutual information (`frequencies`); the energy ledger's bounded history
  (`ledger`); deterministic pair-once iteration (`pairwise`); Barnes-Hut
  quadrant numbering (`quadtree`); wave-grid indexing and sweep chunks
  (`wave_grid`); save-file versions and the check of a save's text before
  it is loaded (`versioning`, `text`).
- `app/` — ordinary Rust around it: the floating-point geometry, measures,
  energy quantities and totals, entropy, fields, mechanics, wave solutions
  and solvers, the ECS components and plugins for them, and file loading and
  saving.
- `tests/` — tests of the library on concrete values.

Entities are identified in the library by the 64-bit value of their id, and
L-System rules are keyed by the Unicode scalar value of their symbol.
