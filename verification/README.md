# geng

A verified library for generating graphs in the manner of nauty's `geng`,
written in Verus. The library states its behaviour in `requires` /
`ensures` contracts over mathematical models (`Seq`, `Set`, `Multiset`,
`int`) and Verus proves them.

## Layout

- `src/lib.rs` — the crate root.
- `src/graph6.rs`, `src/gtools/` — the graph6 text format: encoding and
  decoding of graphs, with the round trip proved.
- `src/nauty.rs`, `src/nauty/` — graphs as rows of bits (`BitSet`, over the
  `bitvec` crate), partition nests `(lab, ptn)`, their partitions and
  cells, the connectivity tests, and `nauty`, whose orbits (`src/nauty/orbits.rs`)
  are found by a search over colour-preserving automorphisms proved complete.
- `src/naugraph.rs` — the automorphism test and partition refinement. The
  outcome of `refine` is stated exactly: the state where the steps of
  `refine_step` from `refine_start` end; each step is proved to leave the
  partition equitable relative to its splitting cell.
- `src/nautil.rs` — searching a set for its next element.
- `src/level_data.rs` — the per-level tables of the generator (x-sets sorted
  by size, their inverse and the start of each size).
- `src/geng.rs` — the generator's state and its extension step.
- `src/text.rs`, `src/env.rs`, `src/cli.rs` — text helpers, the generator's
  settings, and its command-line options with the bounds they set for a run.
- `tests/` — tests of the library on concrete values.
- `app/main.rs` — the command-line program: argument parsing with `clap`
  and output.
