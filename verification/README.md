# depcheck

`cargo depcheck` ranks a Cargo project's dependencies by risk: RustSec
advisories, how far each crate lags its latest stable release, how long ago it
was last published, and how much of the graph leans on it.

The crate is written in Verus.

- `src/` is the library, verified. Every public function carries a contract
  over a mathematical model of its data: the dependency graph and its
  breadth-first depths, the score of each signal and their combination, the
  selection and ranking of findings, baselines and the exit-code policy, the
  lockfile diff, the upgrade state machine, and every report format (terminal,
  JSON, SARIF, Markdown) as text. Proof functions state the laws that span
  several functions.
- `app/` is the program around it: argument parsing, running `cargo metadata`
  and `cargo update`, fetching the sparse index and the advisory database,
  serialising the documents the library builds, and printing.
- `tests/` runs the library on concrete values.
