# round_eliminator

A verified library for round elimination on locally checkable problems.

A problem is given by two constraints: the active side (nodes) and the
passive side (edges). Each constraint is a set of lines (configurations). A
line is a sequence of parts, and each part is a group of labels with an
exponent or a star. The library reads and writes problems, normalizes and
compares lines, and maximizes constraints. It also performs the speedup step
of round elimination, relaxes and hardens problems, renames labels, and
decides triviality and coloring solvability (with and without a given
orientation). It also handles directed problems.

Layout:

- `src/`: the library, written in Verus. Every function carries a contract
  that Verus proves. The calls into `contest-algorithms` (Dinic's maximum
  flow, used to decide line inclusion) and into a few standard-library
  routines go through small trusted wrappers in `flow.rs`, `text.rs` and
  `group.rs`.
- `tests/`: ordinary Rust tests of the library.
- `app/`: a small command-line front end that reads a problem and prints the
  results of the library's operations.
