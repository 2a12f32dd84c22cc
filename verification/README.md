# slicer

A C program reducer. It shrinks a C source file step by step and keeps a
step only when the reduced program still compiles, behaves as the original
did (same output and exit code) and, optionally, still runs every line the
original ran.

## Layout

- `src/` — the verified library (Verus):
  - `text.rs`, `numbers.rs`: byte- and line-level text functions and decimal
    numbers, with their specifications.
  - `parser/`: the parsed view of a C file (`ParsedUnit`) and the one-pass
    traversal that builds it from a syntax tree handed over as plain values.
  - `engine/`: candidates (`Candidate::apply`), the reduction pipeline, the
    configuration and the coverage counts passes read.
  - `passes/`: the reduction passes, each a function from the source (and
    its parse, coverage or clangd diagnostics) to candidate edits; also the
    framing and reading of clangd's protocol messages.
  - `validator/`: the oracle's decisions (what it learns from the original
    run, the verdict on a reduced run, coverage preservation), gcov and perf
    output readers, compiler arguments and cycle padding.
- `app/` — the `slicer` program: command line, libclang front end, clangd
  process, compiler/gcov/perf processes and file I/O.
- `tests/` — tests of the library.
