# clipasm

Verified building blocks of the ClipAsm compiler (ClipAsm is a typed,
stack-based language for Video and Audio graphs), written in Verus: the
functions under `src/` carry `requires`/`ensures` contracts that Verus proves.

The crate covers the compiler's back half and its supporting rules: stack
planning, root bindings, scalar-operator typing, the type-inference arena,
ordering of source units and value graphs, Video-domain inference, cycle
detection, and assembly of the compiled program from an evaluated graph. It
does not contain a parser, the source syntax tree, the checking and evaluation
of source programs, or semantic fingerprinting; `finalize` takes the structure
hash as an input, and no `compile` entry point exists. Two small wrappers over the
standard library (`String::push` in `text.rs`, `Path::components` in
`cli/init.rs`) are trusted rather than proved.

## Layout

- `src/model.rs`, `src/source.rs`, `src/semantic.rs`, `src/program.rs`: values,
  source locations, graph nodes and program signatures.
- `src/diagnostic.rs`, `src/contracts.rs`: diagnostics and the catalog of
  machine-readable contracts.
- `src/compiler/`: the compiler phases listed above.
  - `link.rs` orders the units of a source package, imports first.
  - `check.rs` keeps the local names of a body and checks the dependencies among
    named values whose types are inferred.
  - `stack.rs`, `entrypoint.rs`, `parameter.rs`, `typecheck.rs` (with the
    union-find arena in `typecheck/arena.rs`): stack planning, root bindings,
    scalar parameters and type inference.
  - `traversal.rs` orders a value graph so that dependencies come first;
    `domain.rs` infers video domains along that order; `finalize.rs` checks
    references and cycles among named values and assembles the compiled program.
  - `dfs.rs` holds the invariant of the iterative depth-first search shared by
    `link.rs`, `check.rs` and `finalize.rs`.
- `src/cli.rs`, `src/cli/`: the command line's own rules (bindings, terminal-safe
  text, manifests, render settings, `init` decisions).
- `app/`: the `clipasm` command line around the library: argument parsing, file
  system access and printing.
- `tests/`: tests of the library on concrete values.
