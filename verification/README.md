# npd

Evaluates and builds what a change to nixpkgs touches, and reports which
packages it broke or mended.

- `src/` is the library. Everything it decides is verified with Verus: which
  derivations changed, which of them still have to be built, what a build or a
  binary cache says about them, how evaluations are cut into shards and
  recovered when an evaluator dies, what is kept and read back, and the text of
  the report and of the progress display.
- `app/` is the program: arguments, git, nix, the network, files and SQLite.
- `tests/` runs the library on concrete values.

Facts are kept for good. An observation is appended to a log and never changed;
what the log says of a derivation decides whether it is built again
(`src/model.rs`). A success always wins, a direct failure sticks, and a failure
of a dependency holds only until the dependency heals.
