# Xmip Playground

The rules of the Xmip Playground, verified with Verus: who serves which
stage of the message path, which scenarios a roll drives, how the cluster
and node processes read their command lines, what goes between the
processes of a cluster, and what the board and the topology say.

## Layout

- `src/` is the library. Every function there carries a contract that
  Verus proves; the laws that relate several functions are public proof
  functions beside them (`lemma_...`). Each module names what it models in
  its first lines.
- `tests/` runs the library on concrete values.
- `app/` is the edge: the environment, the file system, the processes
  started, and the TOML copies of the library's types. It reads and writes;
  every decision it hands on is the library's.

## Verifying

`verus` is run on `src/lib.rs` as a library crate, with `serde` and `toml`
available to the build.
