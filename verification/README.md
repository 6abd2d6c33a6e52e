# lsif_indexer

A code index for source trees: symbols, the edges between them (definitions,
references, calls, containment, type relations), queries over that graph, and
the bookkeeping that keeps an index up to date as files change.

- `src/` is the library, written in Verus. Every function carries a contract
  over a mathematical model of its data (`Seq`, `Map`, spec functions and
  views), and the laws of the library stand as public proof functions named
  `law_*`. Calls into `petgraph`, `regex` and `xxhash-rust` go through small
  trusted wrappers whose contracts are stated beside them.
- `tests/` runs the library on concrete values.
- `app/` is the command-line program around the library: argument parsing,
  file system and git access, the on-disk store (`sled` with `bincode`), and
  the serde forms of the library's types.
