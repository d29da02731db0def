# mvht

A multi-version hash tree over an append-only byte store, verified with Verus.

Each value that is appended becomes a leaf. With it come the inner nodes that complete the tree, so
that every earlier version of the tree stays on the storage and keeps its root hash.

- `src/algorithm.rs`: the shape of the tree
- `src/hash.rs`, `src/endian.rs`, `src/text.rs`: hash values, little-endian numbers, texts
- `src/storage.rs`, `src/memory.rs`: storages and cursors, and the storage in memory
- `src/model.rs`, `src/entry.rs`, `src/search.rs`: nodes, the format of entries, the search
- `src/mvht.rs`: the tree with its operations
- `src/roundtrip.rs`, `src/tree.rs`, `src/laws.rs`: the tree as a function of its values, and what
  holds of it as a whole
- `app/`: files and shared memory as storages
