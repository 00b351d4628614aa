# art

An adaptive radix tree in Rust, verified with Verus. It maps byte strings to documents.

- `src/art.rs` has the map: `new`, `root`, `len`, `is_empty`, `insert`, `remove`, `get`, and the tests
  `can_insert`, `can_get` and `can_remove` of what these ask of a key.
- `src/pointer.rs` has what a slot of the tree can hold, and `src/node1.rs` to `src/node256.rs`
  have the nodes of the five sizes.
- `src/tree.rs` says when a tree is well formed and which keys it holds. `src/shape.rs` says which
  tree comes of an insertion or a removal.
- `src/laws.rs` has what holds of the map as a whole.

A tree cannot hold two keys of which one begins with the other: such keys clash. An insertion asks
that its key clashes with none in the map.
