# merkle_tree

A binary Merkle tree over SHA-256, verified with Verus.

The tree is one array from the root down to the leaves; the children of node
`i` are nodes `2 * i + 1` and `2 * i + 2`. `MerkleTree` takes any number of data
blocks, pads them to a power of two by repeating the last one, and grows by
`add_node`; `Merkle_Tree` takes a power-of-two number of blocks.

- `src/hash.rs`: the SHA-256 digest (the `sha256` crate) and its name in specs.
- `src/model.rs`: the mathematical model: tree shape, padding, proofs along a
  path, and the lemmas about them.
- `src/ops.rs`: building a tree level by level, and climbing along a proof.
- `src/merkle_tree.rs`, `src/fixed_tree.rs`: the two trees.
- `app/main.rs`: a small program that builds, checks and grows a tree.
