# evm_pool

Verified pieces of an EVM that keeps a shielded note pool.

- `merkle_tree`: `VirtualMerkleTree`, an append-only Merkle tree of fixed
  height that stores only the nodes with a leaf below them, and the
  `Compressor` trait it is generic over. `spec` models the levels as
  sequences; `laws` proves that consistent levels hold the Merkle root of
  their leaves, that insertion and `pop_a` keep levels consistent, that a
  tree is determined by its leaves, and that every stored leaf verifies
  against the root with its path of siblings. `runs` states what holds
  after sequences of operations (the height never changes; inserting into
  an empty tree stores exactly the inserted leaves, in order, and each of
  them verifies), and `products` gives the root of a tree whose
  compression multiplies.
- `merkle_tree::note_tree`: the note tree, compressing 32-byte `Note`s with
  Keccak-256 (`alloy-primitives`); notes compare by their bytes.
- `interpreter`, `frame_data`, `primitives`: frame inputs, frame results and
  the gas accounting of the handler.
- `execution`: the first frame of a transaction and the settlement of the
  gas of its last frame.
