//! Verified building blocks of an EVM with a shielded note pool: an
//! append-only virtual Merkle tree of notes with its Keccak-based
//! compressor, the interpreter's frame inputs and results, and the
//! handler's first-frame selection and last-frame gas settlement.

pub mod execution;
pub mod frame_data;
pub mod interpreter;
pub mod merkle_tree;
pub mod primitives;

pub use merkle_tree::note_tree::{KeccakCompressor, Note, NoteTree, NOTE_TREE_HEIGHT};
pub use merkle_tree::{Compressor, VirtualMerkleTree};
