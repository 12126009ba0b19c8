use evm_pool::{Compressor, KeccakCompressor, Note, NoteTree, VirtualMerkleTree, NOTE_TREE_HEIGHT};
use rand::Rng;

fn hex32(s: &str) -> Note {
    let mut out = [0u8; 32];
    for i in 0..32 {
        out[i] = u8::from_str_radix(&s[2 * i..2 * i + 2], 16).unwrap();
    }
    Note(out)
}

#[test]
fn keccak_compress_hashes_concatenation() {
    let zero = Note([0u8; 32]);
    let node = KeccakCompressor.compress(&zero, &zero);
    assert_eq!(node, hex32("ad3228b676f7d3cd4284a5443f17f1962b36e491b30a40b2405849e597ba5fb5"));
    let mut left = [0u8; 32];
    let mut right = [0u8; 32];
    left[0] = 1;
    right[31] = 2;
    let mut data = left.to_vec();
    data.extend_from_slice(&right);
    let (left, right) = (Note(left), Note(right));
    assert_eq!(KeccakCompressor.compress(&left, &right), Note(alloy_primitives::keccak256(&data).0));
    assert_ne!(KeccakCompressor.compress(&left, &right), KeccakCompressor.compress(&right, &left));
}

#[test]
fn keccak_empty_subtrees() {
    let zero = Note([0u8; 32]);
    assert_eq!(KeccakCompressor::iterated_compression(0), zero);
    assert_eq!(
        KeccakCompressor::iterated_compression(1),
        hex32("ad3228b676f7d3cd4284a5443f17f1962b36e491b30a40b2405849e597ba5fb5")
    );
}

#[test]
fn note_tree_paths_verify() {
    let mut rng = rand::thread_rng();
    let mut tree: NoteTree = VirtualMerkleTree::empty(NOTE_TREE_HEIGHT);
    for _ in 0..9 {
        tree.insert(Note(rng.gen::<[u8; 32]>()));
    }
    let root = tree.root();
    for (i, leaf) in tree.leaves().iter().enumerate() {
        let siblings = tree.path_siblings(i);
        assert_eq!(siblings.len(), NOTE_TREE_HEIGHT);
        assert!(VirtualMerkleTree::verify_leaf(*leaf, &root, i, &siblings, &KeccakCompressor));
        // The side of each sibling matters: the wrong index fails.
        assert!(!VirtualMerkleTree::verify_leaf(*leaf, &root, i ^ 1, &siblings, &KeccakCompressor));
    }
}

#[test]
fn note_tree_pop_a_equals_rebuilt_tree() {
    let mut rng = rand::thread_rng();
    let leaves: Vec<Note> = (0..13).map(|_| Note(rng.gen::<[u8; 32]>())).collect();
    for n in [1usize, 2, 5, 12, 13] {
        let mut tree: NoteTree = VirtualMerkleTree::empty(6);
        for leaf in &leaves {
            tree.insert(*leaf);
        }
        tree.pop_a(n);
        let mut rebuilt: NoteTree = VirtualMerkleTree::empty(6);
        for leaf in &leaves[..leaves.len() - n] {
            rebuilt.insert(*leaf);
        }
        assert_eq!(tree.root(), rebuilt.root());
        assert_eq!(tree, rebuilt);
    }
}

#[test]
fn empty_note_tree_root() {
    let tree: NoteTree = VirtualMerkleTree::empty(3);
    assert_eq!(tree.root(), KeccakCompressor::iterated_compression(3));
}

#[test]
fn notes_compare_by_bytes() {
    let mut a = [7u8; 32];
    let b = Note(a);
    assert_eq!(Note(a), b);
    a[31] = 8;
    assert_ne!(Note(a), b);
    a[31] = 7;
    a[0] = 0;
    assert_ne!(Note(a), b);
}

#[test]
fn note_tree_wrong_root_fails() {
    let mut tree: NoteTree = VirtualMerkleTree::empty(4);
    for i in 0..5u8 {
        tree.insert(Note([i; 32]));
    }
    let siblings = tree.path_siblings(2);
    assert!(VirtualMerkleTree::verify_leaf(Note([2; 32]), &tree.root(), 2, &siblings, &KeccakCompressor));
    let mut bad = tree.root();
    bad.0[0] ^= 1;
    assert!(!VirtualMerkleTree::verify_leaf(Note([2; 32]), &bad, 2, &siblings, &KeccakCompressor));
}
