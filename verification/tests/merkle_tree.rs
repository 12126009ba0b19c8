use evm_pool::{Compressor, KeccakCompressor, VirtualMerkleTree};
use rand::Rng;

const MULTIPLICATIVE_COMPRESSOR_ITERATED_HASHES: [isize; 5] = [2, 4, 16, 256, 65536];
const ADDMINUS5_COMPRESSOR_ITERATED_HASHES: [isize; 7] = [3, 1, -3, -11, -27, -59, -163];

#[derive(Eq, PartialEq, Debug, Clone)]
struct MultiplicativeCompressor;

impl Compressor<isize> for MultiplicativeCompressor {
    fn compress(&self, left: &isize, right: &isize) -> isize {
        left * right
    }

    fn iterated_compression(n: usize) -> isize {
        *MULTIPLICATIVE_COMPRESSOR_ITERATED_HASHES.get(n).unwrap()
    }

    fn load() -> Self {
        MultiplicativeCompressor
    }
}

#[derive(Eq, PartialEq, Debug, Clone)]
struct AddMinus5Compressor;

impl Compressor<isize> for AddMinus5Compressor {
    fn compress(&self, left: &isize, right: &isize) -> isize {
        left + right - 5
    }

    fn iterated_compression(n: usize) -> isize {
        *ADDMINUS5_COMPRESSOR_ITERATED_HASHES.get(n).unwrap()
    }

    fn load() -> Self {
        AddMinus5Compressor
    }
}

#[test]
fn test_root() {
    let height = 4;

    let mut rng = rand::thread_rng();
    let mut tree = VirtualMerkleTree::<_, MultiplicativeCompressor>::empty(height);

    let mut expected_root = 1 << (1 << height);
    assert_eq!(tree.root(), expected_root);

    for _ in 1..=(1 << height) {
        let mut new_leaf = 0;

        while new_leaf == 0 {
            new_leaf = rng.gen_range(-10..=10);
        }

        tree.insert(new_leaf);

        expected_root = expected_root / 2 * new_leaf;

        assert_eq!(tree.root(), expected_root);
    }
}

#[test]
fn test_path_siblings() {
    let height = 4;

    let mut rng = rand::thread_rng();
    let mut tree: VirtualMerkleTree<isize, AddMinus5Compressor> = VirtualMerkleTree::empty(height);

    (0..(1 << (height - 1))).for_each(|_| {
        let val: isize = rng.gen();
        tree.insert(val / (1 << (height + 1)))
    });

    let root = tree.root();

    for (i, leaf) in tree.leaves().iter().enumerate() {
        let sibling_path = tree.path_siblings(i);
        assert!(VirtualMerkleTree::verify_leaf(
            *leaf,
            &root,
            i,
            &sibling_path,
            &AddMinus5Compressor
        ));
    }
}

fn test_iterated_hashes<T: PartialEq + Clone, C: Compressor<T>>(compressor: C, n: usize) {
    let mut hash: T = C::iterated_compression(0);

    for i in 1..n {
        hash = compressor.compress(&hash, &hash);
        assert!(hash == C::iterated_compression(i));
    }
}

#[test]
fn test_iterated_hashes_mul() {
    test_iterated_hashes(AddMinus5Compressor, 5);
}

#[test]
fn test_iterated_hashes_addminus5() {
    test_iterated_hashes(AddMinus5Compressor, 5);
}

#[test]
fn test_iterated_hashes_keccak() {
    test_iterated_hashes(KeccakCompressor, 42);
}

fn build<C: Compressor<isize>>(height: usize, leaves: &[isize]) -> VirtualMerkleTree<isize, C> {
    let mut tree = VirtualMerkleTree::<isize, C>::empty(height);
    for leaf in leaves {
        tree.insert(*leaf);
    }
    tree
}

#[test]
fn empty_tree_root_is_empty_subtree_root() {
    let tree = VirtualMerkleTree::<isize, AddMinus5Compressor>::empty(4);
    assert_eq!(tree.height(), 4);
    assert_eq!(tree.num_leaves(), 0);
    assert_eq!(tree.root(), -27);
    assert!(!tree.is_full());
    assert_eq!(tree.last_leaf(), None);
    for level in 0..=4 {
        assert!(tree.nodes(level).is_empty());
    }
}

#[test]
fn insert_stores_exact_levels() {
    // Leaves 10, 20, 30 in a tree of height 2 with left + right - 5.
    let tree = build::<AddMinus5Compressor>(2, &[10, 20, 30]);
    assert_eq!(tree.nodes(2), &[10, 20, 30]);
    // 10 + 20 - 5 = 25; 30 + 3 - 5 = 28; 25 + 28 - 5 = 48.
    assert_eq!(tree.nodes(1), &[25, 28]);
    assert_eq!(tree.nodes(0), &[48]);
    assert_eq!(tree.root(), 48);
    assert_eq!(tree.leaf(1), 20);
    assert_eq!(tree.last_leaf(), Some(&30));
    assert_eq!(tree.virtual_node(1, 1), 28);
    assert_eq!(tree.virtual_node(2, 3), 3);
    assert_eq!(tree.virtual_leaf(0), 3);
    assert_eq!(tree.path(2), vec![30, 28, 48]);
    assert_eq!(tree.path_siblings(2), vec![3, 25]);
    assert_eq!(tree.path_siblings(0), vec![20, 28]);
}

#[test]
fn full_tree_reports_full() {
    let tree = build::<AddMinus5Compressor>(2, &[1, 2, 3, 4]);
    assert!(tree.is_full());
    assert_eq!(tree.num_leaves(), 4);
}

#[test]
fn verify_leaf_rejects_wrong_leaf() {
    let tree = build::<AddMinus5Compressor>(3, &[7, 8, 9, 10, 11]);
    let root = tree.root();
    let siblings = tree.path_siblings(3);
    assert!(VirtualMerkleTree::verify_leaf(10, &root, 3, &siblings, &AddMinus5Compressor));
    assert!(!VirtualMerkleTree::verify_leaf(12, &root, 3, &siblings, &AddMinus5Compressor));
}

#[test]
fn clear_gives_empty_tree() {
    let mut tree = build::<AddMinus5Compressor>(3, &[7, 8, 9]);
    tree.clear();
    assert_eq!(tree, VirtualMerkleTree::<isize, AddMinus5Compressor>::empty(3));
    assert_eq!(tree.root(), -11);
}

#[test]
fn pop_a_equals_rebuilt_tree() {
    for height in 0..=4usize {
        for num_leaves in 0..=(1usize << height) {
            let leaves: Vec<isize> = (0..num_leaves as isize).map(|i| 3 * i + 1).collect();
            for n in 0..=num_leaves {
                let mut tree = build::<AddMinus5Compressor>(height, &leaves);
                tree.pop_a(n);
                let rebuilt = build::<AddMinus5Compressor>(height, &leaves[..num_leaves - n]);
                assert_eq!(tree, rebuilt, "height {height}, leaves {num_leaves}, popped {n}");
                assert_eq!(tree.root(), rebuilt.root());
            }
        }
    }
}

#[test]
fn pop_a_then_insert_equals_rebuilt_tree() {
    let mut tree = build::<AddMinus5Compressor>(3, &[1, 2, 3, 4, 5, 6, 7]);
    tree.pop_a(3);
    tree.insert(40);
    tree.insert(50);
    let rebuilt = build::<AddMinus5Compressor>(3, &[1, 2, 3, 4, 40, 50]);
    assert_eq!(tree, rebuilt);
}

#[test]
fn pop_c_recomputes_from_last_remaining_pair() {
    // From leaves 10, 20, 30 in a tree of height 2, popping two leaves
    // keeps the node of the popped right pair and recomputes the root
    // from it.
    let mut tree = build::<AddMinus5Compressor>(2, &[10, 20, 30]);
    tree.pop_c(2);
    assert_eq!(tree.nodes(2), &[10]);
    assert_eq!(tree.nodes(1), &[25, 8]);
    assert_eq!(tree.nodes(0), &[28]);
    // The other strategy gives the tree of the single leaf 10.
    let mut other = build::<AddMinus5Compressor>(2, &[10, 20, 30]);
    other.pop_a(2);
    assert_eq!(other.nodes(1), &[8]);
    assert_eq!(other.root(), 4);
}

#[test]
fn pop_c_single_leaf_matches_rebuilt_tree() {
    let mut tree = build::<AddMinus5Compressor>(3, &[1, 2, 3, 4, 5]);
    tree.pop_c(1);
    let rebuilt = build::<AddMinus5Compressor>(3, &[1, 2, 3, 4]);
    assert_eq!(tree, rebuilt);
    assert_eq!(tree.root(), -13);
}

#[test]
fn pop_zero_changes_nothing() {
    let mut a = build::<AddMinus5Compressor>(3, &[1, 2, 3]);
    let mut c = a.clone();
    a.pop_a(0);
    c.pop_c(0);
    let same = build::<AddMinus5Compressor>(3, &[1, 2, 3]);
    assert_eq!(a, same);
    assert_eq!(c, same);
}

#[test]
fn insert_changes_only_the_new_leaf_path() {
    let height = 4usize;
    let mut tree = build::<AddMinus5Compressor>(height, &[5, 6, 7, 8, 9, 10]);
    for x in [11isize, 12, 13, 14, 15] {
        let before: Vec<Vec<isize>> = (0..=height).map(|l| tree.nodes(l).to_vec()).collect();
        let n = tree.num_leaves();
        tree.insert(x);
        for l in 0..=height {
            let p = n >> (height - l);
            let after = tree.nodes(l);
            let expected_len = if before[l].len() == p { p + 1 } else { before[l].len() };
            assert_eq!(after.len(), expected_len);
            for j in 0..before[l].len() {
                if j != p {
                    assert_eq!(after[j], before[l][j], "level {l}, index {j}");
                }
            }
        }
    }
}

#[test]
fn inserted_leaves_are_stored_in_order() {
    let leaves: Vec<isize> = (0..16).map(|i| 7 * i - 40).collect();
    let mut tree = VirtualMerkleTree::<isize, AddMinus5Compressor>::empty(4);
    for (m, leaf) in leaves.iter().enumerate() {
        tree.insert(*leaf);
        assert_eq!(tree.leaves().as_slice(), &leaves[..m + 1]);
        assert_eq!(tree.nodes(4), &leaves[..m + 1]);
    }
    let root = tree.root();
    for (i, leaf) in leaves.iter().enumerate() {
        let siblings = tree.path_siblings(i);
        assert!(VirtualMerkleTree::verify_leaf(*leaf, &root, i, &siblings, &AddMinus5Compressor));
    }
}

#[test]
fn operations_keep_the_height() {
    let mut tree = build::<AddMinus5Compressor>(3, &[1, 2, 3, 4, 5, 6]);
    assert_eq!(tree.height(), 3);
    tree.pop_a(2);
    assert_eq!(tree.height(), 3);
    tree.insert(9);
    assert_eq!(tree.height(), 3);
    tree.pop_c(1);
    assert_eq!(tree.height(), 3);
    tree.clear();
    assert_eq!(tree.height(), 3);
    assert!(tree.nodes(3).is_empty());
    tree.insert(4);
    assert_eq!(tree.height(), 3);
    assert_eq!(tree.nodes(3), &[4]);
}

#[test]
fn multiplicative_root_is_product_of_leaves() {
    // With left * right and the empty leaf 2, the root of a tree of
    // height 3 is the product of the leaves times 2 for each empty leaf.
    let leaves = [3isize, -2, 5, 7, -1];
    let mut tree = VirtualMerkleTree::<isize, MultiplicativeCompressor>::empty(2);
    assert_eq!(tree.root(), 16);
    let mut product = 1isize;
    for (m, leaf) in leaves[..4].iter().enumerate() {
        tree.insert(*leaf);
        product *= leaf;
        assert_eq!(tree.root(), product * (1 << (4 - m - 1)));
    }
}

#[test]
fn pop_a_undoes_insert() {
    for count in 0..8usize {
        let leaves: Vec<isize> = (0..count as isize).map(|i| 5 * i - 3).collect();
        let before = build::<AddMinus5Compressor>(3, &leaves);
        let mut tree = before.clone();
        tree.insert(99);
        tree.pop_a(1);
        assert_eq!(tree, before, "{count} leaves");
    }
}
