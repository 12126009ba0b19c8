//! An append-only Merkle tree of fixed height whose absent nodes are
//! "virtual": a missing node stands for the root of an empty subtree, the
//! empty leaf compressed with itself as many times as the subtree is high.

pub mod note_tree;
pub mod laws;
pub mod pop_c_laws;
pub mod products;
pub mod runs;
pub mod spec;

use vstd::prelude::*;
use vstd::arithmetic::power2::pow2;
use vstd::laws_eq::obeys_concrete_eq;
use vstd::std_specs::cmp::PartialEqSpec;

use self::laws::{law_insertion_consistent, law_removal_consistent};
use self::spec::{
    can_insert, can_pop_c, can_trim, count_left_siblings, halve_down, halve_up, is_consistent,
    is_insertion, is_path_update, is_pop_c, is_pop_c_level, is_removal, is_trimmed_level,
    lemma_count_left_siblings_le, lemma_empty_levels_consistent, lemma_halve_down_is_div,
    lemma_halve_down_le, lemma_halve_up_bounds, lemma_path_update_frame, lemma_pop_c_level_frame,
    lemma_pop_c_stop_le, lemma_trimmed_level_frame, needs_left_sibling, path_root, pop_c_len,
    pop_c_stop, pop_c_stop_of, sibling_index, siblings_of, some_odd_count, stores_path,
    virtual_node_of,
};

verus! {

/// A two-to-one compression function on tree nodes, together with the
/// nodes of empty subtrees.
///
/// `iterated_compression(0)` is the empty leaf, and
/// `iterated_compression(n + 1)` is meant to be `compress` applied to two
/// copies of `iterated_compression(n)`: the root of an empty subtree of
/// height `n + 1` (`spec::obeys_iterated_law`).
pub trait Compressor<T>: Eq + Sized {
    /// What `compress` returns. Implementations that are verified give
    /// it; the default stands for an unknown function.
    open spec fn spec_compress(left: T, right: T) -> T {
        vstd::pervasive::arbitrary()
    }

    /// What `iterated_compression(n)` returns: the root of an empty
    /// subtree of height `n`, height 0 being the empty leaf.
    open spec fn spec_iterated(n: nat) -> T {
        vstd::pervasive::arbitrary()
    }

    /// Compresses two sibling nodes into their parent.
    fn compress(&self, left: &T, right: &T) -> (node: T)
        ensures
            node == Self::spec_compress(*left, *right),
    ;

    /// The root of an empty subtree of height `n`.
    fn iterated_compression(n: usize) -> (node: T)
        ensures
            node == Self::spec_iterated(n as nat),
    ;

    /// Builds the compressor.
    fn load() -> Self;
}

/// A Merkle tree of fixed height whose levels store only the nodes that
/// have at least one leaf below them.
#[derive(Clone, Debug, PartialEq, Eq)]
pub struct VirtualMerkleTree<N, C: Compressor<N>> {
    /// `nodes[0]` is the root level, `nodes[height]` the leaves.
    nodes: Vec<Vec<N>>,
    compressor: C,
}

/// `height + 1` empty levels.
fn empty_levels<N>(height: usize) -> (nodes: Vec<Vec<N>>)
    requires
        height < usize::BITS,
    ensures
        nodes@.len() == height + 1,
        forall|l: int| 0 <= l <= height ==> #[trigger] nodes@[l]@.len() == 0,
{
    let mut nodes: Vec<Vec<N>> = Vec::new();
    let mut i: usize = 0;
    while i <= height
        invariant
            i <= height + 1,
            height < usize::BITS,
            nodes@.len() == i,
            forall|l: int| 0 <= l < i ==> #[trigger] nodes@[l]@.len() == 0,
        decreases height + 1 - i,
    {
        nodes.push(Vec::new());
        i = i + 1;
    }
    nodes
}

impl<N, C: Compressor<N>> View for VirtualMerkleTree<N, C> {
    type V = Seq<Seq<N>>;

    /// The stored levels, root level first and leaves last.
    closed spec fn view(&self) -> Seq<Seq<N>> {
        self.nodes@.map_values(|level: Vec<N>| level@)
    }
}

impl<N: Copy + Eq, C: Compressor<N>> VirtualMerkleTree<N, C> {
    /// The shape every tree keeps: at least the root level, and a height
    /// below the machine word size, so that `2^height` fits in a `usize`.
    pub open spec fn inv(&self) -> bool {
        1 <= self@.len() <= usize::BITS
    }

    /// The height of the tree in the model.
    pub open spec fn spec_height(&self) -> nat {
        (self@.len() - 1) as nat
    }

    /// The leaves in the model.
    pub open spec fn spec_leaves(&self) -> Seq<N> {
        self@[self@.len() - 1]
    }

    /// The compressor the tree was built with.
    pub closed spec fn spec_compressor(&self) -> C {
        self.compressor
    }

    /// An empty tree of the given height.
    pub fn empty(height: usize) -> (tree: Self)
        requires
            height < usize::BITS,
        ensures
            tree.inv(),
            tree@.len() == height + 1,
            forall|l: int| 0 <= l <= height ==> #[trigger] tree@[l].len() == 0,
            is_consistent::<N, C>(tree@),
    {
        let nodes = empty_levels(height);
        let tree = VirtualMerkleTree { nodes, compressor: C::load() };
        assert(tree@.len() == height + 1);
        assert forall|l: int| 0 <= l <= height implies #[trigger] tree@[l].len() == 0 by {
            assert(tree@[l] == tree.nodes@[l]@);
        }
        proof {
            lemma_empty_levels_consistent::<N, C>(tree@);
        }
        tree
    }

    /// The number of leaves.
    pub fn num_leaves(&self) -> (n: usize)
        requires
            self.inv(),
        ensures
            n == self.spec_leaves().len(),
    {
        self.leaves().len()
    }

    /// The nodes stored at `level` (0 is the root level).
    pub fn nodes(&self, level: usize) -> (nodes: &[N])
        requires
            self.inv(),
            level < self@.len(),
        ensures
            nodes@ == self@[level as int],
    {
        self.nodes[level].as_slice()
    }

    /// The leaves.
    pub fn leaves(&self) -> (leaves: &Vec<N>)
        requires
            self.inv(),
        ensures
            leaves@ == self.spec_leaves(),
    {
        &self.nodes[self.nodes.len() - 1]
    }

    /// Whether the tree holds `2^height` leaves.
    pub fn is_full(&self) -> (full: bool)
        requires
            self.inv(),
        ensures
            full == (self.spec_leaves().len() == pow2(self.spec_height())),
    {
        let h = self.height();
        proof {
            vstd::bits::lemma_usize_pow2_no_overflow(h as nat);
            vstd::bits::lemma_usize_shl_is_mul(1, h);
        }
        self.leaves().len() == 1usize << h
    }

    /// The height of the tree: the number of levels below the root.
    pub fn height(&self) -> (height: usize)
        requires
            self.inv(),
        ensures
            height == self.spec_height(),
            height < usize::BITS,
    {
        self.nodes.len() - 1
    }

    /// Appends a leaf and recomputes its ancestors up to the root.
    #[verifier::spinoff_prover]
    pub fn insert(&mut self, leaf: N)
        requires
            old(self).inv(),
            old(self).spec_leaves().len() < pow2(old(self).spec_height()),
            can_insert(old(self)@),
        ensures
            final(self).inv(),
            final(self).spec_compressor() == old(self).spec_compressor(),
            is_insertion::<N, C>(old(self)@, leaf, final(self)@),
            is_consistent::<N, C>(old(self)@) ==> is_consistent::<N, C>(final(self)@),
    {
        let ghost old_t = self@;
        let num_leaves = self.num_leaves();
        let h = self.height();
        let mut index = num_leaves;
        let mut node = leaf;
        let mut is_left_child = index % 2 == 0;
        self.nodes[h].push(node);
        let mut level = h;
        assert(self@[h as int] == old_t[h as int].push(leaf));
        while level > 0
            invariant
                self.inv(),
                self.compressor == old(self).compressor,
                self@.len() == old_t.len(),
                h == old_t.len() - 1,
                num_leaves == old_t[h as int].len(),
                num_leaves < pow2(h as nat),
                can_insert(old_t),
                0 <= level <= h,
                index == halve_down(num_leaves as nat, (h - level) as nat),
                is_left_child == (index % 2 == 0),
                index < self@[level as int].len(),
                node == self@[level as int][index as int],
                self@[h as int] == old_t[h as int].push(leaf),
                forall|m: int| 0 <= m < level ==> #[trigger] self@[m] == old_t[m],
                forall|m: int|
                    level <= m < h ==> #[trigger] is_path_update::<N, C>(
                        old_t,
                        self@,
                        m,
                        halve_down(num_leaves as nat, (h - m) as nat) as int,
                    ),
            decreases level,
        {
            proof {
                lemma_halve_down_le(num_leaves as nat, (h - level) as nat);
            }
            let (left_child, right_child) = if is_left_child {
                (node, self.virtual_node_unchecked(level, index + 1))
            } else {
                (self.virtual_node_unchecked(level, index - 1), node)
            };
            node = self.compressor.compress(&left_child, &right_child);
            let ghost child_index = index;
            index = index / 2;
            assert(index == halve_down(num_leaves as nat, (h - (level - 1)) as nat));
            assert(self@[level - 1] == old_t[level - 1]);
            assert(self@[level - 1].len() >= index);
            let ghost prev = self@;
            let ghost prev_nodes = self.nodes@;
            if self.nodes[level - 1].len() == index {
                self.nodes[level - 1].push(node);
                proof {
                    assert(self.nodes@ == prev_nodes.update(level - 1, self.nodes@[level - 1]));
                    assert(self@ =~= prev.update(level - 1, prev[level - 1].push(node)));
                }
            } else {
                self.nodes[level - 1][index] = node;
                proof {
                    assert(self.nodes@ == prev_nodes.update(level - 1, self.nodes@[level - 1]));
                    assert(self@ =~= prev.update(level - 1, prev[level - 1].update(index as int, node)));
                }
            }
            proof {
                let new_t = self@;
                assert forall|m: int| level <= m < h implies #[trigger] is_path_update::<N, C>(
                    old_t,
                    new_t,
                    m,
                    halve_down(num_leaves as nat, (h - m) as nat) as int,
                ) by {
                    lemma_path_update_frame::<N, C>(
                        old_t,
                        prev,
                        new_t,
                        m,
                        halve_down(num_leaves as nat, (h - m) as nat) as int,
                    );
                }
                assert(is_path_update::<N, C>(old_t, new_t, level - 1, index as int)) by {
                    reveal(is_path_update);
                    assert(new_t[level - 1][index as int] == node);
                    assert(virtual_node_of::<N, C>(new_t, level as int, child_index as int) == virtual_node_of::<N, C>(prev, level as int, child_index as int));
                }
            }
            is_left_child = index % 2 == 0;
            level = level - 1;
        }
        proof {
            if is_consistent::<N, C>(old_t) {
                law_insertion_consistent::<N, C>(old_t, leaf, self@);
            }
        }
    }

    /// The empty leaf, for an index below the number of leaves.
    pub fn virtual_leaf(&self, index: usize) -> (leaf: N)
        requires
            self.inv(),
            index < self.spec_leaves().len(),
        ensures
            leaf == C::spec_iterated(0),
    {
        C::iterated_compression(0)
    }

    /// The leaf at `index`.
    pub fn leaf(&self, index: usize) -> (leaf: N)
        requires
            self.inv(),
            index < self.spec_leaves().len(),
        ensures
            leaf == self.spec_leaves()[index as int],
    {
        self.leaves()[index]
    }

    /// The node at `index` of `level`, stored or virtual.
    pub fn virtual_node(&self, level: usize, index: usize) -> (node: N)
        requires
            self.inv(),
            level <= self.spec_height(),
            index < pow2(level as nat),
        ensures
            node == virtual_node_of::<N, C>(self@, level as int, index as int),
    {
        self.virtual_node_unchecked(level, index)
    }

    /// The stored ancestors of leaf `index`, the leaf first and the root
    /// last.
    pub fn path(&self, index: usize) -> (path: Vec<N>)
        requires
            self.inv(),
            index < self.spec_leaves().len(),
            stores_path(self@, index as nat),
        ensures
            path@.len() == self@.len(),
            forall|k: int|
                0 <= k < self@.len() ==> #[trigger] path@[k] == self@[self@.len() - 1 - k][halve_down(
                    index as nat,
                    k as nat,
                ) as int],
    {
        let h = self.height();
        let mut path: Vec<N> = Vec::new();
        let mut idx = index;
        let mut k: usize = 0;
        while k <= h
            invariant
                self.inv(),
                h == self@.len() - 1,
                stores_path(self@, index as nat),
                k <= h + 1,
                idx == halve_down(index as nat, k as nat),
                path@.len() == k,
                forall|m: int|
                    0 <= m < k ==> #[trigger] path@[m] == self@[h - m][halve_down(
                        index as nat,
                        m as nat,
                    ) as int],
            decreases h + 1 - k,
        {
            assert(halve_down(index as nat, k as nat) < self@[h - k].len());
            path.push(self.nodes[h - k][idx]);
            idx = idx / 2;
            k = k + 1;
        }
        path
    }

    /// The siblings of the ancestors of leaf `index`, leaf level first,
    /// stored or virtual; the root has none.
    pub fn path_siblings(&self, index: usize) -> (siblings: Vec<N>)
        requires
            self.inv(),
            index < self.spec_leaves().len(),
        ensures
            siblings@ == siblings_of::<N, C>(self@, index as nat),
    {
        let h = self.height();
        let num_leaves = self.num_leaves();
        let mut siblings: Vec<N> = Vec::new();
        let mut idx = index;
        let mut level = h;
        proof {
            lemma_halve_down_le(index as nat, 0);
        }
        while level > 0
            invariant
                self.inv(),
                h == self@.len() - 1,
                level <= h,
                index < num_leaves,
                idx == halve_down(index as nat, (h - level) as nat),
                idx <= index,
                siblings@.len() == h - level,
                forall|m: int|
                    0 <= m < h - level ==> #[trigger] siblings@[m] == virtual_node_of::<N, C>(
                        self@,
                        h - m,
                        sibling_index(halve_down(index as nat, m as nat)) as int,
                    ),
            decreases level,
        {
            let sibling = idx + 1 - 2 * (idx % 2);
            siblings.push(self.virtual_node_unchecked(level, sibling));
            idx = idx / 2;
            level = level - 1;
        }
        assert(siblings@ =~= siblings_of::<N, C>(self@, index as nat));
        siblings
    }

    /// Whether compressing `leaf` with `path_siblings`, from leaf `index`
    /// upwards, gives `root`.
    pub fn verify_leaf(leaf: N, root: &N, index: usize, path_siblings: &[N], compressor: &C) -> (valid:
        bool)
        ensures
            N::obeys_eq_spec() ==> valid == path_root::<N, C>(
                leaf,
                index as nat,
                path_siblings@,
            ).eq_spec(root),
            obeys_concrete_eq::<N>() ==> (valid == (path_root::<N, C>(
                leaf,
                index as nat,
                path_siblings@,
            ) == *root)),
    {
        let mut node = leaf;
        let mut idx = index;
        let mut k: usize = 0;
        let ghost siblings = path_siblings@;
        assert(siblings.subrange(0, siblings.len() as int) =~= siblings);
        while k < path_siblings.len()
            invariant
                siblings == path_siblings@,
                k <= siblings.len(),
                path_root::<N, C>(node, idx as nat, siblings.subrange(k as int, siblings.len() as int))
                    == path_root::<N, C>(leaf, index as nat, siblings),
            decreases siblings.len() - k,
        {
            let sibling = &path_siblings[k];
            let ghost rest = siblings.subrange(k as int, siblings.len() as int);
            assert(rest.drop_first() =~= siblings.subrange(k + 1, siblings.len() as int));
            node = if idx % 2 == 0 {
                compressor.compress(&node, sibling)
            } else {
                compressor.compress(sibling, &node)
            };
            idx = idx / 2;
            k = k + 1;
        }
        assert(siblings.subrange(k as int, siblings.len() as int) =~= Seq::<N>::empty());
        let valid = node == *root;
        proof {
            if obeys_concrete_eq::<N>() {
                reveal(obeys_concrete_eq);
            }
        }
        valid
    }

    /// The root: the stored root node, or the root of an empty tree.
    pub fn root(&self) -> (root: N)
        requires
            self.inv(),
        ensures
            root == virtual_node_of::<N, C>(self@, 0, 0),
    {
        self.virtual_node_unchecked(0, 0)
    }

    /// Removes every node, leaving an empty tree of the same height.
    pub fn clear(&mut self)
        requires
            old(self).inv(),
        ensures
            final(self).inv(),
            final(self).spec_compressor() == old(self).spec_compressor(),
            final(self)@.len() == old(self)@.len(),
            forall|l: int| 0 <= l < final(self)@.len() ==> #[trigger] final(self)@[l].len() == 0,
            is_consistent::<N, C>(final(self)@),
    {
        let ghost old_len = self@.len();
        let mut l: usize = 0;
        while l < self.nodes.len()
            invariant
                self.inv(),
                self.compressor == old(self).compressor,
                self@.len() == old_len,
                l <= self@.len(),
                forall|m: int| 0 <= m < l ==> #[trigger] self@[m].len() == 0,
            decreases self@.len() - l,
        {
            let ghost prev = self@;
            let ghost prev_nodes = self.nodes@;
            self.nodes[l].clear();
            proof {
                assert(self.nodes@ == prev_nodes.update(l as int, self.nodes@[l as int]));
                assert(self@ =~= prev.update(l as int, Seq::<N>::empty()));
            }
            l = l + 1;
        }
        proof {
            lemma_empty_levels_consistent::<N, C>(self@);
        }
    }

    /// The last leaf, if any.
    pub fn last_leaf(&self) -> (leaf: Option<&N>)
        requires
            self.inv(),
        ensures
            self.spec_leaves().len() == 0 ==> leaf.is_none(),
            self.spec_leaves().len() > 0 ==> leaf == Some(&self.spec_leaves().last()),
    {
        self.leaves().as_slice().last()
    }

    /// Removes the last `n` leaves, trimming every level to the nodes that
    /// keep a leaf below them and recomputing the nodes on the new right
    /// edge.
    #[verifier::spinoff_prover]
    #[verifier::rlimit(60)]
    pub fn pop_a(&mut self, n: usize)
        requires
            old(self).inv(),
            n <= old(self).spec_leaves().len(),
            can_trim(old(self)@, (old(self).spec_leaves().len() - n) as nat),
        ensures
            final(self).inv(),
            final(self).spec_compressor() == old(self).spec_compressor(),
            is_removal::<N, C>(old(self)@, n as nat, final(self)@),
            is_consistent::<N, C>(old(self)@) ==> is_consistent::<N, C>(final(self)@),
    {
        let ghost old_t = self@;
        if n == 0 {
            return;
        }
        let h = self.height();
        let num_leaves = self.num_leaves();
        let count = num_leaves - n;
        if count == 0 {
            self.nodes = empty_levels(h);
            proof {
                if is_consistent::<N, C>(old_t) {
                    law_removal_consistent::<N, C>(old_t, n as nat, self@);
                }
            }
            return;
        }
        proof {
            lemma_halve_up_bounds(count as nat, 0);
        }
        // Collect the stored left siblings of the nodes to recompute, from
        // the leaves upwards.
        let mut left_siblings: Vec<N> = Vec::new();
        let mut remaining = count;
        let mut modified = false;
        let mut i: usize = 0;
        while i < h
            invariant
                self.inv(),
                self.compressor == old(self).compressor,
                self@ == old_t,
                h == old_t.len() - 1,
                1 <= count < num_leaves,
                num_leaves == old_t[h as int].len(),
                can_trim(old_t, count as nat),
                i <= h,
                remaining == halve_up(count as nat, i as nat),
                modified == (i > 0 && some_odd_count(count as nat, (i - 1) as nat)),
                left_siblings@.len() == count_left_siblings(count as nat, i as nat),
                forall|j: int|
                    0 <= j < i && #[trigger] needs_left_sibling(count as nat, j as nat)
                        ==> left_siblings@[count_left_siblings(count as nat, j as nat) as int]
                        == old_t[h - j][halve_up(count as nat, j as nat) - 2],
            decreases h - i,
        {
            proof {
                lemma_halve_up_bounds(count as nat, i as nat);
            }
            assert(old_t[h - i].len() >= remaining);
            let ghost prev_siblings = left_siblings@;
            if remaining % 2 == 0 {
                if modified {
                    left_siblings.push(self.nodes[h - i][remaining - 2]);
                }
            } else {
                modified = true;
            }
            proof {
                assert forall|j: int|
                    0 <= j < i + 1 && #[trigger] needs_left_sibling(count as nat, j as nat)
                        implies left_siblings@[count_left_siblings(count as nat, j as nat) as int]
                        == old_t[h - j][halve_up(count as nat, j as nat) - 2] by {
                    if j < i {
                        lemma_count_left_siblings_le(count as nat, (j + 1) as nat, i as nat);
                        assert(left_siblings@[count_left_siblings(count as nat, j as nat) as int]
                            == prev_siblings[count_left_siblings(count as nat, j as nat) as int]);
                    }
                }
            }
            remaining = (remaining + 1) / 2;
            i = i + 1;
        }
        // Trim every level and recompute the nodes on the new right edge.
        let mut remaining = count;
        let mut modified = false;
        let mut next_sibling: usize = 0;
        let num_siblings = left_siblings.len();
        self.nodes[h].truncate(remaining);
        proof {
            assert(self@ =~= old_t.update(h as int, old_t[h as int].take(count as int)));
        }
        let mut recomputed: Option<N> = if remaining % 2 == 1 {
            Some(self.nodes[h][remaining - 1])
        } else {
            None
        };
        let mut i: usize = 0;
        while i < h
            invariant
                self.inv(),
                self.compressor == old(self).compressor,
                self@.len() == old_t.len(),
                h == old_t.len() - 1,
                1 <= count < num_leaves,
                num_leaves == old_t[h as int].len(),
                can_trim(old_t, count as nat),
                i <= h,
                self@[h as int] == old_t[h as int].take(count as int),
                forall|m: int| h - i <= m < h ==> #[trigger] is_trimmed_level::<N, C>(old_t, self@, m, count as nat),
                forall|m: int| 0 <= m < h - i ==> #[trigger] self@[m] == old_t[m],
                remaining == halve_up(count as nat, i as nat),
                self@[h - i].len() == remaining,
                forall|j: int| 0 <= j < remaining - 1 ==> #[trigger] self@[h - i][j] == old_t[h - i][j],
                modified == (i > 0 && some_odd_count(count as nat, (i - 1) as nat)),
                recomputed == if modified || remaining % 2 == 1 {
                    Some(self@[h - i][remaining - 1])
                } else {
                    None::<N>
                },
                next_sibling == count_left_siblings(count as nat, i as nat),
                num_siblings == left_siblings@.len(),
                left_siblings@.len() == count_left_siblings(count as nat, h as nat),
                forall|j: int|
                    0 <= j < h && #[trigger] needs_left_sibling(count as nat, j as nat)
                        ==> left_siblings@[count_left_siblings(count as nat, j as nat) as int]
                        == old_t[h - j][halve_up(count as nat, j as nat) - 2],
            decreases h - i,
        {
            proof {
                lemma_halve_up_bounds(count as nat, i as nat);
                lemma_halve_up_bounds(count as nat, (i + 1) as nat);
                lemma_count_left_siblings_le(count as nat, (i + 1) as nat, h as nat);
            }
            let ghost prev = self@;
            let l = h - 1 - i;
            recomputed = if remaining % 2 == 1 || modified {
                modified = true;
                let (left, right) = if remaining % 2 == 1 {
                    (recomputed.unwrap(), C::iterated_compression(i))
                } else {
                    assert(needs_left_sibling(count as nat, i as nat));
                    assert(next_sibling < left_siblings@.len());
                    let sibling = left_siblings[next_sibling];
                    next_sibling = next_sibling + 1;
                    (sibling, recomputed.unwrap())
                };
                Some(self.compressor.compress(&left, &right))
            } else {
                None
            };
            remaining = (remaining + 1) / 2;
            assert(old_t[l as int].len() >= remaining);
            let ghost prev_nodes = self.nodes@;
            assert(prev[l as int] == old_t[l as int]);
            assert(prev_nodes[l as int]@ == prev[l as int]);
            self.nodes[l].truncate(remaining);
            proof {
                assert(self.nodes@ == prev_nodes.update(l as int, self.nodes@[l as int]));
                assert(self@ =~= prev.update(l as int, old_t[l as int].take(remaining as int)));
            }
            if recomputed.is_some() {
                let node = recomputed.unwrap();
                let ghost prev2 = self@;
                let ghost prev_nodes2 = self.nodes@;
                self.nodes[l][remaining - 1] = node;
                proof {
                    assert(self.nodes@ == prev_nodes2.update(l as int, self.nodes@[l as int]));
                    assert(self@ =~= prev2.update(l as int, prev2[l as int].update(remaining - 1, node)));
                }
            } else if remaining % 2 == 1 {
                recomputed = Some(self.nodes[l][remaining - 1]);
            }
            proof {
                let new_t = self@;
                assert forall|m: int| h - i <= m < h implies #[trigger] is_trimmed_level::<N, C>(
                    old_t,
                    new_t,
                    m,
                    count as nat,
                ) by {
                    lemma_trimmed_level_frame::<N, C>(old_t, prev, new_t, m, count as nat);
                }
                assert(is_trimmed_level::<N, C>(old_t, new_t, l as int, count as nat)) by {
                    reveal(is_trimmed_level);
                }
            }
            i = i + 1;
        }
        proof {
            if is_consistent::<N, C>(old_t) {
                law_removal_consistent::<N, C>(old_t, n as nat, self@);
            }
        }
    }

    /// Removes the last `n` leaves by a second strategy: it cuts
    /// `(n - 1) / 2^k` nodes from the level `k` above the leaves, pops the
    /// last leaf and one node from each level above while the remaining
    /// count below is even, and then recomputes the last node of every level
    /// from there up to the root.
    ///
    /// Its result is not in general the tree of the remaining leaves: from
    /// the leaves 10, 20, 30 in a tree of height 2, removing two leaves
    /// keeps the node above the removed pair 20, 30 beside the leaf 10,
    /// where the tree of the single leaf 10 has no such node.
    #[verifier::spinoff_prover]
    #[verifier::rlimit(60)]
    pub fn pop_c(&mut self, n: usize)
        requires
            old(self).inv(),
            can_pop_c(old(self)@, n as nat),
        ensures
            final(self).inv(),
            final(self).spec_compressor() == old(self).spec_compressor(),
            is_pop_c::<N, C>(old(self)@, n as nat, final(self)@),
    {
        let ghost old_t = self@;
        let height = self.height();
        if n == 0 {
            return;
        }
        proof {
            vstd::bits::lemma_usize_pow2_no_overflow(height as nat);
            vstd::bits::lemma_usize_shl_is_mul(1, height);
        }
        if n == 1usize << height {
            *self = Self::empty(height);
        }
        // Remove the nodes above the first `n - 1` removed leaves.
        let mut level: usize = 0;
        while level <= height
            invariant
                self.inv(),
                self.compressor == old(self).compressor,
                self@.len() == old_t.len(),
                height == old_t.len() - 1,
                can_pop_c(old_t, n as nat),
                n > 0,
                level <= height + 1,
                forall|m: int|
                    height - level < m <= height ==> #[trigger] self@[m] == old_t[m].take(
                        old_t[m].len() - halve_down((n - 1) as nat, (height - m) as nat),
                    ),
                forall|m: int| 0 <= m <= height - level ==> #[trigger] self@[m] == old_t[m],
            decreases height + 1 - level,
        {
            proof {
                vstd::bits::lemma_usize_pow2_no_overflow(level as nat);
                vstd::bits::lemma_usize_shl_is_mul(1, level);
                lemma_halve_down_is_div((n - 1) as nat, level as nat);
            }
            let nodes_to_remove = (n - 1) / (1usize << level);
            let l = height - level;
            assert(self@[l as int] == old_t[l as int]);
            assert(old_t[l as int].len() >= halve_down((n - 1) as nat, level as nat));
            let to = self.nodes[l].len() - nodes_to_remove;
            let ghost prev = self@;
            let ghost prev_nodes = self.nodes@;
            self.nodes[l].truncate(to);
            proof {
                assert(self.nodes@ == prev_nodes.update(l as int, self.nodes@[l as int]));
                assert(self@ =~= prev.update(l as int, old_t[l as int].take(to as int)));
            }
            level = level + 1;
        }
        let ghost stop = pop_c_stop_of(old_t, n as nat);
        // Pop along the last path while the popped node is a left child.
        let mut leaves_in_prev_level = self.num_leaves() - 1;
        let mut level = height - 1;
        let ghost prev = self@;
        let ghost prev_nodes = self.nodes@;
        assert(halve_down((n - 1) as nat, 0) == n - 1);
        assert(prev[height as int] == old_t[height as int].take(old_t[height as int].len() - (n - 1)));
        assert(prev_nodes[height as int]@ == prev[height as int]);
        self.nodes[height].pop();
        proof {
            assert(self.nodes@ == prev_nodes.update(height as int, self.nodes@[height as int]));
            assert(self.nodes@[height as int]@ =~= old_t[height as int].take(old_t[height as int].len() - n));
            assert(self@ =~= prev.update(height as int, old_t[height as int].take(old_t[height as int].len() - n)));
        }
        while leaves_in_prev_level % 2 == 0 && level > 0
            invariant
                self.inv(),
                self.compressor == old(self).compressor,
                self@.len() == old_t.len(),
                height == old_t.len() - 1,
                can_pop_c(old_t, n as nat),
                n > 0,
                level < height,
                stop == pop_c_stop_of(old_t, n as nat),
                pop_c_stop(leaves_in_prev_level as nat, level as nat) == stop,
                forall|m: int| level < m <= height ==> #[trigger] self@[m] == old_t[m].take(pop_c_len(old_t, n as nat, m)),
                forall|m: int|
                    0 <= m <= level ==> #[trigger] self@[m] == old_t[m].take(
                        old_t[m].len() - halve_down((n - 1) as nat, (height - m) as nat),
                    ),
            decreases level,
        {
            let ghost prev = self@;
            let ghost prev_nodes = self.nodes@;
            proof {
                lemma_pop_c_stop_le((leaves_in_prev_level / 2) as nat, (level - 1) as nat);
                assert(level > stop);
                assert(prev_nodes[level as int]@ == prev[level as int]);
            }
            self.nodes[level].pop();
            proof {
                assert(self.nodes@ == prev_nodes.update(level as int, self.nodes@[level as int]));
                assert(self.nodes@[level as int]@ =~= old_t[level as int].take(pop_c_len(old_t, n as nat, level as int)));
                assert(self@ =~= prev.update(level as int, old_t[level as int].take(pop_c_len(old_t, n as nat, level as int))));
            }
            leaves_in_prev_level = leaves_in_prev_level / 2;
            level = level - 1;
        }
        assert(level == stop);
        proof {
            let t = self@;
            assert forall|m: int| level < m <= height implies #[trigger] is_pop_c_level::<N, C>(
                old_t,
                t,
                n as nat,
                m,
            ) by {
                reveal(is_pop_c_level);
                assert(t[m] == old_t[m].take(pop_c_len(old_t, n as nat, m)));
            }
        }
        // Recompute the last node of each level from here up to the root.
        loop
            invariant_except_break
                forall|m: int| 0 <= m <= level ==> #[trigger] self@[m] == old_t[m].take(pop_c_len(old_t, n as nat, m)),
            invariant
                self.inv(),
                self.compressor == old(self).compressor,
                self@.len() == old_t.len(),
                height == old_t.len() - 1,
                can_pop_c(old_t, n as nat),
                n > 0,
                level <= stop,
                stop == pop_c_stop_of(old_t, n as nat),
                stop < height,
                forall|m: int| level < m <= height ==> #[trigger] is_pop_c_level::<N, C>(old_t, self@, n as nat, m),
            ensures
                self.inv(),
                self@.len() == old_t.len(),
                forall|m: int| 0 <= m <= height ==> #[trigger] is_pop_c_level::<N, C>(old_t, self@, n as nat, m),
            decreases level,
        {
            let ghost prev = self@;
            proof {
                assert(is_pop_c_level::<N, C>(old_t, prev, n as nat, level + 1));
                reveal(is_pop_c_level);
                assert(pop_c_len(old_t, n as nat, level as int) >= 1);
                assert(prev[level as int] == old_t[level as int].take(pop_c_len(old_t, n as nat, level as int)));
            }
            let prev_level_len = self.nodes[level + 1].len();
            let prev_is_left_child = prev_level_len % 2 != 0;
            let (left_child, right_child) = if prev_is_left_child {
                (
                    self.nodes[level + 1][prev_level_len - 1],
                    C::iterated_compression(height - level - 1),
                )
            } else {
                (
                    self.nodes[level + 1][prev_level_len - 2],
                    self.nodes[level + 1][prev_level_len - 1],
                )
            };
            let node = self.compressor.compress(&left_child, &right_child);
            let last = self.nodes[level].len() - 1;
            let ghost prev_nodes = self.nodes@;
            self.nodes[level][last] = node;
            proof {
                assert(self.nodes@ == prev_nodes.update(level as int, self.nodes@[level as int]));
                assert(self@ =~= prev.update(level as int, prev[level as int].update(last as int, node)));
                let new_t = self@;
                assert forall|m: int| level < m <= height implies #[trigger] is_pop_c_level::<N, C>(
                    old_t,
                    new_t,
                    n as nat,
                    m,
                ) by {
                    lemma_pop_c_level_frame::<N, C>(old_t, prev, new_t, n as nat, m);
                }
                assert(is_pop_c_level::<N, C>(old_t, new_t, n as nat, level as int)) by {
                    reveal(is_pop_c_level);
                }
            }
            if level == 0 {
                break;
            }
            level = level - 1;
        }
    }

    /// The node at `index` of `level`, or the root of an empty subtree
    /// where none is stored.
    fn virtual_node_unchecked(&self, level: usize, index: usize) -> (node: N)
        requires
            self.inv(),
            level < self@.len(),
        ensures
            node == virtual_node_of::<N, C>(self@, level as int, index as int),
    {
        let nodes = &self.nodes[level];
        if index < nodes.len() {
            nodes[index]
        } else {
            C::iterated_compression(self.height() - level)
        }
    }
}

} // verus!
