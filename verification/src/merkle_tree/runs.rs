//! Properties of sequences of operations on a tree: what holds after any
//! number of insertions, removals and clears.

use vstd::prelude::*;
use vstd::arithmetic::power2::pow2;

use super::laws::{law_insertion_consistent, law_path_siblings_verify};
use super::spec::{
    halve_down, is_consistent, is_insertion, is_path_update, is_pop_c, is_removal,
    lemma_empty_levels_consistent, path_root, siblings_of, virtual_node_of,
};
use super::Compressor;

verus! {

/// One operation that changes a tree: the methods `insert`, `pop_a`,
/// `pop_c` and `clear`.
pub enum TreeOp<T> {
    Insert(T),
    PopA(usize),
    PopC(usize),
    Clear,
}

/// `new` is what operation `op` leaves of the levels `old`, as the
/// contract of the method that performs it states.
pub open spec fn is_step<T, C: Compressor<T>>(old: Seq<Seq<T>>, op: TreeOp<T>, new: Seq<Seq<T>>) -> bool {
    match op {
        TreeOp::Insert(leaf) => is_insertion::<T, C>(old, leaf, new),
        TreeOp::PopA(n) => is_removal::<T, C>(old, n as nat, new),
        TreeOp::PopC(n) => is_pop_c::<T, C>(old, n as nat, new),
        TreeOp::Clear => {
            &&& new.len() == old.len()
            &&& forall|l: int| 0 <= l < new.len() ==> #[trigger] new[l].len() == 0
        },
    }
}

/// `trees[i + 1]` is what `ops[i]` leaves of `trees[i]`, for every
/// operation in turn.
pub open spec fn is_run<T, C: Compressor<T>>(ops: Seq<TreeOp<T>>, trees: Seq<Seq<Seq<T>>>) -> bool {
    &&& trees.len() == ops.len() + 1
    &&& forall|i: int| 0 <= i < ops.len() ==> #[trigger] is_step::<T, C>(trees[i], ops[i], trees[i + 1])
}

/// The operations that insert `leaves`, in order.
pub open spec fn insertions<T>(leaves: Seq<T>) -> Seq<TreeOp<T>> {
    leaves.map_values(|leaf: T| TreeOp::Insert(leaf))
}

/// Levels that are all empty: the tree `empty` builds.
pub open spec fn is_empty_tree<T>(t: Seq<Seq<T>>) -> bool {
    &&& 1 <= t.len()
    &&& forall|l: int| 0 <= l < t.len() ==> #[trigger] t[l].len() == 0
}

/// No operation changes the height: after any run of insertions,
/// removals and clears, the tree has as many levels as it started with.
pub proof fn law_run_keeps_height<T, C: Compressor<T>>(ops: Seq<TreeOp<T>>, trees: Seq<Seq<Seq<T>>>)
    requires
        is_run::<T, C>(ops, trees),
    ensures
        forall|i: int| 0 <= i < trees.len() ==> #[trigger] trees[i].len() == trees[0].len(),
    decreases ops.len(),
{
    if ops.len() > 0 {
        let k = ops.len() - 1;
        law_run_keeps_height::<T, C>(ops.take(k), trees.take(k + 1));
        assert forall|i: int| 0 <= i < trees.len() implies #[trigger] trees[i].len() == trees[0].len() by {
            if i <= k {
                assert(trees.take(k + 1)[i] == trees[i]);
                assert(trees.take(k + 1)[0] == trees[0]);
            } else {
                assert(is_step::<T, C>(trees[k], ops[k], trees[k + 1]));
                assert(trees.take(k + 1)[k] == trees[k]);
                assert(trees.take(k + 1)[0] == trees[0]);
            }
        }
    }
}

/// Inserting `leaves` one after the other into an empty tree stores
/// exactly the leaves inserted so far, in insertion order, after each
/// insertion; while they fit, every tree on the way is consistent.
pub proof fn law_insertions_from_empty<T, C: Compressor<T>>(leaves: Seq<T>, trees: Seq<Seq<Seq<T>>>)
    requires
        is_run::<T, C>(insertions(leaves), trees),
        is_empty_tree(trees[0]),
    ensures
        forall|i: int| 0 <= i < trees.len() ==> #[trigger] trees[i].len() == trees[0].len(),
        forall|i: int|
            0 <= i < trees.len() ==> #[trigger] trees[i][trees[0].len() - 1] == leaves.take(i),
        leaves.len() <= pow2((trees[0].len() - 1) as nat) ==> forall|i: int|
            0 <= i < trees.len() ==> #[trigger] is_consistent::<T, C>(trees[i]),
    decreases leaves.len(),
{
    let h = trees[0].len() - 1;
    let ops = insertions(leaves);
    if leaves.len() == 0 {
        assert(trees[0][h].len() == 0);
        assert(trees[0][h] =~= leaves.take(0));
        assert(ops.len() == 0);
        assert(trees.len() == 1);
        lemma_empty_levels_consistent::<T, C>(trees[0]);
    } else {
        let k = leaves.len() - 1;
        let prefix = leaves.take(k);
        let front = trees.take(k + 1);
        assert(insertions(prefix) =~= ops.take(k));
        assert forall|i: int| 0 <= i < k implies #[trigger] is_step::<T, C>(
            front[i],
            insertions(prefix)[i],
            front[i + 1],
        ) by {
            assert(is_step::<T, C>(trees[i], ops[i], trees[i + 1]));
        }
        law_insertions_from_empty::<T, C>(prefix, front);
        let last = trees[k];
        assert(front[k] == last);
        assert(front[0] == trees[0]);
        assert(last.len() == trees[0].len());
        assert(is_step::<T, C>(trees[k], ops[k], trees[k + 1]));
        assert(ops[k] == TreeOp::Insert(leaves[k]));
        assert(is_insertion::<T, C>(last, leaves[k], trees[k + 1]));
        assert(last[h] == prefix.take(k));
        assert(prefix.take(k) =~= leaves.take(k));
        assert(leaves.take(k).push(leaves[k]) =~= leaves.take(k + 1));
        assert forall|i: int| 0 <= i < trees.len() implies #[trigger] trees[i].len() == trees[0].len() by {
            if i <= k {
                assert(front[i] == trees[i]);
            }
        }
        assert forall|i: int| 0 <= i < trees.len() implies #[trigger] trees[i][h] == leaves.take(i) by {
            if i <= k {
                assert(front[i] == trees[i]);
                assert(prefix.take(i) =~= leaves.take(i));
            } else {
                assert(trees[i][h] == last[h].push(leaves[k]));
            }
        }
        if leaves.len() <= pow2(h as nat) {
            assert forall|i: int| 0 <= i < trees.len() implies #[trigger] is_consistent::<T, C>(trees[i]) by {
                if i <= k {
                    assert(front[i] == trees[i]);
                } else {
                    law_insertion_consistent::<T, C>(last, leaves[k], trees[k + 1]);
                }
            }
        }
    }
}

/// After inserting `leaves` into an empty tree they fit in, every
/// inserted leaf verifies against the root and its path of siblings.
pub proof fn law_inserted_leaves_verify<T, C: Compressor<T>>(leaves: Seq<T>, trees: Seq<Seq<Seq<T>>>)
    requires
        is_run::<T, C>(insertions(leaves), trees),
        is_empty_tree(trees[0]),
        leaves.len() <= pow2((trees[0].len() - 1) as nat),
    ensures
        forall|i: int|
            0 <= i < leaves.len() ==> path_root::<T, C>(
                #[trigger] leaves[i],
                i as nat,
                siblings_of::<T, C>(trees.last(), i as nat),
            ) == virtual_node_of::<T, C>(trees.last(), 0, 0),
{
    law_insertions_from_empty::<T, C>(leaves, trees);
    let t = trees.last();
    let n = leaves.len() as int;
    assert(t == trees[n]);
    assert(is_consistent::<T, C>(t));
    assert(t[t.len() - 1] == leaves.take(n));
    assert forall|i: int| 0 <= i < leaves.len() implies path_root::<T, C>(
        #[trigger] leaves[i],
        i as nat,
        siblings_of::<T, C>(t, i as nat),
    ) == virtual_node_of::<T, C>(t, 0, 0) by {
        assert(t[t.len() - 1][i] == leaves[i]);
        law_path_siblings_verify::<T, C>(t, i as nat);
    }
}

/// Inserting a leaf changes, on each level, only the ancestor of the new
/// leaf: it is pushed where the level ended just before it and
/// overwritten otherwise, and every other node keeps its value.
pub proof fn law_insertion_frame<T, C: Compressor<T>>(old: Seq<Seq<T>>, leaf: T, new: Seq<Seq<T>>)
    requires
        1 <= old.len(),
        is_insertion::<T, C>(old, leaf, new),
    ensures
        new.len() == old.len(),
        forall|l: int|
            0 <= l < old.len() ==> #[trigger] new[l].len() == if old[l].len() == halve_down(
                old[old.len() - 1].len(),
                (old.len() - 1 - l) as nat,
            ) {
                old[l].len() + 1
            } else {
                old[l].len()
            },
        forall|l: int, j: int|
            0 <= l < old.len() && 0 <= j < old[l].len() && j != halve_down(
                old[old.len() - 1].len(),
                (old.len() - 1 - l) as nat,
            ) ==> #[trigger] new[l][j] == old[l][j],
{
    let h = old.len() - 1;
    let n = old[h].len();
    reveal(is_path_update);
    assert forall|l: int| 0 <= l < old.len() implies #[trigger] new[l].len() == if old[l].len()
        == halve_down(n, (h - l) as nat) {
        old[l].len() + 1
    } else {
        old[l].len()
    } by {
        if l < h {
            assert(is_path_update::<T, C>(old, new, l, halve_down(n, (h - l) as nat) as int));
        }
    }
    assert forall|l: int, j: int|
        0 <= l < old.len() && 0 <= j < old[l].len() && j != halve_down(n, (h - l) as nat)
            implies #[trigger] new[l][j] == old[l][j] by {
        if l < h {
            assert(is_path_update::<T, C>(old, new, l, halve_down(n, (h - l) as nat) as int));
        }
    }
}

} // verus!
