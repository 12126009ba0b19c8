//! Properties of the tree that span several operations.

use vstd::prelude::*;
use vstd::arithmetic::power2::pow2;

use super::spec::{
    can_insert, can_trim, halve_down, halve_up, is_consistent, is_insertion, is_path_update,
    is_removal, is_trimmed_level, lemma_consistent_virtual_node, lemma_halve_down_is_div,
    lemma_halve_down_lt_up, lemma_halve_up_bounds, lemma_halve_up_down, lemma_halve_up_monotonic,
    lemma_halve_up_zero, merkle_root, obeys_iterated_law, path_root, sibling_index,
    siblings_of, some_odd_count, stores_path, virtual_node_of,
};
use super::Compressor;

verus! {

/// The root of consistent levels is the Merkle root of their leaves,
/// padded with empty leaves up to `2^height`.
pub proof fn law_root_is_merkle_root<T, C: Compressor<T>>(t: Seq<Seq<T>>)
    requires
        obeys_iterated_law::<T, C>(),
        is_consistent::<T, C>(t),
    ensures
        virtual_node_of::<T, C>(t, 0, 0) == merkle_root::<T, C>(t[t.len() - 1], (t.len() - 1) as nat),
{
    lemma_consistent_virtual_node::<T, C>(t, (t.len() - 1) as nat, 0);
}

/// Consistent levels are determined by their height and their leaves.
pub proof fn law_consistent_unique<T, C: Compressor<T>>(t1: Seq<Seq<T>>, t2: Seq<Seq<T>>)
    requires
        is_consistent::<T, C>(t1),
        is_consistent::<T, C>(t2),
        t1.len() == t2.len(),
        t1[t1.len() - 1] == t2[t2.len() - 1],
    ensures
        t1 == t2,
{
    let h = t1.len() - 1;
    lemma_consistent_levels_agree::<T, C>(t1, t2, h as nat);
    assert(t1 =~= t2);
}

/// Two consistent trees of one height with the same leaves agree on the
/// lowest `k + 1` levels: each stored node is the compression of its
/// children on the level below, where the trees agree.
proof fn lemma_consistent_levels_agree<T, C: Compressor<T>>(t1: Seq<Seq<T>>, t2: Seq<Seq<T>>, k: nat)
    requires
        is_consistent::<T, C>(t1),
        is_consistent::<T, C>(t2),
        t1.len() == t2.len(),
        t1[t1.len() - 1] == t2[t2.len() - 1],
        k <= t1.len() - 1,
    ensures
        forall|l: int| t1.len() - 1 - k <= l < t1.len() ==> #[trigger] t1[l] == t2[l],
    decreases k,
{
    let h = t1.len() - 1;
    if k > 0 {
        lemma_consistent_levels_agree::<T, C>(t1, t2, (k - 1) as nat);
        let l = h - k;
        assert(t1[l].len() == t2[l].len());
        assert(t1[l + 1] == t2[l + 1]);
        assert forall|i: int| 0 <= i < t1[l].len() implies t1[l][i] == t2[l][i] by {
            assert(virtual_node_of::<T, C>(t1, l + 1, 2 * i) == virtual_node_of::<T, C>(t2, l + 1, 2 * i));
            assert(virtual_node_of::<T, C>(t1, l + 1, 2 * i + 1) == virtual_node_of::<T, C>(t2, l + 1, 2 * i + 1));
        }
        assert(t1[l] =~= t2[l]);
    }
}

/// In consistent levels, compressing leaf `index` with the siblings of its
/// ancestors, on the sides its index gives, yields the root: every stored
/// leaf verifies against the root and its path of siblings.
pub proof fn law_path_siblings_verify<T, C: Compressor<T>>(t: Seq<Seq<T>>, index: nat)
    requires
        is_consistent::<T, C>(t),
        index < t[t.len() - 1].len(),
    ensures
        path_root::<T, C>(t[t.len() - 1][index as int], index, siblings_of::<T, C>(t, index))
            == virtual_node_of::<T, C>(t, 0, 0),
{
    let h = t.len() - 1;
    let sib = siblings_of::<T, C>(t, index);
    lemma_path_root_from::<T, C>(t, index, 0);
    assert(sib.subrange(0, h as int) =~= sib);
    assert(halve_down(index, 0) == index);
}

/// In consistent levels, a stored node `k` levels above the leaves
/// compressed with its sibling, on the side its index gives, is their
/// parent, which is stored too.
proof fn lemma_parent_from_sibling<T, C: Compressor<T>>(t: Seq<Seq<T>>, k: nat, j: nat)
    requires
        is_consistent::<T, C>(t),
        k < t.len() - 1,
        j < t[t.len() - 1 - k].len(),
    ensures
        (j / 2) < t[t.len() - 2 - k].len(),
        virtual_node_of::<T, C>(t, t.len() - 2 - k, (j / 2) as int) == if j % 2 == 0 {
            C::spec_compress(
                virtual_node_of::<T, C>(t, t.len() - 1 - k, j as int),
                virtual_node_of::<T, C>(t, t.len() - 1 - k, sibling_index(j) as int),
            )
        } else {
            C::spec_compress(
                virtual_node_of::<T, C>(t, t.len() - 1 - k, sibling_index(j) as int),
                virtual_node_of::<T, C>(t, t.len() - 1 - k, j as int),
            )
        },
{
    let h = t.len() - 1;
    let l = h - k;
    let n = t[h].len();
    let c = halve_up(n, k);
    assert(t[l].len() == c);
    assert(t[l - 1].len() == halve_up(n, (k + 1) as nat));
    assert(halve_up(n, (k + 1) as nat) == (c + 1) / 2);
    let p = (j / 2) as int;
    assert(p < t[l - 1].len());
    assert(t[l - 1][p] == C::spec_compress(
        virtual_node_of::<T, C>(t, l, 2 * p),
        virtual_node_of::<T, C>(t, l, 2 * p + 1),
    ));
    if j % 2 == 0 {
        assert(2 * p == j && 2 * p + 1 == sibling_index(j));
    } else {
        assert(2 * p == sibling_index(j) && 2 * p + 1 == j);
    }
}

/// From the ancestor of leaf `index` at `k` levels above the leaves, the
/// remaining siblings lead to the root.
proof fn lemma_path_root_from<T, C: Compressor<T>>(t: Seq<Seq<T>>, index: nat, k: nat)
    requires
        is_consistent::<T, C>(t),
        index < t[t.len() - 1].len(),
        k <= t.len() - 1,
    ensures
        path_root::<T, C>(
            virtual_node_of::<T, C>(t, t.len() - 1 - k, halve_down(index, k) as int),
            halve_down(index, k),
            siblings_of::<T, C>(t, index).subrange(k as int, t.len() - 1),
        ) == virtual_node_of::<T, C>(t, 0, 0),
    decreases t.len() - 1 - k,
{
    let h = t.len() - 1;
    let sib = siblings_of::<T, C>(t, index);
    let rest = sib.subrange(k as int, h as int);
    if k < h {
        lemma_path_root_from::<T, C>(t, index, k + 1);
        let j = halve_down(index, k);
        let l = h - k;
        assert(rest.drop_first() =~= sib.subrange((k + 1) as int, h as int));
        assert(rest[0] == virtual_node_of::<T, C>(t, l, sibling_index(j) as int));
        lemma_halve_down_lt_up(index, t[h].len(), k);
        assert(t[l].len() == halve_up(t[h].len(), k));
        lemma_parent_from_sibling::<T, C>(t, k, j);
        assert(halve_down(index, k + 1) == j / 2);
    } else {
        assert(rest.len() == 0);
        lemma_halve_down_is_div(index, h as nat);
        vstd::arithmetic::div_mod::lemma_basic_div(index as int, pow2(h as nat) as int);
    }
}

/// Consistent levels leave room on every inner level for an insertion.
pub proof fn law_consistent_can_insert<T, C: Compressor<T>>(t: Seq<Seq<T>>)
    requires
        is_consistent::<T, C>(t),
    ensures
        can_insert(t),
{
    let h = t.len() - 1;
    assert forall|l: int| 0 <= l < h implies #[trigger] t[l].len() >= halve_down(
        t[h].len(),
        (h - l) as nat,
    ) by {
        lemma_halve_up_down(t[h].len(), (h - l) as nat);
    }
}

/// Inserting a leaf into a consistent, non-full tree gives the consistent
/// tree of the leaves with the new leaf appended.
pub proof fn law_insertion_consistent<T, C: Compressor<T>>(old: Seq<Seq<T>>, leaf: T, new: Seq<Seq<T>>)
    requires
        is_consistent::<T, C>(old),
        old[old.len() - 1].len() < pow2((old.len() - 1) as nat),
        is_insertion::<T, C>(old, leaf, new),
    ensures
        is_consistent::<T, C>(new),
        new[new.len() - 1] == old[old.len() - 1].push(leaf),
{
    let h = old.len() - 1;
    let n = old[h].len();
    reveal(is_path_update);
    assert forall|l: int| 0 <= l <= h implies #[trigger] new[l].len() == halve_up(
        new[h].len(),
        (h - l) as nat,
    ) by {
        lemma_halve_up_down(n, (h - l) as nat);
        if l < h {
            assert(is_path_update::<T, C>(old, new, l, halve_down(n, (h - l) as nat) as int));
        }
    }
    assert forall|l: int, i: int| 0 <= l < h && 0 <= i < new[l].len() implies #[trigger] new[l][i]
        == C::spec_compress(
        virtual_node_of::<T, C>(new, l + 1, 2 * i),
        virtual_node_of::<T, C>(new, l + 1, 2 * i + 1),
    ) by {
        let p = halve_down(n, (h - l) as nat) as int;
        let q = halve_down(n, (h - l - 1) as nat) as int;
        assert(p == q / 2);
        lemma_halve_up_down(n, (h - l) as nat);
        lemma_halve_up_down(n, (h - l - 1) as nat);
        assert(is_path_update::<T, C>(old, new, l, p));
        if l + 1 < h {
            assert(is_path_update::<T, C>(old, new, l + 1, q));
        }
        if i != p {
            assert(old[l][i] == C::spec_compress(
                virtual_node_of::<T, C>(old, l + 1, 2 * i),
                virtual_node_of::<T, C>(old, l + 1, 2 * i + 1),
            ));
            assert(virtual_node_of::<T, C>(new, l + 1, 2 * i) == virtual_node_of::<T, C>(old, l + 1, 2 * i));
            assert(virtual_node_of::<T, C>(new, l + 1, 2 * i + 1) == virtual_node_of::<T, C>(old, l + 1, 2 * i + 1));
        }
    }
}

/// Consistent levels hold every node a smaller leaf count needs.
pub proof fn law_consistent_can_trim<T, C: Compressor<T>>(t: Seq<Seq<T>>, count: nat)
    requires
        is_consistent::<T, C>(t),
        count <= t[t.len() - 1].len(),
    ensures
        can_trim(t, count),
{
    let h = t.len() - 1;
    assert forall|l: int| 0 <= l <= h implies #[trigger] t[l].len() >= halve_up(count, (h - l) as nat) by {
        lemma_halve_up_monotonic(count, t[h].len(), (h - l) as nat);
    }
}

/// Removing leaves from a consistent tree gives the consistent tree of
/// the remaining leaves.
pub proof fn law_removal_consistent<T, C: Compressor<T>>(old: Seq<Seq<T>>, n: nat, new: Seq<Seq<T>>)
    requires
        is_consistent::<T, C>(old),
        n <= old[old.len() - 1].len(),
        is_removal::<T, C>(old, n, new),
    ensures
        is_consistent::<T, C>(new),
        new[new.len() - 1] == old[old.len() - 1].take(old[old.len() - 1].len() - n),
{
    let h = old.len() - 1;
    let leaves = old[h].len();
    if n == 0 {
        assert(old[h].take(leaves as int) =~= old[h]);
    } else if n == leaves {
        assert(new[h] =~= old[h].take(0));
        assert forall|l: int| 0 <= l <= h implies #[trigger] new[l].len() == halve_up(
            new[h].len(),
            (h - l) as nat,
        ) by {
            lemma_halve_up_monotonic(0, 0, (h - l) as nat);
            lemma_halve_up_zero((h - l) as nat);
        }
    } else {
        let count = (leaves - n) as nat;
        reveal(is_trimmed_level);
        assert(count <= pow2(h as nat));
        assert forall|l: int| 0 <= l <= h implies #[trigger] new[l].len() == halve_up(
            new[h].len(),
            (h - l) as nat,
        ) by {
            if l < h {
                assert(is_trimmed_level::<T, C>(old, new, l, count));
            }
        }
        assert forall|l: int, i: int| 0 <= l < h && 0 <= i < new[l].len() implies #[trigger] new[l][i]
            == C::spec_compress(
            virtual_node_of::<T, C>(new, l + 1, 2 * i),
            virtual_node_of::<T, C>(new, l + 1, 2 * i + 1),
        ) by {
            let k = (h - l) as nat;
            let r = halve_up(count, k) as int;
            let rc = halve_up(count, (k - 1) as nat) as int;
            assert(is_trimmed_level::<T, C>(old, new, l, count));
            if l + 1 < h {
                assert(is_trimmed_level::<T, C>(old, new, l + 1, count));
            }
            lemma_halve_up_bounds(count, k);
            lemma_halve_up_bounds(count, (k - 1) as nat);
            lemma_halve_up_monotonic(count, leaves, k);
            lemma_halve_up_monotonic(count, leaves, (k - 1) as nat);
            assert(old[l].len() >= r);
            assert(old[l + 1].len() >= rc);
            assert(old[l][i] == C::spec_compress(
                virtual_node_of::<T, C>(old, l + 1, 2 * i),
                virtual_node_of::<T, C>(old, l + 1, 2 * i + 1),
            ));
            if i < r - 1 {
                assert(2 * i + 1 < rc - 1);
                assert(virtual_node_of::<T, C>(new, l + 1, 2 * i) == virtual_node_of::<T, C>(old, l + 1, 2 * i));
                assert(virtual_node_of::<T, C>(new, l + 1, 2 * i + 1) == virtual_node_of::<T, C>(old, l + 1, 2 * i + 1));
            } else if !some_odd_count(count, (k - 1) as nat) {
                assert(rc % 2 == 0);
                assert(2 * i == rc - 2);
                if k >= 2 {
                    assert(!some_odd_count(count, (k - 2) as nat));
                }
                assert(virtual_node_of::<T, C>(new, l + 1, 2 * i) == virtual_node_of::<T, C>(old, l + 1, 2 * i));
                assert(virtual_node_of::<T, C>(new, l + 1, 2 * i + 1) == virtual_node_of::<T, C>(old, l + 1, 2 * i + 1));
            }
        }
    }
}

/// Consistent levels store the ancestors of every leaf.
pub proof fn law_consistent_stores_path<T, C: Compressor<T>>(t: Seq<Seq<T>>, index: nat)
    requires
        is_consistent::<T, C>(t),
        index < t[t.len() - 1].len(),
    ensures
        stores_path(t, index),
{
    let h = t.len() - 1;
    assert forall|k: int| 0 <= k <= h implies halve_down(index, k as nat) < #[trigger] t[h
        - k].len() by {
        lemma_halve_down_lt_up(index, t[h].len(), k as nat);
    }
}

/// The root of a tree without leaves is the root of an empty subtree of
/// the tree's height.
pub proof fn law_empty_root<T, C: Compressor<T>>(t: Seq<Seq<T>>)
    requires
        1 <= t.len(),
        forall|l: int| 0 <= l < t.len() ==> #[trigger] t[l].len() == 0,
    ensures
        virtual_node_of::<T, C>(t, 0, 0) == C::spec_iterated((t.len() - 1) as nat),
{
    assert(t[0].len() == 0);
}

/// Removing `n` leaves from a consistent tree gives exactly the tree that
/// holds the remaining leaves, whichever way that tree was built; where
/// the empty subtree roots are iterated compressions, its root is the
/// Merkle root of the remaining leaves.
pub proof fn law_removal_equals_rebuilt<T, C: Compressor<T>>(
    old: Seq<Seq<T>>,
    n: nat,
    new: Seq<Seq<T>>,
    rebuilt: Seq<Seq<T>>,
)
    requires
        is_consistent::<T, C>(old),
        n <= old[old.len() - 1].len(),
        is_removal::<T, C>(old, n, new),
        is_consistent::<T, C>(rebuilt),
        rebuilt.len() == old.len(),
        rebuilt[rebuilt.len() - 1] == old[old.len() - 1].take(old[old.len() - 1].len() - n),
    ensures
        new == rebuilt,
        obeys_iterated_law::<T, C>() ==> virtual_node_of::<T, C>(new, 0, 0) == merkle_root::<T, C>(
            old[old.len() - 1].take(old[old.len() - 1].len() - n),
            (old.len() - 1) as nat,
        ),
{
    law_removal_consistent::<T, C>(old, n, new);
    law_consistent_unique::<T, C>(new, rebuilt);
    if obeys_iterated_law::<T, C>() {
        law_root_is_merkle_root::<T, C>(new);
    }
}

} // verus!

verus! {

/// Removing with `pop_a` the one leaf just inserted into a consistent,
/// non-full tree gives back the tree as it was before the insertion.
pub proof fn law_pop_a_undoes_insert<T, C: Compressor<T>>(
    t0: Seq<Seq<T>>,
    leaf: T,
    t1: Seq<Seq<T>>,
    t2: Seq<Seq<T>>,
)
    requires
        is_consistent::<T, C>(t0),
        t0[t0.len() - 1].len() < pow2((t0.len() - 1) as nat),
        is_insertion::<T, C>(t0, leaf, t1),
        is_removal::<T, C>(t1, 1, t2),
    ensures
        t2 == t0,
{
    let h = t0.len() - 1;
    law_insertion_consistent::<T, C>(t0, leaf, t1);
    law_removal_consistent::<T, C>(t1, 1, t2);
    assert(t0[h].push(leaf).take(t0[h].len() as int) =~= t0[h]);
    law_consistent_unique::<T, C>(t2, t0);
}

} // verus!
