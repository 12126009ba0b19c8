//! Mathematical model of the tree: levels as sequences, virtual nodes,
//! the Merkle node of a leaf sequence, and consistency of levels with
//! leaves.

use vstd::prelude::*;
use vstd::arithmetic::power2::pow2;

use super::Compressor;

verus! {

/// The empty subtree roots of `C` are iterated compressions: each one
/// compresses two copies of the one below it.
#[verifier::opaque]
pub open spec fn obeys_iterated_law<T, C: Compressor<T>>() -> bool {
    forall|n: nat| #[trigger] C::spec_iterated(n + 1) == C::spec_compress(
        C::spec_iterated(n),
        C::spec_iterated(n),
    )
}

/// Number of nodes `k` levels above a level of `count` nodes: each step
/// halves, rounding up.
pub open spec fn halve_up(count: nat, k: nat) -> nat
    decreases k,
{
    if k == 0 {
        count
    } else {
        ((halve_up(count, (k - 1) as nat) + 1) / 2) as nat
    }
}

/// Index of the ancestor `k` levels above a node at index `index`.
pub open spec fn halve_down(index: nat, k: nat) -> nat
    decreases k,
{
    if k == 0 {
        index
    } else {
        halve_down(index, (k - 1) as nat) / 2
    }
}

/// Index of the sibling of a node.
pub open spec fn sibling_index(index: nat) -> nat {
    if index % 2 == 0 {
        index + 1
    } else {
        (index - 1) as nat
    }
}

/// The node at `index` of `level` in the levels `t`, where absent nodes
/// are roots of empty subtrees. `t.last()` are the leaves.
pub open spec fn virtual_node_of<T, C: Compressor<T>>(t: Seq<Seq<T>>, level: int, index: int) -> T {
    if 0 <= index < t[level].len() {
        t[level][index]
    } else {
        C::spec_iterated((t.len() - 1 - level) as nat)
    }
}

/// The Merkle node of height `k` at `index` over the leaf sequence
/// `leaves`, padded with empty leaves.
pub open spec fn merkle_node<T, C: Compressor<T>>(leaves: Seq<T>, k: nat, index: int) -> T
    decreases k,
{
    if k == 0 {
        if 0 <= index < leaves.len() {
            leaves[index]
        } else {
            C::spec_iterated(0)
        }
    } else {
        C::spec_compress(
            merkle_node::<T, C>(leaves, (k - 1) as nat, 2 * index),
            merkle_node::<T, C>(leaves, (k - 1) as nat, 2 * index + 1),
        )
    }
}

/// The Merkle root of a tree of the given height holding `leaves`.
pub open spec fn merkle_root<T, C: Compressor<T>>(leaves: Seq<T>, height: nat) -> T {
    merkle_node::<T, C>(leaves, height, 0)
}

/// The levels `t` (root level first, leaves last) are those of a tree
/// of height `t.len() - 1`: there are at most `2^height` leaves, each level
/// holds exactly the nodes that have a leaf below them, and every stored
/// inner node is the compression of its two (virtual) children.
pub open spec fn is_consistent<T, C: Compressor<T>>(t: Seq<Seq<T>>) -> bool {
    let h = t.len() - 1;
    &&& 1 <= t.len()
    &&& t[h].len() <= pow2(h as nat)
    &&& forall|l: int|
        0 <= l <= h ==> #[trigger] t[l].len() == halve_up(t[h].len(), (h - l) as nat)
    &&& forall|l: int, i: int|
        0 <= l < h && 0 <= i < t[l].len() ==> #[trigger] t[l][i] == C::spec_compress(
            virtual_node_of::<T, C>(t, l + 1, 2 * i),
            virtual_node_of::<T, C>(t, l + 1, 2 * i + 1),
        )
}

/// Past the last node of a level, every Merkle node is the root of an
/// empty subtree.
pub proof fn lemma_merkle_node_past_end<T, C: Compressor<T>>(leaves: Seq<T>, k: nat, index: int)
    requires
        obeys_iterated_law::<T, C>(),
        index >= halve_up(leaves.len(), k),
    ensures
        merkle_node::<T, C>(leaves, k, index) == C::spec_iterated(k),
    decreases k,
{
    if k > 0 {
        lemma_merkle_node_past_end::<T, C>(leaves, (k - 1) as nat, 2 * index);
        lemma_merkle_node_past_end::<T, C>(leaves, (k - 1) as nat, 2 * index + 1);
        reveal(obeys_iterated_law);
        assert(C::spec_iterated(((k - 1) as nat + 1) as nat) == C::spec_iterated(k));
    }
}

/// In consistent levels every virtual node, stored or not, is the Merkle
/// node of the leaves at its place.
pub proof fn lemma_consistent_virtual_node<T, C: Compressor<T>>(t: Seq<Seq<T>>, k: nat, index: int)
    requires
        obeys_iterated_law::<T, C>(),
        is_consistent::<T, C>(t),
        k <= t.len() - 1,
        index >= 0,
    ensures
        virtual_node_of::<T, C>(t, t.len() - 1 - k, index) == merkle_node::<T, C>(
            t[t.len() - 1],
            k,
            index,
        ),
    decreases k,
{
    let h = t.len() - 1;
    let l = h - k;
    assert(t[l].len() == halve_up(t[h].len(), k));
    if index >= t[l].len() {
        lemma_merkle_node_past_end::<T, C>(t[h], k, index);
    } else if k > 0 {
        lemma_consistent_virtual_node::<T, C>(t, (k - 1) as nat, 2 * index);
        lemma_consistent_virtual_node::<T, C>(t, (k - 1) as nat, 2 * index + 1);
        assert(t[l][index] == C::spec_compress(
            virtual_node_of::<T, C>(t, l + 1, 2 * index),
            virtual_node_of::<T, C>(t, l + 1, 2 * index + 1),
        ));
    }
}

} // verus!

verus! {

/// Rounding down never exceeds the starting index.
pub proof fn lemma_halve_down_le(x: nat, k: nat)
    ensures
        halve_down(x, k) <= x,
    decreases k,
{
    if k > 0 {
        lemma_halve_down_le(x, (k - 1) as nat);
    }
}

/// Rounding up and rounding down differ by at most one, and one more leaf
/// makes the rounded-up count exceed the rounded-down index by one.
pub proof fn lemma_halve_up_down(count: nat, k: nat)
    ensures
        halve_up(count, k) == halve_down(count, k) || halve_up(count, k) == halve_down(count, k)
            + 1,
        halve_up(count + 1, k) == halve_down(count, k) + 1,
    decreases k,
{
    if k > 0 {
        lemma_halve_up_down(count, (k - 1) as nat);
    }
}

/// On level `l`, `new` stores node `p` (pushed when `old` ended just
/// before it, overwritten otherwise) as the compression of its two
/// children in `new`, and agrees with `old` everywhere else.
#[verifier::opaque]
pub open spec fn is_path_update<T, C: Compressor<T>>(old: Seq<Seq<T>>, new: Seq<Seq<T>>, l: int, p: int) -> bool {
    &&& new[l].len() == if old[l].len() == p {
        p + 1
    } else {
        old[l].len() as int
    }
    &&& forall|j: int| 0 <= j < new[l].len() && j != p ==> #[trigger] new[l][j] == old[l][j]
    &&& new[l][p] == C::spec_compress(
        virtual_node_of::<T, C>(new, l + 1, 2 * p),
        virtual_node_of::<T, C>(new, l + 1, 2 * p + 1),
    )
}

/// A path update on level `l` only looks at levels `l` and `l + 1`.
pub proof fn lemma_path_update_frame<T, C: Compressor<T>>(
    old: Seq<Seq<T>>,
    new1: Seq<Seq<T>>,
    new2: Seq<Seq<T>>,
    l: int,
    p: int,
)
    requires
        is_path_update::<T, C>(old, new1, l, p),
        new1.len() == new2.len(),
        0 <= l,
        l + 1 < new1.len(),
        new1[l] == new2[l],
        new1[l + 1] == new2[l + 1],
    ensures
        is_path_update::<T, C>(old, new2, l, p),
{
    reveal(is_path_update);
}

/// `new` is `old` after appending `leaf` at leaf index `old.last().len()`:
/// the leaf is pushed, and on every inner level the ancestor of the new
/// leaf is stored (pushed, or overwritten where already present) as the
/// compression of its two children in `new`; nothing else changes.
pub open spec fn is_insertion<T, C: Compressor<T>>(old: Seq<Seq<T>>, leaf: T, new: Seq<Seq<T>>) -> bool {
    let h = old.len() - 1;
    let n = old[h].len();
    &&& new.len() == old.len()
    &&& new[h] == old[h].push(leaf)
    &&& forall|l: int|
        0 <= l < h ==> #[trigger] is_path_update::<T, C>(old, new, l, halve_down(n, (h - l) as nat) as int)
}

/// Every inner level stores at least the nodes left of the new leaf's
/// ancestor, so that the ancestor can be pushed or overwritten.
pub open spec fn can_insert<T>(t: Seq<Seq<T>>) -> bool {
    let h = t.len() - 1;
    forall|l: int| 0 <= l < h ==> #[trigger] t[l].len() >= halve_down(t[h].len(), (h - l) as nat)
}



} // verus!

verus! {

/// The node that verifying a leaf against its path of siblings yields:
/// starting from the leaf at `index`, each sibling is compressed on the
/// side given by the parity of the current index, and the index halves.
pub open spec fn path_root<T, C: Compressor<T>>(leaf: T, index: nat, siblings: Seq<T>) -> T
    decreases siblings.len(),
{
    if siblings.len() == 0 {
        leaf
    } else {
        let parent = if index % 2 == 0 {
            C::spec_compress(leaf, siblings[0])
        } else {
            C::spec_compress(siblings[0], leaf)
        };
        path_root::<T, C>(parent, index / 2, siblings.drop_first())
    }
}

/// The siblings of the ancestors of leaf `index`, leaf level first, as the
/// levels `t` store them or as empty subtree roots.
pub open spec fn siblings_of<T, C: Compressor<T>>(t: Seq<Seq<T>>, index: nat) -> Seq<T> {
    let h = t.len() - 1;
    Seq::new(
        h as nat,
        |k: int|
            virtual_node_of::<T, C>(t, h - k, sibling_index(halve_down(index, k as nat)) as int),
    )
}

/// Every level stores the ancestor of leaf `index`.
pub open spec fn stores_path<T>(t: Seq<Seq<T>>, index: nat) -> bool {
    let h = t.len() - 1;
    forall|k: int| 0 <= k <= h ==> halve_down(index, k as nat) < #[trigger] t[h - k].len()
}

/// An index below the count stays below it on every level above.
pub proof fn lemma_halve_down_lt_up(index: nat, count: nat, k: nat)
    requires
        index < count,
    ensures
        halve_down(index, k) < halve_up(count, k),
    decreases k,
{
    if k > 0 {
        lemma_halve_down_lt_up(index, count, (k - 1) as nat);
    }
}


} // verus!

verus! {

/// Some level among the lowest `i + 1` levels of a tree with `count`
/// leaves has an odd number of nodes: its last node had no stored right
/// sibling.
pub open spec fn some_odd_count(count: nat, i: nat) -> bool
    decreases i,
{
    halve_up(count, i) % 2 == 1 || (i > 0 && some_odd_count(count, (i - 1) as nat))
}

/// Removing leaves down to `count` changes the last node of the level
/// `i + 1` above the leaves, which is recomputed from its stored left
/// sibling at level `i`: the level has an even number of nodes and a level
/// below it an odd one.
pub open spec fn needs_left_sibling(count: nat, i: nat) -> bool {
    halve_up(count, i) % 2 == 0 && i > 0 && some_odd_count(count, (i - 1) as nat)
}

/// How many of the lowest `i` levels need a left sibling.
pub open spec fn count_left_siblings(count: nat, i: nat) -> nat
    decreases i,
{
    if i == 0 {
        0
    } else {
        count_left_siblings(count, (i - 1) as nat) + if needs_left_sibling(
            count,
            (i - 1) as nat,
        ) {
            1nat
        } else {
            0nat
        }
    }
}

/// Level `l` of `new` keeps the nodes of `old` that have one of the first
/// `count` leaves below them; where a level below lost its last node's
/// right sibling, the last node is recomputed from its children in `new`.
#[verifier::opaque]
pub open spec fn is_trimmed_level<T, C: Compressor<T>>(old: Seq<Seq<T>>, new: Seq<Seq<T>>, l: int, count: nat) -> bool {
    let k = (old.len() - 1 - l) as nat;
    let r = halve_up(count, k) as int;
    &&& new[l].len() == r
    &&& forall|j: int| 0 <= j < r - 1 ==> #[trigger] new[l][j] == old[l][j]
    &&& new[l][r - 1] == if some_odd_count(count, (k - 1) as nat) {
        C::spec_compress(
            virtual_node_of::<T, C>(new, l + 1, 2 * (r - 1)),
            virtual_node_of::<T, C>(new, l + 1, 2 * (r - 1) + 1),
        )
    } else {
        old[l][r - 1]
    }
}

/// A trimmed level only looks at itself and the level below it.
pub proof fn lemma_trimmed_level_frame<T, C: Compressor<T>>(
    old: Seq<Seq<T>>,
    new1: Seq<Seq<T>>,
    new2: Seq<Seq<T>>,
    l: int,
    count: nat,
)
    requires
        is_trimmed_level::<T, C>(old, new1, l, count),
        new1.len() == new2.len(),
        0 <= l,
        l + 1 < new1.len(),
        new1[l] == new2[l],
        new1[l + 1] == new2[l + 1],
    ensures
        is_trimmed_level::<T, C>(old, new2, l, count),
{
    reveal(is_trimmed_level);
}

/// Every level stores all nodes that have one of the first `count` leaves
/// below them.
pub open spec fn can_trim<T>(t: Seq<Seq<T>>, count: nat) -> bool {
    let h = t.len() - 1;
    forall|l: int| 0 <= l <= h ==> #[trigger] t[l].len() >= halve_up(count, (h - l) as nat)
}

/// `new` is `old` after removing its last `n` leaves: nothing changes for
/// `n == 0`; removing every leaf empties every level; otherwise the leaves
/// are cut to the first ones and every inner level is trimmed.
pub open spec fn is_removal<T, C: Compressor<T>>(old: Seq<Seq<T>>, n: nat, new: Seq<Seq<T>>) -> bool {
    let h = old.len() - 1;
    let leaves = old[h].len();
    if n == 0 {
        new == old
    } else if n == leaves {
        &&& new.len() == old.len()
        &&& forall|l: int| 0 <= l <= h ==> #[trigger] new[l].len() == 0
    } else {
        let count = (leaves - n) as nat;
        &&& new.len() == old.len()
        &&& new[h] == old[h].take(count as int)
        &&& forall|l: int| 0 <= l < h ==> #[trigger] is_trimmed_level::<T, C>(old, new, l, count)
    }
}

/// Rounding up is monotonic in the count.
pub proof fn lemma_halve_up_monotonic(a: nat, b: nat, k: nat)
    requires
        a <= b,
    ensures
        halve_up(a, k) <= halve_up(b, k),
    decreases k,
{
    if k > 0 {
        lemma_halve_up_monotonic(a, b, (k - 1) as nat);
    }
}

/// A non-empty level stays non-empty above and never grows.
pub proof fn lemma_halve_up_bounds(count: nat, k: nat)
    requires
        count >= 1,
    ensures
        1 <= halve_up(count, k) <= count,
    decreases k,
{
    if k > 0 {
        lemma_halve_up_bounds(count, (k - 1) as nat);
    }
}



/// No leaves, no nodes.
pub proof fn lemma_halve_up_zero(k: nat)
    ensures
        halve_up(0, k) == 0,
    decreases k,
{
    if k > 0 {
        lemma_halve_up_zero((k - 1) as nat);
    }
}

} // verus!

verus! {

/// The number of levels needing a left sibling only grows with the levels
/// considered.
pub proof fn lemma_count_left_siblings_le(count: nat, i: nat, j: nat)
    requires
        i <= j,
    ensures
        count_left_siblings(count, i) <= count_left_siblings(count, j),
    decreases j - i,
{
    if i < j {
        lemma_count_left_siblings_le(count, i, (j - 1) as nat);
    }
}

} // verus!

verus! {

/// Rounding down `k` times divides by `2^k`.
pub proof fn lemma_halve_down_is_div(x: nat, k: nat)
    ensures
        halve_down(x, k) == x / pow2(k),
    decreases k,
{
    vstd::arithmetic::power2::lemma_pow2_pos(k);
    if k == 0 {
        vstd::arithmetic::power2::lemma2_to64();
    } else {
        lemma_halve_down_is_div(x, (k - 1) as nat);
        vstd::arithmetic::power2::lemma_pow2_unfold(k);
        vstd::arithmetic::power2::lemma_pow2_pos((k - 1) as nat);
        vstd::arithmetic::div_mod::lemma_div_denominator(x as int, pow2((k - 1) as nat) as int, 2);
        vstd::arithmetic::mul::lemma_mul_is_commutative(pow2((k - 1) as nat) as int, 2);
    }
}

/// The level at which the second removal strategy stops popping: starting
/// at `level` with `count` nodes below, it climbs while the count below is
/// even and the level is not the root level.
pub open spec fn pop_c_stop(count: nat, level: nat) -> nat
    decreases level,
{
    if count % 2 == 0 && level > 0 {
        pop_c_stop(count / 2, (level - 1) as nat)
    } else {
        level
    }
}

/// The level where the second removal strategy stops popping and starts
/// recomputing, for `n` removed leaves.
pub open spec fn pop_c_stop_of<T>(old: Seq<Seq<T>>, n: nat) -> int {
    let h = old.len() - 1;
    pop_c_stop((old[h].len() - n) as nat, (h - 1) as nat) as int
}

/// Number of nodes the second removal strategy leaves on level `l` when
/// removing `n` leaves: it first cuts `(n - 1) / 2^k` nodes from the level
/// `k` above the leaves, then pops one leaf and one node from each level
/// it climbs through.
pub open spec fn pop_c_len<T>(old: Seq<Seq<T>>, n: nat, l: int) -> int {
    let h = old.len() - 1;
    let cut = old[l].len() - halve_down((n - 1) as nat, (h - l) as nat);
    if l == h {
        old[h].len() - n
    } else if l > pop_c_stop_of(old, n) {
        if cut > 0 {
            cut - 1
        } else {
            0
        }
    } else {
        cut
    }
}

/// The inputs on which the second removal strategy runs to its end:
/// removing `n` leaves, not all `2^height` of them, from a tree of height
/// at least one, where every level has the nodes to cut and every level it
/// recomputes keeps a node, above a level that keeps one.
pub open spec fn can_pop_c<T>(old: Seq<Seq<T>>, n: nat) -> bool {
    let h = old.len() - 1;
    n > 0 ==> {
        &&& 2 <= old.len()
        &&& n <= old[h].len()
        &&& n != pow2(h as nat)
        &&& forall|l: int|
            0 <= l <= h ==> #[trigger] old[l].len() >= halve_down((n - 1) as nat, (h - l) as nat)
        &&& forall|l: int|
            0 <= l <= pop_c_stop_of(old, n) ==> #[trigger] pop_c_len(old, n, l) >= 1 && pop_c_len(
                old,
                n,
                l + 1,
            ) >= 1
    }
}

/// Level `l` of `new` after the second removal strategy: cut to
/// `pop_c_len` nodes of `old`; on the levels it recomputes, the last node
/// is the compression of the two children of node
/// `(pop_c_len(l + 1) - 1) / 2` in `new`.
#[verifier::opaque]
pub open spec fn is_pop_c_level<T, C: Compressor<T>>(old: Seq<Seq<T>>, new: Seq<Seq<T>>, n: nat, l: int) -> bool {
    let c = pop_c_len(old, n, l);
    let stop = pop_c_stop_of(old, n);
    let q = (pop_c_len(old, n, l + 1) - 1) / 2;
    &&& new[l].len() == c
    &&& forall|j: int|
        0 <= j < c && (l > stop || j != c - 1) ==> #[trigger] new[l][j] == old[l][j]
    &&& l <= stop ==> new[l][c - 1] == C::spec_compress(
        virtual_node_of::<T, C>(new, l + 1, 2 * q),
        virtual_node_of::<T, C>(new, l + 1, 2 * q + 1),
    )
}

/// A level after the second removal strategy only looks at itself and the
/// level below it.
pub proof fn lemma_pop_c_level_frame<T, C: Compressor<T>>(
    old: Seq<Seq<T>>,
    new1: Seq<Seq<T>>,
    new2: Seq<Seq<T>>,
    n: nat,
    l: int,
)
    requires
        is_pop_c_level::<T, C>(old, new1, n, l),
        new1.len() == new2.len(),
        0 <= l < new1.len(),
        new1[l] == new2[l],
        l + 1 < new1.len() ==> new1[l + 1] == new2[l + 1],
        l <= pop_c_stop_of(old, n) ==> l + 1 < new1.len(),
    ensures
        is_pop_c_level::<T, C>(old, new2, n, l),
{
    reveal(is_pop_c_level);
}

/// `new` is `old` after the second removal strategy removed `n` leaves.
pub open spec fn is_pop_c<T, C: Compressor<T>>(old: Seq<Seq<T>>, n: nat, new: Seq<Seq<T>>) -> bool {
    if n == 0 {
        new == old
    } else {
        &&& new.len() == old.len()
        &&& forall|l: int| 0 <= l < old.len() ==> #[trigger] is_pop_c_level::<T, C>(old, new, n, l)
    }
}

} // verus!

verus! {

/// The popping stops at or below where it starts.
pub proof fn lemma_pop_c_stop_le(count: nat, level: nat)
    ensures
        pop_c_stop(count, level) <= level,
    decreases level,
{
    if count % 2 == 0 && level > 0 {
        lemma_pop_c_stop_le(count / 2, (level - 1) as nat);
    }
}

} // verus!

verus! {

/// Levels that are all empty are consistent.
pub proof fn lemma_empty_levels_consistent<T, C: Compressor<T>>(t: Seq<Seq<T>>)
    requires
        1 <= t.len(),
        forall|l: int| 0 <= l < t.len() ==> #[trigger] t[l].len() == 0,
    ensures
        is_consistent::<T, C>(t),
{
    let h = t.len() - 1;
    vstd::arithmetic::power2::lemma_pow2_pos(h as nat);
    assert forall|l: int| 0 <= l <= h implies #[trigger] t[l].len() == halve_up(t[h].len(), (h - l) as nat) by {
        lemma_halve_up_zero((h - l) as nat);
    }
}

} // verus!
