//! The root of a tree whose compression multiplies its two children: the
//! product of the leaves, each missing leaf counting as the empty leaf.

use vstd::prelude::*;
use vstd::arithmetic::power::{lemma_pow_increases, pow};
use vstd::arithmetic::power2::{lemma2_to64, lemma_pow2_unfold, pow2};

use super::laws::law_root_is_merkle_root;
use super::spec::{is_consistent, merkle_node, obeys_iterated_law, virtual_node_of};
use super::Compressor;

verus! {

/// The product of the leaves.
pub open spec fn leaf_product(leaves: Seq<isize>) -> int
    decreases leaves.len(),
{
    if leaves.len() == 0 {
        1
    } else {
        leaf_product(leaves.drop_last()) * leaves.last()
    }
}

/// `C` multiplies two nodes wherever their product is an `isize`.
pub open spec fn is_multiplicative<C: Compressor<isize>>() -> bool {
    forall|a: isize, b: isize|
        isize::MIN <= a * b <= isize::MAX ==> #[trigger] C::spec_compress(a, b) == a * b
}

/// The leaf at `i`, or 2 (the empty leaf) past the last leaf.
spec fn padded_leaf(leaves: Seq<isize>, i: int) -> int {
    if 0 <= i < leaves.len() {
        leaves[i] as int
    } else {
        2
    }
}

/// The product of the padded leaves at positions `lo` up to `hi`.
spec fn padded_product(leaves: Seq<isize>, lo: int, hi: int) -> int
    decreases hi - lo,
{
    if hi <= lo {
        1
    } else {
        padded_product(leaves, lo, hi - 1) * padded_leaf(leaves, hi - 1)
    }
}

/// Every leaf lies between -10 and 10.
spec fn small_leaves(leaves: Seq<isize>) -> bool {
    forall|i: int| 0 <= i < leaves.len() ==> -10 <= #[trigger] leaves[i] <= 10
}

/// A product over adjacent ranges is the product over their union.
proof fn lemma_padded_product_split(leaves: Seq<isize>, lo: int, mid: int, hi: int)
    requires
        lo <= mid <= hi,
    ensures
        padded_product(leaves, lo, mid) * padded_product(leaves, mid, hi) == padded_product(
            leaves,
            lo,
            hi,
        ),
    decreases hi - mid,
{
    if hi > mid {
        lemma_padded_product_split(leaves, lo, mid, hi - 1);
        vstd::arithmetic::mul::lemma_mul_is_associative(
            padded_product(leaves, lo, mid),
            padded_product(leaves, mid, hi - 1),
            padded_leaf(leaves, hi - 1),
        );
    }
}

/// A product of `hi - lo` small padded leaves is at most `10^(hi - lo)`
/// in absolute value.
proof fn lemma_padded_product_bound(leaves: Seq<isize>, lo: int, hi: int)
    requires
        lo <= hi,
        small_leaves(leaves),
    ensures
        -pow(10, (hi - lo) as nat) <= padded_product(leaves, lo, hi) <= pow(10, (hi - lo) as nat),
    decreases hi - lo,
{
    reveal(pow);
    if hi > lo {
        lemma_padded_product_bound(leaves, lo, hi - 1);
        let b = pow(10, (hi - 1 - lo) as nat);
        let x = padded_product(leaves, lo, hi - 1);
        let v = padded_leaf(leaves, hi - 1);
        assert(-10 <= v <= 10);
        assert(-(b * 10) <= x * v <= b * 10) by (nonlinear_arith)
            requires
                -b <= x <= b,
                -10 <= v <= 10,
        ;
        assert(pow(10, (hi - lo) as nat) == 10 * b);
    }
}

/// The padded leaves of the first `m` positions multiply to the product
/// of the first `m` leaves.
proof fn lemma_padded_product_of_leaves(leaves: Seq<isize>, m: int)
    requires
        0 <= m <= leaves.len(),
    ensures
        padded_product(leaves, 0, m) == leaf_product(leaves.take(m)),
    decreases m,
{
    if m > 0 {
        lemma_padded_product_of_leaves(leaves, m - 1);
        assert(leaves.take(m).drop_last() =~= leaves.take(m - 1));
    }
}

/// Past the last leaf every padded leaf is 2.
proof fn lemma_padded_product_of_padding(leaves: Seq<isize>, j: nat)
    ensures
        padded_product(leaves, leaves.len() as int, (leaves.len() + j) as int) == pow2(j),
    decreases j,
{
    if j == 0 {
        lemma2_to64();
    } else {
        lemma_padded_product_of_padding(leaves, (j - 1) as nat);
        lemma_pow2_unfold(j);
    }
}

/// The Merkle node of height `k` at `index` is the product of the padded
/// leaves below it, while such products fit in an `isize`.
proof fn lemma_merkle_node_product<C: Compressor<isize>>(leaves: Seq<isize>, k: nat, index: int)
    requires
        is_multiplicative::<C>(),
        C::spec_iterated(0) == 2,
        isize::MAX == 0x7fff_ffff_ffff_ffff,
        small_leaves(leaves),
        k <= 4,
        index >= 0,
    ensures
        merkle_node::<isize, C>(leaves, k, index) == padded_product(
            leaves,
            index * pow2(k),
            index * pow2(k) + pow2(k),
        ),
    decreases k,
{
    lemma2_to64();
    if k > 0 {
        let m = pow2((k - 1) as nat) as int;
        lemma_pow2_unfold(k);
        let lo = index * pow2(k);
        assert(lo == (2 * index) * m) by (nonlinear_arith)
            requires
                lo == index * pow2(k),
                pow2(k) == 2 * m,
        ;
        assert((2 * index + 1) * m == lo + m) by (nonlinear_arith)
            requires
                lo == (2 * index) * m,
        ;
        lemma_merkle_node_product::<C>(leaves, (k - 1) as nat, 2 * index);
        lemma_merkle_node_product::<C>(leaves, (k - 1) as nat, 2 * index + 1);
        let a = merkle_node::<isize, C>(leaves, (k - 1) as nat, 2 * index);
        let b = merkle_node::<isize, C>(leaves, (k - 1) as nat, 2 * index + 1);
        assert(a == padded_product(leaves, lo, lo + m));
        assert(b == padded_product(leaves, lo + m, lo + 2 * m));
        lemma_padded_product_split(leaves, lo, lo + m, lo + 2 * m);
        lemma_padded_product_bound(leaves, lo, lo + 2 * m);
        assert(2 * m <= 16);
        lemma_pow_increases(10, (2 * m) as nat, 16);
        assert(pow(10, 16) == 10_000_000_000_000_000) by {
            reveal_with_fuel(pow, 17);
        }
        assert(isize::MIN <= a * b <= isize::MAX);
        assert(C::spec_compress(a, b) == a * b);
        assert(merkle_node::<isize, C>(leaves, k, index) == C::spec_compress(a, b));
    } else {
        assert(index * pow2(0) == index);
        assert(padded_product(leaves, index, index) == 1);
        assert(padded_product(leaves, index, index + 1) == padded_leaf(leaves, index));
    }
}

/// With a compressor that multiplies, whose empty leaf is 2 and whose
/// empty subtree roots are iterated compressions, the root of a
/// consistent tree of height at most 4 with leaves between -10 and 10 is
/// the product of the leaves times 2 for every missing leaf.
pub proof fn law_multiplicative_root<C: Compressor<isize>>(t: Seq<Seq<isize>>)
    requires
        is_multiplicative::<C>(),
        obeys_iterated_law::<isize, C>(),
        C::spec_iterated(0) == 2,
        isize::MAX == 0x7fff_ffff_ffff_ffff,
        is_consistent::<isize, C>(t),
        t.len() <= 5,
        forall|i: int| 0 <= i < t[t.len() - 1].len() ==> -10 <= #[trigger] t[t.len() - 1][i] <= 10,
    ensures
        virtual_node_of::<isize, C>(t, 0, 0) == leaf_product(t[t.len() - 1]) * pow2(
            (pow2((t.len() - 1) as nat) - t[t.len() - 1].len()) as nat,
        ),
{
    let h = (t.len() - 1) as nat;
    let leaves = t[h as int];
    let n = leaves.len() as int;
    let full = pow2(h) as int;
    law_root_is_merkle_root::<isize, C>(t);
    lemma_merkle_node_product::<C>(leaves, h, 0);
    assert(0 * full == 0);
    lemma_padded_product_split(leaves, 0, n, full);
    lemma_padded_product_of_leaves(leaves, n);
    assert(leaves.take(n) =~= leaves);
    lemma_padded_product_of_padding(leaves, (full - n) as nat);
}

} // verus!
