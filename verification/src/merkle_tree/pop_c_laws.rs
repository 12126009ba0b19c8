//! What the second removal strategy, `pop_c`, leaves of a tree: always
//! the first leaves, and for one removed leaf exactly the tree that
//! `pop_a` leaves, the consistent tree of the remaining leaves.

use vstd::prelude::*;
use vstd::arithmetic::power2::{lemma_pow2_unfold, pow2};

use super::laws::law_removal_consistent;
use super::spec::{
    halve_down, halve_up, is_consistent, is_pop_c, is_pop_c_level, is_removal, is_trimmed_level,
    lemma_halve_down_le, lemma_halve_up_bounds, lemma_pop_c_stop_le, pop_c_len, pop_c_stop,
    pop_c_stop_of, some_odd_count,
};
use super::Compressor;

verus! {

/// Removing `n` leaves with `pop_c` keeps exactly the first leaves.
pub proof fn law_pop_c_leaves<T, C: Compressor<T>>(old: Seq<Seq<T>>, n: nat, new: Seq<Seq<T>>)
    requires
        2 <= old.len(),
        n <= old[old.len() - 1].len(),
        is_pop_c::<T, C>(old, n, new),
    ensures
        new.len() == old.len(),
        new[new.len() - 1] == old[old.len() - 1].take(old[old.len() - 1].len() - n),
{
    let h = old.len() - 1;
    if n == 0 {
        assert(old[h].take(old[h].len() as int) =~= old[h]);
    } else {
        assert(is_pop_c_level::<T, C>(old, new, n, h));
        reveal(is_pop_c_level);
        lemma_pop_c_stop_le((old[h].len() - n) as nat, (h - 1) as nat);
        assert(new[h] =~= old[h].take(old[h].len() - n));
    }
}

/// One more leaf adds one node `k` levels up exactly when every level
/// below it has an even number of nodes.
proof fn lemma_halve_up_succ(c: nat, k: nat)
    requires
        k >= 1,
    ensures
        some_odd_count(c, (k - 1) as nat) ==> halve_up(c + 1, k) == halve_up(c, k),
        !some_odd_count(c, (k - 1) as nat) ==> halve_up(c + 1, k) == halve_up(c, k) + 1,
    decreases k,
{
    let u = halve_up(c, (k - 1) as nat);
    let w = halve_up(c + 1, (k - 1) as nat);
    assert(halve_up(c, k) == (u + 1) / 2);
    assert(halve_up(c + 1, k) == (w + 1) / 2);
    if k > 1 {
        lemma_halve_up_succ(c, (k - 1) as nat);
        assert(some_odd_count(c, (k - 1) as nat) == (u % 2 == 1 || some_odd_count(
            c,
            (k - 2) as nat,
        )));
    } else {
        assert(u == c && w == c + 1);
        assert(some_odd_count(c, 0) == (c % 2 == 1));
    }
}

/// Halving an even count first shifts the levels by one.
proof fn lemma_halve_up_even(x: nat, j: nat)
    requires
        x % 2 == 0,
    ensures
        halve_up(x, j + 1) == halve_up(x / 2, j),
    decreases j,
{
    if j > 0 {
        lemma_halve_up_even(x, (j - 1) as nat);
        assert(halve_up(x, j + 1) == (halve_up(x, j) + 1) / 2);
        assert(halve_up(x / 2, j) == (halve_up(x / 2, (j - 1) as nat) + 1) / 2);
    } else {
        assert(halve_up(x, 1) == (halve_up(x, 0) + 1) / 2);
        assert(halve_up(x, 0) == x);
        assert(halve_up(x / 2, 0) == x / 2);
    }
}

/// For an even count, an odd level among the lowest `i + 2` is an odd
/// level among the lowest `i + 1` of the halved count.
proof fn lemma_some_odd_count_even(x: nat, i: nat)
    requires
        x % 2 == 0,
    ensures
        some_odd_count(x, i + 1) == some_odd_count(x / 2, i),
    decreases i,
{
    lemma_halve_up_even(x, i);
    assert(some_odd_count(x, i + 1) == (halve_up(x, i + 1) % 2 == 1 || some_odd_count(x, i)));
    if i > 0 {
        lemma_some_odd_count_even(x, (i - 1) as nat);
        assert(some_odd_count(x / 2, i) == (halve_up(x / 2, i) % 2 == 1 || some_odd_count(
            x / 2,
            (i - 1) as nat,
        )));
    } else {
        assert(halve_up(x, 0) == x);
        assert(some_odd_count(x, 0) == (x % 2 == 1));
        assert(some_odd_count(x / 2, 0) == (halve_up(x / 2, 0) % 2 == 1));
    }
}

/// Starting at `level` with `x` nodes below, the popping climbs above
/// level `v >= 1` exactly when every level from the start down to `v`'s
/// children has an even number of nodes.
proof fn lemma_pop_c_stop_odd(x: nat, level: nat, v: nat)
    requires
        1 <= v <= level,
    ensures
        (v > pop_c_stop(x, level)) == !some_odd_count(x, (level - v) as nat),
    decreases level,
{
    if x % 2 == 0 && level > 0 {
        if v < level {
            lemma_pop_c_stop_odd(x / 2, (level - 1) as nat, v);
            lemma_some_odd_count_even(x, (level - 1 - v) as nat);
            assert((level - v) as nat == ((level - 1 - v) as nat + 1) as nat);
        } else {
            lemma_pop_c_stop_le(x / 2, (level - 1) as nat);
            assert(halve_up(x, 0) == x);
        }
    } else {
        assert(halve_up(x, 0) == x);
        if level - v > 0 {
            assert(some_odd_count(x, 0));
            lemma_some_odd_count_mono(x, 0, (level - v) as nat);
        }
    }
}

/// An odd level among the lowest `i + 1` is one among the lowest `j + 1`.
proof fn lemma_some_odd_count_mono(x: nat, i: nat, j: nat)
    requires
        i <= j,
        some_odd_count(x, i),
    ensures
        some_odd_count(x, j),
    decreases j - i,
{
    if i < j {
        lemma_some_odd_count_mono(x, i, (j - 1) as nat);
    }
}

/// `k` halvings of at most `m * 2^k` nodes leave at most `m`.
proof fn lemma_halve_up_le(x: nat, m: nat, k: nat)
    requires
        x <= m * pow2(k),
    ensures
        halve_up(x, k) <= m,
    decreases k,
{
    if k == 0 {
        vstd::arithmetic::power2::lemma2_to64();
    } else {
        lemma_pow2_unfold(k);
        let p = pow2((k - 1) as nat);
        assert(m * pow2(k) == (2 * m) * p) by (nonlinear_arith)
            requires
                pow2(k) == 2 * p,
        ;
        lemma_halve_up_le(x, 2 * m, (k - 1) as nat);
    }
}

/// A tree with between one and `2^h - 1` leaves has a level with an odd
/// number of nodes below the root.
proof fn lemma_some_odd_below_root(c: nat, h: nat)
    requires
        h >= 1,
        1 <= c,
        c + 1 <= pow2(h),
    ensures
        some_odd_count(c, (h - 1) as nat),
{
    if !some_odd_count(c, (h - 1) as nat) {
        lemma_halve_up_succ(c, h);
        lemma_halve_up_bounds(c, h);
        lemma_halve_up_le(c + 1, 1, h);
    }
}

/// Removing one leaf with `pop_c` from a consistent tree of at least two
/// leaves does what `pop_a` does: it leaves the consistent tree of the
/// remaining leaves, whose inner nodes on the new right edge are the
/// compressions of their children, left child first.
pub proof fn law_pop_c_one_is_removal<T, C: Compressor<T>>(old: Seq<Seq<T>>, new: Seq<Seq<T>>)
    requires
        is_consistent::<T, C>(old),
        2 <= old[old.len() - 1].len(),
        is_pop_c::<T, C>(old, 1, new),
    ensures
        is_removal::<T, C>(old, 1, new),
        is_consistent::<T, C>(new),
        new[new.len() - 1] == old[old.len() - 1].take(old[old.len() - 1].len() - 1),
{
    let h = old.len() - 1;
    let big_n = old[h].len();
    let c = (big_n - 1) as nat;
    vstd::arithmetic::power2::lemma2_to64();
    assert(h >= 1);
    law_pop_c_leaves::<T, C>(old, 1, new);
    let stop = pop_c_stop_of(old, 1);
    assert(stop == pop_c_stop(c, (h - 1) as nat));
    lemma_pop_c_stop_le(c, (h - 1) as nat);
    reveal(is_pop_c_level);
    // The length of every level is that of the tree of `c` leaves.
    assert forall|l: int| 0 <= l < h implies {
        &&& #[trigger] pop_c_len(old, 1, l) == halve_up(c, (h - l) as nat)
        &&& (l <= stop) == some_odd_count(c, (h - l - 1) as nat)
    } by {
        let k = (h - l) as nat;
        lemma_halve_down_le(0, k);
        assert(old[l].len() == halve_up(big_n, k));
        lemma_halve_up_succ(c, k);
        lemma_halve_up_bounds(c, k);
        if l >= 1 {
            lemma_pop_c_stop_odd(c, (h - 1) as nat, l as nat);
            assert((h - 1 - l) as nat == (k - 1) as nat);
        } else {
            lemma_some_odd_below_root(c, h as nat);
        }
    }
    assert(pop_c_len(old, 1, h) == halve_up(c, 0));
    assert forall|l: int| 0 <= l < h implies #[trigger] is_trimmed_level::<T, C>(old, new, l, c) by {
        reveal(is_trimmed_level);
        let k = (h - l) as nat;
        let r = halve_up(c, k) as int;
        assert(is_pop_c_level::<T, C>(old, new, 1, l));
        assert(is_pop_c_level::<T, C>(old, new, 1, l + 1));
        lemma_halve_up_bounds(c, k);
        lemma_halve_up_bounds(c, (k - 1) as nat);
        assert(pop_c_len(old, 1, l + 1) == halve_up(c, (k - 1) as nat));
        assert(new[l].len() == r);
        assert((pop_c_len(old, 1, l + 1) - 1) / 2 == r - 1);
    }
    law_removal_consistent::<T, C>(old, 1, new);
}

} // verus!
