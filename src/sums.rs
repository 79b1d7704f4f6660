//! Finite sums of integer-valued spec functions, and the rearrangements that
//! the determinant laws need.
use crate::model::signed;
use vstd::prelude::*;

verus! {

/// `f(0) + f(1) + ... + f(n - 1)`.
pub open spec fn sum(n: nat, f: spec_fn(int) -> int) -> int
    decreases n,
{
    if n == 0 {
        0
    } else {
        sum((n - 1) as nat, f) + f(n - 1)
    }
}

/// Sums of functions that agree below `n` are equal.
pub proof fn lemma_sum_ext(n: nat, f: spec_fn(int) -> int, g: spec_fn(int) -> int)
    requires
        forall|i: int| 0 <= i < n ==> #[trigger] f(i) == g(i),
    ensures
        sum(n, f) == sum(n, g),
    decreases n,
{
    if n > 0 {
        lemma_sum_ext((n - 1) as nat, f, g);
    }
}

/// A sum of zeros is zero.
pub proof fn lemma_sum_zero(n: nat, f: spec_fn(int) -> int)
    requires
        forall|i: int| 0 <= i < n ==> #[trigger] f(i) == 0,
    ensures
        sum(n, f) == 0,
    decreases n,
{
    if n > 0 {
        lemma_sum_zero((n - 1) as nat, f);
    }
}

/// The first term taken out of a sum.
pub proof fn lemma_sum_first(n: nat, f: spec_fn(int) -> int)
    requires
        n >= 1,
    ensures
        sum(n, f) == f(0) + sum((n - 1) as nat, |i: int| f(i + 1)),
    decreases n,
{
    let g = |i: int| f(i + 1);
    if n == 1 {
        assert(sum(0, f) == 0);
        assert(sum(0, g) == 0);
    } else {
        lemma_sum_first((n - 1) as nat, f);
        assert(sum((n - 1) as nat, f) == f(0) + sum((n - 2) as nat, g));
        assert(sum((n - 1) as nat, g) == sum((n - 2) as nat, g) + g(n - 2));
    }
}

/// A sum of sums is the sum of the termwise sums.
pub proof fn lemma_sum_add(n: nat, f: spec_fn(int) -> int, g: spec_fn(int) -> int)
    ensures
        sum(n, f) + sum(n, g) == sum(n, |i: int| f(i) + g(i)),
    decreases n,
{
    if n > 0 {
        lemma_sum_add((n - 1) as nat, f, g);
    }
}

/// A signed multiple of a sum is the sum of the signed multiples.
pub proof fn lemma_sum_signed_scale(n: nat, k: int, a: int, f: spec_fn(int) -> int)
    ensures
        signed(k, a * sum(n, f)) == sum(n, |i: int| signed(k, a * f(i))),
    decreases n,
{
    if n > 0 {
        lemma_sum_signed_scale((n - 1) as nat, k, a, f);
        let s = sum((n - 1) as nat, f);
        let x = f(n - 1);
        assert(a * (s + x) == a * s + a * x) by (nonlinear_arith);
    }
}

/// The order of summation in a double sum does not matter.
pub proof fn lemma_sum_swap(n: nat, m: nat, f: spec_fn(int, int) -> int)
    ensures
        sum(n, |i: int| sum(m, |j: int| f(i, j))) == sum(m, |j: int| sum(n, |i: int| f(i, j))),
    decreases n,
{
    if n > 0 {
        let n1 = (n - 1) as nat;
        let outer = |i: int| sum(m, |j: int| f(i, j));
        let before = |j: int| sum(n1, |i: int| f(i, j));
        let last = |j: int| f(n1 as int, j);
        let both = |j: int| before(j) + last(j);
        let after = |j: int| sum(n, |i: int| f(i, j));
        lemma_sum_swap(n1, m, f);
        assert(sum(n1, outer) == sum(m, before));
        assert(sum(n, outer) == sum(n1, outer) + sum(m, last));
        lemma_sum_add(m, before, last);
        assert forall|j: int| 0 <= j < m implies #[trigger] both(j) == after(j) by {
            assert(sum(n, |i: int| f(i, j)) == sum(n1, |i: int| f(i, j)) + f(n1 as int, j));
        }
        lemma_sum_ext(m, both, after);
        assert(sum(n, outer) == sum(m, after));
    } else {
        lemma_sum_zero(m, |j: int| sum(n, |i: int| f(i, j)));
    }
}


/// Exchanging two neighbouring terms leaves a sum unchanged.
pub proof fn lemma_sum_swap_adjacent(n: nat, r: int, f: spec_fn(int) -> int)
    requires
        0 <= r,
        r + 1 < n,
    ensures
        sum(
            n,
            |i: int|
                f(
                    if i == r {
                        r + 1
                    } else if i == r + 1 {
                        r
                    } else {
                        i
                    },
                ),
        ) == sum(n, f),
    decreases n,
{
    let g = |i: int|
        f(
            if i == r {
                r + 1
            } else if i == r + 1 {
                r
            } else {
                i
            },
        );
    if n > r + 2 {
        lemma_sum_swap_adjacent((n - 1) as nat, r, f);
    } else {
        lemma_sum_ext(r as nat, g, f);
        assert(sum((r + 1) as nat, g) == sum(r as nat, g) + g(r));
        assert(sum((r + 1) as nat, f) == sum(r as nat, f) + f(r));
    }
}

} // verus!
