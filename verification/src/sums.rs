//! Finite sums over an integer range, used by the comparison metrics.

use vstd::prelude::*;

verus! {

/// `f(0) + f(1) + ... + f(n - 1)` (zero when `n <= 0`).
pub open spec fn sum_upto(f: spec_fn(int) -> int, n: int) -> int
    decreases n,
{
    if n <= 0 {
        0
    } else {
        sum_upto(f, n - 1) + f(n - 1)
    }
}

/// A sum of terms that are each at least zero and at most `bound` lies in `[0, n * bound]`.
pub proof fn lemma_sum_bounds(f: spec_fn(int) -> int, n: int, bound: int)
    requires
        0 <= n,
        forall|i: int| 0 <= i < n ==> 0 <= #[trigger] f(i) <= bound,
    ensures
        0 <= sum_upto(f, n) <= n * bound,
    decreases n,
{
    if n > 0 {
        lemma_sum_bounds(f, n - 1, bound);
        assert((n - 1) * bound + bound == n * bound) by (nonlinear_arith);
    } else {
        assert(n * bound == 0) by (nonlinear_arith)
            requires n == 0;
    }
}

/// Partial sums of terms that are at least zero grow with the range.
pub proof fn lemma_sum_monotone(f: spec_fn(int) -> int, k: int, n: int)
    requires
        0 <= k <= n,
        forall|i: int| 0 <= i < n ==> 0 <= #[trigger] f(i),
    ensures
        sum_upto(f, k) <= sum_upto(f, n),
    decreases n - k,
{
    if k < n {
        lemma_sum_monotone(f, k, n - 1);
    }
}

/// Sums of two functions that agree on the range are equal.
pub proof fn lemma_sum_congruent(f: spec_fn(int) -> int, g: spec_fn(int) -> int, n: int)
    requires
        forall|i: int| 0 <= i < n ==> #[trigger] f(i) == g(i),
    ensures
        sum_upto(f, n) == sum_upto(g, n),
    decreases n,
{
    if n > 0 {
        lemma_sum_congruent(f, g, n - 1);
    }
}

/// Termwise `f(i) <= g(i)` gives `sum(f) <= sum(g)`.
pub proof fn lemma_sum_le(f: spec_fn(int) -> int, g: spec_fn(int) -> int, n: int)
    requires
        forall|i: int| 0 <= i < n ==> #[trigger] f(i) <= g(i),
    ensures
        sum_upto(f, n) <= sum_upto(g, n),
    decreases n,
{
    if n > 0 {
        lemma_sum_le(f, g, n - 1);
    }
}

/// Termwise equal sums of nonnegative terms are zero only if every term is.
pub proof fn lemma_sum_zero(f: spec_fn(int) -> int, n: int)
    requires
        forall|i: int| 0 <= i < n ==> #[trigger] f(i) == 0,
    ensures
        sum_upto(f, n) == 0,
    decreases n,
{
    if n > 0 {
        lemma_sum_zero(f, n - 1);
    }
}

} // verus!
