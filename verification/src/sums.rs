//! Finite sums of natural numbers over a range of integers.

use vstd::prelude::*;

verus! {

/// The sum of `f(x)` over `0 <= x < n`.
pub open spec fn sum_to(f: spec_fn(int) -> nat, n: int) -> nat
    decreases n,
{
    if n <= 0 {
        0
    } else {
        sum_to(f, n - 1) + f(n - 1)
    }
}

/// Sums of functions that agree on the range are equal.
pub proof fn lemma_sum_agree(f: spec_fn(int) -> nat, g: spec_fn(int) -> nat, n: int)
    requires
        forall|x: int| 0 <= x < n ==> #[trigger] f(x) == g(x),
    ensures
        sum_to(f, n) == sum_to(g, n),
    decreases n,
{
    if n > 0 {
        lemma_sum_agree(f, g, n - 1);
    }
}

/// A function that is nowhere larger has no larger sum.
pub proof fn lemma_sum_le(f: spec_fn(int) -> nat, g: spec_fn(int) -> nat, n: int)
    requires
        forall|x: int| 0 <= x < n ==> #[trigger] f(x) <= g(x),
    ensures
        sum_to(f, n) <= sum_to(g, n),
    decreases n,
{
    if n > 0 {
        lemma_sum_le(f, g, n - 1);
    }
}

/// Each term is at most the sum.
pub proof fn lemma_sum_term(f: spec_fn(int) -> nat, k: int, n: int)
    requires
        0 <= k < n,
    ensures
        f(k) <= sum_to(f, n),
    decreases n,
{
    if k < n - 1 {
        lemma_sum_term(f, k, n - 1);
    }
}

/// The sum of a pointwise sum is the sum of the sums.
pub proof fn lemma_sum_add(
    f: spec_fn(int) -> nat,
    g: spec_fn(int) -> nat,
    h: spec_fn(int) -> nat,
    n: int,
)
    requires
        forall|x: int| 0 <= x < n ==> #[trigger] h(x) == f(x) + g(x),
    ensures
        sum_to(h, n) == sum_to(f, n) + sum_to(g, n),
    decreases n,
{
    if n > 0 {
        lemma_sum_add(f, g, h, n - 1);
    }
}

/// Terms that are zero from `m` on add nothing.
pub proof fn lemma_sum_zero_tail(f: spec_fn(int) -> nat, m: int, n: int)
    requires
        0 <= m <= n,
        forall|x: int| m <= x < n ==> #[trigger] f(x) == 0,
    ensures
        sum_to(f, n) == sum_to(f, m),
    decreases n,
{
    if n > m {
        lemma_sum_zero_tail(f, m, n - 1);
    }
}

/// A sum all of whose terms are zero is zero.
pub proof fn lemma_sum_zero(f: spec_fn(int) -> nat, n: int)
    requires
        forall|x: int| 0 <= x < n ==> #[trigger] f(x) == 0,
    ensures
        sum_to(f, n) == 0,
    decreases n,
{
    if n > 0 {
        lemma_sum_zero(f, n - 1);
    }
}

/// Two functions that differ in `k` alone have sums that differ as their
/// values in `k` do.
pub proof fn lemma_sum_differ_at(f: spec_fn(int) -> nat, g: spec_fn(int) -> nat, k: int, n: int)
    requires
        0 <= k < n,
        forall|x: int| 0 <= x < n && x != k ==> #[trigger] f(x) == g(x),
    ensures
        sum_to(f, n) + g(k) == sum_to(g, n) + f(k),
    decreases n,
{
    if k == n - 1 {
        lemma_sum_agree(f, g, n - 1);
    } else {
        lemma_sum_differ_at(f, g, k, n - 1);
    }
}

/// Moving every term one place up: if `g(x) == f(x - 1)` and `f(-1)` does
/// not count, the sum of `g` lacks the last term of `f`.
pub proof fn lemma_sum_shift_up(f: spec_fn(int) -> nat, g: spec_fn(int) -> nat, n: int)
    requires
        0 < n,
        g(0) == 0,
        forall|x: int| 0 < x < n ==> #[trigger] g(x) == f(x - 1),
    ensures
        sum_to(g, n) + f(n - 1) == sum_to(f, n),
    decreases n,
{
    if n > 1 {
        lemma_sum_shift_up(f, g, n - 1);
        assert(g(n - 1) == f(n - 2));
    } else {
        assert(sum_to(f, 0) == 0 && sum_to(g, 0) == 0);
    }
}

/// Moving every term one place down: if `g(x) == f(x + 1)`, the sum of `g`
/// lacks the first term of `f` and has `f(n)` in its place.
pub proof fn lemma_sum_shift_down(f: spec_fn(int) -> nat, g: spec_fn(int) -> nat, n: int)
    requires
        0 < n,
        forall|x: int| 0 <= x < n ==> #[trigger] g(x) == f(x + 1),
    ensures
        sum_to(g, n) + f(0) == sum_to(f, n) + f(n),
    decreases n,
{
    if n > 1 {
        lemma_sum_shift_down(f, g, n - 1);
        assert(g(n - 1) == f(n));
    } else {
        assert(sum_to(f, 0) == 0 && sum_to(g, 0) == 0);
        assert(g(0) == f(1));
    }
}

} // verus!
