use vstd::prelude::*;

verus! {

/// `f(0) + f(1) + ... + f(n - 1)`.
pub open spec fn sum_to(n: int, f: spec_fn(int) -> int) -> int
    decreases n,
{
    if n <= 0 {
        0
    } else {
        sum_to(n - 1, f) + f(n - 1)
    }
}

pub proof fn lemma_sum_bounded(n: int, f: spec_fn(int) -> int, b: int)
    requires
        0 <= n,
        0 <= b,
        forall|k: int| 0 <= k < n ==> 0 <= #[trigger] f(k) <= b,
    ensures
        0 <= sum_to(n, f) <= n * b,
    decreases n,
{
    if n > 0 {
        lemma_sum_bounded(n - 1, f, b);
        assert((n - 1) * b + b == n * b) by (nonlinear_arith);
    }
}

pub proof fn lemma_sum_const(n: int, f: spec_fn(int) -> int, v: int)
    requires
        0 <= n,
        forall|k: int| 0 <= k < n ==> #[trigger] f(k) == v,
    ensures
        sum_to(n, f) == n * v,
    decreases n,
{
    if n > 0 {
        lemma_sum_const(n - 1, f, v);
        assert(f(n - 1) == v);
        assert((n - 1) * v + v == n * v) by (nonlinear_arith);
    } else {
        assert(n * v == 0) by (nonlinear_arith) requires n == 0;
    }
}

pub proof fn lemma_sum_ext(n: int, f: spec_fn(int) -> int, g: spec_fn(int) -> int)
    requires
        forall|k: int| 0 <= k < n ==> #[trigger] f(k) == g(k),
    ensures
        sum_to(n, f) == sum_to(n, g),
    decreases n,
{
    if n > 0 {
        lemma_sum_ext(n - 1, f, g);
    }
}

pub proof fn lemma_sum_prefix_le(k: int, n: int, f: spec_fn(int) -> int)
    requires
        0 <= k <= n,
        forall|i: int| 0 <= i < n ==> 0 <= #[trigger] f(i),
    ensures
        0 <= sum_to(k, f) <= sum_to(n, f),
    decreases n,
{
    if k < n {
        lemma_sum_prefix_le(k, n - 1, f);
    } else if n > 0 {
        lemma_sum_prefix_le(k - 1, n - 1, f);
    }
}

pub proof fn lemma_term_le_sum(n: int, f: spec_fn(int) -> int, k: int)
    requires
        0 <= k < n,
        forall|i: int| 0 <= i < n ==> 0 <= #[trigger] f(i),
    ensures
        f(k) <= sum_to(n, f),
{
    lemma_sum_prefix_le(k, n, f);
    lemma_sum_prefix_le(k + 1, n, f);
}

} // verus!
