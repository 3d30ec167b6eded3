use vstd::prelude::*;
use crate::sums::{sum_to, lemma_sum_prefix_le};

verus! {

/// A vector of fixed-point values, read as integers.
pub open spec fn ints(v: Seq<u64>) -> Seq<int> {
    Seq::new(v.len(), |i: int| v[i] as int)
}

/// Squared Euclidean norm of `a - b`.
pub open spec fn delta_squared(a: Seq<int>, b: Seq<int>) -> int {
    sum_to(a.len() as int, |i: int| (a[i] - b[i]) * (a[i] - b[i]))
}

/// Whether `‖next - prev‖ <= threshold`, decided exactly on squares.
pub fn has_converged(prev: &Vec<u64>, next: &Vec<u64>, threshold: u64) -> (r: bool)
    requires
        prev@.len() == next@.len(),
    ensures
        r == (delta_squared(ints(prev@), ints(next@)) <= threshold as int * threshold as int),
{
    let n = prev.len();
    let ghost a = ints(prev@);
    let ghost b = ints(next@);
    let ghost g = |i: int| (a[i] - b[i]) * (a[i] - b[i]);
    proof {
        assert forall|i: int| 0 <= i < n implies 0 <= #[trigger] g(i) by {
            assert((a[i] - b[i]) * (a[i] - b[i]) >= 0) by (nonlinear_arith);
        }
    }
    let t128: u128 = threshold as u128;
    assert(t128 * t128 <= 0xFFFF_FFFF_FFFF_FFFFu128 * 0xFFFF_FFFF_FFFF_FFFFu128) by (nonlinear_arith)
        requires t128 <= 0xFFFF_FFFF_FFFF_FFFFu128;
    let limit: u128 = threshold as u128 * threshold as u128;
    let mut acc: u128 = 0;
    let mut i: usize = 0;
    while i < n
        invariant
            i <= n,
            n == prev@.len(),
            n == next@.len(),
            a == ints(prev@),
            b == ints(next@),
            g == (|k: int| (a[k] - b[k]) * (a[k] - b[k])),
            forall|k: int| 0 <= k < n ==> 0 <= #[trigger] g(k),
            limit as int == threshold as int * threshold as int,
            acc as int == sum_to(i as int, g),
            acc <= limit,
        decreases n - i,
    {
        let x = prev[i];
        let y = next[i];
        let d: u128 = if x >= y { (x - y) as u128 } else { (y - x) as u128 };
        assert(d * d <= 0xFFFF_FFFF_FFFF_FFFFu128 * 0xFFFF_FFFF_FFFF_FFFFu128) by (nonlinear_arith)
            requires d <= 0xFFFF_FFFF_FFFF_FFFFu128;
        let sq: u128 = d * d;
        proof {
            assert(g(i as int) == sq as int) by (nonlinear_arith)
                requires g(i as int) == (a[i as int] - b[i as int]) * (a[i as int] - b[i as int]),
                    a[i as int] == x as int, b[i as int] == y as int,
                    d as int == if x >= y { x - y } else { y - x }, sq == d * d;
            assert(sum_to(i as int + 1, g) == sum_to(i as int, g) + g(i as int));
        }
        if sq > limit - acc {
            proof {
                lemma_sum_prefix_le(i as int + 1, n as int, g);
            }
            return false;
        }
        acc = acc + sq;
        i = i + 1;
    }
    true
}

} // verus!
