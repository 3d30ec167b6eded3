use vstd::prelude::*;
use crate::sums::{sum_to, lemma_sum_prefix_le, lemma_sum_const, lemma_sum_ext};
use crate::convergence::{ints, delta_squared, has_converged};
use crate::local_trust::{TrustMatrix, TrustError};

verus! {

/// Fixed-point unit: a trust value `v` stands for `v / SCALE`.
pub const SCALE: u64 = 1_000_000_000;

/// Blending with pre-trusted peers: weight `a = weight / out_of` is given to
/// the pre-trust vector `pre_trust` (fixed-point, summing to `SCALE`).
pub struct Damping {
    pub weight: u64,
    pub out_of: u64,
    pub pre_trust: Vec<u64>,
}

/// `0 < a < 1`, and the pre-trust vector has `m` entries summing to 1.
pub open spec fn damping_valid(d: Damping, m: int) -> bool {
    &&& 0 < d.weight < d.out_of
    &&& d.pre_trust@.len() == m
    &&& sum_to(m, |j: int| d.pre_trust@[j] as int) == SCALE as int
}

/// `t(i) * c(i, j)`, rounded down.
pub open spec fn weighted(c: TrustMatrix, t: Seq<int>, i: int, j: int) -> int {
    t[i] * c.entry(i, j) / c.denom(i)
}

/// Entry `j` of `Cᵗ · t`.
pub open spec fn propagated(c: TrustMatrix, t: Seq<int>, j: int) -> int {
    sum_to(c.dim(), |i: int| weighted(c, t, i, j))
}

/// Entry `j` of `(1 - a) · Cᵗ · t + a · p`, rounded down.
pub open spec fn damped(c: TrustMatrix, d: Damping, t: Seq<int>, j: int) -> int {
    ((d.out_of - d.weight) * propagated(c, t, j) + d.weight * d.pre_trust@[j]) / (d.out_of as int)
}

/// One step of power iteration, plain or damped.
pub open spec fn update(c: TrustMatrix, d: Option<Damping>, t: Seq<int>) -> Seq<int> {
    Seq::new(
        c.dim() as nat,
        |j: int|
            match d {
                None => propagated(c, t, j),
                Some(dd) => damped(c, dd, t, j),
            },
    )
}

/// The trust vector after `n` steps from `t0`.
pub open spec fn iterate(c: TrustMatrix, d: Option<Damping>, t0: Seq<int>, n: nat) -> Seq<int>
    decreases n,
{
    if n == 0 {
        t0
    } else {
        update(c, d, iterate(c, d, t0, (n - 1) as nat))
    }
}

/// Every entry of `Cᵗ · t` is a representable fixed-point value.
#[verifier::opaque]
pub open spec fn in_range(c: TrustMatrix, t: Seq<int>) -> bool {
    forall|j: int| 0 <= j < c.dim() ==> #[trigger] propagated(c, t, j) <= u64::MAX
}

/// The step from iterate `k` to iterate `k + 1` moved the vector by at most
/// `eps` in Euclidean norm.
pub open spec fn settles_after(c: TrustMatrix, d: Option<Damping>, t0: Seq<int>, k: nat, eps: int) -> bool {
    delta_squared(iterate(c, d, t0, k), iterate(c, d, t0, k + 1)) <= eps * eps
}

/// The first `n` steps each started from an in-range vector and none of them
/// settled.
pub open spec fn unsettled_through(c: TrustMatrix, d: Option<Damping>, t0: Seq<int>, n: nat, eps: int) -> bool {
    &&& forall|k: nat| k < n ==> #[trigger] in_range(c, iterate(c, d, t0, k))
    &&& forall|k: nat| k < n ==> !#[trigger] settles_after(c, d, t0, k, eps)
}

proof fn lemma_unsettled_extend(c: TrustMatrix, d: Option<Damping>, t0: Seq<int>, n: nat, eps: int)
    requires
        unsettled_through(c, d, t0, n, eps),
        in_range(c, iterate(c, d, t0, n)),
        !settles_after(c, d, t0, n, eps),
    ensures
        unsettled_through(c, d, t0, n + 1, eps),
{
    assert forall|k: nat| k < n + 1 implies #[trigger] in_range(c, iterate(c, d, t0, k)) by {
        if k < n {
            assert(in_range(c, iterate(c, d, t0, k)));
        }
    }
    assert forall|k: nat| k < n + 1 implies !#[trigger] settles_after(c, d, t0, k, eps) by {
        if k < n {
            assert(!settles_after(c, d, t0, k, eps));
        }
    }
    assert(unsettled_through(c, d, t0, n + 1, eps));
}

/// What a run of at most `max` steps from `t0` returns: the first settled
/// iterate and its step count; `NonTermination` when no step settled; or
/// `Overflow` when a step left the fixed-point range before any settled.
pub open spec fn run_outcome(
    c: TrustMatrix,
    d: Option<Damping>,
    t0: Seq<int>,
    eps: u64,
    max: nat,
    r: Result<(Vec<u64>, usize), TrustError>,
) -> bool {
    match r {
        Ok((t, n)) => 1 <= n <= max
            && ints(t@) == iterate(c, d, t0, n as nat)
            && settles_after(c, d, t0, (n - 1) as nat, eps as int)
            && unsettled_through(c, d, t0, (n - 1) as nat, eps as int),
        Err(TrustError::NonTermination) => unsettled_through(c, d, t0, max, eps as int),
        Err(TrustError::Overflow) => exists|k: nat| k < max
            && !in_range(c, #[trigger] iterate(c, d, t0, k))
            && unsettled_through(c, d, t0, k, eps as int),
        Err(_) => false,
    }
}

/// Row `peer` of C as a fixed-point vector.
pub open spec fn scaled_row(c: TrustMatrix, peer: int) -> Seq<int> {
    Seq::new(c.dim() as nat, |j: int| SCALE * c.entry(peer, j) / c.denom(peer))
}

/// Column `j` of C as a fixed-point vector.
pub open spec fn scaled_column(c: TrustMatrix, j: int) -> Seq<int> {
    Seq::new(c.dim() as nat, |i: int| SCALE * c.entry(i, j) / c.denom(i))
}

proof fn lemma_scaled_le(x: int, n: int, d: int)
    requires
        0 <= x,
        0 <= n <= d,
        0 < d,
    ensures
        0 <= x * n / d <= x,
{
    assert(0 <= x * n / d <= x) by (nonlinear_arith)
        requires 0 <= x, 0 <= n <= d, 0 < d;
}

/// Entry `j` of `Cᵗ · t`, or `None` where it exceeds `u64::MAX`.
fn propagate_entry(c: &TrustMatrix, t: &Vec<u64>, j: usize) -> (r: Option<u64>)
    requires
        c.wf(),
        t@.len() == c.dim(),
        j < c.dim(),
    ensures
        match r {
            Some(v) => v as int == propagated(*c, ints(t@), j as int),
            None => propagated(*c, ints(t@), j as int) > u64::MAX,
        },
{
    let m = c.den.len();
    let ghost tv = ints(t@);
    let ghost f = |i: int| weighted(*c, tv, i, j as int);
    proof {
        assert forall|i: int| 0 <= i < m implies 0 <= #[trigger] f(i) by {
            lemma_scaled_le(tv[i], c.entry(i, j as int), c.denom(i));
        }
    }
    let mut acc: u64 = 0;
    let mut i: usize = 0;
    while i < m
        invariant
            i <= m,
            m == c.dim(),
            j < m,
            c.wf(),
            t@.len() == m,
            tv == ints(t@),
            f == (|k: int| weighted(*c, tv, k, j as int)),
            forall|k: int| 0 <= k < m ==> 0 <= #[trigger] f(k),
            acc as int == sum_to(i as int, f),
        decreases m - i,
    {
        let x = t[i];
        let n = c.num[i][j];
        let d = c.den[i];
        assert(c.denom(i as int) > 0 && c.entry(i as int, j as int) <= c.denom(i as int));
        assert(x as u128 * n as u128 <= 0xFFFF_FFFF_FFFF_FFFFu128 * 0xFFFF_FFFF_FFFF_FFFFu128)
            by (nonlinear_arith) requires x <= 0xFFFF_FFFF_FFFF_FFFFu64, n <= 0xFFFF_FFFF_FFFF_FFFFu64;
        let w128: u128 = (x as u128 * n as u128) / d as u128;
        proof {
            lemma_scaled_le(x as int, n as int, d as int);
            assert(f(i as int) == w128 as int);
            assert(sum_to(i as int + 1, f) == sum_to(i as int, f) + f(i as int));
        }
        let w = w128 as u64;
        if w > u64::MAX - acc {
            proof {
                lemma_sum_prefix_le(i as int + 1, m as int, f);
            }
            return None;
        }
        acc = acc + w;
        i = i + 1;
    }
    Some(acc)
}

/// One step of power iteration, or `None` where an entry leaves the range.
fn apply_update(c: &TrustMatrix, d: &Option<Damping>, t: &Vec<u64>) -> (r: Option<Vec<u64>>)
    requires
        c.wf(),
        t@.len() == c.dim(),
        match d {
            Some(dd) => damping_valid(*dd, c.dim()),
            None => true,
        },
    ensures
        match r {
            Some(v) => v@.len() == c.dim() && ints(v@) == update(*c, *d, ints(t@))
                && in_range(*c, ints(t@)),
            None => !in_range(*c, ints(t@)),
        },
{
    reveal(in_range);
    let m = c.den.len();
    let ghost u = update(*c, *d, ints(t@));
    let mut out: Vec<u64> = Vec::new();
    let mut j: usize = 0;
    while j < m
        invariant
            j <= m,
            m == c.dim(),
            c.wf(),
            t@.len() == m,
            u == update(*c, *d, ints(t@)),
            match d {
                Some(dd) => damping_valid(*dd, c.dim()),
                None => true,
            },
            out@.len() == j,
            forall|k: int| 0 <= k < j ==> #[trigger] out@[k] as int == u[k],
            forall|k: int| 0 <= k < j ==> #[trigger] propagated(*c, ints(t@), k) <= u64::MAX,
        decreases m - j,
    {
        let p = match propagate_entry(c, t, j) {
            Some(p) => p,
            None => {
                reveal(in_range);
                return None;
            },
        };
        let v: u64 = match d {
            None => p,
            Some(dd) => {
                let pre = dd.pre_trust[j];
                let keep = (dd.out_of - dd.weight) as u128;
                let w = dd.weight as u128;
                let o = dd.out_of as u128;
                assert(keep * p as u128 + w * pre as u128 <= o * 0xFFFF_FFFF_FFFF_FFFFu128
                    && o * 0xFFFF_FFFF_FFFF_FFFFu128 <= 0xFFFF_FFFF_FFFF_FFFFu128 * 0xFFFF_FFFF_FFFF_FFFFu128)
                    by (nonlinear_arith)
                    requires keep + w == o, p <= 0xFFFF_FFFF_FFFF_FFFFu64, pre <= 0xFFFF_FFFF_FFFF_FFFFu64,
                        o <= 0xFFFF_FFFF_FFFF_FFFFu128;
                let s: u128 = keep * p as u128 + w * pre as u128;
                assert(s / o <= 0xFFFF_FFFF_FFFF_FFFFu128) by (nonlinear_arith)
                    requires s <= o * 0xFFFF_FFFF_FFFF_FFFFu128, o > 0;
                (s / o) as u64
            },
        };
        out.push(v);
        j = j + 1;
    }
    assert(ints(out@) =~= u);
    Some(out)
}

/// The threshold is positive, and damping (when given) is valid for C.
pub open spec fn config_valid(c: TrustMatrix, d: Option<Damping>, threshold: u64) -> bool {
    &&& threshold > 0
    &&& match d {
        Some(dd) => damping_valid(dd, c.dim()),
        None => true,
    }
}

fn copy_of(v: &Vec<u64>) -> (r: Vec<u64>)
    ensures
        r@ == v@,
{
    let mut r: Vec<u64> = Vec::new();
    let mut i: usize = 0;
    while i < v.len()
        invariant
            i <= v@.len(),
            r@ == v@.subrange(0, i as int),
        decreases v@.len() - i,
    {
        r.push(v[i]);
        i = i + 1;
    }
    assert(r@ =~= v@);
    r
}

/// Whether the fixed-point entries of `p` add up to exactly `SCALE`.
fn sums_to_scale(p: &Vec<u64>) -> (r: bool)
    ensures
        r == (sum_to(p@.len() as int, |j: int| p@[j] as int) == SCALE as int),
{
    let n = p.len();
    let ghost f = |j: int| p@[j] as int;
    let mut acc: u64 = 0;
    let mut i: usize = 0;
    while i < n
        invariant
            i <= n,
            n == p@.len(),
            f == (|j: int| p@[j] as int),
            acc as int == sum_to(i as int, f),
            acc <= SCALE,
        decreases n - i,
    {
        let x = p[i];
        assert(sum_to(i as int + 1, f) == sum_to(i as int, f) + f(i as int));
        if x > SCALE - acc {
            proof {
                lemma_sum_prefix_le(i as int + 1, n as int, f);
            }
            return false;
        }
        acc = acc + x;
        i = i + 1;
    }
    acc == SCALE
}

/// Checks the configuration: a positive threshold and, when damping is
/// given, `0 < a < 1` and a pre-trust vector of M entries summing to 1.
pub fn check_config(c: &TrustMatrix, damping: &Option<Damping>, threshold: u64) -> (r: bool)
    ensures
        r == config_valid(*c, *damping, threshold),
{
    if threshold == 0 {
        return false;
    }
    match damping {
        None => true,
        Some(d) => 0 < d.weight && d.weight < d.out_of && d.pre_trust.len() == c.den.len()
            && sums_to_scale(&d.pre_trust),
    }
}

/// Power iteration from `start` under the plain or damped update, stopping
/// at the first step whose Euclidean change is at most `threshold`, and
/// giving up after `max_iterations` steps.
///
/// Returns the final vector and the number of steps taken.
pub fn propagate(
    c: &TrustMatrix,
    start: &Vec<u64>,
    damping: &Option<Damping>,
    threshold: u64,
    max_iterations: usize,
) -> (r: Result<(Vec<u64>, usize), TrustError>)
    requires
        c.wf(),
    ensures
        start@.len() != c.dim() ==> r == Err::<(Vec<u64>, usize), TrustError>(TrustError::DimensionMismatch),
        start@.len() == c.dim() && !config_valid(*c, *damping, threshold)
            ==> r == Err::<(Vec<u64>, usize), TrustError>(TrustError::InvalidConfiguration),
        start@.len() == c.dim() && config_valid(*c, *damping, threshold)
            ==> run_outcome(*c, *damping, ints(start@), threshold, max_iterations as nat, r),
{
    if start.len() != c.den.len() {
        return Err(TrustError::DimensionMismatch);
    }
    if !check_config(c, damping, threshold) {
        return Err(TrustError::InvalidConfiguration);
    }
    let ghost t0 = ints(start@);
    let mut t = copy_of(start);
    let mut n: usize = 0;
    while n < max_iterations
        invariant
            n <= max_iterations,
            c.wf(),
            start@.len() == c.dim(),
            config_valid(*c, *damping, threshold),
            t0 == ints(start@),
            t@.len() == c.dim(),
            ints(t@) == iterate(*c, *damping, t0, n as nat),
            unsettled_through(*c, *damping, t0, n as nat, threshold as int),
        decreases max_iterations - n,
    {
        let next = match apply_update(c, damping, &t) {
            Some(v) => v,
            None => {
                assert(!in_range(*c, iterate(*c, *damping, t0, n as nat)));
                return Err(TrustError::Overflow);
            },
        };
        let done = has_converged(&t, &next, threshold);
        proof {
            assert(in_range(*c, iterate(*c, *damping, t0, n as nat)));
            assert(iterate(*c, *damping, t0, (n + 1) as nat) == update(*c, *damping, iterate(*c, *damping, t0, n as nat)));
        }
        n = n + 1;
        t = next;
        if done {
            return Ok((t, n));
        }
        proof {
            lemma_unsettled_extend(*c, *damping, t0, (n - 1) as nat, threshold as int);
        }
    }
    Err(TrustError::NonTermination)
}

/// Row `peer` (or, with `by_column`, column `peer`) of C as a fixed-point
/// vector.
fn scaled_line(c: &TrustMatrix, peer: usize, by_column: bool) -> (r: Vec<u64>)
    requires
        c.wf(),
        peer < c.dim(),
    ensures
        r@.len() == c.dim(),
        by_column ==> ints(r@) == scaled_column(*c, peer as int),
        !by_column ==> ints(r@) == scaled_row(*c, peer as int),
{
    let m = c.den.len();
    let mut out: Vec<u64> = Vec::new();
    let mut k: usize = 0;
    while k < m
        invariant
            k <= m,
            m == c.dim(),
            peer < m,
            c.wf(),
            out@.len() == k,
            forall|x: int| 0 <= x < k ==> #[trigger] out@[x] as int == if by_column {
                SCALE * c.entry(x, peer as int) / c.denom(x)
            } else {
                SCALE * c.entry(peer as int, x) / c.denom(peer as int)
            },
        decreases m - k,
    {
        let (i, j) = if by_column { (k, peer) } else { (peer, k) };
        let n = c.num[i][j];
        let d = c.den[i];
        assert(c.denom(i as int) > 0 && c.entry(i as int, j as int) <= c.denom(i as int));
        proof {
            lemma_scaled_le(SCALE as int, n as int, d as int);
        }
        assert((SCALE as u128) * (n as u128) <= 1_000_000_000u128 * 0xFFFF_FFFF_FFFF_FFFFu128)
            by (nonlinear_arith) requires n <= 0xFFFF_FFFF_FFFF_FFFFu64;
        let v: u128 = (SCALE as u128 * n as u128) / d as u128;
        out.push(v as u64);
        k = k + 1;
    }
    proof {
        if by_column {
            assert(ints(out@) =~= scaled_column(*c, peer as int));
        } else {
            assert(ints(out@) =~= scaled_row(*c, peer as int));
        }
    }
    out
}

/// Plain power iteration `t <- Cᵗ · t`, started from peer `peer`'s own row
/// of C.
pub fn simple_non_distributed_eigen_trust(
    c: &TrustMatrix,
    peer: usize,
    threshold: u64,
    max_iterations: usize,
) -> (r: Result<(Vec<u64>, usize), TrustError>)
    requires
        c.wf(),
    ensures
        peer >= c.dim() || threshold == 0
            ==> r == Err::<(Vec<u64>, usize), TrustError>(TrustError::InvalidConfiguration),
        peer < c.dim() && threshold > 0
            ==> run_outcome(*c, None, scaled_row(*c, peer as int), threshold, max_iterations as nat, r),
{
    if peer >= c.den.len() {
        return Err(TrustError::InvalidConfiguration);
    }
    let start = scaled_line(c, peer, false);
    propagate(c, &start, &None, threshold, max_iterations)
}

/// Damped power iteration `t <- (1 - a) · Cᵗ · t + a · p`, started from the
/// pre-trust vector `p`.
pub fn basic_eigen_trust(
    c: &TrustMatrix,
    damping: Damping,
    threshold: u64,
    max_iterations: usize,
) -> (r: Result<(Vec<u64>, usize), TrustError>)
    requires
        c.wf(),
    ensures
        damping.pre_trust@.len() != c.dim()
            ==> r == Err::<(Vec<u64>, usize), TrustError>(TrustError::DimensionMismatch),
        damping.pre_trust@.len() == c.dim() && !config_valid(*c, Some(damping), threshold)
            ==> r == Err::<(Vec<u64>, usize), TrustError>(TrustError::InvalidConfiguration),
        damping.pre_trust@.len() == c.dim() && config_valid(*c, Some(damping), threshold)
            ==> run_outcome(*c, Some(damping), ints(damping.pre_trust@), threshold, max_iterations as nat, r),
{
    let start = copy_of(&damping.pre_trust);
    propagate(c, &start, &Some(damping), threshold, max_iterations)
}

/// Applies `t <- Cᵗ · t` exactly `depth` times.
fn iterate_fixed(c: &TrustMatrix, start: Vec<u64>, depth: usize) -> (r: Option<Vec<u64>>)
    requires
        c.wf(),
        start@.len() == c.dim(),
    ensures
        match r {
            Some(v) => ints(v@) == iterate(*c, None, ints(start@), depth as nat),
            None => exists|k: nat| k < depth && !in_range(*c, #[trigger] iterate(*c, None, ints(start@), k)),
        },
{
    let ghost t0 = ints(start@);
    let mut t = start;
    let mut n: usize = 0;
    while n < depth
        invariant
            n <= depth,
            c.wf(),
            t0 == ints(start@),
            t@.len() == c.dim(),
            ints(t@) == iterate(*c, None, t0, n as nat),
        decreases depth - n,
    {
        t = match apply_update(c, &None, &t) {
            Some(v) => v,
            None => {
                assert(!in_range(*c, iterate(*c, None, t0, n as nat)));
                return None;
            },
        };
        n = n + 1;
    }
    Some(t)
}

/// The fixed-depth variant: `(Cᵗ)^depth · C`, column by column (entry `j` of
/// the result is column `j`). It runs exactly `depth` steps, with no
/// convergence test.
pub fn converge(c: &TrustMatrix, depth: usize) -> (r: Result<Vec<Vec<u64>>, TrustError>)
    requires
        c.wf(),
    ensures
        match r {
            Ok(cols) => cols@.len() == c.dim() && forall|j: int| 0 <= j < c.dim() ==>
                ints(#[trigger] cols@[j]@) == iterate(*c, None, scaled_column(*c, j), depth as nat),
            Err(e) => e == TrustError::Overflow && exists|j: int, k: nat| 0 <= j < c.dim() && k < depth
                && !in_range(*c, #[trigger] iterate(*c, None, scaled_column(*c, j), k)),
        },
{
    let m = c.den.len();
    let mut cols: Vec<Vec<u64>> = Vec::new();
    let mut j: usize = 0;
    while j < m
        invariant
            j <= m,
            m == c.dim(),
            c.wf(),
            cols@.len() == j,
            forall|x: int| 0 <= x < j ==>
                ints(#[trigger] cols@[x]@) == iterate(*c, None, scaled_column(*c, x), depth as nat),
        decreases m - j,
    {
        let col = scaled_line(c, j, true);
        match iterate_fixed(c, col, depth) {
            Some(v) => cols.push(v),
            None => return Err(TrustError::Overflow),
        }
        j = j + 1;
    }
    Ok(cols)
}

/// Every entry of C is `1 / M`.
pub open spec fn is_uniform(c: TrustMatrix) -> bool {
    forall|i: int, j: int| 0 <= i < c.dim() && 0 <= j < c.dim() ==>
        #[trigger] c.entry(i, j) == 1 && c.denom(i) == c.dim()
}

/// Every entry of `t` equals `v`.
pub open spec fn is_flat(t: Seq<int>, v: int) -> bool {
    forall|j: int| 0 <= j < t.len() ==> #[trigger] t[j] == v
}

proof fn lemma_uniform_step(c: TrustMatrix, t: Seq<int>)
    requires
        c.wf(),
        is_uniform(c),
        c.dim() > 0,
        t.len() == c.dim(),
    ensures
        is_flat(update(c, None, t), sum_to(c.dim(), |i: int| t[i] / c.dim())),
        forall|v: int| is_flat(t, v) ==> #[trigger] is_flat(update(c, None, t), c.dim() * (v / c.dim())),
{
    let m = c.dim();
    let g = |i: int| t[i] / m;
    assert forall|j: int| 0 <= j < m implies #[trigger] propagated(c, t, j) == sum_to(m, g) by {
        assert forall|i: int| 0 <= i < m implies #[trigger] weighted(c, t, i, j) == g(i) by {
            assert(c.entry(i, j) == 1 && c.denom(i) == m);
            assert(t[i] * 1 == t[i]);
        }
        lemma_sum_ext(m, |i: int| weighted(c, t, i, j), g);
    }
    assert forall|v: int| is_flat(t, v) implies #[trigger] is_flat(update(c, None, t), m * (v / m)) by {
        lemma_sum_const(m, g, v / m);
    }
}

/// With a uniform C, plain iteration from any start is flat (all entries
/// equal) after one step and does not move from the second step on, so it
/// settles at step 3 whatever the threshold.
pub proof fn lemma_uniform_settles(c: TrustMatrix, t0: Seq<int>, eps: int)
    requires
        c.wf(),
        is_uniform(c),
        c.dim() > 0,
        t0.len() == c.dim(),
    ensures
        exists|v: int| is_flat(iterate(c, None, t0, 1), v),
        iterate(c, None, t0, 3) == iterate(c, None, t0, 2),
        settles_after(c, None, t0, 2, eps),
{
    let m = c.dim();
    let t1 = iterate(c, None, t0, 1);
    let t2 = iterate(c, None, t0, 2);
    let t3 = iterate(c, None, t0, 3);
    reveal_with_fuel(iterate, 4);
    lemma_uniform_step(c, t0);
    let v = sum_to(c.dim(), |i: int| t0[i] / c.dim());
    assert(t1 == update(c, None, t0));
    assert(is_flat(t1, v));
    assert(t2 == update(c, None, t1));
    assert(t3 == update(c, None, t2));
    lemma_uniform_step(c, t1);
    assert(is_flat(t2, m * (v / m)));
    lemma_uniform_step(c, t2);
    let w = m * (v / m);
    assert(w / m == v / m) by (nonlinear_arith) requires w == m * (v / m), m > 0;
    assert(is_flat(t3, m * (w / m)));
    assert(t3 =~= t2);
    lemma_sum_const(m, |i: int| (t2[i] - t3[i]) * (t2[i] - t3[i]), 0);
    assert(0 <= eps * eps) by (nonlinear_arith);
}

/// A fixed point `t` of the damped update satisfies
/// `t = (1 - a) · Cᵗ · t + a · p`, to within one fixed-point unit below
/// (the update rounds down).
pub proof fn lemma_damped_fixed_point(c: TrustMatrix, d: Damping, t: Seq<int>)
    requires
        c.wf(),
        damping_valid(d, c.dim()),
        t.len() == c.dim(),
        update(c, Some(d), t) == t,
    ensures
        forall|j: int| 0 <= j < c.dim() ==>
            d.out_of * t[j] <= #[trigger] ((d.out_of - d.weight) * propagated(c, t, j) + d.weight * d.pre_trust@[j])
            && (d.out_of - d.weight) * propagated(c, t, j) + d.weight * d.pre_trust@[j] < d.out_of * t[j] + d.out_of,
{
    assert forall|j: int| 0 <= j < c.dim() implies
        d.out_of * t[j] <= #[trigger] ((d.out_of - d.weight) * propagated(c, t, j) + d.weight * d.pre_trust@[j])
        && (d.out_of - d.weight) * propagated(c, t, j) + d.weight * d.pre_trust@[j] < d.out_of * t[j] + d.out_of
    by {
        let x = (d.out_of - d.weight) * propagated(c, t, j) + d.weight * d.pre_trust@[j];
        let o = d.out_of as int;
        assert(update(c, Some(d), t)[j] == t[j]);
        assert(t[j] == x / o);
        assert(o * (x / o) <= x < o * (x / o) + o) by (nonlinear_arith) requires o > 0;
    }
}

} // verus!
