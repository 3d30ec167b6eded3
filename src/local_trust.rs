use vstd::prelude::*;
use crate::sums::{sum_to, lemma_sum_bounded, lemma_sum_const, lemma_sum_ext, lemma_sum_prefix_le, lemma_term_le_sum};

verus! {

/// The largest peer count accepted: an M x M count matrix holds M * M
/// entries, which must stay addressable.
pub const MAX_PEERS: usize = 0xFFFF_FFFF;

/// Why a trust computation was refused or stopped.
#[derive(Debug, Clone, Copy, PartialEq, Eq, Structural)]
pub enum TrustError {
    /// The input matrices or vectors do not share one square dimension.
    DimensionMismatch,
    /// Threshold, damping weight or pre-trust vector out of range.
    InvalidConfiguration,
    /// The iteration cap was reached before successive vectors agreed.
    NonTermination,
    /// A trust value left the 64-bit fixed-point range.
    Overflow,
}

/// `mat` has `m` rows of `m` entries each.
pub open spec fn is_square(mat: Seq<Vec<u8>>, m: int) -> bool {
    &&& mat.len() == m
    &&& forall|i: int| 0 <= i < m ==> #[trigger] mat[i]@.len() == m
}

/// Local trust `s(i, j) = sat(i, j) - unsat(i, j)`.
pub open spec fn local_trust(sat: Seq<Vec<u8>>, unsat: Seq<Vec<u8>>, i: int, j: int) -> int {
    sat[i]@[j] as int - unsat[i]@[j] as int
}

pub open spec fn positive_part(x: int) -> int {
    if x > 0 { x } else { 0 }
}

/// Sum over row `i` of the positive parts of local trust.
pub open spec fn positive_row_sum(sat: Seq<Vec<u8>>, unsat: Seq<Vec<u8>>, i: int) -> int {
    sum_to(sat.len() as int, |j: int| positive_part(local_trust(sat, unsat, i, j)))
}

/// Sum of the fallback weights.
pub open spec fn fallback_total(fb: Seq<u64>) -> int {
    sum_to(fb.len() as int, |j: int| fb[j] as int)
}

/// The default fallback: equal weight on every peer, giving `1 / M`.
pub open spec fn flat(m: int) -> Seq<u64> {
    Seq::new(m as nat, |j: int| 1u64)
}

/// Fallback weights usable for `m` peers: one per peer, with a positive
/// total that fits in 64 bits.
pub open spec fn fallback_valid(fb: Seq<u64>, m: int) -> bool {
    &&& fb.len() == m
    &&& m == 0 || 0 < fallback_total(fb)
    &&& fallback_total(fb) <= u64::MAX
}

/// Numerator of the normalized entry `c(i, j)`: the clamped local trust, or
/// the fallback weight `fb[j]` in a row with no positive entry.
pub open spec fn normalized_num(sat: Seq<Vec<u8>>, unsat: Seq<Vec<u8>>, fb: Seq<u64>, i: int, j: int) -> int {
    if positive_row_sum(sat, unsat, i) == 0 {
        fb[j] as int
    } else {
        positive_part(local_trust(sat, unsat, i, j))
    }
}

/// Denominator shared by row `i` of the normalized matrix: the positive row
/// sum, or the total fallback weight in a row with no positive entry.
pub open spec fn normalized_den(sat: Seq<Vec<u8>>, unsat: Seq<Vec<u8>>, fb: Seq<u64>, i: int) -> int {
    if positive_row_sum(sat, unsat, i) == 0 {
        fallback_total(fb)
    } else {
        positive_row_sum(sat, unsat, i)
    }
}

/// A normalized local trust matrix C, held exactly: `c(i, j)` is
/// `num[i][j] / den[i]`.
pub struct TrustMatrix {
    pub num: Vec<Vec<u64>>,
    pub den: Vec<u64>,
}

impl TrustMatrix {
    pub open spec fn dim(&self) -> int {
        self.den@.len() as int
    }

    pub open spec fn entry(&self, i: int, j: int) -> int {
        self.num@[i]@[j] as int
    }

    pub open spec fn denom(&self, i: int) -> int {
        self.den@[i] as int
    }

    pub open spec fn row_sum(&self, i: int) -> int {
        sum_to(self.dim(), |j: int| self.entry(i, j))
    }

    /// Square, and row-stochastic: in each row the numerators add up to the
    /// row's positive denominator, so every entry lies in [0, 1] and each row
    /// sums to exactly 1.
    pub open spec fn wf(&self) -> bool {
        &&& self.num@.len() == self.dim()
        &&& forall|i: int| 0 <= i < self.dim() ==> #[trigger] self.num@[i]@.len() == self.dim()
        &&& forall|i: int| 0 <= i < self.dim() ==> #[trigger] self.denom(i) > 0
        &&& forall|i: int| 0 <= i < self.dim() ==> #[trigger] self.row_sum(i) == self.denom(i)
        &&& forall|i: int, j: int|
            0 <= i < self.dim() && 0 <= j < self.dim() ==> #[trigger] self.entry(i, j) <= self.denom(i)
    }

    /// C is the normalization of the local trust `sat - unsat`, with
    /// fallback weights `fb` for rows without positive trust.
    pub open spec fn normalizes(&self, sat: Seq<Vec<u8>>, unsat: Seq<Vec<u8>>, fb: Seq<u64>) -> bool {
        &&& self.dim() == sat.len()
        &&& forall|i: int| 0 <= i < self.dim() ==> #[trigger] self.denom(i) == normalized_den(sat, unsat, fb, i)
        &&& forall|i: int, j: int|
            0 <= i < self.dim() && 0 <= j < self.dim() ==> #[trigger] self.entry(i, j) == normalized_num(sat, unsat, fb, i, j)
    }

    /// Builds the normalized local trust matrix from satisfactory and
    /// unsatisfactory interaction counts; a row without positive trust
    /// becomes uniform, `1 / M` in every entry.
    pub fn build(sat: &Vec<Vec<u8>>, unsat: &Vec<Vec<u8>>) -> (r: Result<TrustMatrix, TrustError>)
        requires
            sat@.len() <= MAX_PEERS,
        ensures
            match r {
                Ok(c) => is_square(sat@, sat@.len() as int) && is_square(unsat@, sat@.len() as int)
                    && c.wf() && c.normalizes(sat@, unsat@, flat(sat@.len() as int)),
                Err(e) => e == TrustError::DimensionMismatch && !(is_square(sat@, sat@.len() as int)
                    && is_square(unsat@, sat@.len() as int)),
            },
    {
        let m = sat.len();
        let mut ones: Vec<u64> = Vec::new();
        let mut k: usize = 0;
        while k < m
            invariant
                k <= m,
                ones@ == flat(k as int),
            decreases m - k,
        {
            ones.push(1);
            k = k + 1;
            assert(ones@ =~= flat(k as int));
        }
        proof {
            lemma_sum_const(m as int, |j: int| ones@[j] as int, 1);
            assert(m as int * 1 == m as int);
        }
        Self::build_with_fallback(sat, unsat, &ones)
    }

    /// Builds the normalized local trust matrix, giving a row without
    /// positive trust the distribution `fallback[j] / Σ fallback`.
    pub fn build_with_fallback(sat: &Vec<Vec<u8>>, unsat: &Vec<Vec<u8>>, fallback: &Vec<u64>)
        -> (r: Result<TrustMatrix, TrustError>)
        requires
            sat@.len() <= MAX_PEERS,
        ensures
            match r {
                Ok(c) => is_square(sat@, sat@.len() as int) && is_square(unsat@, sat@.len() as int)
                    && fallback_valid(fallback@, sat@.len() as int)
                    && c.wf() && c.normalizes(sat@, unsat@, fallback@),
                Err(TrustError::DimensionMismatch) => !(is_square(sat@, sat@.len() as int)
                    && is_square(unsat@, sat@.len() as int) && fallback@.len() == sat@.len()),
                Err(TrustError::InvalidConfiguration) => is_square(sat@, sat@.len() as int)
                    && is_square(unsat@, sat@.len() as int) && fallback@.len() == sat@.len()
                    && !fallback_valid(fallback@, sat@.len() as int),
                Err(_) => false,
            },
    {
        let m = sat.len();
        if unsat.len() != m || fallback.len() != m {
            return Err(TrustError::DimensionMismatch);
        }
        let mut k: usize = 0;
        while k < m
            invariant
                k <= m,
                m == sat@.len(),
                m == unsat@.len(),
                forall|i: int| 0 <= i < k ==> #[trigger] sat@[i]@.len() == m,
                forall|i: int| 0 <= i < k ==> #[trigger] unsat@[i]@.len() == m,
            decreases m - k,
        {
            if sat[k].len() != m || unsat[k].len() != m {
                return Err(TrustError::DimensionMismatch);
            }
            k = k + 1;
        }
        let total = match fallback_sum(fallback) {
            Some(t) => t,
            None => return Err(TrustError::InvalidConfiguration),
        };
        if m > 0 && total == 0 {
            return Err(TrustError::InvalidConfiguration);
        }
        let mut num: Vec<Vec<u64>> = Vec::new();
        let mut den: Vec<u64> = Vec::new();
        let mut i: usize = 0;
        while i < m
            invariant
                i <= m,
                m == sat@.len(),
                m <= MAX_PEERS,
                is_square(sat@, m as int),
                is_square(unsat@, m as int),
                fallback@.len() == m,
                fallback_valid(fallback@, m as int),
                total as int == fallback_total(fallback@),
                num@.len() == i,
                den@.len() == i,
                forall|r: int| 0 <= r < i ==> #[trigger] num@[r]@.len() == m,
                forall|r: int| 0 <= r < i ==> #[trigger] den@[r] as int == normalized_den(sat@, unsat@, fallback@, r),
                forall|r: int, j: int| 0 <= r < i && 0 <= j < m ==>
                    #[trigger] num@[r]@[j] as int == normalized_num(sat@, unsat@, fallback@, r, j),
            decreases m - i,
        {
            let (row, d) = normalize_row(sat, unsat, fallback, total, i);
            num.push(row);
            den.push(d);
            i = i + 1;
        }
        let c = TrustMatrix { num, den };
        proof {
            assert forall|r: int| 0 <= r < c.dim() implies #[trigger] c.row_sum(r) == c.denom(r) && c.denom(r) > 0
            by {
                lemma_normalized_row(sat@, unsat@, fallback@, r);
                lemma_sum_ext(m as int, |j: int| c.entry(r, j), |j: int| normalized_num(sat@, unsat@, fallback@, r, j));
            }
            assert forall|r: int, j: int| 0 <= r < c.dim() && 0 <= j < c.dim() implies
                #[trigger] c.entry(r, j) <= c.denom(r)
            by {
                lemma_normalized_row(sat@, unsat@, fallback@, r);
            }
        }
        Ok(c)
    }
}

/// Each normalized row is nonnegative, has a positive denominator and sums to
/// that denominator.
pub proof fn lemma_normalized_row(sat: Seq<Vec<u8>>, unsat: Seq<Vec<u8>>, fb: Seq<u64>, i: int)
    requires
        0 <= i < sat.len(),
        fallback_valid(fb, sat.len() as int),
        is_square(sat, sat.len() as int),
        is_square(unsat, sat.len() as int),
    ensures
        normalized_den(sat, unsat, fb, i) > 0,
        sum_to(sat.len() as int, |j: int| normalized_num(sat, unsat, fb, i, j)) == normalized_den(sat, unsat, fb, i),
        forall|j: int| 0 <= j < sat.len() ==>
            0 <= #[trigger] normalized_num(sat, unsat, fb, i, j) <= normalized_den(sat, unsat, fb, i),
{
    let m = sat.len() as int;
    let f = |j: int| positive_part(local_trust(sat, unsat, i, j));
    lemma_sum_bounded(m, f, 255);
    if positive_row_sum(sat, unsat, i) == 0 {
        let g = |j: int| fb[j] as int;
        lemma_sum_ext(m, |j: int| normalized_num(sat, unsat, fb, i, j), g);
        assert forall|j: int| 0 <= j < m implies
            0 <= #[trigger] normalized_num(sat, unsat, fb, i, j) <= normalized_den(sat, unsat, fb, i) by {
            lemma_term_le_sum(m, g, j);
        }
    } else {
        lemma_sum_ext(m, |j: int| normalized_num(sat, unsat, fb, i, j), f);
        assert forall|j: int| 0 <= j < m implies #[trigger] f(j) <= positive_row_sum(sat, unsat, i) by {
            lemma_term_le_sum(m, f, j);
        }
        assert forall|j: int| 0 <= j < m implies
            0 <= #[trigger] normalized_num(sat, unsat, fb, i, j) <= normalized_den(sat, unsat, fb, i) by {
            lemma_term_le_sum(m, f, j);
        }
    }
}

/// The total of the fallback weights, or `None` where it exceeds 64 bits.
fn fallback_sum(fb: &Vec<u64>) -> (r: Option<u64>)
    ensures
        match r {
            Some(t) => t as int == fallback_total(fb@),
            None => fallback_total(fb@) > u64::MAX,
        },
{
    let n = fb.len();
    let ghost f = |j: int| fb@[j] as int;
    let mut acc: u64 = 0;
    let mut i: usize = 0;
    while i < n
        invariant
            i <= n,
            n == fb@.len(),
            f == (|j: int| fb@[j] as int),
            acc as int == sum_to(i as int, f),
        decreases n - i,
    {
        let x = fb[i];
        assert(sum_to(i as int + 1, f) == sum_to(i as int, f) + f(i as int));
        if x > u64::MAX - acc {
            proof {
                lemma_sum_prefix_le(i as int + 1, n as int, f);
            }
            return None;
        }
        acc = acc + x;
        i = i + 1;
    }
    Some(acc)
}

/// Normalizes row `i`: its numerators and its denominator.
fn normalize_row(sat: &Vec<Vec<u8>>, unsat: &Vec<Vec<u8>>, fallback: &Vec<u64>, total: u64, i: usize)
    -> (r: (Vec<u64>, u64))
    requires
        i < sat@.len(),
        fallback@.len() == sat@.len(),
        total as int == fallback_total(fallback@),
        sat@.len() <= MAX_PEERS,
        is_square(sat@, sat@.len() as int),
        is_square(unsat@, sat@.len() as int),
    ensures
        r.0@.len() == sat@.len(),
        r.1 as int == normalized_den(sat@, unsat@, fallback@, i as int),
        forall|j: int| 0 <= j < sat@.len() ==> #[trigger] r.0@[j] as int == normalized_num(sat@, unsat@, fallback@, i as int, j),
{
    let m = sat.len();
    let srow = &sat[i];
    let urow = &unsat[i];
    let ghost f = |j: int| positive_part(local_trust(sat@, unsat@, i as int, j));
    let mut sum: u64 = 0;
    let mut j: usize = 0;
    while j < m
        invariant
            j <= m,
            m == sat@.len(),
            m == unsat@.len(),
            i < m,
            m <= MAX_PEERS,
            srow@ == sat@[i as int]@,
            urow@ == unsat@[i as int]@,
            srow@.len() == m,
            urow@.len() == m,
            f == (|k: int| positive_part(local_trust(sat@, unsat@, i as int, k))),
            sum as int == sum_to(j as int, f),
            sum <= 255 * j,
        decreases m - j,
    {
        let s = srow[j] as u64;
        let u = urow[j] as u64;
        proof {
            assert(f(j as int) == positive_part(s as int - u as int));
            assert(sum_to(j as int + 1, f) == sum_to(j as int, f) + f(j as int));
        }
        if s > u {
            sum = sum + (s - u);
        }
        j = j + 1;
    }
    let mut row: Vec<u64> = Vec::new();
    let mut j: usize = 0;
    while j < m
        invariant
            j <= m,
            m == sat@.len(),
            m == unsat@.len(),
            i < m,
            srow@ == sat@[i as int]@,
            urow@ == unsat@[i as int]@,
            srow@.len() == m,
            urow@.len() == m,
            sum as int == positive_row_sum(sat@, unsat@, i as int),
            fallback@.len() == m,
            row@.len() == j,
            forall|k: int| 0 <= k < j ==> #[trigger] row@[k] as int == normalized_num(sat@, unsat@, fallback@, i as int, k),
        decreases m - j,
    {
        let s = srow[j] as u64;
        let u = urow[j] as u64;
        if sum == 0 {
            row.push(fallback[j]);
        } else if s > u {
            row.push(s - u);
        } else {
            row.push(0);
        }
        j = j + 1;
    }
    let d: u64 = if sum == 0 { total } else { sum };
    (row, d)
}

} // verus!
