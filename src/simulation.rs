use vstd::prelude::*;
use crate::local_trust::is_square;

verus! {

/// An M x M count matrix with a zero diagonal: no peer rates itself.
pub open spec fn is_count_matrix(mat: Seq<Vec<u8>>, m: int) -> bool {
    &&& is_square(mat, m)
    &&& forall|i: int| 0 <= i < m ==> #[trigger] mat[i]@[i] == 0
}

/// The drawn count for entry `(i, j)` in row-major order.
pub open spec fn drawn_count(counts: Seq<u8>, m: int, i: int, j: int) -> u8 {
    counts[i * m + j]
}

/// Relies on `rand::random::<u8>` (rand 0.8, the thread-local generator's
/// `gen`): one drawn byte. Nothing is assumed of its value.
#[verifier::external_body]
fn random_count() -> (r: u8) {
    rand::random::<u8>()
}

/// Lays out drawn counts as an M x M matrix: entry `(i, j)` is
/// `counts[i * m + j]` off the diagonal, and 0 on it.
pub fn downloads_from_counts(m: usize, counts: &Vec<u8>) -> (r: Vec<Vec<u8>>)
    requires
        counts@.len() == m * m,
    ensures
        is_count_matrix(r@, m as int),
        forall|i: int, j: int| 0 <= i < m && 0 <= j < m && i != j ==>
            #[trigger] r@[i]@[j] == drawn_count(counts@, m as int, i, j),
{
    let mut rows: Vec<Vec<u8>> = Vec::new();
    let mut i: usize = 0;
    while i < m
        invariant
            i <= m,
            counts@.len() == m * m,
            rows@.len() == i,
            forall|x: int| 0 <= x < i ==> #[trigger] rows@[x]@.len() == m,
            forall|x: int| 0 <= x < i ==> #[trigger] rows@[x]@[x] == 0,
            forall|x: int, y: int| 0 <= x < i && 0 <= y < m && x != y ==>
                #[trigger] rows@[x]@[y] == drawn_count(counts@, m as int, x, y),
        decreases m - i,
    {
        let mut row: Vec<u8> = Vec::new();
        let mut j: usize = 0;
        while j < m
            invariant
                i < m,
                j <= m,
                counts@.len() == m * m,
                row@.len() == j,
                forall|y: int| 0 <= y < j && y == i ==> #[trigger] row@[y] == 0,
                forall|y: int| 0 <= y < j && y != i ==> #[trigger] row@[y] == drawn_count(counts@, m as int, i as int, y),
            decreases m - j,
        {
            if i == j {
                row.push(0);
            } else {
                assert(0 <= i * m && i * m + j < m * m) by (nonlinear_arith) requires i < m, j < m;
                let total = counts.len();
                assert(i * m + j < total);
                let base: usize = i * m;
                row.push(counts[base + j]);
            }
            j = j + 1;
        }
        rows.push(row);
        i = i + 1;
    }
    rows
}

/// A random M x M count matrix: each off-diagonal entry is a drawn byte, the
/// diagonal is 0.
pub fn gen_random_downloads_data(m: usize) -> (r: Vec<Vec<u8>>)
    ensures
        is_count_matrix(r@, m as int),
{
    let mut rows: Vec<Vec<u8>> = Vec::new();
    let mut i: usize = 0;
    while i < m
        invariant
            i <= m,
            rows@.len() == i,
            forall|x: int| 0 <= x < i ==> #[trigger] rows@[x]@.len() == m,
            forall|x: int| 0 <= x < i ==> #[trigger] rows@[x]@[x] == 0,
        decreases m - i,
    {
        let mut row: Vec<u8> = Vec::new();
        let mut j: usize = 0;
        while j < m
            invariant
                i < m,
                j <= m,
                row@.len() == j,
                i < j ==> row@[i as int] == 0,
            decreases m - j,
        {
            if i != j {
                row.push(random_count());
            } else {
                row.push(0);
            }
            j = j + 1;
        }
        rows.push(row);
        i = i + 1;
    }
    rows
}

/// Random satisfactory and unsatisfactory count matrices for a simulated
/// network of `m` peers.
pub fn generate_sim_data(m: usize) -> (r: (Vec<Vec<u8>>, Vec<Vec<u8>>))
    ensures
        is_count_matrix(r.0@, m as int),
        is_count_matrix(r.1@, m as int),
{
    let sat = gen_random_downloads_data(m);
    let unsat = gen_random_downloads_data(m);
    (sat, unsat)
}

} // verus!
