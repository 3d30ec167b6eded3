use eigentrust::convergence::has_converged;
use eigentrust::propagate::{
    basic_eigen_trust, converge, propagate, simple_non_distributed_eigen_trust, Damping, SCALE,
};
use eigentrust::{downloads_from_counts, gen_random_downloads_data, generate_sim_data};
use eigentrust::{TrustError, TrustMatrix};

const EPS: u64 = SCALE / 20;

fn zeros(m: usize) -> Vec<Vec<u8>> {
    vec![vec![0u8; m]; m]
}

fn row_sums_match(c: &TrustMatrix) -> bool {
    c.num.iter().zip(c.den.iter()).all(|(row, d)| row.iter().sum::<u64>() == *d && row.iter().all(|v| v <= d))
}

#[test]
fn end_to_end_cycle_normalizes_and_does_not_converge() {
    let sat = vec![vec![0, 5, 0], vec![0, 0, 5], vec![5, 0, 0]];
    let c = TrustMatrix::build(&sat, &zeros(3)).unwrap();
    assert_eq!(c.den, vec![5, 5, 5]);
    assert_eq!(c.num, vec![vec![0, 5, 0], vec![0, 0, 5], vec![5, 0, 0]]);
    let r = simple_non_distributed_eigen_trust(&c, 2, EPS, 100);
    assert_eq!(r.unwrap_err(), TrustError::NonTermination);
}

#[test]
fn two_peer_oscillation_hits_the_cap() {
    let sat = vec![vec![0, 1], vec![1, 0]];
    let c = TrustMatrix::build(&sat, &zeros(2)).unwrap();
    assert_eq!(c.num, vec![vec![0, 1], vec![1, 0]]);
    assert_eq!(c.den, vec![1, 1]);
    let r = propagate(&c, &vec![SCALE, 0], &None, EPS, 50);
    assert_eq!(r.unwrap_err(), TrustError::NonTermination);
}

#[test]
fn rows_without_positive_trust_fall_back_to_uniform() {
    let sat = vec![vec![0, 2, 0], vec![0, 0, 0], vec![0, 1, 0]];
    let unsat = vec![vec![0, 0, 0], vec![3, 0, 0], vec![0, 4, 0]];
    let c = TrustMatrix::build(&sat, &unsat).unwrap();
    assert_eq!(c.num[0], vec![0, 2, 0]);
    assert_eq!(c.den[0], 2);
    assert_eq!(c.num[1], vec![1, 1, 1]);
    assert_eq!(c.den[1], 3);
    assert_eq!(c.num[2], vec![1, 1, 1]);
    assert_eq!(c.den[2], 3);
}

#[test]
fn signed_difference_uses_positive_parts() {
    let sat = vec![vec![0, 255, 10], vec![7, 0, 200], vec![0, 0, 0]];
    let unsat = vec![vec![0, 5, 20], vec![0, 0, 255], vec![1, 1, 0]];
    let c = TrustMatrix::build(&sat, &unsat).unwrap();
    assert_eq!(c.num[0], vec![0, 250, 0]);
    assert_eq!(c.den[0], 250);
    assert_eq!(c.num[1], vec![7, 0, 0]);
    assert_eq!(c.den[1], 7);
    assert!(row_sums_match(&c));
}

#[test]
fn random_data_builds_row_stochastic_matrices() {
    let (sat, unsat) = generate_sim_data(10);
    assert_eq!(sat.len(), 10);
    for i in 0..10 {
        assert_eq!(sat[i].len(), 10);
        assert_eq!(sat[i][i], 0);
        assert_eq!(unsat[i][i], 0);
    }
    let c = TrustMatrix::build(&sat, &unsat).unwrap();
    assert!(row_sums_match(&c));
    assert!(c.den.iter().all(|d| *d > 0));
}

#[test]
fn random_single_matrix_has_zero_diagonal() {
    let m = gen_random_downloads_data(4);
    assert_eq!(m.len(), 4);
    for i in 0..4 {
        assert_eq!(m[i].len(), 4);
        assert_eq!(m[i][i], 0);
    }
}

#[test]
fn counts_are_laid_out_row_major_off_the_diagonal() {
    let counts: Vec<u8> = (1..=9).collect();
    let m = downloads_from_counts(3, &counts);
    assert_eq!(m, vec![vec![0, 2, 3], vec![4, 0, 6], vec![7, 8, 0]]);
}

#[test]
fn mismatched_dimensions_are_rejected() {
    let sat = vec![vec![0, 1], vec![1, 0]];
    let r = TrustMatrix::build(&sat, &zeros(3));
    assert_eq!(r.err(), Some(TrustError::DimensionMismatch));
    let ragged = vec![vec![0, 1], vec![1]];
    let r = TrustMatrix::build(&ragged, &zeros(2));
    assert_eq!(r.err(), Some(TrustError::DimensionMismatch));
    let c = TrustMatrix::build(&sat, &zeros(2)).unwrap();
    let r = propagate(&c, &vec![SCALE], &None, EPS, 10);
    assert_eq!(r.unwrap_err(), TrustError::DimensionMismatch);
}

#[test]
fn invalid_configurations_are_rejected() {
    let c = TrustMatrix::build(&zeros(2), &zeros(2)).unwrap();
    assert_eq!(simple_non_distributed_eigen_trust(&c, 0, 0, 10).unwrap_err(), TrustError::InvalidConfiguration);
    assert_eq!(simple_non_distributed_eigen_trust(&c, 2, EPS, 10).unwrap_err(), TrustError::InvalidConfiguration);
    let full = Damping { weight: 5, out_of: 5, pre_trust: vec![SCALE / 2, SCALE / 2] };
    assert_eq!(basic_eigen_trust(&c, full, EPS, 10).unwrap_err(), TrustError::InvalidConfiguration);
    let short_sum = Damping { weight: 2, out_of: 5, pre_trust: vec![SCALE / 2, SCALE / 4] };
    assert_eq!(basic_eigen_trust(&c, short_sum, EPS, 10).unwrap_err(), TrustError::InvalidConfiguration);
    let wrong_len = Damping { weight: 2, out_of: 5, pre_trust: vec![SCALE] };
    assert_eq!(basic_eigen_trust(&c, wrong_len, EPS, 10).unwrap_err(), TrustError::DimensionMismatch);
}

#[test]
fn uniform_matrix_converges_to_a_flat_vector() {
    let c = TrustMatrix::build(&zeros(4), &zeros(4)).unwrap();
    let (t, n) = simple_non_distributed_eigen_trust(&c, 1, EPS, 10).unwrap();
    assert_eq!(t, vec![SCALE / 4; 4]);
    assert_eq!(n, 1);
    let (t, n) = propagate(&c, &vec![SCALE, 0, 0, 0], &None, 1, 10).unwrap();
    assert_eq!(t, vec![SCALE / 4; 4]);
    assert!(n <= 3);
}

#[test]
fn damped_iteration_reaches_its_fixed_point() {
    let sat = vec![vec![0, 1, 0], vec![0, 0, 1], vec![1, 0, 0]];
    let c = TrustMatrix::build(&sat, &zeros(3)).unwrap();
    let p = vec![SCALE, 0, 0];
    let d = Damping { weight: 2, out_of: 5, pre_trust: p.clone() };
    let (t, n) = basic_eigen_trust(&c, d, 1000, 500).unwrap();
    assert!(n >= 2);
    // For this cycle, t = 0.6 Cᵗ t + 0.4 p has t = (25, 15, 9) / 49.
    let expect = [25.0 / 49.0, 15.0 / 49.0, 9.0 / 49.0];
    for j in 0..3 {
        let got = t[j] as f64 / SCALE as f64;
        assert!((got - expect[j]).abs() < 1e-5, "entry {j}: {got}");
    }
    // The damped update leaves t unchanged up to rounding and the threshold.
    let ct = [t[2], t[0], t[1]];
    for j in 0..3 {
        let next = (3 * ct[j] as u128 + 2 * p[j] as u128) / 5;
        assert!((next as i128 - t[j] as i128).abs() <= 1000);
    }
}

#[test]
fn fixed_depth_power_is_deterministic() {
    let sat = vec![vec![0, 3, 1], vec![2, 0, 2], vec![4, 4, 0]];
    let unsat = vec![vec![0, 1, 0], vec![0, 0, 3], vec![1, 0, 0]];
    let c = TrustMatrix::build(&sat, &unsat).unwrap();
    let a = converge(&c, 10).unwrap();
    let b = converge(&c, 10).unwrap();
    assert_eq!(a, b);
    assert_eq!(a.len(), 3);
}

#[test]
fn fixed_depth_power_of_a_cycle() {
    let sat = vec![vec![0, 5, 0], vec![0, 0, 5], vec![5, 0, 0]];
    let c = TrustMatrix::build(&sat, &zeros(3)).unwrap();
    // (Cᵗ)³ is the identity for a 3-cycle, so the result is C itself.
    let cols = converge(&c, 3).unwrap();
    assert_eq!(cols, vec![vec![0, 0, SCALE], vec![SCALE, 0, 0], vec![0, SCALE, 0]]);
    // One step: column j of Cᵗ · C.
    let cols = converge(&c, 1).unwrap();
    assert_eq!(cols, vec![vec![SCALE, 0, 0], vec![0, SCALE, 0], vec![0, 0, SCALE]]);
}

#[test]
fn convergence_compares_the_euclidean_norm() {
    let prev = vec![0, 3];
    let next = vec![4, 0];
    assert!(has_converged(&prev, &next, 5));
    assert!(!has_converged(&prev, &next, 4));
    assert!(has_converged(&next, &next, 0));
}

#[test]
fn fallback_weights_replace_rows_without_positive_trust() {
    let sat = vec![vec![0, 4, 0], vec![0, 0, 0], vec![0, 0, 0]];
    let fallback = vec![1, 0, 3];
    let c = TrustMatrix::build_with_fallback(&sat, &zeros(3), &fallback).unwrap();
    assert_eq!(c.num, vec![vec![0, 4, 0], vec![1, 0, 3], vec![1, 0, 3]]);
    assert_eq!(c.den, vec![4, 4, 4]);
}

#[test]
fn unusable_fallback_weights_are_rejected() {
    let sat = zeros(2);
    let r = TrustMatrix::build_with_fallback(&sat, &zeros(2), &vec![0, 0]);
    assert_eq!(r.err(), Some(TrustError::InvalidConfiguration));
    let r = TrustMatrix::build_with_fallback(&sat, &zeros(2), &vec![u64::MAX, 1]);
    assert_eq!(r.err(), Some(TrustError::InvalidConfiguration));
    let r = TrustMatrix::build_with_fallback(&sat, &zeros(2), &vec![1]);
    assert_eq!(r.err(), Some(TrustError::DimensionMismatch));
}
