use salib::multi_index::{enumerate_total_degree, MultiIndex};
use salib::pce::{check_full_fit, check_sparse_fit, sobol_term_sets, sparse_term_cap, PceError, SparseSolver};

#[test]
fn pce_zero_d_errors() {
    assert_eq!(check_full_fit(10, 0, 10, 0, 3).unwrap_err(), PceError::ZeroD);
}

#[test]
fn shape_mismatch_errors() {
    let err = check_full_fit(10, 3, 5, 3, 3).unwrap_err();
    assert!(matches!(err, PceError::ShapeMismatch { .. }));
    assert_eq!(err, PceError::ShapeMismatch { x_rows: 10, y_len: 5 });
}

#[test]
fn families_dim_mismatch_errors() {
    let err = check_full_fit(20, 3, 20, 2, 2).unwrap_err();
    assert!(matches!(err, PceError::FamiliesDimMismatch { .. }));
    assert_eq!(err, PceError::FamiliesDimMismatch { families_len: 2, d: 3 });
}

#[test]
fn pce_insufficient_samples_errors() {
    // d = 3, p = 4: P = 35 > 20.
    let err = check_full_fit(20, 3, 20, 3, 4).unwrap_err();
    assert!(matches!(err, PceError::InsufficientSamples { .. }));
    assert_eq!(err, PceError::InsufficientSamples { n: 20, basis_size: 35 });
}

#[test]
fn full_fit_accepts_and_reports_basis_size() {
    assert_eq!(check_full_fit(35, 3, 35, 3, 4), Ok(35));
    assert_eq!(check_full_fit(16, 2, 16, 2, 3), Ok(10));
}

#[test]
fn omp_zero_d_errors() {
    assert_eq!(check_sparse_fit(10, 0, 10, 0).unwrap_err(), PceError::ZeroD);
}

#[test]
fn lars_shape_mismatch_errors() {
    let err = check_sparse_fit(10, 3, 5, 3).unwrap_err();
    assert!(matches!(err, PceError::ShapeMismatch { .. }));
}

#[test]
fn sparse_fit_needs_two_samples() {
    assert_eq!(check_sparse_fit(1, 2, 1, 2).unwrap_err(), PceError::InsufficientSamples { n: 1, basis_size: 1 });
    assert_eq!(check_sparse_fit(2, 2, 2, 2), Ok(()));
}

#[test]
fn sparse_term_cap_takes_the_smallest_limit() {
    assert_eq!(sparse_term_cap(None, 35, 100), Ok(35));
    assert_eq!(sparse_term_cap(None, 35, 20), Ok(19));
    assert_eq!(sparse_term_cap(Some(5), 35, 100), Ok(5));
    assert_eq!(sparse_term_cap(Some(0), 35, 100).unwrap_err(), PceError::InsufficientSamples { n: 100, basis_size: 35 });
    assert_eq!(sparse_term_cap(None, 0, 100).unwrap_err(), PceError::InsufficientSamples { n: 100, basis_size: 0 });
    let _ = SparseSolver::Omp;
    let _ = SparseSolver::Lars;
}

#[test]
fn sobol_term_sets_for_two_factors_degree_two() {
    // Basis in order: (0,0) (0,1) (0,2) (1,0) (1,1) (2,0).
    let basis = enumerate_total_degree(2, 2).unwrap();
    let sets = sobol_term_sets(&basis, 2);
    assert_eq!(sets.first_order[0], vec![3, 5]);
    assert_eq!(sets.first_order[1], vec![1, 2]);
    assert_eq!(sets.total_order[0], vec![3, 4, 5]);
    assert_eq!(sets.total_order[1], vec![1, 2, 4]);
}

#[test]
fn sobol_total_at_least_first_order_with_interaction() {
    let basis = enumerate_total_degree(3, 3).unwrap();
    let sets = sobol_term_sets(&basis, 3);
    for i in 0..3 {
        for t in &sets.first_order[i] {
            assert!(sets.total_order[i].contains(t));
        }
        assert!(sets.total_order[i].len() > sets.first_order[i].len());
    }
}

#[test]
fn constant_term_enters_no_index() {
    let basis = vec![MultiIndex::new(vec![0, 0]), MultiIndex::new(vec![1, 0])];
    let sets = sobol_term_sets(&basis, 2);
    assert_eq!(sets.first_order[0], vec![1]);
    assert!(sets.first_order[1].is_empty());
    assert!(sets.total_order[1].is_empty());
}
