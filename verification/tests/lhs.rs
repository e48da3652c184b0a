use salib::lhs::{LhsKind, LhsSampler};
use salib::rng::RngState;

fn fresh_rng(stream: u64) -> RngState {
    RngState::from_parts([0x42; 32], stream, 0)
}

/// Unit values of an LHS design, column-major, from its strata.
fn unit_columns(s: &LhsSampler, n: usize, rng: &mut RngState) -> Vec<Vec<f64>> {
    let strata = s.strata(n, rng);
    let norm = 1.0_f64 / (f64::from(u32::MAX) + 1.0);
    (0..s.dim)
        .map(|j| {
            (0..n)
                .map(|i| {
                    let cell = strata.cells[j][i] as f64;
                    let u = match s.kind {
                        LhsKind::Classic => f64::from(strata.offsets[j][i]) * norm,
                        _ => 0.5,
                    };
                    (cell + u) / n as f64
                })
                .collect()
        })
        .collect()
}

#[test]
fn classic_sets_kind_classic() {
    let s = LhsSampler::classic(5);
    assert_eq!(s.dim, 5);
    assert_eq!(s.kind, LhsKind::Classic);
}

#[test]
fn centered_sets_kind_centered() {
    let s = LhsSampler::centered(3);
    assert_eq!(s.dim, 3);
    assert_eq!(s.kind, LhsKind::Centered);
}

#[test]
fn with_kind_preserves_explicit_kind() {
    let s = LhsSampler::with_kind(7, LhsKind::Centered);
    assert_eq!(s.kind, LhsKind::Centered);
    let s = LhsSampler::with_kind(7, LhsKind::Classic);
    assert_eq!(s.kind, LhsKind::Classic);
}

#[test]
fn kind_accessor_returns_kind() {
    assert_eq!(LhsSampler::classic(3).kind(), LhsKind::Classic);
    assert_eq!(LhsSampler::centered(3).kind(), LhsKind::Centered);
}

#[test]
fn lhs_dim_returns_constructor_dim() {
    assert_eq!(LhsSampler::classic(7).dim(), 7);
    assert_eq!(LhsSampler::centered(11).dim(), 11);
}

#[test]
fn unit_sample_output_shape_matches_n_by_dim() {
    let s = LhsSampler::classic(4);
    let mut rng = fresh_rng(0);
    let strata = s.strata(64, &mut rng);
    assert_eq!(strata.n, 64);
    assert_eq!(strata.cells.len(), 4);
    for j in 0..4 {
        assert_eq!(strata.cells[j].len(), 64);
        assert_eq!(strata.offsets[j].len(), 64);
    }
}

#[test]
fn unit_sample_zero_rows_returns_empty_matrix() {
    let s = LhsSampler::classic(3);
    let mut rng = fresh_rng(0);
    let strata = s.strata(0, &mut rng);
    assert_eq!(strata.cells.len(), 3);
    assert!(strata.cells.iter().all(|c| c.is_empty()));
}

#[test]
fn unit_sample_zero_dim_returns_empty_columns() {
    let s = LhsSampler::classic(0);
    let mut rng = fresh_rng(0);
    let strata = s.strata(8, &mut rng);
    assert_eq!(strata.n, 8);
    assert!(strata.cells.is_empty());
}

#[test]
fn classic_output_in_zero_one_open() {
    let s = LhsSampler::classic(3);
    let mut rng = fresh_rng(0);
    for col in unit_columns(&s, 128, &mut rng) {
        for v in col {
            assert!((0.0..1.0).contains(&v), "out-of-range LHS value {v}");
        }
    }
}

#[test]
fn centered_output_in_zero_one_open() {
    let s = LhsSampler::centered(3);
    let mut rng = fresh_rng(0);
    for col in unit_columns(&s, 128, &mut rng) {
        for v in col {
            assert!((0.0..1.0).contains(&v), "out-of-range centered LHS value {v}");
        }
    }
}

#[test]
fn classic_each_column_has_one_sample_per_stratification_cell() {
    let n = 32;
    let dim = 5;
    let s = LhsSampler::classic(dim);
    let mut rng = fresh_rng(0);
    let cols = unit_columns(&s, n, &mut rng);
    for (j, col) in cols.iter().enumerate() {
        let mut cells: Vec<usize> = col.iter().map(|&x| (x * n as f64).floor() as usize).collect();
        cells.sort_unstable();
        let expected: Vec<usize> = (0..n).collect();
        assert_eq!(cells, expected, "column {j} stratification");
    }
}

#[test]
fn centered_each_column_has_exact_cell_centers() {
    let n = 16;
    let s = LhsSampler::centered(3);
    let mut rng = fresh_rng(0);
    for (j, col) in unit_columns(&s, n, &mut rng).iter().enumerate() {
        let mut col = col.clone();
        col.sort_by(|a, b| a.partial_cmp(b).unwrap());
        let expected: Vec<f64> = (0..n).map(|k| (k as f64 + 0.5) / n as f64).collect();
        for (got, want) in col.iter().zip(expected.iter()) {
            assert!((got - want).abs() < 1e-12, "col {j}: got {got}, want {want}");
        }
    }
}

#[test]
fn unit_sample_is_deterministic_under_same_rng_state() {
    let s = LhsSampler::classic(4);
    let mut r1 = fresh_rng(7);
    let mut r2 = fresh_rng(7);
    let m1 = s.strata(64, &mut r1);
    let m2 = s.strata(64, &mut r2);
    assert_eq!(m1.cells, m2.cells);
    assert_eq!(m1.offsets, m2.offsets);
    assert_eq!(r1, r2);
}

#[test]
fn unit_sample_different_streams_produce_different_matrices() {
    let s = LhsSampler::classic(3);
    let mut r1 = fresh_rng(1);
    let mut r2 = fresh_rng(2);
    let m1 = unit_columns(&s, 32, &mut r1);
    let m2 = unit_columns(&s, 32, &mut r2);
    assert_ne!(m1, m2);
}

#[test]
fn lhs_unit_sample_advances_rng_word_pos() {
    let s = LhsSampler::classic(3);
    let mut rng = fresh_rng(0);
    let initial_word_pos = rng.word_pos;
    let _ = s.strata(32, &mut rng);
    assert!(rng.word_pos > initial_word_pos);
}

#[test]
fn unit_sample_zero_n_does_not_consume_rng() {
    let s = LhsSampler::classic(3);
    let mut rng = fresh_rng(0);
    let initial_word_pos = rng.word_pos;
    let _ = s.strata(0, &mut rng);
    assert_eq!(rng.word_pos, initial_word_pos);
}

#[test]
fn unit_sample_centered_advances_rng_only_for_permutation() {
    let n = 32;
    let mut r_classic = fresh_rng(0);
    let mut r_centered = fresh_rng(0);
    let _ = LhsSampler::classic(2).strata(n, &mut r_classic);
    let _ = LhsSampler::centered(2).strata(n, &mut r_centered);
    assert!(r_classic.word_pos > r_centered.word_pos);
    // Exactly the two shuffles for the centered variant, plus the offsets
    // for the classic one.
    assert_eq!(r_centered.word_pos, 2 * 31);
    assert_eq!(r_classic.word_pos, 2 * (31 + 32));
}

#[test]
fn unit_sample_n_one_returns_single_row() {
    let s = LhsSampler::classic(3);
    let mut rng = fresh_rng(0);
    let cols = unit_columns(&s, 1, &mut rng);
    for col in cols {
        assert_eq!(col.len(), 1);
        assert!(col[0] >= 0.0 && col[0] < 1.0);
    }
}

#[test]
fn unit_sample_n_one_centered_returns_half() {
    let s = LhsSampler::centered(4);
    let mut rng = fresh_rng(0);
    for col in unit_columns(&s, 1, &mut rng) {
        assert_eq!(col, vec![0.5]);
    }
}

#[test]
fn unit_sample_dim_one_handles_single_column() {
    let s = LhsSampler::classic(1);
    let mut rng = fresh_rng(0);
    let strata = s.strata(50, &mut rng);
    let mut cells = strata.cells[0].clone();
    cells.sort_unstable();
    assert_eq!(cells, (0..50).collect::<Vec<usize>>());
}

#[test]
fn classic_columns_are_independent_under_distinct_dims() {
    let s = LhsSampler::classic(2);
    let mut rng = fresh_rng(0);
    let strata = s.strata(64, &mut rng);
    assert_ne!(strata.cells[0], strata.cells[1]);
}

#[test]
fn unit_sample_large_n_performs() {
    let s = LhsSampler::classic(8);
    let mut rng = fresh_rng(0);
    let strata = s.strata(1024, &mut rng);
    assert_eq!(strata.cells.len(), 8);
    assert!(strata.cells.iter().all(|c| c.len() == 1024));
}
