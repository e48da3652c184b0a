use salib::lhs::{LhsKind, LhsSampler};
use salib::owen_matrix::{build_owen_matrix, check_owen, OwenMatrixError};
use salib::rng::RngState;
use salib::saltelli_matrix::{build_saltelli_matrix, check_saltelli, SaltelliError};
use salib::sobol::SobolSampler;

fn fresh_rng() -> RngState {
    RngState::from_seed([0x42; 32])
}

/// Row-major unit sample of an LHS design.
fn lhs_rows(s: &LhsSampler, n: usize, rng: &mut RngState) -> Vec<Vec<f64>> {
    let strata = s.strata(n, rng);
    let norm = 1.0_f64 / (f64::from(u32::MAX) + 1.0);
    (0..n)
        .map(|i| {
            (0..s.dim)
                .map(|j| {
                    let u = match s.kind {
                        LhsKind::Classic => f64::from(strata.offsets[j][i]) * norm,
                        _ => 0.5,
                    };
                    (strata.cells[j][i] as f64 + u) / n as f64
                })
                .collect()
        })
        .collect()
}

fn sobol_rows(s: &SobolSampler, n: usize) -> Vec<Vec<f64>> {
    s.unit_states(n)
        .into_iter()
        .map(|row| row.into_iter().map(|v| f64::from(v) / 4_294_967_296.0).collect())
        .collect()
}

#[test]
fn n_zero_returns_zero_n_error() {
    let base: Vec<Vec<f64>> = Vec::new();
    let err = build_saltelli_matrix(&base, 0, 4, false).unwrap_err();
    assert_eq!(err, SaltelliError::ZeroN);
}

#[test]
fn odd_sampler_dim_returns_odd_base_dim_error() {
    let base: Vec<Vec<f64>> = Vec::new();
    let err = build_saltelli_matrix(&base, 64, 5, false).unwrap_err();
    assert_eq!(err, SaltelliError::OddBaseDim { dim: 5 });
}

#[test]
fn lhs_base_produces_correct_shapes() {
    let s = LhsSampler::classic(6);
    let mut rng = fresh_rng();
    let base = lhs_rows(&s, 64, &mut rng);
    let m = build_saltelli_matrix(&base, 64, 6, false).unwrap();
    assert_eq!(m.n, 64);
    assert_eq!(m.dim, 3);
    assert_eq!(m.a.len(), 64);
    assert!(m.a.iter().all(|r| r.len() == 3));
    assert!(m.b.iter().all(|r| r.len() == 3));
    assert_eq!(m.a_b.len(), 3);
    for ab_i in &m.a_b {
        assert_eq!(ab_i.len(), 64);
        assert!(ab_i.iter().all(|r| r.len() == 3));
    }
    assert!(m.b_a.is_none());
}

#[test]
fn sobol_base_produces_correct_shapes() {
    let s = SobolSampler::standard(8);
    let base = s.unit_states(32);
    let m = build_saltelli_matrix(&base, 32, s.dim(), false).unwrap();
    assert_eq!(m.dim, 4);
    assert_eq!(m.a.len(), 32);
    assert!(m.a.iter().all(|r| r.len() == 4));
    assert_eq!(m.b.len(), 32);
    assert_eq!(m.a_b.len(), 4);
}

#[test]
fn second_order_populates_b_a() {
    let s = LhsSampler::classic(6);
    let mut rng = fresh_rng();
    let base = lhs_rows(&s, 32, &mut rng);
    let m = build_saltelli_matrix(&base, 32, 6, true).unwrap();
    let b_a = m.b_a.as_ref().expect("b_a should be Some");
    assert_eq!(b_a.len(), 3);
    for ba_i in b_a {
        assert_eq!(ba_i.len(), 32);
        assert!(ba_i.iter().all(|r| r.len() == 3));
    }
}

#[test]
fn a_b_i_replaces_column_i_with_b_column_i() {
    let s = LhsSampler::classic(6);
    let mut rng = fresh_rng();
    let base = lhs_rows(&s, 32, &mut rng);
    let m = build_saltelli_matrix(&base, 32, 6, false).unwrap();
    for (i, ab_i) in m.a_b.iter().enumerate() {
        for row in 0..m.n {
            for j in 0..m.dim {
                let want = if j == i { m.b[row][j] } else { m.a[row][j] };
                assert_eq!(ab_i[row][j], want);
            }
        }
    }
}

#[test]
fn b_a_i_replaces_column_i_with_a_column_i() {
    let s = LhsSampler::classic(6);
    let mut rng = fresh_rng();
    let base = lhs_rows(&s, 16, &mut rng);
    let m = build_saltelli_matrix(&base, 16, 6, true).unwrap();
    let b_a = m.b_a.as_ref().unwrap();
    for (i, ba_i) in b_a.iter().enumerate() {
        for row in 0..m.n {
            for j in 0..m.dim {
                let want = if j == i { m.a[row][j] } else { m.b[row][j] };
                assert_eq!(ba_i[row][j], want);
            }
        }
    }
}

#[test]
fn a_and_b_are_disjoint_halves_of_base_sobol_sample() {
    let s = SobolSampler::standard(6).with_skip_first(false);
    let base = sobol_rows(&s, 16);
    let m = build_saltelli_matrix(&base, 16, 6, false).unwrap();
    let base2 = sobol_rows(&s, 16);
    for row in 0..16 {
        for col in 0..3 {
            assert_eq!(m.a[row][col], base2[row][col]);
            assert_eq!(m.b[row][col], base2[row][col + 3]);
        }
    }
}

#[test]
fn same_sampler_same_rng_produces_identical_matrix_lhs() {
    let s = LhsSampler::classic(6);
    let mut r1 = fresh_rng();
    let mut r2 = fresh_rng();
    let m1 = build_saltelli_matrix(&lhs_rows(&s, 64, &mut r1), 64, 6, false).unwrap();
    let m2 = build_saltelli_matrix(&lhs_rows(&s, 64, &mut r2), 64, 6, false).unwrap();
    assert_eq!(m1.a, m2.a);
    assert_eq!(m1.b, m2.b);
    assert_eq!(m1.a_b, m2.a_b);
}

#[test]
fn same_sampler_same_rng_produces_identical_matrix_sobol() {
    let s = SobolSampler::standard(8);
    let m1 = build_saltelli_matrix(&s.unit_states(32), 32, 8, false).unwrap();
    let m2 = build_saltelli_matrix(&s.unit_states(32), 32, 8, false).unwrap();
    assert_eq!(m1.a, m2.a);
    assert_eq!(m1.b, m2.b);
}

#[test]
fn distinct_lhs_streams_produce_different_matrices() {
    let s = LhsSampler::classic(4);
    let mut r1 = RngState::from_parts([0; 32], 1, 0);
    let mut r2 = RngState::from_parts([0; 32], 2, 0);
    let m1 = build_saltelli_matrix(&lhs_rows(&s, 32, &mut r1), 32, 4, false).unwrap();
    let m2 = build_saltelli_matrix(&lhs_rows(&s, 32, &mut r2), 32, 4, false).unwrap();
    assert_ne!(m1.a, m2.a);
}

#[test]
fn total_evaluations_first_total_is_n_times_d_plus_two() {
    let s = LhsSampler::classic(6);
    let mut rng = fresh_rng();
    let m = build_saltelli_matrix(&lhs_rows(&s, 64, &mut rng), 64, 6, false).unwrap();
    assert_eq!(m.total_evaluations(), 64 * 5);
}

#[test]
fn total_evaluations_with_second_order_is_n_times_two_d_plus_two() {
    let s = LhsSampler::classic(6);
    let mut rng = fresh_rng();
    let m = build_saltelli_matrix(&lhs_rows(&s, 32, &mut rng), 32, 6, true).unwrap();
    assert_eq!(m.total_evaluations(), 32 * 8);
}

#[test]
fn dim_is_half_of_sampler_dim() {
    for d in [1usize, 2, 5, 10, 50] {
        let s = LhsSampler::classic(2 * d);
        let mut rng = fresh_rng();
        let m = build_saltelli_matrix(&lhs_rows(&s, 16, &mut rng), 16, 2 * d, false).unwrap();
        assert_eq!(m.dim, d);
        assert_eq!(m.a_b.len(), d);
    }
}

#[test]
fn minimum_d_is_one_with_two_dim_sampler() {
    let s = LhsSampler::classic(2);
    let mut rng = fresh_rng();
    let m = build_saltelli_matrix(&lhs_rows(&s, 32, &mut rng), 32, 2, false).unwrap();
    assert_eq!(m.dim, 1);
    assert_eq!(m.a.len(), 32);
    assert!(m.a.iter().all(|r| r.len() == 1));
}

#[test]
fn n_one_returns_one_row_matrices() {
    let s = LhsSampler::classic(4);
    let mut rng = fresh_rng();
    let m = build_saltelli_matrix(&lhs_rows(&s, 1, &mut rng), 1, 4, true).unwrap();
    assert_eq!(m.a.len(), 1);
    assert_eq!(m.b.len(), 1);
    assert!(m.a_b.iter().all(|x| x.len() == 1));
}

#[test]
fn large_n_and_d() {
    let s = LhsSampler::classic(40);
    let mut rng = fresh_rng();
    let m = build_saltelli_matrix(&lhs_rows(&s, 512, &mut rng), 512, 40, false).unwrap();
    assert_eq!(m.dim, 20);
    assert_eq!(m.a_b.len(), 20);
    assert_eq!(m.total_evaluations(), 512 * 22);
}

#[test]
fn a_and_b_differ_when_sampler_produces_nontrivial_output() {
    let s = LhsSampler::classic(6);
    let mut rng = fresh_rng();
    let m = build_saltelli_matrix(&lhs_rows(&s, 32, &mut rng), 32, 6, false).unwrap();
    assert_ne!(m.a, m.b);
}

#[test]
fn zero_n_errors() {
    let base: Vec<Vec<f64>> = Vec::new();
    assert_eq!(build_owen_matrix(&base, 0, 9).unwrap_err(), OwenMatrixError::ZeroN);
}

#[test]
fn non_divisible_dim_errors() {
    let base: Vec<Vec<f64>> = Vec::new();
    let err = build_owen_matrix(&base, 64, 7).unwrap_err();
    assert!(matches!(err, OwenMatrixError::NotDivisibleByThree { .. }));
}

#[test]
fn output_shapes_correct() {
    let s = LhsSampler::classic(9);
    let mut rng = fresh_rng();
    let m = build_owen_matrix(&lhs_rows(&s, 64, &mut rng), 64, 9).unwrap();
    assert_eq!(m.n, 64);
    assert_eq!(m.dim, 3);
    for x in [&m.a, &m.b, &m.c] {
        assert_eq!(x.len(), 64);
        assert!(x.iter().all(|r| r.len() == 3));
    }
    assert_eq!(m.a_c.len(), 3);
    assert_eq!(m.b_a.len(), 3);
    for i in 0..3 {
        assert_eq!(m.a_c[i].len(), 64);
        assert_eq!(m.b_a[i].len(), 64);
    }
}

#[test]
fn a_c_replaces_only_column_i() {
    let s = LhsSampler::classic(9);
    let mut rng = fresh_rng();
    let m = build_owen_matrix(&lhs_rows(&s, 32, &mut rng), 32, 9).unwrap();
    for i in 0..3 {
        for k in 0..32 {
            for j in 0..3 {
                let want = if j == i { m.c[k][j] } else { m.a[k][j] };
                assert_eq!(m.a_c[i][k][j], want);
            }
        }
    }
}

#[test]
fn b_a_replaces_only_column_i() {
    let s = LhsSampler::classic(9);
    let mut rng = fresh_rng();
    let m = build_owen_matrix(&lhs_rows(&s, 32, &mut rng), 32, 9).unwrap();
    for i in 0..3 {
        for k in 0..32 {
            for j in 0..3 {
                let want = if j == i { m.a[k][j] } else { m.b[k][j] };
                assert_eq!(m.b_a[i][k][j], want);
            }
        }
    }
}

#[test]
fn total_evaluations_matches_owen_cost() {
    let s = LhsSampler::classic(9);
    let mut rng = fresh_rng();
    let m = build_owen_matrix(&lhs_rows(&s, 100, &mut rng), 100, 9).unwrap();
    assert_eq!(m.total_evaluations(), 900);
}

#[test]
fn determinism_same_seed_yields_identical_matrix() {
    let s = LhsSampler::classic(9);
    let mut rng_a = fresh_rng();
    let mut rng_b = fresh_rng();
    let m1 = build_owen_matrix(&lhs_rows(&s, 64, &mut rng_a), 64, 9).unwrap();
    let m2 = build_owen_matrix(&lhs_rows(&s, 64, &mut rng_b), 64, 9).unwrap();
    assert_eq!(m1.a, m2.a);
    assert_eq!(m1.b, m2.b);
    assert_eq!(m1.c, m2.c);
}

#[test]
fn a_b_c_are_distinct_under_lhs() {
    let s = LhsSampler::classic(9);
    let mut rng = fresh_rng();
    let m = build_owen_matrix(&lhs_rows(&s, 64, &mut rng), 64, 9).unwrap();
    assert_ne!(m.a, m.b);
    assert_ne!(m.a, m.c);
    assert_ne!(m.b, m.c);
}

#[test]
fn owen_blocks_are_thirds_of_integer_sample() {
    let base: Vec<Vec<u32>> = (0..4).map(|r| (0..6).map(|c| 10 * r + c).collect()).collect();
    let m = build_owen_matrix(&base, 4, 6).unwrap();
    assert_eq!(m.a[2], vec![20, 21]);
    assert_eq!(m.b[2], vec![22, 23]);
    assert_eq!(m.c[2], vec![24, 25]);
    assert_eq!(m.a_c[1][3], vec![30, 35]);
    assert_eq!(m.b_a[0][3], vec![30, 33]);
}

#[test]
fn exec_checks_match_builders() {
    assert_eq!(check_saltelli(0, 4), Err(SaltelliError::ZeroN));
    assert_eq!(check_saltelli(8, 5), Err(SaltelliError::OddBaseDim { dim: 5 }));
    assert_eq!(check_saltelli(8, 6), Ok(3));
    assert_eq!(check_owen(0, 9), Err(OwenMatrixError::ZeroN));
    assert_eq!(check_owen(8, 7), Err(OwenMatrixError::NotDivisibleByThree { dim: 7 }));
    assert_eq!(check_owen(8, 9), Ok(3));
}
