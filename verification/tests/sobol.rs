use salib::sobol::{SobolDimSet, SobolSampler};

fn unit(state: u32) -> f64 {
    f64::from(state) / 4_294_967_296.0
}

#[test]
fn standard_uses_standard_dim_set() {
    let s = SobolSampler::standard(5);
    assert_eq!(s.dim, 5);
    assert_eq!(s.dim_set, SobolDimSet::Standard);
    assert!(s.skip_first);
}

#[test]
fn minimal_uses_minimal_dim_set() {
    let s = SobolSampler::minimal(5);
    assert_eq!(s.dim_set, SobolDimSet::Minimal);
}

#[test]
fn with_skip_first_toggles() {
    let s = SobolSampler::standard(3).with_skip_first(false);
    assert!(!s.skip_first);
}

#[test]
fn standard_max_dim_succeeds() {
    let s = SobolSampler::standard(1000);
    assert_eq!(s.dim, 1000);
}

#[test]
fn sobol_dim_returns_constructor_dim() {
    assert_eq!(SobolSampler::standard(7).dim(), 7);
}

#[test]
fn direction_numbers_dim_one_are_powers_of_two() {
    let s = SobolSampler::standard(1);
    let v = s.direction_numbers(0);
    for i in 1..=32 {
        assert_eq!(v[i], 1u32 << (32 - i));
    }
}

#[test]
fn direction_numbers_dim_two_match_joe_kuo_recurrence() {
    let s = SobolSampler::standard(2);
    let v = s.direction_numbers(1);
    assert_eq!(v[1], 1u32 << 31);
    for i in 2..=32 {
        let want = (v[i - 1] >> 1) ^ v[i - 1];
        assert_eq!(v[i], want, "v[{i}]");
    }
}

#[test]
fn output_shape_matches_n_by_dim() {
    let s = SobolSampler::standard(4);
    let m = s.unit_states(64);
    assert_eq!(m.len(), 64);
    assert!(m.iter().all(|row| row.len() == 4));
}

#[test]
fn zero_n_returns_empty_matrix() {
    let s = SobolSampler::standard(3);
    assert!(s.unit_states(0).is_empty());
}

#[test]
fn output_in_zero_one_open_with_skip_first() {
    let s = SobolSampler::standard(5).with_skip_first(true);
    for row in s.unit_states(256) {
        for v in row {
            assert!((0.0..1.0).contains(&unit(v)));
        }
    }
}

#[test]
fn output_includes_origin_without_skip_first() {
    let s = SobolSampler::standard(3).with_skip_first(false);
    let m = s.unit_states(8);
    assert_eq!(m[0], vec![0, 0, 0]);
}

#[test]
fn dim_one_first_eight_match_canonical_sequence() {
    let s = SobolSampler::standard(1).with_skip_first(false);
    let m = s.unit_states(8);
    let expected = [0.0, 0.5, 0.75, 0.25, 0.375, 0.875, 0.625, 0.125];
    for (i, &want) in expected.iter().enumerate() {
        assert_eq!(unit(m[i][0]), want, "dim 1 point {i}");
    }
}

#[test]
fn dim_one_skip_first_drops_origin() {
    let s = SobolSampler::standard(1).with_skip_first(true);
    let m = s.unit_states(7);
    let expected = [0.5, 0.75, 0.25, 0.375, 0.875, 0.625, 0.125];
    for (i, &want) in expected.iter().enumerate() {
        assert_eq!(unit(m[i][0]), want);
    }
}

#[test]
fn same_config_same_rngstate_produces_identical_output() {
    let s = SobolSampler::standard(5);
    assert_eq!(s.unit_states(128), s.unit_states(128));
}

#[test]
fn first_n_points_are_well_distributed_in_unit_interval() {
    let n = 1024usize;
    let s = SobolSampler::standard(3).with_skip_first(false);
    let m = s.unit_states(n);
    for j in 0..3 {
        let mut bins: Vec<usize> = (0..n).map(|i| (unit(m[i][j]) * n as f64).floor() as usize).collect();
        bins.sort_unstable();
        let expected: Vec<usize> = (0..n).collect();
        assert_eq!(bins, expected, "dim {j} stratification");
    }
}

#[test]
fn dim_two_first_eight_match_canonical_values() {
    let s = SobolSampler::standard(2).with_skip_first(false);
    let m = s.unit_states(8);
    let expected_dim2 = [0.0, 0.5, 0.25, 0.75, 0.375, 0.875, 0.125, 0.625];
    for (i, &want) in expected_dim2.iter().enumerate() {
        assert_eq!(unit(m[i][1]), want, "dim 2 point {i}");
    }
}

#[test]
fn dim_one_alone_produces_one_column() {
    let s = SobolSampler::standard(1);
    let m = s.unit_states(16);
    assert_eq!(m.len(), 16);
    assert!(m.iter().all(|row| row.len() == 1));
}

#[test]
fn large_n_within_resolution_bounds() {
    let s = SobolSampler::standard(3);
    let m = s.unit_states(65536);
    assert_eq!(m.len(), 65536);
    for row in m {
        for v in row {
            assert!((0.0..1.0).contains(&unit(v)));
        }
    }
}

#[test]
fn dim_set_limits_and_rows() {
    assert_eq!(SobolDimSet::Minimal.max_dims(), 100);
    assert_eq!(SobolDimSet::Standard.max_dims(), 1000);
    // Joe–Kuo row of dimension 2: degree 1, a = 0, m = [1].
    let (a, m) = SobolDimSet::Standard.dims(1);
    assert_eq!(a, 0);
    assert_eq!(m, vec![1]);
    let (a, m) = SobolDimSet::Minimal.dims(1);
    assert_eq!(a, 0);
    assert_eq!(m, vec![1]);
}

#[test]
fn minimal_max_dim_succeeds() {
    let s = SobolSampler::minimal(100);
    assert_eq!(s.dim(), 100);
    assert_eq!(s.unit_states(4).len(), 4);
}

#[test]
fn unscrambled_does_not_consume_rng_word_pos() {
    // The integer states are a function of the configuration alone; the
    // generator is never consulted.
    let rng = salib::rng::RngState::from_seed([0; 32]);
    let before = rng;
    let _ = SobolSampler::standard(3).unit_states(64);
    assert_eq!(rng, before);
}

#[test]
fn output_independent_of_rngstate_under_unscrambled() {
    let s = SobolSampler::standard(4);
    let a = s.unit_states(64);
    let b = s.unit_states(64);
    assert_eq!(a, b);
}

#[test]
fn table_rows_belong_to_their_dimensions() {
    // Dimension 3 is table row 1: degree 2, a = 1, m = [1, 3].
    let (a, m) = SobolDimSet::Standard.dims(2);
    assert_eq!(a, 1);
    assert_eq!(m, vec![1, 3]);
    let (a, m) = SobolDimSet::Minimal.dims(2);
    assert_eq!(a, 1);
    assert_eq!(m, vec![1, 3]);
}

#[test]
fn skip_first_shifts_rows_by_one() {
    let with_origin = SobolSampler::standard(5).with_skip_first(false).unit_states(33);
    let without = SobolSampler::standard(5).with_skip_first(true).unit_states(32);
    assert_eq!(with_origin[0], vec![0; 5]);
    assert_eq!(&with_origin[1..], &without[..]);
}
