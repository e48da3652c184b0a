use salib::fast::{build_fast_design, complementary_frequencies, FastError, FastFrequencies};
use salib::rng::RngState;
use std::f64::consts::PI;

const SEED: [u8; 32] = [0; 32];

fn build(d: usize, n: usize, m: u32) -> FastFrequencies {
    let mut rng = RngState::from_seed(SEED);
    build_fast_design(d, n, m, &mut rng).expect("valid params")
}

fn phase(word: u64) -> f64 {
    (word as f64) / 9_007_199_254_740_992.0 * 2.0 * PI
}

/// Search-curve value of factor `j` at sample `k` of block `i`.
fn sample(f: &FastFrequencies, i: usize, k: usize, j: usize) -> f64 {
    let two_pi_over_n = 2.0 * PI / (f.n_per_factor as f64);
    let s = two_pi_over_n * (k as f64);
    let arg = f64::from(f.omegas[i][j]) * s + phase(f.phase_words[i][j]);
    0.5 + (1.0 / PI) * arg.sin().asin()
}

#[test]
fn fast_zero_d_errors() {
    let mut rng = RngState::from_seed(SEED);
    assert_eq!(build_fast_design(0, 65, 4, &mut rng).unwrap_err(), FastError::ZeroD);
}

#[test]
fn zero_harmonic_errors() {
    let mut rng = RngState::from_seed(SEED);
    assert_eq!(build_fast_design(4, 65, 0, &mut rng).unwrap_err(), FastError::ZeroHarmonic);
}

#[test]
fn fast_insufficient_samples_errors() {
    let mut rng = RngState::from_seed(SEED);
    let err = build_fast_design(4, 64, 4, &mut rng).unwrap_err();
    assert_eq!(err, FastError::InsufficientSamples { n_per_factor: 64, harmonic: 4, minimum: 65 });
}

#[test]
fn minimum_n_succeeds() {
    let design = build(4, 65, 4);
    assert_eq!(design.omegas[0][0], 8);
}

#[test]
fn output_shape_matches_n_per_factor_times_d() {
    let design = build(6, 129, 4);
    assert_eq!(design.omegas.len(), 6);
    assert!(design.omegas.iter().all(|r| r.len() == 6));
    assert_eq!(design.phase_words.len(), 6);
    assert!(design.phase_words.iter().all(|r| r.len() == 6));
    assert_eq!(design.n_per_factor * design.d, 129 * 6);
}

#[test]
fn samples_in_unit_interval() {
    let design = build(6, 129, 4);
    for i in 0..6 {
        for k in 0..129 {
            for j in 0..6 {
                let v = sample(&design, i, k, j);
                assert!((0.0..=1.0).contains(&v), "sample {v} not in [0, 1]");
            }
        }
    }
}

#[test]
fn factor_of_interest_holds_max_frequency_in_its_row() {
    let design = build(6, 129, 4);
    for i in 0..6 {
        let omega_i = design.omegas[i][i];
        for j in 0..6 {
            if j != i {
                assert!(design.omegas[i][j] < omega_i);
            }
        }
    }
}

#[test]
fn complementary_frequencies_below_harmonic_bandwidth() {
    let design = build(6, 129, 4);
    let omega_max = design.omegas[0][0];
    let bound = omega_max / (2 * design.harmonic);
    for i in 0..6 {
        for j in 0..6 {
            if j != i {
                assert!(design.omegas[i][j] <= bound);
            }
        }
    }
}

#[test]
fn complementary_distinct_when_m_large() {
    let design = build(6, 321, 4);
    for i in 0..6 {
        let row: Vec<u32> = (0..6).filter(|&j| j != i).map(|j| design.omegas[i][j]).collect();
        let mut sorted = row.clone();
        sorted.sort_unstable();
        sorted.dedup();
        assert_eq!(sorted.len(), row.len(), "row {i}: {row:?}");
    }
}

#[test]
fn phases_in_zero_to_two_pi() {
    let design = build(6, 129, 4);
    for row in &design.phase_words {
        for &w in row {
            let phi = phase(w);
            assert!((0.0..2.0 * PI).contains(&phi), "phase {phi} not in [0, 2π)");
        }
    }
}

#[test]
fn same_seed_yields_bit_identical_design() {
    let a = build(6, 129, 4);
    let b = build(6, 129, 4);
    assert_eq!(a.omegas, b.omegas);
    assert_eq!(a.phase_words, b.phase_words);
}

#[test]
fn different_seed_yields_different_phases() {
    let mut rng_a = RngState::from_seed([0; 32]);
    let mut rng_b = RngState::from_seed([1; 32]);
    let a = build_fast_design(6, 129, 4, &mut rng_a).unwrap();
    let b = build_fast_design(6, 129, 4, &mut rng_b).unwrap();
    assert_eq!(a.omegas, b.omegas);
    assert_ne!(a.phase_words, b.phase_words);
}

#[test]
fn rng_state_advances_on_build() {
    let mut rng = RngState::from_seed(SEED);
    let before = rng.word_pos;
    let _ = build_fast_design(6, 129, 4, &mut rng).unwrap();
    assert!(rng.word_pos > before);
    assert_eq!(rng.word_pos, before + 2 * 36);
}

#[test]
fn search_curve_at_zero_phase_starts_at_half() {
    let arg: f64 = 0.0;
    let v = 0.5 + (1.0 / PI) * (arg.sin()).asin();
    assert!((v - 0.5).abs() < 1e-15);
}

#[test]
fn search_curve_uniform_marginal_approximately() {
    let design = build(4, 1024, 4);
    for j in 0..4 {
        let mut bins = [0_usize; 10];
        for i in 0..4 {
            for k in 0..1024 {
                let v = sample(&design, i, k, j).clamp(0.0, 0.999_999_9);
                bins[(v * 10.0) as usize] += 1;
            }
        }
        let expected = 4.0 * 1024.0 / 10.0;
        for (b, &count) in bins.iter().enumerate() {
            let dev = (count as f64 - expected).abs() / expected;
            assert!(dev < 0.25, "factor {j} bin {b}: count {count}");
        }
    }
}

#[test]
fn complementary_frequencies_known_values() {
    // ω_max = 8, M = 4: bandwidth ⌊8 / 8⌋ = 1, every complementary
    // frequency is 1.
    assert_eq!(complementary_frequencies(4, 8, 4), vec![1, 1, 1]);
    // ω_max = 40, M = 4: bandwidth 5 ≥ d − 1, evenly spread over 1..=5.
    let comp = complementary_frequencies(6, 40, 4);
    assert_eq!(comp.len(), 5);
    assert_eq!(comp[0], 1);
    assert_eq!(comp[4], 5);
    assert!(comp.windows(2).all(|w| w[0] < w[1]));
}

#[test]
fn minimum_n_frequency_matrix_is_exact() {
    let design = build(4, 65, 4);
    assert_eq!((design.n_per_factor, design.d, design.harmonic), (65, 4, 4));
    for i in 0..4 {
        for j in 0..4 {
            assert_eq!(design.omegas[i][j], if i == j { 8 } else { 1 });
        }
    }
}

#[test]
fn frequency_matrix_rows_follow_complementary_set_for_any_rng_state() {
    let (d, n, m) = (6usize, 321usize, 4u32);
    let omega = ((n - 1) / (2 * m as usize)) as u32;
    let comp = complementary_frequencies(d, omega, m);
    for seed in [[0u8; 32], [9u8; 32]] {
        let mut rng = RngState::from_parts(seed, 3, 17);
        let f = build_fast_design(d, n, m, &mut rng).unwrap();
        for i in 0..d {
            let off: Vec<u32> = (0..d).filter(|&j| j != i).map(|j| f.omegas[i][j]).collect();
            assert_eq!(off, comp);
            assert_eq!(f.omegas[i][i], omega);
            assert!(off.iter().all(|&w| 1 <= w && w <= omega / (2 * m) && w < omega));
        }
    }
}
