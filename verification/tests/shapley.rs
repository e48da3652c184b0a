use salib::permutation::random_permutation;
use salib::rng::RngState;
use salib::shapley::{check_shapley_inputs, ShapleyError};

#[test]
fn zero_factors_errors() {
    assert_eq!(check_shapley_inputs(0, 100, 1, 3, 1000).unwrap_err(), ShapleyError::ZeroFactors);
}

#[test]
fn zero_perm_errors() {
    assert_eq!(check_shapley_inputs(2, 0, 1, 3, 1000).unwrap_err(), ShapleyError::ZeroPermutations);
}

#[test]
fn insufficient_inner_errors() {
    let err = check_shapley_inputs(2, 10, 1, 1, 1000).unwrap_err();
    assert!(matches!(err, ShapleyError::InsufficientInner { .. }));
}

#[test]
fn remaining_shapley_errors_in_order() {
    assert_eq!(check_shapley_inputs(2, 10, 0, 1, 1).unwrap_err(), ShapleyError::ZeroOuter);
    assert_eq!(check_shapley_inputs(2, 10, 1, 2, 1).unwrap_err(), ShapleyError::InsufficientVar { n_var: 1 });
    assert_eq!(check_shapley_inputs(2, 10, 1, 2, 2), Ok(()));
}

#[test]
fn random_permutation_is_a_permutation() {
    let mut rng = RngState::from_seed([1; 32]);
    for k in 1..=8 {
        let before = rng.word_pos;
        let perm = random_permutation(k, &mut rng);
        assert_eq!(perm.len(), k);
        assert_eq!(rng.word_pos, before + (k as u128 - 1));
        let mut sorted = perm.clone();
        sorted.sort_unstable();
        assert_eq!(sorted, (0..k).collect::<Vec<_>>());
    }
}
