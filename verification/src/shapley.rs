//! Input validation of the Shapley-effect estimator (Song, Nelson &
//! Staum 2016). The estimator itself evaluates a caller's floating-point
//! model; its permutations are drawn by
//! [`random_permutation`](crate::permutation::random_permutation).

use vstd::prelude::*;

verus! {

/// Errors from the Shapley estimator.
#[derive(Debug, Clone, Copy, PartialEq, Eq, Structural)]
#[non_exhaustive]
pub enum ShapleyError {
    /// No factors.
    ZeroFactors,
    /// `n_perm` was 0.
    ZeroPermutations,
    /// `n_outer` was 0.
    ZeroOuter,
    /// `n_inner < 2`: a sample variance needs two values.
    InsufficientInner { n_inner: usize },
    /// `n_var < 2`.
    InsufficientVar { n_var: usize },
}

/// Which inputs the estimator refuses, in the order it checks them.
pub open spec fn shapley_check_spec(k: usize, n_perm: usize, n_outer: usize, n_inner: usize, n_var: usize) -> Result<
    (),
    ShapleyError,
> {
    if k == 0 {
        Err(ShapleyError::ZeroFactors)
    } else if n_perm == 0 {
        Err(ShapleyError::ZeroPermutations)
    } else if n_outer == 0 {
        Err(ShapleyError::ZeroOuter)
    } else if n_inner < 2 {
        Err(ShapleyError::InsufficientInner { n_inner })
    } else if n_var < 2 {
        Err(ShapleyError::InsufficientVar { n_var })
    } else {
        Ok(())
    }
}

/// Checks the estimator's arguments: `k` factors, `n_perm` permutations,
/// `n_outer` outer and `n_inner` inner samples per cost, `n_var` samples
/// for the output variance.
pub fn check_shapley_inputs(k: usize, n_perm: usize, n_outer: usize, n_inner: usize, n_var: usize) -> (res:
    Result<(), ShapleyError>)
    ensures
        res == shapley_check_spec(k, n_perm, n_outer, n_inner, n_var),
{
    if k == 0 {
        return Err(ShapleyError::ZeroFactors);
    }
    if n_perm == 0 {
        return Err(ShapleyError::ZeroPermutations);
    }
    if n_outer == 0 {
        return Err(ShapleyError::ZeroOuter);
    }
    if n_inner < 2 {
        return Err(ShapleyError::InsufficientInner { n_inner });
    }
    if n_var < 2 {
        return Err(ShapleyError::InsufficientVar { n_var });
    }
    Ok(())
}

} // verus!
