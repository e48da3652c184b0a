//! Polynomial chaos expansions: the input checks of the full and sparse
//! fits, the cap on the sparse active set, and which basis terms carry
//! each factor's first-order and total-order Sobol' index (Sudret 2008).
//!
//! The regression and the polynomial values are floating-point work done
//! by the caller; the term sets here say which coefficients it sums.

use vstd::prelude::*;

use crate::combinatorics::binomial;
use crate::multi_index::{count_nonzero, index_views, total_degree_basis_size, MultiIndex};

verus! {

/// Errors from the PCE fits and the index computation.
#[derive(Debug, Clone, Copy, PartialEq, Eq, Structural)]
#[non_exhaustive]
pub enum PceError {
    /// The sample has `x_rows` rows but `y` has `y_len` values.
    ShapeMismatch { x_rows: usize, y_len: usize },
    /// No factors.
    ZeroD,
    /// One polynomial family per factor is needed.
    FamiliesDimMismatch { families_len: usize, d: usize },
    /// Fewer samples than basis terms.
    InsufficientSamples { n: usize, basis_size: usize },
    /// The normal equations could not be solved.
    SingularDesignMatrix,
    /// The fitted expansion has no variance.
    ZeroVariance,
}

/// The forward-selection solver of a sparse fit.
#[derive(Debug, Clone, Copy, PartialEq, Eq, Structural)]
#[non_exhaustive]
pub enum SparseSolver {
    /// Orthogonal matching pursuit.
    Omp,
    /// Least angle regression.
    Lars,
}

/// Shape checks shared by both fits, in the order they are made.
pub open spec fn shape_check(n: usize, d: usize, y_len: usize, families_len: usize) -> Result<(), PceError> {
    if d == 0 {
        Err(PceError::ZeroD)
    } else if y_len != n {
        Err(PceError::ShapeMismatch { x_rows: n, y_len })
    } else if families_len != d {
        Err(PceError::FamiliesDimMismatch { families_len, d })
    } else {
        Ok(())
    }
}

/// What the full fit accepts, and its basis size `C(d + p, d)`.
pub open spec fn full_fit_check(n: usize, d: usize, y_len: usize, families_len: usize, max_degree: usize) -> Result<
    usize,
    PceError,
> {
    match shape_check(n, d, y_len, families_len) {
        Err(e) => Err(e),
        Ok(()) => {
            let p = binomial((d + max_degree) as nat, d as nat) as usize;
            if n < p {
                Err(PceError::InsufficientSamples { n, basis_size: p })
            } else {
                Ok(p)
            }
        },
    }
}

/// Checks the inputs of a full total-degree fit of `n` samples of `d`
/// factors, and returns the basis size.
pub fn check_full_fit(n: usize, d: usize, y_len: usize, families_len: usize, max_degree: usize) -> (res:
    Result<usize, PceError>)
    requires
        shape_check(n, d, y_len, families_len) is Ok ==> d + max_degree <= usize::MAX && binomial(
            (d + max_degree) as nat,
            d as nat,
        ) <= usize::MAX,
    ensures
        res == full_fit_check(n, d, y_len, families_len, max_degree),
{
    if d == 0 {
        return Err(PceError::ZeroD);
    }
    if y_len != n {
        return Err(PceError::ShapeMismatch { x_rows: n, y_len });
    }
    if families_len != d {
        return Err(PceError::FamiliesDimMismatch { families_len, d });
    }
    let basis_size = total_degree_basis_size(d, max_degree);
    if n < basis_size {
        return Err(PceError::InsufficientSamples { n, basis_size });
    }
    Ok(basis_size)
}

/// What the sparse fit accepts before it builds its basis: the shape
/// checks, and at least two samples.
pub open spec fn sparse_fit_check(n: usize, d: usize, y_len: usize, families_len: usize) -> Result<(), PceError> {
    match shape_check(n, d, y_len, families_len) {
        Err(e) => Err(e),
        Ok(()) => if n < 2 {
            Err(PceError::InsufficientSamples { n, basis_size: 1 })
        } else {
            Ok(())
        },
    }
}

/// Checks the inputs of a sparse fit.
pub fn check_sparse_fit(n: usize, d: usize, y_len: usize, families_len: usize) -> (res: Result<(), PceError>)
    ensures
        res == sparse_fit_check(n, d, y_len, families_len),
{
    if d == 0 {
        return Err(PceError::ZeroD);
    }
    if y_len != n {
        return Err(PceError::ShapeMismatch { x_rows: n, y_len });
    }
    if families_len != d {
        return Err(PceError::FamiliesDimMismatch { families_len, d });
    }
    if n < 2 {
        return Err(PceError::InsufficientSamples { n, basis_size: 1 });
    }
    Ok(())
}

/// The active-set cap of a sparse fit: the requested cap (none means
/// unbounded), at most the basis size and at most `n − 1` (0 for `n = 0`).
pub open spec fn term_cap_spec(max_terms: Option<usize>, basis_size: usize, n: usize) -> nat {
    let requested: nat = match max_terms {
        Some(m) => m as nat,
        None => usize::MAX as nat,
    };
    let well_posed: nat = if n == 0 {
        0
    } else {
        (n - 1) as nat
    };
    let c1 = if requested < basis_size {
        requested
    } else {
        basis_size as nat
    };
    if c1 < well_posed {
        c1
    } else {
        well_posed
    }
}

/// The active-set cap of a sparse fit of `n` samples over `basis_size`
/// candidate terms; a cap of 0 leaves nothing to fit and is refused.
pub fn sparse_term_cap(max_terms: Option<usize>, basis_size: usize, n: usize) -> (res: Result<usize, PceError>)
    ensures
        term_cap_spec(max_terms, basis_size, n) == 0 ==> res == Err::<usize, PceError>(
            PceError::InsufficientSamples { n, basis_size },
        ),
        term_cap_spec(max_terms, basis_size, n) > 0 ==> res == Ok::<usize, PceError>(
            term_cap_spec(max_terms, basis_size, n) as usize,
        ),
{
    let requested = match max_terms {
        Some(m) => m,
        None => usize::MAX,
    };
    let c1 = if requested < basis_size {
        requested
    } else {
        basis_size
    };
    let well_posed = n.saturating_sub(1);
    let cap = if c1 < well_posed {
        c1
    } else {
        well_posed
    };
    if cap == 0 {
        return Err(PceError::InsufficientSamples { n, basis_size });
    }
    Ok(cap)
}

/// Term `alpha` carries the first-order effect of factor `i`: `i` is its
/// only active factor.
pub open spec fn is_first_order_term(alpha: Seq<usize>, i: int) -> bool {
    count_nonzero(alpha) == 1 && alpha[i] > 0
}

/// Term `alpha` enters the total effect of factor `i`: `i` is active in it.
pub open spec fn is_total_order_term(alpha: Seq<usize>, i: int) -> bool {
    alpha[i] > 0
}

/// Positions among the first `upto` terms that carry the first-order
/// effect of factor `i`, in increasing order.
pub open spec fn first_order_positions(terms: Seq<Seq<usize>>, i: int, upto: nat) -> Seq<usize>
    decreases upto,
{
    if upto == 0 {
        Seq::empty()
    } else {
        let rest = first_order_positions(terms, i, (upto - 1) as nat);
        if is_first_order_term(terms[upto - 1], i) {
            rest.push((upto - 1) as usize)
        } else {
            rest
        }
    }
}

/// Positions among the first `upto` terms that enter the total effect of
/// factor `i`, in increasing order.
pub open spec fn total_order_positions(terms: Seq<Seq<usize>>, i: int, upto: nat) -> Seq<usize>
    decreases upto,
{
    if upto == 0 {
        Seq::empty()
    } else {
        let rest = total_order_positions(terms, i, (upto - 1) as nat);
        if is_total_order_term(terms[upto - 1], i) {
            rest.push((upto - 1) as usize)
        } else {
            rest
        }
    }
}

/// For each factor, the basis terms whose variance makes up its
/// first-order and its total-order Sobol' index.
#[derive(Debug, Clone)]
pub struct PceTermSets {
    /// `first_order[i]`: terms in which only factor `i` is active.
    pub first_order: Vec<Vec<usize>>,
    /// `total_order[i]`: terms in which factor `i` is active.
    pub total_order: Vec<Vec<usize>>,
}

/// Two distinct active factors make at least two non-zero entries.
pub proof fn lemma_two_active(alpha: Seq<usize>, i: int, j: int)
    requires
        0 <= i < alpha.len(),
        0 <= j < alpha.len(),
        i != j,
        alpha[i] > 0,
        alpha[j] > 0,
    ensures
        count_nonzero(alpha) >= 2,
    decreases alpha.len(),
{
    if i > 0 && j > 0 {
        lemma_two_active(alpha.drop_first(), i - 1, j - 1);
    } else {
        let k = if i == 0 {
            j
        } else {
            i
        };
        lemma_one_active(alpha.drop_first(), k - 1);
    }
}

/// An active factor makes at least one non-zero entry.
pub proof fn lemma_one_active(alpha: Seq<usize>, i: int)
    requires
        0 <= i < alpha.len(),
        alpha[i] > 0,
    ensures
        count_nonzero(alpha) >= 1,
    decreases alpha.len(),
{
    if i > 0 {
        lemma_one_active(alpha.drop_first(), i - 1);
    }
}

/// `v` with `t` appended at position `i`.
fn push_at(v: &mut Vec<Vec<usize>>, i: usize, t: usize)
    requires
        i < old(v)@.len(),
    ensures
        final(v)@.len() == old(v)@.len(),
        final(v)@[i as int]@ == old(v)@[i as int]@.push(t),
        forall|q: int| 0 <= q < old(v)@.len() && q != i ==> final(v)@[q] == old(v)@[q],
{
    let mut row = v[i].clone();
    proof {
        assert(row@ =~= old(v)@[i as int]@);
    }
    row.push(t);
    v.set(i, row);
}

/// For each of the `d` factors, the terms of the basis that carry its
/// first-order effect and those in which it is active, each in basis
/// order.
pub fn sobol_term_sets(multi_indices: &Vec<MultiIndex>, d: usize) -> (sets: PceTermSets)
    requires
        forall|t: int| 0 <= t < multi_indices@.len() ==> (#[trigger] multi_indices@[t])@.len() == d,
    ensures
        sets.first_order@.len() == d,
        sets.total_order@.len() == d,
        forall|i: int|
            0 <= i < d ==> (#[trigger] sets.first_order@[i])@ == first_order_positions(
                index_views(multi_indices@),
                i,
                multi_indices@.len(),
            ),
        forall|i: int|
            0 <= i < d ==> (#[trigger] sets.total_order@[i])@ == total_order_positions(
                index_views(multi_indices@),
                i,
                multi_indices@.len(),
            ),
{
    let ghost terms = index_views(multi_indices@);
    let mut first_order: Vec<Vec<usize>> = Vec::new();
    let mut total_order: Vec<Vec<usize>> = Vec::new();
    let mut i: usize = 0;
    while i < d
        invariant
            i <= d,
            first_order@.len() == i,
            total_order@.len() == i,
            forall|q: int| 0 <= q < i ==> (#[trigger] first_order@[q])@ == Seq::<usize>::empty(),
            forall|q: int| 0 <= q < i ==> (#[trigger] total_order@[q])@ == Seq::<usize>::empty(),
        decreases d - i,
    {
        first_order.push(Vec::new());
        total_order.push(Vec::new());
        i = i + 1;
    }
    let n_terms = multi_indices.len();
    let mut t: usize = 0;
    while t < n_terms
        invariant
            t <= n_terms,
            n_terms == multi_indices@.len(),
            terms == index_views(multi_indices@),
            forall|q: int| 0 <= q < n_terms ==> (#[trigger] multi_indices@[q])@.len() == d,
            first_order@.len() == d,
            total_order@.len() == d,
            forall|q: int|
                0 <= q < d ==> (#[trigger] first_order@[q])@ == first_order_positions(terms, q, t as nat),
            forall|q: int|
                0 <= q < d ==> (#[trigger] total_order@[q])@ == total_order_positions(terms, q, t as nat),
        decreases n_terms - t,
    {
        let alpha = &multi_indices[t];
        assert(terms[t as int] == alpha@);
        let active = alpha.active_factors();
        if active.len() == 1 {
            let i0 = active[0];
            proof {
                assert forall|q: int| 0 <= q < d && alpha@[q] > 0 implies q == i0 by {
                    assert(active@.contains(q as usize));
                }
                if count_nonzero(alpha@) != 1 {
                    if count_nonzero(alpha@) == 0 {
                        lemma_one_active(alpha@, i0 as int);
                    } else {
                        lemma_exists_second_active(alpha@, i0 as int);
                    }
                }
            }
            push_at(&mut first_order, i0, t);
            proof {
                assert forall|q: int| 0 <= q < d implies (#[trigger] first_order@[q])@ == first_order_positions(
                    terms,
                    q,
                    (t + 1) as nat,
                ) by {
                    if q != i0 {
                        assert(!is_first_order_term(terms[t as int], q));
                    }
                }
            }
        } else {
            proof {
                assert forall|q: int| 0 <= q < d implies !is_first_order_term(terms[t as int], q) by {
                    if is_first_order_term(terms[t as int], q) {
                        assert(active@.contains(q as usize));
                        let k = choose|k: int| 0 <= k < active@.len() && active@[k] == q as usize;
                        if active@.len() >= 2 {
                            let other = if k == 0 {
                                1int
                            } else {
                                0int
                            };
                            lemma_two_active(alpha@, q, active@[other] as int);
                        }
                    }
                }
            }
        }
        let n_active = active.len();
        let mut a: usize = 0;
        while a < n_active
            invariant
                a <= n_active,
                n_active == active@.len(),
                t < n_terms,
                alpha@.len() == d,
                forall|k: int| 0 <= k < active@.len() ==> active@[k] < alpha@.len() && alpha@[active@[k] as int] > 0,
                forall|k: int, l: int| 0 <= k < l < active@.len() ==> active@[k] < active@[l],
                forall|q: int| 0 <= q < alpha@.len() && alpha@[q] > 0 ==> active@.contains(q as usize),
                total_order@.len() == d,
                forall|q: int|
                    0 <= q < d ==> (#[trigger] total_order@[q])@ == if exists|k: int|
                        0 <= k < a && active@[k] == q as usize {
                        total_order_positions(terms, q, t as nat).push(t)
                    } else {
                        total_order_positions(terms, q, t as nat)
                    },
            decreases n_active - a,
        {
            let q0 = active[a];
            let ghost before = total_order@;
            push_at(&mut total_order, q0, t);
            proof {
                assert forall|q: int| 0 <= q < d implies (#[trigger] total_order@[q])@ == if exists|k: int|
                    0 <= k < a + 1 && active@[k] == q as usize {
                    total_order_positions(terms, q, t as nat).push(t)
                } else {
                    total_order_positions(terms, q, t as nat)
                } by {
                    if q == q0 {
                        assert(active@[a as int] == q as usize);
                        if exists|k: int| 0 <= k < a && active@[k] == q as usize {
                            let k = choose|k: int| 0 <= k < a && active@[k] == q as usize;
                            assert(active@[k] < active@[a as int]);
                        }
                    } else {
                        if exists|k: int| 0 <= k < a + 1 && active@[k] == q as usize {
                            let k = choose|k: int| 0 <= k < a + 1 && active@[k] == q as usize;
                            assert(k < a);
                        }
                    }
                }
            }
            a = a + 1;
        }
        proof {
            assert forall|q: int| 0 <= q < d implies (#[trigger] total_order@[q])@ == total_order_positions(
                terms,
                q,
                (t + 1) as nat,
            ) by {
                if alpha@[q] > 0 {
                    assert(active@.contains(q as usize));
                    let k = choose|k: int| 0 <= k < active@.len() && active@[k] == q as usize;
                    assert(0 <= k < n_active && active@[k] == q as usize);
                } else if exists|k: int| 0 <= k < n_active && active@[k] == q as usize {
                    let k = choose|k: int| 0 <= k < n_active && active@[k] == q as usize;
                    assert(alpha@[active@[k] as int] > 0);
                }
            }
        }
        t = t + 1;
    }
    PceTermSets { first_order, total_order }
}

/// A term with exactly one active factor beside more non-zero entries
/// has a second active factor.
proof fn lemma_exists_second_active(alpha: Seq<usize>, i: int)
    requires
        0 <= i < alpha.len(),
        alpha[i] > 0,
        count_nonzero(alpha) >= 2,
    ensures
        exists|j: int| 0 <= j < alpha.len() && j != i && alpha[j] > 0,
    decreases alpha.len(),
{
    if i == 0 {
        assert(count_nonzero(alpha.drop_first()) >= 1);
        let j = lemma_nonzero_witness(alpha.drop_first());
        assert(alpha[j + 1] > 0);
    } else if alpha[0] > 0 {
        assert(alpha[0] > 0);
    } else {
        lemma_exists_second_active(alpha.drop_first(), i - 1);
        let j = choose|j: int| 0 <= j < alpha.drop_first().len() && j != i - 1 && alpha.drop_first()[j] > 0;
        assert(alpha[j + 1] > 0);
    }
}

/// A vector with a non-zero entry has a position holding one.
proof fn lemma_nonzero_witness(s: Seq<usize>) -> (j: int)
    requires
        count_nonzero(s) >= 1,
    ensures
        0 <= j < s.len(),
        s[j] > 0,
    decreases s.len(),
{
    if s[0] > 0 {
        0
    } else {
        let j = lemma_nonzero_witness(s.drop_first());
        j + 1
    }
}

/// Every term that carries the first-order effect of a factor enters its
/// total effect, so the first-order index never exceeds the total-order
/// index.
pub proof fn law_first_order_terms_within_total(terms: Seq<Seq<usize>>, i: int, upto: nat, k: int)
    requires
        0 <= k < first_order_positions(terms, i, upto).len(),
    ensures
        total_order_positions(terms, i, upto).contains(first_order_positions(terms, i, upto)[k]),
    decreases upto,
{
    let rest = first_order_positions(terms, i, (upto - 1) as nat);
    let total_rest = total_order_positions(terms, i, (upto - 1) as nat);
    if k < rest.len() {
        law_first_order_terms_within_total(terms, i, (upto - 1) as nat, k);
        let w = choose|w: int| 0 <= w < total_rest.len() && total_rest[w] == rest[k];
        if is_total_order_term(terms[upto - 1], i) {
            assert(total_order_positions(terms, i, upto)[w] == rest[k]);
        }
    } else {
        let last = total_order_positions(terms, i, upto).len() - 1;
        assert(total_order_positions(terms, i, upto)[last] == (upto - 1) as usize);
    }
}

} // verus!
